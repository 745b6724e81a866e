use fatfs::entry::FatType;
use fatfs::error::Error;
use fatfs::file::{File, SeekFrom};
use fatfs::store::ClusterStore;
use fatfs::table::FatTable;

fn volume(kind: FatType, clusters: u32, cluster_size: usize) -> (FatTable, ClusterStore) {
    let len = FatTable::required_len(kind, clusters);
    let fat = FatTable::new(kind, clusters, vec![0u8; len], 2).unwrap();
    // Stale bytes everywhere, so that zero fill shows.
    let store =
        ClusterStore::new(cluster_size, clusters, vec![0xEEu8; clusters as usize * cluster_size])
            .unwrap();
    (fat, store)
}

fn read_all(file: &mut File, fat: &FatTable, store: &ClusterStore) -> Vec<u8> {
    file.seek(SeekFrom::Start(0)).unwrap();
    file.read(fat, store, usize::MAX).unwrap()
}

#[test]
fn store_rejects_wrong_length() {
    assert!(ClusterStore::new(0, 4, vec![]).is_err());
    assert!(ClusterStore::new(4, 4, vec![0; 15]).is_err());
    assert_eq!(ClusterStore::new(4, 4, vec![0; 17]).err(), Some(Error::InvalidInput));
    let s = ClusterStore::new(4, 4, vec![0; 16]).unwrap();
    assert_eq!(s.cluster_size(), 4);
    assert_eq!(s.clusters(), 4);
}

#[test]
fn store_addresses_clusters_from_two() {
    let data: Vec<u8> = (0..12).collect();
    let mut s = ClusterStore::new(4, 3, data).unwrap();
    assert_eq!(s.get(2, 0), 0);
    assert_eq!(s.get(3, 1), 5);
    assert_eq!(s.get(4, 3), 11);
    s.set(3, 2, 99);
    assert_eq!(s.read_cluster(3), vec![4, 5, 99, 7]);
    assert_eq!(s.into_data(), vec![0, 1, 2, 3, 4, 5, 99, 7, 8, 9, 10, 11]);
}

#[test]
fn write_then_read_back() {
    let (mut fat, mut store) = volume(FatType::Fat16, 16, 8);
    let mut f = File::open(0, 0);
    assert_eq!(f.write(&mut fat, &mut store, b"hello, cluster chains!"), Ok(22));
    assert_eq!(f.size(), 22);
    assert_eq!(f.position(), 22);
    assert!(f.is_dirty());
    assert_eq!(f.first_cluster(), 2);
    assert_eq!(fat.follow_chain(2), Ok(vec![2, 3, 4]));
    assert_eq!(read_all(&mut f, &fat, &store), b"hello, cluster chains!".to_vec());
}

#[test]
fn read_stops_at_the_size() {
    let (mut fat, mut store) = volume(FatType::Fat12, 8, 4);
    let mut f = File::open(0, 0);
    f.write(&mut fat, &mut store, &[1, 2, 3, 4, 5]).unwrap();
    f.seek(SeekFrom::Start(3)).unwrap();
    assert_eq!(f.read(&fat, &store, 100), Ok(vec![4, 5]));
    assert_eq!(f.position(), 5);
    assert_eq!(f.read(&fat, &store, 100), Ok(vec![]));
    f.seek(SeekFrom::Start(50)).unwrap();
    assert_eq!(f.read(&fat, &store, 1), Ok(vec![]));
    assert_eq!(f.position(), 50);
    f.seek(SeekFrom::Start(1)).unwrap();
    assert_eq!(f.read(&fat, &store, 2), Ok(vec![2, 3]));
    assert_eq!(f.position(), 3);
}

#[test]
fn write_behind_the_end_fills_the_gap_with_zeros() {
    let (mut fat, mut store) = volume(FatType::Fat16, 16, 4);
    let mut f = File::open(0, 0);
    f.write(&mut fat, &mut store, &[7, 7, 7]).unwrap();
    f.seek(SeekFrom::Start(10)).unwrap();
    assert_eq!(f.size(), 3);
    assert_eq!(f.write(&mut fat, &mut store, &[9, 9]), Ok(2));
    assert_eq!(f.size(), 12);
    assert_eq!(read_all(&mut f, &fat, &store), vec![7, 7, 7, 0, 0, 0, 0, 0, 0, 0, 9, 9]);
}

#[test]
fn overwrite_in_the_middle_keeps_the_rest() {
    let (mut fat, mut store) = volume(FatType::Fat32, 16, 4);
    let mut f = File::open(0, 0);
    f.write(&mut fat, &mut store, &[1, 2, 3, 4, 5, 6, 7, 8, 9, 10]).unwrap();
    f.seek(SeekFrom::Start(3)).unwrap();
    f.write(&mut fat, &mut store, &[40, 50, 60]).unwrap();
    assert_eq!(f.size(), 10);
    assert_eq!(f.position(), 6);
    assert_eq!(read_all(&mut f, &fat, &store), vec![1, 2, 3, 40, 50, 60, 7, 8, 9, 10]);
    f.seek(SeekFrom::End(-2)).unwrap();
    f.write(&mut fat, &mut store, &[91, 92, 93, 94]).unwrap();
    assert_eq!(f.size(), 12);
    assert_eq!(read_all(&mut f, &fat, &store), vec![1, 2, 3, 40, 50, 60, 7, 8, 91, 92, 93, 94]);
}

#[test]
fn empty_write_changes_nothing() {
    let (mut fat, mut store) = volume(FatType::Fat16, 4, 4);
    let mut f = File::open(0, 0);
    f.seek(SeekFrom::Start(9)).unwrap();
    assert_eq!(f.write(&mut fat, &mut store, &[]), Ok(0));
    assert_eq!(f.size(), 0);
    assert_eq!(f.first_cluster(), 0);
    assert!(!f.is_dirty());
    assert_eq!(fat.count_free(), 4);
}

#[test]
fn write_without_space_changes_nothing() {
    let (mut fat, mut store) = volume(FatType::Fat16, 3, 4);
    let mut f = File::open(0, 0);
    f.write(&mut fat, &mut store, &[1, 2, 3, 4, 5]).unwrap();
    let before = f;
    assert_eq!(f.write(&mut fat, &mut store, &[0; 8]), Err(Error::NotEnoughSpace));
    assert_eq!(f, before);
    assert_eq!(fat.count_free(), 1);
    assert_eq!(f.write(&mut fat, &mut store, &[6, 7, 8, 9, 10, 11, 12]), Ok(7));
    assert_eq!(fat.count_free(), 0);
    assert_eq!(read_all(&mut f, &fat, &store), (1..=12).collect::<Vec<u8>>());
}

#[test]
fn write_beyond_the_greatest_size_is_refused() {
    let (mut fat, mut store) = volume(FatType::Fat16, 3, 4);
    let mut f = File::open(0, 0);
    f.seek(SeekFrom::Start(u32::MAX as u64)).unwrap();
    assert_eq!(f.write(&mut fat, &mut store, &[1]), Err(Error::InvalidInput));
}

#[test]
fn broken_chain_is_reported() {
    let (mut fat, mut store) = volume(FatType::Fat16, 8, 4);
    let mut f = File::open(5, 3);
    assert_eq!(f.read(&fat, &store, 1), Err(Error::CorruptedFileSystem));
    assert_eq!(f.write(&mut fat, &mut store, &[1]), Err(Error::CorruptedFileSystem));
    assert_eq!(f.truncate(&mut fat, &mut store, 1), Err(Error::CorruptedFileSystem));
    // A size that the chain cannot hold.
    let head = fat.allocate_chain(1, 2).unwrap();
    let mut g = File::open(head, 5);
    assert_eq!(g.read(&fat, &store, 1), Err(Error::CorruptedFileSystem));
    let mut h = File::open(0, 1);
    assert_eq!(h.read(&fat, &store, 1), Err(Error::CorruptedFileSystem));
}

#[test]
fn seek_is_arithmetic() {
    let mut f = File::open(0, 100);
    assert_eq!(f.seek(SeekFrom::Start(7)), Ok(7));
    assert_eq!(f.seek(SeekFrom::Current(-3)), Ok(4));
    assert_eq!(f.seek(SeekFrom::Current(-5)), Err(Error::InvalidInput));
    assert_eq!(f.position(), 4);
    assert_eq!(f.seek(SeekFrom::End(0)), Ok(100));
    assert_eq!(f.seek(SeekFrom::End(-100)), Ok(0));
    assert_eq!(f.seek(SeekFrom::End(-101)), Err(Error::InvalidInput));
    assert_eq!(f.seek(SeekFrom::End(50)), Ok(150));
    assert_eq!(f.seek(SeekFrom::Start(u32::MAX as u64)), Ok(u32::MAX));
    assert_eq!(f.seek(SeekFrom::Start(u32::MAX as u64 + 1)), Err(Error::InvalidInput));
    assert_eq!(f.seek(SeekFrom::Current(1)), Err(Error::InvalidInput));
    assert_eq!(f.seek(SeekFrom::Current(i64::MIN)), Err(Error::InvalidInput));
    assert_eq!(f.seek(SeekFrom::End(i64::MAX)), Err(Error::InvalidInput));
    assert_eq!(f.position(), u32::MAX);
}

#[test]
fn truncate_shortens_chain_and_size() {
    let (mut fat, mut store) = volume(FatType::Fat16, 16, 4);
    let mut f = File::open(0, 0);
    f.write(&mut fat, &mut store, &(0..30).collect::<Vec<u8>>()).unwrap();
    assert_eq!(fat.count_free(), 8);
    assert_eq!(f.truncate(&mut fat, &mut store, 9), Ok(()));
    assert_eq!(f.size(), 9);
    assert_eq!(f.position(), 30);
    assert_eq!(fat.count_free(), 13);
    assert_eq!(fat.follow_chain(f.first_cluster()), Ok(vec![2, 3, 4]));
    assert_eq!(read_all(&mut f, &fat, &store), (0..9).collect::<Vec<u8>>());
    assert_eq!(f.truncate(&mut fat, &mut store, 0), Ok(()));
    assert_eq!(f.first_cluster(), 0);
    assert_eq!(f.size(), 0);
    assert_eq!(fat.count_free(), 16);
    assert_eq!(read_all(&mut f, &fat, &store), Vec::<u8>::new());
}

#[test]
fn truncate_to_a_greater_size_appends_zeros() {
    let (mut fat, mut store) = volume(FatType::Fat16, 16, 4);
    let mut f = File::open(0, 0);
    f.write(&mut fat, &mut store, &[5, 6, 7]).unwrap();
    f.seek(SeekFrom::Start(1)).unwrap();
    assert_eq!(f.truncate(&mut fat, &mut store, 10), Ok(()));
    assert_eq!(f.size(), 10);
    assert_eq!(f.position(), 1);
    assert_eq!(read_all(&mut f, &fat, &store), vec![5, 6, 7, 0, 0, 0, 0, 0, 0, 0]);
    assert_eq!(f.truncate(&mut fat, &mut store, 1000), Err(Error::NotEnoughSpace));
    assert_eq!(f.size(), 10);
}

#[test]
fn flush_reports_the_entry_and_cleans() {
    let (mut fat, mut store) = volume(FatType::Fat16, 16, 4);
    let mut f = File::open(0, 0);
    f.write(&mut fat, &mut store, &[1; 6]).unwrap();
    assert!(f.is_dirty());
    assert_eq!(f.flush(), (2, 6));
    assert!(!f.is_dirty());
    let mut again = File::open(2, 6);
    assert_eq!(again.read(&fat, &store, 10), Ok(vec![1; 6]));
}

#[test]
fn two_files_do_not_share_clusters() {
    let (mut fat, mut store) = volume(FatType::Fat12, 32, 4);
    let mut a = File::open(0, 0);
    let mut b = File::open(0, 0);
    for round in 0..5u8 {
        a.write(&mut fat, &mut store, &[round; 6]).unwrap();
        b.write(&mut fat, &mut store, &[100 + round; 5]).unwrap();
    }
    let ca = fat.follow_chain(a.first_cluster()).unwrap();
    let cb = fat.follow_chain(b.first_cluster()).unwrap();
    assert!(ca.iter().all(|c| !cb.contains(c)));
    let mut want_a = Vec::new();
    let mut want_b = Vec::new();
    for round in 0..5u8 {
        want_a.extend_from_slice(&[round; 6]);
        want_b.extend_from_slice(&[100 + round; 5]);
    }
    assert_eq!(read_all(&mut a, &fat, &store), want_a);
    assert_eq!(read_all(&mut b, &fat, &store), want_b);
}
