use fatfs::entry::{ClusterEntry, FatType};
use fatfs::error::Error;
use fatfs::raw::{read_raw, write_raw};
use fatfs::table::FatTable;

fn empty_table(kind: FatType, clusters: u32, fats: usize) -> FatTable {
    let len = FatTable::required_len(kind, clusters);
    FatTable::new(kind, clusters, vec![0u8; len], fats).unwrap()
}

#[test]
fn variant_follows_cluster_count() {
    assert_eq!(FatType::from_clusters(0), FatType::Fat12);
    assert_eq!(FatType::from_clusters(4084), FatType::Fat12);
    assert_eq!(FatType::from_clusters(4085), FatType::Fat16);
    assert_eq!(FatType::from_clusters(65524), FatType::Fat16);
    assert_eq!(FatType::from_clusters(65525), FatType::Fat32);
}

#[test]
fn marks_of_each_variant() {
    assert_eq!(FatType::Fat12.bad_mark(), 0xFF7);
    assert_eq!(FatType::Fat16.bad_mark(), 0xFFF7);
    assert_eq!(FatType::Fat32.bad_mark(), 0x0FFF_FFF7);
    assert_eq!(FatType::Fat12.end_mark(), 0xFFF);
    assert_eq!(FatType::Fat16.end_mark(), 0xFFFF);
    assert_eq!(FatType::Fat32.end_mark(), 0x0FFF_FFFF);
    assert_eq!(FatType::Fat12.bits(), 12);
    assert_eq!(FatType::Fat16.bits(), 16);
    assert_eq!(FatType::Fat32.bits(), 32);
    assert_eq!(FatType::Fat12.max_clusters(), 4084);
    assert_eq!(FatType::Fat16.max_clusters(), 65524);
    assert_eq!(FatType::Fat32.max_clusters(), 0x0FFF_FFF5);
}

#[test]
fn decode_ranges_fat12() {
    let k = FatType::Fat12;
    assert_eq!(ClusterEntry::decode(k, 100, 0), ClusterEntry::Free);
    assert_eq!(ClusterEntry::decode(k, 100, 1), ClusterEntry::Reserved);
    assert_eq!(ClusterEntry::decode(k, 100, 2), ClusterEntry::Used(2));
    assert_eq!(ClusterEntry::decode(k, 100, 101), ClusterEntry::Used(101));
    assert_eq!(ClusterEntry::decode(k, 100, 102), ClusterEntry::Reserved);
    assert_eq!(ClusterEntry::decode(k, 100, 0xFF6), ClusterEntry::Reserved);
    assert_eq!(ClusterEntry::decode(k, 100, 0xFF7), ClusterEntry::Bad);
    assert_eq!(ClusterEntry::decode(k, 100, 0xFF8), ClusterEntry::EndOfChain);
    assert_eq!(ClusterEntry::decode(k, 100, 0xFFF), ClusterEntry::EndOfChain);
}

#[test]
fn decode_ranges_fat16_and_fat32() {
    assert_eq!(ClusterEntry::decode(FatType::Fat16, 5000, 0xFFF7), ClusterEntry::Bad);
    assert_eq!(ClusterEntry::decode(FatType::Fat16, 5000, 0xFFF8), ClusterEntry::EndOfChain);
    assert_eq!(ClusterEntry::decode(FatType::Fat16, 5000, 0xFFF6), ClusterEntry::Reserved);
    assert_eq!(ClusterEntry::decode(FatType::Fat16, 5000, 5001), ClusterEntry::Used(5001));
    assert_eq!(ClusterEntry::decode(FatType::Fat32, 70000, 0x0FFF_FFF7), ClusterEntry::Bad);
    assert_eq!(ClusterEntry::decode(FatType::Fat32, 70000, 0x0FFF_FFFF), ClusterEntry::EndOfChain);
    assert_eq!(ClusterEntry::decode(FatType::Fat32, 70000, 70001), ClusterEntry::Used(70001));
    assert_eq!(ClusterEntry::decode(FatType::Fat32, 70000, 70002), ClusterEntry::Reserved);
}

#[test]
fn encode_values() {
    assert_eq!(ClusterEntry::Free.encode(FatType::Fat16), 0);
    assert_eq!(ClusterEntry::Used(77).encode(FatType::Fat16), 77);
    assert_eq!(ClusterEntry::EndOfChain.encode(FatType::Fat12), 0xFFF);
    assert_eq!(ClusterEntry::EndOfChain.encode(FatType::Fat32), 0x0FFF_FFFF);
    assert_eq!(ClusterEntry::Bad.encode(FatType::Fat16), 0xFFF7);
    assert_eq!(ClusterEntry::Reserved.encode(FatType::Fat32), 1);
}

#[test]
fn fat12_packs_two_entries_in_three_bytes() {
    let mut bytes = vec![0u8; 6];
    write_raw(FatType::Fat12, &mut bytes, 0, 0xABC);
    write_raw(FatType::Fat12, &mut bytes, 1, 0x123);
    assert_eq!(&bytes[0..3], &[0xBC, 0x3A, 0x12]);
    assert_eq!(read_raw(FatType::Fat12, &bytes, 0), 0xABC);
    assert_eq!(read_raw(FatType::Fat12, &bytes, 1), 0x123);
    write_raw(FatType::Fat12, &mut bytes, 0, 0xFFF);
    assert_eq!(read_raw(FatType::Fat12, &bytes, 1), 0x123);
    write_raw(FatType::Fat12, &mut bytes, 3, 0x5A5);
    write_raw(FatType::Fat12, &mut bytes, 2, 0x0F0);
    assert_eq!(read_raw(FatType::Fat12, &bytes, 3), 0x5A5);
    assert_eq!(read_raw(FatType::Fat12, &bytes, 2), 0x0F0);
    assert_eq!(read_raw(FatType::Fat12, &bytes, 0), 0xFFF);
}

#[test]
fn fat16_is_little_endian() {
    let mut bytes = vec![0u8; 8];
    write_raw(FatType::Fat16, &mut bytes, 2, 0xBEEF);
    assert_eq!(bytes, vec![0, 0, 0, 0, 0xEF, 0xBE, 0, 0]);
    assert_eq!(read_raw(FatType::Fat16, &bytes, 2), 0xBEEF);
}

#[test]
fn fat32_keeps_upper_four_bits() {
    let mut bytes = vec![0u8; 8];
    bytes[7] = 0xA0;
    write_raw(FatType::Fat32, &mut bytes, 1, 0x0234_5678);
    assert_eq!(bytes, vec![0, 0, 0, 0, 0x78, 0x56, 0x34, 0xA2]);
    assert_eq!(read_raw(FatType::Fat32, &bytes, 1), 0x0234_5678);
    write_raw(FatType::Fat32, &mut bytes, 1, 0);
    assert_eq!(bytes[7], 0xA0);
    assert_eq!(read_raw(FatType::Fat32, &bytes, 1), 0);
}

#[test]
fn required_len_per_variant() {
    assert_eq!(FatTable::required_len(FatType::Fat12, 10), 11 + 5 + 2);
    assert_eq!(FatTable::required_len(FatType::Fat16, 10), 24);
    assert_eq!(FatTable::required_len(FatType::Fat32, 10), 48);
}

#[test]
fn new_rejects_bad_geometry() {
    assert!(FatTable::new(FatType::Fat12, 4085, vec![0u8; 10000], 2).is_err());
    assert!(FatTable::new(FatType::Fat16, 10, vec![0u8; 23], 2).is_err());
    assert!(FatTable::new(FatType::Fat16, 10, vec![0u8; 24], 0).is_err());
    assert_eq!(
        FatTable::new(FatType::Fat16, 10, vec![0u8; 23], 2).err(),
        Some(Error::CorruptedFileSystem)
    );
    let t = FatTable::new(FatType::Fat16, 10, vec![0u8; 24], 2).unwrap();
    assert_eq!(t.kind(), FatType::Fat16);
    assert_eq!(t.cluster_count(), 10);
    assert_eq!(t.fat_count(), 2);
}

#[test]
fn read_and_write_entry_bounds() {
    let mut t = empty_table(FatType::Fat16, 10, 2);
    assert_eq!(t.read_entry(0), Err(Error::InvalidInput));
    assert_eq!(t.read_entry(1), Err(Error::InvalidInput));
    assert_eq!(t.read_entry(12), Err(Error::InvalidInput));
    assert_eq!(t.read_entry(2), Ok(ClusterEntry::Free));
    assert_eq!(t.read_entry(11), Ok(ClusterEntry::Free));
    assert_eq!(t.write_entry(1, ClusterEntry::EndOfChain), Err(Error::InvalidInput));
    assert_eq!(t.write_entry(2, ClusterEntry::Used(12)), Err(Error::InvalidInput));
    assert_eq!(t.write_entry(2, ClusterEntry::Used(1)), Err(Error::InvalidInput));
    assert_eq!(t.write_entry(2, ClusterEntry::Used(11)), Ok(()));
    assert_eq!(t.read_entry(2), Ok(ClusterEntry::Used(11)));
    assert_eq!(t.write_entry(3, ClusterEntry::Bad), Ok(()));
    assert_eq!(t.read_entry(3), Ok(ClusterEntry::Bad));
    assert_eq!(t.write_entry(4, ClusterEntry::Reserved), Ok(()));
    assert_eq!(t.read_entry(4), Ok(ClusterEntry::Reserved));
}

#[test]
fn every_entry_round_trips_in_every_variant() {
    for kind in [FatType::Fat12, FatType::Fat16, FatType::Fat32] {
        let mut t = empty_table(kind, 20, 2);
        let entries = [
            ClusterEntry::Free,
            ClusterEntry::Used(2),
            ClusterEntry::Used(21),
            ClusterEntry::EndOfChain,
            ClusterEntry::Bad,
            ClusterEntry::Reserved,
        ];
        for c in 2..22u32 {
            let e = entries[(c as usize) % entries.len()];
            assert_eq!(t.write_entry(c, e), Ok(()));
        }
        for c in 2..22u32 {
            assert_eq!(t.read_entry(c), Ok(entries[(c as usize) % entries.len()]));
        }
    }
}

#[test]
fn allocate_then_follow_has_exactly_n_clusters() {
    for kind in [FatType::Fat12, FatType::Fat16, FatType::Fat32] {
        let mut t = empty_table(kind, 10, 2);
        let head = t.allocate_chain(4, 2).unwrap();
        assert_eq!(head, 2);
        assert_eq!(t.follow_chain(head), Ok(vec![2, 3, 4, 5]));
        assert_eq!(t.count_free(), 6);
    }
}

#[test]
fn allocate_scans_from_hint_and_wraps() {
    let mut t = empty_table(FatType::Fat16, 10, 1);
    t.write_entry(10, ClusterEntry::Bad).unwrap();
    t.write_entry(2, ClusterEntry::EndOfChain).unwrap();
    let head = t.allocate_chain(4, 9).unwrap();
    assert_eq!(head, 9);
    assert_eq!(t.follow_chain(head), Ok(vec![9, 11, 3, 4]));
    assert_eq!(t.read_entry(10), Ok(ClusterEntry::Bad));
    assert_eq!(t.read_entry(2), Ok(ClusterEntry::EndOfChain));
}

#[test]
fn allocate_with_hint_outside_starts_at_two() {
    let mut t = empty_table(FatType::Fat12, 6, 1);
    assert_eq!(t.allocate_chain(2, 8), Ok(2));
    assert_eq!(t.follow_chain(2), Ok(vec![2, 3]));
    assert_eq!(t.allocate_chain(1, 0), Ok(4));
    assert_eq!(t.follow_chain(4), Ok(vec![4]));
}

#[test]
fn allocate_errors() {
    let mut t = empty_table(FatType::Fat16, 5, 2);
    assert_eq!(t.allocate_chain(0, 2), Err(Error::InvalidInput));
    assert_eq!(t.allocate_chain(6, 2), Err(Error::NotEnoughSpace));
    assert_eq!(t.count_free(), 5);
    assert_eq!(t.allocate_chain(5, 4), Ok(4));
    assert_eq!(t.follow_chain(4), Ok(vec![4, 5, 6, 2, 3]));
    assert_eq!(t.allocate_chain(1, 2), Err(Error::NotEnoughSpace));
    assert_eq!(t.count_free(), 0);
}

#[test]
fn extend_splices_behind_last() {
    let mut t = empty_table(FatType::Fat16, 10, 2);
    let head = t.allocate_chain(2, 2).unwrap();
    t.write_entry(4, ClusterEntry::Bad).unwrap();
    assert_eq!(t.extend_chain(3, 3), Ok(7));
    assert_eq!(t.follow_chain(head), Ok(vec![2, 3, 5, 6, 7]));
    assert_eq!(t.extend_chain(7, 0), Ok(7));
    assert_eq!(t.extend_chain(3, 1), Err(Error::InvalidInput));
    assert_eq!(t.extend_chain(1, 1), Err(Error::InvalidInput));
    assert_eq!(t.extend_chain(7, 100), Err(Error::NotEnoughSpace));
    assert_eq!(t.follow_chain(head), Ok(vec![2, 3, 5, 6, 7]));
}

#[test]
fn truncate_frees_the_tail() {
    for kind in [FatType::Fat12, FatType::Fat16, FatType::Fat32] {
        let mut t = empty_table(kind, 10, 2);
        let head = t.allocate_chain(6, 5).unwrap();
        assert_eq!(t.count_free(), 4);
        assert_eq!(t.truncate_chain(head, 2), Ok(4));
        assert_eq!(t.follow_chain(head), Ok(vec![5, 6]));
        assert_eq!(t.count_free(), 8);
        assert_eq!(t.truncate_chain(head, 2), Ok(0));
        assert_eq!(t.truncate_chain(head, 9), Ok(0));
        assert_eq!(t.follow_chain(head), Ok(vec![5, 6]));
        assert_eq!(t.truncate_chain(head, 0), Ok(2));
        assert_eq!(t.count_free(), 10);
        assert_eq!(t.follow_chain(head), Err(Error::CorruptedFileSystem));
        assert_eq!(t.truncate_chain(head, 1), Err(Error::CorruptedFileSystem));
    }
}

#[test]
fn follow_detects_corruption() {
    let mut t = empty_table(FatType::Fat16, 10, 2);
    assert_eq!(t.follow_chain(0), Err(Error::CorruptedFileSystem));
    assert_eq!(t.follow_chain(12), Err(Error::CorruptedFileSystem));
    assert_eq!(t.follow_chain(2), Err(Error::CorruptedFileSystem));
    t.write_entry(2, ClusterEntry::Used(3)).unwrap();
    t.write_entry(3, ClusterEntry::Bad).unwrap();
    assert_eq!(t.follow_chain(2), Err(Error::CorruptedFileSystem));
    t.write_entry(3, ClusterEntry::Reserved).unwrap();
    assert_eq!(t.follow_chain(2), Err(Error::CorruptedFileSystem));
    t.write_entry(3, ClusterEntry::Used(2)).unwrap();
    assert_eq!(t.follow_chain(2), Err(Error::CorruptedFileSystem));
    t.write_entry(3, ClusterEntry::Used(3)).unwrap();
    assert_eq!(t.follow_chain(2), Err(Error::CorruptedFileSystem));
    t.write_entry(3, ClusterEntry::EndOfChain).unwrap();
    assert_eq!(t.follow_chain(2), Ok(vec![2, 3]));
}

#[test]
fn follow_visits_no_cluster_twice() {
    let mut t = empty_table(FatType::Fat12, 50, 2);
    let head = t.allocate_chain(50, 30).unwrap();
    let chain = t.follow_chain(head).unwrap();
    assert_eq!(chain.len(), 50);
    let mut sorted = chain.clone();
    sorted.sort();
    sorted.dedup();
    assert_eq!(sorted.len(), 50);
}

#[test]
fn all_copies_agree_after_mutations() {
    for kind in [FatType::Fat12, FatType::Fat16, FatType::Fat32] {
        let mut t = empty_table(kind, 30, 3);
        let a = t.allocate_chain(7, 2).unwrap();
        let b = t.allocate_chain(5, 20).unwrap();
        t.truncate_chain(a, 3).unwrap();
        let tail = *t.follow_chain(b).unwrap().last().unwrap();
        t.extend_chain(tail, 4).unwrap();
        t.write_entry(31, ClusterEntry::Bad).unwrap();
        let copies = t.into_copies();
        assert_eq!(copies.len(), 3);
        assert_eq!(copies[0], copies[1]);
        assert_eq!(copies[0], copies[2]);
        assert!(copies[0].iter().any(|b| *b != 0));
    }
}

#[test]
fn count_free_counts_free_entries() {
    let mut t = empty_table(FatType::Fat16, 8, 1);
    assert_eq!(t.count_free(), 8);
    t.write_entry(3, ClusterEntry::Bad).unwrap();
    assert_eq!(t.count_free(), 7);
    t.write_entry(3, ClusterEntry::EndOfChain).unwrap();
    assert_eq!(t.count_free(), 7);
    t.write_entry(3, ClusterEntry::Free).unwrap();
    assert_eq!(t.count_free(), 8);
    let mut none = empty_table(FatType::Fat12, 0, 1);
    assert_eq!(none.count_free(), 0);
    assert_eq!(none.allocate_chain(1, 2), Err(Error::NotEnoughSpace));
}
