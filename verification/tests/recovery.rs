use fatfs::carve::{recover, Carver};
use fatfs::recovery::{ClusterBelongs, Recovery, RecoveryFactory, RecoveryFile};

/// Accepts clusters whose first byte is the file's tag; a second byte of 0xFF ends the file.
struct Tagged {
    tag: u8,
    seen: usize,
}

impl Recovery for Tagged {
    fn cluster_belongs_to_file(&mut self, cluster: &[u8]) -> ClusterBelongs {
        self.seen += 1;
        if cluster.first() != Some(&self.tag) {
            ClusterBelongs::NotToFile
        } else if cluster.get(1) == Some(&0xFF) {
            ClusterBelongs::IsEndOfFile
        } else {
            ClusterBelongs::ToFile
        }
    }
}

/// A file starts in a cluster whose second byte is 0x01.
struct TagFactory {
    asked: usize,
}

impl RecoveryFactory for TagFactory {
    type State = Tagged;

    fn is_start_of_file(&mut self, cluster: &[u8]) -> Option<Tagged> {
        self.asked += 1;
        if cluster.get(1) == Some(&0x01) {
            Some(Tagged { tag: cluster[0], seen: 0 })
        } else {
            None
        }
    }
}

#[test]
fn new_file_holds_first_cluster_data() {
    let mut f = RecoveryFile::new(Tagged { tag: 4, seen: 0 }, 7, vec![1, 2, 3]);
    assert_eq!(f.cluster_count(), 1);
    assert_eq!(f.cluster_belongs_to_file(9, &[4, 5]), ClusterBelongs::ToFile);
    assert_eq!(f.cluster_count(), 2);
    assert_eq!(f.cluster_belongs_to_file(10, &[5, 5]), ClusterBelongs::NotToFile);
    assert_eq!(f.cluster_count(), 2);
    assert_eq!(f.cluster_belongs_to_file(11, &[4, 0xFF]), ClusterBelongs::IsEndOfFile);
    assert_eq!(f.cluster_count(), 3);
    let (data, state) = f.get_data();
    assert_eq!(data, vec![1, 2, 3, 4, 5, 4, 0xFF]);
    assert_eq!(state.seen, 3);
}

#[test]
fn apply_verdict_appends_only_accepted_clusters() {
    let mut f = RecoveryFile::new(Tagged { tag: 0, seen: 0 }, 2, vec![9]);
    f.apply_verdict(ClusterBelongs::NotToFile, 3, &[1]);
    assert_eq!(f.cluster_count(), 1);
    f.apply_verdict(ClusterBelongs::ToFile, 4, &[2]);
    f.apply_verdict(ClusterBelongs::IsEndOfFile, 5, &[3]);
    assert_eq!(f.cluster_count(), 3);
    let (data, state) = f.get_data();
    assert_eq!(data, vec![9, 2, 3]);
    assert_eq!(state.seen, 0);
}

fn clusters(list: &[(u32, [u8; 3])]) -> Vec<(u32, Vec<u8>)> {
    list.iter().map(|(c, b)| (*c, b.to_vec())).collect()
}

#[test]
fn interleaved_files_are_told_apart() {
    let free = clusters(&[
        (2, [b'a', 0x01, 1]),
        (3, [b'b', 0x01, 2]),
        (5, [b'a', 0, 3]),
        (6, [b'x', 0, 4]),
        (7, [b'b', 0, 5]),
        (9, [b'a', 0xFF, 6]),
        (10, [b'a', 0, 7]),
        (11, [b'b', 0xFF, 8]),
    ]);
    let files = recover(TagFactory { asked: 0 }, &free, 1, 10);
    assert_eq!(files.len(), 2);
    let mut datas = Vec::new();
    for f in files {
        assert_eq!(f.cluster_count(), 3);
        datas.push(f.get_data());
    }
    assert_eq!(datas[0].0, vec![b'a', 0x01, 1, b'a', 0, 3, b'a', 0xFF, 6]);
    assert_eq!(datas[0].1.tag, b'a');
    assert_eq!(datas[1].0, vec![b'b', 0x01, 2, b'b', 0, 5, b'b', 0xFF, 8]);
    // The closed file `a` is not asked about cluster 10 and 11 any more.
    assert_eq!(datas[0].1.seen, 4);
    // `b` is asked about 6, 7, 10, 11: `a` took 5 and 9 before `b` was asked.
    assert_eq!(datas[1].1.seen, 4);
}

#[test]
fn older_file_wins_a_cluster_both_would_take() {
    let free = clusters(&[
        (2, [b'a', 0x01, 0]),
        (3, [b'a', 0x01, 0]),
        (4, [b'a', 0, 0]),
        (5, [b'a', 0, 0]),
    ]);
    let files = recover(TagFactory { asked: 0 }, &free, 0, 10);
    assert_eq!(files.len(), 2);
    let counts: Vec<usize> = files.iter().map(|f| f.cluster_count()).collect();
    assert_eq!(counts, vec![3, 1]);
    let mut states = Vec::new();
    for f in files {
        states.push(f.get_data().1);
    }
    assert_eq!(states[0].seen, 2);
    assert_eq!(states[1].seen, 0);
}

#[test]
fn files_outside_the_bounds_are_discarded() {
    let free = clusters(&[
        (2, [b'a', 0x01, 0]),
        (3, [b'b', 0x01, 0]),
        (4, [b'a', 0, 0]),
        (5, [b'a', 0, 0]),
        (6, [b'c', 0x01, 0]),
        (7, [b'c', 0xFF, 0]),
    ]);
    let counts = |min: usize, max: usize| -> Vec<usize> {
        recover(TagFactory { asked: 0 }, &free, min, max)
            .iter()
            .map(|f| f.cluster_count())
            .collect()
    };
    assert_eq!(counts(0, 10), vec![3, 1, 2]);
    assert_eq!(counts(2, 10), vec![3, 2]);
    assert_eq!(counts(2, 2), vec![2]);
    assert_eq!(counts(1, 1), vec![1]);
    assert_eq!(counts(4, 10), Vec::<usize>::new());
    assert_eq!(counts(3, 2), Vec::<usize>::new());
}

#[test]
fn nothing_free_nothing_recovered() {
    let files = recover(TagFactory { asked: 0 }, &Vec::new(), 0, 100);
    assert!(files.is_empty());
}

#[test]
fn carver_takes_clusters_one_by_one() {
    let mut carver = Carver::new(TagFactory { asked: 0 });
    assert_eq!(carver.file_count(), 0);
    carver.offer(2, &[b'z', 0]);
    assert_eq!(carver.file_count(), 0);
    carver.offer(3, &[b'z', 0x01]);
    assert_eq!(carver.file_count(), 1);
    carver.offer(4, &[b'z', 0]);
    carver.offer(8, &[b'y', 0]);
    carver.offer(9, &[b'z', 0xFF]);
    carver.offer(10, &[b'z', 0]);
    assert_eq!(carver.file_count(), 1);
    let files = carver.finish(3, 3);
    assert_eq!(files.len(), 1);
    let (data, state) = files.into_iter().next().unwrap().get_data();
    assert_eq!(data, vec![b'z', 0x01, b'z', 0, b'z', 0xFF]);
    assert_eq!(state.seen, 3);
}

// ---- Recovery on whole volumes ----

use fatfs::boot::Geometry;
use fatfs::dir::Meta;
use fatfs::error::Error;
use fatfs::file::{File, SeekFrom};
use fatfs::volume::FileSystem;
use std::convert::TryInto;

fn copy_bytes(source: &[u8], target: &mut [u8], offset: usize) {
    let slice = &mut target[offset..offset + source.len()];
    slice.clone_from_slice(&source);
}

fn read_u32(source: &[u8], offset: usize) -> Option<u32> {
    if source.len() < offset + 4 {
        return None;
    }
    let slice = &source[offset..offset + 4];
    Some(u32::from_le_bytes(slice.try_into().unwrap()))
}

fn log_name(client_id: u32) -> Vec<u16> {
    format!("{}.log", client_id).encode_utf16().collect()
}

fn stamp() -> Meta {
    Meta {
        attributes: 0x20,
        case_flags: 0,
        created_tenths: 0,
        created_time: 0,
        created_date: 0x21,
        accessed_date: 0x21,
        modified_time: 0,
        modified_date: 0x21,
        first_cluster: 0,
        size: 0,
    }
}

/// Opens the file of that name in the root directory, or creates it.
fn create_file(fs: &mut FileSystem, name: &[u16]) -> (File, usize) {
    let root = fs.root_dir();
    match fs.open_file(root, name) {
        Ok(opened) => opened,
        Err(Error::NotFound) => {
            let slot = fs.add_entry(root, name, stamp()).unwrap();
            (File::open(0, 0), slot)
        }
        Err(e) => panic!("{:?}", e),
    }
}

fn read_to_end(fs: &FileSystem, name: &[u16]) -> Vec<u8> {
    let (mut file, _) = fs.open_file(fs.root_dir(), name).unwrap();
    fs.read(&mut file, usize::MAX).unwrap()
}

struct Message {
    client_id: u32,
    total_len: u32,
    data: String,
}

impl Message {
    fn new(client_id: u32, message: &str, total_len: u32) -> Self {
        Self { client_id, total_len, data: message.to_owned() }
    }

    fn write(&self, fs: &mut FileSystem) {
        let (mut file, slot) = create_file(fs, &log_name(self.client_id));
        let pos: u32 = file.seek(SeekFrom::End(0)).unwrap();

        if pos == 0 {
            let mut header = vec![0; 8];
            copy_bytes(&self.client_id.to_le_bytes(), &mut header, 0);
            copy_bytes(&self.total_len.to_le_bytes(), &mut header, 4);

            assert_eq!(fs.write(&mut file, &header), Ok(8));
        }

        let data_len: u32 = self.data.len().try_into().unwrap();
        let mut data = vec![0; self.total_len.try_into().unwrap()];

        copy_bytes(&self.client_id.to_le_bytes(), &mut data, 0);
        copy_bytes(&data_len.to_le_bytes(), &mut data, 4);
        copy_bytes(&self.data.as_bytes(), &mut data, 8);

        assert_eq!(fs.write(&mut file, &data), Ok(data.len()));
        let root = fs.root_dir();
        fs.flush(root, slot, &mut file, 0x21, 0).unwrap();
    }
}

fn write_messages(client_count: u32, messages_per_client: u32, fs: &mut FileSystem) {
    let messages: Vec<Message> = (0..client_count)
        .map(|client| {
            Message::new(
                client,
                "Rust is cool!",
                32 * (1 << client), // break the A B C D pattern
            )
            // to keep it simple use cluster_size % block_size == 0
        })
        .collect();
    for _ in 0..messages_per_client {
        for message in &messages {
            message.write(fs);
        }
    }
}

#[derive(Debug, PartialEq, Eq)]
struct MessageRecoveryBase {
    client_id: u32,
    data_len: usize,
}

impl MessageRecoveryBase {
    fn read(source: &[u8], offset: usize) -> Option<Self> {
        let client_id = read_u32(source, offset + 0);
        let data_len = read_u32(source, offset + 4);
        match (client_id, data_len) {
            (Some(client_id), Some(data_len)) => {
                Some(Self { client_id, data_len: data_len.try_into().unwrap() })
            }
            _ => None,
        }
    }
}

#[derive(Debug, PartialEq, Eq)]
struct MessageRecovery {
    client_id: u32,
    block_len: usize,
    next_offset: usize,
    max_data_len: usize,
}

impl MessageRecovery {
    fn check(&self, base: &MessageRecoveryBase) -> ClusterBelongs {
        if base.client_id != self.client_id {
            return ClusterBelongs::NotToFile;
        }
        if base.data_len > self.max_data_len {
            return ClusterBelongs::NotToFile;
        }
        if base.data_len > self.block_len {
            return ClusterBelongs::NotToFile;
        }
        ClusterBelongs::ToFile
    }
}

impl Recovery for MessageRecovery {
    fn cluster_belongs_to_file(&mut self, cluster: &[u8]) -> ClusterBelongs {
        let base = MessageRecoveryBase::read(&cluster, self.next_offset);
        if let Some(base) = base {
            if base.client_id == 0 && base.data_len == 0 {
                return ClusterBelongs::NotToFile;
            }
            let first_check = self.check(&base);
            if first_check == ClusterBelongs::NotToFile {
                return ClusterBelongs::NotToFile;
            }
            self.next_offset += self.block_len;
            while let Some(next) = MessageRecoveryBase::read(&cluster, self.next_offset) {
                let next_check = self.check(&next);
                if next_check == ClusterBelongs::NotToFile {
                    return ClusterBelongs::IsEndOfFile;
                }
                self.next_offset += self.block_len;
            }
            self.next_offset = self.next_offset % cluster.len();
            return ClusterBelongs::ToFile;
        }
        ClusterBelongs::NotToFile
    }
}

struct MessageRecoveryFactory {
    max_client_id: u32,
    max_data_len: usize,
    max_block_len: usize,
}

impl RecoveryFactory for MessageRecoveryFactory {
    type State = MessageRecovery;

    fn is_start_of_file(&mut self, cluster: &[u8]) -> Option<Self::State> {
        let client_id = read_u32(cluster, 0).unwrap();
        let block_len: usize = read_u32(cluster, 4).unwrap().try_into().unwrap();
        if block_len > self.max_block_len || client_id > self.max_client_id {
            return None;
        }
        let mut tmp = MessageRecovery {
            client_id,
            next_offset: 8,
            block_len,
            max_data_len: self.max_data_len,
        };
        let check = tmp.cluster_belongs_to_file(cluster);
        match check {
            ClusterBelongs::NotToFile => None,
            ClusterBelongs::IsEndOfFile => Some(tmp),
            ClusterBelongs::ToFile => Some(tmp),
        }
    }
}

fn write_and_recover(mut fs: FileSystem) {
    write_messages(4, 17, &mut fs);
    let files = fs.recovery(
        MessageRecoveryFactory { max_client_id: 8, max_data_len: 256, max_block_len: 256 },
        35,
        65,
    );
    for file in files {
        let (data, state) = file.get_data();
        let file_data = read_to_end(&fs, &log_name(state.client_id));
        let start_data = &data[0..file_data.len()];
        assert_eq!(start_data, file_data);
    }
}

fn volume(total_sectors: u32) -> FileSystem {
    FileSystem::format(Geometry::plan(total_sectors, 512, 1, 2, 512, 0xF8).unwrap())
}

#[test]
fn test_recovery_fat12() {
    call_with_fs(write_and_recover, 2880);
}

#[test]
fn test_recovery_fat16() {
    call_with_fs(write_and_recover, 20000);
}

#[test]
fn test_recovery_fat32() {
    call_with_fs(write_and_recover, 70000);
}

fn call_with_fs(f: fn(FileSystem), total_sectors: u32) {
    f(volume(total_sectors));
}

/// Writes the logs, deletes them, and carves them out of the free clusters.
fn recover_deleted_logs(total_sectors: u32, min_clusters: usize, max_clusters: usize) -> usize {
    let mut fs = volume(total_sectors);
    write_messages(4, 17, &mut fs);
    let contents: Vec<Vec<u8>> = (0..4).map(|c| read_to_end(&fs, &log_name(c))).collect();
    assert_eq!(contents[0].len(), 8 + 17 * 32);
    assert_eq!(contents[3].len(), 8 + 17 * 256);
    let root = fs.root_dir();
    for client in 0..4 {
        fs.remove_file(root, &log_name(client)).unwrap();
    }
    let image_before = FileSystem::mount(fs.unmount()).unwrap();
    let fs = image_before;
    let files = fs.recovery(
        MessageRecoveryFactory { max_client_id: 8, max_data_len: 256, max_block_len: 256 },
        min_clusters,
        max_clusters,
    );
    let mut seen = Vec::new();
    for file in files {
        let count = file.cluster_count();
        assert!(min_clusters <= count && count <= max_clusters);
        let (data, state) = file.get_data();
        assert_eq!(data.len(), count * 512);
        let content = &contents[state.client_id as usize];
        assert_eq!(&data[0..content.len()], &content[..]);
        seen.push(state.client_id);
    }
    seen.sort();
    seen.dedup();
    seen.len()
}

#[test]
fn deleted_logs_are_recovered() {
    for total in [2880u32, 20000, 70000] {
        assert_eq!(recover_deleted_logs(total, 1, 65), 4);
    }
}

#[test]
fn recovery_bounds_discard_short_files() {
    // No log has 35 clusters or more.
    assert_eq!(recover_deleted_logs(2880, 35, 65), 0);
    // Only the log of client 3 has nine clusters.
    assert_eq!(recover_deleted_logs(2880, 9, 9), 1);
}

#[test]
fn recovery_does_not_change_the_volume() {
    let mut fs = volume(2880);
    write_messages(2, 3, &mut fs);
    let root = fs.root_dir();
    fs.remove_file(root, &log_name(1)).unwrap();
    let before = fs.unmount();
    let fs = FileSystem::mount(before.clone()).unwrap();
    let files = fs.recovery(
        MessageRecoveryFactory { max_client_id: 8, max_data_len: 256, max_block_len: 256 },
        0,
        100,
    );
    assert_eq!(files.len(), 1);
    assert_eq!(fs.unmount(), before);
}

#[test]
fn recovered_file_shows_state_and_clusters() {
    let mut f = RecoveryFile::new(Tagged { tag: 1, seen: 0 }, 4, vec![1, 0]);
    f.cluster_belongs_to_file(6, &[1, 0]);
    f.cluster_belongs_to_file(7, &[2, 0]);
    assert_eq!(f.clusters(), &vec![4, 6]);
    assert_eq!(f.state().seen, 2);
    assert_eq!(f.state().tag, 1);
}

#[test]
fn recovered_bytes_are_the_bytes_of_the_recovered_clusters() {
    let mut fs = volume(2880);
    write_messages(4, 17, &mut fs);
    let root = fs.root_dir();
    for client in 0..4 {
        fs.remove_file(root, &log_name(client)).unwrap();
    }
    let geometry = fs.geometry();
    let image = fs.unmount();
    let fs = FileSystem::mount(image.clone()).unwrap();
    let data_start = (geometry.reserved_sectors as usize
        + geometry.fats as usize * geometry.sectors_per_fat as usize
        + (geometry.root_entries as usize * 32 + 511) / 512)
        * 512;
    let files = fs.recovery(
        MessageRecoveryFactory { max_client_id: 8, max_data_len: 256, max_block_len: 256 },
        1,
        65,
    );
    assert_eq!(files.len(), 4);
    let mut seen = Vec::new();
    for file in files {
        let clusters = file.clusters().clone();
        assert!(clusters.windows(2).all(|pair| pair[0] < pair[1]));
        assert!(clusters.iter().all(|c| !seen.contains(c)));
        seen.extend_from_slice(&clusters);
        let mut expected = Vec::new();
        for cluster in &clusters {
            let at = data_start + (*cluster as usize - 2) * 512;
            expected.extend_from_slice(&image[at..at + 512]);
        }
        assert_eq!(file.get_data().0, expected);
    }
}
