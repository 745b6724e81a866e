use fatfs::boot::Geometry;
use fatfs::dir::Meta;
use fatfs::entry::{ClusterEntry, FatType};
use fatfs::error::Error;
use fatfs::file::{File, SeekFrom};
use fatfs::volume::{Dir, FileSystem, Stats};

fn units(name: &str) -> Vec<u16> {
    name.encode_utf16().collect()
}

fn text(units: &[u16]) -> String {
    String::from_utf16(units).unwrap()
}

fn stamp() -> Meta {
    Meta {
        attributes: 0x20,
        case_flags: 0,
        created_tenths: 0,
        created_time: 0x6000,
        created_date: 0x5A21,
        accessed_date: 0x5A21,
        modified_time: 0x6000,
        modified_date: 0x5A21,
        first_cluster: 0,
        size: 0,
    }
}

fn fresh(total_sectors: u32, sectors_per_cluster: u8) -> FileSystem {
    let g = Geometry::plan(total_sectors, 512, sectors_per_cluster, 2, 512, 0xF8).unwrap();
    FileSystem::format(g)
}

fn names(fs: &FileSystem, dir: Dir) -> Vec<String> {
    fs.read_dir(dir).unwrap().iter().map(|e| text(&e.name)).collect()
}

#[test]
fn plan_selects_the_variant_by_cluster_count() {
    let g12 = Geometry::plan(2880, 512, 1, 2, 224, 0xF0).unwrap();
    assert_eq!(g12.kind(), FatType::Fat12);
    assert_eq!(g12.reserved_sectors, 1);
    assert_eq!(g12.root_entries, 224);
    assert_eq!(g12.root_cluster, 0);
    assert_eq!(g12.sectors_per_fat, 9);
    assert_eq!(g12.cluster_count(), 2847);
    let g16 = Geometry::plan(131072, 512, 8, 2, 512, 0xF8).unwrap();
    assert_eq!(g16.kind(), FatType::Fat16);
    assert_eq!(g16.cluster_size(), 4096);
    assert_eq!(g16.sectors_per_fat, 64);
    assert_eq!(g16.cluster_count(), 16363);
    let g32 = Geometry::plan(70000, 512, 1, 2, 512, 0xF8).unwrap();
    assert_eq!(g32.kind(), FatType::Fat32);
    assert_eq!(g32.reserved_sectors, 32);
    assert_eq!(g32.root_entries, 0);
    assert_eq!(g32.root_cluster, 2);
    assert_eq!(g32.fs_info_sector, 1);
    assert!(g32.cluster_count() >= 65525);
    assert!(g12.check() && g16.check() && g32.check());
}

#[test]
fn plan_rejects_impossible_volumes() {
    assert_eq!(Geometry::plan(1000, 500, 1, 2, 224, 0xF0), None);
    assert_eq!(Geometry::plan(1000, 512, 3, 2, 224, 0xF0), None);
    assert_eq!(Geometry::plan(1000, 512, 1, 0, 224, 0xF0), None);
    assert_eq!(Geometry::plan(0, 512, 1, 2, 224, 0xF0), None);
    assert_eq!(Geometry::plan(10, 512, 1, 2, 224, 0xF0), None);
}

#[test]
fn boot_sector_round_trip() {
    for (total, spc) in [(2880u32, 1u8), (131072, 8), (70000, 1)] {
        let g = Geometry::plan(total, 512, spc, 2, 512, 0xF8).unwrap();
        let sector = g.encode();
        assert_eq!(sector.len(), 512);
        assert_eq!(&sector[0..3], &[0xEB, 0x3C, 0x90]);
        assert_eq!(&sector[3..11], b"MSWIN4.1");
        assert_eq!(&sector[510..512], &[0x55, 0xAA]);
        assert_eq!(Geometry::parse(&sector), Ok(g));
    }
}

#[test]
fn parse_rejects_what_is_no_boot_sector() {
    let g = Geometry::plan(2880, 512, 1, 2, 224, 0xF0).unwrap();
    let good = g.encode();
    assert_eq!(Geometry::parse(&good[..511]), Err(Error::CorruptedFileSystem));
    let mut bad = good.clone();
    bad[511] = 0;
    assert_eq!(Geometry::parse(&bad), Err(Error::CorruptedFileSystem));
    let mut bad = good.clone();
    bad[11] = 1;
    assert_eq!(Geometry::parse(&bad), Err(Error::CorruptedFileSystem));
    let mut bad = good.clone();
    bad[13] = 3;
    assert_eq!(Geometry::parse(&bad), Err(Error::CorruptedFileSystem));
    let mut bad = good.clone();
    bad[16] = 0;
    assert_eq!(Geometry::parse(&bad), Err(Error::CorruptedFileSystem));
    let mut bad = good.clone();
    bad[22] = 1;
    assert_eq!(Geometry::parse(&bad), Err(Error::CorruptedFileSystem));
    let mut bad = good.clone();
    bad[19] = 5;
    bad[20] = 0;
    assert_eq!(Geometry::parse(&bad), Err(Error::CorruptedFileSystem));
    assert_eq!(Geometry::parse(&good), Ok(g));
}

#[test]
fn formatted_volume_mounts_and_is_empty() {
    for (total, spc, kind) in [
        (2880u32, 1u8, FatType::Fat12),
        (20000, 2, FatType::Fat16),
        (70000, 1, FatType::Fat32),
    ] {
        let mut fs = fresh(total, spc);
        assert_eq!(fs.geometry().kind(), kind);
        let clusters = fs.geometry().cluster_count();
        let stats = fs.stats();
        let used = if kind == FatType::Fat32 { 1 } else { 0 };
        assert_eq!(
            stats,
            Stats {
                free_clusters: clusters - used,
                total_clusters: clusters,
                cluster_size: 512 * spc as u32
            }
        );
        let root = fs.root_dir();
        assert!(names(&fs, root).is_empty());
        let image = fs.unmount();
        assert_eq!(image.len(), total as usize * 512);
        let again = FileSystem::mount(image.clone()).unwrap();
        assert_eq!(again.geometry().kind(), kind);
        assert_eq!(again.unmount(), image);
    }
}

#[test]
fn format_writes_reserved_entries_and_fsinfo() {
    let image = fresh(2880, 1).unmount();
    // FAT12: entry 0 = 0xFF8, entry 1 = 0xFFF, in both copies.
    assert_eq!(&image[512..515], &[0xF8, 0xFF, 0xFF]);
    assert_eq!(&image[512 + 9 * 512..512 + 9 * 512 + 3], &[0xF8, 0xFF, 0xFF]);
    let image = fresh(70000, 1).unmount();
    let fat = 32 * 512;
    assert_eq!(&image[fat..fat + 12], &[0xF8, 0xFF, 0xFF, 0x0F, 0xFF, 0xFF, 0xFF, 0x0F, 0xFF, 0xFF, 0xFF, 0x0F]);
    assert_eq!(&image[512..516], &[0x52, 0x52, 0x61, 0x41]);
    assert_eq!(&image[512 + 484..512 + 488], &[0x72, 0x72, 0x41, 0x61]);
    assert_eq!(&image[512 + 488..512 + 496], &[0xFF; 8]);
    assert_eq!(&image[512 + 508..1024], &[0x00, 0x00, 0x55, 0xAA]);
}

#[test]
fn mount_rejects_truncated_images() {
    let image = fresh(2880, 1).unmount();
    assert!(FileSystem::mount(image[..image.len() - 1].to_vec()).is_err());
    assert!(FileSystem::mount(vec![0u8; 4096]).is_err());
    assert!(FileSystem::mount(Vec::new()).is_err());
    let mut longer = image.clone();
    longer.extend_from_slice(&[7u8; 100]);
    let fs = FileSystem::mount(longer.clone()).unwrap();
    assert_eq!(fs.unmount(), longer);
}

#[test]
fn all_fat_copies_agree_after_unmount() {
    for (total, spc) in [(2880u32, 1u8), (20000, 2), (70000, 1)] {
        let mut fs = fresh(total, spc);
        let g = fs.geometry();
        let root = fs.root_dir();
        for i in 0..5 {
            let name = units(&format!("file number {}.dat", i));
            let slot = fs.add_entry(root, &name, stamp()).unwrap();
            let (mut f, _) = fs.open_file(root, &name).unwrap();
            fs.write(&mut f, &vec![i as u8; 3000 * (i + 1)]).unwrap();
            fs.flush(root, slot, &mut f, 0x5A22, 0x1000).unwrap();
        }
        fs.remove_file(root, &units("file number 2.dat")).unwrap();
        let (mut f, slot) = fs.open_file(root, &units("file number 4.dat")).unwrap();
        fs.truncate(&mut f, 100).unwrap();
        fs.flush(root, slot, &mut f, 0x5A22, 0x1000).unwrap();
        let image = fs.unmount();
        let start = g.reserved_sectors as usize * 512;
        let len = g.sectors_per_fat as usize * 512;
        let first = &image[start..start + len];
        let second = &image[start + len..start + 2 * len];
        assert_eq!(first, second);
        assert!(first[4..].iter().any(|b| *b != 0));
        // A stale second copy is brought in line by a mount and an unmount.
        let mut stale = image.clone();
        stale[start + len + 10] ^= 0xFF;
        assert_eq!(FileSystem::mount(stale).unwrap().unmount(), image);
    }
}

#[test]
fn allocate_write_read_back() {
    // A fresh FAT16 volume of 64 MiB with clusters of 4 KiB.
    let mut fs = fresh(131072, 8);
    assert_eq!(fs.geometry().kind(), FatType::Fat16);
    let root = fs.root_dir();
    let name = units("a.bin");
    let pattern: Vec<u8> = (0..4096).flat_map(|_| 0u8..=255).collect();
    let slot = fs.add_entry(root, &name, stamp()).unwrap();
    let (mut f, found) = fs.open_file(root, &name).unwrap();
    assert_eq!(found, slot);
    assert_eq!(fs.write(&mut f, &pattern), Ok(pattern.len()));
    fs.flush(root, slot, &mut f, 0x5A22, 0x1000).unwrap();
    let fs = FileSystem::mount(fs.unmount()).unwrap();
    let (mut f, _) = fs.open_file(root, &name).unwrap();
    assert_eq!(f.size() as usize, pattern.len());
    assert_eq!(fs.read(&mut f, usize::MAX), Ok(pattern));
}

#[test]
fn truncate_reclaims_clusters() {
    let mut fs = fresh(131072, 8);
    let root = fs.root_dir();
    let name = units("a.bin");
    let pattern: Vec<u8> = (0..4096).flat_map(|_| 0u8..=255).collect();
    let slot = fs.add_entry(root, &name, stamp()).unwrap();
    let (mut f, _) = fs.open_file(root, &name).unwrap();
    fs.write(&mut f, &pattern).unwrap();
    fs.flush(root, slot, &mut f, 0x5A22, 0x1000).unwrap();
    let chain_len = 256;
    let free_before = fs.stats().free_clusters;
    assert_eq!(fs.truncate(&mut f, 1024), Ok(()));
    fs.flush(root, slot, &mut f, 0x5A22, 0x1100).unwrap();
    assert_eq!(fs.stats().free_clusters, free_before + (chain_len - 1));
    let (mut f, _) = fs.open_file(root, &name).unwrap();
    assert_eq!(f.size(), 1024);
    assert_eq!(fs.read(&mut f, usize::MAX), Ok(pattern[..1024].to_vec()));
}

#[test]
fn long_file_name_round_trip() {
    let long_name = "R\u{e9}sum\u{e9} \u{2014} final (v2).txt";
    for (total, spc) in [(2880u32, 1u8), (20000, 2), (70000, 1)] {
        let mut fs = fresh(total, spc);
        let root = fs.root_dir();
        fs.add_entry(root, &units(long_name), stamp()).unwrap();
        let fs = FileSystem::mount(fs.unmount()).unwrap();
        let entries = fs.read_dir(root).unwrap();
        assert_eq!(entries.len(), 1);
        assert_eq!(text(&entries[0].name), long_name);
        assert_eq!(&entries[0].short_name, b"RSUMFI~1TXT");
        assert!(fs.lookup(root, &units("RSUMFI~1.TXT")).is_ok());
    }
}

#[test]
fn tree_listing_after_remount() {
    let mut fs = fresh(20000, 2);
    let root = fs.root_dir();
    let files: Vec<(&str, usize)> = vec![
        ("KERNEL.SYS", 70000),
        ("very long file name.txt", 5),
        ("EMPTY", 0),
        ("hello.txt", 1500),
    ];
    for (name, size) in &files {
        let slot = fs.add_entry(root, &units(name), stamp()).unwrap();
        let (mut f, _) = fs.open_file(root, &units(name)).unwrap();
        fs.write(&mut f, &vec![0x5A; *size]).unwrap();
        fs.flush(root, slot, &mut f, 0x5A23, 0x2000).unwrap();
    }
    let fs = FileSystem::mount(fs.unmount()).unwrap();
    let listing: Vec<(String, u32)> = fs
        .read_dir(fs.root_dir())
        .unwrap()
        .iter()
        .map(|e| (text(&e.name), e.meta.size))
        .collect();
    let expected: Vec<(String, u32)> =
        files.iter().map(|(n, s)| (n.to_string(), *s as u32)).collect();
    assert_eq!(listing, expected);
    let e = fs.lookup(root, &units("hello.txt")).unwrap();
    assert_eq!(e.meta.modified_date, 0x5A23);
    assert_eq!(e.meta.modified_time, 0x2000);
    assert_eq!(e.meta.created_date, 0x5A21);
}

#[test]
fn remove_file_frees_its_chain() {
    let mut fs = fresh(2880, 1);
    let root = fs.root_dir();
    let free = fs.stats().free_clusters;
    let slot = fs.add_entry(root, &units("A.TXT"), stamp()).unwrap();
    let (mut f, _) = fs.open_file(root, &units("A.TXT")).unwrap();
    fs.write(&mut f, &[1u8; 2000]).unwrap();
    fs.flush(root, slot, &mut f, 0, 0).unwrap();
    assert_eq!(fs.stats().free_clusters, free - 4);
    assert_eq!(fs.remove_file(root, &units("a.txt")), Ok(()));
    assert_eq!(fs.stats().free_clusters, free);
    assert!(names(&fs, root).is_empty());
    assert_eq!(fs.remove_file(root, &units("a.txt")), Err(Error::NotFound));
    assert_eq!(fs.open_file(root, &units("a.txt")).err(), Some(Error::NotFound));
    // An entry without clusters.
    fs.add_entry(root, &units("EMPTY"), stamp()).unwrap();
    assert_eq!(fs.remove_file(root, &units("EMPTY")), Ok(()));
    // An entry whose chain is broken stays.
    let mut broken = stamp();
    broken.first_cluster = 77;
    broken.size = 10;
    fs.add_entry(root, &units("BROKEN"), broken).unwrap();
    assert_eq!(fs.remove_file(root, &units("BROKEN")), Err(Error::CorruptedFileSystem));
    assert_eq!(names(&fs, root), vec!["BROKEN"]);
}

#[test]
fn directories_are_no_files() {
    let mut fs = fresh(2880, 1);
    let root = fs.root_dir();
    let mut dir = stamp();
    dir.attributes = 0x10;
    fs.add_entry(root, &units("SUB"), dir).unwrap();
    assert_eq!(fs.open_file(root, &units("SUB")).err(), Some(Error::InvalidInput));
    assert_eq!(fs.remove_file(root, &units("SUB")), Err(Error::InvalidInput));
    assert_eq!(fs.open_dir(root, &units("SUB")).map(|d| d.first_cluster()), Ok(0));
    fs.add_entry(root, &units("F"), stamp()).unwrap();
    assert_eq!(fs.open_dir(root, &units("F")).err(), Some(Error::InvalidInput));
    assert_eq!(fs.open_dir(root, &units("G")).err(), Some(Error::NotFound));
}

#[test]
fn fixed_root_directory_fills_up() {
    let g = Geometry::plan(2880, 512, 1, 2, 16, 0xF0).unwrap();
    let mut fs = FileSystem::format(g);
    let root = fs.root_dir();
    for i in 0..16 {
        assert!(fs.add_entry(root, &units(&format!("F{}", i)), stamp()).is_ok());
    }
    assert_eq!(fs.add_entry(root, &units("ONEMORE"), stamp()), Err(Error::NotEnoughSpace));
    assert_eq!(names(&fs, root).len(), 16);
}

#[test]
fn missing_directory_is_reported() {
    let mut fs = fresh(2880, 1);
    let nowhere = Dir::at(500);
    assert_eq!(fs.read_dir(nowhere).err(), Some(Error::CorruptedFileSystem));
    assert_eq!(fs.load_dir(nowhere).err(), Some(Error::CorruptedFileSystem));
    assert_eq!(fs.add_entry(nowhere, &units("A"), stamp()), Err(Error::CorruptedFileSystem));
    assert_eq!(fs.remove_file(nowhere, &units("A")), Err(Error::CorruptedFileSystem));
    let mut f = File::open(0, 0);
    assert_eq!(fs.flush(nowhere, 0, &mut f, 0, 0), Err(Error::CorruptedFileSystem));
    let root = fs.root_dir();
    assert_eq!(fs.flush(root, 3, &mut f, 0, 0), Err(Error::NotFound));
    assert_eq!(fs.flush(root, 100000, &mut f, 0, 0), Err(Error::NotFound));
    // The fixed root directory does not exist on FAT32.
    let fs32 = fresh(70000, 1);
    assert_eq!(fs32.read_dir(Dir::at(0)).err(), Some(Error::CorruptedFileSystem));
}

#[test]
fn seek_then_write_through_the_volume() {
    let mut fs = fresh(2880, 1);
    let root = fs.root_dir();
    let slot = fs.add_entry(root, &units("GAP.BIN"), stamp()).unwrap();
    let (mut f, _) = fs.open_file(root, &units("GAP.BIN")).unwrap();
    fs.write(&mut f, b"abc").unwrap();
    f.seek(SeekFrom::Start(600)).unwrap();
    fs.write(&mut f, b"xyz").unwrap();
    fs.flush(root, slot, &mut f, 0, 0).unwrap();
    let (mut g, _) = fs.open_file(root, &units("GAP.BIN")).unwrap();
    let all = fs.read(&mut g, 1000).unwrap();
    assert_eq!(all.len(), 603);
    assert_eq!(&all[..3], b"abc");
    assert!(all[3..600].iter().all(|b| *b == 0));
    assert_eq!(&all[600..], b"xyz");
    assert_eq!(fs.fat_entry(2), Ok(ClusterEntry::Used(3)));
    assert_eq!(fs.fat_entry(3), Ok(ClusterEntry::EndOfChain));
    assert_eq!(fs.fat_entry(4), Ok(ClusterEntry::Free));
}

use fatfs::volume::Cluster;

#[test]
fn chain_directory_grows_for_new_entries() {
    // On FAT32 the root directory lies in a chain and grows cluster by cluster.
    let mut fs = fresh(70000, 1);
    let root = fs.root_dir();
    assert_eq!(fs.load_dir(root).unwrap().len(), 512);
    let free = fs.stats().free_clusters;
    for i in 0..40 {
        let name = units(&format!("F{}", i));
        let (f, slot) = fs.create_file(root, &name, stamp()).unwrap();
        assert_eq!(slot, i);
        assert_eq!((f.first_cluster(), f.size(), f.position()), (0, 0, 0));
    }
    assert_eq!(fs.load_dir(root).unwrap().len(), 3 * 512);
    assert_eq!(fs.stats().free_clusters, free - 2);
    assert_eq!(names(&fs, root).len(), 40);
    // A name that needs 21 slots, where 8 are left.
    let long: Vec<u16> = (0..255).map(|i| 0x61 + (i % 26) as u16).collect();
    let (_, slot) = fs.create_file(root, &long, stamp()).unwrap();
    assert_eq!(slot, 60);
    assert_eq!(fs.load_dir(root).unwrap().len(), 4 * 512);
    let listing = fs.read_dir(root).unwrap();
    assert_eq!(listing.len(), 41);
    assert_eq!(listing[40].name, long);
    assert_eq!(text(&listing[39].name), "F39");
}

#[test]
fn create_file_reports_errors() {
    let mut fs = fresh(2880, 1);
    let root = fs.root_dir();
    let mut dir = stamp();
    dir.attributes = 0x10;
    assert_eq!(fs.create_file(root, &units("D"), dir).err(), Some(Error::InvalidInput));
    assert_eq!(fs.create_file(root, &units("a:b"), stamp()).err(), Some(Error::InvalidInput));
    assert!(fs.create_file(root, &units("A"), stamp()).is_ok());
    assert_eq!(fs.create_file(root, &units("a"), stamp()).err(), Some(Error::AlreadyExists));
    assert_eq!(
        fs.create_file(Dir::at(2), &units("B"), stamp()).err(),
        Some(Error::CorruptedFileSystem)
    );
}

#[test]
fn create_dir_makes_dot_entries() {
    for (total, spc) in [(2880u32, 1u8), (70000, 1)] {
        let mut fs = fresh(total, spc);
        let root = fs.root_dir();
        let free = fs.stats().free_clusters;
        let sub = fs.create_dir(root, &units("Sub Directory"), stamp()).unwrap();
        assert_eq!(fs.stats().free_clusters, free - 1);
        let entry = fs.lookup(root, &units("sub directory")).unwrap();
        assert!(entry.is_dir());
        assert_eq!(entry.meta.first_cluster, sub.first_cluster());
        assert_eq!(entry.meta.size, 0);
        assert_eq!(fs.open_dir(root, &units("SUB DIRECTORY")), Ok(sub));
        let inside = fs.read_dir(sub).unwrap();
        assert_eq!(inside.len(), 2);
        assert_eq!(text(&inside[0].name), ".");
        assert_eq!(text(&inside[1].name), "..");
        assert!(inside[0].is_dir() && inside[1].is_dir());
        assert_eq!(inside[0].meta.first_cluster, sub.first_cluster());
        assert_eq!(inside[1].meta.first_cluster, 0);
        // A file in the new directory, and a directory below it.
        let (mut f, slot) = fs.create_file(sub, &units("inner.txt"), stamp()).unwrap();
        fs.write(&mut f, b"inside").unwrap();
        fs.flush(sub, slot, &mut f, 1, 2).unwrap();
        let deeper = fs.create_dir(sub, &units("DEEP"), stamp()).unwrap();
        assert_eq!(fs.read_dir(deeper).unwrap()[1].meta.first_cluster, sub.first_cluster());
        let fs = FileSystem::mount(fs.unmount()).unwrap();
        assert_eq!(names(&fs, sub), vec![".", "..", "inner.txt", "DEEP"]);
        let (mut f, _) = fs.open_file(sub, &units("INNER.TXT")).unwrap();
        assert_eq!(fs.read(&mut f, 100), Ok(b"inside".to_vec()));
    }
}

#[test]
fn create_dir_gives_the_cluster_back_on_failure() {
    let mut fs = fresh(2880, 1);
    let root = fs.root_dir();
    let free = fs.stats().free_clusters;
    assert_eq!(fs.create_dir(root, &units("a|b"), stamp()).err(), Some(Error::InvalidInput));
    assert_eq!(fs.stats().free_clusters, free);
    fs.create_dir(root, &units("D"), stamp()).unwrap();
    assert_eq!(fs.create_dir(root, &units("d"), stamp()).err(), Some(Error::AlreadyExists));
    assert_eq!(fs.stats().free_clusters, free - 1);
}

#[test]
fn cluster_map_classifies_clusters() {
    // One file in the clusters 2..=7 and a directory in cluster 8.
    let mut fs = fresh(2880, 1);
    let root = fs.root_dir();
    let (mut f, slot) = fs.create_file(root, &units("six.bin"), stamp()).unwrap();
    fs.write(&mut f, &[1u8; 6 * 512]).unwrap();
    fs.flush(root, slot, &mut f, 0, 0).unwrap();
    let dir = fs.create_dir(root, &units("DIR"), stamp()).unwrap();
    assert_eq!(dir.first_cluster(), 8);
    let map = fs.cluster_map().unwrap();
    assert_eq!(map.len(), fs.geometry().cluster_count() as usize);
    for tag in &map[0..6] {
        assert_eq!(tag, &Cluster::File(units("six.bin")));
    }
    assert_eq!(map[6], Cluster::Directory(units("DIR")));
    assert!(map[7..].iter().all(|tag| *tag == Cluster::Free));
}

#[test]
fn cluster_map_walks_the_tree() {
    let mut fs = fresh(70000, 1);
    let root = fs.root_dir();
    let a = fs.create_dir(root, &units("A"), stamp()).unwrap();
    let b = fs.create_dir(a, &units("B"), stamp()).unwrap();
    let (mut f, slot) = fs.create_file(b, &units("deep file"), stamp()).unwrap();
    fs.write(&mut f, &[9u8; 1000]).unwrap();
    fs.flush(b, slot, &mut f, 0, 0).unwrap();
    fs.create_file(root, &units("EMPTY"), stamp()).unwrap();
    let map = fs.cluster_map().unwrap();
    assert_eq!(map[0], Cluster::Directory(Vec::new()));
    assert_eq!(map[1], Cluster::Directory(units("A")));
    assert_eq!(map[2], Cluster::Directory(units("B")));
    assert_eq!(map[3], Cluster::File(units("deep file")));
    assert_eq!(map[4], Cluster::File(units("deep file")));
    assert_eq!(map[5], Cluster::Free);
    assert_eq!(map.iter().filter(|t| **t != Cluster::Free).count(), 5);
}

#[test]
fn cluster_map_marks_what_no_entry_leads_to() {
    let mut fs = fresh(2880, 1);
    let root = fs.root_dir();
    let (mut f, _) = fs.create_file(root, &units("LOST"), stamp()).unwrap();
    // Written, never flushed: the chain has no owner in the directory.
    fs.write(&mut f, &[1u8; 700]).unwrap();
    let map = fs.cluster_map().unwrap();
    assert_eq!(&map[0..3], &[Cluster::Fat, Cluster::Fat, Cluster::Free]);
}

#[test]
fn cluster_map_rejects_shared_clusters() {
    let mut fs = fresh(2880, 1);
    let root = fs.root_dir();
    let (mut f, slot) = fs.create_file(root, &units("ONE"), stamp()).unwrap();
    fs.write(&mut f, &[1u8; 700]).unwrap();
    fs.flush(root, slot, &mut f, 0, 0).unwrap();
    let mut twin = stamp();
    twin.first_cluster = 3;
    twin.size = 10;
    fs.add_entry(root, &units("TWO"), twin).unwrap();
    assert_eq!(fs.cluster_map().err(), Some(Error::CorruptedFileSystem));
}

#[test]
fn rename_keeps_content_and_chain() {
    let mut fs = fresh(2880, 1);
    let root = fs.root_dir();
    let (mut f, slot) = fs.create_file(root, &units("OLD.TXT"), stamp()).unwrap();
    fs.write(&mut f, b"the same bytes").unwrap();
    fs.flush(root, slot, &mut f, 3, 4).unwrap();
    fs.create_file(root, &units("OTHER"), stamp()).unwrap();
    let free = fs.stats().free_clusters;
    let before = fs.lookup(root, &units("OLD.TXT")).unwrap().meta;
    let new_slot = fs.rename(root, &units("old.txt"), &units("a new and longer name.txt")).unwrap();
    assert_eq!(fs.stats().free_clusters, free);
    assert_eq!(names(&fs, root), vec!["OTHER", "a new and longer name.txt"]);
    let entry = fs.lookup(root, &units("A NEW AND LONGER NAME.TXT")).unwrap();
    assert_eq!(entry.slot, new_slot);
    assert_eq!(entry.meta, before);
    let (mut f, _) = fs.open_file(root, &units("a new and longer name.txt")).unwrap();
    assert_eq!(fs.read(&mut f, 100), Ok(b"the same bytes".to_vec()));
    assert_eq!(fs.rename(root, &units("gone"), &units("X")), Err(Error::NotFound));
    assert_eq!(fs.rename(root, &units("OTHER"), &units("a<b")), Err(Error::InvalidInput));
    assert_eq!(
        fs.rename(root, &units("OTHER"), &units("A new and longer NAME.txt")),
        Err(Error::AlreadyExists)
    );
    assert_eq!(fs.rename(root, &units("OTHER"), &units("other")), Err(Error::AlreadyExists));
    assert_eq!(fs.rename(Dir::at(9), &units("a"), &units("b")), Err(Error::CorruptedFileSystem));
    assert_eq!(names(&fs, root), vec!["OTHER", "a new and longer name.txt"]);
}

#[test]
fn create_file_in_a_full_fixed_root_directory() {
    let g = Geometry::plan(2880, 512, 1, 2, 16, 0xF0).unwrap();
    let mut fs = FileSystem::format(g);
    let root = fs.root_dir();
    for i in 0..16 {
        assert!(fs.create_file(root, &units(&format!("F{}", i)), stamp()).is_ok());
    }
    let before = fs.load_dir(root).unwrap();
    let free = fs.stats().free_clusters;
    assert_eq!(fs.create_file(root, &units("ONEMORE"), stamp()).err(), Some(Error::NotEnoughSpace));
    assert_eq!(fs.rename(root, &units("F3"), &units("a longer name")), Err(Error::NotEnoughSpace));
    assert_eq!(fs.create_dir(root, &units("DIR"), stamp()).err(), Some(Error::NotEnoughSpace));
    assert_eq!(fs.load_dir(root).unwrap(), before);
    assert_eq!(fs.stats().free_clusters, free);
    // A name that fits into the slot of the old entry can still be given.
    fs.remove_file(root, &units("F3")).unwrap();
    assert_eq!(fs.create_file(root, &units("G3"), stamp()).map(|made| made.1), Ok(3));
}

#[test]
fn directory_without_free_cluster_cannot_grow() {
    let mut fs = fresh(70000, 1);
    let root = fs.root_dir();
    for i in 0..16 {
        fs.create_file(root, &units(&format!("F{}", i)), stamp()).unwrap();
    }
    // Take every free cluster.
    let (mut big, slot) = fs.open_file(root, &units("F0")).unwrap();
    let free = fs.stats().free_clusters as usize;
    fs.write(&mut big, &vec![1u8; free * 512]).unwrap();
    fs.flush(root, slot, &mut big, 0, 0).unwrap();
    assert_eq!(fs.stats().free_clusters, 0);
    let before = fs.load_dir(root).unwrap();
    assert_eq!(fs.create_file(root, &units("NEXT"), stamp()).err(), Some(Error::NotEnoughSpace));
    assert_eq!(fs.grow_dir(root), Err(Error::NotEnoughSpace));
    assert_eq!(fs.load_dir(root).unwrap(), before);
    // With one cluster given back the directory grows by it.
    fs.truncate(&mut big, (free as u32 - 1) * 512).unwrap();
    fs.flush(root, slot, &mut big, 0, 0).unwrap();
    assert_eq!(fs.create_file(root, &units("NEXT"), stamp()).map(|made| made.1), Ok(16));
    assert_eq!(fs.stats().free_clusters, 0);
    assert_eq!(fs.load_dir(root).unwrap().len(), 1024);
}

#[test]
fn rename_grows_the_directory_for_a_long_name() {
    let mut fs = fresh(70000, 1);
    let root = fs.root_dir();
    for i in 0..15 {
        fs.create_file(root, &units(&format!("F{}", i)), stamp()).unwrap();
    }
    let free = fs.stats().free_clusters;
    let long: Vec<u16> = (0..100).map(|i| 0x61 + (i % 26) as u16).collect();
    assert_eq!(fs.rename(root, &units("F7"), &long), Ok(15 + 8));
    assert_eq!(fs.stats().free_clusters, free - 1);
    let listing = fs.read_dir(root).unwrap();
    assert_eq!(listing.len(), 15);
    assert_eq!(listing[14].name, long);
    assert!(fs.lookup(root, &units("F7")).is_err());
}

#[test]
fn upper_half_of_the_first_cluster_counts_on_fat32_only() {
    // An entry whose upper half is set, on FAT16 and on FAT32.
    let mut odd = stamp();
    odd.first_cluster = 0x0003_0005;
    odd.size = 7;
    let mut fs = fresh(20000, 2);
    let root = fs.root_dir();
    let slot = fs.add_entry(root, &units("ODD"), odd).unwrap();
    assert_eq!(&fs.load_dir(root).unwrap()[20..22], &[3, 0]);
    assert_eq!(fs.lookup(root, &units("ODD")).unwrap().meta.first_cluster, 5);
    assert_eq!(fs.read_dir(root).unwrap()[slot].meta.first_cluster, 5);
    assert_eq!(fs.open_file(root, &units("ODD")).unwrap().0.first_cluster(), 5);
    let mut dir = odd;
    dir.attributes = 0x10;
    fs.add_entry(root, &units("ODDDIR"), dir).unwrap();
    assert_eq!(fs.open_dir(root, &units("ODDDIR")).map(|d| d.first_cluster()), Ok(5));
    // The chain of cluster 5 is what is freed, and what the map shows.
    let head = {
        let (mut f, s) = fs.create_file(root, &units("REAL"), stamp()).unwrap();
        fs.write(&mut f, &[1u8; 4 * 1024]).unwrap();
        fs.flush(root, s, &mut f, 0, 0).unwrap();
        f.first_cluster()
    };
    assert_eq!(head, 2);
    fs.remove_file(root, &units("ODDDIR")).unwrap_err();
    let mut fs32 = fresh(70000, 1);
    let root32 = fs32.root_dir();
    fs32.add_entry(root32, &units("ODD"), odd).unwrap();
    assert_eq!(fs32.lookup(root32, &units("ODD")).unwrap().meta.first_cluster, 0x0003_0005);
    assert_eq!(fs32.open_file(root32, &units("ODD")).unwrap().0.first_cluster(), 0x0003_0005);
}

#[test]
fn cluster_map_follows_the_lower_half_on_fat16() {
    let mut fs = fresh(20000, 2);
    let root = fs.root_dir();
    let (mut f, slot) = fs.create_file(root, &units("DATA"), stamp()).unwrap();
    fs.write(&mut f, &[1u8; 3000]).unwrap();
    // The entry gets a first cluster with its upper half set.
    let mut meta = fs.lookup(root, &units("DATA")).unwrap().meta;
    meta.first_cluster = 0x0007_0000 + f.first_cluster();
    meta.size = 3000;
    fs.set_meta(root, slot, meta).unwrap();
    let map = fs.cluster_map().unwrap();
    assert_eq!(&map[0..3], &[
        Cluster::File(units("DATA")),
        Cluster::File(units("DATA")),
        Cluster::File(units("DATA")),
    ]);
    assert_eq!(map[3], Cluster::Free);
    assert_eq!(fs.remove_file(root, &units("DATA")), Ok(()));
    assert!(fs.cluster_map().unwrap().iter().all(|t| *t == Cluster::Free));
}

#[test]
fn cluster_map_fails_on_a_loop_of_directories() {
    let mut fs = fresh(2880, 1);
    let root = fs.root_dir();
    let a = fs.create_dir(root, &units("A"), stamp()).unwrap();
    // A directory that holds an entry for itself under another name.
    let mut again = stamp();
    again.attributes = 0x10;
    again.first_cluster = a.first_cluster();
    fs.add_entry(a, &units("AGAIN"), again).unwrap();
    assert_eq!(fs.cluster_map().err(), Some(Error::CorruptedFileSystem));
    // A volume label and an entry without clusters are passed over.
    let mut fs = fresh(2880, 1);
    let root = fs.root_dir();
    let mut label = stamp();
    label.attributes = 0x08;
    label.first_cluster = 9;
    fs.add_entry(root, &units("MYVOLUME"), label).unwrap();
    fs.create_file(root, &units("EMPTY"), stamp()).unwrap();
    assert!(fs.cluster_map().unwrap().iter().all(|t| *t == Cluster::Free));
}
