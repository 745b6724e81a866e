use fatfs::dir::{
    create, entry_at, find_end, find_entry, first_fit, list, remove, update_meta, DirEntry, Meta,
    ATTR_DIRECTORY, ATTR_LONG_NAME, DELETED,
};
use fatfs::error::Error;
use fatfs::name::{
    check_name, checksum, make_alias, names_match, short_to_units, to_short, write_lfn_slot,
};

fn units(name: &str) -> Vec<u16> {
    name.encode_utf16().collect()
}

fn text(units: &[u16]) -> String {
    String::from_utf16(units).unwrap()
}

fn meta(first_cluster: u32, size: u32) -> Meta {
    Meta {
        attributes: 0x20,
        case_flags: 0,
        created_tenths: 7,
        created_time: 0x6000,
        created_date: 0x5A21,
        accessed_date: 0x5A22,
        modified_time: 0x6123,
        modified_date: 0x5A23,
        first_cluster,
        size,
    }
}

fn names(bytes: &[u8]) -> Vec<String> {
    list(bytes).iter().map(|e: &DirEntry| text(&e.name)).collect()
}

#[test]
fn short_name_of_plain_names() {
    assert_eq!(to_short(&units("A.BIN")), Some(*b"A       BIN"));
    assert_eq!(to_short(&units("README.TXT")), Some(*b"README  TXT"));
    assert_eq!(to_short(&units("KERNEL")), Some(*b"KERNEL     "));
    assert_eq!(to_short(&units("12345678.123")), Some(*b"12345678123"));
    assert_eq!(to_short(&units("A_B-C~1.X")), Some(*b"A_B-C~1 X  "));
}

#[test]
fn names_that_are_no_short_names() {
    for name in [
        "", "a.bin", "123456789", "A.B.C", ".A", "A.", "A.BCDE", "A B", "A+B", "\u{e9}", "A\u{0}",
    ] {
        assert_eq!(to_short(&units(name)), None, "{:?}", name);
    }
}

#[test]
fn short_names_read_back() {
    for name in ["A.BIN", "README.TXT", "KERNEL", "12345678.123", "X.Y", "A'B.{}"] {
        let short = to_short(&units(name)).unwrap();
        assert_eq!(text(&short_to_units(&short)), name);
    }
    assert_eq!(text(&short_to_units(b"FOO        ")), "FOO");
    assert_eq!(text(&short_to_units(b"A B     C  ")), "A B.C");
    assert_eq!(short_to_units(&[0x80, b'A', 32, 32, 32, 32, 32, 32, 32, 32, 32]), vec![0xFFFD, 65]);
    assert_eq!(short_to_units(b"           "), Vec::<u16>::new());
}

#[test]
fn checksum_of_short_names() {
    assert_eq!(checksum(b"A       BIN"), 0xcb);
    assert_eq!(checksum(b"RSUMFI~1TXT"), 0x22);
    assert_eq!(checksum(b"README  TXT"), 0x73);
    assert_eq!(checksum(b"FOO     BAR"), 0x53);
}

#[test]
fn generated_short_names() {
    let name = units("R\u{e9}sum\u{e9} \u{2014} final (v2).txt");
    assert_eq!(&make_alias(&name, 1), b"RSUMFI~1TXT");
    assert_eq!(&make_alias(&name, 12), b"RSUMF~12TXT");
    assert_eq!(&make_alias(&name, 999_999), b"R~999999TXT");
    assert_eq!(&make_alias(&units("a.bin"), 1), b"A~1     BIN");
    assert_eq!(&make_alias(&units("archive.tar.gz"), 3), b"ARCHIV~3GZ ");
    assert_eq!(&make_alias(&units("noextension_at_all"), 10), b"NOEXT~10   ");
    assert_eq!(&make_alias(&units(".profile"), 1), b"~1      PRO");
    assert_eq!(&make_alias(&units("\u{e9}\u{e9}"), 7), b"~7         ");
    assert_eq!(&make_alias(&units("x.html"), 100_000), b"X~100000HTM");
}

#[test]
fn names_are_checked() {
    assert!(check_name(&units("a")));
    assert!(check_name(&units("R\u{e9}sum\u{e9} \u{2014} final (v2).txt")));
    assert!(check_name(&vec![b'a' as u16; 255]));
    assert!(!check_name(&vec![b'a' as u16; 256]));
    assert!(!check_name(&units("")));
    for bad in ["a/b", "a\\b", "a:b", "a*b", "a?b", "a\"b", "a<b", "a>b", "a|b", "a\u{1}b", "a\u{7f}"] {
        assert!(!check_name(&units(bad)), "{:?}", bad);
    }
}

#[test]
fn names_compare_without_case() {
    assert!(names_match(&units("ReadMe.Txt"), &units("README.TXT")));
    assert!(names_match(&units(""), &units("")));
    assert!(!names_match(&units("a"), &units("ab")));
    assert!(!names_match(&units("\u{e9}"), &units("\u{c9}")));
    assert!(!names_match(&units("a1"), &units("a2")));
}

#[test]
fn lfn_slot_layout() {
    let mut bytes = vec![0xAAu8; 64];
    let name = units("0123456789abcde");
    write_lfn_slot(&mut bytes, 32, &name, 1, 0x5C);
    write_lfn_slot(&mut bytes, 0, &name, 2, 0x5C);
    assert_eq!(bytes[32], 1);
    assert_eq!(bytes[0], 0x42);
    assert_eq!(bytes[32 + 11], 0x0F);
    assert_eq!(bytes[32 + 12], 0);
    assert_eq!(bytes[32 + 13], 0x5C);
    assert_eq!(&bytes[32 + 26..32 + 28], &[0, 0]);
    assert_eq!(&bytes[33..43], &[b'0', 0, b'1', 0, b'2', 0, b'3', 0, b'4', 0]);
    assert_eq!(&bytes[32 + 14..32 + 26], &[b'5', 0, b'6', 0, b'7', 0, b'8', 0, b'9', 0, b'a', 0]);
    assert_eq!(&bytes[32 + 28..64], &[b'b', 0, b'c', 0]);
    assert_eq!(&bytes[1..11], &[b'd', 0, b'e', 0, 0, 0, 0xFF, 0xFF, 0xFF, 0xFF]);
    assert!(bytes[14..26].iter().all(|b| *b == 0xFF));
}

#[test]
fn empty_directory_lists_nothing() {
    assert!(list(&[]).is_empty());
    assert!(list(&vec![0u8; 320]).is_empty());
    assert_eq!(find_end(&vec![0u8; 320]), 0);
    assert_eq!(find_end(&vec![0xE5u8; 320]), 10);
    assert_eq!(find_end(&vec![0xE5u8; 95]), 2);
    assert!(list(&vec![0xE5u8; 320]).is_empty());
}

#[test]
fn create_short_entry_and_list_it() {
    let mut dir = vec![0u8; 32 * 8];
    assert_eq!(create(&mut dir, &units("A.BIN"), meta(5, 1234)), Ok(0));
    assert_eq!(&dir[0..11], b"A       BIN");
    assert_eq!(dir[11], 0x20);
    assert_eq!(&dir[20..22], &[0, 0]);
    assert_eq!(&dir[26..28], &[5, 0]);
    assert_eq!(&dir[28..32], &[0xD2, 0x04, 0, 0]);
    assert_eq!(dir[32], 0);
    let entries = list(&dir);
    assert_eq!(entries.len(), 1);
    assert_eq!(text(&entries[0].name), "A.BIN");
    assert_eq!(entries[0].meta, meta(5, 1234));
    assert_eq!(entries[0].slot, 0);
    assert_eq!(entries[0].long_slots, 0);
    assert_eq!(&entries[0].short_name, b"A       BIN");
    assert!(!entries[0].is_dir());
}

#[test]
fn long_name_round_trip() {
    let long_name = "R\u{e9}sum\u{e9} \u{2014} final (v2).txt";
    let mut dir = vec![0u8; 32 * 16];
    create(&mut dir, &units("FIRST.TXT"), meta(0, 0)).unwrap();
    assert_eq!(create(&mut dir, &units(long_name), meta(9, 77)), Ok(3));
    let entries = list(&dir);
    assert_eq!(entries.len(), 2);
    assert_eq!(text(&entries[1].name), long_name);
    assert_eq!(&entries[1].short_name, b"RSUMFI~1TXT");
    assert_eq!(entries[1].long_slots, 2);
    assert_eq!(entries[1].slot, 3);
    assert_eq!(entries[1].meta, meta(9, 77));
    assert_eq!(dir[32], 0x42);
    assert_eq!(dir[64], 0x01);
    assert_eq!(dir[32 + 13], 0x22);
    assert_eq!(dir[64 + 13], 0x22);
    assert_eq!(dir[128], 0);
    assert_eq!(text(&entries[0].name), "FIRST.TXT");
}

#[test]
fn names_of_every_length_round_trip() {
    for len in [1usize, 12, 13, 14, 25, 26, 27, 200, 255] {
        let name: Vec<u16> = (0..len).map(|i| 0x100 + (i as u16 % 500)).collect();
        let mut dir = vec![0u8; 32 * 30];
        let slot = create(&mut dir, &name, meta(3, 4)).unwrap();
        assert_eq!(slot, (len + 12) / 13);
        let entries = list(&dir);
        assert_eq!(entries.len(), 1);
        assert_eq!(entries[0].name, name);
        assert_eq!(entries[0].long_slots, (len + 12) / 13);
    }
}

#[test]
fn lower_case_name_gets_a_long_name() {
    let mut dir = vec![0u8; 32 * 8];
    assert_eq!(create(&mut dir, &units("a.bin"), meta(2, 0)), Ok(1));
    let e = entry_at(&dir, 1);
    assert_eq!(text(&e.name), "a.bin");
    assert_eq!(&e.short_name, b"A~1     BIN");
}

#[test]
fn generated_short_names_do_not_collide() {
    let mut dir = vec![0u8; 32 * 32];
    create(&mut dir, &units("long file name one.txt"), meta(0, 0)).unwrap();
    create(&mut dir, &units("long file name two.txt"), meta(0, 0)).unwrap();
    create(&mut dir, &units("LONGFI~3.TXT"), meta(0, 0)).unwrap();
    create(&mut dir, &units("long file name three.txt"), meta(0, 0)).unwrap();
    let shorts: Vec<[u8; 11]> = list(&dir).iter().map(|e| e.short_name).collect();
    assert_eq!(
        shorts,
        vec![*b"LONGFI~1TXT", *b"LONGFI~2TXT", *b"LONGFI~3TXT", *b"LONGFI~4TXT"]
    );
    assert_eq!(
        names(&dir),
        vec![
            "long file name one.txt",
            "long file name two.txt",
            "LONGFI~3.TXT",
            "long file name three.txt"
        ]
    );
}

#[test]
fn create_rejects_bad_input() {
    let mut dir = vec![0u8; 32 * 4];
    let before = dir.clone();
    assert_eq!(create(&mut dir, &units("a/b"), meta(0, 0)), Err(Error::InvalidInput));
    assert_eq!(create(&mut dir, &units(""), meta(0, 0)), Err(Error::InvalidInput));
    let mut long_attr = meta(0, 0);
    long_attr.attributes = ATTR_LONG_NAME;
    assert_eq!(create(&mut dir, &units("A"), long_attr), Err(Error::InvalidInput));
    assert_eq!(dir, before);
}

#[test]
fn create_rejects_a_name_in_use() {
    let mut dir = vec![0u8; 32 * 16];
    create(&mut dir, &units("Some Long Name.txt"), meta(0, 0)).unwrap();
    create(&mut dir, &units("B.TXT"), meta(0, 0)).unwrap();
    let before = dir.clone();
    assert_eq!(create(&mut dir, &units("some long name.TXT"), meta(0, 0)), Err(Error::AlreadyExists));
    assert_eq!(create(&mut dir, &units("b.txt"), meta(0, 0)), Err(Error::AlreadyExists));
    assert_eq!(create(&mut dir, &units("SOMELO~1.TXT"), meta(0, 0)), Err(Error::AlreadyExists));
    assert_eq!(dir, before);
}

#[test]
fn create_needs_a_run_of_free_slots() {
    let mut dir = vec![0u8; 32 * 3];
    assert_eq!(create(&mut dir, &units("A"), meta(0, 0)), Ok(0));
    let before = dir.clone();
    assert_eq!(
        create(&mut dir, &units("a name that needs slots"), meta(0, 0)),
        Err(Error::NotEnoughSpace)
    );
    assert_eq!(dir, before);
    assert_eq!(create(&mut dir, &units("b"), meta(0, 0)), Ok(2));
    assert_eq!(create(&mut dir, &units("C"), meta(0, 0)), Err(Error::NotEnoughSpace));
    assert_eq!(names(&dir), vec!["A", "b"]);
}

#[test]
fn first_fit_prefers_the_first_run() {
    let mut dir = vec![0u8; 32 * 10];
    for name in ["A", "B", "C", "D", "E"] {
        create(&mut dir, &units(name), meta(0, 0)).unwrap();
    }
    remove(&mut dir, 1).unwrap();
    remove(&mut dir, 3).unwrap();
    assert_eq!(first_fit(&dir, 1), Some(1));
    assert_eq!(first_fit(&dir, 2), Some(5));
    assert_eq!(first_fit(&dir, 5), Some(5));
    assert_eq!(first_fit(&dir, 6), None);
    remove(&mut dir, 4).unwrap();
    assert_eq!(first_fit(&dir, 2), Some(3));
    assert_eq!(first_fit(&dir, 7), Some(3));
    assert_eq!(first_fit(&dir, 8), None);
    assert_eq!(create(&mut dir, &units("F"), meta(0, 0)), Ok(1));
    assert_eq!(create(&mut dir, &units("lower"), meta(0, 0)), Ok(4));
    assert_eq!(names(&dir), vec!["A", "F", "C", "lower"]);
    // The new entry reached the end, so the slot behind it ends the directory.
    assert_eq!(find_end(&dir), 5);
}

#[test]
fn entry_written_at_the_end_hides_what_lies_behind() {
    let mut dir = vec![0x41u8; 32 * 6];
    dir[0] = 0;
    assert!(list(&dir).is_empty());
    assert_eq!(create(&mut dir, &units("long name"), meta(1, 2)), Ok(1));
    assert_eq!(names(&dir), vec!["long name"]);
    assert_eq!(dir[64], 0);
    assert_eq!(dir[65], 0x41);
}

#[test]
fn remove_deletes_all_slots_of_the_entry() {
    let mut dir = vec![0u8; 32 * 16];
    create(&mut dir, &units("A.TXT"), meta(0, 0)).unwrap();
    let slot = create(&mut dir, &units("a much longer name.txt"), meta(0, 0)).unwrap();
    create(&mut dir, &units("Z.TXT"), meta(0, 0)).unwrap();
    assert_eq!(slot, 3);
    assert_eq!(remove(&mut dir, slot), Ok(()));
    assert_eq!(dir[32], DELETED);
    assert_eq!(dir[64], DELETED);
    assert_eq!(dir[96], DELETED);
    assert_eq!(names(&dir), vec!["A.TXT", "Z.TXT"]);
    assert_eq!(remove(&mut dir, slot), Err(Error::NotFound));
    assert_eq!(remove(&mut dir, 1), Err(Error::NotFound));
    assert_eq!(remove(&mut dir, 5), Err(Error::NotFound));
    assert_eq!(remove(&mut dir, 1000), Err(Error::NotFound));
    // The freed run is taken again.
    assert_eq!(create(&mut dir, &units("another long name.txt"), meta(0, 0)), Ok(3));
    assert_eq!(names(&dir), vec!["A.TXT", "another long name.txt", "Z.TXT"]);
}

#[test]
fn orphan_slots_belong_to_no_entry() {
    let mut dir = vec![0u8; 32 * 8];
    // A slot of a long name whose short entry was never written.
    write_lfn_slot(&mut dir, 0, &units("orphan"), 1, checksum(b"B       TXT"));
    dir[32] = DELETED;
    assert!(list(&dir).is_empty());
    // The short entry that is created behind it must not pick the orphan up.
    assert_eq!(create(&mut dir, &units("B.TXT"), meta(0, 0)), Ok(1));
    assert_eq!(names(&dir), vec!["B.TXT"]);
    assert_eq!(dir[0], DELETED);
}

#[test]
fn long_name_with_wrong_checksum_is_ignored() {
    let mut dir = vec![0u8; 32 * 8];
    create(&mut dir, &units("a long name.txt"), meta(0, 0)).unwrap();
    assert_eq!(names(&dir), vec!["a long name.txt"]);
    dir[13] ^= 1;
    assert_eq!(names(&dir), vec!["ALONGN~1.TXT"]);
    dir[13] ^= 1;
    dir[32] = 0x02;
    assert_eq!(names(&dir), vec!["ALONGN~1.TXT"]);
}

#[test]
fn update_meta_keeps_the_name() {
    let mut dir = vec![0u8; 32 * 8];
    create(&mut dir, &units("notes on fat.txt"), meta(0, 0)).unwrap();
    create(&mut dir, &units("B"), meta(0, 0)).unwrap();
    let mut m = meta(0x0012_3456, 0xDEAD_BEEF);
    m.attributes = ATTR_DIRECTORY;
    assert_eq!(update_meta(&mut dir, 2, m), Ok(()));
    let entries = list(&dir);
    assert_eq!(text(&entries[0].name), "notes on fat.txt");
    assert_eq!(entries[0].meta, m);
    assert!(entries[0].is_dir());
    assert_eq!(&dir[64 + 20..64 + 22], &[0x12, 0x00]);
    assert_eq!(&dir[64 + 26..64 + 28], &[0x56, 0x34]);
    assert_eq!(text(&entries[1].name), "B");
    assert_eq!(update_meta(&mut dir, 1, m), Err(Error::NotFound));
    m.attributes = ATTR_LONG_NAME;
    assert_eq!(update_meta(&mut dir, 2, m), Err(Error::InvalidInput));
}

#[test]
fn find_entry_by_long_or_short_name() {
    let mut dir = vec![0u8; 32 * 16];
    create(&mut dir, &units("A.TXT"), meta(1, 1)).unwrap();
    create(&mut dir, &units("Quarterly Report.doc"), meta(2, 2)).unwrap();
    assert_eq!(find_entry(&dir, &units("quarterly report.DOC")).unwrap().slot, 3);
    assert_eq!(find_entry(&dir, &units("QUARTE~1.DOC")).unwrap().slot, 3);
    assert_eq!(find_entry(&dir, &units("a.txt")).unwrap().meta.first_cluster, 1);
    assert!(find_entry(&dir, &units("missing")).is_none());
}

use fatfs::time::{DateTime, Stamp};

#[test]
fn stamps_of_dates_and_times() {
    let at = DateTime { year: 2024, month: 2, day: 29, hour: 13, minute: 37, second: 59, millis: 987 };
    assert!(at.check());
    let stamp = at.encode();
    assert_eq!(stamp, Stamp { date: (44 << 9) | (2 << 5) | 29, time: (13 << 11) | (37 << 5) | 29, tenths: 198 });
    assert_eq!(stamp.decode(), DateTime { millis: 980, ..at });
    let first = DateTime { year: 1980, month: 1, day: 1, hour: 0, minute: 0, second: 0, millis: 0 };
    assert_eq!(first.encode(), Stamp { date: 0x21, time: 0, tenths: 0 });
    assert_eq!(first.encode().decode(), first);
    let last = DateTime { year: 2107, month: 12, day: 31, hour: 23, minute: 59, second: 58, millis: 9 };
    assert_eq!(last.encode(), Stamp { date: 0xFF9F, time: 0xBF7D, tenths: 0 });
    assert_eq!(last.encode().decode(), DateTime { millis: 0, ..last });
    for bad in [
        DateTime { year: 1979, ..first },
        DateTime { year: 2108, ..first },
        DateTime { month: 0, ..first },
        DateTime { month: 13, ..first },
        DateTime { day: 0, ..first },
        DateTime { day: 32, ..first },
        DateTime { hour: 24, ..first },
        DateTime { minute: 60, ..first },
        DateTime { second: 60, ..first },
        DateTime { millis: 1000, ..first },
    ] {
        assert!(!bad.check());
    }
}
