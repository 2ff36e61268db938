//! Scanning and recovering from small images of the supported filesystems. Each holds
//! `keep.txt` and `after.txt` (live), and `big.bin`, `note.txt` and
//! `Dokumen Kantor/Laporan Keuangan 2026.xlsx` (deleted).

use dcheck::carve::carve;
use dcheck::model::{Data, Deleted, Scan, State};
use dcheck::plan::carve_plan;
use dcheck::progress::Calls;
use dcheck::recover::contents;
use dcheck::scan::{free_ranges, scan};
use dcheck::volume::volumes;

fn put(b: &mut [u8], at: usize, v: &[u8]) {
    b[at..at + v.len()].copy_from_slice(v);
}

fn big() -> Vec<u8> {
    (0..20000u32).map(|i| ((i * 7 + 3) % 251) as u8).collect()
}

fn xlsx() -> Vec<u8> {
    let mut v = b"PK\x03\x04".to_vec();
    v.extend((0..6000u32).map(|i| ((i * 13 + 5) % 253) as u8));
    v
}

const NOTE: &[u8] = b"short note, deleted\n";

// FAT32: 512-byte clusters, 32 reserved sectors, one table of 4 sectors.

const FAT_AT: usize = 32 * 512;
const FAT_HEAP: usize = 36 * 512;

fn fat_cluster(c: usize) -> usize {
    FAT_HEAP + (c - 2) * 512
}

fn fat_link(img: &mut [u8], c: usize, next: u32) {
    put(img, FAT_AT + 4 * c, &next.to_le_bytes());
}

/// The long-name entries and the short entry of a file or folder.
fn fat_entry(name: &str, short: &[u8; 11], attr: u8, first: u32, size: u32, deleted: bool) -> Vec<u8> {
    let mut units: Vec<u16> = name.encode_utf16().collect();
    units.push(0);
    while units.len() % 13 != 0 {
        units.push(0xFFFF);
    }
    let mut out = Vec::new();
    let parts = units.len() / 13;
    for p in (0..parts).rev() {
        let mut e = vec![0u8; 32];
        e[0] = if deleted { 0xE5 } else { (p + 1) as u8 };
        e[11] = 0x0F;
        for k in 0..13 {
            let at = if k < 5 {
                1 + 2 * k
            } else if k < 11 {
                14 + 2 * (k - 5)
            } else {
                28 + 2 * (k - 11)
            };
            put(&mut e, at, &units[13 * p + k].to_le_bytes());
        }
        out.extend(e);
    }
    out.extend(fat_short(short, attr, first, size, deleted));
    out
}

fn fat_short(short: &[u8; 11], attr: u8, first: u32, size: u32, deleted: bool) -> Vec<u8> {
    let mut e = vec![0u8; 32];
    put(&mut e, 0, short);
    if deleted {
        e[0] = 0xE5;
    }
    e[11] = attr;
    put(&mut e, 20, &((first >> 16) as u16).to_le_bytes());
    put(&mut e, 26, &(first as u16).to_le_bytes());
    put(&mut e, 28, &size.to_le_bytes());
    e
}

fn fat32_image() -> Vec<u8> {
    let mut img = vec![0u8; FAT_HEAP + 400 * 512];
    put(&mut img, 11, &512u16.to_le_bytes());
    img[13] = 1;
    put(&mut img, 14, &32u16.to_le_bytes());
    img[16] = 1;
    put(&mut img, 36, &4u32.to_le_bytes());
    put(&mut img, 44, &2u32.to_le_bytes());
    put(&mut img, 82, b"FAT32   ");
    fat_link(&mut img, 0, 0x0FFF_FFF8);
    fat_link(&mut img, 1, 0x0FFF_FFFF);
    // The root directory goes on in cluster 5.
    fat_link(&mut img, 2, 5);
    fat_link(&mut img, 5, 0x0FFF_FFFF);
    // keep.txt, after.txt.
    fat_link(&mut img, 3, 0x0FFF_FFFF);
    fat_link(&mut img, 100, 0x0FFF_FFFF);
    let mut root = fat_short(b"MYDISK     ", 0x08, 0, 0, false);
    for k in 1..5 {
        root.extend(fat_entry(&format!("empty-{k}.txt"), b"EMPTY   TXT", 0x20, 0, 0, false));
    }
    root.extend(fat_entry("keep.txt", b"KEEP    TXT", 0x20, 3, 5, false));
    root.extend(fat_entry("big.bin", b"BIG     BIN", 0x20, 10, 20000, true));
    root.extend(fat_entry("Dokumen Kantor", b"DOKUME~1   ", 0x10, 4, 0, true));
    root.extend(fat_entry("note.txt", b"NOTE    TXT", 0x20, 80, NOTE.len() as u32, true));
    root.extend(fat_entry("after.txt", b"AFTER   TXT", 0x20, 100, 6, false));
    root.extend(fat_short(b"SHORT   TXT", 0x20, 90, 3, true));
    assert!(root.len() > 512 && root.len() <= 1024);
    root.resize(1024, 0);
    put(&mut img, fat_cluster(2), &root[..512]);
    put(&mut img, fat_cluster(5), &root[512..]);
    let mut dir = fat_short(b".          ", 0x10, 4, 0, false);
    dir.extend(fat_short(b"..         ", 0x10, 0, 0, false));
    dir.extend(fat_entry("Laporan Keuangan 2026.xlsx", b"LAPORA~1XLS", 0x20, 60, 6004, false));
    put(&mut img, fat_cluster(4), &dir);
    put(&mut img, fat_cluster(3), b"keep\n");
    put(&mut img, fat_cluster(100), b"after\n");
    put(&mut img, fat_cluster(10), &big());
    put(&mut img, fat_cluster(60), &xlsx());
    put(&mut img, fat_cluster(80), NOTE);
    put(&mut img, fat_cluster(90), b"abc");
    img
}

// exFAT: 512-byte clusters, the table at sector 24, the heap at sector 32.

const EX_HEAP: usize = 32 * 512;

fn ex_cluster(c: usize) -> usize {
    EX_HEAP + (c - 2) * 512
}

fn ex_link(img: &mut [u8], c: usize, next: u32) {
    put(img, 24 * 512 + 4 * c, &next.to_le_bytes());
}

fn ex_use(img: &mut [u8], c: usize) {
    img[ex_cluster(2) + (c - 2) / 8] |= 1 << ((c - 2) % 8);
}

/// The entry set of a file or folder.
fn ex_entry(name: &str, dir: bool, first: u32, size: u64, contiguous: bool, deleted: bool) -> Vec<u8> {
    let units: Vec<u16> = name.encode_utf16().collect();
    let names = (units.len() + 14) / 15;
    let live = if deleted { 0 } else { 0x80 };
    let mut e = vec![0u8; 32];
    e[0] = 0x05 | live;
    e[1] = (1 + names) as u8;
    e[4] = if dir { 0x10 } else { 0x20 };
    let mut st = vec![0u8; 32];
    st[0] = 0x40 | live;
    st[1] = 1 | if contiguous { 2 } else { 0 };
    st[3] = units.len() as u8;
    put(&mut st, 20, &first.to_le_bytes());
    put(&mut st, 24, &size.to_le_bytes());
    e.extend(st);
    for k in 0..names {
        let mut n = vec![0u8; 32];
        n[0] = 0x41 | live;
        for (j, u) in units[15 * k..units.len().min(15 * k + 15)].iter().enumerate() {
            put(&mut n, 2 + 2 * j, &u.to_le_bytes());
        }
        e.extend(n);
    }
    e
}

fn exfat_image() -> Vec<u8> {
    let mut img = vec![0u8; EX_HEAP + 400 * 512];
    put(&mut img, 3, b"EXFAT   ");
    put(&mut img, 80, &24u32.to_le_bytes());
    put(&mut img, 88, &32u32.to_le_bytes());
    put(&mut img, 92, &400u32.to_le_bytes());
    put(&mut img, 96, &4u32.to_le_bytes());
    img[108] = 9;
    img[109] = 0;
    // The root directory goes on in cluster 7.
    ex_link(&mut img, 2, 0xFFFF_FFFF);
    ex_link(&mut img, 4, 7);
    ex_link(&mut img, 7, 0xFFFF_FFFF);
    for c in [2, 4, 7, 5, 80] {
        ex_use(&mut img, c);
    }
    let mut root = vec![0u8; 32];
    root[0] = 0x81;
    put(&mut root, 20, &2u32.to_le_bytes());
    put(&mut root, 24, &50u64.to_le_bytes());
    root.extend(ex_entry("empty.txt", false, 0, 0, true, false));
    root.extend(ex_entry("keep.txt", false, 5, 5, true, false));
    root.extend(ex_entry("big.bin", false, 10, 20000, true, true));
    root.extend(ex_entry("Dokumen Kantor", true, 6, 512, true, true));
    root.extend(ex_entry("note.txt", false, 80, NOTE.len() as u64, true, true));
    root.extend(ex_entry("after.txt", false, 80, 6, true, false));
    assert!(root.len() > 512 && root.len() <= 1024);
    root.resize(1024, 0);
    put(&mut img, ex_cluster(4), &root[..512]);
    put(&mut img, ex_cluster(7), &root[512..]);
    // No chain is left: the place of the data is a guess.
    let dir = ex_entry("Laporan Keuangan 2026.xlsx", false, 60, 6004, false, true);
    put(&mut img, ex_cluster(6), &dir);
    put(&mut img, ex_cluster(5), b"keep\n");
    put(&mut img, ex_cluster(80), b"after\n");
    put(&mut img, ex_cluster(10), &big());
    put(&mut img, ex_cluster(60), &xlsx());
    img
}

// NTFS: 1024-byte clusters and records, the MFT at cluster 4.

const CS: usize = 1024;

fn attr_resident(type_: u32, value: &[u8]) -> Vec<u8> {
    let len = (24 + value.len() + 7) / 8 * 8;
    let mut a = vec![0u8; len];
    put(&mut a, 0, &type_.to_le_bytes());
    put(&mut a, 4, &(len as u32).to_le_bytes());
    put(&mut a, 16, &(value.len() as u32).to_le_bytes());
    put(&mut a, 20, &24u16.to_le_bytes());
    put(&mut a, 24, value);
    a
}

fn attr_nonresident(type_: u32, vcn: u64, size: u64, runs: &[u8]) -> Vec<u8> {
    let len = (64 + runs.len() + 7) / 8 * 8;
    let mut a = vec![0u8; len];
    put(&mut a, 0, &type_.to_le_bytes());
    put(&mut a, 4, &(len as u32).to_le_bytes());
    a[8] = 1;
    put(&mut a, 16, &vcn.to_le_bytes());
    put(&mut a, 32, &64u16.to_le_bytes());
    put(&mut a, 48, &size.to_le_bytes());
    put(&mut a, 64, runs);
    a
}

fn file_name(parent: u64, name: &str, namespace: u8) -> Vec<u8> {
    let units: Vec<u16> = name.encode_utf16().collect();
    let mut v = vec![0u8; 66 + 2 * units.len()];
    put(&mut v, 0, &parent.to_le_bytes());
    v[64] = units.len() as u8;
    v[65] = namespace;
    for (k, u) in units.iter().enumerate() {
        put(&mut v, 66 + 2 * k, &u.to_le_bytes());
    }
    v
}

/// A sealed MFT record.
fn record(flags: u16, attrs: &[Vec<u8>]) -> Vec<u8> {
    let mut rec = vec![0u8; 1024];
    put(&mut rec, 0, b"FILE");
    put(&mut rec, 4, &48u16.to_le_bytes());
    put(&mut rec, 6, &3u16.to_le_bytes());
    put(&mut rec, 20, &56u16.to_le_bytes());
    put(&mut rec, 22, &flags.to_le_bytes());
    let mut off = 56;
    for a in attrs {
        put(&mut rec, off, a);
        off += a.len();
    }
    put(&mut rec, off, &0xFFFF_FFFFu32.to_le_bytes());
    seal(&mut rec, 48);
    rec
}

/// Save the ends of the sectors in the update sequence array, and mark them.
fn seal(b: &mut [u8], usa: usize) {
    put(b, usa, &[0x07, 0x01]);
    for k in 1..=b.len() / 512 {
        let (x, y) = (b[512 * k - 2], b[512 * k - 1]);
        put(b, usa + 2 * k, &[x, y]);
        put(b, 512 * k - 2, &[0x07, 0x01]);
    }
}

fn index_entry(rec: u64, parent: u64, name: &str) -> Vec<u8> {
    let fname = file_name(parent, name, 1);
    let len = (16 + fname.len() + 7) / 8 * 8;
    let mut e = vec![0u8; len];
    put(&mut e, 0, &rec.to_le_bytes());
    put(&mut e, 8, &(len as u16).to_le_bytes());
    put(&mut e, 10, &(fname.len() as u16).to_le_bytes());
    put(&mut e, 16, &fname);
    e
}

fn index_root(entries: &[Vec<u8>], removed: &[Vec<u8>]) -> Vec<u8> {
    let mut v = vec![0u8; 0x20];
    put(&mut v, 0, &0x30u32.to_le_bytes());
    put(&mut v, 8, &1024u32.to_le_bytes());
    put(&mut v, 0x10, &16u32.to_le_bytes());
    for e in entries {
        v.extend(e);
    }
    let mut last = vec![0u8; 16];
    last[8] = 16;
    last[12] = 2;
    v.extend(last);
    for e in removed {
        v.extend(e);
    }
    v
}

/// The volume, with names in the records or without, with the given entries in the index of
/// the root directory, and with those that have been removed left behind them.
fn ntfs_image_with(names: bool, index: &[Vec<u8>], removed: &[Vec<u8>]) -> Vec<u8> {
    let mut img = vec![0u8; 200 * CS];
    put(&mut img, 3, b"NTFS    ");
    put(&mut img, 11, &512u16.to_le_bytes());
    img[13] = 2;
    put(&mut img, 48, &4u64.to_le_bytes());
    img[64] = 0xF6;
    let named = |mut attrs: Vec<Vec<u8>>, parent: u64, name: &str| {
        if names {
            attrs.insert(0, attr_resident(0x30, &file_name(parent, name, 1)));
        }
        attrs
    };
    let mut recs: Vec<(usize, Vec<u8>)> = Vec::new();
    // The MFT: 40 records in 40 clusters.
    recs.push((0, record(1, &[attr_nonresident(0x80, 0, 40 * 1024, &[0x11, 40, 4, 0])])));
    recs.push((5, record(3, &[
        attr_resident(0x30, &file_name(5, ".", 3)),
        attr_resident(0x90, &index_root(index, removed)),
    ])));
    recs.push((6, record(1, &[attr_nonresident(0x80, 0, 25, &[0x11, 1, 2, 0])])));
    recs.push((24, record(1, &[
        attr_resident(0x30, &file_name(5, "keep.txt", 1)),
        attr_resident(0x80, b"keep\n"),
    ])));
    // In two pieces: 12 clusters at 100, and 8 more 30 clusters before those.
    let runs = [0x11, 12, 100, 0x11, 8, 0xE2, 0];
    recs.push((25, record(0, &named(vec![attr_nonresident(0x80, 0, 20000, &runs)], 5, "big.bin"))));
    recs.push((26, record(0, &named(vec![attr_resident(0x80, &b"hello from dcheck\n".repeat(3))], 5, "hello.txt"))));
    recs.push((27, record(2, &[
        attr_resident(0x30, &file_name(5, "DOKUME~1", 2)),
        attr_resident(0x30, &file_name(5, "Dokumen Kantor", 1)),
    ])));
    recs.push((28, record(0, &named(vec![attr_nonresident(0x80, 0, 6004, &[0x11, 6, 120, 0])], 27, "Laporan Keuangan 2026.xlsx"))));
    recs.push((29, record(1, &[
        attr_resident(0x30, &file_name(5, "after.txt", 1)),
        attr_resident(0x80, b"after\n"),
    ])));
    for (i, r) in recs {
        put(&mut img, (4 + i) * CS, &r);
    }
    // In use: the first clusters and the MFT, and one cluster further on.
    for c in (0..44).chain([150]) {
        img[2 * CS + c / 8] |= 1 << (c % 8);
    }
    let b = big();
    put(&mut img, 100 * CS, &b[..12 * CS]);
    put(&mut img, 70 * CS, &b[12 * CS..]);
    put(&mut img, 120 * CS, &xlsx());
    img
}

fn ntfs_image() -> Vec<u8> {
    ntfs_image_with(true, &[], &[])
}

fn fixture(name: &str) -> Vec<u8> {
    match name {
        "fat32" => fat32_image(),
        "exfat" => exfat_image(),
        "ntfs" => ntfs_image(),
        "ntfs3" => ntfs_image_with(false, &[], &[]),
        other => panic!("no image {other}"),
    }
}

fn by<'a>(s: &'a Scan, p: &str) -> &'a Deleted {
    s.files.iter().find(|f| f.path == p).unwrap_or_else(|| panic!("{p} not found in {:?}", s.files))
}

fn check(name: &str) -> Scan {
    let img = fixture(name);
    let s = scan(&img);
    assert!(s.errors.is_empty(), "{:?}", s.errors);
    let b = by(&s, "big.bin");
    assert_eq!(b.size, 20000);
    assert_eq!(b.state, State::Intact);
    assert_eq!(contents(&img, b).unwrap(), big(), "{name}: big.bin");
    let x = by(&s, "Dokumen Kantor/Laporan Keuangan 2026.xlsx");
    assert_eq!(x.size, 6004);
    assert_eq!(x.state, State::Intact);
    assert_eq!(contents(&img, x).unwrap(), xlsx(), "{name}: xlsx");
    // Live files are never listed.
    assert!(s.files.iter().all(|f| !f.path.ends_with("keep.txt") && !f.path.ends_with("after.txt")));
    s
}

#[test]
fn fat32_lists_and_recovers_deleted_files_with_long_names() {
    let s = check("fat32");
    assert_eq!(s.volumes[0].fs, "FAT32");
    let img = fixture("fat32");
    let n = s.files.iter().find(|f| f.path == "note.txt").unwrap();
    assert_eq!(contents(&img, n).unwrap(), b"short note, deleted\n");
    assert!(s.files.iter().all(|f| f.state == State::Intact));
}

#[test]
fn fat32_short_names_lose_their_first_letter() {
    let img = fixture("fat32");
    let s = scan(&img);
    let f = by(&s, "_HORT.TXT");
    assert_eq!(f.volume, "whole device (FAT32)");
    assert_eq!(f.note, None);
    assert_eq!(contents(&img, f).unwrap(), b"abc");
}

#[test]
fn folders_that_lead_back_are_read_once() {
    let mut img = fixture("fat32");
    let before: Vec<String> = scan(&img).files.into_iter().map(|f| f.path).collect();
    // Behind the six entries of the folder: one that leads to the root, one to itself.
    put(&mut img, fat_cluster(4) + 6 * 32, &fat_short(b"UP         ", 0x10, 2, 0, false));
    put(&mut img, fat_cluster(4) + 7 * 32, &fat_short(b"HERE       ", 0x10, 4, 0, false));
    let after: Vec<String> = scan(&img).files.into_iter().map(|f| f.path).collect();
    assert_eq!(before, vec!["big.bin", "note.txt", "_HORT.TXT", "Dokumen Kantor/Laporan Keuangan 2026.xlsx"]);
    assert_eq!(after, before);
}

#[test]
fn exfat_lists_and_recovers_deleted_files() {
    let s = check("exfat");
    assert_eq!(s.volumes[0].fs, "exFAT");
    // note.txt's cluster went to after.txt (written after the delete).
    let n = s.files.iter().find(|f| f.path == "note.txt").unwrap();
    assert_eq!(n.state, State::Overwritten);
    assert_eq!(s.maps.len(), 1);
    assert!(s.maps[0].used.iter().any(|u| u.allocated > 0));
}

#[test]
fn exfat_follows_a_chain_that_is_still_there() {
    let mut img = fixture("exfat");
    // The twelve clusters of the sheet, with a gap behind the fifth.
    let chain: Vec<u32> = (60..65).chain(300..307).collect();
    for w in chain.windows(2) {
        ex_link(&mut img, w[0] as usize, w[1]);
    }
    ex_link(&mut img, 306, 0xFFFF_FFFF);
    let x = xlsx();
    put(&mut img, ex_cluster(300), &x[5 * 512..]);
    ex_use(&mut img, 300);
    let s = scan(&img);
    let f = by(&s, "Dokumen Kantor/Laporan Keuangan 2026.xlsx");
    assert_eq!(f.note, None);
    assert_eq!(f.state, State::PartlyReused);
    assert_eq!(f.data, Data::Extents(vec![
        (Some(ex_cluster(60) as u64), 5 * 512),
        (Some(ex_cluster(300) as u64), 6004 - 5 * 512),
    ]));
    assert_eq!(contents(&img, f).unwrap(), x);
}

#[test]
fn ntfs_lists_and_recovers_deleted_files_with_folders() {
    let s = check("ntfs");
    assert_eq!(s.volumes[0].fs, "NTFS");
    // Small files are resident in the MFT record.
    let img = fixture("ntfs");
    let h = s.files.iter().find(|f| f.path == "hello.txt").unwrap();
    assert!(matches!(h.data, Data::Resident(_)));
    assert_eq!(contents(&img, h).unwrap(), b"hello from dcheck\n".repeat(3));
    assert!(s.files.iter().all(|f| f.state == State::Intact));
}

#[test]
fn ntfs3_deleted_files_without_names_are_still_recovered() {
    // The Linux ntfs3 driver drops $FILE_NAME on delete; $DATA stays.
    let img = fixture("ntfs3");
    let s = scan(&img);
    assert!(s.errors.is_empty(), "{:?}", s.errors);
    let names: Vec<&str> = s.files.iter().map(|f| f.path.as_str()).collect();
    assert!(names.iter().all(|n| n.starts_with("$NoName/record-")), "{names:?}");
    let b = s.files.iter().find(|f| f.size == 20000).expect("big.bin by size");
    assert!(b.path.ends_with(".bin"), "{}", b.path);
    assert_eq!(b.path, "$NoName/record-25.bin");
    assert_eq!(contents(&img, b).unwrap(), big());
    let x = s.files.iter().find(|f| f.size == 6004).expect("xlsx by size");
    assert!(x.path.ends_with(".zip"), "{}", x.path);
    assert!(s.files.iter().any(|f| f.path.ends_with(".txt")), "{names:?}");
}

#[test]
fn names_that_the_directory_index_still_holds_are_used() {
    let img = ntfs_image_with(false, &[index_entry(25, 5, "big.bin"), index_entry(28, 27, "Laporan.xlsx")], &[]);
    let s = scan(&img);
    let names: Vec<&str> = s.files.iter().map(|f| f.path.as_str()).collect();
    assert_eq!(names, vec!["big.bin", "$NoName/record-26.txt", "Dokumen Kantor/Laporan.xlsx"]);
}

#[test]
fn names_in_the_slack_of_the_directory_index_are_used() {
    // Both files were removed from the index; only their entries behind the last one remain.
    let removed = [index_entry(25, 5, "big.bin"), index_entry(28, 27, "Laporan.xlsx")];
    let s = scan(&ntfs_image_with(false, &[], &removed));
    let names: Vec<&str> = s.files.iter().map(|f| f.path.as_str()).collect();
    assert_eq!(names, vec!["big.bin", "$NoName/record-26.txt", "Dokumen Kantor/Laporan.xlsx"]);
    // What the index still holds comes first.
    let s = scan(&ntfs_image_with(false, &[index_entry(25, 5, "new.bin")], &removed));
    let names: Vec<&str> = s.files.iter().map(|f| f.path.as_str()).collect();
    assert_eq!(names, vec!["new.bin", "$NoName/record-26.txt", "Dokumen Kantor/Laporan.xlsx"]);
}

#[test]
fn names_are_found_for_files_whose_data_is_in_another_record() {
    let mut img = ntfs_image_with(false, &[], &[index_entry(25, 5, "big.bin")]);
    // Record 25 keeps an attribute list only, which leads to its data in record 30.
    let mut entry = vec![0u8; 32];
    put(&mut entry, 0, &0x80u32.to_le_bytes());
    put(&mut entry, 4, &32u16.to_le_bytes());
    put(&mut entry, 16, &30u64.to_le_bytes());
    put(&mut img, (4 + 25) * CS, &record(0, &[attr_resident(0x20, &entry)]));
    let runs = [0x11, 12, 100, 0x11, 8, 0xE2, 0];
    let mut extension = record(0, &[attr_nonresident(0x80, 0, 20000, &runs)]);
    put(&mut extension, 32, &25u64.to_le_bytes());
    put(&mut img, (4 + 30) * CS, &extension);
    let s = scan(&img);
    let f = by(&s, "big.bin");
    assert_eq!(f.size, 20000);
    assert_eq!(contents(&img, f).unwrap(), big());
}

#[test]
fn ntfs_files_out_of_reach_of_the_root_are_orphans() {
    let mut img = fixture("ntfs");
    // The folder of the sheet is gone.
    put(&mut img, (4 + 27) * CS, b"GONE");
    let s = scan(&img);
    let x = s.files.iter().find(|f| f.size == 6004).unwrap();
    assert_eq!(x.path, "$Orphan/Laporan Keuangan 2026.xlsx");
}

#[test]
fn ntfs_states_come_from_the_bitmap() {
    let mut img = fixture("ntfs");
    // One cluster of the big file, and all clusters of the sheet.
    for c in [71].into_iter().chain(120..126) {
        img[2 * CS + c / 8] |= 1 << (c % 8);
    }
    let s = scan(&img);
    assert_eq!(by(&s, "big.bin").state, State::PartlyReused);
    assert_eq!(by(&s, "Dokumen Kantor/Laporan Keuangan 2026.xlsx").state, State::Overwritten);
    assert_eq!(by(&s, "hello.txt").state, State::Intact);
}

#[test]
fn finds_partitions_in_a_whole_disk_image() {
    // MBR with the FAT32 image as partition 1 at LBA 2048.
    let part = fixture("fat32");
    let mut disk = vec![0u8; 2048 * 512];
    disk[446 + 4] = 0x0C;
    disk[446 + 8..446 + 12].copy_from_slice(&2048u32.to_le_bytes());
    disk[446 + 12..446 + 16].copy_from_slice(&((part.len() / 512) as u32).to_le_bytes());
    disk[510] = 0x55;
    disk[511] = 0xAA;
    disk.extend(&part);
    let s = scan(&disk);
    assert_eq!(s.volumes.len(), 1);
    assert_eq!(s.volumes[0].label, "partition 1");
    let b = s.files.iter().find(|f| f.path == "big.bin").unwrap();
    assert_eq!(b.state, State::Intact);
    assert_eq!(contents(&disk, b).unwrap(), big());
}

#[test]
fn finds_partitions_in_a_gpt() {
    let part = fixture("exfat");
    let mut disk = vec![0u8; 64 * 512];
    disk[510] = 0x55;
    disk[511] = 0xAA;
    put(&mut disk, 512, b"EFI PART");
    put(&mut disk, 512 + 72, &2u64.to_le_bytes());
    put(&mut disk, 512 + 80, &4u32.to_le_bytes());
    put(&mut disk, 512 + 84, &128u32.to_le_bytes());
    disk[1024] = 1;
    put(&mut disk, 1024 + 32, &64u64.to_le_bytes());
    put(&mut disk, 1024 + 40, &(64 + part.len() as u64 / 512 - 1).to_le_bytes());
    disk.extend(&part);
    let s = scan(&disk);
    assert_eq!(s.volumes.len(), 1);
    assert_eq!(s.volumes[0].fs, "exFAT");
    assert_eq!(s.volumes[0].base, 64 * 512);
    assert_eq!(s.volumes[0].size, part.len() as u64);
    assert_eq!(contents(&disk, by(&s, "big.bin")).unwrap(), big());
}

#[test]
fn other_filesystems_are_left_to_carving() {
    let mut img = vec![0u8; 0x20000];
    put(&mut img, 1024 + 56, &[0x53, 0xEF]);
    let s = scan(&img);
    assert_eq!(s.carve_only, vec!["whole device (ext4)"]);
    assert!(s.files.is_empty() && s.errors.is_empty() && s.maps.is_empty());
    let e = free_ranges(&img, &s.volumes[0]).unwrap_err();
    assert_eq!(e.message, "no free-space bitmap for this filesystem");
    let p = carve_plan(&img, true);
    assert_eq!(p.ranges, vec![(0, 0x20000)]);
    assert_eq!(p.warnings, vec![
        "  whole device (ext4): no free-space bitmap for this filesystem — carving the whole volume",
    ]);
}

#[test]
fn broken_volumes_are_errors() {
    let mut img = fixture("fat32");
    img[13] = 0;
    let s = scan(&img);
    assert_eq!(s.errors, vec!["whole device (FAT32): bad FAT32 boot sector"]);
    assert_eq!((s.volumes.len(), s.maps.len(), s.carve_only.len()), (1, 0, 0));
    assert_eq!(free_ranges(&img, &s.volumes[0]).unwrap_err().message, "bad FAT32 boot sector");

    let mut img = fixture("exfat");
    img.truncate(24 * 512);
    assert_eq!(scan(&img).errors, vec!["whole device (exFAT): past the end"]);
    let mut img = fixture("exfat");
    put(&mut img, 92, &0u32.to_le_bytes());
    let vols = volumes(&img);
    assert_eq!(free_ranges(&img, &vols[0]).unwrap_err().message, "bad exFAT boot sector");

    let mut img = fixture("ntfs");
    img[13] = 0;
    assert_eq!(scan(&img).errors, vec!["whole device (NTFS): bad NTFS boot sector"]);
    let mut img = fixture("ntfs");
    put(&mut img, 4 * CS, b"BAAD");
    assert_eq!(scan(&img).errors, vec!["whole device (NTFS): MFT record 0 unreadable"]);
    let mut img = fixture("ntfs");
    put(&mut img, 4 * CS, &record(1, &[attr_resident(0x80, b"x")]));
    assert_eq!(scan(&img).errors, vec!["whole device (NTFS): no $MFT data runs"]);
    let mut img = fixture("ntfs");
    put(&mut img, 10 * CS, b"BAAD");
    let vols = volumes(&img);
    assert_eq!(free_ranges(&img, &vols[0]).unwrap_err().message, "no $Bitmap record");
    let mut img = fixture("ntfs");
    put(&mut img, 10 * CS, &record(1, &[attr_resident(0x80, b"x")]));
    assert_eq!(free_ranges(&img, &vols[0]).unwrap_err().message, "no $Bitmap data runs");
}

#[test]
fn free_ranges_exclude_allocated_clusters() {
    for n in ["fat32", "exfat", "ntfs"] {
        let img = fixture(n);
        let vols = volumes(&img);
        assert_eq!(vols.len(), 1, "{n}");
        let ranges = free_ranges(&img, &vols[0]).unwrap_or_else(|e| panic!("{n}: {e:?}"));
        assert!(!ranges.is_empty(), "{n}: no free ranges");
        let mut prev = vols[0].base;
        for (a, b) in &ranges {
            assert!(a >= &prev && b > a, "{n}: bad range {a}..{b}");
            assert!(b <= &(vols[0].base + vols[0].size), "{n}: range past volume");
            prev = *b;
        }
        assert!(ranges.len() > 1, "{n}: allocation should have gaps");
    }
}

#[test]
fn free_ranges_are_the_free_clusters() {
    let img = fixture("ntfs");
    let vols = volumes(&img);
    let cs = CS as u64;
    assert_eq!(free_ranges(&img, &vols[0]).unwrap(), vec![(44 * cs, 150 * cs), (151 * cs, 200 * cs)]);
    let img = fixture("fat32");
    let vols = volumes(&img);
    let at = |c: usize| fat_cluster(c) as u64;
    assert_eq!(free_ranges(&img, &vols[0]).unwrap(), vec![
        (at(4), at(5)),
        (at(6), at(100)),
        (at(101), at(402)),
    ]);
    assert_eq!(carve_plan(&img, false).ranges, vec![(0, img.len() as u64)]);
    assert_eq!(carve_plan(&img, true).ranges.len(), 3);
}

#[test]
fn free_carving_skips_allocated_space() {
    let mut img = fixture("fat32");
    let vols = volumes(&img);
    let ranges = free_ranges(&img, &vols[0]).unwrap();
    let jpg: Vec<u8> = [&[0xFF, 0xD8, 0xFF][..], &[7u8; 60][..], &[0xFF, 0xD9][..]].concat();
    // One header in free space, one in the allocated gap before it.
    let (free_at, _) = ranges[0];
    // The first byte after a free run starts an allocated cluster.
    let gap = ranges[0].1;
    assert_ne!(gap, free_at);
    for at in [free_at as usize, gap as usize] {
        if at + jpg.len() <= img.len() {
            img[at..at + jpg.len()].copy_from_slice(&jpg);
        }
    }
    let mut found = Vec::new();
    for (a, b) in &ranges {
        found.extend(carve(&img, *a, *b, &mut Calls::new(|_, _| {})));
    }
    assert!(found.iter().any(|c| c.offset == free_at), "free jpg not found: {found:?}");
    assert!(!found.iter().any(|c| c.offset == gap as u64), "allocated jpg was carved");
    assert!(gap >= vols[0].base);
}

#[test]
fn contiguity_assumption_is_noted() {
    // big.bin needs several clusters: FAT32 has no per-file chain left, so
    // it says the location is an assumption.
    let s = scan(&fixture("fat32"));
    let b = s.files.iter().find(|f| f.path == "big.bin").unwrap();
    assert_eq!(b.note, Some("assumed contiguous"));
    // exFAT keeps NoFatChain: a contiguous deleted file needs no assumption.
    let s = scan(&fixture("exfat"));
    let b = s.files.iter().find(|f| f.size == 20000).unwrap();
    assert_eq!(b.note, None);
    let x = s.files.iter().find(|f| f.size == 6004).unwrap();
    assert_eq!(x.note, Some("assumed contiguous"));
}

#[test]
fn volume_maps_show_what_is_in_use() {
    let s = scan(&fixture("ntfs"));
    let m = &s.maps[0];
    assert_eq!((m.base, m.size, m.used.len()), (0, 200 * 1024, 1024));
    // Cluster 150 of 200 falls into cell 768.
    let cell = m.used[150 * 1024 / 200];
    assert_eq!((cell.allocated, cell.sampled), (1, 1));
    let cell = m.used[100 * 1024 / 200];
    assert_eq!((cell.allocated, cell.sampled), (0, 1));
    assert!(m.used.iter().all(|u| u.allocated <= u.sampled));
    // What stands before the heap is in use.
    let m = &scan(&fixture("fat32")).maps[0];
    assert_eq!((m.used[0].allocated, m.used[0].sampled), (1, 1));
}
