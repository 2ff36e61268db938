//! NTFS records, attribute lists and directory indexes.

use dcheck::index::{index_alloc_entries, index_entries, index_name_map, index_root_entries};
use dcheck::mft::{attr_list_entries, ntfs_fixup, ntfs_record, AttrRef};
use dcheck::order::add_key;
use dcheck::resolve::{resolve_attr, Resolved};
use dcheck::runs::{ntfs_runs, Geometry};
use std::collections::HashMap;

#[test]
fn ntfs_runlist_and_fixup() {
    // 0x21: 1-byte length, 2-byte offset: 0x18 clusters at LCN 0x5634;
    // then 0x11: 1/1 with a negative offset (-2).
    let runs = ntfs_runs(&[0x21, 0x18, 0x34, 0x56, 0x11, 0x04, 0xFE, 0x01, 0x03, 0x00]);
    assert_eq!(runs, vec![(Some(0x5634), 0x18), (Some(0x5632), 4), (None, 3)]);
    let mut rec = vec![0u8; 1024];
    rec[..4].copy_from_slice(b"FILE");
    rec[4] = 48;
    rec[6] = 3;
    rec[48..50].copy_from_slice(&[0xAB, 0xCD]);
    rec[50..52].copy_from_slice(&[1, 2]);
    rec[52..54].copy_from_slice(&[3, 4]);
    rec[510..512].copy_from_slice(&[0xAB, 0xCD]);
    rec[1022..1024].copy_from_slice(&[0xAB, 0xCD]);
    assert!(ntfs_fixup(&mut rec));
    assert_eq!(&rec[510..512], &[1, 2]);
    assert_eq!(&rec[1022..1024], &[3, 4]);
}

#[test]
fn fixup_refuses_what_is_not_sound() {
    let mut good = vec![0u8; 1024];
    good[..4].copy_from_slice(b"FILE");
    good[4] = 48;
    good[6] = 3;
    good[48..50].copy_from_slice(&[0xAB, 0xCD]);
    good[510..512].copy_from_slice(&[0xAB, 0xCD]);
    good[1022..1024].copy_from_slice(&[0xAB, 0xCD]);
    assert!(ntfs_fixup(&mut good.clone()));
    // Too short, another mark, an array that does not fit, a torn sector.
    assert!(!ntfs_fixup(&mut good.clone()[..47]));
    let mut r = good.clone();
    r[0] = b'B';
    assert!(!ntfs_fixup(&mut r));
    let mut r = good.clone();
    r[4..6].copy_from_slice(&1020u16.to_le_bytes());
    assert!(!ntfs_fixup(&mut r));
    let mut r = good.clone();
    r[1022] = 0;
    assert!(!ntfs_fixup(&mut r));
    // The first sector was sound, and is fixed up.
    assert_eq!(&r[510..512], &[0, 0]);
}

#[test]
fn runlists_end_where_they_make_no_sense() {
    assert_eq!(ntfs_runs(&[]), vec![]);
    assert_eq!(ntfs_runs(&[0x11, 1]), vec![]);
    assert_eq!(ntfs_runs(&[0x10, 1]), vec![]);
    assert_eq!(ntfs_runs(&[0x19, 1, 2, 3, 4, 5, 6, 7, 8, 9, 10]), vec![]);
    // Eight bytes each.
    let mut rl = vec![0x88];
    rl.extend(u64::MAX.to_le_bytes());
    rl.extend((-5i64).to_le_bytes());
    rl.extend([0x31, 2, 0, 0, 0x80, 0]);
    assert_eq!(ntfs_runs(&rl), vec![(Some(-5), u64::MAX), (Some(-5 - 0x80_0000), 2)]);
}

fn attr_resident(type_: u32, id: u16, named: bool, value: &[u8]) -> Vec<u8> {
    let (co, len) = (24usize, 24 + value.len());
    let mut a = vec![0u8; len];
    a[0..4].copy_from_slice(&type_.to_le_bytes());
    a[4..8].copy_from_slice(&(len as u32).to_le_bytes());
    a[8] = 0;
    a[9] = named as u8;
    a[14..16].copy_from_slice(&id.to_le_bytes());
    a[16..20].copy_from_slice(&(value.len() as u32).to_le_bytes());
    a[20..22].copy_from_slice(&(co as u16).to_le_bytes());
    a[24..].copy_from_slice(value);
    a
}

fn attr_nonresident(type_: u32, id: u16, vcn: u64, size: u64, runs: &[u8]) -> Vec<u8> {
    let (ro, len) = (64usize, 64 + runs.len());
    let mut a = vec![0u8; len];
    a[0..4].copy_from_slice(&type_.to_le_bytes());
    a[4..8].copy_from_slice(&(len as u32).to_le_bytes());
    a[8] = 1;
    a[14..16].copy_from_slice(&id.to_le_bytes());
    a[16..24].copy_from_slice(&vcn.to_le_bytes());
    a[24..32].copy_from_slice(&vcn.to_le_bytes());
    a[32..34].copy_from_slice(&(ro as u16).to_le_bytes());
    a[48..56].copy_from_slice(&size.to_le_bytes());
    a[ro..].copy_from_slice(runs);
    a
}

fn record(flags: u16, attrs: &[Vec<u8>]) -> Vec<u8> {
    let mut rec = vec![0u8; 1024];
    rec[..4].copy_from_slice(b"FILE");
    rec[20..22].copy_from_slice(&48u16.to_le_bytes());
    rec[22..24].copy_from_slice(&flags.to_le_bytes());
    let mut off = 48usize;
    for a in attrs {
        rec[off..off + a.len()].copy_from_slice(a);
        off += a.len();
    }
    rec[off..off + 4].copy_from_slice(&0xFFFF_FFFFu32.to_le_bytes());
    rec
}

fn list_entry(type_: u32, id: u16, record: u64, vcn: u64) -> Vec<u8> {
    let mut e = vec![0u8; 26];
    e[0..4].copy_from_slice(&type_.to_le_bytes());
    e[4..6].copy_from_slice(&26u16.to_le_bytes());
    e[8..16].copy_from_slice(&vcn.to_le_bytes());
    e[16..24].copy_from_slice(&record.to_le_bytes());
    e[24..26].copy_from_slice(&id.to_le_bytes());
    e
}

#[test]
fn follows_attribute_list_across_extension_records() {
    // A highly fragmented $DATA split into two extents, the second one in
    // another MFT record. Each extent runlist is absolute on its own.
    let list: Vec<u8> = [list_entry(0x80, 1, 41, 0), list_entry(0x80, 2, 42, 2)].concat();
    let base = record(0, &[attr_resident(0x20, 0, false, &list)]);
    // LCN 100, 2 clusters (len 1 byte, offset 1 byte).
    let ext1 = record(0, &[attr_nonresident(0x80, 1, 0, 3 * 4096, &[0x11, 2, 100, 0x00])]);
    // LCN 500, 1 cluster: absolute, not relative to the previous extent.
    let ext2 = record(0, &[attr_nonresident(0x80, 2, 2, 0, &[0x21, 1, 0xF4, 0x01, 0x00])]);
    let mut recs = HashMap::new();
    recs.insert(40u64, ntfs_record(&base));
    recs.insert(41u64, ntfs_record(&ext1));
    recs.insert(42u64, ntfs_record(&ext2));
    let parsed = attr_list_entries(&recs[&40].attrs[0].resident.clone().unwrap());
    assert_eq!(parsed, vec![
        AttrRef { type_: 0x80, id: 1, named: false, record: 41, vcn: 0 },
        AttrRef { type_: 0x80, id: 2, named: false, record: 42, vcn: 2 },
    ]);
    match resolve_attr(&recs, &parsed, 40, 0x80, true) {
        Some(Resolved::Runs(runs, size)) => {
            assert_eq!(runs, vec![(Some(100), 2), (Some(500), 1)]);
            assert_eq!(size, 3 * 4096);
        }
        other => panic!("expected merged runs, got {other:?}"),
    }
}

#[test]
fn extents_are_ordered_and_kept_once() {
    // The later extent comes first, and the first one twice.
    let base = record(0, &[
        attr_nonresident(0x80, 2, 7, 0, &[0x11, 1, 50, 0]),
        attr_nonresident(0x80, 1, 0, 0, &[0x11, 7, 10, 0]),
        attr_nonresident(0x80, 3, 0, 900, &[0x11, 7, 90, 0]),
    ]);
    let mut recs = HashMap::new();
    recs.insert(30u64, ntfs_record(&base));
    match resolve_attr(&recs, &[], 30, 0x80, true) {
        // No extent that counts carries a size.
        Some(Resolved::Runs(runs, size)) => {
            assert_eq!(runs, vec![(Some(10), 7), (Some(50), 1)]);
            assert_eq!(size, 0);
        }
        other => panic!("expected runs, got {other:?}"),
    }
    // A resident value comes before any runs, and an unnamed one is asked for.
    let base = record(0, &[
        attr_resident(0x80, 5, true, b"stream"),
        attr_nonresident(0x80, 1, 0, 7, &[0x11, 7, 10, 0]),
        attr_resident(0x80, 6, false, b"value"),
    ]);
    recs.insert(30u64, ntfs_record(&base));
    match resolve_attr(&recs, &[], 30, 0x80, true) {
        Some(Resolved::Resident(b)) => assert_eq!(b, b"value"),
        other => panic!("expected a value, got {other:?}"),
    }
    assert!(resolve_attr(&recs, &[], 30, 0x90, true).is_none());
    assert!(resolve_attr(&recs, &[], 31, 0x80, true).is_none());
}

#[test]
fn the_win32_name_is_preferred() {
    let mut dos = file_name_value(5, "LAPORA~1.XLS");
    dos[65] = 2;
    let win = file_name_value(9, "laporan.xlsx");
    let r = ntfs_record(&record(0, &[attr_resident(0x30, 1, false, &dos), attr_resident(0x30, 2, false, &win)]));
    assert_eq!(r.name(), Some((9, "laporan.xlsx".to_string())));
    assert!(!r.has_data());
    let r = ntfs_record(&record(3, &[attr_resident(0x30, 1, false, &dos)]));
    assert_eq!(r.name(), Some((5, "LAPORA~1.XLS".to_string())));
    assert!(r.in_use && r.is_dir);
}

#[test]
fn runs_are_read_and_cut_to_size() {
    let disk: Vec<u8> = (0..64u8).collect();
    let g = Geometry { base: 8, cs: 4 };
    assert_eq!(g.lcn_off(2), 16);
    assert_eq!(g.read_runs(&disk, &[(Some(2), 1), (None, 1), (Some(100), 1), (Some(3), 1)], 10), vec![
        16, 17, 18, 19, 0, 0, 0, 0, 20, 21,
    ]);
}

#[test]
fn keys_are_kept_ascending() {
    let mut keys = Vec::new();
    for x in [3, 9, 1, 9, 5, 3] {
        add_key(&mut keys, x);
    }
    assert_eq!(keys, vec![1, 3, 5, 9]);
}

fn file_name_value(parent: u64, name: &str) -> Vec<u8> {
    let units: Vec<u16> = name.encode_utf16().collect();
    let mut v = vec![0u8; 66 + units.len() * 2];
    v[0..8].copy_from_slice(&parent.to_le_bytes());
    v[64] = units.len() as u8;
    v[65] = 1;
    for (k, u) in units.iter().enumerate() {
        v[66 + 2 * k..68 + 2 * k].copy_from_slice(&u.to_le_bytes());
    }
    v
}

fn index_entry(rec: u64, parent: u64, name: &str) -> Vec<u8> {
    let fname = file_name_value(parent, name);
    let mut e = vec![0u8; 16 + fname.len()];
    e[0..8].copy_from_slice(&rec.to_le_bytes());
    e[8..10].copy_from_slice(&((16 + fname.len()) as u16).to_le_bytes());
    e[10..12].copy_from_slice(&(fname.len() as u16).to_le_bytes());
    e[16..].copy_from_slice(&fname);
    e
}

#[test]
fn reads_names_from_index_root_and_allocation() {
    let mut root = vec![0u8; 0x20];
    root[0..4].copy_from_slice(&0x30u32.to_le_bytes());
    root[8..12].copy_from_slice(&512u32.to_le_bytes());
    root[0x10..0x14].copy_from_slice(&16u32.to_le_bytes()); // entries at 0x20
    root.extend(index_entry(77, 5, "laporan.xlsx"));
    root.extend([0u8; 12]);
    root.extend(2u32.to_le_bytes()); // last entry flag
    assert_eq!(index_root_entries(&root), vec![(77, 5, "laporan.xlsx".into())]);

    // An INDX block with the update-sequence fixup applied, entries at 0x38.
    let mut block = vec![0u8; 512];
    block[..4].copy_from_slice(b"INDX");
    block[4..6].copy_from_slice(&48u16.to_le_bytes());
    block[6..8].copy_from_slice(&2u16.to_le_bytes());
    block[48..50].copy_from_slice(&[0xAB, 0xCD]);
    block[0x18..0x1C].copy_from_slice(&32u32.to_le_bytes()); // entries at 0x38
    let e = index_entry(78, 5, "photo.jpg");
    block[0x38..0x38 + e.len()].copy_from_slice(&e);
    let last = 0x38 + e.len();
    block[last + 12..last + 16].copy_from_slice(&2u32.to_le_bytes());
    block[510..512].copy_from_slice(&[0xAB, 0xCD]);
    assert_eq!(index_alloc_entries(&block, 512), vec![(78, 5, "photo.jpg".into())]);
}

/// An index root with one entry, and one that was removed left behind it.
fn root_with_slack() -> Vec<u8> {
    let mut root = vec![0u8; 0x20];
    root[0..4].copy_from_slice(&0x30u32.to_le_bytes());
    root[8..12].copy_from_slice(&512u32.to_le_bytes());
    root[0x10..0x14].copy_from_slice(&16u32.to_le_bytes()); // entries at 0x20
    root.extend(index_entry(77, 5, "laporan.xlsx"));
    root.extend([0u8; 12]);
    root.extend(2u32.to_le_bytes()); // last entry flag
    root.extend([0u8; 5]); // the rest of an entry that was written over
    root.extend(index_entry(90, 6, "removed.doc"));
    root
}

/// An index block with the given entry in use, or removed.
fn index_block(entry: &[u8], removed: bool) -> Vec<u8> {
    let mut block = vec![0u8; 512];
    block[..4].copy_from_slice(b"INDX");
    block[4..6].copy_from_slice(&40u16.to_le_bytes());
    block[6..8].copy_from_slice(&2u16.to_le_bytes());
    block[40..42].copy_from_slice(&[0xAB, 0xCD]);
    block[0x18..0x1C].copy_from_slice(&32u32.to_le_bytes()); // entries at 0x38
    let (at, last) = if removed { (0x100, 0x38) } else { (0x38, 0x38 + entry.len()) };
    block[at..at + entry.len()].copy_from_slice(entry);
    block[last + 8..last + 10].copy_from_slice(&16u16.to_le_bytes());
    block[last + 12..last + 16].copy_from_slice(&2u32.to_le_bytes());
    block[510..512].copy_from_slice(&[0xAB, 0xCD]);
    block
}

#[test]
fn entries_end_at_the_last_one() {
    let root = root_with_slack();
    assert_eq!(index_root_entries(&root), vec![(77, 5, "laporan.xlsx".into())]);
    assert_eq!(index_entries(&root, 0x20), index_root_entries(&root));
    assert!(index_alloc_entries(&index_block(&index_entry(91, 6, "gone.png"), true), 512).is_empty());
}

#[test]
fn index_blocks_are_read_one_by_one() {
    let removed = index_block(&index_entry(91, 6, "gone.png"), true);
    let live = index_block(&index_entry(92, 6, "here.png"), false);
    let mut broken = live.clone();
    broken[511] = 0;
    let parts = [removed, live.clone(), broken, vec![7u8; 512], live[..300].to_vec()];
    let one_by_one: Vec<_> = parts.iter().flat_map(|b| index_alloc_entries(b, 512)).collect();
    assert_eq!(one_by_one, vec![(92, 6, "here.png".into())]);
    assert_eq!(index_alloc_entries(&parts.concat(), 512), one_by_one);
    let twice = [live.clone(), live].concat();
    assert_eq!(index_alloc_entries(&twice, 512).len(), 2);
}

/// The names that the index of a directory holds, with the given root and blocks.
fn names_of_directory(root: &[u8], blocks: &[u8]) -> HashMap<u64, (u64, String)> {
    let mut recs = HashMap::new();
    let runs = [0x11, (blocks.len() / 512) as u8, 2, 0];
    let dir = record(3, &[
        attr_resident(0x90, 1, true, root),
        attr_nonresident(0xA0, 2, 0, blocks.len() as u64, &runs),
    ]);
    recs.insert(5u64, ntfs_record(&dir));
    recs.insert(77u64, ntfs_record(&record(0, &[])));
    let disk = [vec![0u8; 1024], blocks.to_vec()].concat();
    index_name_map(&recs, &[5, 77], &disk, Geometry { base: 0, cs: 512 })
}

#[test]
fn reads_names_left_in_the_slack() {
    let blocks = [
        index_block(&index_entry(91, 6, "gone.png"), true),
        index_block(&index_entry(90, 8, "renamed.doc"), false),
    ];
    let names = names_of_directory(&root_with_slack(), &blocks.concat());
    assert_eq!(names.len(), 3);
    assert_eq!(names[&77], (5, "laporan.xlsx".to_string()));
    assert_eq!(names[&91], (6, "gone.png".to_string()));
    // A live entry counts before one in the slack, wherever it stands.
    assert_eq!(names[&90], (8, "renamed.doc".to_string()));
    let names = names_of_directory(&root_with_slack(), &blocks[0]);
    assert_eq!(names[&90], (6, "removed.doc".to_string()));
    // Cut off in the name: nothing is made of it.
    let mut root = root_with_slack();
    root.pop();
    assert!(!names_of_directory(&root, &blocks[0]).contains_key(&90));
}

#[test]
fn runlists_are_read_back() {
    let runs = [(Some(0x5634), 0x18), (None, 300), (Some(-7), 1), (Some(i64::MAX - 9), u64::MAX)];
    let mut written = Vec::new();
    let mut lcn = 0i64;
    for (i, (at, count)) in runs.iter().enumerate() {
        // The widths do not matter, as long as the numbers fit.
        let (ln, lo) = [(1, 2), (4, 0), (8, 3), (8, 8)][i];
        written.push((lo * 16 + ln) as u8);
        written.extend(&u64::to_le_bytes(*count)[..ln]);
        if let Some(at) = at {
            written.extend(&at.wrapping_sub(lcn).to_le_bytes()[..lo]);
            lcn = *at;
        }
    }
    assert_eq!(ntfs_runs(&written), runs.to_vec());
    written.extend([0, 0x11, 1, 1]);
    assert_eq!(ntfs_runs(&written), runs.to_vec());
}

#[test]
fn the_order_of_an_attribute_list_does_not_matter() {
    let mut recs = HashMap::new();
    recs.insert(40u64, ntfs_record(&record(0, &[attr_nonresident(0x80, 0, 9, 0, &[0x11, 4, 70, 0])])));
    recs.insert(41u64, ntfs_record(&record(0, &[attr_nonresident(0x80, 1, 0, 900, &[0x11, 2, 100, 0])])));
    recs.insert(42u64, ntfs_record(&record(0, &[attr_nonresident(0x80, 2, 2, 0, &[0x11, 7, 50, 0])])));
    let list = attr_list_entries(
        &[list_entry(0x80, 1, 41, 0), list_entry(0x80, 2, 42, 2), list_entry(0x80, 0, 40, 9)].concat(),
    );
    for order in [[0, 1, 2], [0, 2, 1], [1, 0, 2], [1, 2, 0], [2, 0, 1], [2, 1, 0]] {
        let list: Vec<AttrRef> = order.iter().chain(&[0]).map(|i| list[*i]).collect();
        match resolve_attr(&recs, &list, 40, 0x80, true) {
            Some(Resolved::Runs(runs, size)) => {
                assert_eq!(runs, vec![(Some(100), 2), (Some(50), 7), (Some(70), 4)]);
                assert_eq!(size, 900);
            }
            other => panic!("expected runs, got {other:?}"),
        }
    }
}
