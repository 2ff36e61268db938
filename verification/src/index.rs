//! NTFS directory index: names for records whose `$FILE_NAME` is gone.

use crate::bytes::fields_are_little_endian;
use crate::bytes::{copy_range, le16, le32, le64, u16le, u32le, u64le};
use crate::mft::{fixup_touches_sector_tails_only, names_are_read, record_numbers_have_six_bytes};
use crate::mft::{file_name, fixed_up, fixup, indx_magic, read_file_name, NtfsRecord, NtfsRecordView};
use crate::model::{views, views_add, views_push};
use crate::resolve::{attribute_list, record_attr_list, record_views, resolve_attr, resolved, Resolved, ResolvedView};
use crate::runs::Geometry;
use crate::source::Source;
use crate::text::utf16_text;
use crate::volume::number_at;
use std::collections::HashMap;
use vstd::prelude::*;

verus! {

/// Whether an index entry, other than the last one, stands in `buf` at `p`.
pub open spec fn index_entry_at(buf: Seq<u8>, p: int) -> bool {
    &&& p + 16 <= buf.len()
    &&& le16(buf, p + 8) >= 16
    &&& p + le16(buf, p + 8) <= buf.len()
    &&& le32(buf, p + 12) & 0x02 == 0
}

/// The name in the index entry at `p`: (record, parent record, name).
pub open spec fn index_entry_name(buf: Seq<u8>, p: int) -> Option<(u64, u64, Seq<char>)> {
    let room = le16(buf, p + 8) - 16;
    let n = if le16(buf, p + 10) < room {
        le16(buf, p + 10) as int
    } else {
        room
    };
    match file_name(buf.subrange(p + 16, p + 16 + n)) {
        Some((_, parent, name)) => Some((le64(buf, p) & 0x0000_FFFF_FFFF_FFFF, parent, name)),
        None => None,
    }
}

/// The names in the index entries of `buf` from `p` on, up to the last entry.
pub open spec fn live_names(buf: Seq<u8>, p: int) -> Seq<(u64, u64, Seq<char>)>
    decreases buf.len() - p,
{
    if index_entry_at(buf, p) {
        let first = match index_entry_name(buf, p) {
            Some(n) => seq![n],
            None => seq![],
        };
        first + live_names(buf, p + le16(buf, p + 8))
    } else {
        seq![]
    }
}

/// Where the index entries of `buf` from `p` on end: at the last entry.
pub open spec fn entries_end(buf: Seq<u8>, p: int) -> int
    decreases buf.len() - p,
{
    if index_entry_at(buf, p) {
        entries_end(buf, p + le16(buf, p + 8))
    } else {
        p
    }
}

/// Where the slack behind the index entries of `buf` from `p` on starts: behind the header of
/// the last entry.
pub open spec fn slack_start(buf: Seq<u8>, p: int) -> int {
    entries_end(buf, p) + 16
}

/// Whether a removed entry has been left in `buf` at `p`: an entry with a `$FILE_NAME` that
/// fits into it, and a name that fits into that and is not empty.
pub open spec fn stale_entry_at(buf: Seq<u8>, p: int) -> bool {
    &&& index_entry_at(buf, p)
    &&& 16 + le16(buf, p + 10) <= le16(buf, p + 8)
    &&& index_entry_name(buf, p) is Some
    &&& buf[p + 16 + 64] > 0
}

/// The names in the entries that have been left in `buf` from `p` on, wherever they stand.
pub open spec fn stale_names(buf: Seq<u8>, p: int) -> Seq<(u64, u64, Seq<char>)>
    decreases buf.len() - p,
{
    if p < 0 || p >= buf.len() {
        seq![]
    } else if stale_entry_at(buf, p) {
        seq![index_entry_name(buf, p)->Some_0] + stale_names(buf, p + 1)
    } else {
        stale_names(buf, p + 1)
    }
}

/// The names in `buf`, whose entries start at `p`: those of the entries, or, with `stale`,
/// those that have been left in the slack behind them.
pub open spec fn names_among(buf: Seq<u8>, p: int, stale: bool) -> Seq<(u64, u64, Seq<char>)> {
    if stale {
        stale_names(buf, slack_start(buf, p))
    } else {
        live_names(buf, p)
    }
}

proof fn stale_names_hold(buf: Seq<u8>, from: int, p: int)
    requires
        0 <= from <= p < buf.len(),
        stale_entry_at(buf, p),
    ensures
        stale_names(buf, from).contains(index_entry_name(buf, p)->Some_0),
    decreases p - from,
{
    let all = stale_names(buf, from);
    if from == p {
        assert(all[0] == index_entry_name(buf, p)->Some_0);
    } else {
        stale_names_hold(buf, from + 1, p);
        let rest = stale_names(buf, from + 1);
        let i = choose|i: int| 0 <= i < rest.len() && rest[i] == index_entry_name(buf, p)->Some_0;
        if stale_entry_at(buf, from) {
            assert(all[i + 1] == rest[i]);
        } else {
            assert(all[i] == rest[i]);
        }
    }
}

proof fn entries_go_forward(buf: Seq<u8>, p: int)
    requires
        0 <= p,
    ensures
        p <= entries_end(buf, p),
    decreases buf.len() - p,
{
    if index_entry_at(buf, p) {
        entries_go_forward(buf, p + le16(buf, p + 8));
    }
}

/// A name that has been left anywhere in the slack behind the last entry is found.
pub proof fn names_in_the_slack_are_found(buf: Seq<u8>, at: int, p: int)
    requires
        0 <= at,
        slack_start(buf, at) <= p < buf.len(),
        stale_entry_at(buf, p),
    ensures
        names_among(buf, at, true).contains(index_entry_name(buf, p)->Some_0),
{
    entries_go_forward(buf, at);
    stale_names_hold(buf, slack_start(buf, at), p);
}

/// The name in the entry that stands in `buf` at `p`.
fn read_entry(buf: &[u8], p: usize) -> (r: Option<(u64, u64, String)>)
    requires
        index_entry_at(buf@, p as int),
    ensures
        match r {
            Some(n) => index_entry_name(buf@, p as int) == Some(n@),
            None => index_entry_name(buf@, p as int) is None,
        },
{
    assert(buf@.len() == buf.len());
    let rec = u64le(buf, p) & 0x0000_FFFF_FFFF_FFFF;
    let len = u16le(buf, p + 8) as usize;
    let stream_len = u16le(buf, p + 10) as usize;
    let n = if stream_len < len - 16 {
        stream_len
    } else {
        len - 16
    };
    let s = vstd::slice::slice_subrange(buf, p + 16, p + 16 + n);
    match read_file_name(s) {
        Some((_, parent, name)) => Some((rec, parent, name)),
        None => None,
    }
}

/// Whether an index entry, other than the last one, stands in `buf` at `p`.
fn is_entry(buf: &[u8], p: usize) -> (r: bool)
    ensures
        r == index_entry_at(buf@, p as int),
{
    assert(buf@.len() == buf.len());
    if p > buf.len() || buf.len() - p < 16 {
        return false;
    }
    let len = u16le(buf, p + 8) as usize;
    len >= 16 && len <= buf.len() - p && u32le(buf, p + 12) & 0x02 == 0
}

/// Walk `$FILE_NAME` index entries from `entries_off` (relative to the buffer)
/// until the last-entry flag: (record, parent, name) of each, and where they end.
fn walk_entries(buf: &[u8], entries_off: usize) -> (r: (Vec<(u64, u64, String)>, usize))
    ensures
        views(r.0@) == live_names(buf@, entries_off as int),
        r.1 == entries_end(buf@, entries_off as int),
{
    assert(buf@.len() == buf.len());
    let mut out: Vec<(u64, u64, String)> = Vec::new();
    let mut p = entries_off;
    let ghost all = live_names(buf@, entries_off as int);
    assert(views(out@) + all =~= all);
    while is_entry(buf, p)
        invariant
            buf@.len() == buf.len(),
            views(out@) + live_names(buf@, p as int) == all,
            entries_end(buf@, p as int) == entries_end(buf@, entries_off as int),
        decreases buf@.len() - p,
    {
        let ghost before = views(out@);
        let ghost rest = live_names(buf@, p as int);
        let len = u16le(buf, p + 8) as usize;
        if let Some(n) = read_entry(buf, p) {
            proof {
                views_push(out@, n);
            }
            out.push(n);
        }
        assert(views(out@) + live_names(buf@, p + len) =~= before + rest);
        p += len;
    }
    assert(views(out@) + live_names(buf@, p as int) =~= views(out@));
    (out, p)
}

/// The names in the entries that have been left in `buf` from `first` on.
fn search_slack(buf: &[u8], first: usize) -> (r: Vec<(u64, u64, String)>)
    ensures
        views(r@) == stale_names(buf@, first as int),
{
    assert(buf@.len() == buf.len());
    let mut out: Vec<(u64, u64, String)> = Vec::new();
    let mut p = first;
    let ghost all = stale_names(buf@, first as int);
    assert(views(out@) + all =~= all);
    while p < buf.len()
        invariant
            buf@.len() == buf.len(),
            views(out@) + stale_names(buf@, p as int) == all,
        decreases buf@.len() - p,
    {
        let ghost before = views(out@);
        let ghost rest = stale_names(buf@, p as int);
        if is_entry(buf, p) && 16 + u16le(buf, p + 10) as usize <= u16le(buf, p + 8) as usize {
            if let Some(n) = read_entry(buf, p) {
                assert(p + 16 + 64 < buf@.len());
                if buf[p + 16 + 64] > 0 {
                    proof {
                        views_push(out@, n);
                    }
                    out.push(n);
                }
            }
        }
        assert(views(out@) + stale_names(buf@, p + 1) =~= before + rest);
        p += 1;
    }
    assert(views(out@) + stale_names(buf@, p as int) =~= views(out@));
    out
}

/// The names in `buf`, whose entries start at `at`: live, or left in the slack.
fn read_names(buf: &[u8], at: usize, stale: bool) -> (r: Vec<(u64, u64, String)>)
    ensures
        views(r@) == names_among(buf@, at as int, stale),
{
    let (live, end) = walk_entries(buf, at);
    if !stale {
        return live;
    }
    if end > buf.len() || buf.len() - end < 16 {
        let none: Vec<(u64, u64, String)> = Vec::new();
        assert(views(none@) =~= names_among(buf@, at as int, stale));
        return none;
    }
    search_slack(buf, end + 16)
}

/// The `$FILE_NAME` index entries from `entries_off` (relative to the buffer) until the
/// last-entry flag: (record, parent, name) of each.
pub fn index_entries(buf: &[u8], entries_off: usize) -> (r: Vec<(u64, u64, String)>)
    ensures
        views(r@) == live_names(buf@, entries_off as int),
{
    walk_entries(buf, entries_off).0
}

/// The names in a resident `$INDEX_ROOT` value, if it indexes `$FILE_NAME`.
pub open spec fn root_names(root: Seq<u8>, stale: bool) -> Seq<(u64, u64, Seq<char>)> {
    if root.len() < 0x20 || le32(root, 0) != 0x30 {
        seq![]
    } else {
        names_among(root, 0x10 + le32(root, 0x10), stale)
    }
}

fn read_root(root: &[u8], stale: bool) -> (r: Vec<(u64, u64, String)>)
    ensures
        views(r@) == root_names(root@, stale),
{
    if root.len() >= 0x10 + 16 && u32le(root, 0) == 0x30 {
        let at = u32le(root, 0x10) as usize;
        if at <= root.len() - 0x10 {
            return read_names(root, 0x10 + at, stale);
        }
    }
    let none: Vec<(u64, u64, String)> = Vec::new();
    assert(views(none@) =~= root_names(root@, stale));
    none
}

/// Entries of a resident `$INDEX_ROOT` value, if it indexes `$FILE_NAME`.
pub fn index_root_entries(root: &[u8]) -> (r: Vec<(u64, u64, String)>)
    ensures
        views(r@) == root_names(root@, false),
{
    read_root(root, false)
}

/// The block of `data` at `pos`; the last one may be shorter.
pub open spec fn block_at(data: Seq<u8>, block: int, pos: int) -> Seq<u8> {
    data.subrange(
        pos,
        if pos + block <= data.len() {
            pos + block
        } else {
            data.len() as int
        },
    )
}

/// The names in one `INDX` block; none where it is not sound.
pub open spec fn block_names(b: Seq<u8>, stale: bool) -> Seq<(u64, u64, Seq<char>)> {
    let (fixed, ok) = fixed_up(b, indx_magic());
    if ok {
        names_among(fixed, 0x18 + le32(fixed, 0x18), stale)
    } else {
        seq![]
    }
}

/// The names in the `INDX` blocks of `data` from `pos` on, up to one that is too short.
pub open spec fn blocks_names(data: Seq<u8>, block: int, pos: int, stale: bool) -> Seq<(u64, u64, Seq<char>)>
    decreases
            if pos < data.len() {
                data.len() - pos
            } else {
                0
            },
{
    if block < 512 || pos < 0 || pos >= data.len() || block_at(data, block, pos).len() < 0x28 {
        seq![]
    } else {
        block_names(block_at(data, block, pos), stale) + blocks_names(data, block, pos + block, stale)
    }
}

fn read_block(b: &[u8], stale: bool) -> (r: Vec<(u64, u64, String)>)
    ensures
        views(r@) == block_names(b@, stale),
{
    let mut copy = copy_range(b, 0, b.len());
    assert(copy@ =~= b@);
    let magic: [u8; 4] = [0x49, 0x4E, 0x44, 0x58];
    assert(magic@ =~= indx_magic());
    if fixup(copy.as_mut_slice(), &magic) {
        let at = u32le(&copy, 0x18) as usize;
        if at <= copy.len() - 0x18 {
            return read_names(&copy, 0x18 + at, stale);
        }
    }
    let none: Vec<(u64, u64, String)> = Vec::new();
    assert(views(none@) =~= block_names(b@, stale));
    none
}

fn read_blocks(data: &[u8], block: usize, stale: bool) -> (r: Vec<(u64, u64, String)>)
    ensures
        views(r@) == blocks_names(data@, block as int, 0, stale),
{
    assert(data@.len() == data.len());
    let mut out: Vec<(u64, u64, String)> = Vec::new();
    if block < 512 {
        assert(views(out@) =~= seq![]);
        return out;
    }
    let mut pos: usize = 0;
    let ghost all = blocks_names(data@, block as int, 0, stale);
    assert(views(out@) + all =~= all);
    while pos < data.len()
        invariant
            pos <= data@.len() == data.len(),
            block >= 512,
            all == blocks_names(data@, block as int, 0, stale),
            views(out@) + blocks_names(data@, block as int, pos as int, stale) == all,
        decreases data@.len() - pos,
    {
        let ghost before = views(out@);
        let ghost rest = blocks_names(data@, block as int, pos as int, stale);
        let end = if block <= data.len() - pos {
            pos + block
        } else {
            data.len()
        };
        if end - pos < 0x28 {
            assert(before + rest =~= views(out@));
            return out;
        }
        let b = vstd::slice::slice_subrange(data, pos, end);
        let mut names = read_block(b, stale);
        proof {
            views_add(out@, names@);
        }
        out.append(&mut names);
        assert(views(out@) + blocks_names(data@, block as int, end as int, stale) =~= before + (block_names(b@, stale)
            + blocks_names(data@, block as int, end as int, stale)));
        assert(end < pos + block ==> blocks_names(data@, block as int, end as int, stale) =~= blocks_names(
            data@,
            block as int,
            pos + block,
            stale,
        ));
        pos = end;
    }
    assert(views(out@) + blocks_names(data@, block as int, pos as int, stale) =~= views(out@));
    out
}

/// Entries of an `$INDEX_ALLOCATION` value: a series of `INDX` blocks.
pub fn index_alloc_entries(data: &[u8], block: usize) -> (r: Vec<(u64, u64, String)>)
    ensures
        views(r@) == blocks_names(data@, block as int, 0, false),
{
    read_blocks(data, block, false)
}

proof fn later_blocks_are_read_alike(a: Seq<u8>, b: Seq<u8>, block: int, pos: int, stale: bool)
    requires
        block >= 512,
        0 <= pos,
    ensures
        blocks_names(a + b, block, a.len() + pos, stale) == blocks_names(b, block, pos, stale),
    decreases
            if pos < b.len() {
                b.len() - pos
            } else {
                0
            },
{
    if pos < b.len() {
        assert(block_at(a + b, block, a.len() + pos) =~= block_at(b, block, pos));
        later_blocks_are_read_alike(a, b, block, pos + block, stale);
    }
}

/// Index blocks are read one by one: where `a` is a whole number of blocks, what stands in the
/// blocks of `a` from number `k` on and in those of `b` behind them is what stands in the ones,
/// followed by what stands in the others.
pub proof fn blocks_are_read_one_by_one(a: Seq<u8>, b: Seq<u8>, block: int, k: int, stale: bool)
    requires
        block >= 512,
        0 <= k,
        k * block <= a.len(),
        a.len() as int % block == 0,
    ensures
        blocks_names(a + b, block, k * block, stale) == blocks_names(a, block, k * block, stale) + blocks_names(
            b,
            block,
            0,
            stale,
        ),
    decreases a.len() - k * block,
{
    let n = a.len() as int / block;
    let len = a.len() as int;
    assert(len == n * block) by (nonlinear_arith)
        requires
            len % block == 0,
            n == len / block,
            block >= 512,
    ;
    if k * block == len {
        later_blocks_are_read_alike(a, b, block, 0, stale);
        assert(blocks_names(a, block, len, stale) + blocks_names(b, block, 0, stale) =~= blocks_names(b, block, 0, stale));
    } else {
        assert((k + 1) * block == k * block + block && (k + 1) * block <= len && 0 <= k * block) by (nonlinear_arith)
            requires
                len == n * block,
                k * block < len,
                block >= 512,
                0 <= k,
        ;
        blocks_are_read_one_by_one(a, b, block, k + 1, stale);
        assert(block_at(a + b, block, k * block) =~= block_at(a, block, k * block));
        assert(blocks_names(a + b, block, k * block, stale) =~= blocks_names(a, block, k * block, stale) + blocks_names(
            b,
            block,
            0,
            stale,
        ));
    }
}

/// The entries of two series of index blocks, one behind the other, are those of the first
/// followed by those of the second, where the first is a whole number of blocks.
pub proof fn entries_of_both_series(a: Seq<u8>, b: Seq<u8>, block: int, stale: bool)
    requires
        block >= 512,
        a.len() as int % block == 0,
    ensures
        blocks_names(a + b, block, 0, stale) == blocks_names(a, block, 0, stale) + blocks_names(b, block, 0, stale),
{
    assert(0 * block == 0);
    blocks_are_read_one_by_one(a, b, block, 0, stale);
}

/// A block that is not sound holds no names, and the blocks behind it are read all the same.
pub proof fn unsound_block_is_passed_over(a: Seq<u8>, b: Seq<u8>, block: int, stale: bool)
    requires
        block >= 512,
        a.len() == block,
        !fixed_up(a, indx_magic()).1,
    ensures
        blocks_names(a + b, block, 0, stale) == blocks_names(b, block, 0, stale),
{
    assert(block % block == 0) by (nonlinear_arith)
        requires
            block >= 512,
    ;
    entries_of_both_series(a, b, block, stale);
    assert(block_at(a, block, 0) =~= a);
    assert(blocks_names(a, block, 0, stale) =~= seq![]) by {
        reveal_with_fuel(blocks_names, 2);
    }
    assert(blocks_names(a, block, 0, stale) + blocks_names(b, block, 0, stale) =~= blocks_names(b, block, 0, stale));
}

/// The size of the index blocks of a directory, which its index root gives.
pub open spec fn index_block_size(root: Option<ResolvedView>) -> int {
    match root {
        Some(ResolvedView::Resident(b)) => if b.len() >= 0x0C {
            le32(b, 8) as int
        } else {
            0
        },
        _ => 0,
    }
}

/// The names that the directory record `i` holds for other records, live ones or those left in
/// the slack: those of its index root, then those of its index blocks.
pub open spec fn names_in_directory<S: Source + ?Sized>(
    recs: Map<u64, NtfsRecordView>,
    i: u64,
    src: &S,
    g: Geometry,
    stale: bool,
) -> Seq<(u64, u64, Seq<char>)> {
    let list = attribute_list(recs, i, src, g);
    let root = resolved(recs, list, i, 0x90, false);
    let first = match root {
        Some(ResolvedView::Resident(b)) => root_names(b, stale),
        _ => seq![],
    };
    first + match resolved(recs, list, i, 0xA0, false) {
        Some(ResolvedView::Runs(runs, size)) => blocks_names(g.value(src, runs, size), index_block_size(root), 0, stale),
        _ => seq![],
    }
}

/// Whether record `i` is a directory.
pub open spec fn is_directory(recs: Map<u64, NtfsRecordView>, i: u64) -> bool {
    recs.contains_key(i) && recs[i].is_dir
}

/// `m` with the names added for records that have none in it; the first one counts.
pub open spec fn with_names(m: Map<u64, (u64, Seq<char>)>, names: Seq<(u64, u64, Seq<char>)>) -> Map<u64, (u64, Seq<char>)>
    decreases names.len(),
{
    if names.len() == 0 {
        m
    } else {
        let before = with_names(m, names.drop_last());
        let (r, p, n) = names.last();
        if before.contains_key(r) {
            before
        } else {
            before.insert(r, (p, n))
        }
    }
}

/// The names that the directories among `keys` hold, live ones or those left in the slack.
pub open spec fn names_in_directories<S: Source + ?Sized>(
    recs: Map<u64, NtfsRecordView>,
    keys: Seq<u64>,
    src: &S,
    g: Geometry,
    stale: bool,
) -> Seq<(u64, u64, Seq<char>)>
    decreases keys.len(),
{
    if keys.len() == 0 {
        seq![]
    } else {
        names_in_directories(recs, keys.drop_last(), src, g, stale) + if is_directory(recs, keys.last()) {
            names_in_directory(recs, keys.last(), src, g, stale)
        } else {
            seq![]
        }
    }
}

/// For each record, the first name that one of the directories among `keys` holds for it: a
/// live one, or, without any, one that was left in the slack.
pub open spec fn names_held<S: Source + ?Sized>(
    recs: Map<u64, NtfsRecordView>,
    keys: Seq<u64>,
    src: &S,
    g: Geometry,
) -> Map<u64, (u64, Seq<char>)> {
    with_names(
        Map::empty(),
        names_in_directories(recs, keys, src, g, false) + names_in_directories(recs, keys, src, g, true),
    )
}

/// A name that is known stays as it is, whatever names come later.
pub proof fn first_name_stays(m: Map<u64, (u64, Seq<char>)>, names: Seq<(u64, u64, Seq<char>)>, r: u64)
    requires
        m.contains_key(r),
    ensures
        with_names(m, names).contains_key(r),
        with_names(m, names)[r] == m[r],
    decreases names.len(),
{
    if names.len() > 0 {
        first_name_stays(m, names.drop_last(), r);
    }
}

proof fn with_names_knows(m: Map<u64, (u64, Seq<char>)>, names: Seq<(u64, u64, Seq<char>)>, x: (u64, u64, Seq<char>))
    requires
        !m.contains_key(x.0),
        forall|i: int| 0 <= i < names.len() && (#[trigger] names[i]).0 == x.0 ==> names[i] == x,
    ensures
        names.contains(x) ==> with_names(m, names).contains_key(x.0),
        with_names(m, names).contains_key(x.0) ==> with_names(m, names)[x.0] == (x.1, x.2),
    decreases names.len(),
{
    if names.len() > 0 {
        let init = names.drop_last();
        assert forall|i: int| 0 <= i < init.len() && (#[trigger] init[i]).0 == x.0 implies init[i] == x by {
            assert(init[i] == names[i]);
        }
        with_names_knows(m, init, x);
        assert(names[names.len() - 1] == names.last());
        if names.contains(x) {
            let i = choose|i: int| 0 <= i < names.len() && names[i] == x;
            if i < init.len() {
                assert(init[i] == x);
            }
        }
    }
}

proof fn blocks_hold_their_names(data: Seq<u8>, block: int, from: int, k: int, stale: bool, x: (u64, u64, Seq<char>))
    requires
        block >= 512,
        0 <= from,
        0 <= k,
        from + k * block < data.len(),
        block_at(data, block, from + k * block).len() >= 0x28,
        block_names(block_at(data, block, from + k * block), stale).contains(x),
    ensures
        blocks_names(data, block, from, stale).contains(x),
    decreases k,
{
    let here = block_names(block_at(data, block, from), stale);
    let rest = blocks_names(data, block, from + block, stale);
    let all = blocks_names(data, block, from, stale);
    if k == 0 {
        assert(0 * block == 0);
        let i = choose|i: int| 0 <= i < here.len() && here[i] == x;
        assert(all[i] == x);
    } else {
        assert(from + k * block == (from + block) + (k - 1) * block) by (nonlinear_arith);
        assert(k * block >= block) by (nonlinear_arith)
            requires
                k >= 1,
                block >= 512,
        ;
        blocks_hold_their_names(data, block, from + block, k - 1, stale, x);
        let i = choose|i: int| 0 <= i < rest.len() && rest[i] == x;
        assert(all[here.len() + i] == x);
    }
}

proof fn directories_hold_their_names<S: Source + ?Sized>(
    recs: Map<u64, NtfsRecordView>,
    keys: Seq<u64>,
    src: &S,
    g: Geometry,
    stale: bool,
    d: int,
    x: (u64, u64, Seq<char>),
)
    requires
        0 <= d < keys.len(),
        is_directory(recs, keys[d]),
        names_in_directory(recs, keys[d], src, g, stale).contains(x),
    ensures
        names_in_directories(recs, keys, src, g, stale).contains(x),
    decreases keys.len(),
{
    let init = keys.drop_last();
    let before = names_in_directories(recs, init, src, g, stale);
    let all = names_in_directories(recs, keys, src, g, stale);
    if d < init.len() {
        assert(init[d] == keys[d]);
        directories_hold_their_names(recs, init, src, g, stale, d, x);
        let i = choose|i: int| 0 <= i < before.len() && before[i] == x;
        assert(all[i] == x);
    } else {
        let here = names_in_directory(recs, keys[d], src, g, stale);
        let i = choose|i: int| 0 <= i < here.len() && here[i] == x;
        assert(all[before.len() + i] == x);
    }
}

/// A name that only the slack still holds is used: where a sound index block of a directory
/// holds an entry for a record behind its last entry, and no directory names that record
/// otherwise, the record has that name.
pub proof fn name_in_the_slack_is_used<S: Source + ?Sized>(
    recs: Map<u64, NtfsRecordView>,
    keys: Seq<u64>,
    src: &S,
    g: Geometry,
    d: int,
    k: int,
    p: int,
)
    requires
        0 <= d < keys.len(),
        is_directory(recs, keys[d]),
        resolved(recs, attribute_list(recs, keys[d], src, g), keys[d], 0xA0, false) is Some,
        resolved(recs, attribute_list(recs, keys[d], src, g), keys[d], 0xA0, false)->Some_0 is Runs,
        ({
            let list = attribute_list(recs, keys[d], src, g);
            let runs = resolved(recs, list, keys[d], 0xA0, false)->Some_0;
            let data = g.value(src, runs->Runs_0, runs->Runs_1);
            let block = index_block_size(resolved(recs, list, keys[d], 0x90, false));
            let b = block_at(data, block, k * block);
            let fixed = fixed_up(b, indx_magic()).0;
            let names = names_in_directories(recs, keys, src, g, false) + names_in_directories(recs, keys, src, g, true);
            &&& block >= 512
            &&& 0 <= k
            &&& k * block < data.len()
            &&& b.len() >= 0x28
            &&& fixed_up(b, indx_magic()).1
            &&& slack_start(fixed, 0x18 + le32(fixed, 0x18)) <= p < fixed.len()
            &&& stale_entry_at(fixed, p)
            &&& forall|i: int|
                0 <= i < names.len() && (#[trigger] names[i]).0 == index_entry_name(fixed, p)->Some_0.0 ==> names[i]
                    == index_entry_name(fixed, p)->Some_0
        }),
    ensures
        ({
            let list = attribute_list(recs, keys[d], src, g);
            let runs = resolved(recs, list, keys[d], 0xA0, false)->Some_0;
            let data = g.value(src, runs->Runs_0, runs->Runs_1);
            let block = index_block_size(resolved(recs, list, keys[d], 0x90, false));
            let fixed = fixed_up(block_at(data, block, k * block), indx_magic()).0;
            let (r, parent, name) = index_entry_name(fixed, p)->Some_0;
            names_held(recs, keys, src, g).contains_key(r) && names_held(recs, keys, src, g)[r] == (parent, name)
        }),
{
    let list = attribute_list(recs, keys[d], src, g);
    let runs = resolved(recs, list, keys[d], 0xA0, false)->Some_0;
    let data = g.value(src, runs->Runs_0, runs->Runs_1);
    let root = resolved(recs, list, keys[d], 0x90, false);
    let block = index_block_size(root);
    let b = block_at(data, block, k * block);
    let fixed = fixed_up(b, indx_magic()).0;
    let x = index_entry_name(fixed, p)->Some_0;
    names_in_the_slack_are_found(fixed, 0x18 + le32(fixed, 0x18), p);
    blocks_hold_their_names(data, block, 0, k, true, x);
    let here = names_in_directory(recs, keys[d], src, g, true);
    let blocks = blocks_names(data, block, 0, true);
    let i = choose|i: int| 0 <= i < blocks.len() && blocks[i] == x;
    assert(here[here.len() - blocks.len() + i] == x);
    directories_hold_their_names(recs, keys, src, g, true, d, x);
    let live = names_in_directories(recs, keys, src, g, false);
    let stale = names_in_directories(recs, keys, src, g, true);
    let j = choose|j: int| 0 <= j < stale.len() && stale[j] == x;
    assert((live + stale)[live.len() + j] == x);
    with_names_knows(Map::empty(), live + stale, x);
}

/// The views of the entries of a name table.
pub open spec fn name_views(m: Map<u64, (u64, String)>) -> Map<u64, (u64, Seq<char>)> {
    m.map_values(|x: (u64, String)| (x.0, x.1@))
}

/// Whether record `i` is a directory.
pub fn r_is_dir(recs: &HashMap<u64, NtfsRecord>, i: u64) -> (r: bool)
    ensures
        r == is_directory(record_views(recs@), i),
{
    match recs.get(&i) {
        Some(r) => r.is_dir,
        None => false,
    }
}

fn read_directory<S: Source + ?Sized>(recs: &HashMap<u64, NtfsRecord>, i: u64, src: &S, g: Geometry) -> (r: (
    Vec<(u64, u64, String)>,
    Vec<(u64, u64, String)>,
))
    ensures
        views(r.0@) == names_in_directory(record_views(recs@), i, src, g, false),
        views(r.1@) == names_in_directory(record_views(recs@), i, src, g, true),
{
    let list = record_attr_list(recs, i, src, g);
    let root = resolve_attr(recs, &list, i, 0x90, false);
    let mut block: usize = 0;
    let mut live: Vec<(u64, u64, String)> = Vec::new();
    let mut stale: Vec<(u64, u64, String)> = Vec::new();
    assert(views(live@) =~= seq![]);
    assert(views(stale@) =~= seq![]);
    if let Some(Resolved::Resident(b)) = &root {
        if b.len() >= 0x0C {
            block = u32le(b, 8) as usize;
        }
        live = index_root_entries(b);
        stale = read_root(b, true);
    }
    let ghost live0 = views(live@);
    let ghost stale0 = views(stale@);
    if let Some(Resolved::Runs(runs, size)) = resolve_attr(recs, &list, i, 0xA0, false) {
        let data = g.read_runs(src, &runs, size);
        let mut more = index_alloc_entries(&data, block);
        let mut left = read_blocks(&data, block, true);
        proof {
            views_add(live@, more@);
            views_add(stale@, left@);
        }
        live.append(&mut more);
        stale.append(&mut left);
    } else {
        assert(live0 + Seq::<(u64, u64, Seq<char>)>::empty() =~= live0);
        assert(stale0 + Seq::<(u64, u64, Seq<char>)>::empty() =~= stale0);
    }
    (live, stale)
}

fn add_names(m: &mut HashMap<u64, (u64, String)>, names: &Vec<(u64, u64, String)>)
    ensures
        name_views(final(m)@) == with_names(name_views(old(m)@), views(names@)),
{
    let ghost all = views(names@);
    let ghost before = name_views(m@);
    assert(all.take(0) =~= seq![]);
    let mut k: usize = 0;
    while k < names.len()
        invariant
            k <= names@.len(),
            all == views(names@),
            name_views(m@) == with_names(before, all.take(k as int)),
        decreases names@.len() - k,
    {
        assert(all.take(k + 1).drop_last() =~= all.take(k as int));
        let e = &names[k];
        assert(all.take(k + 1).last() == (e.0, e.1, e.2@));
        if !m.contains_key(&e.0) {
            let ghost m0 = m@;
            let name = e.2.as_str().to_owned();
            m.insert(e.0, (e.1, name));
            assert(name_views(m@) =~= name_views(m0).insert(e.0, (e.1, e.2@)));
        }
        k += 1;
    }
    assert(all.take(k as int) =~= all);
}

/// Map every MFT record to the name that a directory index still holds
/// for it (the Linux ntfs3 driver removes `$FILE_NAME` from the record but the
/// stale index entry can survive in the index buffer slack). Of several names the
/// first one counts, in the order of `keys`, and a live one before one in the slack.
pub fn index_name_map<S: Source + ?Sized>(recs: &HashMap<u64, NtfsRecord>, keys: &[u64], src: &S, g: Geometry) -> (r: HashMap<
    u64,
    (u64, String),
>)
    ensures
        name_views(r@) == names_held(record_views(recs@), keys@, src, g),
{
    let ghost table = record_views(recs@);
    let mut live: Vec<(u64, u64, String)> = Vec::new();
    let mut stale: Vec<(u64, u64, String)> = Vec::new();
    assert(views(live@) =~= seq![]);
    assert(views(stale@) =~= seq![]);
    let mut i: usize = 0;
    while i < keys.len()
        invariant
            i <= keys@.len(),
            table == record_views(recs@),
            views(live@) == names_in_directories(table, keys@.take(i as int), src, g, false),
            views(stale@) == names_in_directories(table, keys@.take(i as int), src, g, true),
        decreases keys@.len() - i,
    {
        assert(keys@.take(i + 1).drop_last() =~= keys@.take(i as int));
        let ghost live0 = views(live@);
        let ghost stale0 = views(stale@);
        if r_is_dir(recs, keys[i]) {
            let (mut more, mut left) = read_directory(recs, keys[i], src, g);
            proof {
                views_add(live@, more@);
                views_add(stale@, left@);
            }
            live.append(&mut more);
            stale.append(&mut left);
        } else {
            assert(live0 + Seq::<(u64, u64, Seq<char>)>::empty() =~= live0);
            assert(stale0 + Seq::<(u64, u64, Seq<char>)>::empty() =~= stale0);
        }
        i += 1;
    }
    assert(keys@.take(i as int) =~= keys@);
    proof {
        views_add(live@, stale@);
    }
    live.append(&mut stale);
    let mut out: HashMap<u64, (u64, String)> = HashMap::new();
    assert(name_views(out@) =~= Map::empty());
    add_names(&mut out, &live);
    out
}

/// Whether an entry other than the last one stands in `buf` at `p` shows in its bytes: its length
/// in bytes 8 and 9, and that it is the last one in bit 1 of byte 12.
pub proof fn index_entry_is_recognised(buf: Seq<u8>, p: int)
    requires
        0 <= p,
        p + 16 <= buf.len(),
    ensures
        index_entry_at(buf, p) <==> buf[p + 8] + 256 * buf[p + 9] >= 16 && p + buf[p + 8] + 256 * buf[p + 9] <= buf.len() && (buf[p
            + 12] / 2) % 2 == 0,
{
    fields_are_little_endian(buf, p + 8);
    fields_are_little_endian(buf, p + 12);
    let w = le32(buf, p + 12);
    let lo = buf[p + 12];
    let hi: u32 = (buf[p + 13] + 256 * buf[p + 14] + 65536 * buf[p + 15]) as u32;
    assert(w == number_at(buf, p + 12));
    assert((w & 2 == 0) <==> (lo / 2) % 2 == 0) by (bit_vector)
        requires
            w == lo + 256 * hi,
            hi < 0x100_0000,
    ;
}

/// What an index entry says stands in its bytes: the record that it names in its first six, and
/// from byte 16 on, for as long as bytes 10 and 11 say, the parent record and the name, of `u`
/// units.
#[verifier::rlimit(40)]
pub proof fn index_entry_is_read(buf: Seq<u8>, p: int, u: Seq<u16>)
    requires
        0 <= p,
        p + 82 + 2 * u.len() <= p + buf[p + 8] + 256 * buf[p + 9] <= buf.len(),
        buf[p + 10] + 256 * buf[p + 11] >= 66 + 2 * u.len(),
        buf[p + 80] == u.len(),
        forall|i: int| #![trigger u[i]] 0 <= i < u.len() ==> u[i] == buf[p + 82 + 2 * i] + 256 * buf[p + 83 + 2 * i],
    ensures
        index_entry_name(buf, p) == Some(
            (
                (number_at(buf, p) + 0x1_0000_0000 * (buf[p + 4] + 256 * buf[p + 5])) as u64,
                (number_at(buf, p + 16) + 0x1_0000_0000 * (buf[p + 20] + 256 * buf[p + 21])) as u64,
                utf16_text(u),
            ),
        ),
{
    fields_are_little_endian(buf, p + 8);
    fields_are_little_endian(buf, p + 10);
    record_numbers_have_six_bytes(buf, p);
    let n = buf[p + 8] + 256 * buf[p + 9];
    let key = buf[p + 10] + 256 * buf[p + 11];
    let len = if key < n - 16 {
        key
    } else {
        n - 16
    };
    name_in_an_entry(buf, p + 16, len, u);
}

#[verifier::rlimit(40)]
proof fn name_in_an_entry(buf: Seq<u8>, o: int, len: int, u: Seq<u16>)
    requires
        0 <= o,
        66 + 2 * u.len() <= len,
        o + len <= buf.len(),
        buf[o + 64] == u.len(),
        forall|i: int| #![trigger u[i]] 0 <= i < u.len() ==> u[i] == buf[o + 66 + 2 * i] + 256 * buf[o + 67 + 2 * i],
    ensures
        file_name(buf.subrange(o, o + len)) matches Some((rank, parent, name)) && parent == number_at(buf, o) + 0x1_0000_0000 * (
        buf[o + 4] + 256 * buf[o + 5]) && name == utf16_text(u),
{
    let c = buf.subrange(o, o + len);
    assert(c[64] == buf[o + 64]);
    assert forall|i: int| #![trigger u[i]] 0 <= i < u.len() implies u[i] == c[66 + 2 * i] + 256 * c[67 + 2 * i] by {
        assert(c[66 + 2 * i] == buf[o + 66 + 2 * i] && c[67 + 2 * i] == buf[o + 67 + 2 * i]);
    }
    names_are_read(c, u);
    assert(number_at(c, 0) == number_at(buf, o));
    assert(c[4] == buf[o + 4] && c[5] == buf[o + 5]);
}

/// Whether the entries of `buf` from `p` on lead to an entry at `q`: each stands as far behind
/// the one before as that one is long, and none before it is the last one.
pub open spec fn entries_lead_to(buf: Seq<u8>, p: int, q: int) -> bool
    decreases
            if p < q {
                q - p
            } else {
                0
            },
{
    p == q || (p < q && p + 16 <= buf.len() && {
        let n = buf[p + 8] + 256 * buf[p + 9];
        &&& n >= 16
        &&& p + n <= buf.len()
        &&& (buf[p + 12] / 2) % 2 == 0
        &&& entries_lead_to(buf, p + n, q)
    })
}

/// The entries that count are those up to the last one: the name of each is among them, and the
/// slack starts behind the sixteen bytes of the last one.
#[verifier::rlimit(40)]
pub proof fn entries_are_read_in_turn(buf: Seq<u8>, p: int, q: int)
    requires
        0 <= p,
        entries_lead_to(buf, p, q),
        q + 16 <= buf.len(),
    ensures
        index_entry_at(buf, q) ==> (index_entry_name(buf, q) matches Some(name) ==> live_names(buf, p).contains(name)),
        !index_entry_at(buf, q) ==> slack_start(buf, p) == q + 16,
    decreases
            if p < q {
                q - p
            } else {
                0
            },
{
    index_entry_is_recognised(buf, p);
    fields_are_little_endian(buf, p + 8);
    let all = live_names(buf, p);
    if p == q {
        if index_entry_at(buf, q) {
            if let Some(name) = index_entry_name(buf, q) {
                assert(all[0] == name);
            }
        }
    } else {
        let n = buf[p + 8] + 256 * buf[p + 9];
        assert(le16(buf, p + 8) == n);
        entries_are_read_in_turn(buf, p + n, q);
        let rest = live_names(buf, p + n);
        let first = match index_entry_name(buf, p) {
            Some(x) => seq![x],
            None => seq![],
        };
        assert(all == first + rest);
        if index_entry_at(buf, q) {
            if let Some(name) = index_entry_name(buf, q) {
                let i = choose|i: int| 0 <= i < rest.len() && rest[i] == name;
                assert(all[first.len() + i] == name);
            }
        }
    }
}

/// The entries of an index root start behind its header, where its bytes 16 to 19 say; only an
/// index of names counts.
pub proof fn index_root_is_read(root: Seq<u8>, stale: bool)
    requires
        root.len() >= 32,
    ensures
        number_at(root, 0) == 0x30 ==> root_names(root, stale) == names_among(root, 16 + number_at(root, 16), stale),
        number_at(root, 0) != 0x30 ==> root_names(root, stale).len() == 0,
{
    fields_are_little_endian(root, 0);
    fields_are_little_endian(root, 16);
    assert(le32(root, 0) == number_at(root, 0) && le32(root, 16) == number_at(root, 16));
}

/// The entries of an index block start where its bytes 24 to 27 say, behind them; a block that is
/// not sound holds no names.
pub proof fn index_block_is_read(b: Seq<u8>, stale: bool)
    requires
        b.len() >= 40,
    ensures
        fixed_up(b, indx_magic()).1 ==> ({
            let fixed = fixed_up(b, indx_magic()).0;
            block_names(b, stale) == names_among(fixed, 24 + number_at(fixed, 24), stale)
        }),
        !fixed_up(b, indx_magic()).1 ==> block_names(b, stale).len() == 0,
{
    let fixed = fixed_up(b, indx_magic()).0;
    fixup_touches_sector_tails_only(b, indx_magic());
    fields_are_little_endian(fixed, 24);
    assert(le32(fixed, 24) == number_at(fixed, 24));
}

/// The names of a directory are those of its index root and then those of its index blocks,
/// whose size the root gives in bytes 8 to 11.
pub proof fn directory_is_read<S: Source + ?Sized>(
    recs: Map<u64, NtfsRecordView>,
    i: u64,
    src: &S,
    g: Geometry,
    stale: bool,
    root: Seq<u8>,
)
    requires
        root.len() >= 12,
        resolved(recs, attribute_list(recs, i, src, g), i, 0x90, false) == Some(ResolvedView::Resident(root)),
    ensures
        resolved(recs, attribute_list(recs, i, src, g), i, 0xA0, false) is None ==> names_in_directory(recs, i, src, g, stale)
            == root_names(root, stale),
        resolved(recs, attribute_list(recs, i, src, g), i, 0xA0, false) matches Some(ResolvedView::Runs(runs, size))
            ==> names_in_directory(recs, i, src, g, stale) == root_names(root, stale) + blocks_names(
            g.value(src, runs, size),
            number_at(root, 8),
            0,
            stale,
        ),
{
    fields_are_little_endian(root, 8);
    assert(le32(root, 8) == number_at(root, 8));
    if resolved(recs, attribute_list(recs, i, src, g), i, 0xA0, false) is None {
        assert(names_in_directory(recs, i, src, g, stale) =~= root_names(root, stale));
    }
}

/// For each record the first name counts.
pub proof fn first_name_counts(names: Seq<(u64, u64, Seq<char>)>, i: int)
    requires
        0 <= i < names.len(),
        forall|k: int| 0 <= k < i ==> (#[trigger] names[k]).0 != names[i].0,
    ensures
        with_names(Map::empty(), names).contains_key(names[i].0),
        with_names(Map::empty(), names)[names[i].0] == (names[i].1, names[i].2),
    decreases names.len(),
{
    let init = names.drop_last();
    if i < init.len() {
        assert(init[i] == names[i]);
        assert forall|k: int| 0 <= k < i implies (#[trigger] init[k]).0 != init[i].0 by {
            assert(init[k] == names[k]);
        }
        first_name_counts(init, i);
    } else {
        assert forall|k: int| 0 <= k < init.len() implies (#[trigger] init[k]).0 != names[i].0 by {
            assert(init[k] == names[k]);
        }
        unnamed_record_has_no_name(init, names[i].0);
    }
}

/// A record that none of the names is for has no name.
pub proof fn unnamed_record_has_no_name(names: Seq<(u64, u64, Seq<char>)>, r: u64)
    requires
        forall|k: int| 0 <= k < names.len() ==> (#[trigger] names[k]).0 != r,
    ensures
        !with_names(Map::empty(), names).contains_key(r),
    decreases names.len(),
{
    if names.len() > 0 {
        let init = names.drop_last();
        assert forall|k: int| 0 <= k < init.len() implies (#[trigger] init[k]).0 != r by {
            assert(init[k] == names[k]);
        }
        unnamed_record_has_no_name(init, r);
        assert(names[names.len() - 1].0 != r);
    }
}

/// Whether record `k` is a directory that holds `name`.
pub open spec fn directory_holds<S: Source + ?Sized>(
    recs: Map<u64, NtfsRecordView>,
    k: u64,
    src: &S,
    g: Geometry,
    stale: bool,
    name: (u64, u64, Seq<char>),
) -> bool {
    recs.contains_key(k) && recs[k].is_dir && names_in_directory(recs, k, src, g, stale).contains(name)
}

proof fn either_holds(a: Seq<(u64, u64, Seq<char>)>, b: Seq<(u64, u64, Seq<char>)>, name: (u64, u64, Seq<char>))
    ensures
        (a + b).contains(name) <==> a.contains(name) || b.contains(name),
{
    let all = a + b;
    if a.contains(name) {
        let i = choose|i: int| 0 <= i < a.len() && a[i] == name;
        assert(all[i] == name);
    }
    if b.contains(name) {
        let i = choose|i: int| 0 <= i < b.len() && b[i] == name;
        assert(all[a.len() + i] == name);
    }
    if all.contains(name) {
        let i = choose|i: int| 0 <= i < all.len() && all[i] == name;
        if i < a.len() {
            assert(a[i] == name);
        } else {
            assert(b[i - a.len()] == name);
        }
    }
}

proof fn last_directory_is_looked_through<S: Source + ?Sized>(
    recs: Map<u64, NtfsRecordView>,
    keys: Seq<u64>,
    src: &S,
    g: Geometry,
    stale: bool,
    name: (u64, u64, Seq<char>),
)
    requires
        keys.len() > 0,
    ensures
        names_in_directories(recs, keys, src, g, stale).contains(name) <==> names_in_directories(
            recs,
            keys.drop_last(),
            src,
            g,
            stale,
        ).contains(name) || directory_holds(recs, keys.last(), src, g, stale, name),
{
    let last = keys.last();
    let own = if is_directory(recs, last) {
        names_in_directory(recs, last, src, g, stale)
    } else {
        seq![]
    };
    either_holds(names_in_directories(recs, keys.drop_last(), src, g, stale), own, name);
}

/// Every directory is looked through: a name is found exactly if one of the records is a directory
/// that holds it.
#[verifier::rlimit(40)]
pub proof fn every_directory_is_looked_through<S: Source + ?Sized>(
    recs: Map<u64, NtfsRecordView>,
    keys: Seq<u64>,
    src: &S,
    g: Geometry,
    stale: bool,
    name: (u64, u64, Seq<char>),
)
    ensures
        names_in_directories(recs, keys, src, g, stale).contains(name) <==> exists|k: int|
            0 <= k < keys.len() && directory_holds(recs, #[trigger] keys[k], src, g, stale, name),
    decreases keys.len(),
{
    if keys.len() > 0 {
        let init = keys.drop_last();
        every_directory_is_looked_through(recs, init, src, g, stale, name);
        last_directory_is_looked_through(recs, keys, src, g, stale, name);
        assert(keys[keys.len() - 1] == keys.last());
        assert forall|k: int| 0 <= k < init.len() implies #[trigger] init[k] == keys[k] by {}
        if exists|k: int| 0 <= k < init.len() && directory_holds(recs, #[trigger] init[k], src, g, stale, name) {
            let k = choose|k: int| 0 <= k < init.len() && directory_holds(recs, #[trigger] init[k], src, g, stale, name);
            assert(directory_holds(recs, keys[k], src, g, stale, name));
        }
        if exists|k: int| 0 <= k < keys.len() && directory_holds(recs, #[trigger] keys[k], src, g, stale, name) {
            let k = choose|k: int| 0 <= k < keys.len() && directory_holds(recs, #[trigger] keys[k], src, g, stale, name);
            if k < init.len() {
                assert(directory_holds(recs, init[k], src, g, stale, name));
            }
        }
    }
}

/// A name that a directory holds is used: where the names of all the directories, the live ones
/// before those left in the slack, have the first one for a record at place `i`, that is its name.
pub proof fn live_names_come_first<S: Source + ?Sized>(recs: Map<u64, NtfsRecordView>, keys: Seq<u64>, src: &S, g: Geometry, i: int)
    requires
        ({
            let live = names_in_directories(recs, keys, src, g, false);
            &&& 0 <= i < live.len()
            &&& forall|k: int| 0 <= k < i ==> (#[trigger] live[k]).0 != live[i].0
        }),
    ensures
        ({
            let live = names_in_directories(recs, keys, src, g, false);
            &&& names_held(recs, keys, src, g).contains_key(live[i].0)
            &&& names_held(recs, keys, src, g)[live[i].0] == (live[i].1, live[i].2)
        }),
{
    let live = names_in_directories(recs, keys, src, g, false);
    let all = live + names_in_directories(recs, keys, src, g, true);
    assert(all[i] == live[i]);
    assert forall|k: int| 0 <= k < i implies (#[trigger] all[k]).0 != all[i].0 by {
        assert(all[k] == live[k]);
    }
    first_name_counts(all, i);
}

/// A removed entry is recognised: one that is not marked as the last, whose name attribute fits
/// into it, and whose name has `u` units, at least one.
pub proof fn removed_entry_is_recognised(buf: Seq<u8>, p: int, u: Seq<u16>)
    requires
        0 <= p,
        u.len() > 0,
        p + 82 + 2 * u.len() <= p + buf[p + 8] + 256 * buf[p + 9] <= buf.len(),
        66 + 2 * u.len() <= buf[p + 10] + 256 * buf[p + 11] <= buf[p + 8] + 256 * buf[p + 9] - 16,
        (buf[p + 12] / 2) % 2 == 0,
        buf[p + 80] == u.len(),
        forall|i: int| #![trigger u[i]] 0 <= i < u.len() ==> u[i] == buf[p + 82 + 2 * i] + 256 * buf[p + 83 + 2 * i],
    ensures
        stale_entry_at(buf, p),
{
    index_entry_is_recognised(buf, p);
    index_entry_is_read(buf, p, u);
    fields_are_little_endian(buf, p + 8);
    fields_are_little_endian(buf, p + 10);
}

/// The names of index entries come in the order of the entries, up to the last one.
pub proof fn index_entries_follow_each_other(buf: Seq<u8>, p: int)
    requires
        0 <= p,
        p + 16 <= buf.len(),
    ensures
        ({
            let n = buf[p + 8] + 256 * buf[p + 9];
            let first = match index_entry_name(buf, p) {
                Some(name) => seq![name],
                None => seq![],
            };
            &&& n >= 16 && p + n <= buf.len() && (buf[p + 12] / 2) % 2 == 0 ==> live_names(buf, p) == first + live_names(buf, p + n)
            &&& (buf[p + 12] / 2) % 2 == 1 ==> live_names(buf, p).len() == 0
        }),
{
    index_entry_is_recognised(buf, p);
    fields_are_little_endian(buf, p + 8);
}

/// Of the names that have been left in the slack, the one at the lowest place comes first.
pub proof fn lowest_stale_name_comes_first(buf: Seq<u8>, p: int, q: int)
    requires
        0 <= p <= q < buf.len(),
        stale_entry_at(buf, q),
        forall|i: int| p <= i < q ==> !#[trigger] stale_entry_at(buf, i),
    ensures
        index_entry_name(buf, q) matches Some(name) && stale_names(buf, p) == seq![name] + stale_names(buf, q + 1),
    decreases q - p,
{
    if p < q {
        assert(!stale_entry_at(buf, p));
        lowest_stale_name_comes_first(buf, p + 1, q);
    }
}

/// The names of the directories come in the order of their records.
pub proof fn directories_are_read_in_order<S: Source + ?Sized>(
    recs: Map<u64, NtfsRecordView>,
    a: Seq<u64>,
    b: Seq<u64>,
    src: &S,
    g: Geometry,
    stale: bool,
)
    ensures
        names_in_directories(recs, a + b, src, g, stale) == names_in_directories(recs, a, src, g, stale) + names_in_directories(
            recs,
            b,
            src,
            g,
            stale,
        ),
    decreases b.len(),
{
    let before = names_in_directories(recs, a, src, g, stale);
    if b.len() == 0 {
        assert(a + b =~= a);
        assert(before + names_in_directories(recs, b, src, g, stale) =~= before);
    } else {
        let init = b.drop_last();
        assert((a + b).drop_last() =~= a + init);
        directories_are_read_in_order(recs, a, init, src, g, stale);
        let own = if is_directory(recs, b.last()) {
            names_in_directory(recs, b.last(), src, g, stale)
        } else {
            seq![]
        };
        let middle = names_in_directories(recs, init, src, g, stale);
        assert(before + middle + own =~= before + (middle + own));
    }
}

} // verus!
