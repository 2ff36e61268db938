//! FAT32: deleted directory entries keep name, size and first cluster; the chain is gone, so
//! the data is taken to be contiguous.

use crate::bytes::words_are_groups_of_four;
use crate::bytes::{ceil_div, ceil_div_reaches, copy_range, div_up, fields_are_little_endian, first_bytes, le16, le32, u16le, u32_words, u32le, words};
use crate::clusters::{count_used, free_byte_ranges, used_among, vol_map, volume_map, Allocation, AllocationView};
use crate::clusters::{fat_entry_tells_use, state_tells_cluster_use};
use crate::clusters::{cluster_runs, free_ranges_are_exact, free_runs};
use crate::heap::{ClusterHeap, ClusterHeapView};
use crate::model::{state, state_of, title_of, views, views_push, volume_title};
use crate::model::State;
use crate::model::{Data, DataView, Deleted, DeletedView, VolMap, VolMapView, Volume, VolumeView};
use crate::recover::{bytes_at, contents_are_what_stands_there, contents_of};
use crate::runs::le_bytes;
use crate::source::{holds, read, Error, Source};
use crate::text::{blanks_are_trimmed, joined, trim_end, trimmed_end, utf16_lossy, utf16_text, utf8_lossy, utf8_text};
use crate::volume::number_at;
use crate::walk::{entered_once, entries_of, files_below_are_listed, follows_folders, leads_down, names_of_way, way_down};
use crate::walk::{files_below, root_at, sound, walk, was_deleted, Entry, EntryView, Folder, FolderView, Tree, TreeView};
use vstd::prelude::*;

verus! {

/// The geometry that a FAT32 boot sector gives, and the table.
pub struct Fat32 {
    pub heap: ClusterHeap,
    /// First cluster of the root directory.
    pub root: u32,
    /// Byte offset of the cluster heap in the volume.
    pub data: u64,
    /// Number of clusters.
    pub count: u64,
}

/// The view of `Fat32`.
pub struct Fat32View {
    pub heap: ClusterHeapView,
    pub root: u32,
    pub data: u64,
    pub count: u64,
}

impl View for Fat32 {
    type V = Fat32View;

    open spec fn view(&self) -> Fat32View {
        Fat32View { heap: self.heap@, root: self.root, data: self.data, count: self.count }
    }
}

/// The volume that the boot sector `b` and the bytes `raw` of its first table describe.
pub open spec fn fat32_layout(vol: VolumeView, b: Seq<u8>, raw: Seq<u8>) -> Fat32View {
    let bps = le16(b, 11);
    let cs = (bps * b[13]) as u64;
    let data = ((le16(b, 14) + b[16] * le32(b, 36)) * bps) as u64;
    let fat = words(raw);
    let room = vol.size.saturating_sub(data) / cs;
    Fat32View {
        heap: ClusterHeapView {
            fat,
            limit: fat.len() as u64,
            mask: 0x0FFF_FFFF,
            last: 0x0FFF_FFF8,
            start: vol.base.wrapping_add(data),
            cs,
        },
        root: le32(b, 44),
        data,
        count: if room < fat.len() - 2 {
            room
        } else {
            (fat.len() - 2) as u64
        },
    }
}

/// The FAT32 volume at `vol`, or why there is none: a boot sector without sector size,
/// cluster size or table size, and a table too short for its two reserved entries, are bad.
#[verifier::opaque]
pub open spec fn fat32_volume<S: Source + ?Sized>(src: &S, vol: VolumeView) -> Result<Fat32View, Seq<char>> {
    match src.at(vol.base, 512) {
        Err(e) => Err(e),
        Ok(b) => {
            let bps = le16(b, 11);
            if bps == 0 || b[13] == 0 || le32(b, 36) == 0 {
                Err("bad FAT32 boot sector"@)
            } else {
                match src.at(
                    vol.base.wrapping_add((le16(b, 14) * bps) as u64),
                    ((le32(b, 36) * bps) as u64 as usize) as nat,
                ) {
                    Err(e) => Err(e),
                    Ok(raw) => if words(raw).len() < 2 {
                        Err("bad FAT32 boot sector"@)
                    } else {
                        Ok(fat32_layout(vol, b, raw))
                    },
                }
            }
        },
    }
}

/// Read the boot sector and the table of a FAT32 volume.
pub fn fat32_open<S: Source + ?Sized>(src: &S, vol: &Volume) -> (r: Result<Fat32, Error>)
    ensures
        match r {
            Ok(f) => fat32_volume(src, vol@) == Ok::<Fat32View, Seq<char>>(f@) && f.heap.cs > 0,
            Err(e) => fat32_volume(src, vol@) == Err::<Fat32View, Seq<char>>(e@),
        },
{
    reveal(fat32_volume);
    let b = match read(src, vol.base, 512) {
        Ok(b) => b,
        Err(e) => return Err(e),
    };
    let bps = u16le(&b, 11) as u64;
    let spc = b[13] as u64;
    let reserved = u16le(&b, 14) as u64;
    let nfats = b[16] as u64;
    let fatsz = u32le(&b, 36) as u64;
    let root = u32le(&b, 44);
    if bps == 0 || spc == 0 || fatsz == 0 {
        return Err(Error::other("bad FAT32 boot sector"));
    }
    assert(0 < bps * spc <= 0xFFFF * 0xFF) by (nonlinear_arith)
        requires
            0 < bps <= 0xFFFF,
            0 < spc <= 0xFF,
    ;
    assert(0 <= reserved * bps <= 0xFFFF * 0xFFFF) by (nonlinear_arith)
        requires
            0 < bps <= 0xFFFF,
            0 <= reserved <= 0xFFFF,
    ;
    assert(0 <= fatsz * bps <= 0xFFFF_FFFF * 0xFFFF) by (nonlinear_arith)
        requires
            0 < bps <= 0xFFFF,
            0 <= fatsz <= 0xFFFF_FFFF,
    ;
    assert(0 <= nfats * fatsz <= 0xFF * 0xFFFF_FFFF) by (nonlinear_arith)
        requires
            0 <= nfats <= 0xFF,
            0 <= fatsz <= 0xFFFF_FFFF,
    ;
    let before = reserved + nfats * fatsz;
    assert(0 <= before * bps <= (0xFFFF + 0xFF * 0xFFFF_FFFF) * 0xFFFF) by (nonlinear_arith)
        requires
            0 < bps <= 0xFFFF,
            0 <= before <= 0xFFFF + 0xFF * 0xFFFF_FFFF,
    ;
    let raw = match read(src, vol.base.wrapping_add(reserved * bps), (fatsz * bps) as usize) {
        Ok(b) => b,
        Err(e) => return Err(e),
    };
    let fat = u32_words(&raw);
    if fat.len() < 2 {
        return Err(Error::other("bad FAT32 boot sector"));
    }
    let cs = bps * spc;
    let data = before * bps;
    let room = vol.size.saturating_sub(data) / cs;
    let n = fat.len() as u64;
    let count = if room < n - 2 {
        room
    } else {
        n - 2
    };
    let heap = ClusterHeap {
        fat,
        limit: n,
        mask: 0x0FFF_FFFF,
        last: 0x0FFF_FFF8,
        start: vol.base.wrapping_add(data),
        cs,
    };
    let f = Fat32 { heap, root, data, count };
    assert(f@ == fat32_layout(vol@, b@, raw@));
    Ok(f)
}

/// The name of the two parts of an 8.3 name, `BASE.EXT` or `BASE`, without the blanks that
/// fill them up.
pub open spec fn dotted(base: Seq<char>, ext: Seq<char>) -> Seq<char> {
    if trim_end(ext).len() == 0 {
        trim_end(base)
    } else {
        trim_end(base) + "."@ + trim_end(ext)
    }
}

/// The 8.3 name of a directory entry.
pub open spec fn short_name(e: Seq<u8>) -> Seq<char> {
    dotted(utf8_text(e.subrange(0, 8)), utf8_text(e.subrange(8, 11)))
}

/// The name of the two parts of an 8.3 name.
pub fn dotted_name(base: &str, ext: &str) -> (r: String)
    ensures
        r@ == dotted(base@, ext@),
{
    let mut name = trimmed_end(base);
    let ext = trimmed_end(ext);
    if !ext.as_str().is_empty() {
        name.append(".");
        name.append(ext.as_str());
    }
    name
}

/// The 8.3 name of a directory entry.
pub fn sfn(e: &[u8]) -> (r: String)
    requires
        e@.len() >= 11,
    ensures
        r@ == short_name(e@),
{
    let base = utf8_lossy(vstd::slice::slice_subrange(e, 0, 8));
    let ext = utf8_lossy(vstd::slice::slice_subrange(e, 8, 11));
    dotted_name(base.as_str(), ext.as_str())
}

/// Where the `k`-th of the 13 name units of a long-name entry stands.
pub open spec fn lfn_offset(k: int) -> int {
    if k < 5 {
        1 + 2 * k
    } else if k < 11 {
        14 + 2 * (k - 5)
    } else {
        28 + 2 * (k - 11)
    }
}

/// The name units of a long-name entry.
pub open spec fn lfn_units(e: Seq<u8>) -> Seq<u16> {
    Seq::new(13, |k: int| le16(e, lfn_offset(k)))
}

/// The name units of a long-name entry.
pub fn lfn_part(e: &[u8]) -> (r: Vec<u16>)
    requires
        e@.len() >= 32,
    ensures
        r@ == lfn_units(e@),
{
    let mut v: Vec<u16> = Vec::new();
    let mut k: usize = 0;
    while k < 13
        invariant
            k <= 13,
            e@.len() >= 32,
            v@.len() == k,
            forall|i: int| 0 <= i < k ==> #[trigger] v@[i] == le16(e@, lfn_offset(i)),
        decreases 13 - k,
    {
        let o = if k < 5 {
            1 + 2 * k
        } else if k < 11 {
            14 + 2 * (k - 5)
        } else {
            28 + 2 * (k - 11)
        };
        v.push(u16le(e, o));
        k += 1;
    }
    assert(v@ =~= lfn_units(e@));
    v
}

/// The parts of a long name, the last one first.
pub open spec fn join_reversed(parts: Seq<Seq<u16>>) -> Seq<u16>
    decreases parts.len(),
{
    if parts.len() == 0 {
        seq![]
    } else {
        parts.last() + join_reversed(parts.drop_last())
    }
}

/// The units in front of the first terminator or filler.
pub open spec fn until_end(u: Seq<u16>) -> Seq<u16>
    decreases u.len(),
{
    if u.len() == 0 || u[0] == 0 || u[0] == 0xFFFF {
        seq![]
    } else {
        seq![u[0]] + until_end(u.skip(1))
    }
}

/// The units of the long name that the entries in front of a short entry spell out.
pub open spec fn long_name(parts: Seq<Seq<u16>>) -> Seq<u16> {
    until_end(join_reversed(parts))
}

fn long_units(parts: &Vec<Vec<u16>>) -> (r: Vec<u16>)
    ensures
        r@ == long_name(views(parts@)),
{
    let ghost all = views(parts@);
    let mut flat: Vec<u16> = Vec::new();
    let mut i = parts.len();
    assert(all.take(i as int) =~= all);
    assert(flat@ + join_reversed(all.take(i as int)) =~= join_reversed(all));
    while i > 0
        invariant
            i <= parts@.len(),
            all == views(parts@),
            flat@ + join_reversed(all.take(i as int)) == join_reversed(all),
        decreases i,
    {
        i -= 1;
        let ghost before = flat@;
        let mut part = parts[i].clone();
        assert(part@ =~= parts@[i as int]@);
        flat.append(&mut part);
        assert(all.take(i + 1).drop_last() =~= all.take(i as int));
        assert(flat@ + join_reversed(all.take(i as int)) =~= before + (all[i as int] + join_reversed(all.take(i as int))));
    }
    assert(flat@ =~= join_reversed(all));
    let mut long: Vec<u16> = Vec::new();
    let mut k: usize = 0;
    assert(flat@.skip(0) =~= flat@);
    assert(long@ + until_end(flat@) =~= until_end(flat@));
    while k < flat.len() && flat[k] != 0 && flat[k] != 0xFFFF
        invariant
            k <= flat@.len(),
            long@ + until_end(flat@.skip(k as int)) == until_end(flat@),
        decreases flat@.len() - k,
    {
        let ghost before = long@;
        long.push(flat[k]);
        assert(flat@.skip(k as int).skip(1) =~= flat@.skip(k + 1));
        assert(long@ + until_end(flat@.skip(k + 1)) =~= before + until_end(flat@.skip(k as int)));
        k += 1;
    }
    assert(long@ =~= until_end(flat@));
    long
}

/// The file or folder that the directory entry `e` stands for, behind the long-name entries
/// `parts`. The first byte of a deleted short name is lost: an underscore stands for it.
pub open spec fn fat_entry(e: Seq<u8>, parts: Seq<Seq<u16>>) -> EntryView {
    let deleted = e[0] == 0xE5;
    let long = long_name(parts);
    EntryView {
        name: if long.len() > 0 {
            utf16_text(long)
        } else if deleted {
            short_name(e.update(0, 0x5F))
        } else {
            short_name(e)
        },
        first: ((le16(e, 20) as u32) << 16u32) | le16(e, 26) as u32,
        size: le32(e, 28) as u64,
        is_dir: e[11] & 0x10 != 0,
        deleted,
        contiguous: false,
    }
}

/// The files and folders of the directory `b` from its entry `i` on, where the long-name
/// entries `parts` stand before it. A zero byte ends the directory; volume labels and the
/// dot entries are left out.
pub open spec fn fat_entries(b: Seq<u8>, i: int, parts: Seq<Seq<u16>>) -> Seq<EntryView>
    decreases b.len() - 32 * i,
{
    if i < 0 || 32 * i + 32 > b.len() {
        seq![]
    } else {
        let e = b.subrange(32 * i, 32 * i + 32);
        if e[0] == 0 {
            seq![]
        } else if e[11] == 0x0F {
            fat_entries(b, i + 1, parts.push(lfn_units(e)))
        } else if e[11] & 0x08 != 0 || e[0] == 0x2E {
            fat_entries(b, i + 1, seq![])
        } else {
            seq![fat_entry(e, parts)] + fat_entries(b, i + 1, seq![])
        }
    }
}

fn read_entry(e: &[u8], parts: &Vec<Vec<u16>>) -> (r: Entry)
    requires
        e@.len() == 32,
    ensures
        r@ == fat_entry(e@, views(parts@)),
{
    let deleted = e[0] == 0xE5;
    let long = long_units(parts);
    let name = if long.len() > 0 {
        utf16_lossy(&long)
    } else if deleted {
        let mut n = copy_range(e, 0, 32);
        assert(n@ =~= e@);
        n.set(0, 0x5F);
        sfn(&n)
    } else {
        sfn(e)
    };
    Entry {
        name,
        first: ((u16le(e, 20) as u32) << 16u32) | u16le(e, 26) as u32,
        size: u32le(e, 28) as u64,
        is_dir: e[11] & 0x10 != 0,
        deleted,
        contiguous: false,
    }
}

/// The files and folders of the directory `b`.
pub fn fat_directory(b: &[u8]) -> (r: Vec<Entry>)
    ensures
        views(r@) == fat_entries(b@, 0, seq![]),
{
    let mut out: Vec<Entry> = Vec::new();
    let mut parts: Vec<Vec<u16>> = Vec::new();
    let mut i: usize = 0;
    assert(b@.len() == b.len());
    assert(views(parts@) =~= seq![]);
    assert(views(out@) + fat_entries(b@, 0, seq![]) =~= fat_entries(b@, 0, seq![]));
    while i < b.len() / 32
        invariant
            i <= b@.len() / 32,
            b@.len() == b.len(),
            views(out@) + fat_entries(b@, i as int, views(parts@)) == fat_entries(b@, 0, seq![]),
        decreases b@.len() - i,
    {
        let e = vstd::slice::slice_subrange(b, 32 * i, 32 * i + 32);
        assert(e@ == b@.subrange(32 * i, 32 * i + 32));
        let ghost rest = fat_entries(b@, i as int, views(parts@));
        let ghost old_out = views(out@);
        if e[0] == 0 {
            assert(views(out@) + rest =~= views(out@));
            return out;
        }
        if e[11] == 0x0F {
            let part = lfn_part(e);
            proof {
                views_push(parts@, part);
            }
            parts.push(part);
        } else {
            if !(e[11] & 0x08 != 0 || e[0] == 0x2E) {
                let entry = read_entry(e, &parts);
                proof {
                    views_push(out@, entry);
                }
                out.push(entry);
                assert(views(out@) + fat_entries(b@, i + 1, seq![]) =~= old_out + rest);
            }
            parts = Vec::new();
            assert(views(parts@) =~= seq![]);
        }
        i += 1;
    }
    assert(views(out@) + fat_entries(b@, i as int, views(parts@)) =~= views(out@));
    out
}

/// How many clusters `size` bytes take, at least one.
pub open spec fn clusters_needed(size: u64, cs: u64) -> nat {
    let n = ceil_div(size as nat, cs as nat);
    if n == 0 {
        1
    } else {
        n
    }
}

/// The clusters of a directory: its chain, or, where that is cleared, the next few.
pub open spec fn folder_clusters(heap: ClusterHeapView, d: FolderView) -> Seq<u32> {
    if d.deleted {
        heap.span(d.first, d.first.saturating_add(8))
    } else {
        heap.chain(d.first)
    }
}

/// The deleted file that entry `e` of directory `d` stands for, if it is one and its first
/// cluster exists. Its data is taken to stand in consecutive clusters.
pub open spec fn deleted_file(heap: ClusterHeapView, title: Seq<char>, d: FolderView, e: EntryView) -> Option<DeletedView> {
    if !e.is_dir && (e.deleted || d.deleted) && heap.valid(e.first as int) {
        let n = clusters_needed(e.size, heap.cs);
        let cl = heap.span(e.first, e.first.saturating_add(n as u32));
        Some(
            DeletedView {
                volume: title,
                path: d.prefix + e.name,
                size: e.size,
                state: state_of(used_among(AllocationView::Fat(heap.fat), cl) as int, cl.len() as int),
                data: DataView::Extents(seq![(Some(heap.offset(e.first as int)), e.size)]),
                note: if n > 1 {
                    Some("assumed contiguous"@)
                } else {
                    None
                },
            },
        )
    } else {
        None
    }
}

/// The folder that entry `e` of directory `d` leads to, if any; what lies in a deleted
/// folder is deleted.
pub open spec fn subfolder(d: FolderView, e: EntryView) -> Option<FolderView> {
    if e.is_dir && e.first >= 2 {
        Some(FolderView { first: e.first, len: 0, prefix: d.prefix + e.name + "/"@, deleted: e.deleted || d.deleted })
    } else {
        None
    }
}

/// What stands in directory `d`.
pub open spec fn folder_entries<S: Source + ?Sized>(src: &S, heap: ClusterHeapView, d: FolderView) -> Seq<EntryView> {
    fat_entries(heap.bytes_of(src, folder_clusters(heap, d)), 0, seq![])
}

/// The folders and files of a FAT32 volume with the title `title`.
pub open spec fn fat32_tree<S: Source + ?Sized>(src: &S, heap: ClusterHeapView, title: Seq<char>) -> TreeView {
    TreeView {
        heap,
        entries: |d: FolderView| folder_entries(src, heap, d),
        file: |d: FolderView, e: EntryView| deleted_file(heap, title, d, e),
        folder: |d: FolderView, e: EntryView| subfolder(d, e),
    }
}

/// What a scan of the FAT32 volume `vol` finds: the deleted files, and the volume map.
#[verifier::opaque]
pub open spec fn fat32_scan<S: Source + ?Sized>(src: &S, vol: VolumeView) -> Result<(Seq<DeletedView>, VolMapView), Seq<char>> {
    match fat32_volume(src, vol) {
        Err(e) => Err(e),
        Ok(f) => Ok(
            (
                files_below(fat32_tree(src, f.heap, volume_title(vol.label, "FAT32"@)), root_at(f.root)),
                volume_map(vol, "FAT32"@, f.data, f.heap.cs, f.count, AllocationView::Fat(f.heap.fat)),
            ),
        ),
    }
}

/// The free space of the FAT32 volume `vol`, as byte ranges.
#[verifier::opaque]
pub open spec fn fat32_free_ranges<S: Source + ?Sized>(src: &S, vol: VolumeView) -> Result<Seq<(u64, u64)>, Seq<char>> {
    match fat32_volume(src, vol) {
        Err(e) => Err(e),
        Ok(f) => Ok(free_byte_ranges(AllocationView::Fat(f.heap.fat), f.count, f.heap.start, f.heap.cs)),
    }
}

/// A FAT32 volume whose folders are to be read.
pub struct Fat32Tree<'a, S: Source + ?Sized> {
    pub src: &'a S,
    pub heap: &'a ClusterHeap,
    pub title: &'a str,
}

impl<'a, S: Source + ?Sized> Tree for Fat32Tree<'a, S> {
    open spec fn tree(&self) -> TreeView {
        fat32_tree(self.src, self.heap@, self.title@)
    }

    open spec fn ready(&self) -> bool {
        self.heap.cs > 0
    }

    fn is_cluster(&self, c: u32) -> (r: bool) {
        self.heap.valid(c)
    }

    fn entries(&self, d: &Folder) -> (r: Vec<Entry>) {
        let clusters = if d.deleted {
            self.heap.span(d.first, d.first.saturating_add(8))
        } else {
            self.heap.chain(d.first)
        };
        let bytes = self.heap.read_clusters(self.src, &clusters);
        fat_directory(&bytes)
    }

    fn find_deleted(&self, d: &Folder, e: &Entry) -> (r: Option<Deleted>) {
        let heap = self.heap;
        if e.is_dir || !(e.deleted || d.deleted) || !heap.valid(e.first) {
            return None;
        }
        let mut n = div_up(e.size, heap.cs);
        if n == 0 {
            n = 1;
        }
        let cl = heap.span(e.first, e.first.saturating_add(n as u32));
        let used = count_used(Allocation::Fat(heap.fat.as_slice()), &cl);
        let f = Deleted {
            volume: self.title.to_owned(),
            path: joined(d.prefix.as_str(), e.name.as_str()),
            size: e.size,
            state: state(used as u64, cl.len() as u64),
            data: Data::Extents(vec![(Some(heap.cluster_off(e.first)), e.size)]),
            note: if n > 1 {
                Some("assumed contiguous")
            } else {
                None
            },
        };
        assert(f.data@->Extents_0 =~= seq![(Some(heap@.offset(e.first as int)), e.size)]);
        assert(deleted_file(heap@, self.title@, d@, e@) == Some(f@));
        Some(f)
    }

    fn find_folder(&self, d: &Folder, e: &Entry) -> (r: Option<Folder>) {
        if e.is_dir && e.first >= 2 {
            let mut prefix = joined(d.prefix.as_str(), e.name.as_str());
            prefix.append("/");
            Some(Folder { first: e.first, len: 0, prefix, deleted: e.deleted || d.deleted })
        } else {
            None
        }
    }
}

/// The deleted files and the volume map of a FAT32 volume.
pub fn fat32<S: Source + ?Sized>(src: &S, vol: &Volume) -> (r: Result<(Vec<Deleted>, VolMap), Error>)
    ensures
        match r {
            Ok((files, map)) => fat32_scan(src, vol@) == Ok::<(Seq<DeletedView>, VolMapView), Seq<char>>(
                (views(files@), map@),
            ),
            Err(e) => fat32_scan(src, vol@) == Err::<(Seq<DeletedView>, VolMapView), Seq<char>>(e@),
        },
{
    reveal(fat32_scan);
    let f = match fat32_open(src, vol) {
        Ok(f) => f,
        Err(e) => return Err(e),
    };
    let heap = f.heap;
    let map = vol_map(vol, "FAT32", f.data, heap.cs, f.count, Allocation::Fat(heap.fat.as_slice()));
    let title = title_of(vol.label.as_str(), "FAT32");
    let tree = Fat32Tree { src, heap: &heap, title: title.as_str() };
    let files = walk(&tree, Folder { first: f.root, len: 0, prefix: "".to_owned(), deleted: false });
    Ok((files, map))
}

/// The free ranges of a FAT32 volume.
pub fn fat32_free<S: Source + ?Sized>(src: &S, vol: &Volume) -> (r: Result<Vec<(u64, u64)>, Error>)
    ensures
        match r {
            Ok(v) => fat32_free_ranges(src, vol@) == Ok::<Seq<(u64, u64)>, Seq<char>>(v@),
            Err(e) => fat32_free_ranges(src, vol@) == Err::<Seq<(u64, u64)>, Seq<char>>(e@),
        },
{
    reveal(fat32_free_ranges);
    let f = match fat32_open(src, vol) {
        Ok(f) => f,
        Err(e) => return Err(e),
    };
    Ok(cluster_runs(f.count, Allocation::Fat(f.heap.fat.as_slice()), f.heap.start, f.heap.cs))
}

/// What is deleted on a FAT32 volume is told from what is live.
pub proof fn fat32_tree_is_sound<S: Source + ?Sized>(src: &S, heap: ClusterHeapView, title: Seq<char>)
    ensures
        sound(fat32_tree(src, heap, title)),
{
}

/// Live files are never listed: every file that is found stands for an entry, in a folder that
/// is reached from the root, that is deleted or lies in a deleted folder.
pub proof fn listed_files_were_deleted<S: Source + ?Sized>(src: &S, heap: ClusterHeapView, title: Seq<char>, root: u32)
    ensures
        forall|i: int|
            0 <= i < files_below(fat32_tree(src, heap, title), root_at(root)).len() ==> was_deleted(
                fat32_tree(src, heap, title),
                root_at(root),
                #[trigger] files_below(fat32_tree(src, heap, title), root_at(root))[i],
            ),
{
    fat32_tree_is_sound(src, heap, title);
    crate::walk::listed_files_were_deleted(fat32_tree(src, heap, title), root_at(root));
}

/// A listed file is marked as a guess exactly if its bytes take more than one cluster, and
/// its bytes are taken from its first cluster on, as many as its size says.
pub proof fn longer_files_are_guesses(heap: ClusterHeapView, title: Seq<char>, d: FolderView, e: EntryView)
    requires
        heap.cs > 0,
    ensures
        deleted_file(heap, title, d, e) matches Some(f) ==> {
            &&& f.note is Some <==> f.size > heap.cs
            &&& f.data == DataView::Extents(seq![(Some(heap.offset(e.first as int)), f.size)])
        },
{
    let size = e.size;
    let cs = heap.cs;
    assert(ceil_div(size as nat, cs as nat) > 1 <==> size > cs) by (nonlinear_arith)
        requires
            cs > 0,
            size >= 0,
    ;
}

/// The free ranges of a volume lie inside it.
pub proof fn free_ranges_lie_inside<S: Source + ?Sized>(src: &S, vol: VolumeView)
    requires
        vol.base + vol.size <= u64::MAX,
    ensures
        fat32_free_ranges(src, vol) matches Ok(ranges) ==> forall|i: int|
            0 <= i < ranges.len() ==> vol.base <= (#[trigger] ranges[i]).0 < ranges[i].1 <= vol.base + vol.size,
{
    reveal(fat32_free_ranges);
    reveal(fat32_volume);
    if let Ok(f) = fat32_volume(src, vol) {
        let b = src.at(vol.base, 512)->Ok_0;
        let bps = le16(b, 11);
        let spc = b[13];
        assert(0 < bps * spc <= 0xFFFF * 0xFF) by (nonlinear_arith)
            requires
                0 < bps <= 0xFFFF,
                0 < spc <= 0xFF,
        ;
        let used = AllocationView::Fat(f.heap.fat);
        let room = vol.size.saturating_sub(f.data) / f.heap.cs;
        assert(f.count <= room);
        let count = f.count;
        let cs = f.heap.cs;
        if count > 0 {
            let left = vol.size.saturating_sub(f.data);
            assert(count * cs <= left) by (nonlinear_arith)
                requires
                    count <= left / cs,
                    cs > 0,
            ;
            free_ranges_are_exact(used, count, f.heap.start, cs);
        } else {
            assert(free_runs(used, 0, 0) =~= seq![]);
        }
    }
}

/// What a listed file is recovered as: on a source that reaches far enough, the bytes from its
/// first cluster on, as many as its size says.
pub proof fn file_is_recovered_from_its_first_cluster<S: Source + ?Sized>(
    src: &S,
    disk: Seq<u8>,
    heap: ClusterHeapView,
    title: Seq<char>,
    d: FolderView,
    e: EntryView,
)
    requires
        holds(src, disk),
        disk.len() <= src.size(),
        heap.offset(e.first as int) + e.size <= disk.len(),
        e.size <= usize::MAX,
    ensures
        deleted_file(heap, title, d, e) matches Some(f) ==> contents_of(src, f.data, f.size) == Ok::<Seq<u8>, Seq<char>>(
            disk.subrange(heap.offset(e.first as int) as int, heap.offset(e.first as int) + e.size),
        ),
{
    if let Some(f) = deleted_file(heap, title, d, e) {
        let o = heap.offset(e.first as int);
        let ext = seq![(Some(o), e.size)];
        contents_are_what_stands_there(src, disk, ext, e.size);
        reveal_with_fuel(bytes_at, 2);
        assert(bytes_at(disk, ext) =~= disk.subrange(o as int, o + e.size));
        assert(first_bytes(bytes_at(disk, ext), (e.size as usize) as nat) =~= bytes_at(disk, ext));
    }
}

/// What a directory entry says stands in its bytes: the first cluster in two halves, the high
/// one at byte 20 and the low one at byte 26; the size at byte 28; in byte 11 whether it is a
/// folder; and that it is deleted in its first byte.
pub proof fn entry_fields_are_read(e: Seq<u8>, parts: Seq<Seq<u16>>)
    requires
        e.len() == 32,
    ensures
        fat_entry(e, parts).first == 65536 * (e[20] + 256 * e[21]) + e[26] + 256 * e[27],
        fat_entry(e, parts).size == e[28] + 256 * (e[29] + 256 * (e[30] + 256 * e[31])),
        fat_entry(e, parts).is_dir <==> (e[11] / 16) % 2 == 1,
        fat_entry(e, parts).deleted <==> e[0] == 0xE5,
        !fat_entry(e, parts).contiguous,
{
    fields_are_little_endian(e, 20);
    fields_are_little_endian(e, 26);
    fields_are_little_endian(e, 28);
    let hi = le16(e, 20) as u32;
    let lo = le16(e, 26) as u32;
    assert((hi << 16u32) | lo == 65536 * hi + lo) by (bit_vector)
        requires
            hi < 0x1_0000,
            lo < 0x1_0000,
    ;
    let a = e[11];
    assert((a & 0x10 != 0) <==> (a / 16) % 2 == 1) by (bit_vector);
}

/// An entry that is written for a first cluster and a size is read with them.
#[verifier::rlimit(40)]
pub proof fn entry_is_read_back(e: Seq<u8>, parts: Seq<Seq<u16>>, c: u32, size: u32)
    requires
        e.len() == 32,
        e.subrange(26, 28) == le_bytes(c as int, 2),
        e.subrange(20, 22) == le_bytes(c as int / 65536, 2),
        e.subrange(28, 32) == le_bytes(size as int, 4),
    ensures
        fat_entry(e, parts).first == c,
        fat_entry(e, parts).size == size,
{
    entry_fields_are_read(e, parts);
    reveal_with_fuel(le_bytes, 5);
    let c = c as int;
    let n = size as int;
    assert(e.subrange(26, 28)[0] == e[26] && e.subrange(26, 28)[1] == e[27]);
    assert(e.subrange(20, 22)[0] == e[20] && e.subrange(20, 22)[1] == e[21]);
    assert(e.subrange(28, 32)[0] == e[28] && e.subrange(28, 32)[1] == e[29]);
    assert(e.subrange(28, 32)[2] == e[30] && e.subrange(28, 32)[3] == e[31]);
}

/// Where unit `i` of the 13 in a long-name entry stands: five from byte 1 on, six from byte 14
/// on, and two from byte 28 on.
pub open spec fn unit_place(i: int) -> int {
    if i < 5 {
        2 * i + 1
    } else if i < 11 {
        2 * i + 4
    } else {
        2 * i + 6
    }
}

/// The unit of a long name of the units `u` that stands in place `i`: its own ones, then a
/// zero, then fillers.
pub open spec fn padded_unit(u: Seq<u16>, i: int) -> int {
    if i < u.len() {
        u[i] as int
    } else if i == u.len() {
        0
    } else {
        0xFFFF
    }
}

/// Whether the `n` long-name entries in front of entry `k` of the directory `b` spell the units
/// `u`: the nearest holds the first 13, the one before it the next, and so on.
pub open spec fn spells_name(b: Seq<u8>, k: int, n: int, u: Seq<u16>) -> bool {
    &&& 0 <= n <= k
    &&& u.len() <= 13 * n
    &&& forall|j: int|
        #![trigger b[32 * (k - 1 - j) + 11]]
        0 <= j < n ==> b[32 * (k - 1 - j) + 11] == 0x0F
    &&& forall|j: int, i: int|
        #![trigger b[32 * (k - 1 - j) + unit_place(i)]]
        0 <= j < n && 0 <= i < 13 ==> b[32 * (k - 1 - j) + unit_place(i)] + 256 * b[32 * (k - 1 - j) + unit_place(i) + 1]
            == padded_unit(u, 13 * j + i)
}

/// The long-name entries that have come together when entry `k` is reached from entry `i`.
spec fn parts_at(b: Seq<u8>, i: int, parts: Seq<Seq<u16>>, k: int) -> Seq<Seq<u16>>
    decreases k - i,
{
    if i >= k {
        parts
    } else if b[32 * i + 11] == 0x0F {
        parts_at(b, i + 1, parts.push(lfn_units(b.subrange(32 * i, 32 * i + 32))), k)
    } else {
        parts_at(b, i + 1, seq![], k)
    }
}

proof fn entry_is_reached(b: Seq<u8>, i: int, parts: Seq<Seq<u16>>, k: int)
    requires
        0 <= i <= k,
        32 * k + 32 <= b.len(),
        forall|j: int| 0 <= j <= k ==> #[trigger] b[32 * j] != 0,
        b[32 * k + 11] != 0x0F,
        (b[32 * k + 11] / 8) % 2 == 0,
        b[32 * k] != '.' as u8,
    ensures
        fat_entries(b, i, parts).contains(fat_entry(b.subrange(32 * k, 32 * k + 32), parts_at(b, i, parts, k))),
    decreases k - i,
{
    let e = b.subrange(32 * i, 32 * i + 32);
    let x = fat_entry(b.subrange(32 * k, 32 * k + 32), parts_at(b, i, parts, k));
    let all = fat_entries(b, i, parts);
    assert(e[0] == b[32 * i] && e[11] == b[32 * i + 11]);
    let a = e[11];
    assert((a & 0x08 != 0) <==> (a / 8) % 2 == 1) by (bit_vector);
    if i == k {
        assert(all[0] == x);
    } else if a == 0x0F {
        entry_is_reached(b, i + 1, parts.push(lfn_units(e)), k);
    } else {
        entry_is_reached(b, i + 1, seq![], k);
        if !(a & 0x08 != 0 || e[0] == 0x2E) {
            let rest = fat_entries(b, i + 1, seq![]);
            let n = choose|n: int| 0 <= n < rest.len() && rest[n] == x;
            assert(all[n + 1] == x);
        }
    }
}

proof fn parts_come_together(b: Seq<u8>, i: int, parts: Seq<Seq<u16>>, m: int, k: int)
    requires
        0 <= i <= m <= k,
        32 * k + 32 <= b.len(),
        i == m ==> parts.len() == 0,
        i < m ==> b[32 * (m - 1) + 11] != 0x0F,
        forall|j: int| m <= j < k ==> #[trigger] b[32 * j + 11] == 0x0F,
    ensures
        parts_at(b, i, parts, k) == Seq::new(
            (k - m) as nat,
            |j: int| lfn_units(b.subrange(32 * (m + j), 32 * (m + j) + 32)),
        ),
    decreases k - i,
{
    if i < m {
        if b[32 * i + 11] == 0x0F {
            parts_come_together(b, i + 1, parts.push(lfn_units(b.subrange(32 * i, 32 * i + 32))), m, k);
        } else {
            parts_come_together(b, i + 1, seq![], m, k);
        }
    } else {
        parts_add_up(b, i, parts, k);
        assert(parts_at(b, i, parts, k) =~= Seq::new(
            (k - m) as nat,
            |j: int| lfn_units(b.subrange(32 * (m + j), 32 * (m + j) + 32)),
        ));
    }
}

proof fn parts_add_up(b: Seq<u8>, i: int, parts: Seq<Seq<u16>>, k: int)
    requires
        0 <= i <= k,
        forall|j: int| i <= j < k ==> #[trigger] b[32 * j + 11] == 0x0F,
    ensures
        parts_at(b, i, parts, k) == parts + Seq::new(
            (k - i) as nat,
            |j: int| lfn_units(b.subrange(32 * (i + j), 32 * (i + j) + 32)),
        ),
    decreases k - i,
{
    let more = Seq::new((k - i) as nat, |j: int| lfn_units(b.subrange(32 * (i + j), 32 * (i + j) + 32)));
    if i < k {
        let u = lfn_units(b.subrange(32 * i, 32 * i + 32));
        assert(b[32 * i + 11] == 0x0F);
        parts_add_up(b, i + 1, parts.push(u), k);
        let rest = Seq::new(
            (k - i - 1) as nat,
            |j: int| lfn_units(b.subrange(32 * (i + 1 + j), 32 * (i + 1 + j) + 32)),
        );
        assert(rest =~= more.skip(1));
        assert(parts.push(u) + rest =~= parts + more);
    } else {
        assert(parts + more =~= parts);
    }
}

proof fn joined_units(parts: Seq<Seq<u16>>, i: int)
    requires
        forall|j: int| 0 <= j < parts.len() ==> (#[trigger] parts[j]).len() == 13,
        0 <= i < 13 * parts.len(),
    ensures
        join_reversed(parts).len() == 13 * parts.len(),
        join_reversed(parts)[i] == parts[parts.len() - 1 - i / 13][i % 13],
    decreases parts.len(),
{
    let init = parts.drop_last();
    assert forall|j: int| 0 <= j < init.len() implies (#[trigger] init[j]).len() == 13 by {
        assert(init[j] == parts[j]);
    }
    assert(parts[parts.len() - 1].len() == 13);
    if init.len() > 0 {
        joined_units(init, if i >= 13 {
            i - 13
        } else {
            0
        });
        if i >= 13 {
            assert((i - 13) / 13 == i / 13 - 1 && (i - 13) % 13 == i % 13);
            assert(init[init.len() - 1 - (i / 13 - 1)] == parts[parts.len() - 1 - i / 13]);
        }
    } else {
        assert(join_reversed(init) =~= seq![]);
    }
}

proof fn units_until_end(w: Seq<u16>, u: Seq<u16>)
    requires
        u.len() <= w.len(),
        forall|i: int| 0 <= i < u.len() ==> #[trigger] u[i] != 0 && u[i] != 0xFFFF,
        forall|i: int| 0 <= i < u.len() ==> w[i] == #[trigger] u[i],
        u.len() == w.len() || w[u.len() as int] == 0 || w[u.len() as int] == 0xFFFF,
    ensures
        until_end(w) == u,
    decreases u.len(),
{
    if u.len() == 0 {
        assert(until_end(w) =~= u);
    } else {
        assert(w[0] == u[0]);
        let v = u.skip(1);
        let x = w.skip(1);
        assert forall|i: int| 0 <= i < v.len() implies #[trigger] v[i] != 0 && v[i] != 0xFFFF && x[i] == v[i] by {
            assert(v[i] == u[i + 1]);
            assert(x[i] == w[i + 1]);
        }
        units_until_end(x, v);
        assert(until_end(w) =~= u);
    }
}

/// Every file and folder of a directory is read: an entry in front of which no entry is unused,
/// that is no part of a long name, no volume label and no dot entry, is listed with what it says
/// in its bytes, and under the long name that the entries in front of it spell, the nearest one
/// holding its start.
#[verifier::rlimit(40)]
pub proof fn named_entry_is_read(b: Seq<u8>, k: int, n: int, u: Seq<u16>)
    requires
        0 <= k,
        32 * k + 32 <= b.len(),
        forall|j: int| 0 <= j <= k ==> #[trigger] b[32 * j] != 0,
        b[32 * k + 11] != 0x0F,
        (b[32 * k + 11] / 8) % 2 == 0,
        b[32 * k] != '.' as u8,
        spells_name(b, k, n, u),
        n < k ==> b[32 * (k - n - 1) + 11] != 0x0F,
        u.len() > 0,
        forall|i: int| 0 <= i < u.len() ==> #[trigger] u[i] != 0 && u[i] != 0xFFFF,
    ensures
        fat_entries(b, 0, seq![]).contains(
            EntryView {
                name: utf16_text(u),
                first: (65536 * (b[32 * k + 20] + 256 * b[32 * k + 21]) + b[32 * k + 26] + 256 * b[32 * k + 27]) as u32,
                size: (b[32 * k + 28] + 256 * (b[32 * k + 29] + 256 * (b[32 * k + 30] + 256 * b[32 * k + 31]))) as u64,
                is_dir: (b[32 * k + 11] / 16) % 2 == 1,
                deleted: b[32 * k] == 0xE5,
                contiguous: false,
            },
        ),
{
    let e = b.subrange(32 * k, 32 * k + 32);
    let m = k - n;
    let parts = parts_at(b, 0, seq![], k);
    entry_is_reached(b, 0, seq![], k);
    assert forall|j: int| m <= j < k implies #[trigger] b[32 * j + 11] == 0x0F by {
        let i = k - 1 - j;
        assert(b[32 * (k - 1 - i) + 11] == 0x0F);
    }
    parts_come_together(b, 0, seq![], m, k);
    entry_fields_are_read(e, parts);
    let w = join_reversed(parts);
    assert forall|j: int| 0 <= j < parts.len() implies (#[trigger] parts[j]).len() == 13 by {}
    joined_units(parts, 0);
    assert forall|i: int| 0 <= i < w.len() implies #[trigger] w[i] == padded_unit(u, i) by {
        joined_units(parts, i);
        let j = i / 13;
        let c = i % 13;
        let s = m + (parts.len() - 1 - j);
        assert(s == k - 1 - j);
        let slot = b.subrange(32 * s, 32 * s + 32);
        assert(parts[parts.len() - 1 - j] == lfn_units(slot));
        assert(lfn_offset(c) == unit_place(c));
        fields_are_little_endian(slot, unit_place(c));
        assert(slot[unit_place(c)] == b[32 * (k - 1 - j) + unit_place(c)]);
        assert(slot[unit_place(c) + 1] == b[32 * (k - 1 - j) + unit_place(c) + 1]);
        assert(13 * j + c == i);
    }
    units_until_end(w, u);
    assert(long_name(parts) == u);
}

/// Without a long name, an entry goes by its short one; the first letter of a deleted one is
/// lost, and an underscore stands for it.
pub proof fn short_entry_is_read(b: Seq<u8>, k: int)
    requires
        0 <= k,
        32 * k + 32 <= b.len(),
        forall|j: int| 0 <= j <= k ==> #[trigger] b[32 * j] != 0,
        b[32 * k + 11] != 0x0F,
        (b[32 * k + 11] / 8) % 2 == 0,
        b[32 * k] != '.' as u8,
        k > 0 ==> b[32 * (k - 1) + 11] != 0x0F,
    ensures
        ({
            let e = b.subrange(32 * k, 32 * k + 32);
            fat_entries(b, 0, seq![]).contains(
                EntryView {
                    name: short_name(
                        if b[32 * k] == 0xE5 {
                            seq!['_' as u8] + b.subrange(32 * k + 1, 32 * k + 32)
                        } else {
                            e
                        },
                    ),
                    first: (65536 * (e[20] + 256 * e[21]) + e[26] + 256 * e[27]) as u32,
                    size: (e[28] + 256 * (e[29] + 256 * (e[30] + 256 * e[31]))) as u64,
                    is_dir: (e[11] / 16) % 2 == 1,
                    deleted: b[32 * k] == 0xE5,
                    contiguous: false,
                },
            )
        }),
{
    let e = b.subrange(32 * k, 32 * k + 32);
    entry_is_reached(b, 0, seq![], k);
    parts_come_together(b, 0, seq![], k, k);
    let parts = parts_at(b, 0, seq![], k);
    assert(parts =~= seq![]);
    entry_fields_are_read(e, parts);
    assert(seq!['_' as u8] + b.subrange(32 * k + 1, 32 * k + 32) =~= e.update(0, 0x5F));
}

/// The short name of an entry is made of its first eight bytes and the next three, without the
/// blanks that fill them up, and a dot between them where there is an extension.
pub proof fn short_name_is_dotted(e: Seq<u8>, base: Seq<char>, n: nat, ext: Seq<char>, m: nat)
    requires
        utf8_text(e.subrange(0, 8)) == base + Seq::new(n, |i: int| ' '),
        utf8_text(e.subrange(8, 11)) == ext + Seq::new(m, |i: int| ' '),
        base.len() > 0 ==> '!' <= base.last() <= '~',
        ext.len() > 0 ==> '!' <= ext.last() <= '~',
    ensures
        short_name(e) == if ext.len() > 0 {
            base + seq!['.'] + ext
        } else {
            base
        },
{
    reveal_strlit(".");
    assert("."@ =~= seq!['.']);
    blanks_are_trimmed(base, n);
    blanks_are_trimmed(ext, m);
}

/// Whether `x` says what place `k` of the directory `b` does, and that place is one of a file or
/// folder, with none unused from place `from` up to it.
pub open spec fn stands_in(b: Seq<u8>, from: int, k: int, x: EntryView) -> bool {
    &&& from <= k
    &&& 32 * k + 32 <= b.len()
    &&& forall|j: int| from <= j <= k ==> #[trigger] b[32 * j] != 0
    &&& b[32 * k + 11] != 0x0F
    &&& (b[32 * k + 11] / 8) % 2 == 0
    &&& b[32 * k] != '.' as u8
    &&& x.first == 65536 * (b[32 * k + 20] + 256 * b[32 * k + 21]) + b[32 * k + 26] + 256 * b[32 * k + 27]
    &&& x.size == b[32 * k + 28] + 256 * (b[32 * k + 29] + 256 * (b[32 * k + 30] + 256 * b[32 * k + 31]))
    &&& x.deleted <==> b[32 * k] == 0xE5
    &&& x.is_dir <==> (b[32 * k + 11] / 16) % 2 == 1
}

/// Nothing but the entries of a directory is listed: each file or folder stands in one of its
/// places of 32 bytes, in front of which none is unused.
#[verifier::rlimit(40)]
pub proof fn listed_entries_stand_there(b: Seq<u8>, i: int, parts: Seq<Seq<u16>>, x: EntryView)
    requires
        0 <= i,
        fat_entries(b, i, parts).contains(x),
    ensures
        exists|k: int| stands_in(b, i, k, x),
    decreases b.len() - 32 * i,
{
    let all = fat_entries(b, i, parts);
    let n = choose|n: int| 0 <= n < all.len() && all[n] == x;
    let e = b.subrange(32 * i, 32 * i + 32);
    assert(e[0] == b[32 * i] && e[11] == b[32 * i + 11]);
    let a = e[11];
    assert((a & 0x08 != 0) <==> (a / 8) % 2 == 1) by (bit_vector);
    if a == 0x0F {
        listed_entries_stand_there(b, i + 1, parts.push(lfn_units(e)), x);
    } else if a & 0x08 != 0 || e[0] == 0x2E {
        listed_entries_stand_there(b, i + 1, seq![], x);
    } else if n == 0 {
        entry_fields_are_read(e, parts);
        assert(stands_in(b, i, i, x));
    } else {
        let rest = fat_entries(b, i + 1, seq![]);
        assert(rest[n - 1] == x);
        listed_entries_stand_there(b, i + 1, seq![], x);
    }
    if !stands_in(b, i, i, x) {
        let next = i + 1;
        let k = choose|k: int| stands_in(b, next, k, x);
        assert forall|j: int| i <= j <= k implies #[trigger] b[32 * j] != 0 by {
            if j == i {
                assert(b[32 * i] != 0);
            }
        }
        assert(stands_in(b, i, k, x));
    }
}

/// Whether cluster `x` is one of those that a file of `size` bytes takes from cluster `first` on:
/// its own first one, and as many more as its bytes reach into.
pub open spec fn takes_cluster(heap: ClusterHeapView, first: u32, size: u64, x: u32) -> bool {
    &&& x < heap.limit && x < heap.fat.len()
    &&& x == first || (x > first && (x - first) * heap.cs < size)
}

/// A deleted entry stands for a file exactly if it is no folder's, is deleted or lies in a
/// deleted folder, and its first cluster exists. The file is listed under its folder's path and
/// its own name, with its size; its bytes are taken from its first cluster on. It is intact if
/// all the clusters that it takes are free in the table, overwritten if all are in use.
pub proof fn deleted_entry_is_a_file(heap: ClusterHeapView, title: Seq<char>, d: FolderView, e: EntryView)
    requires
        heap.cs > 0,
        e.size <= u32::MAX,
        heap.fat.len() <= u32::MAX,
    ensures
        deleted_file(heap, title, d, e) is Some <==> !e.is_dir && (e.deleted || d.deleted) && 2 <= e.first < heap.limit
            && e.first < heap.fat.len(),
        deleted_file(heap, title, d, e) matches Some(f) ==> {
            &&& f.volume == title
            &&& f.path == d.prefix + e.name
            &&& f.size == e.size
            &&& heap.start + (e.first - 2) * heap.cs <= u64::MAX ==> f.data == DataView::Extents(
                seq![(Some((heap.start + (e.first - 2) * heap.cs) as u64), e.size)],
            )
            &&& f.state == State::Intact <==> forall|x: u32| #[trigger]
                takes_cluster(heap, e.first, e.size, x) ==> heap.fat[x as int] % 0x1000_0000 == 0
            &&& f.state == State::Overwritten <==> forall|x: u32| #[trigger]
                takes_cluster(heap, e.first, e.size, x) ==> heap.fat[x as int] % 0x1000_0000 != 0
        },
{
    if let Some(f) = deleted_file(heap, title, d, e) {
        let n = clusters_needed(e.size, heap.cs);
        let hi = e.first.saturating_add(n as u32);
        let cl = heap.span(e.first, hi);
        let used = AllocationView::Fat(heap.fat);
        let cs = heap.cs;
        let size = e.size;
        state_tells_cluster_use(used, cl);
        ceil_div_reaches(e.size as nat, heap.cs as nat);
        let q = ceil_div(e.size as nat, heap.cs as nat);
        assert(q <= size) by (nonlinear_arith)
            requires
                q > 0 ==> (q - 1) * cs < size,
                cs > 0,
                size >= 0,
                q >= 0,
        ;
        if heap.start + (e.first - 2) * heap.cs <= u64::MAX {
            heap.clusters_stand_in_a_row(e.first);
        }
        assert forall|x: u32| #[trigger] takes_cluster(heap, e.first, e.size, x) <==> cl.contains(x) by {
            heap.span_is_consecutive(e.first, hi, x);
            if x > e.first {
                let k = x - e.first;
                assert(k < q <==> k * cs < size) by (nonlinear_arith)
                    requires
                        q * cs >= size,
                        q > 0 ==> (q - 1) * cs < size,
                        q >= 0,
                        k > 0,
                        cs > 0,
                        size >= 0,
                ;
            }
        }
        heap.span_is_consecutive(e.first, hi, e.first);
        assert(takes_cluster(heap, e.first, e.size, e.first));
        assert forall|i: int| 0 <= i < cl.len() implies (used.in_use(#[trigger] cl[i] - 2) <==> heap.fat[cl[i] as int]
            % 0x1000_0000 != 0) && takes_cluster(heap, e.first, e.size, cl[i]) by {
            assert(cl.contains(cl[i]));
            assert(takes_cluster(heap, e.first, e.size, cl[i]));
            fat_entry_tells_use(heap.fat, cl[i] - 2);
        }
        if forall|i: int| 0 <= i < cl.len() ==> !used.in_use(#[trigger] cl[i] - 2) {
            assert forall|x: u32| #[trigger] takes_cluster(heap, e.first, e.size, x) implies heap.fat[x as int] % 0x1000_0000
                == 0 by {
                let i = choose|i: int| 0 <= i < cl.len() && cl[i] == x;
                assert(!used.in_use(cl[i] - 2));
            }
        }
        if forall|i: int| 0 <= i < cl.len() ==> used.in_use(#[trigger] cl[i] - 2) {
            assert forall|x: u32| #[trigger] takes_cluster(heap, e.first, e.size, x) implies heap.fat[x as int] % 0x1000_0000
                != 0 by {
                let i = choose|i: int| 0 <= i < cl.len() && cl[i] == x;
                assert(used.in_use(cl[i] - 2));
            }
        }
    }
}

/// Folder entries are followed, live or deleted. A live folder is read along its chain; of a
/// deleted one the chain is cleared, and the eight clusters from its first on are read.
pub proof fn folders_are_followed<S: Source + ?Sized>(src: &S, heap: ClusterHeapView, title: Seq<char>, d: FolderView, x: u32)
    requires
        d.first >= 2,
    ensures
        follows_folders(fat32_tree(src, heap, title)),
        !d.deleted ==> folder_entries(src, heap, d) == fat_entries(heap.bytes_of(src, heap.chain(d.first)), 0, seq![]),
        d.deleted ==> exists|cl: Seq<u32>|
            folder_entries(src, heap, d) == fat_entries(#[trigger] heap.bytes_of(src, cl), 0, seq![]) && (cl.contains(x)
                <==> d.first <= x < d.first + 8 && x < u32::MAX && x < heap.limit && x < heap.fat.len()) && forall|i: int|
                0 <= i < cl.len() ==> #[trigger] cl[i] == d.first + i,
{
    if d.deleted {
        let hi = d.first.saturating_add(8);
        heap.span_is_consecutive(d.first, hi, x);
        let cl = heap.span(d.first, hi);
        assert(folder_entries(src, heap, d) == fat_entries(heap.bytes_of(src, cl), 0, seq![]));
    }
}

/// A FAT32 volume is laid out as its boot sector says: the reserved sectors, the tables, and the
/// clusters behind them. Its table has one entry of four bytes for each cluster, of which 28 bits
/// count.
#[verifier::rlimit(40)]
pub proof fn volume_is_laid_out<S: Source + ?Sized>(src: &S, disk: Seq<u8>, vol: VolumeView, i: int)
    requires
        holds(src, disk),
        vol.base + 512 <= disk.len() <= u64::MAX,
        disk.len() <= usize::MAX,
        ({
            let b = vol.base as int;
            let bps = disk[b + 11] + 256 * disk[b + 12];
            let reserved = disk[b + 14] + 256 * disk[b + 15];
            let fatsz = number_at(disk, b + 36);
            &&& bps > 0 && disk[b + 13] > 0 && fatsz > 0
            &&& vol.base + (reserved + disk[b + 16] * fatsz) * bps <= disk.len()
            &&& vol.base + reserved * bps + fatsz * bps <= disk.len()
            &&& fatsz * bps >= 8
            &&& 0 <= 4 * i <= fatsz * bps - 4
        }),
    ensures
        fat32_volume(src, vol) is Ok,
        ({
            let b = vol.base as int;
            let f = fat32_volume(src, vol)->Ok_0;
            let bps = disk[b + 11] + 256 * disk[b + 12];
            let reserved = disk[b + 14] + 256 * disk[b + 15];
            let fatsz = number_at(disk, b + 36);
            &&& f.heap.cs == bps * disk[b + 13]
            &&& f.data == (reserved + disk[b + 16] * fatsz) * bps
            &&& f.heap.start == vol.base + (reserved + disk[b + 16] * fatsz) * bps
            &&& 4 * f.heap.fat.len() <= fatsz * bps < 4 * f.heap.fat.len() + 4
            &&& f.heap.fat[i] == number_at(disk, b + reserved * bps + 4 * i)
            &&& f.heap.limit == f.heap.fat.len()
            &&& f.heap.mask == 0x0FFF_FFFF && f.heap.last == 0x0FFF_FFF8
            &&& f.root == number_at(disk, b + 44)
            &&& f.count <= f.heap.fat.len() - 2 && f.data + f.count * f.heap.cs <= if vol.size > f.data {
                vol.size as int
            } else {
                f.data as int
            }
            &&& f.count == f.heap.fat.len() - 2 || f.data + (f.count + 1) * f.heap.cs > vol.size
        }),
{
    reveal(fat32_volume);
    let o = vol.base as int;
    let b = disk.subrange(o, o + 512);
    assert(src.at(vol.base, 512) == Ok::<Seq<u8>, Seq<char>>(b));
    fields_are_little_endian(b, 11);
    fields_are_little_endian(b, 14);
    fields_are_little_endian(b, 36);
    fields_are_little_endian(b, 44);
    let bps = disk[o + 11] + 256 * disk[o + 12];
    let reserved = disk[o + 14] + 256 * disk[o + 15];
    let fatsz = number_at(disk, o + 36);
    let spc = disk[o + 13] as int;
    let nfats = disk[o + 16] as int;
    assert(le16(b, 11) == bps && le16(b, 14) == reserved && le32(b, 36) == fatsz && b[13] == spc && b[16] == nfats);
    assert(le32(b, 44) == number_at(disk, o + 44));
    assert(0 <= reserved * bps && 0 <= fatsz * bps && 0 < bps * spc <= 0xFFFF * 0xFF && 0 <= (reserved + nfats * fatsz) * bps)
        by (nonlinear_arith)
        requires
            0 < bps <= 0xFFFF,
            0 < spc <= 0xFF,
            0 <= reserved,
            0 < fatsz,
            0 <= nfats,
    ;
    let at = o + reserved * bps;
    let len = fatsz * bps;
    let raw = disk.subrange(at, at + len);
    assert(src.at(at as u64, len as nat) == Ok::<Seq<u8>, Seq<char>>(raw));
    words_are_groups_of_four(raw, i);
    assert(words(raw)[i] == number_at(disk, at + 4 * i));
    let f = fat32_layout(vol, b, raw);
    assert(fat32_volume(src, vol) == Ok::<Fat32View, Seq<char>>(f));
    let left = vol.size.saturating_sub(f.data);
    let cs = f.heap.cs;
    let room = left / cs;
    assert(room * cs <= left < (room + 1) * cs) by (nonlinear_arith)
        requires
            room == left / cs,
            cs > 0,
    ;
    let count = f.count;
    assert(count * cs <= room * cs) by (nonlinear_arith)
        requires
            0 <= count <= room,
            cs > 0,
    ;
}

/// A deleted file is found, however deep it lies: where its entry stands in a folder that is
/// reached from the root through folder entries, live or deleted, and the entry is deleted or
/// one of those folders is, the scan lists it under its path, with its size and place.
pub proof fn deleted_file_is_found<S: Source + ?Sized>(src: &S, vol: VolumeView, es: Seq<EntryView>, e: EntryView)
    requires
        fat32_volume(src, vol) is Ok,
        ({
            let f = fat32_volume(src, vol)->Ok_0;
            let t = fat32_tree(src, f.heap, volume_title(vol.label, "FAT32"@));
            let root = FolderView { first: f.root, len: 0, prefix: ""@, deleted: false };
            &&& f.heap.cs > 0
            &&& f.heap.fat.len() <= u32::MAX
            &&& f.heap.valid(f.root as int)
            &&& entered_once(t, root)
            &&& leads_down(t, root, es)
            &&& entries_of(t, way_down(t, root, es)).contains(e)
            &&& !e.is_dir
            &&& e.deleted || exists|i: int| 0 <= i < es.len() && (#[trigger] es[i]).deleted
            &&& e.size <= u32::MAX
            &&& 2 <= e.first < f.heap.limit && e.first < f.heap.fat.len()
            &&& f.heap.start + (e.first - 2) * f.heap.cs <= u64::MAX
        }),
    ensures
        fat32_scan(src, vol) is Ok,
        exists|i: int|
            0 <= i < fat32_scan(src, vol)->Ok_0.0.len() && {
                let f = fat32_volume(src, vol)->Ok_0;
                let x = #[trigger] fat32_scan(src, vol)->Ok_0.0[i];
                x.path == names_of_way(es) + e.name && x.size == e.size && x.volume == volume_title(vol.label, "FAT32"@)
                    && x.data == DataView::Extents(
                    seq![(Some((f.heap.start + (e.first - 2) * f.heap.cs) as u64), e.size)],
                )
            },
{
    reveal(fat32_scan);
    let f = fat32_volume(src, vol)->Ok_0;
    let title = volume_title(vol.label, "FAT32"@);
    let t = fat32_tree(src, f.heap, title);
    let root = FolderView { first: f.root, len: 0, prefix: ""@, deleted: false };
    let d = way_down(t, root, es);
    folders_are_followed(src, f.heap, title, root, 0);
    files_below_are_listed(t, root, es, e);
    deleted_entry_is_a_file(f.heap, title, d, e);
    let x = deleted_file(f.heap, title, d, e)->Some_0;
    assert(crate::walk::deleted_file(t, d, e) == Some(x));
    let files = fat32_scan(src, vol)->Ok_0.0;
    assert(files == files_below(t, root));
    let i = choose|i: int| 0 <= i < files.len() && files[i] == x;
    assert(files[i].path == names_of_way(es) + e.name);
}

/// The volume map and the free space go by the file allocation table: the map from byte `data` of
/// the volume on, where its clusters start, and the free ranges from that byte of the source on.
pub proof fn map_goes_by_the_table<S: Source + ?Sized>(src: &S, vol: VolumeView, f: Fat32View)
    requires
        fat32_volume(src, vol) == Ok::<Fat32View, Seq<char>>(f),
    ensures
        fat32_scan(src, vol) matches Ok((files, map)) && map == volume_map(
            vol,
            "FAT32"@,
            f.data,
            f.heap.cs,
            f.count,
            AllocationView::Fat(f.heap.fat),
        ),
        fat32_free_ranges(src, vol) == Ok::<Seq<(u64, u64)>, Seq<char>>(
            free_byte_ranges(AllocationView::Fat(f.heap.fat), f.count, vol.base.wrapping_add(f.data), f.heap.cs),
        ),
{
    reveal(fat32_scan);
    reveal(fat32_free_ranges);
    reveal(fat32_volume);
}

/// The entries of a directory are listed in the order in which they stand there: an entry of a
/// file or folder first, and then those behind it; a zero byte ends the directory.
pub proof fn entries_come_in_their_order(b: Seq<u8>, i: int, parts: Seq<Seq<u16>>)
    requires
        0 <= i,
        32 * i + 32 <= b.len(),
    ensures
        b[32 * i] == 0 ==> fat_entries(b, i, parts).len() == 0,
        b[32 * i] != 0 && b[32 * i + 11] != 0x0F && (b[32 * i + 11] / 8) % 2 == 0 && b[32 * i] != '.' as u8 ==> fat_entries(
            b,
            i,
            parts,
        ) == seq![fat_entry(b.subrange(32 * i, 32 * i + 32), parts)] + fat_entries(b, i + 1, seq![]),
        b[32 * i] != 0 && b[32 * i + 11] != 0x0F && ((b[32 * i + 11] / 8) % 2 == 1 || b[32 * i] == '.' as u8) ==> fat_entries(
            b,
            i,
            parts,
        ) == fat_entries(b, i + 1, seq![]),
{
    let e = b.subrange(32 * i, 32 * i + 32);
    assert(e[0] == b[32 * i] && e[11] == b[32 * i + 11]);
    let a = e[11];
    assert((a & 0x08 != 0) <==> (a / 8) % 2 == 1) by (bit_vector);
}

} // verus!
