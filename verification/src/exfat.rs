//! exFAT: a deleted file's entries keep everything but the in-use bit; whether its data is
//! contiguous is recorded, and the chain is used where it is still there.

use crate::bytes::{ceil_div_reaches, fields_are_little_endian, shifting_doubles, units_are_groups_of_two, words_are_groups_of_four};
use crate::bytes::{ceil_div, div_up, first_bytes, le16, le32, le64, shift, shifted};
use crate::bytes::{u16_units, u16le, u32_words, u32le, u64le, units, words};
use crate::clusters::state_tells_cluster_use;
use crate::clusters::{cluster_runs, count_used, free_byte_ranges, free_ranges_are_exact};
use crate::clusters::{used_among, vol_map, volume_map, Allocation, AllocationView};
use crate::heap::{ClusterHeap, ClusterHeapView};
use crate::model::{state, state_of, title_of, total_length, total_length_bounds_each, views, views_push, volume_title};
use crate::model::State;
use crate::model::{Data, DataView, Deleted, DeletedView, VolMap, VolMapView, Volume, VolumeView};
use crate::recover::{bytes_at, contents_are_what_stands_there, contents_of};
use crate::source::{holds, read, Error, Source};
use crate::text::{joined, utf16_lossy, utf16_text};
use crate::volume::{long_number_at, number_at};
use crate::walk::{entered_once, entries_of, files_below_are_listed, follows_folders, leads_down, names_of_way, way_down};
use crate::walk::{files_below, root_at, sound, walk, was_deleted, Entry, EntryView, Folder, FolderView, Tree, TreeView};
use vstd::arithmetic::power2::{lemma2_to64, lemma2_to64_rest, lemma_pow2_adds, lemma_pow2_pos, lemma_pow2_strictly_increases, pow2};
use vstd::prelude::*;

verus! {

/// The geometry that an exFAT boot sector gives.
pub struct ExfatBoot {
    /// Bytes per cluster.
    pub cs: u64,
    /// Byte offset of the table in the volume.
    pub table: u64,
    /// Byte offset of the cluster heap in the volume.
    pub data: u64,
    /// Number of clusters.
    pub count: u32,
    /// First cluster of the root directory.
    pub root: u32,
}

/// The geometry in the boot sector `b`.
pub open spec fn exfat_geometry(b: Seq<u8>) -> ExfatBoot {
    let bps = shifted(1, b[108]);
    ExfatBoot {
        cs: shifted(bps, b[109]),
        table: (le32(b, 80) as u64).wrapping_mul(bps),
        data: (le32(b, 88) as u64).wrapping_mul(bps),
        count: le32(b, 92),
        root: le32(b, 96),
    }
}

fn exfat_boot(b: &[u8]) -> (r: ExfatBoot)
    requires
        b@.len() == 512,
    ensures
        r == exfat_geometry(b@),
{
    let bps = shift(1, b[108]);
    ExfatBoot {
        cs: shift(bps, b[109]),
        table: (u32le(b, 80) as u64).wrapping_mul(bps),
        data: (u32le(b, 88) as u64).wrapping_mul(bps),
        count: u32le(b, 92),
        root: u32le(b, 96),
    }
}

/// The cluster heap of a volume at byte `base`, with the bytes `raw` of its table.
pub open spec fn exfat_heap(base: u64, g: ExfatBoot, raw: Seq<u8>) -> ClusterHeapView {
    ClusterHeapView {
        fat: words(raw),
        limit: g.count.wrapping_add(2) as u64,
        mask: 0xFFFF_FFFF,
        last: 0xFFFF_FFF7,
        start: base.wrapping_add(g.data),
        cs: g.cs,
    }
}

/// The 32-byte entry `i` of a directory.
pub open spec fn slot(b: Seq<u8>, i: int) -> Seq<u8> {
    b.subrange(32 * i, 32 * i + 32)
}

/// First cluster and length of the allocation bitmap, by the first bitmap entry of the
/// directory `b` from entry `i` on.
pub open spec fn bitmap_entry(b: Seq<u8>, i: int) -> Option<(u32, u64)>
    decreases b.len() - 32 * i,
{
    if i < 0 || 32 * i + 32 > b.len() {
        None
    } else if slot(b, i)[0] == 0x81 {
        Some((le32(slot(b, i), 20), le64(slot(b, i), 24)))
    } else {
        bitmap_entry(b, i + 1)
    }
}

/// The allocation bitmap: one bit for each cluster; empty where the root has none.
pub open spec fn allocation_bitmap<S: Source + ?Sized>(src: &S, heap: ClusterHeapView, root: u32) -> Seq<u8> {
    match bitmap_entry(heap.bytes_of(src, heap.chain(root)), 0) {
        None => seq![],
        Some((c, len)) => first_bytes(heap.bytes_of(src, heap.chain(c)), (len as usize) as nat),
    }
}

/// The table and the bitmap of an exFAT volume at byte `base`.
#[verifier::opaque]
pub open spec fn exfat_tables<S: Source + ?Sized>(src: &S, base: u64, g: ExfatBoot) -> Result<(ClusterHeapView, Seq<u8>), Seq<char>> {
    match src.at(base.wrapping_add(g.table), (((g.count + 2) * 4) as u64 as usize) as nat) {
        Err(e) => Err(e),
        Ok(raw) => {
            let heap = exfat_heap(base, g, raw);
            Ok((heap, allocation_bitmap(src, heap, g.root)))
        },
    }
}

fn find_bitmap(b: &[u8]) -> (r: Option<(u32, u64)>)
    ensures
        r == bitmap_entry(b@, 0),
{
    assert(b@.len() == b.len());
    let mut i: usize = 0;
    while i < b.len() / 32
        invariant
            i <= b@.len() / 32,
            b@.len() == b.len(),
            bitmap_entry(b@, i as int) == bitmap_entry(b@, 0),
        decreases b@.len() - i,
    {
        let e = vstd::slice::slice_subrange(b, 32 * i, 32 * i + 32);
        assert(e@ == slot(b@, i as int));
        if e[0] == 0x81 {
            return Some((u32le(e, 20), u64le(e, 24)));
        }
        i += 1;
    }
    None
}

/// Read the table and the bitmap of an exFAT volume at byte `base`.
pub fn exfat_open<S: Source + ?Sized>(src: &S, base: u64, g: &ExfatBoot) -> (r: Result<(ClusterHeap, Vec<u8>), Error>)
    ensures
        match r {
            Ok((heap, bits)) => exfat_tables(src, base, *g) == Ok::<(ClusterHeapView, Seq<u8>), Seq<char>>(
                (heap@, bits@),
            ) && heap.cs == g.cs && heap.start == base.wrapping_add(g.data),
            Err(e) => exfat_tables(src, base, *g) == Err::<(ClusterHeapView, Seq<u8>), Seq<char>>(e@),
        },
{
    reveal(exfat_tables);
    let raw = match read(src, base.wrapping_add(g.table), ((g.count as u64 + 2) * 4) as usize) {
        Ok(b) => b,
        Err(e) => return Err(e),
    };
    let heap = ClusterHeap {
        fat: u32_words(&raw),
        limit: g.count.wrapping_add(2) as u64,
        mask: 0xFFFF_FFFF,
        last: 0xFFFF_FFF7,
        start: base.wrapping_add(g.data),
        cs: g.cs,
    };
    assert(heap@ == exfat_heap(base, *g, raw@));
    let root = heap.chain(g.root);
    let root_bytes = heap.read_clusters(src, &root);
    let mut bits: Vec<u8> = Vec::new();
    if let Some((c, len)) = find_bitmap(&root_bytes) {
        let cl = heap.chain(c);
        bits = heap.read_clusters(src, &cl);
        let ghost all = bits@;
        if (len as usize) < bits.len() {
            bits.truncate(len as usize);
        }
        assert(bits@ =~= first_bytes(all, (len as usize) as nat));
    }
    Ok((heap, bits))
}

/// The name units in the name entries among the entries `lo..hi`.
pub open spec fn name_units(b: Seq<u8>, lo: int, hi: int) -> Seq<u16>
    decreases hi - lo,
{
    if hi <= lo {
        seq![]
    } else {
        let before = name_units(b, lo, hi - 1);
        let e = slot(b, hi - 1);
        if e[0] & 0x7F == 0x41 {
            before + units(e.subrange(2, 32))
        } else {
            before
        }
    }
}

/// Whether a complete entry set starts at entry `i`: a file entry that counts its
/// secondary entries, at least two, with the stream entry first. The top bit of an entry's
/// kind says only whether it is in use.
pub open spec fn set_at(b: Seq<u8>, i: int) -> bool {
    &&& slot(b, i)[0] & 0x7F == 0x05
    &&& slot(b, i)[1] >= 2
    &&& i + slot(b, i)[1] < b.len() / 32
    &&& slot(b, i + 1)[0] & 0x7F == 0x40
}

/// The file or folder whose entry set starts at entry `i`.
pub open spec fn exfat_entry(b: Seq<u8>, i: int) -> EntryView {
    let e = slot(b, i);
    let stream = slot(b, i + 1);
    let name = name_units(b, i + 2, i + e[1] + 1);
    let n = stream[3] as int;
    EntryView {
        name: utf16_text(
            if n <= name.len() {
                name.take(n)
            } else {
                name
            },
        ),
        first: le32(stream, 20),
        size: le64(stream, 24),
        is_dir: le16(e, 4) & 0x10 != 0,
        deleted: e[0] & 0x80 == 0,
        contiguous: stream[1] & 0x02 != 0,
    }
}

/// The files and folders of the directory `b` from its entry `i` on. A zero byte ends it.
pub open spec fn exfat_entries(b: Seq<u8>, i: int) -> Seq<EntryView>
    decreases b.len() - 32 * i,
{
    if i < 0 || 32 * i + 32 > b.len() || slot(b, i)[0] == 0 {
        seq![]
    } else if set_at(b, i) {
        seq![exfat_entry(b, i)] + exfat_entries(b, i + slot(b, i)[1] + 1)
    } else {
        exfat_entries(b, i + 1)
    }
}

fn read_name(b: &[u8], lo: usize, hi: usize) -> (r: Vec<u16>)
    requires
        lo <= hi <= b@.len() / 32,
    ensures
        r@ == name_units(b@, lo as int, hi as int),
{
    let mut r: Vec<u16> = Vec::new();
    let mut i = lo;
    assert(b@.len() == b.len());
    while i < hi
        invariant
            lo <= i <= hi <= b@.len() / 32,
            b@.len() == b.len(),
            r@ == name_units(b@, lo as int, i as int),
        decreases hi - i,
    {
        let e = vstd::slice::slice_subrange(b, 32 * i, 32 * i + 32);
        assert(e@ == slot(b@, i as int));
        if e[0] & 0x7F == 0x41 {
            let mut u = u16_units(vstd::slice::slice_subrange(e, 2, 32));
            r.append(&mut u);
        }
        i += 1;
    }
    r
}

fn read_set(b: &[u8], i: usize) -> (r: Entry)
    requires
        i < b@.len() / 32,
        set_at(b@, i as int),
    ensures
        r@ == exfat_entry(b@, i as int),
{
    assert(b@.len() == b.len());
    let e = vstd::slice::slice_subrange(b, 32 * i, 32 * i + 32);
    assert(e@ == slot(b@, i as int));
    let secondary = e[1] as usize;
    let st = vstd::slice::slice_subrange(b, 32 * (i + 1), 32 * (i + 1) + 32);
    assert(st@ == slot(b@, i + 1));
    let mut name = read_name(b, i + 2, i + secondary + 1);
    let n = st[3] as usize;
    if n < name.len() {
        name.truncate(n);
    }
    assert(name@ =~= {
        let name = name_units(b@, i + 2, i + e@[1] + 1);
        if n <= name.len() {
            name.take(n as int)
        } else {
            name
        }
    });
    Entry {
        name: utf16_lossy(&name),
        first: u32le(st, 20),
        size: u64le(st, 24),
        is_dir: u16le(e, 4) & 0x10 != 0,
        deleted: e[0] & 0x80 == 0,
        contiguous: st[1] & 0x02 != 0,
    }
}

/// The files and folders of the directory `b`.
pub fn exfat_directory(b: &[u8]) -> (r: Vec<Entry>)
    ensures
        views(r@) == exfat_entries(b@, 0),
{
    let mut out: Vec<Entry> = Vec::new();
    let n = b.len() / 32;
    let mut i: usize = 0;
    assert(b@.len() == b.len());
    assert(views(out@) + exfat_entries(b@, 0) =~= exfat_entries(b@, 0));
    while i < n
        invariant
            i <= n,
            n == b@.len() / 32,
            b@.len() == b.len(),
            views(out@) + exfat_entries(b@, i as int) == exfat_entries(b@, 0),
        decreases n - i,
    {
        let e = vstd::slice::slice_subrange(b, 32 * i, 32 * i + 32);
        assert(e@ == slot(b@, i as int));
        let ghost rest = exfat_entries(b@, i as int);
        let ghost old_out = views(out@);
        if e[0] == 0 {
            assert(views(out@) + rest =~= views(out@));
            return out;
        }
        let secondary = e[1] as usize;
        if e[0] & 0x7F != 0x05 || secondary < 2 || secondary >= n - i {
            i += 1;
            continue ;
        }
        let st = vstd::slice::slice_subrange(b, 32 * (i + 1), 32 * (i + 1) + 32);
        assert(st@ == slot(b@, i + 1));
        if st[0] & 0x7F != 0x40 {
            i += 1;
            continue ;
        }
        let entry = read_set(b, i);
        proof {
            views_push(out@, entry);
        }
        out.push(entry);
        assert(views(out@) + exfat_entries(b@, i + secondary + 1) =~= old_out + rest);
        i += secondary + 1;
    }
    assert(views(out@) + exfat_entries(b@, i as int) =~= views(out@));
    out
}

/// The bytes of a file of `size` bytes that stand in its `k`-th cluster.
pub open spec fn cluster_share(size: u64, cs: u64, k: int) -> u64 {
    if k * cs >= size {
        0
    } else if size - k * cs < cs {
        (size - k * cs) as u64
    } else {
        cs
    }
}

/// `ext` with `n` more bytes at offset `o`: they lengthen the last extent where they follow it.
pub open spec fn extend_extents(ext: Seq<(Option<u64>, u64)>, o: u64, n: u64) -> Seq<(Option<u64>, u64)> {
    if ext.len() > 0 && ext.last().0 is Some && ext.last().0->Some_0.wrapping_add(ext.last().1) == o {
        ext.update(ext.len() - 1, (ext.last().0, (ext.last().1 + n) as u64))
    } else {
        ext.push((Some(o), n))
    }
}

/// Where the bytes of a file of `size` bytes in the clusters `cl` stand.
pub open spec fn extents_in(heap: ClusterHeapView, cl: Seq<u32>, size: u64) -> Seq<(Option<u64>, u64)>
    decreases cl.len(),
{
    if cl.len() == 0 {
        seq![]
    } else {
        extend_extents(
            extents_in(heap, cl.drop_last(), size),
            heap.offset(cl.last() as int),
            cluster_share(size, heap.cs, cl.len() - 1),
        )
    }
}

/// How many bytes of the file the first `k` clusters hold.
pub open spec fn held_in(size: u64, cs: u64, k: int) -> int {
    if k * cs < size {
        k * cs
    } else {
        size as int
    }
}

/// The extents of a file hold its bytes: all of them, or as many as its clusters do.
pub proof fn extents_hold_the_file(heap: ClusterHeapView, cl: Seq<u32>, size: u64)
    ensures
        total_length(extents_in(heap, cl, size)) == held_in(size, heap.cs, cl.len() as int),
        extents_in(heap, cl, size).len() > 0 ==> extents_in(heap, cl, size).last().1 <= held_in(
            size,
            heap.cs,
            cl.len() as int,
        ),
    decreases cl.len(),
{
    if cl.len() > 0 {
        let ext = extents_in(heap, cl.drop_last(), size);
        extents_hold_the_file(heap, cl.drop_last(), size);
        let k = cl.len() - 1;
        let n = cluster_share(size, heap.cs, k);
        let cs = heap.cs;
        assert((k + 1) * cs == k * cs + cs) by (nonlinear_arith);
        assert(held_in(size, cs, k) + n == held_in(size, cs, k + 1));
        let all = extents_in(heap, cl, size);
        let o = heap.offset(cl.last() as int);
        if ext.len() > 0 && ext.last().0 is Some && ext.last().0->Some_0.wrapping_add(ext.last().1) == o {
            assert(all.drop_last() =~= ext.drop_last());
        } else {
            assert(all.drop_last() =~= ext);
        }
    } else {
        assert(0 * heap.cs == 0);
    }
}

fn find_extents(heap: &ClusterHeap, cl: &[u32], size: u64) -> (r: Vec<(Option<u64>, u64)>)
    requires
        forall|i: int| 0 <= i < cl@.len() ==> #[trigger] cl@[i] >= 2,
    ensures
        r@ == extents_in(heap@, cl@, size),
{
    let mut ext: Vec<(Option<u64>, u64)> = Vec::new();
    let mut left = size;
    let mut i: usize = 0;
    let ghost cs = heap.cs;
    assert(0 * cs == 0);
    while i < cl.len()
        invariant
            i <= cl@.len(),
            cs == heap.cs,
            left == size - held_in(size, cs, i as int),
            ext@ == extents_in(heap@, cl@.take(i as int), size),
            forall|i: int| 0 <= i < cl@.len() ==> #[trigger] cl@[i] >= 2,
        decreases cl@.len() - i,
    {
        assert(cl@.take(i + 1).drop_last() =~= cl@.take(i as int));
        proof {
            extents_hold_the_file(heap@, cl@.take(i as int), size);
            assert((i + 1) * cs == i * cs + cs) by (nonlinear_arith);
        }
        let take = if left < heap.cs {
            left
        } else {
            heap.cs
        };
        assert(take == cluster_share(size, cs, i as int));
        let o = heap.cluster_off(cl[i]);
        let n = ext.len();
        let mut follows = false;
        if n > 0 {
            if let (Some(p), l) = ext[n - 1] {
                if p.wrapping_add(l) == o {
                    follows = true;
                    ext.set(n - 1, (Some(p), l + take));
                }
            }
        }
        if !follows {
            ext.push((Some(o), take));
        }
        left -= take;
        i += 1;
    }
    assert(cl@.take(i as int) =~= cl@);
    ext
}

/// The clusters of a directory.
pub open spec fn folder_clusters(heap: ClusterHeapView, d: FolderView) -> Seq<u32> {
    if d.len > 0 {
        heap.span(d.first, d.first.saturating_add(ceil_div(d.len as nat, heap.cs as nat) as u32))
    } else {
        heap.chain(d.first)
    }
}

/// Whether the data of `e` has to be taken for contiguous: its chain is too short for its size.
pub open spec fn chain_is_lost(heap: ClusterHeapView, e: EntryView) -> bool {
    !e.contiguous && heap.chain(e.first).len() < ceil_div(e.size as nat, heap.cs as nat)
}

/// The clusters of the file `e`: consecutive ones where the entry says so or the chain is
/// lost, else the chain as far as the size goes.
pub open spec fn file_clusters(heap: ClusterHeapView, e: EntryView) -> Seq<u32> {
    let n = ceil_div(e.size as nat, heap.cs as nat);
    if e.contiguous || chain_is_lost(heap, e) {
        heap.span(e.first, e.first.wrapping_add(n as u32))
    } else {
        heap.chain(e.first).take(n as int)
    }
}

/// The deleted file that entry `e` of directory `d` stands for, if it is one, holds bytes,
/// and its first cluster exists.
pub open spec fn deleted_file(
    heap: ClusterHeapView,
    bits: Seq<u8>,
    title: Seq<char>,
    d: FolderView,
    e: EntryView,
) -> Option<DeletedView> {
    if !e.is_dir && (e.deleted || d.deleted) && e.size > 0 && heap.valid(e.first as int) {
        let cl = file_clusters(heap, e);
        Some(
            DeletedView {
                volume: title,
                path: d.prefix + e.name,
                size: e.size,
                state: state_of(used_among(AllocationView::Bits(bits), cl) as int, cl.len() as int),
                data: DataView::Extents(extents_in(heap, cl, e.size)),
                note: if chain_is_lost(heap, e) {
                    Some("assumed contiguous"@)
                } else {
                    None
                },
            },
        )
    } else {
        None
    }
}

/// The folder that entry `e` of directory `d` leads to, if any; what lies in a deleted
/// folder is deleted.
pub open spec fn subfolder(heap: ClusterHeapView, d: FolderView, e: EntryView) -> Option<FolderView> {
    if e.is_dir && heap.valid(e.first as int) {
        Some(
            FolderView {
                first: e.first,
                len: if e.contiguous || e.deleted {
                    e.size
                } else {
                    0
                },
                prefix: d.prefix + e.name + "/"@,
                deleted: e.deleted || d.deleted,
            },
        )
    } else {
        None
    }
}

/// What stands in directory `d`.
pub open spec fn folder_entries<S: Source + ?Sized>(src: &S, heap: ClusterHeapView, d: FolderView) -> Seq<EntryView> {
    exfat_entries(heap.bytes_of(src, folder_clusters(heap, d)), 0)
}

/// The folders and files of an exFAT volume with the title `title`.
pub open spec fn exfat_tree<S: Source + ?Sized>(src: &S, heap: ClusterHeapView, bits: Seq<u8>, title: Seq<char>) -> TreeView {
    TreeView {
        heap,
        entries: |d: FolderView| folder_entries(src, heap, d),
        file: |d: FolderView, e: EntryView| deleted_file(heap, bits, title, d, e),
        folder: |d: FolderView, e: EntryView| subfolder(heap, d, e),
    }
}

/// What a scan of the exFAT volume `vol` finds: the deleted files, and the volume map.
/// Clusters of no bytes hold no directory.
#[verifier::opaque]
pub open spec fn exfat_scan<S: Source + ?Sized>(src: &S, vol: VolumeView) -> Result<(Seq<DeletedView>, VolMapView), Seq<char>> {
    match src.at(vol.base, 512) {
        Err(e) => Err(e),
        Ok(b) => {
            let g = exfat_geometry(b);
            match exfat_tables(src, vol.base, g) {
                Err(e) => Err(e),
                Ok((heap, bits)) => Ok(
                    (
                        if g.cs == 0 {
                            seq![]
                        } else {
                            files_below(exfat_tree(src, heap, bits, volume_title(vol.label, "exFAT"@)), root_at(g.root))
                        },
                        volume_map(vol, "exFAT"@, g.data, g.cs, g.count as u64, AllocationView::Bits(bits)),
                    ),
                ),
            }
        },
    }
}

/// The free space of the exFAT volume `vol`, as byte ranges. A volume without clusters, or
/// with clusters of no bytes, has a bad boot sector.
#[verifier::opaque]
pub open spec fn exfat_free_ranges<S: Source + ?Sized>(src: &S, vol: VolumeView) -> Result<Seq<(u64, u64)>, Seq<char>> {
    match src.at(vol.base, 512) {
        Err(e) => Err(e),
        Ok(b) => {
            let g = exfat_geometry(b);
            if g.cs == 0 || g.count == 0 {
                Err("bad exFAT boot sector"@)
            } else {
                match exfat_tables(src, vol.base, g) {
                    Err(e) => Err(e),
                    Ok((heap, bits)) => Ok(
                        free_byte_ranges(AllocationView::Bits(bits), g.count as u64, heap.start, g.cs),
                    ),
                }
            }
        },
    }
}

/// An exFAT volume whose folders are to be read.
pub struct ExfatTree<'a, S: Source + ?Sized> {
    pub src: &'a S,
    pub heap: &'a ClusterHeap,
    pub bits: &'a [u8],
    pub title: &'a str,
}

impl<'a, S: Source + ?Sized> Tree for ExfatTree<'a, S> {
    open spec fn tree(&self) -> TreeView {
        exfat_tree(self.src, self.heap@, self.bits@, self.title@)
    }

    open spec fn ready(&self) -> bool {
        self.heap.cs > 0
    }

    fn is_cluster(&self, c: u32) -> (r: bool) {
        self.heap.valid(c)
    }

    fn entries(&self, d: &Folder) -> (r: Vec<Entry>) {
        let clusters = if d.len > 0 {
            self.heap.span(d.first, d.first.saturating_add(div_up(d.len, self.heap.cs) as u32))
        } else {
            self.heap.chain(d.first)
        };
        let bytes = self.heap.read_clusters(self.src, &clusters);
        exfat_directory(&bytes)
    }

    fn find_deleted(&self, d: &Folder, e: &Entry) -> (r: Option<Deleted>) {
        let heap = self.heap;
        if e.is_dir || !(e.deleted || d.deleted) || e.size == 0 || !heap.valid(e.first) {
            return None;
        }
        let n = div_up(e.size, heap.cs);
        let mut note: Option<&'static str> = None;
        let cl = if e.contiguous {
            heap.span(e.first, e.first.wrapping_add(n as u32))
        } else {
            let mut c = heap.chain(e.first);
            if c.len() as u64 >= n {
                c.truncate(n as usize);
                c
            } else {
                note = Some("assumed contiguous");
                heap.span(e.first, e.first.wrapping_add(n as u32))
            }
        };
        assert(cl@ =~= file_clusters(heap@, e@));
        let used = count_used(Allocation::Bits(self.bits), &cl);
        let ext = find_extents(heap, &cl, e.size);
        let f = Deleted {
            volume: self.title.to_owned(),
            path: joined(d.prefix.as_str(), e.name.as_str()),
            size: e.size,
            state: state(used as u64, cl.len() as u64),
            data: Data::Extents(ext),
            note,
        };
        assert(deleted_file(heap@, self.bits@, self.title@, d@, e@) == Some(f@));
        Some(f)
    }

    fn find_folder(&self, d: &Folder, e: &Entry) -> (r: Option<Folder>) {
        if e.is_dir && self.heap.valid(e.first) {
            let mut prefix = joined(d.prefix.as_str(), e.name.as_str());
            prefix.append("/");
            Some(
                Folder {
                    first: e.first,
                    len: if e.contiguous || e.deleted {
                        e.size
                    } else {
                        0
                    },
                    prefix,
                    deleted: e.deleted || d.deleted,
                },
            )
        } else {
            None
        }
    }
}

/// The deleted files and the volume map of an exFAT volume.
pub fn exfat<S: Source + ?Sized>(src: &S, vol: &Volume) -> (r: Result<(Vec<Deleted>, VolMap), Error>)
    ensures
        match r {
            Ok((files, map)) => exfat_scan(src, vol@) == Ok::<(Seq<DeletedView>, VolMapView), Seq<char>>(
                (views(files@), map@),
            ),
            Err(e) => exfat_scan(src, vol@) == Err::<(Seq<DeletedView>, VolMapView), Seq<char>>(e@),
        },
{
    reveal(exfat_scan);
    let b = match read(src, vol.base, 512) {
        Ok(b) => b,
        Err(e) => return Err(e),
    };
    let g = exfat_boot(&b);
    let (heap, bits) = match exfat_open(src, vol.base, &g) {
        Ok(t) => t,
        Err(e) => return Err(e),
    };
    let map = vol_map(vol, "exFAT", g.data, g.cs, g.count as u64, Allocation::Bits(bits.as_slice()));
    let title = title_of(vol.label.as_str(), "exFAT");
    let files = if g.cs == 0 {
        Vec::new()
    } else {
        let tree = ExfatTree { src, heap: &heap, bits: bits.as_slice(), title: title.as_str() };
        walk(&tree, Folder { first: g.root, len: 0, prefix: "".to_owned(), deleted: false })
    };
    assert(g.cs == 0 ==> views(files@) =~= seq![]);
    Ok((files, map))
}

/// The free ranges of an exFAT volume.
pub fn exfat_free<S: Source + ?Sized>(src: &S, vol: &Volume) -> (r: Result<Vec<(u64, u64)>, Error>)
    ensures
        match r {
            Ok(v) => exfat_free_ranges(src, vol@) == Ok::<Seq<(u64, u64)>, Seq<char>>(v@),
            Err(e) => exfat_free_ranges(src, vol@) == Err::<Seq<(u64, u64)>, Seq<char>>(e@),
        },
{
    reveal(exfat_free_ranges);
    let b = match read(src, vol.base, 512) {
        Ok(b) => b,
        Err(e) => return Err(e),
    };
    let g = exfat_boot(&b);
    if g.cs == 0 || g.count == 0 {
        return Err(Error::other("bad exFAT boot sector"));
    }
    let (heap, bits) = match exfat_open(src, vol.base, &g) {
        Ok(t) => t,
        Err(e) => return Err(e),
    };
    Ok(cluster_runs(g.count as u64, Allocation::Bits(bits.as_slice()), heap.start, g.cs))
}

/// What is deleted on an exFAT volume is told from what is live.
pub proof fn exfat_tree_is_sound<S: Source + ?Sized>(src: &S, heap: ClusterHeapView, bits: Seq<u8>, title: Seq<char>)
    ensures
        sound(exfat_tree(src, heap, bits, title)),
{
}

/// Live files are never listed: every file that is found stands for an entry, in a folder that
/// is reached from the root, that is deleted or lies in a deleted folder.
pub proof fn listed_files_were_deleted<S: Source + ?Sized>(
    src: &S,
    heap: ClusterHeapView,
    bits: Seq<u8>,
    title: Seq<char>,
    root: u32,
)
    ensures
        forall|i: int|
            0 <= i < files_below(exfat_tree(src, heap, bits, title), root_at(root)).len() ==> was_deleted(
                exfat_tree(src, heap, bits, title),
                root_at(root),
                #[trigger] files_below(exfat_tree(src, heap, bits, title), root_at(root))[i],
            ),
{
    exfat_tree_is_sound(src, heap, bits, title);
    crate::walk::listed_files_were_deleted(exfat_tree(src, heap, bits, title), root_at(root));
}

/// A file whose chain is still long enough, or that is recorded as contiguous, is no guess.
pub proof fn only_lost_chains_are_guesses(
    heap: ClusterHeapView,
    bits: Seq<u8>,
    title: Seq<char>,
    d: FolderView,
    e: EntryView,
)
    ensures
        deleted_file(heap, bits, title, d, e) matches Some(f) ==> (f.note is Some <==> !e.contiguous && heap.chain(
            e.first,
        ).len() < ceil_div(e.size as nat, heap.cs as nat)),
{
}

/// Whether all clusters in `cl` lie inside a disk of `len` bytes.
pub open spec fn clusters_inside(heap: ClusterHeapView, cl: Seq<u32>, len: nat) -> bool {
    forall|i: int| 0 <= i < cl.len() ==> heap.offset((#[trigger] cl[i]) as int) + heap.cs <= len
}

/// Whether all extents lie inside a disk of `len` bytes.
pub open spec fn extents_inside(ext: Seq<(Option<u64>, u64)>, len: nat) -> bool {
    forall|i: int| 0 <= i < ext.len() ==> (#[trigger] ext[i]).0 is Some && ext[i].0->Some_0 + ext[i].1 <= len
}

proof fn extend_adds_bytes(disk: Seq<u8>, ext: Seq<(Option<u64>, u64)>, o: u64, n: u64)
    requires
        disk.len() <= u64::MAX,
        extents_inside(ext, disk.len()),
        o + n <= disk.len(),
    ensures
        bytes_at(disk, extend_extents(ext, o, n)) == bytes_at(disk, ext) + disk.subrange(o as int, o + n),
        extents_inside(extend_extents(ext, o, n), disk.len()),
{
    let out = extend_extents(ext, o, n);
    if ext.len() > 0 && ext.last().0 is Some && ext.last().0->Some_0.wrapping_add(ext.last().1) == o {
        let k = ext.len() - 1;
        assert(ext[k] == ext.last());
        let p = ext.last().0->Some_0;
        let l = ext.last().1;
        assert(p + l == o);
        assert(out.drop_last() =~= ext.drop_last());
        assert(disk.subrange(p as int, p + (l + n)) =~= disk.subrange(p as int, p + l) + disk.subrange(o as int, o + n));
        assert(bytes_at(disk, out) =~= bytes_at(disk, ext) + disk.subrange(o as int, o + n));
        assert forall|i: int| 0 <= i < out.len() implies (#[trigger] out[i]).0 is Some && out[i].0->Some_0 + out[i].1
            <= disk.len() by {
            if i < k {
                assert(out[i] == ext[i]);
            }
        }
    } else {
        assert(out.drop_last() =~= ext);
        assert forall|i: int| 0 <= i < out.len() implies (#[trigger] out[i]).0 is Some && out[i].0->Some_0 + out[i].1
            <= disk.len() by {
            if i < ext.len() {
                assert(out[i] == ext[i]);
            }
        }
    }
}

proof fn extents_hold_the_clusters<S: Source + ?Sized>(src: &S, disk: Seq<u8>, heap: ClusterHeapView, cl: Seq<u32>, size: u64)
    requires
        holds(src, disk),
        disk.len() <= src.size(),
        heap.cs <= usize::MAX,
        clusters_inside(heap, cl, disk.len()),
    ensures
        extents_inside(extents_in(heap, cl, size), disk.len()),
        heap.bytes_of(src, cl).len() == cl.len() * heap.cs,
        bytes_at(disk, extents_in(heap, cl, size)) == first_bytes(heap.bytes_of(src, cl), size as nat),
    decreases cl.len(),
{
    let cs = heap.cs;
    if cl.len() == 0 {
        assert(0 * cs == 0);
        assert(first_bytes(heap.bytes_of(src, cl), size as nat) =~= seq![]);
    } else {
        let init = cl.drop_last();
        let k = init.len() as int;
        assert forall|i: int| 0 <= i < init.len() implies heap.offset((#[trigger] init[i]) as int) + heap.cs <= disk.len() by {
            assert(init[i] == cl[i]);
        }
        extents_hold_the_clusters(src, disk, heap, init, size);
        assert(cl[k] == cl.last());
        let o = heap.offset(cl.last() as int);
        let n = cluster_share(size, cs, k);
        let ext = extents_in(heap, init, size);
        extend_adds_bytes(disk, ext, o, n);
        let before = heap.bytes_of(src, init);
        let here = disk.subrange(o as int, o + cs);
        assert(src.at(o, (cs as usize) as nat) == Ok::<Seq<u8>, Seq<char>>(here));
        assert(heap.bytes_of(src, cl) == before + here);
        assert((k + 1) * cs == k * cs + cs) by (nonlinear_arith);
        let all = before + here;
        let part = disk.subrange(o as int, o + n);
        assert(part =~= here.take(n as int));
        if k * cs >= size {
            assert(first_bytes(before, size as nat) + part =~= first_bytes(all, size as nat));
        } else {
            assert(first_bytes(before, size as nat) =~= before);
            assert(before + part =~= first_bytes(all, size as nat));
        }
    }
}

/// What a file in the clusters `cl` is recovered as: on a source that holds them all, their
/// bytes, cut to the size of the file. That adjoining clusters share an extent changes nothing.
pub proof fn file_is_recovered_from_its_clusters<S: Source + ?Sized>(
    src: &S,
    disk: Seq<u8>,
    heap: ClusterHeapView,
    cl: Seq<u32>,
    size: u64,
)
    requires
        holds(src, disk),
        disk.len() <= src.size(),
        heap.cs <= usize::MAX,
        clusters_inside(heap, cl, disk.len()),
        size <= usize::MAX,
    ensures
        contents_of(src, DataView::Extents(extents_in(heap, cl, size)), size) == Ok::<Seq<u8>, Seq<char>>(
            first_bytes(heap.bytes_of(src, cl), size as nat),
        ),
{
    extents_hold_the_clusters(src, disk, heap, cl, size);
    let ext = extents_in(heap, cl, size);
    extents_hold_the_file(heap, cl, size);
    total_length_bounds_each(ext);
    contents_are_what_stands_there(src, disk, ext, size);
    let b = heap.bytes_of(src, cl);
    assert(first_bytes(first_bytes(b, size as nat), size as nat) =~= first_bytes(b, size as nat));
}

/// Where the cluster heap that the boot sector describes fits in the volume, the free ranges
/// of the volume lie inside it, behind the start of the heap.
pub proof fn free_ranges_lie_inside<S: Source + ?Sized>(src: &S, vol: VolumeView)
    requires
        vol.base + vol.size <= u64::MAX,
        src.at(vol.base, 512) matches Ok(b) ==> exfat_geometry(b).data + exfat_geometry(b).count * exfat_geometry(b).cs
            <= vol.size,
    ensures
        exfat_free_ranges(src, vol) matches Ok(ranges) ==> forall|i: int|
            0 <= i < ranges.len() ==> vol.base <= (#[trigger] ranges[i]).0 < ranges[i].1 <= vol.base + vol.size,
{
    reveal(exfat_free_ranges);
    reveal(exfat_tables);
    if let Ok(b) = src.at(vol.base, 512) {
        let g = exfat_geometry(b);
        if g.cs > 0 && g.count > 0 {
            if let Ok((heap, bits)) = exfat_tables(src, vol.base, g) {
                free_ranges_are_exact(AllocationView::Bits(bits), g.count as u64, heap.start, g.cs);
            }
        }
    }
}

/// The geometry of a volume stands in its boot sector: the sector size and the sectors per
/// cluster as powers of two, and where the table and the clusters start in sectors.
pub proof fn boot_sector_is_read(b: Seq<u8>)
    requires
        b.len() == 512,
        b[108] + b[109] < 64,
        number_at(b, 80) * pow2(b[108] as nat) <= u64::MAX,
        number_at(b, 88) * pow2(b[108] as nat) <= u64::MAX,
    ensures
        exfat_geometry(b).cs == pow2((b[108] + b[109]) as nat),
        exfat_geometry(b).table == number_at(b, 80) * pow2(b[108] as nat),
        exfat_geometry(b).data == number_at(b, 88) * pow2(b[108] as nat),
        exfat_geometry(b).count == number_at(b, 92),
        exfat_geometry(b).root == number_at(b, 96),
{
    fields_are_little_endian(b, 80);
    fields_are_little_endian(b, 88);
    fields_are_little_endian(b, 92);
    fields_are_little_endian(b, 96);
    let x = b[108] as nat;
    let y = b[109] as nat;
    lemma_pow2_adds(x, y);
    lemma_pow2_pos(x);
    lemma_pow2_pos(y);
    lemma_pow2_strictly_increases(x + y, 64);
    lemma2_to64();
    lemma2_to64_rest();
    assert(pow2(x) <= pow2(x) * pow2(y)) by (nonlinear_arith)
        requires
            pow2(x) > 0,
            pow2(y) > 0,
    ;
    shifting_doubles(1, b[108]);
    let bps = shifted(1, b[108]);
    shifting_doubles(bps, b[109]);
    assert(0 <= number_at(b, 80) * pow2(x) && 0 <= number_at(b, 88) * pow2(x)) by (nonlinear_arith)
        requires
            number_at(b, 80) >= 0,
            number_at(b, 88) >= 0,
            pow2(x) > 0,
    ;
}

/// The table of a volume stands where its boot sector says, with an entry of four bytes for
/// each cluster behind two others, and its clusters start at the heap.
#[verifier::rlimit(40)]
pub proof fn volume_is_laid_out<S: Source + ?Sized>(src: &S, disk: Seq<u8>, base: u64, g: ExfatBoot, i: int)
    requires
        holds(src, disk),
        disk.len() <= u64::MAX,
        disk.len() <= usize::MAX,
        g.count < 0xFFFF_FFFE,
        0 <= i < g.count + 2,
        base + g.table + 4 * (g.count + 2) <= disk.len(),
        base + g.data <= disk.len(),
    ensures
        exfat_tables(src, base, g) is Ok,
        ({
            let heap = exfat_tables(src, base, g)->Ok_0.0;
            &&& heap.fat.len() == g.count + 2
            &&& heap.fat[i] == number_at(disk, base + g.table + 4 * i)
            &&& heap.limit == g.count + 2
            &&& heap.mask == 0xFFFF_FFFF && heap.last == 0xFFFF_FFF7
            &&& heap.start == base + g.data
            &&& heap.cs == g.cs
        }),
{
    reveal(exfat_tables);
    let at = base + g.table;
    let n = 4 * (g.count + 2);
    let raw = disk.subrange(at, at + n);
    assert(src.at(at as u64, n as nat) == Ok::<Seq<u8>, Seq<char>>(raw));
    words_are_groups_of_four(raw, i);
    assert(words(raw)[i] == number_at(disk, at + 4 * i));
}

/// The allocation bitmap is the file that the first bitmap entry of the root names, as long as
/// it says; the entry's kind, first cluster and length stand in its bytes.
pub proof fn bitmap_is_found<S: Source + ?Sized>(src: &S, base: u64, g: ExfatBoot, k: int)
    requires
        exfat_tables(src, base, g) is Ok,
        ({
            let heap = exfat_tables(src, base, g)->Ok_0.0;
            let b = heap.bytes_of(src, heap.chain(g.root));
            &&& 0 <= k
            &&& 32 * k + 32 <= b.len()
            &&& b[32 * k] == 0x81
            &&& forall|j: int| 0 <= j < k ==> #[trigger] b[32 * j] != 0x81
        }),
    ensures
        ({
            let (heap, bits) = exfat_tables(src, base, g)->Ok_0;
            let b = heap.bytes_of(src, heap.chain(g.root));
            let bytes = heap.bytes_of(src, heap.chain(number_at(b, 32 * k + 20) as u32));
            let len = long_number_at(b, 32 * k + 24);
            len <= usize::MAX ==> bits == if len < bytes.len() {
                bytes.take(len)
            } else {
                bytes
            }
        }),
{
    reveal(exfat_tables);
    let (heap, bits) = exfat_tables(src, base, g)->Ok_0;
    let b = heap.bytes_of(src, heap.chain(g.root));
    first_bitmap_entry(b, 0, k);
    let bytes = heap.bytes_of(src, heap.chain(number_at(b, 32 * k + 20) as u32));
    let len = long_number_at(b, 32 * k + 24);
    assert(len == bytes.len() ==> bytes.take(len) =~= bytes);
}

proof fn first_bitmap_entry(b: Seq<u8>, i: int, k: int)
    requires
        0 <= i <= k,
        32 * k + 32 <= b.len(),
        b[32 * k] == 0x81,
        forall|j: int| 0 <= j < k ==> #[trigger] b[32 * j] != 0x81,
    ensures
        bitmap_entry(b, i) == Some((number_at(b, 32 * k + 20) as u32, long_number_at(b, 32 * k + 24) as u64)),
    decreases k - i,
{
    let e = slot(b, i);
    assert(e[0] == b[32 * i]);
    if i < k {
        first_bitmap_entry(b, i + 1, k);
    } else {
        fields_are_little_endian(e, 20);
        fields_are_little_endian(e, 24);
        assert(le32(e, 20) == number_at(b, 32 * k + 20));
        assert(le64(e, 24) == long_number_at(b, 32 * k + 24));
    }
}

/// Whether a complete set of entries starts at place `i` of the directory `b`: one of a file, in
/// use or not, that counts at least two more, the first of which is its stream entry.
pub open spec fn set_starts(b: Seq<u8>, i: int) -> bool {
    &&& b[32 * i] % 128 == 5
    &&& b[32 * i + 1] >= 2
    &&& 32 * (i + b[32 * i + 1]) + 32 <= b.len()
    &&& b[32 * i + 32] % 128 == 64
}

/// Whether place `k` is come to from place `i`, going on behind each complete set and place by
/// place otherwise, without a place that was never used.
pub open spec fn comes_to(b: Seq<u8>, i: int, k: int) -> bool
    decreases
            if i < k {
                k - i
            } else {
                0
            },
{
    i == k || (i < k && b[32 * i] != 0 && comes_to(
        b,
        if set_starts(b, i) {
            i + b[32 * i + 1] + 1
        } else {
            i + 1
        },
        k,
    ))
}

proof fn sets_are_seen(b: Seq<u8>, i: int)
    requires
        0 <= i,
        32 * i + 32 <= b.len(),
    ensures
        set_at(b, i) <==> set_starts(b, i),
        slot(b, i)[0] == b[32 * i],
        slot(b, i)[1] == b[32 * i + 1],
{
    let x = b[32 * i];
    assert((x & 0x7F) == x % 128) by (bit_vector);
    if set_starts(b, i) || set_at(b, i) {
        let y = b[32 * i + 32];
        assert(slot(b, i + 1)[0] == y);
        assert((y & 0x7F) == y % 128) by (bit_vector);
    }
}

proof fn set_is_reached(b: Seq<u8>, i: int, k: int)
    requires
        0 <= i <= k,
        32 * k + 32 <= b.len(),
        comes_to(b, i, k),
        b[32 * k] != 0,
        set_starts(b, k),
    ensures
        exfat_entries(b, i).contains(exfat_entry(b, k)),
    decreases k - i,
{
    reveal_with_fuel(comes_to, 2);
    let all = exfat_entries(b, i);
    sets_are_seen(b, i);
    if i == k {
        assert(all[0] == exfat_entry(b, k));
    } else if set_starts(b, i) {
        let next = i + b[32 * i + 1] + 1;
        set_is_reached(b, next, k);
        let rest = exfat_entries(b, next);
        let n = choose|n: int| 0 <= n < rest.len() && rest[n] == exfat_entry(b, k);
        assert(all[n + 1] == exfat_entry(b, k));
    } else {
        set_is_reached(b, i + 1, k);
    }
}

/// Whether the name entries of the set at place `k`, all that follow its stream entry, spell the
/// units `u`, 15 in each.
pub open spec fn spells_name(b: Seq<u8>, k: int, u: Seq<u16>) -> bool {
    let n = b[32 * k + 1] - 1;
    &&& u.len() <= 15 * n
    &&& forall|j: int| #![trigger b[32 * (k + 2 + j)]] 0 <= j < n ==> b[32 * (k + 2 + j)] % 128 == 65
    &&& forall|i: int|
        #![trigger u[i]]
        0 <= i < u.len() ==> u[i] == b[32 * (k + 2 + i / 15) + 2 + 2 * (i % 15)] + 256 * b[32 * (k + 2 + i / 15) + 3 + 2 * (i
            % 15)]
}

proof fn name_is_gathered(b: Seq<u8>, lo: int, n: int, i: int)
    requires
        0 <= lo,
        0 <= n,
        32 * (lo + n) <= b.len(),
        forall|j: int| #![trigger b[32 * (lo + j)]] 0 <= j < n ==> b[32 * (lo + j)] % 128 == 65,
    ensures
        name_units(b, lo, lo + n).len() == 15 * n,
        0 <= i < 15 * n ==> name_units(b, lo, lo + n)[i] == b[32 * (lo + i / 15) + 2 + 2 * (i % 15)] + 256 * b[32 * (lo + i / 15)
            + 3 + 2 * (i % 15)],
    decreases n,
{
    if n > 0 {
        name_is_gathered(b, lo, n - 1, i);
        let e = slot(b, lo + n - 1);
        let x = b[32 * (lo + (n - 1))];
        assert(e[0] == x);
        assert((x & 0x7F) == x % 128) by (bit_vector);
        let more = e.subrange(2, 32);
        let before = name_units(b, lo, lo + n - 1);
        assert(name_units(b, lo, lo + n) == before + units(more));
        if 15 * (n - 1) <= i < 15 * n {
            let c = i - 15 * (n - 1);
            assert(i / 15 == n - 1 && i % 15 == c);
            units_are_groups_of_two(more, c);
            assert(more[2 * c] == b[32 * (lo + n - 1) + 2 + 2 * c]);
            assert(more[2 * c + 1] == b[32 * (lo + n - 1) + 3 + 2 * c]);
        }
    }
}

/// Every file and folder of a directory is read: a complete set of entries that is come to from
/// the start is listed with what its bytes say: whether it is in use, whether it is a folder,
/// whether it is contiguous, its first cluster and its length, and its name.
#[verifier::rlimit(40)]
pub proof fn entry_set_is_read(b: Seq<u8>, k: int, u: Seq<u16>)
    requires
        0 <= k,
        32 * k + 32 <= b.len(),
        comes_to(b, 0, k),
        set_starts(b, k),
        spells_name(b, k, u),
        u.len() == b[32 * k + 35],
    ensures
        exfat_entries(b, 0).contains(
            EntryView {
                name: utf16_text(u),
                first: number_at(b, 32 * k + 52) as u32,
                size: long_number_at(b, 32 * k + 56) as u64,
                is_dir: (b[32 * k + 4] / 16) % 2 == 1,
                deleted: b[32 * k] < 128,
                contiguous: (b[32 * k + 33] / 2) % 2 == 1,
            },
        ),
{
    set_is_reached(b, 0, k);
    let e = slot(b, k);
    let stream = slot(b, k + 1);
    fields_are_little_endian(stream, 20);
    fields_are_little_endian(stream, 24);
    fields_are_little_endian(e, 4);
    assert(le32(stream, 20) == number_at(b, 32 * k + 52));
    assert(le64(stream, 24) == long_number_at(b, 32 * k + 56));
    assert(e[0] == b[32 * k] && e[1] == b[32 * k + 1] && e[4] == b[32 * k + 4] && e[5] == b[32 * k + 5]);
    assert(stream[1] == b[32 * k + 33] && stream[3] == b[32 * k + 35]);
    let x = e[0];
    assert((x & 0x80 == 0) <==> x < 128) by (bit_vector);
    let w = le16(e, 4);
    let lo = e[4];
    let hi = e[5];
    assert((w & 0x10 != 0) <==> (lo / 16) % 2 == 1) by (bit_vector)
        requires
            w == lo + 256 * hi,
    ;
    let y = stream[1];
    assert((y & 0x02 != 0) <==> (y / 2) % 2 == 1) by (bit_vector);
    let n = b[32 * k + 1] - 1;
    name_is_gathered(b, k + 2, n, 0);
    let name = name_units(b, k + 2, k + e[1] + 1);
    assert forall|i: int| 0 <= i < u.len() implies name[i] == u[i] by {
        name_is_gathered(b, k + 2, n, i);
    }
    assert(name.take(u.len() as int) =~= u);
    assert(exfat_entry(b, k).name == utf16_text(u));
}

/// Folder entries are followed, live or deleted: an entry leads to a folder exactly if it is one
/// of a folder and its first cluster exists. A folder that is contiguous, or deleted, is read in
/// consecutive clusters as long as its entry says, any other along its chain.
pub proof fn folders_are_followed<S: Source + ?Sized>(
    src: &S,
    heap: ClusterHeapView,
    bits: Seq<u8>,
    title: Seq<char>,
    d: FolderView,
    e: EntryView,
)
    ensures
        follows_folders(exfat_tree(src, heap, bits, title)),
        subfolder(heap, d, e) is Some <==> e.is_dir && 2 <= e.first < heap.limit && e.first < heap.fat.len(),
        subfolder(heap, d, e) matches Some(f) ==> {
            &&& f.first == e.first
            &&& f.prefix == d.prefix + e.name + "/"@
            &&& f.deleted <==> e.deleted || d.deleted
            &&& !e.contiguous && !e.deleted ==> folder_entries(src, heap, f) == exfat_entries(
                heap.bytes_of(src, heap.chain(e.first)),
                0,
            )
            &&& (e.contiguous || e.deleted) && 0 < e.size && 0 < heap.cs && e.first + ceil_div(e.size as nat, heap.cs as nat)
                <= u32::MAX ==> exists|cl: Seq<u32>|
                folder_entries(src, heap, f) == exfat_entries(#[trigger] heap.bytes_of(src, cl), 0) && (forall|x: u32|
                    #[trigger] cl.contains(x) <==> e.first <= x && (x - e.first) * heap.cs < e.size && x < heap.limit && x
                        < heap.fat.len()) && forall|i: int| 0 <= i < cl.len() ==> #[trigger] cl[i] == e.first + i
        },
{
    if let Some(f) = subfolder(heap, d, e) {
        if (e.contiguous || e.deleted) && 0 < e.size && 0 < heap.cs && e.first + ceil_div(e.size as nat, heap.cs as nat)
            <= u32::MAX {
            let n = ceil_div(e.size as nat, heap.cs as nat);
            let hi = e.first.saturating_add(n as u32);
            let cl = heap.span(e.first, hi);
            assert(folder_entries(src, heap, f) == exfat_entries(heap.bytes_of(src, cl), 0));
            assert forall|x: u32| #[trigger] cl.contains(x) <==> e.first <= x && (x - e.first) * heap.cs < e.size && x
                < heap.limit && x < heap.fat.len() by {
                heap.span_is_consecutive(e.first, hi, x);
                pieces_reach(e.size, heap.cs, x - e.first);
            }
            heap.span_is_consecutive(e.first, hi, 0);
        }
    }
}

proof fn pieces_reach(size: u64, cs: u64, k: int)
    requires
        cs > 0,
    ensures
        k >= 0 ==> (k < ceil_div(size as nat, cs as nat) <==> k * cs < size),
{
    ceil_div_reaches(size as nat, cs as nat);
    let q = ceil_div(size as nat, cs as nat);
    if k >= 0 {
        assert(k < q <==> k * cs < size) by (nonlinear_arith)
            requires
                q * cs >= size,
                q > 0 ==> (q - 1) * cs < size,
                q >= 0,
                k >= 0,
                cs > 0,
                size >= 0,
        ;
    }
}

/// A deleted entry stands for a file exactly if it is no folder's, is deleted or lies in a
/// deleted folder, holds bytes, and its first cluster exists. The file is listed under its
/// folder's path and its own name, with its size, and is intact exactly if the bitmap has all of
/// its clusters free, overwritten exactly if it has all in use.
pub proof fn deleted_entry_is_a_file(heap: ClusterHeapView, bits: Seq<u8>, title: Seq<char>, d: FolderView, e: EntryView)
    requires
        heap.cs > 0,
    ensures
        deleted_file(heap, bits, title, d, e) is Some <==> !e.is_dir && (e.deleted || d.deleted) && e.size > 0 && 2 <= e.first
            < heap.limit && e.first < heap.fat.len(),
        deleted_file(heap, bits, title, d, e) matches Some(f) ==> {
            &&& f.volume == title
            &&& f.path == d.prefix + e.name
            &&& f.size == e.size
            &&& f.data == DataView::Extents(extents_in(heap, file_clusters(heap, e), e.size))
            &&& f.state == State::Intact <==> forall|i: int|
                0 <= i < file_clusters(heap, e).len() ==> !AllocationView::Bits(bits).in_use(
                    #[trigger] file_clusters(heap, e)[i] - 2,
                )
            &&& f.state == State::Overwritten <==> file_clusters(heap, e).len() > 0 && forall|i: int|
                0 <= i < file_clusters(heap, e).len() ==> AllocationView::Bits(bits).in_use(
                    #[trigger] file_clusters(heap, e)[i] - 2,
                )
        },
{
    state_tells_cluster_use(AllocationView::Bits(bits), file_clusters(heap, e));
}

/// The clusters of a file that is recorded as contiguous are consecutive ones, as many as its
/// bytes reach into. Otherwise its chain is followed where it is long enough, and where it is
/// not, the file is taken for contiguous.
pub proof fn file_clusters_are_found(heap: ClusterHeapView, e: EntryView, i: int)
    requires
        heap.cs > 0,
        e.first >= 2,
        e.first + ceil_div(e.size as nat, heap.cs as nat) <= u32::MAX,
    ensures
        !e.contiguous && heap.chain(e.first).len() * heap.cs >= e.size ==> {
            let cl = file_clusters(heap, e);
            &&& cl.len() * heap.cs >= e.size
            &&& cl.len() > 0 ==> (cl.len() - 1) * heap.cs < e.size
            &&& 0 <= i < cl.len() ==> cl[i] == heap.chain(e.first)[i]
        },
        e.contiguous || heap.chain(e.first).len() * heap.cs < e.size ==> {
            let cl = file_clusters(heap, e);
            &&& 0 <= i < cl.len() ==> cl[i] == e.first + i
            &&& forall|x: u32| #[trigger]
                cl.contains(x) <==> e.first <= x && (x - e.first) * heap.cs < e.size && x < heap.limit && x < heap.fat.len()
        },
{
    let n = ceil_div(e.size as nat, heap.cs as nat);
    let chain = heap.chain(e.first);
    ceil_div_reaches(e.size as nat, heap.cs as nat);
    pieces_reach(e.size, heap.cs, chain.len() as int);
    let cl = file_clusters(heap, e);
    let hi = e.first.wrapping_add(n as u32);
    if e.contiguous || chain.len() * heap.cs < e.size {
        assert(cl == heap.span(e.first, hi));
        assert forall|x: u32| #[trigger] cl.contains(x) <==> e.first <= x && (x - e.first) * heap.cs < e.size && x < heap.limit
            && x < heap.fat.len() by {
            heap.span_is_consecutive(e.first, hi, x);
            pieces_reach(e.size, heap.cs, x - e.first);
        }
        heap.span_is_consecutive(e.first, hi, 0);
    }
}

/// A contiguous file is recovered as the bytes from its first cluster on, as many as its size
/// says.
#[verifier::rlimit(40)]
pub proof fn contiguous_file_is_recovered<S: Source + ?Sized>(
    src: &S,
    disk: Seq<u8>,
    heap: ClusterHeapView,
    bits: Seq<u8>,
    title: Seq<char>,
    d: FolderView,
    e: EntryView,
)
    requires
        holds(src, disk),
        disk.len() <= src.size(),
        0 < heap.cs <= usize::MAX,
        e.size <= usize::MAX,
        e.contiguous,
        e.first + ceil_div(e.size as nat, heap.cs as nat) <= u32::MAX,
        e.first + ceil_div(e.size as nat, heap.cs as nat) <= heap.limit,
        e.first + ceil_div(e.size as nat, heap.cs as nat) <= heap.fat.len(),
        heap.start + (e.first - 2) * heap.cs + ceil_div(e.size as nat, heap.cs as nat) * heap.cs <= disk.len(),
    ensures
        deleted_file(heap, bits, title, d, e) matches Some(f) ==> contents_of(src, f.data, f.size) == Ok::<Seq<u8>, Seq<char>>(
            disk.subrange(
                heap.start + (e.first - 2) * heap.cs,
                heap.start + (e.first - 2) * heap.cs + e.size,
            ),
        ),
{
    if let Some(f) = deleted_file(heap, bits, title, d, e) {
        let cs = heap.cs as int;
        let n = ceil_div(e.size as nat, heap.cs as nat) as int;
        let cl = file_clusters(heap, e);
        let o = heap.start + (e.first - 2) * heap.cs;
        ceil_div_reaches(e.size as nat, heap.cs as nat);
        assert(cl.len() == n);
        let k0 = e.first - 2;
        assert(0 <= k0 * cs) by (nonlinear_arith)
            requires
                k0 >= 0,
                cs > 0,
        ;
        assert forall|i: int| 0 <= i < cl.len() implies heap.offset((#[trigger] cl[i]) as int) == o + i * cs && o + i * cs + cs
            <= disk.len() by {
            assert(cl[i] == e.first + i);
            assert((k0 + i) * cs == k0 * cs + i * cs && i * cs + cs <= n * cs && 0 <= i * cs) by (nonlinear_arith)
                requires
                    0 <= i < n,
                    cs > 0,
            ;
            heap.clusters_stand_in_a_row(cl[i]);
        }
        assert(clusters_inside(heap, cl, disk.len()));
        file_is_recovered_from_its_clusters(src, disk, heap, cl, e.size);
        heap.clusters_hold_their_bytes(src, disk, cl);
        let b = heap.bytes_of(src, cl);
        let part = disk.subrange(o, o + e.size);
        assert forall|i: int| 0 <= i < e.size implies b[i] == part[i] by {
            let q = i / cs;
            let r = i % cs;
            assert(i == q * cs + r && 0 <= r < cs && 0 <= q < n) by (nonlinear_arith)
                requires
                    q == i / cs,
                    r == i % cs,
                    cs > 0,
                    0 <= i < n * cs,
            ;
            assert(b[q * heap.cs + r] == disk[heap.offset(cl[q] as int) + r]);
        }
        assert(first_bytes(b, e.size as nat) =~= part);
    }
}

/// A deleted file is found, however deep it lies: where its entry stands in a folder that is
/// reached from the root through folder entries, live or deleted, and the entry is deleted or
/// one of those folders is, the scan lists it under its path, with its size.
#[verifier::rlimit(40)]
pub proof fn deleted_file_is_found<S: Source + ?Sized>(src: &S, vol: VolumeView, es: Seq<EntryView>, e: EntryView)
    requires
        src.at(vol.base, 512) is Ok,
        exfat_tables(src, vol.base, exfat_geometry(src.at(vol.base, 512)->Ok_0)) is Ok,
        ({
            let g = exfat_geometry(src.at(vol.base, 512)->Ok_0);
            let (heap, bits) = exfat_tables(src, vol.base, g)->Ok_0;
            let t = exfat_tree(src, heap, bits, volume_title(vol.label, "exFAT"@));
            let root = FolderView { first: g.root, len: 0, prefix: ""@, deleted: false };
            &&& g.cs > 0
            &&& heap.valid(g.root as int)
            &&& entered_once(t, root)
            &&& leads_down(t, root, es)
            &&& entries_of(t, way_down(t, root, es)).contains(e)
            &&& !e.is_dir
            &&& e.deleted || exists|i: int| 0 <= i < es.len() && (#[trigger] es[i]).deleted
            &&& e.size > 0
            &&& 2 <= e.first < heap.limit && e.first < heap.fat.len()
        }),
    ensures
        exfat_scan(src, vol) is Ok,
        exists|i: int|
            0 <= i < exfat_scan(src, vol)->Ok_0.0.len() && {
                let g = exfat_geometry(src.at(vol.base, 512)->Ok_0);
                let (heap, bits) = exfat_tables(src, vol.base, g)->Ok_0;
                let x = #[trigger] exfat_scan(src, vol)->Ok_0.0[i];
                x.path == names_of_way(es) + e.name && x.size == e.size && x.volume == volume_title(vol.label, "exFAT"@)
                    && x.data == DataView::Extents(extents_in(heap, file_clusters(heap, e), e.size))
            },
{
    reveal(exfat_scan);
    let g = exfat_geometry(src.at(vol.base, 512)->Ok_0);
    let (heap, bits) = exfat_tables(src, vol.base, g)->Ok_0;
    let title = volume_title(vol.label, "exFAT"@);
    let t = exfat_tree(src, heap, bits, title);
    let root = FolderView { first: g.root, len: 0, prefix: ""@, deleted: false };
    let d = way_down(t, root, es);
    reveal(exfat_tables);
    assert(heap.cs == g.cs);
    folders_are_followed(src, heap, bits, title, root, e);
    files_below_are_listed(t, root, es, e);
    deleted_entry_is_a_file(heap, bits, title, d, e);
    let x = deleted_file(heap, bits, title, d, e)->Some_0;
    assert(crate::walk::deleted_file(t, d, e) == Some(x));
    let files = exfat_scan(src, vol)->Ok_0.0;
    assert(files == files_below(t, root));
    let i = choose|i: int| 0 <= i < files.len() && files[i] == x;
    assert(files[i].path == names_of_way(es) + e.name);
}

/// The volume map and the free space go by the allocation bitmap: the map from the byte of the
/// volume on where its clusters start, and the free ranges from that byte of the source on.
pub proof fn map_goes_by_the_bitmap<S: Source + ?Sized>(src: &S, vol: VolumeView, b: Seq<u8>, heap: ClusterHeapView, bits: Seq<u8>)
    requires
        src.at(vol.base, 512) == Ok::<Seq<u8>, Seq<char>>(b),
        exfat_tables(src, vol.base, exfat_geometry(b)) == Ok::<(ClusterHeapView, Seq<u8>), Seq<char>>((heap, bits)),
    ensures
        ({
            let g = exfat_geometry(b);
            &&& exfat_scan(src, vol) matches Ok((files, map)) && map == volume_map(
                vol,
                "exFAT"@,
                g.data,
                g.cs,
                g.count as u64,
                AllocationView::Bits(bits),
            )
            &&& g.cs > 0 && g.count > 0 ==> exfat_free_ranges(src, vol) == Ok::<Seq<(u64, u64)>, Seq<char>>(
                free_byte_ranges(AllocationView::Bits(bits), g.count as u64, vol.base.wrapping_add(g.data), g.cs),
            )
            &&& g.cs == 0 || g.count == 0 ==> exfat_free_ranges(src, vol) is Err
        }),
{
    reveal(exfat_scan);
    reveal(exfat_free_ranges);
    reveal(exfat_tables);
}

/// The entry sets of a directory are listed in the order in which they stand there; what starts no
/// set is passed over, and a zero byte ends the directory.
pub proof fn sets_come_in_their_order(b: Seq<u8>, i: int)
    requires
        0 <= i,
        32 * i + 32 <= b.len(),
    ensures
        b[32 * i] == 0 ==> exfat_entries(b, i).len() == 0,
        b[32 * i] != 0 && set_starts(b, i) ==> exfat_entries(b, i) == seq![exfat_entry(b, i)] + exfat_entries(
            b,
            i + b[32 * i + 1] + 1,
        ),
        b[32 * i] != 0 && !set_starts(b, i) ==> exfat_entries(b, i) == exfat_entries(b, i + 1),
{
    sets_are_seen(b, i);
}

} // verus!
