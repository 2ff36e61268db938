//! Which clusters of a volume are in use now: the volume map, and the free ranges.

use crate::bytes::{ceil_div, ceil_div_reaches, div_up};
use crate::model::{state_of, title_of, volume_title, Share, State, VolMap, VolMapView, Volume, VolumeView, MAP_CELLS};
use vstd::arithmetic::power2::pow2;
use vstd::bits::lemma_u8_shr_is_div;
use vstd::prelude::*;

verus! {

/// An allocation table: a FAT, or a bitmap with one bit for each cluster. Clusters are
/// counted from the start of the cluster heap.
#[derive(Clone, Copy)]
pub enum Allocation<'a> {
    /// File allocation table; its first two entries stand for no cluster.
    Fat(&'a [u32]),
    /// One bit per cluster, the lowest bit of the first byte first.
    Bits(&'a [u8]),
}

/// The view of `Allocation`.
pub enum AllocationView {
    Fat(Seq<u32>),
    Bits(Seq<u8>),
}

/// Whether the FAT entry `v` marks its cluster as in use; its upper four bits are reserved.
pub open spec fn fat_entry_used(v: u32) -> bool {
    v & 0x0FFF_FFFF != 0
}

/// Whether bit `i` is set; there is none behind the last byte.
pub open spec fn bit_set(bits: Seq<u8>, i: int) -> bool {
    &&& i / 8 < bits.len()
    &&& bits[i / 8] & (1u8 << ((i % 8) as u8)) != 0
}

impl AllocationView {
    /// Whether cluster `c` of the heap is in use.
    pub open spec fn in_use(self, c: int) -> bool {
        match self {
            AllocationView::Fat(fat) => c + 2 < fat.len() && fat_entry_used(fat[c + 2]),
            AllocationView::Bits(bits) => bit_set(bits, c),
        }
    }
}

impl<'a> View for Allocation<'a> {
    type V = AllocationView;

    open spec fn view(&self) -> AllocationView {
        match self {
            Allocation::Fat(fat) => AllocationView::Fat(fat@),
            Allocation::Bits(bits) => AllocationView::Bits(bits@),
        }
    }
}

/// Whether bit `i` is set.
pub fn bit_at(bits: &[u8], i: u64) -> (r: bool)
    ensures
        r == bit_set(bits@, i as int),
{
    if i / 8 >= bits.len() as u64 {
        return false;
    }
    let k = (i % 8) as u8;
    bits[(i / 8) as usize] & (1u8 << k) != 0
}

impl<'a> Allocation<'a> {
    /// Whether cluster `c` of the heap is in use.
    pub fn used(&self, c: u64) -> (r: bool)
        ensures
            r == self@.in_use(c as int),
    {
        match self {
            Allocation::Fat(fat) => {
                if fat.len() < 2 || c >= (fat.len() - 2) as u64 {
                    false
                } else {
                    fat[c as usize + 2] & 0x0FFF_FFFF != 0
                }
            },
            Allocation::Bits(bits) => bit_at(bits, c),
        }
    }
}

/// How many of the clusters in `cl` (numbered from 2 on) are in use.
pub open spec fn used_among(alloc: AllocationView, cl: Seq<u32>) -> nat
    decreases cl.len(),
{
    if cl.len() == 0 {
        0
    } else {
        used_among(alloc, cl.drop_last()) + if alloc.in_use(cl.last() - 2) {
            1nat
        } else {
            0nat
        }
    }
}

proof fn used_among_extremes(alloc: AllocationView, cl: Seq<u32>)
    ensures
        used_among(alloc, cl) <= cl.len(),
        used_among(alloc, cl) == 0 <==> forall|i: int| 0 <= i < cl.len() ==> !alloc.in_use(#[trigger] cl[i] - 2),
        used_among(alloc, cl) == cl.len() <==> forall|i: int| 0 <= i < cl.len() ==> alloc.in_use(#[trigger] cl[i] - 2),
    decreases cl.len(),
{
    if cl.len() > 0 {
        let init = cl.drop_last();
        used_among_extremes(alloc, init);
        let n = init.len() as int;
        assert(cl[n] == cl.last());
        assert forall|i: int| 0 <= i < n implies cl[i] == #[trigger] init[i] by {}
        if forall|i: int| 0 <= i < cl.len() ==> !alloc.in_use(#[trigger] cl[i] - 2) {
            assert forall|i: int| 0 <= i < n implies !alloc.in_use(#[trigger] init[i] - 2) by {
                assert(init[i] == cl[i]);
            }
            assert(!alloc.in_use(cl[n] - 2));
        }
        if forall|i: int| 0 <= i < cl.len() ==> alloc.in_use(#[trigger] cl[i] - 2) {
            assert forall|i: int| 0 <= i < n implies alloc.in_use(#[trigger] init[i] - 2) by {
                assert(init[i] == cl[i]);
            }
            assert(alloc.in_use(cl[n] - 2));
        }
        if used_among(alloc, cl) == 0 {
            assert forall|i: int| 0 <= i < cl.len() implies !alloc.in_use(#[trigger] cl[i] - 2) by {
                if i < n {
                    assert(cl[i] == init[i]);
                }
            }
        }
        if used_among(alloc, cl) == cl.len() {
            assert forall|i: int| 0 <= i < cl.len() implies alloc.in_use(#[trigger] cl[i] - 2) by {
                if i < n {
                    assert(cl[i] == init[i]);
                }
            }
        }
    }
}

/// The state of a file tells what has become of its clusters: it is intact exactly if all
/// are free, and overwritten exactly if all are in use (and there are any).
pub proof fn state_tells_cluster_use(alloc: AllocationView, cl: Seq<u32>)
    ensures
        state_of(used_among(alloc, cl) as int, cl.len() as int) == State::Intact <==> forall|i: int|
            0 <= i < cl.len() ==> !alloc.in_use(#[trigger] cl[i] - 2),
        state_of(used_among(alloc, cl) as int, cl.len() as int) == State::Overwritten <==> cl.len() > 0 && forall|i: int|
            0 <= i < cl.len() ==> alloc.in_use(#[trigger] cl[i] - 2),
{
    used_among_extremes(alloc, cl);
}

/// How many of the clusters in `cl` (numbered from 2 on) are in use.
pub fn count_used(alloc: Allocation<'_>, cl: &[u32]) -> (r: usize)
    requires
        forall|i: int| 0 <= i < cl@.len() ==> #[trigger] cl@[i] >= 2,
    ensures
        r == used_among(alloc@, cl@),
{
    let mut n: usize = 0;
    let mut i: usize = 0;
    while i < cl.len()
        invariant
            i <= cl@.len(),
            n <= i,
            n == used_among(alloc@, cl@.take(i as int)),
            forall|i: int| 0 <= i < cl@.len() ==> #[trigger] cl@[i] >= 2,
        decreases cl@.len() - i,
    {
        assert(cl@.take(i + 1).drop_last() =~= cl@.take(i as int));
        if alloc.used(cl[i] as u64 - 2) {
            n += 1;
        }
        i += 1;
    }
    assert(cl@.take(i as int) =~= cl@);
    n
}

/// Every how many clusters the volume map looks: big volumes are sampled.
pub open spec fn sample_step(count: u64) -> u64 {
    let step = count / 0x4_0000;
    if step == 0 {
        1
    } else {
        step
    }
}

/// The map cell (unbounded) of a byte offset in a volume of `size` bytes.
pub open spec fn raw_cell(byte: u64, size: u64) -> int {
    (byte * 1024) / if size == 0 {
        1
    } else {
        size as int
    }
}

/// The map cell of cluster `c`, which stands `heap + c * cs` bytes into the volume.
pub open spec fn cluster_cell(size: u64, heap: u64, cs: u64, c: u64) -> int {
    let cell = raw_cell(heap.wrapping_add(c.wrapping_mul(cs)), size);
    if cell < 1023 {
        cell
    } else {
        1023
    }
}

/// How many of the first `k` sampled clusters fall into cell `i`.
pub open spec fn sampled_in(size: u64, heap: u64, cs: u64, step: u64, k: int, i: int) -> nat
    decreases k,
{
    if k <= 0 {
        0
    } else {
        sampled_in(size, heap, cs, step, k - 1, i) + if cluster_cell(size, heap, cs, ((k - 1) * step) as u64) == i {
            1nat
        } else {
            0nat
        }
    }
}

/// How many of the first `k` sampled clusters fall into cell `i` and are in use.
pub open spec fn allocated_in(size: u64, heap: u64, cs: u64, step: u64, used: AllocationView, k: int, i: int) -> nat
    decreases k,
{
    if k <= 0 {
        0
    } else {
        allocated_in(size, heap, cs, step, used, k - 1, i) + if cluster_cell(size, heap, cs, ((k - 1) * step) as u64)
            == i && used.in_use((k - 1) * step) {
            1nat
        } else {
            0nat
        }
    }
}

/// Share of cell `i`: what stands before the cluster heap (boot sector, tables) counts as
/// used, and a cell without a sampled cluster as free.
pub open spec fn cell_share(size: u64, heap: u64, cs: u64, count: u64, used: AllocationView, i: int) -> Share {
    let step = sample_step(count);
    let k = ceil_div(count as nat, step as nat) as int;
    if i < raw_cell(heap, size) {
        Share { allocated: 1, sampled: 1 }
    } else {
        Share {
            allocated: allocated_in(size, heap, cs, step, used, k, i) as u64,
            sampled: sampled_in(size, heap, cs, step, k, i) as u64,
        }
    }
}

/// The map of a volume whose `count` clusters of `cs` bytes start at byte `heap`.
pub open spec fn volume_map(vol: VolumeView, fs: Seq<char>, heap: u64, cs: u64, count: u64, used: AllocationView) -> VolMapView {
    VolMapView {
        volume: volume_title(vol.label, fs),
        base: vol.base,
        size: vol.size,
        used: Seq::new(MAP_CELLS as nat, |i: int| cell_share(vol.size, heap, cs, count, used, i)),
    }
}

/// No cell holds more allocated clusters than sampled ones, nor more of either than there are.
pub proof fn shares_are_fractions(size: u64, heap: u64, cs: u64, step: u64, used: AllocationView, k: int, i: int)
    requires
        0 <= k,
    ensures
        allocated_in(size, heap, cs, step, used, k, i) <= sampled_in(size, heap, cs, step, k, i) <= k,
    decreases k,
{
    if k > 0 {
        shares_are_fractions(size, heap, cs, step, used, k - 1, i);
    }
}

/// The map of a volume has its full number of cells, and none shows more clusters in use
/// than it stands for.
pub proof fn map_shows_shares(vol: VolumeView, fs: Seq<char>, heap: u64, cs: u64, count: u64, used: AllocationView)
    ensures
        volume_map(vol, fs, heap, cs, count, used).used.len() == MAP_CELLS,
        forall|i: int|
            0 <= i < MAP_CELLS ==> (#[trigger] volume_map(vol, fs, heap, cs, count, used).used[i]).allocated <= volume_map(
                vol,
                fs,
                heap,
                cs,
                count,
                used,
            ).used[i].sampled,
{
    let step = sample_step(count);
    let k = ceil_div(count as nat, step as nat);
    assert(k <= count) by (nonlinear_arith)
        requires
            k == ceil_div(count as nat, step as nat),
            step > 0,
            count >= 0,
    ;
    assert forall|i: int| 0 <= i < MAP_CELLS implies (#[trigger] volume_map(vol, fs, heap, cs, count, used).used[i]).allocated
        <= volume_map(vol, fs, heap, cs, count, used).used[i].sampled by {
        shares_are_fractions(vol.size, heap, cs, step, used, k as int, i);
    }
}

/// The map cell of a byte offset in a volume of `size` bytes, at most `last`.
fn map_cell(byte: u64, size: u64, last: usize) -> (r: usize)
    ensures
        r == if raw_cell(byte, size) < last {
            raw_cell(byte, size)
        } else {
            last as int
        },
{
    let m: u128 = if size == 0 {
        1
    } else {
        size as u128
    };
    let q: u128 = byte as u128 * 1024 / m;
    if q < last as u128 {
        q as usize
    } else {
        last
    }
}

/// Build a map from "is cluster N allocated" over the cluster heap
/// (`heap` = byte offset of the heap in the volume).
pub fn vol_map(vol: &Volume, fs: &str, heap: u64, cs: u64, count: u64, alloc: Allocation<'_>) -> (r: VolMap)
    ensures
        r@ == volume_map(vol@, fs@, heap, cs, count, alloc@),
{
    let size = vol.size;
    let mut sum: Vec<u64> = vec![0; MAP_CELLS];
    let mut n: Vec<u64> = vec![0; MAP_CELLS];
    let mut step = count / 0x4_0000;
    if step == 0 {
        step = 1;
    }
    let samples = div_up(count, step);
    let mut k: u64 = 0;
    while k < samples
        invariant
            k <= samples,
            samples == ceil_div(count as nat, step as nat),
            step > 0,
            size == vol.size,
            sum@.len() == MAP_CELLS,
            n@.len() == MAP_CELLS,
            forall|i: int|
                0 <= i < MAP_CELLS ==> #[trigger] n@[i] == sampled_in(size, heap, cs, step, k as int, i),
            forall|i: int|
                0 <= i < MAP_CELLS ==> #[trigger] sum@[i] == allocated_in(size, heap, cs, step, alloc@, k as int, i),
        decreases samples - k,
    {
        assert(0 <= k * step < count) by (nonlinear_arith)
            requires
                0 <= k,
                k < ceil_div(count as nat, step as nat),
                step > 0,
        ;
        let c = k * step;
        let cell = map_cell(heap.wrapping_add(c.wrapping_mul(cs)), size, MAP_CELLS - 1);
        let used = alloc.used(c);
        proof {
            shares_are_fractions(size, heap, cs, step, alloc@, k as int, cell as int);
        }
        let n0 = n[cell];
        let s0 = sum[cell];
        n.set(cell, n0 + 1);
        if used {
            sum.set(cell, s0 + 1);
        }
        k += 1;
    }
    let meta = map_cell(heap, size, MAP_CELLS);
    let mut out: Vec<Share> = Vec::new();
    let mut i: usize = 0;
    while i < MAP_CELLS
        invariant
            i <= MAP_CELLS,
            step == sample_step(count),
            samples == ceil_div(count as nat, step as nat),
            meta == raw_cell(heap, size) || MAP_CELLS == meta < raw_cell(heap, size),
            sum@.len() == MAP_CELLS,
            n@.len() == MAP_CELLS,
            forall|i: int|
                0 <= i < MAP_CELLS ==> #[trigger] n@[i] == sampled_in(size, heap, cs, step, samples as int, i),
            forall|i: int|
                0 <= i < MAP_CELLS ==> #[trigger] sum@[i] == allocated_in(size, heap, cs, step, alloc@, samples as int, i),
            out@.len() == i,
            forall|j: int| 0 <= j < i ==> #[trigger] out@[j] == cell_share(size, heap, cs, count, alloc@, j),
        decreases MAP_CELLS - i,
    {
        if i < meta {
            out.push(Share { allocated: 1, sampled: 1 });
        } else {
            out.push(Share { allocated: sum[i], sampled: n[i] });
        }
        i += 1;
    }
    assert(out@ =~= volume_map(vol@, fs@, heap, cs, count, alloc@).used);
    VolMap { volume: title_of(vol.label.as_str(), fs), base: vol.base, size: vol.size, used: out }
}

/// The end of the run of free clusters that starts at `c`.
pub open spec fn run_end(used: AllocationView, c: int, count: int) -> int
    decreases count - c,
{
    if c < count && !used.in_use(c) {
        run_end(used, c + 1, count)
    } else {
        c
    }
}

/// A run does not end before it starts, and ends within the heap.
pub proof fn run_end_bounds(used: AllocationView, c: int, count: int)
    requires
        c <= count,
    ensures
        c <= run_end(used, c, count) <= count,
        c < count && !used.in_use(c) ==> c < run_end(used, c, count),
        forall|i: int| c <= i < run_end(used, c, count) ==> !used.in_use(i),
        run_end(used, c, count) < count ==> used.in_use(run_end(used, c, count)),
    decreases count - c,
{
    if c < count && !used.in_use(c) {
        run_end_bounds(used, c + 1, count);
    }
}

/// The runs of free clusters from `c` on, each as (first cluster, cluster behind the last).
pub open spec fn free_runs(used: AllocationView, c: int, count: int) -> Seq<(int, int)>
    decreases count - c,
    via free_runs_shrink
{
    if c >= count {
        seq![]
    } else if used.in_use(c) {
        free_runs(used, c + 1, count)
    } else {
        seq![(c, run_end(used, c, count))] + free_runs(used, run_end(used, c, count), count)
    }
}

#[via_fn]
proof fn free_runs_shrink(used: AllocationView, c: int, count: int) {
    if c < count {
        run_end_bounds(used, c, count);
    }
}

/// Whether cluster `x` lies in one of the runs.
pub open spec fn in_a_run(runs: Seq<(int, int)>, x: int) -> bool {
    exists|i: int| 0 <= i < runs.len() && (#[trigger] runs[i]).0 <= x < runs[i].1
}

/// The free runs hold the free clusters and no others: each is not empty and inside the
/// heap, they follow one another with a cluster in use between them, and a cluster lies in
/// one of them exactly if it is free.
pub proof fn free_runs_are_exact(used: AllocationView, c: int, count: int)
    requires
        c <= count,
    ensures
        forall|i: int|
            0 <= i < free_runs(used, c, count).len() ==> c <= (#[trigger] free_runs(used, c, count)[i]).0 < free_runs(
                used,
                c,
                count,
            )[i].1 <= count,
        forall|i: int, j: int|
            0 <= i < j < free_runs(used, c, count).len() ==> (#[trigger] free_runs(used, c, count)[i]).1 < (
            #[trigger] free_runs(used, c, count)[j]).0,
        forall|x: int| c <= x < count ==> (#[trigger] in_a_run(free_runs(used, c, count), x) <==> !used.in_use(x)),
    decreases count - c,
{
    let runs = free_runs(used, c, count);
    if c < count {
        if used.in_use(c) {
            free_runs_are_exact(used, c + 1, count);
            let rest = free_runs(used, c + 1, count);
            assert(runs == rest);
            assert forall|i: int| 0 <= i < runs.len() implies c < (#[trigger] runs[i]).0 < runs[i].1 <= count by {
                assert(c + 1 <= rest[i].0);
            }
        } else {
            run_end_bounds(used, c, count);
            let e = run_end(used, c, count);
            let rest = free_runs(used, e, count);
            free_runs_are_exact(used, e, count);
            assert(runs =~= seq![(c, e)] + rest);
            assert forall|i: int| 0 <= i < runs.len() implies c <= (#[trigger] runs[i]).0 < runs[i].1 <= count by {
                if i > 0 {
                    assert(runs[i] == rest[i - 1]);
                }
            }
            assert forall|i: int, j: int| 0 <= i < j < runs.len() implies (#[trigger] runs[i]).1 < (
            #[trigger] runs[j]).0 by {
                assert(runs[j] == rest[j - 1]);
                if i > 0 {
                    assert(runs[i] == rest[i - 1]);
                } else {
                    assert(e <= rest[j - 1].0);
                    if rest[j - 1].0 == e {
                        assert(in_a_run(rest, e));
                    }
                }
            }
            assert forall|x: int| c <= x < count implies (#[trigger] in_a_run(runs, x) <==> !used.in_use(x)) by {
                if x < e {
                    assert(runs[0].0 <= x < runs[0].1);
                } else {
                    if in_a_run(rest, x) {
                        let i = choose|i: int| 0 <= i < rest.len() && (#[trigger] rest[i]).0 <= x < rest[i].1;
                        assert(runs[i + 1] == rest[i]);
                    }
                    if in_a_run(runs, x) {
                        let i = choose|i: int| 0 <= i < runs.len() && (#[trigger] runs[i]).0 <= x < runs[i].1;
                        assert(i > 0);
                        assert(rest[i - 1] == runs[i]);
                    }
                }
            }
        }
    }
}

/// The byte offset of cluster `c` of a heap that starts at `start`.
pub open spec fn cluster_start(start: u64, cs: u64, c: int) -> u64 {
    start.wrapping_add((c as u64).wrapping_mul(cs))
}

/// Runs of clusters as byte ranges (start, end).
pub open spec fn byte_ranges(runs: Seq<(int, int)>, start: u64, cs: u64) -> Seq<(u64, u64)> {
    runs.map_values(|r: (int, int)| (cluster_start(start, cs, r.0), cluster_start(start, cs, r.1)))
}

/// The byte ranges of the free clusters among the first `count` of a heap.
pub open spec fn free_byte_ranges(used: AllocationView, count: u64, start: u64, cs: u64) -> Seq<(u64, u64)> {
    byte_ranges(free_runs(used, 0, count as int), start, cs)
}

/// On a heap that fits the address space, the free ranges are not empty, lie inside the
/// heap, follow one another without touching, and are exactly the bytes of the free runs.
pub proof fn free_ranges_are_exact(used: AllocationView, count: u64, start: u64, cs: u64)
    requires
        cs > 0,
        start + count * cs <= u64::MAX,
    ensures
        free_byte_ranges(used, count, start, cs).len() == free_runs(used, 0, count as int).len(),
        forall|i: int|
            0 <= i < free_byte_ranges(used, count, start, cs).len() ==> {
                let r = #[trigger] free_byte_ranges(used, count, start, cs)[i];
                let run = free_runs(used, 0, count as int)[i];
                &&& r == ((start + run.0 * cs) as u64, (start + run.1 * cs) as u64)
                &&& start <= r.0 < r.1 <= start + count * cs
            },
        forall|i: int, j: int|
            0 <= i < j < free_byte_ranges(used, count, start, cs).len() ==> (#[trigger] free_byte_ranges(
                used,
                count,
                start,
                cs,
            )[i]).1 < (#[trigger] free_byte_ranges(used, count, start, cs)[j]).0,
{
    let runs = free_runs(used, 0, count as int);
    let ranges = free_byte_ranges(used, count, start, cs);
    free_runs_are_exact(used, 0, count as int);
    assert forall|c: int| 0 <= c <= count implies #[trigger] cluster_start(start, cs, c) == start + c * cs by {
        assert(0 <= c * cs <= count * cs) by (nonlinear_arith)
            requires
                0 <= c <= count,
                0 < cs,
        ;
    }
    assert forall|i: int| 0 <= i < ranges.len() implies {
        let r = #[trigger] ranges[i];
        let run = runs[i];
        &&& r == ((start + run.0 * cs) as u64, (start + run.1 * cs) as u64)
        &&& start <= r.0 < r.1 <= start + count * cs
    } by {
        let run = runs[i];
        assert(cluster_start(start, cs, run.0) == start + run.0 * cs);
        assert(cluster_start(start, cs, run.1) == start + run.1 * cs);
        assert(0 <= run.0 * cs < run.1 * cs <= count * cs) by (nonlinear_arith)
            requires
                0 <= run.0 < run.1 <= count,
                0 < cs,
        ;
    }
    assert forall|i: int, j: int| 0 <= i < j < ranges.len() implies (#[trigger] ranges[i]).1 < (#[trigger] ranges[j]).0 by {
        let a = runs[i];
        let b = runs[j];
        assert(cluster_start(start, cs, a.1) == start + a.1 * cs);
        assert(cluster_start(start, cs, b.0) == start + b.0 * cs);
        assert(a.1 * cs < b.0 * cs) by (nonlinear_arith)
            requires
                a.1 < b.0,
                0 < cs,
        ;
    }
}

/// Group the clusters `0..count` into byte ranges wherever they are free. The end of a run
/// is the offset of the first cluster behind it, so the ranges are contiguous.
pub fn cluster_runs(count: u64, alloc: Allocation<'_>, start: u64, cs: u64) -> (r: Vec<(u64, u64)>)
    ensures
        r@ == free_byte_ranges(alloc@, count, start, cs),
{
    let mut v: Vec<(u64, u64)> = Vec::new();
    let mut c: u64 = 0;
    let ghost mut done: Seq<(int, int)> = seq![];
    assert(v@ =~= byte_ranges(done, start, cs));
    assert(done + free_runs(alloc@, 0, count as int) =~= free_runs(alloc@, 0, count as int));
    while c < count
        invariant
            c <= count,
            v@ == byte_ranges(done, start, cs),
            done + free_runs(alloc@, c as int, count as int) == free_runs(alloc@, 0, count as int),
        decreases count - c,
    {
        if alloc.used(c) {
            c += 1;
        } else {
            let first = c;
            proof {
                run_end_bounds(alloc@, c as int, count as int);
            }
            while c < count && !alloc.used(c)
                invariant
                    first <= c <= count,
                    run_end(alloc@, c as int, count as int) == run_end(alloc@, first as int, count as int),
                decreases count - c,
            {
                c += 1;
            }
            v.push((start.wrapping_add(first.wrapping_mul(cs)), start.wrapping_add(c.wrapping_mul(cs))));
            proof {
                let run = (first as int, c as int);
                assert(byte_ranges(done.push(run), start, cs) =~= byte_ranges(done, start, cs).push(
                    (cluster_start(start, cs, run.0), cluster_start(start, cs, run.1)),
                ));
                assert(done.push(run) + free_runs(alloc@, c as int, count as int) =~= done + (seq![run] + free_runs(
                    alloc@,
                    c as int,
                    count as int,
                )));
                done = done.push(run);
            }
        }
    }
    assert(done + free_runs(alloc@, c as int, count as int) =~= done);
    v
}

/// A bitmap has one bit for each cluster: bit `c % 8` of byte `c / 8`, where bit 0 counts 1 and
/// bit 7 counts 128. A cluster behind its end is free.
pub proof fn bitmap_has_a_bit_for_each_cluster(bits: Seq<u8>, c: int)
    requires
        0 <= c,
    ensures
        AllocationView::Bits(bits).in_use(c) <==> c / 8 < bits.len() && (bits[c / 8] as int / pow2((c % 8) as nat) as int) % 2 == 1,
{
    if c / 8 < bits.len() {
        let x = bits[c / 8];
        let k = (c % 8) as u8;
        assert((x & (1u8 << k) != 0) <==> (x >> k) % 2 == 1) by (bit_vector)
            requires
                k < 8,
        ;
        lemma_u8_shr_is_div(x, k);
    }
}

/// A cluster of a FAT is in use exactly if the number in the low 28 bits of its entry, the one
/// behind the two reserved ones, is not zero.
pub proof fn fat_entry_tells_use(fat: Seq<u32>, c: int)
    requires
        0 <= c,
    ensures
        AllocationView::Fat(fat).in_use(c) <==> c + 2 < fat.len() && fat[c + 2] % 0x1000_0000 != 0,
{
    if c + 2 < fat.len() {
        let v = fat[c + 2];
        assert(v & 0x0FFF_FFFF == v % 0x1000_0000) by (bit_vector);
    }
}

/// Where cluster `c` of a volume shows on its map of 1024 cells, each of which stands for as many
/// bytes of the volume; what lies behind its end shows in the last cell.
pub open spec fn shows_in(size: u64, heap: u64, cs: u64, c: int) -> int {
    let cell = (heap + c * cs) * 1024 / size as int;
    if cell < 1024 {
        cell
    } else {
        1023
    }
}

#[verifier::rlimit(40)]
proof fn samples_are_counted(size: u64, heap: u64, cs: u64, step: u64, used: AllocationView, count: u64, k: int, i: int)
    requires
        size > 0,
        step > 0,
        heap + count * cs <= u64::MAX,
        0 <= k,
        k > 0 ==> (k - 1) * step < count,
    ensures
        sampled_in(size, heap, cs, step, k, i) == Seq::new(k as nat, |j: int| j * step).filter(
            |c: int| shows_in(size, heap, cs, c) == i,
        ).len(),
        allocated_in(size, heap, cs, step, used, k, i) == Seq::new(k as nat, |j: int| j * step).filter(
            |c: int| shows_in(size, heap, cs, c) == i && used.in_use(c),
        ).len(),
    decreases k,
{
    reveal(Seq::filter);
    let shown = |c: int| shows_in(size, heap, cs, c) == i;
    let taken = |c: int| shows_in(size, heap, cs, c) == i && used.in_use(c);
    let all = Seq::new(k as nat, |j: int| j * step);
    if k > 0 {
        let c = (k - 1) * step;
        assert((k - 1) * step >= 0 && (k - 2) * step < c) by (nonlinear_arith)
            requires
                k > 0,
                step > 0,
                c == (k - 1) * step,
        ;
        assert(0 <= c * cs <= count * cs) by (nonlinear_arith)
            requires
                0 <= c < count,
        ;
        samples_are_counted(size, heap, cs, step, used, count, k - 1, i);
        let before = Seq::new((k - 1) as nat, |j: int| j * step);
        assert(all.drop_last() =~= before);
        assert(all.last() == c);
        assert(heap.wrapping_add((c as u64).wrapping_mul(cs)) == heap + c * cs);
        assert(cluster_cell(size, heap, cs, c as u64) == shows_in(size, heap, cs, c));
        assert(all.filter(shown).len() == before.filter(shown).len() + if shown(c) {
            1nat
        } else {
            0nat
        });
        assert(all.filter(taken).len() == before.filter(taken).len() + if taken(c) {
            1nat
        } else {
            0nat
        });
    }
}

/// The volume map shows, in each of its 1024 cells, how many of the clusters there are in use.
/// Up to 524287 clusters are all looked at; of more than that, every (count / 262144)-th from the
/// first on. What stands before the clusters shows as in use.
#[verifier::rlimit(40)]
pub proof fn map_shows_the_clusters(vol: VolumeView, fs: Seq<char>, heap: u64, cs: u64, count: u64, used: AllocationView, n: nat, i: int)
    requires
        vol.size > 0,
        heap + count * cs <= u64::MAX,
        0 <= i < 1024,
        ({
            let step = if count < 0x8_0000 {
                1
            } else {
                count as int / 0x4_0000
            };
            (n == 0 && count == 0) || (n > 0 && (n - 1) * step < count && n * step >= count)
        }),
    ensures
        ({
            let m = volume_map(vol, fs, heap, cs, count, used);
            let step = if count < 0x8_0000 {
                1
            } else {
                count as int / 0x4_0000
            };
            let looked_at = Seq::new(n, |j: int| j * step);
            &&& m.volume == vol.label + " ("@ + fs + ")"@
            &&& m.base == vol.base
            &&& m.size == vol.size
            &&& m.used.len() == 1024
            &&& i < heap * 1024 / vol.size as int ==> m.used[i].allocated == 1 && m.used[i].sampled == 1
            &&& i >= heap * 1024 / vol.size as int ==> {
                &&& m.used[i].sampled == looked_at.filter(|c: int| shows_in(vol.size, heap, cs, c) == i).len()
                &&& m.used[i].allocated == looked_at.filter(
                    |c: int| shows_in(vol.size, heap, cs, c) == i && used.in_use(c),
                ).len()
            }
        }),
{
    let step = sample_step(count);
    assert(count < 0x8_0000 ==> step == 1);
    assert(count >= 0x8_0000 ==> step == count / 0x4_0000);
    let k = ceil_div(count as nat, step as nat);
    ceil_div_reaches(count as nat, step as nat);
    assert(k == n) by {
        if k < n {
            assert(k * step <= (n - 1) * step) by (nonlinear_arith)
                requires
                    k <= n - 1,
                    step > 0,
            ;
        }
        if n < k {
            assert(n * step <= (k - 1) * step) by (nonlinear_arith)
                requires
                    n <= k - 1,
                    step > 0,
            ;
        }
    }
    assert(k <= count) by (nonlinear_arith)
        requires
            k > 0 ==> (k - 1) * step < count,
            step > 0,
            k >= 0,
            count >= 0,
    ;
    samples_are_counted(vol.size, heap, cs, step, used, count, k as int, i);
    shares_are_fractions(vol.size, heap, cs, step, used, k as int, i);
    let looked_at = Seq::new(
        n,
        |j: int|
            j * (if count < 0x8_0000 {
                1
            } else {
                count as int / 0x4_0000
            }),
    );
    assert(looked_at =~= Seq::new(n, |j: int| j * step));
}

} // verus!
