//! NTFS data runs: where the clusters of an attribute stand.

use crate::bytes::{first_bytes, zero_bytes, zeros};
use crate::source::{holds, read, Source};
use vstd::prelude::*;

verus! {

/// `256` to the power of `n`.
pub open spec fn pow256(n: nat) -> nat
    decreases n,
{
    if n == 0 {
        1
    } else {
        256 * pow256((n - 1) as nat)
    }
}

/// The unsigned number that the bytes `b` hold, the lowest byte first.
pub open spec fn le_value(b: Seq<u8>) -> nat
    decreases b.len(),
{
    if b.len() == 0 {
        0
    } else {
        b[0] as nat + 256 * le_value(b.skip(1))
    }
}

/// The signed number (two's complement) that the bytes `b` hold, the lowest byte first.
pub open spec fn le_signed(b: Seq<u8>) -> int
    decreases b.len(),
{
    if b.len() == 0 {
        0
    } else if b.len() == 1 {
        if b[0] >= 0x80 {
            b[0] - 256
        } else {
            b[0] as int
        }
    } else {
        b[0] + 256 * le_signed(b.skip(1))
    }
}

proof fn le_value_bound(b: Seq<u8>)
    ensures
        le_value(b) < pow256(b.len()),
    decreases b.len(),
{
    if b.len() > 0 {
        le_value_bound(b.skip(1));
    }
}

proof fn le_signed_bound(b: Seq<u8>)
    requires
        b.len() > 0,
    ensures
        -128 * pow256((b.len() - 1) as nat) <= le_signed(b) < 128 * pow256((b.len() - 1) as nat),
    decreases b.len(),
{
    if b.len() > 1 {
        le_signed_bound(b.skip(1));
    } else {
        assert(pow256(0) == 1);
    }
}

proof fn pow256_up_to(n: nat)
    requires
        n <= 8,
    ensures
        pow256(n) <= 0x1_0000_0000_0000_0000,
        n <= 7 ==> pow256(n) <= 0x100_0000_0000_0000,
{
    reveal_with_fuel(pow256, 9);
}

/// The value of the `n` bytes at `o`.
fn unsigned_at(b: &[u8], o: usize, n: usize) -> (r: u64)
    requires
        n <= 8,
        o + n <= b@.len(),
    ensures
        r == le_value(b@.subrange(o as int, o + n)),
{
    let ghost s = b@.subrange(o as int, o + n);
    let mut v: u64 = 0;
    let mut k = n;
    assert(s.skip(n as int) =~= seq![]);
    while k > 0
        invariant
            k <= n <= 8,
            o + n <= b@.len(),
            b@.len() == b.len(),
            s == b@.subrange(o as int, o + n),
            v == le_value(s.skip(k as int)),
        decreases k,
    {
        k -= 1;
        assert(s.skip(k as int).skip(1) =~= s.skip(k + 1));
        proof {
            le_value_bound(s.skip(k as int));
            pow256_up_to((n - k) as nat);
        }
        v = v * 256 + b[o + k] as u64;
    }
    assert(s.skip(0) =~= s);
    v
}

/// The value of the `n` bytes at `o`, as a signed number.
fn signed_at(b: &[u8], o: usize, n: usize) -> (r: i64)
    requires
        0 < n <= 8,
        o + n <= b@.len(),
    ensures
        r == le_signed(b@.subrange(o as int, o + n)),
{
    let ghost s = b@.subrange(o as int, o + n);
    let mut k = n - 1;
    assert(b@.len() == b.len());
    assert(s.skip(n - 1)[0] == b@[o + n - 1]);
    let top = b[o + k];
    let mut v: i64 = if top >= 0x80 {
        top as i64 - 256
    } else {
        top as i64
    };
    while k > 0
        invariant
            k < n <= 8,
            o + n <= b@.len(),
            b@.len() == b.len(),
            s == b@.subrange(o as int, o + n),
            v == le_signed(s.skip(k as int)),
        decreases k,
    {
        k -= 1;
        assert(s.skip(k as int).skip(1) =~= s.skip(k + 1));
        proof {
            le_signed_bound(s.skip(k as int));
            le_signed_bound(s.skip(k + 1));
            pow256_up_to((n - k - 1) as nat);
            pow256_up_to((n - k - 2) as nat);
            assert(pow256((n - k - 1) as nat) == 256 * pow256((n - k - 2) as nat));
        }
        v = v * 256 + b[o + k] as i64;
    }
    assert(s.skip(0) =~= s);
    v
}

/// The data runs that the mapping pairs from byte `i` on spell out, where the run before
/// them starts at cluster `lcn`. A pair is a byte with two lengths (of the cluster count,
/// low half, and of the offset, high half), the count, and the offset from the run before;
/// without an offset the run is sparse. A zero byte, a count of no bytes, a length above
/// eight and a pair that is cut off end the list.
pub open spec fn runs_from(rl: Seq<u8>, i: int, lcn: i64) -> Seq<(Option<i64>, u64)>
    decreases rl.len() - i,
{
    if i < 0 || i >= rl.len() || rl[i] == 0 {
        seq![]
    } else {
        let ln = (rl[i] % 16) as int;
        let lo = (rl[i] / 16) as int;
        let p = i + 1;
        if p + ln + lo > rl.len() || ln == 0 || ln > 8 || lo > 8 {
            seq![]
        } else {
            let count = le_value(rl.subrange(p, p + ln)) as u64;
            if lo == 0 {
                seq![(None::<i64>, count)] + runs_from(rl, p + ln, lcn)
            } else {
                let at = lcn.wrapping_add(le_signed(rl.subrange(p + ln, p + ln + lo)) as i64);
                seq![(Some(at), count)] + runs_from(rl, p + ln + lo, at)
            }
        }
    }
}

/// The data runs of a runlist: (cluster, or nothing where sparse; cluster count).
pub open spec fn data_runs(rl: Seq<u8>) -> Seq<(Option<i64>, u64)> {
    runs_from(rl, 0, 0)
}

/// Data runs: (LCN or None for sparse, cluster count).
pub fn ntfs_runs(rl: &[u8]) -> (r: Vec<(Option<i64>, u64)>)
    ensures
        r@ == data_runs(rl@),
{
    let mut out: Vec<(Option<i64>, u64)> = Vec::new();
    let mut i: usize = 0;
    let mut lcn: i64 = 0;
    assert(rl@.len() == rl.len());
    assert(out@ + data_runs(rl@) =~= data_runs(rl@));
    while i < rl.len() && rl[i] != 0
        invariant
            i <= rl@.len(),
            rl@.len() == rl.len(),
            out@ + runs_from(rl@, i as int, lcn) == data_runs(rl@),
        decreases rl@.len() - i,
    {
        let ghost before = out@;
        let ghost rest = runs_from(rl@, i as int, lcn);
        let ln = (rl[i] % 16) as usize;
        let lo = (rl[i] / 16) as usize;
        let p = i + 1;
        if ln + lo > rl.len() - p || ln == 0 || ln > 8 || lo > 8 {
            assert(out@ + rest =~= out@);
            return out;
        }
        let count = unsigned_at(rl, p, ln);
        if lo == 0 {
            out.push((None, count));
            i = p + ln;
        } else {
            let v = signed_at(rl, p + ln, lo);
            lcn = lcn.wrapping_add(v);
            out.push((Some(lcn), count));
            i = p + ln + lo;
        }
        assert(out@ + runs_from(rl@, i as int, lcn) =~= before + rest);
    }
    assert(out@ + runs_from(rl@, i as int, lcn) =~= out@);
    out
}

/// The lowest `n` bytes of `v` (two's complement), the lowest first.
pub open spec fn le_bytes(v: int, n: nat) -> Seq<u8>
    decreases n,
{
    if n == 0 {
        seq![]
    } else {
        seq![(v % 256) as u8] + le_bytes(v / 256, (n - 1) as nat)
    }
}

/// Whether `v` fits into `n` bytes as a signed number.
pub open spec fn fits_signed(v: int, n: nat) -> bool {
    n > 0 && -128 * pow256((n - 1) as nat) <= v < 128 * pow256((n - 1) as nat)
}

proof fn le_value_reads_back(v: int, n: nat)
    requires
        0 <= v < pow256(n),
    ensures
        le_bytes(v, n).len() == n,
        le_value(le_bytes(v, n)) == v,
    decreases n,
{
    if n > 0 {
        le_value_reads_back(v / 256, (n - 1) as nat);
        assert(le_bytes(v, n).skip(1) =~= le_bytes(v / 256, (n - 1) as nat));
    }
}

proof fn le_signed_reads_back(v: int, n: nat)
    requires
        fits_signed(v, n),
    ensures
        le_bytes(v, n).len() == n,
        le_signed(le_bytes(v, n)) == v,
    decreases n,
{
    let rest = le_bytes(v / 256, (n - 1) as nat);
    assert(le_bytes(v, n).skip(1) =~= rest);
    if n == 1 {
        assert(pow256(0) == 1);
        assert(rest.len() == 0);
        assert(v / 256 == if v < 0 {
            -1int
        } else {
            0int
        });
    } else {
        assert(pow256((n - 1) as nat) == 256 * pow256((n - 2) as nat));
        le_signed_reads_back(v / 256, (n - 1) as nat);
    }
}

/// The mapping pair of a run of `count` clusters, in `ln` bytes, that starts `delta` clusters
/// behind the run before, in `lo` bytes; with no bytes for the offset the run is sparse.
pub open spec fn mapping_pair(count: u64, ln: nat, delta: int, lo: nat) -> Seq<u8> {
    seq![(16 * lo + ln) as u8] + le_bytes(count as int, ln) + le_bytes(delta, lo)
}

/// The mapping pairs of the runs, where the run before them starts at cluster `lcn`. For each
/// run, `widths` gives the bytes that its count takes and those that its offset takes.
pub open spec fn runlist(runs: Seq<(Option<i64>, u64)>, widths: Seq<(nat, nat)>, lcn: i64) -> Seq<u8>
    decreases runs.len(),
{
    if runs.len() == 0 {
        seq![]
    } else {
        let (ln, lo) = widths[0];
        match runs[0].0 {
            None => mapping_pair(runs[0].1, ln, 0, 0) + runlist(runs.skip(1), widths.skip(1), lcn),
            Some(at) => mapping_pair(runs[0].1, ln, at - lcn, lo) + runlist(runs.skip(1), widths.skip(1), at),
        }
    }
}

/// Whether the runs can be written in these widths: each number fits, and none takes more than
/// eight bytes.
pub open spec fn fit(runs: Seq<(Option<i64>, u64)>, widths: Seq<(nat, nat)>, lcn: i64) -> bool
    decreases runs.len(),
{
    runs.len() == widths.len() && (runs.len() > 0 ==> {
        let (ln, lo) = widths[0];
        &&& 1 <= ln <= 8
        &&& runs[0].1 < pow256(ln)
        &&& match runs[0].0 {
            None => fit(runs.skip(1), widths.skip(1), lcn),
            Some(at) => lo <= 8 && fits_signed(at - lcn, lo) && fit(runs.skip(1), widths.skip(1), at),
        }
    })
}

proof fn pair_reads_back(rl: Seq<u8>, i: int, count: u64, ln: nat, delta: int, lo: nat)
    requires
        0 <= i,
        1 <= ln <= 8,
        lo <= 8,
        count < pow256(ln),
        lo > 0 ==> fits_signed(delta, lo),
        i + mapping_pair(count, ln, delta, lo).len() <= rl.len(),
        rl.subrange(i, i + mapping_pair(count, ln, delta, lo).len() as int) == mapping_pair(count, ln, delta, lo),
    ensures
        mapping_pair(count, ln, delta, lo).len() == 1 + ln + lo,
        rl[i] != 0,
        rl[i] % 16 == ln,
        rl[i] / 16 == lo,
        le_value(rl.subrange(i + 1, i + 1 + ln)) == count,
        lo > 0 ==> le_signed(rl.subrange(i + 1 + ln, i + 1 + ln + lo)) == delta,
{
    let pair = mapping_pair(count, ln, delta, lo);
    le_value_reads_back(count as int, ln);
    if lo > 0 {
        le_signed_reads_back(delta, lo);
    }
    let a = 1 + ln as int;
    let b = a + lo as int;
    let part = rl.subrange(i, i + pair.len() as int);
    assert(part[0] == rl[i]);
    assert(rl.subrange(i + 1, i + 1 + ln) =~= part.subrange(1, a));
    assert(pair.subrange(1, a) =~= le_bytes(count as int, ln));
    assert(rl.subrange(i + 1 + ln, i + 1 + ln + lo) =~= part.subrange(a, b));
    assert(pair.subrange(a, b) =~= le_bytes(delta, lo));
}

proof fn runs_read_back_from(rl: Seq<u8>, i: int, runs: Seq<(Option<i64>, u64)>, widths: Seq<(nat, nat)>, lcn: i64)
    requires
        fit(runs, widths, lcn),
        0 <= i,
        i + runlist(runs, widths, lcn).len() <= rl.len(),
        rl.subrange(i, i + runlist(runs, widths, lcn).len() as int) == runlist(runs, widths, lcn),
        i + runlist(runs, widths, lcn).len() == rl.len() || rl[i + runlist(runs, widths, lcn).len() as int] == 0,
    ensures
        runs_from(rl, i, lcn) == runs,
    decreases runs.len(),
{
    if runs.len() == 0 {
        assert(runs_from(rl, i, lcn) =~= runs);
    } else {
        let (ln, width) = widths[0];
        let (lo, delta, next) = match runs[0].0 {
            None => (0nat, 0int, lcn),
            Some(at) => (width, at - lcn, at),
        };
        let pair = mapping_pair(runs[0].1, ln, delta, lo);
        let rest = runlist(runs.skip(1), widths.skip(1), next);
        let all = runlist(runs, widths, lcn);
        assert(all == pair + rest);
        let part = rl.subrange(i, i + all.len() as int);
        assert(rl.subrange(i, i + pair.len() as int) =~= part.subrange(0, pair.len() as int));
        assert(part.subrange(0, pair.len() as int) =~= pair);
        pair_reads_back(rl, i, runs[0].1, ln, delta, lo);
        let j = i + pair.len() as int;
        assert(rl.subrange(j, j + rest.len() as int) =~= part.subrange(pair.len() as int, all.len() as int));
        assert(part.subrange(pair.len() as int, all.len() as int) =~= rest);
        runs_read_back_from(rl, j, runs.skip(1), widths.skip(1), next);
        if lo > 0 {
            pow256_up_to((lo - 1) as nat);
            assert(lcn.wrapping_add(delta as i64) == next);
        }
        assert(seq![runs[0]] + runs.skip(1) =~= runs);
    }
}

/// A runlist that is read back gives the runs that were written, in whatever widths they fit,
/// and whatever stands behind the zero byte that ends it.
pub proof fn runs_are_read_back(runs: Seq<(Option<i64>, u64)>, widths: Seq<(nat, nat)>, behind: Seq<u8>)
    requires
        fit(runs, widths, 0),
        behind.len() == 0 || behind[0] == 0,
    ensures
        data_runs(runlist(runs, widths, 0) + behind) == runs,
{
    let written = runlist(runs, widths, 0);
    let rl = written + behind;
    assert(rl.subrange(0, written.len() as int) =~= written);
    runs_read_back_from(rl, 0, runs, widths, 0);
}

/// A volume as its clusters see it: where it starts, and the bytes per cluster.
#[derive(Clone, Copy)]
pub struct Geometry {
    pub base: u64,
    pub cs: u64,
}

impl Geometry {
    /// The byte offset of cluster `l` in the source.
    pub open spec fn offset(self, l: i64) -> u64 {
        self.base.wrapping_add((l as u64).wrapping_mul(self.cs))
    }

    /// The bytes that `count` clusters take.
    pub open spec fn length(self, count: u64) -> u64 {
        count.wrapping_mul(self.cs)
    }

    /// The bytes of one run; nothing where it cannot be read.
    pub open spec fn run_bytes<S: Source + ?Sized>(self, src: &S, run: (Option<i64>, u64)) -> Seq<u8> {
        let n = (self.length(run.1) as usize) as nat;
        match run.0 {
            Some(l) => match src.at(self.offset(l), n) {
                Ok(b) => b,
                Err(_) => seq![],
            },
            None => zeros(n),
        }
    }

    /// The bytes of the runs, one after the other.
    pub open spec fn runs_bytes<S: Source + ?Sized>(self, src: &S, runs: Seq<(Option<i64>, u64)>) -> Seq<u8>
        decreases runs.len(),
    {
        if runs.len() == 0 {
            seq![]
        } else {
            self.runs_bytes(src, runs.drop_last()) + self.run_bytes(src, runs.last())
        }
    }

    /// The value of an attribute of `size` bytes in the given runs.
    pub open spec fn value<S: Source + ?Sized>(self, src: &S, runs: Seq<(Option<i64>, u64)>, size: u64) -> Seq<u8> {
        first_bytes(self.runs_bytes(src, runs), (size as usize) as nat)
    }

    /// The byte offset of cluster `l` in the source.
    pub fn lcn_off(&self, l: i64) -> (r: u64)
        ensures
            r == self.offset(l),
    {
        self.base.wrapping_add((l as u64).wrapping_mul(self.cs))
    }

    /// Read the clusters of a decoded runlist into a buffer of at most `size` bytes.
    pub fn read_runs<S: Source + ?Sized>(&self, src: &S, runs: &[(Option<i64>, u64)], size: u64) -> (r: Vec<u8>)
        ensures
            r@ == self.value(src, runs@, size),
    {
        let mut v: Vec<u8> = Vec::new();
        let mut i: usize = 0;
        while i < runs.len()
            invariant
                i <= runs@.len(),
                v@ == self.runs_bytes(src, runs@.take(i as int)),
            decreases runs@.len() - i,
        {
            assert(runs@.take(i + 1).drop_last() =~= runs@.take(i as int));
            let ghost before = v@;
            let (l, c) = runs[i];
            let n = c.wrapping_mul(self.cs) as usize;
            match l {
                Some(l) => {
                    match read(src, self.lcn_off(l), n) {
                        Ok(mut b) => {
                            v.append(&mut b);
                        },
                        Err(_) => {
                            assert(before + Seq::<u8>::empty() =~= before);
                        },
                    }
                },
                None => {
                    let mut b = zero_bytes(n);
                    v.append(&mut b);
                },
            }
            i += 1;
        }
        assert(runs@.take(i as int) =~= runs@);
        let ghost all = v@;
        if (size as usize) < v.len() {
            v.truncate(size as usize);
        }
        assert(v@ =~= first_bytes(all, (size as usize) as nat));
        v
    }
}

/// How many clusters the first `j` runs have.
pub open spec fn clusters_before(runs: Seq<(Option<i64>, u64)>, j: int) -> int
    decreases j,
{
    if j <= 0 {
        0
    } else {
        clusters_before(runs, j - 1) + runs[j - 1].1
    }
}

/// Whether the run can be held in memory and, where it is not sparse, lies inside a disk of `len`
/// bytes.
pub open spec fn run_on_disk(g: Geometry, run: (Option<i64>, u64), len: nat) -> bool {
    &&& run.1 * g.cs <= usize::MAX
    &&& run.0 matches Some(l) ==> 0 <= l && g.base + (l + run.1) * g.cs <= len
}

proof fn same_clusters_before(a: Seq<(Option<i64>, u64)>, b: Seq<(Option<i64>, u64)>, j: int)
    requires
        j <= a.len(),
        j <= b.len(),
        a.take(j) == b.take(j),
    ensures
        clusters_before(a, j) == clusters_before(b, j),
    decreases j,
{
    if j > 0 {
        assert(a.take(j)[j - 1] == b.take(j)[j - 1]);
        assert(a.take(j - 1) =~= a.take(j).take(j - 1));
        assert(b.take(j - 1) =~= b.take(j).take(j - 1));
        same_clusters_before(a, b, j - 1);
    }
}

proof fn run_bytes_stand_there<S: Source + ?Sized>(g: Geometry, src: &S, disk: Seq<u8>, run: (Option<i64>, u64))
    requires
        holds(src, disk),
        disk.len() <= u64::MAX,
        run_on_disk(g, run, disk.len()),
    ensures
        g.run_bytes(src, run).len() == run.1 * g.cs,
        forall|p: int|
            0 <= p < run.1 * g.cs ==> #[trigger] g.run_bytes(src, run)[p] == match run.0 {
                Some(l) => disk[g.base + l * g.cs + p],
                None => 0u8,
            },
{
    let n = run.1 * g.cs;
    assert(n >= 0) by (nonlinear_arith)
        requires
            n == run.1 * g.cs,
    ;
    assert(g.length(run.1) == n);
    if let Some(l) = run.0 {
        assert((l + run.1) * g.cs == l * g.cs + n) by (nonlinear_arith)
            requires
                n == run.1 * g.cs,
        ;
        assert(l * g.cs >= 0) by (nonlinear_arith)
            requires
                l >= 0,
        ;
        assert(g.offset(l) == g.base + l * g.cs);
        assert(src.at(g.offset(l), n as nat) == Ok::<Seq<u8>, Seq<char>>(disk.subrange(g.offset(l) as int, g.offset(l) + n)));
    }
}

proof fn runs_hold_their_bytes<S: Source + ?Sized>(g: Geometry, src: &S, disk: Seq<u8>, runs: Seq<(Option<i64>, u64)>, j: int, p: int)
    requires
        holds(src, disk),
        disk.len() <= u64::MAX,
        forall|i: int| 0 <= i < runs.len() ==> run_on_disk(g, #[trigger] runs[i], disk.len()),
        -1 <= j < runs.len(),
        0 <= p,
    ensures
        g.runs_bytes(src, runs).len() == clusters_before(runs, runs.len() as int) * g.cs,
        j >= 0 && p < runs[j].1 * g.cs ==> 0 <= clusters_before(runs, j) * g.cs + p < g.runs_bytes(src, runs).len()
            && g.runs_bytes(src, runs)[clusters_before(runs, j) * g.cs + p] == match runs[j].0 {
            Some(l) => disk[g.base + l * g.cs + p],
            None => 0u8,
        },
    decreases runs.len(),
{
    if runs.len() > 0 {
        let init = runs.drop_last();
        let last = runs.last();
        assert(runs[runs.len() - 1] == last);
        assert forall|i: int| 0 <= i < init.len() implies run_on_disk(g, #[trigger] init[i], disk.len()) by {
            assert(init[i] == runs[i]);
        }
        let i = if j < init.len() {
            j
        } else {
            -1
        };
        runs_hold_their_bytes(g, src, disk, init, i, p);
        run_bytes_stand_there(g, src, disk, last);
        assert(runs.take(init.len() as int) =~= init.take(init.len() as int));
        same_clusters_before(runs, init, init.len() as int);
        let a = clusters_before(init, init.len() as int);
        assert((a + last.1) * g.cs == a * g.cs + last.1 * g.cs) by (nonlinear_arith);
        if 0 <= j < init.len() {
            assert(runs.take(j) =~= init.take(j));
            same_clusters_before(runs, init, j);
            assert(init[j] == runs[j]);
        }
    } else {
        assert(0 * g.cs == 0);
    }
}

/// The value of an attribute stands in its runs: byte `p` of the `j`-th run is the byte of the
/// value behind those of the runs before it, and it is the byte that stands on the disk that far
/// into the run's clusters, or zero in a sparse run. The value ends at its size.
pub proof fn value_stands_in_its_runs<S: Source + ?Sized>(
    g: Geometry,
    src: &S,
    disk: Seq<u8>,
    runs: Seq<(Option<i64>, u64)>,
    size: u64,
    j: int,
    p: int,
)
    requires
        holds(src, disk),
        disk.len() <= u64::MAX,
        size <= usize::MAX,
        forall|i: int| 0 <= i < runs.len() ==> run_on_disk(g, #[trigger] runs[i], disk.len()),
        0 <= j < runs.len(),
        0 <= p < runs[j].1 * g.cs,
    ensures
        g.value(src, runs, size).len() == if clusters_before(runs, runs.len() as int) * g.cs < size {
            clusters_before(runs, runs.len() as int) * g.cs
        } else {
            size as int
        },
        clusters_before(runs, j) * g.cs + p < size ==> g.value(src, runs, size)[clusters_before(runs, j) * g.cs + p]
            == match runs[j].0 {
            Some(l) => disk[g.base + l * g.cs + p],
            None => 0u8,
        },
{
    runs_hold_their_bytes(g, src, disk, runs, j, p);
}

} // verus!
