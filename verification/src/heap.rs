//! The cluster heap of a FAT volume: cluster offsets, chains, and spans.

use crate::source::{holds, read, Source};
use std::collections::HashSet;
use vstd::prelude::*;
use vstd::set_lib::{lemma_int_range, lemma_len_subset, set_int_range};

verus! {

/// The numbers from 2 up to `n` that are not in `seen`.
pub open spec fn unseen(n: int, seen: Set<u32>) -> Set<int> {
    set_int_range(2, n).filter(|i: int| !seen.contains(i as u32))
}

/// Seeing a number leaves fewer unseen.
pub proof fn visit_shrinks(n: int, seen: Set<u32>, c: u32)
    requires
        2 <= c < n,
        !seen.contains(c),
    ensures
        unseen(n, seen.insert(c)).len() < unseen(n, seen).len(),
{
    lemma_int_range(2, n);
    set_int_range(2, n).lemma_len_filter(|i: int| !seen.contains(i as u32));
    assert(unseen(n, seen).contains(c as int));
    assert(unseen(n, seen.insert(c)).subset_of(unseen(n, seen).remove(c as int)));
    lemma_len_subset(unseen(n, seen.insert(c)), unseen(n, seen).remove(c as int));
}

/// Seeing a number outside the range leaves the unseen ones as they are, or fewer.
pub proof fn visit_keeps(n: int, seen: Set<u32>, c: u32)
    ensures
        unseen(n, seen.insert(c)).len() <= unseen(n, seen).len(),
{
    if n >= 2 {
        lemma_int_range(2, n);
    } else {
        assert(set_int_range(2, n) =~= Set::<int>::empty());
    }
    set_int_range(2, n).lemma_len_filter(|i: int| !seen.contains(i as u32));
    assert(unseen(n, seen.insert(c)).subset_of(unseen(n, seen)));
    lemma_len_subset(unseen(n, seen.insert(c)), unseen(n, seen));
}

/// The clusters of a volume, numbered from 2 on, and the table that links them.
pub struct ClusterHeap {
    pub fat: Vec<u32>,
    /// The cluster number behind the last cluster.
    pub limit: u64,
    /// The bits of a table entry that hold a cluster number.
    pub mask: u32,
    /// The smallest entry that ends a chain.
    pub last: u32,
    /// The byte offset of cluster 2 in the source.
    pub start: u64,
    /// Bytes per cluster.
    pub cs: u64,
}

/// The view of `ClusterHeap`.
pub struct ClusterHeapView {
    pub fat: Seq<u32>,
    pub limit: u64,
    pub mask: u32,
    pub last: u32,
    pub start: u64,
    pub cs: u64,
}

impl View for ClusterHeap {
    type V = ClusterHeapView;

    open spec fn view(&self) -> ClusterHeapView {
        ClusterHeapView {
            fat: self.fat@,
            limit: self.limit,
            mask: self.mask,
            last: self.last,
            start: self.start,
            cs: self.cs,
        }
    }
}

impl ClusterHeapView {
    /// The cluster number behind the last one that has a table entry.
    pub open spec fn bound(self) -> int {
        if self.limit < self.fat.len() {
            self.limit as int
        } else {
            self.fat.len() as int
        }
    }

    /// Whether `c` is the number of a cluster.
    pub open spec fn valid(self, c: int) -> bool {
        2 <= c < self.bound()
    }

    /// The byte offset of cluster `c` in the source.
    pub open spec fn offset(self, c: int) -> u64 {
        self.start.wrapping_add(((c - 2) as u64).wrapping_mul(self.cs))
    }

    /// What the table says follows cluster `c`.
    pub open spec fn next(self, c: u32) -> u32 {
        self.fat[c as int] & self.mask
    }

    /// The clusters linked from `c` on, up to the end of the chain, to a number that is no
    /// cluster's, or to a cluster in `seen` or already in the chain.
    pub open spec fn chain_from(self, c: u32, seen: Set<u32>) -> Seq<u32>
        decreases unseen(self.bound(), seen).len(),
        via Self::chain_shrinks
    {
        if !self.valid(c as int) || seen.contains(c) {
            seq![]
        } else if self.next(c) >= self.last {
            seq![c]
        } else {
            seq![c] + self.chain_from(self.next(c), seen.insert(c))
        }
    }

    #[via_fn]
    proof fn chain_shrinks(self, c: u32, seen: Set<u32>) {
        if self.valid(c as int) && !seen.contains(c) {
            visit_shrinks(self.bound(), seen, c);
        }
    }

    /// The live chain that starts at `c`.
    pub open spec fn chain(self, c: u32) -> Seq<u32> {
        self.chain_from(c, Set::empty())
    }

    /// The clusters from `lo` up to `hi`, as far as there are any.
    pub open spec fn span(self, lo: u32, hi: u32) -> Seq<u32> {
        let end = if (hi as int) < self.bound() {
            hi as int
        } else {
            self.bound()
        };
        Seq::new(
            if lo < end {
                (end - lo) as nat
            } else {
                0
            },
            |i: int| (lo + i) as u32,
        )
    }

    /// The bytes of the clusters in `cl`, one after the other; an unreadable one is left out.
    pub open spec fn bytes_of<S: Source + ?Sized>(self, src: &S, cl: Seq<u32>) -> Seq<u8>
        decreases cl.len(),
    {
        if cl.len() == 0 {
            seq![]
        } else {
            self.bytes_of(src, cl.drop_last()) + match src.at(
                self.offset(cl.last() as int),
                (self.cs as usize) as nat,
            ) {
                Ok(b) => b,
                Err(_) => seq![],
            }
        }
    }

    /// A chain starts at the cluster that is asked for, where there is one; each entry of the
    /// table leads on to the next cluster, and the chain stops only at an end mark, at a number
    /// that is no cluster's, or where it would come back to itself.
    pub proof fn chain_follows_the_table(self, c: u32)
        ensures
            2 <= c < self.limit && c < self.fat.len() <==> self.chain(c).len() > 0,
            self.chain(c).len() > 0 ==> self.chain(c)[0] == c,
            forall|i: int|
                0 <= i < self.chain(c).len() - 1 ==> self.fat[(#[trigger] self.chain(c)[i]) as int] & self.mask == self.chain(
                    c,
                )[i + 1] && self.fat[self.chain(c)[i] as int] & self.mask < self.last,
            self.chain(c).len() > 0 ==> {
                let n = self.fat[self.chain(c).last() as int] & self.mask;
                n >= self.last || n < 2 || n >= self.limit || n >= self.fat.len() || self.chain(c).contains(n)
            },
    {
        self.chain_goes_on(c, Set::empty());
    }

    proof fn chain_goes_on(self, c: u32, seen: Set<u32>)
        ensures
            self.valid(c as int) && !seen.contains(c) <==> self.chain_from(c, seen).len() > 0,
            self.chain_from(c, seen).len() > 0 ==> self.chain_from(c, seen)[0] == c,
            forall|i: int|
                0 <= i < self.chain_from(c, seen).len() - 1 ==> self.fat[(#[trigger] self.chain_from(c, seen)[i]) as int]
                    & self.mask == self.chain_from(c, seen)[i + 1] && self.fat[self.chain_from(c, seen)[i] as int] & self.mask
                    < self.last,
            self.chain_from(c, seen).len() > 0 ==> {
                let n = self.fat[self.chain_from(c, seen).last() as int] & self.mask;
                n >= self.last || !self.valid(n as int) || seen.contains(n) || self.chain_from(c, seen).contains(n)
            },
        decreases unseen(self.bound(), seen).len(),
    {
        let all = self.chain_from(c, seen);
        if self.valid(c as int) && !seen.contains(c) {
            if self.next(c) >= self.last {
                assert(all =~= seq![c]);
            } else {
                visit_shrinks(self.bound(), seen, c);
                let rest = self.chain_from(self.next(c), seen.insert(c));
                self.chain_goes_on(self.next(c), seen.insert(c));
                assert(all =~= seq![c] + rest);
                assert forall|i: int| 0 <= i < all.len() - 1 implies self.fat[(#[trigger] all[i]) as int] & self.mask == all[i + 1]
                    && self.fat[all[i] as int] & self.mask < self.last by {
                    if i > 0 {
                        assert(all[i] == rest[i - 1]);
                        assert(all[i + 1] == rest[i]);
                    }
                }
                assert(all[0] == c);
                if rest.len() > 0 {
                    assert(all.last() == rest.last());
                    let n = self.fat[rest.last() as int] & self.mask;
                    if rest.contains(n) {
                        let k = choose|k: int| 0 <= k < rest.len() && rest[k] == n;
                        assert(all[k + 1] == n);
                    }
                } else {
                    assert(all.last() == c);
                }
            }
        }
    }

    /// Clusters stand one behind the other from the start of the heap on, the first of them
    /// under the number 2.
    pub proof fn clusters_stand_in_a_row(self, c: u32)
        requires
            c >= 2,
            self.start + (c - 2) * self.cs <= u64::MAX,
        ensures
            self.offset(c as int) == self.start + (c - 2) * self.cs,
    {
        let k = c - 2;
        let cs = self.cs;
        assert(0 <= k * cs) by (nonlinear_arith)
            requires
                k >= 0,
                cs >= 0,
        ;
    }

    /// A span is made of consecutive clusters, as many as are asked for and exist.
    pub proof fn span_is_consecutive(self, lo: u32, hi: u32, x: u32)
        requires
            lo >= 2,
        ensures
            self.span(lo, hi).contains(x) <==> lo <= x < hi && x < self.limit && x < self.fat.len(),
            forall|i: int| 0 <= i < self.span(lo, hi).len() ==> #[trigger] self.span(lo, hi)[i] == lo + i,
    {
        let s = self.span(lo, hi);
        if lo <= x < hi && x < self.limit && x < self.fat.len() {
            assert(s[x - lo] == x);
        }
        if s.contains(x) {
            let i = choose|i: int| 0 <= i < s.len() && s[i] == x;
        }
    }

    /// The bytes of clusters are those that stand on the disk in each, one cluster after the
    /// other, each of its full length.
    pub proof fn clusters_hold_their_bytes<S: Source + ?Sized>(self, src: &S, disk: Seq<u8>, cl: Seq<u32>)
        requires
            holds(src, disk),
            self.cs <= usize::MAX,
            forall|i: int| 0 <= i < cl.len() ==> self.offset((#[trigger] cl[i]) as int) + self.cs <= disk.len(),
        ensures
            self.bytes_of(src, cl).len() == cl.len() * self.cs,
            forall|i: int, j: int|
                #![trigger self.bytes_of(src, cl)[i * self.cs + j]]
                0 <= i < cl.len() && 0 <= j < self.cs ==> self.bytes_of(src, cl)[i * self.cs + j] == disk[self.offset(
                    cl[i] as int,
                ) + j],
        decreases cl.len(),
    {
        let cs = self.cs as int;
        let all = self.bytes_of(src, cl);
        if cl.len() == 0 {
            assert(0 * cs == 0);
        } else {
            let init = cl.drop_last();
            let k = init.len() as int;
            assert forall|i: int| 0 <= i < init.len() implies self.offset((#[trigger] init[i]) as int) + self.cs <= disk.len() by {
                assert(init[i] == cl[i]);
            }
            self.clusters_hold_their_bytes(src, disk, init);
            assert(cl[k] == cl.last());
            let o = self.offset(cl.last() as int);
            let here = disk.subrange(o as int, o + cs);
            assert(src.at(o, cs as nat) == Ok::<Seq<u8>, Seq<char>>(here));
            let before = self.bytes_of(src, init);
            assert(all == before + here);
            assert((k + 1) * cs == k * cs + cs) by (nonlinear_arith);
            assert forall|i: int, j: int| #![trigger all[i * self.cs + j]] 0 <= i < cl.len() && 0 <= j < self.cs implies all[i
                * self.cs + j] == disk[self.offset(cl[i] as int) + j] by {
                if i < k {
                    assert(0 <= i * cs && i * cs + j < k * cs) by (nonlinear_arith)
                        requires
                            0 <= i < k,
                            0 <= j < cs,
                    ;
                    assert(before[i * self.cs + j] == disk[self.offset(init[i] as int) + j]);
                    assert(init[i] == cl[i]);
                } else {
                    assert(all[k * cs + j] == here[j]);
                }
            }
        }
    }

    /// A chain holds clusters only, each at most once, and none that was seen before.
    pub proof fn chain_is_simple(self, c: u32, seen: Set<u32>)
        ensures
            forall|i: int|
                0 <= i < self.chain_from(c, seen).len() ==> {
                    let x = #[trigger] self.chain_from(c, seen)[i];
                    self.valid(x as int) && !seen.contains(x)
                },
            self.chain_from(c, seen).no_duplicates(),
        decreases unseen(self.bound(), seen).len(),
    {
        if self.valid(c as int) && !seen.contains(c) && self.next(c) < self.last {
            visit_shrinks(self.bound(), seen, c);
            let rest = self.chain_from(self.next(c), seen.insert(c));
            self.chain_is_simple(self.next(c), seen.insert(c));
            let all = self.chain_from(c, seen);
            assert(all =~= seq![c] + rest);
            assert forall|i: int| 0 <= i < all.len() implies self.valid((#[trigger] all[i]) as int) && !seen.contains(
                all[i],
            ) by {
                if i > 0 {
                    assert(all[i] == rest[i - 1]);
                }
            }
            assert forall|i: int, j: int| 0 <= i < j < all.len() implies all[i] != all[j] by {
                assert(all[j] == rest[j - 1]);
                if i > 0 {
                    assert(all[i] == rest[i - 1]);
                }
            }
        }
    }
}

impl ClusterHeap {
    /// The byte offset of cluster `c` in the source.
    pub fn cluster_off(&self, c: u32) -> (r: u64)
        requires
            c >= 2,
        ensures
            r == self@.offset(c as int),
    {
        self.start.wrapping_add((c as u64 - 2).wrapping_mul(self.cs))
    }

    /// Whether `c` is the number of a cluster.
    pub fn valid(&self, c: u32) -> (r: bool)
        ensures
            r == self@.valid(c as int),
    {
        c >= 2 && (c as u64) < self.limit && (c as usize) < self.fat.len()
    }

    /// Live chain from `c` (bounded against loops).
    pub fn chain(&self, first: u32) -> (r: Vec<u32>)
        ensures
            r@ == self@.chain(first),
            forall|i: int| 0 <= i < r@.len() ==> self@.valid((#[trigger] r@[i]) as int),
    {
        let mut c = first;
        let mut v: Vec<u32> = Vec::new();
        let mut seen: HashSet<u32> = HashSet::new();
        assert(v@ + self@.chain_from(c, Set::empty()) =~= self@.chain(first));
        while self.valid(c)
            invariant
                v@ + self@.chain_from(c, seen@) == self@.chain(first),
                forall|i: int| 0 <= i < v@.len() ==> self@.valid((#[trigger] v@[i]) as int),
            decreases unseen(self@.bound(), seen@).len(),
        {
            let ghost before = seen@;
            let ghost prefix = v@;
            if !seen.insert(c) {
                assert(v@ =~= self@.chain(first));
                return v;
            }
            proof {
                visit_shrinks(self@.bound(), before, c);
            }
            v.push(c);
            let next = self.fat[c as usize] & self.mask;
            if next >= self.last {
                assert(v@ =~= prefix + self@.chain_from(c, before));
                return v;
            }
            assert(v@ + self@.chain_from(next, seen@) =~= prefix + self@.chain_from(c, before));
            c = next;
        }
        assert(v@ =~= self@.chain(first));
        v
    }

    /// The clusters from `lo` up to `hi`, as far as there are any.
    pub fn span(&self, lo: u32, hi: u32) -> (r: Vec<u32>)
        requires
            lo >= 2,
        ensures
            r@ == self@.span(lo, hi),
            forall|i: int| 0 <= i < r@.len() ==> self@.valid((#[trigger] r@[i]) as int),
    {
        let mut v: Vec<u32> = Vec::new();
        let mut c = lo;
        while c < hi && self.valid(c)
            invariant
                2 <= lo <= c,
                lo == c || c <= hi,
                lo == c || c <= self@.bound(),
                v@.len() == c - lo,
                forall|i: int| 0 <= i < v@.len() ==> #[trigger] v@[i] == lo + i,
            decreases hi - c,
        {
            v.push(c);
            c += 1;
        }
        assert(v@ =~= self@.span(lo, hi));
        v
    }

    /// The bytes of the clusters in `cl`; an unreadable one is left out.
    pub fn read_clusters<S: Source + ?Sized>(&self, src: &S, cl: &[u32]) -> (r: Vec<u8>)
        requires
            forall|i: int| 0 <= i < cl@.len() ==> #[trigger] cl@[i] >= 2,
        ensures
            r@ == self@.bytes_of(src, cl@),
    {
        let mut out: Vec<u8> = Vec::new();
        let mut i: usize = 0;
        while i < cl.len()
            invariant
                i <= cl@.len(),
                out@ == self@.bytes_of(src, cl@.take(i as int)),
                forall|i: int| 0 <= i < cl@.len() ==> #[trigger] cl@[i] >= 2,
            decreases cl@.len() - i,
        {
            assert(cl@.take(i + 1).drop_last() =~= cl@.take(i as int));
            let ghost before = out@;
            match read(src, self.cluster_off(cl[i]), self.cs as usize) {
                Ok(mut b) => {
                    out.append(&mut b);
                },
                Err(_) => {
                    assert(before + Seq::<u8>::empty() =~= before);
                },
            }
            i += 1;
        }
        assert(cl@.take(i as int) =~= cl@);
        out
    }
}

} // verus!
