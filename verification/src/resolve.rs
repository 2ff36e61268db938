//! Attribute values that are spread over several MFT records.

use crate::mft::{attr_list_entries, list_entries, AttrRef, NtfsAttr, NtfsAttrView, NtfsRecord, NtfsRecordView};
use crate::model::{views, views_push};
use crate::order::{ascending, ascending_lists_are_the_same, spot, spot_splits};
use crate::runs::{data_runs, ntfs_runs, Geometry};
use crate::source::Source;
use std::collections::HashMap;
use vstd::prelude::*;

verus! {

/// The views of the records of a table.
pub open spec fn record_views(recs: Map<u64, NtfsRecord>) -> Map<u64, NtfsRecordView> {
    recs.map_values(|r: NtfsRecord| r@)
}

/// The list entries that attribute `a` holds, if it is an `$ATTRIBUTE_LIST`.
pub open spec fn entries_in<S: Source + ?Sized>(src: &S, g: Geometry, a: NtfsAttrView) -> Seq<AttrRef> {
    if a.type_ != 0x20 {
        seq![]
    } else {
        match a.resident {
            Some(b) => list_entries(b, 0),
            None => match a.runs {
                Some(raw) => list_entries(g.value(src, data_runs(raw), a.size), 0),
                None => seq![],
            },
        }
    }
}

/// The list entries that the attributes hold.
pub open spec fn entries_among<S: Source + ?Sized>(src: &S, g: Geometry, attrs: Seq<NtfsAttrView>) -> Seq<AttrRef>
    decreases attrs.len(),
{
    if attrs.len() == 0 {
        seq![]
    } else {
        entries_among(src, g, attrs.drop_last()) + entries_in(src, g, attrs.last())
    }
}

/// The attribute list of record `i`.
pub open spec fn attribute_list<S: Source + ?Sized>(
    recs: Map<u64, NtfsRecordView>,
    i: u64,
    src: &S,
    g: Geometry,
) -> Seq<AttrRef> {
    if recs.contains_key(i) {
        entries_among(src, g, recs[i].attrs)
    } else {
        seq![]
    }
}

/// `$ATTRIBUTE_LIST` entries of a record, reading the list from disk when it is
/// itself non-resident.
pub fn record_attr_list<S: Source + ?Sized>(recs: &HashMap<u64, NtfsRecord>, i: u64, src: &S, g: Geometry) -> (r: Vec<
    AttrRef,
>)
    ensures
        r@ == attribute_list(record_views(recs@), i, src, g),
{
    let mut v: Vec<AttrRef> = Vec::new();
    if let Some(r) = recs.get(&i) {
        let ghost all = r@.attrs;
        let mut k: usize = 0;
        while k < r.attrs.len()
            invariant
                k <= r.attrs@.len(),
                all == views(r.attrs@),
                v@ == entries_among(src, g, all.take(k as int)),
            decreases r.attrs@.len() - k,
        {
            assert(all.take(k + 1).drop_last() =~= all.take(k as int));
            let ghost before = v@;
            let a = &r.attrs[k];
            assert(all.take(k + 1).last() == a@);
            if a.type_ == 0x20 {
                if let Some(b) = &a.resident {
                    let mut e = attr_list_entries(b);
                    v.append(&mut e);
                } else if let Some(raw) = &a.runs {
                    let runs = ntfs_runs(raw);
                    let bytes = g.read_runs(src, &runs, a.size);
                    let mut e = attr_list_entries(&bytes);
                    v.append(&mut e);
                }
            }
            assert(v@ =~= before + entries_in(src, g, a@));
            k += 1;
        }
        assert(all.take(k as int) =~= all);
    }
    v
}

/// A resolved attribute value: resident bytes, or a runlist plus its real size.
#[derive(Debug)]
pub enum Resolved {
    Resident(Vec<u8>),
    Runs(Vec<(Option<i64>, u64)>, u64),
}

/// The view of `Resolved`.
pub enum ResolvedView {
    Resident(Seq<u8>),
    Runs(Seq<(Option<i64>, u64)>, u64),
}

impl View for Resolved {
    type V = ResolvedView;

    open spec fn view(&self) -> ResolvedView {
        match self {
            Resolved::Resident(b) => ResolvedView::Resident(b@),
            Resolved::Runs(r, n) => ResolvedView::Runs(r@, *n),
        }
    }
}

/// Whether an attribute of type `type_`, named or not, is one of those looked for.
pub open spec fn wanted(type_: u32, named: bool, t: u32, unnamed: bool) -> bool {
    type_ == t && (!unnamed || !named)
}

/// Those looked for among the attributes.
pub open spec fn matching(attrs: Seq<NtfsAttrView>, t: u32, unnamed: bool) -> Seq<NtfsAttrView>
    decreases attrs.len(),
{
    if attrs.len() == 0 {
        seq![]
    } else {
        let before = matching(attrs.drop_last(), t, unnamed);
        let a = attrs.last();
        if wanted(a.type_, a.named, t, unnamed) {
            before.push(a)
        } else {
            before
        }
    }
}

/// Those looked for in record `i`.
pub open spec fn segments_of(recs: Map<u64, NtfsRecordView>, i: u64, t: u32, unnamed: bool) -> Seq<NtfsAttrView> {
    if recs.contains_key(i) {
        matching(recs[i].attrs, t, unnamed)
    } else {
        seq![]
    }
}

/// Those looked for in the records that the attribute list names.
pub open spec fn listed_segments(recs: Map<u64, NtfsRecordView>, list: Seq<AttrRef>, t: u32, unnamed: bool) -> Seq<
    NtfsAttrView,
>
    decreases list.len(),
{
    if list.len() == 0 {
        seq![]
    } else {
        let e = list.last();
        listed_segments(recs, list.drop_last(), t, unnamed) + if wanted(e.type_, e.named, t, unnamed) {
            segments_of(recs, e.record, t, unnamed)
        } else {
            seq![]
        }
    }
}

/// The extents of an attribute, as they are found: in the base record, then in the others.
pub open spec fn segments(recs: Map<u64, NtfsRecordView>, list: Seq<AttrRef>, base: u64, t: u32, unnamed: bool) -> Seq<
    NtfsAttrView,
> {
    segments_of(recs, base, t, unnamed) + listed_segments(recs, list, t, unnamed)
}

/// The first resident value among the extents.
pub open spec fn first_resident(segs: Seq<NtfsAttrView>) -> Option<Seq<u8>>
    decreases segs.len(),
{
    if segs.len() == 0 {
        None
    } else if segs[0].resident is Some {
        segs[0].resident
    } else {
        first_resident(segs.skip(1))
    }
}

/// The first cluster numbers of the extents.
pub open spec fn vcns(segs: Seq<NtfsAttrView>) -> Seq<u64> {
    segs.map_values(|a: NtfsAttrView| a.vcn)
}

/// `segs` with the extent `a` in its place, unless there is one that starts where it does.
pub open spec fn with_segment(segs: Seq<NtfsAttrView>, a: NtfsAttrView) -> Seq<NtfsAttrView> {
    let p = spot(vcns(segs), a.vcn);
    if p < segs.len() && segs[p].vcn == a.vcn {
        segs
    } else {
        segs.insert(p, a)
    }
}

/// The extents in the order of their clusters, the first found of each.
pub open spec fn in_order(segs: Seq<NtfsAttrView>) -> Seq<NtfsAttrView>
    decreases segs.len(),
{
    if segs.len() == 0 {
        seq![]
    } else {
        with_segment(in_order(segs.drop_last()), segs.last())
    }
}

/// Whether `a` is the first of `segs` that starts where it does.
pub open spec fn first_of_its_vcn(segs: Seq<NtfsAttrView>, a: NtfsAttrView) -> bool {
    exists|i: int|
        0 <= i < segs.len() && #[trigger] segs[i] == a && forall|k: int| 0 <= k < i ==> (#[trigger] segs[k]).vcn != a.vcn
}

/// Ordering extents gives them by ascending cluster, each place once, with the extent that
/// was found first there, and leaves no place out.
pub proof fn extents_come_in_order(segs: Seq<NtfsAttrView>)
    ensures
        ascending(vcns(in_order(segs))),
        forall|j: int| 0 <= j < in_order(segs).len() ==> first_of_its_vcn(segs, #[trigger] in_order(segs)[j]),
        forall|i: int| 0 <= i < segs.len() ==> vcns(in_order(segs)).contains((#[trigger] segs[i]).vcn),
    decreases segs.len(),
{
    if segs.len() > 0 {
        let init = segs.drop_last();
        let a = segs.last();
        let s = in_order(init);
        let out = in_order(segs);
        extents_come_in_order(init);
        spot_splits(vcns(s), a.vcn);
        let p = spot(vcns(s), a.vcn);
        assert forall|x: NtfsAttrView| first_of_its_vcn(init, x) implies #[trigger] first_of_its_vcn(segs, x) by {
            let i = choose|i: int|
                0 <= i < init.len() && #[trigger] init[i] == x && forall|k: int|
                    0 <= k < i ==> (#[trigger] init[k]).vcn != x.vcn;
            assert(segs[i] == x);
            assert forall|k: int| 0 <= k < i implies (#[trigger] segs[k]).vcn != x.vcn by {
                assert(init[k] == segs[k]);
            }
        }
        if p < s.len() && s[p].vcn == a.vcn {
            assert(vcns(s)[p] == a.vcn);
            assert forall|i: int| 0 <= i < segs.len() implies vcns(out).contains((#[trigger] segs[i]).vcn) by {
                if i < init.len() {
                    assert(init[i] == segs[i]);
                }
            }
        } else {
            assert(out == s.insert(p, a));
            assert(vcns(out) =~= vcns(s).insert(p, a.vcn));
            let v = vcns(out);
            assert forall|i: int, j: int| 0 <= i < j < v.len() implies v[i] < v[j] by {
                let w = vcns(s);
                if j == p {
                    assert(w[i] < a.vcn);
                } else if i == p {
                    assert(w[j - 1] >= a.vcn);
                    if w[j - 1] == a.vcn && j - 1 > p {
                        assert(w[p] < w[j - 1]);
                        assert(w[p] >= a.vcn);
                    }
                } else if i < p && j < p {
                    assert(w[i] < w[j]);
                } else if i < p {
                    assert(w[i] < w[j - 1]);
                } else {
                    assert(w[i - 1] < w[j - 1]);
                }
            }
            assert(first_of_its_vcn(segs, a)) by {
                let n = init.len() as int;
                assert(segs[n] == a);
                assert forall|k: int| 0 <= k < n implies (#[trigger] segs[k]).vcn != a.vcn by {
                    assert(init[k] == segs[k]);
                    assert(vcns(s).contains(init[k].vcn));
                    let m = choose|m: int| 0 <= m < vcns(s).len() && vcns(s)[m] == init[k].vcn;
                    if init[k].vcn == a.vcn {
                        if m < p {
                            assert(vcns(s)[m] < a.vcn);
                        } else if m > p {
                            assert(vcns(s)[p] < vcns(s)[m]);
                            assert(vcns(s)[p] >= a.vcn);
                        } else {
                            assert(s[p].vcn == a.vcn);
                        }
                    }
                }
            }
            assert forall|j: int| 0 <= j < out.len() implies first_of_its_vcn(segs, #[trigger] out[j]) by {
                if j < p {
                    assert(out[j] == s[j]);
                } else if j > p {
                    assert(out[j] == s[j - 1]);
                }
            }
            assert forall|i: int| 0 <= i < segs.len() implies v.contains((#[trigger] segs[i]).vcn) by {
                if i < init.len() {
                    assert(init[i] == segs[i]);
                    let m = choose|m: int| 0 <= m < vcns(s).len() && vcns(s)[m] == init[i].vcn;
                    if m < p {
                        assert(v[m] == segs[i].vcn);
                    } else {
                        assert(v[m + 1] == segs[i].vcn);
                    }
                } else {
                    assert(v[p] == a.vcn);
                }
            }
        }
    }
}

/// The runs of the extents, one after the other. Each runlist is decoded on its own.
pub open spec fn all_runs(segs: Seq<NtfsAttrView>) -> Seq<(Option<i64>, u64)>
    decreases segs.len(),
{
    if segs.len() == 0 {
        seq![]
    } else {
        all_runs(segs.drop_last()) + match segs.last().runs {
            Some(r) => data_runs(r),
            None => seq![],
        }
    }
}

/// The largest size among the extents.
pub open spec fn largest_size(segs: Seq<NtfsAttrView>) -> u64
    decreases segs.len(),
{
    if segs.len() == 0 {
        0
    } else {
        let before = largest_size(segs.drop_last());
        if segs.last().size > before {
            segs.last().size
        } else {
            before
        }
    }
}

/// The size of the value in the ordered extents: that of the first extent; where it gives
/// none, the largest.
pub open spec fn value_size(segs: Seq<NtfsAttrView>) -> u64 {
    if segs.len() > 0 && segs[0].vcn == 0 && segs[0].size > 0 {
        segs[0].size
    } else {
        largest_size(segs)
    }
}

/// The value of the attribute of type `t` of record `base`.
pub open spec fn resolved(recs: Map<u64, NtfsRecordView>, list: Seq<AttrRef>, base: u64, t: u32, unnamed: bool) -> Option<
    ResolvedView,
> {
    let segs = segments(recs, list, base, t, unnamed);
    if segs.len() == 0 {
        None
    } else {
        match first_resident(segs) {
            Some(b) => Some(ResolvedView::Resident(b)),
            None => Some(ResolvedView::Runs(all_runs(in_order(segs)), value_size(in_order(segs)))),
        }
    }
}

/// The first of the extents that start at cluster `v`.
pub open spec fn extent_at(segs: Seq<NtfsAttrView>, v: u64) -> Option<NtfsAttrView>
    decreases segs.len(),
{
    if segs.len() == 0 {
        None
    } else {
        match extent_at(segs.drop_last(), v) {
            Some(a) => Some(a),
            None => if segs.last().vcn == v {
                Some(segs.last())
            } else {
                None
            },
        }
    }
}

proof fn extent_at_adds(a: Seq<NtfsAttrView>, b: Seq<NtfsAttrView>, v: u64)
    ensures
        extent_at(a + b, v) == match extent_at(a, v) {
            Some(x) => Some(x),
            None => extent_at(b, v),
        },
    decreases b.len(),
{
    if b.len() == 0 {
        assert(a + b =~= a);
    } else {
        assert((a + b).drop_last() =~= a + b.drop_last());
        extent_at_adds(a, b.drop_last(), v);
    }
}

proof fn extent_at_finds(segs: Seq<NtfsAttrView>, v: u64)
    ensures
        extent_at(segs, v) is Some <==> vcns(segs).contains(v),
        extent_at(segs, v) matches Some(a) ==> a.vcn == v,
    decreases segs.len(),
{
    if segs.len() > 0 {
        let init = segs.drop_last();
        extent_at_finds(init, v);
        assert(vcns(segs)[segs.len() - 1] == segs.last().vcn);
        if vcns(init).contains(v) {
            let i = choose|i: int| 0 <= i < vcns(init).len() && vcns(init)[i] == v;
            assert(vcns(segs)[i] == v);
        }
        if vcns(segs).contains(v) {
            let i = choose|i: int| 0 <= i < vcns(segs).len() && vcns(segs)[i] == v;
            if i < init.len() {
                assert(vcns(init)[i] == v);
            }
        }
    }
}

proof fn first_is_the_extent_there(segs: Seq<NtfsAttrView>, a: NtfsAttrView)
    requires
        first_of_its_vcn(segs, a),
    ensures
        extent_at(segs, a.vcn) == Some(a),
    decreases segs.len(),
{
    let i = choose|i: int|
        0 <= i < segs.len() && #[trigger] segs[i] == a && forall|k: int| 0 <= k < i ==> (#[trigger] segs[k]).vcn != a.vcn;
    let init = segs.drop_last();
    if i < init.len() {
        assert(init[i] == a);
        assert forall|k: int| 0 <= k < i implies (#[trigger] init[k]).vcn != a.vcn by {
            assert(init[k] == segs[k]);
        }
        first_is_the_extent_there(init, a);
    } else {
        extent_at_finds(init, a.vcn);
        if vcns(init).contains(a.vcn) {
            let k = choose|k: int| 0 <= k < vcns(init).len() && vcns(init)[k] == a.vcn;
            assert(segs[k].vcn == a.vcn);
        }
    }
}

proof fn same_extents_same_order(a: Seq<NtfsAttrView>, b: Seq<NtfsAttrView>)
    requires
        forall|v: u64| #[trigger] extent_at(a, v) == extent_at(b, v),
    ensures
        in_order(a) == in_order(b),
{
    let x = in_order(a);
    let y = in_order(b);
    extents_come_in_order(a);
    extents_come_in_order(b);
    assert forall|v: u64| vcns(x).contains(v) <==> vcns(y).contains(v) by {
        assert(extent_at(a, v) == extent_at(b, v));
        order_keeps_the_clusters(a, v);
        order_keeps_the_clusters(b, v);
    }
    ascending_lists_are_the_same(vcns(x), vcns(y));
    assert(x.len() == vcns(x).len() && y.len() == vcns(y).len());
    assert forall|j: int| 0 <= j < x.len() implies x[j] == y[j] by {
        assert(vcns(x)[j] == x[j].vcn && vcns(y)[j] == y[j].vcn);
        first_is_the_extent_there(a, x[j]);
        first_is_the_extent_there(b, y[j]);
        assert(extent_at(a, x[j].vcn) == extent_at(b, x[j].vcn));
    }
    assert(x =~= y);
}

proof fn order_keeps_the_clusters(segs: Seq<NtfsAttrView>, v: u64)
    ensures
        vcns(in_order(segs)).contains(v) <==> extent_at(segs, v) is Some,
{
    let x = in_order(segs);
    extents_come_in_order(segs);
    extent_at_finds(segs, v);
    if vcns(x).contains(v) {
        let j = choose|j: int| 0 <= j < vcns(x).len() && vcns(x)[j] == v;
        assert(x[j].vcn == v);
        first_is_the_extent_there(segs, x[j]);
    }
    if vcns(segs).contains(v) {
        let i = choose|i: int| 0 <= i < vcns(segs).len() && vcns(segs)[i] == v;
        assert(segs[i].vcn == v);
    }
}

proof fn first_resident_adds(a: Seq<NtfsAttrView>, b: Seq<NtfsAttrView>)
    ensures
        first_resident(a + b) == match first_resident(a) {
            Some(x) => Some(x),
            None => first_resident(b),
        },
    decreases a.len(),
{
    if a.len() == 0 {
        assert(a + b =~= b);
    } else {
        assert((a + b).skip(1) =~= a.skip(1) + b);
        assert((a + b)[0] == a[0]);
        first_resident_adds(a.skip(1), b);
    }
}

/// The extents that the list entry `e` leads to, among those looked for.
pub open spec fn segments_for(recs: Map<u64, NtfsRecordView>, e: AttrRef, t: u32, unnamed: bool) -> Seq<NtfsAttrView> {
    if wanted(e.type_, e.named, t, unnamed) {
        segments_of(recs, e.record, t, unnamed)
    } else {
        seq![]
    }
}

/// Whether no two of the list entries lead to different extents that start at cluster `v`.
pub open spec fn agree_at(recs: Map<u64, NtfsRecordView>, list: Seq<AttrRef>, t: u32, unnamed: bool, v: u64) -> bool {
    forall|i: int, j: int|
        0 <= i < list.len() && 0 <= j < list.len() && extent_at(
            segments_for(recs, #[trigger] list[i], t, unnamed),
            v,
        ) is Some && extent_at(segments_for(recs, #[trigger] list[j], t, unnamed), v) is Some ==> extent_at(
            segments_for(recs, list[i], t, unnamed),
            v,
        ) == extent_at(segments_for(recs, list[j], t, unnamed), v)
}

/// Whether no two of the list entries lead to different resident values.
pub open spec fn agree_on_value(recs: Map<u64, NtfsRecordView>, list: Seq<AttrRef>, t: u32, unnamed: bool) -> bool {
    forall|i: int, j: int|
        0 <= i < list.len() && 0 <= j < list.len() && first_resident(
            segments_for(recs, #[trigger] list[i], t, unnamed),
        ) is Some && first_resident(segments_for(recs, #[trigger] list[j], t, unnamed)) is Some ==> first_resident(
            segments_for(recs, list[i], t, unnamed),
        ) == first_resident(segments_for(recs, list[j], t, unnamed))
}

/// Whether the records that the list names do not contradict each other: what the base record
/// has not settled, they agree on.
pub open spec fn undisputed(recs: Map<u64, NtfsRecordView>, list: Seq<AttrRef>, base: u64, t: u32, unnamed: bool) -> bool {
    let first = segments_of(recs, base, t, unnamed);
    &&& first_resident(first) is Some || agree_on_value(recs, list, t, unnamed)
    &&& first_resident(segments(recs, list, base, t, unnamed)) is Some || forall|v: u64| #[trigger]
        extent_at(first, v) is Some || agree_at(recs, list, t, unnamed, v)
}

proof fn listed_extent(recs: Map<u64, NtfsRecordView>, list: Seq<AttrRef>, t: u32, unnamed: bool, v: u64)
    requires
        agree_at(recs, list, t, unnamed, v),
    ensures
        forall|i: int|
            0 <= i < list.len() && extent_at(segments_for(recs, #[trigger] list[i], t, unnamed), v) is Some ==> extent_at(
                listed_segments(recs, list, t, unnamed),
                v,
            ) == extent_at(segments_for(recs, list[i], t, unnamed), v),
        extent_at(listed_segments(recs, list, t, unnamed), v) is Some ==> exists|i: int|
            0 <= i < list.len() && extent_at(segments_for(recs, #[trigger] list[i], t, unnamed), v) is Some,
    decreases list.len(),
{
    if list.len() > 0 {
        let init = list.drop_last();
        let e = list.last();
        assert(list[list.len() - 1] == e);
        assert forall|i: int| 0 <= i < init.len() implies #[trigger] init[i] == list[i] by {}
        listed_extent(recs, init, t, unnamed, v);
        let before = listed_segments(recs, init, t, unnamed);
        let here = segments_for(recs, e, t, unnamed);
        assert(listed_segments(recs, list, t, unnamed) == before + here);
        extent_at_adds(before, here, v);
        if extent_at(before, v) is Some {
            let k = choose|k: int|
                0 <= k < init.len() && extent_at(segments_for(recs, #[trigger] init[k], t, unnamed), v) is Some;
            assert(list[k] == init[k]);
        }
        assert forall|i: int|
            0 <= i < list.len() && extent_at(segments_for(recs, #[trigger] list[i], t, unnamed), v) is Some implies extent_at(
            listed_segments(recs, list, t, unnamed),
            v,
        ) == extent_at(segments_for(recs, list[i], t, unnamed), v) by {
            if i < init.len() {
                assert(init[i] == list[i]);
            }
        }
    }
}

proof fn listed_value(recs: Map<u64, NtfsRecordView>, list: Seq<AttrRef>, t: u32, unnamed: bool)
    requires
        agree_on_value(recs, list, t, unnamed),
    ensures
        forall|i: int|
            0 <= i < list.len() && first_resident(segments_for(recs, #[trigger] list[i], t, unnamed)) is Some
                ==> first_resident(listed_segments(recs, list, t, unnamed)) == first_resident(
                segments_for(recs, list[i], t, unnamed),
            ),
        first_resident(listed_segments(recs, list, t, unnamed)) is Some ==> exists|i: int|
            0 <= i < list.len() && first_resident(segments_for(recs, #[trigger] list[i], t, unnamed)) is Some,
    decreases list.len(),
{
    if list.len() > 0 {
        let init = list.drop_last();
        let e = list.last();
        assert(list[list.len() - 1] == e);
        assert forall|i: int| 0 <= i < init.len() implies #[trigger] init[i] == list[i] by {}
        listed_value(recs, init, t, unnamed);
        let before = listed_segments(recs, init, t, unnamed);
        let here = segments_for(recs, e, t, unnamed);
        assert(listed_segments(recs, list, t, unnamed) == before + here);
        first_resident_adds(before, here);
        if first_resident(before) is Some {
            let k = choose|k: int|
                0 <= k < init.len() && first_resident(segments_for(recs, #[trigger] init[k], t, unnamed)) is Some;
            assert(list[k] == init[k]);
        }
        assert forall|i: int|
            0 <= i < list.len() && first_resident(segments_for(recs, #[trigger] list[i], t, unnamed)) is Some implies
            first_resident(listed_segments(recs, list, t, unnamed)) == first_resident(segments_for(recs, list[i], t, unnamed)) by {
            if i < init.len() {
                assert(init[i] == list[i]);
            }
        }
    }
}

/// Whether the two lists hold the same entries, in whatever order.
pub open spec fn same_entries(a: Seq<AttrRef>, b: Seq<AttrRef>) -> bool {
    forall|e: AttrRef| a.contains(e) <==> b.contains(e)
}

proof fn same_listed_extent(recs: Map<u64, NtfsRecordView>, a: Seq<AttrRef>, b: Seq<AttrRef>, t: u32, unnamed: bool, v: u64)
    requires
        same_entries(a, b),
        agree_at(recs, a, t, unnamed, v),
    ensures
        extent_at(listed_segments(recs, a, t, unnamed), v) == extent_at(listed_segments(recs, b, t, unnamed), v),
{
    assert forall|i: int| 0 <= i < b.len() implies a.contains(#[trigger] b[i]) by {
        assert(b.contains(b[i]));
    }
    assert forall|i: int| 0 <= i < a.len() implies b.contains(#[trigger] a[i]) by {
        assert(a.contains(a[i]));
    }
    assert(agree_at(recs, b, t, unnamed, v));
    listed_extent(recs, a, t, unnamed, v);
    listed_extent(recs, b, t, unnamed, v);
    if extent_at(listed_segments(recs, a, t, unnamed), v) is Some {
        let i = choose|i: int| 0 <= i < a.len() && extent_at(segments_for(recs, #[trigger] a[i], t, unnamed), v) is Some;
        let j = choose|j: int| 0 <= j < b.len() && b[j] == a[i];
        assert(extent_at(segments_for(recs, b[j], t, unnamed), v) is Some);
    }
    if extent_at(listed_segments(recs, b, t, unnamed), v) is Some {
        let i = choose|i: int| 0 <= i < b.len() && extent_at(segments_for(recs, #[trigger] b[i], t, unnamed), v) is Some;
        let j = choose|j: int| 0 <= j < a.len() && a[j] == b[i];
        assert(extent_at(segments_for(recs, a[j], t, unnamed), v) is Some);
    }
}

proof fn same_listed_value(recs: Map<u64, NtfsRecordView>, a: Seq<AttrRef>, b: Seq<AttrRef>, t: u32, unnamed: bool)
    requires
        same_entries(a, b),
        agree_on_value(recs, a, t, unnamed),
    ensures
        first_resident(listed_segments(recs, a, t, unnamed)) == first_resident(listed_segments(recs, b, t, unnamed)),
{
    assert forall|i: int| 0 <= i < b.len() implies a.contains(#[trigger] b[i]) by {
        assert(b.contains(b[i]));
    }
    assert forall|i: int| 0 <= i < a.len() implies b.contains(#[trigger] a[i]) by {
        assert(a.contains(a[i]));
    }
    assert(agree_on_value(recs, b, t, unnamed));
    listed_value(recs, a, t, unnamed);
    listed_value(recs, b, t, unnamed);
    if first_resident(listed_segments(recs, a, t, unnamed)) is Some {
        let i = choose|i: int| 0 <= i < a.len() && first_resident(segments_for(recs, #[trigger] a[i], t, unnamed)) is Some;
        let j = choose|j: int| 0 <= j < b.len() && b[j] == a[i];
        assert(first_resident(segments_for(recs, b[j], t, unnamed)) is Some);
    }
    if first_resident(listed_segments(recs, b, t, unnamed)) is Some {
        let i = choose|i: int| 0 <= i < b.len() && first_resident(segments_for(recs, #[trigger] b[i], t, unnamed)) is Some;
        let j = choose|j: int| 0 <= j < a.len() && a[j] == b[i];
        assert(first_resident(segments_for(recs, a[j], t, unnamed)) is Some);
    }
}

/// The order of an attribute list does not matter, nor does an entry that is given again: as
/// long as the records that it names do not contradict each other, the value is the same.
pub proof fn list_order_does_not_matter(
    recs: Map<u64, NtfsRecordView>,
    a: Seq<AttrRef>,
    b: Seq<AttrRef>,
    base: u64,
    t: u32,
    unnamed: bool,
)
    requires
        same_entries(a, b),
        undisputed(recs, a, base, t, unnamed),
    ensures
        resolved(recs, a, base, t, unnamed) == resolved(recs, b, base, t, unnamed),
{
    let first = segments_of(recs, base, t, unnamed);
    let x = segments(recs, a, base, t, unnamed);
    let y = segments(recs, b, base, t, unnamed);
    first_resident_adds(first, listed_segments(recs, a, t, unnamed));
    first_resident_adds(first, listed_segments(recs, b, t, unnamed));
    if first_resident(first) is None {
        same_listed_value(recs, a, b, t, unnamed);
    }
    assert(first_resident(x) == first_resident(y));
    if first_resident(x) is None {
        assert forall|v: u64| #[trigger] extent_at(x, v) == extent_at(y, v) by {
            extent_at_adds(first, listed_segments(recs, a, t, unnamed), v);
            extent_at_adds(first, listed_segments(recs, b, t, unnamed), v);
            if extent_at(first, v) is None {
                same_listed_extent(recs, a, b, t, unnamed, v);
            }
        }
        same_extents_same_order(x, y);
        if x.len() > 0 {
            extent_at_finds(x, x[0].vcn);
            assert(vcns(x)[0] == x[0].vcn);
            assert(extent_at(x, x[0].vcn) == extent_at(y, x[0].vcn));
        }
        if y.len() > 0 {
            extent_at_finds(y, y[0].vcn);
            assert(vcns(y)[0] == y[0].vcn);
            assert(extent_at(x, y[0].vcn) == extent_at(y, y[0].vcn));
        }
    }
}

/// What an optional value is to the reader of a specification.
pub open spec fn resolved_view(r: Option<Resolved>) -> Option<ResolvedView> {
    match r {
        Some(r) => Some(r@),
        None => None,
    }
}

fn collect<'a>(segs: &mut Vec<&'a NtfsAttr>, r: &'a NtfsRecord, t: u32, unnamed: bool)
    ensures
        views(final(segs)@) == views(old(segs)@) + matching(r@.attrs, t, unnamed),
{
    let ghost before = views(segs@);
    let ghost all = r@.attrs;
    let mut i: usize = 0;
    assert(all.take(0) =~= seq![]);
    assert(before + matching(all.take(0), t, unnamed) =~= before);
    while i < r.attrs.len()
        invariant
            i <= r.attrs@.len(),
            all == views(r.attrs@),
            views(segs@) == before + matching(all.take(i as int), t, unnamed),
        decreases r.attrs@.len() - i,
    {
        assert(all.take(i + 1).drop_last() =~= all.take(i as int));
        let a = &r.attrs[i];
        assert(all.take(i + 1).last() == a@);
        if a.type_ == t && (!unnamed || !a.named) {
            proof {
                views_push(segs@, a);
            }
            segs.push(a);
        }
        assert(views(segs@) =~= before + matching(all.take(i + 1), t, unnamed));
        i += 1;
    }
    assert(all.take(i as int) =~= all);
}

fn find_segments<'a>(recs: &'a HashMap<u64, NtfsRecord>, list: &[AttrRef], base: u64, t: u32, unnamed: bool) -> (r: Vec<
    &'a NtfsAttr,
>)
    ensures
        views(r@) == segments(record_views(recs@), list@, base, t, unnamed),
{
    let mut segs: Vec<&'a NtfsAttr> = Vec::new();
    let ghost table = record_views(recs@);
    assert(views(segs@) =~= seq![]);
    if let Some(r) = recs.get(&base) {
        collect(&mut segs, r, t, unnamed);
    }
    let ghost first = segments_of(table, base, t, unnamed);
    assert(views(segs@) =~= first);
    let mut i: usize = 0;
    assert(list@.take(0) =~= seq![]);
    assert(first + listed_segments(table, list@.take(0), t, unnamed) =~= first);
    while i < list.len()
        invariant
            i <= list@.len(),
            table == record_views(recs@),
            views(segs@) == first + listed_segments(table, list@.take(i as int), t, unnamed),
        decreases list@.len() - i,
    {
        assert(list@.take(i + 1).drop_last() =~= list@.take(i as int));
        let e = list[i];
        if e.type_ == t && (!unnamed || !e.named) {
            if let Some(r) = recs.get(&e.record) {
                collect(&mut segs, r, t, unnamed);
            }
        }
        assert(views(segs@) =~= first + listed_segments(table, list@.take(i + 1), t, unnamed));
        i += 1;
    }
    assert(list@.take(i as int) =~= list@);
    segs
}

fn add_segment<'a>(segs: &mut Vec<&'a NtfsAttr>, a: &'a NtfsAttr)
    ensures
        views(final(segs)@) == with_segment(views(old(segs)@), a@),
{
    let ghost v = vcns(views(segs@));
    let mut p = segs.len();
    assert(v.take(p as int) =~= v);
    while p > 0 && segs[p - 1].vcn >= a.vcn
        invariant
            p <= segs@.len(),
            segs@ == old(segs)@,
            v == vcns(views(segs@)),
            spot(v.take(p as int), a.vcn) == spot(v, a.vcn),
        decreases p,
    {
        assert(v.take(p as int).drop_last() =~= v.take(p - 1));
        assert(v[p - 1] == segs@[p - 1].vcn);
        p -= 1;
    }
    assert(p > 0 ==> v[p - 1] == segs@[p - 1].vcn);
    assert(p == spot(v, a.vcn));
    if p < segs.len() && segs[p].vcn == a.vcn {
        return ;
    }
    segs.insert(p, a);
    assert(views(segs@) =~= with_segment(views(old(segs)@), a@));
}

fn order_segments<'a>(segs: &Vec<&'a NtfsAttr>) -> (r: Vec<&'a NtfsAttr>)
    ensures
        views(r@) == in_order(views(segs@)),
{
    let ghost all = views(segs@);
    let mut out: Vec<&'a NtfsAttr> = Vec::new();
    assert(views(out@) =~= in_order(all.take(0)));
    let mut i: usize = 0;
    while i < segs.len()
        invariant
            i <= segs@.len(),
            all == views(segs@),
            views(out@) == in_order(all.take(i as int)),
        decreases segs@.len() - i,
    {
        assert(all.take(i + 1).drop_last() =~= all.take(i as int));
        let a = segs[i];
        assert(all.take(i + 1).last() == a@);
        add_segment(&mut out, a);
        i += 1;
    }
    assert(all.take(i as int) =~= all);
    out
}

fn find_resident(segs: &Vec<&NtfsAttr>) -> (r: Option<Vec<u8>>)
    ensures
        crate::mft::bytes_view(r) == first_resident(views(segs@)),
{
    let ghost all = views(segs@);
    let mut i: usize = 0;
    assert(all.skip(0) =~= all);
    while i < segs.len()
        invariant
            i <= segs@.len(),
            all == views(segs@),
            first_resident(all.skip(i as int)) == first_resident(all),
        decreases segs@.len() - i,
    {
        assert(all.skip(i as int).skip(1) =~= all.skip(i + 1));
        assert(all.skip(i as int)[0] == segs@[i as int]@);
        if let Some(b) = &segs[i].resident {
            let copy = b.clone();
            assert(copy@ =~= b@);
            return Some(copy);
        }
        i += 1;
    }
    None
}

/// Gather the extents of an attribute from the base record and the extension
/// records named in its `$ATTRIBUTE_LIST`, and merge them in VCN order.
///
/// Every extent's runlist is decoded on its own: each one starts with an
/// absolute LCN (the first mapping-pair offset is relative to 0), so no
/// correction between extents is needed.
pub fn resolve_attr(recs: &HashMap<u64, NtfsRecord>, list: &[AttrRef], base: u64, type_: u32, unnamed: bool) -> (r: Option<
    Resolved,
>)
    ensures
        resolved_view(r) == resolved(record_views(recs@), list@, base, type_, unnamed),
{
    let segs = find_segments(recs, list, base, type_, unnamed);
    if segs.len() == 0 {
        return None;
    }
    if let Some(b) = find_resident(&segs) {
        return Some(Resolved::Resident(b));
    }
    let segs = order_segments(&segs);
    let ghost all = views(segs@);
    let mut runs: Vec<(Option<i64>, u64)> = Vec::new();
    let mut largest: u64 = 0;
    let mut i: usize = 0;
    while i < segs.len()
        invariant
            i <= segs@.len(),
            all == views(segs@),
            runs@ == all_runs(all.take(i as int)),
            largest == largest_size(all.take(i as int)),
        decreases segs@.len() - i,
    {
        assert(all.take(i + 1).drop_last() =~= all.take(i as int));
        let a = segs[i];
        assert(all.take(i + 1).last() == a@);
        let mut more = match &a.runs {
            Some(r) => ntfs_runs(r),
            None => Vec::new(),
        };
        runs.append(&mut more);
        if a.size > largest {
            largest = a.size;
        }
        i += 1;
    }
    assert(all.take(i as int) =~= all);
    let mut size = largest;
    if segs.len() > 0 {
        assert(all[0] == segs@[0]@);
        if segs[0].vcn == 0 && segs[0].size > 0 {
            size = segs[0].size;
        }
    }
    Some(Resolved::Runs(runs, size))
}

/// Those looked for are all the attributes of that type, in their order; where no name is
/// wanted, those without one.
pub proof fn attributes_looked_for(attrs: Seq<NtfsAttrView>, t: u32, unnamed: bool)
    ensures
        matching(attrs, t, unnamed) == attrs.filter(|a: NtfsAttrView| a.type_ == t && !(unnamed && a.named)),
    decreases attrs.len(),
{
    reveal(Seq::filter);
    if attrs.len() > 0 {
        attributes_looked_for(attrs.drop_last(), t, unnamed);
    }
}

/// Whether record `r` holds the extent `a` of the attribute of type `t`.
pub open spec fn holds_extent(recs: Map<u64, NtfsRecordView>, r: u64, t: u32, unnamed: bool, a: NtfsAttrView) -> bool {
    recs.contains_key(r) && recs[r].attrs.contains(a) && a.type_ == t && !(unnamed && a.named)
}

/// Whether the attribute list leads to record `r` for the attribute of type `t`.
pub open spec fn leads_to(list: Seq<AttrRef>, t: u32, unnamed: bool, r: u64) -> bool {
    exists|i: int|
        0 <= i < list.len() && (#[trigger] list[i]).type_ == t && !(unnamed && list[i].named) && list[i].record == r
}

proof fn matching_holds(attrs: Seq<NtfsAttrView>, t: u32, unnamed: bool, a: NtfsAttrView)
    ensures
        matching(attrs, t, unnamed).contains(a) <==> attrs.contains(a) && a.type_ == t && !(unnamed && a.named),
    decreases attrs.len(),
{
    let all = matching(attrs, t, unnamed);
    if attrs.len() > 0 {
        let init = attrs.drop_last();
        let before = matching(init, t, unnamed);
        matching_holds(init, t, unnamed, a);
        if all.contains(a) {
            let i = choose|i: int| 0 <= i < all.len() && all[i] == a;
            if i < before.len() {
                assert(before[i] == a);
                let k = choose|k: int| 0 <= k < init.len() && init[k] == a;
                assert(attrs[k] == a);
            } else {
                assert(attrs[attrs.len() - 1] == a);
            }
        }
        if attrs.contains(a) && a.type_ == t && !(unnamed && a.named) {
            let k = choose|k: int| 0 <= k < attrs.len() && attrs[k] == a;
            if k < init.len() {
                assert(init[k] == a);
                let i = choose|i: int| 0 <= i < before.len() && before[i] == a;
                assert(all[i] == a);
            } else {
                assert(all[all.len() - 1] == a);
            }
        }
    }
}

#[verifier::rlimit(40)]
proof fn listed_holds(recs: Map<u64, NtfsRecordView>, list: Seq<AttrRef>, t: u32, unnamed: bool, a: NtfsAttrView)
    ensures
        listed_segments(recs, list, t, unnamed).contains(a) <==> exists|r: u64|
            #[trigger] leads_to(list, t, unnamed, r) && holds_extent(recs, r, t, unnamed, a),
    decreases list.len(),
{
    let all = listed_segments(recs, list, t, unnamed);
    if list.len() > 0 {
        let init = list.drop_last();
        let e = list.last();
        let before = listed_segments(recs, init, t, unnamed);
        listed_holds(recs, init, t, unnamed, a);
        if recs.contains_key(e.record) {
            matching_holds(recs[e.record].attrs, t, unnamed, a);
        }
        assert forall|r: u64| #[trigger] leads_to(init, t, unnamed, r) implies leads_to(list, t, unnamed, r) by {
            let i = choose|i: int|
                0 <= i < init.len() && (#[trigger] init[i]).type_ == t && !(unnamed && init[i].named) && init[i].record == r;
            assert(list[i] == init[i]);
        }
        let last = segments_of(recs, e.record, t, unnamed);
        if all.contains(a) {
            let i = choose|i: int| 0 <= i < all.len() && all[i] == a;
            if i < before.len() {
                assert(before[i] == a);
                let r = choose|r: u64| #[trigger] leads_to(init, t, unnamed, r) && holds_extent(recs, r, t, unnamed, a);
                assert(leads_to(list, t, unnamed, r));
            } else {
                assert(last[i - before.len()] == a);
                assert(list[list.len() - 1] == e);
                assert(leads_to(list, t, unnamed, e.record));
            }
        }
        if exists|r: u64| #[trigger] leads_to(list, t, unnamed, r) && holds_extent(recs, r, t, unnamed, a) {
            let r = choose|r: u64| #[trigger] leads_to(list, t, unnamed, r) && holds_extent(recs, r, t, unnamed, a);
            let i = choose|i: int|
                0 <= i < list.len() && (#[trigger] list[i]).type_ == t && !(unnamed && list[i].named) && list[i].record == r;
            if i < init.len() {
                assert(init[i] == list[i]);
                assert(leads_to(init, t, unnamed, r));
                let k = choose|k: int| 0 <= k < before.len() && before[k] == a;
                assert(all[k] == a);
            } else {
                let k = choose|k: int| 0 <= k < last.len() && last[k] == a;
                assert(all[before.len() + k] == a);
            }
        }
    }
}

/// The extents of an attribute are those in its own record and those in the records that the
/// attribute list leads to for it, and no others.
pub proof fn extents_are_gathered(
    recs: Map<u64, NtfsRecordView>,
    list: Seq<AttrRef>,
    base: u64,
    t: u32,
    unnamed: bool,
    a: NtfsAttrView,
)
    ensures
        segments(recs, list, base, t, unnamed).contains(a) <==> holds_extent(recs, base, t, unnamed, a) || exists|r: u64|
            #[trigger] leads_to(list, t, unnamed, r) && holds_extent(recs, r, t, unnamed, a),
{
    let own = segments_of(recs, base, t, unnamed);
    let listed = listed_segments(recs, list, t, unnamed);
    let all = segments(recs, list, base, t, unnamed);
    if recs.contains_key(base) {
        matching_holds(recs[base].attrs, t, unnamed, a);
    }
    listed_holds(recs, list, t, unnamed, a);
    if all.contains(a) {
        let i = choose|i: int| 0 <= i < all.len() && all[i] == a;
        if i < own.len() {
            assert(own[i] == a);
        } else {
            assert(listed[i - own.len()] == a);
        }
    }
    if own.contains(a) {
        let i = choose|i: int| 0 <= i < own.len() && own[i] == a;
        assert(all[i] == a);
    }
    if listed.contains(a) {
        let i = choose|i: int| 0 <= i < listed.len() && listed[i] == a;
        assert(all[own.len() + i] == a);
    }
}

proof fn resident_is_first(segs: Seq<NtfsAttrView>, i: int)
    requires
        0 <= i < segs.len(),
        segs[i].resident is Some,
        forall|k: int| 0 <= k < i ==> (#[trigger] segs[k]).resident is None,
    ensures
        first_resident(segs) == segs[i].resident,
    decreases segs.len(),
{
    if i > 0 {
        let rest = segs.skip(1);
        assert(segs[0].resident is None);
        assert forall|k: int| 0 <= k < i - 1 implies (#[trigger] rest[k]).resident is None by {
            assert(rest[k] == segs[k + 1]);
        }
        resident_is_first(rest, i - 1);
    }
}

proof fn none_is_resident(segs: Seq<NtfsAttrView>)
    requires
        forall|k: int| 0 <= k < segs.len() ==> (#[trigger] segs[k]).resident is None,
    ensures
        first_resident(segs) is None,
    decreases segs.len(),
{
    if segs.len() > 0 {
        let rest = segs.skip(1);
        assert(segs[0].resident is None);
        assert forall|k: int| 0 <= k < rest.len() implies (#[trigger] rest[k]).resident is None by {
            assert(rest[k] == segs[k + 1]);
        }
        none_is_resident(rest);
    }
}

proof fn size_is_reached(segs: Seq<NtfsAttrView>)
    ensures
        forall|i: int| 0 <= i < segs.len() ==> (#[trigger] segs[i]).size <= largest_size(segs),
        segs.len() > 0 ==> exists|i: int| 0 <= i < segs.len() && (#[trigger] segs[i]).size == largest_size(segs),
    decreases segs.len(),
{
    if segs.len() > 0 {
        let init = segs.drop_last();
        size_is_reached(init);
        assert forall|i: int| 0 <= i < segs.len() implies (#[trigger] segs[i]).size <= largest_size(segs) by {
            if i < init.len() {
                assert(init[i] == segs[i]);
            }
        }
        if segs.last().size > largest_size(init) || init.len() == 0 {
            assert(segs[segs.len() - 1].size == largest_size(segs));
        } else {
            let i = choose|i: int| 0 <= i < init.len() && (#[trigger] init[i]).size == largest_size(init);
            assert(segs[i].size == largest_size(segs));
        }
    }
}

/// What an attribute's value is, over its extents in the order in which they were found: there
/// is none without an extent; the first resident one is the value; otherwise the value stands in
/// the runs of the extents, from the lowest cluster up, and its size is that of the extent at
/// cluster 0, or, where that says none, the largest.
#[verifier::rlimit(40)]
pub proof fn value_is_put_together(recs: Map<u64, NtfsRecordView>, list: Seq<AttrRef>, base: u64, t: u32, unnamed: bool, i: int)
    requires
        0 <= i < segments(recs, list, base, t, unnamed).len(),
    ensures
        ({
            let segs = segments(recs, list, base, t, unnamed);
            let value = resolved(recs, list, base, t, unnamed);
            &&& value is Some
            &&& segs[i].resident matches Some(b) ==> ((forall|k: int| 0 <= k < i ==> (#[trigger] segs[k]).resident is None)
                ==> value == Some(ResolvedView::Resident(b)))
            &&& (forall|k: int| 0 <= k < segs.len() ==> (#[trigger] segs[k]).resident is None) ==> (value matches Some(
                ResolvedView::Runs(runs, size),
            ) && (first_of_its_vcn(segs, segs[i]) && segs[i].vcn == 0 && segs[i].size > 0 ==> size == segs[i].size) && ((
            forall|k: int| 0 <= k < segs.len() ==> (#[trigger] segs[k]).vcn > 0) && first_of_its_vcn(segs, segs[i]) ==> size
                >= segs[i].size) && (segs.len() == 1 ==> size == segs[0].size && (segs[0].runs matches Some(raw) ==> runs
                == data_runs(raw))))
        }),
{
    let segs = segments(recs, list, base, t, unnamed);
    let o = in_order(segs);
    if segs[i].resident is Some && (forall|k: int| 0 <= k < i ==> (#[trigger] segs[k]).resident is None) {
        resident_is_first(segs, i);
    }
    if forall|k: int| 0 <= k < segs.len() ==> (#[trigger] segs[k]).resident is None {
        none_is_resident(segs);
    }
    extents_come_in_order(segs);
    assert(vcns(o).contains(segs[i].vcn));
    let j = choose|j: int| 0 <= j < vcns(o).len() && vcns(o)[j] == segs[i].vcn;
    assert(o[j].vcn == segs[i].vcn);
    assert(first_of_its_vcn(segs, o[j]));
    if first_of_its_vcn(segs, segs[i]) {
        first_is_the_extent_there(segs, segs[i]);
        first_is_the_extent_there(segs, o[j]);
        assert(o[j] == segs[i]);
    }
    size_is_reached(o);
    assert(o[j].size <= largest_size(o));
    if segs[i].vcn == 0 {
        if j > 0 {
            assert(vcns(o)[0] < vcns(o)[j]);
        }
        assert(j == 0);
    }
    if forall|k: int| 0 <= k < segs.len() ==> (#[trigger] segs[k]).vcn > 0 {
        assert(first_of_its_vcn(segs, o[0]));
        let q = choose|q: int|
            0 <= q < segs.len() && #[trigger] segs[q] == o[0] && forall|k: int| 0 <= k < q ==> (#[trigger] segs[k]).vcn != o[0].vcn;
        assert(segs[q].vcn > 0);
    }
    if segs.len() == 1 {
        assert(segs.drop_last() =~= seq![]);
        assert(in_order(segs.drop_last()) =~= seq![]);
        assert(i == 0);
        assert(first_of_its_vcn(segs, segs[0]));
        assert(o =~= seq![segs[0]]) by {
            reveal_with_fuel(in_order, 2);
            spot_splits(vcns(seq![]), segs[0].vcn);
        }
        assert(o.drop_last() =~= seq![]);
        reveal_with_fuel(all_runs, 2);
        reveal_with_fuel(largest_size, 2);
        assert(all_runs(o) =~= match segs[0].runs {
            Some(r) => data_runs(r),
            None => seq![],
        });
    }
}

/// A record without such an attribute, own or listed, has no value of it.
pub proof fn no_extent_no_value(recs: Map<u64, NtfsRecordView>, list: Seq<AttrRef>, base: u64, t: u32, unnamed: bool)
    ensures
        resolved(recs, list, base, t, unnamed) is Some <==> exists|a: NtfsAttrView|
            #[trigger] holds_extent(recs, base, t, unnamed, a) || exists|r: u64|
                #[trigger] leads_to(list, t, unnamed, r) && holds_extent(recs, r, t, unnamed, a),
{
    let segs = segments(recs, list, base, t, unnamed);
    if segs.len() > 0 {
        assert(segs.contains(segs[0]));
        extents_are_gathered(recs, list, base, t, unnamed, segs[0]);
        let a = segs[0];
        assert(holds_extent(recs, base, t, unnamed, a) || exists|r: u64|
            #[trigger] leads_to(list, t, unnamed, r) && holds_extent(recs, r, t, unnamed, a));
    }
    if exists|a: NtfsAttrView|
        #[trigger] holds_extent(recs, base, t, unnamed, a) || exists|r: u64|
            #[trigger] leads_to(list, t, unnamed, r) && holds_extent(recs, r, t, unnamed, a) {
        let a = choose|a: NtfsAttrView|
            #[trigger] holds_extent(recs, base, t, unnamed, a) || exists|r: u64|
                #[trigger] leads_to(list, t, unnamed, r) && holds_extent(recs, r, t, unnamed, a);
        extents_are_gathered(recs, list, base, t, unnamed, a);
        assert(segs.len() > 0);
    }
}

proof fn runs_add(a: Seq<NtfsAttrView>, b: Seq<NtfsAttrView>)
    ensures
        all_runs(a + b) == all_runs(a) + all_runs(b),
    decreases b.len(),
{
    if b.len() == 0 {
        assert(a + b =~= a);
        assert(all_runs(a) + all_runs(b) =~= all_runs(a));
    } else {
        assert((a + b).drop_last() =~= a + b.drop_last());
        runs_add(a, b.drop_last());
        assert(all_runs(a + b) =~= all_runs(a) + all_runs(b));
    }
}

/// The runs of the extents follow each other: those of the `j`-th extent stand behind those of
/// the extents before it, all of them.
pub proof fn runs_follow_each_other(segs: Seq<NtfsAttrView>, j: int)
    requires
        0 <= j < segs.len(),
    ensures
        all_runs(segs) == all_runs(segs.take(j)) + (match segs[j].runs {
            Some(raw) => data_runs(raw),
            None => seq![],
        }) + all_runs(segs.skip(j + 1)),
        all_runs(seq![]) == Seq::<(Option<i64>, u64)>::empty(),
{
    assert(segs =~= segs.take(j) + seq![segs[j]] + segs.skip(j + 1));
    runs_add(segs.take(j) + seq![segs[j]], segs.skip(j + 1));
    runs_add(segs.take(j), seq![segs[j]]);
    reveal_with_fuel(all_runs, 2);
    let one = seq![segs[j]];
    assert(one.drop_last() =~= seq![]);
    assert(all_runs(one) =~= match segs[j].runs {
        Some(raw) => data_runs(raw),
        None => seq![],
    });
}

proof fn entries_add<S: Source + ?Sized>(src: &S, g: Geometry, a: Seq<NtfsAttrView>, b: Seq<NtfsAttrView>)
    ensures
        entries_among(src, g, a + b) == entries_among(src, g, a) + entries_among(src, g, b),
    decreases b.len(),
{
    if b.len() == 0 {
        assert(a + b =~= a);
        assert(entries_among(src, g, a) + entries_among(src, g, b) =~= entries_among(src, g, a));
    } else {
        assert((a + b).drop_last() =~= a + b.drop_last());
        entries_add(src, g, a, b.drop_last());
        assert(entries_among(src, g, a + b) =~= entries_among(src, g, a) + entries_among(src, g, b));
    }
}

/// A record's attribute list is what its list attribute holds, in the record or in its runs; a
/// record without one has an empty list.
pub proof fn attribute_list_is_read<S: Source + ?Sized>(
    recs: Map<u64, NtfsRecordView>,
    i: u64,
    src: &S,
    g: Geometry,
    k: int,
)
    requires
        recs.contains_key(i),
        -1 <= k < recs[i].attrs.len(),
        forall|j: int| 0 <= j < recs[i].attrs.len() && j != k ==> (#[trigger] recs[i].attrs[j]).type_ != 0x20,
        k >= 0 ==> recs[i].attrs[k].type_ == 0x20,
    ensures
        k == -1 ==> attribute_list(recs, i, src, g).len() == 0,
        k >= 0 ==> (recs[i].attrs[k].resident matches Some(b) ==> attribute_list(recs, i, src, g) == list_entries(b, 0)),
        k >= 0 && recs[i].attrs[k].resident is None ==> (recs[i].attrs[k].runs matches Some(raw) ==> attribute_list(
            recs,
            i,
            src,
            g,
        ) == list_entries(g.value(src, data_runs(raw), recs[i].attrs[k].size), 0)),
{
    let attrs = recs[i].attrs;
    if k == -1 {
        no_list_no_entries(src, g, attrs);
    } else {
        let before = attrs.take(k);
        let after = attrs.skip(k + 1);
        assert(attrs =~= before + seq![attrs[k]] + after);
        entries_add(src, g, before + seq![attrs[k]], after);
        entries_add(src, g, before, seq![attrs[k]]);
        assert forall|j: int| 0 <= j < before.len() implies (#[trigger] before[j]).type_ != 0x20 by {
            assert(before[j] == attrs[j]);
        }
        assert forall|j: int| 0 <= j < after.len() implies (#[trigger] after[j]).type_ != 0x20 by {
            assert(after[j] == attrs[k + 1 + j]);
        }
        no_list_no_entries(src, g, before);
        no_list_no_entries(src, g, after);
        reveal_with_fuel(entries_among, 2);
        let one = seq![attrs[k]];
        assert(one.drop_last() =~= seq![]);
        assert(entries_among(src, g, one) =~= entries_in(src, g, attrs[k]));
        assert(attribute_list(recs, i, src, g) =~= entries_in(src, g, attrs[k]));
    }
}

proof fn no_list_no_entries<S: Source + ?Sized>(src: &S, g: Geometry, attrs: Seq<NtfsAttrView>)
    requires
        forall|j: int| 0 <= j < attrs.len() ==> (#[trigger] attrs[j]).type_ != 0x20,
    ensures
        entries_among(src, g, attrs).len() == 0,
    decreases attrs.len(),
{
    if attrs.len() > 0 {
        let init = attrs.drop_last();
        assert forall|j: int| 0 <= j < init.len() implies (#[trigger] init[j]).type_ != 0x20 by {
            assert(init[j] == attrs[j]);
        }
        no_list_no_entries(src, g, init);
        assert(attrs[attrs.len() - 1].type_ != 0x20);
    }
}

/// A value that is not resident stands in the runs of its extents from the lowest cluster up: of
/// the extents that were found, each place once, the one that was found first there, and no place
/// left out.
pub proof fn value_follows_the_clusters(recs: Map<u64, NtfsRecordView>, list: Seq<AttrRef>, base: u64, t: u32, unnamed: bool)
    requires
        segments(recs, list, base, t, unnamed).len() > 0,
        forall|k: int|
            0 <= k < segments(recs, list, base, t, unnamed).len() ==> (#[trigger] segments(
                recs,
                list,
                base,
                t,
                unnamed,
            )[k]).resident is None,
    ensures
        ({
            let segs = segments(recs, list, base, t, unnamed);
            exists|o: Seq<NtfsAttrView>|
                (resolved(recs, list, base, t, unnamed) matches Some(ResolvedView::Runs(runs, _)) && runs == #[trigger] all_runs(o))
                    && (forall|i: int, j: int| 0 <= i < j < o.len() ==> (#[trigger] o[i]).vcn < (#[trigger] o[j]).vcn) && (forall|j: int|
                    0 <= j < o.len() ==> first_of_its_vcn(segs, #[trigger] o[j])) && (forall|i: int|
                    0 <= i < segs.len() ==> vcns(o).contains((#[trigger] segs[i]).vcn))
        }),
{
    let segs = segments(recs, list, base, t, unnamed);
    let o = in_order(segs);
    none_is_resident(segs);
    extents_come_in_order(segs);
    assert forall|i: int, j: int| 0 <= i < j < o.len() implies (#[trigger] o[i]).vcn < (#[trigger] o[j]).vcn by {
        assert(vcns(o)[i] < vcns(o)[j]);
    }
    assert(resolved(recs, list, base, t, unnamed)->Some_0->Runs_0 == all_runs(o));
}

/// The extents of an attribute come in order: those in its own record first, then those in the
/// records that the attribute list names, one entry of it after the other.
pub proof fn own_extents_come_first(
    recs: Map<u64, NtfsRecordView>,
    a: Seq<AttrRef>,
    b: Seq<AttrRef>,
    base: u64,
    t: u32,
    unnamed: bool,
)
    ensures
        recs.contains_key(base) ==> segments(recs, a, base, t, unnamed) == recs[base].attrs.filter(
            |x: NtfsAttrView| x.type_ == t && !(unnamed && x.named),
        ) + listed_segments(recs, a, t, unnamed),
        !recs.contains_key(base) ==> segments(recs, a, base, t, unnamed) == listed_segments(recs, a, t, unnamed),
        listed_segments(recs, a + b, t, unnamed) == listed_segments(recs, a, t, unnamed) + listed_segments(recs, b, t, unnamed),
    decreases b.len(),
{
    if recs.contains_key(base) {
        attributes_looked_for(recs[base].attrs, t, unnamed);
    } else {
        assert(segments(recs, a, base, t, unnamed) =~= listed_segments(recs, a, t, unnamed));
    }
    let x = listed_segments(recs, a, t, unnamed);
    let y = listed_segments(recs, b, t, unnamed);
    if b.len() == 0 {
        assert(a + b =~= a);
        assert(x + y =~= x);
    } else {
        assert((a + b).drop_last() =~= a + b.drop_last());
        own_extents_come_first(recs, a, b.drop_last(), base, t, unnamed);
        assert(listed_segments(recs, a + b, t, unnamed) =~= x + y);
    }
}

} // verus!
