//! What to search when carving, and how carved files are named.

use crate::carve::{carved, carved_files_are_apart, sound_file, Carved, CarvedView};
use crate::clusters::{free_byte_ranges, free_ranges_are_exact, free_runs, free_runs_are_exact, in_a_run, AllocationView};
use crate::model::{title_of, views, views_push, volume_title, Volume, VolumeView};
use crate::scan::{free_ranges, free_space, in_one_piece};
use crate::source::{bytes_or_message, holds, read, Error, Source};
use crate::text::{decimal, decimal_text, decimal_text_spells, spelled_number};
use crate::volume::{volumes, volumes_on};
use vstd::prelude::*;

verus! {

/// The byte ranges to search, and what is to be said about volumes without a usable table.
pub struct Plan {
    pub ranges: Vec<(u64, u64)>,
    pub warnings: Vec<String>,
}

/// The view of `Plan`.
pub struct PlanView {
    pub ranges: Seq<(u64, u64)>,
    pub warnings: Seq<Seq<char>>,
}

impl View for Plan {
    type V = PlanView;

    open spec fn view(&self) -> PlanView {
        PlanView { ranges: self.ranges@, warnings: views(self.warnings@) }
    }
}

/// The byte range of a volume.
pub open spec fn whole(v: VolumeView) -> (u64, u64) {
    (v.base, v.base.wrapping_add(v.size))
}

/// `p` with the volume `v` to be searched: its free space only, where that is asked for and
/// known, else all of it.
pub open spec fn with_volume<S: Source + ?Sized>(src: &S, free: bool, p: PlanView, v: VolumeView) -> PlanView {
    if !free {
        PlanView { ranges: p.ranges.push(whole(v)), ..p }
    } else {
        match free_space(src, v) {
            Ok(ranges) => PlanView { ranges: p.ranges + ranges, ..p },
            Err(e) => PlanView {
                ranges: p.ranges.push(whole(v)),
                warnings: p.warnings.push(
                    "  "@ + volume_title(v.label, v.fs) + ": "@ + e + " — carving the whole volume"@,
                ),
            },
        }
    }
}

/// The plan for the given volumes.
pub open spec fn plan_for<S: Source + ?Sized>(src: &S, free: bool, vols: Seq<VolumeView>) -> PlanView
    decreases vols.len(),
{
    if vols.len() == 0 {
        PlanView { ranges: seq![], warnings: seq![] }
    } else {
        with_volume(src, free, plan_for(src, free, vols.drop_last()), vols.last())
    }
}

/// The plan for `src`: its volumes, or all of it where it has none.
pub open spec fn plan_of<S: Source + ?Sized>(src: &S, free: bool) -> PlanView {
    if volumes_on(src).len() == 0 {
        PlanView { ranges: seq![(0, src.size())], warnings: seq![] }
    } else {
        plan_for(src, free, volumes_on(src))
    }
}

fn fallback_warning(v: &Volume, e: &str) -> (r: String)
    ensures
        r@ == "  "@ + volume_title(v.label@, v.fs@) + ": "@ + e@ + " — carving the whole volume"@,
{
    let mut r = "  ".to_owned();
    r.append(title_of(v.label.as_str(), v.fs).as_str());
    r.append(": ");
    r.append(e);
    r.append(" — carving the whole volume");
    r
}

/// What to search when carving `src`; with `free`, the free space of the volumes only.
pub fn carve_plan<S: Source + ?Sized>(src: &S, free: bool) -> (r: Plan)
    ensures
        r@ == plan_of(src, free),
{
    let vols = volumes(src);
    let ghost all = views(vols@);
    let mut ranges: Vec<(u64, u64)> = Vec::new();
    let mut warnings: Vec<String> = Vec::new();
    assert(views(warnings@) =~= seq![]);
    if vols.len() == 0 {
        ranges.push((0, src.len()));
        assert(ranges@ =~= seq![(0, src.size())]);
        return Plan { ranges, warnings };
    }
    let mut i: usize = 0;
    assert(ranges@ =~= seq![]);
    while i < vols.len()
        invariant
            i <= vols@.len(),
            all == views(vols@),
            (PlanView { ranges: ranges@, warnings: views(warnings@) }) == plan_for(src, free, all.take(i as int)),
        decreases vols@.len() - i,
    {
        assert(all.take(i + 1).drop_last() =~= all.take(i as int));
        let v = &vols[i];
        assert(all.take(i + 1).last() == v@);
        let range = (v.base, v.base.wrapping_add(v.size));
        if !free {
            ranges.push(range);
        } else {
            match free_ranges(src, v) {
                Ok(mut r) => {
                    ranges.append(&mut r);
                },
                Err(e) => {
                    let line = fallback_warning(v, e.message.as_str());
                    proof {
                        views_push(warnings@, line);
                    }
                    ranges.push(range);
                    warnings.push(line);
                },
            }
        }
        i += 1;
    }
    assert(all.take(i as int) =~= all);
    Plan { ranges, warnings }
}

/// `n` in decimal, with leading zeros up to `width` digits.
pub open spec fn padded(n: nat, width: nat) -> Seq<char> {
    let t = decimal_text(n);
    if t.len() >= width {
        t
    } else {
        Seq::new((width - t.len()) as nat, |i: int| '0') + t
    }
}

/// The path of the carved file number `n` (from 1 on).
pub open spec fn carved_path(n: nat, ext: Seq<char>) -> Seq<char> {
    "carved/"@ + padded(n, 6) + "."@ + ext
}

/// The path of the carved file number `n` (from 1 on).
pub fn carved_name(n: u64, ext: &str) -> (r: String)
    ensures
        r@ == carved_path(n as nat, ext@),
{
    let digits = decimal(n);
    let have = crate::text::chars_of(digits.as_str()).len();
    let mut number = String::new();
    let mut i: usize = have;
    assert(number@ =~= Seq::new(0, |i: int| '0'));
    while i < 6
        invariant
            have <= i,
            i <= 6 || i == have,
            number@ == Seq::new((i - have) as nat, |i: int| '0'),
        decreases 6 - i,
    {
        number.push('0');
        i += 1;
        assert(number@ =~= Seq::new((i - have) as nat, |i: int| '0'));
    }
    number.append(digits.as_str());
    assert(number@ =~= padded(n as nat, 6));
    let mut r = "carved/".to_owned();
    r.append(number.as_str());
    r.append(".");
    r.append(ext);
    r
}

/// What is to be written for the carved file `c`, number `n` (from 1 on): the path below the
/// output directory, and the bytes that stand on the source, or why there are none.
pub fn carved_file<S: Source + ?Sized>(src: &S, n: u64, c: &Carved) -> (r: (String, Result<Vec<u8>, Error>))
    ensures
        r.0@ == carved_path(n as nat, c@.ext),
        bytes_or_message(r.1) == src.at(c.offset, (c.len as usize) as nat),
{
    (carved_name(n, c.ext), read(src, c.offset, c.len as usize))
}

/// What is written for a carved file are the bytes that stand on the source where it was found.
pub proof fn carved_file_is_what_stands_there<S: Source + ?Sized>(src: &S, disk: Seq<u8>, c: CarvedView)
    requires
        holds(src, disk),
        c.offset + c.len <= disk.len(),
        c.len <= usize::MAX,
    ensures
        src.at(c.offset, (c.len as usize) as nat) == Ok::<Seq<u8>, Seq<char>>(
            disk.subrange(c.offset as int, c.offset + c.len),
        ),
{
}

/// Whether byte `o` of a heap of clusters lies in a free one.
pub open spec fn in_free_cluster(used: AllocationView, count: u64, start: u64, cs: u64, o: int) -> bool {
    let c = (o - start) / (cs as int);
    start <= o && 0 <= c < count && !used.in_use(c)
}

/// Carving the free space of a volume finds no live file: whatever is found in a free range
/// starts in a free cluster.
pub proof fn free_carving_skips_live_files<S: Source + ?Sized>(
    src: &S,
    used: AllocationView,
    count: u64,
    start: u64,
    cs: u64,
    i: int,
)
    requires
        cs > 0,
        start + count * cs <= u64::MAX,
        0 <= i < free_byte_ranges(used, count, start, cs).len(),
    ensures
        ({
            let r = free_byte_ranges(used, count, start, cs)[i];
            forall|k: int|
                0 <= k < carved(src, r.0, r.1).len() ==> in_free_cluster(
                    used,
                    count,
                    start,
                    cs,
                    (#[trigger] carved(src, r.0, r.1)[k]).offset as int,
                )
        }),
{
    free_ranges_are_exact(used, count, start, cs);
    free_runs_are_exact(used, 0, count as int);
    let r = free_byte_ranges(used, count, start, cs)[i];
    let run = free_runs(used, 0, count as int)[i];
    carved_files_are_apart(src, r.0, r.1);
    let a = run.0;
    let b = run.1;
    assert(0 <= a * cs < b * cs <= count * cs) by (nonlinear_arith)
        requires
            0 <= a < b <= count,
            cs > 0,
    ;
    assert(r.0 == start + a * cs && r.1 == start + b * cs);
    assert forall|k: int| 0 <= k < carved(src, r.0, r.1).len() implies in_free_cluster(
        used,
        count,
        start,
        cs,
        (#[trigger] carved(src, r.0, r.1)[k]).offset as int,
    ) by {
        let f = carved(src, r.0, r.1)[k];
        assert(sound_file(src, f, r.0 as int, r.1 as int));
        let d = f.offset - start;
        let c = d / (cs as int);
        assert(a <= c < b) by (nonlinear_arith)
            requires
                a * cs <= d < b * cs,
                c == d / (cs as int),
                cs > 0,
        ;
        assert(in_a_run(free_runs(used, 0, count as int), c));
    }
}

#[verifier::rlimit(40)]
proof fn plan_goes_on<S: Source + ?Sized>(src: &S, free: bool, vols: Seq<VolumeView>, n: int)
    requires
        0 <= n <= vols.len(),
    ensures
        ({
            let a = plan_for(src, free, vols.take(n));
            let b = plan_for(src, free, vols);
            &&& a.ranges.len() <= b.ranges.len() && a.ranges == b.ranges.take(a.ranges.len() as int)
            &&& a.warnings.len() <= b.warnings.len() && a.warnings == b.warnings.take(a.warnings.len() as int)
        }),
        !free ==> plan_for(src, free, vols).ranges.len() == vols.len() && plan_for(src, free, vols).warnings.len() == 0,
    decreases vols.len(),
{
    let a = plan_for(src, free, vols.take(n));
    let b = plan_for(src, free, vols);
    if vols.len() > 0 {
        let init = vols.drop_last();
        plan_goes_on(
            src,
            free,
            init,
            if n < init.len() {
                n
            } else {
                init.len() as int
            },
        );
        if n < vols.len() {
            assert(init.take(n) =~= vols.take(n));
            let c = plan_for(src, free, init);
            assert(b.ranges.take(a.ranges.len() as int) =~= c.ranges.take(a.ranges.len() as int));
            assert(b.warnings.take(a.warnings.len() as int) =~= c.warnings.take(a.warnings.len() as int));
        }
    }
    if n == vols.len() {
        assert(vols.take(n) =~= vols);
        assert(b.ranges.take(b.ranges.len() as int) =~= b.ranges);
        assert(b.warnings.take(b.warnings.len() as int) =~= b.warnings);
    }
}

/// Every volume is searched: from its first byte to its last, or, where only free space is asked
/// for, in all of its free ranges. A volume whose free space is not known is searched whole, and
/// that is said.
#[verifier::rlimit(40)]
pub proof fn every_volume_is_searched<S: Source + ?Sized>(src: &S, free: bool, k: int)
    requires
        0 <= k < volumes_on(src).len(),
        volumes_on(src)[k].base + volumes_on(src)[k].size <= u64::MAX,
    ensures
        ({
            let v = volumes_on(src)[k];
            let p = plan_of(src, free);
            let end = (v.base + v.size) as u64;
            let title = v.label + " ("@ + v.fs + ")"@;
            &&& !free ==> p.ranges.len() == volumes_on(src).len() && p.ranges[k] == (v.base, end) && p.warnings.len() == 0
            &&& free ==> match free_space(src, v) {
                Ok(ranges) => in_one_piece(p.ranges, ranges),
                Err(e) => p.ranges.contains((v.base, end)) && p.warnings.contains(
                    "  "@ + title + ": "@ + e + " — carving the whole volume"@,
                ),
            }
        }),
{
    let all = volumes_on(src);
    let v = all[k];
    let p = plan_of(src, free);
    plan_goes_on(src, free, all, k + 1);
    assert(all.take(k + 1).drop_last() =~= all.take(k));
    assert(all.take(k + 1).last() == v);
    plan_goes_on(src, free, all.take(k), k);
    let a = plan_for(src, free, all.take(k));
    let b = plan_for(src, free, all.take(k + 1));
    assert(b == with_volume(src, free, a, v));
    let end = (v.base + v.size) as u64;
    let o = a.ranges.len() as int;
    if !free {
        assert(b.ranges[o] == (v.base, end));
        assert(p.ranges[o] == (v.base, end));
    } else {
        match free_space(src, v) {
            Ok(ranges) => {
                assert forall|i: int| 0 <= i < ranges.len() implies ranges[i] == p.ranges[o + i] by {
                    assert(b.ranges[o + i] == ranges[i]);
                }
                assert(ranges =~= p.ranges.subrange(o, o + ranges.len()));
            },
            Err(e) => {
                let line = "  "@ + (v.label + " ("@ + v.fs + ")"@) + ": "@ + e + " — carving the whole volume"@;
                assert(b.ranges[o] == (v.base, end));
                assert(p.ranges[o] == (v.base, end));
                let w = a.warnings.len() as int;
                assert(b.warnings[w] == line);
                assert(p.warnings[w] == line);
            },
        }
    }
}

/// A source without volumes is searched from end to end.
pub proof fn bare_source_is_searched_whole<S: Source + ?Sized>(src: &S, free: bool)
    requires
        volumes_on(src).len() == 0,
    ensures
        plan_of(src, free).ranges.len() == 1,
        plan_of(src, free).ranges[0].0 == 0,
        plan_of(src, free).ranges[0].1 == src.size(),
        plan_of(src, free).warnings.len() == 0,
{
}

proof fn leading_zeros_count_nothing(t: Seq<char>, n: nat)
    ensures
        spelled_number(Seq::new(n, |i: int| '0') + t) == spelled_number(t),
    decreases n + t.len(),
{
    let all = Seq::new(n, |i: int| '0') + t;
    if t.len() > 0 {
        assert(all.drop_last() =~= Seq::new(n, |i: int| '0') + t.drop_last());
        leading_zeros_count_nothing(t.drop_last(), n);
    } else if n > 0 {
        assert(all.drop_last() =~= Seq::new((n - 1) as nat, |i: int| '0') + t);
        leading_zeros_count_nothing(t, (n - 1) as nat);
    } else {
        assert(all =~= t);
    }
}

/// A carved file is named by its number, in at least six digits, and the extension of its kind.
pub proof fn carved_files_are_numbered(n: nat, ext: Seq<char>)
    ensures
        exists|d: Seq<char>|
            carved_path(n, ext) == "carved/"@ + d + "."@ + ext && #[trigger] spelled_number(d) == n && d.len() >= 6 && (d.len() > 6
                ==> d[0] != '0') && forall|i: int| 0 <= i < d.len() ==> '0' <= #[trigger] d[i] <= '9',
{
    decimal_text_spells(n);
    let t = decimal_text(n);
    let d = padded(n, 6);
    if t.len() < 6 {
        leading_zeros_count_nothing(t, (6 - t.len()) as nat);
        assert forall|i: int| 0 <= i < d.len() implies '0' <= #[trigger] d[i] <= '9' by {
            if i >= 6 - t.len() {
                assert(d[i] == t[i - (6 - t.len())]);
            }
        }
    } else if n == 0 {
        assert(t.len() == 1);
    }
    assert(spelled_number(d) == n);
}

} // verus!
