//! NTFS: deleted MFT records keep their attributes until they are reused.

use crate::bytes::{ceil_div_reaches, fields_are_little_endian, shifting_doubles};
use crate::bytes::{ceil_div, copy_range, div_up, first_bytes, le16, le64, shift, shifted, u16le, u64le};
use crate::clusters::{bit_at, bit_set, cluster_runs, free_byte_ranges, free_ranges_are_exact, vol_map, volume_map, Allocation, AllocationView};
use crate::index::{index_name_map, is_directory, name_views, names_held, r_is_dir};
use crate::kind::{extension, guess_ext};
use crate::mft::{file_magic, fixed_up, named_view, ntfs_fixup, ntfs_record, record};
use crate::mft::{AttrRef, NtfsAttr, NtfsAttrView, NtfsRecord, NtfsRecordView};
use crate::model::{state, state_of, title_of, total_length, total_length_adds, views, views_push, volume_title};
use crate::model::{Data, DataView, Deleted, DeletedView, State, VolMap, VolMapView, Volume, VolumeView};
use crate::order::{add_key, ascending, with_key, with_key_stays_ascending};
use crate::recover::{bytes_at, bytes_at_adds, contents_are_what_stands_there, contents_of, extent_inside};
use crate::resolve::{attribute_list, record_attr_list, record_views, resolve_attr, resolved, Resolved, ResolvedView};
use crate::runs::{clusters_before, data_runs, ntfs_runs, Geometry};
use crate::source::{holds, read, Error, Source};
use crate::text::{decimal, decimal_text, joined};
use crate::volume::long_number_at;
use std::collections::HashMap;
use vstd::arithmetic::power2::pow2;
use vstd::prelude::*;

verus! {

/// The geometry that an NTFS boot sector gives.
#[derive(Clone, Copy)]
pub struct NtfsBoot {
    pub g: Geometry,
    /// Bytes per MFT record.
    pub rs: u64,
    /// First cluster of the MFT.
    pub mft: i64,
}

/// The geometry in the boot sector `b` of a volume at byte `base`. The record size is given
/// in clusters, or, as a negative number, as a power of two.
pub open spec fn ntfs_geometry(base: u64, b: Seq<u8>) -> NtfsBoot {
    let cs = (le16(b, 11) * b[13]) as u64;
    NtfsBoot {
        g: Geometry { base, cs },
        rs: if 0 < b[64] < 128 {
            (cs * b[64]) as u64
        } else {
            shifted(1, 0u8.wrapping_sub(b[64]))
        },
        mft: le64(b, 48) as i64,
    }
}

/// The first unnamed `$DATA` attribute.
pub open spec fn first_data(attrs: Seq<NtfsAttrView>) -> Option<NtfsAttrView>
    decreases attrs.len(),
{
    if attrs.len() == 0 {
        None
    } else if attrs[0].type_ == 0x80 && !attrs[0].named {
        Some(attrs[0])
    } else {
        first_data(attrs.skip(1))
    }
}

/// The runs of a record's first unnamed `$DATA` attribute, where it has any.
pub open spec fn first_data_runs(r: NtfsRecordView) -> Option<Seq<(Option<i64>, u64)>> {
    match first_data(r.attrs) {
        Some(a) => match a.runs {
            Some(raw) => Some(data_runs(raw)),
            None => None,
        },
        None => None,
    }
}

/// The geometry of the volume, and the runs of its MFT, by record 0.
#[verifier::opaque]
pub open spec fn mft_start<S: Source + ?Sized>(src: &S, base: u64) -> Result<(NtfsBoot, Seq<(Option<i64>, u64)>), Seq<char>> {
    match src.at(base, 512) {
        Err(e) => Err(e),
        Ok(b) => {
            let boot = ntfs_geometry(base, b);
            if boot.g.cs == 0 || boot.rs == 0 || boot.rs > 65536 {
                Err("bad NTFS boot sector"@)
            } else {
                match src.at(boot.g.offset(boot.mft), boot.rs as nat) {
                    Err(e) => Err(e),
                    Ok(raw) => if !fixed_up(raw, file_magic()).1 {
                        Err("MFT record 0 unreadable"@)
                    } else {
                        match first_data_runs(record(fixed_up(raw, file_magic()).0)) {
                            Some(runs) => Ok((boot, runs)),
                            None => Err("no $MFT data runs"@),
                        }
                    },
                }
            }
        },
    }
}

fn ntfs_boot(base: u64, b: &[u8]) -> (r: NtfsBoot)
    requires
        b@.len() == 512,
    ensures
        r == ntfs_geometry(base, b@),
{
    let bps = u16le(b, 11) as u64;
    let spc = b[13] as u64;
    assert(0 <= bps * spc <= 0xFFFF * 0xFF) by (nonlinear_arith)
        requires
            0 <= bps <= 0xFFFF,
            0 <= spc <= 0xFF,
    ;
    let cs = bps * spc;
    let cpr = b[64];
    let rs = if 0 < cpr && cpr < 128 {
        assert(0 <= cs * cpr <= 0xFFFF * 0xFF * 127) by (nonlinear_arith)
            requires
                0 <= cs <= 0xFFFF * 0xFF,
                0 <= cpr < 128,
        ;
        cs * cpr as u64
    } else {
        shift(1, 0u8.wrapping_sub(cpr))
    };
    NtfsBoot { g: Geometry { base, cs }, rs, mft: u64le(b, 48) as i64 }
}

fn find_data(r: &NtfsRecord) -> (d: Option<&NtfsAttr>)
    ensures
        match d {
            Some(a) => first_data(r@.attrs) == Some(a@),
            None => first_data(r@.attrs) is None,
        },
{
    let ghost all = r@.attrs;
    let mut i: usize = 0;
    assert(all.skip(0) =~= all);
    while i < r.attrs.len()
        invariant
            i <= r.attrs@.len(),
            all == views(r.attrs@),
            first_data(all.skip(i as int)) == first_data(all),
        decreases r.attrs@.len() - i,
    {
        assert(all.skip(i as int).skip(1) =~= all.skip(i + 1));
        assert(all.skip(i as int)[0] == r.attrs@[i as int]@);
        if r.attrs[i].type_ == 0x80 && !r.attrs[i].named {
            return Some(&r.attrs[i]);
        }
        i += 1;
    }
    None
}

/// What optional runs are to the reader of a specification.
pub open spec fn runs_view(r: Option<Vec<(Option<i64>, u64)>>) -> Option<Seq<(Option<i64>, u64)>> {
    match r {
        Some(r) => Some(r@),
        None => None,
    }
}

fn find_data_runs(r: &NtfsRecord) -> (d: Option<Vec<(Option<i64>, u64)>>)
    ensures
        runs_view(d) == first_data_runs(r@),
{
    match find_data(r) {
        Some(a) => match &a.runs {
            Some(raw) => Some(ntfs_runs(raw)),
            None => None,
        },
        None => None,
    }
}

/// Read the boot sector and record 0 of an NTFS volume at byte `base`.
pub fn ntfs_open<S: Source + ?Sized>(src: &S, base: u64) -> (r: Result<(NtfsBoot, Vec<(Option<i64>, u64)>), Error>)
    ensures
        match r {
            Ok((boot, runs)) => mft_start(src, base) == Ok::<(NtfsBoot, Seq<(Option<i64>, u64)>), Seq<char>>(
                (boot, runs@),
            ) && 0 < boot.g.cs <= 0xFFFF * 0xFF && 0 < boot.rs <= 65536 && boot.g.base == base,
            Err(e) => mft_start(src, base) == Err::<(NtfsBoot, Seq<(Option<i64>, u64)>), Seq<char>>(e@),
        },
{
    reveal(mft_start);
    let b = match read(src, base, 512) {
        Ok(b) => b,
        Err(e) => return Err(e),
    };
    let boot = ntfs_boot(base, &b);
    assert(0 <= le16(b@, 11) * b@[13] <= 0xFFFF * 0xFF) by (nonlinear_arith)
        requires
            0 <= le16(b@, 11) <= 0xFFFF,
            0 <= b@[13] <= 0xFF,
    ;
    if boot.g.cs == 0 || boot.rs == 0 || boot.rs > 65536 {
        return Err(Error::other("bad NTFS boot sector"));
    }
    let mut raw = match read(src, boot.g.lcn_off(boot.mft), boot.rs as usize) {
        Ok(b) => b,
        Err(e) => return Err(e),
    };
    if !ntfs_fixup(raw.as_mut_slice()) {
        return Err(Error::other("MFT record 0 unreadable"));
    }
    let rec0 = ntfs_record(&raw);
    match find_data_runs(&rec0) {
        Some(runs) => Ok((boot, runs)),
        None => Err(Error::other("no $MFT data runs")),
    }
}

/// The records of an MFT: by their number, and the numbers in ascending order.
pub struct Mft {
    pub recs: HashMap<u64, NtfsRecord>,
    pub keys: Vec<u64>,
    /// The number of the next record.
    pub next: u64,
}

/// The view of `Mft`.
pub struct MftView {
    pub recs: Map<u64, NtfsRecordView>,
    pub keys: Seq<u64>,
    pub next: u64,
}

impl View for Mft {
    type V = MftView;

    open spec fn view(&self) -> MftView {
        MftView { recs: record_views(self.recs@), keys: self.keys@, next: self.next }
    }
}

impl MftView {
    /// The number of every record is listed, once, in ascending order.
    pub open spec fn wf(self) -> bool {
        ascending(self.keys) && self.keys.to_set() == self.recs.dom()
    }
}

/// An MFT without records.
pub open spec fn empty_mft() -> MftView {
    MftView { recs: Map::empty(), keys: seq![], next: 0 }
}

/// `m` with the record in the bytes `raw` next; a record that is not sound is left out.
pub open spec fn with_record(m: MftView, raw: Seq<u8>) -> MftView {
    let (fixed, ok) = fixed_up(raw, file_magic());
    if ok {
        MftView {
            recs: m.recs.insert(m.next, record(fixed)),
            keys: with_key(m.keys, m.next),
            next: m.next.wrapping_add(1),
        }
    } else {
        MftView { next: m.next.wrapping_add(1), ..m }
    }
}

/// The record of `rs` bytes at `p`; the last one may be shorter.
pub open spec fn piece_at(b: Seq<u8>, rs: int, p: int) -> Seq<u8> {
    b.subrange(
        p,
        if p + rs <= b.len() {
            p + rs
        } else {
            b.len() as int
        },
    )
}

/// `m` with the records in `b` from byte `p` on.
pub open spec fn with_records(m: MftView, b: Seq<u8>, rs: int, p: int) -> MftView
    decreases
            if p < b.len() {
                b.len() - p
            } else {
                0
            },
{
    if p < 0 || p >= b.len() || rs <= 0 {
        m
    } else {
        with_records(with_record(m, piece_at(b, rs, p)), b, rs, p + rs)
    }
}

/// `m` with the records in the `total` bytes at `off`, from `pos` on, read by the mebibyte.
pub open spec fn with_run<S: Source + ?Sized>(src: &S, off: u64, rs: int, total: u64, pos: u64, m: MftView) -> Result<
    MftView,
    Seq<char>,
>
    decreases total - pos,
{
    if pos >= total {
        Ok(m)
    } else {
        let n = if total - pos < 0x10_0000 {
            (total - pos) as u64
        } else {
            0x10_0000
        };
        match src.at(off.wrapping_add(pos), n as nat) {
            Err(e) => Err(e),
            Ok(b) => with_run(src, off, rs, total, (pos + n) as u64, with_records(m, b, rs, 0)),
        }
    }
}

/// `m` with the records in the given runs. A sparse run holds as many numbers as records
/// would fit.
pub open spec fn with_runs<S: Source + ?Sized>(src: &S, boot: NtfsBoot, runs: Seq<(Option<i64>, u64)>, m: MftView) -> Result<
    MftView,
    Seq<char>,
>
    decreases runs.len(),
{
    if runs.len() == 0 {
        Ok(m)
    } else {
        let total = boot.g.length(runs[0].1);
        match runs[0].0 {
            None => with_runs(src, boot, runs.skip(1), MftView { next: m.next.wrapping_add(total / boot.rs), ..m }),
            Some(l) => match with_run(src, boot.g.offset(l), boot.rs as int, total, 0, m) {
                Err(e) => Err(e),
                Ok(m) => with_runs(src, boot, runs.skip(1), m),
            },
        }
    }
}

proof fn with_records_keeps_wf(m: MftView, b: Seq<u8>, rs: int, p: int)
    requires
        m.wf(),
    ensures
        with_records(m, b, rs, p).wf(),
    decreases
            if p < b.len() {
                b.len() - p
            } else {
                0
            },
{
    if !(p < 0 || p >= b.len() || rs <= 0) {
        let next = with_record(m, piece_at(b, rs, p));
        with_key_stays_ascending(m.keys, m.next);
        assert(next.keys.to_set() =~= next.recs.dom());
        with_records_keeps_wf(next, b, rs, p + rs);
    }
}

proof fn with_run_keeps_wf<S: Source + ?Sized>(src: &S, off: u64, rs: int, total: u64, pos: u64, m: MftView)
    requires
        m.wf(),
    ensures
        with_run(src, off, rs, total, pos, m) matches Ok(r) ==> r.wf(),
    decreases total - pos,
{
    if pos < total {
        let n = if total - pos < 0x10_0000 {
            (total - pos) as u64
        } else {
            0x10_0000
        };
        if let Ok(b) = src.at(off.wrapping_add(pos), n as nat) {
            with_records_keeps_wf(m, b, rs, 0);
            with_run_keeps_wf(src, off, rs, total, (pos + n) as u64, with_records(m, b, rs, 0));
        }
    }
}

/// However an MFT is laid out, reading it lists the number of every record found, once, in
/// ascending order.
pub proof fn mft_lists_its_records<S: Source + ?Sized>(src: &S, boot: NtfsBoot, runs: Seq<(Option<i64>, u64)>, m: MftView)
    requires
        m.wf(),
    ensures
        with_runs(src, boot, runs, m) matches Ok(r) ==> r.wf(),
    decreases runs.len(),
{
    if runs.len() > 0 {
        let total = boot.g.length(runs[0].1);
        match runs[0].0 {
            None => {
                let next = MftView { next: m.next.wrapping_add(total / boot.rs), ..m };
                mft_lists_its_records(src, boot, runs.skip(1), next);
            },
            Some(l) => {
                with_run_keeps_wf(src, boot.g.offset(l), boot.rs as int, total, 0, m);
                if let Ok(next) = with_run(src, boot.g.offset(l), boot.rs as int, total, 0, m) {
                    mft_lists_its_records(src, boot, runs.skip(1), next);
                }
            },
        }
    }
}

impl Mft {
    /// Take the record in the bytes `raw` as the next one.
    fn add_record(&mut self, raw: &[u8])
        ensures
            final(self)@ == with_record(old(self)@, raw@),
    {
        let mut copy = copy_range(raw, 0, raw.len());
        assert(copy@ =~= raw@);
        if ntfs_fixup(copy.as_mut_slice()) {
            let rec = ntfs_record(&copy);
            let ghost recs0 = self.recs@;
            add_key(&mut self.keys, self.next);
            self.recs.insert(self.next, rec);
            assert(record_views(self.recs@) =~= record_views(recs0).insert(self.next, rec@));
        }
        self.next = self.next.wrapping_add(1);
    }

    /// Take the records in `b`.
    fn add_records(&mut self, b: &[u8], rs: usize)
        requires
            rs > 0,
        ensures
            final(self)@ == with_records(old(self)@, b@, rs as int, 0),
    {
        assert(b@.len() == b.len());
        let mut p: usize = 0;
        while p < b.len()
            invariant
                p <= b@.len() == b.len(),
                rs > 0,
                with_records(self@, b@, rs as int, p as int) == with_records(old(self)@, b@, rs as int, 0),
            decreases b@.len() - p,
        {
            let end = if rs <= b.len() - p {
                p + rs
            } else {
                b.len()
            };
            let piece = vstd::slice::slice_subrange(b, p, end);
            assert(piece@ == piece_at(b@, rs as int, p as int));
            self.add_record(piece);
            assert(with_records(self@, b@, rs as int, p + rs) == with_records(self@, b@, rs as int, end as int));
            p = end;
        }
    }
}

fn read_mft<S: Source + ?Sized>(src: &S, boot: NtfsBoot, runs: &[(Option<i64>, u64)]) -> (r: Result<Mft, Error>)
    requires
        0 < boot.rs <= 65536,
    ensures
        match r {
            Ok(m) => with_runs(src, boot, runs@, empty_mft()) == Ok::<MftView, Seq<char>>(m@),
            Err(e) => with_runs(src, boot, runs@, empty_mft()) == Err::<MftView, Seq<char>>(e@),
        },
{
    let mut m = Mft { recs: HashMap::new(), keys: Vec::new(), next: 0 };
    assert(record_views(m.recs@) =~= Map::empty());
    assert(m.keys@ =~= seq![]);
    let mut i: usize = 0;
    assert(runs@.skip(0) =~= runs@);
    while i < runs.len()
        invariant
            i <= runs@.len(),
            0 < boot.rs <= 65536,
            with_runs(src, boot, runs@.skip(i as int), m@) == with_runs(src, boot, runs@, empty_mft()),
        decreases runs@.len() - i,
    {
        assert(runs@.skip(i as int).skip(1) =~= runs@.skip(i + 1));
        assert(runs@.skip(i as int)[0] == runs@[i as int]);
        let (lcn, cnt) = runs[i];
        let total = cnt.wrapping_mul(boot.g.cs);
        match lcn {
            None => {
                m.next = m.next.wrapping_add(total / boot.rs);
            },
            Some(l) => {
                let off = boot.g.lcn_off(l);
                let ghost m0 = m@;
                let mut pos: u64 = 0;
                while pos < total
                    invariant
                        i < runs@.len(),
                        0 < boot.rs <= 65536,
                        runs@.skip(i as int)[0] == (Some(l), cnt),
                        total == boot.g.length(cnt),
                        off == boot.g.offset(l),
                        with_run(src, off, boot.rs as int, total, pos, m@) == with_run(
                            src,
                            off,
                            boot.rs as int,
                            total,
                            0,
                            m0,
                        ),
                        with_runs(src, boot, runs@.skip(i as int), m0) == with_runs(src, boot, runs@, empty_mft()),
                    decreases total - pos,
                {
                    let n = if total - pos < 0x10_0000 {
                        total - pos
                    } else {
                        0x10_0000
                    };
                    let chunk = match read(src, off.wrapping_add(pos), n as usize) {
                        Ok(b) => b,
                        Err(e) => return Err(e),
                    };
                    m.add_records(&chunk, boot.rs as usize);
                    pos += n;
                }
            },
        }
        i += 1;
    }
    Ok(m)
}

/// The cluster bitmap, by the contents of record 6.
pub open spec fn cluster_bitmap<S: Source + ?Sized>(src: &S, g: Geometry, recs: Map<u64, NtfsRecordView>) -> Seq<u8> {
    match resolved(recs, attribute_list(recs, 6, src, g), 6, 0x80, true) {
        Some(ResolvedView::Resident(b)) => b,
        Some(ResolvedView::Runs(runs, size)) => g.value(src, runs, size),
        None => seq![],
    }
}

fn read_bitmap<S: Source + ?Sized>(src: &S, g: Geometry, recs: &HashMap<u64, NtfsRecord>) -> (r: Vec<u8>)
    ensures
        r@ == cluster_bitmap(src, g, record_views(recs@)),
{
    let list = record_attr_list(recs, 6, src, g);
    match resolve_attr(recs, &list, 6, 0x80, true) {
        Some(Resolved::Resident(b)) => b,
        Some(Resolved::Runs(runs, size)) => g.read_runs(src, &runs, size),
        None => Vec::new(),
    }
}

/// Whether record `i` is a deleted file that has contents but no name, wherever its attributes
/// stand.
pub open spec fn nameless<S: Source + ?Sized>(src: &S, g: Geometry, recs: Map<u64, NtfsRecordView>, i: u64) -> bool {
    let list = attribute_list(recs, i, src, g);
    &&& i >= 24
    &&& recs.contains_key(i)
    &&& !recs[i].in_use
    &&& !recs[i].is_dir
    &&& resolved(recs, list, i, 0x80, true) is Some
    &&& record_name(recs, recs[i], list) is None
}

/// Whether any of the records is a deleted file without a name.
pub open spec fn any_nameless<S: Source + ?Sized>(src: &S, g: Geometry, m: MftView) -> bool {
    exists|k: int| 0 <= k < m.keys.len() && nameless(src, g, m.recs, #[trigger] m.keys[k])
}

/// The names that the directories still hold; looked up only where a name is missing.
pub open spec fn spare_names<S: Source + ?Sized>(src: &S, g: Geometry, m: MftView) -> Map<u64, (u64, Seq<char>)> {
    if any_nameless(src, g, m) {
        names_held(m.recs, m.keys, src, g)
    } else {
        Map::empty()
    }
}

fn find_names<S: Source + ?Sized>(src: &S, g: Geometry, m: &Mft) -> (r: HashMap<u64, (u64, String)>)
    ensures
        name_views(r@) == spare_names(src, g, m@),
{
    let mut i: usize = 0;
    while i < m.keys.len()
        invariant
            i <= m.keys@.len(),
            forall|k: int| 0 <= k < i ==> !nameless(src, g, m@.recs, #[trigger] m.keys@[k]),
        decreases m.keys@.len() - i,
    {
        let key = m.keys[i];
        if key >= 24 {
            if let Some(r) = m.recs.get(&key) {
                if !r.in_use && !r.is_dir {
                    let list = record_attr_list(&m.recs, key, src, g);
                    if find_name(&m.recs, r, &list).is_none() && resolve_attr(&m.recs, &list, key, 0x80, true).is_some() {
                        assert(nameless(src, g, m@.recs, m@.keys[i as int]));
                        return index_name_map(&m.recs, m.keys.as_slice(), src, g);
                    }
                }
            }
        }
        i += 1;
    }
    let none: HashMap<u64, (u64, String)> = HashMap::new();
    assert(name_views(none@) =~= Map::empty());
    none
}

/// The path of `tail` in directory record `parent`, followed up through `steps` directories
/// at most. One that does not reach the root directory (record 5) is an orphan's.
pub open spec fn path_in(recs: Map<u64, NtfsRecordView>, parent: u64, tail: Seq<char>, steps: nat) -> Seq<char>
    decreases steps,
{
    if steps > 0 && parent == 5 {
        tail
    } else if steps > 0 && is_directory(recs, parent) && recs[parent].name() is Some {
        let (p, n) = recs[parent].name()->Some_0;
        path_in(recs, p, n + "/"@ + tail, (steps - 1) as nat)
    } else {
        "$Orphan/"@ + tail
    }
}

fn path_of(recs: &HashMap<u64, NtfsRecord>, first: u64, name: &str) -> (r: String)
    ensures
        r@ == path_in(record_views(recs@), first, name@, 64),
{
    let mut path = name.to_owned();
    let mut parent = first;
    let mut steps: u64 = 64;
    while steps > 0
        invariant
            steps <= 64,
            path_in(record_views(recs@), parent, path@, steps as nat) == path_in(
                record_views(recs@),
                first,
                name@,
                64,
            ),
        ensures
            path_in(record_views(recs@), first, name@, 64) == "$Orphan/"@ + path@,
        decreases steps,
    {
        if parent == 5 {
            return path;
        }
        if !r_is_dir(recs, parent) {
            break ;
        }
        match recs.get(&parent) {
            Some(r) => match r.name() {
                Some((p, n)) => {
                    let mut longer = joined(n.as_str(), "/");
                    longer.append(path.as_str());
                    path = longer;
                    parent = p;
                },
                None => {
                    break ;
                },
            },
            None => {
                break ;
            },
        }
        steps -= 1;
    }
    joined("$Orphan/", path.as_str())
}

/// The name in the first of the listed records that has one.
pub open spec fn listed_name(recs: Map<u64, NtfsRecordView>, list: Seq<AttrRef>) -> Option<(u64, Seq<char>)>
    decreases list.len(),
{
    if list.len() == 0 {
        None
    } else if list[0].type_ == 0x30 && recs.contains_key(list[0].record) && recs[list[0].record].name() is Some {
        recs[list[0].record].name()
    } else {
        listed_name(recs, list.skip(1))
    }
}

/// The name of a record: its own, or that in a record that its attribute list names.
pub open spec fn record_name(recs: Map<u64, NtfsRecordView>, r: NtfsRecordView, list: Seq<AttrRef>) -> Option<
    (u64, Seq<char>),
> {
    if r.name() is Some {
        r.name()
    } else {
        listed_name(recs, list)
    }
}

fn find_name(recs: &HashMap<u64, NtfsRecord>, r: &NtfsRecord, list: &[AttrRef]) -> (n: Option<(u64, String)>)
    ensures
        named_view(n) == record_name(record_views(recs@), r@, list@),
{
    let own = r.name();
    if own.is_some() {
        return own;
    }
    let mut i: usize = 0;
    assert(list@.skip(0) =~= list@);
    while i < list.len()
        invariant
            i <= list@.len(),
            r@.name() is None,
            listed_name(record_views(recs@), list@.skip(i as int)) == listed_name(record_views(recs@), list@),
        decreases list@.len() - i,
    {
        assert(list@.skip(i as int).skip(1) =~= list@.skip(i + 1));
        if list[i].type_ == 0x30 {
            if let Some(x) = recs.get(&list[i].record) {
                let n = x.name();
                if n.is_some() {
                    return n;
                }
            }
        }
        i += 1;
    }
    None
}

/// The first bytes of a value, sixteen at most, as far as they can be read.
pub open spec fn head_of<S: Source + ?Sized>(src: &S, g: Geometry, data: ResolvedView) -> Seq<u8> {
    match data {
        ResolvedView::Resident(b) => first_bytes(b, 16),
        ResolvedView::Runs(runs, _) => if runs.len() > 0 && runs[0].0 is Some {
            match src.at(g.offset(runs[0].0->Some_0), 16) {
                Ok(b) => b,
                Err(_) => seq![],
            }
        } else {
            seq![]
        },
    }
}

fn read_head<S: Source + ?Sized>(src: &S, g: Geometry, data: &Resolved) -> (r: Vec<u8>)
    ensures
        r@ == head_of(src, g, data@),
{
    match data {
        Resolved::Resident(b) => {
            let n = if b.len() < 16 {
                b.len()
            } else {
                16
            };
            let r = copy_range(b, 0, n);
            assert(r@ =~= first_bytes(b@, 16));
            r
        },
        Resolved::Runs(runs, _) => {
            if runs.len() > 0 {
                if let (Some(l), _) = runs[0] {
                    match read(src, g.lcn_off(l), 16) {
                        Ok(b) => return b,
                        Err(_) => {},
                    }
                }
            }
            Vec::new()
        },
    }
}

/// The path of the deleted record `i`: by its name, by the name that a directory still holds
/// for it, or, without either, by its number and the kind of its contents.
pub open spec fn deleted_path<S: Source + ?Sized>(
    src: &S,
    g: Geometry,
    recs: Map<u64, NtfsRecordView>,
    names: Map<u64, (u64, Seq<char>)>,
    i: u64,
    list: Seq<AttrRef>,
    data: ResolvedView,
) -> Seq<char> {
    match record_name(recs, recs[i], list) {
        Some((parent, name)) => path_in(recs, parent, name, 64),
        None => if names.contains_key(i) {
            path_in(recs, names[i].0, names[i].1, 64)
        } else {
            "$NoName/record-"@ + decimal_text(i as nat) + "."@ + extension(head_of(src, g, data))
        },
    }
}

/// The bytes of a value of which `left` are missing that stand in a run.
pub open spec fn run_share(g: Geometry, run: (Option<i64>, u64), left: u64) -> u64 {
    if g.length(run.1) < left {
        g.length(run.1)
    } else {
        left
    }
}

/// Where the next `left` bytes of a value stand; an empty run ends it.
pub open spec fn value_extents(g: Geometry, runs: Seq<(Option<i64>, u64)>, left: u64) -> Seq<(Option<u64>, u64)>
    decreases runs.len(),
{
    if runs.len() == 0 || run_share(g, runs[0], left) == 0 {
        seq![]
    } else {
        let n = run_share(g, runs[0], left);
        let at = match runs[0].0 {
            Some(l) => Some(g.offset(l)),
            None => None,
        };
        seq![(at, n)] + value_extents(g, runs.skip(1), (left - n) as u64)
    }
}

/// How many clusters those bytes take; sparse runs take none.
pub open spec fn value_clusters(g: Geometry, runs: Seq<(Option<i64>, u64)>, left: u64) -> nat
    decreases runs.len(),
{
    if runs.len() == 0 || run_share(g, runs[0], left) == 0 {
        0
    } else {
        let n = run_share(g, runs[0], left);
        let here = match runs[0].0 {
            Some(_) => ceil_div(n as nat, g.cs as nat),
            None => 0,
        };
        here + value_clusters(g, runs.skip(1), (left - n) as u64)
    }
}

/// How many of the `k` clusters from `l` on are in use.
pub open spec fn run_used(bits: Seq<u8>, l: i64, k: nat) -> nat
    decreases k,
{
    if k == 0 {
        0
    } else {
        run_used(bits, l, (k - 1) as nat) + if bit_set(bits, (l as u64).wrapping_add((k - 1) as u64) as int) {
            1nat
        } else {
            0nat
        }
    }
}

/// How many of the clusters of those bytes are in use.
pub open spec fn value_used(g: Geometry, bits: Seq<u8>, runs: Seq<(Option<i64>, u64)>, left: u64) -> nat
    decreases runs.len(),
{
    if runs.len() == 0 || run_share(g, runs[0], left) == 0 {
        0
    } else {
        let n = run_share(g, runs[0], left);
        let here = match runs[0].0 {
            Some(l) => run_used(bits, l, ceil_div(n as nat, g.cs as nat)),
            None => 0,
        };
        here + value_used(g, bits, runs.skip(1), (left - n) as u64)
    }
}

/// A run has no more clusters in use than clusters.
pub proof fn run_used_bound(bits: Seq<u8>, l: i64, k: nat)
    ensures
        run_used(bits, l, k) <= k,
    decreases k,
{
    if k > 0 {
        run_used_bound(bits, l, (k - 1) as nat);
    }
}

/// Data, size and state of a deleted file with the value `data`. What stands in the record
/// itself is intact.
pub open spec fn deleted_data(g: Geometry, bits: Seq<u8>, data: ResolvedView) -> (DataView, u64, State) {
    match data {
        ResolvedView::Resident(b) => (DataView::Resident(b), b.len() as u64, State::Intact),
        ResolvedView::Runs(runs, size) => {
            let total = value_clusters(g, runs, size);
            (
                DataView::Extents(value_extents(g, runs, size)),
                size,
                state_of(
                    value_used(g, bits, runs, size) as int,
                    if total == 0 {
                        1
                    } else {
                        total as int
                    },
                ),
            )
        },
    }
}

fn count_run(bits: &[u8], l: i64, n: u64) -> (r: u64)
    ensures
        r == run_used(bits@, l, n as nat),
{
    let mut used: u64 = 0;
    let mut k: u64 = 0;
    while k < n
        invariant
            k <= n,
            used <= k,
            used == run_used(bits@, l, k as nat),
        decreases n - k,
    {
        if bit_at(bits, (l as u64).wrapping_add(k)) {
            used += 1;
        }
        k += 1;
    }
    used
}

fn find_data_of(g: Geometry, bits: &[u8], data: Resolved) -> (r: (Data, u64, State))
    requires
        g.cs > 0,
    ensures
        (r.0@, r.1, r.2) == deleted_data(g, bits@, data@),
{
    match data {
        Resolved::Resident(b) => {
            let n = b.len() as u64;
            (Data::Resident(b), n, State::Intact)
        },
        Resolved::Runs(runs, size) => {
            let mut ext: Vec<(Option<u64>, u64)> = Vec::new();
            let mut total: u64 = 0;
            let mut used: u64 = 0;
            let mut left = size;
            let mut i: usize = 0;
            assert(runs@.skip(0) =~= runs@);
            assert(ext@ + value_extents(g, runs@, size) =~= value_extents(g, runs@, size));
            while i < runs.len()
                invariant
                    i <= runs@.len(),
                    g.cs > 0,
                    left <= size,
                    total <= size - left,
                    used <= total,
                    ext@ + value_extents(g, runs@.skip(i as int), left) == value_extents(g, runs@, size),
                    total + value_clusters(g, runs@.skip(i as int), left) == value_clusters(g, runs@, size),
                    used + value_used(g, bits@, runs@.skip(i as int), left) == value_used(g, bits@, runs@, size),
                ensures
                    ext@ == value_extents(g, runs@, size),
                    total == value_clusters(g, runs@, size),
                    used == value_used(g, bits@, runs@, size),
                decreases runs@.len() - i,
            {
                let ghost before = ext@;
                let ghost rest = runs@.skip(i as int);
                assert(rest.skip(1) =~= runs@.skip(i + 1));
                assert(rest[0] == runs@[i as int]);
                let (l, c) = runs[i];
                let len = c.wrapping_mul(g.cs);
                let bytes = if len < left {
                    len
                } else {
                    left
                };
                if bytes == 0 {
                    assert(ext@ + value_extents(g, rest, left) =~= ext@);
                    break ;
                }
                match l {
                    Some(l) => {
                        let n = div_up(bytes, g.cs);
                        proof {
                            run_used_bound(bits@, l, n as nat);
                        }
                        total += n;
                        used += count_run(bits, l, n);
                        ext.push((Some(g.lcn_off(l)), bytes));
                    },
                    None => {
                        ext.push((None, bytes));
                    },
                }
                assert(ext@ + value_extents(g, runs@.skip(i + 1), (left - bytes) as u64) =~= before + value_extents(
                    g,
                    rest,
                    left,
                ));
                left -= bytes;
                i += 1;
                assert(i == runs@.len() ==> ext@ + value_extents(g, runs@.skip(i as int), left) =~= ext@);
            }
            let all = if total == 0 {
                1
            } else {
                total
            };
            (Data::Extents(ext), size, state(used, all))
        },
    }
}

/// The deleted file in record `i`, if it is one and holds contents.
pub open spec fn deleted_record<S: Source + ?Sized>(
    src: &S,
    g: Geometry,
    title: Seq<char>,
    recs: Map<u64, NtfsRecordView>,
    bits: Seq<u8>,
    names: Map<u64, (u64, Seq<char>)>,
    i: u64,
) -> Option<DeletedView> {
    if i < 24 || !recs.contains_key(i) || recs[i].in_use || recs[i].is_dir {
        None
    } else {
        let list = attribute_list(recs, i, src, g);
        match resolved(recs, list, i, 0x80, true) {
            None => None,
            Some(data) => {
                let (d, size, state) = deleted_data(g, bits, data);
                Some(
                    DeletedView {
                        volume: title,
                        path: deleted_path(src, g, recs, names, i, list, data),
                        size,
                        state,
                        data: d,
                        note: None,
                    },
                )
            },
        }
    }
}

/// The deleted files in the records `keys`, in their order.
pub open spec fn deleted_records<S: Source + ?Sized>(
    src: &S,
    g: Geometry,
    title: Seq<char>,
    recs: Map<u64, NtfsRecordView>,
    bits: Seq<u8>,
    names: Map<u64, (u64, Seq<char>)>,
    keys: Seq<u64>,
) -> Seq<DeletedView>
    decreases keys.len(),
{
    if keys.len() == 0 {
        seq![]
    } else {
        let before = deleted_records(src, g, title, recs, bits, names, keys.drop_last());
        match deleted_record(src, g, title, recs, bits, names, keys.last()) {
            Some(f) => before.push(f),
            None => before,
        }
    }
}

/// What a scan of the NTFS volume `vol` finds: the deleted files, by ascending record
/// number, and the volume map.
#[verifier::opaque]
pub open spec fn ntfs_scan<S: Source + ?Sized>(src: &S, vol: VolumeView) -> Result<(Seq<DeletedView>, VolMapView), Seq<char>> {
    match mft_start(src, vol.base) {
        Err(e) => Err(e),
        Ok((boot, runs)) => match with_runs(src, boot, runs, empty_mft()) {
            Err(e) => Err(e),
            Ok(m) => {
                let bits = cluster_bitmap(src, boot.g, m.recs);
                let names = spare_names(src, boot.g, m);
                Ok(
                    (
                        deleted_records(src, boot.g, volume_title(vol.label, "NTFS"@), m.recs, bits, names, m.keys),
                        volume_map(vol, "NTFS"@, 0, boot.g.cs, vol.size / boot.g.cs, AllocationView::Bits(bits)),
                    ),
                )
            },
        },
    }
}

fn find_path<S: Source + ?Sized>(
    src: &S,
    g: Geometry,
    recs: &HashMap<u64, NtfsRecord>,
    names: &HashMap<u64, (u64, String)>,
    i: u64,
    r: &NtfsRecord,
    list: &[AttrRef],
    data: &Resolved,
) -> (path: String)
    requires
        recs@.contains_key(i),
        recs@[i] == *r,
    ensures
        path@ == deleted_path(src, g, record_views(recs@), name_views(names@), i, list@, data@),
{
    match find_name(recs, r, list) {
        Some((parent, name)) => path_of(recs, parent, name.as_str()),
        None => match names.get(&i) {
            Some(n) => path_of(recs, n.0, n.1.as_str()),
            None => {
                let head = read_head(src, g, data);
                let mut path = joined("$NoName/record-", decimal(i).as_str());
                path.append(".");
                path.append(guess_ext(&head));
                path
            },
        },
    }
}

fn find_deleted<S: Source + ?Sized>(
    src: &S,
    g: Geometry,
    title: &str,
    recs: &HashMap<u64, NtfsRecord>,
    bits: &[u8],
    names: &HashMap<u64, (u64, String)>,
    i: u64,
) -> (f: Option<Deleted>)
    requires
        g.cs > 0,
    ensures
        match f {
            Some(f) => deleted_record(src, g, title@, record_views(recs@), bits@, name_views(names@), i) == Some(f@),
            None => deleted_record(src, g, title@, record_views(recs@), bits@, name_views(names@), i) is None,
        },
{
    if i < 24 {
        return None;
    }
    match recs.get(&i) {
        None => None,
        Some(r) => {
            if r.in_use || r.is_dir {
                return None;
            }
            let list = record_attr_list(recs, i, src, g);
            match resolve_attr(recs, &list, i, 0x80, true) {
                None => None,
                Some(data) => {
                    let path = find_path(src, g, recs, names, i, r, &list, &data);
                    let (data, size, state) = find_data_of(g, bits, data);
                    Some(Deleted { volume: title.to_owned(), path, size, state, data, note: None })
                },
            }
        },
    }
}

/// The deleted files and the volume map of an NTFS volume.
pub fn ntfs<S: Source + ?Sized>(src: &S, vol: &Volume) -> (r: Result<(Vec<Deleted>, VolMap), Error>)
    ensures
        match r {
            Ok((files, map)) => ntfs_scan(src, vol@) == Ok::<(Seq<DeletedView>, VolMapView), Seq<char>>(
                (views(files@), map@),
            ),
            Err(e) => ntfs_scan(src, vol@) == Err::<(Seq<DeletedView>, VolMapView), Seq<char>>(e@),
        },
{
    reveal(ntfs_scan);
    let (boot, runs) = match ntfs_open(src, vol.base) {
        Ok(t) => t,
        Err(e) => return Err(e),
    };
    let g = boot.g;
    let m = match read_mft(src, boot, &runs) {
        Ok(m) => m,
        Err(e) => return Err(e),
    };
    let bits = read_bitmap(src, g, &m.recs);
    let map = vol_map(vol, "NTFS", 0, g.cs, vol.size / g.cs, Allocation::Bits(bits.as_slice()));
    let names = find_names(src, g, &m);
    let title = title_of(vol.label.as_str(), "NTFS");
    let mut out: Vec<Deleted> = Vec::new();
    let ghost table = record_views(m.recs@);
    let ghost spare = name_views(names@);
    assert(views(out@) =~= seq![]);
    let mut k: usize = 0;
    while k < m.keys.len()
        invariant
            k <= m.keys@.len(),
            g.cs > 0,
            table == record_views(m.recs@),
            spare == name_views(names@),
            views(out@) == deleted_records(src, g, title@, table, bits@, spare, m.keys@.take(k as int)),
        decreases m.keys@.len() - k,
    {
        assert(m.keys@.take(k + 1).drop_last() =~= m.keys@.take(k as int));
        if let Some(f) = find_deleted(src, g, title.as_str(), &m.recs, bits.as_slice(), &names, m.keys[k]) {
            proof {
                views_push(out@, f);
            }
            out.push(f);
        }
        k += 1;
    }
    assert(m.keys@.take(k as int) =~= m.keys@);
    Ok((out, map))
}

/// Where record `target` bytes into the MFT stands, by the runs from cluster byte `done` on:
/// nothing where it lies in a sparse run or behind the last one.
pub open spec fn mft_byte(g: Geometry, runs: Seq<(Option<i64>, u64)>, target: u64, done: u64) -> Option<u64>
    decreases runs.len(),
{
    if runs.len() == 0 {
        None
    } else {
        let end = done.wrapping_add(g.length(runs[0].1));
        if target < end {
            match runs[0].0 {
                Some(l) => Some(g.offset(l).wrapping_add(target.wrapping_sub(done))),
                None => None,
            }
        } else {
            mft_byte(g, runs.skip(1), target, end)
        }
    }
}

fn find_mft_byte(g: Geometry, runs: &[(Option<i64>, u64)], target: u64) -> (r: Option<u64>)
    ensures
        r == mft_byte(g, runs@, target, 0),
{
    let mut done: u64 = 0;
    let mut i: usize = 0;
    assert(runs@.skip(0) =~= runs@);
    while i < runs.len()
        invariant
            i <= runs@.len(),
            mft_byte(g, runs@.skip(i as int), target, done) == mft_byte(g, runs@, target, 0),
        decreases runs@.len() - i,
    {
        assert(runs@.skip(i as int).skip(1) =~= runs@.skip(i + 1));
        let (l, c) = runs[i];
        let end = done.wrapping_add(c.wrapping_mul(g.cs));
        if target < end {
            return match l {
                Some(l) => Some(g.lcn_off(l).wrapping_add(target.wrapping_sub(done))),
                None => None,
            };
        }
        done = end;
        i += 1;
    }
    None
}

/// Record 6, which holds the cluster bitmap; nothing where it cannot be read or is not sound.
pub open spec fn bitmap_record<S: Source + ?Sized>(src: &S, boot: NtfsBoot, runs: Seq<(Option<i64>, u64)>) -> Option<
    NtfsRecordView,
> {
    match mft_byte(boot.g, runs, (6 * boot.rs) as u64, 0) {
        None => None,
        Some(off) => match src.at(off, boot.rs as nat) {
            Err(_) => None,
            Ok(b) => if fixed_up(b, file_magic()).1 {
                Some(record(fixed_up(b, file_magic()).0))
            } else {
                None
            },
        },
    }
}

/// The bytes of all runs, added up.
pub open spec fn runs_length(g: Geometry, runs: Seq<(Option<i64>, u64)>) -> u64
    decreases runs.len(),
{
    if runs.len() == 0 {
        0
    } else {
        runs_length(g, runs.drop_last()).wrapping_add(g.length(runs.last().1))
    }
}

/// The bitmap that its record describes: as many bytes as it says, or as the runs hold.
pub open spec fn bitmap_of<S: Source + ?Sized>(src: &S, g: Geometry, r: NtfsRecordView) -> Option<Seq<u8>> {
    match first_data_runs(r) {
        None => None,
        Some(runs) => {
            let size = first_data(r.attrs)->Some_0.size;
            Some(
                g.value(
                    src,
                    runs,
                    if size > 0 {
                        size
                    } else {
                        runs_length(g, runs)
                    },
                ),
            )
        },
    }
}

/// The free space of the NTFS volume `vol`, as byte ranges.
#[verifier::opaque]
pub open spec fn ntfs_free_ranges<S: Source + ?Sized>(src: &S, vol: VolumeView) -> Result<Seq<(u64, u64)>, Seq<char>> {
    match mft_start(src, vol.base) {
        Err(e) => Err(e),
        Ok((boot, runs)) => match bitmap_record(src, boot, runs) {
            None => Err("no $Bitmap record"@),
            Some(r) => match bitmap_of(src, boot.g, r) {
                None => Err("no $Bitmap data runs"@),
                Some(bits) => Ok(
                    free_byte_ranges(AllocationView::Bits(bits), vol.size / boot.g.cs, vol.base, boot.g.cs),
                ),
            },
        },
    }
}

fn read_bitmap_record<S: Source + ?Sized>(src: &S, boot: NtfsBoot, runs: &[(Option<i64>, u64)]) -> (r: Option<NtfsRecord>)
    requires
        0 < boot.rs <= 65536,
    ensures
        match r {
            Some(r) => bitmap_record(src, boot, runs@) == Some(r@),
            None => bitmap_record(src, boot, runs@) is None,
        },
{
    match find_mft_byte(boot.g, runs, 6 * boot.rs) {
        None => None,
        Some(off) => match read(src, off, boot.rs as usize) {
            Err(_) => None,
            Ok(mut b) => {
                if ntfs_fixup(b.as_mut_slice()) {
                    Some(ntfs_record(&b))
                } else {
                    None
                }
            },
        },
    }
}

fn add_lengths(g: Geometry, runs: &[(Option<i64>, u64)]) -> (r: u64)
    ensures
        r == runs_length(g, runs@),
{
    let mut sum: u64 = 0;
    let mut i: usize = 0;
    while i < runs.len()
        invariant
            i <= runs@.len(),
            sum == runs_length(g, runs@.take(i as int)),
        decreases runs@.len() - i,
    {
        assert(runs@.take(i + 1).drop_last() =~= runs@.take(i as int));
        sum = sum.wrapping_add(runs[i].1.wrapping_mul(g.cs));
        i += 1;
    }
    assert(runs@.take(i as int) =~= runs@);
    sum
}

/// The free ranges of an NTFS volume.
pub fn ntfs_free<S: Source + ?Sized>(src: &S, vol: &Volume) -> (r: Result<Vec<(u64, u64)>, Error>)
    ensures
        match r {
            Ok(v) => ntfs_free_ranges(src, vol@) == Ok::<Seq<(u64, u64)>, Seq<char>>(v@),
            Err(e) => ntfs_free_ranges(src, vol@) == Err::<Seq<(u64, u64)>, Seq<char>>(e@),
        },
{
    reveal(ntfs_free_ranges);
    let (boot, runs) = match ntfs_open(src, vol.base) {
        Ok(t) => t,
        Err(e) => return Err(e),
    };
    let g = boot.g;
    let rec6 = match read_bitmap_record(src, boot, &runs) {
        Some(r) => r,
        None => return Err(Error::other("no $Bitmap record")),
    };
    let attr6 = find_data(&rec6);
    let (runs, size) = match attr6 {
        Some(a) => match &a.runs {
            Some(raw) => (ntfs_runs(raw), a.size),
            None => return Err(Error::other("no $Bitmap data runs")),
        },
        None => return Err(Error::other("no $Bitmap data runs")),
    };
    let size = if size > 0 {
        size
    } else {
        add_lengths(g, &runs)
    };
    let bits = g.read_runs(src, &runs, size);
    Ok(cluster_runs(vol.size / g.cs, Allocation::Bits(bits.as_slice()), vol.base, g.cs))
}

/// Whether `f` stands for one of the records `keys` that is not in use.
pub open spec fn was_deleted<S: Source + ?Sized>(
    src: &S,
    g: Geometry,
    title: Seq<char>,
    recs: Map<u64, NtfsRecordView>,
    bits: Seq<u8>,
    names: Map<u64, (u64, Seq<char>)>,
    keys: Seq<u64>,
    f: DeletedView,
) -> bool {
    exists|k: int|
        0 <= k < keys.len() && deleted_record(src, g, title, recs, bits, names, #[trigger] keys[k]) == Some(f)
            && recs.contains_key(keys[k]) && !recs[keys[k]].in_use
}

/// Live files are never listed: every file that is found stands for a record that is not in use.
pub proof fn listed_records_were_deleted<S: Source + ?Sized>(
    src: &S,
    g: Geometry,
    title: Seq<char>,
    recs: Map<u64, NtfsRecordView>,
    bits: Seq<u8>,
    names: Map<u64, (u64, Seq<char>)>,
    keys: Seq<u64>,
)
    ensures
        forall|i: int|
            0 <= i < deleted_records(src, g, title, recs, bits, names, keys).len() ==> was_deleted(
                src,
                g,
                title,
                recs,
                bits,
                names,
                keys,
                #[trigger] deleted_records(src, g, title, recs, bits, names, keys)[i],
            ),
    decreases keys.len(),
{
    if keys.len() > 0 {
        let init = keys.drop_last();
        listed_records_were_deleted(src, g, title, recs, bits, names, init);
        let before = deleted_records(src, g, title, recs, bits, names, init);
        let all = deleted_records(src, g, title, recs, bits, names, keys);
        assert(keys[keys.len() - 1] == keys.last());
        assert forall|i: int| 0 <= i < all.len() implies was_deleted(
            src,
            g,
            title,
            recs,
            bits,
            names,
            keys,
            #[trigger] all[i],
        ) by {
            if i < before.len() {
                assert(all[i] == before[i]);
                let k = choose|k: int|
                    0 <= k < init.len() && deleted_record(src, g, title, recs, bits, names, #[trigger] init[k]) == Some(
                        before[i],
                    ) && recs.contains_key(init[k]) && !recs[init[k]].in_use;
                assert(keys[k] == init[k]);
            }
        }
    }
}

/// No deleted file is left out: each record that stands for one is listed.
pub proof fn deleted_records_are_listed<S: Source + ?Sized>(
    src: &S,
    g: Geometry,
    title: Seq<char>,
    recs: Map<u64, NtfsRecordView>,
    bits: Seq<u8>,
    names: Map<u64, (u64, Seq<char>)>,
    keys: Seq<u64>,
    k: int,
)
    requires
        0 <= k < keys.len(),
    ensures
        deleted_record(src, g, title, recs, bits, names, keys[k]) matches Some(f) ==> deleted_records(
            src,
            g,
            title,
            recs,
            bits,
            names,
            keys,
        ).contains(f),
    decreases keys.len(),
{
    let init = keys.drop_last();
    let all = deleted_records(src, g, title, recs, bits, names, keys);
    if let Some(f) = deleted_record(src, g, title, recs, bits, names, keys[k]) {
        if k < init.len() {
            assert(init[k] == keys[k]);
            deleted_records_are_listed(src, g, title, recs, bits, names, init, k);
            let before = deleted_records(src, g, title, recs, bits, names, init);
            let i = choose|i: int| 0 <= i < before.len() && before[i] == f;
            assert(all[i] == f);
        } else {
            assert(all[all.len() - 1] == f);
        }
    }
}

/// A file is listed by its record number only where no directory holds a name for it, not even
/// in the slack of an index.
pub proof fn record_numbers_come_last<S: Source + ?Sized>(src: &S, g: Geometry, m: MftView, k: int)
    requires
        0 <= k < m.keys.len(),
        nameless(src, g, m.recs, m.keys[k]),
    ensures
        spare_names(src, g, m) == names_held(m.recs, m.keys, src, g),
        ({
            let i = m.keys[k];
            let list = attribute_list(m.recs, i, src, g);
            let data = resolved(m.recs, list, i, 0x80, true)->Some_0;
            let names = names_held(m.recs, m.keys, src, g);
            names.contains_key(i) ==> deleted_path(src, g, m.recs, spare_names(src, g, m), i, list, data) == path_in(
                m.recs,
                names[i].0,
                names[i].1,
                64,
            )
        }),
{
    assert(any_nameless(src, g, m));
}

/// No more clusters of a value are in use than it has.
pub proof fn value_used_bound(g: Geometry, bits: Seq<u8>, runs: Seq<(Option<i64>, u64)>, left: u64)
    ensures
        value_used(g, bits, runs, left) <= value_clusters(g, runs, left),
    decreases runs.len(),
{
    if runs.len() > 0 && run_share(g, runs[0], left) != 0 {
        let n = run_share(g, runs[0], left);
        if let Some(l) = runs[0].0 {
            run_used_bound(bits, l, ceil_div(n as nat, g.cs as nat));
        }
        value_used_bound(g, bits, runs.skip(1), (left - n) as u64);
    }
}

/// The state of a file in runs tells what has become of its clusters: it is intact exactly
/// if none is in use, and overwritten exactly if all are (and there are any).
pub proof fn state_tells_cluster_use(g: Geometry, bits: Seq<u8>, runs: Seq<(Option<i64>, u64)>, size: u64)
    ensures
        deleted_data(g, bits, ResolvedView::Runs(runs, size)).2 == State::Intact <==> value_used(g, bits, runs, size) == 0,
        deleted_data(g, bits, ResolvedView::Runs(runs, size)).2 == State::Overwritten <==> value_used(g, bits, runs, size)
            == value_clusters(g, runs, size) && value_clusters(g, runs, size) > 0,
{
    value_used_bound(g, bits, runs, size);
}

/// How many bytes there are in the runs.
pub open spec fn bytes_in_runs(g: Geometry, runs: Seq<(Option<i64>, u64)>) -> nat
    decreases runs.len(),
{
    if runs.len() == 0 {
        0
    } else {
        g.length(runs[0].1) as nat + bytes_in_runs(g, runs.skip(1))
    }
}

/// The extents of a value never hold more bytes than its size; where no run is empty, they
/// hold exactly its size, or all that the runs hold where that is less.
pub proof fn extents_fit_the_size(g: Geometry, runs: Seq<(Option<i64>, u64)>, left: u64)
    ensures
        total_length(value_extents(g, runs, left)) <= left,
        (forall|i: int| 0 <= i < runs.len() ==> g.length((#[trigger] runs[i]).1) > 0) ==> total_length(
            value_extents(g, runs, left),
        ) == if bytes_in_runs(g, runs) < left {
            bytes_in_runs(g, runs)
        } else {
            left as nat
        },
    decreases runs.len(),
{
    if runs.len() > 0 && run_share(g, runs[0], left) != 0 {
        let n = run_share(g, runs[0], left);
        extents_fit_the_size(g, runs.skip(1), (left - n) as u64);
        let rest = value_extents(g, runs.skip(1), (left - n) as u64);
        let first = value_extents(g, runs, left)[0];
        total_length_adds(seq![first], rest);
        reveal_with_fuel(total_length, 2);
        if forall|i: int| 0 <= i < runs.len() ==> g.length((#[trigger] runs[i]).1) > 0 {
            assert forall|i: int| 0 <= i < runs.skip(1).len() implies g.length((#[trigger] runs.skip(1)[i]).1) > 0 by {
                assert(runs.skip(1)[i] == runs[i + 1]);
            }
        }
    }
}

/// The free ranges of a volume lie inside it.
pub proof fn free_ranges_lie_inside<S: Source + ?Sized>(src: &S, vol: VolumeView)
    requires
        vol.base + vol.size <= u64::MAX,
    ensures
        ntfs_free_ranges(src, vol) matches Ok(ranges) ==> forall|i: int|
            0 <= i < ranges.len() ==> vol.base <= (#[trigger] ranges[i]).0 < ranges[i].1 <= vol.base + vol.size,
{
    reveal(ntfs_free_ranges);
    reveal(mft_start);
    if let Ok((boot, runs)) = mft_start(src, vol.base) {
        let cs = boot.g.cs;
        let size = vol.size;
        let count = size / cs;
        assert(count * cs <= size) by (nonlinear_arith)
            requires
                count == size / cs,
                cs > 0,
        ;
        if let Some(r) = bitmap_record(src, boot, runs) {
            if let Some(bits) = bitmap_of(src, boot.g, r) {
                free_ranges_are_exact(AllocationView::Bits(bits), count, vol.base, cs);
            }
        }
    }
}

/// Whether the run is not empty and lies inside a disk of `len` bytes.
pub open spec fn run_inside(g: Geometry, run: (Option<i64>, u64), len: nat) -> bool {
    &&& 0 < g.length(run.1) <= usize::MAX
    &&& run.0 matches Some(l) ==> g.offset(l) + g.length(run.1) <= len
}

proof fn runs_bytes_from_the_front<S: Source + ?Sized>(src: &S, g: Geometry, runs: Seq<(Option<i64>, u64)>)
    requires
        runs.len() > 0,
    ensures
        g.runs_bytes(src, runs) == g.run_bytes(src, runs[0]) + g.runs_bytes(src, runs.skip(1)),
    decreases runs.len(),
{
    let rest = runs.skip(1);
    if runs.len() == 1 {
        assert(runs.drop_last() =~= seq![]);
        assert(rest =~= seq![]);
        assert(g.runs_bytes(src, runs) =~= g.run_bytes(src, runs[0]) + g.runs_bytes(src, rest));
    } else {
        let init = runs.drop_last();
        runs_bytes_from_the_front(src, g, init);
        assert(init.skip(1) =~= rest.drop_last());
        assert(rest.last() == runs.last());
        assert(g.runs_bytes(src, runs) =~= g.run_bytes(src, runs[0]) + g.runs_bytes(src, rest));
    }
}

proof fn extents_hold_the_runs<S: Source + ?Sized>(src: &S, disk: Seq<u8>, g: Geometry, runs: Seq<(Option<i64>, u64)>, left: u64)
    requires
        holds(src, disk),
        forall|i: int| 0 <= i < runs.len() ==> run_inside(g, #[trigger] runs[i], disk.len()),
    ensures
        bytes_at(disk, value_extents(g, runs, left)) == first_bytes(g.runs_bytes(src, runs), left as nat),
        forall|i: int|
            0 <= i < value_extents(g, runs, left).len() ==> extent_inside(
                #[trigger] value_extents(g, runs, left)[i],
                disk.len(),
            ),
    decreases runs.len(),
{
    let all = g.runs_bytes(src, runs);
    let out = value_extents(g, runs, left);
    if runs.len() == 0 || left == 0 {
        assert(first_bytes(all, left as nat) =~= seq![]);
        if runs.len() > 0 {
            assert(run_share(g, runs[0], left) == 0);
        }
    } else {
        let run = runs[0];
        assert(run_inside(g, run, disk.len()));
        let n = run_share(g, run, left);
        let rest = runs.skip(1);
        assert forall|i: int| 0 <= i < rest.len() implies run_inside(g, #[trigger] rest[i], disk.len()) by {
            assert(rest[i] == runs[i + 1]);
        }
        extents_hold_the_runs(src, disk, g, rest, (left - n) as u64);
        runs_bytes_from_the_front(src, g, runs);
        let tail = value_extents(g, rest, (left - n) as u64);
        let first = out[0];
        assert(out =~= seq![first] + tail);
        bytes_at_adds(disk, seq![first], tail);
        reveal_with_fuel(bytes_at, 2);
        let here = g.run_bytes(src, run);
        assert(here.len() == g.length(run.1));
        let later = g.runs_bytes(src, rest);
        assert(bytes_at(disk, seq![first]) =~= here.take(n as int));
        if n < left {
            assert(first_bytes(all, left as nat) =~= here + first_bytes(later, (left - n) as nat));
            assert(here.take(n as int) =~= here);
        } else {
            assert(first_bytes(later, 0) =~= seq![]);
            assert(first_bytes(all, left as nat) =~= here.take(n as int) + first_bytes(later, 0));
        }
        assert forall|i: int| 0 <= i < out.len() implies extent_inside(#[trigger] out[i], disk.len()) by {
            if i > 0 {
                assert(out[i] == tail[i - 1]);
            }
        }
    }
}

/// What a file in runs is recovered as: on a source that holds them all, the value of its data
/// attribute, the same bytes that reading the runs gives. None of the runs is empty.
pub proof fn file_is_recovered_from_its_runs<S: Source + ?Sized>(
    src: &S,
    disk: Seq<u8>,
    g: Geometry,
    bits: Seq<u8>,
    runs: Seq<(Option<i64>, u64)>,
    size: u64,
)
    requires
        holds(src, disk),
        disk.len() <= src.size(),
        size <= usize::MAX,
        forall|i: int| 0 <= i < runs.len() ==> run_inside(g, #[trigger] runs[i], disk.len()),
    ensures
        contents_of(src, deleted_data(g, bits, ResolvedView::Runs(runs, size)).0, size) == Ok::<Seq<u8>, Seq<char>>(
            g.value(src, runs, size),
        ),
{
    extents_hold_the_runs(src, disk, g, runs, size);
    contents_are_what_stands_there(src, disk, value_extents(g, runs, size), size);
    let b = g.runs_bytes(src, runs);
    assert(first_bytes(first_bytes(b, size as nat), size as nat) =~= first_bytes(b, size as nat));
}

/// How many pieces of `rs` bytes `n` bytes make; the last one may be shorter.
pub open spec fn pieces(n: int, rs: int) -> int {
    if n <= 0 {
        0
    } else {
        (n + rs - 1) / rs
    }
}

proof fn one_piece_more(n: int, rs: int)
    requires
        n > 0,
        rs > 0,
    ensures
        pieces(n, rs) == 1 + pieces(n - rs, rs),
        pieces(n, rs) <= n,
{
    assert((n + rs - 1) / rs == 1 + (n - 1) / rs) by (nonlinear_arith)
        requires
            rs > 0,
    ;
    if n <= rs {
        assert((n - 1) / rs == 0) by (nonlinear_arith)
            requires
                0 <= n - 1 < rs,
        ;
    }
    assert((n - 1) / rs <= n - 1) by (nonlinear_arith)
        requires
            0 <= n - 1,
            rs > 0,
    ;
}

proof fn pieces_add(n: int, c: int, rs: int)
    requires
        n >= 0,
        c >= 0,
        rs > 0,
    ensures
        pieces(n + c * rs, rs) == c + pieces(n, rs),
{
    vstd::arithmetic::div_mod::lemma_hoist_over_denominator(n + rs - 1, c, rs as nat);
    assert(c * rs >= 0) by (nonlinear_arith)
        requires
            c >= 0,
            rs > 0,
    ;
    if n == 0 {
        assert((rs - 1) / rs == 0) by (nonlinear_arith)
            requires
                rs > 0,
        ;
    }
    if n + c * rs <= 0 {
        assert(c == 0) by (nonlinear_arith)
            requires
                c * rs <= 0,
                c >= 0,
                rs > 0,
        ;
    }
}

/// Whether `r` differs from `m` only in numbers from `m.next` on and below `r.next`.
pub open spec fn adds_between(m: MftView, r: MftView) -> bool {
    &&& m.next <= r.next
    &&& forall|key: u64|
        key < m.next || key >= r.next ==> #[trigger] r.recs.contains_key(key) == m.recs.contains_key(key) && r.recs[key]
            == m.recs[key]
}

/// Whether the table `r` has under number `key` what the bytes `raw` hold: their record, where
/// they are sound; otherwise what `m` had.
pub open spec fn numbered_as(m: MftView, r: MftView, key: int, raw: Seq<u8>) -> bool {
    &&& 0 <= key <= u64::MAX
    &&& fixed_up(raw, file_magic()).1 ==> r.recs.contains_key(key as u64) && r.recs[key as u64] == record(
        fixed_up(raw, file_magic()).0,
    )
    &&& !fixed_up(raw, file_magic()).1 ==> r.recs.contains_key(key as u64) == m.recs.contains_key(key as u64)
}

#[verifier::rlimit(40)]
proof fn pieces_are_numbered(m: MftView, b: Seq<u8>, rs: int, p: int, i: int)
    requires
        rs > 0,
        0 <= p,
        0 <= i,
        m.next + pieces(b.len() - p, rs) <= u64::MAX,
    ensures
        with_records(m, b, rs, p).next == m.next + pieces(b.len() - p, rs),
        adds_between(m, with_records(m, b, rs, p)),
        p + (i + 1) * rs <= b.len() ==> numbered_as(
            m,
            with_records(m, b, rs, p),
            m.next + i,
            b.subrange(p + i * rs, p + (i + 1) * rs),
        ),
    decreases
            if p < b.len() {
                b.len() - p
            } else {
                0
            },
{
    assert((i + 1) * rs == i * rs + rs) by (nonlinear_arith);
    assert(i * rs >= 0) by (nonlinear_arith)
        requires
            i >= 0,
            rs > 0,
    ;
    if p < b.len() {
        let m1 = with_record(m, piece_at(b, rs, p));
        one_piece_more(b.len() - p, rs);
        assert(b.len() - p - rs == b.len() - (p + rs));
        assert(pieces(b.len() - (p + rs), rs) >= 0) by {
            if b.len() > p + rs {
                one_piece_more(b.len() - (p + rs), rs);
                assert((b.len() - (p + rs) + rs - 1) / rs >= 0) by (nonlinear_arith)
                    requires
                        b.len() - (p + rs) + rs - 1 >= 0,
                        rs > 0,
                ;
            }
        }
        assert(m1.next == m.next + 1);
        let r = with_records(m, b, rs, p);
        assert(r == with_records(m1, b, rs, p + rs));
        if i == 0 {
            assert(0 * rs == 0);
            pieces_are_numbered(m1, b, rs, p + rs, 0);
            assert(r.recs.contains_key(m.next) == m1.recs.contains_key(m.next));
            if p + rs <= b.len() {
                assert(piece_at(b, rs, p) == b.subrange(p + i * rs, p + (i + 1) * rs));
            }
        } else {
            assert((i - 1) * rs == i * rs - rs) by (nonlinear_arith);
            assert((i - 1 + 1) * rs == i * rs);
            pieces_are_numbered(m1, b, rs, p + rs, i - 1);
            if p + (i + 1) * rs <= b.len() {
                assert(p + rs + (i - 1) * rs == p + i * rs);
                assert(p + rs + (i - 1 + 1) * rs == p + (i + 1) * rs);
                let key = (m.next + i) as u64;
                assert(m1.recs.contains_key(key) == m.recs.contains_key(key));
            }
        }
        assert forall|key: u64| key < m.next || key >= r.next implies #[trigger] r.recs.contains_key(key) == m.recs.contains_key(key)
            && r.recs[key] == m.recs[key] by {
            assert(r.recs.contains_key(key) == m1.recs.contains_key(key));
        }
    } else {
        assert(p + (i + 1) * rs > b.len());
    }
}

#[verifier::spinoff_prover]
#[verifier::rlimit(80)]
proof fn rest_of_run_is_read<S: Source + ?Sized>(src: &S, disk: Seq<u8>, off: u64, rs: int, total: u64, a: int, m: MftView, k: int)
    requires
        holds(src, disk),
        off + total <= disk.len(),
        off + total <= u64::MAX,
        rs > 0,
        0x10_0000int % rs == 0,
        0 <= a <= k,
        a * rs <= total,
        m.next + pieces(total - a * rs, rs) <= u64::MAX,
    ensures
        with_run(src, off, rs, total, (a * rs) as u64, m) matches Ok(r) && r.next == m.next + pieces(total - a * rs, rs)
            && adds_between(m, r) && ((k + 1) * rs <= total ==> numbered_as(
            m,
            r,
            m.next + k - a,
            disk.subrange(off + k * rs, off + (k + 1) * rs),
        )),
    decreases total - a * rs,
{
    let pos = (a * rs) as u64;
    assert(a * rs >= 0) by (nonlinear_arith)
        requires
            a >= 0,
            rs > 0,
    ;
    let c = 0x10_0000int / rs;
    vstd::arithmetic::div_mod::lemma_fundamental_div_mod(0x10_0000, rs);
    assert(c * rs == rs * c) by (nonlinear_arith);
    assert(c > 0) by (nonlinear_arith)
        requires
            c * rs == 0x10_0000,
            rs > 0,
    ;
    assert(k * rs >= a * rs) by (nonlinear_arith)
        requires
            k >= a,
            rs > 0,
    ;
    assert((k + 1) * rs == k * rs + rs) by (nonlinear_arith);
    let i = k - a;
    assert(i * rs == k * rs - a * rs) by (nonlinear_arith)
        requires
            i == k - a,
    ;
    assert((i + 1) * rs == i * rs + rs) by (nonlinear_arith);
    if pos < total {
        let n: u64 = if total - pos < 0x10_0000 {
            (total - pos) as u64
        } else {
            0x10_0000
        };
        let b = disk.subrange(off + pos, off + pos + n);
        assert(src.at(off.wrapping_add(pos), n as nat) == Ok::<Seq<u8>, Seq<char>>(b));
        let m1 = with_records(m, b, rs, 0);
        let next = (pos + n) as u64;
        assert(with_run(src, off, rs, total, pos, m) == with_run(src, off, rs, total, next, m1));
        if n < 0x10_0000 {
            assert(with_run(src, off, rs, total, next, m1) == Ok::<MftView, Seq<char>>(m1));
            pieces_are_numbered(m, b, rs, 0, i);
            if (k + 1) * rs <= total {
                assert(b.subrange(i * rs, (i + 1) * rs) =~= disk.subrange(off + k * rs, off + (k + 1) * rs));
            }
        } else {
            assert((a + c) * rs == a * rs + c * rs) by (nonlinear_arith);
            let left = total - pos - 0x10_0000;
            pieces_add(left, c, rs);
            pieces_add(0, c, rs);
            assert(pieces(b.len() - 0, rs) == c);
            assert(pieces(left, rs) >= 0) by {
                if left > 0 {
                    assert((left + rs - 1) / rs >= 0) by (nonlinear_arith)
                        requires
                            left > 0,
                            rs > 0,
                    ;
                }
            }
            if k < a + c {
                assert(k * rs + rs <= a * rs + c * rs) by (nonlinear_arith)
                    requires
                        k + 1 <= a + c,
                        rs > 0,
                ;
                pieces_are_numbered(m, b, rs, 0, i);
                rest_of_run_is_read(src, disk, off, rs, total, a + c, m1, a + c);
                let r = with_run(src, off, rs, total, next, m1)->Ok_0;
                assert(b.subrange(i * rs, (i + 1) * rs) =~= disk.subrange(off + k * rs, off + (k + 1) * rs));
                let key = (m.next + i) as u64;
                assert(r.recs.contains_key(key) == m1.recs.contains_key(key));
            } else {
                pieces_are_numbered(m, b, rs, 0, 0);
                rest_of_run_is_read(src, disk, off, rs, total, a + c, m1, k);
                if (k + 1) * rs <= total {
                    let key = (m.next + i) as u64;
                    assert(m1.recs.contains_key(key) == m.recs.contains_key(key));
                }
            }
            let r = with_run(src, off, rs, total, next, m1)->Ok_0;
            assert forall|key: u64| key < m.next || key >= r.next implies #[trigger] r.recs.contains_key(key)
                == m.recs.contains_key(key) && r.recs[key] == m.recs[key] by {
                assert(r.recs.contains_key(key) == m1.recs.contains_key(key));
                assert(m1.recs.contains_key(key) == m.recs.contains_key(key));
            }
        }
    }
}

/// A run of the MFT is read to its end, however long it is: each of its records stands in the
/// table under its own number, the numbers go up by one from record to record, and nothing else
/// of the table changes.
pub proof fn run_is_read_whole<S: Source + ?Sized>(src: &S, disk: Seq<u8>, off: u64, rs: int, total: u64, m: MftView, k: int)
    requires
        holds(src, disk),
        off + total <= disk.len(),
        off + total <= u64::MAX,
        rs > 0,
        0x10_0000int % rs == 0,
        0 <= k,
        m.next + pieces(total as int, rs) <= u64::MAX,
    ensures
        with_run(src, off, rs, total, 0, m) matches Ok(r) && r.next == m.next + pieces(total as int, rs) && adds_between(m, r) && ((
        k + 1) * rs <= total ==> numbered_as(m, r, m.next + k, disk.subrange(off + k * rs, off + (k + 1) * rs))),
{
    assert(0 * rs == 0);
    rest_of_run_is_read(src, disk, off, rs, total, 0, m, k);
}

/// How many numbers the runs take: one for each record, and in a sparse run one for each that
/// would fit.
pub open spec fn numbers_in(cs: int, rs: int, runs: Seq<(Option<i64>, u64)>) -> int
    decreases runs.len(),
{
    if runs.len() == 0 {
        0
    } else {
        (if runs[0].0 is Some {
            pieces(runs[0].1 * cs, rs)
        } else {
            runs[0].1 * cs / rs
        }) + numbers_in(cs, rs, runs.skip(1))
    }
}

/// Whether every run that is not sparse lies inside the volume's bytes.
pub open spec fn runs_inside(g: Geometry, runs: Seq<(Option<i64>, u64)>, end: int) -> bool {
    forall|j: int|
        0 <= j < runs.len() ==> (#[trigger] runs[j]).1 * g.cs <= u64::MAX && (runs[j].0 matches Some(l) ==> 0 <= l && g.base + (l
            + runs[j].1) * g.cs <= end)
}

proof fn numbers_are_counted(cs: int, rs: int, runs: Seq<(Option<i64>, u64)>)
    requires
        cs >= 0,
        rs > 0,
    ensures
        numbers_in(cs, rs, runs) >= 0,
    decreases runs.len(),
{
    if runs.len() > 0 {
        numbers_are_counted(cs, rs, runs.skip(1));
        let n = runs[0].1 * cs;
        assert(n >= 0) by (nonlinear_arith)
            requires
                cs >= 0,
                n == runs[0].1 * cs,
        ;
        assert(n / rs >= 0 && (n + rs - 1) / rs >= 0) by (nonlinear_arith)
            requires
                n >= 0,
                rs > 0,
        ;
    }
}

proof fn run_stands_there(g: Geometry, l: i64, count: u64, end: int)
    requires
        0 <= l,
        g.base + (l + count) * g.cs <= end,
        end <= u64::MAX,
    ensures
        g.offset(l) == g.base + l * g.cs,
        g.length(count) == count * g.cs,
        g.offset(l) + g.length(count) <= end,
{
    assert((l + count) * g.cs == l * g.cs + count * g.cs) by (nonlinear_arith);
    assert(0 <= l * g.cs && 0 <= count * g.cs) by (nonlinear_arith)
        requires
            0 <= l,
    ;
}

#[verifier::rlimit(40)]
proof fn runs_are_read_from<S: Source + ?Sized>(
    src: &S,
    disk: Seq<u8>,
    boot: NtfsBoot,
    runs: Seq<(Option<i64>, u64)>,
    m: MftView,
    j: int,
    k: int,
)
    requires
        holds(src, disk),
        disk.len() <= u64::MAX,
        boot.rs > 0,
        0x10_0000int % boot.rs as int == 0,
        runs_inside(boot.g, runs, disk.len() as int),
        m.next + numbers_in(boot.g.cs as int, boot.rs as int, runs) <= u64::MAX,
        0 <= j,
        0 <= k,
    ensures
        with_runs(src, boot, runs, m) matches Ok(r) && r.next == m.next + numbers_in(boot.g.cs as int, boot.rs as int, runs)
            && adds_between(m, r) && (j < runs.len() ==> (runs[j].0 matches Some(l) ==> ((k + 1) * boot.rs <= runs[j].1 * boot.g.cs
            ==> ({
            let at = boot.g.base + l * boot.g.cs + k * boot.rs;
            numbered_as(
                m,
                r,
                m.next + numbers_in(boot.g.cs as int, boot.rs as int, runs.take(j)) + k,
                disk.subrange(at, at + boot.rs),
            )
        })))),
    decreases runs.len(),
{
    if runs.len() > 0 {
        let cs = boot.g.cs as int;
        let rs = boot.rs as int;
        let rest = runs.skip(1);
        let n = runs[0].1 * cs;
        let total = boot.g.length(runs[0].1);
        assert(total == n);
        numbers_are_counted(cs, rs, rest);
        assert((k + 1) * rs == k * rs + rs) by (nonlinear_arith);
        assert forall|i: int| 0 <= i < rest.len() implies (#[trigger] rest[i]).1 * boot.g.cs <= u64::MAX && (rest[i].0 matches Some(l)
            ==> 0 <= l && boot.g.base + (l + rest[i].1) * boot.g.cs <= disk.len()) by {
            assert(rest[i] == runs[i + 1]);
        }
        let i = if j > 0 {
            j - 1
        } else {
            0
        };
        if 0 < j < runs.len() {
            assert(runs.take(j).skip(1) =~= rest.take(j - 1));
            assert(runs.take(j)[0] == runs[0]);
            assert(rest[j - 1] == runs[j]);
            numbers_are_counted(cs, rs, rest.take(j - 1));
        }
        assert(numbers_in(cs, rs, runs.take(0)) == 0);
        let m1 = match runs[0].0 {
            None => {
                assert(n / rs >= 0) by (nonlinear_arith)
                    requires
                        n >= 0,
                        rs > 0,
                ;
                MftView { next: m.next.wrapping_add(total / boot.rs), ..m }
            },
            Some(l) => {
                run_stands_there(boot.g, l, runs[0].1, disk.len() as int);
                assert((n + rs - 1) / rs >= 0) by (nonlinear_arith)
                    requires
                        n >= 0,
                        rs > 0,
                ;
                run_is_read_whole(src, disk, boot.g.offset(l), rs, total, m, k);
                with_run(src, boot.g.offset(l), rs, total, 0, m)->Ok_0
            },
        };
        runs_are_read_from(src, disk, boot, rest, m1, i, k);
        let r = with_runs(src, boot, rest, m1)->Ok_0;
        assert(with_runs(src, boot, runs, m) == Ok::<MftView, Seq<char>>(r));
        assert forall|key: u64| key < m.next || key >= r.next implies #[trigger] r.recs.contains_key(key) == m.recs.contains_key(key)
            && r.recs[key] == m.recs[key] by {
            assert(r.recs.contains_key(key) == m1.recs.contains_key(key));
            assert(m1.recs.contains_key(key) == m.recs.contains_key(key));
        }
        if j < runs.len() && runs[j].0 is Some && (k + 1) * boot.rs <= runs[j].1 * boot.g.cs {
            if j == 0 {
                one_more_than(k, rs, n);
                let key = (m.next + k) as u64;
                assert(r.recs.contains_key(key) == m1.recs.contains_key(key));
            } else {
                let key = m.next + numbers_in(cs, rs, runs.take(j)) + k;
                assert(key == m1.next + numbers_in(cs, rs, rest.take(i)) + k);
                assert(m1.recs.contains_key(key as u64) == m.recs.contains_key(key as u64));
            }
        }
    }
}

proof fn one_more_than(k: int, rs: int, n: int)
    requires
        (k + 1) * rs <= n,
        k >= 0,
        rs > 0,
    ensures
        k < pieces(n, rs),
{
    let d = n - (k + 1) * rs;
    assert((k + 1) * rs > 0) by (nonlinear_arith)
        requires
            k >= 0,
            rs > 0,
    ;
    pieces_add(d, k + 1, rs);
    assert((d + rs - 1) / rs >= 0) by (nonlinear_arith)
        requires
            d >= 0,
            rs > 0,
    ;
}

/// Every record of the MFT is read. In a run of `count` clusters from cluster `l` on, the bytes
/// `k` records in are record number (the records and sparse places of the runs before) + `k`:
/// where they are a sound record, the table holds what they say under that number, and otherwise
/// nothing. This holds of runs of any length, as long as whole records fit into a mebibyte.
pub proof fn every_record_is_read<S: Source + ?Sized>(
    src: &S,
    disk: Seq<u8>,
    boot: NtfsBoot,
    runs: Seq<(Option<i64>, u64)>,
    j: int,
    k: int,
)
    requires
        holds(src, disk),
        disk.len() <= u64::MAX,
        boot.rs > 0,
        0x10_0000int % boot.rs as int == 0,
        runs_inside(boot.g, runs, disk.len() as int),
        numbers_in(boot.g.cs as int, boot.rs as int, runs) <= u64::MAX,
        0 <= j < runs.len(),
        runs[j].0 is Some,
        0 <= k,
        (k + 1) * boot.rs <= runs[j].1 * boot.g.cs,
    ensures
        with_runs(src, boot, runs, empty_mft()) matches Ok(m) && {
            let at = boot.g.base + runs[j].0->0 * boot.g.cs + k * boot.rs;
            let raw = disk.subrange(at, at + boot.rs);
            let number = numbers_in(boot.g.cs as int, boot.rs as int, runs.take(j)) + k;
            &&& m.next == numbers_in(boot.g.cs as int, boot.rs as int, runs)
            &&& 0 <= number < m.next
            &&& m.recs.contains_key(number as u64) <==> fixed_up(raw, file_magic()).1
            &&& fixed_up(raw, file_magic()).1 ==> m.recs[number as u64] == record(fixed_up(raw, file_magic()).0)
        },
{
    let cs = boot.g.cs as int;
    let rs = boot.rs as int;
    runs_are_read_from(src, disk, boot, runs, empty_mft(), j, k);
    number_is_counted(cs, rs, runs, j, k);
}

proof fn number_is_counted(cs: int, rs: int, runs: Seq<(Option<i64>, u64)>, j: int, k: int)
    requires
        cs >= 0,
        rs > 0,
        0 <= j < runs.len(),
        runs[j].0 is Some,
        0 <= k,
        (k + 1) * rs <= runs[j].1 * cs,
    ensures
        0 <= numbers_in(cs, rs, runs.take(j)) + k < numbers_in(cs, rs, runs),
    decreases j,
{
    numbers_are_counted(cs, rs, runs.take(j));
    if j == 0 {
        assert(numbers_in(cs, rs, runs.take(0)) == 0);
        one_more_than(k, rs, runs[0].1 * cs);
        numbers_are_counted(cs, rs, runs.skip(1));
    } else {
        assert(runs.take(j).skip(1) =~= runs.skip(1).take(j - 1));
        assert(runs.take(j)[0] == runs[0]);
        number_is_counted(cs, rs, runs.skip(1), j - 1, k);
    }
}

/// The records of one run follow each other: where the MFT is one run of `count` clusters and
/// whole records fill it, its `count * cs / rs` records take the numbers from 0 on.
pub proof fn numbers_of_a_run(cs: int, rs: int, l: i64, count: u64)
    requires
        cs > 0,
        rs > 0,
        count * cs % rs == 0,
    ensures
        numbers_in(cs, rs, seq![(Some(l), count)]) == count * cs / rs,
        numbers_in(cs, rs, seq![(None::<i64>, count)]) == count * cs / rs,
{
    let n = count * cs;
    let one = seq![(Some(l), count)];
    let none = seq![(None::<i64>, count)];
    assert(one.skip(1) =~= Seq::<(Option<i64>, u64)>::empty());
    assert(none.skip(1) =~= Seq::<(Option<i64>, u64)>::empty());
    assert(numbers_in(cs, rs, Seq::<(Option<i64>, u64)>::empty()) == 0);
    assert(n >= 0) by (nonlinear_arith)
        requires
            n == count * cs,
            cs > 0,
    ;
    assert((n + rs - 1) / rs == n / rs && (n == 0 ==> n / rs == 0)) by (nonlinear_arith)
        requires
            rs > 0,
            n % rs == 0,
            n >= 0,
    ;
}

/// The geometry stands in the boot sector: the cluster size is the sector size times the sectors
/// in a cluster, and the record size is that many clusters, or two to the power that its negative
/// gives.
pub proof fn boot_sector_is_read(base: u64, b: Seq<u8>)
    requires
        b.len() >= 512,
    ensures
        ({
            let boot = ntfs_geometry(base, b);
            let cs = (b[11] + 256 * b[12]) * b[13];
            &&& boot.g.base == base
            &&& boot.g.cs == cs
            &&& 0 < b[64] < 128 ==> boot.rs == cs * b[64]
            &&& 192 < b[64] ==> boot.rs == pow2((256 - b[64]) as nat)
            &&& long_number_at(b, 48) <= i64::MAX ==> boot.mft == long_number_at(b, 48)
        }),
{
    fields_are_little_endian(b, 11);
    fields_are_little_endian(b, 48);
    let bps = b[11] + 256 * b[12];
    let spc = b[13];
    assert(0 <= bps * spc <= 0xFFFF * 0xFF) by (nonlinear_arith)
        requires
            0 <= bps <= 0xFFFF,
            0 <= spc <= 0xFF,
    ;
    let cs = bps * spc;
    let cpr = b[64];
    if 0 < cpr < 128 {
        assert(0 <= cs * cpr <= 0xFFFF * 0xFF * 127) by (nonlinear_arith)
            requires
                0 <= cs <= 0xFFFF * 0xFF,
                0 <= cpr < 128,
        ;
    }
    if 192 < cpr {
        let k = 0u8.wrapping_sub(cpr);
        assert(k == 256 - cpr);
        vstd::arithmetic::power2::lemma_pow2_strictly_increases(k as nat, 64);
        vstd::arithmetic::power2::lemma2_to64_rest();
        shifting_doubles(1, k);
    }
    assert(le64(b, 48) == long_number_at(b, 48));
}

/// The first unnamed data attribute of a record is the one that counts.
pub proof fn first_data_is_taken(attrs: Seq<NtfsAttrView>, i: int)
    requires
        0 <= i < attrs.len(),
        attrs[i].type_ == 0x80 && !attrs[i].named,
        forall|k: int| 0 <= k < i ==> (#[trigger] attrs[k]).type_ != 0x80 || attrs[k].named,
    ensures
        first_data(attrs) == Some(attrs[i]),
    decreases attrs.len(),
{
    if i > 0 {
        let rest = attrs.skip(1);
        assert(attrs[0].type_ != 0x80 || attrs[0].named);
        assert forall|k: int| 0 <= k < i - 1 implies (#[trigger] rest[k]).type_ != 0x80 || rest[k].named by {
            assert(rest[k] == attrs[k + 1]);
        }
        first_data_is_taken(rest, i - 1);
    }
}

/// The MFT is found on the disk: record 0 stands at the cluster that the boot sector names, and
/// the runs of its first unnamed data attribute are those of the MFT.
#[verifier::rlimit(40)]
pub proof fn mft_is_found<S: Source + ?Sized>(src: &S, disk: Seq<u8>, base: u64, i: int)
    requires
        holds(src, disk),
        disk.len() <= u64::MAX,
        base + 512 <= disk.len(),
        ({
            let boot = ntfs_geometry(base, disk.subrange(base as int, base + 512));
            let at = base + boot.mft * boot.g.cs;
            let r = record(fixed_up(disk.subrange(at, at + boot.rs), file_magic()).0);
            &&& boot.g.cs > 0
            &&& 0 < boot.rs <= 65536
            &&& 0 <= boot.mft
            &&& at + boot.rs <= disk.len()
            &&& fixed_up(disk.subrange(at, at + boot.rs), file_magic()).1
            &&& 0 <= i < r.attrs.len()
            &&& r.attrs[i].type_ == 0x80 && !r.attrs[i].named && r.attrs[i].runs is Some
            &&& forall|k: int| 0 <= k < i ==> (#[trigger] r.attrs[k]).type_ != 0x80 || r.attrs[k].named
        }),
    ensures
        ({
            let boot = ntfs_geometry(base, disk.subrange(base as int, base + 512));
            let at = base + boot.mft * boot.g.cs;
            let r = record(fixed_up(disk.subrange(at, at + boot.rs), file_magic()).0);
            mft_start(src, base) == Ok::<(NtfsBoot, Seq<(Option<i64>, u64)>), Seq<char>>((boot, data_runs(r.attrs[i].runs->0)))
        }),
{
    reveal(mft_start);
    let b = disk.subrange(base as int, base + 512);
    let boot = ntfs_geometry(base, b);
    let at = base + boot.mft * boot.g.cs;
    assert(src.at(base, 512) == Ok::<Seq<u8>, Seq<char>>(b));
    let mft = boot.mft;
    let cs = boot.g.cs;
    assert(mft * cs >= 0) by (nonlinear_arith)
        requires
            mft >= 0,
    ;
    assert(boot.g.offset(boot.mft) == at);
    assert(src.at(at as u64, boot.rs as nat) == Ok::<Seq<u8>, Seq<char>>(disk.subrange(at, at + boot.rs)));
    first_data_is_taken(record(fixed_up(disk.subrange(at, at + boot.rs), file_magic()).0).attrs, i);
}

/// A volume whose boot sector gives no cluster or record size is refused, and so is one whose
/// record 0 is not sound.
pub proof fn bad_volume_is_refused<S: Source + ?Sized>(src: &S, disk: Seq<u8>, base: u64)
    requires
        holds(src, disk),
        disk.len() <= u64::MAX,
        base + 512 <= disk.len(),
    ensures
        ({
            let boot = ntfs_geometry(base, disk.subrange(base as int, base + 512));
            let at = base + boot.mft * boot.g.cs;
            let bad = boot.g.cs == 0 || boot.rs == 0 || boot.rs > 65536;
            &&& bad ==> mft_start(src, base) == Err::<(NtfsBoot, Seq<(Option<i64>, u64)>), Seq<char>>("bad NTFS boot sector"@)
            &&& !bad && boot.mft >= 0 && at + boot.rs <= disk.len() && !fixed_up(
                disk.subrange(at, at + boot.rs),
                file_magic(),
            ).1 ==> mft_start(src, base) == Err::<(NtfsBoot, Seq<(Option<i64>, u64)>), Seq<char>>("MFT record 0 unreadable"@)
        }),
{
    reveal(mft_start);
    assert(src.at(base, 512) == Ok::<Seq<u8>, Seq<char>>(disk.subrange(base as int, base + 512)));
    let boot = ntfs_geometry(base, disk.subrange(base as int, base + 512));
    let mft = boot.mft;
    let cs = boot.g.cs;
    let at = base + mft * cs;
    if mft >= 0 && at + boot.rs <= disk.len() {
        assert(mft * cs >= 0) by (nonlinear_arith)
            requires
                mft >= 0,
        ;
        assert(boot.g.offset(boot.mft) == at);
        assert(src.at(at as u64, boot.rs as nat) == Ok::<Seq<u8>, Seq<char>>(disk.subrange(at, at + boot.rs)));
    }
}

/// `tail` below the given folders, the innermost first.
pub open spec fn below(names: Seq<Seq<char>>, tail: Seq<char>) -> Seq<char>
    decreases names.len(),
{
    if names.len() == 0 {
        tail
    } else {
        below(names.skip(1), names[0] + "/"@ + tail)
    }
}

/// Whether the records `dirs` are directories with these names, each inside the next one, and
/// the last one inside `top`.
pub open spec fn chain_of_folders(recs: Map<u64, NtfsRecordView>, dirs: Seq<u64>, names: Seq<Seq<char>>, top: u64) -> bool {
    &&& dirs.len() == names.len()
    &&& forall|k: int|
        0 <= k < dirs.len() ==> (#[trigger] dirs[k]) != 5 && recs.contains_key(dirs[k]) && recs[dirs[k]].is_dir && recs[dirs[k]].name()
            == Some(
            (
                if k + 1 < dirs.len() {
                    dirs[k + 1]
                } else {
                    top
                },
                names[k],
            ),
        )
}

proof fn path_goes_up(recs: Map<u64, NtfsRecordView>, dirs: Seq<u64>, names: Seq<Seq<char>>, top: u64, tail: Seq<char>, steps: nat)
    requires
        chain_of_folders(recs, dirs, names, top),
        dirs.len() < steps,
        top == 5 || !(recs.contains_key(top) && recs[top].is_dir && recs[top].name() is Some),
    ensures
        path_in(
            recs,
            if dirs.len() > 0 {
                dirs[0]
            } else {
                top
            },
            tail,
            steps,
        ) == if top == 5 {
            below(names, tail)
        } else {
            "$Orphan/"@ + below(names, tail)
        },
    decreases dirs.len(),
{
    if dirs.len() > 0 {
        let rest = dirs.skip(1);
        let later = names.skip(1);
        assert(recs[dirs[0]].name() is Some);
        assert forall|k: int| 0 <= k < rest.len() implies (#[trigger] rest[k]) != 5 && recs.contains_key(rest[k]) && recs[rest[k]].is_dir
            && recs[rest[k]].name() == Some(
            (
                if k + 1 < rest.len() {
                    rest[k + 1]
                } else {
                    top
                },
                later[k],
            ),
        ) by {
            assert(rest[k] == dirs[k + 1]);
            assert(later[k] == names[k + 1]);
        }
        path_goes_up(recs, rest, later, top, names[0] + "/"@ + tail, (steps - 1) as nat);
    }
}

/// A path names the folders from the root down, where up to 63 of them lead to the root
/// directory, record 5. Where they end in a record that is no directory or has no name, the path
/// is an orphan's.
pub proof fn path_leads_up_to_the_root(
    recs: Map<u64, NtfsRecordView>,
    dirs: Seq<u64>,
    names: Seq<Seq<char>>,
    top: u64,
    name: Seq<char>,
)
    requires
        chain_of_folders(recs, dirs, names, top),
        dirs.len() <= 63,
        top == 5 || !(recs.contains_key(top) && recs[top].is_dir && recs[top].name() is Some),
    ensures
        path_in(
            recs,
            if dirs.len() > 0 {
                dirs[0]
            } else {
                top
            },
            name,
            64,
        ) == if top == 5 {
            below(names, name)
        } else {
            "$Orphan/"@ + below(names, name)
        },
{
    path_goes_up(recs, dirs, names, top, name, 64);
}

/// A record's own name comes first; without one, the name in the first of the records that its
/// attribute list names for a name, of those that have one.
pub proof fn listed_name_is_used(recs: Map<u64, NtfsRecordView>, r: NtfsRecordView, list: Seq<AttrRef>, i: int)
    requires
        0 <= i < list.len(),
        list[i].type_ == 0x30 && recs.contains_key(list[i].record) && recs[list[i].record].name() is Some,
        forall|k: int|
            0 <= k < i ==> (#[trigger] list[k]).type_ != 0x30 || !recs.contains_key(list[k].record)
                || recs[list[k].record].name() is None,
    ensures
        r.name() is Some ==> record_name(recs, r, list) == r.name(),
        r.name() is None ==> record_name(recs, r, list) == recs[list[i].record].name(),
{
    first_listed_name(recs, list, i);
}

proof fn first_listed_name(recs: Map<u64, NtfsRecordView>, list: Seq<AttrRef>, i: int)
    requires
        0 <= i < list.len(),
        list[i].type_ == 0x30 && recs.contains_key(list[i].record) && recs[list[i].record].name() is Some,
        forall|k: int|
            0 <= k < i ==> (#[trigger] list[k]).type_ != 0x30 || !recs.contains_key(list[k].record)
                || recs[list[k].record].name() is None,
    ensures
        listed_name(recs, list) == recs[list[i].record].name(),
    decreases list.len(),
{
    if i > 0 {
        let rest = list.skip(1);
        assert(list[0].type_ != 0x30 || !recs.contains_key(list[0].record) || recs[list[0].record].name() is None);
        assert forall|k: int| 0 <= k < i - 1 implies (#[trigger] rest[k]).type_ != 0x30 || !recs.contains_key(rest[k].record)
            || recs[rest[k].record].name() is None by {
            assert(rest[k] == list[k + 1]);
        }
        first_listed_name(recs, rest, i - 1);
    }
}

/// Where none of the listed records has a name, the list gives none.
pub proof fn no_listed_name(recs: Map<u64, NtfsRecordView>, r: NtfsRecordView, list: Seq<AttrRef>)
    requires
        forall|k: int|
            0 <= k < list.len() ==> (#[trigger] list[k]).type_ != 0x30 || !recs.contains_key(list[k].record)
                || recs[list[k].record].name() is None,
    ensures
        record_name(recs, r, list) == r.name(),
    decreases list.len(),
{
    if list.len() > 0 {
        let rest = list.skip(1);
        assert(list[0].type_ != 0x30 || !recs.contains_key(list[0].record) || recs[list[0].record].name() is None);
        assert forall|k: int| 0 <= k < rest.len() implies (#[trigger] rest[k]).type_ != 0x30 || !recs.contains_key(rest[k].record)
            || recs[rest[k].record].name() is None by {
            assert(rest[k] == list[k + 1]);
        }
        no_listed_name(recs, r, rest);
    }
}

/// Whether cluster `c` is one of `count` from `l` on, and belongs to the first `left` bytes there.
pub open spec fn in_share(cs: int, l: int, count: int, left: int, c: int) -> bool {
    l <= c < l + count && (c - l) * cs < left
}

/// Whether cluster `c` belongs to the first `left` bytes of the runs.
pub open spec fn has_cluster(cs: int, runs: Seq<(Option<i64>, u64)>, left: int, c: int) -> bool
    decreases runs.len(),
{
    runs.len() > 0 && left > 0 && ((runs[0].0 matches Some(l) && in_share(cs, l as int, runs[0].1 as int, left, c)) || has_cluster(
        cs,
        runs.skip(1),
        left - runs[0].1 * cs,
        c,
    ))
}

proof fn run_used_tells(bits: Seq<u8>, l: i64, k: nat)
    requires
        0 <= l,
        l + k <= u64::MAX,
    ensures
        run_used(bits, l, k) <= k,
        run_used(bits, l, k) == 0 <==> forall|c: int| l <= c < l + k ==> !#[trigger] bit_set(bits, c),
        run_used(bits, l, k) == k <==> forall|c: int| l <= c < l + k ==> #[trigger] bit_set(bits, c),
    decreases k,
{
    if k > 0 {
        run_used_tells(bits, l, (k - 1) as nat);
        let last = l + k - 1;
        assert((l as u64).wrapping_add((k - 1) as u64) == last);
        let set = bit_set(bits, last);
        if forall|c: int| l <= c < l + k - 1 ==> #[trigger] bit_set(bits, c) {
            assert forall|c: int| l <= c < l + k && set implies #[trigger] bit_set(bits, c) by {}
        }
    }
}

proof fn clusters_of_a_share(c: int, cs: int, count: int, left: int)
    requires
        cs > 0,
        0 <= c,
        0 <= count,
        left > 0,
    ensures
        ({
            let n = if count * cs < left {
                count * cs
            } else {
                left
            };
            c < ceil_div(n as nat, cs as nat) <==> c < count && c * cs < left
        }),
{
    let n = if count * cs < left {
        count * cs
    } else {
        left
    };
    assert(count * cs >= 0) by (nonlinear_arith)
        requires
            count >= 0,
            cs > 0,
    ;
    let q = ceil_div(n as nat, cs as nat) as int;
    ceil_div_reaches(n as nat, cs as nat);
    if c < q {
        assert(c * cs <= (q - 1) * cs) by (nonlinear_arith)
            requires
                c <= q - 1,
                cs > 0,
        ;
        assert(c < count) by (nonlinear_arith)
            requires
                c * cs < count * cs,
                cs > 0,
        ;
    } else {
        assert(c * cs >= q * cs) by (nonlinear_arith)
            requires
                c >= q,
                cs > 0,
        ;
        if c < count {
            assert(c * cs < count * cs) by (nonlinear_arith)
                requires
                    c < count,
                    cs > 0,
            ;
        }
    }
}

#[verifier::rlimit(40)]
proof fn value_use_tells(g: Geometry, bits: Seq<u8>, runs: Seq<(Option<i64>, u64)>, left: u64)
    requires
        g.cs > 0,
        forall|i: int|
            0 <= i < runs.len() ==> 0 < (#[trigger] runs[i]).1 && runs[i].1 * g.cs <= u64::MAX && (runs[i].0 matches Some(l) ==> 0 <= l && l
                + runs[i].1 <= u64::MAX),
    ensures
        value_used(g, bits, runs, left) <= value_clusters(g, runs, left),
        value_used(g, bits, runs, left) == 0 <==> forall|c: int|
            has_cluster(g.cs as int, runs, left as int, c) ==> !#[trigger] bit_set(bits, c),
        value_used(g, bits, runs, left) == value_clusters(g, runs, left) <==> forall|c: int|
            has_cluster(g.cs as int, runs, left as int, c) ==> #[trigger] bit_set(bits, c),
        value_clusters(g, runs, left) == 0 <==> forall|c: int|
            !#[trigger] has_cluster(g.cs as int, runs, left as int, c),
    decreases runs.len(),
{
    if runs.len() > 0 && left > 0 {
        let cs = g.cs as int;
        let run = runs[0];
        let rest = runs.skip(1);
        let count = run.1 as int;
        assert(count * cs > 0) by (nonlinear_arith)
            requires
                count > 0,
                cs > 0,
        ;
        let n = run_share(g, run, left);
        assert(g.length(run.1) == count * cs);
        assert(n > 0);
        assert forall|i: int| 0 <= i < rest.len() implies 0 < (#[trigger] rest[i]).1 && rest[i].1 * g.cs <= u64::MAX && (
        rest[i].0 matches Some(l) ==> 0 <= l && l + rest[i].1 <= u64::MAX) by {
            assert(rest[i] == runs[i + 1]);
        }
        let more = (left - n) as u64;
        value_use_tells(g, bits, rest, more);
        // What is behind the run belongs to the rest, the same way whether it ends here or not.
        assert forall|c: int| has_cluster(cs, rest, left - count * cs, c) == #[trigger] has_cluster(cs, rest, more as int, c) by {
            if n == left {
                assert(!has_cluster(cs, rest, 0, c));
            }
        }
        if let Some(l) = run.0 {
            let k = ceil_div(n as nat, g.cs as nat);
            assert(k <= count) by {
                clusters_of_a_share(count, cs, count, left as int);
            }
            assert(k > 0) by {
                assert(0 * cs == 0);
                clusters_of_a_share(0, cs, count, left as int);
            }
            run_used_tells(bits, l, k);
            assert forall|c: int| #[trigger] in_share(cs, l as int, run.1 as int, left as int, c) == (l <= c < l + k) by {
                if c >= l {
                    clusters_of_a_share(c - l, cs, count, left as int);
                }
            }
            value_use_step(cs, bits, runs, left as int, more as int, l, k as int);
        } else {
            assert forall|c: int| #[trigger] has_cluster(cs, runs, left as int, c) == has_cluster(cs, rest, more as int, c) by {}
            if forall|c: int| !#[trigger] has_cluster(cs, runs, left as int, c) {
                assert forall|c: int| !#[trigger] has_cluster(cs, rest, more as int, c) by {
                    assert(!has_cluster(cs, runs, left as int, c));
                }
            }
        }
    } else {
        assert forall|c: int| !#[trigger] has_cluster(g.cs as int, runs, left as int, c) by {}
    }
}

proof fn value_use_step(cs: int, bits: Seq<u8>, runs: Seq<(Option<i64>, u64)>, left: int, more: int, l: i64, k: int)
    requires
        runs.len() > 0,
        left > 0,
        k > 0,
        runs[0].0 == Some(l),
        forall|c: int| #[trigger] in_share(cs, l as int, runs[0].1 as int, left, c) == (l <= c < l + k),
        forall|c: int|
            has_cluster(cs, runs.skip(1), left - runs[0].1 * cs, c) == #[trigger] has_cluster(cs, runs.skip(1), more, c),
    ensures
        (forall|c: int| has_cluster(cs, runs, left, c) ==> !#[trigger] bit_set(bits, c)) <==> (forall|c: int|
            l <= c < l + k ==> !#[trigger] bit_set(bits, c)) && (forall|c: int|
            has_cluster(cs, runs.skip(1), more, c) ==> !#[trigger] bit_set(bits, c)),
        (forall|c: int| has_cluster(cs, runs, left, c) ==> #[trigger] bit_set(bits, c)) <==> (forall|c: int|
            l <= c < l + k ==> #[trigger] bit_set(bits, c)) && (forall|c: int|
            has_cluster(cs, runs.skip(1), more, c) ==> #[trigger] bit_set(bits, c)),
        exists|c: int| #[trigger] has_cluster(cs, runs, left, c),
{
    assert forall|c: int| #[trigger] has_cluster(cs, runs, left, c) <==> (l <= c < l + k) || has_cluster(cs, runs.skip(1), more, c) by {}
    assert(has_cluster(cs, runs, left, l as int));
}

/// The state of a deleted file tells what has become of its clusters: it is intact exactly if
/// none of the clusters that its bytes take is marked in the bitmap, and overwritten exactly if
/// all of them are and it has any.
pub proof fn state_tells_what_the_bitmap_says(g: Geometry, bits: Seq<u8>, runs: Seq<(Option<i64>, u64)>, size: u64)
    requires
        g.cs > 0,
        forall|i: int|
            0 <= i < runs.len() ==> 0 < (#[trigger] runs[i]).1 && runs[i].1 * g.cs <= u64::MAX && (runs[i].0 matches Some(l) ==> 0 <= l && l
                + runs[i].1 <= u64::MAX),
    ensures
        ({
            let state = deleted_data(g, bits, ResolvedView::Runs(runs, size)).2;
            &&& state == State::Intact <==> forall|c: int|
                has_cluster(g.cs as int, runs, size as int, c) ==> !#[trigger] bit_set(bits, c)
            &&& state == State::Overwritten <==> (forall|c: int|
                has_cluster(g.cs as int, runs, size as int, c) ==> #[trigger] bit_set(bits, c)) && exists|c: int|
                #[trigger] has_cluster(g.cs as int, runs, size as int, c)
        }),
{
    value_use_tells(g, bits, runs, size);
    if (forall|c: int| has_cluster(g.cs as int, runs, size as int, c) ==> #[trigger] bit_set(bits, c)) && exists|c: int|
        #[trigger] has_cluster(g.cs as int, runs, size as int, c) {
        assert(value_clusters(g, runs, size) > 0);
    }
}

/// The title of a volume's files: its label and, in brackets, its filesystem.
pub open spec fn titled(label: Seq<char>) -> Seq<char> {
    label + " ("@ + "NTFS"@ + ")"@
}

/// Whether `f` is the deleted file in record `i` with the value `data`: its contents are those of
/// the value, and it goes by the record's name, by one that a directory still holds, or by its
/// number.
pub open spec fn is_file_of<S: Source + ?Sized>(
    src: &S,
    label: Seq<char>,
    g: Geometry,
    m: MftView,
    i: u64,
    data: ResolvedView,
    f: DeletedView,
) -> bool {
    let name = record_name(m.recs, m.recs[i], attribute_list(m.recs, i, src, g));
    let held = names_held(m.recs, m.keys, src, g);
    &&& f.volume == titled(label)
    &&& f.note is None
    &&& match data {
        ResolvedView::Resident(b) => f.data == DataView::Resident(b) && f.size == b.len() && f.state == State::Intact,
        ResolvedView::Runs(runs, size) => f.data == DataView::Extents(value_extents(g, runs, size)) && f.size == size && f.state
            == deleted_data(g, cluster_bitmap(src, g, m.recs), data).2,
    }
    &&& match name {
        Some((parent, n)) => f.path == path_in(m.recs, parent, n, 64),
        None => if held.contains_key(i) {
            f.path == path_in(m.recs, held[i].0, held[i].1, 64)
        } else {
            f.path == "$NoName/record-"@ + decimal_text(i as nat) + "."@ + extension(head_of(src, g, data))
        },
    }
}

/// A deleted file is found: a record from number 24 on that is not in use, is no directory and
/// has an unnamed data attribute is listed, with its contents and its path.
#[verifier::rlimit(40)]
pub proof fn deleted_record_is_found<S: Source + ?Sized>(
    src: &S,
    vol: VolumeView,
    boot: NtfsBoot,
    runs: Seq<(Option<i64>, u64)>,
    m: MftView,
    i: u64,
    data: ResolvedView,
)
    requires
        mft_start(src, vol.base) == Ok::<(NtfsBoot, Seq<(Option<i64>, u64)>), Seq<char>>((boot, runs)),
        with_runs(src, boot, runs, empty_mft()) == Ok::<MftView, Seq<char>>(m),
        i >= 24,
        m.recs.contains_key(i),
        !m.recs[i].in_use,
        !m.recs[i].is_dir,
        resolved(m.recs, attribute_list(m.recs, i, src, boot.g), i, 0x80, true) == Some(data),
        data matches ResolvedView::Resident(b) ==> b.len() <= u64::MAX,
    ensures
        ntfs_scan(src, vol) matches Ok((files, map)) && exists|x: int|
            0 <= x < files.len() && is_file_of(src, vol.label, boot.g, m, i, data, #[trigger] files[x]),
{
    reveal(ntfs_scan);
    assert(empty_mft().keys.to_set() =~= empty_mft().recs.dom());
    mft_lists_its_records(src, boot, runs, empty_mft());
    let bits = cluster_bitmap(src, boot.g, m.recs);
    let names = spare_names(src, boot.g, m);
    let title = volume_title(vol.label, "NTFS"@);
    assert(m.keys.to_set().contains(i));
    let k = choose|k: int| 0 <= k < m.keys.len() && m.keys[k] == i;
    assert(m.keys[k] == i);
    deleted_records_are_listed(src, boot.g, title, m.recs, bits, names, m.keys, k);
    let f = deleted_record(src, boot.g, title, m.recs, bits, names, i)->0;
    let files = deleted_records(src, boot.g, title, m.recs, bits, names, m.keys);
    let x = choose|x: int| 0 <= x < files.len() && files[x] == f;
    assert(files[x] == f);
    let list = attribute_list(m.recs, i, src, boot.g);
    if record_name(m.recs, m.recs[i], list) is None {
        assert(nameless(src, boot.g, m.recs, m.keys[k]));
        assert(any_nameless(src, boot.g, m));
    }
    let found = ntfs_scan(src, vol)->Ok_0.0;
    assert(found == files);
    assert(is_file_of(src, vol.label, boot.g, m, i, data, found[x]));
}

/// Nothing else is listed: every file of a scan is that of a record from number 24 on that is
/// not in use, is no directory and has an unnamed data attribute.
#[verifier::rlimit(40)]
pub proof fn listed_file_is_a_deleted_record<S: Source + ?Sized>(
    src: &S,
    vol: VolumeView,
    boot: NtfsBoot,
    runs: Seq<(Option<i64>, u64)>,
    m: MftView,
    x: int,
)
    requires
        mft_start(src, vol.base) == Ok::<(NtfsBoot, Seq<(Option<i64>, u64)>), Seq<char>>((boot, runs)),
        with_runs(src, boot, runs, empty_mft()) == Ok::<MftView, Seq<char>>(m),
        0 <= x < ntfs_scan(src, vol)->Ok_0.0.len(),
    ensures
        ntfs_scan(src, vol) matches Ok((files, map)) && exists|i: u64|
            i >= 24 && #[trigger] m.recs.contains_key(i) && !m.recs[i].in_use && !m.recs[i].is_dir && (resolved(
                m.recs,
                attribute_list(m.recs, i, src, boot.g),
                i,
                0x80,
                true,
            ) matches Some(data) && ((data matches ResolvedView::Resident(b) ==> b.len() <= u64::MAX) ==> is_file_of(
                src,
                vol.label,
                boot.g,
                m,
                i,
                data,
                files[x],
            ))),
{
    reveal(ntfs_scan);
    let bits = cluster_bitmap(src, boot.g, m.recs);
    let names = spare_names(src, boot.g, m);
    let title = volume_title(vol.label, "NTFS"@);
    let files = deleted_records(src, boot.g, title, m.recs, bits, names, m.keys);
    listed_records_were_deleted(src, boot.g, title, m.recs, bits, names, m.keys);
    assert(was_deleted(src, boot.g, title, m.recs, bits, names, m.keys, files[x]));
    let k = choose|k: int|
        0 <= k < m.keys.len() && deleted_record(src, boot.g, title, m.recs, bits, names, #[trigger] m.keys[k]) == Some(files[x])
            && m.recs.contains_key(m.keys[k]) && !m.recs[m.keys[k]].in_use;
    let i = m.keys[k];
    let list = attribute_list(m.recs, i, src, boot.g);
    if record_name(m.recs, m.recs[i], list) is None {
        assert(nameless(src, boot.g, m.recs, m.keys[k]));
        assert(any_nameless(src, boot.g, m));
    }
    assert(m.recs.contains_key(i));
}

/// The bitmap of a volume is the unnamed data of record 6, and the volume map goes by it, from
/// cluster 0 on, one cluster after the other.
pub proof fn bitmap_is_the_data_of_record_six<S: Source + ?Sized>(
    src: &S,
    vol: VolumeView,
    boot: NtfsBoot,
    runs: Seq<(Option<i64>, u64)>,
    m: MftView,
    data: ResolvedView,
)
    requires
        mft_start(src, vol.base) == Ok::<(NtfsBoot, Seq<(Option<i64>, u64)>), Seq<char>>((boot, runs)),
        with_runs(src, boot, runs, empty_mft()) == Ok::<MftView, Seq<char>>(m),
        resolved(m.recs, attribute_list(m.recs, 6, src, boot.g), 6, 0x80, true) == Some(data),
    ensures
        ({
            let bits = match data {
                ResolvedView::Resident(b) => b,
                ResolvedView::Runs(r, size) => boot.g.value(src, r, size),
            };
            &&& cluster_bitmap(src, boot.g, m.recs) == bits
            &&& ntfs_scan(src, vol) matches Ok((files, map)) && map == volume_map(
                vol,
                "NTFS"@,
                0,
                boot.g.cs,
                vol.size / boot.g.cs,
                AllocationView::Bits(bits),
            )
        }),
{
    reveal(ntfs_scan);
}

/// The start of a file's contents is its first sixteen bytes, or all of them where there are
/// fewer in the record; of a file in runs, those that stand at its first cluster.
pub proof fn contents_start_there<S: Source + ?Sized>(
    src: &S,
    disk: Seq<u8>,
    g: Geometry,
    b: Seq<u8>,
    runs: Seq<(Option<i64>, u64)>,
    size: u64,
)
    requires
        holds(src, disk),
        disk.len() <= u64::MAX,
    ensures
        b.len() >= 16 ==> head_of(src, g, ResolvedView::Resident(b)) == b.subrange(0, 16),
        b.len() < 16 ==> head_of(src, g, ResolvedView::Resident(b)) == b,
        runs.len() > 0 ==> (runs[0].0 matches Some(l) ==> (0 <= l && g.base + l * g.cs + 16 <= disk.len() ==> head_of(
            src,
            g,
            ResolvedView::Runs(runs, size),
        ) == disk.subrange(g.base + l * g.cs, g.base + l * g.cs + 16))),
{
    if b.len() >= 16 {
        assert(b.take(16) =~= b.subrange(0, 16));
    }
    if runs.len() > 0 {
        if let Some(l) = runs[0].0 {
            if 0 <= l && g.base + l * g.cs + 16 <= disk.len() {
                assert(l * g.cs >= 0) by (nonlinear_arith)
                    requires
                        l >= 0,
                ;
                assert(g.offset(l) == g.base + l * g.cs);
                assert(src.at(g.offset(l), 16) == Ok::<Seq<u8>, Seq<char>>(
                    disk.subrange(g.offset(l) as int, g.offset(l) + 16),
                ));
            }
        }
    }
}

#[verifier::rlimit(40)]
proof fn byte_of_the_mft(g: Geometry, runs: Seq<(Option<i64>, u64)>, target: u64, done: u64, end: int, j: int)
    requires
        end <= u64::MAX,
        runs_inside(g, runs, end),
        0 <= j < runs.len(),
        done + clusters_before(runs, j) * g.cs <= target,
        target < done + (clusters_before(runs, j) + runs[j].1) * g.cs,
        done + clusters_before(runs, j + 1) * g.cs <= u64::MAX,
    ensures
        mft_byte(g, runs, target, done) == match runs[j].0 {
            Some(l) => Some((g.base + l * g.cs + (target - done - clusters_before(runs, j) * g.cs)) as u64),
            None => None,
        },
    decreases runs.len(),
{
    let cs = g.cs as int;
    let first = runs[0].1 as int;
    let before = clusters_before(runs, j);
    assert(first * cs >= 0) by (nonlinear_arith)
        requires
            first >= 0,
            cs >= 0,
    ;
    assert(g.length(runs[0].1) == first * cs);
    assert((before + runs[j].1) * cs == before * cs + runs[j].1 * cs) by (nonlinear_arith);
    if j == 0 {
        assert(0 * cs == 0);
        if let Some(l) = runs[0].0 {
            run_stands_there(g, l, runs[0].1, end);
        }
    } else {
        let rest = runs.skip(1);
        assert forall|i: int| 0 <= i < rest.len() implies (#[trigger] rest[i]).1 * g.cs <= u64::MAX && (rest[i].0 matches Some(l)
            ==> 0 <= l && g.base + (l + rest[i].1) * g.cs <= end) by {
            assert(rest[i] == runs[i + 1]);
        }
        clusters_before_from_the_front(runs, j);
        clusters_before_from_the_front(runs, j + 1);
        let b = clusters_before(rest, j - 1);
        let b1 = clusters_before(rest, j);
        clusters_are_counted(rest, j - 1);
        clusters_are_counted(rest, j);
        assert((first + b) * cs == first * cs + b * cs) by (nonlinear_arith);
        assert((first + b1) * cs == first * cs + b1 * cs) by (nonlinear_arith);
        assert(b * cs >= 0 && b1 * cs >= 0) by (nonlinear_arith)
            requires
                b >= 0,
                b1 >= 0,
                cs >= 0,
        ;
        assert((b + rest[j - 1].1) * cs == b * cs + rest[j - 1].1 * cs) by (nonlinear_arith);
        byte_of_the_mft(g, rest, target, (done + first * cs) as u64, end, j - 1);
    }
}

proof fn clusters_before_from_the_front(runs: Seq<(Option<i64>, u64)>, j: int)
    requires
        0 < j <= runs.len(),
    ensures
        clusters_before(runs, j) == runs[0].1 + clusters_before(runs.skip(1), j - 1),
    decreases j,
{
    if j > 1 {
        clusters_before_from_the_front(runs, j - 1);
        assert(runs.skip(1)[j - 2] == runs[j - 1]);
    } else {
        reveal_with_fuel(clusters_before, 2);
    }
}

proof fn clusters_are_counted(runs: Seq<(Option<i64>, u64)>, j: int)
    ensures
        clusters_before(runs, j) >= 0,
    decreases j,
{
    if j > 0 {
        clusters_are_counted(runs, j - 1);
    }
}

/// The free space of a volume goes by the bitmap in record 6. Where the sixth record from the
/// MFT's first byte on stands inside its `j`-th run and is sound, and the `k`-th attribute is its
/// first unnamed data attribute, the bitmap is that attribute's value: as many bytes as it says.
#[verifier::rlimit(40)]
pub proof fn free_space_goes_by_record_six<S: Source + ?Sized>(
    src: &S,
    disk: Seq<u8>,
    vol: VolumeView,
    boot: NtfsBoot,
    runs: Seq<(Option<i64>, u64)>,
    j: int,
    k: int,
)
    requires
        holds(src, disk),
        disk.len() <= u64::MAX,
        mft_start(src, vol.base) == Ok::<(NtfsBoot, Seq<(Option<i64>, u64)>), Seq<char>>((boot, runs)),
        runs_inside(boot.g, runs, disk.len() as int),
        0 <= j < runs.len(),
        runs[j].0 is Some,
        clusters_before(runs, j) * boot.g.cs <= 6 * boot.rs,
        7 * boot.rs <= (clusters_before(runs, j) + runs[j].1) * boot.g.cs,
        clusters_before(runs, j + 1) * boot.g.cs <= u64::MAX,
        ({
            let at = boot.g.base + runs[j].0->0 * boot.g.cs + (6 * boot.rs - clusters_before(runs, j) * boot.g.cs);
            let raw = disk.subrange(at, at + boot.rs);
            let r = record(fixed_up(raw, file_magic()).0);
            &&& fixed_up(raw, file_magic()).1
            &&& 0 <= k < r.attrs.len()
            &&& r.attrs[k].type_ == 0x80 && !r.attrs[k].named && r.attrs[k].runs is Some
            &&& forall|i: int| 0 <= i < k ==> (#[trigger] r.attrs[i]).type_ != 0x80 || r.attrs[i].named
            &&& r.attrs[k].size > 0
        }),
    ensures
        ({
            let at = boot.g.base + runs[j].0->0 * boot.g.cs + (6 * boot.rs - clusters_before(runs, j) * boot.g.cs);
            let a = record(fixed_up(disk.subrange(at, at + boot.rs), file_magic()).0).attrs[k];
            let bits = boot.g.value(src, data_runs(a.runs->0), a.size);
            ntfs_free_ranges(src, vol) == Ok::<Seq<(u64, u64)>, Seq<char>>(
                free_byte_ranges(AllocationView::Bits(bits), vol.size / boot.g.cs, vol.base, boot.g.cs),
            )
        }),
{
    reveal(ntfs_free_ranges);
    reveal(mft_start);
    let l = runs[j].0->0;
    let cs = boot.g.cs as int;
    let before = clusters_before(runs, j);
    let at = boot.g.base + l * cs + (6 * boot.rs - before * cs);
    assert((before + runs[j].1) * cs == before * cs + runs[j].1 * cs) by (nonlinear_arith);
    assert((l + runs[j].1) * cs == l * cs + runs[j].1 * cs) by (nonlinear_arith);
    assert(l * cs >= 0) by (nonlinear_arith)
        requires
            l >= 0,
            cs >= 0,
    ;
    byte_of_the_mft(boot.g, runs, (6 * boot.rs) as u64, 0, disk.len() as int, j);
    assert(mft_byte(boot.g, runs, (6 * boot.rs) as u64, 0) == Some(at as u64));
    let raw = disk.subrange(at, at + boot.rs);
    assert(src.at(at as u64, boot.rs as nat) == Ok::<Seq<u8>, Seq<char>>(raw));
    first_data_is_taken(record(fixed_up(raw, file_magic()).0).attrs, k);
}

/// A bitmap record whose data attribute gives no size stands for all the bytes of its runs.
pub proof fn bitmap_without_a_size_is_read_whole<S: Source + ?Sized>(src: &S, g: Geometry, r: NtfsRecordView, k: int)
    requires
        0 <= k < r.attrs.len(),
        r.attrs[k].type_ == 0x80 && !r.attrs[k].named,
        forall|i: int| 0 <= i < k ==> (#[trigger] r.attrs[i]).type_ != 0x80 || r.attrs[i].named,
        r.attrs[k].runs is Some,
        r.attrs[k].size == 0,
        clusters_before(data_runs(r.attrs[k].runs->0), data_runs(r.attrs[k].runs->0).len() as int) * g.cs <= u64::MAX,
    ensures
        ({
            let runs = data_runs(r.attrs[k].runs->0);
            bitmap_of(src, g, r) == Some(g.value(src, runs, (clusters_before(runs, runs.len() as int) * g.cs) as u64))
        }),
{
    first_data_is_taken(r.attrs, k);
    runs_are_added_up(g, data_runs(r.attrs[k].runs->0));
}

proof fn runs_are_added_up(g: Geometry, runs: Seq<(Option<i64>, u64)>)
    requires
        clusters_before(runs, runs.len() as int) * g.cs <= u64::MAX,
    ensures
        runs_length(g, runs) == clusters_before(runs, runs.len() as int) * g.cs,
    decreases runs.len(),
{
    if runs.len() > 0 {
        let init = runs.drop_last();
        let n = init.len() as int;
        same_count_before(runs, init, n);
        clusters_are_counted(init, n);
        let a = clusters_before(init, n);
        let last = runs.last().1;
        assert(runs[n] == runs.last());
        assert((a + last) * g.cs == a * g.cs + last * g.cs) by (nonlinear_arith);
        assert(0 <= a * g.cs && 0 <= last * g.cs) by (nonlinear_arith)
            requires
                a >= 0,
        ;
        runs_are_added_up(g, init);
    } else {
        assert(0 * g.cs == 0);
    }
}

proof fn same_count_before(a: Seq<(Option<i64>, u64)>, b: Seq<(Option<i64>, u64)>, j: int)
    requires
        a.len() > 0,
        b == a.drop_last(),
        j <= b.len(),
    ensures
        clusters_before(a, j) == clusters_before(b, j),
    decreases j,
{
    if j > 0 {
        assert(b[j - 1] == a[j - 1]);
        same_count_before(a, b, j - 1);
    }
}

/// A deleted file is found wherever its record stands in the MFT: `k` records into the `j`-th run,
/// however long that is. What is listed is the file that the bytes there describe.
pub proof fn deleted_file_is_found<S: Source + ?Sized>(
    src: &S,
    disk: Seq<u8>,
    vol: VolumeView,
    boot: NtfsBoot,
    runs: Seq<(Option<i64>, u64)>,
    j: int,
    k: int,
)
    requires
        holds(src, disk),
        disk.len() <= u64::MAX,
        mft_start(src, vol.base) == Ok::<(NtfsBoot, Seq<(Option<i64>, u64)>), Seq<char>>((boot, runs)),
        0x10_0000int % boot.rs as int == 0,
        boot.rs > 0,
        runs_inside(boot.g, runs, disk.len() as int),
        numbers_in(boot.g.cs as int, boot.rs as int, runs) <= u64::MAX,
        0 <= j < runs.len(),
        runs[j].0 is Some,
        0 <= k,
        (k + 1) * boot.rs <= runs[j].1 * boot.g.cs,
        numbers_in(boot.g.cs as int, boot.rs as int, runs.take(j)) + k >= 24,
        ({
            let at = boot.g.base + runs[j].0->0 * boot.g.cs + k * boot.rs;
            let raw = disk.subrange(at, at + boot.rs);
            let r = record(fixed_up(raw, file_magic()).0);
            fixed_up(raw, file_magic()).1 && !r.in_use && !r.is_dir
        }),
    ensures
        with_runs(src, boot, runs, empty_mft()) matches Ok(m) && {
            let i = (numbers_in(boot.g.cs as int, boot.rs as int, runs.take(j)) + k) as u64;
            let data = resolved(m.recs, attribute_list(m.recs, i, src, boot.g), i, 0x80, true);
            &&& m.recs.contains_key(i)
            &&& data is Some && (data->0 matches ResolvedView::Resident(b) ==> b.len() <= u64::MAX) ==> (ntfs_scan(src, vol) matches Ok(
                (files, map),
            ) && exists|x: int|
                0 <= x < files.len() && is_file_of(src, vol.label, boot.g, m, i, data->0, #[trigger] files[x]))
        },
{
    every_record_is_read(src, disk, boot, runs, j, k);
    let m = with_runs(src, boot, runs, empty_mft())->Ok_0;
    let i = (numbers_in(boot.g.cs as int, boot.rs as int, runs.take(j)) + k) as u64;
    let data = resolved(m.recs, attribute_list(m.recs, i, src, boot.g), i, 0x80, true);
    if data is Some && (data->0 matches ResolvedView::Resident(b) ==> b.len() <= u64::MAX) {
        deleted_record_is_found(src, vol, boot, runs, m, i, data->0);
    }
}

/// The deleted files are listed in the order of their records: those of the records `a` and then
/// those of the records `b`.
pub proof fn records_are_listed_in_order<S: Source + ?Sized>(
    src: &S,
    g: Geometry,
    title: Seq<char>,
    recs: Map<u64, NtfsRecordView>,
    bits: Seq<u8>,
    names: Map<u64, (u64, Seq<char>)>,
    a: Seq<u64>,
    b: Seq<u64>,
)
    ensures
        deleted_records(src, g, title, recs, bits, names, a + b) == deleted_records(src, g, title, recs, bits, names, a)
            + deleted_records(src, g, title, recs, bits, names, b),
    decreases b.len(),
{
    let all = deleted_records(src, g, title, recs, bits, names, a + b);
    let before = deleted_records(src, g, title, recs, bits, names, a);
    let behind = deleted_records(src, g, title, recs, bits, names, b);
    if b.len() == 0 {
        assert(a + b =~= a);
    } else {
        assert((a + b).drop_last() =~= a + b.drop_last());
        records_are_listed_in_order(src, g, title, recs, bits, names, a, b.drop_last());
    }
    assert(all =~= before + behind);
}

} // verus!
