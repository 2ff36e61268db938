//! NTFS records: the sector fixup, the attributes, and the attribute list.

use crate::bytes::{fields_are_little_endian, units_are_groups_of_two};
use crate::bytes::{copy_range, has_at, le16, le32, le64, stands_at, u16le, u32le, u64le, units};
use crate::model::{views, views_push};
use crate::text::{utf16, utf16_text};
use crate::volume::{long_number_at, number_at};
use vstd::prelude::*;

verus! {

/// What is left of `rec`, and whether all is well, once the sectors from `i` up to `un` are
/// fixed up: the last two bytes of each must be `usn`, and are replaced by the entry of the
/// update sequence array at `uo`.
pub open spec fn fix_sectors(rec: Seq<u8>, uo: int, usn: (u8, u8), i: int, un: int) -> (Seq<u8>, bool)
    decreases un - i,
{
    if i >= un {
        (rec, true)
    } else {
        let p = i * 512 - 2;
        if p + 2 > rec.len() || rec[p] != usn.0 || rec[p + 1] != usn.1 {
            (rec, false)
        } else {
            let half = rec.update(p, rec[uo + 2 * i]);
            fix_sectors(half.update(p + 1, half[uo + 2 * i + 1]), uo, usn, i + 1, un)
        }
    }
}

/// `rec` with the fixup applied, and whether it is a sound record: long enough, marked by
/// `magic`, with an update sequence array inside it that fits every sector.
pub open spec fn fixed_up(rec: Seq<u8>, magic: Seq<u8>) -> (Seq<u8>, bool) {
    let uo = le16(rec, 4) as int;
    let un = le16(rec, 6) as int;
    if rec.len() < 48 || !stands_at(rec, 0, magic) || uo + 2 * un > rec.len() || uo + 2 > rec.len() {
        (rec, false)
    } else {
        fix_sectors(rec, uo, (rec[uo], rec[uo + 1]), 1, un)
    }
}

/// The mark of an MFT record.
pub open spec fn file_magic() -> Seq<u8> {
    seq![0x46, 0x49, 0x4C, 0x45]
}

/// The mark of an index block.
pub open spec fn indx_magic() -> Seq<u8> {
    seq![0x49, 0x4E, 0x44, 0x58]
}

/// Whether `p` is one of the last two bytes of a sector.
pub open spec fn sector_tail(p: int) -> bool {
    p % 512 >= 510
}

proof fn fix_keeps_the_rest(rec: Seq<u8>, uo: int, usn: (u8, u8), i: int, un: int)
    requires
        1 <= i,
        0 <= uo,
    ensures
        fix_sectors(rec, uo, usn, i, un).0.len() == rec.len(),
        forall|p: int|
            0 <= p < rec.len() && (!sector_tail(p) || p < 512 * i - 2) ==> #[trigger] fix_sectors(rec, uo, usn, i, un).0[p]
                == rec[p],
    decreases un - i,
{
    if i < un {
        let p = i * 512 - 2;
        if !(p + 2 > rec.len() || rec[p] != usn.0 || rec[p + 1] != usn.1) {
            let half = rec.update(p, rec[uo + 2 * i]);
            fix_keeps_the_rest(half.update(p + 1, half[uo + 2 * i + 1]), uo, usn, i + 1, un);
        }
    }
}

/// Whether the end of sector `k` of `rec` held `usn`, and holds in `out` what the update
/// sequence array at `uo` saved for it.
pub open spec fn tail_restored(rec: Seq<u8>, out: Seq<u8>, uo: int, usn: (u8, u8), k: int) -> bool {
    let p = 512 * k - 2;
    &&& p + 2 <= rec.len()
    &&& rec[p] == usn.0
    &&& rec[p + 1] == usn.1
    &&& out[p] == rec[uo + 2 * k]
    &&& out[p + 1] == rec[uo + 2 * k + 1]
}

proof fn fix_restores_tails(rec: Seq<u8>, uo: int, usn: (u8, u8), i: int, un: int)
    requires
        1 <= i,
        0 <= uo,
        uo + 2 * un <= 510,
        fix_sectors(rec, uo, usn, i, un).1,
    ensures
        forall|k: int|
            i <= k < un ==> #[trigger] tail_restored(rec, fix_sectors(rec, uo, usn, i, un).0, uo, usn, k),
    decreases un - i,
{
    if i < un {
        let p = i * 512 - 2;
        let half = rec.update(p, rec[uo + 2 * i]);
        let next = half.update(p + 1, half[uo + 2 * i + 1]);
        fix_restores_tails(next, uo, usn, i + 1, un);
        fix_keeps_the_rest(next, uo, usn, i + 1, un);
        let out = fix_sectors(rec, uo, usn, i, un).0;
        assert forall|k: int| i <= k < un implies #[trigger] tail_restored(rec, out, uo, usn, k) by {
            if k > i {
                assert(tail_restored(next, out, uo, usn, k));
            }
        }
    }
}

/// The fixup keeps a record's length, and touches nothing but the last two bytes of sectors.
pub proof fn fixup_touches_sector_tails_only(rec: Seq<u8>, magic: Seq<u8>)
    ensures
        fixed_up(rec, magic).0.len() == rec.len(),
        forall|p: int|
            0 <= p < rec.len() && !sector_tail(p) ==> #[trigger] fixed_up(rec, magic).0[p] == rec[p],
{
    let uo = le16(rec, 4) as int;
    fix_keeps_the_rest(rec, uo, (rec[uo], rec[uo + 1]), 1, le16(rec, 6) as int);
}

/// A fixup that succeeds found the update sequence number at the end of every sector, and
/// put the saved bytes back there. The array stands in the first sector, before its end.
pub proof fn fixup_restores_sector_tails(rec: Seq<u8>, magic: Seq<u8>)
    requires
        fixed_up(rec, magic).1,
        le16(rec, 4) + 2 * le16(rec, 6) <= 510,
    ensures
        forall|k: int|
            1 <= k < le16(rec, 6) ==> #[trigger] tail_restored(
                rec,
                fixed_up(rec, magic).0,
                le16(rec, 4) as int,
                (rec[le16(rec, 4) as int], rec[le16(rec, 4) + 1]),
                k,
            ),
{
    let uo = le16(rec, 4) as int;
    fix_restores_tails(rec, uo, (rec[uo], rec[uo + 1]), 1, le16(rec, 6) as int);
}

/// Fix up a record guarded by `magic` (`FILE` or `INDX`).
pub fn fixup(rec: &mut [u8], magic: &[u8]) -> (r: bool)
    requires
        magic@.len() == 4,
    ensures
        final(rec)@ == fixed_up(old(rec)@, magic@).0,
        r == fixed_up(old(rec)@, magic@).1,
        r ==> final(rec)@.len() >= 48,
        final(rec)@.len() == old(rec)@.len(),
{
    let ghost rec0 = rec@;
    if rec.len() < 48 || !has_at(rec, 0, magic) {
        return false;
    }
    let uo = u16le(rec, 4) as usize;
    let un = u16le(rec, 6) as usize;
    if uo + 2 * un > rec.len() || uo + 2 > rec.len() {
        return false;
    }
    let u0 = rec[uo];
    let u1 = rec[uo + 1];
    let mut i: usize = 1;
    while i < un
        invariant
            1 <= i,
            un <= 0xFFFF,
            rec0 == old(rec)@,
            rec@.len() == rec0.len() == rec.len(),
            rec@.len() >= 48,
            uo + 2 * un <= rec@.len(),
            fix_sectors(rec@, uo as int, (u0, u1), i as int, un as int) == fixed_up(rec0, magic@),
        decreases un - i,
    {
        let p = i * 512 - 2;
        if p + 2 > rec.len() || rec[p] != u0 || rec[p + 1] != u1 {
            return false;
        }
        let a = rec[uo + 2 * i];
        rec[p] = a;
        let b = rec[uo + 2 * i + 1];
        rec[p + 1] = b;
        i += 1;
    }
    true
}

/// Apply the update sequence array of an MFT record (in place).
pub fn ntfs_fixup(rec: &mut [u8]) -> (r: bool)
    ensures
        final(rec)@ == fixed_up(old(rec)@, file_magic()).0,
        r == fixed_up(old(rec)@, file_magic()).1,
        r ==> final(rec)@.len() >= 48,
        final(rec)@.len() == old(rec)@.len(),
{
    let magic: [u8; 4] = [0x46, 0x49, 0x4C, 0x45];
    assert(magic@ =~= file_magic());
    fixup(rec, &magic)
}

/// The bytes behind an optional vector.
pub open spec fn bytes_view(b: Option<Vec<u8>>) -> Option<Seq<u8>> {
    match b {
        Some(b) => Some(b@),
        None => None,
    }
}

/// One attribute of an MFT record, as far as undelete needs it.
#[derive(Debug, Clone)]
pub struct NtfsAttr {
    pub type_: u32,
    /// The attribute has a name (e.g. `$I30`); unnamed `$DATA`/`$FILE_NAME` do not.
    pub named: bool,
    /// Lowest VCN of a non-resident attribute (0 for its first extent).
    pub vcn: u64,
    /// Real data size; only the first extent carries it.
    pub size: u64,
    /// Resident value bytes.
    pub resident: Option<Vec<u8>>,
    /// Raw mapping-pairs runlist of a non-resident attribute.
    pub runs: Option<Vec<u8>>,
}

/// The view of `NtfsAttr`.
pub struct NtfsAttrView {
    pub type_: u32,
    pub named: bool,
    pub vcn: u64,
    pub size: u64,
    pub resident: Option<Seq<u8>>,
    pub runs: Option<Seq<u8>>,
}

impl View for NtfsAttr {
    type V = NtfsAttrView;

    open spec fn view(&self) -> NtfsAttrView {
        NtfsAttrView {
            type_: self.type_,
            named: self.named,
            vcn: self.vcn,
            size: self.size,
            resident: bytes_view(self.resident),
            runs: bytes_view(self.runs),
        }
    }
}

/// An MFT record.
#[derive(Debug)]
pub struct NtfsRecord {
    pub in_use: bool,
    pub is_dir: bool,
    pub attrs: Vec<NtfsAttr>,
}

/// The view of `NtfsRecord`.
pub struct NtfsRecordView {
    pub in_use: bool,
    pub is_dir: bool,
    pub attrs: Seq<NtfsAttrView>,
}

impl View for NtfsRecord {
    type V = NtfsRecordView;

    open spec fn view(&self) -> NtfsRecordView {
        NtfsRecordView { in_use: self.in_use, is_dir: self.is_dir, attrs: views(self.attrs@) }
    }
}

/// The attribute in the bytes `a`: its runlist where it is non-resident, its value where it
/// is resident, nothing of either where that would stand outside.
pub open spec fn attribute(a: Seq<u8>) -> NtfsAttrView {
    let nonresident = a[8] != 0;
    let at = le16(
        a,
        if nonresident {
            32
        } else {
            20
        },
    ) as int;
    let len = le32(a, 16) as int;
    NtfsAttrView {
        type_: le32(a, 0),
        named: a[9] != 0,
        vcn: if nonresident {
            le64(a, 16)
        } else {
            0
        },
        size: if nonresident {
            le64(a, 48)
        } else {
            0
        },
        resident: if !nonresident && at + len <= a.len() {
            Some(a.subrange(at, at + len))
        } else {
            None
        },
        runs: if nonresident && at < a.len() {
            Some(a.skip(at))
        } else {
            None
        },
    }
}

/// Whether an attribute stands in `rec` at `off`: no end mark, and as long as it says and
/// as its form needs.
pub open spec fn attribute_at(rec: Seq<u8>, off: int) -> bool {
    &&& off + 16 <= rec.len()
    &&& le32(rec, off) != 0xFFFF_FFFF
    &&& le32(rec, off + 4) >= 16
    &&& off + le32(rec, off + 4) <= rec.len()
    &&& le32(rec, off + 4) >= if rec[off + 8] != 0 {
        56int
    } else {
        22int
    }
}

/// The attributes of `rec` from `off` on.
pub open spec fn attributes(rec: Seq<u8>, off: int) -> Seq<NtfsAttrView>
    decreases rec.len() - off,
{
    if attribute_at(rec, off) {
        let end = off + le32(rec, off + 4);
        seq![attribute(rec.subrange(off, end))] + attributes(rec, end)
    } else {
        seq![]
    }
}

/// The record in the (fixed up) bytes `rec`.
pub open spec fn record(rec: Seq<u8>) -> NtfsRecordView {
    NtfsRecordView {
        in_use: le16(rec, 22) & 1 != 0,
        is_dir: le16(rec, 22) & 2 != 0,
        attrs: attributes(rec, le16(rec, 20) as int),
    }
}

fn read_attribute(a: &[u8]) -> (r: NtfsAttr)
    requires
        a@.len() >= if a@[8] != 0 {
            56int
        } else {
            22int
        },
    ensures
        r@ == attribute(a@),
{
    assert(a@.len() == a.len());
    let nonresident = a[8] != 0;
    let mut attr = NtfsAttr {
        type_: u32le(a, 0),
        named: a[9] != 0,
        vcn: 0,
        size: 0,
        resident: None,
        runs: None,
    };
    if nonresident {
        attr.vcn = u64le(a, 16);
        attr.size = u64le(a, 48);
        let ro = u16le(a, 32) as usize;
        if ro < a.len() {
            let runs = copy_range(a, ro, a.len());
            assert(runs@ =~= a@.skip(ro as int));
            attr.runs = Some(runs);
        }
    } else {
        let co = u16le(a, 20) as usize;
        let cl = u32le(a, 16) as usize;
        if co <= a.len() && cl <= a.len() - co {
            attr.resident = Some(copy_range(a, co, co + cl));
        }
    }
    attr
}

/// The record in the (fixed up) bytes `rec`.
pub fn ntfs_record(rec: &[u8]) -> (r: NtfsRecord)
    requires
        rec@.len() >= 24,
    ensures
        r@ == record(rec@),
{
    assert(rec@.len() == rec.len());
    let flags = u16le(rec, 22);
    let first = u16le(rec, 20) as usize;
    let mut attrs: Vec<NtfsAttr> = Vec::new();
    let mut off = first;
    let ghost all = attributes(rec@, first as int);
    assert(views(attrs@) + all =~= all);
    while off <= rec.len() && rec.len() - off >= 16
        invariant
            rec@.len() == rec.len(),
            views(attrs@) + attributes(rec@, off as int) == all,
        ensures
            !attribute_at(rec@, off as int),
        decreases rec@.len() - off,
    {
        let ghost before = views(attrs@);
        let ghost rest = attributes(rec@, off as int);
        let t = u32le(rec, off);
        let len = u32le(rec, off + 4) as usize;
        let need: usize = if rec[off + 8] != 0 {
            56
        } else {
            22
        };
        if t == 0xFFFF_FFFF || len < need || len > rec.len() - off {
            break ;
        }
        let a = vstd::slice::slice_subrange(rec, off, off + len);
        let attr = read_attribute(a);
        proof {
            views_push(attrs@, attr);
        }
        attrs.push(attr);
        assert(views(attrs@) + attributes(rec@, off + len) =~= before + rest);
        off += len;
    }
    assert(views(attrs@) + attributes(rec@, off as int) =~= views(attrs@));
    NtfsRecord { in_use: flags & 1 != 0, is_dir: flags & 2 != 0, attrs }
}

/// Rank, parent record and name in the `$FILE_NAME` value `c`: lower ranks are preferred,
/// and the DOS namespace comes last.
pub open spec fn file_name(c: Seq<u8>) -> Option<(u8, u64, Seq<char>)> {
    if c.len() < 66 || 66 + 2 * c[64] > c.len() {
        None
    } else {
        Some(
            (
                if c[65] == 2 {
                    3
                } else {
                    c[65]
                },
                le64(c, 0) & 0x0000_FFFF_FFFF_FFFF,
                utf16_text(units(c.subrange(66, 66 + 2 * c[64]))),
            ),
        )
    }
}

/// The name that attribute `a` gives, if it is a resident `$FILE_NAME`.
pub open spec fn name_in(a: NtfsAttrView) -> Option<(u8, u64, Seq<char>)> {
    if a.type_ == 0x30 && a.resident is Some {
        file_name(a.resident->Some_0)
    } else {
        None
    }
}

/// The first of the best-ranked names among the attributes.
pub open spec fn best_name(attrs: Seq<NtfsAttrView>) -> Option<(u8, u64, Seq<char>)>
    decreases attrs.len(),
{
    if attrs.len() == 0 {
        None
    } else {
        let before = best_name(attrs.drop_last());
        match name_in(attrs.last()) {
            Some(n) => if before is None || n.0 < before->Some_0.0 {
                Some(n)
            } else {
                before
            },
            None => before,
        }
    }
}

/// No name of a record has a lower rank than the best one, and there is a best one as soon
/// as there is any.
pub proof fn best_name_is_best(attrs: Seq<NtfsAttrView>)
    ensures
        forall|i: int|
            0 <= i < attrs.len() && name_in(#[trigger] attrs[i]) is Some ==> best_name(attrs) is Some && best_name(
                attrs,
            )->Some_0.0 <= name_in(attrs[i])->Some_0.0,
        best_name(attrs) is Some ==> exists|i: int|
            0 <= i < attrs.len() && name_in(#[trigger] attrs[i]) == best_name(attrs),
    decreases attrs.len(),
{
    if attrs.len() > 0 {
        let init = attrs.drop_last();
        best_name_is_best(init);
        assert forall|i: int|
            0 <= i < attrs.len() && name_in(#[trigger] attrs[i]) is Some implies best_name(attrs) is Some && best_name(
            attrs,
        )->Some_0.0 <= name_in(attrs[i])->Some_0.0 by {
            if i < init.len() {
                assert(init[i] == attrs[i]);
            }
        }
        if best_name(attrs) is Some {
            if best_name(attrs) == name_in(attrs.last()) {
                assert(name_in(attrs[attrs.len() - 1]) == best_name(attrs));
            } else {
                let i = choose|i: int| 0 <= i < init.len() && name_in(#[trigger] init[i]) == best_name(init);
                assert(attrs[i] == init[i]);
            }
        }
    }
}

impl NtfsRecordView {
    /// Parent record and name.
    pub open spec fn name(self) -> Option<(u64, Seq<char>)> {
        match best_name(self.attrs) {
            Some(n) => Some((n.1, n.2)),
            None => None,
        }
    }

    /// Whether the record holds (the start of) a file's contents.
    pub open spec fn has_data(self) -> bool {
        exists|i: int| 0 <= i < self.attrs.len() && (#[trigger] self.attrs[i]).type_ == 0x80 && !self.attrs[i].named
    }
}

/// What an optional (number, text) pair is to the reader of a specification.
pub open spec fn named_view(n: Option<(u64, String)>) -> Option<(u64, Seq<char>)> {
    match n {
        Some((p, n)) => Some((p, n@)),
        None => None,
    }
}

/// Rank, parent record and name in a `$FILE_NAME` value.
pub fn read_file_name(c: &[u8]) -> (r: Option<(u8, u64, String)>)
    ensures
        match r {
            Some((k, p, n)) => file_name(c@) == Some((k, p, n@)),
            None => file_name(c@) is None,
        },
{
    if c.len() < 66 {
        return None;
    }
    let n = c[64] as usize;
    let ns = c[65];
    if 2 * n > c.len() - 66 {
        return None;
    }
    let rank = if ns == 2 {
        3
    } else {
        ns
    };
    let name = utf16(vstd::slice::slice_subrange(c, 66, 66 + 2 * n));
    Some((rank, u64le(c, 0) & 0x0000_FFFF_FFFF_FFFF, name))
}

impl NtfsRecord {
    /// Best `$FILE_NAME` value: (parent record, name). The Win32 namespace is
    /// preferred over the 8.3 DOS one.
    pub fn name(&self) -> (r: Option<(u64, String)>)
        ensures
            named_view(r) == self@.name(),
    {
        let mut best: Option<(u8, u64, String)> = None;
        let ghost all = views(self.attrs@);
        let mut i: usize = 0;
        while i < self.attrs.len()
            invariant
                i <= self.attrs@.len(),
                all == views(self.attrs@),
                match best {
                    Some((k, p, n)) => best_name(all.take(i as int)) == Some((k, p, n@)),
                    None => best_name(all.take(i as int)) is None,
                },
            decreases self.attrs@.len() - i,
        {
            assert(all.take(i + 1).drop_last() =~= all.take(i as int));
            let a = &self.attrs[i];
            assert(all.take(i + 1).last() == a@);
            if a.type_ == 0x30 {
                if let Some(c) = &a.resident {
                    if let Some((k, p, n)) = read_file_name(c) {
                        let better = match &best {
                            Some((r, _, _)) => k < *r,
                            None => true,
                        };
                        if better {
                            best = Some((k, p, n));
                        }
                    }
                }
            }
            i += 1;
        }
        assert(all.take(i as int) =~= all);
        match best {
            Some((_, p, n)) => Some((p, n)),
            None => None,
        }
    }

    /// Whether the record holds (the start of) a file's contents.
    pub fn has_data(&self) -> (r: bool)
        ensures
            r == self@.has_data(),
    {
        let ghost all = self@.attrs;
        let mut i: usize = 0;
        while i < self.attrs.len()
            invariant
                i <= self.attrs@.len(),
                all == views(self.attrs@),
                forall|k: int| 0 <= k < i ==> !((#[trigger] all[k]).type_ == 0x80 && !all[k].named),
            decreases self.attrs@.len() - i,
        {
            assert(all[i as int] == self.attrs@[i as int]@);
            if self.attrs[i].type_ == 0x80 && !self.attrs[i].named {
                return true;
            }
            i += 1;
        }
        false
    }
}

/// One entry of a record's `$ATTRIBUTE_LIST`.
#[derive(Debug, Clone, Copy, PartialEq, Eq, Structural)]
pub struct AttrRef {
    pub type_: u32,
    pub id: u16,
    pub named: bool,
    /// MFT record number holding this attribute extent.
    pub record: u64,
    pub vcn: u64,
}

/// Whether a list entry stands in `b` at `off`.
pub open spec fn list_entry_at(b: Seq<u8>, off: int) -> bool {
    &&& off + 26 <= b.len()
    &&& le32(b, off) != 0xFFFF_FFFF
    &&& le16(b, off + 4) >= 26
    &&& off + le16(b, off + 4) <= b.len()
}

/// The list entry that stands in `b` at `off`.
pub open spec fn list_entry(b: Seq<u8>, off: int) -> AttrRef {
    AttrRef {
        type_: le32(b, off),
        id: le16(b, off + 24),
        named: b[off + 6] != 0,
        record: le64(b, off + 16) & 0x0000_FFFF_FFFF_FFFF,
        vcn: le64(b, off + 8),
    }
}

/// The list entries in `b` from `off` on.
pub open spec fn list_entries(b: Seq<u8>, off: int) -> Seq<AttrRef>
    decreases b.len() - off,
{
    if list_entry_at(b, off) {
        seq![list_entry(b, off)] + list_entries(b, off + le16(b, off + 4))
    } else {
        seq![]
    }
}

/// Parse the entries of a `$ATTRIBUTE_LIST` value.
pub fn attr_list_entries(b: &[u8]) -> (r: Vec<AttrRef>)
    ensures
        r@ == list_entries(b@, 0),
{
    assert(b@.len() == b.len());
    let mut v: Vec<AttrRef> = Vec::new();
    let mut off: usize = 0;
    assert(v@ + list_entries(b@, 0) =~= list_entries(b@, 0));
    while b.len() - off >= 26
        invariant
            off <= b@.len() == b.len(),
            v@ + list_entries(b@, off as int) == list_entries(b@, 0),
        ensures
            !list_entry_at(b@, off as int),
        decreases b@.len() - off,
    {
        let ghost before = v@;
        let ghost rest = list_entries(b@, off as int);
        let t = u32le(b, off);
        let len = u16le(b, off + 4) as usize;
        if t == 0xFFFF_FFFF || len < 26 || len > b.len() - off {
            break ;
        }
        v.push(
            AttrRef {
                type_: t,
                id: u16le(b, off + 24),
                named: b[off + 6] != 0,
                record: u64le(b, off + 16) & 0x0000_FFFF_FFFF_FFFF,
                vcn: u64le(b, off + 8),
            },
        );
        assert(v@ + list_entries(b@, off + len) =~= before + rest);
        off += len;
    }
    assert(v@ + list_entries(b@, off as int) =~= v@);
    v
}

/// Whether the `k`-th sector of `rec`, counted from 1, is there and ends in `usn`.
pub open spec fn ends_in(rec: Seq<u8>, k: int, usn: (u8, u8)) -> bool {
    512 * k <= rec.len() && rec[512 * k - 2] == usn.0 && rec[512 * k - 1] == usn.1
}

/// Whether `rec` is sealed: it starts with `magic`, and the last two bytes of each of its sectors
/// are the update sequence number, the first entry of the array that bytes 4 to 7 describe.
pub open spec fn sealed(rec: Seq<u8>, magic: Seq<char>) -> bool {
    let at = rec[4] + 256 * rec[5];
    let n = rec[6] + 256 * rec[7];
    &&& rec.len() >= 48
    &&& rec[0] as int == magic[0] as int && rec[1] as int == magic[1] as int
    &&& rec[2] as int == magic[2] as int && rec[3] as int == magic[3] as int
    &&& at + 2 * n <= rec.len() && at + 2 <= rec.len()
    &&& forall|k: int| 1 <= k < n ==> #[trigger] ends_in(rec, k, (rec[at], rec[at + 1]))
}

proof fn sectors_are_checked(rec: Seq<u8>, at: int, usn: (u8, u8), i: int, n: int)
    requires
        1 <= i,
        0 <= at,
        at + 2 * n <= 510,
        at + 2 * n <= rec.len(),
    ensures
        fix_sectors(rec, at, usn, i, n).1 <==> forall|k: int| i <= k < n ==> #[trigger] ends_in(rec, k, usn),
    decreases n - i,
{
    if i < n {
        let p = i * 512 - 2;
        if ends_in(rec, i, usn) {
            let half = rec.update(p, rec[at + 2 * i]);
            let next = half.update(p + 1, half[at + 2 * i + 1]);
            sectors_are_checked(next, at, usn, i + 1, n);
            assert forall|k: int| i + 1 <= k < n implies #[trigger] ends_in(next, k, usn) == ends_in(rec, k, usn) by {}
            if forall|k: int| i + 1 <= k < n ==> #[trigger] ends_in(next, k, usn) {
                assert forall|k: int| i <= k < n implies #[trigger] ends_in(rec, k, usn) by {
                    if k > i {
                        assert(ends_in(next, k, usn));
                    }
                }
            }
            if forall|k: int| i <= k < n ==> #[trigger] ends_in(rec, k, usn) {
                assert forall|k: int| i + 1 <= k < n implies #[trigger] ends_in(next, k, usn) by {
                    assert(ends_in(rec, k, usn));
                }
            }
        }
    }
}

/// A record is taken exactly if it is sealed, and then the bytes that its array has saved stand
/// again at the ends of its sectors, and all else stays. The array stands in the first sector,
/// before its end.
#[verifier::rlimit(40)]
pub proof fn sealed_records_are_taken(rec: Seq<u8>, k: int)
    requires
        rec.len() >= 48,
        rec[4] + 256 * rec[5] + 2 * (rec[6] + 256 * rec[7]) <= 510,
    ensures
        fixed_up(rec, file_magic()).1 <==> sealed(rec, "FILE"@),
        fixed_up(rec, indx_magic()).1 <==> sealed(rec, "INDX"@),
        sealed(rec, "FILE"@) && 1 <= k < rec[6] + 256 * rec[7] ==> {
            let at = rec[4] + 256 * rec[5];
            &&& fixed_up(rec, file_magic()).0[512 * k - 2] == rec[at + 2 * k]
            &&& fixed_up(rec, file_magic()).0[512 * k - 1] == rec[at + 2 * k + 1]
        },
        sealed(rec, "INDX"@) && 1 <= k < rec[6] + 256 * rec[7] ==> {
            let at = rec[4] + 256 * rec[5];
            &&& fixed_up(rec, indx_magic()).0[512 * k - 2] == rec[at + 2 * k]
            &&& fixed_up(rec, indx_magic()).0[512 * k - 1] == rec[at + 2 * k + 1]
        },
        forall|p: int| 0 <= p < rec.len() && p % 512 < 510 ==> #[trigger] fixed_up(rec, file_magic()).0[p] == rec[p],
        forall|p: int| 0 <= p < rec.len() && p % 512 < 510 ==> #[trigger] fixed_up(rec, indx_magic()).0[p] == rec[p],
{
    fields_are_little_endian(rec, 4);
    fields_are_little_endian(rec, 6);
    reveal_strlit("FILE");
    reveal_strlit("INDX");
    let at = rec[4] + 256 * rec[5];
    let n = rec[6] + 256 * rec[7];
    let head = rec.subrange(0, 4);
    assert(head[0] == rec[0] && head[1] == rec[1] && head[2] == rec[2] && head[3] == rec[3]);
    if rec[0] == 0x46 && rec[1] == 0x49 && rec[2] == 0x4C && rec[3] == 0x45 {
        assert(head =~= file_magic());
    }
    if rec[0] == 0x49 && rec[1] == 0x4E && rec[2] == 0x44 && rec[3] == 0x58 {
        assert(head =~= indx_magic());
    }
    if at + 2 * n <= rec.len() && at + 2 <= rec.len() {
        sectors_are_checked(rec, at, (rec[at], rec[at + 1]), 1, n);
    }
    fixup_touches_sector_tails_only(rec, file_magic());
    fixup_touches_sector_tails_only(rec, indx_magic());
    if sealed(rec, "FILE"@) {
        fixup_restores_sector_tails(rec, file_magic());
        if 1 <= k < n {
            assert(tail_restored(rec, fixed_up(rec, file_magic()).0, at, (rec[at], rec[at + 1]), k));
        }
    }
    if sealed(rec, "INDX"@) {
        fixup_restores_sector_tails(rec, indx_magic());
        if 1 <= k < n {
            assert(tail_restored(rec, fixed_up(rec, indx_magic()).0, at, (rec[at], rec[at + 1]), k));
        }
    }
}

/// What an attribute says stands in its bytes: its type, whether it has a name, and, where it is
/// resident, its value; otherwise its first cluster, its size and its runlist.
#[verifier::rlimit(40)]
pub proof fn attribute_fields_are_read(a: Seq<u8>)
    requires
        a.len() >= 24,
        a[8] != 0 ==> a.len() >= 64,
    ensures
        attribute(a).type_ == number_at(a, 0),
        attribute(a).named <==> a[9] != 0,
        a[8] == 0 && a[20] + 256 * a[21] + number_at(a, 16) <= a.len() ==> attribute(a).resident == Some(
            a.subrange(a[20] + 256 * a[21], a[20] + 256 * a[21] + number_at(a, 16)),
        ),
        a[8] == 0 ==> attribute(a).runs is None && attribute(a).vcn == 0,
        a[8] != 0 ==> {
            &&& attribute(a).resident is None
            &&& attribute(a).vcn == long_number_at(a, 16)
            &&& attribute(a).size == long_number_at(a, 48)
            &&& a[32] + 256 * a[33] < a.len() ==> attribute(a).runs == Some(a.subrange(a[32] + 256 * a[33], a.len() as int))
        },
{
    fields_are_little_endian(a, 0);
    fields_are_little_endian(a, 16);
    fields_are_little_endian(a, 20);
    fields_are_little_endian(a, 32);
    fields_are_little_endian(a, 48);
    assert(le32(a, 0) == number_at(a, 0) && le32(a, 16) == number_at(a, 16));
    assert(le64(a, 16) == long_number_at(a, 16) && le64(a, 48) == long_number_at(a, 48));
    if a[8] != 0 && a[32] + 256 * a[33] < a.len() {
        assert(a.skip(a[32] + 256 * a[33]) =~= a.subrange(a[32] + 256 * a[33], a.len() as int));
    }
}

/// Attributes stand one behind the other, each as long as it says, up to the end mark.
#[verifier::rlimit(40)]
pub proof fn attributes_follow_each_other(rec: Seq<u8>, off: int)
    requires
        0 <= off,
        off + 16 <= rec.len(),
    ensures
        number_at(rec, off) == 0xFFFF_FFFF ==> attributes(rec, off).len() == 0,
        ({
            let n = number_at(rec, off + 4);
            number_at(rec, off) != 0xFFFF_FFFF && n >= 24 && (rec[off + 8] != 0 ==> n >= 64) && off + n <= rec.len()
                ==> attributes(rec, off) == seq![attribute(rec.subrange(off, off + n))] + attributes(rec, off + n)
        }),
{
    fields_are_little_endian(rec, off);
    fields_are_little_endian(rec, off + 4);
    assert(le32(rec, off) == number_at(rec, off));
    assert(le32(rec, off + 4) == number_at(rec, off + 4));
}

/// What a record says of itself stands in its bytes: that it is in use and that it is a
/// directory in byte 22, and where its attributes start in bytes 20 and 21.
pub proof fn record_fields_are_read(rec: Seq<u8>)
    requires
        rec.len() >= 48,
    ensures
        record(rec).in_use <==> rec[22] % 2 == 1,
        record(rec).is_dir <==> (rec[22] / 2) % 2 == 1,
        record(rec).attrs == attributes(rec, rec[20] + 256 * rec[21]),
{
    fields_are_little_endian(rec, 20);
    fields_are_little_endian(rec, 22);
    let w = le16(rec, 22);
    let lo = rec[22];
    let hi = rec[23];
    assert((w & 1 != 0) <==> lo % 2 == 1) by (bit_vector)
        requires
            w == lo + 256 * hi,
    ;
    assert((w & 2 != 0) <==> (lo / 2) % 2 == 1) by (bit_vector)
        requires
            w == lo + 256 * hi,
    ;
}

/// The number of a record takes six bytes, the lowest first; the two behind them count nothing.
pub proof fn record_numbers_have_six_bytes(b: Seq<u8>, o: int)
    requires
        0 <= o,
        o + 8 <= b.len(),
    ensures
        le64(b, o) & 0x0000_FFFF_FFFF_FFFF == number_at(b, o) + 0x1_0000_0000 * (b[o + 4] + 256 * b[o + 5]),
{
    fields_are_little_endian(b, o);
    let x = le64(b, o);
    assert(x == long_number_at(b, o));
    assert(x & 0x0000_FFFF_FFFF_FFFF == x % 0x1_0000_0000_0000) by (bit_vector);
    assert(number_at(b, o + 4) == b[o + 4] + 256 * b[o + 5] + 0x1_0000 * (b[o + 6] + 256 * b[o + 7]));
}

/// A name attribute holds the number of the parent record in its first six bytes, and from byte
/// 66 on the name, of as many units as byte 64 says.
#[verifier::rlimit(40)]
pub proof fn names_are_read(c: Seq<u8>, u: Seq<u16>)
    requires
        c.len() >= 66 + 2 * u.len(),
        c.len() >= 66,
        c[64] == u.len(),
        forall|i: int| #![trigger u[i]] 0 <= i < u.len() ==> u[i] == c[66 + 2 * i] + 256 * c[67 + 2 * i],
    ensures
        file_name(c) matches Some((rank, parent, name)) && parent == number_at(c, 0) + 0x1_0000_0000 * (c[4] + 256 * c[5])
            && name == utf16_text(u) && (c[65] != 2 ==> rank == c[65]) && (c[65] == 2 ==> rank == 3),
{
    record_numbers_have_six_bytes(c, 0);
    let part = c.subrange(66, 66 + 2 * c[64]);
    assert forall|i: int| 0 <= i < u.len() implies units(part)[i] == u[i] by {
        units_are_groups_of_two(part, i);
        assert(part[2 * i] == c[66 + 2 * i] && part[2 * i + 1] == c[67 + 2 * i]);
        assert(u[i] == u[i]);
    }
    assert(units(part) =~= u);
}

/// A record goes by a long name rather than a short one of the DOS namespace: where it has one
/// of the first two namespaces, its name is such a one.
pub proof fn long_names_are_preferred(attrs: Seq<NtfsAttrView>, i: int)
    requires
        0 <= i < attrs.len(),
        attrs[i].type_ == 0x30,
        attrs[i].resident matches Some(c) && c.len() >= 66 && 66 + 2 * c[64] <= c.len() && c[65] <= 1,
    ensures
        exists|j: int|
            0 <= j < attrs.len() && (#[trigger] attrs[j]).type_ == 0x30 && (attrs[j].resident matches Some(c) && c.len() >= 66
                && c[65] <= 1 && best_name(attrs) == file_name(c)),
{
    best_name_is_best(attrs);
    assert(name_in(attrs[i]) is Some);
    let j = choose|j: int| 0 <= j < attrs.len() && name_in(#[trigger] attrs[j]) == best_name(attrs);
    assert(attrs[j].type_ == 0x30);
}

/// A record without a sound name attribute has no name.
pub proof fn names_come_from_name_attributes(attrs: Seq<NtfsAttrView>)
    ensures
        best_name(attrs) is Some <==> exists|i: int|
            0 <= i < attrs.len() && (#[trigger] attrs[i]).type_ == 0x30 && (attrs[i].resident matches Some(c) && c.len() >= 66
                && 66 + 2 * c[64] <= c.len()),
{
    best_name_is_best(attrs);
    if best_name(attrs) is Some {
        let j = choose|j: int| 0 <= j < attrs.len() && name_in(#[trigger] attrs[j]) == best_name(attrs);
        assert(attrs[j].type_ == 0x30);
    }
    if exists|i: int|
        0 <= i < attrs.len() && (#[trigger] attrs[i]).type_ == 0x30 && (attrs[i].resident matches Some(c) && c.len() >= 66 && 66 + 2
            * c[64] <= c.len()) {
        let i = choose|i: int|
            0 <= i < attrs.len() && (#[trigger] attrs[i]).type_ == 0x30 && (attrs[i].resident matches Some(c) && c.len() >= 66
                && 66 + 2 * c[64] <= c.len());
        assert(name_in(attrs[i]) is Some);
    }
}

/// What an entry of an attribute list says stands in its bytes: the type in the first four, that
/// it is named in byte 6, its first cluster in bytes 8 to 15, the number of the record that it
/// leads to in bytes 16 to 21, and its own number in bytes 24 and 25.
#[verifier::rlimit(40)]
pub proof fn list_entry_fields_are_read(b: Seq<u8>, off: int)
    requires
        0 <= off,
        off + 26 <= b.len(),
    ensures
        list_entry(b, off).type_ == number_at(b, off),
        list_entry(b, off).named <==> b[off + 6] != 0,
        list_entry(b, off).vcn == long_number_at(b, off + 8),
        list_entry(b, off).record == number_at(b, off + 16) + 0x1_0000_0000 * (b[off + 20] + 256 * b[off + 21]),
        list_entry(b, off).id == b[off + 24] + 256 * b[off + 25],
{
    fields_are_little_endian(b, off);
    fields_are_little_endian(b, off + 8);
    fields_are_little_endian(b, off + 24);
    assert(le32(b, off) == number_at(b, off));
    assert(le64(b, off + 8) == long_number_at(b, off + 8));
    record_numbers_have_six_bytes(b, off + 16);
}

/// The entries of an attribute list stand one behind the other, each as long as its bytes 4 and 5
/// say, up to the end mark.
#[verifier::rlimit(40)]
pub proof fn list_entries_follow_each_other(b: Seq<u8>, off: int)
    requires
        0 <= off,
        off + 26 <= b.len(),
    ensures
        number_at(b, off) == 0xFFFF_FFFF ==> list_entries(b, off).len() == 0,
        ({
            let n = b[off + 4] + 256 * b[off + 5];
            number_at(b, off) != 0xFFFF_FFFF && n >= 26 && off + n <= b.len() ==> list_entries(b, off) == seq![
                list_entry(b, off),
            ] + list_entries(b, off + n)
        }),
{
    fields_are_little_endian(b, off);
    fields_are_little_endian(b, off + 4);
    assert(le32(b, off) == number_at(b, off));
}

} // verus!
