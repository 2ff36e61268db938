//! Carving: finding files by their contents alone.

use crate::bytes::{ceil_div_reaches, fields_are_little_endian, ceil_div, div_up, has_at, le16, stands_at, u16le};
use crate::model::{views, views_add, views_push};
use crate::progress::Progress;
use crate::source::{holds, read, Source};
use vstd::prelude::*;

verus! {

/// A file found by its contents.
#[derive(Debug, Clone, PartialEq, Eq)]
pub struct Carved {
    pub offset: u64,
    pub len: u64,
    pub ext: &'static str,
}

/// The view of `Carved`.
pub struct CarvedView {
    pub offset: u64,
    pub len: u64,
    pub ext: Seq<char>,
}

impl View for Carved {
    type V = CarvedView;

    open spec fn view(&self) -> CarvedView {
        CarvedView { offset: self.offset, len: self.len, ext: self.ext@ }
    }
}

/// The longest file that is looked for.
pub const MAX_CARVE: u64 = 0x400_0000;

/// How much of the source is searched at a time.
pub const CHUNK: u64 = 0x40_0000;

/// What a JPEG file starts with.
pub open spec fn jpg_start() -> Seq<u8> {
    seq![0xFF, 0xD8, 0xFF]
}

/// What a JPEG file ends with.
pub open spec fn jpg_end() -> Seq<u8> {
    seq![0xFF, 0xD9]
}

/// What a PNG file starts with.
pub open spec fn png_start() -> Seq<u8> {
    seq![0x89, 0x50, 0x4E, 0x47, 0x0D, 0x0A, 0x1A, 0x0A]
}

/// `IEND`
pub open spec fn png_end() -> Seq<u8> {
    seq![0x49, 0x45, 0x4E, 0x44]
}

/// `%PDF-`
pub open spec fn pdf_start() -> Seq<u8> {
    seq![0x25, 0x50, 0x44, 0x46, 0x2D]
}

/// `%%EOF`
pub open spec fn pdf_end() -> Seq<u8> {
    seq![0x25, 0x25, 0x45, 0x4F, 0x46]
}

/// What a ZIP file starts with.
pub open spec fn zip_start() -> Seq<u8> {
    seq![0x50, 0x4B, 0x03, 0x04]
}

/// What the end record of a ZIP file starts with.
pub open spec fn zip_end() -> Seq<u8> {
    seq![0x50, 0x4B, 0x05, 0x06]
}

/// `word/`
pub open spec fn docx_mark() -> Seq<u8> {
    seq![0x77, 0x6F, 0x72, 0x64, 0x2F]
}

/// `xl/`
pub open spec fn xlsx_mark() -> Seq<u8> {
    seq![0x78, 0x6C, 0x2F]
}

/// `ppt/`
pub open spec fn pptx_mark() -> Seq<u8> {
    seq![0x70, 0x70, 0x74, 0x2F]
}

/// The first place from `i` on where `needle` stands.
pub open spec fn first_at(hay: Seq<u8>, needle: Seq<u8>, i: int) -> Option<int>
    decreases hay.len() - i,
{
    if i < 0 || i + needle.len() > hay.len() || needle.len() == 0 {
        None
    } else if stands_at(hay, i, needle) {
        Some(i)
    } else {
        first_at(hay, needle, i + 1)
    }
}

/// The place is one where `needle` stands, and it stands nowhere before.
pub proof fn first_at_is_first(hay: Seq<u8>, needle: Seq<u8>, i: int)
    requires
        0 <= i,
        needle.len() > 0,
    ensures
        match first_at(hay, needle, i) {
            Some(p) => i <= p && stands_at(hay, p, needle) && forall|k: int| i <= k < p ==> !stands_at(hay, k, needle),
            None => forall|k: int| i <= k ==> !stands_at(hay, k, needle),
        },
    decreases hay.len() - i,
{
    if !(i + needle.len() > hay.len()) && !stands_at(hay, i, needle) {
        first_at_is_first(hay, needle, i + 1);
    }
}

/// The first place where `needle` stands.
pub fn find(hay: &[u8], needle: &[u8]) -> (r: Option<usize>)
    requires
        needle@.len() > 0,
    ensures
        match r {
            Some(p) => first_at(hay@, needle@, 0) == Some(p as int) && p + needle@.len() <= hay@.len(),
            None => first_at(hay@, needle@, 0) is None,
        },
{
    assert(hay@.len() == hay.len());
    assert(needle@.len() == needle.len());
    let mut i: usize = 0;
    while i < hay.len() && needle.len() <= hay.len() - i
        invariant
            i <= hay@.len() == hay.len(),
            0 < needle@.len() == needle.len(),
            first_at(hay@, needle@, i as int) == first_at(hay@, needle@, 0),
        decreases hay@.len() - i,
    {
        if has_at(hay, i, needle) {
            return Some(i);
        }
        i += 1;
    }
    None
}

/// The end of the line breaks that start at `i`.
pub open spec fn after_breaks(b: Seq<u8>, i: int) -> int
    decreases b.len() - i,
{
    if 0 <= i < b.len() && (b[i] == 0x0D || b[i] == 0x0A) {
        after_breaks(b, i + 1)
    } else {
        i
    }
}

proof fn breaks_go_forward(b: Seq<u8>, i: int)
    requires
        0 <= i <= b.len(),
    ensures
        i <= after_breaks(b, i) <= b.len(),
    decreases b.len() - i,
{
    if i < b.len() && (b[i] == 0x0D || b[i] == 0x0A) {
        breaks_go_forward(b, i + 1);
    }
}

/// The end of a ZIP file whose end record stands at `e`: behind its comment.
pub open spec fn zip_length(head: Seq<u8>, e: int) -> int {
    e + 22 + if e + 22 <= head.len() {
        le16(head, e + 20) as int
    } else {
        0
    }
}

/// `b` without what stands behind byte `n`.
pub open spec fn up_to(b: Seq<u8>, n: int) -> Seq<u8> {
    if n <= b.len() {
        b.take(n)
    } else {
        b
    }
}

/// The kind of ZIP file: an Office file by the folder in it.
pub open spec fn zip_kind(b: Seq<u8>) -> Seq<char> {
    if first_at(b, docx_mark(), 0) is Some {
        "docx"@
    } else if first_at(b, xlsx_mark(), 0) is Some {
        "xlsx"@
    } else if first_at(b, pptx_mark(), 0) is Some {
        "pptx"@
    } else {
        "zip"@
    }
}

/// Length and kind of the file that starts with `head`, by its end mark.
#[verifier::opaque]
pub open spec fn file_end(head: Seq<u8>) -> Option<(u64, Seq<char>)> {
    if stands_at(head, 0, jpg_start()) {
        match first_at(head, jpg_end(), 0) {
            Some(e) => Some(((e + 2) as u64, "jpg"@)),
            None => None,
        }
    } else if stands_at(head, 0, png_start()) {
        match first_at(head, png_end(), 0) {
            Some(e) => Some(((e + 8) as u64, "png"@)),
            None => None,
        }
    } else if stands_at(head, 0, pdf_start()) {
        match first_at(head, pdf_end(), 0) {
            Some(e) => Some((after_breaks(head, e + 5) as u64, "pdf"@)),
            None => None,
        }
    } else if stands_at(head, 0, zip_start()) {
        match first_at(head, zip_end(), 0) {
            Some(e) => {
                let end = zip_length(head, e);
                Some((end as u64, zip_kind(up_to(head, end))))
            },
            None => None,
        }
    } else {
        None
    }
}

/// A carved file is never empty, and not much longer than what was searched for its end.
pub proof fn carved_file_has_bytes(head: Seq<u8>)
    requires
        head.len() <= isize::MAX,
    ensures
        file_end(head) matches Some((l, _)) ==> 0 < l <= head.len() + 0x1_0020,
{
    reveal(file_end);
    first_at_is_first(head, jpg_end(), 0);
    first_at_is_first(head, png_end(), 0);
    first_at_is_first(head, pdf_end(), 0);
    first_at_is_first(head, zip_end(), 0);
    if let Some(e) = first_at(head, pdf_end(), 0) {
        breaks_go_forward(head, e + 5);
    }
}

fn find_zip_kind(b: &[u8]) -> (r: &'static str)
    ensures
        r@ == zip_kind(b@),
{
    let docx: [u8; 5] = [0x77, 0x6F, 0x72, 0x64, 0x2F];
    let xlsx: [u8; 3] = [0x78, 0x6C, 0x2F];
    let pptx: [u8; 4] = [0x70, 0x70, 0x74, 0x2F];
    assert(docx@ =~= docx_mark());
    assert(xlsx@ =~= xlsx_mark());
    assert(pptx@ =~= pptx_mark());
    if find(b, &docx).is_some() {
        "docx"
    } else if find(b, &xlsx).is_some() {
        "xlsx"
    } else if find(b, &pptx).is_some() {
        "pptx"
    } else {
        "zip"
    }
}

/// What an optional (length, kind) pair is to the reader of a specification.
pub open spec fn end_view(e: Option<(u64, &'static str)>) -> Option<(u64, Seq<char>)> {
    match e {
        Some((l, k)) => Some((l, k@)),
        None => None,
    }
}

fn pdf_length(head: &[u8], e: usize) -> (r: usize)
    requires
        e + 5 <= head@.len(),
    ensures
        r == after_breaks(head@, e + 5),
{
    assert(head@.len() == head.len());
    let mut end = e + 5;
    while end < head.len() && (head[end] == 0x0D || head[end] == 0x0A)
        invariant
            end <= head@.len() == head.len(),
            after_breaks(head@, end as int) == after_breaks(head@, e + 5),
        decreases head@.len() - end,
    {
        end += 1;
    }
    end
}

/// End of a file starting at `head` (bytes from its start, up to `MAX_CARVE`).
pub fn carve_end(head: &[u8]) -> (r: Option<(u64, &'static str)>)
    requires
        head@.len() <= isize::MAX,
    ensures
        end_view(r) == file_end(head@),
{
    reveal(file_end);
    let jpg: [u8; 3] = [0xFF, 0xD8, 0xFF];
    let png: [u8; 8] = [0x89, 0x50, 0x4E, 0x47, 0x0D, 0x0A, 0x1A, 0x0A];
    let pdf: [u8; 5] = [0x25, 0x50, 0x44, 0x46, 0x2D];
    let zip: [u8; 4] = [0x50, 0x4B, 0x03, 0x04];
    assert(jpg@ =~= jpg_start());
    assert(png@ =~= png_start());
    assert(pdf@ =~= pdf_start());
    assert(zip@ =~= zip_start());
    if has_at(head, 0, &jpg) {
        let mark: [u8; 2] = [0xFF, 0xD9];
        assert(mark@ =~= jpg_end());
        return match find(head, &mark) {
            Some(e) => Some((e as u64 + 2, "jpg")),
            None => None,
        };
    }
    if has_at(head, 0, &png) {
        let mark: [u8; 4] = [0x49, 0x45, 0x4E, 0x44];
        assert(mark@ =~= png_end());
        return match find(head, &mark) {
            Some(e) => Some((e as u64 + 8, "png")),
            None => None,
        };
    }
    if has_at(head, 0, &pdf) {
        let mark: [u8; 5] = [0x25, 0x25, 0x45, 0x4F, 0x46];
        assert(mark@ =~= pdf_end());
        return match find(head, &mark) {
            Some(e) => Some((pdf_length(head, e) as u64, "pdf")),
            None => None,
        };
    }
    if has_at(head, 0, &zip) {
        let mark: [u8; 4] = [0x50, 0x4B, 0x05, 0x06];
        assert(mark@ =~= zip_end());
        return match find(head, &mark) {
            Some(e) => {
                let comment = if e + 22 <= head.len() {
                    u16le(head, e + 20) as usize
                } else {
                    0
                };
                let end = e + 22 + comment;
                let known = if end <= head.len() {
                    end
                } else {
                    head.len()
                };
                let b = vstd::slice::slice_subrange(head, 0, known);
                assert(b@ =~= up_to(head@, end as int));
                Some((end as u64, find_zip_kind(b)))
            },
            None => None,
        };
    }
    None
}

/// Whether `s` starts like a file that can be carved.
pub open spec fn header(s: Seq<u8>) -> bool {
    ||| stands_at(s, 0, jpg_start())
    ||| stands_at(s, 0, png_start())
    ||| stands_at(s, 0, pdf_start())
    ||| stands_at(s, 0, zip_start())
}

/// Whether `s` starts like a file that can be carved.
pub fn is_header(s: &[u8]) -> (r: bool)
    ensures
        r == header(s@),
{
    let jpg: [u8; 3] = [0xFF, 0xD8, 0xFF];
    let png: [u8; 8] = [0x89, 0x50, 0x4E, 0x47, 0x0D, 0x0A, 0x1A, 0x0A];
    let pdf: [u8; 5] = [0x25, 0x50, 0x44, 0x46, 0x2D];
    let zip: [u8; 4] = [0x50, 0x4B, 0x03, 0x04];
    assert(jpg@ =~= jpg_start());
    assert(png@ =~= png_start());
    assert(pdf@ =~= pdf_start());
    assert(zip@ =~= zip_start());
    has_at(s, 0, &jpg) || has_at(s, 0, &png) || has_at(s, 0, &pdf) || has_at(s, 0, &zip)
}

/// How many bytes at `at` are searched for the end of a file.
pub open spec fn head_length(size: u64, at: u64) -> u64 {
    if size.wrapping_sub(at) < MAX_CARVE {
        size.wrapping_sub(at)
    } else {
        MAX_CARVE
    }
}

/// Length and kind of the file at `at`, if one can be read there.
pub open spec fn file_at<S: Source + ?Sized>(src: &S, at: u64) -> Option<(u64, Seq<char>)> {
    match src.at(at, head_length(src.size(), at) as nat) {
        Ok(head) => file_end(head),
        Err(_) => None,
    }
}

/// The bytes of the sectors that `l` bytes take.
pub open spec fn sectors(l: u64) -> int {
    ceil_div(l as nat, 512) as int * 512
}

/// A file that is found takes at least one sector, and no more than its bytes need.
pub proof fn file_at_bounds<S: Source + ?Sized>(src: &S, at: u64)
    ensures
        file_at(src, at) matches Some((l, _)) ==> 0 < l <= MAX_CARVE + 0x1_0020 && l <= sectors(l) < l + 512,
{
    src.fills(at, head_length(src.size(), at) as nat);
    if let Ok(head) = src.at(at, head_length(src.size(), at) as nat) {
        carved_file_has_bytes(head);
    }
}

/// The file that the sector at `k` of the chunk `buf` at `off` starts, if any.
pub open spec fn carved_at<S: Source + ?Sized>(src: &S, buf: Seq<u8>, off: u64, k: int) -> Option<CarvedView> {
    let at = (off + k) as u64;
    if header(buf.subrange(k, k + 8)) && file_at(src, at) is Some {
        let (len, ext) = file_at(src, at)->Some_0;
        Some(CarvedView { offset: at, len, ext })
    } else {
        None
    }
}

/// The files that start in the chunk `buf` at `off`, from its sector at `k` on, and where
/// the search goes on: behind the chunk, or behind a file that reaches out of it.
pub open spec fn carved_in<S: Source + ?Sized>(src: &S, buf: Seq<u8>, off: u64, k: int) -> (Seq<CarvedView>, u64)
    decreases buf.len() - k,
{
    if k < 0 || k + 512 > buf.len() {
        (seq![], off.saturating_add(CHUNK))
    } else {
        proof {
            file_at_bounds(src, (off + k) as u64);
        }
        match carved_at(src, buf, off, k) {
            None => carved_in(src, buf, off, k + 512),
            Some(c) => if k + sectors(c.len) <= buf.len() {
                let (rest, next) = carved_in(src, buf, off, k + sectors(c.len));
                (seq![c] + rest, next)
            } else {
                (seq![c], c.offset.saturating_add(sectors(c.len) as u64))
            },
        }
    }
}

/// One step of the search: the files found, where it goes on, and how far it has come (done
/// and total bytes), where the chunk could be read.
pub struct Step {
    pub found: Vec<Carved>,
    pub next: u64,
    pub report: Option<(u64, u64)>,
}

/// The view of `Step`.
pub struct StepView {
    pub found: Seq<CarvedView>,
    pub next: u64,
    pub report: Option<(u64, u64)>,
}

impl View for Step {
    type V = StepView;

    open spec fn view(&self) -> StepView {
        StepView { found: views(self.found@), next: self.next, report: self.report }
    }
}

/// How much of the range is searched at `off`.
pub open spec fn chunk_length(end: u64, off: u64) -> nat {
    if end - off < CHUNK {
        (end - off) as nat
    } else {
        CHUNK as nat
    }
}

/// The step of a search from `start` to `end` that stands at `off`.
pub open spec fn step_at<S: Source + ?Sized>(src: &S, start: u64, end: u64, off: u64) -> StepView {
    match src.at(off, chunk_length(end, off)) {
        Err(_) => StepView { found: seq![], next: off.saturating_add(CHUNK), report: None },
        Ok(buf) => {
            let (found, next) = carved_in(src, buf, off, 0);
            let done = if next < end {
                next
            } else {
                end
            };
            StepView { found, next, report: Some((done.saturating_sub(start), end.saturating_sub(start))) }
        },
    }
}

proof fn chunk_moves_on<S: Source + ?Sized>(src: &S, buf: Seq<u8>, off: u64, k: int)
    requires
        off < u64::MAX,
        0 <= k,
        off + buf.len() <= u64::MAX,
    ensures
        carved_in(src, buf, off, k).1 > off,
    decreases buf.len() - k,
{
    if k + 512 <= buf.len() {
        file_at_bounds(src, (off + k) as u64);
        match carved_at(src, buf, off, k) {
            None => {
                chunk_moves_on(src, buf, off, k + 512);
            },
            Some(c) => {
                if k + sectors(c.len) <= buf.len() {
                    chunk_moves_on(src, buf, off, k + sectors(c.len));
                }
            },
        }
    }
}

/// Every step of a search goes forward.
pub proof fn step_moves_on<S: Source + ?Sized>(src: &S, start: u64, end: u64, off: u64)
    requires
        off < end,
    ensures
        step_at(src, start, end, off).next > off,
{
    src.fills(off, chunk_length(end, off));
    if let Ok(buf) = src.at(off, chunk_length(end, off)) {
        chunk_moves_on(src, buf, off, 0);
    }
}

/// The files found from `off` on in a search from `start` to `end`.
pub open spec fn carved_from<S: Source + ?Sized>(src: &S, start: u64, end: u64, off: u64) -> Seq<CarvedView>
    decreases
            if off < end {
                end - off
            } else {
                0
            },
{
    if off >= end {
        seq![]
    } else {
        proof {
            step_moves_on(src, start, end, off);
        }
        let step = step_at(src, start, end, off);
        step.found + carved_from(src, start, end, step.next)
    }
}

/// Where a search from `start` begins: at the first sector that does not start before it.
pub open spec fn first_sector(start: u64) -> u64 {
    if start % 512 == 0 {
        start
    } else {
        ((start - start % 512) as u64).saturating_add(512)
    }
}

/// Whether a sector starts between `start` and `end`.
pub open spec fn holds_a_sector(start: u64, end: u64) -> bool {
    first_sector(start) < end
}

/// What is told of a search from `start` to `end` that stands at `off`, once for each chunk
/// that can be read.
pub open spec fn reports_from<S: Source + ?Sized>(src: &S, start: u64, end: u64, off: u64) -> Seq<(u64, u64)>
    decreases
            if off < end {
                end - off
            } else {
                0
            },
{
    if off >= end {
        seq![]
    } else {
        proof {
            step_moves_on(src, start, end, off);
        }
        let step = step_at(src, start, end, off);
        let here = match step.report {
            Some(r) => seq![r],
            None => seq![],
        };
        here + reports_from(src, start, end, step.next)
    }
}

/// What is told of a search from `start` to `end`. One that has no sector to look at is done at
/// once.
pub open spec fn reports<S: Source + ?Sized>(src: &S, start: u64, end: u64) -> Seq<(u64, u64)> {
    if start < end && !holds_a_sector(start, end) {
        seq![((end - start) as u64, (end - start) as u64)]
    } else {
        reports_from(src, start, end, first_sector(start))
    }
}

/// How far a search that stands at `off` has come.
pub open spec fn done_at(start: u64, end: u64, off: u64) -> u64 {
    (if off < end {
        off
    } else {
        end
    }).saturating_sub(start)
}

proof fn reports_from_grow<S: Source + ?Sized>(src: &S, start: u64, end: u64, off: u64)
    requires
        start <= end,
    ensures
        forall|i: int|
            0 <= i < reports_from(src, start, end, off).len() ==> {
                let r = #[trigger] reports_from(src, start, end, off)[i];
                done_at(start, end, off) <= r.0 <= r.1 && r.1 == end - start
            },
        forall|i: int, j: int|
            0 <= i <= j < reports_from(src, start, end, off).len() ==> reports_from(src, start, end, off)[i].0
                <= reports_from(src, start, end, off)[j].0,
    decreases
            if off < end {
                end - off
            } else {
                0
            },
{
    if off < end {
        step_moves_on(src, start, end, off);
        let step = step_at(src, start, end, off);
        reports_from_grow(src, start, end, step.next);
        let rest = reports_from(src, start, end, step.next);
        let all = reports_from(src, start, end, off);
        if let Some(r) = step.report {
            assert(r == (done_at(start, end, step.next), (end - start) as u64));
            assert(all =~= seq![r] + rest);
            assert forall|i: int| 0 <= i < all.len() implies {
                let x = #[trigger] all[i];
                done_at(start, end, off) <= x.0 <= x.1 && x.1 == end - start
            } by {
                if i > 0 {
                    assert(all[i] == rest[i - 1]);
                }
            }
            assert forall|i: int, j: int| 0 <= i <= j < all.len() implies all[i].0 <= all[j].0 by {
                if i > 0 {
                    assert(all[i] == rest[i - 1] && all[j] == rest[j - 1]);
                } else if j > 0 {
                    assert(all[j] == rest[j - 1]);
                }
            }
        } else {
            assert(all =~= rest);
            assert forall|i: int| 0 <= i < all.len() implies {
                let x = #[trigger] all[i];
                done_at(start, end, off) <= x.0 <= x.1 && x.1 == end - start
            } by {
                assert(all[i] == rest[i]);
            }
            assert forall|i: int, j: int| 0 <= i <= j < all.len() implies all[i].0 <= all[j].0 by {
                assert(all[i] == rest[i] && all[j] == rest[j]);
            }
        }
    }
}

/// What is told of a search grows from one time to the next, and speaks of the whole range.
pub proof fn reports_grow<S: Source + ?Sized>(src: &S, start: u64, end: u64)
    requires
        start <= end,
    ensures
        forall|i: int|
            0 <= i < reports(src, start, end).len() ==> {
                let r = #[trigger] reports(src, start, end)[i];
                r.0 <= r.1 && r.1 == end - start
            },
        forall|i: int, j: int|
            0 <= i <= j < reports(src, start, end).len() ==> reports(src, start, end)[i].0 <= reports(src, start, end)[j].0,
{
    reports_from_grow(src, start, end, first_sector(start));
}

/// Whether all bytes up to `end` can be read.
pub open spec fn readable<S: Source + ?Sized>(src: &S, end: u64) -> bool {
    forall|o: u64, n: nat| o + n <= end ==> (#[trigger] src.at(o, n)) is Ok
}

proof fn reports_from_end<S: Source + ?Sized>(src: &S, start: u64, end: u64, off: u64)
    requires
        start <= end,
        off < end,
        readable(src, end),
    ensures
        reports_from(src, start, end, off).len() > 0,
        reports_from(src, start, end, off).last() == ((end - start) as u64, (end - start) as u64),
    decreases end - off,
{
    step_moves_on(src, start, end, off);
    let step = step_at(src, start, end, off);
    assert(src.at(off, chunk_length(end, off)) is Ok);
    let r = step.report->Some_0;
    let rest = reports_from(src, start, end, step.next);
    assert(reports_from(src, start, end, off) =~= seq![r] + rest);
    if step.next < end {
        reports_from_end(src, start, end, step.next);
    } else {
        assert(rest =~= seq![]);
    }
}

/// Where everything can be read, the last that is told of a search is that it is done.
pub proof fn search_is_told_done<S: Source + ?Sized>(src: &S, start: u64, end: u64)
    requires
        start < end,
        readable(src, end),
    ensures
        reports(src, start, end).len() > 0,
        reports(src, start, end).last() == ((end - start) as u64, (end - start) as u64),
{
    if holds_a_sector(start, end) {
        reports_from_end(src, start, end, first_sector(start));
    }
}

/// The files that start in the sectors from `start` to `end`.
pub open spec fn carved<S: Source + ?Sized>(src: &S, start: u64, end: u64) -> Seq<CarvedView> {
    carved_from(src, start, end, first_sector(start))
}

/// Whether `f` starts at a sector from `lo` up to `hi`, and is what can be read there.
pub open spec fn sound_file<S: Source + ?Sized>(src: &S, f: CarvedView, lo: int, hi: int) -> bool {
    &&& lo <= f.offset < hi
    &&& f.offset % 512 == 0
    &&& f.len > 0
    &&& file_at(src, f.offset) == Some((f.len, f.ext))
}

/// Whether the files start at sectors from `lo` up to `hi`, each is what can be read there,
/// and none starts before the one in front of it ends.
pub open spec fn files_apart<S: Source + ?Sized>(src: &S, files: Seq<CarvedView>, lo: int, hi: int) -> bool {
    &&& forall|i: int| 0 <= i < files.len() ==> sound_file(src, #[trigger] files[i], lo, hi)
    &&& forall|i: int, j: int| 0 <= i < j < files.len() ==> files[i].offset + files[i].len <= files[j].offset
}

/// Whether all files end at `next` at the latest; nothing stands behind the last address.
pub open spec fn end_before(files: Seq<CarvedView>, next: u64) -> bool {
    forall|i: int| 0 <= i < files.len() ==> (#[trigger] files[i]).offset + files[i].len <= next || next == u64::MAX
}

proof fn prepend_apart<S: Source + ?Sized>(src: &S, c: CarvedView, rest: Seq<CarvedView>, lo: int, mid: int, hi: int)
    requires
        sound_file(src, c, lo, hi),
        lo <= mid,
        c.offset + c.len <= mid,
        files_apart(src, rest, mid, hi),
    ensures
        files_apart(src, seq![c] + rest, lo, hi),
{
    let files = seq![c] + rest;
    assert forall|i: int| 0 <= i < files.len() implies sound_file(src, #[trigger] files[i], lo, hi) by {
        if i > 0 {
            assert(files[i] == rest[i - 1]);
        }
    }
    assert forall|i: int, j: int| 0 <= i < j < files.len() implies files[i].offset + files[i].len <= files[j].offset by {
        assert(files[j] == rest[j - 1]);
        if i > 0 {
            assert(files[i] == rest[i - 1]);
        }
    }
}

proof fn join_apart<S: Source + ?Sized>(src: &S, a: Seq<CarvedView>, b: Seq<CarvedView>, lo: int, next: u64, hi: int)
    requires
        files_apart(src, a, lo, hi),
        end_before(a, next),
        lo <= next,
        hi <= u64::MAX,
        files_apart(src, b, next as int, hi),
    ensures
        files_apart(src, a + b, lo, hi),
{
    let files = a + b;
    let n = a.len();
    assert forall|i: int| 0 <= i < files.len() implies sound_file(src, #[trigger] files[i], lo, hi) by {
        if i < n {
            assert(files[i] == a[i]);
        } else {
            assert(files[i] == b[i - n]);
        }
    }
    assert forall|i: int, j: int| 0 <= i < j < files.len() implies files[i].offset + files[i].len <= files[j].offset by {
        if j < n {
            assert(files[i] == a[i] && files[j] == a[j]);
        } else if i >= n {
            assert(files[i] == b[i - n] && files[j] == b[j - n]);
        } else {
            assert(files[i] == a[i] && files[j] == b[j - n]);
            assert(sound_file(src, b[j - n], next as int, hi));
        }
    }
}

proof fn chunk_files_apart<S: Source + ?Sized>(src: &S, buf: Seq<u8>, off: u64, k: int)
    requires
        off % 512 == 0,
        0 <= k,
        k % 512 == 0,
        buf.len() <= CHUNK,
        off + buf.len() <= u64::MAX,
    ensures
        files_apart(src, carved_in(src, buf, off, k).0, off + k, off + buf.len() as int),
        end_before(carved_in(src, buf, off, k).0, carved_in(src, buf, off, k).1),
    decreases buf.len() - k,
{
    let hi = off + buf.len() as int;
    if k + 512 <= buf.len() {
        file_at_bounds(src, (off + k) as u64);
        match carved_at(src, buf, off, k) {
            None => {
                chunk_files_apart(src, buf, off, k + 512);
                let files = carved_in(src, buf, off, k + 512).0;
                assert forall|i: int| 0 <= i < files.len() implies sound_file(src, #[trigger] files[i], off + k, hi) by {
                    assert(sound_file(src, files[i], off + k + 512, hi));
                }
            },
            Some(c) => {
                let n = sectors(c.len);
                assert(n % 512 == 0);
                assert(sound_file(src, c, off + k, hi));
                if k + n <= buf.len() {
                    chunk_files_apart(src, buf, off, k + n);
                    chunk_ends_behind(src, buf, off, k + n);
                    let (rest, next) = carved_in(src, buf, off, k + n);
                    prepend_apart(src, c, rest, off + k, off + k + n, hi);
                    let files = seq![c] + rest;
                    assert forall|i: int| 0 <= i < files.len() implies (#[trigger] files[i]).offset + files[i].len <= next
                        || next == u64::MAX by {
                        if i > 0 {
                            assert(files[i] == rest[i - 1]);
                        }
                    }
                } else {
                    assert(files_apart(src, seq![c], off + k, hi));
                }
            },
        }
    }
}

proof fn chunk_ends_at_a_sector<S: Source + ?Sized>(src: &S, buf: Seq<u8>, off: u64, k: int)
    requires
        off % 512 == 0,
        0 <= k,
        k % 512 == 0,
        off + buf.len() <= u64::MAX,
    ensures
        carved_in(src, buf, off, k).1 % 512 == 0 || carved_in(src, buf, off, k).1 == u64::MAX,
    decreases buf.len() - k,
{
    if k + 512 <= buf.len() {
        file_at_bounds(src, (off + k) as u64);
        match carved_at(src, buf, off, k) {
            None => {
                chunk_ends_at_a_sector(src, buf, off, k + 512);
            },
            Some(c) => {
                assert(sectors(c.len) % 512 == 0);
                if k + sectors(c.len) <= buf.len() {
                    chunk_ends_at_a_sector(src, buf, off, k + sectors(c.len));
                }
            },
        }
    }
}

proof fn chunk_ends_behind<S: Source + ?Sized>(src: &S, buf: Seq<u8>, off: u64, k: int)
    requires
        0 <= k <= buf.len() <= CHUNK,
        off + buf.len() <= u64::MAX,
    ensures
        carved_in(src, buf, off, k).1 >= off + k || carved_in(src, buf, off, k).1 == u64::MAX,
    decreases buf.len() - k,
{
    if k + 512 <= buf.len() {
        file_at_bounds(src, (off + k) as u64);
        match carved_at(src, buf, off, k) {
            None => {
                chunk_ends_behind(src, buf, off, k + 512);
            },
            Some(c) => {
                if k + sectors(c.len) <= buf.len() {
                    chunk_ends_behind(src, buf, off, k + sectors(c.len));
                }
            },
        }
    }
}

proof fn search_finds_files_apart<S: Source + ?Sized>(src: &S, start: u64, end: u64, off: u64)
    requires
        off % 512 == 0 || off == u64::MAX,
    ensures
        files_apart(src, carved_from(src, start, end, off), off as int, end as int),
    decreases
            if off < end {
                end - off
            } else {
                0
            },
{
    if off < end {
        step_moves_on(src, start, end, off);
        src.fills(off, chunk_length(end, off));
        let step = step_at(src, start, end, off);
        if let Ok(buf) = src.at(off, chunk_length(end, off)) {
            chunk_files_apart(src, buf, off, 0);
            chunk_ends_at_a_sector(src, buf, off, 0);
        }
        search_finds_files_apart(src, start, end, step.next);
        let rest = carved_from(src, start, end, step.next);
        assert(files_apart(src, step.found, off as int, end as int)) by {
            assert forall|i: int| 0 <= i < step.found.len() implies sound_file(
                src,
                #[trigger] step.found[i],
                off as int,
                end as int,
            ) by {
                assert(sound_file(src, step.found[i], off as int, off + chunk_length(end, off)));
            }
        }
        join_apart(src, step.found, rest, off as int, step.next, end as int);
    }
}

/// Whether byte `o` lies in the sectors of one of the files, behind its start.
pub open spec fn inside_one(files: Seq<CarvedView>, o: int) -> bool {
    exists|i: int| 0 <= i < files.len() && (#[trigger] files[i]).offset < o < files[i].offset + sectors(files[i].len)
}

/// Nothing in a chunk is passed over: a file that starts in one of its whole sectors is found,
/// unless that sector lies inside a file that is.
pub proof fn chunk_is_searched_throughout<S: Source + ?Sized>(src: &S, buf: Seq<u8>, off: u64, k: int, at: int)
    requires
        off + buf.len() <= u64::MAX,
        0 <= k <= at,
        k % 512 == 0,
        at % 512 == 0,
        at + 512 <= buf.len(),
    ensures
        carved_at(src, buf, off, at) matches Some(c) ==> carved_in(src, buf, off, k).0.contains(c) || inside_one(
            carved_in(src, buf, off, k).0,
            off + at,
        ),
    decreases buf.len() - k,
{
    file_at_bounds(src, (off + k) as u64);
    let files = carved_in(src, buf, off, k).0;
    match carved_at(src, buf, off, k) {
        None => {
            if at > k {
                chunk_is_searched_throughout(src, buf, off, k + 512, at);
            }
        },
        Some(f) => {
            assert(files[0] == f);
            let n = sectors(f.len);
            assert(n % 512 == 0);
            if at == k {
                assert(files.contains(f));
            } else if at < k + n {
                assert(inside_one(files, off + at));
            } else {
                chunk_is_searched_throughout(src, buf, off, k + n, at);
                let rest = carved_in(src, buf, off, k + n).0;
                assert(files =~= seq![f] + rest);
                if let Some(c) = carved_at(src, buf, off, at) {
                    if rest.contains(c) {
                        let i = choose|i: int| 0 <= i < rest.len() && rest[i] == c;
                        assert(files[i + 1] == c);
                    } else {
                        let i = choose|i: int|
                            0 <= i < rest.len() && (#[trigger] rest[i]).offset < off + at < rest[i].offset + sectors(
                                rest[i].len,
                            );
                        assert(files[i + 1] == rest[i]);
                    }
                }
            }
        },
    }
}

/// What is carved from a range starts at sectors of that range, each file is what can be
/// read there by its own marks, and no file starts inside another.
pub proof fn carved_files_are_apart<S: Source + ?Sized>(src: &S, start: u64, end: u64)
    ensures
        files_apart(src, carved(src, start, end), start as int, end as int),
{
    let lo = first_sector(start);
    search_finds_files_apart(src, start, end, lo);
    let files = carved(src, start, end);
    assert forall|i: int| 0 <= i < files.len() implies sound_file(src, #[trigger] files[i], start as int, end as int) by {
        assert(sound_file(src, files[i], lo as int, end as int));
    }
}

/// Whether `c` is one of the files, or starts inside one of them.
pub open spec fn accounted_for(files: Seq<CarvedView>, c: CarvedView) -> bool {
    files.contains(c) || inside_one(files, c.offset as int)
}

proof fn more_account_for_more(a: Seq<CarvedView>, b: Seq<CarvedView>, c: CarvedView)
    requires
        accounted_for(a, c) || accounted_for(b, c),
    ensures
        accounted_for(a + b, c),
{
    let all = a + b;
    let o = c.offset as int;
    if a.contains(c) {
        let i = choose|i: int| 0 <= i < a.len() && a[i] == c;
        assert(all[i] == c);
    } else if inside_one(a, o) {
        let i = choose|i: int| 0 <= i < a.len() && (#[trigger] a[i]).offset < o < a[i].offset + sectors(a[i].len);
        assert(all[i] == a[i]);
    } else if b.contains(c) {
        let i = choose|i: int| 0 <= i < b.len() && b[i] == c;
        assert(all[a.len() + i] == c);
    } else {
        let i = choose|i: int| 0 <= i < b.len() && (#[trigger] b[i]).offset < o < b[i].offset + sectors(b[i].len);
        assert(all[a.len() + i] == b[i]);
    }
}

proof fn chunk_accounts_for<S: Source + ?Sized>(src: &S, disk: Seq<u8>, buf: Seq<u8>, off: u64, at: u64)
    requires
        off % 512 == 0,
        at % 512 == 0,
        off <= at,
        off + buf.len() <= disk.len() <= u64::MAX,
        buf == disk.subrange(off as int, off + buf.len() as int),
        buf.len() <= CHUNK,
        header(disk.subrange(at as int, at + 8)),
        file_at(src, at) is Some,
        at + 512 <= off + buf.len() || (off + CHUNK <= at && carved_in(src, buf, off, 0).1 > at),
    ensures
        accounted_for(
            carved_in(src, buf, off, 0).0,
            CarvedView { offset: at, len: file_at(src, at)->Some_0.0, ext: file_at(src, at)->Some_0.1 },
        ),
{
    let (files, next) = carved_in(src, buf, off, 0);
    let c = CarvedView { offset: at, len: file_at(src, at)->Some_0.0, ext: file_at(src, at)->Some_0.1 };
    let k = at - off;
    if at + 512 <= off + buf.len() {
        assert(buf.subrange(k, k + 8) =~= disk.subrange(at as int, at + 8));
        assert(carved_at(src, buf, off, k) == Some(c));
        chunk_is_searched_throughout(src, buf, off, 0, k);
    } else {
        chunk_goes_on_behind_a_file(src, buf, off, 0);
        chunk_files_apart(src, buf, off, 0);
        let i = files.len() - 1;
        assert(files[i] == files.last());
        assert(sound_file(src, files[i], off as int, off + buf.len() as int));
        assert(inside_one(files, at as int));
    }
}

proof fn search_passes_nothing_over<S: Source + ?Sized>(src: &S, disk: Seq<u8>, start: u64, end: u64, off: u64, at: u64)
    requires
        holds(src, disk),
        end <= disk.len() <= u64::MAX,
        off % 512 == 0,
        at % 512 == 0,
        off <= at,
        at + 512 <= end,
        header(disk.subrange(at as int, at + 8)),
        file_at(src, at) is Some,
    ensures
        accounted_for(
            carved_from(src, start, end, off),
            CarvedView { offset: at, len: file_at(src, at)->Some_0.0, ext: file_at(src, at)->Some_0.1 },
        ),
    decreases end - off,
{
    let step = step_at(src, start, end, off);
    let n = chunk_length(end, off);
    let buf = disk.subrange(off as int, off + n);
    let c = CarvedView { offset: at, len: file_at(src, at)->Some_0.0, ext: file_at(src, at)->Some_0.1 };
    assert(src.at(off, n) == Ok::<Seq<u8>, Seq<char>>(buf));
    step_moves_on(src, start, end, off);
    chunk_ends_at_a_sector(src, buf, off, 0);
    let rest = carved_from(src, start, end, step.next);
    assert(at + 512 <= off + n || off + CHUNK <= at);
    if at + 512 <= off + n || step.next > at {
        chunk_accounts_for(src, disk, buf, off, at);
    } else {
        search_passes_nothing_over(src, disk, start, end, step.next, at);
    }
    more_account_for_more(step.found, rest, c);
}

proof fn chunk_goes_on_behind_a_file<S: Source + ?Sized>(src: &S, buf: Seq<u8>, off: u64, k: int)
    requires
        off + buf.len() <= u64::MAX,
        0 <= k,
    ensures
        ({
            let (files, next) = carved_in(src, buf, off, k);
            next == off.saturating_add(CHUNK) || (files.len() > 0 && next == files.last().offset.saturating_add(
                sectors(files.last().len) as u64,
            ) && sectors(files.last().len) <= u64::MAX)
        }),
    decreases buf.len() - k,
{
    if k + 512 <= buf.len() {
        file_at_bounds(src, (off + k) as u64);
        match carved_at(src, buf, off, k) {
            None => {
                chunk_goes_on_behind_a_file(src, buf, off, k + 512);
            },
            Some(c) => {
                if k + sectors(c.len) <= buf.len() {
                    chunk_goes_on_behind_a_file(src, buf, off, k + sectors(c.len));
                    let (rest, _) = carved_in(src, buf, off, k + sectors(c.len));
                    if rest.len() > 0 {
                        assert((seq![c] + rest).last() == rest.last());
                    }
                }
            },
        }
    }
}

/// Nothing in the range of a search is passed over: a file that starts in one of its whole
/// sectors is found, unless that sector lies inside a file that is.
pub proof fn range_is_searched_throughout<S: Source + ?Sized>(src: &S, disk: Seq<u8>, start: u64, end: u64, at: u64)
    requires
        holds(src, disk),
        end <= disk.len() <= u64::MAX,
        at % 512 == 0,
        start <= at,
        at + 512 <= end,
        header(disk.subrange(at as int, at + 8)),
        file_at(src, at) is Some,
    ensures
        accounted_for(
            carved(src, start, end),
            CarvedView { offset: at, len: file_at(src, at)->Some_0.0, ext: file_at(src, at)->Some_0.1 },
        ),
{
    search_passes_nothing_over(src, disk, start, end, first_sector(start), at);
}

fn find_file<S: Source + ?Sized>(src: &S, at: u64) -> (r: Option<(u64, &'static str)>)
    ensures
        end_view(r) == file_at(src, at),
{
    let left = src.len().wrapping_sub(at);
    let n = if left < MAX_CARVE {
        left
    } else {
        MAX_CARVE
    };
    match read(src, at, n as usize) {
        Ok(head) => carve_end(&head),
        Err(_) => None,
    }
}

fn carve_chunk<S: Source + ?Sized>(src: &S, buf: &[u8], off: u64) -> (r: (Vec<Carved>, u64))
    requires
        off + buf@.len() <= u64::MAX,
    ensures
        (views(r.0@), r.1) == carved_in(src, buf@, off, 0),
{
    assert(buf@.len() == buf.len());
    let mut out: Vec<Carved> = Vec::new();
    let mut k: usize = 0;
    let ghost all = carved_in(src, buf@, off, 0);
    assert(views(out@) + all.0 =~= all.0);
    while buf.len() - k >= 512
        invariant
            k <= buf@.len() == buf.len(),
            off + buf@.len() <= u64::MAX,
            all == carved_in(src, buf@, off, 0),
            views(out@) + carved_in(src, buf@, off, k as int).0 == all.0,
            carved_in(src, buf@, off, k as int).1 == all.1,
        decreases buf@.len() - k,
    {
        let ghost before = views(out@);
        let ghost rest = carved_in(src, buf@, off, k as int);
        let at = off + k as u64;
        if is_header(vstd::slice::slice_subrange(buf, k, k + 8)) {
            if let Some((l, ext)) = find_file(src, at) {
                let c = Carved { offset: at, len: l, ext };
                proof {
                    file_at_bounds(src, at);
                    views_push(out@, c);
                }
                out.push(c);
                assert(carved_at(src, buf@, off, k as int) == Some(c@));
                // Skip past the file (whole sectors).
                let skip = div_up(l, 512) * 512;
                assert(skip == sectors(l));
                if skip <= (buf.len() - k) as u64 {
                    assert(views(out@) + carved_in(src, buf@, off, k + skip).0 =~= before + rest.0);
                    k += skip as usize;
                    continue ;
                }
                assert(views(out@) =~= before + rest.0);
                return (out, at.saturating_add(skip));
            }
        }
        k += 512;
    }
    assert(views(out@) + carved_in(src, buf@, off, k as int).0 =~= views(out@));
    (out, off.saturating_add(CHUNK))
}

/// One step of a search from `start` to `end` that stands at `off`.
pub fn carve_step<S: Source + ?Sized>(src: &S, start: u64, end: u64, off: u64) -> (r: Step)
    requires
        off < end,
    ensures
        r@ == step_at(src, start, end, off),
{
    let n = if end - off < CHUNK {
        end - off
    } else {
        CHUNK
    };
    match read(src, off, n as usize) {
        Err(_) => {
            let none: Vec<Carved> = Vec::new();
            assert(views(none@) =~= seq![]);
            Step { found: none, next: off.saturating_add(CHUNK), report: None }
        },
        Ok(buf) => {
            let (found, next) = carve_chunk(src, &buf, off);
            let done = if next < end {
                next
            } else {
                end
            };
            Step { found, next, report: Some((done.saturating_sub(start), end.saturating_sub(start))) }
        },
    }
}

/// Search 512-byte-aligned file headers from `start` to `end` of the source. After each chunk
/// that could be read, `progress` is told how far the search has come.
pub fn carve<S: Source + ?Sized, P: Progress>(src: &S, start: u64, end: u64, progress: &mut P) -> (r: Vec<Carved>)
    requires
        old(progress).ready(),
    ensures
        views(r@) == carved(src, start, end),
        final(progress).told() == old(progress).told() + reports(src, start, end),
        final(progress).ready(),
{
    let mut out: Vec<Carved> = Vec::new();
    let mut off = start;
    if start % 512 != 0 {
        off = (start - start % 512).saturating_add(512);
    }
    let ghost all = carved(src, start, end);
    let ghost told = old(progress).told() + reports(src, start, end);
    if start < end && off >= end {
        progress.tell(end - start, end - start);
        assert(progress.told() =~= told);
        assert(views(out@) =~= all);
        return out;
    }
    assert(views(out@) + all =~= all);
    while off < end
        invariant
            progress.ready(),
            all == carved(src, start, end),
            views(out@) + carved_from(src, start, end, off) == all,
            progress.told() + reports_from(src, start, end, off) == told,
        decreases
                if off < end {
                    end - off
                } else {
                    0
                },
    {
        let ghost before = views(out@);
        let ghost told0 = progress.told();
        let ghost rest = carved_from(src, start, end, off);
        let ghost rest_told = reports_from(src, start, end, off);
        let mut step = carve_step(src, start, end, off);
        proof {
            step_moves_on(src, start, end, off);
            views_add(out@, step.found@);
        }
        out.append(&mut step.found);
        assert(views(out@) + carved_from(src, start, end, step.next) =~= before + rest);
        off = step.next;
        if let Some((done, total)) = step.report {
            progress.tell(done, total);
        }
        assert(progress.told() + reports_from(src, start, end, off) =~= told0 + rest_told);
    }
    assert(views(out@) + carved_from(src, start, end, off) =~= views(out@));
    assert(progress.told() + reports_from(src, start, end, off) =~= progress.told());
    out
}

/// The files that are found in the ranges, one range after the other.
pub open spec fn carved_in_all<S: Source + ?Sized>(src: &S, ranges: Seq<(u64, u64)>) -> Seq<CarvedView>
    decreases ranges.len(),
{
    if ranges.len() == 0 {
        seq![]
    } else {
        carved_in_all(src, ranges.drop_last()) + carved(src, ranges.last().0, ranges.last().1)
    }
}

/// What is told of a search of the ranges, one after the other.
pub open spec fn reports_of_all<S: Source + ?Sized>(src: &S, ranges: Seq<(u64, u64)>) -> Seq<(u64, u64)>
    decreases ranges.len(),
{
    if ranges.len() == 0 {
        seq![]
    } else {
        reports_of_all(src, ranges.drop_last()) + reports(src, ranges.last().0, ranges.last().1)
    }
}

/// Search all the ranges, one after the other. `progress` is told of each as `carve` tells it.
pub fn carve_all<S: Source + ?Sized, P: Progress>(src: &S, ranges: &[(u64, u64)], progress: &mut P) -> (r: Vec<Carved>)
    requires
        old(progress).ready(),
    ensures
        views(r@) == carved_in_all(src, ranges@),
        final(progress).told() == old(progress).told() + reports_of_all(src, ranges@),
        final(progress).ready(),
{
    let mut out: Vec<Carved> = Vec::new();
    assert(views(out@) =~= seq![]);
    let ghost told = progress.told();
    assert(told + reports_of_all(src, ranges@.take(0)) =~= told);
    let mut i: usize = 0;
    while i < ranges.len()
        invariant
            i <= ranges@.len(),
            progress.ready(),
            views(out@) == carved_in_all(src, ranges@.take(i as int)),
            progress.told() == told + reports_of_all(src, ranges@.take(i as int)),
        decreases ranges@.len() - i,
    {
        assert(ranges@.take(i + 1).drop_last() =~= ranges@.take(i as int));
        let (start, end) = ranges[i];
        let mut found = carve(src, start, end, progress);
        proof {
            views_add(out@, found@);
        }
        out.append(&mut found);
        i += 1;
        assert(progress.told() =~= told + reports_of_all(src, ranges@.take(i as int)));
    }
    assert(ranges@.take(i as int) =~= ranges@);
    out
}

/// Whether `b` starts like a file that can be carved: a JPEG, PNG, PDF or ZIP file.
pub open spec fn starts_like_a_file(b: Seq<u8>) -> bool {
    ||| b[0] == 0xFF && b[1] == 0xD8 && b[2] == 0xFF
    ||| b[0] == 0x89 && b[1] == 'P' as u8 && b[2] == 'N' as u8 && b[3] == 'G' as u8 && b[4] == 13 && b[5] == 10 && b[6] == 26
        && b[7] == 10
    ||| b[0] == '%' as u8 && b[1] == 'P' as u8 && b[2] == 'D' as u8 && b[3] == 'F' as u8 && b[4] == '-' as u8
    ||| b[0] == 'P' as u8 && b[1] == 'K' as u8 && b[2] == 3 && b[3] == 4
}

proof fn two_stand(b: Seq<u8>, o: int, m: Seq<u8>)
    requires
        0 <= o,
        m.len() == 2,
    ensures
        stands_at(b, o, m) <==> o + 2 <= b.len() && b[o] == m[0] && b[o + 1] == m[1],
{
    if o + 2 <= b.len() {
        let p = b.subrange(o, o + 2);
        assert(p[0] == b[o] && p[1] == b[o + 1]);
        if b[o] == m[0] && b[o + 1] == m[1] {
            assert(p =~= m);
        }
    }
}

proof fn three_stand(b: Seq<u8>, o: int, m: Seq<u8>)
    requires
        0 <= o,
        m.len() == 3,
    ensures
        stands_at(b, o, m) <==> o + 3 <= b.len() && b[o] == m[0] && b[o + 1] == m[1] && b[o + 2] == m[2],
{
    if o + 3 <= b.len() {
        let p = b.subrange(o, o + 3);
        assert(p[0] == b[o] && p[1] == b[o + 1] && p[2] == b[o + 2]);
        if b[o] == m[0] && b[o + 1] == m[1] && b[o + 2] == m[2] {
            assert(p =~= m);
        }
    }
}

proof fn four_stand(b: Seq<u8>, o: int, m: Seq<u8>)
    requires
        0 <= o,
        m.len() == 4,
    ensures
        stands_at(b, o, m) <==> o + 4 <= b.len() && b[o] == m[0] && b[o + 1] == m[1] && b[o + 2] == m[2] && b[o + 3] == m[3],
{
    if o + 4 <= b.len() {
        let p = b.subrange(o, o + 4);
        assert(p[0] == b[o] && p[1] == b[o + 1] && p[2] == b[o + 2] && p[3] == b[o + 3]);
        if b[o] == m[0] && b[o + 1] == m[1] && b[o + 2] == m[2] && b[o + 3] == m[3] {
            assert(p =~= m);
        }
    }
}

proof fn five_stand(b: Seq<u8>, o: int, m: Seq<u8>)
    requires
        0 <= o,
        m.len() == 5,
    ensures
        stands_at(b, o, m) <==> o + 5 <= b.len() && b[o] == m[0] && b[o + 1] == m[1] && b[o + 2] == m[2] && b[o + 3] == m[3] && b[o
            + 4] == m[4],
{
    if o + 5 <= b.len() {
        let p = b.subrange(o, o + 5);
        assert(p[0] == b[o] && p[1] == b[o + 1] && p[2] == b[o + 2] && p[3] == b[o + 3] && p[4] == b[o + 4]);
        if b[o] == m[0] && b[o + 1] == m[1] && b[o + 2] == m[2] && b[o + 3] == m[3] && b[o + 4] == m[4] {
            assert(p =~= m);
        }
    }
}

proof fn eight_stand(b: Seq<u8>, m: Seq<u8>)
    requires
        m.len() == 8,
    ensures
        stands_at(b, 0, m) <==> 8 <= b.len() && b[0] == m[0] && b[1] == m[1] && b[2] == m[2] && b[3] == m[3] && b[4] == m[4]
            && b[5] == m[5] && b[6] == m[6] && b[7] == m[7],
{
    if 8 <= b.len() {
        let p = b.subrange(0, 8);
        assert(p[0] == b[0] && p[1] == b[1] && p[2] == b[2] && p[3] == b[3] && p[4] == b[4] && p[5] == b[5] && p[6] == b[6]
            && p[7] == b[7]);
        if b[0] == m[0] && b[1] == m[1] && b[2] == m[2] && b[3] == m[3] && b[4] == m[4] && b[5] == m[5] && b[6] == m[6] && b[7]
            == m[7] {
            assert(p =~= m);
        }
    }
}

/// Files of four kinds can be carved, told by how they start.
pub proof fn files_are_told_by_their_start(b: Seq<u8>)
    requires
        b.len() >= 8,
    ensures
        header(b) <==> starts_like_a_file(b),
{
    three_stand(b, 0, jpg_start());
    eight_stand(b, png_start());
    five_stand(b, 0, pdf_start());
    four_stand(b, 0, zip_start());
}

/// The end of a file is looked for in all of what stands behind its start, up to 64 MiB.
pub proof fn end_is_looked_for<S: Source + ?Sized>(src: &S, disk: Seq<u8>, at: u64)
    requires
        holds(src, disk),
        disk.len() == src.size(),
        at < disk.len(),
    ensures
        ({
            let n = if disk.len() - at < 0x400_0000 {
                disk.len() - at
            } else {
                0x400_0000
            };
            file_at(src, at) == file_end(disk.subrange(at as int, at + n))
        }),
{
    let n = head_length(src.size(), at) as nat;
    assert(src.at(at, n) == Ok::<Seq<u8>, Seq<char>>(disk.subrange(at as int, at + n)));
}

/// A JPEG file ends behind the first FF D9, if there is one.
pub proof fn jpeg_ends_at_its_mark(b: Seq<u8>, e: int)
    requires
        b.len() >= 3,
        b.len() <= isize::MAX,
        b[0] == 0xFF && b[1] == 0xD8 && b[2] == 0xFF,
    ensures
        0 <= e && e + 2 <= b.len() && b[e] == 0xFF && b[e + 1] == 0xD9 && (forall|k: int|
            0 <= k < e ==> !(#[trigger] b[k] == 0xFF && b[k + 1] == 0xD9)) ==> file_end(b) == Some(((e + 2) as u64, "jpg"@)),
        (forall|k: int| 0 <= k < b.len() - 1 ==> !(#[trigger] b[k] == 0xFF && b[k + 1] == 0xD9)) ==> file_end(b) is None,
{
    reveal(file_end);
    three_stand(b, 0, jpg_start());
    first_at_is_first(b, jpg_end(), 0);
    assert forall|k: int| 0 <= k implies (#[trigger] stands_at(b, k, jpg_end()) <==> k + 2 <= b.len() && b[k] == 0xFF && b[k + 1]
        == 0xD9) by {
        two_stand(b, k, jpg_end());
    }
    if 0 <= e && e + 2 <= b.len() && b[e] == 0xFF && b[e + 1] == 0xD9 {
        assert(stands_at(b, e, jpg_end()));
    }
}

/// Whether `IEND` stands in `b` at `k`.
pub open spec fn iend_at(b: Seq<u8>, k: int) -> bool {
    k + 4 <= b.len() && b[k] == 'I' as u8 && b[k + 1] == 'E' as u8 && b[k + 2] == 'N' as u8 && b[k + 3] == 'D' as u8
}

/// A PNG file ends four bytes, its checksum, behind the first `IEND`, if there is one.
pub proof fn png_ends_at_its_mark(b: Seq<u8>, e: int)
    requires
        b.len() >= 8,
        b.len() <= isize::MAX,
        b[0] == 0x89 && b[1] == 'P' as u8 && b[2] == 'N' as u8 && b[3] == 'G' as u8 && b[4] == 13 && b[5] == 10 && b[6] == 26
            && b[7] == 10,
    ensures
        0 <= e && iend_at(b, e) && (forall|k: int| 0 <= k < e ==> !iend_at(b, k)) ==> file_end(b) == Some(
            ((e + 8) as u64, "png"@),
        ),
        (forall|k: int| 0 <= k ==> !iend_at(b, k)) ==> file_end(b) is None,
{
    reveal(file_end);
    three_stand(b, 0, jpg_start());
    eight_stand(b, png_start());
    first_at_is_first(b, png_end(), 0);
    assert forall|k: int| 0 <= k implies (#[trigger] stands_at(b, k, png_end()) <==> iend_at(b, k)) by {
        four_stand(b, k, png_end());
    }
    if 0 <= e && iend_at(b, e) {
        assert(stands_at(b, e, png_end()));
    }
    if let Some(p) = first_at(b, png_end(), 0) {
        assert(iend_at(b, p));
    }
}

/// Whether `%%EOF` stands in `b` at `k`.
pub open spec fn eof_at(b: Seq<u8>, k: int) -> bool {
    k + 5 <= b.len() && b[k] == '%' as u8 && b[k + 1] == '%' as u8 && b[k + 2] == 'E' as u8 && b[k + 3] == 'O' as u8 && b[k + 4]
        == 'F' as u8
}

proof fn breaks_are_passed(b: Seq<u8>, i: int, n: int)
    requires
        0 <= i <= n <= b.len(),
        forall|k: int| i <= k < n ==> #[trigger] b[k] == 13 || b[k] == 10,
        n < b.len() ==> b[n] != 13 && b[n] != 10,
    ensures
        after_breaks(b, i) == n,
    decreases n - i,
{
    if i < n {
        assert(b[i] == 13 || b[i] == 10);
        breaks_are_passed(b, i + 1, n);
    }
}

/// A PDF file ends behind the first `%%EOF` and the line breaks that follow it, if there is one.
pub proof fn pdf_ends_at_its_mark(b: Seq<u8>, e: int, n: int)
    requires
        b.len() >= 5,
        b.len() <= isize::MAX,
        b[0] == '%' as u8 && b[1] == 'P' as u8 && b[2] == 'D' as u8 && b[3] == 'F' as u8 && b[4] == '-' as u8,
    ensures
        0 <= e && eof_at(b, e) && (forall|k: int| 0 <= k < e ==> !eof_at(b, k)) && e + 5 <= n <= b.len() && (forall|k: int|
            e + 5 <= k < n ==> #[trigger] b[k] == 13 || b[k] == 10) && (n < b.len() ==> b[n] != 13 && b[n] != 10) ==> file_end(
            b,
        ) == Some((n as u64, "pdf"@)),
        (forall|k: int| 0 <= k ==> !eof_at(b, k)) ==> file_end(b) is None,
{
    reveal(file_end);
    three_stand(b, 0, jpg_start());
    eight_stand(b, png_start());
    five_stand(b, 0, pdf_start());
    first_at_is_first(b, pdf_end(), 0);
    assert forall|k: int| 0 <= k implies (#[trigger] stands_at(b, k, pdf_end()) <==> eof_at(b, k)) by {
        five_stand(b, k, pdf_end());
    }
    if 0 <= e && eof_at(b, e) {
        assert(stands_at(b, e, pdf_end()));
        if (forall|k: int| 0 <= k < e ==> !eof_at(b, k)) && e + 5 <= n <= b.len() && (forall|k: int|
            e + 5 <= k < n ==> #[trigger] b[k] == 13 || b[k] == 10) && (n < b.len() ==> b[n] != 13 && b[n] != 10) {
            breaks_are_passed(b, e + 5, n);
            let p = first_at(b, pdf_end(), 0)->Some_0;
            assert(eof_at(b, p));
        }
    }
    if let Some(p) = first_at(b, pdf_end(), 0) {
        assert(eof_at(b, p));
    }
}

/// Whether the end record of a ZIP file stands in `b` at `k`.
pub open spec fn end_record_at(b: Seq<u8>, k: int) -> bool {
    k + 4 <= b.len() && b[k] == 'P' as u8 && b[k + 1] == 'K' as u8 && b[k + 2] == 5 && b[k + 3] == 6
}

/// Whether `word/` stands in the first `n` bytes of `b`.
pub open spec fn holds_word(b: Seq<u8>, n: int) -> bool {
    exists|k: int|
        0 <= k && k + 5 <= n && k + 5 <= b.len() && #[trigger] b[k] == 'w' as u8 && b[k + 1] == 'o' as u8 && b[k + 2] == 'r' as u8
            && b[k + 3] == 'd' as u8 && b[k + 4] == '/' as u8
}

/// Whether `xl/` stands in the first `n` bytes of `b`.
pub open spec fn holds_xl(b: Seq<u8>, n: int) -> bool {
    exists|k: int|
        0 <= k && k + 3 <= n && k + 3 <= b.len() && #[trigger] b[k] == 'x' as u8 && b[k + 1] == 'l' as u8 && b[k + 2] == '/' as u8
}

/// Whether `ppt/` stands in the first `n` bytes of `b`.
pub open spec fn holds_ppt(b: Seq<u8>, n: int) -> bool {
    exists|k: int|
        0 <= k && k + 4 <= n && k + 4 <= b.len() && #[trigger] b[k] == 'p' as u8 && b[k + 1] == 'p' as u8 && b[k + 2] == 't' as u8
            && b[k + 3] == '/' as u8
}

proof fn kind_is_told(b: Seq<u8>, n: int)
    requires
        0 <= n,
    ensures
        zip_kind(up_to(b, n)) == if holds_word(b, n) {
            "docx"@
        } else if holds_xl(b, n) {
            "xlsx"@
        } else if holds_ppt(b, n) {
            "pptx"@
        } else {
            "zip"@
        },
{
    let u = up_to(b, n);
    first_at_is_first(u, docx_mark(), 0);
    first_at_is_first(u, xlsx_mark(), 0);
    first_at_is_first(u, pptx_mark(), 0);
    assert(forall|i: int| 0 <= i < u.len() ==> u[i] == b[i]);
    assert forall|k: int| 0 <= k implies (#[trigger] stands_at(u, k, docx_mark()) <==> k + 5 <= n && k + 5 <= b.len() && b[k]
        == 'w' as u8 && b[k + 1] == 'o' as u8 && b[k + 2] == 'r' as u8 && b[k + 3] == 'd' as u8 && b[k + 4] == '/' as u8) by {
        five_stand(u, k, docx_mark());
    }
    assert forall|k: int| 0 <= k implies (#[trigger] stands_at(u, k, xlsx_mark()) <==> k + 3 <= n && k + 3 <= b.len() && b[k]
        == 'x' as u8 && b[k + 1] == 'l' as u8 && b[k + 2] == '/' as u8) by {
        three_stand(u, k, xlsx_mark());
    }
    assert forall|k: int| 0 <= k implies (#[trigger] stands_at(u, k, pptx_mark()) <==> k + 4 <= n && k + 4 <= b.len() && b[k]
        == 'p' as u8 && b[k + 1] == 'p' as u8 && b[k + 2] == 't' as u8 && b[k + 3] == '/' as u8) by {
        four_stand(u, k, pptx_mark());
    }
    if holds_word(b, n) {
        let k = choose|k: int|
            0 <= k && k + 5 <= n && k + 5 <= b.len() && #[trigger] b[k] == 'w' as u8 && b[k + 1] == 'o' as u8 && b[k + 2]
                == 'r' as u8 && b[k + 3] == 'd' as u8 && b[k + 4] == '/' as u8;
        assert(stands_at(u, k, docx_mark()));
    }
    if holds_xl(b, n) {
        let k = choose|k: int|
            0 <= k && k + 3 <= n && k + 3 <= b.len() && #[trigger] b[k] == 'x' as u8 && b[k + 1] == 'l' as u8 && b[k + 2]
                == '/' as u8;
        assert(stands_at(u, k, xlsx_mark()));
    }
    if holds_ppt(b, n) {
        let k = choose|k: int|
            0 <= k && k + 4 <= n && k + 4 <= b.len() && #[trigger] b[k] == 'p' as u8 && b[k + 1] == 'p' as u8 && b[k + 2]
                == 't' as u8 && b[k + 3] == '/' as u8;
        assert(stands_at(u, k, pptx_mark()));
    }
    if let Some(p) = first_at(u, docx_mark(), 0) {
        assert(b[p] == 'w' as u8);
    }
    if let Some(p) = first_at(u, xlsx_mark(), 0) {
        assert(b[p] == 'x' as u8);
    }
    if let Some(p) = first_at(u, pptx_mark(), 0) {
        assert(b[p] == 'p' as u8);
    }
}

/// A ZIP file ends behind its end record, the first that there is, and the comment that it
/// announces; by the folder in it, it is a Word, Excel or PowerPoint file.
pub proof fn zip_ends_at_its_record(b: Seq<u8>, e: int)
    requires
        b.len() >= 4,
        b.len() <= isize::MAX,
        b[0] == 'P' as u8 && b[1] == 'K' as u8 && b[2] == 3 && b[3] == 4,
    ensures
        0 <= e && end_record_at(b, e) && (forall|k: int| 0 <= k < e ==> !end_record_at(b, k)) && e + 22 <= b.len() ==> {
            let n = e + 22 + b[e + 20] + 256 * b[e + 21];
            file_end(b) == Some(
                (
                    n as u64,
                    if holds_word(b, n) {
                        "docx"@
                    } else if holds_xl(b, n) {
                        "xlsx"@
                    } else if holds_ppt(b, n) {
                        "pptx"@
                    } else {
                        "zip"@
                    },
                ),
            )
        },
        (forall|k: int| 0 <= k ==> !end_record_at(b, k)) ==> file_end(b) is None,
{
    reveal(file_end);
    three_stand(b, 0, jpg_start());
    eight_stand(b, png_start());
    five_stand(b, 0, pdf_start());
    four_stand(b, 0, zip_start());
    first_at_is_first(b, zip_end(), 0);
    assert forall|k: int| 0 <= k implies (#[trigger] stands_at(b, k, zip_end()) <==> end_record_at(b, k)) by {
        four_stand(b, k, zip_end());
    }
    if 0 <= e && end_record_at(b, e) {
        assert(stands_at(b, e, zip_end()));
    }
    if let Some(p) = first_at(b, zip_end(), 0) {
        assert(end_record_at(b, p));
        if p + 22 <= b.len() {
            fields_are_little_endian(b, p + 20);
            kind_is_told(b, p + 22 + b[p + 20] + 256 * b[p + 21]);
        }
    }
}

/// What is no such file is not carved.
pub proof fn other_bytes_are_no_file(b: Seq<u8>)
    requires
        b.len() >= 8,
        !starts_like_a_file(b),
    ensures
        file_end(b) is None,
{
    reveal(file_end);
    files_are_told_by_their_start(b);
}

/// A file is carved: where one starts at a sector of the range and ends within 64 MiB, it is
/// found there with its length and kind, unless its start lies inside a file that is found.
pub proof fn file_is_carved<S: Source + ?Sized>(
    src: &S,
    disk: Seq<u8>,
    start: u64,
    end: u64,
    at: u64,
    len: u64,
    ext: Seq<char>,
)
    requires
        holds(src, disk),
        disk.len() == src.size(),
        end <= disk.len(),
        at % 512 == 0,
        start <= at,
        at + 512 <= end,
        starts_like_a_file(disk.subrange(at as int, at + 512)),
        ({
            let n = if disk.len() - at < 0x400_0000 {
                disk.len() - at
            } else {
                0x400_0000
            };
            file_end(disk.subrange(at as int, at + n)) == Some((len, ext))
        }),
    ensures
        exists|i: int|
            0 <= i < carved(src, start, end).len() && {
                let f = #[trigger] carved(src, start, end)[i];
                f == CarvedView { offset: at, len, ext } || f.offset < at < f.offset + f.len
            },
{
    let s = disk.subrange(at as int, at + 8);
    let sector = disk.subrange(at as int, at + 512);
    assert forall|i: int| 0 <= i < 8 implies s[i] == sector[i] by {}
    files_are_told_by_their_start(s);
    end_is_looked_for(src, disk, at);
    range_is_searched_throughout(src, disk, start, end, at);
    carved_files_are_apart(src, start, end);
    let files = carved(src, start, end);
    let c = CarvedView { offset: at, len, ext };
    if files.contains(c) {
        let i = choose|i: int| 0 <= i < files.len() && files[i] == c;
        assert(files[i] == c);
    } else {
        let i = choose|i: int|
            0 <= i < files.len() && (#[trigger] files[i]).offset < at < files[i].offset + sectors(files[i].len);
        assert(sound_file(src, files[i], start as int, end as int));
        let d = at - files[i].offset;
        let l = files[i].len;
        ceil_div_reaches(l as nat, 512);
        assert(d < l);
    }
}

/// A part of the source that cannot be read is passed over, 4 MiB of it, and the search goes on
/// behind it.
pub proof fn unreadable_part_is_passed_over<S: Source + ?Sized>(src: &S, start: u64, end: u64)
    requires
        start % 512 == 0,
        start < end,
        src.at(
            start,
            if end - start < 4 * 1024 * 1024 {
                (end - start) as nat
            } else {
                4 * 1024 * 1024
            },
        ) is Err,
    ensures
        end - start <= 4 * 1024 * 1024 ==> carved(src, start, end).len() == 0,
        end - start > 4 * 1024 * 1024 ==> carved(src, start, end) == carved(src, (start + 4 * 1024 * 1024) as u64, end),
{
    let next = step_at(src, start, end, start).next;
    assert(carved_from(src, start, end, start) == Seq::<CarvedView>::empty() + carved_from(src, start, end, next));
    assert(carved_from(src, start, end, start) =~= carved_from(src, start, end, next));
    if end - start > 4 * 1024 * 1024 {
        same_search(src, start, next, end, next);
    }
}

proof fn same_search<S: Source + ?Sized>(src: &S, a: u64, b: u64, end: u64, off: u64)
    ensures
        carved_from(src, a, end, off) == carved_from(src, b, end, off),
    decreases
            if off < end {
                end - off
            } else {
                0
            },
{
    if off < end {
        step_moves_on(src, a, end, off);
        step_moves_on(src, b, end, off);
        same_search(src, a, b, end, step_at(src, a, end, off).next);
    }
}

/// What a search of one of the ranges finds is among what a search of all of them finds.
pub proof fn ranges_are_searched_in_turn<S: Source + ?Sized>(src: &S, ranges: Seq<(u64, u64)>, k: int, c: CarvedView)
    requires
        0 <= k < ranges.len(),
        carved(src, ranges[k].0, ranges[k].1).contains(c),
    ensures
        carved_in_all(src, ranges).contains(c),
    decreases ranges.len(),
{
    let init = ranges.drop_last();
    let before = carved_in_all(src, init);
    let last = carved(src, ranges.last().0, ranges.last().1);
    let all = carved_in_all(src, ranges);
    if k < init.len() {
        assert(init[k] == ranges[k]);
        ranges_are_searched_in_turn(src, init, k, c);
        let i = choose|i: int| 0 <= i < before.len() && before[i] == c;
        assert(all[i] == c);
    } else {
        let i = choose|i: int| 0 <= i < last.len() && last[i] == c;
        assert(all[before.len() + i] == c);
    }
}

/// What is told of a search: behind each part of four mebibytes that can be read, how far the
/// search has come from its start, or, where a file that was found reaches further, how far that
/// is; of a part that cannot be read, nothing.
pub proof fn search_is_told_part_by_part<S: Source + ?Sized>(src: &S, start: u64, end: u64, off: u64, b: Seq<u8>)
    requires
        start <= off < end,
        end <= u64::MAX - 0x40_0000,
        src.at(
            off,
            if end - off < 0x40_0000 {
                (end - off) as nat
            } else {
                0x40_0000nat
            },
        ) == Ok::<Seq<u8>, Seq<char>>(b),
    ensures
        ({
            let next = carved_in(src, b, off, 0).1;
            let done = if next < end {
                next - start
            } else {
                end - start
            };
            &&& reports_from(src, start, end, off) == seq![(done as u64, (end - start) as u64)] + reports_from(src, start, end, next)
            &&& carved_in(src, b, off, 0).0.len() == 0 ==> next == off + 0x40_0000
        }),
{
    step_moves_on(src, start, end, off);
    nothing_found_moves_a_part(src, b, off, 0);
    let next = carved_in(src, b, off, 0).1;
    assert(step_at(src, start, end, off).next == next);
}

proof fn nothing_found_moves_a_part<S: Source + ?Sized>(src: &S, b: Seq<u8>, off: u64, k: int)
    requires
        off <= u64::MAX - 0x40_0000,
        0 <= k,
    ensures
        carved_in(src, b, off, k).0.len() == 0 ==> carved_in(src, b, off, k).1 == off + 0x40_0000,
    decreases b.len() - k,
{
    if k + 512 <= b.len() && carved_at(src, b, off, k) is None {
        nothing_found_moves_a_part(src, b, off, k + 512);
    }
}

/// Searching the ranges `a` and then `b` finds what searching `a` finds, followed by what
/// searching `b` finds, and tells of the one and then of the other; one range alone is searched as
/// it is, and no range at all finds nothing.
pub proof fn searches_follow_each_other<S: Source + ?Sized>(src: &S, a: Seq<(u64, u64)>, b: Seq<(u64, u64)>, r: (u64, u64))
    ensures
        carved_in_all(src, a + b) == carved_in_all(src, a) + carved_in_all(src, b),
        reports_of_all(src, a + b) == reports_of_all(src, a) + reports_of_all(src, b),
        carved_in_all(src, seq![r]) == carved(src, r.0, r.1),
        reports_of_all(src, seq![r]) == reports(src, r.0, r.1),
        carved_in_all(src, seq![]).len() == 0,
        reports_of_all(src, seq![]).len() == 0,
    decreases b.len(),
{
    reveal_with_fuel(carved_in_all, 2);
    reveal_with_fuel(reports_of_all, 2);
    assert(seq![r].drop_last() =~= seq![]);
    assert(carved_in_all(src, seq![r]) =~= carved(src, r.0, r.1));
    assert(reports_of_all(src, seq![r]) =~= reports(src, r.0, r.1));
    if b.len() == 0 {
        assert(a + b =~= a);
    } else {
        assert((a + b).drop_last() =~= a + b.drop_last());
        searches_follow_each_other(src, a, b.drop_last(), r);
    }
    assert(carved_in_all(src, a + b) =~= carved_in_all(src, a) + carved_in_all(src, b));
    assert(reports_of_all(src, a + b) =~= reports_of_all(src, a) + reports_of_all(src, b));
}

} // verus!
