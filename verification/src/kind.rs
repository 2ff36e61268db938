//! What kind of file bytes are the start of.

use crate::bytes::{has_at, stands_at};
use vstd::prelude::*;

verus! {

/// Whether `b` occurs in plain ASCII text.
pub open spec fn text_byte(b: u8) -> bool {
    0x21 <= b <= 0x7E || b == 0x20 || b == 0x09 || b == 0x0A || b == 0x0C || b == 0x0D
}

/// The file extension that fits a file that starts with `head`.
pub open spec fn extension(head: Seq<u8>) -> Seq<char> {
    if stands_at(head, 0, seq![0xFF, 0xD8, 0xFF]) {
        "jpg"@
    } else if stands_at(head, 0, seq![0x89, 0x50, 0x4E, 0x47]) {
        "png"@
    } else if stands_at(head, 0, seq![0x25, 0x50, 0x44, 0x46]) {
        "pdf"@
    } else if stands_at(head, 0, seq![0x50, 0x4B, 0x03, 0x04]) {
        "zip"@
    } else if stands_at(head, 0, seq![0xD0, 0xCF, 0x11, 0xE0]) {
        "doc"@
    } else if stands_at(head, 0, seq![0x47, 0x49, 0x46, 0x38]) {
        "gif"@
    } else if stands_at(head, 0, seq![0x1F, 0x8B]) {
        "gz"@
    } else if stands_at(head, 4, seq![0x66, 0x74, 0x79, 0x70]) {
        "mp4"@
    } else if head.len() > 0 && forall|i: int| 0 <= i < head.len() ==> text_byte(#[trigger] head[i]) {
        "txt"@
    } else {
        "bin"@
    }
}

fn is_text(head: &[u8]) -> (r: bool)
    ensures
        r == (head@.len() > 0 && forall|i: int| 0 <= i < head@.len() ==> text_byte(#[trigger] head@[i])),
{
    let mut i: usize = 0;
    while i < head.len()
        invariant
            i <= head@.len(),
            forall|k: int| 0 <= k < i ==> text_byte(#[trigger] head@[k]),
        decreases head@.len() - i,
    {
        let b = head[i];
        if !((0x21 <= b && b <= 0x7E) || b == 0x20 || b == 0x09 || b == 0x0A || b == 0x0C || b == 0x0D) {
            return false;
        }
        i += 1;
    }
    head.len() > 0
}

/// File extension from the first bytes of a file.
pub fn guess_ext(head: &[u8]) -> (r: &'static str)
    ensures
        r@ == extension(head@),
{
    let jpg: [u8; 3] = [0xFF, 0xD8, 0xFF];
    let png: [u8; 4] = [0x89, 0x50, 0x4E, 0x47];
    let pdf: [u8; 4] = [0x25, 0x50, 0x44, 0x46];
    let zip: [u8; 4] = [0x50, 0x4B, 0x03, 0x04];
    let doc: [u8; 4] = [0xD0, 0xCF, 0x11, 0xE0];
    let gif: [u8; 4] = [0x47, 0x49, 0x46, 0x38];
    let gz: [u8; 2] = [0x1F, 0x8B];
    let mp4: [u8; 4] = [0x66, 0x74, 0x79, 0x70];
    assert(jpg@ =~= seq![0xFF, 0xD8, 0xFF]);
    assert(png@ =~= seq![0x89, 0x50, 0x4E, 0x47]);
    assert(pdf@ =~= seq![0x25, 0x50, 0x44, 0x46]);
    assert(zip@ =~= seq![0x50, 0x4B, 0x03, 0x04]);
    assert(doc@ =~= seq![0xD0, 0xCF, 0x11, 0xE0]);
    assert(gif@ =~= seq![0x47, 0x49, 0x46, 0x38]);
    assert(gz@ =~= seq![0x1F, 0x8B]);
    assert(mp4@ =~= seq![0x66, 0x74, 0x79, 0x70]);
    if has_at(head, 0, &jpg) {
        "jpg"
    } else if has_at(head, 0, &png) {
        "png"
    } else if has_at(head, 0, &pdf) {
        "pdf"
    } else if has_at(head, 0, &zip) {
        "zip"
    } else if has_at(head, 0, &doc) {
        "doc"
    } else if has_at(head, 0, &gif) {
        "gif"
    } else if has_at(head, 0, &gz) {
        "gz"
    } else if has_at(head, 4, &mp4) {
        "mp4"
    } else if is_text(head) {
        "txt"
    } else {
        "bin"
    }
}

/// The extension goes by the first bytes: the marks of the known kinds, then the brand box of
/// an MP4 file behind its length, then that nothing but text stands there.
pub proof fn kinds_are_told_by_their_start(head: Seq<u8>)
    ensures
        ({
            let n = head.len();
            let jpg = n >= 3 && head[0] == 255 && head[1] == 216 && head[2] == 255;
            let png = n >= 4 && head[0] == 137 && head[1] as int == 'P' as int && head[2] as int == 'N' as int && head[3] as int
                == 'G' as int;
            let pdf = n >= 4 && head[0] as int == '%' as int && head[1] as int == 'P' as int && head[2] as int == 'D' as int
                && head[3] as int == 'F' as int;
            let zip = n >= 4 && head[0] as int == 'P' as int && head[1] as int == 'K' as int && head[2] == 3 && head[3] == 4;
            let doc = n >= 4 && head[0] == 208 && head[1] == 207 && head[2] == 17 && head[3] == 224;
            let gif = n >= 4 && head[0] as int == 'G' as int && head[1] as int == 'I' as int && head[2] as int == 'F' as int
                && head[3] as int == '8' as int;
            let gz = n >= 2 && head[0] == 31 && head[1] == 139;
            let mp4 = n >= 8 && head[4] as int == 'f' as int && head[5] as int == 't' as int && head[6] as int == 'y' as int
                && head[7] as int == 'p' as int;
            let text = n > 0 && forall|i: int|
                0 <= i < n ==> 32 <= #[trigger] head[i] < 127 || head[i] == 9 || head[i] == 10 || head[i] == 12 || head[i] == 13;
            let known = jpg || png || pdf || zip || doc || gif || gz;
            &&& jpg ==> extension(head) == "jpg"@
            &&& png ==> extension(head) == "png"@
            &&& pdf ==> extension(head) == "pdf"@
            &&& zip ==> extension(head) == "zip"@
            &&& doc ==> extension(head) == "doc"@
            &&& gif ==> extension(head) == "gif"@
            &&& gz ==> extension(head) == "gz"@
            &&& mp4 && !known ==> extension(head) == "mp4"@
            &&& text && !known && !mp4 ==> extension(head) == "txt"@
            &&& !text && !known && !mp4 ==> extension(head) == "bin"@
        }),
{
    starts_three(head, 0xFF, 0xD8, 0xFF);
    starts_four(head, 0, 0x89, 0x50, 0x4E, 0x47);
    starts_four(head, 0, 0x25, 0x50, 0x44, 0x46);
    starts_four(head, 0, 0x50, 0x4B, 0x03, 0x04);
    starts_four(head, 0, 0xD0, 0xCF, 0x11, 0xE0);
    starts_four(head, 0, 0x47, 0x49, 0x46, 0x38);
    starts_four(head, 4, 0x66, 0x74, 0x79, 0x70);
    starts_two(head, 0x1F, 0x8B);
}

proof fn starts_two(head: Seq<u8>, a: u8, b: u8)
    ensures
        stands_at(head, 0, seq![a, b]) <==> head.len() >= 2 && head[0] == a && head[1] == b,
{
    if head.len() >= 2 {
        let s = head.subrange(0, 2);
        assert(s[0] == head[0] && s[1] == head[1]);
        if head[0] == a && head[1] == b {
            assert(s =~= seq![a, b]);
        }
    }
}

proof fn starts_three(head: Seq<u8>, a: u8, b: u8, c: u8)
    ensures
        stands_at(head, 0, seq![a, b, c]) <==> head.len() >= 3 && head[0] == a && head[1] == b && head[2] == c,
{
    if head.len() >= 3 {
        let s = head.subrange(0, 3);
        assert(s[0] == head[0] && s[1] == head[1] && s[2] == head[2]);
        if head[0] == a && head[1] == b && head[2] == c {
            assert(s =~= seq![a, b, c]);
        }
    }
}

proof fn starts_four(head: Seq<u8>, o: int, a: u8, b: u8, c: u8, d: u8)
    requires
        o >= 0,
    ensures
        stands_at(head, o, seq![a, b, c, d]) <==> head.len() >= o + 4 && head[o] == a && head[o + 1] == b && head[o + 2] == c
            && head[o + 3] == d,
{
    if head.len() >= o + 4 {
        let s = head.subrange(o, o + 4);
        assert(s[0] == head[o] && s[1] == head[o + 1] && s[2] == head[o + 2] && s[3] == head[o + 3]);
        if head[o] == a && head[o + 1] == b && head[o + 2] == c && head[o + 3] == d {
            assert(s =~= seq![a, b, c, d]);
        }
    }
}

} // verus!
