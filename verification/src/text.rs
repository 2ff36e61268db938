//! Text: decoding, trimming, joining.

use vstd::prelude::*;
use vstd::utf8::{decode_utf8, valid_utf8};

verus! {

/// `String::push`: the character is appended to the end of the text.
pub assume_specification[ String::push ](s: &mut String, c: char)
    ensures
        final(s)@ == old(s)@.push(c),
;

/// Whether a unit is half of a surrogate pair.
pub open spec fn is_surrogate(u: u16) -> bool {
    0xD800 <= u <= 0xDFFF
}

/// Whether a unit is the first half of a surrogate pair.
pub open spec fn is_high_surrogate(u: u16) -> bool {
    0xD800 <= u <= 0xDBFF
}

/// Whether a unit is the second half of a surrogate pair.
pub open spec fn is_low_surrogate(u: u16) -> bool {
    0xDC00 <= u <= 0xDFFF
}

/// The text that UTF-16 units stand for: a unit outside the surrogate range is its own
/// character, a high and a low surrogate together are one, and a surrogate without its
/// other half is the replacement character.
pub open spec fn utf16_text(u: Seq<u16>) -> Seq<char>
    decreases u.len(),
{
    if u.len() == 0 {
        seq![]
    } else if !is_surrogate(u[0]) {
        seq![u[0] as char] + utf16_text(u.skip(1))
    } else if is_high_surrogate(u[0]) && u.len() >= 2 && is_low_surrogate(u[1]) {
        seq![(0x1_0000 + 0x400 * (u[0] - 0xD800) + (u[1] - 0xDC00)) as char] + utf16_text(u.skip(2))
    } else {
        seq!['\u{FFFD}'] + utf16_text(u.skip(1))
    }
}

/// `String::from_utf16_lossy`: decodes UTF-16, putting the replacement character where a
/// surrogate is unpaired.
#[verifier::external_body]
pub(crate) fn utf16_lossy(u: &[u16]) -> (r: String)
    ensures
        r@ == utf16_text(u@),
{
    String::from_utf16_lossy(u)
}

/// The text that `String::from_utf8_lossy` makes of bytes.
pub uninterp spec fn utf8_text(b: Seq<u8>) -> Seq<char>;

/// `String::from_utf8_lossy`: the text that the bytes stand for, with replacement
/// characters where they are not UTF-8. Bytes that are UTF-8 throughout are decoded as they
/// stand; how many replacement characters stand for other bytes is left unsaid.
#[verifier::external_body]
pub(crate) fn utf8_lossy(b: &[u8]) -> (r: String)
    ensures
        r@ == utf8_text(b@),
        valid_utf8(b@) ==> r@ == decode_utf8(b@),
{
    String::from_utf8_lossy(b).into_owned()
}

/// Whether a text holds ASCII characters only.
pub open spec fn ascii_text(s: Seq<char>) -> bool {
    forall|i: int| 0 <= i < s.len() ==> (#[trigger] s[i] as u32) < 128
}

/// The small letter for an ASCII capital letter; any other character stays as it is.
pub open spec fn ascii_small(c: char) -> char {
    if 'A' <= c <= 'Z' {
        (c as u32 + 32) as char
    } else {
        c
    }
}

/// The capital letter for an ASCII small letter; any other character stays as it is.
pub open spec fn ascii_capital(c: char) -> char {
    if 'a' <= c <= 'z' {
        (c as u32 - 32) as char
    } else {
        c
    }
}

/// `s` with its ASCII capital letters made small.
pub open spec fn ascii_lower(s: Seq<char>) -> Seq<char> {
    s.map_values(|c: char| ascii_small(c))
}

/// `s` with its ASCII small letters made capital.
pub open spec fn ascii_upper(s: Seq<char>) -> Seq<char> {
    s.map_values(|c: char| ascii_capital(c))
}

/// The text that `str::to_lowercase` makes of a text.
pub uninterp spec fn lower_case(s: Seq<char>) -> Seq<char>;

/// `str::to_lowercase`: the lower-case equivalent of a text, by the Unicode tables. In a text
/// of ASCII characters, the capital letters become small and all else stays.
#[verifier::external_body]
pub(crate) fn to_lower(s: &str) -> (r: String)
    ensures
        r@ == lower_case(s@),
        ascii_text(s@) ==> r@ == ascii_lower(s@),
{
    s.to_lowercase()
}

/// `s` in lower case.
pub open spec fn lowered(s: Seq<char>) -> Seq<char> {
    if ascii_text(s) {
        ascii_lower(s)
    } else {
        lower_case(s)
    }
}

/// The text of little-endian UTF-16 bytes.
pub fn utf16(b: &[u8]) -> (r: String)
    ensures
        r@ == utf16_text(crate::bytes::units(b@)),
{
    let u = crate::bytes::u16_units(b);
    utf16_lossy(u.as_slice())
}

/// The characters of `s`.
pub fn chars_of(s: &str) -> (r: Vec<char>)
    ensures
        r@ == s@,
{
    let mut r: Vec<char> = Vec::new();
    for c in it: s.chars()
        invariant
            r@ == it.seq().take(it.index() as int),
    {
        r.push(c);
    }
    r
}

/// The text of the characters `c`.
pub fn string_of(c: &[char]) -> (r: String)
    ensures
        r@ == c@,
{
    let mut r = String::new();
    let mut i: usize = 0;
    while i < c.len()
        invariant
            i <= c@.len(),
            r@ == c@.take(i as int),
        decreases c@.len() - i,
    {
        r.push(c[i]);
        i += 1;
        assert(c@.take(i as int) =~= c@.take(i - 1).push(c@[i - 1]));
    }
    assert(c@.take(i as int) =~= c@);
    r
}

/// Whether two texts are the same.
pub fn same_text(a: &str, b: &str) -> (r: bool)
    ensures
        r == (a@ == b@),
{
    a.to_owned() == b.to_owned()
}

/// The decimal digit `d`.
pub open spec fn digit(d: int) -> char {
    (0x30 + d) as char
}

/// `n` in decimal, without leading zeros.
pub open spec fn decimal_text(n: nat) -> Seq<char>
    decreases n,
{
    if n < 10 {
        seq![digit(n as int)]
    } else {
        decimal_text(n / 10).push(digit((n % 10) as int))
    }
}

/// `n` in decimal.
pub fn decimal(n: u64) -> (r: String)
    ensures
        r@ == decimal_text(n as nat),
    decreases n,
{
    let mut r = if n < 10 {
        String::new()
    } else {
        decimal(n / 10)
    };
    let d = (0x30 + n % 10) as u8 as char;
    r.push(d);
    r
}

/// Whether `c` is white space by the Unicode tables.
pub open spec fn white_space(c: char) -> bool {
    let u = c as u32;
    ||| 0x09 <= u <= 0x0D
    ||| u == 0x20
    ||| u == 0x85
    ||| u == 0xA0
    ||| u == 0x1680
    ||| 0x2000 <= u <= 0x200A
    ||| u == 0x2028
    ||| u == 0x2029
    ||| u == 0x202F
    ||| u == 0x205F
    ||| u == 0x3000
}

/// Whether `c` is white space by the Unicode tables.
pub fn is_white_space(c: char) -> (r: bool)
    ensures
        r == white_space(c),
{
    let u = c as u32;
    (0x09 <= u && u <= 0x0D) || u == 0x20 || u == 0x85 || u == 0xA0 || u == 0x1680 || (0x2000 <= u && u <= 0x200A) || u
        == 0x2028 || u == 0x2029 || u == 0x202F || u == 0x205F || u == 0x3000
}

/// `s` without the white space at its end.
pub open spec fn trim_end(s: Seq<char>) -> Seq<char>
    decreases s.len(),
{
    if s.len() > 0 && white_space(s.last()) {
        trim_end(s.drop_last())
    } else {
        s
    }
}

/// `s` without the white space at its end.
pub fn trimmed_end(s: &str) -> (r: String)
    ensures
        r@ == trim_end(s@),
{
    let mut c = chars_of(s);
    while c.len() > 0 && is_white_space(c[c.len() - 1])
        invariant
            trim_end(c@) == trim_end(s@),
        decreases c@.len(),
    {
        assert(c@.subrange(0, c@.len() - 1) =~= c@.drop_last());
        c.pop();
    }
    string_of(c.as_slice())
}

/// `a` and `b`, one after the other.
pub fn joined(a: &str, b: &str) -> (r: String)
    ensures
        r@ == a@ + b@,
{
    let mut r = a.to_owned();
    r.append(b);
    r
}

/// Whether `s` starts with `p`.
pub open spec fn has_prefix(s: Seq<char>, p: Seq<char>) -> bool {
    p.len() <= s.len() && s.take(p.len() as int) == p
}

/// Whether `s` starts with `p`.
pub fn starts_with(s: &str, p: &str) -> (r: bool)
    ensures
        r == has_prefix(s@, p@),
{
    let a = chars_of(s);
    let b = chars_of(p);
    if b.len() > a.len() {
        return false;
    }
    let mut i: usize = 0;
    while i < b.len()
        invariant
            i <= b@.len() <= a@.len(),
            a@ == s@,
            b@ == p@,
            forall|k: int| 0 <= k < i ==> a@[k] == b@[k],
        decreases b@.len() - i,
    {
        if a[i] != b[i] {
            assert(s@.take(p@.len() as int)[i as int] == a@[i as int]);
            return false;
        }
        i += 1;
    }
    assert(s@.take(p@.len() as int) =~= p@);
    true
}

/// The pieces of `s` between the separators `c`, where `cur` stands in front of the first.
pub open spec fn pieces_after(s: Seq<char>, c: char, cur: Seq<char>) -> Seq<Seq<char>>
    decreases s.len(),
{
    if s.len() == 0 {
        seq![cur]
    } else if s[0] == c {
        seq![cur] + pieces_after(s.skip(1), c, seq![])
    } else {
        pieces_after(s.skip(1), c, cur.push(s[0]))
    }
}

/// The pieces of `s` between the separators `c`.
pub open spec fn pieces(s: Seq<char>, c: char) -> Seq<Seq<char>> {
    pieces_after(s, c, seq![])
}

/// There is at least one piece, and no separator in any.
pub proof fn pieces_hold_no_separator(s: Seq<char>, c: char, cur: Seq<char>)
    requires
        !cur.contains(c),
    ensures
        pieces_after(s, c, cur).len() >= 1,
        forall|i: int| 0 <= i < pieces_after(s, c, cur).len() ==> !(#[trigger] pieces_after(s, c, cur)[i]).contains(c),
    decreases s.len(),
{
    if s.len() > 0 {
        if s[0] == c {
            pieces_hold_no_separator(s.skip(1), c, seq![]);
            let rest = pieces_after(s.skip(1), c, seq![]);
            let all = pieces_after(s, c, cur);
            assert forall|i: int| 0 <= i < all.len() implies !(#[trigger] all[i]).contains(c) by {
                if i > 0 {
                    assert(all[i] == rest[i - 1]);
                }
            }
        } else {
            assert(!cur.push(s[0]).contains(c)) by {
                if cur.push(s[0]).contains(c) {
                    let i = choose|i: int| 0 <= i < cur.len() + 1 && cur.push(s[0])[i] == c;
                    assert(i < cur.len());
                    assert(cur[i] == c);
                }
            }
            pieces_hold_no_separator(s.skip(1), c, cur.push(s[0]));
        }
    }
}

/// The pieces of `s` between the separators `c`.
pub fn split(s: &[char], c: char) -> (r: Vec<Vec<char>>)
    ensures
        crate::model::views(r@) == pieces(s@, c),
        r@.len() >= 1,
{
    let mut out: Vec<Vec<char>> = Vec::new();
    let mut cur: Vec<char> = Vec::new();
    let mut i: usize = 0;
    assert(s@.skip(0) =~= s@);
    assert(cur@ =~= seq![]);
    assert(crate::model::views(out@) + pieces(s@, c) =~= pieces(s@, c));
    while i < s.len()
        invariant
            i <= s@.len(),
            crate::model::views(out@) + pieces_after(s@.skip(i as int), c, cur@) == pieces(s@, c),
        decreases s@.len() - i,
    {
        let ghost before = crate::model::views(out@);
        let ghost rest = pieces_after(s@.skip(i as int), c, cur@);
        assert(s@.skip(i as int).skip(1) =~= s@.skip(i + 1));
        assert(s@.skip(i as int)[0] == s@[i as int]);
        if s[i] == c {
            proof {
                crate::model::views_push(out@, cur);
            }
            out.push(cur);
            cur = Vec::new();
            assert(cur@ =~= seq![]);
            assert(crate::model::views(out@) + pieces_after(s@.skip(i + 1), c, cur@) =~= before + rest);
        } else {
            cur.push(s[i]);
        }
        i += 1;
    }
    proof {
        crate::model::views_push(out@, cur);
    }
    out.push(cur);
    assert(crate::model::views(out@) =~= pieces(s@, c));
    out
}

/// Two numbers with the same digits are the same.
pub proof fn decimal_text_is_injective(a: nat, b: nat)
    requires
        decimal_text(a) == decimal_text(b),
    ensures
        a == b,
    decreases a,
{
    decimal_text_length(a);
    decimal_text_length(b);
    if a < 10 {
        if b >= 10 {
            decimal_text_length(b / 10);
        }
        assert(decimal_text(a).last() == digit(a as int));
        assert(decimal_text(b).last() == digit((b % 10) as int));
    } else {
        if b < 10 {
            decimal_text_length(a / 10);
        }
        let x = decimal_text(a);
        let y = decimal_text(b);
        assert(x.drop_last() =~= decimal_text(a / 10));
        assert(y.drop_last() =~= decimal_text(b / 10));
        assert(x.last() == digit((a % 10) as int));
        assert(y.last() == digit((b % 10) as int));
        decimal_text_is_injective(a / 10, b / 10);
    }
}

proof fn decimal_text_length(n: nat)
    ensures
        decimal_text(n).len() >= 1,
    decreases n,
{
    if n >= 10 {
        decimal_text_length(n / 10);
    }
}

/// The number that decimal digits spell, the highest first.
pub open spec fn spelled_number(s: Seq<char>) -> int
    decreases s.len(),
{
    if s.len() == 0 {
        0
    } else {
        10 * spelled_number(s.drop_last()) + (s.last() as int - '0' as int)
    }
}

/// A number in decimal is made of digits, spells that number, and has no leading zero.
pub proof fn decimal_text_spells(n: nat)
    ensures
        spelled_number(decimal_text(n)) == n,
        forall|i: int| 0 <= i < decimal_text(n).len() ==> '0' <= #[trigger] decimal_text(n)[i] <= '9',
        decimal_text(n).len() > 0,
        n > 0 ==> decimal_text(n)[0] != '0',
    decreases n,
{
    let t = decimal_text(n);
    if n < 10 {
        reveal_with_fuel(spelled_number, 2);
        assert(t.drop_last() =~= seq![]);
    } else {
        decimal_text_spells(n / 10);
        let before = decimal_text(n / 10);
        assert(t.drop_last() =~= before);
        assert forall|i: int| 0 <= i < t.len() implies '0' <= #[trigger] t[i] <= '9' by {
            if i < before.len() {
                assert(t[i] == before[i]);
            }
        }
        assert(t[0] == before[0]);
    }
}

/// The blanks that fill a text up are trimmed, and nothing else of a printable text is.
pub proof fn blanks_are_trimmed(s: Seq<char>, n: nat)
    requires
        s.len() > 0 ==> '!' <= s.last() <= '~',
    ensures
        trim_end(s + Seq::new(n, |i: int| ' ')) == s,
    decreases n,
{
    let t = s + Seq::new(n, |i: int| ' ');
    if n == 0 {
        assert(t =~= s);
    } else {
        assert(t.drop_last() =~= s + Seq::new((n - 1) as nat, |i: int| ' '));
        blanks_are_trimmed(s, (n - 1) as nat);
    }
}

/// The pieces with the separator between them.
pub open spec fn put_together(ps: Seq<Seq<char>>, c: char) -> Seq<char>
    decreases ps.len(),
{
    if ps.len() == 0 {
        seq![]
    } else if ps.len() == 1 {
        ps[0]
    } else {
        ps[0] + seq![c] + put_together(ps.skip(1), c)
    }
}

proof fn pieces_after_put_together(s: Seq<char>, c: char, cur: Seq<char>)
    ensures
        pieces_after(s, c, cur).len() > 0,
        put_together(pieces_after(s, c, cur), c) == cur + s,
    decreases s.len(),
{
    let ps = pieces_after(s, c, cur);
    if s.len() == 0 {
        assert(cur + s =~= cur);
    } else if s[0] == c {
        let rest = pieces_after(s.skip(1), c, seq![]);
        pieces_after_put_together(s.skip(1), c, seq![]);
        assert(ps.skip(1) =~= rest);
        assert(ps[0] == cur);
        assert(Seq::<char>::empty() + s.skip(1) =~= s.skip(1));
        assert(cur + seq![c] + s.skip(1) =~= cur + s);
    } else {
        pieces_after_put_together(s.skip(1), c, cur.push(s[0]));
        assert(cur.push(s[0]) + s.skip(1) =~= cur + s);
    }
}

/// A text is its pieces with the separators between them.
pub proof fn pieces_make_the_text(s: Seq<char>, c: char)
    ensures
        put_together(pieces(s, c), c) == s,
{
    pieces_after_put_together(s, c, seq![]);
    assert(Seq::<char>::empty() + s =~= s);
}

proof fn plain_text_is_passed(a: Seq<char>, rest: Seq<char>, c: char, cur: Seq<char>)
    requires
        !a.contains(c),
    ensures
        pieces_after(a + rest, c, cur) == pieces_after(rest, c, cur + a),
    decreases a.len(),
{
    if a.len() == 0 {
        assert(a + rest =~= rest);
        assert(cur + a =~= cur);
    } else {
        assert(a[0] != c);
        assert((a + rest).skip(1) =~= a.skip(1) + rest);
        assert(!a.skip(1).contains(c)) by {
            if a.skip(1).contains(c) {
                let i = choose|i: int| 0 <= i < a.skip(1).len() && a.skip(1)[i] == c;
                assert(a[i + 1] == c);
            }
        }
        plain_text_is_passed(a.skip(1), rest, c, cur.push(a[0]));
        assert(cur.push(a[0]) + a.skip(1) =~= cur + a);
    }
}

/// Splitting gives the pieces back that a text was put together from, as long as none of them
/// holds the separator.
pub proof fn pieces_are_read_back(ps: Seq<Seq<char>>, c: char)
    requires
        ps.len() > 0,
        forall|i: int| 0 <= i < ps.len() ==> !(#[trigger] ps[i]).contains(c),
    ensures
        pieces(put_together(ps, c), c) == ps,
    decreases ps.len(),
{
    let a = ps[0];
    let none = Seq::<char>::empty();
    assert(none + a =~= a);
    if ps.len() == 1 {
        plain_text_is_passed(a, none, c, none);
        assert(a + none =~= a);
        assert(pieces_after(none, c, a) == seq![a]);
        assert(ps =~= seq![a]);
    } else {
        let later = ps.skip(1);
        assert forall|i: int| 0 <= i < later.len() implies !(#[trigger] later[i]).contains(c) by {
            assert(later[i] == ps[i + 1]);
        }
        pieces_are_read_back(later, c);
        let rest = seq![c] + put_together(later, c);
        plain_text_is_passed(a, rest, c, none);
        assert(a + rest =~= put_together(ps, c));
        assert(rest.skip(1) =~= put_together(later, c));
        assert(ps =~= seq![a] + later);
    }
}

/// The UTF-16 units of a text: a character of the first plane is one unit, any other a pair.
pub open spec fn utf16_units(s: Seq<char>) -> Seq<u16>
    decreases s.len(),
{
    if s.len() == 0 {
        seq![]
    } else {
        let c = s[0] as int;
        (if c < 0x1_0000 {
            seq![c as u16]
        } else {
            seq![(0xD800 + (c - 0x1_0000) / 0x400) as u16, (0xDC00 + (c - 0x1_0000) % 0x400) as u16]
        }) + utf16_units(s.skip(1))
    }
}

proof fn no_character_is_a_surrogate(c: char)
    ensures
        0 <= c as int,
        (c as int) < 0xD800 || 0xE000 <= c as int,
        c as int <= 0x10_FFFF,
{
}

/// A text is read back from its UTF-16 units.
pub proof fn utf16_is_read_back(s: Seq<char>)
    ensures
        utf16_text(utf16_units(s)) == s,
    decreases s.len(),
{
    let u = utf16_units(s);
    if s.len() > 0 {
        let rest = s.skip(1);
        utf16_is_read_back(rest);
        let c = s[0] as int;
        no_character_is_a_surrogate(s[0]);
        if c < 0x1_0000 {
            assert(u.skip(1) =~= utf16_units(rest));
            assert(u[0] == c);
            assert(utf16_text(u) =~= seq![s[0]] + rest);
        } else {
            assert(u.skip(2) =~= utf16_units(rest));
            assert(u[0] == 0xD800 + (c - 0x1_0000) / 0x400);
            assert(u[1] == 0xDC00 + (c - 0x1_0000) % 0x400);
            assert(0x1_0000 + 0x400 * (u[0] - 0xD800) + (u[1] - 0xDC00) == c);
            assert(utf16_text(u) =~= seq![s[0]] + rest);
        }
        assert(seq![s[0]] + rest =~= s);
    } else {
        assert(utf16_text(u) =~= s);
    }
}

} // verus!
