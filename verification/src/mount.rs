//! Filesystem usage for mounted partitions, from `statvfs` counters or the output of `df`.

use crate::model::{views, views_push};
use crate::text::{
    chars_of, decimal_text, decimal_text_spells, is_white_space, pieces, pieces_are_read_back, put_together, spelled_number, split,
    white_space,
};
use vstd::prelude::*;

verus! {

/// How much of a filesystem is in use, in bytes.
#[derive(Debug, Clone, Copy, PartialEq, Eq, Structural)]
pub struct Usage {
    pub total: u64,
    pub used: u64,
    pub avail: u64,
}

/// `a * b`, or the largest number where that is larger.
pub open spec fn product(a: u64, b: u64) -> u64 {
    if a * b > u64::MAX {
        u64::MAX
    } else {
        (a * b) as u64
    }
}

fn bounded_product(a: u64, b: u64) -> (r: u64)
    ensures
        r == product(a, b),
{
    match a.checked_mul(b) {
        Some(p) => p,
        None => u64::MAX,
    }
}

/// The usage of `blocks` blocks of `frsize` bytes, of which `bfree` are free and `bavail`
/// available to users. A block has at least one byte.
pub open spec fn usage_of(frsize: u64, blocks: u64, bfree: u64, bavail: u64) -> Usage {
    let unit = if frsize == 0 {
        1
    } else {
        frsize
    };
    let total = product(blocks, unit);
    Usage { total, used: total.saturating_sub(product(bfree, unit)), avail: product(bavail, unit) }
}

/// Compute usage from raw `statvfs` counters (used% as `df` does: see `percent_of`).
pub fn from_blocks(frsize: u64, blocks: u64, bfree: u64, bavail: u64) -> (r: Usage)
    ensures
        r == usage_of(frsize, blocks, bfree, bavail),
{
    let unit = if frsize == 0 {
        1
    } else {
        frsize
    };
    let total = bounded_product(blocks, unit);
    let free = bounded_product(bfree, unit);
    Usage { total, used: total.saturating_sub(free), avail: bounded_product(bavail, unit) }
}

impl Usage {
    /// The used share as `df` sees it: the used bytes, of those that users could have.
    /// A share of nothing is nothing.
    pub open spec fn share(self) -> (u64, u64) {
        (self.used, self.used.saturating_add(self.avail))
    }

    /// Numerator and denominator of the used share.
    pub fn percent_of(&self) -> (r: (u64, u64))
        ensures
            r == self.share(),
    {
        (self.used, self.used.saturating_add(self.avail))
    }
}

/// No more is used than there is, and the used share is at most the whole.
pub proof fn usage_is_a_share(frsize: u64, blocks: u64, bfree: u64, bavail: u64)
    ensures
        usage_of(frsize, blocks, bfree, bavail).used <= usage_of(frsize, blocks, bfree, bavail).total,
        usage_of(frsize, blocks, bfree, bavail).share().0 <= usage_of(frsize, blocks, bfree, bavail).share().1,
{
}

/// The words of `s`, where `cur` stands in front of it: what is left between white space.
pub open spec fn words_after(s: Seq<char>, cur: Seq<char>) -> Seq<Seq<char>>
    decreases s.len(),
{
    let word = if cur.len() > 0 {
        seq![cur]
    } else {
        seq![]
    };
    if s.len() == 0 {
        word
    } else if white_space(s[0]) {
        word + words_after(s.skip(1), seq![])
    } else {
        words_after(s.skip(1), cur.push(s[0]))
    }
}

/// The words of `s`.
pub open spec fn words_of(s: Seq<char>) -> Seq<Seq<char>> {
    words_after(s, seq![])
}

fn find_words(s: &[char]) -> (r: Vec<Vec<char>>)
    ensures
        views(r@) == words_of(s@),
{
    let mut out: Vec<Vec<char>> = Vec::new();
    let mut cur: Vec<char> = Vec::new();
    let mut i: usize = 0;
    assert(s@.skip(0) =~= s@);
    assert(cur@ =~= seq![]);
    assert(views(out@) + words_of(s@) =~= words_of(s@));
    while i < s.len()
        invariant
            i <= s@.len(),
            views(out@) + words_after(s@.skip(i as int), cur@) == words_of(s@),
        decreases s@.len() - i,
    {
        let ghost before = views(out@);
        let ghost rest = words_after(s@.skip(i as int), cur@);
        assert(s@.skip(i as int).skip(1) =~= s@.skip(i + 1));
        assert(s@.skip(i as int)[0] == s@[i as int]);
        if is_white_space(s[i]) {
            if cur.len() > 0 {
                proof {
                    views_push(out@, cur);
                }
                out.push(cur);
                cur = Vec::new();
            }
            assert(cur@ =~= seq![]);
            assert(views(out@) + words_after(s@.skip(i + 1), cur@) =~= before + rest);
        } else {
            cur.push(s[i]);
        }
        i += 1;
    }
    let ghost before = views(out@);
    let ghost rest = words_after(s@.skip(i as int), cur@);
    if cur.len() > 0 {
        proof {
            views_push(out@, cur);
        }
        out.push(cur);
    }
    assert(views(out@) =~= before + rest);
    out
}

/// Whether `c` is a decimal digit.
pub open spec fn is_digit(c: char) -> bool {
    '0' <= c <= '9'
}

/// The number that the digits `d` spell out.
pub open spec fn digits_value(d: Seq<char>) -> nat
    decreases d.len(),
{
    if d.len() == 0 {
        0
    } else {
        digits_value(d.drop_last()) * 10 + (d.last() as int - 0x30) as nat
    }
}

/// The digits of a number: what stands behind an optional plus sign.
pub open spec fn digits_part(s: Seq<char>) -> Seq<char> {
    if s.len() > 0 && s[0] == '+' {
        s.skip(1)
    } else {
        s
    }
}

/// The number that `s` spells out: digits only, at least one, behind an optional plus sign,
/// and no more than fits.
pub open spec fn number_in(s: Seq<char>) -> Option<u64> {
    let d = digits_part(s);
    if d.len() > 0 && (forall|i: int| 0 <= i < d.len() ==> is_digit(#[trigger] d[i])) && digits_value(d) <= u64::MAX {
        Some(digits_value(d) as u64)
    } else {
        None
    }
}

proof fn value_grows(d: Seq<char>, k: int)
    requires
        0 <= k <= d.len(),
    ensures
        digits_value(d.take(k)) <= digits_value(d),
    decreases d.len() - k,
{
    if k < d.len() {
        assert(d.take(k + 1).drop_last() =~= d.take(k));
        value_grows(d, k + 1);
    } else {
        assert(d.take(k) =~= d);
    }
}

fn parse_number(s: &[char]) -> (r: Option<u64>)
    ensures
        r == number_in(s@),
{
    let first: usize = if s.len() > 0 && s[0] == '+' {
        1
    } else {
        0
    };
    let ghost d = digits_part(s@);
    assert(d =~= s@.skip(first as int));
    if first == s.len() {
        return None;
    }
    let mut v: u64 = 0;
    let mut i = first;
    assert(d.take(0) =~= seq![]);
    while i < s.len()
        invariant
            first <= i <= s@.len(),
            first < s@.len(),
            d == digits_part(s@),
            d == s@.skip(first as int),
            v == digits_value(d.take(i - first)),
            forall|k: int| 0 <= k < i - first ==> is_digit(#[trigger] d[k]),
        decreases s@.len() - i,
    {
        let c = s[i];
        assert(d[i - first] == c);
        if c < '0' || c > '9' {
            assert(!is_digit(d[i - first]));
            return None;
        }
        let digit = c as u64 - 0x30;
        assert(d.take(i - first + 1).drop_last() =~= d.take(i - first));
        proof {
            value_grows(d, i - first + 1);
        }
        if v > u64::MAX / 10 || v * 10 > u64::MAX - digit {
            return None;
        }
        v = v * 10 + digit;
        i += 1;
    }
    assert(d.take(i - first) =~= d);
    Some(v)
}

/// The words of the first of the lines that has any.
pub open spec fn first_words(lines: Seq<Seq<char>>) -> Seq<Seq<char>>
    decreases lines.len(),
{
    if lines.len() == 0 {
        seq![]
    } else if words_of(lines[0]).len() > 0 {
        words_of(lines[0])
    } else {
        first_words(lines.skip(1))
    }
}

/// The usage that the words of a data line give: total, used and available, in blocks of
/// 1024 bytes, behind the name of the filesystem.
pub open spec fn usage_in_words(w: Seq<Seq<char>>) -> Option<Usage> {
    if w.len() < 4 || number_in(w[1]) is None || number_in(w[2]) is None || number_in(w[3]) is None {
        None
    } else {
        let blocks = number_in(w[1])->Some_0;
        Some(usage_of(1024, blocks, blocks.saturating_sub(number_in(w[2])->Some_0), number_in(w[3])->Some_0))
    }
}

/// The usage in the output of `df -P -k`: in the first line behind the heading that is not blank.
pub open spec fn usage_in(text: Seq<char>) -> Option<Usage> {
    usage_in_words(first_words(pieces(text, '\n').skip(1)))
}

fn read_usage(w: &Vec<Vec<char>>) -> (r: Option<Usage>)
    ensures
        r == usage_in_words(views(w@)),
{
    if w.len() < 4 {
        return None;
    }
    let ghost all = views(w@);
    assert(all[1] == w@[1]@ && all[2] == w@[2]@ && all[3] == w@[3]@);
    let blocks = match parse_number(&w[1]) {
        Some(n) => n,
        None => return None,
    };
    let used = match parse_number(&w[2]) {
        Some(n) => n,
        None => return None,
    };
    let avail = match parse_number(&w[3]) {
        Some(n) => n,
        None => return None,
    };
    Some(from_blocks(1024, blocks, blocks.saturating_sub(used), avail))
}

/// Parse the data line of `df -P -k` (frsize is 1024 bytes).
pub fn parse_df(text: &str) -> (r: Option<Usage>)
    ensures
        r == usage_in(text@),
{
    let chars = chars_of(text);
    let lines = split(&chars, '\n');
    let ghost all = views(lines@);
    let mut i: usize = 1;
    while i < lines.len()
        invariant
            1 <= i <= lines@.len(),
            all == views(lines@),
            all == pieces(text@, '\n'),
            first_words(all.skip(i as int)) == first_words(all.skip(1)),
        decreases lines@.len() - i,
    {
        assert(all.skip(i as int).skip(1) =~= all.skip(i + 1));
        assert(all.skip(i as int)[0] == lines@[i as int]@);
        let w = find_words(&lines[i]);
        if w.len() > 0 {
            return read_usage(&w);
        }
        i += 1;
    }
    None
}

/// Usage is counted in bytes: so many blocks of the given size in all, those that are not free in
/// use, and those that users can have available, as long as the bytes can be counted.
pub proof fn blocks_are_counted_in_bytes(frsize: u64, blocks: u64, bfree: u64, bavail: u64)
    requires
        frsize > 0,
        bfree <= blocks,
        blocks * frsize <= u64::MAX,
        bavail * frsize <= u64::MAX,
    ensures
        usage_of(frsize, blocks, bfree, bavail).total == blocks * frsize,
        usage_of(frsize, blocks, bfree, bavail).used == (blocks - bfree) * frsize,
        usage_of(frsize, blocks, bfree, bavail).avail == bavail * frsize,
        (blocks - bfree + bavail) * frsize <= u64::MAX ==> usage_of(frsize, blocks, bfree, bavail).share() == (
            ((blocks - bfree) * frsize) as u64,
            ((blocks - bfree + bavail) * frsize) as u64,
        ),
        usage_of(0, blocks, bfree, bavail) == usage_of(1, blocks, bfree, bavail),
{
    assert((blocks - bfree) * frsize == blocks * frsize - bfree * frsize) by (nonlinear_arith);
    assert(bfree * frsize <= blocks * frsize) by (nonlinear_arith)
        requires
            bfree <= blocks,
    ;
    assert((blocks - bfree + bavail) * frsize == (blocks - bfree) * frsize + bavail * frsize) by (nonlinear_arith);
    assert(0 <= (blocks - bfree) * frsize && 0 <= bavail * frsize) by (nonlinear_arith)
        requires
            bfree <= blocks,
    ;
}

/// More bytes than can be counted are counted as the most that can.
pub proof fn large_usage_is_bounded(frsize: u64, blocks: u64, bfree: u64, bavail: u64)
    requires
        frsize > 0,
    ensures
        blocks * frsize > u64::MAX ==> usage_of(frsize, blocks, bfree, bavail).total == u64::MAX,
        bavail * frsize > u64::MAX ==> usage_of(frsize, blocks, bfree, bavail).avail == u64::MAX,
        bfree * frsize > u64::MAX ==> usage_of(frsize, blocks, bfree, bavail).used == 0,
{
}

proof fn letters_are_gathered(a: Seq<char>, rest: Seq<char>, cur: Seq<char>)
    requires
        forall|i: int| 0 <= i < a.len() ==> !white_space(#[trigger] a[i]),
    ensures
        words_after(a + rest, cur) == words_after(rest, cur + a),
    decreases a.len(),
{
    if a.len() == 0 {
        assert(a + rest =~= rest);
        assert(cur + a =~= cur);
    } else {
        assert(!white_space(a[0]));
        assert((a + rest).skip(1) =~= a.skip(1) + rest);
        assert forall|i: int| 0 <= i < a.skip(1).len() implies !white_space(#[trigger] a.skip(1)[i]) by {
            assert(a.skip(1)[i] == a[i + 1]);
        }
        letters_are_gathered(a.skip(1), rest, cur.push(a[0]));
        assert(cur.push(a[0]) + a.skip(1) =~= cur + a);
    }
}

proof fn blanks_are_skipped(b: Seq<char>, rest: Seq<char>)
    requires
        forall|i: int| 0 <= i < b.len() ==> white_space(#[trigger] b[i]),
    ensures
        words_of(b + rest) == words_of(rest),
    decreases b.len(),
{
    if b.len() == 0 {
        assert(b + rest =~= rest);
    } else {
        assert(white_space(b[0]));
        assert((b + rest).skip(1) =~= b.skip(1) + rest);
        assert forall|i: int| 0 <= i < b.skip(1).len() implies white_space(#[trigger] b.skip(1)[i]) by {
            assert(b.skip(1)[i] == b[i + 1]);
        }
        blanks_are_skipped(b.skip(1), rest);
        assert(Seq::<Seq<char>>::empty() + words_of(b.skip(1) + rest) =~= words_of(b.skip(1) + rest));
    }
}

/// The first word of a text is what stands before its first white space, and the other words are
/// those of what comes behind all of it.
pub proof fn words_stand_between_blanks(a: Seq<char>, b: Seq<char>, rest: Seq<char>)
    requires
        a.len() > 0,
        forall|i: int| 0 <= i < a.len() ==> !white_space(#[trigger] a[i]),
        b.len() > 0,
        forall|i: int| 0 <= i < b.len() ==> white_space(#[trigger] b[i]),
    ensures
        words_of(a + b + rest) == seq![a] + words_of(rest),
        words_of(a) == seq![a],
        words_of(b).len() == 0,
{
    let none = Seq::<char>::empty();
    assert(none + a =~= a);
    assert(a + b + rest =~= a + (b + rest));
    letters_are_gathered(a, b + rest, none);
    assert(white_space(b[0]));
    assert((b + rest).skip(1) =~= b.skip(1) + rest);
    assert forall|i: int| 0 <= i < b.skip(1).len() implies white_space(#[trigger] b.skip(1)[i]) by {
        assert(b.skip(1)[i] == b[i + 1]);
    }
    blanks_are_skipped(b.skip(1), rest);
    assert(a + none =~= a);
    letters_are_gathered(a, none, none);
    assert(b + none =~= b);
    blanks_are_skipped(b, none);
}

/// A number in decimal is read back.
pub proof fn numbers_are_read_back(n: u64)
    ensures
        number_in(decimal_text(n as nat)) == Some(n),
{
    decimal_text_spells(n as nat);
    let t = decimal_text(n as nat);
    assert('0' <= t[0] <= '9');
    digits_spell(t);
}

proof fn digits_spell(t: Seq<char>)
    requires
        forall|i: int| 0 <= i < t.len() ==> '0' <= #[trigger] t[i] <= '9',
    ensures
        digits_value(t) == spelled_number(t),
    decreases t.len(),
{
    if t.len() > 0 {
        assert('0' <= t[t.len() - 1] <= '9');
        assert forall|i: int| 0 <= i < t.drop_last().len() implies '0' <= #[trigger] t.drop_last()[i] <= '9' by {
            assert(t.drop_last()[i] == t[i]);
        }
        digits_spell(t.drop_last());
    }
}

/// Blank lines behind the heading are passed over.
pub proof fn first_line_with_words_counts(lines: Seq<Seq<char>>, i: int)
    requires
        0 <= i < lines.len(),
        words_of(lines[i]).len() > 0,
        forall|k: int| 0 <= k < i ==> words_of(#[trigger] lines[k]).len() == 0,
    ensures
        first_words(lines) == words_of(lines[i]),
    decreases lines.len(),
{
    if i > 0 {
        let rest = lines.skip(1);
        assert(words_of(lines[0]).len() == 0);
        assert forall|k: int| 0 <= k < i - 1 implies words_of(#[trigger] rest[k]).len() == 0 by {
            assert(rest[k] == lines[k + 1]);
        }
        first_line_with_words_counts(rest, i - 1);
    }
}

/// The output of `df` is read back: where the words of the first line behind the heading that has
/// any are a name and, in blocks of 1024 bytes, the total, the used and the available space, the
/// usage is that, in bytes.
pub proof fn df_is_read_back(lines: Seq<Seq<char>>, i: int, name: Seq<char>, total: u64, used: u64, avail: u64, more: Seq<Seq<char>>)
    requires
        1 <= i < lines.len(),
        forall|k: int| 0 <= k < lines.len() ==> !(#[trigger] lines[k]).contains('\n'),
        forall|k: int| 1 <= k < i ==> words_of(#[trigger] lines[k]).len() == 0,
        words_of(lines[i]) == seq![name, decimal_text(total as nat), decimal_text(used as nat), decimal_text(avail as nat)] + more,
        used <= total,
        total * 1024 <= u64::MAX,
        avail * 1024 <= u64::MAX,
    ensures
        usage_in(put_together(lines, '\n')) == Some(
            Usage { total: (total * 1024) as u64, used: (used * 1024) as u64, avail: (avail * 1024) as u64 },
        ),
{
    pieces_are_read_back(lines, '\n');
    let body = lines.skip(1);
    assert(body[i - 1] == lines[i]);
    assert forall|k: int| 0 <= k < i - 1 implies words_of(#[trigger] body[k]).len() == 0 by {
        assert(body[k] == lines[k + 1]);
    }
    first_line_with_words_counts(body, i - 1);
    let w = words_of(lines[i]);
    numbers_are_read_back(total);
    numbers_are_read_back(used);
    numbers_are_read_back(avail);
    assert(w[1] == decimal_text(total as nat) && w[2] == decimal_text(used as nat) && w[3] == decimal_text(avail as nat));
}

/// An output without such a line, or with one of too few words, gives no usage.
pub proof fn short_df_gives_nothing(lines: Seq<Seq<char>>, i: int)
    requires
        1 <= i < lines.len(),
        forall|k: int| 0 <= k < lines.len() ==> !(#[trigger] lines[k]).contains('\n'),
        forall|k: int| 1 <= k < i ==> words_of(#[trigger] lines[k]).len() == 0,
        0 < words_of(lines[i]).len() < 4,
    ensures
        usage_in(put_together(lines, '\n')) is None,
{
    pieces_are_read_back(lines, '\n');
    let body = lines.skip(1);
    assert(body[i - 1] == lines[i]);
    assert forall|k: int| 0 <= k < i - 1 implies words_of(#[trigger] body[k]).len() == 0 by {
        assert(body[k] == lines[k + 1]);
    }
    first_line_with_words_counts(body, i - 1);
}

} // verus!
