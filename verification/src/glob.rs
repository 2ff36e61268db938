//! Choosing files by a pattern.

use crate::text::{ascii_capital, ascii_lower, ascii_small, ascii_text, ascii_upper, chars_of, lowered, string_of, to_lower};
use vstd::prelude::*;

verus! {

/// Whether the pattern `p` matches all of `s`: `*` stands for any text, `?` for any one
/// character, and every other character for itself.
pub open spec fn glob_match(p: Seq<char>, s: Seq<char>) -> bool
    decreases p.len() + s.len(),
{
    if p.len() == 0 {
        s.len() == 0
    } else if p[0] == '*' {
        glob_match(p.skip(1), s) || (s.len() > 0 && glob_match(p, s.skip(1)))
    } else {
        s.len() > 0 && (p[0] == '?' || p[0] == s[0]) && glob_match(p.skip(1), s.skip(1))
    }
}

/// The part of a path behind its last slash.
pub open spec fn file_part(path: Seq<char>) -> Seq<char>
    decreases path.len(),
{
    if path.contains('/') {
        file_part(path.skip(1))
    } else {
        path
    }
}

/// Whether `pattern` matches `path` or its file name, whatever the case of the letters.
pub open spec fn glob_accepts(pattern: Seq<char>, path: Seq<char>) -> bool {
    ||| glob_match(lowered(pattern), lowered(path))
    ||| glob_match(lowered(pattern), lowered(file_part(path)))
}

/// Whether `s` can be parted so that `p` matches the front and `q` the rest.
pub open spec fn glob_parts(p: Seq<char>, q: Seq<char>, s: Seq<char>, k: int) -> bool {
    0 <= k <= s.len() && glob_match(p, s.take(k)) && glob_match(q, s.skip(k))
}

/// A pattern in two parts matches exactly the texts in two parts that they match.
pub proof fn glob_concatenates(p: Seq<char>, q: Seq<char>, s: Seq<char>)
    ensures
        glob_match(p + q, s) <==> exists|k: int| glob_parts(p, q, s, k),
    decreases p.len() + s.len(),
{
    let pq = p + q;
    if p.len() == 0 {
        assert(pq =~= q);
        assert(s.take(0) =~= seq![]);
        assert(s.skip(0) =~= s);
        if glob_match(q, s) {
            assert(glob_parts(p, q, s, 0));
        }
    } else {
        let p1 = p.skip(1);
        assert(pq.skip(1) =~= p1 + q);
        assert(pq[0] == p[0]);
        if p[0] == '*' {
            glob_concatenates(p1, q, s);
            if s.len() > 0 {
                glob_concatenates(p, q, s.skip(1));
            }
            if glob_match(pq, s) {
                if glob_match(p1 + q, s) {
                    let k = choose|k: int| glob_parts(p1, q, s, k);
                    assert(glob_parts(p, q, s, k));
                } else {
                    let k = choose|k: int| glob_parts(p, q, s.skip(1), k);
                    assert(s.take(k + 1).skip(1) =~= s.skip(1).take(k));
                    assert(s.skip(1).skip(k) =~= s.skip(k + 1));
                    assert(glob_parts(p, q, s, k + 1));
                }
            }
            if exists|k: int| glob_parts(p, q, s, k) {
                let k = choose|k: int| glob_parts(p, q, s, k);
                if glob_match(p1, s.take(k)) {
                    assert(glob_parts(p1, q, s, k));
                } else {
                    assert(s.take(k).skip(1) =~= s.skip(1).take(k - 1));
                    assert(s.skip(1).skip(k - 1) =~= s.skip(k));
                    assert(glob_parts(p, q, s.skip(1), k - 1));
                }
            }
        } else {
            if s.len() > 0 {
                glob_concatenates(p1, q, s.skip(1));
            }
            if glob_match(pq, s) {
                let k = choose|k: int| glob_parts(p1, q, s.skip(1), k);
                assert(s.take(k + 1).skip(1) =~= s.skip(1).take(k));
                assert(s.skip(1).skip(k) =~= s.skip(k + 1));
                assert(s.take(k + 1)[0] == s[0]);
                assert(glob_parts(p, q, s, k + 1));
            }
            if exists|k: int| glob_parts(p, q, s, k) {
                let k = choose|k: int| glob_parts(p, q, s, k);
                assert(s.take(k)[0] == s[0]);
                assert(s.take(k).skip(1) =~= s.skip(1).take(k - 1));
                assert(s.skip(1).skip(k - 1) =~= s.skip(k));
                assert(glob_parts(p1, q, s.skip(1), k - 1));
            }
        }
    }
}

/// `*` matches any text.
pub proof fn star_matches_all(s: Seq<char>)
    ensures
        glob_match(seq!['*'], s),
    decreases s.len(),
{
    reveal_with_fuel(glob_match, 2);
    assert(seq!['*'].skip(1) =~= seq![]);
    if s.len() > 0 {
        star_matches_all(s.skip(1));
    }
}

/// A pattern without wildcards matches itself, and nothing else.
pub proof fn plain_pattern_matches_itself(p: Seq<char>, s: Seq<char>)
    requires
        !p.contains('*'),
        !p.contains('?'),
    ensures
        glob_match(p, s) <==> p == s,
    decreases p.len(),
{
    if p.len() > 0 {
        assert(p.contains(p[0]));
        assert(!p.skip(1).contains('*')) by {
            if p.skip(1).contains('*') {
                let i = choose|i: int| 0 <= i < p.len() - 1 && p.skip(1)[i] == '*';
                assert(p[i + 1] == '*');
            }
        }
        assert(!p.skip(1).contains('?')) by {
            if p.skip(1).contains('?') {
                let i = choose|i: int| 0 <= i < p.len() - 1 && p.skip(1)[i] == '?';
                assert(p[i + 1] == '?');
            }
        }
        if s.len() > 0 {
            plain_pattern_matches_itself(p.skip(1), s.skip(1));
            if p.skip(1) == s.skip(1) && p[0] == s[0] {
                assert(p =~= seq![p[0]] + p.skip(1));
                assert(s =~= seq![s[0]] + s.skip(1));
            }
        }
    } else if s.len() == 0 {
        assert(p =~= s);
    }
}

/// `*` in front of plain text, as in `*.xlsx`, matches exactly the texts that end with it.
pub proof fn star_matches_endings(tail: Seq<char>, s: Seq<char>)
    requires
        !tail.contains('*'),
        !tail.contains('?'),
    ensures
        glob_match(seq!['*'] + tail, s) <==> tail.len() <= s.len() && s.skip(s.len() - tail.len()) == tail,
{
    glob_concatenates(seq!['*'], tail, s);
    if glob_match(seq!['*'] + tail, s) {
        let k = choose|k: int| glob_parts(seq!['*'], tail, s, k);
        plain_pattern_matches_itself(tail, s.skip(k));
    }
    if tail.len() <= s.len() && s.skip(s.len() - tail.len()) == tail {
        let k = s.len() - tail.len();
        star_matches_all(s.take(k));
        plain_pattern_matches_itself(tail, s.skip(k));
        assert(glob_parts(seq!['*'], tail, s, k));
    }
}

/// `?` matches exactly the texts of one character.
pub proof fn question_mark_matches_one(s: Seq<char>)
    ensures
        glob_match(seq!['?'], s) <==> s.len() == 1,
{
    reveal_with_fuel(glob_match, 2);
    assert(seq!['?'].skip(1) =~= seq![]);
}

proof fn part_of_ascii_is_ascii(s: Seq<char>)
    requires
        ascii_text(s),
    ensures
        ascii_text(file_part(s)),
    decreases s.len(),
{
    if s.contains('/') {
        assert forall|i: int| 0 <= i < s.len() - 1 implies (#[trigger] s.skip(1)[i] as u32) < 128 by {
            assert(s.skip(1)[i] == s[i + 1]);
        }
        part_of_ascii_is_ascii(s.skip(1));
    }
}

proof fn same_slashes(s: Seq<char>, t: Seq<char>)
    requires
        ascii_lower(s) == ascii_lower(t),
    ensures
        s.len() == t.len(),
        s.contains('/') == t.contains('/'),
{
    assert(ascii_lower(s).len() == s.len() && ascii_lower(t).len() == t.len());
    assert forall|i: int| 0 <= i < s.len() implies (s[i] == '/') == (#[trigger] t[i] == '/') by {
        assert(ascii_lower(s)[i] == ascii_small(s[i]));
        assert(ascii_lower(t)[i] == ascii_small(t[i]));
    }
    if s.contains('/') {
        let i = choose|i: int| 0 <= i < s.len() && s[i] == '/';
        assert(t[i] == '/');
    }
    if t.contains('/') {
        let i = choose|i: int| 0 <= i < t.len() && t[i] == '/';
        assert(s[i] == '/');
    }
}

proof fn file_parts_differ_in_case(s: Seq<char>, t: Seq<char>)
    requires
        ascii_lower(s) == ascii_lower(t),
    ensures
        ascii_lower(file_part(s)) == ascii_lower(file_part(t)),
    decreases s.len(),
{
    same_slashes(s, t);
    if s.contains('/') {
        assert(ascii_lower(s.skip(1)) =~= ascii_lower(s).skip(1));
        assert(ascii_lower(t.skip(1)) =~= ascii_lower(t).skip(1));
        file_parts_differ_in_case(s.skip(1), t.skip(1));
    }
}

/// ASCII patterns, and ASCII paths, that differ in the case of their letters only are treated
/// alike.
pub proof fn case_does_not_matter(p: Seq<char>, q: Seq<char>, s: Seq<char>, t: Seq<char>)
    requires
        ascii_text(p),
        ascii_text(q),
        ascii_text(s),
        ascii_text(t),
        ascii_lower(p) == ascii_lower(q),
        ascii_lower(s) == ascii_lower(t),
    ensures
        glob_accepts(p, s) == glob_accepts(q, t),
{
    part_of_ascii_is_ascii(s);
    part_of_ascii_is_ascii(t);
    file_parts_differ_in_case(s, t);
}

/// An ASCII pattern accepts an ASCII path exactly if it does when both are written in capitals.
pub proof fn capitals_do_not_matter(p: Seq<char>, s: Seq<char>)
    requires
        ascii_text(p),
        ascii_text(s),
    ensures
        glob_accepts(p, s) == glob_accepts(ascii_upper(p), ascii_upper(s)),
{
    capitals_are_ascii(p);
    capitals_are_ascii(s);
    case_does_not_matter(p, ascii_upper(p), s, ascii_upper(s));
}

proof fn capitals_are_ascii(s: Seq<char>)
    requires
        ascii_text(s),
    ensures
        ascii_text(ascii_upper(s)),
        ascii_lower(ascii_upper(s)) == ascii_lower(s),
{
    assert forall|i: int| 0 <= i < s.len() implies (#[trigger] ascii_upper(s)[i] as u32) < 128 by {
        assert(ascii_upper(s)[i] == ascii_capital(s[i]));
        assert((s[i] as u32) < 128);
    }
    assert forall|i: int| 0 <= i < s.len() implies #[trigger] ascii_lower(ascii_upper(s))[i] == ascii_lower(s)[i] by {
        assert(ascii_upper(s)[i] == ascii_capital(s[i]));
        assert(ascii_lower(s)[i] == ascii_small(s[i]));
    }
    assert(ascii_lower(ascii_upper(s)) =~= ascii_lower(s));
}

/// The pattern `*` accepts every path.
pub proof fn star_accepts_all(path: Seq<char>)
    ensures
        glob_accepts(seq!['*'], path),
{
    assert(ascii_lower(seq!['*']) =~= seq!['*']);
    star_matches_all(lowered(path));
}

/// A pattern that accepts a file name accepts the file in whatever folder.
pub proof fn folders_do_not_matter(p: Seq<char>, folder: Seq<char>, name: Seq<char>)
    requires
        !name.contains('/'),
        glob_accepts(p, name),
    ensures
        glob_accepts(p, folder + seq!['/'] + name),
{
    let path = folder + seq!['/'] + name;
    let i = (folder.len() + 1) as int;
    assert(path.skip(i) =~= name);
    assert(path[i - 1] == '/');
    file_part_is_behind_the_last_slash(path, i);
}

/// An ASCII pattern without wildcards accepts an ASCII path exactly if it is that path, or its
/// file name, whatever the case of the letters.
pub proof fn plain_pattern_accepts_itself(p: Seq<char>, s: Seq<char>)
    requires
        ascii_text(p),
        ascii_text(s),
        !p.contains('*'),
        !p.contains('?'),
    ensures
        glob_accepts(p, s) <==> ascii_lower(p) == ascii_lower(s) || ascii_lower(p) == ascii_lower(file_part(s)),
{
    part_of_ascii_is_ascii(s);
    let l = ascii_lower(p);
    assert(!l.contains('*')) by {
        if l.contains('*') {
            let i = choose|i: int| 0 <= i < l.len() && l[i] == '*';
            assert(ascii_small(p[i]) == '*');
            assert(p[i] == '*');
        }
    }
    assert(!l.contains('?')) by {
        if l.contains('?') {
            let i = choose|i: int| 0 <= i < l.len() && l[i] == '?';
            assert(ascii_small(p[i]) == '?');
            assert(p[i] == '?');
        }
    }
    plain_pattern_matches_itself(l, ascii_lower(s));
    plain_pattern_matches_itself(l, ascii_lower(file_part(s)));
}

fn matches_from(p: &[char], i: usize, s: &[char], j: usize) -> (r: bool)
    requires
        i <= p@.len(),
        j <= s@.len(),
        p@.len() == p.len(),
        s@.len() == s.len(),
    ensures
        r == glob_match(p@.skip(i as int), s@.skip(j as int)),
    decreases p@.len() - i + s@.len() - j,
{
    if i == p.len() {
        return j == s.len();
    }
    assert(p@.skip(i as int).skip(1) =~= p@.skip(i + 1));
    if j < s.len() {
        assert(s@.skip(j as int).skip(1) =~= s@.skip(j + 1));
    }
    if p[i] == '*' {
        matches_from(p, i + 1, s, j) || (j < s.len() && matches_from(p, i, s, j + 1))
    } else {
        j < s.len() && (p[i] == '?' || p[i] == s[j]) && matches_from(p, i + 1, s, j + 1)
    }
}

/// Whether the pattern `p` matches all of `s`, letter for letter.
pub fn matches_text(p: &str, s: &str) -> (r: bool)
    ensures
        r == glob_match(p@, s@),
{
    let pc = chars_of(p);
    let sc = chars_of(s);
    assert(pc@.skip(0) =~= pc@);
    assert(sc@.skip(0) =~= sc@);
    matches_from(&pc, 0, &sc, 0)
}

proof fn file_part_is_behind_the_last_slash(path: Seq<char>, i: int)
    requires
        0 <= i <= path.len(),
        i == 0 || path[i - 1] == '/',
        !path.skip(i).contains('/'),
    ensures
        file_part(path) == path.skip(i),
    decreases path.len(),
{
    if i == 0 {
        assert(path.skip(0) =~= path);
    } else {
        assert(path.contains(path[i - 1]));
        let rest = path.skip(1);
        assert(rest.skip(i - 1) =~= path.skip(i));
        assert(i >= 2 ==> rest[i - 2] == path[i - 1]);
        file_part_is_behind_the_last_slash(rest, i - 1);
    }
}

/// The part of a path behind its last slash.
pub fn file_name_of(path: &str) -> (r: String)
    ensures
        r@ == file_part(path@),
{
    let c = chars_of(path);
    let mut i = c.len();
    assert(c@.skip(i as int) =~= seq![]);
    while i > 0 && c[i - 1] != '/'
        invariant
            i <= c@.len(),
            !c@.skip(i as int).contains('/'),
        decreases i,
    {
        i -= 1;
        assert(!c@.skip(i as int).contains('/')) by {
            if c@.skip(i as int).contains('/') {
                let k = choose|k: int| 0 <= k < c@.len() - i && c@.skip(i as int)[k] == '/';
                assert(c@.skip(i + 1)[k - 1] == '/');
            }
        }
    }
    proof {
        file_part_is_behind_the_last_slash(c@, i as int);
    }
    let name = vstd::slice::slice_subrange(c.as_slice(), i, c.len());
    assert(name@ =~= c@.skip(i as int));
    string_of(name)
}

/// Case-insensitive glob with `*` and `?`, matched against the whole path
/// and against the file name.
pub fn glob(pattern: &str, path: &str) -> (r: bool)
    ensures
        r == glob_accepts(pattern@, path@),
{
    let p = to_lower(pattern);
    let full = to_lower(path);
    let name = to_lower(file_name_of(path).as_str());
    matches_text(p.as_str(), full.as_str()) || matches_text(p.as_str(), name.as_str())
}

/// A pattern accepts a file exactly if it matches its whole path or its name alone; a file without
/// a folder has only its name.
pub proof fn path_or_name_is_matched(p: Seq<char>, folder: Seq<char>, name: Seq<char>)
    requires
        !name.contains('/'),
    ensures
        glob_accepts(p, folder + seq!['/'] + name) <==> glob_match(lowered(p), lowered(folder + seq!['/'] + name)) || glob_match(
            lowered(p),
            lowered(name),
        ),
        glob_accepts(p, name) <==> glob_match(lowered(p), lowered(name)),
{
    let path = folder + seq!['/'] + name;
    let i = (folder.len() + 1) as int;
    assert(path.skip(i) =~= name);
    assert(path[i - 1] == '/');
    file_part_is_behind_the_last_slash(path, i);
}

} // verus!
