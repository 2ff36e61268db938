//! Getting deleted files back: their bytes, and where they are written.

use crate::bytes::{first_bytes, zero_bytes, zeros};
use crate::model::{views, views_push, Data, DataView, Deleted, DeletedView};
use crate::source::{bytes_or_message, holds, read, Error, Source};
use crate::text::{
    chars_of, decimal, decimal_text, decimal_text_is_injective, has_prefix, joined, pieces, pieces_are_read_back,
    pieces_hold_no_separator, put_together, same_text, split, starts_with, string_of,
};
use vstd::prelude::*;

verus! {

/// The bytes of one extent, as far as the source goes; a sparse one holds zeros.
pub open spec fn extent_bytes<S: Source + ?Sized>(src: &S, e: (Option<u64>, u64)) -> Result<Seq<u8>, Seq<char>> {
    match e.0 {
        Some(o) => {
            let room = src.size().saturating_sub(o);
            src.at(
                o,
                ((if e.1 < room {
                    e.1
                } else {
                    room
                }) as usize) as nat,
            )
        },
        None => Ok(zeros((e.1 as usize) as nat)),
    }
}

/// The bytes of the extents, one after the other, or the first error.
pub open spec fn extents_bytes<S: Source + ?Sized>(src: &S, ext: Seq<(Option<u64>, u64)>) -> Result<Seq<u8>, Seq<char>>
    decreases ext.len(),
{
    if ext.len() == 0 {
        Ok(seq![])
    } else {
        match extents_bytes(src, ext.drop_last()) {
            Err(e) => Err(e),
            Ok(before) => match extent_bytes(src, ext.last()) {
                Err(e) => Err(e),
                Ok(b) => Ok(before + b),
            },
        }
    }
}

/// The bytes of a deleted file, no more than its size.
pub open spec fn contents_of<S: Source + ?Sized>(src: &S, data: DataView, size: u64) -> Result<Seq<u8>, Seq<char>> {
    match data {
        DataView::Resident(b) => Ok(b),
        DataView::Extents(ext) => match extents_bytes(src, ext) {
            Err(e) => Err(e),
            Ok(b) => Ok(first_bytes(b, (size as usize) as nat)),
        },
    }
}

proof fn first_error_stays<S: Source + ?Sized>(src: &S, ext: Seq<(Option<u64>, u64)>, k: int)
    requires
        0 <= k <= ext.len(),
        extents_bytes(src, ext.take(k)) is Err,
    ensures
        extents_bytes(src, ext) == extents_bytes(src, ext.take(k)),
    decreases ext.len() - k,
{
    if k < ext.len() {
        assert(ext.take(k + 1).drop_last() =~= ext.take(k));
        first_error_stays(src, ext, k + 1);
    } else {
        assert(ext.take(k) =~= ext);
    }
}

/// The bytes of a deleted file.
pub fn contents<S: Source + ?Sized>(src: &S, f: &Deleted) -> (r: Result<Vec<u8>, Error>)
    ensures
        bytes_or_message(r) == contents_of(src, f.data@, f.size),
{
    match &f.data {
        Data::Resident(b) => {
            let copy = b.clone();
            assert(copy@ =~= b@);
            Ok(copy)
        },
        Data::Extents(ext) => {
            let mut out: Vec<u8> = Vec::new();
            let mut i: usize = 0;
            assert(ext@.take(0) =~= seq![]);
            while i < ext.len()
                invariant
                    i <= ext@.len(),
                    f.data@ == DataView::Extents(ext@),
                    extents_bytes(src, ext@.take(i as int)) == Ok::<Seq<u8>, Seq<char>>(out@),
                decreases ext@.len() - i,
            {
                assert(ext@.take(i + 1).drop_last() =~= ext@.take(i as int));
                let (off, len) = ext[i];
                match off {
                    Some(o) => {
                        let room = src.len().saturating_sub(o);
                        let n = if len < room {
                            len
                        } else {
                            room
                        };
                        match read(src, o, n as usize) {
                            Ok(mut b) => {
                                out.append(&mut b);
                            },
                            Err(e) => {
                                proof {
                                    first_error_stays(src, ext@, i + 1);
                                }
                                return Err(e);
                            },
                        }
                    },
                    None => {
                        let mut b = zero_bytes(len as usize);
                        out.append(&mut b);
                    },
                }
                i += 1;
            }
            assert(ext@.take(i as int) =~= ext@);
            let ghost all = out@;
            if (f.size as usize) < out.len() {
                out.truncate(f.size as usize);
            }
            assert(out@ =~= first_bytes(all, (f.size as usize) as nat));
            Ok(out)
        },
    }
}

/// A file that stands in its record is recovered whole, whatever the source holds; one in
/// extents never comes out longer than its size.
pub proof fn contents_fit<S: Source + ?Sized>(src: &S, data: DataView, size: u64)
    ensures
        data matches DataView::Resident(b) ==> contents_of(src, data, size) == Ok::<Seq<u8>, Seq<char>>(b),
        data is Extents ==> (contents_of(src, data, size) matches Ok(b) ==> b.len() <= size as usize),
{
}

/// The bytes of `disk` in the extents, one after the other.
pub open spec fn bytes_at(disk: Seq<u8>, ext: Seq<(Option<u64>, u64)>) -> Seq<u8>
    decreases ext.len(),
{
    if ext.len() == 0 {
        seq![]
    } else {
        bytes_at(disk, ext.drop_last()) + match ext.last().0 {
            Some(o) => disk.subrange(o as int, o + ext.last().1),
            None => zeros(ext.last().1 as nat),
        }
    }
}

/// Whether an extent lies inside a disk of `len` bytes, and is no longer than a buffer can be.
pub open spec fn extent_inside(e: (Option<u64>, u64), len: nat) -> bool {
    &&& e.1 <= usize::MAX
    &&& e.0 matches Some(o) ==> o + e.1 <= len
}

/// Reading back what was written: on a source that holds the bytes `disk`, a file whose extents
/// lie inside them has the bytes that stand there as its contents, cut to its size.
pub proof fn contents_are_what_stands_there<S: Source + ?Sized>(
    src: &S,
    disk: Seq<u8>,
    ext: Seq<(Option<u64>, u64)>,
    size: u64,
)
    requires
        holds(src, disk),
        disk.len() <= src.size(),
        forall|i: int| 0 <= i < ext.len() ==> extent_inside(#[trigger] ext[i], disk.len()),
    ensures
        extents_bytes(src, ext) == Ok::<Seq<u8>, Seq<char>>(bytes_at(disk, ext)),
        contents_of(src, DataView::Extents(ext), size) == Ok::<Seq<u8>, Seq<char>>(
            first_bytes(bytes_at(disk, ext), (size as usize) as nat),
        ),
    decreases ext.len(),
{
    if ext.len() > 0 {
        let init = ext.drop_last();
        assert forall|i: int| 0 <= i < init.len() implies extent_inside(#[trigger] init[i], disk.len()) by {
            assert(init[i] == ext[i]);
        }
        contents_are_what_stands_there(src, disk, init, size);
        let e = ext.last();
        assert(e == ext[ext.len() - 1]);
        if let Some(o) = e.0 {
            assert(src.at(o, e.1 as nat) == Ok::<Seq<u8>, Seq<char>>(disk.subrange(o as int, o + e.1)));
        }
    }
}

/// The bytes of extents one after the other are those of both.
pub proof fn bytes_at_adds(disk: Seq<u8>, a: Seq<(Option<u64>, u64)>, b: Seq<(Option<u64>, u64)>)
    ensures
        bytes_at(disk, a + b) == bytes_at(disk, a) + bytes_at(disk, b),
    decreases b.len(),
{
    if b.len() == 0 {
        assert(a + b =~= a);
        assert(bytes_at(disk, a) + bytes_at(disk, b) =~= bytes_at(disk, a));
    } else {
        assert((a + b).drop_last() =~= a + b.drop_last());
        bytes_at_adds(disk, a, b.drop_last());
        assert(bytes_at(disk, a + b) =~= bytes_at(disk, a) + bytes_at(disk, b));
    }
}

/// Whether a path component is kept: not an empty one, and none that leads elsewhere.
pub open spec fn kept(c: Seq<char>) -> bool {
    c.len() > 0 && c != "."@ && c != ".."@
}

/// `c`, with an underscore for what no file name should hold.
pub open spec fn safe_char(c: char) -> char {
    if c == '\0' || c == '\\' {
        '_'
    } else {
        c
    }
}

/// A path component with safe characters only.
pub open spec fn safe_component(c: Seq<char>) -> Seq<char> {
    c.map_values(|x: char| safe_char(x))
}

/// The safe components among the pieces of a path.
pub open spec fn safe_components(ps: Seq<Seq<char>>) -> Seq<Seq<char>>
    decreases ps.len(),
{
    if ps.len() == 0 {
        seq![]
    } else {
        let before = safe_components(ps.drop_last());
        if kept(ps.last()) {
            before.push(safe_component(ps.last()))
        } else {
            before
        }
    }
}

/// The components of the path `rel` as they are written below the output directory.
pub open spec fn clean_path(rel: Seq<char>) -> Seq<Seq<char>> {
    safe_components(pieces(rel, '/'))
}

/// Whether `c` names a file or folder right inside a directory.
pub open spec fn stays_inside(c: Seq<char>) -> bool {
    kept(c) && !c.contains('/') && !c.contains('\\') && !c.contains('\0')
}

#[verifier::spinoff_prover]
#[verifier::rlimit(40)]
proof fn safe_components_stay_inside(ps: Seq<Seq<char>>)
    requires
        forall|i: int| 0 <= i < ps.len() ==> !(#[trigger] ps[i]).contains('/'),
    ensures
        forall|i: int| 0 <= i < safe_components(ps).len() ==> stays_inside(#[trigger] safe_components(ps)[i]),
    decreases ps.len(),
{
    if ps.len() > 0 {
        let init = ps.drop_last();
        assert forall|i: int| 0 <= i < init.len() implies !(#[trigger] init[i]).contains('/') by {
            assert(init[i] == ps[i]);
        }
        safe_components_stay_inside(init);
        let c = ps.last();
        if kept(c) {
            let s = safe_component(c);
            assert(ps[ps.len() - 1] == c);
            reveal_strlit(".");
            reveal_strlit("..");
            assert(!s.contains('/')) by {
                if s.contains('/') {
                    let i = choose|i: int| 0 <= i < s.len() && s[i] == '/';
                    assert(c[i] == '/');
                }
            }
            if s == "."@ {
                assert(s[0] == '.');
                assert(c =~= "."@);
            }
            if s == ".."@ {
                assert(s[0] == '.' && s[1] == '.');
                assert(c =~= ".."@);
            }
            assert(stays_inside(s));
            assert forall|i: int| 0 <= i < safe_components(ps).len() implies stays_inside(
                #[trigger] safe_components(ps)[i],
            ) by {
                if i < safe_components(init).len() {
                    assert(safe_components(ps)[i] == safe_components(init)[i]);
                }
            }
        }
    }
}

/// Whatever path a disk gives a file, its components lead nowhere but down from the output
/// directory.
pub proof fn clean_path_stays_inside(rel: Seq<char>)
    ensures
        forall|i: int| 0 <= i < clean_path(rel).len() ==> stays_inside(#[trigger] clean_path(rel)[i]),
{
    pieces_hold_no_separator(rel, '/', seq![]);
    safe_components_stay_inside(pieces(rel, '/'));
}

/// The components of the path `rel` as they are written below the output directory: empty
/// ones, `.` and `..` are left out, and NUL and backslash are replaced.
pub fn clean_components(rel: &str) -> (r: Vec<String>)
    ensures
        views(r@) == clean_path(rel@),
{
    let chars = chars_of(rel);
    let parts = split(&chars, '/');
    let ghost all = views(parts@);
    let mut out: Vec<String> = Vec::new();
    assert(views(out@) =~= seq![]);
    let mut i: usize = 0;
    while i < parts.len()
        invariant
            i <= parts@.len(),
            all == views(parts@),
            views(out@) == safe_components(all.take(i as int)),
        decreases parts@.len() - i,
    {
        assert(all.take(i + 1).drop_last() =~= all.take(i as int));
        let c = &parts[i];
        assert(all.take(i + 1).last() == c@);
        let text = string_of(c);
        if c.len() > 0 && !same_text(text.as_str(), ".") && !same_text(text.as_str(), "..") {
            let safe = make_safe(c);
            proof {
                views_push(out@, safe);
            }
            out.push(safe);
        }
        i += 1;
    }
    assert(all.take(i as int) =~= all);
    out
}

/// The components of the path below the output directory to which `rel` is written: its own
/// ones, or one made-up name where none is left.
pub open spec fn output_path(rel: Seq<char>) -> Seq<Seq<char>> {
    if clean_path(rel).len() > 0 {
        clean_path(rel)
    } else {
        seq!["unnamed"@]
    }
}

/// Whatever path a disk gives a file, it is written strictly below the output directory: there
/// is at least one component, and each leads down.
pub proof fn output_path_stays_inside(rel: Seq<char>)
    ensures
        output_path(rel).len() > 0,
        forall|i: int| 0 <= i < output_path(rel).len() ==> stays_inside(#[trigger] output_path(rel)[i]),
{
    clean_path_stays_inside(rel);
    reveal_strlit(".");
    reveal_strlit("..");
    reveal_strlit("unnamed");
    assert(stays_inside("unnamed"@));
}

/// The components of the path below the output directory to which `rel` is written.
pub fn output_components(rel: &str) -> (r: Vec<String>)
    ensures
        views(r@) == output_path(rel@),
        r@.len() > 0,
        forall|i: int| 0 <= i < r@.len() ==> stays_inside(#[trigger] r@[i]@),
{
    let mut out = clean_components(rel);
    assert(views(out@).len() == out@.len());
    if out.len() == 0 {
        let name = "unnamed".to_owned();
        proof {
            views_push(out@, name);
        }
        out.push(name);
        assert(views(out@) =~= seq!["unnamed"@]);
    }
    proof {
        output_path_stays_inside(rel@);
    }
    assert forall|i: int| 0 <= i < out@.len() implies stays_inside(#[trigger] out@[i]@) by {
        assert(views(out@)[i] == out@[i]@);
    }
    out
}

fn make_safe(c: &[char]) -> (r: String)
    ensures
        r@ == safe_component(c@),
{
    let mut out: Vec<char> = Vec::new();
    let mut i: usize = 0;
    while i < c.len()
        invariant
            i <= c@.len(),
            out@.len() == i,
            forall|k: int| 0 <= k < i ==> #[trigger] out@[k] == safe_char(c@[k]),
        decreases c@.len() - i,
    {
        let x = c[i];
        out.push(
            if x == '\0' || x == '\\' {
                '_'
            } else {
                x
            },
        );
        i += 1;
    }
    assert(out@ =~= safe_component(c@));
    string_of(&out)
}

/// Where the extension of a file name starts: at its last dot, unless there is none or
/// nothing stands before it.
pub open spec fn extension_start(name: Seq<char>) -> int {
    if last_dot(name) > 0 {
        last_dot(name)
    } else {
        name.len() as int
    }
}

/// The place of the last dot; -1 where there is none.
pub open spec fn last_dot(name: Seq<char>) -> int
    decreases name.len(),
{
    if name.len() == 0 {
        -1
    } else if name.last() == '.' {
        name.len() - 1
    } else {
        last_dot(name.drop_last())
    }
}

/// The file name `name` with a number in front of its extension: the `n`-th way out where
/// `name` is taken.
pub open spec fn numbered(name: Seq<char>, n: nat) -> Seq<char> {
    let p = extension_start(name);
    name.take(p) + " ("@ + decimal_text(n) + ")"@ + name.skip(p)
}

proof fn last_dot_is_inside(name: Seq<char>)
    ensures
        -1 <= last_dot(name) < name.len(),
    decreases name.len(),
{
    if name.len() > 0 {
        last_dot_is_inside(name.drop_last());
    }
}

/// Two numbers give two different file names.
pub proof fn numbered_names_differ(name: Seq<char>, a: nat, b: nat)
    requires
        a != b,
    ensures
        numbered(name, a) != numbered(name, b),
{
    last_dot_is_inside(name);
    let p = extension_start(name);
    let x = numbered(name, a);
    let y = numbered(name, b);
    let da = decimal_text(a);
    let db = decimal_text(b);
    let lead = name.take(p) + " ("@;
    let tail = ")"@ + name.skip(p);
    if x == y {
        assert(x =~= lead + da + tail);
        assert(y =~= lead + db + tail);
        assert(da.len() == db.len());
        assert(da =~= x.subrange(lead.len() as int, (lead.len() + da.len()) as int));
        assert(db =~= y.subrange(lead.len() as int, (lead.len() + db.len()) as int));
        decimal_text_is_injective(a, b);
    }
}

proof fn decimal_digits(n: nat)
    ensures
        forall|i: int| 0 <= i < decimal_text(n).len() ==> '0' <= #[trigger] decimal_text(n)[i] <= '9',
    decreases n,
{
    if n >= 10 {
        decimal_digits(n / 10);
        let before = decimal_text(n / 10);
        assert forall|i: int| 0 <= i < decimal_text(n).len() implies '0' <= #[trigger] decimal_text(n)[i] <= '9' by {
            if i < before.len() {
                assert(decimal_text(n)[i] == before[i]);
            }
        }
    }
}

/// A number leads nowhere else: where a name stays inside its directory, so do the names to
/// try where it is taken.
pub proof fn numbered_stays_inside(name: Seq<char>, n: nat)
    requires
        stays_inside(name),
    ensures
        stays_inside(numbered(name, n)),
{
    last_dot_is_inside(name);
    decimal_digits(n);
    reveal_strlit(".");
    reveal_strlit("..");
    reveal_strlit(" (");
    reveal_strlit(")");
    let p = extension_start(name);
    let d = decimal_text(n);
    let r = numbered(name, n);
    assert(r[p] == ' ');
    assert forall|i: int| 0 <= i < r.len() implies {
        let c = #[trigger] r[i];
        c != '/' && c != '\\' && c != '\0'
    } by {
        if i < p {
            assert(r[i] == name[i]);
        } else if p + 2 <= i < p + 2 + d.len() {
            assert(r[i] == d[i - p - 2]);
        } else if i >= p + 3 + d.len() {
            assert(r[i] == name[i - 3 - d.len()]);
        }
    }
    assert(r.len() >= 3);
    assert(kept(r));
    assert(!r.contains('/') && !r.contains('\\') && !r.contains('\0'));
}

fn find_last_dot(name: &[char]) -> (r: Option<usize>)
    ensures
        match r {
            Some(i) => i == last_dot(name@) && i < name@.len(),
            None => last_dot(name@) == -1,
        },
{
    let mut i = name.len();
    assert(name@.take(i as int) =~= name@);
    while i > 0
        invariant
            i <= name@.len(),
            last_dot(name@.take(i as int)) == last_dot(name@),
        decreases i,
    {
        assert(name@.take(i as int).drop_last() =~= name@.take(i - 1));
        i -= 1;
        if name[i] == '.' {
            return Some(i);
        }
    }
    None
}

/// The `n`-th file name to try where `name` is taken, e.g. `report (1).xlsx`.
pub fn numbered_name(name: &str, n: u64) -> (r: String)
    ensures
        r@ == numbered(name@, n as nat),
{
    let chars = chars_of(name);
    let mut p = chars.len();
    if let Some(i) = find_last_dot(&chars) {
        if i > 0 {
            p = i;
        }
    }
    let stem = vstd::slice::slice_subrange(chars.as_slice(), 0, p);
    let ext = vstd::slice::slice_subrange(chars.as_slice(), p, chars.len());
    assert(stem@ =~= name@.take(p as int));
    assert(ext@ =~= name@.skip(p as int));
    let mut r = string_of(stem);
    r.append(" (");
    r.append(decimal(n).as_str());
    r.append(")");
    r.append(string_of(ext).as_str());
    r
}

/// The folder of the files of a volume: the first two words of its title.
pub open spec fn volume_folder(volume: Seq<char>) -> Seq<char> {
    let words = pieces(volume, ' ');
    if words.len() < 2 {
        words[0]
    } else {
        words[0] + "-"@ + words[1]
    }
}

/// The path below the output directory to which a deleted file is written: a folder for
/// its volume, unless the volume is the whole device, and its own path.
pub open spec fn recovery_path_of(volume: Seq<char>, path: Seq<char>) -> Seq<char> {
    if has_prefix(volume, "whole device"@) {
        path
    } else {
        volume_folder(volume) + "/"@ + path
    }
}

/// The path below the output directory to which `f` is written.
pub fn recovery_path(f: &Deleted) -> (r: String)
    ensures
        r@ == recovery_path_of(f.volume@, f.path@),
{
    if starts_with(f.volume.as_str(), "whole device") {
        return f.path.as_str().to_owned();
    }
    let chars = chars_of(f.volume.as_str());
    let words = split(&chars, ' ');
    let ghost all = views(words@);
    assert(all[0] == words@[0]@);
    let mut r = string_of(&words[0]);
    if words.len() >= 2 {
        assert(all[1] == words@[1]@);
        r.append("-");
        r.append(string_of(&words[1]).as_str());
    }
    r.append("/");
    r.append(f.path.as_str());
    r
}

/// What is to be written for a deleted file: the path below the output directory and the
/// bytes, or why there are none.
pub open spec fn recovery_of<S: Source + ?Sized>(src: &S, f: DeletedView) -> Result<(Seq<char>, Seq<u8>), Seq<char>> {
    match contents_of(src, f.data, f.size) {
        Ok(b) => Ok((recovery_path_of(f.volume, f.path), b)),
        Err(e) => Err(f.path + ": "@ + e),
    }
}

/// What is to be written for the deleted file `f`.
pub fn recovery<S: Source + ?Sized>(src: &S, f: &Deleted) -> (r: Result<(String, Vec<u8>), String>)
    ensures
        match r {
            Ok((path, b)) => recovery_of(src, f@) == Ok::<(Seq<char>, Seq<u8>), Seq<char>>((path@, b@)),
            Err(e) => recovery_of(src, f@) == Err::<(Seq<char>, Seq<u8>), Seq<char>>(e@),
        },
{
    match contents(src, f) {
        Ok(b) => Ok((recovery_path(f), b)),
        Err(e) => {
            let mut line = joined(f.path.as_str(), ": ");
            line.append(e.message.as_str());
            Err(line)
        },
    }
}

/// Where the first `j` extents end in the contents.
pub open spec fn bytes_before(ext: Seq<(Option<u64>, u64)>, j: int) -> int
    decreases j,
{
    if j <= 0 {
        0
    } else {
        bytes_before(ext, j - 1) + ext[j - 1].1
    }
}

proof fn extents_follow_each_other(disk: Seq<u8>, ext: Seq<(Option<u64>, u64)>, j: int, p: int)
    requires
        0 <= p,
        -1 <= j < ext.len(),
        forall|i: int| 0 <= i < ext.len() ==> extent_inside(#[trigger] ext[i], disk.len()),
    ensures
        bytes_at(disk, ext).len() == bytes_before(ext, ext.len() as int),
        j >= 0 && p < ext[j].1 ==> 0 <= bytes_before(ext, j) + p < bytes_at(disk, ext).len() && bytes_at(disk, ext)[bytes_before(
            ext,
            j,
        ) + p] == match ext[j].0 {
            Some(o) => disk[o + p],
            None => 0u8,
        },
    decreases ext.len(),
{
    if ext.len() > 0 {
        let init = ext.drop_last();
        assert forall|i: int| 0 <= i < init.len() implies extent_inside(#[trigger] init[i], disk.len()) by {
            assert(init[i] == ext[i]);
        }
        let i = if j < init.len() {
            j
        } else {
            -1
        };
        extents_follow_each_other(disk, init, i, p);
        assert(ext[ext.len() - 1] == ext.last());
        assert(extent_inside(ext[ext.len() - 1], disk.len()));
        same_bytes_before(ext, init, init.len() as int);
        if 0 <= j < init.len() {
            same_bytes_before(ext, init, j);
            assert(init[j] == ext[j]);
        }
    }
}

proof fn same_bytes_before(a: Seq<(Option<u64>, u64)>, b: Seq<(Option<u64>, u64)>, j: int)
    requires
        a.len() > 0,
        b == a.drop_last(),
        j <= b.len(),
    ensures
        bytes_before(a, j) == bytes_before(b, j),
    decreases j,
{
    if j > 0 {
        assert(b[j - 1] == a[j - 1]);
        same_bytes_before(a, b, j - 1);
    }
}

/// A file is recovered byte by byte: the byte `p` bytes into its `j`-th extent is the byte of its
/// contents behind the extents before, and is what stands on the disk there, or zero in a sparse
/// extent. The contents end at the file's size.
pub proof fn file_is_recovered<S: Source + ?Sized>(
    src: &S,
    disk: Seq<u8>,
    ext: Seq<(Option<u64>, u64)>,
    size: u64,
    j: int,
    p: int,
)
    requires
        holds(src, disk),
        disk.len() <= src.size(),
        size <= usize::MAX,
        forall|i: int| 0 <= i < ext.len() ==> extent_inside(#[trigger] ext[i], disk.len()),
        0 <= j < ext.len(),
        0 <= p < ext[j].1,
    ensures
        contents_of(src, DataView::Extents(ext), size) matches Ok(b) && b.len() == (if bytes_before(ext, ext.len() as int) < size {
            bytes_before(ext, ext.len() as int)
        } else {
            size as int
        }) && (bytes_before(ext, j) + p < size ==> b[bytes_before(ext, j) + p] == match ext[j].0 {
            Some(o) => disk[o + p],
            None => 0u8,
        }),
{
    contents_are_what_stands_there(src, disk, ext, size);
    extents_follow_each_other(disk, ext, j, p);
}

proof fn good_components_stay(ps: Seq<Seq<char>>)
    requires
        forall|i: int| 0 <= i < ps.len() ==> stays_inside(#[trigger] ps[i]),
    ensures
        safe_components(ps) == ps,
    decreases ps.len(),
{
    if ps.len() > 0 {
        let init = ps.drop_last();
        assert forall|i: int| 0 <= i < init.len() implies stays_inside(#[trigger] init[i]) by {
            assert(init[i] == ps[i]);
        }
        good_components_stay(init);
        let c = ps.last();
        assert(stays_inside(ps[ps.len() - 1]));
        assert(safe_component(c) =~= c) by {
            assert forall|i: int| 0 <= i < c.len() implies safe_char(#[trigger] c[i]) == c[i] by {
                assert(c.contains(c[i]));
            }
        }
        assert(init.push(c) =~= ps);
    } else {
        assert(safe_components(ps) =~= ps);
    }
}

/// A path of ordinary names is kept as it is, folder by folder.
pub proof fn ordinary_path_is_kept(ps: Seq<Seq<char>>)
    requires
        ps.len() > 0,
        forall|i: int|
            0 <= i < ps.len() ==> (#[trigger] ps[i]).len() > 0 && ps[i] != "."@ && ps[i] != ".."@ && !ps[i].contains('/') && !ps[i].contains(
                '\\',
            ) && !ps[i].contains('\0'),
    ensures
        clean_path(put_together(ps, '/')) == ps,
        output_path(put_together(ps, '/')) == ps,
{
    pieces_are_read_back(ps, '/');
    assert forall|i: int| 0 <= i < ps.len() implies stays_inside(#[trigger] ps[i]) by {}
    good_components_stay(ps);
}

/// Of a path, the empty components, `.` and `..` are left out and the others stay in their order,
/// with an underscore for each NUL and backslash.
#[verifier::rlimit(40)]
pub proof fn components_are_made_safe(ps: Seq<Seq<char>>)
    ensures
        safe_components(ps) == ps.filter(|c: Seq<char>| c.len() > 0 && c != "."@ && c != ".."@).map_values(
            |c: Seq<char>|
                Seq::new(
                    c.len(),
                    |i: int|
                        if c[i] == '\\' || c[i] == '\0' {
                            '_'
                        } else {
                            c[i]
                        },
                ),
        ),
    decreases ps.len(),
{
    reveal(Seq::filter);
    let good = |c: Seq<char>| c.len() > 0 && c != "."@ && c != ".."@;
    let safe = |c: Seq<char>|
        Seq::new(
            c.len(),
            |i: int|
                if c[i] == '\\' || c[i] == '\0' {
                    '_'
                } else {
                    c[i]
                },
        );
    if ps.len() > 0 {
        let init = ps.drop_last();
        components_are_made_safe(init);
        let c = ps.last();
        assert(safe_component(c) =~= safe(c));
        if kept(c) {
            assert(ps.filter(good) =~= init.filter(good).push(c));
            assert(ps.filter(good).map_values(safe) =~= init.filter(good).map_values(safe).push(safe(c)));
        }
        assert(safe_components(ps) =~= ps.filter(good).map_values(safe));
    } else {
        assert(safe_components(ps) =~= ps.filter(good).map_values(safe));
    }
}

proof fn last_dot_before(stem: Seq<char>, ext: Seq<char>)
    requires
        !ext.contains('.'),
    ensures
        last_dot(stem + seq!['.'] + ext) == stem.len(),
        last_dot(ext) == -1,
    decreases ext.len(),
{
    let name = stem + seq!['.'] + ext;
    if ext.len() == 0 {
        assert(name.last() == '.');
    } else {
        let shorter = ext.drop_last();
        assert(!shorter.contains('.')) by {
            if shorter.contains('.') {
                let i = choose|i: int| 0 <= i < shorter.len() && shorter[i] == '.';
                assert(ext[i] == '.');
            }
        }
        last_dot_before(stem, shorter);
        assert(ext.contains(ext.last()));
        assert(name.drop_last() =~= stem + seq!['.'] + shorter);
    }
}

/// The number of a file name that is taken stands before its extension: `stem.ext` becomes
/// `stem (n).ext`. A name without an extension, or one that starts with its only dot, has it at
/// the end.
pub proof fn number_stands_before_the_extension(stem: Seq<char>, ext: Seq<char>, n: nat)
    requires
        !ext.contains('.'),
    ensures
        stem.len() > 0 ==> numbered(stem + seq!['.'] + ext, n) == stem + " ("@ + decimal_text(n) + ")"@ + seq!['.'] + ext,
        numbered(ext, n) == ext + " ("@ + decimal_text(n) + ")"@,
        numbered(seq!['.'] + ext, n) == seq!['.'] + ext + " ("@ + decimal_text(n) + ")"@,
{
    last_dot_before(stem, ext);
    last_dot_before(seq![], ext);
    let name = stem + seq!['.'] + ext;
    if stem.len() > 0 {
        assert(name.take(stem.len() as int) =~= stem);
        assert(name.skip(stem.len() as int) =~= seq!['.'] + ext);
        assert(numbered(name, n) =~= stem + " ("@ + decimal_text(n) + ")"@ + seq!['.'] + ext);
    }
    assert(ext.take(ext.len() as int) =~= ext);
    assert(numbered(ext, n) =~= ext + " ("@ + decimal_text(n) + ")"@);
    let hidden = seq!['.'] + ext;
    assert(Seq::<char>::empty() + seq!['.'] + ext =~= hidden);
    assert(hidden.take(hidden.len() as int) =~= hidden);
    assert(numbered(hidden, n) =~= hidden + " ("@ + decimal_text(n) + ")"@);
}

/// A file is written below a folder that is named after the first two words of its volume's
/// title, with a hyphen between them; a title of one word is the folder's name, and the files of
/// a volume that is the whole device have no such folder.
pub proof fn folder_is_named_after_the_volume(words: Seq<Seq<char>>, path: Seq<char>)
    requires
        words.len() > 0,
        forall|i: int| 0 <= i < words.len() ==> !(#[trigger] words[i]).contains(' '),
    ensures
        ({
            let volume = put_together(words, ' ');
            let whole = volume.len() >= 12 && volume.subrange(0, 12) == "whole device"@;
            &&& whole ==> recovery_path_of(volume, path) == path
            &&& !whole && words.len() == 1 ==> recovery_path_of(volume, path) == words[0] + "/"@ + path
            &&& !whole && words.len() >= 2 ==> recovery_path_of(volume, path) == words[0] + "-"@ + words[1] + "/"@ + path
        }),
{
    reveal_strlit("whole device");
    pieces_are_read_back(words, ' ');
    let volume = put_together(words, ' ');
    if volume.len() >= 12 {
        assert(volume.take(12) =~= volume.subrange(0, 12));
    }
}

/// What is written for a file are its contents, below the folder of its volume; where they cannot
/// be read, the error names the file.
pub proof fn recovery_writes_the_contents<S: Source + ?Sized>(src: &S, f: DeletedView)
    ensures
        contents_of(src, f.data, f.size) matches Ok(b) ==> recovery_of(src, f) == Ok::<(Seq<char>, Seq<u8>), Seq<char>>(
            (recovery_path_of(f.volume, f.path), b),
        ),
        contents_of(src, f.data, f.size) matches Err(e) ==> recovery_of(src, f) == Err::<(Seq<char>, Seq<u8>), Seq<char>>(
            f.path + ": "@ + e,
        ),
{
}

} // verus!
