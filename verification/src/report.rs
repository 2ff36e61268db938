//! The text report of a scan.

use crate::model::{views, views_add, Deleted, DeletedView, Scan, ScanView, State, Volume, VolumeView};
use crate::text::{chars_of, decimal, decimal_text, joined};
use vstd::prelude::*;

verus! {

/// `n` spaces.
pub open spec fn spaces(n: int) -> Seq<char> {
    Seq::new(
        if n > 0 {
            n as nat
        } else {
            0
        },
        |i: int| ' ',
    )
}

/// `s`, filled up with spaces behind it to `width` characters.
pub open spec fn pad_right(s: Seq<char>, width: int) -> Seq<char> {
    s + spaces(width - s.len())
}

/// `s`, filled up with spaces in front of it to `width` characters.
pub open spec fn pad_left(s: Seq<char>, width: int) -> Seq<char> {
    spaces(width - s.len()) + s
}

fn make_spaces(have: usize, width: usize) -> (r: String)
    ensures
        r@ == spaces(width - have),
{
    let mut r = String::new();
    let mut i = have;
    assert(r@ =~= spaces(0));
    while i < width
        invariant
            have <= i,
            i <= width || i == have,
            r@ == spaces(i - have),
        decreases width - i,
    {
        r.push(' ');
        i += 1;
        assert(r@ =~= spaces(i - have));
    }
    assert(r@ =~= spaces(width - have));
    r
}

fn padded_right(s: &str, width: usize) -> (r: String)
    ensures
        r@ == pad_right(s@, width as int),
{
    joined(s, make_spaces(chars_of(s).len(), width).as_str())
}

fn padded_left(s: &str, width: usize) -> (r: String)
    ensures
        r@ == pad_left(s@, width as int),
{
    joined(make_spaces(chars_of(s).len(), width).as_str(), s)
}

/// The line of a volume.
pub open spec fn volume_line(v: VolumeView, size: Seq<char>) -> Seq<char> {
    "  Volume       : "@ + v.label + " — "@ + v.fs + ", "@ + size
}

/// The lines of the volumes; where there is none, one that says so.
pub open spec fn volume_lines(vols: Seq<VolumeView>, sizes: Seq<Seq<char>>) -> Seq<Seq<char>> {
    if vols.len() == 0 {
        seq!["  No filesystem found (no NTFS / FAT32 / exFAT / ext4 / XFS / btrfs signature)."@]
    } else {
        Seq::new(vols.len(), |i: int| volume_line(vols[i], sizes[i]))
    }
}

/// The line of a volume that could not be read.
pub open spec fn error_line(e: Seq<char>) -> Seq<char> {
    "  Error        : "@ + e
}

/// The line of a volume on which deleted files can only be carved.
pub open spec fn carve_line(c: Seq<char>) -> Seq<char> {
    "  "@ + c + ": deleted files keep no name or location on this filesystem — use --carve --to DIR"@
}

/// The line of a deleted file.
pub open spec fn file_line(f: DeletedView, size: Seq<char>) -> Seq<char> {
    let line = "  "@ + pad_right(f.state.label_text(), 14) + " "@ + pad_left(size, 10) + "  "@ + f.path;
    match f.note {
        Some(n) => line + "  ("@ + n + ")"@,
        None => line,
    }
}

/// The heading of the files' columns.
pub open spec fn columns_line() -> Seq<char> {
    "  "@ + pad_right("STATE"@, 14) + " "@ + pad_left("SIZE"@, 10) + "  PATH"@
}

/// How many of the files are intact.
pub open spec fn intact_among(files: Seq<DeletedView>) -> nat
    decreases files.len(),
{
    if files.len() == 0 {
        0
    } else {
        intact_among(files.drop_last()) + if files.last().state == State::Intact {
            1nat
        } else {
            0nat
        }
    }
}

/// The line that counts the files.
pub open spec fn count_line(files: Seq<DeletedView>) -> Seq<char> {
    "  "@ + decimal_text(files.len()) + " deleted file(s), "@ + decimal_text(intact_among(files)) + " intact."@
}

/// The lines of the deleted files; where there is none, one that says so, unless nothing
/// was there to be scanned.
pub open spec fn file_lines(s: ScanView, sizes: Seq<Seq<char>>) -> Seq<Seq<char>> {
    if s.files.len() > 0 {
        seq![""@, columns_line()] + Seq::new(s.files.len(), |i: int| file_line(s.files[i], sizes[i])) + seq![
            ""@,
            count_line(s.files),
        ]
    } else if s.volumes.len() > 0 && s.carve_only.len() < s.volumes.len() {
        seq!["  No deleted files found in the directory tables."@]
    } else {
        seq![]
    }
}

/// The report of a scan, under the given heading; the sizes of the volumes and of the files
/// are given as texts.
pub open spec fn report_of(
    s: ScanView,
    heading: Seq<char>,
    volume_sizes: Seq<Seq<char>>,
    file_sizes: Seq<Seq<char>>,
) -> Seq<Seq<char>> {
    seq![heading] + volume_lines(s.volumes, volume_sizes) + s.errors.map_values(|e: Seq<char>| error_line(e))
        + s.carve_only.map_values(|c: Seq<char>| carve_line(c)) + file_lines(s, file_sizes)
}

fn make_volume_line(v: &Volume, size: &str) -> (r: String)
    ensures
        r@ == volume_line(v@, size@),
{
    let mut r = joined("  Volume       : ", v.label.as_str());
    r.append(" — ");
    r.append(v.fs);
    r.append(", ");
    r.append(size);
    r
}

fn make_volume_lines(vols: &Vec<Volume>, sizes: &[String]) -> (r: Vec<String>)
    requires
        sizes@.len() == vols@.len(),
    ensures
        views(r@) == volume_lines(views(vols@), views(sizes@)),
{
    let mut out: Vec<String> = Vec::new();
    if vols.len() == 0 {
        out.push("  No filesystem found (no NTFS / FAT32 / exFAT / ext4 / XFS / btrfs signature).".to_owned());
    }
    let mut i: usize = 0;
    while i < vols.len()
        invariant
            i <= vols@.len(),
            sizes@.len() == vols@.len(),
            vols@.len() > 0 ==> out@.len() == i,
            forall|k: int|
                0 <= k < i ==> #[trigger] out@[k]@ == volume_line(views(vols@)[k], views(sizes@)[k]),
            vols@.len() == 0 ==> views(out@) =~= volume_lines(views(vols@), views(sizes@)),
        decreases vols@.len() - i,
    {
        let line = make_volume_line(&vols[i], sizes[i].as_str());
        out.push(line);
        i += 1;
    }
    assert(views(out@) =~= volume_lines(views(vols@), views(sizes@)));
    out
}

fn make_error_lines(errors: &Vec<String>) -> (r: Vec<String>)
    ensures
        views(r@) == views(errors@).map_values(|e: Seq<char>| error_line(e)),
{
    let mut out: Vec<String> = Vec::new();
    let mut i: usize = 0;
    while i < errors.len()
        invariant
            i <= errors@.len(),
            out@.len() == i,
            forall|k: int| 0 <= k < i ==> #[trigger] out@[k]@ == error_line(errors@[k]@),
        decreases errors@.len() - i,
    {
        out.push(joined("  Error        : ", errors[i].as_str()));
        i += 1;
    }
    assert(views(out@) =~= views(errors@).map_values(|e: Seq<char>| error_line(e)));
    out
}

fn make_carve_lines(names: &Vec<String>) -> (r: Vec<String>)
    ensures
        views(r@) == views(names@).map_values(|c: Seq<char>| carve_line(c)),
{
    let mut out: Vec<String> = Vec::new();
    let mut i: usize = 0;
    while i < names.len()
        invariant
            i <= names@.len(),
            out@.len() == i,
            forall|k: int| 0 <= k < i ==> #[trigger] out@[k]@ == carve_line(names@[k]@),
        decreases names@.len() - i,
    {
        let mut line = joined("  ", names[i].as_str());
        line.append(": deleted files keep no name or location on this filesystem — use --carve --to DIR");
        out.push(line);
        i += 1;
    }
    assert(views(out@) =~= views(names@).map_values(|c: Seq<char>| carve_line(c)));
    out
}

fn make_columns(state: &str, size: &str) -> (r: String)
    ensures
        r@ == "  "@ + pad_right(state@, 14) + " "@ + pad_left(size@, 10),
{
    let mut r = joined("  ", padded_right(state, 14).as_str());
    r.append(" ");
    r.append(padded_left(size, 10).as_str());
    r
}

fn make_file_line(f: &Deleted, size: &str) -> (r: String)
    ensures
        r@ == file_line(f@, size@),
{
    let mut r = make_columns(f.state.label(), size);
    r.append("  ");
    r.append(f.path.as_str());
    if let Some(n) = f.note {
        r.append("  (");
        r.append(n);
        r.append(")");
    }
    r
}

fn make_count_line(files: &Vec<Deleted>) -> (r: String)
    ensures
        r@ == count_line(views(files@)),
{
    let ghost all = views(files@);
    let mut intact: u64 = 0;
    let mut i: usize = 0;
    while i < files.len()
        invariant
            i <= files@.len(),
            all == views(files@),
            intact <= i,
            intact == intact_among(all.take(i as int)),
        decreases files@.len() - i,
    {
        assert(all.take(i + 1).drop_last() =~= all.take(i as int));
        assert(all.take(i + 1).last() == files@[i as int]@);
        if files[i].state == State::Intact {
            intact += 1;
        }
        i += 1;
    }
    assert(all.take(i as int) =~= all);
    let mut r = joined("  ", decimal(files.len() as u64).as_str());
    r.append(" deleted file(s), ");
    r.append(decimal(intact).as_str());
    r.append(" intact.");
    r
}

fn make_file_lines(s: &Scan, sizes: &[String]) -> (r: Vec<String>)
    requires
        sizes@.len() == s.files@.len(),
    ensures
        views(r@) == file_lines(s@, views(sizes@)),
{
    let mut out: Vec<String> = Vec::new();
    if s.files.len() > 0 {
        let columns = joined(make_columns("STATE", "SIZE").as_str(), "  PATH");
        out.push("".to_owned());
        out.push(columns);
        let ghost files = views(s.files@);
        let mut i: usize = 0;
        while i < s.files.len()
            invariant
                i <= s.files@.len(),
                sizes@.len() == s.files@.len(),
                files == views(s.files@),
                out@.len() == i + 2,
                out@[0]@ == ""@,
                out@[1]@ == columns_line(),
                forall|k: int|
                    2 <= k < i + 2 ==> #[trigger] out@[k]@ == file_line(files[k - 2], views(sizes@)[k - 2]),
            decreases s.files@.len() - i,
        {
            let line = make_file_line(&s.files[i], sizes[i].as_str());
            out.push(line);
            i += 1;
        }
        out.push("".to_owned());
        out.push(make_count_line(&s.files));
        assert(views(out@) =~= file_lines(s@, views(sizes@)));
    } else if s.volumes.len() > 0 && s.carve_only.len() < s.volumes.len() {
        out.push("  No deleted files found in the directory tables.".to_owned());
        assert(views(out@) =~= file_lines(s@, views(sizes@)));
    } else {
        assert(views(out@) =~= file_lines(s@, views(sizes@)));
    }
    out
}

/// The scan as a text report, under `heading`. The caller writes the sizes of the volumes
/// and of the files out, in their order.
pub fn scan_lines(s: &Scan, heading: &str, volume_sizes: &[String], file_sizes: &[String]) -> (r: Vec<String>)
    requires
        volume_sizes@.len() == s.volumes@.len(),
        file_sizes@.len() == s.files@.len(),
    ensures
        views(r@) == report_of(s@, heading@, views(volume_sizes@), views(file_sizes@)),
{
    let mut out: Vec<String> = Vec::new();
    out.push(heading.to_owned());
    assert(views(out@) =~= seq![heading@]);
    let mut volumes = make_volume_lines(&s.volumes, volume_sizes);
    let mut errors = make_error_lines(&s.errors);
    let mut carve = make_carve_lines(&s.carve_only);
    let mut files = make_file_lines(s, file_sizes);
    proof {
        views_add(out@, volumes@);
        views_add(out@ + volumes@, errors@);
        views_add(out@ + volumes@ + errors@, carve@);
        views_add(out@ + volumes@ + errors@ + carve@, files@);
    }
    out.append(&mut volumes);
    out.append(&mut errors);
    out.append(&mut carve);
    out.append(&mut files);
    out
}

/// The count of intact files is how many of them are intact.
pub proof fn intact_files_are_counted(files: Seq<DeletedView>)
    ensures
        intact_among(files) == files.filter(|f: DeletedView| f.state == State::Intact).len(),
    decreases files.len(),
{
    reveal(Seq::filter);
    if files.len() > 0 {
        intact_files_are_counted(files.drop_last());
    }
}

/// A report has its heading first, then a line for each volume, for each error and for each
/// volume to carve, in their order, and then the files.
#[verifier::rlimit(40)]
pub proof fn report_names_everything(
    s: ScanView,
    heading: Seq<char>,
    volume_sizes: Seq<Seq<char>>,
    file_sizes: Seq<Seq<char>>,
    k: int,
)
    requires
        s.volumes.len() > 0,
        0 <= k,
    ensures
        ({
            let r = report_of(s, heading, volume_sizes, file_sizes);
            let e = 1 + s.volumes.len();
            let c = e + s.errors.len();
            let f: int = c + s.carve_only.len() as int;
            &&& r[0] == heading
            &&& k < s.volumes.len() ==> r[1 + k] == "  Volume       : "@ + s.volumes[k].label + " — "@ + s.volumes[k].fs + ", "@
                + volume_sizes[k]
            &&& k < s.errors.len() ==> r[e + k] == "  Error        : "@ + s.errors[k]
            &&& k < s.carve_only.len() ==> r[c + k] == "  "@ + s.carve_only[k]
                + ": deleted files keep no name or location on this filesystem — use --carve --to DIR"@
            &&& s.files.len() > 0 ==> r.len() == f + s.files.len() + 4 && r[f] == ""@ && r[f + 2 + s.files.len()] == ""@
            &&& s.files.len() > 0 && k < s.files.len() ==> r[f + 2 + k] == file_line(s.files[k], file_sizes[k])
            &&& s.files.len() > 0 ==> r[f + 3 + s.files.len()] == "  "@ + decimal_text(s.files.len()) + " deleted file(s), "@
                + decimal_text(s.files.filter(|f: DeletedView| f.state == State::Intact).len()) + " intact."@
            &&& s.files.len() == 0 && s.carve_only.len() < s.volumes.len() ==> r.len() == f + 1 && r[f]
                == "  No deleted files found in the directory tables."@
            &&& s.files.len() == 0 && s.carve_only.len() >= s.volumes.len() ==> r.len() == f
        }),
{
    intact_files_are_counted(s.files);
    let r = report_of(s, heading, volume_sizes, file_sizes);
    let e = 1 + s.volumes.len();
    let c = e + s.errors.len();
    let f: int = c + s.carve_only.len() as int;
    let vols = volume_lines(s.volumes, volume_sizes);
    let errors = s.errors.map_values(|e: Seq<char>| error_line(e));
    let carve = s.carve_only.map_values(|c: Seq<char>| carve_line(c));
    let files = file_lines(s, file_sizes);
    assert(r == seq![heading] + vols + errors + carve + files);
    if k < s.volumes.len() {
        assert(r[1 + k] == vols[k]);
    }
    if k < s.errors.len() {
        assert(r[e + k] == errors[k]);
    }
    if k < s.carve_only.len() {
        assert(r[c + k] == carve[k]);
    }
    if s.files.len() > 0 {
        assert(r[f] == files[0]);
        assert(r[f + 2 + s.files.len()] == files[2 + s.files.len() as int]);
        assert(r[f + 3 + s.files.len()] == files[3 + s.files.len() as int]);
        if k < s.files.len() {
            assert(r[f + 2 + k] == files[2 + k]);
        }
    } else if s.carve_only.len() < s.volumes.len() {
        assert(r[f] == files[0]);
    }
}

/// The line of a file has its state, its size at the end of the column in front of the path, its
/// path, and, in brackets, what there is to note.
#[verifier::rlimit(40)]
pub proof fn file_line_tells_all(f: DeletedView, size: Seq<char>, gap: nat, lead: nat)
    requires
        f.state == State::Intact ==> gap == 8,
        f.state == State::PartlyReused ==> gap == 1,
        f.state == State::Overwritten ==> gap == 3,
        size.len() <= 10,
        lead == 10 - size.len(),
    ensures
        ({
            let state = match f.state {
                State::Intact => "INTACT"@,
                State::PartlyReused => "PARTLY REUSED"@,
                State::Overwritten => "OVERWRITTEN"@,
            };
            let line = "  "@ + state + Seq::new(gap, |i: int| ' ') + " "@ + Seq::new(lead, |i: int| ' ') + size + "  "@ + f.path;
            &&& f.note is None ==> file_line(f, size) == line
            &&& f.note matches Some(n) ==> file_line(f, size) == line + "  ("@ + n + ")"@
        }),
{
    reveal_strlit("INTACT");
    reveal_strlit("PARTLY REUSED");
    reveal_strlit("OVERWRITTEN");
    let state = f.state.label_text();
    assert(spaces(14 - state.len()) =~= Seq::new(gap, |i: int| ' '));
    assert(spaces(10 - size.len()) =~= Seq::new(lead, |i: int| ' '));
    let line = "  "@ + state + Seq::new(gap, |i: int| ' ') + " "@ + Seq::new(lead, |i: int| ' ') + size + "  "@ + f.path;
    assert("  "@ + pad_right(state, 14) + " "@ + pad_left(size, 10) + "  "@ + f.path =~= line);
}

/// A source without a filesystem is reported as such.
pub proof fn bare_source_is_reported(s: ScanView, heading: Seq<char>, volume_sizes: Seq<Seq<char>>, file_sizes: Seq<Seq<char>>)
    requires
        s.volumes.len() == 0,
    ensures
        report_of(s, heading, volume_sizes, file_sizes)[0] == heading,
        report_of(s, heading, volume_sizes, file_sizes)[1]
            == "  No filesystem found (no NTFS / FAT32 / exFAT / ext4 / XFS / btrfs signature)."@,
{
}

} // verus!
