//! The command `undelete`: its arguments, what it does in which order, and how it ends.

use crate::glob::{glob, glob_accepts};
use crate::model::{views, Deleted, DeletedView, State};
use crate::text::{chars_of, decimal, decimal_text, joined, same_text, starts_with, has_prefix, string_of};
use vstd::prelude::*;

verus! {

/// What the command is asked to do.
#[derive(Debug, Clone)]
pub struct Options {
    /// Device, partition or image.
    pub source: String,
    /// Directory to recover into.
    pub to: Option<String>,
    /// Only files that match.
    pub pattern: Option<String>,
    /// Also files whose space is in use again.
    pub all: bool,
    pub carve: bool,
    /// With `carve`: free space only.
    pub free: bool,
}

/// The view of `Options`.
pub struct OptionsView {
    pub source: Seq<char>,
    pub to: Option<Seq<char>>,
    pub pattern: Option<Seq<char>>,
    pub all: bool,
    pub carve: bool,
    pub free: bool,
}

/// The text behind an optional string.
pub open spec fn text_of(t: Option<String>) -> Option<Seq<char>> {
    match t {
        Some(t) => Some(t@),
        None => None,
    }
}

impl View for Options {
    type V = OptionsView;

    open spec fn view(&self) -> OptionsView {
        OptionsView {
            source: self.source@,
            to: text_of(self.to),
            pattern: text_of(self.pattern),
            all: self.all,
            carve: self.carve,
            free: self.free,
        }
    }
}

/// What the arguments say.
#[derive(Debug, Clone)]
pub enum Parsed {
    /// The usage is asked for.
    Help,
    /// There is no such option.
    Unknown(String),
    /// No source is named.
    NoSource,
    Run(Options),
}

/// The view of `Parsed`.
pub enum ParsedView {
    Help,
    Unknown(Seq<char>),
    NoSource,
    Run(OptionsView),
}

impl View for Parsed {
    type V = ParsedView;

    open spec fn view(&self) -> ParsedView {
        match self {
            Parsed::Help => ParsedView::Help,
            Parsed::Unknown(a) => ParsedView::Unknown(a@),
            Parsed::NoSource => ParsedView::NoSource,
            Parsed::Run(o) => ParsedView::Run(o@),
        }
    }
}

/// The exit code of a call that names nothing to run: 0 where the usage was asked for, 2
/// where the arguments are wrong.
pub open spec fn exit_code_of(p: ParsedView) -> Option<i32> {
    match p {
        ParsedView::Help => Some(0),
        ParsedView::Unknown(_) => Some(2),
        ParsedView::NoSource => Some(2),
        ParsedView::Run(_) => None,
    }
}

/// The exit code of a call that names nothing to run.
pub fn exit_code(p: &Parsed) -> (r: Option<i32>)
    ensures
        r == exit_code_of(p@),
{
    match p {
        Parsed::Help => Some(0),
        Parsed::Unknown(_) => Some(2),
        Parsed::NoSource => Some(2),
        Parsed::Run(_) => None,
    }
}

/// The argument behind `i`, if there is one.
pub open spec fn following(args: Seq<Seq<char>>, i: int) -> Option<Seq<char>> {
    if i + 1 < args.len() {
        Some(args[i + 1])
    } else {
        None
    }
}

/// What the arguments from `i` on say, where those before them gave `source` and the options
/// in `o`. Of several sources, and of an option that is given again, the last one counts; a
/// call for help and an unknown option end it at once.
pub open spec fn parse_from(args: Seq<Seq<char>>, i: int, source: Option<Seq<char>>, o: OptionsView) -> ParsedView
    decreases args.len() + 1 - i,
{
    if i < 0 || i >= args.len() {
        match source {
            Some(source) => ParsedView::Run(OptionsView { source, ..o }),
            None => ParsedView::NoSource,
        }
    } else if args[i] == "-h"@ || args[i] == "--help"@ {
        ParsedView::Help
    } else if args[i] == "--to"@ {
        parse_from(args, i + 2, source, OptionsView { to: following(args, i), ..o })
    } else if args[i] == "--match"@ {
        parse_from(args, i + 2, source, OptionsView { pattern: following(args, i), ..o })
    } else if args[i] == "--include-overwritten"@ {
        parse_from(args, i + 1, source, OptionsView { all: true, ..o })
    } else if args[i] == "--carve"@ {
        parse_from(args, i + 1, source, OptionsView { carve: true, ..o })
    } else if args[i] == "--free"@ {
        parse_from(args, i + 1, source, OptionsView { free: true, ..o })
    } else if has_prefix(args[i], "-"@) {
        ParsedView::Unknown(args[i])
    } else {
        parse_from(args, i + 1, Some(args[i]), o)
    }
}

/// The options before any argument is read.
pub open spec fn no_options() -> OptionsView {
    OptionsView { source: ""@, to: None, pattern: None, all: false, carve: false, free: false }
}

/// What the arguments say.
pub open spec fn parsed(args: Seq<Seq<char>>) -> ParsedView {
    parse_from(args, 0, None, no_options())
}

fn argument(args: &[String], i: usize) -> (r: Option<String>)
    requires
        i < args@.len(),
        args@.len() == args.len(),
    ensures
        text_of(r) == following(views(args@), i as int),
{
    if i + 1 < args.len() {
        Some(args[i + 1].as_str().to_owned())
    } else {
        None
    }
}

/// Read the arguments of the command.
pub fn parse_args(args: &[String]) -> (r: Parsed)
    ensures
        r@ == parsed(views(args@)),
{
    assert(args@.len() == args.len());
    let ghost all = views(args@);
    let mut source: Option<String> = None;
    let mut o = Options {
        source: "".to_owned(),
        to: None,
        pattern: None,
        all: false,
        carve: false,
        free: false,
    };
    let mut i: usize = 0;
    while i < args.len()
        invariant
            args@.len() == args.len(),
            all == views(args@),
            o.source@ == ""@,
            parse_from(all, i as int, text_of(source), o@) == parsed(all),
        decreases args@.len() - i,
    {
        let a = args[i].as_str();
        assert(all[i as int] == a@);
        if same_text(a, "-h") || same_text(a, "--help") {
            return Parsed::Help;
        } else if same_text(a, "--to") {
            o.to = argument(args, i);
            if i + 1 == args.len() {
                i += 1;
                assert(parse_from(all, i as int, text_of(source), o@) == parse_from(all, i + 1, text_of(source), o@));
                continue ;
            }
            i += 2;
            continue ;
        } else if same_text(a, "--match") {
            o.pattern = argument(args, i);
            if i + 1 == args.len() {
                i += 1;
                assert(parse_from(all, i as int, text_of(source), o@) == parse_from(all, i + 1, text_of(source), o@));
                continue ;
            }
            i += 2;
            continue ;
        } else if same_text(a, "--include-overwritten") {
            o.all = true;
        } else if same_text(a, "--carve") {
            o.carve = true;
        } else if same_text(a, "--free") {
            o.free = true;
        } else if starts_with(a, "-") {
            return Parsed::Unknown(a.to_owned());
        } else {
            source = Some(a.to_owned());
        }
        i += 1;
    }
    match source {
        Some(source) => {
            o.source = source;
            Parsed::Run(o)
        },
        None => Parsed::NoSource,
    }
}

/// Whether a deleted file is one to recover: it matches the pattern, if there is one, and is
/// not overwritten, unless those are asked for too.
pub open spec fn wanted(o: OptionsView, f: DeletedView) -> bool {
    &&& o.pattern matches Some(p) ==> glob_accepts(p, f.path)
    &&& o.all || f.state != State::Overwritten
}

/// The places of the files to recover among the first `n`.
pub open spec fn chosen(o: OptionsView, files: Seq<DeletedView>, n: int) -> Seq<usize>
    decreases n,
{
    if n <= 0 {
        seq![]
    } else if wanted(o, files[n - 1]) {
        chosen(o, files, n - 1).push((n - 1) as usize)
    } else {
        chosen(o, files, n - 1)
    }
}

/// Exactly the wanted files are chosen, in their order.
pub proof fn chosen_files_are_the_wanted(o: OptionsView, files: Seq<DeletedView>, n: int)
    requires
        0 <= n <= files.len(),
        files.len() <= usize::MAX,
    ensures
        forall|k: int| 0 <= k < chosen(o, files, n).len() ==> #[trigger] chosen(o, files, n)[k] < n,
        forall|k: int, j: int| 0 <= k < j < chosen(o, files, n).len() ==> chosen(o, files, n)[k] < chosen(o, files, n)[j],
        forall|i: usize| i < n ==> (#[trigger] chosen(o, files, n).contains(i) <==> wanted(o, files[i as int])),
    decreases n,
{
    if n > 0 {
        chosen_files_are_the_wanted(o, files, n - 1);
        let before = chosen(o, files, n - 1);
        let all = chosen(o, files, n);
        assert forall|i: usize| i < n implies (#[trigger] all.contains(i) <==> wanted(o, files[i as int])) by {
            if all.contains(i) {
                let k = choose|k: int| 0 <= k < all.len() && all[k] == i;
                if k < before.len() {
                    assert(before[k] == i);
                    assert(before.contains(i));
                }
            }
            if wanted(o, files[i as int]) {
                if i < n - 1 {
                    assert(before.contains(i));
                    let k = choose|k: int| 0 <= k < before.len() && before[k] == i;
                    assert(all[k] == i);
                } else {
                    assert(all[all.len() - 1] == i);
                }
            }
        }
    }
}

fn is_wanted(o: &Options, f: &Deleted) -> (r: bool)
    ensures
        r == wanted(o@, f@),
{
    let matching = match &o.pattern {
        Some(p) => glob(p.as_str(), f.path.as_str()),
        None => true,
    };
    matching && (o.all || f.state != State::Overwritten)
}

/// The places of the files to recover.
pub fn choose_files(o: &Options, files: &[Deleted]) -> (r: Vec<usize>)
    ensures
        r@ == chosen(o@, views(files@), files@.len() as int),
{
    let mut out: Vec<usize> = Vec::new();
    let mut i: usize = 0;
    while i < files.len()
        invariant
            i <= files@.len(),
            out@ == chosen(o@, views(files@), i as int),
        decreases files@.len() - i,
    {
        assert(views(files@)[i as int] == files@[i as int]@);
        if is_wanted(o, &files[i]) {
            out.push(i);
        }
        i += 1;
    }
    out
}

/// What can be done next.
#[derive(Debug, Clone, Copy, PartialEq, Eq, Structural)]
pub enum Action {
    /// Make the output directory.
    MakeDir,
    /// Check that the output directory is on another disk.
    CheckDestination,
    /// Look whether the source is mounted read-write.
    CheckMounted,
    Carve,
    /// Scan, and list what was found.
    List,
    /// Write the chosen files.
    Recover,
    /// End with this exit code.
    Exit(i32),
}

/// What has come of the last action.
#[derive(Debug, Clone)]
pub enum Event {
    /// The source is open.
    Opened,
    OpenFailed(String),
    DirMade,
    DirFailed(String),
    DestinationAllowed,
    DestinationRefused(String),
    /// Where the source is mounted read-write, if it is.
    Mounted(Option<String>),
    Carved,
    /// How many files were found, and how many of them are to be recovered.
    Listed(u64, u64),
    /// How many of the chosen files were written.
    Recovered(u64, u64),
}

/// The view of `Event`.
pub enum EventView {
    Opened,
    OpenFailed(Seq<char>),
    DirMade,
    DirFailed(Seq<char>),
    DestinationAllowed,
    DestinationRefused(Seq<char>),
    Mounted(Option<Seq<char>>),
    Carved,
    Listed(u64, u64),
    Recovered(u64, u64),
}

impl View for Event {
    type V = EventView;

    open spec fn view(&self) -> EventView {
        match self {
            Event::Opened => EventView::Opened,
            Event::OpenFailed(e) => EventView::OpenFailed(e@),
            Event::DirMade => EventView::DirMade,
            Event::DirFailed(e) => EventView::DirFailed(e@),
            Event::DestinationAllowed => EventView::DestinationAllowed,
            Event::DestinationRefused(e) => EventView::DestinationRefused(e@),
            Event::Mounted(m) => EventView::Mounted(text_of(*m)),
            Event::Carved => EventView::Carved,
            Event::Listed(n, k) => EventView::Listed(*n, *k),
            Event::Recovered(n, k) => EventView::Recovered(*n, *k),
        }
    }
}

/// What is said, and what is done next.
#[derive(Debug, Clone)]
pub struct Reaction {
    /// Lines for the error output.
    pub complaints: Vec<String>,
    /// Lines for the output.
    pub lines: Vec<String>,
    pub action: Action,
}

/// The view of `Reaction`.
pub struct ReactionView {
    pub complaints: Seq<Seq<char>>,
    pub lines: Seq<Seq<char>>,
    pub action: Action,
}

impl View for Reaction {
    type V = ReactionView;

    open spec fn view(&self) -> ReactionView {
        ReactionView { complaints: views(self.complaints@), lines: views(self.lines@), action: self.action }
    }
}

/// The output directory.
pub open spec fn output_dir(o: OptionsView) -> Seq<char> {
    match o.to {
        Some(d) => d,
        None => ""@,
    }
}

/// A reaction without words.
pub open spec fn quietly(action: Action) -> ReactionView {
    ReactionView { complaints: seq![], lines: seq![], action }
}

/// A reaction with one complaint.
pub open spec fn complaining(line: Seq<char>, action: Action) -> ReactionView {
    ReactionView { complaints: seq![line], lines: seq![], action }
}

/// A reaction with one line of output.
pub open spec fn saying(line: Seq<char>, action: Action) -> ReactionView {
    ReactionView { complaints: seq![], lines: seq![line], action }
}

/// The warning about a source that is mounted read-write on `m`.
pub open spec fn mounted_warning(source: Seq<char>, m: Seq<char>) -> Seq<char> {
    "warning: "@ + source + " is mounted read-write on "@ + m
        + ": the system keeps writing to it, which can overwrite deleted files. Unmount it or image it first (ddrescue)."@
}

/// How a search starts, once the source is known not to be written to, or the warning is out.
pub open spec fn search_action(o: OptionsView) -> Action {
    if !o.carve {
        Action::List
    } else if o.to is Some {
        Action::Carve
    } else {
        Action::Exit(2)
    }
}

/// The reaction to a source that is mounted read-write, or not.
pub open spec fn after_mounted(o: OptionsView, m: Option<Seq<char>>) -> ReactionView {
    let warning = match m {
        Some(m) => seq![mounted_warning(o.source, m)],
        None => seq![],
    };
    ReactionView {
        complaints: warning + if o.carve && o.to is None {
            seq!["dcheck: --carve needs --to DIR"@]
        } else {
            seq![]
        },
        lines: seq![],
        action: search_action(o),
    }
}

/// The reaction to a list of `files` files of which `count` are to be recovered.
pub open spec fn after_listed(o: OptionsView, files: u64, count: u64) -> ReactionView {
    if o.to is None {
        if files > 0 {
            saying(
                "\n  Recover with: dcheck undelete "@ + o.source + " --to /path/on/another/disk [--match '*.docx']"@,
                Action::Exit(0),
            )
        } else {
            quietly(Action::Exit(0))
        }
    } else if count == 0 {
        saying(
            if o.pattern is Some {
                "\n  Nothing to recover matching the pattern."@
            } else {
                "\n  Nothing to recover."@
            },
            Action::Exit(1),
        )
    } else {
        saying(""@, Action::Recover)
    }
}

/// The reaction to `ok` of `count` files written.
pub open spec fn after_recovered(o: OptionsView, ok: u64, count: u64) -> ReactionView {
    saying(
        "\n  "@ + decimal_text(ok as nat) + " of "@ + decimal_text(count as nat) + " file(s) written to "@ + output_dir(o)
            + ". Open them to check: a PARTLY REUSED file may be damaged."@,
        if ok == count {
            Action::Exit(0)
        } else {
            Action::Exit(1)
        },
    )
}

/// What the command says and does next. First of all the source is opened.
pub open spec fn reaction(o: OptionsView, e: EventView) -> ReactionView {
    match e {
        EventView::Opened => quietly(
            if o.to is Some {
                Action::MakeDir
            } else {
                Action::CheckMounted
            },
        ),
        EventView::OpenFailed(m) => complaining("dcheck: cannot open "@ + o.source + ": "@ + m, Action::Exit(1)),
        EventView::DirMade => quietly(Action::CheckDestination),
        EventView::DirFailed(m) => complaining("dcheck: cannot create "@ + output_dir(o) + ": "@ + m, Action::Exit(1)),
        EventView::DestinationAllowed => quietly(Action::CheckMounted),
        EventView::DestinationRefused(m) => complaining("dcheck: refusing: "@ + m, Action::Exit(1)),
        EventView::Mounted(m) => after_mounted(o, m),
        EventView::Carved => quietly(Action::Exit(0)),
        EventView::Listed(files, count) => after_listed(o, files, count),
        EventView::Recovered(ok, count) => after_recovered(o, ok, count),
    }
}

/// Nothing is made, carved or recovered unless an output directory was named.
pub proof fn nothing_is_written_unasked(o: OptionsView, e: EventView)
    requires
        o.to is None,
        !(e is DirMade),
    ensures
        reaction(o, e).action != Action::MakeDir,
        reaction(o, e).action != Action::CheckDestination,
        reaction(o, e).action != Action::Carve,
        reaction(o, e).action != Action::Recover,
{
}

/// Where an output directory is named, the way to carving and recovering leads through the
/// check of the destination, and a refused destination ends the command.
pub proof fn destination_is_checked_first(o: OptionsView, refusal: Seq<char>)
    requires
        o.to is Some,
    ensures
        reaction(o, EventView::Opened).action == Action::MakeDir,
        reaction(o, EventView::DirMade).action == Action::CheckDestination,
        reaction(o, EventView::DestinationAllowed).action == Action::CheckMounted,
        reaction(o, EventView::DestinationRefused(refusal)).action == Action::Exit(1),
{
}

fn quiet(action: Action) -> (r: Reaction)
    ensures
        r@ == quietly(action),
{
    let r = Reaction { complaints: Vec::new(), lines: Vec::new(), action };
    assert(r@.complaints =~= seq![]);
    assert(r@.lines =~= seq![]);
    r
}

fn complain(line: String, action: Action) -> (r: Reaction)
    ensures
        r@ == complaining(line@, action),
{
    let mut r = quiet(action);
    r.complaints.push(line);
    assert(r@.complaints =~= seq![line@]);
    r
}

fn say(line: String, action: Action) -> (r: Reaction)
    ensures
        r@ == saying(line@, action),
{
    let mut r = quiet(action);
    r.lines.push(line);
    assert(r@.lines =~= seq![line@]);
    r
}

fn directory(o: &Options) -> (r: String)
    ensures
        r@ == output_dir(o@),
{
    match &o.to {
        Some(d) => d.as_str().to_owned(),
        None => "".to_owned(),
    }
}

fn failure(what: &str, name: &str, e: &str) -> (r: String)
    ensures
        r@ == what@ + name@ + ": "@ + e@,
{
    let mut r = joined(what, name);
    r.append(": ");
    r.append(e);
    r
}

fn react_to_mounted(o: &Options, m: &Option<String>) -> (r: Reaction)
    ensures
        r@ == after_mounted(o@, text_of(*m)),
{
    let action = if !o.carve {
        Action::List
    } else if o.to.is_some() {
        Action::Carve
    } else {
        Action::Exit(2)
    };
    let mut r = quiet(action);
    if let Some(m) = m {
        let mut line = joined("warning: ", o.source.as_str());
        line.append(" is mounted read-write on ");
        line.append(m.as_str());
        line.append(
            ": the system keeps writing to it, which can overwrite deleted files. Unmount it or image it first (ddrescue).",
        );
        r.complaints.push(line);
    }
    if o.carve && o.to.is_none() {
        r.complaints.push("dcheck: --carve needs --to DIR".to_owned());
    }
    assert(r@.complaints =~= after_mounted(o@, text_of(*m)).complaints);
    r
}

fn react_to_list(o: &Options, files: u64, count: u64) -> (r: Reaction)
    ensures
        r@ == after_listed(o@, files, count),
{
    if o.to.is_none() {
        if files > 0 {
            let mut line = joined("\n  Recover with: dcheck undelete ", o.source.as_str());
            line.append(" --to /path/on/another/disk [--match '*.docx']");
            say(line, Action::Exit(0))
        } else {
            quiet(Action::Exit(0))
        }
    } else if count == 0 {
        let line = if o.pattern.is_some() {
            "\n  Nothing to recover matching the pattern."
        } else {
            "\n  Nothing to recover."
        };
        say(line.to_owned(), Action::Exit(1))
    } else {
        say("".to_owned(), Action::Recover)
    }
}

fn react_to_recovery(o: &Options, ok: u64, count: u64) -> (r: Reaction)
    ensures
        r@ == after_recovered(o@, ok, count),
{
    let mut line = joined("\n  ", decimal(ok).as_str());
    line.append(" of ");
    line.append(decimal(count).as_str());
    line.append(" file(s) written to ");
    line.append(directory(o).as_str());
    line.append(". Open them to check: a PARTLY REUSED file may be damaged.");
    say(
        line,
        if ok == count {
            Action::Exit(0)
        } else {
            Action::Exit(1)
        },
    )
}

/// What the command says and does next, once `e` has happened.
pub fn react(o: &Options, e: &Event) -> (r: Reaction)
    ensures
        r@ == reaction(o@, e@),
{
    match e {
        Event::Opened => quiet(
            if o.to.is_some() {
                Action::MakeDir
            } else {
                Action::CheckMounted
            },
        ),
        Event::OpenFailed(m) => complain(
            failure("dcheck: cannot open ", o.source.as_str(), m.as_str()),
            Action::Exit(1),
        ),
        Event::DirMade => quiet(Action::CheckDestination),
        Event::DirFailed(m) => complain(
            failure("dcheck: cannot create ", directory(o).as_str(), m.as_str()),
            Action::Exit(1),
        ),
        Event::DestinationAllowed => quiet(Action::CheckMounted),
        Event::DestinationRefused(m) => complain(joined("dcheck: refusing: ", m.as_str()), Action::Exit(1)),
        Event::Mounted(m) => react_to_mounted(o, m),
        Event::Carved => quiet(Action::Exit(0)),
        Event::Listed(files, count) => react_to_list(o, *files, *count),
        Event::Recovered(ok, count) => react_to_recovery(o, *ok, *count),
    }
}

/// Why the destination `dest` on disk `dest_disk` is refused for a source on the same disk.
pub open spec fn same_disk_refusal(dest: Seq<char>, dest_disk: Seq<char>) -> Seq<char> {
    "the destination "@ + dest + " is on /dev/"@ + dest_disk
        + ", the same disk as the source — writing there can overwrite the very files you want back. Use another disk (USB drive, network share)."@
}

/// Whether files from a source may be written to `dest`: any destination will do for an
/// image file; for a device, it must be known to be on another disk.
pub open spec fn destination(
    block_device: bool,
    source_disk: Seq<char>,
    dest_disk: Option<Seq<char>>,
    dest: Seq<char>,
) -> Result<(), Seq<char>> {
    if !block_device {
        Ok(())
    } else {
        match dest_disk {
            None => Err("cannot tell which disk the destination is on"@),
            Some(d) => if d == source_disk {
                Err(same_disk_refusal(dest, d))
            } else {
                Ok(())
            },
        }
    }
}

/// A device is never recovered onto its own disk.
pub proof fn own_disk_is_refused(disk: Seq<char>, dest: Seq<char>)
    ensures
        destination(true, disk, Some(disk), dest) is Err,
        destination(true, disk, None, dest) is Err,
{
}

/// Refuse a destination on the same physical disk as the source device. `dest_disk` is the
/// disk that `dest` is on, where that is known.
pub fn check_destination(block_device: bool, source_disk: &str, dest_disk: Option<&str>, dest: &str) -> (r: Result<
    (),
    String,
>)
    ensures
        match r {
            Ok(()) => destination(block_device, source_disk@, str_view(dest_disk), dest@) is Ok,
            Err(e) => destination(block_device, source_disk@, str_view(dest_disk), dest@) == Err::<(), Seq<char>>(e@),
        },
{
    if !block_device {
        return Ok(());
    }
    match dest_disk {
        None => Err("cannot tell which disk the destination is on".to_owned()),
        Some(d) => {
            if same_text(d, source_disk) {
                let mut e = joined("the destination ", dest);
                e.append(" is on /dev/");
                e.append(d);
                e.append(
                    ", the same disk as the source — writing there can overwrite the very files you want back. Use another disk (USB drive, network share).",
                );
                Err(e)
            } else {
                Ok(())
            }
        },
    }
}

/// The text behind an optional string slice.
pub open spec fn str_view(t: Option<&str>) -> Option<Seq<char>> {
    match t {
        Some(t) => Some(t@),
        None => None,
    }
}

/// `dev` without `/dev/` in front of it, however often it stands there.
pub open spec fn device_part(dev: Seq<char>) -> Seq<char>
    decreases dev.len(),
{
    if has_prefix(dev, "/dev/"@) && "/dev/"@.len() > 0 {
        device_part(dev.skip("/dev/"@.len() as int))
    } else {
        dev
    }
}

/// The name of a device without the directory of devices.
pub fn device_name(dev: &str) -> (r: String)
    ensures
        r@ == device_part(dev@),
{
    proof {
        reveal_strlit("/dev/");
    }
    let mut name = dev.to_owned();
    while starts_with(name.as_str(), "/dev/")
        invariant
            device_part(name@) == device_part(dev@),
            "/dev/"@.len() == 5,
        decreases name@.len(),
    {
        let chars = chars_of(name.as_str());
        let rest = vstd::slice::slice_subrange(chars.as_slice(), 5, chars.len());
        assert(rest@ =~= name@.skip(5));
        name = string_of(rest);
    }
    name
}

/// One part of a command line.
pub enum Part {
    Source(Seq<char>),
    To(Seq<char>),
    Match(Seq<char>),
    IncludeOverwritten,
    Carve,
    Free,
}

/// The arguments that a part is given as.
pub open spec fn spelled(p: Part) -> Seq<Seq<char>> {
    match p {
        Part::Source(s) => seq![s],
        Part::To(d) => seq!["--to"@, d],
        Part::Match(m) => seq!["--match"@, m],
        Part::IncludeOverwritten => seq!["--include-overwritten"@],
        Part::Carve => seq!["--carve"@],
        Part::Free => seq!["--free"@],
    }
}

/// The command line of the parts.
pub open spec fn command_line(ps: Seq<Part>) -> Seq<Seq<char>>
    decreases ps.len(),
{
    if ps.len() == 0 {
        seq![]
    } else {
        spelled(ps[0]) + command_line(ps.skip(1))
    }
}

/// The source that is asked for: the last one.
pub open spec fn source_among(ps: Seq<Part>) -> Option<Seq<char>>
    decreases ps.len(),
{
    if ps.len() == 0 {
        None
    } else if ps.last() is Source {
        Some(ps.last()->Source_0)
    } else {
        source_among(ps.drop_last())
    }
}

/// The directory that is asked for: the last one.
pub open spec fn directory_among(ps: Seq<Part>) -> Option<Seq<char>>
    decreases ps.len(),
{
    if ps.len() == 0 {
        None
    } else if ps.last() is To {
        Some(ps.last()->To_0)
    } else {
        directory_among(ps.drop_last())
    }
}

/// The pattern that is asked for: the last one.
pub open spec fn pattern_among(ps: Seq<Part>) -> Option<Seq<char>>
    decreases ps.len(),
{
    if ps.len() == 0 {
        None
    } else if ps.last() is Match {
        Some(ps.last()->Match_0)
    } else {
        pattern_among(ps.drop_last())
    }
}

/// Whether a part is no source that looks like an option.
pub open spec fn proper(p: Part) -> bool {
    p matches Part::Source(s) ==> s.len() == 0 || s[0] != '-'
}

/// The options that the parts ask for.
pub open spec fn asked_for(ps: Seq<Part>) -> OptionsView {
    OptionsView {
        source: ""@,
        to: directory_among(ps),
        pattern: pattern_among(ps),
        all: ps.contains(Part::IncludeOverwritten),
        carve: ps.contains(Part::Carve),
        free: ps.contains(Part::Free),
    }
}

proof fn options_differ()
    ensures
        ({
            let known = seq!["-h"@, "--help"@, "--to"@, "--match"@, "--include-overwritten"@, "--carve"@, "--free"@];
            &&& forall|i: int, j: int| 0 <= i < j < 7 ==> #[trigger] known[i] != #[trigger] known[j]
            &&& forall|i: int| 0 <= i < 7 ==> (#[trigger] known[i]).len() > 0 && known[i][0] == '-'
        }),
        "-"@ == seq!['-'],
{
    reveal_strlit("-");
    reveal_strlit("-h");
    reveal_strlit("--help");
    reveal_strlit("--to");
    reveal_strlit("--match");
    reveal_strlit("--include-overwritten");
    reveal_strlit("--carve");
    reveal_strlit("--free");
    assert("-"@ =~= seq!['-']);
    let known = seq!["-h"@, "--help"@, "--to"@, "--match"@, "--include-overwritten"@, "--carve"@, "--free"@];
    assert(known[0].len() == 2 && known[1].len() == 6 && known[2].len() == 4 && known[3].len() == 7);
    assert(known[4].len() == 21 && known[5].len() == 7 && known[6].len() == 6);
    assert(known[1][2] == 'h' && known[6][2] == 'f' && known[3][2] == 'm' && known[5][2] == 'c');
    assert forall|i: int, j: int| 0 <= i < j < 7 implies #[trigger] known[i] != #[trigger] known[j] by {
        if known[i].len() == known[j].len() {
            assert((i == 1 && j == 6) || (i == 3 && j == 5));
            assert(known[i][2] != known[j][2]);
        }
    }
    assert forall|i: int| 0 <= i < 7 implies (#[trigger] known[i]).len() > 0 && known[i][0] == '-' by {
        assert(i == 0 || i == 1 || i == 2 || i == 3 || i == 4 || i == 5 || i == 6);
    }
}

proof fn command_line_grows(ps: Seq<Part>)
    requires
        ps.len() > 0,
    ensures
        command_line(ps) == command_line(ps.drop_last()) + spelled(ps.last()),
    decreases ps.len(),
{
    if ps.len() == 1 {
        assert(ps.skip(1) =~= seq![]);
        assert(ps.drop_last() =~= seq![]);
        assert(command_line(ps) =~= command_line(ps.drop_last()) + spelled(ps.last()));
    } else {
        command_line_grows(ps.skip(1));
        assert(ps.skip(1).drop_last() =~= ps.drop_last().skip(1));
        assert(command_line(ps) =~= command_line(ps.drop_last()) + spelled(ps.last()));
    }
}

proof fn asked_for_grows(ps: Seq<Part>)
    requires
        ps.len() > 0,
    ensures
        ({
            let a = asked_for(ps.drop_last());
            let b = asked_for(ps);
            match ps.last() {
                Part::Source(s) => b == a,
                Part::To(d) => b == OptionsView { to: Some(d), ..a },
                Part::Match(m) => b == OptionsView { pattern: Some(m), ..a },
                Part::IncludeOverwritten => b == OptionsView { all: true, ..a },
                Part::Carve => b == OptionsView { carve: true, ..a },
                Part::Free => b == OptionsView { free: true, ..a },
            }
        }),
{
    held_or_last(ps, Part::IncludeOverwritten);
    held_or_last(ps, Part::Carve);
    held_or_last(ps, Part::Free);
}

proof fn held_or_last(ps: Seq<Part>, p: Part)
    requires
        ps.len() > 0,
    ensures
        ps.contains(p) <==> ps.drop_last().contains(p) || ps.last() == p,
{
    let init = ps.drop_last();
    if ps.contains(p) {
        let i = choose|i: int| 0 <= i < ps.len() && ps[i] == p;
        if i < init.len() {
            assert(init[i] == p);
        }
    }
    if init.contains(p) {
        let i = choose|i: int| 0 <= i < init.len() && init[i] == p;
        assert(ps[i] == p);
    }
    assert(ps[ps.len() - 1] == ps.last());
}

#[verifier::rlimit(40)]
proof fn part_is_read(args: Seq<Seq<char>>, i: int, p: Part, source: Option<Seq<char>>, o: OptionsView)
    requires
        0 <= i,
        i + spelled(p).len() <= args.len(),
        args.subrange(i, i + spelled(p).len()) == spelled(p),
        proper(p),
    ensures
        ({
            let next = i + spelled(p).len();
            parse_from(args, i, source, o) == match p {
                Part::Source(s) => parse_from(args, next, Some(s), o),
                Part::To(d) => parse_from(args, next, source, OptionsView { to: Some(d), ..o }),
                Part::Match(m) => parse_from(args, next, source, OptionsView { pattern: Some(m), ..o }),
                Part::IncludeOverwritten => parse_from(args, next, source, OptionsView { all: true, ..o }),
                Part::Carve => parse_from(args, next, source, OptionsView { carve: true, ..o }),
                Part::Free => parse_from(args, next, source, OptionsView { free: true, ..o }),
            }
        }),
{
    options_differ();
    let known = seq!["-h"@, "--help"@, "--to"@, "--match"@, "--include-overwritten"@, "--carve"@, "--free"@];
    assert(known[0] == "-h"@ && known[1] == "--help"@ && known[2] == "--to"@ && known[3] == "--match"@);
    assert(known[4] == "--include-overwritten"@ && known[5] == "--carve"@ && known[6] == "--free"@);
    let part = args.subrange(i, i + spelled(p).len());
    assert(part[0] == args[i]);
    if p is To || p is Match {
        assert(part[1] == args[i + 1]);
    }
    if let Part::Source(s) = p {
        if has_prefix(s, "-"@) {
            assert(s.take(1)[0] == '-');
        }
    }
}

#[verifier::rlimit(40)]
proof fn parts_are_read(ps: Seq<Part>, rest: Seq<Seq<char>>)
    requires
        forall|i: int| 0 <= i < ps.len() ==> proper(#[trigger] ps[i]),
    ensures
        parsed(command_line(ps) + rest) == parse_from(
            command_line(ps) + rest,
            command_line(ps).len() as int,
            source_among(ps),
            asked_for(ps),
        ),
    decreases ps.len(),
{
    let line = command_line(ps);
    let args = line + rest;
    if ps.len() == 0 {
        assert(asked_for(ps) == no_options());
    } else {
        let init = ps.drop_last();
        let p = ps.last();
        assert(ps[ps.len() - 1] == p);
        command_line_grows(ps);
        asked_for_grows(ps);
        assert forall|i: int| 0 <= i < init.len() implies proper(#[trigger] init[i]) by {
            assert(init[i] == ps[i]);
        }
        let before = command_line(init);
        parts_are_read(init, spelled(p) + rest);
        assert(before + (spelled(p) + rest) =~= args);
        let i = before.len() as int;
        assert(args.subrange(i, i + spelled(p).len()) =~= spelled(p));
        part_is_read(args, i, p, source_among(init), asked_for(init));
    }
}

/// The command line is read back: whatever the parts are and in which order they are given, the
/// options are those that the parts ask for, and the source is the last one that is named;
/// without one there is nothing to run.
pub proof fn command_line_is_read_back(ps: Seq<Part>)
    requires
        forall|i: int| 0 <= i < ps.len() ==> proper(#[trigger] ps[i]),
    ensures
        source_among(ps) matches Some(source) ==> parsed(command_line(ps)) == ParsedView::Run(
            OptionsView { source, ..asked_for(ps) },
        ),
        source_among(ps) is None ==> parsed(command_line(ps)) == ParsedView::NoSource,
{
    parts_are_read(ps, seq![]);
    assert(command_line(ps) + seq![] =~= command_line(ps));
}

/// Behind proper parts, a call for help and an unknown option end the reading at once, whatever
/// comes after them; an option whose value is missing is not set.
#[verifier::rlimit(40)]
pub proof fn reading_ends_early(ps: Seq<Part>, a: Seq<char>, rest: Seq<Seq<char>>)
    requires
        forall|i: int| 0 <= i < ps.len() ==> proper(#[trigger] ps[i]),
    ensures
        a == "-h"@ || a == "--help"@ ==> parsed(command_line(ps) + (seq![a] + rest)) == ParsedView::Help,
        a.len() > 0 && a[0] == '-' && a != "-h"@ && a != "--help"@ && a != "--to"@ && a != "--match"@ && a
            != "--include-overwritten"@ && a != "--carve"@ && a != "--free"@ ==> parsed(command_line(ps) + (seq![a] + rest))
            == ParsedView::Unknown(a),
        source_among(ps) matches Some(source) ==> parsed(command_line(ps) + seq!["--to"@]) == ParsedView::Run(
            OptionsView { source, to: None, ..asked_for(ps) },
        ) && parsed(command_line(ps) + seq!["--match"@]) == ParsedView::Run(
            OptionsView { source, pattern: None, ..asked_for(ps) },
        ),
{
    options_differ();
    let known = seq!["-h"@, "--help"@, "--to"@, "--match"@, "--include-overwritten"@, "--carve"@, "--free"@];
    assert(known[0] == "-h"@ && known[1] == "--help"@ && known[2] == "--to"@ && known[3] == "--match"@);
    let line = command_line(ps);
    let n = line.len() as int;
    parts_are_read(ps, seq![a] + rest);
    assert((line + (seq![a] + rest))[n] == a);
    if a.len() > 0 && a[0] == '-' {
        assert(a.take(1) =~= "-"@);
    }
    parts_are_read(ps, seq!["--to"@]);
    assert((line + seq!["--to"@])[n] == "--to"@);
    parts_are_read(ps, seq!["--match"@]);
    assert((line + seq!["--match"@])[n] == "--match"@);
    reveal_with_fuel(parse_from, 2);
}

/// The exit code tells why nothing is run: 0 for a call for help, 2 for wrong arguments.
pub proof fn exit_code_tells_why(a: Seq<char>, o: OptionsView)
    ensures
        exit_code_of(ParsedView::Help) == Some(0i32),
        exit_code_of(ParsedView::Unknown(a)) == Some(2i32),
        exit_code_of(ParsedView::NoSource) == Some(2i32),
        exit_code_of(ParsedView::Run(o)) is None,
{
}

/// A file is chosen exactly if its path matches the pattern, where one is given, and it is intact
/// or partly reused, or all files are asked for.
pub proof fn files_to_recover(o: OptionsView, files: Seq<DeletedView>, i: usize)
    requires
        i < files.len(),
        files.len() <= usize::MAX,
    ensures
        chosen(o, files, files.len() as int).contains(i) <==> {
            let f = files[i as int];
            &&& o.pattern is None || glob_accepts(o.pattern->0, f.path)
            &&& o.all || f.state == State::Intact || f.state == State::PartlyReused
        },
{
    chosen_files_are_the_wanted(o, files, files.len() as int);
}

/// What a call comes to, where nothing fails: without an output directory the files are listed,
/// and that is all; with one it is made and checked before the source is looked at, and behind
/// the list the chosen files are written; with `--carve` the source is carved in place of that,
/// which needs an output directory.
pub proof fn call_takes_its_course(o: OptionsView, mounted: Option<Seq<char>>, files: u64, count: u64, ok: u64)
    ensures
        o.to is None ==> reaction(o, EventView::Opened).action == Action::CheckMounted,
        o.to is Some ==> reaction(o, EventView::Opened).action == Action::MakeDir,
        reaction(o, EventView::DirMade).action == Action::CheckDestination,
        reaction(o, EventView::DestinationAllowed).action == Action::CheckMounted,
        !o.carve ==> reaction(o, EventView::Mounted(mounted)).action == Action::List,
        o.carve && o.to is Some ==> reaction(o, EventView::Mounted(mounted)).action == Action::Carve,
        o.carve && o.to is None ==> reaction(o, EventView::Mounted(mounted)).action == Action::Exit(2),
        reaction(o, EventView::Carved).action == Action::Exit(0),
        o.to is None ==> reaction(o, EventView::Listed(files, count)).action == Action::Exit(0),
        o.to is Some && count == 0 ==> reaction(o, EventView::Listed(files, count)).action == Action::Exit(1),
        o.to is Some && count > 0 ==> reaction(o, EventView::Listed(files, count)).action == Action::Recover,
        reaction(o, EventView::Recovered(ok, count)).action == Action::Exit(0) <==> ok == count,
        reaction(o, EventView::Recovered(ok, count)).action == Action::Exit(1) <==> ok != count,
{
}

/// Whether the text `m` stands in `line`.
pub open spec fn mentions(line: Seq<char>, m: Seq<char>) -> bool {
    exists|i: int| 0 <= i && i + m.len() <= line.len() && #[trigger] line.subrange(i, i + m.len()) == m
}

proof fn parts_are_mentioned(a: Seq<char>, m: Seq<char>, b: Seq<char>)
    ensures
        mentions(a + m + b, m),
{
    let line = a + m + b;
    let i = a.len() as int;
    assert(line.subrange(i, i + m.len()) =~= m);
}

/// What fails ends the command with exit code 1 and one complaint, which names the file or
/// directory and gives the reason.
pub proof fn failures_are_complained_of(o: OptionsView, dir: Seq<char>, m: Seq<char>)
    requires
        o.to is None || o.to == Some(dir),
    ensures
        ({
            let open = reaction(o, EventView::OpenFailed(m));
            let made = reaction(o, EventView::DirFailed(m));
            let refused = reaction(o, EventView::DestinationRefused(m));
            &&& open.action == Action::Exit(1) && made.action == Action::Exit(1) && refused.action == Action::Exit(1)
            &&& open.lines.len() == 0 && made.lines.len() == 0 && refused.lines.len() == 0
            &&& open.complaints.len() == 1 && mentions(open.complaints[0], o.source) && mentions(open.complaints[0], m)
            &&& made.complaints.len() == 1 && (o.to is Some ==> mentions(made.complaints[0], dir)) && mentions(made.complaints[0], m)
            &&& refused.complaints.len() == 1 && mentions(refused.complaints[0], m)
        }),
{
    let none = Seq::<char>::empty();
    let a = "dcheck: cannot open "@ + o.source + ": "@ + m;
    parts_are_mentioned("dcheck: cannot open "@, o.source, ": "@ + m);
    assert("dcheck: cannot open "@ + o.source + (": "@ + m) =~= a);
    parts_are_mentioned("dcheck: cannot open "@ + o.source + ": "@, m, none);
    assert(a + none =~= a);
    let d = output_dir(o);
    let b = "dcheck: cannot create "@ + d + ": "@ + m;
    parts_are_mentioned("dcheck: cannot create "@, d, ": "@ + m);
    assert("dcheck: cannot create "@ + d + (": "@ + m) =~= b);
    parts_are_mentioned("dcheck: cannot create "@ + d + ": "@, m, none);
    assert(b + none =~= b);
    let c = "dcheck: refusing: "@ + m;
    parts_are_mentioned("dcheck: refusing: "@, m, none);
    assert(c + none =~= c);
}

/// A source that is mounted read-write is warned of, by its name and the place where it is
/// mounted, before the search starts; otherwise there is nothing to complain of, unless carving
/// lacks an output directory.
pub proof fn mounted_source_is_warned_of(o: OptionsView, m: Seq<char>)
    ensures
        ({
            let r = reaction(o, EventView::Mounted(Some(m)));
            let quiet = reaction(o, EventView::Mounted(None));
            let missing: int = if o.carve && o.to is None {
                1
            } else {
                0
            };
            &&& r.complaints.len() == 1 + missing
            &&& mentions(r.complaints[0], o.source)
            &&& mentions(r.complaints[0], m)
            &&& quiet.complaints.len() == missing
            &&& r.action == quiet.action
        }),
{
    let tail =
        ": the system keeps writing to it, which can overwrite deleted files. Unmount it or image it first (ddrescue)."@;
    let line = "warning: "@ + o.source + " is mounted read-write on "@ + m + tail;
    parts_are_mentioned("warning: "@, o.source, " is mounted read-write on "@ + m + tail);
    assert("warning: "@ + o.source + (" is mounted read-write on "@ + m + tail) =~= line);
    parts_are_mentioned("warning: "@ + o.source + " is mounted read-write on "@, m, tail);
    assert(reaction(o, EventView::Mounted(Some(m))).complaints[0] == line);
}

/// The last line of a recovery counts the files that were written and those that were to be, and
/// names the directory.
pub proof fn recovery_is_summed_up(o: OptionsView, ok: u64, count: u64)
    ensures
        ({
            let r = reaction(o, EventView::Recovered(ok, count));
            &&& r.lines.len() == 1 && r.complaints.len() == 0
            &&& mentions(r.lines[0], decimal_text(ok as nat) + " of "@ + decimal_text(count as nat))
            &&& o.to matches Some(d) ==> mentions(r.lines[0], d)
        }),
{
    let a = decimal_text(ok as nat);
    let b = decimal_text(count as nat);
    let d = output_dir(o);
    let tail = ". Open them to check: a PARTLY REUSED file may be damaged."@;
    let line = "\n  "@ + a + " of "@ + b + " file(s) written to "@ + d + tail;
    parts_are_mentioned("\n  "@, a + " of "@ + b, " file(s) written to "@ + d + tail);
    assert("\n  "@ + (a + " of "@ + b) + (" file(s) written to "@ + d + tail) =~= line);
    parts_are_mentioned("\n  "@ + a + " of "@ + b + " file(s) written to "@, d, tail);
}

/// A destination is allowed exactly if the source is no device, or the destination is known to
/// be on another disk.
pub proof fn destinations_that_are_allowed(block_device: bool, disk: Seq<char>, dest_disk: Option<Seq<char>>, dest: Seq<char>)
    ensures
        destination(block_device, disk, dest_disk, dest) is Ok <==> !block_device || (dest_disk is Some && dest_disk->0 != disk),
{
}

/// A device is named without the directory of devices, however often that stands there.
pub proof fn devices_go_by_their_names(name: Seq<char>)
    ensures
        device_part(seq!['/', 'd', 'e', 'v', '/'] + name) == device_part(name),
        name.len() < 5 || name.subrange(0, 5) != seq!['/', 'd', 'e', 'v', '/'] ==> device_part(name) == name,
{
    reveal_strlit("/dev/");
    assert("/dev/"@ =~= seq!['/', 'd', 'e', 'v', '/']);
    let whole = "/dev/"@ + name;
    assert(whole.take(5) =~= "/dev/"@);
    assert(whole.skip(5) =~= name);
    if name.len() >= 5 {
        assert(name.take(5) =~= name.subrange(0, 5));
    }
}

} // verus!
