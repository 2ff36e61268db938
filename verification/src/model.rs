//! Volumes, deleted files, and what a scan reports.

use vstd::prelude::*;

verus! {

/// The views of the items of a sequence.
pub open spec fn views<T: View>(s: Seq<T>) -> Seq<T::V> {
    s.map_values(|x: T| x@)
}

/// Appending an item appends its view.
pub proof fn views_push<T: View>(s: Seq<T>, x: T)
    ensures
        views(s.push(x)) == views(s).push(x@),
{
    assert(views(s.push(x)) =~= views(s).push(x@));
}

/// Joining two sequences joins their views.
pub proof fn views_add<T: View>(s: Seq<T>, t: Seq<T>)
    ensures
        views(s + t) == views(s) + views(t),
{
    assert(views(s + t) =~= views(s) + views(t));
}

/// What has become of a deleted file's clusters.
#[derive(Debug, Clone, Copy, PartialEq, Eq, Structural)]
pub enum State {
    /// Every cluster is still free.
    Intact,
    /// Some clusters are in use by another file now.
    PartlyReused,
    /// All clusters are in use again: the contents are gone.
    Overwritten,
}

impl State {
    /// The word for a state in a report.
    pub fn label(self) -> (r: &'static str)
        ensures
            r@ == self.label_text(),
    {
        match self {
            State::Intact => "INTACT",
            State::PartlyReused => "PARTLY REUSED",
            State::Overwritten => "OVERWRITTEN",
        }
    }

    /// The word for a state in a report.
    pub open spec fn label_text(self) -> Seq<char> {
        match self {
            State::Intact => "INTACT"@,
            State::PartlyReused => "PARTLY REUSED"@,
            State::Overwritten => "OVERWRITTEN"@,
        }
    }
}

/// The state of a file with `used` of its `total` clusters in use again.
pub open spec fn state_of(used: int, total: int) -> State {
    if used == 0 {
        State::Intact
    } else if used >= total {
        State::Overwritten
    } else {
        State::PartlyReused
    }
}

/// The state of a file with `used` of its `total` clusters in use again.
pub fn state(used: u64, total: u64) -> (r: State)
    ensures
        r == state_of(used as int, total as int),
{
    if used == 0 {
        State::Intact
    } else if used >= total {
        State::Overwritten
    } else {
        State::PartlyReused
    }
}

/// Where a deleted file's bytes are.
#[derive(Debug, Clone, PartialEq, Eq)]
pub enum Data {
    /// (byte offset in the source, length); `None` offset = sparse (zeros).
    Extents(Vec<(Option<u64>, u64)>),
    /// Stored inside the NTFS record.
    Resident(Vec<u8>),
}

/// The view of `Data`.
pub enum DataView {
    Extents(Seq<(Option<u64>, u64)>),
    Resident(Seq<u8>),
}

impl View for Data {
    type V = DataView;

    open spec fn view(&self) -> DataView {
        match self {
            Data::Extents(v) => DataView::Extents(v@),
            Data::Resident(v) => DataView::Resident(v@),
        }
    }
}

/// The lengths of extents, added up.
pub open spec fn total_length(ext: Seq<(Option<u64>, u64)>) -> nat
    decreases ext.len(),
{
    if ext.len() == 0 {
        0
    } else {
        total_length(ext.drop_last()) + ext.last().1 as nat
    }
}

/// No extent is longer than all of them together.
pub proof fn total_length_bounds_each(ext: Seq<(Option<u64>, u64)>)
    ensures
        forall|i: int| 0 <= i < ext.len() ==> (#[trigger] ext[i]).1 <= total_length(ext),
    decreases ext.len(),
{
    if ext.len() > 0 {
        let init = ext.drop_last();
        total_length_bounds_each(init);
        assert forall|i: int| 0 <= i < ext.len() implies (#[trigger] ext[i]).1 <= total_length(ext) by {
            if i < init.len() {
                assert(init[i] == ext[i]);
            }
        }
    }
}

/// The length of extents one after the other is that of both.
pub proof fn total_length_adds(a: Seq<(Option<u64>, u64)>, b: Seq<(Option<u64>, u64)>)
    ensures
        total_length(a + b) == total_length(a) + total_length(b),
    decreases b.len(),
{
    if b.len() == 0 {
        assert(a + b =~= a);
    } else {
        assert((a + b).drop_last() =~= a + b.drop_last());
        total_length_adds(a, b.drop_last());
    }
}

/// A file that was deleted.
#[derive(Debug, Clone)]
pub struct Deleted {
    /// Partition label, e.g. "sdb1 (NTFS)" or "whole device (FAT32)".
    pub volume: String,
    pub path: String,
    pub size: u64,
    pub state: State,
    pub data: Data,
    /// How sure the location is ("assumed contiguous").
    pub note: Option<&'static str>,
}

/// The view of `Deleted`.
pub struct DeletedView {
    pub volume: Seq<char>,
    pub path: Seq<char>,
    pub size: u64,
    pub state: State,
    pub data: DataView,
    pub note: Option<Seq<char>>,
}

/// The text behind an optional constant string.
pub open spec fn text_view(t: Option<&'static str>) -> Option<Seq<char>> {
    match t {
        Some(t) => Some(t@),
        None => None,
    }
}

impl View for Deleted {
    type V = DeletedView;

    open spec fn view(&self) -> DeletedView {
        DeletedView {
            volume: self.volume@,
            path: self.path@,
            size: self.size,
            state: self.state,
            data: self.data@,
            note: text_view(self.note),
        }
    }
}

/// A filesystem found on the source.
#[derive(Debug, Clone)]
pub struct Volume {
    pub label: String,
    pub fs: &'static str,
    pub base: u64,
    pub size: u64,
}

/// The view of `Volume`.
pub struct VolumeView {
    pub label: Seq<char>,
    pub fs: Seq<char>,
    pub base: u64,
    pub size: u64,
}

impl View for Volume {
    type V = VolumeView;

    open spec fn view(&self) -> VolumeView {
        VolumeView { label: self.label@, fs: self.fs@, base: self.base, size: self.size }
    }
}

/// Cells of the volume map (share of allocated clusters per cell).
pub const MAP_CELLS: usize = 1024;

/// A share: `allocated` of `sampled` clusters.
#[derive(Debug, Clone, Copy, PartialEq, Eq, Structural)]
pub struct Share {
    pub allocated: u64,
    pub sampled: u64,
}

/// Where a volume's space is in use now, for the block map.
#[derive(Debug, Clone)]
pub struct VolMap {
    pub volume: String,
    /// Byte range of the volume in the source.
    pub base: u64,
    pub size: u64,
    /// `MAP_CELLS` shares: how much of each cell is allocated.
    pub used: Vec<Share>,
}

/// The view of `VolMap`.
pub struct VolMapView {
    pub volume: Seq<char>,
    pub base: u64,
    pub size: u64,
    pub used: Seq<Share>,
}

impl View for VolMap {
    type V = VolMapView;

    open spec fn view(&self) -> VolMapView {
        VolMapView { volume: self.volume@, base: self.base, size: self.size, used: self.used@ }
    }
}

/// `label (fs)`, the name under which a volume's files and map are listed.
pub open spec fn volume_title(label: Seq<char>, fs: Seq<char>) -> Seq<char> {
    label + " ("@ + fs + ")"@
}

/// `label (fs)`.
pub fn title_of(label: &str, fs: &str) -> (r: String)
    ensures
        r@ == volume_title(label@, fs@),
{
    let mut r = label.to_owned();
    r.append(" (");
    r.append(fs);
    r.append(")");
    r
}

/// Result of scanning a source.
#[derive(Debug)]
pub struct Scan {
    pub volumes: Vec<Volume>,
    pub files: Vec<Deleted>,
    /// Volumes whose filesystem has no undelete support (carving only).
    pub carve_only: Vec<String>,
    pub errors: Vec<String>,
    /// Allocation maps of the scanned volumes (for the block map).
    pub maps: Vec<VolMap>,
}

/// The view of `Scan`.
pub struct ScanView {
    pub volumes: Seq<VolumeView>,
    pub files: Seq<DeletedView>,
    pub carve_only: Seq<Seq<char>>,
    pub errors: Seq<Seq<char>>,
    pub maps: Seq<VolMapView>,
}

impl View for Scan {
    type V = ScanView;

    open spec fn view(&self) -> ScanView {
        ScanView {
            volumes: views(self.volumes@),
            files: views(self.files@),
            carve_only: views(self.carve_only@),
            errors: views(self.errors@),
            maps: views(self.maps@),
        }
    }
}

/// The state of a file goes by how many of its clusters are in use: intact where none is,
/// overwritten where all are, and partly reused in between.
pub proof fn state_goes_by_the_count(used: int, total: int)
    requires
        0 <= used <= total,
        total > 0,
    ensures
        state_of(used, total) == State::Intact <==> used == 0,
        state_of(used, total) == State::Overwritten <==> used == total,
        state_of(used, total) == State::PartlyReused <==> 0 < used < total,
{
}

} // verus!
