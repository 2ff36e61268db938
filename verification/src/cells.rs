//! The block map: which of its cells a file's data occupies, and a sample scan to show.

use crate::model::{title_of, volume_title};
use crate::model::{Data, DataView, Deleted, DeletedView, Scan, ScanView, Share, State, VolMap, VolMapView, Volume, VolumeView, MAP_CELLS};
use vstd::prelude::*;

verus! {

/// The cell (unbounded) of a byte in a volume of `size` bytes that is shown in `cells` cells.
pub open spec fn cell_of(byte: u64, size: u64, cells: usize) -> int {
    (byte * cells) / if size == 0 {
        1
    } else {
        size as int
    }
}

/// `c`, or the last cell.
pub open spec fn at_most_last(c: int, cells: usize) -> int {
    if c < cells {
        c
    } else {
        cells - 1
    }
}

/// Whether an extent starts inside the volume of the map.
pub open spec fn starts_in(m: VolMapView, e: (Option<u64>, u64)) -> bool {
    e.0 is Some && m.base <= e.0->Some_0 < m.base.wrapping_add(m.size)
}

/// The first cell of an extent that starts inside the volume.
pub open spec fn first_cell(m: VolMapView, cells: usize, e: (Option<u64>, u64)) -> int {
    at_most_last(cell_of((e.0->Some_0 - m.base) as u64, m.size, cells), cells)
}

/// The last cell of an extent that starts inside the volume.
pub open spec fn last_cell(m: VolMapView, cells: usize, e: (Option<u64>, u64)) -> int {
    at_most_last(
        cell_of(((e.0->Some_0 - m.base) as u64).wrapping_add(e.1.saturating_sub(1)), m.size, cells),
        cells,
    )
}

/// Whether an extent occupies cell `i`.
pub open spec fn covers(m: VolMapView, cells: usize, e: (Option<u64>, u64), i: int) -> bool {
    starts_in(m, e) && first_cell(m, cells, e) <= i <= last_cell(m, cells, e)
}

/// Whether one of the extents occupies cell `i`.
pub open spec fn any_covers(m: VolMapView, cells: usize, ext: Seq<(Option<u64>, u64)>, i: int) -> bool {
    exists|k: int| 0 <= k < ext.len() && covers(m, cells, #[trigger] ext[k], i)
}

/// Those of the first `n` cells that the extents occupy, in ascending order.
pub open spec fn covered_cells(m: VolMapView, cells: usize, ext: Seq<(Option<u64>, u64)>, n: int) -> Seq<usize>
    decreases n,
{
    if n <= 0 {
        seq![]
    } else {
        let before = covered_cells(m, cells, ext, n - 1);
        if any_covers(m, cells, ext, n - 1) {
            before.push((n - 1) as usize)
        } else {
            before
        }
    }
}

/// The cells that a file occupies; none where it stands in its record.
pub open spec fn cells_of_file(data: DataView, m: VolMapView, cells: usize) -> Seq<usize> {
    match data {
        DataView::Extents(ext) => covered_cells(m, cells, ext, cells as int),
        DataView::Resident(_) => seq![],
    }
}

/// The cells of a file are cells of the map, in ascending order, and exactly those that one
/// of its extents occupies.
pub proof fn file_cells_are_exact(m: VolMapView, cells: usize, ext: Seq<(Option<u64>, u64)>, n: int)
    requires
        0 <= n <= cells,
    ensures
        forall|i: int| 0 <= i < covered_cells(m, cells, ext, n).len() ==> #[trigger] covered_cells(m, cells, ext, n)[i] < n,
        forall|i: int, j: int|
            0 <= i < j < covered_cells(m, cells, ext, n).len() ==> covered_cells(m, cells, ext, n)[i] < covered_cells(
                m,
                cells,
                ext,
                n,
            )[j],
        forall|c: usize| c < n ==> (#[trigger] covered_cells(m, cells, ext, n).contains(c) <==> any_covers(
            m,
            cells,
            ext,
            c as int,
        )),
    decreases n,
{
    if n > 0 {
        file_cells_are_exact(m, cells, ext, n - 1);
        let before = covered_cells(m, cells, ext, n - 1);
        let all = covered_cells(m, cells, ext, n);
        assert forall|c: usize| c < n implies (#[trigger] all.contains(c) <==> any_covers(m, cells, ext, c as int)) by {
            if all.contains(c) && c < n - 1 {
                let i = choose|i: int| 0 <= i < all.len() && all[i] == c;
                assert(i < before.len());
                assert(before[i] == c);
                assert(before.contains(c));
            }
            if all.contains(c) && c == n - 1 && !any_covers(m, cells, ext, n - 1) {
                let i = choose|i: int| 0 <= i < before.len() && before[i] == c;
                assert(before[i] < n - 1);
            }
            if any_covers(m, cells, ext, c as int) {
                if c < n - 1 {
                    assert(before.contains(c));
                    let i = choose|i: int| 0 <= i < before.len() && before[i] == c;
                    assert(all[i] == c);
                } else {
                    assert(all[all.len() - 1] == c);
                }
            }
        }
    }
}

fn find_cell(byte: u64, size: u64, cells: usize) -> (r: usize)
    requires
        cells > 0,
    ensures
        r == at_most_last(cell_of(byte, size, cells), cells),
        0 <= r < cells,
{
    let m: u128 = if size == 0 {
        1
    } else {
        size as u128
    };
    assert(0 <= byte * cells <= 0xFFFF_FFFF_FFFF_FFFF * 0xFFFF_FFFF_FFFF_FFFF) by (nonlinear_arith)
        requires
            0 <= byte <= 0xFFFF_FFFF_FFFF_FFFF,
            0 <= cells <= 0xFFFF_FFFF_FFFF_FFFF,
    ;
    let q: u128 = byte as u128 * cells as u128 / m;
    if q < cells as u128 {
        q as usize
    } else {
        cells - 1
    }
}

/// Map cells (of `cells`) a file's data occupies in its volume map.
pub fn file_cells(f: &Deleted, m: &VolMap, cells: usize) -> (r: Vec<usize>)
    ensures
        r@ == cells_of_file(f.data@, m@, cells),
{
    let mut out: Vec<usize> = Vec::new();
    if let Data::Extents(ext) = &f.data {
        if cells == 0 {
            return out;
        }
        let mut marks: Vec<bool> = vec![false; cells];
        let mut k: usize = 0;
        while k < ext.len()
            invariant
                k <= ext@.len(),
                cells > 0,
                marks@.len() == cells,
                forall|i: int| 0 <= i < cells ==> #[trigger] marks@[i] == any_covers(m@, cells, ext@.take(k as int), i),
            decreases ext@.len() - k,
        {
            let ghost seen = ext@.take(k as int);
            let ghost next = ext@.take(k + 1);
            let ghost marks0 = marks@;
            let (off, len) = ext[k];
            let ghost e = ext@[k as int];
            assert(next[k as int] == e);
            assert forall|i: int| 0 <= i < cells implies any_covers(m@, cells, next, i) == (any_covers(m@, cells, seen, i)
                || covers(m@, cells, e, i)) by {
                if any_covers(m@, cells, next, i) {
                    let j = choose|j: int| 0 <= j < next.len() && covers(m@, cells, #[trigger] next[j], i);
                    if j < k {
                        assert(seen[j] == next[j]);
                    }
                }
                if any_covers(m@, cells, seen, i) {
                    let j = choose|j: int| 0 <= j < seen.len() && covers(m@, cells, #[trigger] seen[j], i);
                    assert(next[j] == seen[j]);
                }
                if covers(m@, cells, e, i) {
                    assert(covers(m@, cells, next[k as int], i));
                }
            }
            if let Some(o) = off {
                if o >= m.base && o < m.base.wrapping_add(m.size) {
                    let first = find_cell(o - m.base, m.size, cells);
                    let last = find_cell((o - m.base).wrapping_add(len.saturating_sub(1)), m.size, cells);
                    let mut i = first;
                    while i <= last
                        invariant
                            first <= i,
                            i <= last + 1 || i == first,
                            last < cells,
                            marks@.len() == cells,
                            marks0.len() == cells,
                            forall|j: int|
                                0 <= j < cells ==> #[trigger] marks@[j] == (marks0[j] || first <= j < i),
                        decreases last + 1 - i,
                    {
                        marks.set(i, true);
                        i += 1;
                    }
                    assert(starts_in(m@, e));
                }
            }
            k += 1;
        }
        assert(ext@.take(k as int) =~= ext@);
        let mut i: usize = 0;
        while i < cells
            invariant
                i <= cells,
                marks@.len() == cells,
                forall|i: int| 0 <= i < cells ==> #[trigger] marks@[i] == any_covers(m@, cells, ext@, i),
                out@ == covered_cells(m@, cells, ext@, i as int),
            decreases cells - i,
        {
            if marks[i] {
                out.push(i);
            }
            i += 1;
        }
    }
    out
}

/// The share that cell `i` of the sample map shows.
pub open spec fn demo_share(i: int) -> Share {
    let h = (i * 37 + 11) % 100;
    if i < 40 || (i < 700 && h < 70) {
        Share { allocated: 1, sampled: 1 }
    } else if h < 12 {
        Share { allocated: 1, sampled: 2 }
    } else {
        Share { allocated: 0, sampled: 1 }
    }
}

/// The volume of the sample scan of a disk of `size` bytes.
pub open spec fn demo_volume(size: u64) -> VolumeView {
    VolumeView { label: "partition 1"@, fs: "NTFS"@, base: 0x10_0000, size: size.saturating_sub(0x10_0000) }
}

/// Extents of `len` bytes at the start of a cell of the sample map.
pub open spec fn demo_extent(vol: VolumeView, cell: int, len: int) -> DataView {
    DataView::Extents(seq![(Some((vol.base + vol.size as int / 1024 * cell) as u64), len as u64)])
}

/// A deleted file of the sample scan.
pub open spec fn demo_file(vol: VolumeView, path: Seq<char>, size: u64, state: State, data: DataView) -> DeletedView {
    DeletedView { volume: volume_title(vol.label, "NTFS"@), path, size, state, data, note: None }
}

/// The sample scan: an NTFS volume with deleted files in every state.
pub open spec fn demo_of(size: u64) -> ScanView {
    let vol = demo_volume(size);
    let span = vol.size as int / 1024;
    ScanView {
        volumes: seq![vol],
        files: seq![
            demo_file(
                vol,
                "Dokumen Kantor/Laporan Keuangan 2026.xlsx"@,
                482_304,
                State::Intact,
                demo_extent(vol, 712, 482_304),
            ),
            demo_file(vol, "Dokumen Kantor/Kontrak Vendor.pdf"@, 2_310_144, State::Intact, demo_extent(vol, 750, span * 6)),
            demo_file(vol, "Foto/IMG_2031.jpg"@, 3_145_728, State::PartlyReused, demo_extent(vol, 640, span * 9)),
            demo_file(vol, "Foto/IMG_2032.jpg"@, 2_883_584, State::Overwritten, demo_extent(vol, 300, span * 4)),
            demo_file(vol, "catatan.txt"@, 612, State::Intact, DataView::Resident(seq![0x64, 0x65, 0x6D, 0x6F])),
            demo_file(vol, "backup/db-2026-09-20.sql"@, 48_234_496, State::Intact, demo_extent(vol, 820, span * 30)),
        ],
        carve_only: seq![],
        errors: seq![],
        maps: seq![
            VolMapView {
                volume: volume_title(vol.label, "NTFS"@),
                base: vol.base,
                size: vol.size,
                used: Seq::new(MAP_CELLS as nat, |i: int| demo_share(i)),
            },
        ],
    }
}

fn make_extent(vol: &Volume, cell: u64, len: u64) -> (r: Data)
    requires
        cell <= 1024,
        vol.base == 0x10_0000,
        vol.size <= u64::MAX - 0x10_0000,
    ensures
        r@ == demo_extent(vol@, cell as int, len as int),
{
    let span = vol.size / 1024;
    assert(0 <= span * cell <= vol.size) by (nonlinear_arith)
        requires
            span == vol.size / 1024,
            0 <= cell <= 1024,
            0 <= vol.size,
    ;
    let ext = vec![(Some(vol.base + span * cell), len)];
    assert(ext@ =~= demo_extent(vol@, cell as int, len as int)->Extents_0);
    Data::Extents(ext)
}

fn make_file(vol: &Volume, path: &str, size: u64, state: State, data: Data) -> (r: Deleted)
    ensures
        r@ == demo_file(vol@, path@, size, state, data@),
{
    Deleted { volume: title_of(vol.label.as_str(), "NTFS"), path: path.to_owned(), size, state, data, note: None }
}

fn make_map(vol: &Volume) -> (r: VolMap)
    ensures
        r@.volume == volume_title(vol@.label, "NTFS"@),
        r@.base == vol.base,
        r@.size == vol.size,
        r@.used == Seq::new(MAP_CELLS as nat, |i: int| demo_share(i)),
{
    let mut used: Vec<Share> = Vec::new();
    let mut i: usize = 0;
    while i < MAP_CELLS
        invariant
            i <= MAP_CELLS,
            used@.len() == i,
            forall|k: int| 0 <= k < i ==> #[trigger] used@[k] == demo_share(k),
        decreases MAP_CELLS - i,
    {
        let h = (i * 37 + 11) % 100;
        used.push(
            if i < 40 || (i < 700 && h < 70) {
                Share { allocated: 1, sampled: 1 }
            } else if h < 12 {
                Share { allocated: 1, sampled: 2 }
            } else {
                Share { allocated: 0, sampled: 1 }
            },
        );
        i += 1;
    }
    assert(used@ =~= Seq::new(MAP_CELLS as nat, |i: int| demo_share(i)));
    VolMap { volume: title_of(vol.label.as_str(), "NTFS"), base: vol.base, size: vol.size, used }
}

/// Demo scan (no disk): an NTFS volume with deleted files in every state.
pub fn demo_scan(size: u64) -> (r: Scan)
    ensures
        r@ == demo_of(size),
{
    let vol = Volume {
        label: "partition 1".to_owned(),
        fs: "NTFS",
        base: 0x10_0000,
        size: size.saturating_sub(0x10_0000),
    };
    let span = vol.size / 1024;
    let mut note: Vec<u8> = Vec::new();
    note.push(0x64);
    note.push(0x65);
    note.push(0x6D);
    note.push(0x6F);
    assert(note@ =~= seq![0x64, 0x65, 0x6D, 0x6F]);
    let mut files: Vec<Deleted> = Vec::new();
    files.push(
        make_file(
            &vol,
            "Dokumen Kantor/Laporan Keuangan 2026.xlsx",
            482_304,
            State::Intact,
            make_extent(&vol, 712, 482_304),
        ),
    );
    files.push(
        make_file(&vol, "Dokumen Kantor/Kontrak Vendor.pdf", 2_310_144, State::Intact, make_extent(&vol, 750, span * 6)),
    );
    files.push(make_file(&vol, "Foto/IMG_2031.jpg", 3_145_728, State::PartlyReused, make_extent(&vol, 640, span * 9)));
    files.push(make_file(&vol, "Foto/IMG_2032.jpg", 2_883_584, State::Overwritten, make_extent(&vol, 300, span * 4)));
    files.push(make_file(&vol, "catatan.txt", 612, State::Intact, Data::Resident(note)));
    files.push(
        make_file(&vol, "backup/db-2026-09-20.sql", 48_234_496, State::Intact, make_extent(&vol, 820, span * 30)),
    );
    let mut maps: Vec<VolMap> = Vec::new();
    maps.push(make_map(&vol));
    let mut volumes: Vec<Volume> = Vec::new();
    volumes.push(vol);
    let r = Scan { volumes, files, carve_only: Vec::new(), errors: Vec::new(), maps };
    assert(r@.volumes =~= demo_of(size).volumes);
    assert(r@.files =~= demo_of(size).files);
    assert(r@.carve_only =~= demo_of(size).carve_only);
    assert(r@.errors =~= demo_of(size).errors);
    assert(r@.maps =~= demo_of(size).maps);
    r
}

/// Every byte of a file shows: the cell of each byte of its extents that lies in the volume is one
/// of the file's cells.
pub proof fn bytes_of_a_file_show(m: VolMapView, cells: usize, ext: Seq<(Option<u64>, u64)>, k: int, p: int)
    requires
        cells > 0,
        m.size > 0,
        m.base + m.size <= u64::MAX,
        0 <= k < ext.len(),
        ext[k].0 matches Some(o) && m.base <= o <= p < o + ext[k].1 && o + ext[k].1 <= u64::MAX && p < m.base + m.size,
    ensures
        0 <= (p - m.base) * cells / m.size as int,
        (p - m.base) * cells / (m.size as int) < cells,
        cells_of_file(DataView::Extents(ext), m, cells).contains(((p - m.base) * cells / m.size as int) as usize),
{
    let o = ext[k].0->0;
    let e = ext[k];
    let size = m.size as int;
    let a = (o - m.base) * cells;
    let b = (p - m.base) * cells;
    let c = (o - m.base + e.1 - 1) * cells;
    assert(0 <= a <= b <= c) by (nonlinear_arith)
        requires
            a == (o - m.base) * cells,
            b == (p - m.base) * cells,
            c == (o - m.base + e.1 - 1) * cells,
            0 <= o - m.base <= p - m.base <= o - m.base + e.1 - 1,
            cells > 0,
    ;
    assert(0 <= a / size <= b / size <= c / size) by (nonlinear_arith)
        requires
            0 <= a <= b <= c,
            size > 0,
    ;
    assert(b < size * cells) by (nonlinear_arith)
        requires
            b == (p - m.base) * cells,
            p - m.base < size,
            cells > 0,
    ;
    assert(b / size < cells) by (nonlinear_arith)
        requires
            0 <= b < size * cells,
            size > 0,
    ;
    let i = b / size;
    assert(covers(m, cells, ext[k], i));
    assert(any_covers(m, cells, ext, i));
    file_cells_are_exact(m, cells, ext, cells as int);
}

/// No other cell shows: a cell of a file lies between those of the first and the last byte of one
/// of its extents, which starts in the volume. A file in its record shows nowhere.
pub proof fn shown_cells_hold_bytes(m: VolMapView, cells: usize, ext: Seq<(Option<u64>, u64)>, i: usize, b: Seq<u8>)
    requires
        cells > 0,
        m.size > 0,
        m.base + m.size <= u64::MAX,
        cells_of_file(DataView::Extents(ext), m, cells).contains(i),
    ensures
        i < cells,
        exists|k: int|
            0 <= k < ext.len() && ((#[trigger] ext[k]).0 matches Some(o) && m.base <= o < m.base + m.size && (o - m.base) * cells
                / m.size as int <= i && (o + ext[k].1 <= u64::MAX && ext[k].1 > 0 ==> i <= (o - m.base + ext[k].1 - 1) * cells
                / m.size as int)),
        cells_of_file(DataView::Resident(b), m, cells).len() == 0,
{
    file_cells_are_exact(m, cells, ext, cells as int);
    let all = covered_cells(m, cells, ext, cells as int);
    let x = choose|x: int| 0 <= x < all.len() && all[x] == i;
    assert(all[x] < cells);
    assert(any_covers(m, cells, ext, i as int));
    let k = choose|k: int| 0 <= k < ext.len() && covers(m, cells, #[trigger] ext[k], i as int);
    let o = ext[k].0->0;
    let size = m.size as int;
    let a = (o - m.base) * cells;
    assert(0 <= a < size * cells) by (nonlinear_arith)
        requires
            a == (o - m.base) * cells,
            0 <= o - m.base < size,
            cells > 0,
    ;
    assert(a / size < cells) by (nonlinear_arith)
        requires
            0 <= a < size * cells,
            size > 0,
    ;
    assert(m.base <= o < m.base + m.size);
}

/// The sample scan is that of one NTFS volume a mebibyte into the disk, with a file in every
/// state, and all of its files lie inside the volume.
pub proof fn sample_files_lie_in_the_volume(size: u64, k: int)
    requires
        size >= 0x50_0000,
        0 <= k < demo_of(size).files.len(),
    ensures
        ({
            let s = demo_of(size);
            let f = s.files[k];
            &&& s.volumes.len() == 1 && s.maps.len() == 1 && s.errors.len() == 0 && s.carve_only.len() == 0
            &&& s.volumes[0].fs == "NTFS"@ && s.volumes[0].base == 0x10_0000 && s.volumes[0].base + s.volumes[0].size == size
            &&& f.volume == s.volumes[0].label + " ("@ + "NTFS"@ + ")"@ && f.volume == s.maps[0].volume
            &&& s.maps[0].base == s.volumes[0].base && s.maps[0].size == s.volumes[0].size && s.maps[0].used.len() == 1024
            &&& f.data matches DataView::Extents(ext) ==> ext.len() == 1 && (ext[0].0 matches Some(o) && s.volumes[0].base <= o && o
                + ext[0].1 <= size)
            &&& exists|i: int| 0 <= i < s.files.len() && (#[trigger] s.files[i]).state == State::Intact
            &&& exists|i: int| 0 <= i < s.files.len() && (#[trigger] s.files[i]).state == State::PartlyReused
            &&& exists|i: int| 0 <= i < s.files.len() && (#[trigger] s.files[i]).state == State::Overwritten
        }),
{
    let s = demo_of(size);
    assert(s.files[0].state == State::Intact);
    assert(s.files[2].state == State::PartlyReused);
    assert(s.files[3].state == State::Overwritten);
}

} // verus!
