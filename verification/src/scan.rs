//! Scanning a source: every volume on it, by its filesystem.

use crate::exfat::{exfat, exfat_free, exfat_free_ranges, exfat_scan};
use crate::fat32::{fat32, fat32_free, fat32_free_ranges, fat32_scan};
use crate::model::{title_of, views, views_add, views_push, volume_title};
use crate::model::{Deleted, DeletedView, Scan, ScanView, VolMap, VolMapView, Volume, VolumeView};
use crate::ntfs::{ntfs, ntfs_free, ntfs_free_ranges, ntfs_scan};
use crate::source::{Error, Source};
use crate::text::{joined, same_text};
use crate::volume::{volumes, volumes_on};
use vstd::prelude::*;

verus! {

/// Whether deleted files can be looked up on filesystem `fs`.
pub open spec fn supported(fs: Seq<char>) -> bool {
    fs == "FAT32"@ || fs == "exFAT"@ || fs == "NTFS"@
}

/// What a scan of the volume `v` finds, on a supported filesystem.
pub open spec fn volume_scan<S: Source + ?Sized>(src: &S, v: VolumeView) -> Result<(Seq<DeletedView>, VolMapView), Seq<char>> {
    if v.fs == "FAT32"@ {
        fat32_scan(src, v)
    } else if v.fs == "exFAT"@ {
        exfat_scan(src, v)
    } else {
        ntfs_scan(src, v)
    }
}

/// `s` with what the volume `v` holds: its deleted files and its map, the error that came
/// instead, or, where its filesystem is not supported, its name among those to carve.
pub open spec fn with_volume<S: Source + ?Sized>(src: &S, s: ScanView, v: VolumeView) -> ScanView {
    if !supported(v.fs) {
        ScanView { carve_only: s.carve_only.push(volume_title(v.label, v.fs)), ..s }
    } else {
        match volume_scan(src, v) {
            Ok((files, map)) => ScanView { files: s.files + files, maps: s.maps.push(map), ..s },
            Err(e) => ScanView { errors: s.errors.push(volume_title(v.label, v.fs) + ": "@ + e), ..s },
        }
    }
}

/// A scan that found the volumes `all`, once those in `done` are read.
pub open spec fn scan_through<S: Source + ?Sized>(src: &S, all: Seq<VolumeView>, done: Seq<VolumeView>) -> ScanView
    decreases done.len(),
{
    if done.len() == 0 {
        ScanView { volumes: all, files: seq![], carve_only: seq![], errors: seq![], maps: seq![] }
    } else {
        with_volume(src, scan_through(src, all, done.drop_last()), done.last())
    }
}

/// What a scan of `src` finds.
pub open spec fn scan_of<S: Source + ?Sized>(src: &S) -> ScanView {
    scan_through(src, volumes_on(src), volumes_on(src))
}

/// Every volume of a scan is accounted for once: by a map, by an error, or as one to carve.
pub proof fn volumes_are_accounted_for<S: Source + ?Sized>(src: &S, all: Seq<VolumeView>, done: Seq<VolumeView>)
    ensures
        scan_through(src, all, done).volumes == all,
        scan_through(src, all, done).maps.len() + scan_through(src, all, done).errors.len() + scan_through(
            src,
            all,
            done,
        ).carve_only.len() == done.len(),
    decreases done.len(),
{
    if done.len() > 0 {
        volumes_are_accounted_for(src, all, done.drop_last());
    }
}

fn scan_volume<S: Source + ?Sized>(src: &S, v: &Volume) -> (r: Result<(Vec<Deleted>, VolMap), Error>)
    requires
        supported(v@.fs),
    ensures
        match r {
            Ok((files, map)) => volume_scan(src, v@) == Ok::<(Seq<DeletedView>, VolMapView), Seq<char>>(
                (views(files@), map@),
            ),
            Err(e) => volume_scan(src, v@) == Err::<(Seq<DeletedView>, VolMapView), Seq<char>>(e@),
        },
{
    if same_text(v.fs, "FAT32") {
        fat32(src, v)
    } else if same_text(v.fs, "exFAT") {
        exfat(src, v)
    } else {
        ntfs(src, v)
    }
}

/// Find the deleted files on `src`.
pub fn scan<S: Source + ?Sized>(src: &S) -> (r: Scan)
    ensures
        r@ == scan_of(src),
{
    let vols = volumes(src);
    let ghost all = views(vols@);
    let mut files: Vec<Deleted> = Vec::new();
    let mut carve_only: Vec<String> = Vec::new();
    let mut errors: Vec<String> = Vec::new();
    let mut maps: Vec<VolMap> = Vec::new();
    assert(views(files@) =~= seq![]);
    assert(views(carve_only@) =~= seq![]);
    assert(views(errors@) =~= seq![]);
    assert(views(maps@) =~= seq![]);
    let mut i: usize = 0;
    while i < vols.len()
        invariant
            i <= vols@.len(),
            all == views(vols@),
            (ScanView {
                volumes: all,
                files: views(files@),
                carve_only: views(carve_only@),
                errors: views(errors@),
                maps: views(maps@),
            }) == scan_through(src, all, all.take(i as int)),
        decreases vols@.len() - i,
    {
        assert(all.take(i + 1).drop_last() =~= all.take(i as int));
        let v = &vols[i];
        assert(all.take(i + 1).last() == v@);
        if same_text(v.fs, "FAT32") || same_text(v.fs, "exFAT") || same_text(v.fs, "NTFS") {
            match scan_volume(src, v) {
                Ok((mut f, m)) => {
                    proof {
                        views_add(files@, f@);
                        views_push(maps@, m);
                    }
                    files.append(&mut f);
                    maps.push(m);
                },
                Err(e) => {
                    let mut line = joined(title_of(v.label.as_str(), v.fs).as_str(), ": ");
                    line.append(e.message.as_str());
                    proof {
                        views_push(errors@, line);
                    }
                    errors.push(line);
                },
            }
        } else {
            let title = title_of(v.label.as_str(), v.fs);
            proof {
                views_push(carve_only@, title);
            }
            carve_only.push(title);
        }
        i += 1;
    }
    assert(all.take(i as int) =~= all);
    Scan { volumes: vols, files, carve_only, errors, maps }
}

/// The free space of the volume `v`, where its allocation table is understood.
pub open spec fn free_space<S: Source + ?Sized>(src: &S, v: VolumeView) -> Result<Seq<(u64, u64)>, Seq<char>> {
    if v.fs == "FAT32"@ {
        fat32_free_ranges(src, v)
    } else if v.fs == "exFAT"@ {
        exfat_free_ranges(src, v)
    } else if v.fs == "NTFS"@ {
        ntfs_free_ranges(src, v)
    } else {
        Err("no free-space bitmap for this filesystem"@)
    }
}

/// Free clusters of a volume as byte ranges, when its allocation table is
/// understood (NTFS `$Bitmap`, FAT32 table, exFAT bitmap). Unsupported
/// filesystems return an error and the caller carves the whole volume.
pub fn free_ranges<S: Source + ?Sized>(src: &S, vol: &Volume) -> (r: Result<Vec<(u64, u64)>, Error>)
    ensures
        match r {
            Ok(v) => free_space(src, vol@) == Ok::<Seq<(u64, u64)>, Seq<char>>(v@),
            Err(e) => free_space(src, vol@) == Err::<Seq<(u64, u64)>, Seq<char>>(e@),
        },
{
    if same_text(vol.fs, "FAT32") {
        fat32_free(src, vol)
    } else if same_text(vol.fs, "exFAT") {
        exfat_free(src, vol)
    } else if same_text(vol.fs, "NTFS") {
        ntfs_free(src, vol)
    } else {
        Err(Error::other("no free-space bitmap for this filesystem"))
    }
}

proof fn titles_of_volume<S: Source + ?Sized>(src: &S, v: VolumeView)
    requires
        supported(v.fs),
    ensures
        volume_scan(src, v) matches Ok((files, map)) ==> {
            &&& forall|i: int| 0 <= i < files.len() ==> (#[trigger] files[i]).volume == volume_title(v.label, v.fs)
            &&& map.volume == volume_title(v.label, v.fs)
        },
{
    reveal(fat32_scan);
    reveal(exfat_scan);
    reveal(ntfs_scan);
    let title = volume_title(v.label, v.fs);
    if v.fs == "FAT32"@ {
        if let Ok(f) = crate::fat32::fat32_volume(src, v) {
            crate::fat32::listed_files_were_deleted(src, f.heap, title, f.root);
        }
    } else if v.fs == "exFAT"@ {
        if let Ok(b) = src.at(v.base, 512) {
            let g = crate::exfat::exfat_geometry(b);
            if let Ok((heap, bits)) = crate::exfat::exfat_tables(src, v.base, g) {
                crate::exfat::listed_files_were_deleted(src, heap, bits, title, g.root);
            }
        }
    } else {
        if let Ok((boot, runs)) = crate::ntfs::mft_start(src, v.base) {
            if let Ok(m) = crate::ntfs::with_runs(src, boot, runs, crate::ntfs::empty_mft()) {
                let bits = crate::ntfs::cluster_bitmap(src, boot.g, m.recs);
                let names = crate::ntfs::spare_names(src, boot.g, m);
                crate::ntfs::listed_records_were_deleted(src, boot.g, title, m.recs, bits, names, m.keys);
            }
        }
    }
}

/// Whether one of the volumes has this title.
pub open spec fn titled(vols: Seq<VolumeView>, title: Seq<char>) -> bool {
    exists|i: int| 0 <= i < vols.len() && volume_title((#[trigger] vols[i]).label, vols[i].fs) == title
}

/// Every deleted file of a scan is listed under the title of a volume that was found.
pub proof fn files_belong_to_volumes<S: Source + ?Sized>(src: &S, all: Seq<VolumeView>, done: Seq<VolumeView>)
    ensures
        forall|i: int|
            0 <= i < scan_through(src, all, done).files.len() ==> titled(
                done,
                (#[trigger] scan_through(src, all, done).files[i]).volume,
            ),
    decreases done.len(),
{
    if done.len() > 0 {
        let init = done.drop_last();
        let v = done.last();
        files_belong_to_volumes(src, all, init);
        let before = scan_through(src, all, init).files;
        let files = scan_through(src, all, done).files;
        if supported(v.fs) {
            titles_of_volume(src, v);
        }
        assert forall|i: int| 0 <= i < files.len() implies titled(done, (#[trigger] files[i]).volume) by {
            if i < before.len() {
                assert(files[i] == before[i]);
                let k = choose|k: int|
                    0 <= k < init.len() && volume_title((#[trigger] init[k]).label, init[k].fs) == before[i].volume;
                assert(done[k] == init[k]);
            } else {
                let found = volume_scan(src, v)->Ok_0.0;
                assert(files[i] == found[i - before.len()]);
                assert(done[done.len() - 1] == v);
            }
        }
    }
}

#[verifier::rlimit(40)]
proof fn scan_goes_on<S: Source + ?Sized>(src: &S, all: Seq<VolumeView>, done: Seq<VolumeView>, n: int)
    requires
        0 <= n <= done.len(),
    ensures
        ({
            let a = scan_through(src, all, done.take(n));
            let b = scan_through(src, all, done);
            &&& a.files.len() <= b.files.len() && a.files == b.files.take(a.files.len() as int)
            &&& a.maps.len() <= b.maps.len() && a.maps == b.maps.take(a.maps.len() as int)
            &&& a.errors.len() <= b.errors.len() && a.errors == b.errors.take(a.errors.len() as int)
            &&& a.carve_only.len() <= b.carve_only.len() && a.carve_only == b.carve_only.take(a.carve_only.len() as int)
        }),
    decreases done.len(),
{
    let a = scan_through(src, all, done.take(n));
    let b = scan_through(src, all, done);
    if n == done.len() {
        assert(done.take(n) =~= done);
        assert(b.files.take(b.files.len() as int) =~= b.files);
        assert(b.maps.take(b.maps.len() as int) =~= b.maps);
        assert(b.errors.take(b.errors.len() as int) =~= b.errors);
        assert(b.carve_only.take(b.carve_only.len() as int) =~= b.carve_only);
    } else {
        let init = done.drop_last();
        scan_goes_on(src, all, init, n);
        assert(init.take(n) =~= done.take(n));
        let c = scan_through(src, all, init);
        assert(b.files.take(a.files.len() as int) =~= c.files.take(a.files.len() as int));
        assert(b.maps.take(a.maps.len() as int) =~= c.maps.take(a.maps.len() as int));
        assert(b.errors.take(a.errors.len() as int) =~= c.errors.take(a.errors.len() as int));
        assert(b.carve_only.take(a.carve_only.len() as int) =~= c.carve_only.take(a.carve_only.len() as int));
    }
}

/// Whether `part` stands in `all`, in one piece.
pub open spec fn in_one_piece<T>(all: Seq<T>, part: Seq<T>) -> bool {
    exists|o: int| 0 <= o && o + part.len() <= all.len() && part == #[trigger] all.subrange(o, o + part.len())
}

/// What a reader of FAT32, of exFAT or of NTFS finds on the volume, by its filesystem.
pub open spec fn found_on<S: Source + ?Sized>(src: &S, v: VolumeView) -> Option<Result<(Seq<DeletedView>, VolMapView), Seq<char>>> {
    if v.fs == "NTFS"@ {
        Some(ntfs_scan(src, v))
    } else if v.fs == "exFAT"@ {
        Some(exfat_scan(src, v))
    } else if v.fs == "FAT32"@ {
        Some(fat32_scan(src, v))
    } else {
        None
    }
}

/// Every volume is scanned: all of the files found on it are listed, in one piece, and its map is
/// there; or the error is, under the volume's title; or the title is, among those to carve.
#[verifier::rlimit(40)]
pub proof fn every_volume_is_scanned<S: Source + ?Sized>(src: &S, k: int)
    requires
        0 <= k < volumes_on(src).len(),
    ensures
        ({
            let v = volumes_on(src)[k];
            let s = scan_of(src);
            let title = v.label + " ("@ + v.fs + ")"@;
            &&& s.volumes == volumes_on(src)
            &&& found_on(src, v) is None ==> s.carve_only.contains(title)
            &&& found_on(src, v) matches Some(Ok((files, map))) ==> in_one_piece(s.files, files) && s.maps.contains(map)
            &&& found_on(src, v) matches Some(Err(e)) ==> s.errors.contains(title + ": "@ + e)
        }),
{
    names_differ();
    let all = volumes_on(src);
    let v = all[k];
    let s = scan_of(src);
    volumes_are_accounted_for(src, all, all);
    scan_goes_on(src, all, all, k + 1);
    assert(all.take(k + 1).drop_last() =~= all.take(k));
    assert(all.take(k + 1).last() == v);
    let a = scan_through(src, all, all.take(k));
    let b = scan_through(src, all, all.take(k + 1));
    assert(b == with_volume(src, a, v));
    let title = v.label + " ("@ + v.fs + ")"@;
    match found_on(src, v) {
        None => {
            assert(b.carve_only[a.carve_only.len() as int] == title);
            assert(s.carve_only[a.carve_only.len() as int] == title);
        },
        Some(Ok((files, map))) => {
            let o = a.files.len() as int;
            assert(b.files == a.files + files);
            assert forall|i: int| 0 <= i < files.len() implies files[i] == s.files[o + i] by {
                assert(b.files[o + i] == files[i]);
            }
            assert(files =~= s.files.subrange(o, o + files.len()));
            assert(b.maps[a.maps.len() as int] == map);
            assert(s.maps[a.maps.len() as int] == map);
        },
        Some(Err(e)) => {
            assert(b.errors[a.errors.len() as int] == title + ": "@ + e);
            assert(s.errors[a.errors.len() as int] == title + ": "@ + e);
        },
    }
}

proof fn names_differ()
    ensures
        "NTFS"@ != "exFAT"@,
        "NTFS"@ != "FAT32"@,
        "exFAT"@ != "FAT32"@,
{
    reveal_strlit("NTFS");
    reveal_strlit("exFAT");
    reveal_strlit("FAT32");
    assert("exFAT"@[0] != "FAT32"@[0]);
}

/// How many files the readers find on the volumes, all in all.
pub open spec fn files_found<S: Source + ?Sized>(src: &S, vols: Seq<VolumeView>) -> nat
    decreases vols.len(),
{
    if vols.len() == 0 {
        0
    } else {
        files_found(src, vols.drop_last()) + match found_on(src, vols.last()) {
            Some(Ok((files, map))) => files.len(),
            _ => 0,
        }
    }
}

/// No other file is listed: as many as the readers find.
pub proof fn only_found_files_are_listed<S: Source + ?Sized>(src: &S)
    ensures
        scan_of(src).files.len() == files_found(src, volumes_on(src)),
{
    listed_up_to(src, volumes_on(src), volumes_on(src));
}

proof fn listed_up_to<S: Source + ?Sized>(src: &S, all: Seq<VolumeView>, done: Seq<VolumeView>)
    ensures
        scan_through(src, all, done).files.len() == files_found(src, done),
    decreases done.len(),
{
    if done.len() > 0 {
        names_differ();
        listed_up_to(src, all, done.drop_last());
    }
}

/// The free space of a volume goes by its filesystem; of one that is not understood there is none
/// to be had.
pub proof fn free_space_goes_by_the_filesystem<S: Source + ?Sized>(src: &S, v: VolumeView)
    ensures
        v.fs == "NTFS"@ ==> free_space(src, v) == ntfs_free_ranges(src, v),
        v.fs == "exFAT"@ ==> free_space(src, v) == exfat_free_ranges(src, v),
        v.fs == "FAT32"@ ==> free_space(src, v) == fat32_free_ranges(src, v),
        found_on(src, v) is None ==> free_space(src, v) is Err,
{
    names_differ();
}

} // verus!
