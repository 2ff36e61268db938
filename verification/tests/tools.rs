//! Carving, patterns, paths, the report, the command line, and mounted filesystems.

use dcheck::carve::{carve, carve_all, carve_end, carve_step, Carved, CHUNK};
use dcheck::cells::{demo_scan, file_cells};
use dcheck::clusters::{cluster_runs, count_used, Allocation};
use dcheck::cli::{check_destination, choose_files, device_name, exit_code, parse_args, react, Action, Event, Options, Parsed};
use dcheck::fat32::{dotted_name, sfn};
use dcheck::glob::{glob, matches_text};
use dcheck::heap::ClusterHeap;
use dcheck::kind::guess_ext;
use dcheck::model::{state, Data, Deleted, State, VolMap};
use dcheck::mount::{from_blocks, parse_df, Usage};
use dcheck::plan::{carved_file, carved_name};
use dcheck::progress::Calls;
use dcheck::recover::{clean_components, contents, numbered_name, output_components, recovery, recovery_path};
use dcheck::report::scan_lines;
use dcheck::source::{read, Error, Reader, Source};
use dcheck::text::{decimal, utf16};
use dcheck::volume::volumes;

#[test]
fn carves_known_formats() {
    let mut img = vec![0u8; 8192];
    let jpg = [0xFF, 0xD8, 0xFF, 0xE0, 1, 2, 3, 0xFF, 0xD9];
    img[512..512 + jpg.len()].copy_from_slice(&jpg);
    let pdf = b"%PDF-1.4\nhello\n%%EOF\n";
    img[2048..2048 + pdf.len()].copy_from_slice(pdf);
    let found = carve(&img, 0, img.len() as u64, &mut Calls::new(|_, _| {}));
    assert_eq!(found, vec![Carved { offset: 512, len: 9, ext: "jpg" }, Carved { offset: 2048, len: pdf.len() as u64, ext: "pdf" }]);
}

#[test]
fn carved_files_end_at_their_marks() {
    assert_eq!(carve_end(b"\x89PNG\r\n\x1a\n....IEND\xAE\x42\x60\x82"), Some((20, "png")));
    assert_eq!(carve_end(b"\x89PNG\r\n\x1a\n...."), None);
    assert_eq!(carve_end(&[0xFF, 0xD8, 0xFF, 0, 0xD9]), None);
    assert_eq!(carve_end(b"%PDF-1%%EOF\r\n\nx"), Some((14, "pdf")));
    assert_eq!(carve_end(b"plain text"), None);
    let zip = |inner: &[u8], comment: &[u8]| {
        let mut v = b"PK\x03\x04".to_vec();
        v.extend(inner);
        v.extend(b"PK\x05\x06");
        v.extend([0u8; 16]);
        v.extend((comment.len() as u16).to_le_bytes());
        v.extend(comment);
        v
    };
    assert_eq!(carve_end(&zip(b"word/", b"")), Some((31, "docx")));
    assert_eq!(carve_end(&zip(b"xl/", b"")), Some((29, "xlsx")));
    assert_eq!(carve_end(&zip(b"ppt/", b"abc")), Some((33, "pptx")));
    assert_eq!(carve_end(&zip(b"a.txt", b"xl/")), Some((34, "xlsx")));
    assert_eq!(carve_end(&zip(b"a.txt", b"")), Some((31, "zip")));
    // Cut off in the end record: no comment.
    assert_eq!(carve_end(b"PK\x03\x04PK\x05\x06"), Some((26, "zip")));
}

#[test]
fn a_search_skips_what_it_has_carved() {
    // A file with the start of another one inside it.
    let mut img = vec![0u8; 4096];
    img[0..3].copy_from_slice(&[0xFF, 0xD8, 0xFF]);
    img[1024..1029].copy_from_slice(b"%PDF-");
    img[1500..1505].copy_from_slice(b"%%EOF");
    img[2000..2002].copy_from_slice(&[0xFF, 0xD9]);
    img[2048..2053].copy_from_slice(b"%PDF-");
    img[2060..2065].copy_from_slice(b"%%EOF");
    let pdf = Carved { offset: 2048, len: 17, ext: "pdf" };
    let mut seen = Vec::new();
    let found = carve(&img, 0, 4096, &mut Calls::new(|done, total| seen.push((done, total))));
    assert_eq!(found, vec![Carved { offset: 0, len: 2002, ext: "jpg" }, pdf.clone()]);
    assert_eq!(seen, vec![(4096, 4096)]);
    // What starts before the range is not found, nor is what is in the same sector.
    let mut told: Vec<(u64, u64)> = Vec::new();
    let found = carve(&img, 100, 4096, &mut told);
    assert_eq!(found, vec![Carved { offset: 1024, len: 481, ext: "pdf" }, pdf.clone()]);
    assert_eq!(told, vec![(3996, 3996)]);
    let mut told: Vec<(u64, u64)> = vec![(1, 2)];
    assert_eq!(carve(&img, 1025, 4096, &mut told), vec![pdf]);
    assert_eq!(told, vec![(1, 2), (3071, 3071)]);
    // A file that reaches out of the range: the search goes on behind it.
    let s = carve_step(&img, 0, 1024, 0);
    assert_eq!(s.found, vec![Carved { offset: 0, len: 2002, ext: "jpg" }]);
    assert_eq!((s.next, s.report), (2048, Some((1024, 1024))));
    // What cannot be read is passed over without a report.
    let s = carve_step(&img, 0, 8192, 0);
    assert!(s.found.is_empty());
    assert_eq!((s.next, s.report), (CHUNK, None));
}

#[test]
fn a_search_is_told_done() {
    // A file up to the end of the range, which ends inside a sector.
    let mut img = vec![0u8; 600];
    img[0..3].copy_from_slice(&[0xFF, 0xD8, 0xFF]);
    img[598..600].copy_from_slice(&[0xFF, 0xD9]);
    let mut told: Vec<(u64, u64)> = Vec::new();
    assert_eq!(carve(&img, 0, 600, &mut told), vec![Carved { offset: 0, len: 600, ext: "jpg" }]);
    assert_eq!(told, vec![(600, 600)]);
    // No sector starts in the range.
    let mut told: Vec<(u64, u64)> = Vec::new();
    assert!(carve(&img, 1, 500, &mut told).is_empty());
    assert_eq!(told, vec![(499, 499)]);
    // An empty range: there is nothing to tell.
    let mut told: Vec<(u64, u64)> = Vec::new();
    assert!(carve(&img, 512, 512, &mut told).is_empty());
    assert!(told.is_empty());
}

#[test]
fn ranges_are_searched_one_after_the_other() {
    let mut img = vec![0u8; 4096];
    for at in [512, 2048, 3072] {
        img[at..at + 5].copy_from_slice(b"%PDF-");
        img[at + 10..at + 15].copy_from_slice(b"%%EOF");
        img[at + 7] = (at / 512) as u8;
    }
    let pdf = |offset: u64| Carved { offset, len: 15, ext: "pdf" };
    let mut told: Vec<(u64, u64)> = Vec::new();
    let found = carve_all(&img, &[(3000, 4096), (0, 1024)], &mut told);
    assert_eq!(found, vec![pdf(3072), pdf(512)]);
    assert_eq!(told, vec![(1096, 1096), (1024, 1024)]);
    assert!(carve_all(&img, &[], &mut told).is_empty());
    let (path, bytes) = carved_file(&img, 2, &found[1]);
    assert_eq!(path, "carved/000002.pdf");
    assert_eq!(bytes.unwrap(), b"%PDF-\x00\x00\x01\x00\x00%%EOF");
    let (path, bytes) = carved_file(&img, 3, &Carved { offset: 4090, len: 15, ext: "zip" });
    assert_eq!((path.as_str(), bytes.unwrap_err().message.as_str()), ("carved/000003.zip", "past the end"));
}

#[test]
fn a_file_in_every_other_sector_is_found() {
    let mut img = vec![0u8; 64 * 512];
    for k in (1..64).step_by(2) {
        img[512 * k..512 * k + 5].copy_from_slice(b"%PDF-");
        img[512 * k + 100..512 * k + 105].copy_from_slice(b"%%EOF");
    }
    let found = carve(&img, 0, img.len() as u64, &mut Vec::new());
    let places: Vec<u64> = found.iter().map(|c| c.offset).collect();
    assert_eq!(places, (0..32).map(|k| 1024 * k + 512).collect::<Vec<u64>>());
    assert!(found.iter().all(|c| c.ext == "pdf"));
}

#[test]
fn globs_and_safe_paths() {
    assert!(glob("*.xlsx", "Dokumen Kantor/Laporan Keuangan 2026.xlsx"));
    assert!(glob("laporan*", "Dokumen Kantor/Laporan Keuangan 2026.xlsx"));
    assert!(glob("dokumen*/*", "Dokumen Kantor/x.txt"));
    assert!(!glob("*.pdf", "a.xlsx"));
    assert_eq!(clean_components("../../etc/passwd"), vec!["etc", "passwd"]);
    assert_eq!(numbered_name("a.txt", 1), "a (1).txt");
}

#[test]
fn patterns_match_letter_by_letter() {
    assert!(matches_text("*", "") && matches_text("*", "any/thing"));
    assert!(matches_text("a?c", "abc") && !matches_text("a?c", "ac"));
    assert!(matches_text("abc", "abc") && !matches_text("abc", "abcd") && !matches_text("abc", "ABC"));
    assert!(matches_text("*.xlsx", "b.xlsx") && !matches_text("*.xlsx", "b.xlsx.bak"));
    assert!(matches_text("a*b*c", "a__b__b__c"));
    // Case, and the file name alone.
    assert!(glob("FOTO/img_????.JPG", "Foto/IMG_2031.jpg"));
    assert!(glob("straße.txt", "Straße.TXT") && !glob("foto", "Foto/IMG_2031.jpg"));
    assert!(glob("*", "") && glob("*", "A/b.C"));
    assert!(matches_text("?", "x") && !matches_text("?", "") && !matches_text("?", "xy"));
    for (p, s) in [("a*[Z]_@`{|}~", "A1[z]_@`{|}~"), ("img_?", "DCIM/IMG_1"), ("a.txt", "b.txt"), ("@", "`")] {
        assert_eq!(glob(p, s), glob(&p.to_ascii_uppercase(), &s.to_ascii_uppercase()));
        assert_eq!(glob(p, s), glob(p, &s.to_ascii_uppercase()));
    }
    assert!(!glob("@", "`") && !glob("[", "{"));
    // A pattern for a file name finds the file in any folder.
    assert!(glob("Readme.md", "README.MD") && glob("Readme.md", "docs/old/readme.md") && !glob("readme.md", "readme.md/x"));
}

#[test]
fn paths_never_leave_the_output_directory() {
    assert_eq!(clean_components("a/./..//b\\c/\0d/..."), vec!["a", "b_c", "_d", "..."]);
    assert!(clean_components("../..").is_empty());
    assert_eq!(output_components("a/../b.txt"), vec!["a", "b.txt"]);
    assert_eq!(output_components(".."), vec!["unnamed"]);
    assert_eq!(output_components(""), vec!["unnamed"]);
    assert_eq!(output_components("partition-1/."), vec!["partition-1"]);
    assert_eq!(numbered_name("report.tar.gz", 12), "report.tar (12).gz");
    assert_eq!(numbered_name(".profile", 1), ".profile (1)");
    assert_eq!(numbered_name("noext", 2), "noext (2)");
    assert_eq!(numbered_name("dot.", 3), "dot (3).");
    assert_eq!(carved_name(7, "jpg"), "carved/000007.jpg");
    assert_eq!(carved_name(1_234_567, "pdf"), "carved/1234567.pdf");
}

fn deleted(volume: &str, path: &str, state: State, size: u64, data: Data) -> Deleted {
    Deleted { volume: volume.to_string(), path: path.to_string(), size, state, data, note: None }
}

#[test]
fn files_are_put_together_from_their_extents() {
    let disk: Vec<u8> = (0..100u8).collect();
    let ext = Data::Extents(vec![(Some(10), 3), (None, 2), (Some(50), 4), (Some(98), 10)]);
    let f = deleted("partition 2 (NTFS)", "a/b.bin", State::Intact, 11, ext);
    assert_eq!(contents(&disk, &f).unwrap(), vec![10, 11, 12, 0, 0, 50, 51, 52, 53, 98, 99]);
    assert_eq!(recovery_path(&f), "partition-2/a/b.bin");
    assert_eq!(recovery(&disk, &f).unwrap(), ("partition-2/a/b.bin".to_string(), contents(&disk, &f).unwrap()));
    // Cut to its size.
    let f = Deleted { size: 4, ..f };
    assert_eq!(contents(&disk, &f).unwrap(), vec![10, 11, 12, 0]);
    // Resident data is all there is.
    let f = deleted("whole device (NTFS)", "c.txt", State::Intact, 3, Data::Resident(b"abc".to_vec()));
    assert_eq!(contents(&disk, &f).unwrap(), b"abc");
    assert_eq!(recovery_path(&f), "c.txt");
}

#[test]
fn read_errors_are_passed_on() {
    let broken = Reader::new(|_, _| Err(Error::other("input/output error")), 1000);
    let f = deleted("whole device (FAT32)", "x.bin", State::Intact, 5, Data::Extents(vec![(Some(0), 5)]));
    assert_eq!(contents(&broken, &f).unwrap_err().message, "input/output error");
    assert_eq!(recovery(&broken, &f).unwrap_err(), "x.bin: input/output error");
    assert!(volumes(&broken).is_empty());
    assert!(carve(&broken, 0, 1000, &mut Calls::new(|_, _| {})).is_empty());
}

#[test]
fn sources_can_read_through_a_function() {
    let r = Reader::new(|off, n| if n < 5 { Ok(vec![off as u8; n]) } else { Ok(Vec::new()) }, 77);
    assert_eq!(Source::len(&r), 77);
    assert_eq!(read(&r, 3, 4).unwrap(), vec![3, 3, 3, 3]);
    assert_eq!(read(&r, 3, 5).unwrap_err().message, "short read");
    // A file is recovered from it as from a buffer.
    let disk: Vec<u8> = (0..200u8).collect();
    let copy = disk.clone();
    let r = Reader::new(move |off, n| Ok(copy[off as usize..off as usize + n].to_vec()), 200);
    let f = deleted("", "", State::Intact, 9, Data::Extents(vec![(Some(20), 4), (None, 2), (Some(190), 5)]));
    assert_eq!(contents(&r, &f).unwrap(), contents(&disk, &f).unwrap());
    assert_eq!(contents(&r, &f).unwrap(), vec![20, 21, 22, 23, 0, 0, 190, 191, 192]);
}

#[test]
fn kinds_are_guessed_from_the_first_bytes() {
    assert_eq!(guess_ext(&[0xFF, 0xD8, 0xFF, 0xE0]), "jpg");
    assert_eq!(guess_ext(b"\x89PNG\r\n"), "png");
    assert_eq!(guess_ext(b"%PDF"), "pdf");
    assert_eq!(guess_ext(b"PK\x03\x04"), "zip");
    assert_eq!(guess_ext(&[0xD0, 0xCF, 0x11, 0xE0]), "doc");
    assert_eq!(guess_ext(b"GIF89a"), "gif");
    assert_eq!(guess_ext(b"\x1f\x8b\x08"), "gz");
    assert_eq!(guess_ext(b"\0\0\0\x18ftypmp42"), "mp4");
    assert_eq!(guess_ext(b"hello\tworld\r\n"), "txt");
    assert_eq!(guess_ext(b"hello\x00"), "bin");
    assert_eq!(guess_ext(b""), "bin");
}

#[test]
fn states_follow_the_clusters() {
    assert_eq!(state(0, 5), State::Intact);
    assert_eq!(state(2, 5), State::PartlyReused);
    assert_eq!(state(5, 5), State::Overwritten);
    assert_eq!(State::PartlyReused.label(), "PARTLY REUSED");
}

#[test]
fn file_cells_are_the_cells_of_the_extents() {
    let m = VolMap { volume: String::new(), base: 1000, size: 1000, used: Vec::new() };
    let f = |ext: Vec<(Option<u64>, u64)>| deleted("", "", State::Intact, 0, Data::Extents(ext));
    assert_eq!(file_cells(&f(vec![(Some(1500), 200), (Some(1000), 1), (Some(1550), 10)]), &m, 10), vec![0, 5, 6]);
    // Outside, sparse, and past the end.
    assert_eq!(file_cells(&f(vec![(Some(999), 500), (None, 100), (Some(2000), 1), (Some(1950), 500)]), &m, 10), vec![9]);
    let r = deleted("", "", State::Intact, 0, Data::Resident(vec![1]));
    assert!(file_cells(&r, &m, 10).is_empty());
    // A cell number that is far too large is the last cell.
    let m = VolMap { volume: String::new(), base: 0, size: 1, used: Vec::new() };
    assert_eq!(file_cells(&f(vec![(Some(0), 1 << 63)]), &m, 4), vec![0, 1, 2, 3]);
}

#[test]
fn the_report_lists_volumes_and_files() {
    let mut s = demo_scan(1 << 30);
    assert_eq!(s.files.len(), 6);
    assert_eq!(s.maps[0].used.len(), 1024);
    assert_eq!(s.files[4].data, Data::Resident(b"demo".to_vec()));
    s.files.truncate(3);
    s.files[1].note = Some("assumed contiguous");
    s.errors.push("partition 2 (FAT32): bad FAT32 boot sector".to_string());
    s.carve_only.push("partition 3 (ext4)".to_string());
    let sizes: Vec<String> = ["471.0 KiB", "2.2 MiB", "3.0 MiB"].iter().map(|t| t.to_string()).collect();
    assert_eq!(scan_lines(&s, "DELETED FILES", &["1023.0 MiB".to_string()], &sizes), vec![
        "DELETED FILES",
        "  Volume       : partition 1 — NTFS, 1023.0 MiB",
        "  Error        : partition 2 (FAT32): bad FAT32 boot sector",
        "  partition 3 (ext4): deleted files keep no name or location on this filesystem — use --carve --to DIR",
        "",
        "  STATE                SIZE  PATH",
        "  INTACT          471.0 KiB  Dokumen Kantor/Laporan Keuangan 2026.xlsx",
        "  INTACT            2.2 MiB  Dokumen Kantor/Kontrak Vendor.pdf  (assumed contiguous)",
        "  PARTLY REUSED     3.0 MiB  Foto/IMG_2031.jpg",
        "",
        "  3 deleted file(s), 2 intact.",
    ]);
    s.files.clear();
    s.carve_only.clear();
    s.errors.clear();
    assert_eq!(scan_lines(&s, "H", &["x".to_string()], &[])[2], "  No deleted files found in the directory tables.");
    s.volumes.clear();
    assert_eq!(scan_lines(&s, "H", &[], &[]), vec![
        "H",
        "  No filesystem found (no NTFS / FAT32 / exFAT / ext4 / XFS / btrfs signature).",
    ]);
}

fn args(a: &[&str]) -> Vec<String> {
    a.iter().map(|s| s.to_string()).collect()
}

fn options(a: &[&str]) -> Options {
    match parse_args(&args(a)) {
        Parsed::Run(o) => o,
        other => panic!("not run: {other:?}"),
    }
}

#[test]
fn arguments_are_read_in_order() {
    let o = options(&["/dev/sdb", "--to", "/mnt", "--match", "*.xlsx", "--include-overwritten", "--carve", "--free"]);
    assert_eq!(o.source, "/dev/sdb");
    assert_eq!(o.to.as_deref(), Some("/mnt"));
    assert_eq!(o.pattern.as_deref(), Some("*.xlsx"));
    assert!(o.all && o.carve && o.free);
    let o = options(&["a.img", "b.img", "--to", "/mnt", "--to"]);
    assert_eq!((o.source.as_str(), o.to), ("b.img", None));
    assert!(matches!(parse_args(&args(&["x", "--help", "--bad"])), Parsed::Help));
    assert!(matches!(parse_args(&args(&["x", "--bad", "-h"])), Parsed::Unknown(a) if a == "--bad"));
    assert!(matches!(parse_args(&args(&["--carve"])), Parsed::NoSource));
    assert_eq!(exit_code(&parse_args(&args(&["-h"]))), Some(0));
    assert_eq!(exit_code(&parse_args(&args(&["x", "--wrong", "--help"]))), Some(2));
    assert_eq!(exit_code(&parse_args(&args(&[]))), Some(2));
    assert_eq!(exit_code(&parse_args(&args(&["x"]))), None);
}

#[test]
fn files_are_chosen_by_pattern_and_state() {
    let s = demo_scan(1 << 30);
    assert_eq!(choose_files(&options(&["x"]), &s.files), vec![0, 1, 2, 4, 5]);
    assert_eq!(choose_files(&options(&["x", "--match", "*.JPG"]), &s.files), vec![2]);
    assert_eq!(choose_files(&options(&["x", "--match", "foto/*", "--include-overwritten"]), &s.files), vec![2, 3]);
}

#[test]
fn the_command_goes_step_by_step() {
    let o = options(&["disk.img", "--to", "/mnt/usb"]);
    assert_eq!(react(&o, &Event::Opened).action, Action::MakeDir);
    assert_eq!(react(&o, &Event::DirMade).action, Action::CheckDestination);
    assert_eq!(react(&o, &Event::DestinationAllowed).action, Action::CheckMounted);
    let r = react(&o, &Event::Mounted(Some("/home".to_string())));
    assert_eq!(r.action, Action::List);
    assert_eq!(r.complaints, vec![
        "warning: disk.img is mounted read-write on /home: the system keeps writing to it, which can overwrite deleted files. Unmount it or image it first (ddrescue).",
    ]);
    assert_eq!(react(&o, &Event::Listed(6, 5)).action, Action::Recover);
    let r = react(&o, &Event::Recovered(4, 5));
    assert_eq!(r.action, Action::Exit(1));
    assert_eq!(r.lines, vec![
        "\n  4 of 5 file(s) written to /mnt/usb. Open them to check: a PARTLY REUSED file may be damaged.",
    ]);
    assert_eq!(react(&o, &Event::Recovered(5, 5)).action, Action::Exit(0));
    let r = react(&o, &Event::Listed(6, 0));
    assert_eq!((r.lines, r.action), (vec!["\n  Nothing to recover.".to_string()], Action::Exit(1)));
    let p = options(&["disk.img", "--to", "/mnt/usb", "--match", "*.x"]);
    assert_eq!(react(&p, &Event::Listed(6, 0)).lines, vec!["\n  Nothing to recover matching the pattern."]);
    let r = react(&o, &Event::OpenFailed("no such file".to_string()));
    assert_eq!((r.complaints, r.action), (vec!["dcheck: cannot open disk.img: no such file".to_string()], Action::Exit(1)));
    let r = react(&o, &Event::DirFailed("read-only".to_string()));
    assert_eq!((r.complaints, r.action), (vec!["dcheck: cannot create /mnt/usb: read-only".to_string()], Action::Exit(1)));
    let r = react(&o, &Event::DestinationRefused("same disk".to_string()));
    assert_eq!((r.complaints, r.action), (vec!["dcheck: refusing: same disk".to_string()], Action::Exit(1)));
    // Without an output directory nothing is written.
    let o = options(&["disk.img"]);
    assert_eq!(react(&o, &Event::Opened).action, Action::CheckMounted);
    assert_eq!(react(&o, &Event::Listed(0, 0)).lines, Vec::<String>::new());
    let r = react(&o, &Event::Listed(2, 2));
    assert_eq!(r.action, Action::Exit(0));
    assert_eq!(r.lines, vec!["\n  Recover with: dcheck undelete disk.img --to /path/on/another/disk [--match '*.docx']"]);
    let o = options(&["disk.img", "--carve"]);
    let r = react(&o, &Event::Mounted(None));
    assert_eq!((r.complaints, r.action), (vec!["dcheck: --carve needs --to DIR".to_string()], Action::Exit(2)));
    let o = options(&["disk.img", "--carve", "--to", "d"]);
    assert_eq!(react(&o, &Event::Mounted(None)).action, Action::Carve);
    assert_eq!(react(&o, &Event::Carved).action, Action::Exit(0));
}

#[test]
fn a_device_is_not_recovered_onto_itself() {
    assert!(check_destination(false, "sda", Some("sda"), "/mnt").is_ok());
    assert!(check_destination(true, "sda", Some("sdb"), "/mnt").is_ok());
    assert_eq!(
        check_destination(true, "sda", None, "/mnt"),
        Err("cannot tell which disk the destination is on".to_string()),
    );
    assert_eq!(
        check_destination(true, "sda", Some("sda"), "/mnt"),
        Err("the destination /mnt is on /dev/sda, the same disk as the source — writing there can overwrite the very files you want back. Use another disk (USB drive, network share).".to_string()),
    );
    assert_eq!(device_name("/dev/sda1"), "sda1");
    assert_eq!(device_name("/dev//dev/x"), "x");
    assert_eq!(device_name("tmpfs"), "tmpfs");
}

fn percent(u: &Usage) -> f64 {
    let (used, of) = u.percent_of();
    if of > 0 {
        used as f64 * 100.0 / of as f64
    } else {
        0.0
    }
}

#[test]
fn computes_percent_like_df() {
    // 100 blocks, 40 free (10 reserved), 4096 bytes: used=60, avail=30.
    let u = from_blocks(4096, 100, 40, 30);
    assert_eq!(u.total, 100 * 4096);
    assert_eq!(u.used, 60 * 4096);
    assert_eq!(u.avail, 30 * 4096);
    assert!((percent(&u) - 66.67).abs() < 0.5); // 60 / (60+30)
}

#[test]
fn parses_df_output() {
    let out = "Filesystem 1024-blocks      Used Available Capacity Mounted on\n\
               /dev/disk3s1   1000000    600000    300000      67%   /\n";
    let u = parse_df(out).unwrap();
    assert_eq!(u.total, 1_000_000 * 1024);
    assert_eq!(u.used, 600_000 * 1024);
    assert_eq!(u.avail, 300_000 * 1024);
    assert!((percent(&u) - 66.67).abs() < 0.5);
    assert!(parse_df("garbage").is_none());
}

#[test]
fn usage_is_bounded() {
    let u = from_blocks(0, 10, 20, 0);
    assert_eq!((u.total, u.used, u.avail), (10, 0, 0));
    assert_eq!(percent(&u), 0.0);
    let u = from_blocks(4096, u64::MAX, 0, u64::MAX);
    assert_eq!((u.total, u.percent_of()), (u64::MAX, (u64::MAX, u64::MAX)));
    assert!(parse_df("h\n\n \t\r\nfs +2 1 1 x\n").is_some());
    assert!(parse_df("h\nfs 2 1\n").is_none());
    assert!(parse_df("h\nfs 2 -1 1\n").is_none());
    assert!(parse_df("h\nfs 99999999999999999999 1 1\n").is_none());
}

#[test]
fn texts_are_decoded() {
    // A lone surrogate is replaced.
    assert_eq!(utf16(&[0x41, 0, 0x3D, 0xD8, 0x00, 0xDE, 0x00, 0xD8, 0x42, 0, 0xFF]), "A\u{1F600}\u{FFFD}B");
    assert_eq!(decimal(0), "0");
    assert_eq!(decimal(u64::MAX), u64::MAX.to_string());
}

#[test]
fn short_names_are_joined() {
    assert_eq!(sfn(b"README  TXT"), "README.TXT");
    assert_eq!(sfn(b"FOLDER     "), "FOLDER");
    assert_eq!(dotted_name("a b  ", "  "), "a b");
    // A byte that is no text is replaced.
    assert_eq!(sfn(b"ABC\xFF    TXT"), "ABC\u{FFFD}.TXT");
}

#[test]
fn chains_end_at_loops() {
    let heap = ClusterHeap {
        fat: vec![0, 0, 3, 5, 0x0FFF_FFFF, 2, 4],
        limit: 7,
        mask: 0x0FFF_FFFF,
        last: 0x0FFF_FFF8,
        start: 1000,
        cs: 10,
    };
    assert_eq!(heap.chain(2), vec![2, 3, 5]);
    assert_eq!(heap.chain(6), vec![6, 4]);
    assert!(heap.chain(1).is_empty() && heap.chain(7).is_empty());
    assert_eq!(heap.span(5, 9), vec![5, 6]);
    assert_eq!(heap.cluster_off(5), 1030);
    // An unreadable cluster is left out.
    let disk: Vec<u8> = (0..30u8).cycle().take(1025).collect();
    assert_eq!(heap.read_clusters(&disk, &[3, 5, 2]), disk[1010..1020].iter().chain(&disk[1000..1010]).copied().collect::<Vec<u8>>());
}

#[test]
fn free_runs_are_grouped() {
    let bits = [0b0000_1011u8, 0b1000_0000];
    let a = Allocation::Bits(&bits);
    assert_eq!(cluster_runs(16, a, 100, 10), vec![(120, 130), (140, 250)]);
    // Nothing is in use behind the bitmap.
    assert_eq!(cluster_runs(18, a, 0, 1), vec![(2, 3), (4, 15), (16, 18)]);
    let fat = [7u32, 7, 0, 9, 0xF000_0000];
    assert_eq!(cluster_runs(3, Allocation::Fat(&fat), 0, 1), vec![(0, 1), (2, 3)]);
    assert_eq!(count_used(Allocation::Fat(&fat), &[2, 3, 4]), 1);
}
