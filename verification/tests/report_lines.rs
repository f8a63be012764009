use yaromchecker::report::{verify_sources, VerifyNotice};
use yaromchecker::dat::{DatFile, DatHeader, DatRom, DumpStatus};
use yaromchecker::hash::Hashes;
use yaromchecker::matching::{
    match_collection, DatRomMatch, DatRomStatus, FileMatch, FileStatus, MatchReport, SetMatch,
    SetStatus,
};
use yaromchecker::messages::Messages;
use yaromchecker::report::{
    count_status, dat_header_line, dat_report_lines, member_rows, scan_entry_line,
    scan_summary_line, set_rows, DatSummary, ScanSummary,
};
use yaromchecker::scan::{EntryKind, ScanEntry, ScanReport};

fn table(rows: &[(&str, &str)]) -> Vec<(String, String)> {
    rows.iter()
        .map(|(key, value)| (key.to_string(), value.to_string()))
        .collect()
}

fn plain() -> Messages {
    Messages::for_locale("en", vec![], vec![]).unwrap()
}

fn gui() -> Messages {
    let english = table(&[
        (
            "gui_dat_summary",
            "Files: {files}  Present: {present}  Missing: {missing}  MissingInArchive: {missing_in_archive}  nodump: {nodump}",
        ),
        (
            "gui_scan_summary",
            "{entries} entries, {hashed} hashed, {reused} reused, {errors} errors",
        ),
        ("gui_not_verified", "Not verified"),
        ("set_status_complete", "Complete"),
        ("set_status_incomplete", "Incomplete"),
        ("set_status_missing", "Missing"),
    ]);
    Messages::for_locale("en", english, vec![]).unwrap()
}

fn rom(game: &str, name: &str, status: DatRomStatus) -> DatRomMatch {
    DatRomMatch {
        game: game.to_owned(),
        name: name.to_owned(),
        status,
        dump_status: DumpStatus::Good,
    }
}

fn entry(path: &str, kind: EntryKind) -> ScanEntry {
    ScanEntry {
        container_path: "c".into(),
        container_name: "c".into(),
        container_size: 1,
        container_mtime_ns: 0,
        entry_path: path.into(),
        entry_name: path.into(),
        entry_size: 3,
        kind,
        hashes: Hashes {
            crc32: "352441c2".into(),
            md5: "900150983cd24fb0d6963f7d28e17f72".into(),
            sha1: "a9993e364706816aba3e25717850c26c9cd0d89d".into(),
        },
        last_hashed_ns: 0,
        reused: false,
    }
}

#[test]
fn dat_summary_keeps_missing_categories_separate() {
    let messages = gui();
    let summary = DatSummary {
        files: 4,
        present: 1,
        missing: 2,
        missing_in_archive: 3,
        nodump: 4,
    };
    let line = summary.line(&messages);
    assert!(line.contains("Missing: 2"));
    assert!(line.contains("MissingInArchive: 3"));
}

#[test]
fn dat_summary_adds_up_reports() {
    let report = MatchReport {
        files: vec![],
        roms: vec![
            rom("g", "a", DatRomStatus::Present),
            rom("g", "b", DatRomStatus::MissingInArchive),
            rom("h", "c", DatRomStatus::Missing),
            rom("h", "d", DatRomStatus::NoDump),
            rom("h", "e", DatRomStatus::Missing),
        ],
        sets: vec![],
    };
    let mut total = DatSummary::new();
    total.add_report(&report);
    total.add_report(&report);
    assert_eq!(total.present, 2);
    assert_eq!(total.missing, 4);
    assert_eq!(total.missing_in_archive, 2);
    assert_eq!(total.nodump, 2);
    assert_eq!(count_status(&report.roms, DatRomStatus::Missing), 2);
}

#[test]
fn scan_summary_counts_reports_and_errors() {
    let messages = gui();
    let mut summary = ScanSummary::new();
    let report = ScanReport {
        entries: vec![entry("a", EntryKind::File), entry("b", EntryKind::File)],
        hashed_containers: 1,
        reused_containers: 1,
    };
    summary.add_report(&report);
    summary.add_error("x: failed".to_owned());
    assert_eq!(
        summary.line(&messages),
        "2 entries, 1 hashed, 1 reused, 1 errors"
    );
}

#[test]
fn dat_report_lists_summary_files_missing_and_nodump() {
    let report = MatchReport {
        files: vec![
            FileMatch {
                entry_path: "a.zip/a.rom".into(),
                status: FileStatus::Have,
                dat_name: Some("a.rom".into()),
                game: Some("Game".into()),
                dump_status: Some(DumpStatus::BadDump),
            },
            FileMatch {
                entry_path: "stray.bin".into(),
                status: FileStatus::Extra,
                dat_name: None,
                game: None,
                dump_status: None,
            },
        ],
        roms: vec![
            rom("Game", "a.rom", DatRomStatus::Present),
            rom("Game", "b.rom", DatRomStatus::Missing),
            rom("Game", "c.rom", DatRomStatus::NoDump),
            rom("Game", "d.rom", DatRomStatus::MissingInArchive),
        ],
        sets: vec![],
    };
    assert_eq!(
        dat_report_lines(&plain(), &report),
        vec![
            "DAT verification: 2 files, 1 present, 2 missing, 1 nodump.".to_owned(),
            "Have (baddump)  a.zip/a.rom  Game/a.rom".to_owned(),
            "Extra  stray.bin".to_owned(),
            "missing  Game/b.rom".to_owned(),
            "missing  Game/d.rom".to_owned(),
            "nodump  Game/c.rom".to_owned(),
        ]
    );
}

#[test]
fn scan_lines_show_counts_and_entries() {
    let report = ScanReport {
        entries: vec![entry("dir/game.rom", EntryKind::File)],
        hashed_containers: 1,
        reused_containers: 0,
    };
    assert_eq!(
        scan_summary_line(&plain(), &report),
        "Scanned 1 entries (1 hashed, 0 reused containers)."
    );
    assert_eq!(
        scan_entry_line(&plain(), &report.entries[0]),
        "a9993e364706816aba3e25717850c26c9cd0d89d  3  dir/game.rom"
    );
}

#[test]
fn dat_header_line_falls_back_to_path() {
    let mut dat = DatFile {
        path: "x.dat".into(),
        header: DatHeader::default(),
        roms: vec![],
    };
    assert_eq!(dat_header_line(&plain(), &dat, "/dats/x.dat"), "DAT: /dats/x.dat ");
    dat.header.name = Some("Example".into());
    dat.header.version = Some("2024".into());
    assert_eq!(dat_header_line(&plain(), &dat, "/dats/x.dat"), "DAT: Example 2024");
}

fn two_game_dat() -> DatFile {
    let good = |game: &str, name: &str, sha1: &str| DatRom {
        game: game.into(),
        name: name.into(),
        size: Some(3),
        crc32: None,
        md5: None,
        sha1: Some(sha1.into()),
        dump_status: DumpStatus::Good,
    };
    let mut nodump = good("Nothing", "n.rom", "0");
    nodump.dump_status = DumpStatus::NoDump;
    DatFile {
        path: "t.dat".into(),
        header: DatHeader::default(),
        roms: vec![
            good("Beta", "b1.rom", "a9993e364706816aba3e25717850c26c9cd0d89d"),
            nodump,
            good("Alpha", "a1.rom", "1111"),
            good("Beta", "b2.rom", "2222"),
        ],
    }
}

#[test]
fn set_rows_are_blank_until_verified() {
    let rows = set_rows(&two_game_dat(), None, &gui());
    assert_eq!(rows.len(), 2);
    assert_eq!(rows[0].name, "Beta");
    assert_eq!(rows[1].name, "Alpha");
    assert_eq!(rows[0].status, "Not verified");
    assert_eq!(rows[0].counts, [None; 4]);
}

#[test]
fn set_rows_count_each_status_after_verification() {
    let dat = two_game_dat();
    let entries = vec![entry("b1.rom", EntryKind::File)];
    let report = match_collection(&entries, &dat);
    let rows = set_rows(&dat, Some(&report), &gui());
    assert_eq!(rows[0].name, "Beta");
    assert_eq!(rows[0].status, "Incomplete");
    assert_eq!(rows[0].counts, [Some(1), Some(1), Some(0), Some(0)]);
    assert_eq!(rows[1].status, "Missing");
    assert_eq!(rows[1].counts, [Some(0), Some(1), Some(0), Some(0)]);
}

#[test]
fn set_row_without_a_set_entry_reads_not_verified() {
    let dat = two_game_dat();
    let report = MatchReport {
        files: vec![],
        roms: vec![],
        sets: vec![SetMatch {
            game: "Alpha".into(),
            status: SetStatus::Complete,
        }],
    };
    let rows = set_rows(&dat, Some(&report), &gui());
    assert_eq!(rows[0].status, "Not verified");
    assert_eq!(rows[1].status, "Complete");
    assert_eq!(rows[1].counts, [Some(0); 4]);
}

#[test]
fn member_rows_join_dat_rows_to_scanned_entries() {
    let dat = two_game_dat();
    let mut other = entry("other", EntryKind::File);
    other.hashes.sha1 = "ffff".into();
    let entries = vec![other, entry("b1.rom", EntryKind::File)];
    let report = match_collection(&entries, &dat);
    assert_eq!(
        member_rows(&dat, "Beta", None),
        vec![("b1.rom".to_owned(), None), ("b2.rom".to_owned(), None)]
    );
    assert_eq!(
        member_rows(&dat, "Beta", Some((&report, &entries))),
        vec![("b1.rom".to_owned(), Some(1)), ("b2.rom".to_owned(), None)]
    );
    assert!(member_rows(&dat, "Gamma", Some((&report, &entries))).is_empty());
}

#[test]
fn status_counts_add_up_to_the_rows() {
    let roms = vec![
        rom("g", "a", DatRomStatus::Present),
        rom("g", "b", DatRomStatus::MissingInArchive),
        rom("h", "c", DatRomStatus::Missing),
        rom("h", "d", DatRomStatus::NoDump),
    ];
    let total = count_status(&roms, DatRomStatus::Present)
        + count_status(&roms, DatRomStatus::Missing)
        + count_status(&roms, DatRomStatus::MissingInArchive)
        + count_status(&roms, DatRomStatus::NoDump);
    assert_eq!(total, roms.len());
}

fn in_collection(path: &str, name: &str, sha1: &str) -> ScanEntry {
    let mut e = entry(name, EntryKind::File);
    e.container_path = path.into();
    e.entry_name = name.into();
    e.hashes.sha1 = sha1.into();
    e
}

#[test]
fn verify_sources_matches_each_source_against_its_own_collection() {
    let dat = two_game_dat();
    let rows = vec![
        in_collection("/roms/a/b1.rom", "b1.rom", "a9993e364706816aba3e25717850c26c9cd0d89d"),
        in_collection("/roms/b/a1.rom", "a1.rom", "1111"),
    ];
    let dats = vec![Some(dat.clone()), Some(dat.clone()), None, Some(dat.clone())];
    let collections = vec![
        "/roms/a".to_owned(),
        "/roms/a".to_owned(),
        "/roms/b".to_owned(),
        "/roms/empty".to_owned(),
    ];
    let (reports, total) = verify_sources(true, None, &dats, &collections, &rows).unwrap();
    assert_eq!(reports.iter().map(|r| r.0).collect::<Vec<_>>(), vec![0, 1]);
    assert_eq!(reports[0].1.files.len(), 1);
    assert_eq!(reports[0].1.roms[0].status, DatRomStatus::Present);
    assert_eq!(reports[1].1.roms[0].status, DatRomStatus::Present);
    assert_eq!(total.files, 2);
    assert_eq!(total.present, 2);
    assert_eq!(total.missing, 4);
    assert_eq!(total.nodump, 2);

    let (one, _) = verify_sources(false, Some(1), &dats, &collections, &rows).unwrap();
    assert_eq!(one.iter().map(|r| r.0).collect::<Vec<_>>(), vec![1]);
    assert_eq!(
        verify_sources(false, None, &dats, &collections, &rows).err(),
        Some(VerifyNotice::SelectSource)
    );
}
