use yaromchecker::dat::{DatFile, DatHeader, DatRom, DumpStatus};
use yaromchecker::hash::Hashes;
use yaromchecker::matching::{match_collection, DatRomStatus, FileStatus, SetStatus};
use yaromchecker::scan::{EntryKind, ScanEntry};

const SHA1: &str = "a9993e364706816aba3e25717850c26c9cd0d89d";
const MD5: &str = "900150983cd24fb0d6963f7d28e17f72";
const CRC: &str = "352441c2";

fn entry(name: &str, sha1: &str, size: u64) -> ScanEntry {
    ScanEntry {
        container_path: name.into(),
        container_name: name.into(),
        container_size: size,
        container_mtime_ns: 0,
        entry_path: name.into(),
        entry_name: name.into(),
        entry_size: size,
        kind: EntryKind::File,
        hashes: Hashes {
            crc32: CRC.into(),
            md5: MD5.into(),
            sha1: sha1.into(),
        },
        last_hashed_ns: 0,
        reused: false,
    }
}

fn dat(name: &str) -> DatFile {
    DatFile {
        path: "test.dat".into(),
        header: DatHeader::default(),
        roms: vec![DatRom {
            game: "Game".into(),
            name: name.into(),
            size: Some(3),
            crc32: Some(CRC.into()),
            md5: Some(MD5.into()),
            sha1: Some(SHA1.into()),
            dump_status: DumpStatus::Good,
        }],
    }
}

fn statuses(entries: &[ScanEntry], dat: DatFile) -> (Vec<FileStatus>, Vec<DatRomStatus>) {
    let report = match_collection(entries, &dat);
    (
        report.files.iter().map(|file| file.status).collect(),
        report.roms.iter().map(|rom| rom.status).collect(),
    )
}

#[test]
fn loads_logiqx_header_machine_description_and_statuses() {
    let contents = r#"<datafile><header><name>Invented</name><description>Tiny fixture</description><version>1</version><homepage>Example</homepage><url>https://example.invalid/</url></header><machine name="set"><description>Display title</description><rom name="Good (World) [!].rom" size="3" crc="352441C2" md5="900150983cd24fb0d6963f7d28e17f72" sha1="a9993e364706816aba3e25717850c26c9cd0d89d" status="baddump"/><rom name="unknown.rom" status="nodump"/></machine></datafile>"#;
    let loaded = DatFile::parse("sample.dat".to_owned(), contents).unwrap();
    assert_eq!(loaded.header.name.as_deref(), Some("Invented"));
    assert_eq!(loaded.header.version.as_deref(), Some("1"));
    assert_eq!(loaded.roms[0].game, "Display title");
    assert_eq!(loaded.roms[0].name, "Good (World) [!].rom");
    assert_eq!(loaded.roms[0].dump_status, DumpStatus::BadDump);
    assert_eq!(loaded.roms[1].dump_status, DumpStatus::NoDump);
}

#[test]
fn loads_clrmamepro_and_preserves_tosec_name() {
    let contents = r#"clrmamepro ( name "Invented CMP" description "Fixture" version "2026" homepage "Home" url "https://example.invalid/" ) game ( name internal description "Display Game" rom ( name "Title (1999)(Publisher) [a].bin" size 3 crc 352441C2 md5 900150983cd24fb0d6963f7d28e17f72 sha1 a9993e364706816aba3e25717850c26c9cd0d89d status baddump ) )"#;
    let loaded = DatFile::parse("sample.dat".to_owned(), contents).unwrap();
    assert_eq!(loaded.header.name.as_deref(), Some("Invented CMP"));
    assert_eq!(loaded.header.version.as_deref(), Some("2026"));
    assert_eq!(loaded.roms[0].game, "Display Game");
    assert_eq!(loaded.roms[0].name, "Title (1999)(Publisher) [a].bin");
    assert_eq!(loaded.roms[0].dump_status, DumpStatus::BadDump);
}

#[test]
fn logiqx_hashes_are_normalized_to_lower_case() {
    let contents = r#"  <datafile><game name="g"><rom name="a.rom" size="3" crc="352441C2"/></game></datafile>"#;
    let loaded = DatFile::parse("x.dat".to_owned(), contents).unwrap();
    assert_eq!(loaded.path, "x.dat");
    assert_eq!(loaded.roms[0].game, "g");
    assert_eq!(loaded.roms[0].crc32.as_deref(), Some("352441c2"));
    assert_eq!(loaded.roms[0].size, Some(3));
    assert_eq!(loaded.roms[0].md5, None);
}

#[test]
fn malformed_logiqx_is_an_xml_error() {
    let result = DatFile::parse("bad.dat".to_owned(), "<datafile><game></datafile>");
    assert!(result.is_err());
}

#[test]
fn clrmamepro_without_header_has_empty_header() {
    let contents = "game ( name \"Game\" rom ( name a.bin size 7 ) )";
    let loaded = DatFile::parse("y.dat".to_owned(), contents).unwrap();
    assert_eq!(loaded.header, DatHeader::default());
    assert_eq!(loaded.roms.len(), 1);
    assert_eq!(loaded.roms[0].game, "Game");
    assert_eq!(loaded.roms[0].size, Some(7));
    assert_eq!(loaded.roms[0].dump_status, DumpStatus::Good);
}

#[test]
fn nodump_is_not_missing_and_cannot_be_filled() {
    let mut collection = dat("unknown.rom");
    collection.roms[0].dump_status = DumpStatus::NoDump;
    assert_eq!(
        statuses(&[entry("unknown.rom", SHA1, 3)], collection),
        (vec![FileStatus::Extra], vec![DatRomStatus::NoDump])
    );
}

#[test]
fn baddump_matches_and_is_marked() {
    let mut collection = dat("game.rom");
    collection.roms[0].dump_status = DumpStatus::BadDump;
    let report = match_collection(&[entry("game.rom", SHA1, 3)], &collection);
    assert_eq!(report.files[0].status, FileStatus::Have);
    assert_eq!(report.files[0].dump_status, Some(DumpStatus::BadDump));
}

#[test]
fn classifies_have_and_present() {
    assert_eq!(
        statuses(&[entry("game.rom", SHA1, 3)], dat("game.rom")),
        (vec![FileStatus::Have], vec![DatRomStatus::Present])
    );
}

#[test]
fn exact_case_sensitive_name() {
    assert_eq!(
        statuses(&[entry("Game.rom", SHA1, 3)], dat("game.rom")).0,
        vec![FileStatus::WrongName]
    );
}

#[test]
fn wrong_dump_does_not_fill() {
    assert_eq!(
        statuses(&[entry("game.rom", "bad", 3)], dat("game.rom")),
        (vec![FileStatus::WrongDump], vec![DatRomStatus::Missing])
    );
}

#[test]
fn later_hash_hit_is_duplicate() {
    assert_eq!(
        statuses(
            &[entry("game.rom", SHA1, 3), entry("copy.rom", SHA1, 3)],
            dat("game.rom")
        ),
        (
            vec![FileStatus::Have, FileStatus::Duplicate],
            vec![DatRomStatus::Present]
        )
    );
}

#[test]
fn every_listed_hash_and_size_must_match() {
    let mut candidate = entry("game.rom", SHA1, 3);
    candidate.hashes.md5 = "bad".into();
    assert_eq!(
        statuses(&[candidate], dat("game.rom")).0,
        vec![FileStatus::WrongDump]
    );
    assert_eq!(
        statuses(&[entry("game.rom", SHA1, 4)], dat("game.rom")).1,
        vec![DatRomStatus::Missing]
    );
}

#[test]
fn hash_identity_wins() {
    let mut collection = dat("hash-target.rom");
    collection.roms.push(DatRom {
        name: "name-target.rom".into(),
        sha1: Some("different".into()),
        ..collection.roms[0].clone()
    });
    let report = match_collection(&[entry("name-target.rom", SHA1, 3)], &collection);
    assert_eq!(report.files[0].status, FileStatus::WrongName);
    assert_eq!(report.files[0].dat_name.as_deref(), Some("hash-target.rom"));
}

#[test]
fn hashes_compare_ignoring_ascii_case() {
    let mut collection = dat("game.rom");
    collection.roms[0].sha1 = Some(SHA1.to_ascii_uppercase());
    assert_eq!(
        statuses(&[entry("game.rom", SHA1, 3)], collection),
        (vec![FileStatus::Have], vec![DatRomStatus::Present])
    );
}

#[test]
fn unmatched_entry_is_extra_and_sets_report_completeness() {
    let mut collection = dat("a.rom");
    collection.roms.push(DatRom {
        name: "b.rom".into(),
        sha1: Some("0000".into()),
        ..collection.roms[0].clone()
    });
    collection.roms.push(DatRom {
        game: "Other".into(),
        name: "c.rom".into(),
        sha1: Some("1111".into()),
        ..collection.roms[0].clone()
    });
    let report = match_collection(
        &[entry("a.rom", SHA1, 3), entry("stray.bin", "ffff", 9)],
        &collection,
    );
    assert_eq!(report.files[1].status, FileStatus::Extra);
    assert_eq!(report.files[1].dat_name, None);
    assert_eq!(report.sets.len(), 2);
    assert_eq!(report.sets[0].game, "Game");
    assert_eq!(report.sets[0].status, SetStatus::Incomplete);
    assert_eq!(report.sets[1].game, "Other");
    assert_eq!(report.sets[1].status, SetStatus::MissingSet);
}

#[test]
fn archive_member_makes_siblings_missing_in_archive() {
    let mut collection = dat("a.rom");
    collection.roms.push(DatRom {
        name: "b.rom".into(),
        sha1: Some("0000".into()),
        ..collection.roms[0].clone()
    });
    let mut member = entry("set.zip/a.rom", SHA1, 3);
    member.kind = EntryKind::ZipEntry;
    member.entry_name = "a.rom".into();
    let report = match_collection(&[member], &collection);
    assert_eq!(report.roms[0].status, DatRomStatus::Present);
    assert_eq!(report.roms[1].status, DatRomStatus::MissingInArchive);
}

#[test]
fn each_dat_is_matched_on_its_own() {
    let first = dat("g.rom");
    let second = dat("g.rom");
    let entries = [entry("g.rom", SHA1, 3)];
    let a = match_collection(&entries, &first);
    let b = match_collection(&entries, &second);
    assert_eq!(a.roms[0].status, DatRomStatus::Present);
    assert_eq!(b.roms[0].status, DatRomStatus::Present);
    assert_eq!(a.files[0].status, FileStatus::Have);
    assert_eq!(b.files[0].status, FileStatus::Have);
}

#[test]
fn logiqx_attributes_and_text_keep_non_ascii_and_entities() {
    let contents = "<datafile><header><name>Caf&#233; &amp; Co</name></header><game name=\"Pok\u{e9}mon\"><rom name=\"\u{30c6}\u{30b9}\u{30c8}.rom\" size=\"1\"/></game></datafile>";
    let loaded = DatFile::parse("u.dat".to_owned(), contents).unwrap();
    assert_eq!(loaded.header.name.as_deref(), Some("Caf\u{e9} & Co"));
    assert_eq!(loaded.roms[0].game, "Pok\u{e9}mon");
    assert_eq!(loaded.roms[0].name, "\u{30c6}\u{30b9}\u{30c8}.rom");
}

#[test]
fn clrmamepro_quoted_words_keep_escapes_and_parentheses() {
    let contents = r#"game ( name "A \"quoted\" (set)" rom ( name "x (1).bin" crc ABCDEF01 ) )"#;
    let loaded = DatFile::parse("c.dat".to_owned(), contents).unwrap();
    assert_eq!(loaded.roms[0].name, "x (1).bin");
    assert_eq!(loaded.roms[0].crc32.as_deref(), Some("abcdef01"));
}

#[test]
fn filled_rows_match_present_roms() {
    let mut collection = dat("a.rom");
    collection.roms.push(DatRom {
        name: "b.rom".into(),
        sha1: Some("0000".into()),
        ..collection.roms[0].clone()
    });
    let mut other = entry("b-renamed.rom", "0000", 3);
    other.hashes.md5 = MD5.into();
    let report = match_collection(
        &[entry("a.rom", SHA1, 3), entry("copy.rom", SHA1, 3), other],
        &collection,
    );
    let filled = report
        .files
        .iter()
        .filter(|f| f.status == FileStatus::Have || f.status == FileStatus::WrongName)
        .count();
    let present = report
        .roms
        .iter()
        .filter(|r| r.status == DatRomStatus::Present)
        .count();
    assert_eq!(filled, 2);
    assert_eq!(present, 2);
}
