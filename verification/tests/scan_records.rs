use yaromchecker::hash::{hash_bytes, to_hex, HashState, Hashes};
use yaromchecker::scan::{
    command_plan, container_kind, is_within, make_entry, reusable_records,
    rows_in_collection, unix_time_ns, EntryKind, FileIdentity, ScanCommand,
    ScanEntry, ScanMode, ScanRun,
};

fn hashes() -> Hashes {
    hash_bytes(b"abc")
}

#[test]
fn hashes_known_value() {
    let hashes = hash_bytes("abc".as_bytes());
    assert_eq!(hashes.crc32, "352441c2");
    assert_eq!(hashes.md5, "900150983cd24fb0d6963f7d28e17f72");
    assert_eq!(hashes.sha1, "a9993e364706816aba3e25717850c26c9cd0d89d");
}

#[test]
fn hashing_in_pieces_equals_hashing_at_once() {
    let mut state = HashState::new();
    state.update(b"a");
    state.update(b"");
    state.update(b"bc");
    assert_eq!(state.finish(), hash_bytes(b"abc"));
}

#[test]
fn empty_input_hashes() {
    let hashes = hash_bytes(b"");
    assert_eq!(hashes.crc32, "00000000");
    assert_eq!(hashes.md5, "d41d8cd98f00b204e9800998ecf8427e");
    assert_eq!(hashes.sha1, "da39a3ee5e6b4b0d3255bfef95601890afd80709");
}

#[test]
fn hex_is_lower_case_two_digits_per_byte() {
    assert_eq!(to_hex(&[0x00, 0x0f, 0xab, 0xff]).into_iter().collect::<String>(), "000fabff");
}

#[test]
fn entry_kinds_round_trip_through_the_cache_text() {
    for kind in [EntryKind::File, EntryKind::ZipEntry, EntryKind::SevenZEntry] {
        assert_eq!(EntryKind::from_db(kind.as_db()), kind);
    }
    assert_eq!(EntryKind::File.as_db(), "file");
    assert_eq!(EntryKind::ZipEntry.as_db(), "zip");
    assert_eq!(EntryKind::SevenZEntry.as_db(), "7z");
    assert_eq!(EntryKind::from_db("unknown"), EntryKind::File);
}

#[test]
fn container_kind_goes_by_extension_ignoring_case() {
    assert_eq!(container_kind("/c/set.ZIP"), EntryKind::ZipEntry);
    assert_eq!(container_kind("/c/set.7z"), EntryKind::SevenZEntry);
    assert_eq!(container_kind("/c/game.rom"), EntryKind::File);
    assert_eq!(container_kind("/c/.zip"), EntryKind::File);
    assert_eq!(container_kind("/c/noext"), EntryKind::File);
}

#[test]
fn timestamps_saturate_and_clamp_before_epoch() {
    assert_eq!(unix_time_ns(None), 0);
    assert_eq!(unix_time_ns(Some(5)), 5);
    assert_eq!(unix_time_ns(Some(u128::MAX)), i64::MAX);
    assert_eq!(unix_time_ns(Some(i64::MAX as u128 + 1)), i64::MAX);
}

#[test]
fn identity_and_entry_carry_the_container_fields() {
    let id = FileIdentity::from_metadata("/abs/set.zip".to_owned(), "col/set.zip", 42, 7);
    assert_eq!(id.name, "set.zip");
    assert_eq!(id.mtime_ns, 7);
    let e = make_entry(&id, "folder/game.rom", 3, EntryKind::ZipEntry, hashes(), 99);
    assert_eq!(e.container_path, "/abs/set.zip");
    assert_eq!(e.container_name, "set.zip");
    assert_eq!(e.container_size, 42);
    assert_eq!(e.entry_path, "folder/game.rom");
    assert_eq!(e.entry_name, "game.rom");
    assert_eq!(e.last_hashed_ns, 99);
    assert!(!e.reused);
}

fn cached(path: &str) -> ScanEntry {
    let id = FileIdentity::from_metadata(path.to_owned(), path, 1, 1);
    let mut e = make_entry(&id, path, 1, EntryKind::File, hashes(), 5);
    e.reused = true;
    e
}

#[test]
fn quick_run_reuses_cached_records_and_full_run_hashes() {
    let id = FileIdentity::from_metadata("/a".to_owned(), "/a", 1, 1);
    let mut quick = ScanRun::new(ScanMode::Quick);
    assert!(quick.wants_cache());
    quick.offer(id.clone(), vec![cached("/a")]);
    quick.offer(id.clone(), vec![]);
    assert_eq!(quick.report.reused_containers, 1);
    assert_eq!(quick.report.entries.len(), 1);
    assert!(quick.report.entries[0].reused);
    assert_eq!(quick.pending.len(), 1);

    let mut full = ScanRun::new(ScanMode::Full);
    assert!(!full.wants_cache());
    full.offer(id.clone(), vec![cached("/a")]);
    assert_eq!(full.report.reused_containers, 0);
    assert_eq!(full.pending, vec![id]);
    full.record_hashed(vec![cached("/b"), cached("/c")]);
    assert_eq!(full.report.hashed_containers, 1);
    assert_eq!(full.report.entries.len(), 2);
}

#[test]
fn commands_pick_mode_and_verification() {
    assert_eq!(command_plan(ScanCommand::Scan), (ScanMode::Full, false));
    assert_eq!(command_plan(ScanCommand::Full), (ScanMode::Full, false));
    assert_eq!(command_plan(ScanCommand::Quick), (ScanMode::Quick, false));
    assert_eq!(command_plan(ScanCommand::Verify), (ScanMode::Quick, true));
}

#[test]
fn entries_are_kept_only_under_their_collection() {
    assert!(is_within("/roms/nes/a.zip", "/roms/nes"));
    assert!(is_within("/roms/nes", "/roms/nes/"));
    assert!(!is_within("/roms/nes2/a.zip", "/roms/nes"));
    assert!(!is_within("roms/nes/a.zip", "/roms/nes"));
    let at = |path: &str| {
        let id = FileIdentity::from_metadata(path.to_owned(), path, 1, 1);
        make_entry(&id, "a.rom", 1, EntryKind::File, hashes(), 0)
    };
    let entries = vec![at("/roms/nes/a.zip"), at("/roms/snes/b.zip"), at("/roms/nes/sub/c.7z")];
    assert_eq!(
        rows_in_collection(&entries, "/roms/nes"),
        vec![entries[0].clone(), entries[2].clone()]
    );
    assert!(rows_in_collection(&entries, "/other").is_empty());
}

#[test]
fn quick_scan_reuses_records_only_for_the_same_identity() {
    let id = FileIdentity::from_metadata("/c/set.zip".to_owned(), "/c/set.zip", 10, 7);
    let a = make_entry(&id, "a.rom", 1, EntryKind::ZipEntry, hashes(), 42);
    let b = make_entry(&id, "b.rom", 2, EntryKind::ZipEntry, hashes(), 42);
    let reused = reusable_records(&id, &[a.clone(), b.clone()]);
    assert_eq!(reused.len(), 2);
    assert!(reused.iter().all(|e| e.reused && e.last_hashed_ns == 42));
    assert_eq!(reused[1].entry_path, "b.rom");

    let touched = FileIdentity::from_metadata("/c/set.zip".to_owned(), "/c/set.zip", 10, 8);
    assert!(reusable_records(&touched, &[a.clone(), b]).is_empty());
    let resized = FileIdentity::from_metadata("/c/set.zip".to_owned(), "/c/set.zip", 11, 7);
    assert!(reusable_records(&resized, &[a]).is_empty());
}

#[test]
fn rows_of_a_collection_are_copied_in_order() {
    let at = |path: &str| {
        let id = FileIdentity::from_metadata(path.to_owned(), path, 1, 1);
        make_entry(&id, "a.rom", 1, EntryKind::File, hashes(), 0)
    };
    let rows = vec![at("/r/a/1"), at("/r/b/2"), at("/r/a/3")];
    let kept = rows_in_collection(&rows, "/r/a");
    assert_eq!(kept, vec![rows[0].clone(), rows[2].clone()]);
}
