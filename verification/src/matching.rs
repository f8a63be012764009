//! Matching scan entries against the ROM rows of DAT files.
//!
//! A scan entry fills a DAT ROM when the ROM can be filled (it is not a
//! `nodump` row), every hash the ROM lists agrees with the entry (ignoring
//! ASCII case) and its size, when listed, agrees too. The first such ROM in
//! DAT order is the entry's hash hit; hash identity wins over names. Entries
//! are taken in scan order, and a ROM is filled by the first entry whose hash
//! hit it is; later hits on the same ROM are duplicates.

use vstd::prelude::*;
use crate::dat::{DatFile, DatRom, DatRomView, DumpStatus, opt_view, rom_views};
use crate::scan::{EntryKind, ScanEntry};
use crate::text::{eq_fold, str_eq_fold};

verus! {

/// Status of one scan entry against the DAT.
#[derive(Debug, Clone, Copy, PartialEq, Eq, Structural)]
pub enum FileStatus {
    /// Hash hit on a ROM not filled before, and the exact ROM name.
    Have,
    /// Hash hit on a ROM not filled before, under another name (case counts).
    WrongName,
    /// No hash hit, but a fillable ROM carries exactly this name.
    WrongDump,
    /// Hash hit on a ROM an earlier entry already filled.
    Duplicate,
    /// Neither a hash hit nor a name hit.
    Extra,
}

/// Status of one DAT ROM row after matching.
#[derive(Debug, Clone, Copy, PartialEq, Eq, Structural)]
pub enum DatRomStatus {
    /// Some entry hash-matched it.
    Present,
    /// Not filled, and no other ROM of its game was filled from an archive member.
    Missing,
    /// Not filled, while another ROM of the same game was filled from a ZIP/7z member.
    MissingInArchive,
    /// A `nodump` row: informational, never missing, never filled.
    NoDump,
}

/// Completeness of one game (set) of the DAT.
#[derive(Debug, Clone, Copy, PartialEq, Eq, Structural)]
pub enum SetStatus {
    Complete,
    Incomplete,
    MissingSet,
}

#[derive(Debug, Clone, PartialEq, Eq)]
pub struct FileMatch {
    pub entry_path: String,
    pub status: FileStatus,
    pub dat_name: Option<String>,
    pub game: Option<String>,
    pub dump_status: Option<DumpStatus>,
}

#[derive(Debug, Clone, PartialEq, Eq)]
pub struct DatRomMatch {
    pub game: String,
    pub name: String,
    pub status: DatRomStatus,
    pub dump_status: DumpStatus,
}

#[derive(Debug, Clone, PartialEq, Eq)]
pub struct SetMatch {
    pub game: String,
    pub status: SetStatus,
}

#[derive(Debug, Default, PartialEq, Eq)]
pub struct MatchReport {
    pub files: Vec<FileMatch>,
    pub roms: Vec<DatRomMatch>,
    pub sets: Vec<SetMatch>,
}

// ---------------------------------------------------------------------------
// The model
// ---------------------------------------------------------------------------

/// Only rows that are not `nodump` can be filled or named.
pub open spec fn can_fill(rom: DatRomView) -> bool {
    rom.dump_status != DumpStatus::NoDump
}

/// A listed hash agrees with the entry's hash, ignoring ASCII case; an
/// unlisted hash is not compared.
pub open spec fn listed_agrees(expected: Option<Seq<char>>, actual: Seq<char>) -> bool {
    match expected {
        Some(h) => eq_fold(h, actual),
        None => true,
    }
}

/// Every hash the ROM lists agrees, at least one is listed, and the size,
/// when listed, agrees.
pub open spec fn hashes_agree(rom: DatRomView, e: ScanEntry) -> bool {
    &&& (rom.size matches Some(s) ==> s == e.entry_size)
    &&& (rom.sha1 is Some || rom.md5 is Some || rom.crc32 is Some)
    &&& listed_agrees(rom.sha1, e.hashes.sha1@)
    &&& listed_agrees(rom.md5, e.hashes.md5@)
    &&& listed_agrees(rom.crc32, e.hashes.crc32@)
}

pub open spec fn hash_fits(rom: DatRomView, e: ScanEntry) -> bool {
    can_fill(rom) && hashes_agree(rom, e)
}

pub open spec fn name_fits(rom: DatRomView, e: ScanEntry) -> bool {
    can_fill(rom) && rom.name == e.entry_name@
}

pub open spec fn is_first_hash_hit(roms: Seq<DatRomView>, e: ScanEntry, i: int) -> bool {
    &&& 0 <= i < roms.len()
    &&& hash_fits(roms[i], e)
    &&& forall|j: int| 0 <= j < i ==> !#[trigger] hash_fits(roms[j], e)
}

pub open spec fn is_first_name_hit(roms: Seq<DatRomView>, e: ScanEntry, i: int) -> bool {
    &&& 0 <= i < roms.len()
    &&& name_fits(roms[i], e)
    &&& forall|j: int| 0 <= j < i ==> !#[trigger] name_fits(roms[j], e)
}

/// The first ROM, in order, that the entry hash-matches.
pub open spec fn hash_hit(roms: Seq<DatRomView>, e: ScanEntry) -> Option<int> {
    if exists|i: int| is_first_hash_hit(roms, e, i) {
        Some(choose|i: int| is_first_hash_hit(roms, e, i))
    } else {
        None
    }
}

/// The first fillable ROM, in order, whose name is exactly the entry's name.
pub open spec fn name_hit(roms: Seq<DatRomView>, e: ScanEntry) -> Option<int> {
    if exists|i: int| is_first_name_hit(roms, e, i) {
        Some(choose|i: int| is_first_name_hit(roms, e, i))
    } else {
        None
    }
}

/// For each ROM, the index of the entry that filled it, after the given
/// entries were taken in order.
pub open spec fn fillers(roms: Seq<DatRomView>, entries: Seq<ScanEntry>) -> Seq<Option<int>>
    decreases entries.len(),
{
    if entries.len() == 0 {
        Seq::new(roms.len(), |j: int| None::<int>)
    } else {
        let prev = fillers(roms, entries.drop_last());
        match hash_hit(roms, entries.last()) {
            Some(h) => if prev[h] is None {
                prev.update(h, Some(entries.len() - 1))
            } else {
                prev
            },
            None => prev,
        }
    }
}

/// Status of entry `k`.
pub open spec fn file_status(roms: Seq<DatRomView>, entries: Seq<ScanEntry>, k: int) -> FileStatus {
    let e = entries[k];
    match hash_hit(roms, e) {
        Some(h) => if fillers(roms, entries.take(k))[h] is Some {
            FileStatus::Duplicate
        } else if e.entry_name@ == roms[h].name {
            FileStatus::Have
        } else {
            FileStatus::WrongName
        },
        None => if name_hit(roms, e) is Some {
            FileStatus::WrongDump
        } else {
            FileStatus::Extra
        },
    }
}

/// The ROM an entry is reported against: its hash hit, or else its name hit.
pub open spec fn file_rom(roms: Seq<DatRomView>, e: ScanEntry) -> Option<int> {
    match hash_hit(roms, e) {
        Some(h) => Some(h),
        None => name_hit(roms, e),
    }
}

/// ROM `i` was filled, and by a member of a ZIP or 7z container.
pub open spec fn filled_from_archive(roms: Seq<DatRomView>, entries: Seq<ScanEntry>, i: int) -> bool {
    fillers(roms, entries)[i] matches Some(k) && entries[k].kind != EntryKind::File
}

/// Status of ROM `j`.
pub open spec fn rom_status(roms: Seq<DatRomView>, entries: Seq<ScanEntry>, j: int) -> DatRomStatus {
    if !can_fill(roms[j]) {
        DatRomStatus::NoDump
    } else if fillers(roms, entries)[j] is Some {
        DatRomStatus::Present
    } else if exists|i: int|
        0 <= i < roms.len() && roms[i].game == roms[j].game && #[trigger] filled_from_archive(
            roms,
            entries,
            i,
        ) {
        DatRomStatus::MissingInArchive
    } else {
        DatRomStatus::Missing
    }
}

/// A ROM of game `g` that is required for the set (not `nodump`).
pub open spec fn required_in(roms: Seq<DatRomView>, g: Seq<char>, i: int) -> bool {
    0 <= i < roms.len() && roms[i].game == g && can_fill(roms[i])
}

pub open spec fn has_required(roms: Seq<DatRomView>, g: Seq<char>) -> bool {
    exists|i: int| required_in(roms, g, i)
}

/// Game titles of `prefix` in order of first appearance, keeping only the
/// games of `roms` that have at least one required ROM.
pub open spec fn titles_upto(roms: Seq<DatRomView>, prefix: Seq<DatRomView>) -> Seq<Seq<char>>
    decreases prefix.len(),
{
    if prefix.len() == 0 {
        Seq::empty()
    } else {
        let t = titles_upto(roms, prefix.drop_last());
        let g = prefix.last().game;
        if has_required(roms, g) && !t.contains(g) {
            t.push(g)
        } else {
            t
        }
    }
}

/// The sets of a DAT: game titles in order of first appearance, omitting
/// games whose rows are all `nodump`.
pub open spec fn set_titles(roms: Seq<DatRomView>) -> Seq<Seq<char>> {
    titles_upto(roms, roms)
}

/// Set status of game `g`: complete when every required ROM is filled,
/// missing when none is, incomplete otherwise.
pub open spec fn set_status(roms: Seq<DatRomView>, entries: Seq<ScanEntry>, g: Seq<char>) -> SetStatus {
    if forall|i: int| #[trigger] required_in(roms, g, i) ==> fillers(roms, entries)[i] is Some {
        SetStatus::Complete
    } else if forall|i: int| #[trigger] required_in(roms, g, i) ==> fillers(roms, entries)[i] is None {
        SetStatus::MissingSet
    } else {
        SetStatus::Incomplete
    }
}

/// The row reported for entry `k`.
pub open spec fn file_match_ok(
    f: FileMatch,
    roms: Seq<DatRomView>,
    entries: Seq<ScanEntry>,
    k: int,
) -> bool {
    &&& f.entry_path@ == entries[k].entry_path@
    &&& f.status == file_status(roms, entries, k)
    &&& match file_rom(roms, entries[k]) {
        Some(j) => {
            &&& opt_view(f.dat_name) == Some(roms[j].name)
            &&& opt_view(f.game) == Some(roms[j].game)
            &&& f.dump_status == Some(roms[j].dump_status)
        },
        None => f.dat_name is None && f.game is None && f.dump_status is None,
    }
}

/// The row reported for ROM `j`.
pub open spec fn rom_match_ok(
    r: DatRomMatch,
    roms: Seq<DatRomView>,
    entries: Seq<ScanEntry>,
    j: int,
) -> bool {
    &&& r.game@ == roms[j].game
    &&& r.name@ == roms[j].name
    &&& r.status == rom_status(roms, entries, j)
    &&& r.dump_status == roms[j].dump_status
}

/// The whole report for `entries` against `roms`.
pub open spec fn report_ok(report: MatchReport, roms: Seq<DatRomView>, entries: Seq<ScanEntry>) -> bool {
    &&& report.files@.len() == entries.len()
    &&& forall|k: int|
        0 <= k < entries.len() ==> file_match_ok(#[trigger] report.files@[k], roms, entries, k)
    &&& report.roms@.len() == roms.len()
    &&& forall|j: int|
        0 <= j < roms.len() ==> rom_match_ok(#[trigger] report.roms@[j], roms, entries, j)
    &&& report.sets@.len() == set_titles(roms).len()
    &&& forall|s: int|
        0 <= s < set_titles(roms).len() ==> {
            &&& (#[trigger] report.sets@[s]).game@ == set_titles(roms)[s]
            &&& report.sets@[s].status == set_status(roms, entries, set_titles(roms)[s])
        }
}

// ---------------------------------------------------------------------------
// Supporting lemmas
// ---------------------------------------------------------------------------

pub proof fn lemma_fillers_len(roms: Seq<DatRomView>, entries: Seq<ScanEntry>)
    ensures
        fillers(roms, entries).len() == roms.len(),
    decreases entries.len(),
{
    if entries.len() > 0 {
        lemma_fillers_len(roms, entries.drop_last());
    }
}

pub proof fn lemma_hash_hit_in_range(roms: Seq<DatRomView>, e: ScanEntry)
    ensures
        hash_hit(roms, e) matches Some(h) ==> is_first_hash_hit(roms, e, h),
        name_hit(roms, e) matches Some(n) ==> is_first_name_hit(roms, e, n),
{
}

/// What the exec search found agrees with the model.
pub open spec fn same_index(found: Option<usize>, model: Option<int>) -> bool {
    match found {
        Some(i) => model == Some(i as int),
        None => model is None,
    }
}

// ---------------------------------------------------------------------------
// Implementation
// ---------------------------------------------------------------------------

fn hash_agrees(expected: &Option<String>, actual: &String) -> (ok: bool)
    ensures
        ok == listed_agrees(opt_view(*expected), actual@),
{
    match expected {
        Some(h) => str_eq_fold(h.as_str(), actual.as_str()),
        None => true,
    }
}

/// Whether every hash the ROM lists and its listed size agree with the entry.
fn rom_hashes_match(rom: &DatRom, entry: &ScanEntry) -> (ok: bool)
    ensures
        ok == hashes_agree(rom@, *entry),
{
    if let Some(expected) = rom.size {
        if expected != entry.entry_size {
            return false;
        }
    }
    let compared = rom.sha1.is_some() || rom.md5.is_some() || rom.crc32.is_some();
    if !hash_agrees(&rom.sha1, &entry.hashes.sha1) {
        return false;
    }
    if !hash_agrees(&rom.md5, &entry.hashes.md5) {
        return false;
    }
    if !hash_agrees(&rom.crc32, &entry.hashes.crc32) {
        return false;
    }
    compared
}

fn fillable(rom: &DatRom) -> (b: bool)
    ensures
        b == can_fill(rom@),
{
    match rom.dump_status {
        DumpStatus::NoDump => false,
        _ => true,
    }
}

fn find_hash_hit(roms: &Vec<DatRom>, entry: &ScanEntry) -> (hit: Option<usize>)
    ensures
        same_index(hit, hash_hit(rom_views(roms@), *entry)),
{
    let ghost rv = rom_views(roms@);
    let mut i: usize = 0;
    while i < roms.len()
        invariant
            i <= roms.len(),
            rv == rom_views(roms@),
            forall|j: int| 0 <= j < i ==> !#[trigger] hash_fits(rv[j], *entry),
        decreases roms.len() - i,
    {
        if fillable(&roms[i]) && rom_hashes_match(&roms[i], entry) {
            assert(is_first_hash_hit(rv, *entry, i as int));
            return Some(i);
        }
        i = i + 1;
    }
    assert(!exists|x: int| is_first_hash_hit(rv, *entry, x));
    None
}

fn find_name_hit(roms: &Vec<DatRom>, entry: &ScanEntry) -> (hit: Option<usize>)
    ensures
        same_index(hit, name_hit(rom_views(roms@), *entry)),
{
    let ghost rv = rom_views(roms@);
    let mut i: usize = 0;
    while i < roms.len()
        invariant
            i <= roms.len(),
            rv == rom_views(roms@),
            forall|j: int| 0 <= j < i ==> !#[trigger] name_fits(rv[j], *entry),
        decreases roms.len() - i,
    {
        if fillable(&roms[i]) && roms[i].name == entry.entry_name {
            assert(is_first_name_hit(rv, *entry, i as int));
            return Some(i);
        }
        i = i + 1;
    }
    assert(!exists|x: int| is_first_name_hit(rv, *entry, x));
    None
}

fn file_match(entry: &ScanEntry, status: FileStatus, rom: Option<&DatRom>) -> (f: FileMatch)
    ensures
        f.entry_path@ == entry.entry_path@,
        f.status == status,
        match rom {
            Some(r) => {
                &&& opt_view(f.dat_name) == Some(r.name@)
                &&& opt_view(f.game) == Some(r.game@)
                &&& f.dump_status == Some(r.dump_status)
            },
            None => f.dat_name is None && f.game is None && f.dump_status is None,
        },
{
    match rom {
        Some(r) => FileMatch {
            entry_path: entry.entry_path.clone(),
            status,
            dat_name: Some(r.name.clone()),
            game: Some(r.game.clone()),
            dump_status: Some(r.dump_status),
        },
        None => FileMatch {
            entry_path: entry.entry_path.clone(),
            status,
            dat_name: None,
            game: None,
            dump_status: None,
        },
    }
}

/// The filler bookkeeping agrees with the model.
pub open spec fn fillers_agree(filler: Seq<Option<usize>>, model: Seq<Option<int>>) -> bool {
    &&& filler.len() == model.len()
    &&& forall|j: int| 0 <= j < filler.len() ==> same_index(#[trigger] filler[j], model[j])
}

/// Matches entries against the ROM rows of one DAT.
fn match_roms(entries: &[ScanEntry], roms: &Vec<DatRom>) -> (report: MatchReport)
    ensures
        report_ok(report, rom_views(roms@), entries@),
{
    let ghost rv = rom_views(roms@);
    let ghost es = entries@;
    let mut filler: Vec<Option<usize>> = Vec::with_capacity(roms.len());
    let mut j: usize = 0;
    while j < roms.len()
        invariant
            j <= roms.len(),
            filler@.len() == j,
            forall|x: int| 0 <= x < j ==> filler@[x] is None,
        decreases roms.len() - j,
    {
        filler.push(None);
        j = j + 1;
    }
    proof {
        assert(es.take(0) =~= Seq::<ScanEntry>::empty());
        assert(fillers(rv, es.take(0)) =~= Seq::new(rv.len(), |x: int| None::<int>));
    }
    let mut files: Vec<FileMatch> = Vec::with_capacity(entries.len());
    let mut k: usize = 0;
    while k < entries.len()
        invariant
            k <= entries.len(),
            rv == rom_views(roms@),
            es == entries@,
            rv.len() == roms.len(),
            fillers_agree(filler@, fillers(rv, es.take(k as int))),
            files@.len() == k,
            forall|x: int| 0 <= x < k ==> file_match_ok(#[trigger] files@[x], rv, es, x),
        decreases entries.len() - k,
    {
        let entry = &entries[k];
        let ghost before = fillers(rv, es.take(k as int));
        proof {
            lemma_fillers_len(rv, es.take(k as int));
            lemma_hash_hit_in_range(rv, *entry);
            assert(es.take(k + 1).drop_last() =~= es.take(k as int));
            assert(es.take(k + 1).last() == es[k as int]);
        }
        match find_hash_hit(roms, entry) {
            Some(h) => {
                let status = if filler[h].is_some() {
                    FileStatus::Duplicate
                } else {
                    filler.set(h, Some(k));
                    if entry.entry_name == roms[h].name {
                        FileStatus::Have
                    } else {
                        FileStatus::WrongName
                    }
                };
                files.push(file_match(entry, status, Some(&roms[h])));
            },
            None => {
                match find_name_hit(roms, entry) {
                    Some(n) => {
                        files.push(file_match(entry, FileStatus::WrongDump, Some(&roms[n])));
                    },
                    None => {
                        files.push(file_match(entry, FileStatus::Extra, None));
                    },
                }
            },
        }
        proof {
            assert(fillers_agree(filler@, fillers(rv, es.take(k + 1))));
            assert(file_match_ok(files@[k as int], rv, es, k as int));
        }
        k = k + 1;
    }
    proof {
        assert(es.take(entries.len() as int) =~= es);
        lemma_fillers_len(rv, es);
    }
    let rom_rows = rom_rows(entries, roms, &filler);
    let sets = set_rows(entries, roms, &filler);
    MatchReport { files, roms: rom_rows, sets }
}

/// Whether ROM `i` was filled from a container member, using the filler bookkeeping.
fn archive_filled(entries: &[ScanEntry], filler: &Vec<Option<usize>>, i: usize) -> (b: bool)
    requires
        i < filler@.len(),
        forall|j: int| 0 <= j < filler@.len() ==> (#[trigger] filler@[j] matches Some(k) ==> k
            < entries@.len()),
    ensures
        b == (filler@[i as int] matches Some(k) && entries@[k as int].kind != EntryKind::File),
{
    match filler[i] {
        Some(k) => match entries[k].kind {
            EntryKind::File => false,
            _ => true,
        },
        None => false,
    }
}

fn rom_rows(entries: &[ScanEntry], roms: &Vec<DatRom>, filler: &Vec<Option<usize>>) -> (rows: Vec<
    DatRomMatch,
>)
    requires
        fillers_agree(filler@, fillers(rom_views(roms@), entries@)),
    ensures
        rows@.len() == roms@.len(),
        forall|j: int|
            0 <= j < roms@.len() ==> rom_match_ok(
                #[trigger] rows@[j],
                rom_views(roms@),
                entries@,
                j,
            ),
{
    let ghost rv = rom_views(roms@);
    let ghost es = entries@;
    proof {
        lemma_fillers_len(rv, es);
        lemma_fillers_in_range(rv, es);
    }
    let mut rows: Vec<DatRomMatch> = Vec::with_capacity(roms.len());
    let mut j: usize = 0;
    while j < roms.len()
        invariant
            j <= roms.len(),
            rv == rom_views(roms@),
            es == entries@,
            rv.len() == roms.len(),
            fillers_agree(filler@, fillers(rv, es)),
            filler@.len() == roms.len(),
            forall|x: int| 0 <= x < filler@.len() ==> (#[trigger] filler@[x] matches Some(k) ==> k
                < es.len()),
            rows@.len() == j,
            forall|x: int| 0 <= x < j ==> rom_match_ok(#[trigger] rows@[x], rv, es, x),
        decreases roms.len() - j,
    {
        let rom = &roms[j];
        let status = if !fillable(rom) {
            DatRomStatus::NoDump
        } else if filler[j].is_some() {
            DatRomStatus::Present
        } else {
            let mut evidence = false;
            let mut i: usize = 0;
            while i < roms.len()
                invariant
                    i <= roms.len(),
                    j < roms.len(),
                    *rom == roms@[j as int],
                    rv == rom_views(roms@),
                    es == entries@,
                    rv.len() == roms.len(),
                    fillers_agree(filler@, fillers(rv, es)),
                    filler@.len() == roms.len(),
                    forall|x: int| 0 <= x < filler@.len() ==> (#[trigger] filler@[x] matches Some(k)
                        ==> k < es.len()),
                    evidence == exists|x: int|
                        0 <= x < i && rv[x].game == rv[j as int].game
                            && #[trigger] filled_from_archive(rv, es, x),
                decreases roms.len() - i,
            {
                proof {
                    assert(rv[i as int] == roms@[i as int]@);
                    assert(rv[j as int] == roms@[j as int]@);
                    assert(same_index(filler@[i as int], fillers(rv, es)[i as int]));
                }
                let same_game = roms[i].game == rom.game;
                let from_archive = archive_filled(entries, filler, i);
                proof {
                    match filler@[i as int] {
                        Some(k) => assert(fillers(rv, es)[i as int] == Some(k as int)),
                        None => assert(fillers(rv, es)[i as int] is None),
                    }
                    assert(from_archive == filled_from_archive(rv, es, i as int));
                }
                let ghost prev = evidence;
                if same_game && from_archive {
                    evidence = true;
                }
                proof {
                    assert(same_game == (rv[i as int].game == rv[j as int].game));
                    if !evidence {
                        assert forall|x: int|
                            0 <= x < i + 1 && rv[x].game == rv[j as int].game implies !#[trigger] filled_from_archive(
                            rv,
                            es,
                            x,
                        ) by {
                            if x < i {
                                assert(!prev);
                            }
                        }
                    }
                }
                i = i + 1;
            }
            if evidence {
                DatRomStatus::MissingInArchive
            } else {
                DatRomStatus::Missing
            }
        };
        proof {
            assert(rv[j as int] == roms@[j as int]@);
            assert(same_index(filler@[j as int], fillers(rv, es)[j as int]));
        }
        rows.push(
            DatRomMatch {
                game: rom.game.clone(),
                name: rom.name.clone(),
                status,
                dump_status: rom.dump_status,
            },
        );
        j = j + 1;
    }
    rows
}

/// Every recorded filler is an index of some entry.
pub proof fn lemma_fillers_in_range(roms: Seq<DatRomView>, entries: Seq<ScanEntry>)
    ensures
        forall|j: int|
            0 <= j < fillers(roms, entries).len() ==> (#[trigger] fillers(roms, entries)[j] matches Some(
                k,
            ) ==> 0 <= k < entries.len()),
    decreases entries.len(),
{
    lemma_fillers_len(roms, entries);
    if entries.len() > 0 {
        lemma_fillers_in_range(roms, entries.drop_last());
        lemma_fillers_len(roms, entries.drop_last());
        lemma_hash_hit_in_range(roms, entries.last());
    }
}

fn set_rows(entries: &[ScanEntry], roms: &Vec<DatRom>, filler: &Vec<Option<usize>>) -> (rows: Vec<
    SetMatch,
>)
    requires
        fillers_agree(filler@, fillers(rom_views(roms@), entries@)),
    ensures
        rows@.len() == set_titles(rom_views(roms@)).len(),
        forall|s: int|
            0 <= s < rows@.len() ==> {
                &&& (#[trigger] rows@[s]).game@ == set_titles(rom_views(roms@))[s]
                &&& rows@[s].status == set_status(
                    rom_views(roms@),
                    entries@,
                    set_titles(rom_views(roms@))[s],
                )
            },
{
    let ghost rv = rom_views(roms@);
    let titles = game_titles(roms);
    let mut rows: Vec<SetMatch> = Vec::with_capacity(titles.len());
    let mut s: usize = 0;
    while s < titles.len()
        invariant
            s <= titles.len(),
            rv == rom_views(roms@),
            fillers_agree(filler@, fillers(rv, entries@)),
            titles@.len() == set_titles(rv).len(),
            forall|x: int| 0 <= x < titles@.len() ==> (#[trigger] titles@[x])@ == set_titles(rv)[x],
            rows@.len() == s,
            forall|x: int|
                0 <= x < s ==> {
                    &&& (#[trigger] rows@[x]).game@ == set_titles(rv)[x]
                    &&& rows@[x].status == set_status(rv, entries@, set_titles(rv)[x])
                },
        decreases titles.len() - s,
    {
        let status = game_set_status(entries, roms, filler, &titles[s]);
        rows.push(SetMatch { game: titles[s].clone(), status });
        s = s + 1;
    }
    rows
}

/// Set status of one game from the filler bookkeeping.
fn game_set_status(
    entries: &[ScanEntry],
    roms: &Vec<DatRom>,
    filler: &Vec<Option<usize>>,
    game: &String,
) -> (status: SetStatus)
    requires
        fillers_agree(filler@, fillers(rom_views(roms@), entries@)),
    ensures
        status == set_status(rom_views(roms@), entries@, game@),
{
    let ghost rv = rom_views(roms@);
    let ghost f = fillers(rv, entries@);
    proof {
        lemma_fillers_len(rv, entries@);
    }
    let mut all_filled = true;
    let mut none_filled = true;
    let mut i: usize = 0;
    while i < roms.len()
        invariant
            i <= roms.len(),
            rv == rom_views(roms@),
            f == fillers(rv, entries@),
            f.len() == roms.len(),
            fillers_agree(filler@, f),
            all_filled == forall|x: int| 0 <= x < i && #[trigger] required_in(rv, game@, x) ==> f[x] is Some,
            none_filled == forall|x: int| 0 <= x < i && #[trigger] required_in(rv, game@, x) ==> f[x] is None,
        decreases roms.len() - i,
    {
        if roms[i].game == *game && fillable(&roms[i]) {
            assert(required_in(rv, game@, i as int));
            if filler[i].is_some() {
                none_filled = false;
            } else {
                all_filled = false;
            }
        }
        i = i + 1;
    }
    if all_filled {
        SetStatus::Complete
    } else if none_filled {
        SetStatus::MissingSet
    } else {
        SetStatus::Incomplete
    }
}

fn contains_string(list: &Vec<String>, s: &String) -> (found: bool)
    ensures
        found == list@.map_values(|t: String| t@).contains(s@),
{
    let ghost lv = list@.map_values(|t: String| t@);
    let mut i: usize = 0;
    while i < list.len()
        invariant
            i <= list.len(),
            lv == list@.map_values(|t: String| t@),
            forall|x: int| 0 <= x < i ==> lv[x] != s@,
        decreases list.len() - i,
    {
        if list[i] == *s {
            assert(lv[i as int] == s@);
            return true;
        }
        i = i + 1;
    }
    false
}

fn has_required_rom(roms: &Vec<DatRom>, game: &String) -> (b: bool)
    ensures
        b == has_required(rom_views(roms@), game@),
{
    let ghost rv = rom_views(roms@);
    let mut i: usize = 0;
    while i < roms.len()
        invariant
            i <= roms.len(),
            rv == rom_views(roms@),
            forall|x: int| 0 <= x < i ==> !#[trigger] required_in(rv, game@, x),
        decreases roms.len() - i,
    {
        if roms[i].game == *game && fillable(&roms[i]) {
            assert(required_in(rv, game@, i as int));
            return true;
        }
        i = i + 1;
    }
    false
}

/// Game titles in order of first appearance, omitting games with no required ROM.
pub(crate) fn game_titles(roms: &Vec<DatRom>) -> (titles: Vec<String>)
    ensures
        titles@.len() == set_titles(rom_views(roms@)).len(),
        forall|x: int| 0 <= x < titles@.len() ==> (#[trigger] titles@[x])@ == set_titles(rom_views(roms@))[x],
{
    let ghost rv = rom_views(roms@);
    let mut titles: Vec<String> = Vec::new();
    let mut i: usize = 0;
    while i < roms.len()
        invariant
            i <= roms.len(),
            rv == rom_views(roms@),
            titles@.map_values(|t: String| t@) == titles_upto(rv, rv.take(i as int)),
        decreases roms.len() - i,
    {
        let game = &roms[i].game;
        proof {
            assert(rv.take(i + 1).drop_last() =~= rv.take(i as int));
        }
        if has_required_rom(roms, game) && !contains_string(&titles, game) {
            titles.push(game.clone());
            assert(titles@.map_values(|t: String| t@) =~= titles_upto(rv, rv.take(i + 1)));
        }
        i = i + 1;
    }
    assert(rv.take(roms.len() as int) =~= rv);
    assert forall|x: int| 0 <= x < titles@.len() implies (#[trigger] titles@[x])@ == set_titles(rv)[x] by {
        assert(titles@.map_values(|t: String| t@)[x] == titles@[x]@);
    }
    titles
}

/// Matches scan entries against the ROM rows of one DAT. Fills, duplicates,
/// extras, missing-in-archive evidence and set status all belong to this DAT
/// alone: a report never looks at the rows of another DAT.
pub fn match_collection(entries: &[ScanEntry], dat: &DatFile) -> (report: MatchReport)
    ensures
        report_ok(report, rom_views(dat.roms@), entries@),
{
    match_roms(entries, &dat.roms)
}

} // verus!
