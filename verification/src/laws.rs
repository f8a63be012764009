//! Properties of DAT matching that hold for every collection and every DAT,
//! stated over the model that `match_collection` is proved to compute.

use vstd::prelude::*;
use crate::dat::{DatRomView, DumpStatus};
use crate::matching::{
    DatRomMatch, DatRomStatus, FileMatch, FileStatus, MatchReport, SetStatus, can_fill, file_match_ok, report_ok, rom_match_ok, file_rom, file_status, filled_from_archive,
    fillers, hash_fits, hash_hit, is_first_hash_hit, is_first_name_hit, lemma_fillers_len, name_fits, name_hit, required_in,
    rom_status, set_status,
};
use crate::scan::{EntryKind, ScanEntry};
use crate::report::count_roms;

verus! {

/// Entry `k` filled ROM `j`: its hash hit is `j` and it was reported `Have`
/// or `WrongName`.
pub open spec fn fills_rom(roms: Seq<DatRomView>, entries: Seq<ScanEntry>, k: int, j: int) -> bool {
    &&& 0 <= k < entries.len()
    &&& hash_hit(roms, entries[k]) == Some(j)
    &&& (file_status(roms, entries, k) == FileStatus::Have || file_status(roms, entries, k)
        == FileStatus::WrongName)
}

/// Some entry among the first `n` has ROM `j` as its hash hit.
pub open spec fn hit_before(roms: Seq<DatRomView>, entries: Seq<ScanEntry>, n: int, j: int) -> bool {
    exists|k: int| 0 <= k < n && #[trigger] hash_hit(roms, entries[k]) == Some(j)
}

proof fn lemma_hit_in_range(roms: Seq<DatRomView>, e: ScanEntry)
    ensures
        hash_hit(roms, e) matches Some(h) ==> 0 <= h < roms.len() && hash_fits(roms[h], e),
{
}

/// The filler of a ROM is the first entry whose hash hit is that ROM.
proof fn lemma_fillers_first(roms: Seq<DatRomView>, entries: Seq<ScanEntry>, j: int)
    requires
        0 <= j < roms.len(),
    ensures
        fillers(roms, entries)[j] matches Some(k) ==> {
            &&& 0 <= k < entries.len()
            &&& hash_hit(roms, entries[k]) == Some(j)
            &&& !hit_before(roms, entries, k, j)
        },
        fillers(roms, entries)[j] is None <==> !hit_before(roms, entries, entries.len() as int, j),
    decreases entries.len(),
{
    lemma_fillers_len(roms, entries);
    if entries.len() > 0 {
        let prefix = entries.drop_last();
        let n = entries.len() - 1;
        lemma_fillers_first(roms, prefix, j);
        lemma_fillers_len(roms, prefix);
        lemma_hit_in_range(roms, entries.last());
        assert forall|k: int| 0 <= k < n implies #[trigger] entries[k] == prefix[k] by {}
        if hit_before(roms, prefix, n, j) {
            let k = choose|k: int| 0 <= k < n && #[trigger] hash_hit(roms, prefix[k]) == Some(j);
            assert(hash_hit(roms, entries[k]) == Some(j));
        }
        if hit_before(roms, entries, n, j) {
            let k = choose|k: int| 0 <= k < n && #[trigger] hash_hit(roms, entries[k]) == Some(j);
            assert(hash_hit(roms, prefix[k]) == Some(j));
        }
        if hit_before(roms, entries, entries.len() as int, j) && !hit_before(roms, entries, n, j) {
            let k = choose|k: int|
                0 <= k < entries.len() && #[trigger] hash_hit(roms, entries[k]) == Some(j);
            assert(k == n);
        }
        if hash_hit(roms, entries.last()) == Some(j) {
            assert(hit_before(roms, entries, entries.len() as int, j));
        }
    }
}

/// Whether an earlier entry already hit ROM `j`, from the bookkeeping view.
proof fn lemma_prefix_fillers(roms: Seq<DatRomView>, entries: Seq<ScanEntry>, k: int, j: int)
    requires
        0 <= j < roms.len(),
        0 <= k <= entries.len(),
    ensures
        fillers(roms, entries.take(k))[j] is None <==> !hit_before(roms, entries, k, j),
{
    let p = entries.take(k);
    lemma_fillers_first(roms, p, j);
    if hit_before(roms, p, k, j) {
        let x = choose|x: int| 0 <= x < k && #[trigger] hash_hit(roms, p[x]) == Some(j);
        assert(hash_hit(roms, entries[x]) == Some(j));
    }
    if hit_before(roms, entries, k, j) {
        let x = choose|x: int| 0 <= x < k && #[trigger] hash_hit(roms, entries[x]) == Some(j);
        assert(hash_hit(roms, p[x]) == Some(j));
    }
}

/// Each DAT ROM is filled by at most one scan entry.
pub proof fn law_each_rom_filled_at_most_once(
    roms: Seq<DatRomView>,
    entries: Seq<ScanEntry>,
    j: int,
    k1: int,
    k2: int,
)
    requires
        fills_rom(roms, entries, k1, j),
        fills_rom(roms, entries, k2, j),
    ensures
        k1 == k2,
{
    lemma_hit_in_range(roms, entries[k1]);
    lemma_prefix_fillers(roms, entries, k1, j);
    lemma_prefix_fillers(roms, entries, k2, j);
    if k1 < k2 {
        assert(hit_before(roms, entries, k2, j));
    }
    if k2 < k1 {
        assert(hit_before(roms, entries, k1, j));
    }
}

/// A fillable ROM is `Present` exactly when some entry hash-matches it first,
/// and then exactly one entry filled it.
pub proof fn law_present_iff_hash_hit(roms: Seq<DatRomView>, entries: Seq<ScanEntry>, j: int)
    requires
        0 <= j < roms.len(),
        can_fill(roms[j]),
    ensures
        rom_status(roms, entries, j) == DatRomStatus::Present <==> hit_before(
            roms,
            entries,
            entries.len() as int,
            j,
        ),
        rom_status(roms, entries, j) == DatRomStatus::Present <==> exists|k: int|
            #[trigger] fills_rom(roms, entries, k, j),
{
    lemma_fillers_first(roms, entries, j);
    lemma_fillers_len(roms, entries);
    if fillers(roms, entries)[j] is Some {
        let k = fillers(roms, entries)[j]->0;
        lemma_prefix_fillers(roms, entries, k, j);
        lemma_hit_in_range(roms, entries[k]);
        assert(fills_rom(roms, entries, k, j));
    }
    if exists|k: int| #[trigger] fills_rom(roms, entries, k, j) {
        let k = choose|k: int| #[trigger] fills_rom(roms, entries, k, j);
        assert(hash_hit(roms, entries[k]) == Some(j));
        assert(hit_before(roms, entries, entries.len() as int, j));
    }
}

/// A `nodump` ROM is reported `NoDump`, is never any entry's hash hit and is
/// never the ROM an entry is reported against.
pub proof fn law_nodump_never_filled(roms: Seq<DatRomView>, entries: Seq<ScanEntry>, j: int, k: int)
    requires
        0 <= j < roms.len(),
        roms[j].dump_status == DumpStatus::NoDump,
        0 <= k < entries.len(),
    ensures
        rom_status(roms, entries, j) == DatRomStatus::NoDump,
        hash_hit(roms, entries[k]) != Some(j),
        file_rom(roms, entries[k]) != Some(j),
{
    lemma_hit_in_range(roms, entries[k]);
}

/// If some fillable ROM hash-matches an entry, the entry's hash hit is the
/// first such ROM.
proof fn lemma_first_fit_exists(roms: Seq<DatRomView>, e: ScanEntry, i: int)
    requires
        0 <= i < roms.len(),
        hash_fits(roms[i], e),
    ensures
        exists|h: int| is_first_hash_hit(roms, e, h),
    decreases i,
{
    if exists|j: int| 0 <= j < i && #[trigger] hash_fits(roms[j], e) {
        let j = choose|j: int| 0 <= j < i && #[trigger] hash_fits(roms[j], e);
        lemma_first_fit_exists(roms, e, j);
    } else {
        assert(is_first_hash_hit(roms, e, i));
    }
}

/// Hash identity wins over names: an entry that hash-matches some fillable
/// ROM is reported against its first such ROM as `Have`, `WrongName` or
/// `Duplicate`, never by name.
pub proof fn law_hash_identity_wins(roms: Seq<DatRomView>, entries: Seq<ScanEntry>, k: int, i: int)
    requires
        0 <= k < entries.len(),
        0 <= i < roms.len(),
        hash_fits(roms[i], entries[k]),
    ensures
        hash_hit(roms, entries[k]) is Some,
        file_rom(roms, entries[k]) == hash_hit(roms, entries[k]),
        file_status(roms, entries, k) == FileStatus::Have || file_status(roms, entries, k)
            == FileStatus::WrongName || file_status(roms, entries, k) == FileStatus::Duplicate,
{
    lemma_first_fit_exists(roms, entries[k], i);
}

/// An entry is a `Duplicate` exactly when an earlier entry has the same hash hit.
pub proof fn law_duplicate_iff_earlier_hit(roms: Seq<DatRomView>, entries: Seq<ScanEntry>, k: int)
    requires
        0 <= k < entries.len(),
    ensures
        file_status(roms, entries, k) == FileStatus::Duplicate <==> (hash_hit(roms, entries[k]) matches Some(
            j,
        ) && hit_before(roms, entries, k, j)),
{
    lemma_hit_in_range(roms, entries[k]);
    if let Some(j) = hash_hit(roms, entries[k]) {
        lemma_prefix_fillers(roms, entries, k, j);
    }
}

/// A `Have` entry carries exactly the ROM's name (case-sensitive); a
/// `WrongName` entry does not.
pub proof fn law_names_compare_exactly(roms: Seq<DatRomView>, entries: Seq<ScanEntry>, k: int)
    requires
        0 <= k < entries.len(),
    ensures
        file_status(roms, entries, k) == FileStatus::Have ==> entries[k].entry_name@ == roms[hash_hit(
            roms,
            entries[k],
        )->0].name,
        file_status(roms, entries, k) == FileStatus::WrongName ==> entries[k].entry_name@
            != roms[hash_hit(roms, entries[k])->0].name,
{
}

/// A `WrongDump` (name only) entry fills no ROM, and its name hit is a
/// fillable ROM with exactly its name.
pub proof fn law_wrong_dump_does_not_fill(roms: Seq<DatRomView>, entries: Seq<ScanEntry>, k: int, j: int)
    requires
        0 <= k < entries.len(),
        0 <= j < roms.len(),
        file_status(roms, entries, k) == FileStatus::WrongDump,
    ensures
        !fills_rom(roms, entries, k, j),
        fillers(roms, entries)[j] != Some(k),
        name_hit(roms, entries[k]) matches Some(n) && can_fill(roms[n]) && roms[n].name
            == entries[k].entry_name@,
{
    lemma_fillers_first(roms, entries, j);
}

/// A set is `Complete` exactly when every required ROM of the game is
/// `Present`, and `MissingSet` exactly when none is.
pub proof fn law_set_status_follows_rom_status(
    roms: Seq<DatRomView>,
    entries: Seq<ScanEntry>,
    g: Seq<char>,
)
    ensures
        set_status(roms, entries, g) == SetStatus::Complete <==> forall|i: int|
            #[trigger] required_in(roms, g, i) ==> rom_status(roms, entries, i)
                == DatRomStatus::Present,
        set_status(roms, entries, g) == SetStatus::MissingSet <==> (exists|i: int|
            #[trigger] required_in(roms, g, i) && rom_status(roms, entries, i)
                != DatRomStatus::Present) && forall|i: int| #[trigger] required_in(roms, g, i)
            ==> rom_status(roms, entries, i) != DatRomStatus::Present,
{
    assert forall|i: int| #[trigger] required_in(roms, g, i) implies (rom_status(roms, entries, i)
        == DatRomStatus::Present <==> fillers(roms, entries)[i] is Some) by {}
}

/// A ROM is `MissingInArchive` only when it is unfilled and another ROM of
/// the same game was filled from a ZIP or 7z member.
pub proof fn law_missing_in_archive_has_evidence(roms: Seq<DatRomView>, entries: Seq<ScanEntry>, j: int)
    requires
        0 <= j < roms.len(),
        rom_status(roms, entries, j) == DatRomStatus::MissingInArchive,
    ensures
        !hit_before(roms, entries, entries.len() as int, j),
        exists|i: int|
            0 <= i < roms.len() && i != j && roms[i].game == roms[j].game
                && #[trigger] filled_from_archive(roms, entries, i) && rom_status(roms, entries, i)
                == DatRomStatus::Present,
{
    lemma_fillers_first(roms, entries, j);
    let i = choose|i: int|
        0 <= i < roms.len() && roms[i].game == roms[j].game && #[trigger] filled_from_archive(
            roms,
            entries,
            i,
        );
    lemma_fillers_first(roms, entries, i);
    lemma_hit_in_range(roms, entries[fillers(roms, entries)[i]->0]);
}

proof fn lemma_first_name_exists(roms: Seq<DatRomView>, e: ScanEntry, i: int)
    requires
        0 <= i < roms.len(),
        name_fits(roms[i], e),
    ensures
        exists|n: int| is_first_name_hit(roms, e, n),
    decreases i,
{
    if exists|j: int| 0 <= j < i && #[trigger] name_fits(roms[j], e) {
        let j = choose|j: int| 0 <= j < i && #[trigger] name_fits(roms[j], e);
        lemma_first_name_exists(roms, e, j);
    } else {
        assert(is_first_name_hit(roms, e, i));
    }
}

/// The status of a scan entry in one statement. When some fillable ROM has
/// every listed hash (at least one) and its size, if listed, agreeing with
/// the entry, the entry is reported against the first such ROM: `Duplicate`
/// when an earlier entry hit that ROM, otherwise `Have` with exactly its
/// name and `WrongName` with another. Otherwise it is reported `WrongDump`
/// against the first fillable ROM carrying exactly its name, and `Extra`,
/// against no ROM, when there is none.
pub proof fn law_file_status(roms: Seq<DatRomView>, entries: Seq<ScanEntry>, k: int)
    requires
        0 <= k < entries.len(),
    ensures
        (exists|i: int| 0 <= i < roms.len() && #[trigger] hash_fits(roms[i], entries[k])) ==> {
            &&& hash_hit(roms, entries[k]) matches Some(h)
            &&& is_first_hash_hit(roms, entries[k], h)
            &&& file_rom(roms, entries[k]) == Some(h)
            &&& (file_status(roms, entries, k) == FileStatus::Duplicate <==> hit_before(roms, entries, k, h))
            &&& (file_status(roms, entries, k) == FileStatus::Have <==> !hit_before(roms, entries, k, h)
                && entries[k].entry_name@ == roms[h].name)
            &&& (file_status(roms, entries, k) == FileStatus::WrongName <==> !hit_before(roms, entries, k, h)
                && entries[k].entry_name@ != roms[h].name)
        },
        !(exists|i: int| 0 <= i < roms.len() && #[trigger] hash_fits(roms[i], entries[k])) && (exists|i: int|
            0 <= i < roms.len() && #[trigger] name_fits(roms[i], entries[k])) ==> {
            &&& name_hit(roms, entries[k]) matches Some(n)
            &&& is_first_name_hit(roms, entries[k], n)
            &&& file_rom(roms, entries[k]) == Some(n)
            &&& file_status(roms, entries, k) == FileStatus::WrongDump
        },
        !(exists|i: int| 0 <= i < roms.len() && #[trigger] hash_fits(roms[i], entries[k])) && !(exists|i: int|
            0 <= i < roms.len() && #[trigger] name_fits(roms[i], entries[k])) ==> {
            &&& file_rom(roms, entries[k]) is None
            &&& file_status(roms, entries, k) == FileStatus::Extra
        },
{
    let e = entries[k];
    if exists|i: int| 0 <= i < roms.len() && #[trigger] hash_fits(roms[i], e) {
        let i = choose|i: int| 0 <= i < roms.len() && #[trigger] hash_fits(roms[i], e);
        lemma_first_fit_exists(roms, e, i);
        let h = hash_hit(roms, e)->0;
        lemma_prefix_fillers(roms, entries, k, h);
    } else {
        assert(!exists|h: int| is_first_hash_hit(roms, e, h));
        if exists|i: int| 0 <= i < roms.len() && #[trigger] name_fits(roms[i], e) {
            let i = choose|i: int| 0 <= i < roms.len() && #[trigger] name_fits(roms[i], e);
            lemma_first_name_exists(roms, e, i);
        } else {
            assert(!exists|n: int| is_first_name_hit(roms, e, n));
        }
    }
}

/// How many ROMs have a filler.
pub open spec fn filled_count(f: Seq<Option<int>>) -> nat
    decreases f.len(),
{
    if f.len() == 0 {
        0
    } else {
        filled_count(f.drop_last()) + if f.last() is Some {
            1nat
        } else {
            0nat
        }
    }
}

/// How many of the first `n` entries are `Have` or `WrongName`.
pub open spec fn filling_count(roms: Seq<DatRomView>, entries: Seq<ScanEntry>, n: int) -> nat
    decreases n,
{
    if n <= 0 {
        0
    } else {
        filling_count(roms, entries, n - 1) + if file_status(roms, entries, n - 1) == FileStatus::Have
            || file_status(roms, entries, n - 1) == FileStatus::WrongName {
            1nat
        } else {
            0nat
        }
    }
}

/// How many report rows of scanned files have status `st`.
pub open spec fn count_files(files: Seq<FileMatch>, st: FileStatus) -> nat
    decreases files.len(),
{
    if files.len() == 0 {
        0
    } else {
        count_files(files.drop_last(), st) + if files.last().status == st {
            1nat
        } else {
            0nat
        }
    }
}

proof fn lemma_filled_count_update(f: Seq<Option<int>>, h: int, x: int)
    requires
        0 <= h < f.len(),
        f[h] is None,
    ensures
        filled_count(f.update(h, Some(x))) == filled_count(f) + 1,
    decreases f.len(),
{
    let g = f.update(h, Some(x));
    if h == f.len() - 1 {
        assert(g.drop_last() =~= f.drop_last());
    } else {
        assert(g.drop_last() =~= f.drop_last().update(h, Some(x)));
        lemma_filled_count_update(f.drop_last(), h, x);
    }
}

proof fn lemma_filled_is_filling(roms: Seq<DatRomView>, entries: Seq<ScanEntry>, n: int)
    requires
        0 <= n <= entries.len(),
    ensures
        filled_count(fillers(roms, entries.take(n))) == filling_count(roms, entries, n),
    decreases n,
{
    let p = entries.take(n);
    lemma_fillers_len(roms, p);
    if n == 0 {
        assert forall|j: int| 0 <= j < roms.len() implies fillers(roms, p)[j] is None by {}
        lemma_none_filled(fillers(roms, p));
    } else {
        lemma_filled_is_filling(roms, entries, n - 1);
        assert(p.drop_last() =~= entries.take(n - 1));
        assert(p.last() == entries[n - 1]);
        lemma_hit_in_range(roms, entries[n - 1]);
        lemma_fillers_len(roms, entries.take(n - 1));
        if let Some(h) = hash_hit(roms, entries[n - 1]) {
            if fillers(roms, entries.take(n - 1))[h] is None {
                lemma_filled_count_update(fillers(roms, entries.take(n - 1)), h, n - 1);
            }
        }
    }
}

proof fn lemma_none_filled(f: Seq<Option<int>>)
    requires
        forall|j: int| 0 <= j < f.len() ==> f[j] is None,
    ensures
        filled_count(f) == 0,
    decreases f.len(),
{
    if f.len() > 0 {
        lemma_none_filled(f.drop_last());
    }
}

proof fn lemma_present_rows(rows: Seq<DatRomMatch>, f: Seq<Option<int>>)
    requires
        rows.len() == f.len(),
        forall|j: int| 0 <= j < f.len() ==> ((#[trigger] rows[j]).status == DatRomStatus::Present <==> f[j] is Some),
    ensures
        count_roms(rows, DatRomStatus::Present) == filled_count(f),
    decreases f.len(),
{
    if f.len() > 0 {
        lemma_present_rows(rows.drop_last(), f.drop_last());
    }
}

proof fn lemma_filling_rows(files: Seq<FileMatch>, roms: Seq<DatRomView>, entries: Seq<ScanEntry>)
    requires
        files.len() <= entries.len(),
        forall|k: int| 0 <= k < files.len() ==> (#[trigger] files[k]).status == file_status(roms, entries, k),
    ensures
        count_files(files, FileStatus::Have) + count_files(files, FileStatus::WrongName) == filling_count(
            roms,
            entries,
            files.len() as int,
        ),
    decreases files.len(),
{
    if files.len() > 0 {
        lemma_filling_rows(files.drop_last(), roms, entries);
    }
}

/// Every ROM filled is filled by exactly one entry reported `Have` or
/// `WrongName`, and every such entry fills one ROM: the `Have` and
/// `WrongName` rows of a report add up to its `Present` rows.
pub proof fn law_filled_rows_match_present_roms(report: MatchReport, roms: Seq<DatRomView>, entries: Seq<ScanEntry>)
    requires
        report_ok(report, roms, entries),
    ensures
        count_files(report.files@, FileStatus::Have) + count_files(report.files@, FileStatus::WrongName)
            == count_roms(report.roms@, DatRomStatus::Present),
{
    let f = fillers(roms, entries);
    lemma_fillers_len(roms, entries);
    assert(entries.take(entries.len() as int) =~= entries);
    lemma_filled_is_filling(roms, entries, entries.len() as int);
    assert forall|k: int| 0 <= k < report.files@.len() implies (#[trigger] report.files@[k]).status == file_status(
        roms,
        entries,
        k,
    ) by {
        assert(file_match_ok(report.files@[k], roms, entries, k));
    }
    lemma_filling_rows(report.files@, roms, entries);
    assert forall|j: int| 0 <= j < f.len() implies ((#[trigger] report.roms@[j]).status
        == DatRomStatus::Present <==> f[j] is Some) by {
        assert(rom_match_ok(report.roms@[j], roms, entries, j));
        lemma_fillers_first(roms, entries, j);
        if let Some(k) = f[j] {
            lemma_hit_in_range(roms, entries[k]);
        }
    }
    lemma_present_rows(report.roms@, f);
}

/// An unfilled, fillable ROM is `MissingInArchive` exactly when another ROM
/// of the same game was filled by an entry that is a ZIP or 7z member (any
/// kind but a loose file); otherwise it is `Missing`.
pub proof fn law_missing_in_archive_iff(roms: Seq<DatRomView>, entries: Seq<ScanEntry>, j: int)
    requires
        0 <= j < roms.len(),
        can_fill(roms[j]),
        fillers(roms, entries)[j] is None,
    ensures
        rom_status(roms, entries, j) == DatRomStatus::MissingInArchive <==> exists|i: int, k: int|
            #![trigger fillers(roms, entries)[i], entries[k]]
            0 <= i < roms.len() && roms[i].game == roms[j].game && fillers(roms, entries)[i]
                == Some(k) && entries[k].kind != EntryKind::File,
        rom_status(roms, entries, j) == DatRomStatus::Missing <==> !exists|i: int, k: int|
            #![trigger fillers(roms, entries)[i], entries[k]]
            0 <= i < roms.len() && roms[i].game == roms[j].game && fillers(roms, entries)[i]
                == Some(k) && entries[k].kind != EntryKind::File,
{
    if exists|i: int, k: int|
        #![trigger fillers(roms, entries)[i], entries[k]]
        0 <= i < roms.len() && roms[i].game == roms[j].game && fillers(roms, entries)[i] == Some(k)
            && entries[k].kind != EntryKind::File {
        let (i, k) = choose|i: int, k: int|
            #![trigger fillers(roms, entries)[i], entries[k]]
            0 <= i < roms.len() && roms[i].game == roms[j].game && fillers(roms, entries)[i]
                == Some(k) && entries[k].kind != EntryKind::File;
        assert(filled_from_archive(roms, entries, i));
    }
    if exists|i: int|
        0 <= i < roms.len() && roms[i].game == roms[j].game && #[trigger] filled_from_archive(roms, entries, i) {
        let i = choose|i: int|
            0 <= i < roms.len() && roms[i].game == roms[j].game && #[trigger] filled_from_archive(roms, entries, i);
        let k = fillers(roms, entries)[i]->0;
        assert(fillers(roms, entries)[i] == Some(k) && entries[k].kind != EntryKind::File);
    }
}

} // verus!
