//! What the front ends show of a match: the DAT verification report lines,
//! the scan and DAT summaries, the Sets pane rows and the Members pane rows.

use vstd::prelude::*;
use crate::dat::{DatFile, DatRom, opt_view, rom_views};
use crate::matching::{match_collection, report_ok, DatRomMatch, DatRomStatus, FileMatch, FileStatus, MatchReport, SetMatch, SetStatus, game_titles, set_titles};
use crate::messages::{Messages, formatted, knows, marked_file_status, marked_status, set_status, set_status_key, text_of, value_views};
use crate::scan::{ScanEntry, ScanReport, lemma_rows_under_len, rows_in_collection, rows_under};
use crate::sets::SetRow;
use crate::text::{decimal, decimal_string, decimal_u64, string_of};
use crate::view::dat_member_rows;

verus! {

// ---------------------------------------------------------------------------
// Counting
// ---------------------------------------------------------------------------

/// How many ROM rows have status `st`.
pub open spec fn count_roms(roms: Seq<DatRomMatch>, st: DatRomStatus) -> nat
    decreases roms.len(),
{
    if roms.len() == 0 {
        0
    } else {
        count_roms(roms.drop_last(), st) + if roms.last().status == st {
            1nat
        } else {
            0nat
        }
    }
}

proof fn lemma_count_roms_bound(roms: Seq<DatRomMatch>, st: DatRomStatus)
    ensures
        count_roms(roms, st) <= roms.len(),
    decreases roms.len(),
{
    if roms.len() > 0 {
        lemma_count_roms_bound(roms.drop_last(), st);
    }
}

/// Every ROM row has exactly one of the four statuses, so the Present,
/// Missing, MissingInArchive and nodump counts add up to the number of rows.
pub proof fn law_status_counts_cover_roms(roms: Seq<DatRomMatch>)
    ensures
        count_roms(roms, DatRomStatus::Present) + count_roms(roms, DatRomStatus::Missing) + count_roms(
            roms,
            DatRomStatus::MissingInArchive,
        ) + count_roms(roms, DatRomStatus::NoDump) == roms.len(),
    decreases roms.len(),
{
    if roms.len() > 0 {
        law_status_counts_cover_roms(roms.drop_last());
    }
}

/// Counts the ROM rows with status `st`.
pub fn count_status(roms: &Vec<DatRomMatch>, st: DatRomStatus) -> (n: usize)
    ensures
        n == count_roms(roms@, st),
{
    let mut n: usize = 0;
    let mut i: usize = 0;
    while i < roms.len()
        invariant
            i <= roms@.len(),
            n == count_roms(roms@.take(i as int), st),
            n <= i,
        decreases roms@.len() - i,
    {
        proof {
            assert(roms@.take(i + 1).drop_last() =~= roms@.take(i as int));
        }
        if roms[i].status == st {
            n = n + 1;
        }
        i = i + 1;
    }
    assert(roms@.take(roms@.len() as int) =~= roms@);
    n
}

// ---------------------------------------------------------------------------
// The DAT verification report
// ---------------------------------------------------------------------------

/// The contents of an optional text, or the empty text.
pub open spec fn or_empty(o: Option<String>) -> Seq<char> {
    match o {
        Some(s) => s@,
        None => Seq::empty(),
    }
}

/// The summary line: files, present, missing and nodump counts. Missing
/// counts every unfilled row, `MissingInArchive` ones included.
pub open spec fn dat_summary_line(m: Messages, r: MatchReport) -> Seq<char> {
    formatted(
        text_of(
            m,
            "dat_summary"@,
            "DAT verification: {files} files, {present} present, {missing} missing, {nodump} nodump."@,
        ),
        seq![
            ("files"@, decimal(r.files@.len())),
            ("present"@, decimal(count_roms(r.roms@, DatRomStatus::Present))),
            ("missing"@, decimal(count_roms(r.roms@, DatRomStatus::Missing) + count_roms(r.roms@, DatRomStatus::MissingInArchive))),
            ("nodump"@, decimal(count_roms(r.roms@, DatRomStatus::NoDump))),
        ],
    )
}

/// The line of one scanned file: an extra file shows its path only, any other
/// its path and the DAT row it matched.
pub open spec fn file_line(m: Messages, f: FileMatch) -> Seq<char> {
    if f.status == FileStatus::Extra {
        formatted(
            text_of(m, "dat_extra_line"@, "{status}  {path}"@),
            seq![("status"@, marked_status(m, f.status, f.dump_status)), ("path"@, f.entry_path@)],
        )
    } else {
        formatted(
            text_of(m, "dat_file_line"@, "{status}  {path}  {game}/{name}"@),
            seq![
                ("status"@, marked_status(m, f.status, f.dump_status)),
                ("path"@, f.entry_path@),
                ("game"@, or_empty(f.game)),
                ("name"@, or_empty(f.dat_name)),
            ],
        )
    }
}

/// The line of one ROM row under a message key.
pub open spec fn rom_line(m: Messages, key: Seq<char>, fallback: Seq<char>, r: DatRomMatch) -> Seq<char> {
    formatted(text_of(m, key, fallback), seq![("game"@, r.game@), ("name"@, r.name@)])
}

/// The rows a list shows: the unfilled ones (`Missing` and
/// `MissingInArchive`) for the missing list, the `nodump` ones otherwise.
pub open spec fn listed(missing: bool, st: DatRomStatus) -> bool {
    if missing {
        st == DatRomStatus::Missing || st == DatRomStatus::MissingInArchive
    } else {
        st == DatRomStatus::NoDump
    }
}

/// The lines of the ROM rows the list shows, in order.
pub open spec fn rom_lines(
    m: Messages,
    roms: Seq<DatRomMatch>,
    missing: bool,
    key: Seq<char>,
    fallback: Seq<char>,
) -> Seq<Seq<char>>
    decreases roms.len(),
{
    if roms.len() == 0 {
        Seq::empty()
    } else if listed(missing, roms.last().status) {
        rom_lines(m, roms.drop_last(), missing, key, fallback).push(rom_line(m, key, fallback, roms.last()))
    } else {
        rom_lines(m, roms.drop_last(), missing, key, fallback)
    }
}

/// The whole report: the summary, a line per scanned file, then the missing
/// ROMs (every unfilled row) and the nodump ROMs.
pub open spec fn dat_report(m: Messages, r: MatchReport) -> Seq<Seq<char>> {
    seq![dat_summary_line(m, r)] + r.files@.map_values(|f: FileMatch| file_line(m, f)) + rom_lines(
        m,
        r.roms@,
        true,
        "dat_missing_line"@,
        "missing  {game}/{name}"@,
    ) + rom_lines(m, r.roms@, false, "dat_nodump_line"@, "nodump  {game}/{name}"@)
}

/// The views of a list of lines.
pub open spec fn line_views(lines: Seq<String>) -> Seq<Seq<char>> {
    lines.map_values(|s: String| s@)
}

fn copy_or_empty(o: &Option<String>) -> (s: String)
    ensures
        s@ == or_empty(*o),
{
    match o {
        Some(v) => v.clone(),
        None => String::new(),
    }
}

fn file_line_text(messages: &Messages, f: &FileMatch) -> (line: String)
    ensures
        line@ == file_line(*messages, *f),
{
    let status = marked_file_status(messages, f.status, f.dump_status);
    if f.status == FileStatus::Extra {
        let values = [("status", status), ("path", f.entry_path.clone())];
        let out = messages.format("dat_extra_line", "{status}  {path}", &values);
        assert(value_views(values@) =~= seq![
            ("status"@, marked_status(*messages, f.status, f.dump_status)),
            ("path"@, f.entry_path@),
        ]);
        out
    } else {
        let values = [
            ("status", status),
            ("path", f.entry_path.clone()),
            ("game", copy_or_empty(&f.game)),
            ("name", copy_or_empty(&f.dat_name)),
        ];
        let out = messages.format("dat_file_line", "{status}  {path}  {game}/{name}", &values);
        assert(value_views(values@) =~= seq![
            ("status"@, marked_status(*messages, f.status, f.dump_status)),
            ("path"@, f.entry_path@),
            ("game"@, or_empty(f.game)),
            ("name"@, or_empty(f.dat_name)),
        ]);
        out
    }
}

fn push_rom_lines(
    lines: &mut Vec<String>,
    messages: &Messages,
    roms: &Vec<DatRomMatch>,
    missing: bool,
    key: &str,
    fallback: &str,
)
    ensures
        line_views(final(lines)@) == line_views(old(lines)@) + rom_lines(*messages, roms@, missing, key@, fallback@),
{
    let ghost start = line_views(lines@);
    let mut i: usize = 0;
    while i < roms.len()
        invariant
            i <= roms@.len(),
            line_views(lines@) == start + rom_lines(*messages, roms@.take(i as int), missing, key@, fallback@),
        decreases roms@.len() - i,
    {
        proof {
            assert(roms@.take(i + 1).drop_last() =~= roms@.take(i as int));
            assert(roms@.take(i + 1).last() == roms@[i as int]);
        }
        let shown = if missing {
            roms[i].status == DatRomStatus::Missing || roms[i].status == DatRomStatus::MissingInArchive
        } else {
            roms[i].status == DatRomStatus::NoDump
        };
        if shown {
            let values = [("game", roms[i].game.clone()), ("name", roms[i].name.clone())];
            let line = messages.format(key, fallback, &values);
            assert(value_views(values@) =~= seq![("game"@, roms@[i as int].game@), ("name"@, roms@[i as int].name@)]);
            let ghost before = lines@;
            lines.push(line);
            assert(line_views(lines@) =~= line_views(before).push(line@));
        }
        i = i + 1;
    }
    assert(roms@.take(roms@.len() as int) =~= roms@);
}

/// The lines of the DAT verification report for `report`.
pub fn dat_report_lines(messages: &Messages, report: &MatchReport) -> (lines: Vec<String>)
    ensures
        line_views(lines@) == dat_report(*messages, *report),
{
    let files = report.files.len();
    let present = count_status(&report.roms, DatRomStatus::Present);
    let unfilled = count_status(&report.roms, DatRomStatus::Missing);
    let in_archive = count_status(&report.roms, DatRomStatus::MissingInArchive);
    let rows = report.roms.len();
    proof {
        law_status_counts_cover_roms(report.roms@);
    }
    assert(unfilled + in_archive <= rows);
    let missing = unfilled + in_archive;
    let nodump = count_status(&report.roms, DatRomStatus::NoDump);
    let values = [
        ("files", decimal_string(files)),
        ("present", decimal_string(present)),
        ("missing", decimal_string(missing)),
        ("nodump", decimal_string(nodump)),
    ];
    let summary = messages.format(
        "dat_summary",
        "DAT verification: {files} files, {present} present, {missing} missing, {nodump} nodump.",
        &values,
    );
    assert(value_views(values@) =~= seq![
        ("files"@, decimal(report.files@.len())),
        ("present"@, decimal(count_roms(report.roms@, DatRomStatus::Present))),
        ("missing"@, decimal(count_roms(report.roms@, DatRomStatus::Missing) + count_roms(report.roms@, DatRomStatus::MissingInArchive))),
        ("nodump"@, decimal(count_roms(report.roms@, DatRomStatus::NoDump))),
    ]);
    let mut lines: Vec<String> = Vec::new();
    lines.push(summary);
    let ghost head = line_views(lines@);
    assert(head =~= seq![dat_summary_line(*messages, *report)]);
    let mut k: usize = 0;
    while k < report.files.len()
        invariant
            k <= report.files@.len(),
            line_views(lines@) == head + report.files@.take(k as int).map_values(
                |f: FileMatch| file_line(*messages, f),
            ),
        decreases report.files@.len() - k,
    {
        let line = file_line_text(messages, &report.files[k]);
        let ghost before = lines@;
        lines.push(line);
        assert(report.files@.take(k + 1).map_values(|f: FileMatch| file_line(*messages, f))
            =~= report.files@.take(k as int).map_values(|f: FileMatch| file_line(*messages, f)).push(
            file_line(*messages, report.files@[k as int]),
        ));
        assert(line_views(lines@) =~= line_views(before).push(line@));
        k = k + 1;
    }
    assert(report.files@.take(report.files@.len() as int) =~= report.files@);
    push_rom_lines(&mut lines, messages, &report.roms, true, "dat_missing_line", "missing  {game}/{name}");
    push_rom_lines(&mut lines, messages, &report.roms, false, "dat_nodump_line", "nodump  {game}/{name}");
    lines
}

// ---------------------------------------------------------------------------
// Command-line lines
// ---------------------------------------------------------------------------

/// The line summing up a scan: entries, hashed and reused containers.
pub open spec fn scan_summary_text(m: Messages, r: ScanReport) -> Seq<char> {
    formatted(
        text_of(m, "scan_summary"@, "Scanned {entries} entries ({hashed} hashed, {reused} reused containers)."@),
        seq![
            ("entries"@, decimal(r.entries@.len())),
            ("hashed"@, decimal(r.hashed_containers as nat)),
            ("reused"@, decimal(r.reused_containers as nat)),
        ],
    )
}

/// The line summing up a scan.
pub fn scan_summary_line(messages: &Messages, report: &ScanReport) -> (line: String)
    ensures
        line@ == scan_summary_text(*messages, *report),
{
    let values = [
        ("entries", decimal_string(report.entries.len())),
        ("hashed", decimal_string(report.hashed_containers)),
        ("reused", decimal_string(report.reused_containers)),
    ];
    let out = messages.format(
        "scan_summary",
        "Scanned {entries} entries ({hashed} hashed, {reused} reused containers).",
        &values,
    );
    assert(value_views(values@) =~= seq![
        ("entries"@, decimal(report.entries@.len())),
        ("hashed"@, decimal(report.hashed_containers as nat)),
        ("reused"@, decimal(report.reused_containers as nat)),
    ]);
    out
}

/// The line of one scanned entry: SHA1, size and path.
pub open spec fn scan_entry_text(m: Messages, e: ScanEntry) -> Seq<char> {
    formatted(
        text_of(m, "scan_entry"@, "{sha1}  {size}  {path}"@),
        seq![("sha1"@, e.hashes.sha1@), ("size"@, decimal(e.entry_size as nat)), ("path"@, e.entry_path@)],
    )
}

/// The line of one scanned entry.
pub fn scan_entry_line(messages: &Messages, entry: &ScanEntry) -> (line: String)
    ensures
        line@ == scan_entry_text(*messages, *entry),
{
    let values = [
        ("sha1", entry.hashes.sha1.clone()),
        ("size", string_of(decimal_u64(entry.entry_size).as_slice())),
        ("path", entry.entry_path.clone()),
    ];
    let out = messages.format("scan_entry", "{sha1}  {size}  {path}", &values);
    assert(value_views(values@) =~= seq![
        ("sha1"@, entry.hashes.sha1@),
        ("size"@, decimal(entry.entry_size as nat)),
        ("path"@, entry.entry_path@),
    ]);
    out
}

/// The line naming a loaded DAT: its header name (or, without one, the path
/// it was loaded from) and its version.
pub open spec fn dat_header_text(m: Messages, dat: DatFile, path: Seq<char>) -> Seq<char> {
    formatted(
        text_of(m, "dat_header_line"@, "DAT: {name} {version}"@),
        seq![
            ("name"@, match dat.header.name {
                Some(n) => n@,
                None => path,
            }),
            ("version"@, or_empty(dat.header.version)),
        ],
    )
}

/// The line naming a loaded DAT, shown as `path` when it has no name.
pub fn dat_header_line(messages: &Messages, dat: &DatFile, path: &str) -> (line: String)
    ensures
        line@ == dat_header_text(*messages, *dat, path@),
{
    let name = match &dat.header.name {
        Some(n) => n.clone(),
        None => String::from_str(path),
    };
    let values = [("name", name), ("version", copy_or_empty(&dat.header.version))];
    let out = messages.format("dat_header_line", "DAT: {name} {version}", &values);
    assert(value_views(values@) =~= seq![
        ("name"@, match dat.header.name {
            Some(n) => n@,
            None => path@,
        }),
        ("version"@, or_empty(dat.header.version)),
    ]);
    out
}

// ---------------------------------------------------------------------------
// Summaries
// ---------------------------------------------------------------------------

/// Totals of the scans of one run.
pub struct ScanSummary {
    pub entries: usize,
    pub hashed: usize,
    pub reused: usize,
    pub errors: Vec<String>,
}

impl ScanSummary {
    /// Totals of nothing.
    pub fn new() -> (s: ScanSummary)
        ensures
            s.entries == 0 && s.hashed == 0 && s.reused == 0 && s.errors@.len() == 0,
    {
        ScanSummary { entries: 0, hashed: 0, reused: 0, errors: Vec::new() }
    }

    /// Adds one collection's scan report.
    pub fn add_report(&mut self, report: &ScanReport)
        requires
            old(self).entries + report.entries@.len() <= usize::MAX,
            old(self).hashed + report.hashed_containers <= usize::MAX,
            old(self).reused + report.reused_containers <= usize::MAX,
        ensures
            final(self).entries == old(self).entries + report.entries@.len(),
            final(self).hashed == old(self).hashed + report.hashed_containers,
            final(self).reused == old(self).reused + report.reused_containers,
            final(self).errors@ == old(self).errors@,
    {
        self.entries = self.entries + report.entries.len();
        self.hashed = self.hashed + report.hashed_containers;
        self.reused = self.reused + report.reused_containers;
    }

    /// Records a collection that could not be scanned.
    pub fn add_error(&mut self, error: String)
        ensures
            final(self).entries == old(self).entries,
            final(self).hashed == old(self).hashed,
            final(self).reused == old(self).reused,
            final(self).errors@ == old(self).errors@.push(error),
    {
        self.errors.push(error);
    }

    /// The summary line; the tables must hold `gui_scan_summary`.
    pub fn line(&self, messages: &Messages) -> (line: String)
        requires
            knows(*messages, "gui_scan_summary"@),
        ensures
            line@ == formatted(
                text_of(*messages, "gui_scan_summary"@, ""@),
                seq![
                    ("entries"@, decimal(self.entries as nat)),
                    ("hashed"@, decimal(self.hashed as nat)),
                    ("reused"@, decimal(self.reused as nat)),
                    ("errors"@, decimal(self.errors@.len())),
                ],
            ),
    {
        let values = [
            ("entries", decimal_string(self.entries)),
            ("hashed", decimal_string(self.hashed)),
            ("reused", decimal_string(self.reused)),
            ("errors", decimal_string(self.errors.len())),
        ];
        let out = messages.format("gui_scan_summary", "", &values);
        assert(value_views(values@) =~= seq![
            ("entries"@, decimal(self.entries as nat)),
            ("hashed"@, decimal(self.hashed as nat)),
            ("reused"@, decimal(self.reused as nat)),
            ("errors"@, decimal(self.errors@.len())),
        ]);
        out
    }
}

/// Totals of the DAT verifications of one run.
pub struct DatSummary {
    pub files: usize,
    pub present: usize,
    pub missing: usize,
    pub missing_in_archive: usize,
    pub nodump: usize,
}

impl DatSummary {
    /// Totals of nothing.
    pub fn new() -> (s: DatSummary)
        ensures
            s.files == 0 && s.present == 0 && s.missing == 0 && s.missing_in_archive == 0 && s.nodump == 0,
    {
        DatSummary { files: 0, present: 0, missing: 0, missing_in_archive: 0, nodump: 0 }
    }

    /// Adds one source's match report.
    pub fn add_report(&mut self, report: &MatchReport)
        requires
            old(self).files + report.files@.len() <= usize::MAX,
            old(self).present + report.roms@.len() <= usize::MAX,
            old(self).missing + report.roms@.len() <= usize::MAX,
            old(self).missing_in_archive + report.roms@.len() <= usize::MAX,
            old(self).nodump + report.roms@.len() <= usize::MAX,
        ensures
            final(self).files == old(self).files + report.files@.len(),
            final(self).present == old(self).present + count_roms(report.roms@, DatRomStatus::Present),
            final(self).missing == old(self).missing + count_roms(report.roms@, DatRomStatus::Missing),
            final(self).missing_in_archive == old(self).missing_in_archive + count_roms(
                report.roms@,
                DatRomStatus::MissingInArchive,
            ),
            final(self).nodump == old(self).nodump + count_roms(report.roms@, DatRomStatus::NoDump),
    {
        proof {
            lemma_count_roms_bound(report.roms@, DatRomStatus::Present);
            lemma_count_roms_bound(report.roms@, DatRomStatus::Missing);
            lemma_count_roms_bound(report.roms@, DatRomStatus::MissingInArchive);
            lemma_count_roms_bound(report.roms@, DatRomStatus::NoDump);
        }
        self.files = self.files + report.files.len();
        self.present = self.present + count_status(&report.roms, DatRomStatus::Present);
        self.missing = self.missing + count_status(&report.roms, DatRomStatus::Missing);
        self.missing_in_archive = self.missing_in_archive + count_status(
            &report.roms,
            DatRomStatus::MissingInArchive,
        );
        self.nodump = self.nodump + count_status(&report.roms, DatRomStatus::NoDump);
    }

    /// The summary line; the tables must hold `gui_dat_summary`.
    pub fn line(&self, messages: &Messages) -> (line: String)
        requires
            knows(*messages, "gui_dat_summary"@),
        ensures
            line@ == formatted(
                text_of(*messages, "gui_dat_summary"@, ""@),
                seq![
                    ("files"@, decimal(self.files as nat)),
                    ("present"@, decimal(self.present as nat)),
                    ("missing"@, decimal(self.missing as nat)),
                    ("missing_in_archive"@, decimal(self.missing_in_archive as nat)),
                    ("nodump"@, decimal(self.nodump as nat)),
                ],
            ),
    {
        let values = [
            ("files", decimal_string(self.files)),
            ("present", decimal_string(self.present)),
            ("missing", decimal_string(self.missing)),
            ("missing_in_archive", decimal_string(self.missing_in_archive)),
            ("nodump", decimal_string(self.nodump)),
        ];
        let out = messages.format("gui_dat_summary", "", &values);
        assert(value_views(values@) =~= seq![
            ("files"@, decimal(self.files as nat)),
            ("present"@, decimal(self.present as nat)),
            ("missing"@, decimal(self.missing as nat)),
            ("missing_in_archive"@, decimal(self.missing_in_archive as nat)),
            ("nodump"@, decimal(self.nodump as nat)),
        ]);
        out
    }
}


// ---------------------------------------------------------------------------
// The Sets pane
// ---------------------------------------------------------------------------

/// How many ROM rows of game `g` have status `st`.
pub open spec fn count_game(roms: Seq<DatRomMatch>, g: Seq<char>, st: DatRomStatus) -> nat
    decreases roms.len(),
{
    if roms.len() == 0 {
        0
    } else {
        count_game(roms.drop_last(), g, st) + if roms.last().game@ == g && roms.last().status == st {
            1nat
        } else {
            0nat
        }
    }
}

/// The status of the first set row of game `g`.
pub open spec fn first_set(sets: Seq<SetMatch>, g: Seq<char>) -> Option<SetStatus>
    decreases sets.len(),
{
    if sets.len() == 0 {
        None
    } else if sets[0].game@ == g {
        Some(sets[0].status)
    } else {
        first_set(sets.skip(1), g)
    }
}

/// The Sets pane row of game `g`: before verification a blank row marked not
/// verified; after it, the set status and the Present, Missing,
/// MissingInArchive and nodump counts of the game's rows.
pub open spec fn set_row_ok(row: SetRow, m: Messages, g: Seq<char>, report: Option<MatchReport>) -> bool {
    &&& row.name@ == g
    &&& match report {
        None => {
            &&& row.status@ == text_of(m, "gui_not_verified"@, ""@)
            &&& row.counts@ == seq![None::<usize>, None, None, None]
        },
        Some(r) => {
            &&& row.status@ == match first_set(r.sets@, g) {
                Some(st) => text_of(m, set_status_key(st), ""@),
                None => text_of(m, "gui_not_verified"@, ""@),
            }
            &&& row.counts@ == seq![
                Some(count_game(r.roms@, g, DatRomStatus::Present) as usize),
                Some(count_game(r.roms@, g, DatRomStatus::Missing) as usize),
                Some(count_game(r.roms@, g, DatRomStatus::MissingInArchive) as usize),
                Some(count_game(r.roms@, g, DatRomStatus::NoDump) as usize),
            ]
        },
    }
}

/// How many of the ROM rows belong to game `g`.
pub open spec fn game_rows(roms: Seq<DatRomMatch>, g: Seq<char>) -> nat
    decreases roms.len(),
{
    if roms.len() == 0 {
        0
    } else {
        game_rows(roms.drop_last(), g) + if roms.last().game@ == g {
            1nat
        } else {
            0nat
        }
    }
}

proof fn lemma_game_counts(roms: Seq<DatRomMatch>, g: Seq<char>)
    ensures
        count_game(roms, g, DatRomStatus::Present) + count_game(roms, g, DatRomStatus::Missing) + count_game(
            roms,
            g,
            DatRomStatus::MissingInArchive,
        ) + count_game(roms, g, DatRomStatus::NoDump) == game_rows(roms, g),
        game_rows(roms, g) <= roms.len(),
    decreases roms.len(),
{
    if roms.len() > 0 {
        lemma_game_counts(roms.drop_last(), g);
    }
}

/// After verification a set row counts each of the game's ROM rows exactly
/// once, in the column of its status: Present, Missing (exactly `Missing`),
/// MissingInArchive and nodump, so the four counts add up to the number of
/// the game's rows.
pub proof fn law_set_row_counts(row: SetRow, m: Messages, g: Seq<char>, r: MatchReport)
    requires
        set_row_ok(row, m, g, Some(r)),
        r.roms@.len() <= usize::MAX,
    ensures
        row.counts@.len() == 4,
        row.counts@[0] is Some && row.counts@[1] is Some && row.counts@[2] is Some && row.counts@[3] is Some,
        row.counts@[0]->0 + row.counts@[1]->0 + row.counts@[2]->0 + row.counts@[3]->0 == game_rows(r.roms@, g),
        row.counts@[1]->0 == count_game(r.roms@, g, DatRomStatus::Missing),
        row.counts@[2]->0 == count_game(r.roms@, g, DatRomStatus::MissingInArchive),
        row.counts@[0]->0 == count_game(r.roms@, g, DatRomStatus::Present),
        row.counts@[3]->0 == count_game(r.roms@, g, DatRomStatus::NoDump),
{
    lemma_game_counts(r.roms@, g);
}

pub open spec fn opt_report(report: Option<&MatchReport>) -> Option<MatchReport> {
    match report {
        Some(r) => Some(*r),
        None => None,
    }
}

fn count_game_status(roms: &Vec<DatRomMatch>, game: &String, st: DatRomStatus) -> (n: usize)
    ensures
        n == count_game(roms@, game@, st),
{
    let mut n: usize = 0;
    let mut i: usize = 0;
    while i < roms.len()
        invariant
            i <= roms@.len(),
            n == count_game(roms@.take(i as int), game@, st),
            n <= i,
        decreases roms@.len() - i,
    {
        proof {
            assert(roms@.take(i + 1).drop_last() =~= roms@.take(i as int));
        }
        if roms[i].game == *game && roms[i].status == st {
            n = n + 1;
        }
        i = i + 1;
    }
    assert(roms@.take(roms@.len() as int) =~= roms@);
    n
}

fn find_set(sets: &Vec<SetMatch>, game: &String) -> (found: Option<SetStatus>)
    ensures
        found == first_set(sets@, game@),
{
    let mut i: usize = 0;
    assert(sets@.skip(0) =~= sets@);
    while i < sets.len()
        invariant
            i <= sets@.len(),
            first_set(sets@, game@) == first_set(sets@.skip(i as int), game@),
        decreases sets@.len() - i,
    {
        assert(sets@.skip(i as int)[0] == sets@[i as int]);
        if sets[i].game == *game {
            return Some(sets[i].status);
        }
        assert(sets@.skip(i as int).skip(1) =~= sets@.skip(i + 1));
        i = i + 1;
    }
    None
}

/// The Sets pane rows of a DAT: one per set, in order of first appearance,
/// filled from its match report once the DAT has been verified.
pub fn set_rows(dat: &DatFile, report: Option<&MatchReport>, messages: &Messages) -> (rows: Vec<SetRow>)
    requires
        knows(*messages, "gui_not_verified"@),
        report is Some ==> forall|st: SetStatus| knows(*messages, #[trigger] set_status_key(st)),
    ensures
        rows@.len() == set_titles(rom_views(dat.roms@)).len(),
        forall|s: int|
            0 <= s < rows@.len() ==> set_row_ok(
                #[trigger] rows@[s],
                *messages,
                set_titles(rom_views(dat.roms@))[s],
                opt_report(report),
            ),
{
    let titles = game_titles(&dat.roms);
    let ghost t = set_titles(rom_views(dat.roms@));
    let mut rows: Vec<SetRow> = Vec::with_capacity(titles.len());
    let mut s: usize = 0;
    while s < titles.len()
        invariant
            s <= titles@.len(),
            titles@.len() == t.len(),
            forall|x: int| 0 <= x < titles@.len() ==> (#[trigger] titles@[x])@ == t[x],
            rows@.len() == s,
            knows(*messages, "gui_not_verified"@),
            report is Some ==> forall|st: SetStatus| knows(*messages, #[trigger] set_status_key(st)),
            forall|x: int| 0 <= x < s ==> set_row_ok(#[trigger] rows@[x], *messages, t[x], opt_report(report)),
        decreases titles@.len() - s,
    {
        let game = &titles[s];
        let row = match report {
            None => SetRow {
                name: game.clone(),
                status: messages.text("gui_not_verified", ""),
                counts: [None, None, None, None],
            },
            Some(r) => {
                let status = match find_set(&r.sets, game) {
                    Some(st) => {
                        assert(knows(*messages, set_status_key(st)));
                        set_status(messages, st)
                    },
                    None => messages.text("gui_not_verified", ""),
                };
                let present = count_game_status(&r.roms, game, DatRomStatus::Present);
                let missing = count_game_status(&r.roms, game, DatRomStatus::Missing);
                let in_archive = count_game_status(&r.roms, game, DatRomStatus::MissingInArchive);
                let nodump = count_game_status(&r.roms, game, DatRomStatus::NoDump);
                SetRow { name: game.clone(), status, counts: [Some(present), Some(missing), Some(in_archive), Some(nodump)] }
            },
        };
        assert(row.counts@ =~= seq![row.counts[0], row.counts[1], row.counts[2], row.counts[3]]);
        rows.push(row);
        s = s + 1;
    }
    rows
}


// ---------------------------------------------------------------------------
// The Members pane
// ---------------------------------------------------------------------------

/// The names of the DAT rows of game `g`, in order.
pub open spec fn game_rom_names(roms: Seq<DatRom>, g: Seq<char>) -> Seq<Seq<char>>
    decreases roms.len(),
{
    if roms.len() == 0 {
        Seq::empty()
    } else if roms.last().game@ == g {
        game_rom_names(roms.drop_last(), g).push(roms.last().name@)
    } else {
        game_rom_names(roms.drop_last(), g)
    }
}

/// The scan hits of game `g`: the DAT name and entry path of each file
/// matched to a row of `g`, in order.
pub open spec fn game_hits(files: Seq<FileMatch>, g: Seq<char>) -> Seq<(Seq<char>, Seq<char>)>
    decreases files.len(),
{
    if files.len() == 0 {
        Seq::empty()
    } else {
        let f = files.last();
        let rest = game_hits(files.drop_last(), g);
        if opt_view(f.game) == Some(g) && f.dat_name is Some {
            rest.push((f.dat_name->0@, f.entry_path@))
        } else {
            rest
        }
    }
}

/// The first position in `hits` of DAT name `name`.
pub open spec fn first_hit(hits: Seq<(Seq<char>, Seq<char>)>, name: Seq<char>) -> Option<int>
    decreases hits.len(),
{
    if hits.len() == 0 {
        None
    } else if hits[0].0 == name {
        Some(0)
    } else {
        match first_hit(hits.skip(1), name) {
            Some(h) => Some(h + 1),
            None => None,
        }
    }
}

/// The first scan entry at `path`.
pub open spec fn first_entry(entries: Seq<ScanEntry>, path: Seq<char>) -> Option<int>
    decreases entries.len(),
{
    if entries.len() == 0 {
        None
    } else if entries[0].entry_path@ == path {
        Some(0)
    } else {
        match first_entry(entries.skip(1), path) {
            Some(e) => Some(e + 1),
            None => None,
        }
    }
}

/// The scan entry shown for DAT row `name`: that of its first hit.
pub open spec fn member_entry(
    hits: Seq<(Seq<char>, Seq<char>)>,
    entries: Seq<ScanEntry>,
    name: Seq<char>,
) -> Option<int> {
    match first_hit(hits, name) {
        Some(h) => first_entry(entries, hits[h].1),
        None => None,
    }
}

proof fn lemma_first_hit(hits: Seq<(Seq<char>, Seq<char>)>, name: Seq<char>, h: int)
    requires
        0 <= h < hits.len(),
        hits[h].0 == name,
        forall|j: int| 0 <= j < h ==> hits[j].0 != name,
    ensures
        first_hit(hits, name) == Some(h),
    decreases h,
{
    if h > 0 {
        assert forall|j: int| 0 <= j < h - 1 implies hits.skip(1)[j].0 != name by {
            assert(hits.skip(1)[j] == hits[j + 1]);
        }
        lemma_first_hit(hits.skip(1), name, h - 1);
    }
}

proof fn lemma_no_hit(hits: Seq<(Seq<char>, Seq<char>)>, name: Seq<char>)
    requires
        forall|j: int| 0 <= j < hits.len() ==> hits[j].0 != name,
    ensures
        first_hit(hits, name) is None,
    decreases hits.len(),
{
    if hits.len() > 0 {
        assert forall|j: int| 0 <= j < hits.len() - 1 implies hits.skip(1)[j].0 != name by {
            assert(hits.skip(1)[j] == hits[j + 1]);
        }
        lemma_no_hit(hits.skip(1), name);
    }
}

fn find_entry(entries: &[ScanEntry], path: &String) -> (found: Option<usize>)
    ensures
        match found {
            Some(e) => first_entry(entries@, path@) == Some(e as int),
            None => first_entry(entries@, path@) is None,
        },
{
    let mut i: usize = 0;
    assert(entries@.skip(0) =~= entries@);
    while i < entries.len()
        invariant
            i <= entries@.len(),
            first_entry(entries@, path@) == match first_entry(entries@.skip(i as int), path@) {
                Some(e) => Some(e + i),
                None => None::<int>,
            },
        decreases entries@.len() - i,
    {
        assert(entries@.skip(i as int)[0] == entries@[i as int]);
        if entries[i].entry_path == *path {
            return Some(i);
        }
        assert(entries@.skip(i as int).skip(1) =~= entries@.skip(i + 1));
        i = i + 1;
    }
    None
}

fn rom_names_of_game(roms: &Vec<DatRom>, game: &str) -> (names: Vec<String>)
    ensures
        line_views(names@) == game_rom_names(roms@, game@),
{
    let g = String::from_str(game);
    let mut names: Vec<String> = Vec::new();
    let mut i: usize = 0;
    while i < roms.len()
        invariant
            i <= roms@.len(),
            g@ == game@,
            line_views(names@) == game_rom_names(roms@.take(i as int), game@),
        decreases roms@.len() - i,
    {
        proof {
            assert(roms@.take(i + 1).drop_last() =~= roms@.take(i as int));
        }
        if roms[i].game == g {
            let ghost before = names@;
            names.push(roms[i].name.clone());
            assert(line_views(names@) =~= line_views(before).push(roms@[i as int].name@));
        }
        i = i + 1;
    }
    assert(roms@.take(roms@.len() as int) =~= roms@);
    names
}

/// The views of pairs of texts.
pub open spec fn pair_views(pairs: Seq<(String, String)>) -> Seq<(Seq<char>, Seq<char>)> {
    pairs.map_values(|p: (String, String)| (p.0@, p.1@))
}

fn hits_of_game(files: &Vec<FileMatch>, game: &str) -> (hits: Vec<(String, String)>)
    ensures
        pair_views(hits@) == game_hits(files@, game@),
{
    let g = String::from_str(game);
    let mut hits: Vec<(String, String)> = Vec::new();
    let mut i: usize = 0;
    while i < files.len()
        invariant
            i <= files@.len(),
            g@ == game@,
            pair_views(hits@) == game_hits(files@.take(i as int), game@),
        decreases files@.len() - i,
    {
        proof {
            assert(files@.take(i + 1).drop_last() =~= files@.take(i as int));
        }
        let f = &files[i];
        let same_game = match &f.game {
            Some(fg) => *fg == g,
            None => false,
        };
        if same_game {
            match &f.dat_name {
                Some(n) => {
                    let ghost before = hits@;
                    hits.push((n.clone(), f.entry_path.clone()));
                    assert(pair_views(hits@) =~= pair_views(before).push((n@, f.entry_path@)));
                },
                None => {},
            }
        }
        i = i + 1;
    }
    assert(files@.take(files@.len() as int) =~= files@);
    hits
}

/// The Members pane rows of game `game` of a DAT: every DAT row of the game,
/// by name, in order, with the index of its scan entry in `entries` once the
/// DAT has been verified with `report`; rows without a scan hit stay blank.
pub fn member_rows(
    dat: &DatFile,
    game: &str,
    verified: Option<(&MatchReport, &[ScanEntry])>,
) -> (rows: Vec<(String, Option<usize>)>)
    ensures
        rows@.len() == game_rom_names(dat.roms@, game@).len(),
        forall|k: int|
            0 <= k < rows@.len() ==> {
                &&& (#[trigger] rows@[k]).0@ == game_rom_names(dat.roms@, game@)[k]
                &&& match verified {
                    None => rows@[k].1 is None,
                    Some((report, entries)) => match rows@[k].1 {
                        Some(e) => member_entry(game_hits(report.files@, game@), entries@, rows@[k].0@)
                            == Some(e as int),
                        None => member_entry(game_hits(report.files@, game@), entries@, rows@[k].0@) is None,
                    },
                }
            },
{
    let names = rom_names_of_game(&dat.roms, game);
    let ghost nv = game_rom_names(dat.roms@, game@);
    match verified {
        None => {
            let mut rows: Vec<(String, Option<usize>)> = Vec::with_capacity(names.len());
            let mut k: usize = 0;
            while k < names.len()
                invariant
                    k <= names@.len(),
                    line_views(names@) == nv,
                    rows@.len() == k,
                    forall|x: int| 0 <= x < k ==> (#[trigger] rows@[x]).0@ == nv[x] && rows@[x].1 is None,
                decreases names@.len() - k,
            {
                assert(line_views(names@)[k as int] == names@[k as int]@);
                rows.push((names[k].clone(), None));
                k = k + 1;
            }
            rows
        },
        Some((report, entries)) => {
            let hits = hits_of_game(&report.files, game);
            let ghost hv = game_hits(report.files@, game@);
            let joined = dat_member_rows(names.as_slice(), hits.as_slice());
            let mut rows: Vec<(String, Option<usize>)> = Vec::with_capacity(joined.len());
            let mut k: usize = 0;
            while k < joined.len()
                invariant
                    k <= joined@.len(),
                    joined@.len() == names@.len(),
                    line_views(names@) == nv,
                    pair_views(hits@) == hv,
                    forall|x: int|
                        0 <= x < joined@.len() ==> {
                            &&& (#[trigger] joined@[x]).0@ == names@[x]@
                            &&& match joined@[x].1 {
                                Some(h) => h < hits@.len() && hits@[h as int].0@ == names@[x]@ && forall|j: int|
                                    0 <= j < h ==> hits@[j].0@ != names@[x]@,
                                None => forall|j: int| 0 <= j < hits@.len() ==> hits@[j].0@ != names@[x]@,
                            }
                        },
                    rows@.len() == k,
                    forall|x: int|
                        0 <= x < k ==> {
                            &&& (#[trigger] rows@[x]).0@ == nv[x]
                            &&& match rows@[x].1 {
                                Some(e) => member_entry(hv, entries@, rows@[x].0@) == Some(e as int),
                                None => member_entry(hv, entries@, rows@[x].0@) is None,
                            }
                        },
                decreases joined@.len() - k,
            {
                let name = &joined[k].0;
                assert(line_views(names@)[k as int] == names@[k as int]@);
                let entry = match joined[k].1 {
                    Some(h) => {
                        proof {
                            assert forall|j: int| 0 <= j < h implies hv[j].0 != name@ by {
                                assert(pair_views(hits@)[j] == (hits@[j].0@, hits@[j].1@));
                            }
                            assert(pair_views(hits@)[h as int] == (hits@[h as int].0@, hits@[h as int].1@));
                            lemma_first_hit(hv, name@, h as int);
                        }
                        find_entry(entries, &hits[h].1)
                    },
                    None => {
                        proof {
                            assert forall|j: int| 0 <= j < hv.len() implies hv[j].0 != name@ by {
                                assert(pair_views(hits@)[j] == (hits@[j].0@, hits@[j].1@));
                            }
                            lemma_no_hit(hv, name@);
                        }
                        None
                    },
                };
                rows.push((name.clone(), entry));
                k = k + 1;
            }
            rows
        },
    }
}

// ---------------------------------------------------------------------------
// Verifying sources
// ---------------------------------------------------------------------------

/// Why a request to verify was not carried out.
#[derive(Debug, Clone, Copy, PartialEq, Eq, Structural)]
pub enum VerifyNotice {
    /// Verify selected was asked for with no source selected.
    SelectSource,
}

/// Source `i` is among those asked for: all of them, or the selected one.
pub open spec fn chosen(all: bool, selected: Option<usize>, i: int) -> bool {
    all || (selected matches Some(s) && s as int == i)
}

/// The sources verified, in index order: those asked for whose DAT loaded
/// and whose collection holds scan rows.
pub open spec fn verified_sources(
    all: bool,
    selected: Option<usize>,
    dats: Seq<Option<DatFile>>,
    collections: Seq<String>,
    rows: Seq<ScanEntry>,
    n: int,
) -> Seq<int>
    decreases n,
{
    if n <= 0 {
        Seq::empty()
    } else {
        let prev = verified_sources(all, selected, dats, collections, rows, n - 1);
        let i = n - 1;
        if chosen(all, selected, i) && dats[i] is Some && rows_under(rows, collections[i]@).len() > 0 {
            prev.push(i)
        } else {
            prev
        }
    }
}

/// Scanned files over a list of reports.
pub open spec fn total_files(reports: Seq<(usize, MatchReport)>) -> nat
    decreases reports.len(),
{
    if reports.len() == 0 {
        0
    } else {
        total_files(reports.drop_last()) + reports.last().1.files@.len()
    }
}

/// ROM rows of status `st` over a list of reports.
pub open spec fn total_status(reports: Seq<(usize, MatchReport)>, st: DatRomStatus) -> nat
    decreases reports.len(),
{
    if reports.len() == 0 {
        0
    } else {
        total_status(reports.drop_last(), st) + count_roms(reports.last().1.roms@, st)
    }
}

/// All ROM rows of the loaded DATs.
pub open spec fn total_roms(dats: Seq<Option<DatFile>>) -> nat
    decreases dats.len(),
{
    if dats.len() == 0 {
        0
    } else {
        total_roms(dats.drop_last()) + match dats.last() {
            Some(d) => d.roms@.len(),
            None => 0,
        }
    }
}

proof fn lemma_total_roms_prefix(dats: Seq<Option<DatFile>>, i: int)
    requires
        0 <= i <= dats.len(),
    ensures
        total_roms(dats.take(i)) <= total_roms(dats),
    decreases dats.len() - i,
{
    if i < dats.len() {
        lemma_total_roms_prefix(dats, i + 1);
        assert(dats.take(i + 1).drop_last() =~= dats.take(i));
    } else {
        assert(dats.take(i) =~= dats);
    }
}

/// Verifies sources against the scan rows: all of them, or the selected
/// one. Each source is matched on its own, against only the rows under its
/// collection directory, so sources that share a collection get separate
/// reports from the same rows. Sources whose DAT did not load, or whose
/// collection holds no rows, are skipped. The summary adds up the reports.
pub fn verify_sources(
    all: bool,
    selected: Option<usize>,
    dats: &[Option<DatFile>],
    collections: &[String],
    rows: &[ScanEntry],
) -> (out: Result<(Vec<(usize, MatchReport)>, DatSummary), VerifyNotice>)
    requires
        dats@.len() == collections@.len(),
        !all ==> (selected matches Some(s) ==> s < dats@.len()),
        dats@.len() * rows@.len() <= usize::MAX,
        total_roms(dats@) <= usize::MAX,
    ensures
        out is Err <==> (!all && selected is None),
        out matches Err(notice) ==> notice == VerifyNotice::SelectSource,
        out matches Ok((reports, total)) ==> {
            let ids = verified_sources(all, selected, dats@, collections@, rows@, dats@.len() as int);
            &&& reports@.len() == ids.len()
            &&& forall|x: int|
                0 <= x < reports@.len() ==> {
                    let i = ids[x];
                    &&& (#[trigger] reports@[x]).0 as int == i
                    &&& report_ok(
                        reports@[x].1,
                        rom_views(dats@[i]->0.roms@),
                        rows_under(rows@, collections@[i]@),
                    )
                }
            &&& total.files == total_files(reports@)
            &&& total.present == total_status(reports@, DatRomStatus::Present)
            &&& total.missing == total_status(reports@, DatRomStatus::Missing)
            &&& total.missing_in_archive == total_status(reports@, DatRomStatus::MissingInArchive)
            &&& total.nodump == total_status(reports@, DatRomStatus::NoDump)
        },
{
    if !all && selected.is_none() {
        return Err(VerifyNotice::SelectSource);
    }
    let n = dats.len();
    let mut reports: Vec<(usize, MatchReport)> = Vec::new();
    let mut total = DatSummary::new();
    let mut i: usize = 0;
    while i < n
        invariant
            i <= n,
            n == dats@.len(),
            dats@.len() == collections@.len(),
            dats@.len() * rows@.len() <= usize::MAX,
            total_roms(dats@) <= usize::MAX,
            reports@.len() == verified_sources(all, selected, dats@, collections@, rows@, i as int).len(),
            forall|x: int|
                0 <= x < reports@.len() ==> {
                    let j = verified_sources(all, selected, dats@, collections@, rows@, i as int)[x];
                    &&& (#[trigger] reports@[x]).0 as int == j
                    &&& report_ok(
                        reports@[x].1,
                        rom_views(dats@[j]->0.roms@),
                        rows_under(rows@, collections@[j]@),
                    )
                },
            total.files == total_files(reports@),
            total.present == total_status(reports@, DatRomStatus::Present),
            total.missing == total_status(reports@, DatRomStatus::Missing),
            total.missing_in_archive == total_status(reports@, DatRomStatus::MissingInArchive),
            total.nodump == total_status(reports@, DatRomStatus::NoDump),
            total.files <= i * rows@.len(),
            total.present <= total_roms(dats@.take(i as int)),
            total.missing <= total_roms(dats@.take(i as int)),
            total.missing_in_archive <= total_roms(dats@.take(i as int)),
            total.nodump <= total_roms(dats@.take(i as int)),
        decreases n - i,
    {
        let ghost before = reports@;
        let ghost ids = verified_sources(all, selected, dats@, collections@, rows@, i as int);
        proof {
            assert(dats@.take(i + 1).drop_last() =~= dats@.take(i as int));
            lemma_total_roms_prefix(dats@, i + 1);
        }
        let wanted = all || match selected {
            Some(s) => s == i,
            None => false,
        };
        if wanted {
            match &dats[i] {
                Some(dat) => {
                    let scoped = rows_in_collection(rows, collections[i].as_str());
                    if scoped.len() > 0 {
                        let report = match_collection(scoped.as_slice(), dat);
                        proof {
                            lemma_rows_under_len(rows@, collections@[i as int]@);
                            lemma_count_roms_bound(report.roms@, DatRomStatus::Present);
                            lemma_count_roms_bound(report.roms@, DatRomStatus::Missing);
                            lemma_count_roms_bound(report.roms@, DatRomStatus::MissingInArchive);
                            lemma_count_roms_bound(report.roms@, DatRomStatus::NoDump);
                            assert(total.files + report.files@.len() <= (i + 1) * rows@.len()) by (nonlinear_arith)
                                requires
                                    total.files <= i * rows@.len(),
                                    report.files@.len() <= rows@.len(),
                            ;
                            assert((i + 1) * rows@.len() <= dats@.len() * rows@.len()) by (nonlinear_arith)
                                requires
                                    i + 1 <= dats@.len(),
                            ;
                        }
                        total.add_report(&report);
                        reports.push((i, report));
                        proof {
                            assert(reports@.drop_last() =~= before);
                            let nids = verified_sources(all, selected, dats@, collections@, rows@, i + 1);
                            assert(nids == ids.push(i as int));
                            assert forall|x: int| 0 <= x < reports@.len() implies {
                                let j = nids[x];
                                &&& (#[trigger] reports@[x]).0 as int == j
                                &&& report_ok(
                                    reports@[x].1,
                                    rom_views(dats@[j]->0.roms@),
                                    rows_under(rows@, collections@[j]@),
                                )
                            } by {
                                if x < before.len() {
                                    assert(reports@[x] == before[x]);
                                }
                            }
                        }
                    } else {
                        proof {
                            assert(total.files <= (i + 1) * rows@.len()) by (nonlinear_arith)
                                requires
                                    total.files <= i * rows@.len(),
                            ;
                        }
                    }
                },
                None => {
                    proof {
                        assert(total.files <= (i + 1) * rows@.len()) by (nonlinear_arith)
                            requires
                                total.files <= i * rows@.len(),
                        ;
                    }
                },
            }
        } else {
            proof {
                assert(total.files <= (i + 1) * rows@.len()) by (nonlinear_arith)
                    requires
                        total.files <= i * rows@.len(),
                ;
            }
        }
        i = i + 1;
    }
    Ok((reports, total))
}

} // verus!
