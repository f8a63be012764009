//! Scan records: what a scan produced for each loose file or archive member,
//! how a scan run decides between reusing cached records and hashing, and
//! how entry kinds are stored in the cache.

use vstd::prelude::*;
use crate::hash::Hashes;
use crate::paths::{components, extension_of, file_name, name_extension, path_components, path_file_name, rooted, views};
use crate::text::{chars_are, chars_eq, chars_of, lower_chars, lower_seq, string_of};

verus! {

/// How a scan treats containers it has seen before.
#[derive(Debug, Clone, Copy, PartialEq, Eq, Structural)]
pub enum ScanMode {
    /// Hash every container.
    Full,
    /// Reuse the cached records of a container whose identity is unchanged.
    Quick,
}

/// Where a scan entry lives.
#[derive(Debug, Clone, Copy, PartialEq, Eq, Structural)]
pub enum EntryKind {
    File,
    ZipEntry,
    SevenZEntry,
}

/// The text under which a kind is stored in the cache.
pub open spec fn db_name(kind: EntryKind) -> Seq<char> {
    match kind {
        EntryKind::File => "file"@,
        EntryKind::ZipEntry => "zip"@,
        EntryKind::SevenZEntry => "7z"@,
    }
}

/// The kind a stored text stands for; any unknown text reads as a loose file.
pub open spec fn kind_of_db(value: Seq<char>) -> EntryKind {
    if value == "zip"@ {
        EntryKind::ZipEntry
    } else if value == "7z"@ {
        EntryKind::SevenZEntry
    } else {
        EntryKind::File
    }
}

impl EntryKind {
    /// The cache text of this kind.
    pub fn as_db(self) -> (text: &'static str)
        ensures
            text@ == db_name(self),
    {
        match self {
            EntryKind::File => "file",
            EntryKind::ZipEntry => "zip",
            EntryKind::SevenZEntry => "7z",
        }
    }

    /// The kind stored as `value`.
    pub fn from_db(value: &str) -> (kind: EntryKind)
        ensures
            kind == kind_of_db(value@),
    {
        let chars = chars_of(value);
        if chars_are(chars.as_slice(), "zip") {
            EntryKind::ZipEntry
        } else if chars_are(chars.as_slice(), "7z") {
            EntryKind::SevenZEntry
        } else {
            EntryKind::File
        }
    }
}

/// Reading back what was stored gives the kind that was stored.
pub proof fn law_entry_kind_round_trip(kind: EntryKind)
    ensures
        kind_of_db(db_name(kind)) == kind,
{
    reveal_strlit("file");
    reveal_strlit("zip");
    reveal_strlit("7z");
    assert("file"@.len() != "zip"@.len() && "file"@.len() != "7z"@.len());
    assert("zip"@.len() != "7z"@.len());
}

/// One hashed stream: a loose file, or a member of a ZIP or 7z container.
#[derive(Debug, Clone, PartialEq, Eq)]
pub struct ScanEntry {
    pub container_path: String,
    pub container_name: String,
    pub container_size: u64,
    pub container_mtime_ns: i64,
    pub entry_path: String,
    pub entry_name: String,
    pub entry_size: u64,
    pub kind: EntryKind,
    pub hashes: Hashes,
    /// Unix timestamp in nanoseconds for the most recent actual hash operation.
    /// Cache reuse preserves this value.
    pub last_hashed_ns: i64,
    pub reused: bool,
}

/// A nanosecond count as an `i64`, saturating at `i64::MAX`.
pub open spec fn saturated_ns(nanos: u128) -> i64 {
    if nanos <= i64::MAX as u128 {
        nanos as i64
    } else {
        i64::MAX
    }
}

/// `i64::try_from(nanos).unwrap_or(i64::MAX)`.
pub fn saturate_ns(nanos: u128) -> (ns: i64)
    ensures
        ns == saturated_ns(nanos),
{
    if nanos <= 9_223_372_036_854_775_807u128 {
        nanos as i64
    } else {
        i64::MAX
    }
}

/// A timestamp in nanoseconds since the Unix epoch; a time before the epoch
/// (`None`) reads as zero.
pub fn unix_time_ns(since_epoch_ns: Option<u128>) -> (ns: i64)
    ensures
        ns == match since_epoch_ns {
            Some(n) => saturated_ns(n),
            None => 0,
        },
{
    match since_epoch_ns {
        Some(n) => saturate_ns(n),
        None => 0,
    }
}

/// The identity of a container on disk, by which cached records are reused.
#[derive(Debug, Clone, PartialEq, Eq)]
pub struct FileIdentity {
    pub path: String,
    pub name: String,
    pub size: u64,
    pub mtime_ns: i64,
}

/// The final component of a path, or the empty text when it has none.
pub open spec fn name_or_empty(p: Seq<char>) -> Seq<char> {
    match file_name(p) {
        Some(n) => n,
        None => Seq::empty(),
    }
}

fn file_name_or_empty(p: &str) -> (name: String)
    ensures
        name@ == name_or_empty(p@),
{
    let chars = chars_of(p);
    match path_file_name(chars.as_slice()) {
        Some(n) => string_of(n.as_slice()),
        None => String::new(),
    }
}

impl FileIdentity {
    /// The identity of the file at `path`, whose canonical form is
    /// `canonical`, of `size` bytes, last modified `modified_ns` nanoseconds
    /// after the Unix epoch.
    pub fn from_metadata(canonical: String, path: &str, size: u64, modified_ns: u128) -> (id: FileIdentity)
        ensures
            id.path@ == canonical@,
            id.name@ == name_or_empty(path@),
            id.size == size,
            id.mtime_ns == saturated_ns(modified_ns),
    {
        FileIdentity {
            path: canonical,
            name: file_name_or_empty(path),
            size,
            mtime_ns: saturate_ns(modified_ns),
        }
    }
}

/// The container kind of a file, by its extension ignoring ASCII case: `zip`
/// and `7z` are archives, everything else a loose file.
pub open spec fn container_kind_of(p: Seq<char>) -> EntryKind {
    match file_name(p) {
        Some(n) => match extension_of(n) {
            Some(e) => kind_of_ext(lower_seq(e)),
            None => EntryKind::File,
        },
        None => EntryKind::File,
    }
}

pub open spec fn kind_of_ext(e: Seq<char>) -> EntryKind {
    if e == "zip"@ {
        EntryKind::ZipEntry
    } else if e == "7z"@ {
        EntryKind::SevenZEntry
    } else {
        EntryKind::File
    }
}

/// How the file at `path` is read: as a ZIP, as a 7z, or as one loose file.
pub fn container_kind(path: &str) -> (kind: EntryKind)
    ensures
        kind == container_kind_of(path@),
{
    let chars = chars_of(path);
    let name = match path_file_name(chars.as_slice()) {
        Some(n) => n,
        None => {
            return EntryKind::File;
        },
    };
    let ext = match name_extension(name.as_slice()) {
        Some(e) => e,
        None => {
            return EntryKind::File;
        },
    };
    let lower = lower_chars(ext.as_slice());
    if chars_are(lower.as_slice(), "zip") {
        EntryKind::ZipEntry
    } else if chars_are(lower.as_slice(), "7z") {
        EntryKind::SevenZEntry
    } else {
        EntryKind::File
    }
}

/// The record of a freshly hashed stream of the container `identity`.
pub fn make_entry(
    identity: &FileIdentity,
    entry_path: &str,
    size: u64,
    kind: EntryKind,
    hashes: Hashes,
    last_hashed_ns: i64,
) -> (entry: ScanEntry)
    ensures
        entry.container_path@ == identity.path@,
        entry.container_name@ == identity.name@,
        entry.container_size == identity.size,
        entry.container_mtime_ns == identity.mtime_ns,
        entry.entry_path@ == entry_path@,
        entry.entry_name@ == name_or_empty(entry_path@),
        entry.entry_size == size,
        entry.kind == kind,
        entry.hashes == hashes,
        entry.last_hashed_ns == last_hashed_ns,
        !entry.reused,
{
    ScanEntry {
        container_path: identity.path.clone(),
        container_name: identity.name.clone(),
        container_size: identity.size,
        container_mtime_ns: identity.mtime_ns,
        entry_path: String::from_str(entry_path),
        entry_name: file_name_or_empty(entry_path),
        entry_size: size,
        kind,
        hashes,
        last_hashed_ns,
        reused: false,
    }
}

/// What one scan produced.
#[derive(Debug)]
pub struct ScanReport {
    pub entries: Vec<ScanEntry>,
    pub hashed_containers: usize,
    pub reused_containers: usize,
}

impl ScanReport {
    /// A report of nothing.
    pub fn new() -> (report: ScanReport)
        ensures
            report.entries@.len() == 0,
            report.hashed_containers == 0,
            report.reused_containers == 0,
    {
        ScanReport { entries: Vec::new(), hashed_containers: 0, reused_containers: 0 }
    }
}

/// One scan run: the containers offered so far, split into those whose cached
/// records were reused (already in the report) and those still to be hashed.
pub struct ScanRun {
    pub mode: ScanMode,
    pub report: ScanReport,
    pub pending: Vec<FileIdentity>,
}

impl ScanRun {
    /// A run in `mode` that has seen no container.
    pub fn new(mode: ScanMode) -> (run: ScanRun)
        ensures
            run.mode == mode,
            run.report.entries@.len() == 0,
            run.report.hashed_containers == 0,
            run.report.reused_containers == 0,
            run.pending@.len() == 0,
    {
        ScanRun { mode, report: ScanReport::new(), pending: Vec::new() }
    }

    /// Whether the cache is consulted for each container: only a quick scan
    /// reuses records.
    pub fn wants_cache(&self) -> (wants: bool)
        ensures
            wants == (self.mode == ScanMode::Quick),
    {
        self.mode == ScanMode::Quick
    }

    /// Offers the next container, with the records the cache holds for its
    /// unchanged identity (none when the cache was not consulted). A quick
    /// run reuses them when there are any; otherwise the container waits to
    /// be hashed.
    pub fn offer(&mut self, identity: FileIdentity, cached: Vec<ScanEntry>)
        requires
            old(self).report.reused_containers < usize::MAX,
        ensures
            final(self).mode == old(self).mode,
            final(self).report.hashed_containers == old(self).report.hashed_containers,
            (old(self).mode == ScanMode::Quick && cached@.len() > 0) ==> {
                &&& final(self).report.entries@ == old(self).report.entries@ + cached@
                &&& final(self).report.reused_containers == old(self).report.reused_containers + 1
                &&& final(self).pending@ == old(self).pending@
            },
            !(old(self).mode == ScanMode::Quick && cached@.len() > 0) ==> {
                &&& final(self).report.entries@ == old(self).report.entries@
                &&& final(self).report.reused_containers == old(self).report.reused_containers
                &&& final(self).pending@ == old(self).pending@.push(identity)
            },
    {
        if self.mode == ScanMode::Quick && cached.len() > 0 {
            let mut cached = cached;
            self.report.entries.append(&mut cached);
            self.report.reused_containers = self.report.reused_containers + 1;
        } else {
            self.pending.push(identity);
        }
    }

    /// Records the entries hashed from one pending container.
    pub fn record_hashed(&mut self, entries: Vec<ScanEntry>)
        requires
            old(self).report.hashed_containers < usize::MAX,
        ensures
            final(self).mode == old(self).mode,
            final(self).pending@ == old(self).pending@,
            final(self).report.entries@ == old(self).report.entries@ + entries@,
            final(self).report.hashed_containers == old(self).report.hashed_containers + 1,
            final(self).report.reused_containers == old(self).report.reused_containers,
    {
        let mut entries = entries;
        self.report.entries.append(&mut entries);
        self.report.hashed_containers = self.report.hashed_containers + 1;
    }
}


/// The commands of the command-line front end.
#[derive(Debug, Clone, Copy, PartialEq, Eq, Structural)]
pub enum ScanCommand {
    /// An initial full scan.
    Scan,
    /// A rescan reusing unchanged cached records.
    Quick,
    /// A rescan hashing every file.
    Full,
    /// A quick scan, then matching against the configured DATs.
    Verify,
}

/// How a command scans, and whether it then verifies against the DATs.
pub open spec fn plan_of(command: ScanCommand) -> (ScanMode, bool) {
    match command {
        ScanCommand::Scan | ScanCommand::Full => (ScanMode::Full, false),
        ScanCommand::Quick => (ScanMode::Quick, false),
        ScanCommand::Verify => (ScanMode::Quick, true),
    }
}

/// The scan mode of a command, and whether it verifies.
pub fn command_plan(command: ScanCommand) -> (plan: (ScanMode, bool))
    ensures
        plan == plan_of(command),
{
    match command {
        ScanCommand::Scan | ScanCommand::Full => (ScanMode::Full, false),
        ScanCommand::Quick => (ScanMode::Quick, false),
        ScanCommand::Verify => (ScanMode::Quick, true),
    }
}

/// `p` is the directory `dir` or lies below it: both rooted or both not, and
/// the components of `dir` start those of `p`.
pub open spec fn within(p: Seq<char>, dir: Seq<char>) -> bool {
    &&& rooted(p) == rooted(dir)
    &&& components(dir).len() <= components(p).len()
    &&& components(p).take(components(dir).len() as int) == components(dir)
}

/// Whether the path `p` is the directory `dir` or lies below it.
pub fn is_within(p: &str, dir: &str) -> (inside: bool)
    ensures
        inside == within(p@, dir@),
{
    let pc = chars_of(p);
    let dc = chars_of(dir);
    let rp = pc.len() > 0 && (pc[0] == '/' || pc[0] == '\\');
    let rd = dc.len() > 0 && (dc[0] == '/' || dc[0] == '\\');
    assert(rp == rooted(p@) && rd == rooted(dir@));
    if rp != rd {
        return false;
    }
    let a = path_components(pc.as_slice());
    let b = path_components(dc.as_slice());
    assert(views(a@).len() == a@.len() && views(b@).len() == b@.len());
    assert(components(p@) == views(a@) && components(dir@) == views(b@));
    if b.len() > a.len() {
        return false;
    }
    let mut i: usize = 0;
    while i < b.len()
        invariant
            i <= b@.len() <= a@.len(),
            components(p@) == views(a@),
            components(dir@) == views(b@),
            rooted(p@) == rooted(dir@),
            forall|j: int| 0 <= j < i ==> a@[j]@ == b@[j]@,
        decreases b@.len() - i,
    {
        if !chars_eq(a[i].as_slice(), b[i].as_slice()) {
            assert(views(a@)[i as int] == a@[i as int]@);
            assert(views(b@)[i as int] == b@[i as int]@);
            assert(views(a@).take(b@.len() as int)[i as int] != views(b@)[i as int]);
            return false;
        }
        i = i + 1;
    }
    assert(views(a@).take(b@.len() as int) =~= views(b@));
    true
}

impl ScanEntry {
    /// A copy of this record.
    pub fn copy(&self) -> (out: ScanEntry)
        ensures
            out == *self,
    {
        ScanEntry {
            container_path: self.container_path.clone(),
            container_name: self.container_name.clone(),
            container_size: self.container_size,
            container_mtime_ns: self.container_mtime_ns,
            entry_path: self.entry_path.clone(),
            entry_name: self.entry_name.clone(),
            entry_size: self.entry_size,
            kind: self.kind,
            hashes: Hashes {
                crc32: self.hashes.crc32.clone(),
                md5: self.hashes.md5.clone(),
                sha1: self.hashes.sha1.clone(),
            },
            last_hashed_ns: self.last_hashed_ns,
            reused: self.reused,
        }
    }
}

/// The entries, in order, whose container lies in `dir` or below it.
pub open spec fn rows_under(rows: Seq<ScanEntry>, dir: Seq<char>) -> Seq<ScanEntry>
    decreases rows.len(),
{
    if rows.len() == 0 {
        Seq::empty()
    } else if within(rows.last().container_path@, dir) {
        rows_under(rows.drop_last(), dir).push(rows.last())
    } else {
        rows_under(rows.drop_last(), dir)
    }
}

pub proof fn lemma_rows_under_len(rows: Seq<ScanEntry>, dir: Seq<char>)
    ensures
        rows_under(rows, dir).len() <= rows.len(),
    decreases rows.len(),
{
    if rows.len() > 0 {
        lemma_rows_under_len(rows.drop_last(), dir);
    }
}

/// The entries whose container lies in the collection directory
/// `collection` or below it, in order: the rows one source's DAT is matched
/// against.
pub fn rows_in_collection(rows: &[ScanEntry], collection: &str) -> (out: Vec<ScanEntry>)
    ensures
        out@ == rows_under(rows@, collection@),
{
    let mut out: Vec<ScanEntry> = Vec::new();
    let mut k: usize = 0;
    while k < rows.len()
        invariant
            k <= rows@.len(),
            out@ == rows_under(rows@.take(k as int), collection@),
        decreases rows@.len() - k,
    {
        proof {
            assert(rows@.take(k + 1).drop_last() =~= rows@.take(k as int));
            assert(rows@.take(k + 1).last() == rows@[k as int]);
        }
        if is_within(rows[k].container_path.as_str(), collection) {
            out.push(rows[k].copy());
        }
        k = k + 1;
    }
    assert(rows@.take(rows@.len() as int) =~= rows@);
    out
}

/// A stored record was written for a container with exactly this identity:
/// the same path, file name, size and modification time.
pub open spec fn matches_identity(e: ScanEntry, id: FileIdentity) -> bool {
    &&& e.container_path@ == id.path@
    &&& e.container_name@ == id.name@
    &&& e.container_size == id.size
    &&& e.container_mtime_ns == id.mtime_ns
}

/// A stored record handed out again for the container `id`.
pub open spec fn as_reused(e: ScanEntry, id: FileIdentity) -> ScanEntry {
    ScanEntry {
        container_path: id.path,
        container_name: id.name,
        container_size: id.size,
        container_mtime_ns: id.mtime_ns,
        reused: true,
        ..e
    }
}

fn same_identity(e: &ScanEntry, id: &FileIdentity) -> (same: bool)
    ensures
        same == matches_identity(*e, *id),
{
    e.container_path == id.path && e.container_name == id.name && e.container_size == id.size
        && e.container_mtime_ns == id.mtime_ns
}

/// The records a quick scan reuses for the container `identity`, given the
/// records stored under its path: all of them, marked reused, when one was
/// stored for the same path, file name, size and modification time; none
/// otherwise, so the container is hashed again.
pub fn reusable_records(identity: &FileIdentity, stored: &[ScanEntry]) -> (out: Vec<ScanEntry>)
    ensures
        (exists|k: int| 0 <= k < stored@.len() && matches_identity(#[trigger] stored@[k], *identity)) ==> out@
            == stored@.map_values(|e: ScanEntry| as_reused(e, *identity)),
        !(exists|k: int| 0 <= k < stored@.len() && matches_identity(#[trigger] stored@[k], *identity))
            ==> out@.len() == 0,
{
    let mut found = false;
    let mut k: usize = 0;
    while k < stored.len()
        invariant
            k <= stored@.len(),
            found <==> exists|j: int| 0 <= j < k && matches_identity(#[trigger] stored@[j], *identity),
        decreases stored@.len() - k,
    {
        if same_identity(&stored[k], identity) {
            found = true;
        }
        k = k + 1;
    }
    let mut out: Vec<ScanEntry> = Vec::new();
    if !found {
        return out;
    }
    let mut i: usize = 0;
    while i < stored.len()
        invariant
            i <= stored@.len(),
            out@ == stored@.take(i as int).map_values(|e: ScanEntry| as_reused(e, *identity)),
        decreases stored@.len() - i,
    {
        let e = &stored[i];
        let r = ScanEntry {
            container_path: identity.path.clone(),
            container_name: identity.name.clone(),
            container_size: identity.size,
            container_mtime_ns: identity.mtime_ns,
            entry_path: e.entry_path.clone(),
            entry_name: e.entry_name.clone(),
            entry_size: e.entry_size,
            kind: e.kind,
            hashes: Hashes {
                crc32: e.hashes.crc32.clone(),
                md5: e.hashes.md5.clone(),
                sha1: e.hashes.sha1.clone(),
            },
            last_hashed_ns: e.last_hashed_ns,
            reused: true,
        };
        assert(r == as_reused(*e, *identity));
        out.push(r);
        assert(stored@.take(i + 1).map_values(|e: ScanEntry| as_reused(e, *identity)) =~= stored@.take(
            i as int,
        ).map_values(|e: ScanEntry| as_reused(e, *identity)).push(as_reused(stored@[i as int], *identity)));
        i = i + 1;
    }
    assert(stored@.take(stored@.len() as int) =~= stored@);
    out
}

} // verus!
