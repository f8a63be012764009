//! Configured sources (a DAT and its collection directory) and the rules for
//! adding sources in bulk from a folder of DATs.

use vstd::prelude::*;
use crate::paths::{components, extension_of, file_name, join, join_chars, name_extension, path_components, path_file_name, rooted, stem_of, name_stem, views};
use crate::text::{chars_eq_fold, chars_lt, chars_of, eq_fold, lemma_seq_lt_asymmetric, lemma_seq_lt_total, lemma_seq_lt_transitive, seq_lt, string_of};
use crate::dat::trim;

verus! {

/// One configured source: a DAT file and the directory of the files it lists.
#[derive(Debug, Clone, PartialEq, Eq)]
pub struct Source {
    pub dat: String,
    pub collection: String,
}

/// A character Windows does not allow in a folder name.
pub open spec fn illegal(c: char) -> bool {
    c == '<' || c == '>' || c == ':' || c == '"' || c == '/' || c == '\\' || c == '|' || c == '?'
        || c == '*'
}

/// `s` without trailing dots and spaces.
pub open spec fn trim_marks(s: Seq<char>) -> Seq<char>
    decreases s.len(),
{
    if s.len() > 0 && (s.last() == '.' || s.last() == ' ') {
        trim_marks(s.drop_last())
    } else {
        s
    }
}

/// A folder name made safe: each illegal character becomes `_`, and
/// trailing dots and spaces are dropped.
pub open spec fn sanitized(s: Seq<char>) -> Seq<char> {
    trim_marks(s.map_values(|c: char| if illegal(c) { '_' } else { c }))
}

/// Sanitizes one folder name.
pub fn sanitize_folder_name(name: &str) -> (out: String)
    ensures
        out@ == sanitized(name@),
{
    let chars = chars_of(name);
    let ghost mapped = name@.map_values(|c: char| if illegal(c) { '_' } else { c });
    let mut out: Vec<char> = Vec::with_capacity(chars.len());
    let mut i: usize = 0;
    while i < chars.len()
        invariant
            i <= chars@.len(),
            chars@ == name@,
            out@ == mapped.take(i as int),
            mapped == name@.map_values(|c: char| if illegal(c) { '_' } else { c }),
        decreases chars@.len() - i,
    {
        let c = chars[i];
        let d = if c == '<' || c == '>' || c == ':' || c == '"' || c == '/' || c == '\\' || c == '|'
            || c == '?' || c == '*' {
            '_'
        } else {
            c
        };
        out.push(d);
        i = i + 1;
        assert(out@ =~= mapped.take(i as int));
    }
    assert(mapped.take(mapped.len() as int) =~= mapped);
    let mut n: usize = out.len();
    while n > 0 && (out[n - 1] == '.' || out[n - 1] == ' ')
        invariant
            n <= out@.len(),
            out@ == mapped,
            trim_marks(mapped) == trim_marks(mapped.take(n as int)),
        decreases n,
    {
        assert(mapped.take(n as int).drop_last() =~= mapped.take(n - 1));
        n = n - 1;
    }
    let mut kept: Vec<char> = Vec::with_capacity(n);
    let mut j: usize = 0;
    while j < n
        invariant
            j <= n <= out@.len(),
            kept@ == out@.take(j as int),
        decreases n - j,
    {
        kept.push(out[j]);
        j = j + 1;
        assert(kept@ =~= out@.take(j as int));
    }
    string_of(kept.as_slice())
}

/// The folders between the DAT folder and the DAT file, when the file lies
/// under the folder.
pub open spec fn relative_dirs(dat: Seq<char>, folder: Seq<char>) -> Seq<Seq<char>> {
    let c = components(dat);
    let f = components(folder);
    if c.len() > 0 && rooted(dat) == rooted(folder) && f.len() <= c.len() - 1 && c.take(f.len() as int) == f {
        c.drop_last().skip(f.len() as int)
    } else {
        Seq::empty()
    }
}

/// `base`, then each folder name sanitized.
pub open spec fn join_sanitized(base: Seq<char>, segs: Seq<Seq<char>>) -> Seq<char>
    decreases segs.len(),
{
    if segs.len() == 0 {
        base
    } else {
        join(join_sanitized(base, segs.drop_last()), sanitized(segs.last()))
    }
}

/// The name a bulk-added source's collection is derived from: the DAT's
/// header name, or else its file stem.
pub open spec fn derived_name(dat: Seq<char>, header_name: Option<Seq<char>>) -> Seq<char> {
    match header_name {
        Some(n) => n,
        None => match file_name(dat) {
            Some(f) => stem_of(f),
            None => Seq::empty(),
        },
    }
}

/// The collection a bulk-added DAT gets:
/// `{collection parent}/{folders from the DAT folder}/{name}`, each folder
/// and the name sanitized.
pub open spec fn derived_collection(
    dat: Seq<char>,
    folder: Seq<char>,
    parent: Seq<char>,
    header_name: Option<Seq<char>>,
) -> Seq<char> {
    join(join_sanitized(parent, relative_dirs(dat, folder)), sanitized(derived_name(dat, header_name)))
}

fn sanitized_chars(seg: &Vec<char>) -> (out: Vec<char>)
    ensures
        out@ == sanitized(seg@),
{
    let s = string_of(seg.as_slice());
    let t = sanitize_folder_name(s.as_str());
    chars_of(t.as_str())
}

fn same_components(a: &Vec<Vec<char>>, b: &Vec<Vec<char>>, n: usize) -> (same: bool)
    requires
        n <= a@.len(),
        n <= b@.len(),
    ensures
        same == (views(a@).take(n as int) == views(b@).take(n as int)),
{
    let mut i: usize = 0;
    while i < n
        invariant
            i <= n <= a@.len(),
            n <= b@.len(),
            forall|j: int| 0 <= j < i ==> a@[j]@ == b@[j]@,
        decreases n - i,
    {
        if !crate::text::chars_eq(a[i].as_slice(), b[i].as_slice()) {
            assert(views(a@).take(n as int)[i as int] != views(b@).take(n as int)[i as int]);
            return false;
        }
        i = i + 1;
    }
    assert(views(a@).take(n as int) =~= views(b@).take(n as int));
    true
}

/// The source a bulk add derives for the DAT at `dat`, found under
/// `dat_folder`, with its collection under `collection_parent`.
pub fn source_from_dat(
    dat: String,
    dat_folder: &str,
    collection_parent: &str,
    header_name: Option<&str>,
) -> (source: Source)
    ensures
        source.dat@ == dat@,
        source.collection@ == derived_collection(
            dat@,
            dat_folder@,
            collection_parent@,
            match header_name {
                Some(n) => Some(n@),
                None => None,
            },
        ),
{
    let dat_chars = chars_of(dat.as_str());
    let folder_chars = chars_of(dat_folder);
    let name: Vec<char> = match header_name {
        Some(n) => chars_of(n),
        None => match path_file_name(dat_chars.as_slice()) {
            Some(f) => name_stem(f.as_slice()),
            None => Vec::new(),
        },
    };
    let c = path_components(dat_chars.as_slice());
    let f = path_components(folder_chars.as_slice());
    let ghost rel = relative_dirs(dat@, dat_folder@);
    let rooted_dat = dat_chars.len() > 0 && (dat_chars[0] == '/' || dat_chars[0] == '\\');
    let rooted_folder = folder_chars.len() > 0 && (folder_chars[0] == '/' || folder_chars[0] == '\\');
    let under = c.len() > 0 && rooted_dat == rooted_folder && f.len() <= c.len() - 1
        && same_components(&c, &f, f.len());
    proof {
        assert(views(f@).take(f@.len() as int) =~= views(f@));
        assert(rooted_dat == rooted(dat@));
        assert(rooted_folder == rooted(dat_folder@));
    }
    let mut collection = chars_of(collection_parent);
    let start: usize = if under {
        f.len()
    } else {
        0
    };
    let end: usize = if under {
        c.len() - 1
    } else {
        0
    };
    let ghost segs = if under {
        views(c@).drop_last().skip(f@.len() as int)
    } else {
        Seq::<Seq<char>>::empty()
    };
    assert(segs == rel);
    let mut i: usize = start;
    assert(segs.take(0) =~= Seq::<Seq<char>>::empty());
    while i < end
        invariant
            start <= i <= end,
            end <= c@.len(),
            under || end == 0,
            end - start == segs.len(),
            under ==> segs == views(c@).drop_last().skip(start as int),
            collection@ == join_sanitized(collection_parent@, segs.take(i - start)),
        decreases end - i,
    {
        let seg = sanitized_chars(&c[i]);
        proof {
            assert(segs.take(i - start + 1).drop_last() =~= segs.take(i - start));
            assert(segs[i - start] == c@[i as int]@);
        }
        join_chars(&mut collection, seg.as_slice());
        i = i + 1;
    }
    assert(segs.take(segs.len() as int) =~= segs);
    let clean = sanitized_chars(&name);
    join_chars(&mut collection, clean.as_slice());
    Source { dat, collection: string_of(collection.as_slice()) }
}

/// Why a request to look for new DATs was refused.
#[derive(Debug, Clone, Copy, PartialEq, Eq, Structural)]
pub enum NewDatsError {
    /// The collections parent is empty or blank.
    MissingCollectionParent,
    /// No DAT root is set that is not empty or blank.
    MissingDatRoot,
}

impl NewDatsError {
    /// The message shown for the error.
    pub fn message(&self) -> (text: String)
        ensures
            text@ == match self {
                NewDatsError::MissingCollectionParent => "Collections parent is required"@,
                NewDatsError::MissingDatRoot => "At least one DAT root is required"@,
            },
    {
        match self {
            NewDatsError::MissingCollectionParent => String::from_str("Collections parent is required"),
            NewDatsError::MissingDatRoot => String::from_str("At least one DAT root is required"),
        }
    }
}

pub open spec fn blank(p: Seq<char>) -> bool {
    trim(p).len() == 0
}

/// The DAT roots that are not blank, in order.
pub open spec fn nonblank_roots(roots: Seq<String>) -> Seq<Seq<char>>
    decreases roots.len(),
{
    if roots.len() == 0 {
        Seq::empty()
    } else if blank(roots.last()@) {
        nonblank_roots(roots.drop_last())
    } else {
        nonblank_roots(roots.drop_last()).push(roots.last()@)
    }
}

/// Checks a request to look for new DATs and gives the roots to walk, in
/// order: the collections parent must not be blank, and at least one root
/// must not be blank.
pub fn check_new_dat_sources(dat_roots: &[String], collection_parent: &str) -> (roots: Result<
    Vec<String>,
    NewDatsError,
>)
    ensures
        blank(collection_parent@) ==> roots == Err::<Vec<String>, NewDatsError>(
            NewDatsError::MissingCollectionParent,
        ),
        !blank(collection_parent@) && nonblank_roots(dat_roots@).len() == 0 ==> roots == Err::<
            Vec<String>,
            NewDatsError,
        >(NewDatsError::MissingDatRoot),
        !blank(collection_parent@) && nonblank_roots(dat_roots@).len() > 0 ==> (roots matches Ok(
            r,
        ) && r@.map_values(|s: String| s@) == nonblank_roots(dat_roots@)),
{
    if crate::paths::path_is_blank(collection_parent) {
        return Err(NewDatsError::MissingCollectionParent);
    }
    let mut kept: Vec<String> = Vec::new();
    let mut i: usize = 0;
    while i < dat_roots.len()
        invariant
            i <= dat_roots@.len(),
            kept@.map_values(|s: String| s@) == nonblank_roots(dat_roots@.take(i as int)),
        decreases dat_roots@.len() - i,
    {
        proof {
            assert(dat_roots@.take(i + 1).drop_last() =~= dat_roots@.take(i as int));
        }
        if !crate::paths::path_is_blank(dat_roots[i].as_str()) {
            kept.push(dat_roots[i].clone());
            assert(kept@.map_values(|s: String| s@) =~= nonblank_roots(dat_roots@.take(i + 1)));
        }
        i = i + 1;
    }
    assert(dat_roots@.take(dat_roots@.len() as int) =~= dat_roots@);
    if kept.len() == 0 {
        return Err(NewDatsError::MissingDatRoot);
    }
    Ok(kept)
}


/// A file a bulk add loads as a DAT: its extension is `dat` or `xml`,
/// ignoring ASCII case.
pub open spec fn is_dat_file(p: Seq<char>) -> bool {
    match file_name(p) {
        Some(n) => match extension_of(n) {
            Some(e) => eq_fold(e, "dat"@) || eq_fold(e, "xml"@),
            None => false,
        },
        None => false,
    }
}

/// Whether a bulk add loads the file at `path` as a DAT.
pub fn is_dat_path(path: &str) -> (dat: bool)
    ensures
        dat == is_dat_file(path@),
{
    let chars = chars_of(path);
    let name = match path_file_name(chars.as_slice()) {
        Some(n) => n,
        None => {
            return false;
        },
    };
    match name_extension(name.as_slice()) {
        Some(e) => {
            let dat = chars_of("dat");
            let xml = chars_of("xml");
            chars_eq_fold(e.as_slice(), dat.as_slice()) || chars_eq_fold(e.as_slice(), xml.as_slice())
        },
        None => false,
    }
}

// ---------------------------------------------------------------------------
// Bulk add bookkeeping
// ---------------------------------------------------------------------------

/// Two paths name the same place: both rooted or both not, with the same
/// components.
pub open spec fn same_path(a: Seq<char>, b: Seq<char>) -> bool {
    rooted(a) == rooted(b) && components(a) == components(b)
}

/// `list` holds a path naming the same place as `p`.
pub open spec fn holds_path(list: Seq<String>, p: Seq<char>) -> bool {
    exists|i: int| 0 <= i < list.len() && same_path(#[trigger] list[i]@, p)
}

/// Whether `a` and `b` name the same place.
pub fn paths_equal(a: &str, b: &str) -> (same: bool)
    ensures
        same == same_path(a@, b@),
{
    let ac = chars_of(a);
    let bc = chars_of(b);
    let ra = ac.len() > 0 && (ac[0] == '/' || ac[0] == '\\');
    let rb = bc.len() > 0 && (bc[0] == '/' || bc[0] == '\\');
    assert(ra == rooted(a@) && rb == rooted(b@));
    if ra != rb {
        return false;
    }
    let ca = path_components(ac.as_slice());
    let cb = path_components(bc.as_slice());
    if ca.len() != cb.len() {
        assert(views(ca@).len() != views(cb@).len());
        return false;
    }
    let same = same_components(&ca, &cb, ca.len());
    assert(views(ca@).take(ca@.len() as int) =~= views(ca@));
    assert(views(cb@).take(cb@.len() as int) =~= views(cb@));
    same
}

fn holds_path_exec(list: &Vec<String>, p: &str) -> (found: bool)
    ensures
        found == holds_path(list@, p@),
{
    let mut i: usize = 0;
    while i < list.len()
        invariant
            i <= list@.len(),
            forall|j: int| 0 <= j < i ==> !same_path(#[trigger] list@[j]@, p@),
        decreases list@.len() - i,
    {
        if paths_equal(list[i].as_str(), p) {
            return true;
        }
        i = i + 1;
    }
    false
}

/// What a bulk add found: the new sources, the DATs skipped because they are
/// configured already, and one message per DAT that could not be added.
pub struct BulkAddResult {
    pub sources: Vec<Source>,
    pub skipped: usize,
    pub errors: Vec<String>,
}

impl BulkAddResult {
    /// Nothing found yet.
    pub fn new() -> (r: BulkAddResult)
        ensures
            r.sources@.len() == 0 && r.skipped == 0 && r.errors@.len() == 0,
    {
        BulkAddResult { sources: Vec::new(), skipped: 0, errors: Vec::new() }
    }

    /// Adds what one DAT root gave.
    pub fn absorb(&mut self, other: BulkAddResult)
        requires
            old(self).skipped + other.skipped <= usize::MAX,
        ensures
            final(self).sources@ == old(self).sources@ + other.sources@,
            final(self).skipped == old(self).skipped + other.skipped,
            final(self).errors@ == old(self).errors@ + other.errors@,
    {
        let mut other = other;
        self.skipped = self.skipped + other.skipped;
        self.sources.append(&mut other.sources);
        self.errors.append(&mut other.errors);
    }

    /// Records a DAT root that could not be walked.
    pub fn root_error(&mut self, message: String)
        ensures
            final(self).sources@ == old(self).sources@,
            final(self).skipped == old(self).skipped,
            final(self).errors@ == old(self).errors@.push(message),
    {
        self.errors.push(message);
    }
}

/// `a`, then `b`, then `c`.
pub open spec fn concat3(a: Seq<char>, b: Seq<char>, c: Seq<char>) -> Seq<char> {
    a + b + c
}

fn concat_strs(a: &str, b: &str, c: &str) -> (s: String)
    ensures
        s@ == concat3(a@, b@, c@),
{
    let mut out = chars_of(a);
    let bs = chars_of(b);
    let cs = chars_of(c);
    let ghost start = out@;
    let mut i: usize = 0;
    while i < bs.len()
        invariant
            i <= bs@.len(),
            out@ == start + bs@.take(i as int),
        decreases bs@.len() - i,
    {
        out.push(bs[i]);
        i = i + 1;
        assert(out@ =~= start + bs@.take(i as int));
    }
    assert(bs@.take(bs@.len() as int) =~= bs@);
    let ghost mid = out@;
    let mut j: usize = 0;
    while j < cs.len()
        invariant
            j <= cs@.len(),
            out@ == mid + cs@.take(j as int),
        decreases cs@.len() - j,
    {
        out.push(cs[j]);
        j = j + 1;
        assert(out@ =~= mid + cs@.take(j as int));
    }
    assert(cs@.take(cs@.len() as int) =~= cs@);
    string_of(out.as_slice())
}

/// A bulk add under one DAT root in progress: the DAT paths and collection
/// paths taken so far (the configured ones and those added since), and what
/// it has found.
pub struct BulkAdd {
    pub known: Vec<String>,
    pub collections: Vec<String>,
    pub result: BulkAddResult,
}

impl BulkAdd {
    /// A bulk add next to the configured DATs and collections.
    pub fn new(known: Vec<String>, collections: Vec<String>) -> (b: BulkAdd)
        ensures
            b.known@ == known@,
            b.collections@ == collections@,
            b.result.sources@.len() == 0 && b.result.skipped == 0 && b.result.errors@.len() == 0,
    {
        BulkAdd { known, collections, result: BulkAddResult::new() }
    }

    /// Claims the DAT at `dat`: a DAT already known is skipped (and counted);
    /// a new one becomes known and is to be loaded.
    pub fn claim_dat(&mut self, dat: String) -> (claimed: bool)
        requires
            old(self).result.skipped < usize::MAX,
        ensures
            claimed == !holds_path(old(self).known@, dat@),
            final(self).collections@ == old(self).collections@,
            final(self).result.sources@ == old(self).result.sources@,
            final(self).result.errors@ == old(self).result.errors@,
            claimed ==> final(self).known@ == old(self).known@.push(dat) && final(self).result.skipped
                == old(self).result.skipped,
            !claimed ==> final(self).known@ == old(self).known@ && final(self).result.skipped
                == old(self).result.skipped + 1,
    {
        if holds_path_exec(&self.known, dat.as_str()) {
            self.result.skipped = self.result.skipped + 1;
            false
        } else {
            self.known.push(dat);
            true
        }
    }

    /// Offers the source derived for the DAT at `dat`, whose collection's
    /// comparable path is `collection`: a collection already taken is an
    /// error; otherwise the source is added.
    pub fn add_source(&mut self, source: Source, collection: String, dat: &str)
        ensures
            final(self).known@ == old(self).known@,
            final(self).result.skipped == old(self).result.skipped,
            holds_path(old(self).collections@, collection@) ==> {
                &&& final(self).collections@ == old(self).collections@
                &&& final(self).result.sources@ == old(self).result.sources@
                &&& final(self).result.errors@.len() == old(self).result.errors@.len() + 1
                &&& final(self).result.errors@.drop_last() == old(self).result.errors@
                &&& final(self).result.errors@.last()@ == concat3(
                    dat@,
                    ": derived collection already exists: "@,
                    source.collection@,
                )
            },
            !holds_path(old(self).collections@, collection@) ==> {
                &&& final(self).collections@ == old(self).collections@.push(collection)
                &&& final(self).result.sources@ == old(self).result.sources@.push(source)
                &&& final(self).result.errors@ == old(self).result.errors@
            },
    {
        if holds_path_exec(&self.collections, collection.as_str()) {
            let message = concat_strs(dat, ": derived collection already exists: ", source.collection.as_str());
            let ghost before = self.result.errors@;
            self.result.errors.push(message);
            assert(self.result.errors@.drop_last() =~= before);
        } else {
            self.collections.push(collection);
            self.result.sources.push(source);
        }
    }

    /// Records a DAT that could not be loaded.
    pub fn add_load_error(&mut self, dat: &str, error: &str)
        ensures
            final(self).known@ == old(self).known@,
            final(self).collections@ == old(self).collections@,
            final(self).result.sources@ == old(self).result.sources@,
            final(self).result.skipped == old(self).result.skipped,
            final(self).result.errors@.len() == old(self).result.errors@.len() + 1,
            final(self).result.errors@.drop_last() == old(self).result.errors@,
            final(self).result.errors@.last()@ == concat3(dat@, ": "@, error@),
    {
        let message = concat_strs(dat, ": ", error);
        let ghost before = self.result.errors@;
        self.result.errors.push(message);
        assert(self.result.errors@.drop_last() =~= before);
    }

    /// What the bulk add found.
    pub fn finish(self) -> (r: BulkAddResult)
        ensures
            r == self.result,
    {
        self.result
    }
}

// ---------------------------------------------------------------------------
// Ordering DAT paths
// ---------------------------------------------------------------------------

/// Components, each closed by a NUL character.
pub open spec fn closed_components(c: Seq<Seq<char>>) -> Seq<char>
    decreases c.len(),
{
    if c.len() == 0 {
        Seq::empty()
    } else {
        closed_components(c.drop_last()) + c.last() + seq!['\0']
    }
}

/// The sort key of a path. Comparing keys by code point compares paths by
/// their components, a rooted path before any other: a component that is a
/// prefix of another comes first, and a path before the paths below it (for
/// paths without NUL characters, which no file system holds).
pub open spec fn path_key(p: Seq<char>) -> Seq<char> {
    (if rooted(p) {
        seq!['\0']
    } else {
        Seq::empty()
    }) + closed_components(components(p))
}

fn key_of_path(p: &str) -> (key: Vec<char>)
    ensures
        key@ == path_key(p@),
{
    let chars = chars_of(p);
    let mut key: Vec<char> = Vec::new();
    if chars.len() > 0 && (chars[0] == '/' || chars[0] == '\\') {
        key.push('\0');
    }
    let ghost start = key@;
    let parts = path_components(chars.as_slice());
    let mut k: usize = 0;
    assert(views(parts@).take(0) =~= Seq::<Seq<char>>::empty());
    assert(start + closed_components(views(parts@).take(0)) =~= start);
    while k < parts.len()
        invariant
            k <= parts@.len(),
            key@ == start + closed_components(views(parts@).take(k as int)),
        decreases parts@.len() - k,
    {
        let ghost before = key@;
        let part = &parts[k];
        let mut j: usize = 0;
        while j < part.len()
            invariant
                j <= part@.len(),
                key@ == before + part@.take(j as int),
            decreases part@.len() - j,
        {
            key.push(part[j]);
            j = j + 1;
            assert(key@ =~= before + part@.take(j as int));
        }
        key.push('\0');
        proof {
            assert(part@.take(part@.len() as int) =~= part@);
            let v = views(parts@).take(k + 1);
            assert(v.drop_last() =~= views(parts@).take(k as int));
            assert(v.last() == part@);
            assert(key@ =~= start + closed_components(v));
        }
        k = k + 1;
    }
    assert(views(parts@).take(parts@.len() as int) =~= views(parts@));
    key
}

/// `order` lists every position of `keys` once, ordered by key and, among
/// equal keys, by position.
pub open spec fn sorted_order(keys: Seq<Seq<char>>, order: Seq<usize>) -> bool {
    &&& order.len() == keys.len()
    &&& forall|k: int| 0 <= k < order.len() ==> (#[trigger] order[k]) < keys.len()
    &&& forall|a: int, b: int| 0 <= a < order.len() && 0 <= b < order.len() && a != b ==> order[a] != order[b]
    &&& forall|a: int, b: int| 0 <= a < b < order.len() ==> !seq_lt(keys[order[b] as int], keys[order[a] as int])
    &&& forall|a: int, b: int|
        0 <= a < b < order.len() && !seq_lt(keys[order[a] as int], keys[order[b] as int]) ==> order[a] < order[b]
}

proof fn lemma_not_lt_trans(a: Seq<char>, b: Seq<char>, c: Seq<char>)
    requires
        !seq_lt(a, b),
        !seq_lt(b, c),
    ensures
        !seq_lt(a, c),
{
    lemma_seq_lt_total(a, b);
    lemma_seq_lt_total(b, c);
    if seq_lt(b, a) && seq_lt(c, b) {
        lemma_seq_lt_transitive(c, b, a);
        lemma_seq_lt_asymmetric(a, c);
    }
    if a == b {
        lemma_seq_lt_total(b, c);
    }
}

/// The positions of `keys` in key order, equal keys in position order.
fn sort_order(keys: &Vec<Vec<char>>) -> (order: Vec<usize>)
    ensures
        sorted_order(views(keys@), order@),
{
    let ghost kv = views(keys@);
    let n = keys.len();
    let mut order: Vec<usize> = Vec::with_capacity(n);
    let mut m: usize = 0;
    while m < n
        invariant
            m <= n,
            n == keys@.len(),
            order@.len() == m,
            forall|k: int| 0 <= k < m ==> #[trigger] order@[k] == k,
        decreases n - m,
    {
        order.push(m);
        m = m + 1;
    }
    let mut i: usize = 0;
    while i < n
        invariant
            0 <= i <= n,
            n == keys@.len(),
            kv == views(keys@),
            kv.len() == n,
            order@.len() == n,
            forall|k: int| i <= k < n ==> #[trigger] order@[k] == k,
            forall|k: int| 0 <= k < i ==> (#[trigger] order@[k]) < i,
            forall|a: int, b: int| 0 <= a < n && 0 <= b < n && a != b ==> order@[a] != order@[b],
            forall|a: int, b: int| 0 <= a < b < i ==> !seq_lt(kv[order@[b] as int], kv[order@[a] as int]),
            forall|a: int, b: int|
                0 <= a < b < i && !seq_lt(kv[order@[a] as int], kv[order@[b] as int]) ==> order@[a] < order@[b],
        decreases n - i,
    {
        let ghost old_order = order@;
        let x = order.remove(i);
        assert(x == i);
        let mut p: usize = i;
        while p > 0 && chars_lt(keys[x].as_slice(), keys[order[p - 1]].as_slice())
            invariant
                p <= i < n,
                n == keys@.len(),
                kv == views(keys@),
                old_order.len() == n,
                order@ == old_order.remove(i as int),
                x == i,
                forall|k: int| 0 <= k < i ==> (#[trigger] old_order[k]) < i,
                forall|k: int| p <= k < i ==> seq_lt(kv[x as int], kv[(#[trigger] order@[k]) as int]),
            decreases p,
        {
            assert(kv[x as int] == keys@[x as int]@);
            assert(order@[p - 1] == old_order[p - 1]);
            assert(kv[order@[p - 1] as int] == keys@[order@[p - 1] as int]@);
            p = p - 1;
        }
        proof {
            if p > 0 {
                assert(order@[p - 1] == old_order[p - 1]);
                assert(kv[x as int] == keys@[x as int]@);
                assert(kv[order@[p - 1] as int] == keys@[order@[p - 1] as int]@);
            }
        }
        let ghost removed = order@;
        order.insert(p, x);
        proof {
            assert(order@ =~= old_order.take(p as int).push(i) + old_order.subrange(p as int, i as int)
                + old_order.skip(i + 1));
            assert forall|k: int| i + 1 <= k < n implies #[trigger] order@[k] == k by {
                assert(order@[k] == old_order[k]);
            }
            assert forall|k: int| 0 <= k < i + 1 implies (#[trigger] order@[k]) < i + 1 by {
                if k < p {
                    assert(order@[k] == old_order[k]);
                } else if k > p {
                    assert(order@[k] == old_order[k - 1]);
                }
            }
            assert forall|a: int, b: int| 0 <= a < n && 0 <= b < n && a != b implies order@[a] != order@[b] by {
                let oa = if a < p {
                    a
                } else if a == p {
                    i as int
                } else if a <= i {
                    a - 1
                } else {
                    a
                };
                let ob = if b < p {
                    b
                } else if b == p {
                    i as int
                } else if b <= i {
                    b - 1
                } else {
                    b
                };
                assert(order@[a] == old_order[oa]);
                assert(order@[b] == old_order[ob]);
            }
            assert forall|a: int, b: int| 0 <= a < b < i + 1 implies !seq_lt(
                kv[order@[b] as int],
                kv[order@[a] as int],
            ) by {
                if b < p {
                    assert(order@[a] == old_order[a] && order@[b] == old_order[b]);
                } else if b == p {
                    assert(order@[a] == old_order[a]);
                    if p > 0 {
                        assert(order@[p - 1] == old_order[p - 1]);
                        assert(!seq_lt(kv[i as int], kv[old_order[p - 1] as int]));
                        if a < p - 1 {
                            lemma_not_lt_trans(kv[i as int], kv[old_order[p - 1] as int], kv[old_order[a] as int]);
                        }
                    }
                } else if a == p {
                    assert(order@[b] == old_order[b - 1]);
                    assert(order@[b] == removed[b - 1]);
                    assert(seq_lt(kv[i as int], kv[order@[b] as int]));
                    lemma_seq_lt_asymmetric(kv[i as int], kv[order@[b] as int]);
                } else {
                    let oa = if a < p {
                        a
                    } else {
                        a - 1
                    };
                    assert(order@[a] == old_order[oa]);
                    assert(order@[b] == old_order[b - 1]);
                }
            }
            assert forall|a: int, b: int|
                0 <= a < b < i + 1 && !seq_lt(kv[order@[a] as int], kv[order@[b] as int]) implies order@[a]
                < order@[b] by {
                if b < p {
                    assert(order@[a] == old_order[a] && order@[b] == old_order[b]);
                } else if b == p {
                    assert(order@[a] == old_order[a]);
                } else if a == p {
                    assert(order@[b] == removed[b - 1]);
                } else {
                    let oa = if a < p {
                        a
                    } else {
                        a - 1
                    };
                    assert(order@[a] == old_order[oa]);
                    assert(order@[b] == old_order[b - 1]);
                }
            }
        }
        i = i + 1;
    }
    order
}

// ---------------------------------------------------------------------------
// Bulk add of a DAT folder
// ---------------------------------------------------------------------------

/// What loading one found DAT gave: the header name it declares and the
/// comparable path of the collection derived for it, or why it could not be
/// loaded.
pub enum DatLoad {
    Loaded { header_name: Option<String>, collection: String },
    Failed(String),
}

/// A DAT file found under the folder: its path, its comparable path, and
/// what loading it gave.
pub struct DatCandidate {
    pub path: String,
    pub comparable: String,
    pub load: DatLoad,
}

/// The state of a bulk add, by contents.
pub struct BulkView {
    pub known: Seq<String>,
    pub collections: Seq<String>,
    pub sources: Seq<(Seq<char>, Seq<char>)>,
    pub skipped: nat,
    pub errors: Seq<Seq<char>>,
}

pub open spec fn opt_text(o: Option<String>) -> Option<Seq<char>> {
    match o {
        Some(s) => Some(s@),
        None => None,
    }
}

/// One found DAT: skipped when already known; otherwise known from now on,
/// and then added with its derived collection, or refused because that
/// collection is taken, or recorded as not loadable.
pub open spec fn bulk_step(v: BulkView, c: DatCandidate, folder: Seq<char>, parent: Seq<char>) -> BulkView {
    if holds_path(v.known, c.comparable@) {
        BulkView { skipped: v.skipped + 1, ..v }
    } else {
        let known = v.known.push(c.comparable);
        match c.load {
            DatLoad::Loaded { header_name, collection } => {
                let col = derived_collection(c.path@, folder, parent, opt_text(header_name));
                if holds_path(v.collections, collection@) {
                    BulkView {
                        known,
                        errors: v.errors.push(concat3(c.path@, ": derived collection already exists: "@, col)),
                        ..v
                    }
                } else {
                    BulkView {
                        known,
                        collections: v.collections.push(collection),
                        sources: v.sources.push((c.path@, col)),
                        ..v
                    }
                }
            },
            DatLoad::Failed(e) => BulkView { known, errors: v.errors.push(concat3(c.path@, ": "@, e@)), ..v },
        }
    }
}

/// The found DATs taken in the given order.
pub open spec fn bulk_run(
    v: BulkView,
    cands: Seq<DatCandidate>,
    order: Seq<usize>,
    folder: Seq<char>,
    parent: Seq<char>,
) -> BulkView
    decreases order.len(),
{
    if order.len() == 0 {
        v
    } else {
        bulk_step(bulk_run(v, cands, order.drop_last(), folder, parent), cands[order.last() as int], folder, parent)
    }
}

/// The sort keys of the found DATs' paths.
pub open spec fn candidate_keys(cands: Seq<DatCandidate>) -> Seq<Seq<char>> {
    cands.map_values(|c: DatCandidate| path_key(c.path@))
}

/// The views of a bulk add's result.
pub open spec fn result_view(r: BulkAddResult, known: Seq<String>, collections: Seq<String>) -> BulkView {
    BulkView {
        known,
        collections,
        sources: r.sources@.map_values(|s: Source| (s.dat@, s.collection@)),
        skipped: r.skipped as nat,
        errors: r.errors@.map_values(|e: String| e@),
    }
}

/// Adds the DATs found under `dat_folder` as sources with collections under
/// `collection_parent`, next to the configured DATs `known` and collections
/// `collections` (by comparable path). The found DATs are taken sorted by
/// path; each is handled as `bulk_step` says.
pub fn bulk_add_sources(
    dat_folder: &str,
    collection_parent: &str,
    known: Vec<String>,
    collections: Vec<String>,
    candidates: &Vec<DatCandidate>,
) -> (result: BulkAddResult)
    ensures
        exists|order: Seq<usize>|
            {
                &&& sorted_order(candidate_keys(candidates@), order)
                &&& {
                    let run = bulk_run(
                        BulkView { known: known@, collections: collections@, sources: Seq::empty(), skipped: 0, errors: Seq::empty() },
                        candidates@,
                        order,
                        dat_folder@,
                        collection_parent@,
                    );
                    result_view(result, run.known, run.collections) == run
                }
            },
{
    let mut keys: Vec<Vec<char>> = Vec::with_capacity(candidates.len());
    let mut m: usize = 0;
    while m < candidates.len()
        invariant
            m <= candidates@.len(),
            keys@.len() == m,
            forall|k: int| 0 <= k < m ==> (#[trigger] keys@[k])@ == path_key(candidates@[k].path@),
        decreases candidates@.len() - m,
    {
        keys.push(key_of_path(candidates[m].path.as_str()));
        m = m + 1;
    }
    assert(views(keys@) =~= candidate_keys(candidates@));
    let order = sort_order(&keys);
    let ghost start = BulkView {
        known: known@,
        collections: collections@,
        sources: Seq::empty(),
        skipped: 0,
        errors: Seq::empty(),
    };
    let mut bulk = BulkAdd::new(known, collections);
    let mut x: usize = 0;
    proof {
        assert(result_view(bulk.result, bulk.known@, bulk.collections@) =~= start) by {
            assert(bulk.result.sources@.map_values(|s: Source| (s.dat@, s.collection@)) =~= Seq::<(Seq<char>, Seq<char>)>::empty());
            assert(bulk.result.errors@.map_values(|e: String| e@) =~= Seq::<Seq<char>>::empty());
        }
        assert(order@.take(0) =~= Seq::<usize>::empty());
    }
    while x < order.len()
        invariant
            x <= order@.len(),
            order@.len() == candidates@.len(),
            sorted_order(candidate_keys(candidates@), order@),
            bulk.result.skipped <= x,
            result_view(bulk.result, bulk.known@, bulk.collections@) == bulk_run(
                start,
                candidates@,
                order@.take(x as int),
                dat_folder@,
                collection_parent@,
            ),
        decreases order@.len() - x,
    {
        let c = &candidates[order[x]];
        let ghost before = result_view(bulk.result, bulk.known@, bulk.collections@);
        let ghost old_sources = bulk.result.sources@;
        let ghost old_errors = bulk.result.errors@;
        proof {
            assert(order@.take(x + 1).drop_last() =~= order@.take(x as int));
            assert(order@.take(x + 1).last() == order@[x as int]);
        }
        if bulk.claim_dat(c.comparable.clone()) {
            match &c.load {
                DatLoad::Loaded { header_name, collection } => {
                    let name: Option<&str> = match header_name {
                        Some(h) => Some(h.as_str()),
                        None => None,
                    };
                    let source = source_from_dat(c.path.clone(), dat_folder, collection_parent, name);
                    bulk.add_source(source, collection.clone(), c.path.as_str());
                    proof {
                        assert(opt_text(*header_name) == match name {
                            Some(n) => Some(n@),
                            None => None,
                        });
                        let nv = result_view(bulk.result, bulk.known@, bulk.collections@);
                        let step = bulk_step(before, *c, dat_folder@, collection_parent@);
                        if holds_path(before.collections, collection@) {
                            assert(bulk.result.errors@ =~= old_errors.push(bulk.result.errors@.last()));
                            assert(nv.errors =~= step.errors);
                            assert(nv.sources =~= step.sources);
                        } else {
                            assert(nv.sources =~= step.sources);
                            assert(nv.errors =~= step.errors);
                        }
                        assert(nv =~= step);
                    }
                },
                DatLoad::Failed(e) => {
                    bulk.add_load_error(c.path.as_str(), e.as_str());
                    proof {
                        let nv = result_view(bulk.result, bulk.known@, bulk.collections@);
                        let step = bulk_step(before, *c, dat_folder@, collection_parent@);
                        assert(bulk.result.errors@ =~= old_errors.push(bulk.result.errors@.last()));
                        assert(nv.errors =~= step.errors);
                        assert(nv.sources =~= step.sources);
                        assert(nv =~= step);
                    }
                },
            }
        } else {
            proof {
                let nv = result_view(bulk.result, bulk.known@, bulk.collections@);
                let step = bulk_step(before, *c, dat_folder@, collection_parent@);
                assert(nv.sources =~= step.sources);
                assert(nv.errors =~= step.errors);
                assert(nv =~= step);
            }
        }
        x = x + 1;
    }
    proof {
        assert(order@.take(order@.len() as int) =~= order@);
    }
    let ghost final_known = bulk.known@;
    let ghost final_collections = bulk.collections@;
    let result = bulk.finish();
    assert(result_view(result, final_known, final_collections) == bulk_run(
        start,
        candidates@,
        order@,
        dat_folder@,
        collection_parent@,
    ));
    result
}

} // verus!
