//! DAT data model: header, ROM rows and dump status, and the parsers'
//! shared field rules.

use vstd::prelude::*;
use crate::clrmamepro::{clrmamepro_dat, parse_clrmamepro};
use crate::xml::{DatError, parse_xml, xml_dat, xml_events};
use crate::text::{chars_are, chars_of, is_white_space, lower_char, lower_chars, lower_seq, string_of, white_space};

verus! {

/// The header fields a DAT may carry (Logiqx `<header>` or ClrMamePro
/// `clrmamepro ( .. )`).
#[derive(Debug, Clone, Default, PartialEq, Eq)]
pub struct DatHeader {
    pub name: Option<String>,
    pub description: Option<String>,
    pub version: Option<String>,
    pub homepage: Option<String>,
    pub url: Option<String>,
}

/// Dump status of a DAT ROM row.
#[derive(Debug, Clone, Copy, Default, PartialEq, Eq, Structural)]
pub enum DumpStatus {
    #[default]
    Good,
    NoDump,
    BadDump,
}

/// One ROM row of a DAT. `game` is the display title of the game or machine
/// the row belongs to.
#[derive(Debug, Clone, PartialEq, Eq)]
pub struct DatRom {
    pub game: String,
    pub name: String,
    pub size: Option<u64>,
    pub crc32: Option<String>,
    pub md5: Option<String>,
    pub sha1: Option<String>,
    pub dump_status: DumpStatus,
}

/// A loaded DAT: where it came from, its header and its ROM rows in file order.
#[derive(Debug, Clone, Default, PartialEq, Eq)]
pub struct DatFile {
    pub path: String,
    pub header: DatHeader,
    pub roms: Vec<DatRom>,
}

pub struct DatHeaderView {
    pub name: Option<Seq<char>>,
    pub description: Option<Seq<char>>,
    pub version: Option<Seq<char>>,
    pub homepage: Option<Seq<char>>,
    pub url: Option<Seq<char>>,
}

pub struct DatRomView {
    pub game: Seq<char>,
    pub name: Seq<char>,
    pub size: Option<u64>,
    pub crc32: Option<Seq<char>>,
    pub md5: Option<Seq<char>>,
    pub sha1: Option<Seq<char>>,
    pub dump_status: DumpStatus,
}

impl View for DatHeader {
    type V = DatHeaderView;

    open spec fn view(&self) -> DatHeaderView {
        DatHeaderView {
            name: opt_view(self.name),
            description: opt_view(self.description),
            version: opt_view(self.version),
            homepage: opt_view(self.homepage),
            url: opt_view(self.url),
        }
    }
}

impl View for DatRom {
    type V = DatRomView;

    open spec fn view(&self) -> DatRomView {
        DatRomView {
            game: self.game@,
            name: self.name@,
            size: self.size,
            crc32: opt_view(self.crc32),
            md5: opt_view(self.md5),
            sha1: opt_view(self.sha1),
            dump_status: self.dump_status,
        }
    }
}

/// The contents of an optional string.
pub open spec fn opt_view(o: Option<String>) -> Option<Seq<char>> {
    match o {
        Some(s) => Some(s@),
        None => None,
    }
}

/// The views of a sequence of ROM rows.
pub open spec fn rom_views(roms: Seq<DatRom>) -> Seq<DatRomView> {
    roms.map_values(|r: DatRom| r@)
}

/// A copy of an optional string with the same contents.
pub fn copy_opt_string(s: &Option<String>) -> (out: Option<String>)
    ensures
        opt_view(out) == opt_view(*s),
{
    match s {
        Some(v) => Some(v.clone()),
        None => None,
    }
}

impl DatRom {
    /// A copy of this row with the same contents.
    pub fn copy(&self) -> (out: DatRom)
        ensures
            out@ == self@,
    {
        DatRom {
            game: self.game.clone(),
            name: self.name.clone(),
            size: self.size,
            crc32: copy_opt_string(&self.crc32),
            md5: copy_opt_string(&self.md5),
            sha1: copy_opt_string(&self.sha1),
            dump_status: self.dump_status,
        }
    }
}


// ---------------------------------------------------------------------------
// Field rules shared by both DAT formats
// ---------------------------------------------------------------------------

/// `s` without its leading Unicode whitespace.
pub open spec fn trim_front(s: Seq<char>) -> Seq<char>
    decreases s.len(),
{
    if s.len() > 0 && is_white_space(s[0]) {
        trim_front(s.drop_first())
    } else {
        s
    }
}

/// `s` without its trailing Unicode whitespace.
pub open spec fn trim_back(s: Seq<char>) -> Seq<char>
    decreases s.len(),
{
    if s.len() > 0 && is_white_space(s.last()) {
        trim_back(s.drop_last())
    } else {
        s
    }
}

/// `str::trim`.
pub open spec fn trim(s: Seq<char>) -> Seq<char> {
    trim_back(trim_front(s))
}

proof fn lemma_trim_front_start(s: Seq<char>)
    ensures
        trim_front(s).len() > 0 ==> !is_white_space(trim_front(s)[0]),
    decreases s.len(),
{
    if s.len() > 0 && is_white_space(s[0]) {
        lemma_trim_front_start(s.drop_first());
    }
}

proof fn lemma_trim_back_end(s: Seq<char>)
    ensures
        trim_back(s).len() <= s.len(),
        trim_back(s) == s.take(trim_back(s).len() as int),
        trim_back(s).len() > 0 ==> !is_white_space(trim_back(s).last()),
    decreases s.len(),
{
    if s.len() > 0 && is_white_space(s.last()) {
        lemma_trim_back_end(s.drop_last());
        assert(s.drop_last().take(trim_back(s).len() as int) =~= s.take(trim_back(s).len() as int));
    } else {
        assert(s.take(s.len() as int) =~= s);
    }
}

/// A stored hash is clean: not empty, without surrounding whitespace and
/// already in ASCII lower case.
pub open spec fn clean_hex(h: Seq<char>) -> bool {
    h.len() > 0 && trim(h) == h && lower_seq(h) == h
}

/// Every hash `normalized_hex` keeps is clean.
pub proof fn lemma_normalized_hex_clean(value: Option<Seq<char>>)
    ensures
        normalized_hex(value) matches Some(h) ==> clean_hex(h),
{
    if let Some(v) = value {
        let t = trim(v);
        let h = lower_seq(t);
        if h.len() > 0 {
            lemma_trim_front_start(v);
            lemma_trim_back_end(trim_front(v));
            assert(t[0] == trim_front(v)[0]);
            assert(!is_white_space(t[0]) && !is_white_space(t.last()));
            assert(h[0] == lower_char(t[0]));
            assert(h.last() == lower_char(t.last()));
            assert(!is_white_space(h[0]) && !is_white_space(h.last()));
            assert(trim_front(h) == h);
            assert(trim_back(h) == h);
            assert(lower_seq(h) =~= h);
        }
    }
}

/// A listed hash as stored: trimmed, ASCII lower-cased, and absent when empty.
pub open spec fn normalized_hex(value: Option<Seq<char>>) -> Option<Seq<char>> {
    match value {
        Some(v) => {
            let t = lower_seq(trim(v));
            if t.len() == 0 {
                None
            } else {
                Some(t)
            }
        },
        None => None,
    }
}

pub open spec fn is_digit(c: char) -> bool {
    '0' <= c && c <= '9'
}

/// The number a run of decimal digits denotes.
pub open spec fn digits_value(s: Seq<char>) -> int
    decreases s.len(),
{
    if s.len() == 0 {
        0
    } else {
        digits_value(s.drop_last()) * 10 + ((s.last() as int) - ('0' as int))
    }
}

/// What `u64::from_str` accepts: an optional `+`, then one or more decimal
/// digits whose value fits in a `u64`.
pub open spec fn all_digits(d: Seq<char>) -> bool {
    forall|i: int| 0 <= i < d.len() ==> is_digit(#[trigger] d[i])
}

/// The digits part of a number: everything after an optional leading `+`.
pub open spec fn digits_part(s: Seq<char>) -> Seq<char> {
    if s.len() > 0 && s[0] == '+' {
        s.drop_first()
    } else {
        s
    }
}

pub open spec fn parsed_u64(s: Seq<char>) -> Option<u64> {
    let d = digits_part(s);
    if d.len() > 0 && all_digits(d) && digits_value(d) <= u64::MAX {
        Some(digits_value(d) as u64)
    } else {
        None
    }
}

/// A listed size: present when the text parses as a `u64`.
pub open spec fn parsed_size(value: Option<Seq<char>>) -> Option<u64> {
    match value {
        Some(v) => parsed_u64(v),
        None => None,
    }
}

/// A status field: `nodump` and `baddump` in any ASCII case; anything else,
/// or no status, is a good dump.
pub open spec fn dump_status_of(value: Option<Seq<char>>) -> DumpStatus {
    match value {
        Some(v) => if lower_seq(v) == "nodump"@ {
            DumpStatus::NoDump
        } else if lower_seq(v) == "baddump"@ {
            DumpStatus::BadDump
        } else {
            DumpStatus::Good
        },
        None => DumpStatus::Good,
    }
}

proof fn lemma_trim_front(s: Seq<char>, k: int)
    requires
        0 <= k <= s.len(),
        forall|j: int| 0 <= j < k ==> is_white_space(#[trigger] s[j]),
        k == s.len() || !is_white_space(s[k]),
    ensures
        trim_front(s) == s.subrange(k, s.len() as int),
    decreases k,
{
    if k > 0 {
        let t = s.drop_first();
        assert forall|j: int| 0 <= j < k - 1 implies is_white_space(#[trigger] t[j]) by {
            assert(t[j] == s[j + 1]);
        }
        lemma_trim_front(t, k - 1);
        assert(t.subrange(k - 1, t.len() as int) =~= s.subrange(k, s.len() as int));
    } else {
        assert(s.subrange(0, s.len() as int) =~= s);
    }
}

proof fn lemma_trim_back(s: Seq<char>, k: int)
    requires
        0 <= k <= s.len(),
        forall|j: int| k <= j < s.len() ==> is_white_space(#[trigger] s[j]),
        k == 0 || !is_white_space(s[k - 1]),
    ensures
        trim_back(s) == s.subrange(0, k),
    decreases s.len() - k,
{
    if k < s.len() {
        let t = s.drop_last();
        assert forall|j: int| k <= j < t.len() implies is_white_space(#[trigger] t[j]) by {
            assert(t[j] == s[j]);
        }
        lemma_trim_back(t, k);
        assert(t.subrange(0, k) =~= s.subrange(0, k));
    } else {
        assert(s.subrange(0, s.len() as int) =~= s);
    }
}

/// `str::trim` on characters.
pub fn trim_chars(s: &[char]) -> (out: Vec<char>)
    ensures
        out@ == trim(s@),
{
    let mut start: usize = 0;
    while start < s.len() && white_space(s[start])
        invariant
            start <= s.len(),
            forall|j: int| 0 <= j < start ==> is_white_space(#[trigger] s@[j]),
        decreases s.len() - start,
    {
        start = start + 1;
    }
    proof {
        lemma_trim_front(s@, start as int);
    }
    let ghost front = s@.subrange(start as int, s.len() as int);
    let mut end: usize = s.len();
    while end > start && white_space(s[end - 1])
        invariant
            start <= end <= s.len(),
            front == s@.subrange(start as int, s.len() as int),
            forall|j: int| end <= j < s.len() ==> is_white_space(#[trigger] s@[j]),
        decreases end - start,
    {
        end = end - 1;
    }
    proof {
        assert forall|j: int| end - start <= j < front.len() implies is_white_space(#[trigger] front[j]) by {
            assert(front[j] == s@[j + start]);
        }
        if end > start {
            assert(front[end - start - 1] == s@[end - 1]);
        }
        lemma_trim_back(front, end - start);
    }
    let mut out: Vec<char> = Vec::with_capacity(end - start);
    let mut i: usize = start;
    while i < end
        invariant
            start <= i <= end,
            end <= s.len(),
            out@ == s@.subrange(start as int, i as int),
        decreases end - i,
    {
        out.push(s[i]);
        i = i + 1;
        assert(out@ =~= s@.subrange(start as int, i as int));
    }
    assert(front.subrange(0, end - start) =~= s@.subrange(start as int, end as int));
    out
}

/// Normalizes a listed hash: trimmed, ASCII lower-cased, absent when empty.
pub fn normalize_hex(value: Option<&[char]>) -> (out: Option<String>)
    ensures
        opt_view(out) == normalized_hex(match value {
            Some(v) => Some(v@),
            None => None,
        }),
{
    match value {
        Some(v) => {
            let t = trim_chars(v);
            let lowered = lower_chars(t.as_slice());
            if lowered.len() == 0 {
                None
            } else {
                Some(string_of(lowered.as_slice()))
            }
        },
        None => None,
    }
}

proof fn lemma_digits_value_grows(s: Seq<char>, k: int)
    requires
        0 <= k <= s.len(),
        forall|i: int| 0 <= i < s.len() ==> is_digit(#[trigger] s[i]),
    ensures
        digits_value(s.take(k)) <= digits_value(s),
        digits_value(s) >= 0,
    decreases s.len(),
{
    if s.len() > 0 {
        let p = s.drop_last();
        assert forall|i: int| 0 <= i < p.len() implies is_digit(#[trigger] p[i]) by {
            assert(p[i] == s[i]);
        }
        if k < s.len() {
            lemma_digits_value_grows(p, k);
            assert(p.take(k) =~= s.take(k));
        } else {
            lemma_digits_value_grows(p, 0);
            assert(s.take(k) =~= s);
        }
    }
}

/// `u64::from_str` on characters.
pub fn parse_u64(s: &[char]) -> (out: Option<u64>)
    ensures
        out == parsed_u64(s@),
{
    let start: usize = if s.len() > 0 && s[0] == '+' {
        1
    } else {
        0
    };
    let ghost d = digits_part(s@);
    assert(d =~= s@.subrange(start as int, s.len() as int));
    if start == s.len() {
        return None;
    }
    let mut value: u64 = 0;
    let mut i: usize = start;
    while i < s.len()
        invariant
            start <= i <= s.len(),
            d == digits_part(s@),
            d =~= s@.subrange(start as int, s.len() as int),
            forall|j: int| 0 <= j < i - start ==> is_digit(#[trigger] d[j]),
            value == digits_value(d.take(i - start)),
        decreases s.len() - i,
    {
        let c = s[i];
        if !('0' <= c && c <= '9') {
            assert(d[i - start] == c);
            assert(!is_digit(d[i - start]));
            assert(!all_digits(d));
            return None;
        }
        let digit: u64 = ((c as u32) - 48) as u64;
        proof {
            assert(d.take(i - start + 1).drop_last() =~= d.take(i - start));
            assert(d.take(i - start + 1).last() == c);
        }
        let next = match value.checked_mul(10) {
            Some(m) => m.checked_add(digit),
            None => None,
        };
        match next {
            Some(v) => {
                value = v;
            },
            None => {
                proof {
                    assert(digits_value(d.take(i - start + 1)) == value * 10 + digit);
                    assert(digits_value(d.take(i - start + 1)) > u64::MAX);
                    if all_digits(d) {
                        lemma_digits_value_grows(d, i - start + 1);
                    }
                }
                return None;
            },
        }
        i = i + 1;
    }
    assert(d.take(d.len() as int) =~= d);
    Some(value)
}

/// A status field read as a dump status.
pub fn parse_dump_status(value: Option<&[char]>) -> (status: DumpStatus)
    ensures
        status == dump_status_of(match value {
            Some(v) => Some(v@),
            None => None,
        }),
{
    match value {
        Some(v) => {
            let lowered = lower_chars(v);
            if chars_are(lowered.as_slice(), "nodump") {
                DumpStatus::NoDump
            } else if chars_are(lowered.as_slice(), "baddump") {
                DumpStatus::BadDump
            } else {
                DumpStatus::Good
            }
        },
        None => DumpStatus::Good,
    }
}


// ---------------------------------------------------------------------------
// Loading
// ---------------------------------------------------------------------------

/// A DAT is read as Logiqx XML when its first non-whitespace character is
/// `<`, and as ClrMamePro text otherwise.
pub open spec fn looks_like_xml(s: Seq<char>) -> bool {
    trim_front(s).len() > 0 && trim_front(s)[0] == '<'
}

fn starts_like_xml(contents: &str) -> (b: bool)
    ensures
        b == looks_like_xml(contents@),
{
    let chars = chars_of(contents);
    let mut i: usize = 0;
    while i < chars.len() && white_space(chars[i])
        invariant
            i <= chars@.len(),
            chars@ == contents@,
            forall|j: int| 0 <= j < i ==> is_white_space(#[trigger] chars@[j]),
        decreases chars@.len() - i,
    {
        i = i + 1;
    }
    proof {
        lemma_trim_front(chars@, i as int);
    }
    i < chars.len() && chars[i] == '<'
}

impl DatFile {
    /// Reads a DAT from its text, detecting the format from the content.
    /// `path` is kept as the DAT's source.
    pub fn parse(path: String, contents: &str) -> (res: Result<DatFile, DatError>)
        ensures
            looks_like_xml(contents@) ==> match xml_dat(xml_events(contents@)) {
                Ok((h, r)) => res matches Ok(d) && d.path@ == path@ && d.header@ == h && rom_views(
                    d.roms@,
                ) == r,
                Err(e) => res == Err::<DatFile, DatError>(DatError::Xml(e)),
            },
            !looks_like_xml(contents@) ==> (res matches Ok(d) && d.path@ == path@ && d.header@
                == clrmamepro_dat(contents@).0 && rom_views(d.roms@) == clrmamepro_dat(contents@).1),
    {
        if starts_like_xml(contents) {
            match parse_xml(contents) {
                Ok((header, roms)) => Ok(DatFile { path, header, roms }),
                Err(e) => Err(e),
            }
        } else {
            let (header, roms) = parse_clrmamepro(contents);
            Ok(DatFile { path, header, roms })
        }
    }
}

} // verus!
