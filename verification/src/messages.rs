//! Localized message tables: lookup with an English fallback, and `{name}`
//! placeholders filled in by plain text replacement.

use vstd::prelude::*;
use crate::dat::DumpStatus;
use crate::matching::{FileStatus, SetStatus};
use crate::text::{chars_are, chars_of, string_of};

verus! {

// ---------------------------------------------------------------------------
// Text replacement
// ---------------------------------------------------------------------------

/// `s` with each occurrence of `pat`, found from the left and not
/// overlapping the previous one, replaced by `rep` (`str::replace`).
pub open spec fn replaced(s: Seq<char>, pat: Seq<char>, rep: Seq<char>) -> Seq<char>
    decreases s.len(),
{
    if pat.len() == 0 || s.len() < pat.len() {
        s
    } else if s.take(pat.len() as int) == pat {
        rep + replaced(s.skip(pat.len() as int), pat, rep)
    } else {
        seq![s[0]] + replaced(s.skip(1), pat, rep)
    }
}

fn matches_at(s: &[char], i: usize, pat: &[char]) -> (m: bool)
    requires
        i + pat@.len() <= s@.len(),
    ensures
        m == (s@.skip(i as int).take(pat@.len() as int) == pat@),
{
    let n = s.len();
    let mut k: usize = 0;
    while k < pat.len()
        invariant
            k <= pat@.len(),
            n == s@.len(),
            i + pat@.len() <= s@.len(),
            forall|j: int| 0 <= j < k ==> s@[i + j] == pat@[j],
        decreases pat@.len() - k,
    {
        if s[i + k] != pat[k] {
            assert(s@.skip(i as int).take(pat@.len() as int)[k as int] != pat@[k as int]);
            return false;
        }
        k = k + 1;
    }
    assert(s@.skip(i as int).take(pat@.len() as int) =~= pat@);
    true
}

/// Replaces every occurrence of the non-empty `pat` in `s` by `rep`.
pub fn replace_all(s: &[char], pat: &[char], rep: &[char]) -> (out: Vec<char>)
    requires
        pat@.len() > 0,
    ensures
        out@ == replaced(s@, pat@, rep@),
{
    let mut out: Vec<char> = Vec::new();
    let mut i: usize = 0;
    assert(s@.skip(0) =~= s@);
    while pat.len() <= s.len() - i
        invariant
            i <= s@.len(),
            pat@.len() > 0,
            out@ + replaced(s@.skip(i as int), pat@, rep@) == replaced(s@, pat@, rep@),
        decreases s@.len() - i,
    {
        let ghost rest = s@.skip(i as int);
        if matches_at(s, i, pat) {
            let ghost before = out@;
            let mut k: usize = 0;
            while k < rep.len()
                invariant
                    k <= rep@.len(),
                    out@ == before + rep@.take(k as int),
                decreases rep@.len() - k,
            {
                out.push(rep[k]);
                k = k + 1;
                assert(out@ =~= before + rep@.take(k as int));
            }
            proof {
                assert(rep@.take(rep@.len() as int) =~= rep@);
                assert(rest.skip(pat@.len() as int) =~= s@.skip(i + pat@.len()));
                assert(before + (rep@ + replaced(rest.skip(pat@.len() as int), pat@, rep@)) =~= (before
                    + rep@) + replaced(rest.skip(pat@.len() as int), pat@, rep@));
            }
            i = i + pat.len();
        } else {
            let ghost before = out@;
            out.push(s[i]);
            proof {
                assert(rest.skip(1) =~= s@.skip(i + 1));
                assert(rest[0] == s@[i as int]);
                assert(before + (seq![rest[0]] + replaced(rest.skip(1), pat@, rep@)) =~= before.push(
                    s@[i as int],
                ) + replaced(rest.skip(1), pat@, rep@));
            }
            i = i + 1;
        }
    }
    let ghost before = out@;
    let mut k: usize = i;
    while k < s.len()
        invariant
            i <= k <= s@.len(),
            out@ == before + s@.subrange(i as int, k as int),
        decreases s@.len() - k,
    {
        out.push(s[k]);
        k = k + 1;
        assert(out@ =~= before + s@.subrange(i as int, k as int));
    }
    assert(s@.subrange(i as int, s@.len() as int) =~= s@.skip(i as int));
    out
}

/// `{name}`.
pub open spec fn placeholder(name: Seq<char>) -> Seq<char> {
    seq!['{'] + name + seq!['}']
}

/// `text` with the placeholder of each named value replaced by the value, one
/// name after the other in order.
pub open spec fn formatted(text: Seq<char>, values: Seq<(Seq<char>, Seq<char>)>) -> Seq<char>
    decreases values.len(),
{
    if values.len() == 0 {
        text
    } else {
        replaced(formatted(text, values.drop_last()), placeholder(values.last().0), values.last().1)
    }
}

/// The views of named values.
pub open spec fn value_views(values: Seq<(&str, String)>) -> Seq<(Seq<char>, Seq<char>)> {
    values.map_values(|v: (&str, String)| (v.0@, v.1@))
}

/// Fills the placeholders of `text`.
pub fn fill(text: Vec<char>, values: &[(&str, String)]) -> (out: Vec<char>)
    ensures
        out@ == formatted(text@, value_views(values@)),
{
    let mut out = text;
    let ghost start = out@;
    let mut i: usize = 0;
    while i < values.len()
        invariant
            i <= values@.len(),
            out@ == formatted(start, value_views(values@.take(i as int))),
        decreases values@.len() - i,
    {
        let name = chars_of(values[i].0);
        let mut pat: Vec<char> = Vec::new();
        pat.push('{');
        let mut k: usize = 0;
        while k < name.len()
            invariant
                k <= name@.len(),
                pat@ == seq!['{'] + name@.take(k as int),
            decreases name@.len() - k,
        {
            pat.push(name[k]);
            k = k + 1;
            assert(pat@ =~= seq!['{'] + name@.take(k as int));
        }
        pat.push('}');
        assert(name@.take(name@.len() as int) =~= name@);
        assert(pat@ =~= placeholder(values@[i as int].0@));
        let value = chars_of(values[i].1.as_str());
        out = replace_all(out.as_slice(), pat.as_slice(), value.as_slice());
        proof {
            let vs = value_views(values@.take(i + 1));
            assert(vs.drop_last() =~= value_views(values@.take(i as int)));
            assert(vs.last() == (values@[i as int].0@, values@[i as int].1@));
        }
        i = i + 1;
    }
    assert(values@.take(values@.len() as int) =~= values@);
    out
}

// ---------------------------------------------------------------------------
// Message tables
// ---------------------------------------------------------------------------

/// The value of `key` in a table: that of its first row with this key.
pub open spec fn lookup(table: Seq<(String, String)>, key: Seq<char>) -> Option<Seq<char>>
    decreases table.len(),
{
    if table.len() == 0 {
        None
    } else if table[0].0@ == key {
        Some(table[0].1@)
    } else {
        lookup(table.skip(1), key)
    }
}

/// The messages of the selected locale, and the English ones behind them.
pub struct Messages {
    pub fallback: Vec<(String, String)>,
    pub selected: Vec<(String, String)>,
}

/// The text of `key`: the selected locale's, else the English one, else
/// `fallback`.
pub open spec fn text_of(m: Messages, key: Seq<char>, fallback: Seq<char>) -> Seq<char> {
    match lookup(m.selected@, key) {
        Some(t) => t,
        None => match lookup(m.fallback@, key) {
            Some(t) => t,
            None => fallback,
        },
    }
}

/// Either table holds `key`.
pub open spec fn knows(m: Messages, key: Seq<char>) -> bool {
    lookup(m.selected@, key) is Some || lookup(m.fallback@, key) is Some
}

/// A key the selected locale lacks is read from the English table, and only
/// a key neither table has gives the caller's default.
pub proof fn law_falls_back_to_english(m: Messages, key: Seq<char>, fallback: Seq<char>)
    ensures
        lookup(m.selected@, key) matches Some(t) ==> text_of(m, key, fallback) == t,
        lookup(m.selected@, key) is None ==> text_of(m, key, fallback) == match lookup(m.fallback@, key) {
            Some(t) => t,
            None => fallback,
        },
        knows(m, key) || text_of(m, key, fallback) == fallback,
{
}

/// The languages the tables come in.
pub enum Locale {
    English,
    Japanese,
}

/// The locale a configured name selects: `en` and `ja` are supported.
pub open spec fn locale_of(name: Seq<char>) -> Option<Locale> {
    if name == "en"@ {
        Some(Locale::English)
    } else if name == "ja"@ {
        Some(Locale::Japanese)
    } else {
        None
    }
}

fn find(table: &Vec<(String, String)>, key: &str) -> (found: Option<String>)
    ensures
        match found {
            Some(v) => lookup(table@, key@) == Some(v@),
            None => lookup(table@, key@) is None,
        },
{
    let mut i: usize = 0;
    assert(table@.skip(0) =~= table@);
    while i < table.len()
        invariant
            i <= table@.len(),
            lookup(table@, key@) == lookup(table@.skip(i as int), key@),
        decreases table@.len() - i,
    {
        let ghost rest = table@.skip(i as int);
        assert(rest[0] == table@[i as int]);
        if chars_are(chars_of(table[i].0.as_str()).as_slice(), key) {
            return Some(table[i].1.clone());
        }
        assert(rest.skip(1) =~= table@.skip(i + 1));
        i = i + 1;
    }
    None
}

fn copy_table(table: &Vec<(String, String)>) -> (out: Vec<(String, String)>)
    ensures
        out@.len() == table@.len(),
        forall|i: int| 0 <= i < table@.len() ==> (#[trigger] out@[i]).0@ == table@[i].0@ && out@[i].1@
            == table@[i].1@,
{
    let mut out: Vec<(String, String)> = Vec::with_capacity(table.len());
    let mut i: usize = 0;
    while i < table.len()
        invariant
            i <= table@.len(),
            out@.len() == i,
            forall|j: int| 0 <= j < i ==> (#[trigger] out@[j]).0@ == table@[j].0@ && out@[j].1@ == table@[j].1@,
        decreases table@.len() - i,
    {
        out.push((table[i].0.clone(), table[i].1.clone()));
        i = i + 1;
    }
    out
}

proof fn lemma_lookup_same(a: Seq<(String, String)>, b: Seq<(String, String)>, key: Seq<char>)
    requires
        a.len() == b.len(),
        forall|i: int| 0 <= i < a.len() ==> (#[trigger] a[i]).0@ == b[i].0@ && a[i].1@ == b[i].1@,
    ensures
        lookup(a, key) == lookup(b, key),
    decreases a.len(),
{
    if a.len() > 0 {
        assert(a[0].0@ == b[0].0@);
        assert forall|i: int| 0 <= i < a.skip(1).len() implies (#[trigger] a.skip(1)[i]).0@ == b.skip(1)[i].0@
            && a.skip(1)[i].1@ == b.skip(1)[i].1@ by {
            assert(a.skip(1)[i] == a[i + 1]);
            assert(b.skip(1)[i] == b[i + 1]);
        }
        lemma_lookup_same(a.skip(1), b.skip(1), key);
    }
}

impl Messages {
    /// The messages for the locale named `locale`, given the English and
    /// Japanese tables; `None` for a locale that is not supported.
    pub fn for_locale(
        locale: &str,
        english: Vec<(String, String)>,
        japanese: Vec<(String, String)>,
    ) -> (m: Option<Messages>)
        ensures
            match locale_of(locale@) {
                Some(Locale::English) => m matches Some(msgs) && msgs.fallback@ == english@ && forall|key: Seq<
                    char,
                >| lookup(#[trigger] msgs.selected@, key) == lookup(english@, key),
                Some(Locale::Japanese) => m matches Some(msgs) && msgs.fallback@ == english@
                    && msgs.selected@ == japanese@,
                None => m is None,
            },
    {
        let name = chars_of(locale);
        if chars_are(name.as_slice(), "en") {
            let selected = copy_table(&english);
            proof {
                assert forall|key: Seq<char>| lookup(#[trigger] selected@, key) == lookup(english@, key) by {
                    lemma_lookup_same(selected@, english@, key);
                }
            }
            Some(Messages { fallback: english, selected })
        } else if chars_are(name.as_slice(), "ja") {
            Some(Messages { fallback: english, selected: japanese })
        } else {
            proof {
                reveal_strlit("en");
                reveal_strlit("ja");
            }
            None
        }
    }

    /// The text of `key`, or `fallback` when no table has it.
    pub fn text(&self, key: &str, fallback: &str) -> (t: String)
        ensures
            t@ == text_of(*self, key@, fallback@),
    {
        match find(&self.selected, key) {
            Some(t) => t,
            None => match find(&self.fallback, key) {
                Some(t) => t,
                None => String::from_str(fallback),
            },
        }
    }

    /// Whether some table has `key`.
    pub fn has(&self, key: &str) -> (known: bool)
        ensures
            known == knows(*self, key@),
    {
        find(&self.selected, key).is_some() || find(&self.fallback, key).is_some()
    }

    /// The text of `key` with its placeholders filled.
    pub fn format(&self, key: &str, fallback: &str, values: &[(&str, String)]) -> (out: String)
        ensures
            out@ == formatted(text_of(*self, key@, fallback@), value_views(values@)),
    {
        let t = self.text(key, fallback);
        let filled = fill(chars_of(t.as_str()), values);
        string_of(filled.as_slice())
    }
}

/// The message for a locale that is not supported: the English
/// `unsupported_locale` text (or its default), a colon, and the name.
pub fn unsupported_locale_message(english: &Vec<(String, String)>, locale: &str) -> (text: String)
    ensures
        text@ == (match lookup(english@, "unsupported_locale"@) {
            Some(t) => t,
            None => "Unsupported locale"@,
        }) + ": "@ + locale@,
{
    let head = match find(english, "unsupported_locale") {
        Some(t) => t,
        None => String::from_str("Unsupported locale"),
    };
    let mut out = chars_of(head.as_str());
    let sep = chars_of(": ");
    let name = chars_of(locale);
    let ghost h = out@;
    let mut i: usize = 0;
    while i < sep.len()
        invariant
            i <= sep@.len(),
            out@ == h + sep@.take(i as int),
        decreases sep@.len() - i,
    {
        out.push(sep[i]);
        i = i + 1;
        assert(out@ =~= h + sep@.take(i as int));
    }
    assert(sep@.take(sep@.len() as int) =~= sep@);
    let ghost hs = out@;
    let mut j: usize = 0;
    while j < name.len()
        invariant
            j <= name@.len(),
            out@ == hs + name@.take(j as int),
        decreases name@.len() - j,
    {
        out.push(name[j]);
        j = j + 1;
        assert(out@ =~= hs + name@.take(j as int));
    }
    assert(name@.take(name@.len() as int) =~= name@);
    string_of(out.as_slice())
}

// ---------------------------------------------------------------------------
// Status texts
// ---------------------------------------------------------------------------

/// The message key of a file status, and its English default.
pub open spec fn file_status_key(status: FileStatus) -> (Seq<char>, Seq<char>) {
    match status {
        FileStatus::Have => ("status_have"@, "Have"@),
        FileStatus::WrongName => ("status_wrong_name"@, "WrongName"@),
        FileStatus::WrongDump => ("status_wrong_dump"@, "WrongDump"@),
        FileStatus::Duplicate => ("status_duplicate"@, "Duplicate"@),
        FileStatus::Extra => ("status_extra"@, "Extra"@),
    }
}

/// The displayed text of a file status.
pub open spec fn status_text(m: Messages, status: FileStatus) -> Seq<char> {
    text_of(m, file_status_key(status).0, file_status_key(status).1)
}

/// A file status, marked when the DAT row it matched is a bad dump.
pub open spec fn marked_status(m: Messages, status: FileStatus, dump: Option<DumpStatus>) -> Seq<char> {
    if dump == Some(DumpStatus::BadDump) {
        formatted(
            text_of(m, "status_baddump"@, "{status} (baddump)"@),
            seq![("status"@, status_text(m, status))],
        )
    } else {
        status_text(m, status)
    }
}

/// The displayed text of a file status.
pub fn file_status_text(messages: &Messages, status: FileStatus) -> (text: String)
    ensures
        text@ == status_text(*messages, status),
{
    match status {
        FileStatus::Have => messages.text("status_have", "Have"),
        FileStatus::WrongName => messages.text("status_wrong_name", "WrongName"),
        FileStatus::WrongDump => messages.text("status_wrong_dump", "WrongDump"),
        FileStatus::Duplicate => messages.text("status_duplicate", "Duplicate"),
        FileStatus::Extra => messages.text("status_extra", "Extra"),
    }
}

/// The displayed text of a file status, with the bad-dump mark when the
/// matched row is a bad dump.
pub fn marked_file_status(messages: &Messages, status: FileStatus, dump_status: Option<DumpStatus>) -> (text: String)
    ensures
        text@ == marked_status(*messages, status, dump_status),
{
    let plain = file_status_text(messages, status);
    match dump_status {
        Some(DumpStatus::BadDump) => {
            let values = [("status", plain)];
            let out = messages.format("status_baddump", "{status} (baddump)", &values);
            assert(value_views(values@) =~= seq![("status"@, status_text(*messages, status))]) by {
                reveal_strlit("status");
            }
            out
        },
        _ => plain,
    }
}

/// The message key of a set status.
pub open spec fn set_status_key(status: SetStatus) -> Seq<char> {
    match status {
        SetStatus::Complete => "set_status_complete"@,
        SetStatus::Incomplete => "set_status_incomplete"@,
        SetStatus::MissingSet => "set_status_missing"@,
    }
}

/// The displayed text of a set status; its key must be in the tables.
pub fn set_status(messages: &Messages, status: SetStatus) -> (text: String)
    requires
        knows(*messages, set_status_key(status)),
    ensures
        text@ == text_of(*messages, set_status_key(status), ""@),
{
    match status {
        SetStatus::Complete => messages.text("set_status_complete", ""),
        SetStatus::Incomplete => messages.text("set_status_incomplete", ""),
        SetStatus::MissingSet => messages.text("set_status_missing", ""),
    }
}

} // verus!
