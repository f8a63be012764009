//! Logiqx XML DATs. `quick_xml` reads the document into events; the rules
//! that turn the events into a header and ROM rows are verified here.

use vstd::prelude::*;
use vstd::utf8::{decode_utf8, valid_utf8};
use quick_xml::events::{BytesStart, Event};
use quick_xml::reader::Reader;
use crate::dat::{
    DatHeader, DatHeaderView, DatRom, DatRomView, dump_status_of, normalize_hex,
    normalized_hex, opt_view, parse_dump_status, parse_u64, parsed_size, rom_views,
};
use crate::text::chars_of;

verus! {

#[verifier::external_type_specification]
#[verifier::external_body]
#[verifier::reject_recursive_types(R)]
pub struct ExXmlReader<R>(Reader<R>);

#[verifier::external_type_specification]
#[verifier::external_body]
pub struct ExXmlError(quick_xml::Error);

/// A start or empty-element tag: its local name and its attributes in
/// document order (an attribute that failed to parse is `None`), with raw,
/// unescaped values.
pub struct XmlTag {
    pub name: Vec<u8>,
    pub attributes: Vec<Option<(Vec<u8>, Vec<u8>)>>,
}

/// The XML events DAT reading looks at.
pub enum XmlEvent {
    Start(XmlTag),
    Empty(XmlTag),
    /// An end tag's local name.
    End(Vec<u8>),
    /// Text with entities resolved, or why resolving failed.
    Text(Result<String, quick_xml::Error>),
    Eof,
    /// Comments, CDATA, declarations, processing instructions, doctype.
    Other,
}

/// Errors reading a DAT.
#[derive(Debug)]
pub enum DatError {
    Xml(quick_xml::Error),
}

/// The steps `quick_xml`'s `Reader` (text trimming on) yields for a
/// document, up to and including the first `Eof` or error.
pub uninterp spec fn xml_events(text: Seq<char>) -> Seq<Result<XmlEvent, quick_xml::Error>>;

/// The steps a reader has still to yield.
pub uninterp spec fn xml_pending(reader: Reader<&[u8]>) -> Seq<Result<XmlEvent, quick_xml::Error>>;

/// A step that ends reading: `Eof` or an error.
pub open spec fn is_last_step(step: Result<XmlEvent, quick_xml::Error>) -> bool {
    match step {
        Ok(XmlEvent::Eof) => true,
        Err(_) => true,
        _ => false,
    }
}

/// A reader's step list ends with its first `Eof` or error.
pub open spec fn well_ended(steps: Seq<Result<XmlEvent, quick_xml::Error>>) -> bool {
    &&& steps.len() > 0
    &&& is_last_step(steps.last())
    &&& forall|i: int| 0 <= i < steps.len() - 1 ==> !is_last_step(#[trigger] steps[i])
}

/// `Reader::from_str` with `trim_text(true)`: a reader over the document's
/// events, which end with the first `Eof` or error.
#[verifier::external_body]
fn xml_reader(contents: &str) -> (reader: Reader<&[u8]>)
    ensures
        xml_pending(reader) == xml_events(contents@),
        well_ended(xml_pending(reader)),
{
    let mut reader = Reader::from_str(contents);
    reader.config_mut().trim_text(true);
    reader
}

/// `Reader::read_event`: the reader's next step, converted to an `XmlEvent`
/// (local names, raw attribute bytes, unescaped text).
#[verifier::external_body]
fn xml_next(reader: &mut Reader<&[u8]>) -> (step: Result<XmlEvent, quick_xml::Error>)
    requires
        xml_pending(*old(reader)).len() > 0,
    ensures
        step == xml_pending(*old(reader))[0],
        xml_pending(*final(reader)) == xml_pending(*old(reader)).drop_first(),
{
    let tag = |e: BytesStart| XmlTag {
        name: e.local_name().as_ref().to_vec(),
        attributes: e.attributes().with_checks(false).map(|a| a.ok().map(|a| (a.key.0.to_vec(), a.value.into_owned()))).collect(),
    };
    Ok(match reader.read_event()? {
        Event::Start(e) => XmlEvent::Start(tag(e)),
        Event::Empty(e) => XmlEvent::Empty(tag(e)),
        Event::End(e) => XmlEvent::End(e.local_name().as_ref().to_vec()),
        Event::Text(t) => XmlEvent::Text(t.unescape().map(|s| s.into_owned())),
        Event::Eof => XmlEvent::Eof,
        _ => XmlEvent::Other,
    })
}

/// `String::from_utf8`: the text the bytes encode, when they are valid UTF-8.
#[verifier::external_body]
fn utf8_string(bytes: &[u8]) -> (s: Option<String>)
    ensures
        s is Some <==> valid_utf8(bytes@),
        s matches Some(t) ==> t@ == decode_utf8(bytes@),
{
    String::from_utf8(bytes.to_vec()).ok()
}

// ---------------------------------------------------------------------------
// The rules
// ---------------------------------------------------------------------------

/// The bytes of an ASCII word.
pub open spec fn ascii_bytes(w: Seq<char>) -> Seq<u8> {
    w.map_values(|c: char| c as u8)
}

pub open spec fn is_tag(name: Seq<u8>, w: Seq<char>) -> bool {
    name == ascii_bytes(w)
}

/// The value of the first well-formed attribute named `key`, when it is
/// valid UTF-8.
pub open spec fn attr_value(attrs: Seq<Option<(Vec<u8>, Vec<u8>)>>, key: Seq<char>) -> Option<Seq<char>>
    decreases attrs.len(),
{
    if attrs.len() == 0 {
        None
    } else {
        match attrs[0] {
            Some((k, v)) => if k@ == ascii_bytes(key) {
                if valid_utf8(v@) {
                    Some(decode_utf8(v@))
                } else {
                    None
                }
            } else {
                attr_value(attrs.drop_first(), key)
            },
            None => attr_value(attrs.drop_first(), key),
        }
    }
}

/// The ROM row a `rom` tag gives, when it has a name. Its game is filled in
/// when the enclosing game ends.
pub open spec fn xml_rom(tag: XmlTag) -> Option<DatRomView> {
    let attrs = tag.attributes@;
    match attr_value(attrs, "name"@) {
        Some(name) => Some(
            DatRomView {
                game: Seq::empty(),
                name,
                size: parsed_size(attr_value(attrs, "size"@)),
                crc32: normalized_hex(attr_value(attrs, "crc"@)),
                md5: normalized_hex(attr_value(attrs, "md5"@)),
                sha1: normalized_hex(attr_value(attrs, "sha1"@)),
                dump_status: dump_status_of(attr_value(attrs, "status"@)),
            },
        ),
        None => None,
    }
}

/// A `rom` tag gives a row exactly when it has a `name` attribute, and then
/// each field comes from the attribute of its own name: the name from
/// `name`, the size from `size`, the CRC32 from `crc`, the MD5 from `md5`,
/// the SHA1 from `sha1` (each hash trimmed and lower-cased) and the dump
/// status from `status`.
pub proof fn law_xml_rom_fields(tag: XmlTag)
    ensures
        xml_rom(tag) is Some <==> attr_value(tag.attributes@, "name"@) is Some,
        xml_rom(tag) matches Some(r) ==> {
            &&& Some(r.name) == attr_value(tag.attributes@, "name"@)
            &&& r.size == parsed_size(attr_value(tag.attributes@, "size"@))
            &&& r.crc32 == normalized_hex(attr_value(tag.attributes@, "crc"@))
            &&& r.md5 == normalized_hex(attr_value(tag.attributes@, "md5"@))
            &&& r.sha1 == normalized_hex(attr_value(tag.attributes@, "sha1"@))
            &&& r.dump_status == dump_status_of(attr_value(tag.attributes@, "status"@))
        },
{
}

/// A game or machine being read.
pub struct XmlGameView {
    pub name: Seq<char>,
    pub description: Option<Seq<char>>,
    pub roms: Seq<DatRomView>,
}

pub struct XmlStateView {
    pub header: DatHeaderView,
    pub roms: Seq<DatRomView>,
    pub game: Option<XmlGameView>,
    pub in_header: bool,
    pub text_field: Option<Seq<u8>>,
}

pub open spec fn initial_state() -> XmlStateView {
    XmlStateView {
        header: DatHeaderView { name: None, description: None, version: None, homepage: None, url: None },
        roms: Seq::empty(),
        game: None,
        in_header: false,
        text_field: None,
    }
}

/// One of the element names whose text is kept.
pub open spec fn is_text_field(name: Seq<u8>) -> bool {
    is_tag(name, "name"@) || is_tag(name, "description"@) || is_tag(name, "version"@) || is_tag(
        name,
        "homepage"@,
    ) || is_tag(name, "url"@)
}

pub open spec fn set_header(h: DatHeaderView, field: Seq<u8>, value: Seq<char>) -> DatHeaderView {
    if is_tag(field, "name"@) {
        DatHeaderView { name: Some(value), ..h }
    } else if is_tag(field, "description"@) {
        DatHeaderView { description: Some(value), ..h }
    } else if is_tag(field, "version"@) {
        DatHeaderView { version: Some(value), ..h }
    } else if is_tag(field, "homepage"@) {
        DatHeaderView { homepage: Some(value), ..h }
    } else if is_tag(field, "url"@) {
        DatHeaderView { url: Some(value), ..h }
    } else {
        h
    }
}

/// A `rom` tag inside a game adds its row.
pub open spec fn with_rom(st: XmlStateView, tag: XmlTag) -> XmlStateView {
    match (xml_rom(tag), st.game) {
        (Some(rom), Some(g)) => XmlStateView {
            game: Some(XmlGameView { roms: g.roms.push(rom), ..g }),
            ..st
        },
        _ => st,
    }
}

/// A finished game's title: its description when non-empty, else its name.
pub open spec fn game_title(g: XmlGameView) -> Seq<char> {
    match g.description {
        Some(d) => if d.len() > 0 {
            d
        } else {
            g.name
        },
        None => g.name,
    }
}

/// A finished game's rows, each carrying the game's title.
pub open spec fn titled(g: XmlGameView) -> Seq<DatRomView> {
    g.roms.map_values(|r: DatRomView| DatRomView { game: game_title(g), ..r })
}

/// One event.
pub open spec fn xml_step(st: XmlStateView, ev: XmlEvent) -> Result<XmlStateView, quick_xml::Error> {
    match ev {
        XmlEvent::Start(tag) => {
            let n = tag.name@;
            if is_tag(n, "header"@) {
                Ok(XmlStateView { in_header: true, ..st })
            } else if is_tag(n, "game"@) || is_tag(n, "machine"@) {
                let name = match attr_value(tag.attributes@, "name"@) {
                    Some(v) => v,
                    None => Seq::empty(),
                };
                Ok(
                    XmlStateView {
                        game: Some(XmlGameView { name, description: None, roms: Seq::empty() }),
                        ..st
                    },
                )
            } else if is_tag(n, "rom"@) {
                Ok(with_rom(st, tag))
            } else if is_text_field(n) && (st.in_header || (is_tag(n, "description"@)
                && st.game is Some)) {
                Ok(XmlStateView { text_field: Some(n), ..st })
            } else {
                Ok(st)
            }
        },
        XmlEvent::Empty(tag) => if is_tag(tag.name@, "rom"@) {
            Ok(with_rom(st, tag))
        } else {
            Ok(st)
        },
        XmlEvent::Text(text) => match st.text_field {
            Some(field) => match text {
                Ok(value) => if st.in_header {
                    Ok(XmlStateView { header: set_header(st.header, field, value@), ..st })
                } else if is_tag(field, "description"@) && st.game is Some {
                    Ok(
                        XmlStateView {
                            game: Some(XmlGameView { description: Some(value@), ..st.game->0 }),
                            ..st
                        },
                    )
                } else {
                    Ok(st)
                },
                Err(e) => Err(e),
            },
            None => Ok(st),
        },
        XmlEvent::End(n) => if is_tag(n@, "header"@) {
            Ok(XmlStateView { in_header: false, text_field: None, ..st })
        } else if is_tag(n@, "game"@) || is_tag(n@, "machine"@) {
            match st.game {
                Some(g) => Ok(XmlStateView { roms: st.roms + titled(g), game: None, ..st }),
                None => Ok(st),
            }
        } else if is_text_field(n@) {
            Ok(XmlStateView { text_field: None, ..st })
        } else {
            Ok(st)
        },
        XmlEvent::Eof => Ok(st),
        XmlEvent::Other => Ok(st),
    }
}

/// A `<header>` start tag.
pub open spec fn header_start(ev: XmlEvent) -> bool {
    match ev {
        XmlEvent::Start(tag) => is_tag(tag.name@, "header"@),
        _ => false,
    }
}

/// The end tag of a `game` or `machine`.
pub open spec fn game_end(ev: XmlEvent) -> bool {
    match ev {
        XmlEvent::End(n) => is_tag(n@, "game"@) || is_tag(n@, "machine"@),
        _ => false,
    }
}

/// `next` has an open game with a description that `st` did not have.
pub open spec fn description_set(st: XmlStateView, next: XmlStateView) -> bool {
    match next.game {
        Some(g) => g.description is Some && !(st.game matches Some(h) && h.description == g.description),
        None => false,
    }
}

/// What one event can change while reading a Logiqx DAT: the header only
/// through text inside `<header>`; reading of the header starts only at a
/// `<header>` start tag; a game's description is set only by text outside
/// the header; and the finished rows only grow, by a finished `game`
/// or `machine` whose rows all carry its title.
pub proof fn law_xml_step(st: XmlStateView, ev: XmlEvent)
    ensures
        xml_step(st, ev) matches Ok(next) ==> {
            &&& (next.header != st.header ==> st.in_header && ev is Text)
            &&& (next.in_header && !st.in_header ==> header_start(ev))
            &&& (description_set(st, next) ==> ev is Text && !st.in_header)
            &&& (next.roms == st.roms || (game_end(ev) && st.game is Some && next.roms == st.roms + titled(
                st.game->0,
            )))
        },
{
}

/// Runs the steps in order until the first `Eof` (or their end); an error
/// step, or a text that failed to resolve where text is kept, stops reading
/// with that error.
pub open spec fn xml_fold(
    st: XmlStateView,
    steps: Seq<Result<XmlEvent, quick_xml::Error>>,
) -> Result<XmlStateView, quick_xml::Error>
    decreases steps.len(),
{
    if steps.len() == 0 {
        Ok(st)
    } else {
        match steps[0] {
            Err(e) => Err(e),
            Ok(XmlEvent::Eof) => Ok(st),
            Ok(ev) => match xml_step(st, ev) {
                Ok(next) => xml_fold(next, steps.drop_first()),
                Err(e) => Err(e),
            },
        }
    }
}

/// The header and ROM rows the steps of a Logiqx XML document describe.
pub open spec fn xml_dat(steps: Seq<Result<XmlEvent, quick_xml::Error>>) -> Result<
    (DatHeaderView, Seq<DatRomView>),
    quick_xml::Error,
> {
    match xml_fold(initial_state(), steps) {
        Ok(st) => Ok((st.header, st.roms)),
        Err(e) => Err(e),
    }
}

/// A document holding one `game` with one named `rom` gives exactly one ROM
/// row: the rom's name and hashes from the rom's own attributes (the SHA1
/// from `sha1`, the MD5 from `md5`, the CRC32 from `crc`), with the game's
/// `name` attribute as its title, and an empty header.
pub proof fn law_xml_one_game(game: XmlTag, rom: XmlTag)
    requires
        is_tag(game.name@, "game"@),
        is_tag(rom.name@, "rom"@),
        attr_value(rom.attributes@, "name"@) is Some,
    ensures
        xml_dat(
            seq![
                Ok(XmlEvent::Start(game)),
                Ok(XmlEvent::Empty(rom)),
                Ok(XmlEvent::End(game.name)),
                Ok(XmlEvent::Eof),
            ],
        ) matches Ok((h, roms)) && h == initial_state().header && roms.len() == 1 && {
            let r = roms[0];
            &&& Some(r.name) == attr_value(rom.attributes@, "name"@)
            &&& r.sha1 == normalized_hex(attr_value(rom.attributes@, "sha1"@))
            &&& r.md5 == normalized_hex(attr_value(rom.attributes@, "md5"@))
            &&& r.crc32 == normalized_hex(attr_value(rom.attributes@, "crc"@))
            &&& r.game == match attr_value(game.attributes@, "name"@) {
                Some(n) => n,
                None => Seq::empty(),
            }
        },
{
    let steps: Seq<Result<XmlEvent, quick_xml::Error>> = seq![
        Ok(XmlEvent::Start(game)),
        Ok(XmlEvent::Empty(rom)),
        Ok(XmlEvent::End(game.name)),
        Ok(XmlEvent::Eof),
    ];
    let name = match attr_value(game.attributes@, "name"@) {
        Some(v) => v,
        None => Seq::<char>::empty(),
    };
    let s0 = initial_state();
    assert(!is_tag(game.name@, "header"@)) by {
        reveal_strlit("game");
        reveal_strlit("header");
        assert(ascii_bytes("game"@).len() == 4 && ascii_bytes("header"@).len() == 6);
    }
    assert(!is_tag(rom.name@, "header"@) && !is_tag(rom.name@, "game"@) && !is_tag(rom.name@, "machine"@)) by {
        reveal_strlit("rom");
        reveal_strlit("game");
        reveal_strlit("header");
        reveal_strlit("machine");
        assert(ascii_bytes("rom"@).len() == 3 && ascii_bytes("game"@).len() == 4);
        assert(ascii_bytes("header"@).len() == 6 && ascii_bytes("machine"@).len() == 7);
    }
    let s1 = XmlStateView { game: Some(XmlGameView { name, description: None, roms: Seq::empty() }), ..s0 };
    assert(xml_step(s0, XmlEvent::Start(game)) == Ok::<XmlStateView, quick_xml::Error>(s1));
    let r = xml_rom(rom)->0;
    let s2 = XmlStateView { game: Some(XmlGameView { name, description: None, roms: seq![r] }), ..s0 };
    assert(Seq::<DatRomView>::empty().push(r) =~= seq![r]);
    assert(xml_step(s1, XmlEvent::Empty(rom)) == Ok::<XmlStateView, quick_xml::Error>(s2));
    let g = s2.game->0;
    let s3 = XmlStateView { roms: Seq::empty() + titled(g), game: None, ..s2 };
    assert(xml_step(s2, XmlEvent::End(game.name)) == Ok::<XmlStateView, quick_xml::Error>(s3));
    assert(game_title(g) == name);
    assert(titled(g).len() == 1);
    assert(s3.roms[0] == DatRomView { game: name, ..r });
    assert(steps.drop_first().drop_first().drop_first().drop_first() =~= Seq::<Result<XmlEvent, quick_xml::Error>>::empty());
    assert(xml_fold(s3, steps.drop_first().drop_first().drop_first()) == Ok::<XmlStateView, quick_xml::Error>(s3));
    assert(xml_fold(s2, steps.drop_first().drop_first()) == Ok::<XmlStateView, quick_xml::Error>(s3));
    assert(xml_fold(s1, steps.drop_first()) == Ok::<XmlStateView, quick_xml::Error>(s3));
    assert(xml_fold(s0, steps) == Ok::<XmlStateView, quick_xml::Error>(s3));
}


// ---------------------------------------------------------------------------
// Implementation
// ---------------------------------------------------------------------------

/// Whether the bytes spell the ASCII word `word`.
fn bytes_are(name: &[u8], word: &str) -> (same: bool)
    ensures
        same == is_tag(name@, word@),
{
    let w = chars_of(word);
    if name.len() != w.len() {
        assert(ascii_bytes(word@).len() == w@.len());
        return false;
    }
    let mut i: usize = 0;
    while i < name.len()
        invariant
            i <= name.len(),
            name.len() == w@.len(),
            w@ == word@,
            forall|j: int| 0 <= j < i ==> name@[j] == (w@[j] as u8),
        decreases name.len() - i,
    {
        if name[i] != (w[i] as u8) {
            assert(ascii_bytes(word@)[i as int] != name@[i as int]);
            return false;
        }
        i = i + 1;
    }
    assert(name@ =~= ascii_bytes(word@));
    true
}

/// The value of the first well-formed attribute named `key`, decoded as UTF-8.
fn attribute(tag: &XmlTag, key: &str) -> (value: Option<String>)
    ensures
        opt_view(value) == attr_value(tag.attributes@, key@),
{
    let attrs = &tag.attributes;
    let ghost a = attrs@;
    let mut i: usize = 0;
    assert(a.skip(0) =~= a);
    while i < attrs.len()
        invariant
            i <= attrs@.len(),
            a == attrs@,
            a == tag.attributes@,
            attr_value(a, key@) == attr_value(a.skip(i as int), key@),
        decreases attrs@.len() - i,
    {
        proof {
            assert(a.skip(i as int).drop_first() =~= a.skip(i + 1));
            assert(a.skip(i as int)[0] == a[i as int]);
        }
        if let Some((k, v)) = &attrs[i] {
            if bytes_are(k.as_slice(), key) {
                let bytes = v.as_slice();
                let decoded = utf8_string(bytes);
                proof {
                    assert(a.skip(i as int).len() > 0);
                    assert(a.skip(i as int)[0] == Some((*k, *v)));
                    assert(attr_value(a.skip(i as int), key@) == (if valid_utf8(v@) {
                        Some(decode_utf8(v@))
                    } else {
                        None
                    }));
                    assert(bytes@ == v@);
                    if valid_utf8(v@) {
                        assert(decoded is Some);
                        assert(opt_view(decoded) == Some(decode_utf8(v@)));
                    } else {
                        assert(decoded is None);
                    }
                }
                return decoded;
            }
        }
        i = i + 1;
    }
    None
}

fn attribute_chars(tag: &XmlTag, key: &str) -> (value: Option<Vec<char>>)
    ensures
        match value {
            Some(v) => attr_value(tag.attributes@, key@) == Some(v@),
            None => attr_value(tag.attributes@, key@) is None,
        },
{
    match attribute(tag, key) {
        Some(s) => Some(chars_of(s.as_str())),
        None => None,
    }
}

fn as_slice_opt(v: &Option<Vec<char>>) -> (out: Option<&[char]>)
    ensures
        match out {
            Some(s) => v matches Some(x) && s@ == x@,
            None => v is None,
        },
{
    match v {
        Some(x) => Some(x.as_slice()),
        None => None,
    }
}

/// The ROM row of a `rom` tag, without its game.
fn parse_xml_rom(tag: &XmlTag) -> (rom: Option<DatRom>)
    ensures
        match rom {
            Some(r) => xml_rom(*tag) == Some(r@),
            None => xml_rom(*tag) is None,
        },
{
    match attribute(tag, "name") {
        Some(name) => {
            let size_text = attribute_chars(tag, "size");
            let size = match &size_text {
                Some(v) => parse_u64(v.as_slice()),
                None => None,
            };
            let crc = attribute_chars(tag, "crc");
            let md5 = attribute_chars(tag, "md5");
            let sha1 = attribute_chars(tag, "sha1");
            let status = attribute_chars(tag, "status");
            Some(
                DatRom {
                    game: String::new(),
                    name,
                    size,
                    crc32: normalize_hex(as_slice_opt(&crc)),
                    md5: normalize_hex(as_slice_opt(&md5)),
                    sha1: normalize_hex(as_slice_opt(&sha1)),
                    dump_status: parse_dump_status(as_slice_opt(&status)),
                },
            )
        },
        None => None,
    }
}

struct XmlGame {
    name: String,
    description: Option<String>,
    roms: Vec<DatRom>,
}

impl XmlGame {
    spec fn view(&self) -> XmlGameView {
        XmlGameView { name: self.name@, description: opt_view(self.description), roms: rom_views(self.roms@) }
    }
}

/// The state of reading a Logiqx XML DAT, fed one event at a time.
pub struct XmlDatReader {
    header: DatHeader,
    roms: Vec<DatRom>,
    game: Option<XmlGame>,
    in_header: bool,
    text_field: Option<Vec<u8>>,
}

impl View for XmlDatReader {
    type V = XmlStateView;

    closed spec fn view(&self) -> XmlStateView {
        XmlStateView {
            header: self.header@,
            roms: rom_views(self.roms@),
            game: match self.game {
                Some(g) => Some(g.view()),
                None => None,
            },
            in_header: self.in_header,
            text_field: match self.text_field {
                Some(f) => Some(f@),
                None => None,
            },
        }
    }
}

fn copy_bytes(v: &[u8]) -> (out: Vec<u8>)
    ensures
        out@ == v@,
{
    let mut out: Vec<u8> = Vec::with_capacity(v.len());
    let mut i: usize = 0;
    while i < v.len()
        invariant
            i <= v.len(),
            out@ == v@.take(i as int),
        decreases v.len() - i,
    {
        out.push(v[i]);
        i = i + 1;
        assert(out@ =~= v@.take(i as int));
    }
    assert(v@.take(v.len() as int) =~= v@);
    out
}

fn set_header_field(header: &mut DatHeader, field: &[u8], value: String)
    ensures
        final(header)@ == set_header(old(header)@, field@, value@),
{
    if bytes_are(field, "name") {
        header.name = Some(value);
    } else if bytes_are(field, "description") {
        header.description = Some(value);
    } else if bytes_are(field, "version") {
        header.version = Some(value);
    } else if bytes_are(field, "homepage") {
        header.homepage = Some(value);
    } else if bytes_are(field, "url") {
        header.url = Some(value);
    }
}

fn is_text_field_name(name: &[u8]) -> (b: bool)
    ensures
        b == is_text_field(name@),
{
    bytes_are(name, "name") || bytes_are(name, "description") || bytes_are(name, "version")
        || bytes_are(name, "homepage") || bytes_are(name, "url")
}

impl XmlDatReader {
    /// Nothing read yet.
    pub fn new() -> (r: XmlDatReader)
        ensures
            r@ == initial_state(),
    {
        let r = XmlDatReader {
            header: DatHeader { name: None, description: None, version: None, homepage: None, url: None },
            roms: Vec::new(),
            game: None,
            in_header: false,
            text_field: None,
        };
        assert(rom_views(r.roms@) =~= Seq::<DatRomView>::empty());
        r
    }

    fn add_rom(&mut self, tag: &XmlTag)
        ensures
            final(self)@ == with_rom(old(self)@, *tag),
    {
        let parsed = parse_xml_rom(tag);
        if let Some(rom) = parsed {
            if let Some(game) = &mut self.game {
                let ghost before = game.roms@;
                game.roms.push(rom);
                assert(rom_views(game.roms@) =~= rom_views(before).push(rom@));
            }
        }
    }

    /// Takes one event, as `xml_step` describes; an unresolved text where
    /// text is kept is the error.
    pub fn feed(&mut self, event: XmlEvent) -> (res: Result<(), DatError>)
        ensures
            match xml_step(old(self)@, event) {
                Ok(next) => res is Ok && final(self)@ == next,
                Err(e) => res == Err::<(), DatError>(DatError::Xml(e)),
            },
    {
        match event {
            XmlEvent::Start(tag) => {
                if bytes_are(tag.name.as_slice(), "header") {
                    self.in_header = true;
                } else if bytes_are(tag.name.as_slice(), "game") || bytes_are(tag.name.as_slice(), "machine") {
                    let name = match attribute(&tag, "name") {
                        Some(v) => v,
                        None => String::new(),
                    };
                    let game = XmlGame { name, description: None, roms: Vec::new() };
                    assert(rom_views(game.roms@) =~= Seq::<DatRomView>::empty());
                    self.game = Some(game);
                } else if bytes_are(tag.name.as_slice(), "rom") {
                    self.add_rom(&tag);
                } else if is_text_field_name(tag.name.as_slice()) && (self.in_header || (bytes_are(
                    tag.name.as_slice(),
                    "description",
                ) && self.game.is_some())) {
                    self.text_field = Some(copy_bytes(tag.name.as_slice()));
                }
                Ok(())
            },
            XmlEvent::Empty(tag) => {
                if bytes_are(tag.name.as_slice(), "rom") {
                    self.add_rom(&tag);
                }
                Ok(())
            },
            XmlEvent::Text(text) => {
                match &self.text_field {
                    Some(field) => match text {
                        Ok(value) => {
                            if self.in_header {
                                let f = copy_bytes(field.as_slice());
                                set_header_field(&mut self.header, f.as_slice(), value);
                            } else if bytes_are(field.as_slice(), "description") {
                                if let Some(game) = &mut self.game {
                                    game.description = Some(value);
                                }
                            }
                            Ok(())
                        },
                        Err(e) => Err(DatError::Xml(e)),
                    },
                    None => Ok(()),
                }
            },
            XmlEvent::End(name) => {
                if bytes_are(name.as_slice(), "header") {
                    self.in_header = false;
                    self.text_field = None;
                } else if bytes_are(name.as_slice(), "game") || bytes_are(name.as_slice(), "machine") {
                    let finished = self.game.take();
                    if let Some(g) = finished {
                        self.finish_game(g);
                    }
                } else if is_text_field_name(name.as_slice()) {
                    self.text_field = None;
                }
                Ok(())
            },
            XmlEvent::Eof => Ok(()),
            XmlEvent::Other => Ok(()),
        }
    }

    fn finish_game(&mut self, g: XmlGame)
        requires
            old(self).game is None,
        ensures
            final(self)@ == (XmlStateView { roms: old(self)@.roms + titled(g.view()), ..old(self)@ }),
    {
        let title = match &g.description {
            Some(d) => if !d.as_str().is_empty() {
                d.clone()
            } else {
                g.name.clone()
            },
            None => g.name.clone(),
        };
        let ghost start = rom_views(self.roms@);
        let mut i: usize = 0;
        while i < g.roms.len()
            invariant
                i <= g.roms@.len(),
                title@ == game_title(g.view()),
                rom_views(self.roms@) == start + titled(g.view()).take(i as int),
                self.game is None,
                self.header == old(self).header,
                self.in_header == old(self).in_header,
                self.text_field == old(self).text_field,
            decreases g.roms@.len() - i,
        {
            let r = &g.roms[i];
            let row = DatRom {
                game: title.clone(),
                name: r.name.clone(),
                size: r.size,
                crc32: crate::dat::copy_opt_string(&r.crc32),
                md5: crate::dat::copy_opt_string(&r.md5),
                sha1: crate::dat::copy_opt_string(&r.sha1),
                dump_status: r.dump_status,
            };
            let ghost before = self.roms@;
            self.roms.push(row);
            proof {
                assert(rom_views(self.roms@) =~= rom_views(before).push(row@));
                assert(titled(g.view()).take(i + 1) =~= titled(g.view()).take(i as int).push(
                    titled(g.view())[i as int],
                ));
            }
            i = i + 1;
        }
        assert(titled(g.view()).take(g.roms@.len() as int) =~= titled(g.view()));
    }

    /// The header and ROM rows read so far.
    pub fn finish(self) -> (res: (DatHeader, Vec<DatRom>))
        ensures
            res.0@ == self@.header,
            rom_views(res.1@) == self@.roms,
    {
        (self.header, self.roms)
    }
}

/// Reads a Logiqx XML DAT: its header and ROM rows, in document order, or
/// the first XML error.
pub fn parse_xml(contents: &str) -> (res: Result<(DatHeader, Vec<DatRom>), DatError>)
    ensures
        match xml_dat(xml_events(contents@)) {
            Ok((h, r)) => res matches Ok(v) && v.0@ == h && rom_views(v.1@) == r,
            Err(e) => res == Err::<(DatHeader, Vec<DatRom>), DatError>(DatError::Xml(e)),
        },
{
    let mut reader = xml_reader(contents);
    let ghost steps = xml_events(contents@);
    let mut builder = XmlDatReader::new();
    let ghost mut i: int = 0;
    assert(steps.skip(0) =~= steps);
    loop
        invariant
            0 <= i < steps.len(),
            well_ended(steps),
            steps == xml_events(contents@),
            xml_pending(reader) == steps.skip(i),
            xml_fold(initial_state(), steps) == xml_fold(builder@, steps.skip(i)),
        decreases steps.len() - i,
    {
        let step = xml_next(&mut reader);
        proof {
            assert(steps.skip(i)[0] == steps[i]);
            assert(steps.skip(i).drop_first() =~= steps.skip(i + 1));
        }
        match step {
            Err(e) => {
                return Err(DatError::Xml(e));
            },
            Ok(XmlEvent::Eof) => {
                return Ok(builder.finish());
            },
            Ok(ev) => {
                proof {
                    if i == steps.len() - 1 {
                        assert(is_last_step(steps.last()));
                    }
                }
                let fed = builder.feed(ev);
                if let Err(e) = fed {
                    return Err(e);
                }
                proof {
                    i = i + 1;
                }
            },
        }
    }
}

} // verus!
