//! The ClrMamePro text DAT format: a token stream of words (bare or
//! double-quoted with backslash escapes) and parentheses, read as nested
//! `name ( key value ... child ( ... ) )` nodes.

use vstd::prelude::*;
use crate::dat::{
    DatHeader, DatHeaderView, DatRom, DatRomView, clean_hex, dump_status_of, lemma_normalized_hex_clean, normalize_hex,
    normalized_hex, opt_view, parse_dump_status, parse_u64, parsed_size, rom_views,
};
use crate::text::{
    chars_eq_fold, chars_of, eq_fold, is_white_space, lower_chars, lower_seq, string_of, white_space,
};

verus! {

// ---------------------------------------------------------------------------
// Tokens
// ---------------------------------------------------------------------------

pub enum Token {
    Word(Vec<char>),
    Open,
    Close,
}

pub enum TokenView {
    Word(Seq<char>),
    Open,
    Close,
}

impl View for Token {
    type V = TokenView;

    open spec fn view(&self) -> TokenView {
        match self {
            Token::Word(w) => TokenView::Word(w@),
            Token::Open => TokenView::Open,
            Token::Close => TokenView::Close,
        }
    }
}

pub open spec fn token_views(toks: Seq<Token>) -> Seq<TokenView> {
    toks.map_values(|t: Token| t@)
}

/// What the tokenizer is in the middle of.
pub enum LexMode {
    Normal,
    /// Inside a double-quoted word; `escaped` after a backslash.
    Quote { buf: Seq<char>, escaped: bool },
    /// Inside a bare word.
    Bare { buf: Seq<char> },
}

pub struct LexState {
    pub tokens: Seq<TokenView>,
    pub mode: LexMode,
}

/// A character that ends a bare word.
pub open spec fn ends_bare(c: char) -> bool {
    is_white_space(c) || c == '(' || c == ')'
}

/// One character read outside any word.
pub open spec fn normal_step(tokens: Seq<TokenView>, c: char) -> LexState {
    if c == '(' {
        LexState { tokens: tokens.push(TokenView::Open), mode: LexMode::Normal }
    } else if c == ')' {
        LexState { tokens: tokens.push(TokenView::Close), mode: LexMode::Normal }
    } else if c == '"' {
        LexState { tokens, mode: LexMode::Quote { buf: Seq::empty(), escaped: false } }
    } else if is_white_space(c) {
        LexState { tokens, mode: LexMode::Normal }
    } else {
        LexState { tokens, mode: LexMode::Bare { buf: seq![c] } }
    }
}

/// One character of input.
pub open spec fn lex_step(st: LexState, c: char) -> LexState {
    match st.mode {
        LexMode::Normal => normal_step(st.tokens, c),
        LexMode::Quote { buf, escaped } => if escaped {
            LexState { tokens: st.tokens, mode: LexMode::Quote { buf: buf.push(c), escaped: false } }
        } else if c == '"' {
            LexState { tokens: st.tokens.push(TokenView::Word(buf)), mode: LexMode::Normal }
        } else if c == '\\' {
            LexState { tokens: st.tokens, mode: LexMode::Quote { buf, escaped: true } }
        } else {
            LexState { tokens: st.tokens, mode: LexMode::Quote { buf: buf.push(c), escaped: false } }
        },
        LexMode::Bare { buf } => if ends_bare(c) {
            normal_step(st.tokens.push(TokenView::Word(buf)), c)
        } else {
            LexState { tokens: st.tokens, mode: LexMode::Bare { buf: buf.push(c) } }
        },
    }
}

pub open spec fn lex_state(s: Seq<char>) -> LexState
    decreases s.len(),
{
    if s.len() == 0 {
        LexState { tokens: Seq::empty(), mode: LexMode::Normal }
    } else {
        lex_step(lex_state(s.drop_last()), s.last())
    }
}

/// At the end of input a word in progress (even an unterminated quote) is kept.
pub open spec fn lex_finish(st: LexState) -> Seq<TokenView> {
    match st.mode {
        LexMode::Normal => st.tokens,
        LexMode::Quote { buf, escaped } => st.tokens.push(TokenView::Word(buf)),
        LexMode::Bare { buf } => st.tokens.push(TokenView::Word(buf)),
    }
}

/// The tokens of a ClrMamePro text.
pub open spec fn tokens_of(s: Seq<char>) -> Seq<TokenView> {
    lex_finish(lex_state(s))
}

#[derive(PartialEq, Eq, Structural)]
enum Kind {
    Normal,
    Quote,
    Bare,
}

spec fn mode_of(kind: Kind, buf: Seq<char>, escaped: bool) -> LexMode {
    match kind {
        Kind::Normal => LexMode::Normal,
        Kind::Quote => LexMode::Quote { buf, escaped },
        Kind::Bare => LexMode::Bare { buf },
    }
}

/// Splits a ClrMamePro text into tokens.
pub fn tokenize(input: &[char]) -> (tokens: Vec<Token>)
    ensures
        token_views(tokens@) == tokens_of(input@),
{
    let mut tokens: Vec<Token> = Vec::new();
    let mut kind = Kind::Normal;
    let mut buf: Vec<char> = Vec::new();
    let mut escaped = false;
    let mut i: usize = 0;
    proof {
        assert(input@.take(0) =~= Seq::<char>::empty());
        assert(token_views(tokens@) =~= Seq::<TokenView>::empty());
    }
    while i < input.len()
        invariant
            i <= input.len(),
            lex_state(input@.take(i as int)) == (LexState {
                tokens: token_views(tokens@),
                mode: mode_of(kind, buf@, escaped),
            }),
            kind == Kind::Normal ==> buf@ == Seq::<char>::empty() && !escaped,
            kind == Kind::Bare ==> !escaped,
        decreases input.len() - i,
    {
        let c = input[i];
        let ghost before = lex_state(input@.take(i as int));
        proof {
            assert(input@.take(i + 1).drop_last() =~= input@.take(i as int));
            assert(input@.take(i + 1).last() == c);
        }
        if kind == Kind::Bare && (white_space(c) || c == '(' || c == ')') {
            let word = buf;
            buf = Vec::new();
            tokens.push(Token::Word(word));
            kind = Kind::Normal;
            assert(token_views(tokens@) =~= before.tokens.push(TokenView::Word(word@)));
        }
        if kind == Kind::Normal {
            if c == '(' {
                tokens.push(Token::Open);
            } else if c == ')' {
                tokens.push(Token::Close);
            } else if c == '"' {
                kind = Kind::Quote;
            } else if white_space(c) {
            } else {
                buf.push(c);
                kind = Kind::Bare;
            }
        } else if kind == Kind::Quote {
            if escaped {
                buf.push(c);
                escaped = false;
            } else if c == '"' {
                let word = buf;
                buf = Vec::new();
                tokens.push(Token::Word(word));
                kind = Kind::Normal;
            } else if c == '\\' {
                escaped = true;
            } else {
                buf.push(c);
            }
        } else {
            buf.push(c);
        }
        proof {
            assert(token_views(tokens@) =~= lex_state(input@.take(i + 1)).tokens);
            assert(buf@ =~= buf@);
        }
        i = i + 1;
    }
    assert(input@.take(input.len() as int) =~= input@);
    if kind != Kind::Normal {
        tokens.push(Token::Word(buf));
    }
    proof {
        assert(token_views(tokens@) =~= tokens_of(input@));
    }
    tokens
}


// ---------------------------------------------------------------------------
// Nodes
// ---------------------------------------------------------------------------

/// What one node body holds: its `key value` fields (keys ASCII lower-cased),
/// its child nodes as (name, index where the child's body starts), and the
/// index just past the body's closing parenthesis (or the end of input).
pub struct BodyView {
    pub fields: Seq<(Seq<char>, Seq<char>)>,
    pub children: Seq<(Seq<char>, int)>,
    pub end: int,
}

/// `e` when it lies in `lo..=hi`, else `hi`. Bodies always end in range
/// (`lemma_body_end`), so this only makes the recursion visibly decrease.
pub open spec fn clamp_end(e: int, lo: int, hi: int) -> int {
    if lo <= e && e <= hi {
        e
    } else {
        hi
    }
}

/// The body of a node whose opening parenthesis precedes index `i`.
pub open spec fn body(toks: Seq<TokenView>, i: int) -> BodyView
    decreases toks.len() - i,
{
    if i < 0 || i >= toks.len() {
        BodyView { fields: Seq::empty(), children: Seq::empty(), end: i }
    } else {
        match toks[i] {
            TokenView::Close => BodyView { fields: Seq::empty(), children: Seq::empty(), end: i + 1 },
            TokenView::Word(key) => if i + 1 < toks.len() {
                match toks[i + 1] {
                    TokenView::Open => {
                        let child = body(toks, i + 2);
                        let rest = body(toks, clamp_end(child.end, i + 2, toks.len() as int));
                        BodyView {
                            fields: rest.fields,
                            children: seq![(key, i + 2)] + rest.children,
                            end: rest.end,
                        }
                    },
                    TokenView::Word(value) => {
                        let rest = body(toks, i + 2);
                        BodyView {
                            fields: seq![(lower_seq(key), value)] + rest.fields,
                            children: rest.children,
                            end: rest.end,
                        }
                    },
                    TokenView::Close => body(toks, i + 1),
                }
            } else {
                body(toks, i + 1)
            },
            TokenView::Open => body(toks, i + 1),
        }
    }
}

/// The top-level nodes from index `i` on, as (name, body start). A word
/// directly followed by `(` opens a node; any other token is skipped.
pub open spec fn top_nodes(toks: Seq<TokenView>, i: int) -> Seq<(Seq<char>, int)>
    decreases toks.len() - i,
{
    if i < 0 || i + 1 >= toks.len() {
        Seq::empty()
    } else {
        match toks[i] {
            TokenView::Word(name) => if toks[i + 1] is Open {
                let e = clamp_end(body(toks, i + 2).end, i + 2, toks.len() as int);
                seq![(name, i + 2)] + top_nodes(toks, e)
            } else {
                top_nodes(toks, i + 1)
            },
            _ => top_nodes(toks, i + 1),
        }
    }
}

pub proof fn lemma_body_end(toks: Seq<TokenView>, i: int)
    requires
        0 <= i <= toks.len(),
    ensures
        i <= body(toks, i).end <= toks.len(),
        i < toks.len() ==> i < body(toks, i).end,
    decreases toks.len() - i,
{
    if i < toks.len() {
        match toks[i] {
            TokenView::Close => {},
            TokenView::Word(key) => {
                if i + 1 < toks.len() {
                    match toks[i + 1] {
                        TokenView::Open => {
                            lemma_body_end(toks, i + 2);
                            let child = body(toks, i + 2);
                            lemma_body_end(toks, child.end);
                        },
                        TokenView::Word(value) => {
                            lemma_body_end(toks, i + 2);
                        },
                        TokenView::Close => {
                            lemma_body_end(toks, i + 1);
                        },
                    }
                } else {
                    lemma_body_end(toks, i + 1);
                }
            },
            TokenView::Open => {
                lemma_body_end(toks, i + 1);
            },
        }
    }
}

pub struct ChildNode {
    pub name: Vec<char>,
    pub fields: Vec<(Vec<char>, Vec<char>)>,
}

/// A top-level node: its name, its fields and its direct children. Deeper
/// nodes are read through but not kept; no DAT rule looks at them.
pub struct Node {
    pub name: Vec<char>,
    pub fields: Vec<(Vec<char>, Vec<char>)>,
    pub children: Vec<ChildNode>,
}

pub open spec fn field_views(fields: Seq<(Vec<char>, Vec<char>)>) -> Seq<(Seq<char>, Seq<char>)> {
    fields.map_values(|f: (Vec<char>, Vec<char>)| (f.0@, f.1@))
}

/// The children agree with a body's child list.
pub open spec fn children_agree(
    toks: Seq<TokenView>,
    children: Seq<ChildNode>,
    model: Seq<(Seq<char>, int)>,
) -> bool {
    &&& children.len() == model.len()
    &&& forall|k: int|
        0 <= k < children.len() ==> {
            &&& (#[trigger] children[k]).name@ == model[k].0
            &&& field_views(children[k].fields@) == body(toks, model[k].1).fields
        }
}

fn copy_chars(v: &Vec<char>) -> (out: Vec<char>)
    ensures
        out@ == v@,
{
    let mut out: Vec<char> = Vec::with_capacity(v.len());
    let mut i: usize = 0;
    while i < v.len()
        invariant
            i <= v.len(),
            out@ == v@.take(i as int),
        decreases v.len() - i,
    {
        out.push(v[i]);
        i = i + 1;
        assert(out@ =~= v@.take(i as int));
    }
    assert(v@.take(v.len() as int) =~= v@);
    out
}

/// Reads a node body starting at token `start`: its fields, its direct
/// children (with their fields) and the index after its closing parenthesis.
fn parse_body(toks: &Vec<Token>, start: usize) -> (res: (
    Vec<(Vec<char>, Vec<char>)>,
    Vec<ChildNode>,
    usize,
))
    requires
        start <= toks@.len(),
    ensures
        field_views(res.0@) == body(token_views(toks@), start as int).fields,
        children_agree(token_views(toks@), res.1@, body(token_views(toks@), start as int).children),
        res.2 == body(token_views(toks@), start as int).end,
    decreases toks@.len() - start,
{
    let ghost tv = token_views(toks@);
    let ghost whole = body(tv, start as int);
    let mut fields: Vec<(Vec<char>, Vec<char>)> = Vec::new();
    let mut children: Vec<ChildNode> = Vec::new();
    let ghost mut kids: Seq<(Seq<char>, int)> = Seq::empty();
    let mut i: usize = start;
    let mut done = false;
    while !done && i < toks.len()
        invariant
            start <= i <= toks@.len(),
            tv == token_views(toks@),
            whole == body(tv, start as int),
            children_agree(tv, children@, kids),
            !done ==> {
                &&& whole.fields == field_views(fields@) + body(tv, i as int).fields
                &&& whole.children == kids + body(tv, i as int).children
                &&& whole.end == body(tv, i as int).end
            },
            done ==> {
                &&& whole.fields == field_views(fields@)
                &&& whole.children == kids
                &&& whole.end == i
            },
        decreases toks@.len() - i,
    {
        proof {
            lemma_body_end(tv, i as int);
        }
        match &toks[i] {
            Token::Close => {
                i = i + 1;
                done = true;
                assert(field_views(fields@) + Seq::empty() =~= field_views(fields@));
                assert(kids + Seq::empty() =~= kids);
            },
            Token::Word(key) => {
                if i + 1 < toks.len() {
                    match &toks[i + 1] {
                        Token::Open => {
                            proof {
                                lemma_body_end(tv, i + 2);
                            }
                            let (child_fields, _grandchildren, e) = parse_body(toks, i + 2);
                            let ghost before = children@;
                            children.push(ChildNode { name: copy_chars(key), fields: child_fields });
                            proof {
                                let old_kids = kids;
                                kids = kids.push((key@, i + 2));
                                assert(kids + body(tv, e as int).children =~= old_kids + (seq![
                                    (key@, i + 2),
                                ] + body(tv, e as int).children));
                                assert forall|k: int| 0 <= k < children@.len() implies {
                                    &&& (#[trigger] children@[k]).name@ == kids[k].0
                                    &&& field_views(children@[k].fields@) == body(tv, kids[k].1).fields
                                } by {
                                    if k < before.len() {
                                        assert(children@[k] == before[k]);
                                    }
                                }
                            }
                            i = e;
                        },
                        Token::Word(value) => {
                            let ghost before = fields@;
                            fields.push((lower_chars(key.as_slice()), copy_chars(value)));
                            proof {
                                assert(field_views(fields@) =~= field_views(before).push(
                                    (lower_seq(key@), value@),
                                ));
                                assert(field_views(fields@) + body(tv, i + 2).fields =~= field_views(
                                    before,
                                ) + (seq![(lower_seq(key@), value@)] + body(tv, i + 2).fields));
                            }
                            i = i + 2;
                        },
                        Token::Close => {
                            i = i + 1;
                        },
                    }
                } else {
                    i = i + 1;
                }
            },
            Token::Open => {
                i = i + 1;
            },
        }
    }
    proof {
        if !done {
            assert(field_views(fields@) + Seq::empty() =~= field_views(fields@));
            assert(kids + Seq::empty() =~= kids);
        }
    }
    (fields, children, i)
}


/// The top-level nodes agree with the model's node list.
pub open spec fn nodes_agree(toks: Seq<TokenView>, nodes: Seq<Node>, model: Seq<(Seq<char>, int)>) -> bool {
    &&& nodes.len() == model.len()
    &&& forall|k: int|
        0 <= k < nodes.len() ==> {
            let b = body(toks, model[k].1);
            &&& (#[trigger] nodes[k]).name@ == model[k].0
            &&& field_views(nodes[k].fields@) == b.fields
            &&& children_agree(toks, nodes[k].children@, b.children)
        }
}

/// Reads the top-level nodes of a token stream.
pub fn parse_nodes(toks: &Vec<Token>) -> (nodes: Vec<Node>)
    ensures
        nodes_agree(token_views(toks@), nodes@, top_nodes(token_views(toks@), 0)),
{
    let ghost tv = token_views(toks@);
    let mut nodes: Vec<Node> = Vec::new();
    let ghost mut seen: Seq<(Seq<char>, int)> = Seq::empty();
    let mut i: usize = 0;
    while i < toks.len() && i + 1 < toks.len()
        invariant
            i <= toks@.len(),
            tv == token_views(toks@),
            nodes_agree(tv, nodes@, seen),
            top_nodes(tv, 0) == seen + top_nodes(tv, i as int),
        decreases toks@.len() - i,
    {
        let mut opened = false;
        if let Token::Word(name) = &toks[i] {
            if let Token::Open = &toks[i + 1] {
                opened = true;
                proof {
                    lemma_body_end(tv, i + 2);
                }
                let (fields, children, e) = parse_body(toks, i + 2);
                let ghost before = nodes@;
                nodes.push(Node { name: copy_chars(name), fields, children });
                proof {
                    let old_seen = seen;
                    seen = seen.push((name@, i + 2));
                    assert(seen + top_nodes(tv, e as int) =~= old_seen + (seq![(name@, i + 2)]
                        + top_nodes(tv, e as int)));
                    assert forall|k: int| 0 <= k < nodes@.len() implies {
                        let b = body(tv, seen[k].1);
                        &&& (#[trigger] nodes@[k]).name@ == seen[k].0
                        &&& field_views(nodes@[k].fields@) == b.fields
                        &&& children_agree(tv, nodes@[k].children@, b.children)
                    } by {
                        if k < before.len() {
                            assert(nodes@[k] == before[k]);
                        }
                    }
                }
                i = e;
            }
        }
        if !opened {
            i = i + 1;
        }
    }
    assert(seen + Seq::empty() =~= seen);
    nodes
}

/// The value of the first field whose key equals `key` up to ASCII case.
pub open spec fn field_value(fields: Seq<(Seq<char>, Seq<char>)>, key: Seq<char>) -> Option<Seq<char>>
    decreases fields.len(),
{
    if fields.len() == 0 {
        None
    } else if eq_fold(fields[0].0, key) {
        Some(fields[0].1)
    } else {
        field_value(fields.drop_first(), key)
    }
}

/// The index of the first field whose key equals `key` up to ASCII case.
fn field_index(fields: &Vec<(Vec<char>, Vec<char>)>, key: &str) -> (found: Option<usize>)
    ensures
        match found {
            Some(i) => i < fields@.len() && field_value(field_views(fields@), key@) == Some(
                fields@[i as int].1@,
            ),
            None => field_value(field_views(fields@), key@) is None,
        },
{
    let ghost fv = field_views(fields@);
    let key_chars = chars_of(key);
    let mut i: usize = 0;
    assert(fv.skip(0) =~= fv);
    while i < fields.len()
        invariant
            i <= fields@.len(),
            fv == field_views(fields@),
            key_chars@ == key@,
            field_value(fv, key@) == field_value(fv.skip(i as int), key@),
        decreases fields@.len() - i,
    {
        proof {
            assert(fv.skip(i as int).drop_first() =~= fv.skip(i + 1));
            assert(fv.skip(i as int)[0] == fv[i as int]);
        }
        if chars_eq_fold(fields[i].0.as_slice(), key_chars.as_slice()) {
            return Some(i);
        }
        i = i + 1;
    }
    None
}

/// The value of the first field named `key` (ASCII case ignored).
fn field<'a>(fields: &'a Vec<(Vec<char>, Vec<char>)>, key: &str) -> (value: Option<&'a [char]>)
    ensures
        match value {
            Some(v) => field_value(field_views(fields@), key@) == Some(v@),
            None => field_value(field_views(fields@), key@) is None,
        },
{
    match field_index(fields, key) {
        Some(i) => Some(fields[i].1.as_slice()),
        None => None,
    }
}

pub open spec fn opt_seq(o: Option<&[char]>) -> Option<Seq<char>> {
    match o {
        Some(v) => Some(v@),
        None => None,
    }
}

fn opt_string(value: Option<&[char]>) -> (out: Option<String>)
    ensures
        opt_view(out) == opt_seq(value),
{
    match value {
        Some(v) => Some(string_of(v)),
        None => None,
    }
}

/// The header a `clrmamepro ( .. )` node describes.
pub open spec fn node_header(fields: Seq<(Seq<char>, Seq<char>)>) -> DatHeaderView {
    DatHeaderView {
        name: field_value(fields, "name"@),
        description: field_value(fields, "description"@),
        version: field_value(fields, "version"@),
        homepage: field_value(fields, "homepage"@),
        url: field_value(fields, "url"@),
    }
}

/// A game's display title: its description, else its name, else empty.
pub open spec fn game_title(fields: Seq<(Seq<char>, Seq<char>)>) -> Seq<char> {
    match field_value(fields, "description"@) {
        Some(d) => d,
        None => match field_value(fields, "name"@) {
            Some(n) => n,
            None => Seq::empty(),
        },
    }
}

/// The ROM row a `rom ( .. )` node gives, when it has a name.
pub open spec fn node_rom(title: Seq<char>, fields: Seq<(Seq<char>, Seq<char>)>) -> Option<DatRomView> {
    match field_value(fields, "name"@) {
        Some(name) => Some(
            DatRomView {
                game: title,
                name,
                size: parsed_size(field_value(fields, "size"@)),
                crc32: normalized_hex(field_value(fields, "crc"@)),
                md5: normalized_hex(field_value(fields, "md5"@)),
                sha1: normalized_hex(field_value(fields, "sha1"@)),
                dump_status: dump_status_of(field_value(fields, "status"@)),
            },
        ),
        None => None,
    }
}

/// The ROM rows of a game node's children.
pub open spec fn game_roms(
    toks: Seq<TokenView>,
    title: Seq<char>,
    children: Seq<(Seq<char>, int)>,
) -> Seq<DatRomView>
    decreases children.len(),
{
    if children.len() == 0 {
        Seq::empty()
    } else {
        let prev = game_roms(toks, title, children.drop_last());
        let (name, start) = children.last();
        if eq_fold(name, "rom"@) && node_rom(title, body(toks, start).fields) is Some {
            prev.push(node_rom(title, body(toks, start).fields)->0)
        } else {
            prev
        }
    }
}

pub open spec fn empty_header() -> DatHeaderView {
    DatHeaderView { name: None, description: None, version: None, homepage: None, url: None }
}

/// Header and ROM rows from the top-level nodes: a `clrmamepro` node sets the
/// header; `game` and `machine` nodes contribute their `rom` children.
pub open spec fn nodes_dat(toks: Seq<TokenView>, nodes: Seq<(Seq<char>, int)>) -> (DatHeaderView, Seq<DatRomView>)
    decreases nodes.len(),
{
    if nodes.len() == 0 {
        (empty_header(), Seq::empty())
    } else {
        let (header, roms) = nodes_dat(toks, nodes.drop_last());
        let (name, start) = nodes.last();
        let b = body(toks, start);
        if eq_fold(name, "clrmamepro"@) {
            (node_header(b.fields), roms)
        } else if eq_fold(name, "game"@) || eq_fold(name, "machine"@) {
            (header, roms + game_roms(toks, game_title(b.fields), b.children))
        } else {
            (header, roms)
        }
    }
}

/// The header and ROM rows of a ClrMamePro text DAT.
pub open spec fn clrmamepro_dat(s: Seq<char>) -> (DatHeaderView, Seq<DatRomView>) {
    nodes_dat(tokens_of(s), top_nodes(tokens_of(s), 0))
}

/// Each hash a ROM row lists is clean.
pub open spec fn hashes_clean(r: DatRomView) -> bool {
    &&& (r.crc32 matches Some(h) ==> clean_hex(h))
    &&& (r.md5 matches Some(h) ==> clean_hex(h))
    &&& (r.sha1 matches Some(h) ==> clean_hex(h))
}

proof fn lemma_game_roms_clean(toks: Seq<TokenView>, title: Seq<char>, children: Seq<(Seq<char>, int)>)
    ensures
        forall|i: int| 0 <= i < game_roms(toks, title, children).len() ==> hashes_clean(
            #[trigger] game_roms(toks, title, children)[i],
        ),
    decreases children.len(),
{
    if children.len() > 0 {
        lemma_game_roms_clean(toks, title, children.drop_last());
        let (name, start) = children.last();
        let fields = body(toks, start).fields;
        lemma_normalized_hex_clean(field_value(fields, "crc"@));
        lemma_normalized_hex_clean(field_value(fields, "md5"@));
        lemma_normalized_hex_clean(field_value(fields, "sha1"@));
        let prev = game_roms(toks, title, children.drop_last());
        if eq_fold(name, "rom"@) && node_rom(title, fields) is Some {
            let r = node_rom(title, fields)->0;
            assert(hashes_clean(r));
            assert forall|i: int| 0 <= i < prev.push(r).len() implies hashes_clean(#[trigger] prev.push(r)[i]) by {
                if i < prev.len() {
                    assert(prev.push(r)[i] == prev[i]);
                }
            }
        }
    }
}

proof fn lemma_nodes_dat_clean(toks: Seq<TokenView>, nodes: Seq<(Seq<char>, int)>)
    ensures
        forall|i: int| 0 <= i < nodes_dat(toks, nodes).1.len() ==> hashes_clean(#[trigger] nodes_dat(toks, nodes).1[i]),
    decreases nodes.len(),
{
    if nodes.len() > 0 {
        lemma_nodes_dat_clean(toks, nodes.drop_last());
        let (name, start) = nodes.last();
        let b = body(toks, start);
        let prev = nodes_dat(toks, nodes.drop_last()).1;
        lemma_game_roms_clean(toks, game_title(b.fields), b.children);
        let more = game_roms(toks, game_title(b.fields), b.children);
        assert forall|i: int| 0 <= i < (prev + more).len() implies hashes_clean(#[trigger] (prev + more)[i]) by {
            if i >= prev.len() {
                assert((prev + more)[i] == more[i - prev.len()]);
            }
        }
    }
}

/// Every hash a ClrMamePro DAT's ROM rows list is clean: not empty, trimmed
/// and in ASCII lower case.
pub proof fn law_clrmamepro_hashes_clean(contents: Seq<char>, i: int)
    requires
        0 <= i < clrmamepro_dat(contents).1.len(),
    ensures
        hashes_clean(clrmamepro_dat(contents).1[i]),
{
    lemma_nodes_dat_clean(tokens_of(contents), top_nodes(tokens_of(contents), 0));
}

/// The game title and name of each `rom ( .. )` child that has a name, in
/// order.
pub open spec fn named_rom_children(
    toks: Seq<TokenView>,
    title: Seq<char>,
    children: Seq<(Seq<char>, int)>,
) -> Seq<(Seq<char>, Seq<char>)>
    decreases children.len(),
{
    if children.len() == 0 {
        Seq::empty()
    } else {
        let prev = named_rom_children(toks, title, children.drop_last());
        let (name, start) = children.last();
        if eq_fold(name, "rom"@) {
            match field_value(body(toks, start).fields, "name"@) {
                Some(n) => prev.push((title, n)),
                None => prev,
            }
        } else {
            prev
        }
    }
}

/// The game title and name of every named `rom` child of every `game` or
/// `machine` node, in file order.
pub open spec fn named_roms_of(toks: Seq<TokenView>, nodes: Seq<(Seq<char>, int)>) -> Seq<(Seq<char>, Seq<char>)>
    decreases nodes.len(),
{
    if nodes.len() == 0 {
        Seq::empty()
    } else {
        let prev = named_roms_of(toks, nodes.drop_last());
        let (name, start) = nodes.last();
        let b = body(toks, start);
        if eq_fold(name, "game"@) || eq_fold(name, "machine"@) {
            prev + named_rom_children(toks, game_title(b.fields), b.children)
        } else {
            prev
        }
    }
}

/// The title and name of each row.
pub open spec fn row_names(rows: Seq<DatRomView>) -> Seq<(Seq<char>, Seq<char>)> {
    rows.map_values(|r: DatRomView| (r.game, r.name))
}

proof fn lemma_game_rom_names(toks: Seq<TokenView>, title: Seq<char>, children: Seq<(Seq<char>, int)>)
    ensures
        row_names(game_roms(toks, title, children)) == named_rom_children(toks, title, children),
    decreases children.len(),
{
    if children.len() > 0 {
        lemma_game_rom_names(toks, title, children.drop_last());
        let prev = game_roms(toks, title, children.drop_last());
        let (name, start) = children.last();
        let fields = body(toks, start).fields;
        if eq_fold(name, "rom"@) && node_rom(title, fields) is Some {
            let r = node_rom(title, fields)->0;
            assert(row_names(prev.push(r)) =~= row_names(prev).push((r.game, r.name)));
        }
    }
}

proof fn lemma_nodes_rom_names(toks: Seq<TokenView>, nodes: Seq<(Seq<char>, int)>)
    ensures
        row_names(nodes_dat(toks, nodes).1) == named_roms_of(toks, nodes),
    decreases nodes.len(),
{
    if nodes.len() > 0 {
        lemma_nodes_rom_names(toks, nodes.drop_last());
        let (name, start) = nodes.last();
        let b = body(toks, start);
        let prev = nodes_dat(toks, nodes.drop_last()).1;
        lemma_game_rom_names(toks, game_title(b.fields), b.children);
        let more = game_roms(toks, game_title(b.fields), b.children);
        assert(row_names(prev + more) =~= row_names(prev) + row_names(more));
        if eq_fold(name, "clrmamepro"@) {
            assert(!(eq_fold(name, "game"@) || eq_fold(name, "machine"@))) by {
                reveal_strlit("clrmamepro");
                reveal_strlit("game");
                reveal_strlit("machine");
                assert(lower_seq("clrmamepro"@).len() == 10);
                assert(lower_seq("game"@).len() == 4);
                assert(lower_seq("machine"@).len() == 7);
            }
        }
    }
}

/// A ClrMamePro DAT has one ROM row for every `rom ( .. )` child with a name
/// of every `game` or `machine` node, in file order, each carrying its
/// game's title and the rom's name: a game contributes exactly as many rows
/// as it has named rom children.
pub proof fn law_clrmamepro_one_row_per_rom(contents: Seq<char>)
    ensures
        row_names(clrmamepro_dat(contents).1) == named_roms_of(
            tokens_of(contents),
            top_nodes(tokens_of(contents), 0),
        ),
{
    lemma_nodes_rom_names(tokens_of(contents), top_nodes(tokens_of(contents), 0));
}

/// A `rom ( .. )` node gives a row exactly when it has a `name` field, and
/// then each field comes from the field of its own key: the CRC32 from
/// `crc`, the MD5 from `md5`, the SHA1 from `sha1` (each trimmed and
/// lower-cased), the size from `size` and the dump status from `status`.
pub proof fn law_clrmamepro_rom_fields(title: Seq<char>, fields: Seq<(Seq<char>, Seq<char>)>)
    ensures
        node_rom(title, fields) is Some <==> field_value(fields, "name"@) is Some,
        node_rom(title, fields) matches Some(r) ==> {
            &&& Some(r.name) == field_value(fields, "name"@)
            &&& r.game == title
            &&& r.size == parsed_size(field_value(fields, "size"@))
            &&& r.crc32 == normalized_hex(field_value(fields, "crc"@))
            &&& r.md5 == normalized_hex(field_value(fields, "md5"@))
            &&& r.sha1 == normalized_hex(field_value(fields, "sha1"@))
            &&& r.dump_status == dump_status_of(field_value(fields, "status"@))
        },
{
}

fn names_are(name: &Vec<char>, word: &str) -> (b: bool)
    ensures
        b == eq_fold(name@, word@),
{
    let w = chars_of(word);
    chars_eq_fold(name.as_slice(), w.as_slice())
}

fn rom_from_fields(title: &Vec<char>, fields: &Vec<(Vec<char>, Vec<char>)>) -> (rom: Option<DatRom>)
    ensures
        match rom {
            Some(r) => node_rom(title@, field_views(fields@)) == Some(r@),
            None => node_rom(title@, field_views(fields@)) is None,
        },
{
    match field(fields, "name") {
        Some(name) => {
            let size = match field(fields, "size") {
                Some(v) => parse_u64(v),
                None => None,
            };
            Some(
                DatRom {
                    game: string_of(title.as_slice()),
                    name: string_of(name),
                    size,
                    crc32: normalize_hex(field(fields, "crc")),
                    md5: normalize_hex(field(fields, "md5")),
                    sha1: normalize_hex(field(fields, "sha1")),
                    dump_status: parse_dump_status(field(fields, "status")),
                },
            )
        },
        None => None,
    }
}

fn title_of(fields: &Vec<(Vec<char>, Vec<char>)>) -> (title: Vec<char>)
    ensures
        title@ == game_title(field_views(fields@)),
{
    match field(fields, "description") {
        Some(d) => copy_slice(d),
        None => match field(fields, "name") {
            Some(n) => copy_slice(n),
            None => Vec::new(),
        },
    }
}

fn copy_slice(v: &[char]) -> (out: Vec<char>)
    ensures
        out@ == v@,
{
    let mut out: Vec<char> = Vec::with_capacity(v.len());
    let mut i: usize = 0;
    while i < v.len()
        invariant
            i <= v.len(),
            out@ == v@.take(i as int),
        decreases v.len() - i,
    {
        out.push(v[i]);
        i = i + 1;
        assert(out@ =~= v@.take(i as int));
    }
    assert(v@.take(v.len() as int) =~= v@);
    out
}

/// Reads a ClrMamePro text DAT: its header and its ROM rows in file order.
pub fn parse_clrmamepro(contents: &str) -> (res: (DatHeader, Vec<DatRom>))
    ensures
        res.0@ == clrmamepro_dat(contents@).0,
        rom_views(res.1@) == clrmamepro_dat(contents@).1,
{
    let chars = chars_of(contents);
    let toks = tokenize(chars.as_slice());
    let ghost tv = token_views(toks@);
    let nodes = parse_nodes(&toks);
    let ghost model = top_nodes(tv, 0);
    let mut header = DatHeader { name: None, description: None, version: None, homepage: None, url: None };
    let mut roms: Vec<DatRom> = Vec::new();
    let mut n: usize = 0;
    proof {
        assert(model.take(0) =~= Seq::<(Seq<char>, int)>::empty());
        assert(rom_views(roms@) =~= Seq::<DatRomView>::empty());
    }
    while n < nodes.len()
        invariant
            n <= nodes@.len(),
            tv == token_views(toks@),
            tv == tokens_of(contents@),
            model == top_nodes(tv, 0),
            nodes_agree(tv, nodes@, model),
            header@ == nodes_dat(tv, model.take(n as int)).0,
            rom_views(roms@) == nodes_dat(tv, model.take(n as int)).1,
        decreases nodes@.len() - n,
    {
        let node = &nodes[n];
        let ghost b = body(tv, model[n as int].1);
        proof {
            assert(model.take(n + 1).drop_last() =~= model.take(n as int));
            assert(model.take(n + 1).last() == model[n as int]);
        }
        if names_are(&node.name, "clrmamepro") {
            header = DatHeader {
                name: opt_string(field(&node.fields, "name")),
                description: opt_string(field(&node.fields, "description")),
                version: opt_string(field(&node.fields, "version")),
                homepage: opt_string(field(&node.fields, "homepage")),
                url: opt_string(field(&node.fields, "url")),
            };
        } else if names_are(&node.name, "game") || names_are(&node.name, "machine") {
            let title = title_of(&node.fields);
            let ghost start = roms@;
            let mut c: usize = 0;
            while c < node.children.len()
                invariant
                    c <= node.children@.len(),
                    n < nodes@.len(),
                    node == nodes@[n as int],
                    tv == token_views(toks@),
                    b == body(tv, model[n as int].1),
                    children_agree(tv, node.children@, b.children),
                    title@ == game_title(b.fields),
                    rom_views(roms@) == rom_views(start) + game_roms(
                        tv,
                        title@,
                        b.children.take(c as int),
                    ),
                decreases node.children@.len() - c,
            {
                let child = &node.children[c];
                proof {
                    assert(b.children.take(c + 1).drop_last() =~= b.children.take(c as int));
                    assert(b.children.take(c + 1).last() == b.children[c as int]);
                }
                if names_are(&child.name, "rom") {
                    if let Some(rom) = rom_from_fields(&title, &child.fields) {
                        let ghost before = roms@;
                        roms.push(rom);
                        proof {
                            assert(rom_views(roms@) =~= rom_views(before).push(rom@));
                        }
                    }
                }
                c = c + 1;
            }
            proof {
                assert(b.children.take(b.children.len() as int) =~= b.children);
            }
        }
        n = n + 1;
    }
    proof {
        assert(model.take(model.len() as int) =~= model);
    }
    (header, roms)
}

} // verus!
