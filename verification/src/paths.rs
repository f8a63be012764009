//! Path text rules. Paths are handled as text with `/` and `\` both taken as
//! separators (the Windows reading, which also covers `/`-separated paths);
//! joining writes `/`.

use vstd::prelude::*;
use crate::dat::{trim, trim_chars};
use crate::text::{chars_of, string_of};

verus! {

pub open spec fn is_sep(c: char) -> bool {
    c == '/' || c == '\\'
}

/// A path component worth keeping: not empty and not `.`.
pub open spec fn keep(seg: Seq<char>) -> bool {
    seg.len() > 0 && seg != seq!['.']
}

/// Components finished so far, and the one being read.
pub open spec fn split_state(p: Seq<char>) -> (Seq<Seq<char>>, Seq<char>)
    decreases p.len(),
{
    if p.len() == 0 {
        (Seq::empty(), Seq::empty())
    } else {
        let (done, cur) = split_state(p.drop_last());
        if is_sep(p.last()) {
            (if keep(cur) {
                done.push(cur)
            } else {
                done
            }, Seq::empty())
        } else {
            (done, cur.push(p.last()))
        }
    }
}

/// The components of a path: the text between separators, leaving out empty
/// and `.` parts. A leading separator (a root) is not a component.
pub open spec fn components(p: Seq<char>) -> Seq<Seq<char>> {
    let (done, cur) = split_state(p);
    if keep(cur) {
        done.push(cur)
    } else {
        done
    }
}

/// The path starts at a root: a leading separator.
pub open spec fn rooted(p: Seq<char>) -> bool {
    p.len() > 0 && is_sep(p[0])
}

/// The final component, unless the path has none or ends in `..`.
pub open spec fn file_name(p: Seq<char>) -> Option<Seq<char>> {
    let c = components(p);
    if c.len() > 0 && c.last() != seq!['.', '.'] {
        Some(c.last())
    } else {
        None
    }
}

/// Index of the last `.` in `s`, or -1.
pub open spec fn last_dot(s: Seq<char>) -> int
    decreases s.len(),
{
    if s.len() == 0 {
        -1
    } else if s.last() == '.' {
        s.len() - 1
    } else {
        last_dot(s.drop_last())
    }
}

/// A file name without its extension: the text before the last `.`, unless
/// that `.` starts the name (a dot file) or there is none.
pub open spec fn stem_of(name: Seq<char>) -> Seq<char> {
    if last_dot(name) <= 0 {
        name
    } else {
        name.take(last_dot(name))
    }
}

/// A file name's extension: the text after its last `.`, when that `.` does
/// not start the name.
pub open spec fn extension_of(name: Seq<char>) -> Option<Seq<char>> {
    if last_dot(name) <= 0 {
        None
    } else {
        Some(name.skip(last_dot(name) + 1))
    }
}

/// `p` and then `seg`, with one `/` between them unless `p` is empty or
/// already ends in a separator.
pub open spec fn join(p: Seq<char>, seg: Seq<char>) -> Seq<char> {
    if p.len() == 0 {
        seg
    } else if is_sep(p.last()) {
        p + seg
    } else {
        p.push('/') + seg
    }
}

/// A path that names its location fully: one starting with a separator, or
/// with a drive (`C:`) followed by a separator.
pub open spec fn is_absolute(p: Seq<char>) -> bool {
    rooted(p) || (p.len() >= 3 && p[1] == ':' && is_sep(p[2]))
}

/// `p` without trailing separators.
pub open spec fn trim_seps(p: Seq<char>) -> Seq<char>
    decreases p.len(),
{
    if p.len() > 0 && is_sep(p.last()) {
        trim_seps(p.drop_last())
    } else {
        p
    }
}

/// Index of the last separator in `p`, or -1.
pub open spec fn last_sep(p: Seq<char>) -> int
    decreases p.len(),
{
    if p.len() == 0 {
        -1
    } else if is_sep(p.last()) {
        p.len() - 1
    } else {
        last_sep(p.drop_last())
    }
}

/// The directory part of a path: the text before its last component, without
/// trailing separators; the root when that is all there is; empty for a bare
/// name; none for an empty path or a bare root.
pub open spec fn parent_dir(p: Seq<char>) -> Option<Seq<char>> {
    let t = trim_seps(p);
    if t.len() == 0 {
        None
    } else if last_sep(t) < 0 {
        Some(Seq::empty())
    } else {
        let q = trim_seps(t.take(last_sep(t)));
        if q.len() == 0 {
            Some(t.take(1))
        } else {
            Some(q)
        }
    }
}

/// A path given relative to a file is taken relative to that file's
/// directory (or `.` when it has none); an absolute path stands as it is.
pub open spec fn resolved(base: Seq<char>, p: Seq<char>) -> Seq<char> {
    if is_absolute(p) {
        p
    } else {
        join(
            match parent_dir(base) {
                Some(d) => d,
                None => seq!['.'],
            },
            p,
        )
    }
}

fn is_separator(c: char) -> (b: bool)
    ensures
        b == is_sep(c),
{
    c == '/' || c == '\\'
}

fn keeps(seg: &Vec<char>) -> (b: bool)
    ensures
        b == keep(seg@),
{
    if seg.len() == 0 {
        false
    } else if seg.len() == 1 && seg[0] == '.' {
        assert(seg@ =~= seq!['.']);
        false
    } else {
        assert(seg@.len() != 1 || seg@[0] != '.');
        true
    }
}

pub open spec fn views(v: Seq<Vec<char>>) -> Seq<Seq<char>> {
    v.map_values(|s: Vec<char>| s@)
}

/// The components of a path.
pub fn path_components(p: &[char]) -> (parts: Vec<Vec<char>>)
    ensures
        views(parts@) == components(p@),
{
    let mut parts: Vec<Vec<char>> = Vec::new();
    let mut cur: Vec<char> = Vec::new();
    let mut i: usize = 0;
    proof {
        assert(p@.take(0) =~= Seq::<char>::empty());
        assert(views(parts@) =~= Seq::<Seq<char>>::empty());
    }
    while i < p.len()
        invariant
            i <= p.len(),
            split_state(p@.take(i as int)) == (views(parts@), cur@),
        decreases p.len() - i,
    {
        proof {
            assert(p@.take(i + 1).drop_last() =~= p@.take(i as int));
            assert(p@.take(i + 1).last() == p@[i as int]);
        }
        if is_separator(p[i]) {
            if keeps(&cur) {
                let ghost before = parts@;
                parts.push(cur);
                assert(views(parts@) =~= views(before).push(cur@));
            }
            cur = Vec::new();
        } else {
            cur.push(p[i]);
        }
        i = i + 1;
    }
    assert(p@.take(p.len() as int) =~= p@);
    if keeps(&cur) {
        let ghost before = parts@;
        parts.push(cur);
        assert(views(parts@) =~= views(before).push(cur@));
    }
    parts
}

fn find_last_dot(s: &[char]) -> (k: Option<usize>)
    ensures
        match k {
            Some(i) => i as int == last_dot(s@) && i < s@.len(),
            None => last_dot(s@) == -1,
        },
{
    let mut i: usize = s.len();
    assert(s@.take(s@.len() as int) =~= s@);
    while i > 0 && s[i - 1] != '.'
        invariant
            i <= s@.len(),
            last_dot(s@) == last_dot(s@.take(i as int)),
        decreases i,
    {
        proof {
            assert(s@.take(i as int).drop_last() =~= s@.take(i - 1));
        }
        i = i - 1;
    }
    if i == 0 {
        assert(s@.take(0) =~= Seq::<char>::empty());
        None
    } else {
        Some(i - 1)
    }
}

/// The final component of a path, when there is one and it is not `..`.
pub fn path_file_name(p: &[char]) -> (name: Option<Vec<char>>)
    ensures
        match name {
            Some(n) => file_name(p@) == Some(n@),
            None => file_name(p@) is None,
        },
{
    let mut parts = path_components(p);
    let n = parts.len();
    if n == 0 {
        return None;
    }
    let last = parts.pop().unwrap();
    proof {
        assert(views(parts@.push(last)) =~= views(parts@).push(last@));
    }
    if last.len() == 2 && last[0] == '.' && last[1] == '.' {
        assert(last@ =~= seq!['.', '.']);
        None
    } else {
        assert(last@ != seq!['.', '.']);
        Some(last)
    }
}

/// The stem of a file name.
pub fn name_stem(name: &[char]) -> (stem: Vec<char>)
    ensures
        stem@ == stem_of(name@),
{
    let end: usize = match find_last_dot(name) {
        Some(k) => if k == 0 {
            name.len()
        } else {
            k
        },
        None => name.len(),
    };
    let mut out: Vec<char> = Vec::with_capacity(end);
    let mut i: usize = 0;
    while i < end
        invariant
            i <= end,
            end <= name@.len(),
            out@ == name@.take(i as int),
        decreases end - i,
    {
        out.push(name[i]);
        i = i + 1;
        assert(out@ =~= name@.take(i as int));
    }
    assert(name@.take(name@.len() as int) =~= name@);
    out
}

/// The extension of a file name.
pub fn name_extension(name: &[char]) -> (ext: Option<Vec<char>>)
    ensures
        match ext {
            Some(e) => extension_of(name@) == Some(e@),
            None => extension_of(name@) is None,
        },
{
    let k = match find_last_dot(name) {
        Some(k) => k,
        None => {
            return None;
        },
    };
    if k == 0 {
        return None;
    }
    let len = name.len();
    assert(k < len);
    let start: usize = k + 1;
    let mut out: Vec<char> = Vec::new();
    let mut i: usize = start;
    while i < name.len()
        invariant
            start <= i <= name@.len(),
            out@ == name@.subrange(start as int, i as int),
        decreases name@.len() - i,
    {
        out.push(name[i]);
        i = i + 1;
        assert(out@ =~= name@.subrange(start as int, i as int));
    }
    assert(name@.skip(start as int) =~= name@.subrange(start as int, name@.len() as int));
    Some(out)
}

/// Appends `seg` to `p` as `join` describes.
pub fn join_chars(p: &mut Vec<char>, seg: &[char])
    ensures
        final(p)@ == join(old(p)@, seg@),
{
    if p.len() > 0 && !is_separator(p[p.len() - 1]) {
        p.push('/');
    }
    let ghost base = p@;
    let mut i: usize = 0;
    while i < seg.len()
        invariant
            i <= seg@.len(),
            p@ == base + seg@.take(i as int),
        decreases seg@.len() - i,
    {
        p.push(seg[i]);
        i = i + 1;
        assert(p@ =~= base + seg@.take(i as int));
    }
    assert(seg@.take(seg@.len() as int) =~= seg@);
    proof {
        if old(p)@.len() > 0 {
            assert(old(p)@.last() == old(p)@[old(p)@.len() - 1]);
        }
    }
}

fn trim_seps_len(p: &[char], n: usize) -> (k: usize)
    requires
        n <= p@.len(),
    ensures
        k <= n,
        trim_seps(p@.take(n as int)) == p@.take(k as int),
{
    let mut k = n;
    while k > 0 && is_separator(p[k - 1])
        invariant
            k <= n <= p@.len(),
            trim_seps(p@.take(n as int)) == trim_seps(p@.take(k as int)),
        decreases k,
    {
        proof {
            assert(p@.take(k as int).drop_last() =~= p@.take(k - 1));
        }
        k = k - 1;
    }
    k
}

fn last_sep_before(p: &[char], n: usize) -> (k: Option<usize>)
    requires
        n <= p@.len(),
    ensures
        match k {
            Some(i) => i as int == last_sep(p@.take(n as int)) && i < n,
            None => last_sep(p@.take(n as int)) == -1,
        },
{
    let mut i: usize = n;
    while i > 0 && !is_separator(p[i - 1])
        invariant
            i <= n <= p@.len(),
            last_sep(p@.take(n as int)) == last_sep(p@.take(i as int)),
        decreases i,
    {
        proof {
            assert(p@.take(i as int).drop_last() =~= p@.take(i - 1));
        }
        i = i - 1;
    }
    if i == 0 {
        assert(p@.take(0) =~= Seq::<char>::empty());
        None
    } else {
        Some(i - 1)
    }
}

fn copy_prefix(p: &[char], n: usize) -> (out: Vec<char>)
    requires
        n <= p@.len(),
    ensures
        out@ == p@.take(n as int),
{
    let mut out: Vec<char> = Vec::with_capacity(n);
    let mut i: usize = 0;
    while i < n
        invariant
            i <= n <= p@.len(),
            out@ == p@.take(i as int),
        decreases n - i,
    {
        out.push(p[i]);
        i = i + 1;
        assert(out@ =~= p@.take(i as int));
    }
    out
}

/// The directory part of a path, as `parent_dir` describes.
pub fn path_parent(p: &[char]) -> (dir: Option<Vec<char>>)
    ensures
        match dir {
            Some(d) => parent_dir(p@) == Some(d@),
            None => parent_dir(p@) is None,
        },
{
    assert(p@.take(p@.len() as int) =~= p@);
    let t = trim_seps_len(p, p.len());
    if t == 0 {
        return None;
    }
    let k = match last_sep_before(p, t) {
        Some(k) => k,
        None => {
            return Some(Vec::new());
        },
    };
    assert(p@.take(t as int).take(k as int) =~= p@.take(k as int));
    let q = trim_seps_len(p, k);
    if q == 0 {
        assert(p@.take(t as int).take(1) =~= p@.take(1));
        Some(copy_prefix(p, 1))
    } else {
        Some(copy_prefix(p, q))
    }
}

fn absolute(p: &[char]) -> (b: bool)
    ensures
        b == is_absolute(p@),
{
    (p.len() > 0 && is_separator(p[0])) || (p.len() >= 3 && p[1] == ':' && is_separator(p[2]))
}

proof fn lemma_trim_seps_plain(p: Seq<char>)
    requires
        p.len() > 0,
        !is_sep(p.last()),
    ensures
        trim_seps(p) == p,
{
}

proof fn lemma_last_sep_name(dir: Seq<char>, name: Seq<char>)
    requires
        forall|i: int| 0 <= i < name.len() ==> !is_sep(#[trigger] name[i]),
    ensures
        last_sep(dir + seq!['/'] + name) == dir.len(),
    decreases name.len(),
{
    let whole = dir + seq!['/'] + name;
    if name.len() == 0 {
        assert(whole.last() == '/');
    } else {
        assert(whole.drop_last() =~= dir + seq!['/'] + name.drop_last());
        assert(whole.last() == name.last());
        lemma_last_sep_name(dir, name.drop_last());
    }
}

proof fn lemma_last_sep_none(name: Seq<char>)
    requires
        forall|i: int| 0 <= i < name.len() ==> !is_sep(#[trigger] name[i]),
    ensures
        last_sep(name) == -1,
    decreases name.len(),
{
    if name.len() > 0 {
        lemma_last_sep_none(name.drop_last());
    }
}

/// A relative path given in the configuration file `dir/name` resolves in
/// that file's directory: to `dir/path`, never below the file's own name.
pub proof fn law_resolve_beside_file(dir: Seq<char>, name: Seq<char>, path: Seq<char>)
    requires
        dir.len() > 0,
        !is_sep(dir.last()),
        name.len() > 0,
        forall|i: int| 0 <= i < name.len() ==> !is_sep(#[trigger] name[i]),
        !is_absolute(path),
    ensures
        resolved(dir + seq!['/'] + name, path) == dir + seq!['/'] + path,
{
    let base = dir + seq!['/'] + name;
    assert(base.last() == name.last());
    lemma_trim_seps_plain(base);
    lemma_last_sep_name(dir, name);
    assert(base.take(dir.len() as int) =~= dir);
    lemma_trim_seps_plain(dir);
    assert(parent_dir(base) == Some(dir));
    assert(dir.push('/') + path =~= dir + seq!['/'] + path);
}

/// A relative path given in a configuration file named without a directory
/// resolves to the path itself (the current directory).
pub proof fn law_resolve_beside_bare_file(name: Seq<char>, path: Seq<char>)
    requires
        name.len() > 0,
        forall|i: int| 0 <= i < name.len() ==> !is_sep(#[trigger] name[i]),
        !is_absolute(path),
    ensures
        resolved(name, path) == path,
{
    assert(!is_sep(name.last()));
    lemma_trim_seps_plain(name);
    lemma_last_sep_none(name);
}

/// An absolute path stands as it is, whatever file it was given in.
pub proof fn law_resolve_absolute(base: Seq<char>, path: Seq<char>)
    requires
        is_absolute(path),
    ensures
        resolved(base, path) == path,
{
}

/// Resolves `path` against the file `base`: an absolute path is kept, a
/// relative one is taken from `base`'s directory (or `.`).
pub fn resolve_path(base: &str, path: &str) -> (resolved_path: String)
    ensures
        resolved_path@ == resolved(base@, path@),
{
    let p = chars_of(path);
    if absolute(p.as_slice()) {
        return string_of(p.as_slice());
    }
    let b = chars_of(base);
    let mut dir = match path_parent(b.as_slice()) {
        Some(d) => d,
        None => {
            let mut d: Vec<char> = Vec::new();
            d.push('.');
            d
        },
    };
    join_chars(&mut dir, p.as_slice());
    string_of(dir.as_slice())
}

/// A path that is empty or only whitespace.
pub fn path_is_blank(path: &str) -> (blank: bool)
    ensures
        blank == (trim(path@).len() == 0),
{
    let p = chars_of(path);
    let t = trim_chars(p.as_slice());
    t.len() == 0
}

} // verus!
