//! Presentation rules of the DAT explorer: the Sources tree, source titles,
//! set counts and member rows.

use vstd::prelude::*;
use crate::paths::{components, join, join_chars, path_components, views};
use crate::text::{
    chars_eq, chars_lt, decimal, decimal_string, lemma_seq_lt_asymmetric, lemma_seq_lt_irreflexive,
    lemma_seq_lt_total, lemma_seq_lt_transitive, seq_lt, string_of, chars_of,
};

verus! {

/// Whether the member table is useful for a selected set.
///
/// A single loose file is represented completely by its set row. Archives and
/// multi-file sets need the member table even when an archive currently has
/// only one discovered member.
pub fn should_show_member_pane(member_count: usize, has_archive_member: bool) -> (show: bool)
    ensures
        show == (has_archive_member || member_count > 1),
{
    has_archive_member || member_count > 1
}

/// Formats a set count, leaving it blank until verification has produced a result.
pub fn set_count_text(verified: bool, count: usize) -> (text: String)
    ensures
        text@ == (if verified {
            decimal(count as nat)
        } else {
            Seq::empty()
        }),
{
    if verified {
        decimal_string(count)
    } else {
        String::new()
    }
}

/// `name (found/total)`, or just the name when the total is unknown.
pub open spec fn title_text(name: Seq<char>, total: Option<usize>, found: Option<usize>) -> Seq<char> {
    match total {
        Some(t) => name + seq![' ', '('] + decimal(
            match found {
                Some(f) => f as nat,
                None => 0,
            },
        ) + seq!['/'] + decimal(t as nat) + seq![')'],
        None => name,
    }
}

/// Formats a source title with its DAT verification progress.
///
/// A loaded DAT has a known total and starts at zero found ROMs until it has
/// been verified. A DAT that failed to load has no known total, so its title is
/// returned without an invented count.
pub fn source_title(name: &str, total: Option<usize>, found: Option<usize>) -> (title: String)
    ensures
        title@ == title_text(name@, total, found),
{
    match total {
        Some(t) => {
            let mut s = chars_of(name);
            s.push(' ');
            s.push('(');
            let f: usize = match found {
                Some(v) => v,
                None => 0,
            };
            let fd = crate::text::decimal_u64(f as u64);
            let td = crate::text::decimal_u64(t as u64);
            append_chars(&mut s, fd.as_slice());
            s.push('/');
            append_chars(&mut s, td.as_slice());
            s.push(')');
            assert(s@ =~= title_text(name@, total, found));
            string_of(s.as_slice())
        },
        None => String::from_str(name),
    }
}

fn append_chars(s: &mut Vec<char>, more: &[char])
    ensures
        final(s)@ == old(s)@ + more@,
{
    let ghost start = s@;
    let mut i: usize = 0;
    while i < more.len()
        invariant
            i <= more@.len(),
            s@ == start + more@.take(i as int),
        decreases more@.len() - i,
    {
        s.push(more[i]);
        i = i + 1;
        assert(s@ =~= start + more@.take(i as int));
    }
    assert(more@.take(more@.len() as int) =~= more@);
}

/// Joins the DAT's authoritative member-name list to optional scan hits.
/// The returned index points into `hits`, while a missing index represents an
/// unscanned or unmatched DAT member whose detail cells must remain blank.
pub fn dat_member_rows(dat_names: &[String], hits: &[(String, String)]) -> (rows: Vec<(String, Option<usize>)>)
    ensures
        rows@.len() == dat_names@.len(),
        forall|k: int|
            0 <= k < rows@.len() ==> {
                &&& (#[trigger] rows@[k]).0@ == dat_names@[k]@
                &&& match rows@[k].1 {
                    Some(h) => h < hits@.len() && hits@[h as int].0@ == dat_names@[k]@ && forall|j: int|
                        0 <= j < h ==> hits@[j].0@ != dat_names@[k]@,
                    None => forall|j: int| 0 <= j < hits@.len() ==> hits@[j].0@ != dat_names@[k]@,
                }
            },
{
    let mut rows: Vec<(String, Option<usize>)> = Vec::with_capacity(dat_names.len());
    let mut k: usize = 0;
    while k < dat_names.len()
        invariant
            k <= dat_names@.len(),
            rows@.len() == k,
            forall|x: int|
                0 <= x < k ==> {
                    &&& (#[trigger] rows@[x]).0@ == dat_names@[x]@
                    &&& match rows@[x].1 {
                        Some(h) => h < hits@.len() && hits@[h as int].0@ == dat_names@[x]@
                            && forall|j: int| 0 <= j < h ==> hits@[j].0@ != dat_names@[x]@,
                        None => forall|j: int| 0 <= j < hits@.len() ==> hits@[j].0@ != dat_names@[x]@,
                    }
                },
        decreases dat_names@.len() - k,
    {
        let name = &dat_names[k];
        let mut found: Option<usize> = None;
        let mut j: usize = 0;
        while j < hits.len() && found.is_none()
            invariant
                j <= hits@.len(),
                k < dat_names@.len(),
                *name == dat_names@[k as int],
                found is None ==> forall|x: int| 0 <= x < j ==> hits@[x].0@ != name@,
                found matches Some(h) ==> h < hits@.len() && hits@[h as int].0@ == name@
                    && forall|x: int| 0 <= x < h ==> hits@[x].0@ != name@,
            decreases hits@.len() - j,
        {
            if hits[j].0 == *name {
                found = Some(j);
            }
            j = j + 1;
        }
        rows.push((name.clone(), found));
        k = k + 1;
    }
    rows
}

// ---------------------------------------------------------------------------
// The Sources tree
// ---------------------------------------------------------------------------

/// A node in the configured source tree. Folder nodes come only from path
/// components that prefix at least one configured DAT path.
#[derive(Debug, PartialEq, Eq)]
pub enum SourceTreeNode {
    Folder { path: String, title: String, children: Vec<SourceTreeNode> },
    Dat { source_index: usize },
}

/// The components of each configured DAT path.
pub open spec fn all_components(paths: Seq<String>) -> Seq<Seq<Seq<char>>> {
    paths.map_values(|p: String| components(p@))
}

/// Path `i` lies strictly below folder `prefix`.
pub open spec fn under(comps: Seq<Seq<Seq<char>>>, prefix: Seq<Seq<char>>, i: int) -> bool {
    &&& 0 <= i < comps.len()
    &&& comps[i].len() > prefix.len()
    &&& comps[i].take(prefix.len() as int) == prefix
}

/// Path `i` is a DAT file directly in folder `prefix`.
pub open spec fn dat_here(comps: Seq<Seq<Seq<char>>>, prefix: Seq<Seq<char>>, i: int) -> bool {
    under(comps, prefix, i) && comps[i].len() == prefix.len() + 1
}

/// `t` names a folder directly in folder `prefix` that holds some DAT path.
pub open spec fn folder_here(comps: Seq<Seq<Seq<char>>>, prefix: Seq<Seq<char>>, t: Seq<char>) -> bool {
    exists|i: int|
        #[trigger] under(comps, prefix, i) && comps[i].len() > prefix.len() + 1 && comps[i][prefix.len() as int]
            == t
}

/// The text of a folder path: its components joined.
pub open spec fn folder_path(prefix: Seq<Seq<char>>) -> Seq<char>
    decreases prefix.len(),
{
    if prefix.len() == 0 {
        Seq::empty()
    } else {
        join(folder_path(prefix.drop_last()), prefix.last())
    }
}

/// Order key of a node in folder `prefix`: its title, folders before DAT
/// leaves, then the source index.
pub open spec fn node_key(comps: Seq<Seq<Seq<char>>>, depth: int, node: SourceTreeNode) -> (Seq<char>, int, int) {
    match node {
        SourceTreeNode::Folder { title, .. } => (title@, 0, 0),
        SourceTreeNode::Dat { source_index } => (comps[source_index as int][depth], 1, source_index as int),
    }
}

pub open spec fn key3_lt(a: (Seq<char>, int, int), b: (Seq<char>, int, int)) -> bool {
    seq_lt(a.0, b.0) || (a.0 == b.0 && (a.1 < b.1 || (a.1 == b.1 && a.2 < b.2)))
}

/// The nodes of folder `prefix` are exactly its folders and DAT leaves,
/// in key order.
pub open spec fn level_ok(comps: Seq<Seq<Seq<char>>>, prefix: Seq<Seq<char>>, nodes: Seq<SourceTreeNode>) -> bool {
    &&& forall|k: int|
        0 <= k < nodes.len() ==> match #[trigger] nodes[k] {
            SourceTreeNode::Folder { path, title, children } => folder_here(comps, prefix, title@)
                && path@ == folder_path(prefix.push(title@)),
            SourceTreeNode::Dat { source_index } => dat_here(comps, prefix, source_index as int),
        }
    &&& forall|a: int, b: int|
        0 <= a < b < nodes.len() ==> key3_lt(
            node_key(comps, prefix.len() as int, nodes[a]),
            node_key(comps, prefix.len() as int, nodes[b]),
        )
    &&& forall|i: int|
        #[trigger] dat_here(comps, prefix, i) ==> exists|k: int|
            0 <= k < nodes.len() && nodes[k] == (SourceTreeNode::Dat { source_index: i as usize })
    &&& forall|t: Seq<char>|
        #[trigger] folder_here(comps, prefix, t) ==> exists|k: int|
            0 <= k < nodes.len() && nodes[k] is Folder && (#[trigger] nodes[k]->title)@ == t
}

/// Every folder node from index `k` on, and recursively its children, is
/// well formed for its folder.
pub open spec fn tree_ok(
    comps: Seq<Seq<Seq<char>>>,
    prefix: Seq<Seq<char>>,
    nodes: Seq<SourceTreeNode>,
    k: int,
) -> bool
    decreases nodes, nodes.len() - k,
{
    if 0 <= k < nodes.len() {
        &&& match nodes[k] {
            SourceTreeNode::Folder { path, title, children } => {
                &&& level_ok(comps, prefix.push(title@), children@)
                &&& tree_ok(comps, prefix.push(title@), children@, 0)
            },
            SourceTreeNode::Dat { .. } => true,
        }
        &&& tree_ok(comps, prefix, nodes, k + 1)
    } else {
        true
    }
}


/// A folder node's subtree is well formed for its folder.
pub open spec fn node_tree_ok(comps: Seq<Seq<Seq<char>>>, prefix: Seq<Seq<char>>, node: SourceTreeNode) -> bool {
    match node {
        SourceTreeNode::Folder { path, title, children } => {
            &&& level_ok(comps, prefix.push(title@), children@)
            &&& tree_ok(comps, prefix.push(title@), children@, 0)
        },
        SourceTreeNode::Dat { .. } => true,
    }
}

/// A node belongs in folder `prefix`.
pub open spec fn node_here(comps: Seq<Seq<Seq<char>>>, prefix: Seq<Seq<char>>, node: SourceTreeNode) -> bool {
    match node {
        SourceTreeNode::Folder { path, title, children } => folder_here(comps, prefix, title@) && path@
            == folder_path(prefix.push(title@)),
        SourceTreeNode::Dat { source_index } => dat_here(comps, prefix, source_index as int),
    }
}

proof fn lemma_tree_ok(comps: Seq<Seq<Seq<char>>>, prefix: Seq<Seq<char>>, nodes: Seq<SourceTreeNode>, k: int)
    requires
        0 <= k,
        forall|j: int| k <= j < nodes.len() ==> node_tree_ok(comps, prefix, #[trigger] nodes[j]),
    ensures
        tree_ok(comps, prefix, nodes, k),
    decreases nodes.len() - k,
{
    if k < nodes.len() {
        lemma_tree_ok(comps, prefix, nodes, k + 1);
        assert(node_tree_ok(comps, prefix, nodes[k]));
    }
}

proof fn lemma_key3(a: (Seq<char>, int, int), b: (Seq<char>, int, int), c: (Seq<char>, int, int))
    ensures
        !key3_lt(a, a),
        key3_lt(a, b) && key3_lt(b, c) ==> key3_lt(a, c),
        a == b || key3_lt(a, b) || key3_lt(b, a),
        !(key3_lt(a, b) && key3_lt(b, a)),
{
    lemma_seq_lt_irreflexive(a.0);
    lemma_seq_lt_total(a.0, b.0);
    lemma_seq_lt_asymmetric(a.0, b.0);
    if seq_lt(a.0, b.0) && seq_lt(b.0, c.0) {
        lemma_seq_lt_transitive(a.0, b.0, c.0);
    }
    if a.0 == b.0 && a.1 == b.1 && a.2 == b.2 {
        assert(a == b);
    }
}

/// The exec components agree with their views.
pub open spec fn comps_agree(comps: Seq<Vec<Vec<char>>>, cv: Seq<Seq<Seq<char>>>) -> bool {
    &&& comps.len() == cv.len()
    &&& forall|i: int| 0 <= i < cv.len() ==> views(#[trigger] comps[i]@) == cv[i]
}

fn copy_chars(v: &Vec<char>) -> (out: Vec<char>)
    ensures
        out@ == v@,
{
    let mut out: Vec<char> = Vec::with_capacity(v.len());
    let mut i: usize = 0;
    while i < v.len()
        invariant
            i <= v@.len(),
            out@ == v@.take(i as int),
        decreases v@.len() - i,
    {
        out.push(v[i]);
        i = i + 1;
        assert(out@ =~= v@.take(i as int));
    }
    assert(v@.take(v@.len() as int) =~= v@);
    out
}

/// The title part of a node's key.
fn node_title(
    comps: &Vec<Vec<Vec<char>>>,
    Ghost(cv): Ghost<Seq<Seq<Seq<char>>>>,
    depth: usize,
    node: &SourceTreeNode,
) -> (t: Vec<char>)
    requires
        comps_agree(comps@, cv),
        node matches SourceTreeNode::Dat { source_index } ==> source_index < cv.len() && depth
            < cv[source_index as int].len(),
    ensures
        t@ == node_key(cv, depth as int, *node).0,
{
    match node {
        SourceTreeNode::Folder { title, .. } => chars_of(title.as_str()),
        SourceTreeNode::Dat { source_index } => {
            let c = &comps[*source_index];
            assert(views(c@)[depth as int] == c@[depth as int]@);
            copy_chars(&c[depth])
        },
    }
}

/// Whether node `a` goes before node `b` in a folder at `depth`.
fn node_before(
    comps: &Vec<Vec<Vec<char>>>,
    Ghost(cv): Ghost<Seq<Seq<Seq<char>>>>,
    depth: usize,
    a: &SourceTreeNode,
    b: &SourceTreeNode,
) -> (lt: bool)
    requires
        comps_agree(comps@, cv),
        a matches SourceTreeNode::Dat { source_index } ==> source_index < cv.len() && depth
            < cv[source_index as int].len(),
        b matches SourceTreeNode::Dat { source_index } ==> source_index < cv.len() && depth
            < cv[source_index as int].len(),
    ensures
        lt == key3_lt(node_key(cv, depth as int, *a), node_key(cv, depth as int, *b)),
{
    let ta = node_title(comps, Ghost(cv), depth, a);
    let tb = node_title(comps, Ghost(cv), depth, b);
    if chars_lt(ta.as_slice(), tb.as_slice()) {
        return true;
    }
    if !chars_eq(ta.as_slice(), tb.as_slice()) {
        return false;
    }
    match (a, b) {
        (SourceTreeNode::Folder { .. }, SourceTreeNode::Dat { .. }) => true,
        (SourceTreeNode::Dat { source_index: x }, SourceTreeNode::Dat { source_index: y }) => *x < *y,
        _ => false,
    }
}

/// Everything a finished node of folder `prefix` carries.
pub open spec fn node_good(comps: Seq<Seq<Seq<char>>>, prefix: Seq<Seq<char>>, node: SourceTreeNode) -> bool {
    node_here(comps, prefix, node) && node_tree_ok(comps, prefix, node)
}

/// `nodes` holds `x`.
pub open spec fn holds_node(nodes: Seq<SourceTreeNode>, x: SourceTreeNode) -> bool {
    exists|j: int| 0 <= j < nodes.len() && nodes[j] == x
}

/// The DAT leaves and folder nodes of folder `prefix`, put in key order.
fn sort_level(
    comps: &Vec<Vec<Vec<char>>>,
    Ghost(cv): Ghost<Seq<Seq<Seq<char>>>>,
    depth: usize,
    Ghost(prefix): Ghost<Seq<Seq<char>>>,
    nodes: Vec<SourceTreeNode>,
) -> (out: Vec<SourceTreeNode>)
    requires
        comps_agree(comps@, cv),
        prefix.len() == depth,
        forall|k: int| 0 <= k < nodes@.len() ==> node_good(cv, prefix, #[trigger] nodes@[k]),
        forall|a: int, b: int|
            0 <= a < nodes@.len() && 0 <= b < nodes@.len() && a != b ==> node_key(
                cv,
                depth as int,
                nodes@[a],
            ) != node_key(cv, depth as int, nodes@[b]),
    ensures
        forall|k: int| 0 <= k < out@.len() ==> node_good(cv, prefix, #[trigger] out@[k]),
        forall|a: int, b: int|
            0 <= a < b < out@.len() ==> key3_lt(
                node_key(cv, depth as int, out@[a]),
                node_key(cv, depth as int, out@[b]),
            ),
        forall|k: int| 0 <= k < nodes@.len() ==> holds_node(out@, #[trigger] nodes@[k]),
{
    let ghost input = nodes@;
    let ghost n = input.len();
    let mut rest = nodes;
    let mut out: Vec<SourceTreeNode> = Vec::new();
    let ghost mut src: Seq<int> = Seq::empty();
    let ghost mut pos: Seq<int> = Seq::new(n, |k: int| 0);
    while rest.len() > 0
        invariant
            comps_agree(comps@, cv),
            prefix.len() == depth,
            n == input.len(),
            forall|k: int| 0 <= k < n ==> node_good(cv, prefix, #[trigger] input[k]),
            forall|a: int, b: int|
                0 <= a < n && 0 <= b < n && a != b ==> node_key(cv, depth as int, input[a])
                    != node_key(cv, depth as int, input[b]),
            rest@.len() <= n,
            rest@ == input.take(rest@.len() as int),
            src.len() == out@.len(),
            out@.len() + rest@.len() == n,
            pos.len() == n,
            forall|j: int|
                0 <= j < out@.len() ==> rest@.len() <= #[trigger] src[j] < n && out@[j] == input[src[j]],
            forall|k: int|
                rest@.len() <= k < n ==> 0 <= #[trigger] pos[k] < out@.len() && out@[pos[k]] == input[k],
            forall|k: int| 0 <= k < out@.len() ==> node_good(cv, prefix, #[trigger] out@[k]),
            forall|a: int, b: int|
                0 <= a < b < out@.len() ==> key3_lt(
                    node_key(cv, depth as int, out@[a]),
                    node_key(cv, depth as int, out@[b]),
                ),
        decreases rest@.len(),
    {
        let ghost r = rest@.len() - 1;
        let x = rest.pop().unwrap();
        assert(x == input[r]);
        let mut p: usize = 0;
        while p < out.len() && node_before(comps, Ghost(cv), depth, &out[p], &x)
            invariant
                comps_agree(comps@, cv),
                p <= out@.len(),
                node_good(cv, prefix, x),
                prefix.len() == depth,
                forall|k: int| 0 <= k < out@.len() ==> node_good(cv, prefix, #[trigger] out@[k]),
                forall|j: int| 0 <= j < p ==> key3_lt(
                    node_key(cv, depth as int, #[trigger] out@[j]),
                    node_key(cv, depth as int, x),
                ),
            decreases out@.len() - p,
        {
            p = p + 1;
        }
        let ghost before = out@;
        let ghost kx = node_key(cv, depth as int, x);
        proof {
            if p < out@.len() {
                let k = src[p as int];
                assert(node_key(cv, depth as int, input[k]) != kx);
                lemma_key3(node_key(cv, depth as int, out@[p as int]), kx, kx);
            }
        }
        out.insert(p, x);
        proof {
            let old_src = src;
            let old_pos = pos;
            src = old_src.insert(p as int, r);
            pos = Seq::new(n, |k: int| if k == r { p as int } else if old_pos[k] >= p { old_pos[k] + 1 } else { old_pos[k] });
            assert forall|j: int| 0 <= j < out@.len() implies rest@.len() <= #[trigger] src[j] < n && out@[j] == input[src[j]] by {
                if j < p {
                    assert(out@[j] == before[j]);
                } else if j > p {
                    assert(out@[j] == before[j - 1]);
                }
            }
            assert forall|k: int| rest@.len() <= k < n implies 0 <= #[trigger] pos[k] < out@.len() && out@[pos[k]] == input[k] by {
                if k != r {
                    if old_pos[k] >= p {
                        assert(out@[old_pos[k] + 1] == before[old_pos[k]]);
                    } else {
                        assert(out@[old_pos[k]] == before[old_pos[k]]);
                    }
                }
            }
            assert forall|k: int| 0 <= k < out@.len() implies node_good(cv, prefix, #[trigger] out@[k]) by {
                if k < p {
                    assert(out@[k] == before[k]);
                } else if k > p {
                    assert(out@[k] == before[k - 1]);
                }
            }
            assert forall|a: int, b: int| 0 <= a < b < out@.len() implies key3_lt(
                node_key(cv, depth as int, out@[a]),
                node_key(cv, depth as int, out@[b]),
            ) by {
                let kb = node_key(cv, depth as int, out@[b]);
                if b < p {
                    assert(out@[a] == before[a] && out@[b] == before[b]);
                } else if b == p {
                    assert(out@[a] == before[a]);
                } else if a == p {
                    assert(out@[b] == before[b - 1]);
                    if b - 1 > p {
                        assert(key3_lt(node_key(cv, depth as int, before[p as int]), node_key(cv, depth as int, before[b - 1])));
                        lemma_key3(kx, node_key(cv, depth as int, before[p as int]), kb);
                    }
                } else if a < p {
                    assert(out@[a] == before[a]);
                    assert(out@[b] == before[b - 1]);
                } else {
                    assert(out@[a] == before[a - 1]);
                    assert(out@[b] == before[b - 1]);
                }
            }
        }
    }
    proof {
        assert(input == nodes@);
        assert(rest@.len() == 0);
        assert forall|k: int| 0 <= k < nodes@.len() implies holds_node(out@, #[trigger] nodes@[k]) by {
            assert(0 <= pos[k] < out@.len());
            assert(out@[pos[k]] == input[k]);
        }
    }
    out
}

/// `s` holds `v`.
pub open spec fn holds_index(s: Seq<usize>, v: int) -> bool {
    exists|x: int| 0 <= x < s.len() && s[x] as int == v
}

/// `members` lists, in increasing order, exactly the paths below `prefix`.
pub open spec fn members_ok(cv: Seq<Seq<Seq<char>>>, prefix: Seq<Seq<char>>, members: Seq<usize>) -> bool {
    &&& forall|x: int| 0 <= x < members.len() ==> under(cv, prefix, #[trigger] members[x] as int)
    &&& forall|a: int, b: int| 0 <= a < b < members.len() ==> members[a] < members[b]
    &&& forall|i: int| #[trigger] under(cv, prefix, i) ==> holds_index(members, i)
}

/// `s` holds the character sequence `t`.
pub open spec fn holds_title(s: Seq<Vec<char>>, t: Seq<char>) -> bool {
    exists|x: int| 0 <= x < s.len() && #[trigger] s[x]@ == t
}

fn find_title(folders: &Vec<Vec<char>>, t: &Vec<char>) -> (found: bool)
    ensures
        found == holds_title(folders@, t@),
{
    let mut i: usize = 0;
    while i < folders.len()
        invariant
            i <= folders@.len(),
            forall|x: int| 0 <= x < i ==> folders@[x]@ != t@,
        decreases folders@.len() - i,
    {
        if chars_eq(folders[i].as_slice(), t.as_slice()) {
            return true;
        }
        i = i + 1;
    }
    false
}

/// The folder titles (distinct, in order of first appearance) and DAT leaves
/// (in index order) directly in folder `prefix`.
fn collect_level(
    comps: &Vec<Vec<Vec<char>>>,
    Ghost(cv): Ghost<Seq<Seq<Seq<char>>>>,
    members: &Vec<usize>,
    depth: usize,
    Ghost(prefix): Ghost<Seq<Seq<char>>>,
) -> (res: (Vec<Vec<char>>, Vec<usize>))
    requires
        comps_agree(comps@, cv),
        prefix.len() == depth,
        members_ok(cv, prefix, members@),
    ensures
        forall|f: int| 0 <= f < res.0@.len() ==> folder_here(cv, prefix, #[trigger] res.0@[f]@),
        forall|a: int, b: int| 0 <= a < res.0@.len() && 0 <= b < res.0@.len() && a != b ==> res.0@[a]@
            != res.0@[b]@,
        forall|d: int| 0 <= d < res.1@.len() ==> dat_here(cv, prefix, #[trigger] res.1@[d] as int),
        forall|a: int, b: int| 0 <= a < b < res.1@.len() ==> res.1@[a] < res.1@[b],
        forall|i: int| #[trigger] dat_here(cv, prefix, i) ==> holds_index(res.1@, i),
        forall|t: Seq<char>| #[trigger] folder_here(cv, prefix, t) ==> holds_title(res.0@, t),
{
    let mut folders: Vec<Vec<char>> = Vec::new();
    let mut dats: Vec<usize> = Vec::new();
    let mut x: usize = 0;
    while x < members.len()
        invariant
            x <= members@.len(),
            comps_agree(comps@, cv),
            prefix.len() == depth,
            members_ok(cv, prefix, members@),
            forall|f: int| 0 <= f < folders@.len() ==> folder_here(cv, prefix, #[trigger] folders@[f]@),
            forall|a: int, b: int|
                0 <= a < folders@.len() && 0 <= b < folders@.len() && a != b ==> folders@[a]@
                    != folders@[b]@,
            forall|d: int| 0 <= d < dats@.len() ==> dat_here(cv, prefix, #[trigger] dats@[d] as int),
            forall|a: int, b: int| 0 <= a < b < dats@.len() ==> dats@[a] < dats@[b],
            forall|d: int| 0 <= d < dats@.len() ==> (#[trigger] dats@[d]) < (if x < members@.len() {
                members@[x as int] as int
            } else {
                cv.len() as int
            }) || x == members@.len(),
            forall|y: int|
                0 <= y < x ==> {
                    let m = #[trigger] members@[y] as int;
                    &&& cv[m].len() == depth + 1 ==> holds_index(dats@, m)
                    &&& cv[m].len() > depth + 1 ==> holds_title(folders@, cv[m][depth as int])
                },
        decreases members@.len() - x,
    {
        let m = members[x];
        let c = &comps[m];
        let ghost mv = cv[m as int];
        assert(under(cv, prefix, m as int));
        assert(views(c@) == mv);
        if c.len() == depth + 1 {
            let ghost before = dats@;
            dats.push(m);
            proof {
                assert(dats@[before.len() as int] == m);
                assert(holds_index(dats@, m as int));
                assert forall|y: int| 0 <= y < x implies {
                    let m2 = #[trigger] members@[y] as int;
                    &&& cv[m2].len() == depth + 1 ==> holds_index(dats@, m2)
                    &&& cv[m2].len() > depth + 1 ==> holds_title(folders@, cv[m2][depth as int])
                } by {
                    let m2 = members@[y] as int;
                    if cv[m2].len() == depth + 1 {
                        let w = choose|w: int| 0 <= w < before.len() && before[w] as int == m2;
                        assert(dats@[w] == before[w]);
                    }
                }
            }
        } else {
            let t = &c[depth];
            assert(t@ == mv[depth as int]);
            proof {
                assert(folder_here(cv, prefix, t@)) by {
                    assert(under(cv, prefix, m as int));
                }
            }
            if !find_title(&folders, t) {
                let ghost before = folders@;
                folders.push(copy_chars(t));
                proof {
                    assert(folders@[before.len() as int]@ == t@);
                    assert forall|y: int| 0 <= y <= x implies {
                        let m2 = #[trigger] members@[y] as int;
                        &&& cv[m2].len() == depth + 1 ==> holds_index(dats@, m2)
                        &&& cv[m2].len() > depth + 1 ==> holds_title(folders@, cv[m2][depth as int])
                    } by {
                        let m2 = members@[y] as int;
                        if y < x && cv[m2].len() > depth + 1 {
                            let w = choose|w: int| 0 <= w < before.len() && #[trigger] before[w]@ == cv[m2][depth as int];
                            assert(folders@[w] == before[w]);
                        }
                    }
                }
            }
        }
        x = x + 1;
    }
    proof {
        assert forall|i: int| #[trigger] dat_here(cv, prefix, i) implies holds_index(dats@, i) by {
            let y = choose|y: int| 0 <= y < members@.len() && members@[y] as int == i;
            assert(members@[y] as int == i);
        }
        assert forall|t: Seq<char>| #[trigger] folder_here(cv, prefix, t) implies holds_title(folders@, t) by {
            let i = choose|i: int| #[trigger] under(cv, prefix, i) && cv[i].len() > prefix.len() + 1 && cv[i][prefix.len() as int] == t;
            let y = choose|y: int| 0 <= y < members@.len() && members@[y] as int == i;
            assert(members@[y] as int == i);
        }
    }
    (folders, dats)
}


proof fn lemma_under_child(cv: Seq<Seq<Seq<char>>>, prefix: Seq<Seq<char>>, t: Seq<char>, i: int)
    ensures
        under(cv, prefix.push(t), i) <==> (under(cv, prefix, i) && cv[i].len() > prefix.len() + 1
            && cv[i][prefix.len() as int] == t),
{
    if 0 <= i < cv.len() && cv[i].len() > prefix.len() + 1 {
        let c = cv[i];
        let n = prefix.len() as int;
        if c.take(n + 1) == prefix.push(t) {
            assert(c.take(n) =~= c.take(n + 1).take(n));
            assert(prefix.push(t).take(n) =~= prefix);
            assert(c[n] == c.take(n + 1)[n]);
        }
        if c.take(n) == prefix && c[n] == t {
            assert(c.take(n + 1) =~= prefix.push(t));
        }
    }
}

/// The members of folder `prefix` that lie below its subfolder `t`.
fn sub_members(
    comps: &Vec<Vec<Vec<char>>>,
    Ghost(cv): Ghost<Seq<Seq<Seq<char>>>>,
    members: &Vec<usize>,
    depth: usize,
    Ghost(prefix): Ghost<Seq<Seq<char>>>,
    t: &Vec<char>,
) -> (sub: Vec<usize>)
    requires
        comps_agree(comps@, cv),
        prefix.len() == depth,
        members_ok(cv, prefix, members@),
    ensures
        members_ok(cv, prefix.push(t@), sub@),
        forall|x: int| 0 <= x < sub@.len() ==> holds_index(members@, #[trigger] sub@[x] as int),
{
    let mut sub: Vec<usize> = Vec::new();
    let mut x: usize = 0;
    while x < members.len()
        invariant
            x <= members@.len(),
            comps_agree(comps@, cv),
            prefix.len() == depth,
            members_ok(cv, prefix, members@),
            forall|y: int| 0 <= y < sub@.len() ==> under(cv, prefix.push(t@), #[trigger] sub@[y] as int),
            forall|y: int| 0 <= y < sub@.len() ==> holds_index(members@, #[trigger] sub@[y] as int),
            forall|a: int, b: int| 0 <= a < b < sub@.len() ==> sub@[a] < sub@[b],
            forall|y: int| 0 <= y < sub@.len() ==> (#[trigger] sub@[y]) < (if x < members@.len() {
                members@[x as int] as int
            } else {
                cv.len() as int
            }) || x == members@.len(),
            forall|y: int|
                0 <= y < x ==> (under(cv, prefix.push(t@), #[trigger] members@[y] as int) ==> holds_index(
                    sub@,
                    members@[y] as int,
                )),
        decreases members@.len() - x,
    {
        let m = members[x];
        let c = &comps[m];
        assert(under(cv, prefix, m as int));
        assert(views(c@) == cv[m as int]);
        proof {
            lemma_under_child(cv, prefix, t@, m as int);
        }
        let keep_it = if c.len() > depth + 1 {
            assert(c@[depth as int]@ == cv[m as int][depth as int]);
            chars_eq(c[depth].as_slice(), t.as_slice())
        } else {
            false
        };
        if keep_it {
            let ghost before = sub@;
            sub.push(m);
            proof {
                assert(sub@[before.len() as int] == m);
                assert(holds_index(members@, m as int));
                assert forall|y: int| 0 <= y <= x implies (under(cv, prefix.push(t@), #[trigger] members@[y] as int)
                    ==> holds_index(sub@, members@[y] as int)) by {
                    if y < x && under(cv, prefix.push(t@), members@[y] as int) {
                        let w = choose|w: int| 0 <= w < before.len() && before[w] as int == members@[y] as int;
                        assert(sub@[w] == before[w]);
                    }
                }
            }
        }
        proof {
            if x + 1 < members@.len() {
                assert(members@[x as int] < members@[x + 1]);
            }
        }
        x = x + 1;
    }
    proof {
        assert forall|i: int| #[trigger] under(cv, prefix.push(t@), i) implies holds_index(sub@, i) by {
            lemma_under_child(cv, prefix, t@, i);
            let y = choose|y: int| 0 <= y < members@.len() && members@[y] as int == i;
            assert(members@[y] as int == i);
        }
    }
    sub
}

/// The nodes of folder `prefix`, whose path text is `prefix_text`: its
/// subfolders, each with its own children, and its DAT leaves, in key order.
fn build_level(
    comps: &Vec<Vec<Vec<char>>>,
    Ghost(cv): Ghost<Seq<Seq<Seq<char>>>>,
    members: &Vec<usize>,
    depth: usize,
    prefix_text: &Vec<char>,
    Ghost(prefix): Ghost<Seq<Seq<char>>>,
    Ghost(bound): Ghost<int>,
) -> (nodes: Vec<SourceTreeNode>)
    requires
        comps_agree(comps@, cv),
        prefix.len() == depth,
        members_ok(cv, prefix, members@),
        prefix_text@ == folder_path(prefix),
        bound <= usize::MAX,
        forall|x: int| 0 <= x < members@.len() ==> cv[#[trigger] members@[x] as int].len() <= bound,
    ensures
        level_ok(cv, prefix, nodes@),
        tree_ok(cv, prefix, nodes@, 0),
    decreases bound - depth,
{
    let (folders, dats) = collect_level(comps, Ghost(cv), members, depth, Ghost(prefix));
    let mut nodes: Vec<SourceTreeNode> = Vec::new();
    let mut f: usize = 0;
    while f < folders.len()
        invariant
            f <= folders@.len(),
            nodes@.len() == f,
            comps_agree(comps@, cv),
            prefix.len() == depth,
            members_ok(cv, prefix, members@),
            prefix_text@ == folder_path(prefix),
            bound <= usize::MAX,
            forall|x: int| 0 <= x < members@.len() ==> cv[#[trigger] members@[x] as int].len() <= bound,
            forall|g: int| 0 <= g < folders@.len() ==> folder_here(cv, prefix, #[trigger] folders@[g]@),
            forall|g: int|
                0 <= g < f ==> {
                    &&& (#[trigger] nodes@[g]) is Folder
                    &&& nodes@[g]->title@ == folders@[g]@
                    &&& node_good(cv, prefix, nodes@[g])
                },
        decreases folders@.len() - f,
    {
        let t = &folders[f];
        assert(folder_here(cv, prefix, t@));
        let sub = sub_members(comps, Ghost(cv), members, depth, Ghost(prefix), t);
        let mut child_text = copy_chars(prefix_text);
        join_chars(&mut child_text, t.as_slice());
        let ghost child = prefix.push(t@);
        proof {
            assert(child.drop_last() =~= prefix);
            assert(child.last() == t@);
            assert(child_text@ == folder_path(child));
            let i = choose|i: int|
                #[trigger] under(cv, prefix, i) && cv[i].len() > prefix.len() + 1 && cv[i][prefix.len() as int]
                    == t@;
            let y = choose|y: int| 0 <= y < members@.len() && members@[y] as int == i;
            assert(cv[members@[y] as int].len() <= bound);
            assert forall|x: int| 0 <= x < sub@.len() implies cv[#[trigger] sub@[x] as int].len() <= bound by {
                let w = choose|w: int| 0 <= w < members@.len() && members@[w] as int == sub@[x] as int;
                assert(cv[members@[w] as int].len() <= bound);
            }
        }
        let children = build_level(comps, Ghost(cv), &sub, depth + 1, &child_text, Ghost(child), Ghost(bound));
        let node = SourceTreeNode::Folder {
            path: string_of(child_text.as_slice()),
            title: string_of(t.as_slice()),
            children,
        };
        nodes.push(node);
        f = f + 1;
    }
    let mut d: usize = 0;
    while d < dats.len()
        invariant
            d <= dats@.len(),
            nodes@.len() == folders@.len() + d,
            comps_agree(comps@, cv),
            prefix.len() == depth,
            forall|e: int| 0 <= e < dats@.len() ==> dat_here(cv, prefix, #[trigger] dats@[e] as int),
            forall|g: int|
                0 <= g < folders@.len() ==> {
                    &&& (#[trigger] nodes@[g]) is Folder
                    &&& nodes@[g]->title@ == folders@[g]@
                    &&& node_good(cv, prefix, nodes@[g])
                },
            forall|e: int|
                0 <= e < d ==> #[trigger] nodes@[folders@.len() + e] == (SourceTreeNode::Dat {
                    source_index: dats@[e],
                }),
        decreases dats@.len() - d,
    {
        nodes.push(SourceTreeNode::Dat { source_index: dats[d] });
        d = d + 1;
    }
    let ghost all = nodes@;
    let ghost nf = folders@.len() as int;
    proof {
        assert forall|k: int| 0 <= k < all.len() implies node_good(cv, prefix, #[trigger] all[k]) by {
            if k >= nf {
                assert(all[nf + (k - nf)] == (SourceTreeNode::Dat { source_index: dats@[k - nf] }));
            }
        }
        assert forall|a: int, b: int|
            0 <= a < all.len() && 0 <= b < all.len() && a != b implies node_key(cv, depth as int, all[a])
                != node_key(cv, depth as int, all[b]) by {
            if a >= nf {
                assert(all[nf + (a - nf)] == (SourceTreeNode::Dat { source_index: dats@[a - nf] }));
            }
            if b >= nf {
                assert(all[nf + (b - nf)] == (SourceTreeNode::Dat { source_index: dats@[b - nf] }));
            }
            if a >= nf && b >= nf {
                assert(dats@[a - nf] != dats@[b - nf]) by {
                    if a < b {
                        assert(dats@[a - nf] < dats@[b - nf]);
                    } else {
                        assert(dats@[b - nf] < dats@[a - nf]);
                    }
                }
            }
        }
    }
    let out = sort_level(comps, Ghost(cv), depth, Ghost(prefix), nodes);
    proof {
        assert forall|i: int| #[trigger] dat_here(cv, prefix, i) implies exists|k: int|
            0 <= k < out@.len() && out@[k] == (SourceTreeNode::Dat { source_index: i as usize }) by {
            let e = choose|e: int| 0 <= e < dats@.len() && dats@[e] as int == i;
            assert(all[nf + e] == (SourceTreeNode::Dat { source_index: dats@[e] }));
            assert(holds_node(out@, all[nf + e]));
        }
        assert forall|t: Seq<char>| #[trigger] folder_here(cv, prefix, t) implies exists|k: int|
            0 <= k < out@.len() && out@[k] is Folder && (#[trigger] out@[k]->title)@ == t by {
            let g = choose|g: int| 0 <= g < folders@.len() && #[trigger] folders@[g]@ == t;
            assert(all[g] is Folder && all[g]->title@ == t);
            assert(holds_node(out@, all[g]));
            let k = choose|k: int| 0 <= k < out@.len() && out@[k] == all[g];
            assert(out@[k]->title@ == t);
        }
        assert forall|k: int| 0 <= k < out@.len() implies node_tree_ok(cv, prefix, #[trigger] out@[k]) by {
            assert(node_good(cv, prefix, out@[k]));
        }
        lemma_tree_ok(cv, prefix, out@, 0);
    }
    out
}

/// DAT `i` is placed in `nodes`, the level of folder `prefix`: as a leaf when
/// its file lies directly in the folder, else inside the subfolder named by
/// its next component.
pub open spec fn placed(comps: Seq<Seq<Seq<char>>>, prefix: Seq<Seq<char>>, nodes: Seq<SourceTreeNode>, i: int) -> bool
    decreases comps[i].len() - prefix.len(),
{
    if comps[i].len() == prefix.len() + 1 {
        exists|k: int| 0 <= k < nodes.len() && nodes[k] == (SourceTreeNode::Dat { source_index: i as usize })
    } else if comps[i].len() > prefix.len() + 1 {
        exists|k: int|
            0 <= k < nodes.len() && (#[trigger] nodes[k]) is Folder && nodes[k]->title@ == comps[i][prefix.len() as int]
                && placed(comps, prefix.push(comps[i][prefix.len() as int]), nodes[k]->children@, i)
    } else {
        false
    }
}

proof fn lemma_tree_ok_at(comps: Seq<Seq<Seq<char>>>, prefix: Seq<Seq<char>>, nodes: Seq<SourceTreeNode>, j: int, k: int)
    requires
        0 <= j <= k < nodes.len(),
        tree_ok(comps, prefix, nodes, j),
    ensures
        node_tree_ok(comps, prefix, nodes[k]),
    decreases k - j,
{
    if j < k {
        lemma_tree_ok_at(comps, prefix, nodes, j + 1, k);
    }
}

proof fn lemma_placed(comps: Seq<Seq<Seq<char>>>, prefix: Seq<Seq<char>>, nodes: Seq<SourceTreeNode>, i: int)
    requires
        under(comps, prefix, i),
        level_ok(comps, prefix, nodes),
        tree_ok(comps, prefix, nodes, 0),
    ensures
        placed(comps, prefix, nodes, i),
    decreases comps[i].len() - prefix.len(),
{
    if comps[i].len() == prefix.len() + 1 {
        assert(dat_here(comps, prefix, i));
    } else {
        let t = comps[i][prefix.len() as int];
        assert(folder_here(comps, prefix, t));
        let k = choose|k: int| 0 <= k < nodes.len() && nodes[k] is Folder && (#[trigger] nodes[k]->title)@ == t;
        lemma_tree_ok_at(comps, prefix, nodes, 0, k);
        lemma_under_child(comps, prefix, t, i);
        lemma_placed(comps, prefix.push(t), nodes[k]->children@, i);
    }
}

/// In a tree built from `paths` (as `build_source_tree` ensures), every path
/// with at least one component has its DAT leaf at the place its folders name.
pub proof fn law_every_dat_is_placed(paths: Seq<String>, tree: Seq<SourceTreeNode>, i: int)
    requires
        level_ok(all_components(paths), Seq::empty(), tree),
        tree_ok(all_components(paths), Seq::empty(), tree, 0),
        0 <= i < paths.len(),
        components(paths[i]@).len() > 0,
    ensures
        placed(all_components(paths), Seq::empty(), tree, i),
{
    let cv = all_components(paths);
    assert(cv[i] == components(paths[i]@));
    assert(cv[i].take(0) =~= Seq::<Seq<char>>::empty());
    lemma_placed(cv, Seq::empty(), tree, i);
}

/// One level of a built tree: its nodes are sorted by title, folders before
/// DAT leaves of the same title and DAT leaves of the same title by source
/// index; no two folders share a title; a DAT leaf stands exactly for a path
/// whose file lies directly in this folder, none twice; and every folder holds,
/// placed inside it, the DAT of some path below it.
pub proof fn law_tree_level(comps: Seq<Seq<Seq<char>>>, prefix: Seq<Seq<char>>, nodes: Seq<SourceTreeNode>)
    requires
        level_ok(comps, prefix, nodes),
        tree_ok(comps, prefix, nodes, 0),
    ensures
        forall|a: int, b: int|
            0 <= a < b < nodes.len() ==> key3_lt(
                node_key(comps, prefix.len() as int, nodes[a]),
                node_key(comps, prefix.len() as int, nodes[b]),
            ),
        forall|a: int, b: int|
            0 <= a < b < nodes.len() && nodes[a] is Folder && nodes[b] is Folder ==> nodes[a]->title@
                != nodes[b]->title@,
        forall|a: int, b: int| 0 <= a < b < nodes.len() ==> nodes[a] != nodes[b],
        forall|i: int|
            0 <= i <= usize::MAX ==> (#[trigger] dat_here(comps, prefix, i) <==> exists|k: int|
                0 <= k < nodes.len() && nodes[k] == (SourceTreeNode::Dat { source_index: i as usize })),
        forall|k: int|
            0 <= k < nodes.len() && (#[trigger] nodes[k]) is Folder ==> exists|i: int|
                under(comps, prefix.push(nodes[k]->title@), i) && placed(
                    comps,
                    prefix.push(nodes[k]->title@),
                    nodes[k]->children@,
                    i,
                ),
{
    let d = prefix.len() as int;
    assert forall|a: int, b: int|
        0 <= a < b < nodes.len() && nodes[a] is Folder && nodes[b] is Folder implies nodes[a]->title@
            != nodes[b]->title@ by {
        lemma_key3(node_key(comps, d, nodes[a]), node_key(comps, d, nodes[b]), node_key(comps, d, nodes[b]));
    }
    assert forall|a: int, b: int| 0 <= a < b < nodes.len() implies nodes[a] != nodes[b] by {
        lemma_key3(node_key(comps, d, nodes[a]), node_key(comps, d, nodes[b]), node_key(comps, d, nodes[b]));
    }
    assert forall|i: int|
        0 <= i <= usize::MAX implies (#[trigger] dat_here(comps, prefix, i) <==> exists|k: int|
            0 <= k < nodes.len() && nodes[k] == (SourceTreeNode::Dat { source_index: i as usize })) by {
        if exists|k: int| 0 <= k < nodes.len() && nodes[k] == (SourceTreeNode::Dat { source_index: i as usize }) {
            let k = choose|k: int| 0 <= k < nodes.len() && nodes[k] == (SourceTreeNode::Dat { source_index: i as usize });
            assert(dat_here(comps, prefix, nodes[k]->source_index as int));
            assert(under(comps, prefix, i as usize as int));
        }
    }
    assert forall|k: int| 0 <= k < nodes.len() && (#[trigger] nodes[k]) is Folder implies exists|i: int|
        under(comps, prefix.push(nodes[k]->title@), i) && placed(
            comps,
            prefix.push(nodes[k]->title@),
            nodes[k]->children@,
            i,
        ) by {
        let t = nodes[k]->title@;
        assert(folder_here(comps, prefix, t));
        let i = choose|i: int|
            #[trigger] under(comps, prefix, i) && comps[i].len() > prefix.len() + 1 && comps[i][prefix.len() as int] == t;
        lemma_under_child(comps, prefix, t, i);
        lemma_tree_ok_at(comps, prefix, nodes, 0, k);
        lemma_placed(comps, prefix.push(t), nodes[k]->children@, i);
    }
}

/// The Sources pane hierarchy of the configured DAT paths, built from their
/// text alone without reading any directory.
///
/// Each level lists the folders and DAT files directly in it, ordered by title;
/// a folder goes before a DAT file of the same title, and DAT files of the same
/// title keep the order of `paths`. Paths without components are left out.
pub fn build_source_tree(paths: &[String]) -> (tree: Vec<SourceTreeNode>)
    ensures
        level_ok(all_components(paths@), Seq::empty(), tree@),
        tree_ok(all_components(paths@), Seq::empty(), tree@, 0),
{
    let ghost cv = all_components(paths@);
    let mut comps: Vec<Vec<Vec<char>>> = Vec::with_capacity(paths.len());
    let mut members: Vec<usize> = Vec::new();
    let mut longest: usize = 0;
    let mut i: usize = 0;
    while i < paths.len()
        invariant
            i <= paths@.len(),
            cv == all_components(paths@),
            comps@.len() == i,
            forall|j: int| 0 <= j < i ==> views(#[trigger] comps@[j]@) == cv[j],
            forall|j: int| 0 <= j < i ==> cv[j].len() <= longest,
            forall|x: int| 0 <= x < members@.len() ==> (#[trigger] members@[x]) < i && cv[members@[x] as int].len() > 0,
            forall|a: int, b: int| 0 <= a < b < members@.len() ==> members@[a] < members@[b],
            forall|j: int| 0 <= j < i && cv[j].len() > 0 ==> holds_index(members@, j),
        decreases paths@.len() - i,
    {
        let chars = chars_of(paths[i].as_str());
        let c = path_components(chars.as_slice());
        assert(views(c@) == cv[i as int]);
        if c.len() > longest {
            longest = c.len();
        }
        if c.len() > 0 {
            let ghost before = members@;
            members.push(i);
            proof {
                assert(members@[before.len() as int] == i);
                assert forall|j: int| 0 <= j < i && cv[j].len() > 0 implies holds_index(members@, j) by {
                    assert(holds_index(before, j));
                    let w = choose|w: int| 0 <= w < before.len() && before[w] as int == j;
                    assert(members@[w] == before[w]);
                }
            }
        }
        comps.push(c);
        i = i + 1;
    }
    let ghost root: Seq<Seq<char>> = Seq::empty();
    proof {
        assert forall|j: int| 0 <= j < cv.len() implies views(#[trigger] comps@[j]@) == cv[j] by {}
        assert forall|x: int| 0 <= x < members@.len() implies under(cv, root, #[trigger] members@[x] as int) by {
            assert(cv[members@[x] as int].take(0) =~= root);
        }
        assert forall|j: int| #[trigger] under(cv, root, j) implies holds_index(members@, j) by {}
    }
    let top: Vec<char> = Vec::new();
    assert(top@ =~= folder_path(root));
    build_level(&comps, Ghost(cv), &members, 0, &top, Ghost(root), Ghost(longest as int))
}

} // verus!
