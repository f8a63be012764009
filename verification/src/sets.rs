//! The Sets pane's rows and their column sorting: clicking a header cycles
//! ascending, descending and the original DAT order; another header starts
//! ascending. Sorting is stable.

use vstd::prelude::*;
use crate::text::{lemma_seq_lt_asymmetric, lemma_seq_lt_irreflexive, lemma_seq_lt_total, lemma_seq_lt_transitive, seq_lt, str_lt};

verus! {

/// One set row: name, displayed status, and the Present, Missing,
/// MissingInArchive and nodump counts (blank until verified).
#[derive(Clone, Debug, PartialEq, Eq)]
pub struct SetRow {
    pub name: String,
    pub status: String,
    pub counts: [Option<usize>; 4],
}

#[derive(Clone, Copy, Debug, PartialEq, Eq, Structural)]
pub enum SetSortColumn {
    Name,
    Status,
    Present,
    Missing,
    MissingInArchive,
    NoDump,
}

#[derive(Clone, Copy, Debug, PartialEq, Eq, Structural)]
pub enum SortDirection {
    Ascending,
    Descending,
}

/// The sort in force, if any.
#[derive(Clone, Copy, Debug, Default, PartialEq, Eq)]
pub struct SetSortState(pub Option<(SetSortColumn, SortDirection)>);

/// A header click: the same column goes ascending, then descending, then
/// back to no sort; a different column starts ascending.
pub open spec fn next_sort(
    s: Option<(SetSortColumn, SortDirection)>,
    column: SetSortColumn,
) -> Option<(SetSortColumn, SortDirection)> {
    match s {
        Some((current, SortDirection::Ascending)) => if current == column {
            Some((column, SortDirection::Descending))
        } else {
            Some((column, SortDirection::Ascending))
        },
        Some((current, SortDirection::Descending)) => if current == column {
            None
        } else {
            Some((column, SortDirection::Ascending))
        },
        None => Some((column, SortDirection::Ascending)),
    }
}

impl SetSortState {
    /// The state after clicking `column`'s header.
    pub fn cycle(self, column: SetSortColumn) -> (next: Self)
        ensures
            next.0 == next_sort(self.0, column),
    {
        SetSortState(
            match self.0 {
                Some((current, SortDirection::Ascending)) => if current == column {
                    Some((column, SortDirection::Descending))
                } else {
                    Some((column, SortDirection::Ascending))
                },
                Some((current, SortDirection::Descending)) => if current == column {
                    None
                } else {
                    Some((column, SortDirection::Ascending))
                },
                None => Some((column, SortDirection::Ascending)),
            },
        )
    }
}

/// Three clicks on one header from the unsorted state go ascending,
/// descending and back to unsorted (the original DAT order).
pub proof fn law_three_clicks_restore_order(column: SetSortColumn)
    ensures
        next_sort(None, column) == Some((column, SortDirection::Ascending)),
        next_sort(next_sort(None, column), column) == Some((column, SortDirection::Descending)),
        next_sort(next_sort(next_sort(None, column), column), column) == None::<
            (SetSortColumn, SortDirection),
        >,
{
}

/// A click on a column other than the sorted one starts it ascending.
pub proof fn law_new_column_starts_ascending(
    s: Option<(SetSortColumn, SortDirection)>,
    column: SetSortColumn,
)
    requires
        !(s matches Some((c, _)) && c == column),
    ensures
        next_sort(s, column) == Some((column, SortDirection::Ascending)),
{
}

/// What a column sorts by.
pub enum SortKey {
    Text(Seq<char>),
    Count(Option<usize>),
}

pub open spec fn sort_key(row: SetRow, column: SetSortColumn) -> SortKey {
    match column {
        SetSortColumn::Name => SortKey::Text(row.name@),
        SetSortColumn::Status => SortKey::Text(row.status@),
        SetSortColumn::Present => SortKey::Count(row.counts@[0]),
        SetSortColumn::Missing => SortKey::Count(row.counts@[1]),
        SetSortColumn::MissingInArchive => SortKey::Count(row.counts@[2]),
        SetSortColumn::NoDump => SortKey::Count(row.counts@[3]),
    }
}

/// Ascending key order: text case-sensitively by code point; counts
/// numerically, a blank count before every number.
pub open spec fn key_lt(a: SortKey, b: SortKey) -> bool {
    match (a, b) {
        (SortKey::Text(x), SortKey::Text(y)) => seq_lt(x, y),
        (SortKey::Count(None), SortKey::Count(Some(_))) => true,
        (SortKey::Count(Some(x)), SortKey::Count(Some(y))) => x < y,
        _ => false,
    }
}

/// Row `a` goes strictly before row `b`.
pub open spec fn goes_before(a: SetRow, b: SetRow, column: SetSortColumn, dir: SortDirection) -> bool {
    match dir {
        SortDirection::Ascending => key_lt(sort_key(a, column), sort_key(b, column)),
        SortDirection::Descending => key_lt(sort_key(b, column), sort_key(a, column)),
    }
}

/// `perm` is a permutation of `0..n`.
pub open spec fn is_permutation(perm: Seq<int>, n: int) -> bool {
    &&& perm.len() == n
    &&& forall|k: int| 0 <= k < n ==> 0 <= #[trigger] perm[k] < n
    &&& forall|a: int, b: int| 0 <= a < n && 0 <= b < n && a != b ==> perm[a] != perm[b]
}

/// `out` is `input` stably sorted: a rearrangement of it in which no row
/// goes before an earlier one, and rows with equal keys keep their order.
pub open spec fn stably_sorted(
    input: Seq<SetRow>,
    out: Seq<SetRow>,
    column: SetSortColumn,
    dir: SortDirection,
) -> bool {
    exists|perm: Seq<int>|
        {
            &&& is_permutation(perm, input.len() as int)
            &&& out.len() == input.len()
            &&& forall|k: int| 0 <= k < out.len() ==> #[trigger] out[k] == input[perm[k]]
            &&& forall|a: int, b: int|
                0 <= a < b < out.len() ==> !goes_before(out[b], out[a], column, dir)
            &&& forall|a: int, b: int|
                0 <= a < b < out.len() && !goes_before(out[a], out[b], column, dir) ==> perm[a]
                    < perm[b]
        }
}

proof fn lemma_key_order(a: SortKey, b: SortKey, c: SortKey)
    ensures
        !key_lt(a, a),
        key_lt(a, b) && key_lt(b, c) ==> key_lt(a, c),
        !(key_lt(a, b) && key_lt(b, a)),
        (a is Text && b is Text) || (a is Count && b is Count) ==> (a == b || key_lt(a, b) || key_lt(b, a)),
{
    match (a, b, c) {
        (SortKey::Text(x), SortKey::Text(y), SortKey::Text(z)) => {
            lemma_seq_lt_irreflexive(x);
            lemma_seq_lt_asymmetric(x, y);
            lemma_seq_lt_total(x, y);
            if seq_lt(x, y) && seq_lt(y, z) {
                lemma_seq_lt_transitive(x, y, z);
            }
        },
        (SortKey::Text(x), SortKey::Text(y), _) => {
            lemma_seq_lt_irreflexive(x);
            lemma_seq_lt_asymmetric(x, y);
            lemma_seq_lt_total(x, y);
        },
        (SortKey::Text(x), _, _) => {
            lemma_seq_lt_irreflexive(x);
        },
        _ => {},
    }
}

/// "Not before" is transitive for rows sorted on one column.
proof fn lemma_not_before_trans(a: SetRow, b: SetRow, c: SetRow, column: SetSortColumn, dir: SortDirection)
    requires
        !goes_before(a, b, column, dir),
        !goes_before(b, c, column, dir),
    ensures
        !goes_before(a, c, column, dir),
{
    let (ka, kb, kc) = (sort_key(a, column), sort_key(b, column), sort_key(c, column));
    lemma_key_order(ka, kb, kc);
    lemma_key_order(kb, kc, ka);
    lemma_key_order(kc, ka, kb);
    lemma_key_order(ka, kc, kb);
    lemma_key_order(kb, ka, kc);
    lemma_key_order(kc, kb, ka);
}

proof fn lemma_before_facts(a: SetRow, b: SetRow, column: SetSortColumn, dir: SortDirection)
    ensures
        !goes_before(a, a, column, dir),
        !(goes_before(a, b, column, dir) && goes_before(b, a, column, dir)),
{
    lemma_key_order(sort_key(a, column), sort_key(b, column), sort_key(a, column));
}

fn count_lt(a: Option<usize>, b: Option<usize>) -> (lt: bool)
    ensures
        lt == key_lt(SortKey::Count(a), SortKey::Count(b)),
{
    match (a, b) {
        (None, Some(_)) => true,
        (Some(x), Some(y)) => x < y,
        _ => false,
    }
}

fn key_before(a: &SetRow, b: &SetRow, column: SetSortColumn) -> (lt: bool)
    ensures
        lt == key_lt(sort_key(*a, column), sort_key(*b, column)),
{
    match column {
        SetSortColumn::Name => str_lt(a.name.as_str(), b.name.as_str()),
        SetSortColumn::Status => str_lt(a.status.as_str(), b.status.as_str()),
        SetSortColumn::Present => count_lt(a.counts[0], b.counts[0]),
        SetSortColumn::Missing => count_lt(a.counts[1], b.counts[1]),
        SetSortColumn::MissingInArchive => count_lt(a.counts[2], b.counts[2]),
        SetSortColumn::NoDump => count_lt(a.counts[3], b.counts[3]),
    }
}

fn row_before(a: &SetRow, b: &SetRow, column: SetSortColumn, dir: SortDirection) -> (lt: bool)
    ensures
        lt == goes_before(*a, *b, column, dir),
{
    match dir {
        SortDirection::Ascending => key_before(a, b, column),
        SortDirection::Descending => key_before(b, a, column),
    }
}

/// Sorts the set rows for the given sort state; with no sort the rows keep
/// their original order.
pub fn sort_set_rows(rows: &mut Vec<SetRow>, state: SetSortState)
    ensures
        match state.0 {
            None => final(rows)@ == old(rows)@,
            Some((column, dir)) => stably_sorted(old(rows)@, final(rows)@, column, dir),
        },
{
    let (column, dir) = match state.0 {
        None => {
            return;
        },
        Some(s) => s,
    };
    let ghost input = rows@;
    let ghost mut perm: Seq<int> = Seq::new(rows@.len(), |k: int| k);
    let n = rows.len();
    let mut i: usize = 0;
    while i < n
        invariant
            0 <= i <= n,
            n == input.len(),
            rows@.len() == n,
            perm.len() == n,
            forall|k: int| 0 <= k < n ==> #[trigger] rows@[k] == input[perm[k]],
            forall|k: int| i <= k < n ==> #[trigger] perm[k] == k,
            forall|k: int| 0 <= k < i ==> 0 <= #[trigger] perm[k] < i,
            forall|a: int, b: int| 0 <= a < n && 0 <= b < n && a != b ==> perm[a] != perm[b],
            forall|a: int, b: int|
                0 <= a < b < i ==> !goes_before(rows@[b], rows@[a], column, dir),
            forall|a: int, b: int|
                0 <= a < b < i && !goes_before(rows@[a], rows@[b], column, dir) ==> perm[a] < perm[b],
        decreases n - i,
    {
        let ghost before_rows = rows@;
        let x = rows.remove(i);
        let mut p: usize = i;
        while p > 0 && row_before(&x, &rows[p - 1], column, dir)
            invariant
                p <= i < n,
                before_rows.len() == n,
                rows@ == before_rows.remove(i as int),
                x == before_rows[i as int],
                forall|k: int| p <= k < i ==> goes_before(x, #[trigger] rows@[k], column, dir),
            decreases p,
        {
            p = p - 1;
        }
        rows.insert(p, x);
        proof {
            let old_perm = perm;
            perm = old_perm.take(p as int).push(i as int) + old_perm.subrange(p as int, i as int)
                + old_perm.skip(i + 1);
            assert(rows@ =~= before_rows.take(p as int).push(x) + before_rows.subrange(
                p as int,
                i as int,
            ) + before_rows.skip(i + 1));
            assert forall|k: int| 0 <= k < n implies #[trigger] rows@[k] == input[perm[k]] by {
                if k < p {
                    assert(rows@[k] == before_rows[k]);
                } else if k == p {
                } else if k <= i {
                    assert(rows@[k] == before_rows[k - 1]);
                    assert(perm[k] == old_perm[k - 1]);
                } else {
                    assert(rows@[k] == before_rows[k]);
                }
            }
            assert forall|k: int| i + 1 <= k < n implies #[trigger] perm[k] == k by {}
            assert forall|k: int| 0 <= k < i + 1 implies 0 <= #[trigger] perm[k] < i + 1 by {
                if k < p {
                } else if k == p {
                } else {
                    assert(perm[k] == old_perm[k - 1]);
                }
            }
            assert forall|a: int, b: int| 0 <= a < n && 0 <= b < n && a != b implies perm[a]
                != perm[b] by {
                let oa = if a < p {
                    a
                } else if a == p {
                    i as int
                } else if a <= i {
                    a - 1
                } else {
                    a
                };
                let ob = if b < p {
                    b
                } else if b == p {
                    i as int
                } else if b <= i {
                    b - 1
                } else {
                    b
                };
                assert(perm[a] == old_perm[oa]);
                assert(perm[b] == old_perm[ob]);
            }
            assert forall|a: int, b: int| 0 <= a < b < i + 1 implies !goes_before(
                rows@[b],
                rows@[a],
                column,
                dir,
            ) by {
                if b < p {
                    assert(rows@[a] == before_rows[a] && rows@[b] == before_rows[b]);
                } else if b == p {
                    assert(rows@[a] == before_rows[a]);
                    if p > 0 {
                        assert(rows@[p - 1] == before_rows[p - 1]);
                        assert(!goes_before(x, before_rows[p - 1], column, dir));
                        if a < p - 1 {
                            lemma_not_before_trans(x, before_rows[p - 1], before_rows[a], column, dir);
                        }
                    }
                } else if a == p {
                    assert(rows@[b] == before_rows[b - 1]);
                    assert(goes_before(x, rows@[b], column, dir)) by {
                        assert(rows@[b] == before_rows.remove(i as int)[b - 1]);
                    }
                    lemma_before_facts(x, rows@[b], column, dir);
                } else {
                    let oa = if a < p {
                        a
                    } else {
                        a - 1
                    };
                    assert(rows@[a] == before_rows[oa]);
                    assert(rows@[b] == before_rows[b - 1]);
                }
            }
            assert forall|a: int, b: int|
                0 <= a < b < i + 1 && !goes_before(rows@[a], rows@[b], column, dir) implies perm[a]
                < perm[b] by {
                if b < p {
                    assert(rows@[a] == before_rows[a] && rows@[b] == before_rows[b]);
                } else if b == p {
                    assert(perm[a] == old_perm[a]);
                } else if a == p {
                    assert(rows@[b] == before_rows.remove(i as int)[b - 1]);
                } else {
                    let oa = if a < p {
                        a
                    } else {
                        a - 1
                    };
                    assert(rows@[a] == before_rows[oa]);
                    assert(rows@[b] == before_rows[b - 1]);
                    assert(perm[a] == old_perm[oa]);
                    assert(perm[b] == old_perm[b - 1]);
                }
            }
        }
        i = i + 1;
    }
    assert(is_permutation(perm, input.len() as int));
}

} // verus!
