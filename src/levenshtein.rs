//! The edit distance as a mathematical function, and the facts about it that
//! the algorithms rely on.
use vstd::prelude::*;

verus! {

pub open spec fn min3(a: int, b: int, c: int) -> int {
    if a <= b && a <= c {
        a
    } else if b <= c {
        b
    } else {
        c
    }
}

/// Cost of aligning byte `a` against byte `b`.
pub open spec fn subst_cost(a: u8, b: u8) -> int {
    if a == b {
        0
    } else {
        1
    }
}

/// Levenshtein distance: the least number of single-byte insertions,
/// deletions and substitutions that turn `a` into `b`.
pub open spec fn edit_distance(a: Seq<u8>, b: Seq<u8>) -> int
    decreases a.len() + b.len(),
{
    if a.len() == 0 {
        b.len() as int
    } else if b.len() == 0 {
        a.len() as int
    } else {
        min3(
            edit_distance(a.drop_last(), b.drop_last()) + subst_cost(a.last(), b.last()),
            edit_distance(a.drop_last(), b) + 1,
            edit_distance(a, b.drop_last()) + 1,
        )
    }
}

/// Cell `(i, j)` of the dynamic-programming matrix of `q` against `t`: the
/// distance between the first `i` bytes of `q` and the first `j` bytes of `t`.
pub open spec fn cell(q: Seq<u8>, t: Seq<u8>, i: int, j: int) -> int {
    edit_distance(q.take(i), t.take(j))
}

/// The matrix recurrence.
pub proof fn lemma_cell(q: Seq<u8>, t: Seq<u8>, i: int, j: int)
    requires
        0 <= i <= q.len(),
        0 <= j <= t.len(),
    ensures
        i == 0 ==> cell(q, t, i, j) == j,
        j == 0 ==> cell(q, t, i, j) == i,
        i > 0 && j > 0 ==> cell(q, t, i, j) == min3(
            cell(q, t, i - 1, j - 1) + subst_cost(q[i - 1], t[j - 1]),
            cell(q, t, i - 1, j) + 1,
            cell(q, t, i, j - 1) + 1,
        ),
{
    if i > 0 && j > 0 {
        assert(q.take(i).drop_last() =~= q.take(i - 1));
        assert(t.take(j).drop_last() =~= t.take(j - 1));
    }
}

/// The distance is at least the difference of the lengths and at most the
/// longer length.
pub proof fn lemma_distance_bounds(a: Seq<u8>, b: Seq<u8>)
    ensures
        a.len() - b.len() <= edit_distance(a, b),
        b.len() - a.len() <= edit_distance(a, b),
        edit_distance(a, b) <= if a.len() >= b.len() { a.len() as int } else { b.len() as int },
    decreases a.len() + b.len(),
{
    if a.len() > 0 && b.len() > 0 {
        lemma_distance_bounds(a.drop_last(), b.drop_last());
        lemma_distance_bounds(a.drop_last(), b);
        lemma_distance_bounds(a, b.drop_last());
    }
}

/// With unit costs the distance does not depend on the direction: turning
/// `b` into `a` costs as much as turning `a` into `b`.
pub proof fn lemma_distance_symmetric(a: Seq<u8>, b: Seq<u8>)
    ensures
        edit_distance(a, b) == edit_distance(b, a),
    decreases a.len() + b.len(),
{
    if a.len() > 0 && b.len() > 0 {
        lemma_distance_symmetric(a.drop_last(), b.drop_last());
        lemma_distance_symmetric(a.drop_last(), b);
        lemma_distance_symmetric(a, b.drop_last());
    }
}

/// A string is at distance zero from itself.
pub proof fn lemma_distance_self(a: Seq<u8>)
    ensures
        edit_distance(a, a) == 0,
    decreases a.len(),
{
    if a.len() > 0 {
        lemma_distance_self(a.drop_last());
        lemma_distance_bounds(a.drop_last(), a);
        lemma_distance_bounds(a, a.drop_last());
    }
}

/// The whole matrix's corner is the distance of the whole strings.
pub proof fn lemma_cell_full(q: Seq<u8>, t: Seq<u8>)
    ensures
        cell(q, t, q.len() as int, t.len() as int) == edit_distance(q, t),
{
    assert(q.take(q.len() as int) =~= q);
    assert(t.take(t.len() as int) =~= t);
}

/// Adjacent cells of a column differ by at most one.
pub proof fn lemma_vertical_step(q: Seq<u8>, t: Seq<u8>, i: int, j: int)
    requires
        0 <= i < q.len(),
        0 <= j <= t.len(),
    ensures
        cell(q, t, i, j) - 1 <= cell(q, t, i + 1, j) <= cell(q, t, i, j) + 1,
    decreases j,
{
    lemma_cell(q, t, i, j);
    lemma_cell(q, t, i + 1, j);
    if j > 0 {
        lemma_cell(q, t, i, j - 1);
        lemma_vertical_step(q, t, i, j - 1);
    }
}

/// Adjacent cells of a row differ by at most one.
pub proof fn lemma_horizontal_step(q: Seq<u8>, t: Seq<u8>, i: int, j: int)
    requires
        0 <= i <= q.len(),
        0 <= j < t.len(),
    ensures
        cell(q, t, i, j) - 1 <= cell(q, t, i, j + 1) <= cell(q, t, i, j) + 1,
    decreases i,
{
    lemma_cell(q, t, i, j);
    lemma_cell(q, t, i, j + 1);
    if i > 0 {
        lemma_cell(q, t, i - 1, j);
        lemma_horizontal_step(q, t, i - 1, j);
    }
}

/// How the deltas around one matrix cell determine the deltas leaving it.
/// `vin`/`hin` are the vertical and horizontal differences entering the
/// cell's top-left corner, `vout`/`hout` those leaving it.
pub proof fn lemma_cell_deltas(a: int, b: int, c: int, d: int, eq: bool)
    requires
        -1 <= c - a <= 1,
        -1 <= b - a <= 1,
        d == min3(a + (if eq { 0int } else { 1int }), b + 1, c + 1),
    ensures
        (d - c == 1) == (c - a == -1 || !(eq || b - a == -1 || c - a == 1)),
        (d - c == -1) == (c - a == 1 && (eq || b - a == -1)),
        (d - b == 1) == (b - a == -1 || !(eq || c - a == -1 || b - a == 1)),
        (d - b == -1) == (b - a == 1 && (eq || c - a == -1)),
{
}

} // verus!
