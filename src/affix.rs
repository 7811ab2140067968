//! Trimming the common prefix and suffix of two byte strings.
use vstd::prelude::*;
use vstd::string::*;
use crate::levenshtein::{
    cell,
    edit_distance,
    lemma_cell,
    lemma_cell_full,
    lemma_horizontal_step,
    lemma_vertical_step,
};

verus! {

/// Removing a common last byte keeps the distance.
proof fn lemma_common_last(a: Seq<u8>, b: Seq<u8>)
    requires
        a.len() > 0,
        b.len() > 0,
        a.last() == b.last(),
    ensures
        edit_distance(a, b) == edit_distance(a.drop_last(), b.drop_last()),
{
    let i = a.len() - 1;
    let j = b.len() - 1;
    lemma_cell(a, b, i + 1, j + 1);
    lemma_horizontal_step(a, b, i, j);
    lemma_vertical_step(a, b, i, j);
    lemma_cell_full(a, b);
    assert(a.take(i) =~= a.drop_last());
    assert(b.take(j) =~= b.drop_last());
}

/// Row and column `k` of the matrix of `x·a` against `x·b` are row and column
/// `k - 1` of the matrix of `a` against `b`.
proof fn lemma_common_first_cells(x: u8, a: Seq<u8>, b: Seq<u8>, i: int, j: int)
    requires
        0 <= i <= a.len(),
        0 <= j <= b.len(),
    ensures
        cell(seq![x] + a, seq![x] + b, i + 1, j + 1) == cell(a, b, i, j),
    decreases i + j,
{
    let qa = seq![x] + a;
    let tb = seq![x] + b;
    lemma_cell(qa, tb, i + 1, j + 1);
    lemma_cell(qa, tb, i, j);
    lemma_cell(qa, tb, i, j + 1);
    lemma_cell(qa, tb, i + 1, j);
    lemma_cell(a, b, i, j);
    if i > 0 && j > 0 {
        lemma_common_first_cells(x, a, b, i - 1, j - 1);
        lemma_common_first_cells(x, a, b, i - 1, j);
        lemma_common_first_cells(x, a, b, i, j - 1);
        assert(qa[i] == a[i - 1]);
        assert(tb[j] == b[j - 1]);
    } else if i > 0 {
        lemma_common_first_cells(x, a, b, i - 1, j);
        lemma_cell(a, b, i - 1, j);
    } else if j > 0 {
        lemma_common_first_cells(x, a, b, i, j - 1);
        lemma_cell(a, b, i, j - 1);
    }
}

/// Removing a common prefix of length `p` keeps the distance.
pub proof fn lemma_drop_common_prefix(a: Seq<u8>, b: Seq<u8>, p: int)
    requires
        0 <= p <= a.len(),
        p <= b.len(),
        a.take(p) == b.take(p),
    ensures
        edit_distance(a, b) == edit_distance(a.skip(p), b.skip(p)),
    decreases p,
{
    if p == 0 {
        assert(a.skip(0) =~= a);
        assert(b.skip(0) =~= b);
    } else {
        let x = a[0];
        assert(a.take(p)[0] == b.take(p)[0]);
        assert(a.take(p)[0] == a[0]);
        assert(b.take(p)[0] == b[0]);
        assert(a =~= seq![x] + a.skip(1));
        assert(b =~= seq![x] + b.skip(1));
        lemma_common_first_cells(x, a.skip(1), b.skip(1), a.len() - 1, b.len() - 1);
        lemma_cell_full(a, b);
        lemma_cell_full(a.skip(1), b.skip(1));
        assert(a.skip(1).take(p - 1) =~= a.take(p).skip(1));
        assert(b.skip(1).take(p - 1) =~= b.take(p).skip(1));
        lemma_drop_common_prefix(a.skip(1), b.skip(1), p - 1);
        assert(a.skip(1).skip(p - 1) =~= a.skip(p));
        assert(b.skip(1).skip(p - 1) =~= b.skip(p));
    }
}

/// Removing a common suffix of length `s` keeps the distance.
pub proof fn lemma_drop_common_suffix(a: Seq<u8>, b: Seq<u8>, s: int)
    requires
        0 <= s <= a.len(),
        s <= b.len(),
        a.skip(a.len() - s) == b.skip(b.len() - s),
    ensures
        edit_distance(a, b) == edit_distance(a.take(a.len() - s), b.take(b.len() - s)),
    decreases s,
{
    if s == 0 {
        assert(a.take(a.len() as int) =~= a);
        assert(b.take(b.len() as int) =~= b);
    } else {
        assert(a.skip(a.len() - s)[s - 1] == b.skip(b.len() - s)[s - 1]);
        assert(a.skip(a.len() - s)[s - 1] == a.last());
        assert(b.skip(b.len() - s)[s - 1] == b.last());
        lemma_common_last(a, b);
        let a1 = a.drop_last();
        let b1 = b.drop_last();
        assert(a1.skip(a1.len() - (s - 1)) =~= a.skip(a.len() - s).drop_last());
        assert(b1.skip(b1.len() - (s - 1)) =~= b.skip(b.len() - s).drop_last());
        lemma_drop_common_suffix(a1, b1, s - 1);
        assert(a1.take(a1.len() - (s - 1)) =~= a.take(a.len() - s));
        assert(b1.take(b1.len() - (s - 1)) =~= b.take(b.len() - s));
    }
}

/// Cutting away a common prefix `q[..p] == t[..p]` and a common suffix
/// `q[qe..] == t[te..]` leaves the edit distance unchanged.
pub proof fn lemma_trim_keeps_distance(q: Seq<u8>, t: Seq<u8>, p: int, qe: int, te: int)
    requires
        0 <= p <= qe <= q.len(),
        p <= te <= t.len(),
        q.take(p) == t.take(p),
        q.skip(qe) == t.skip(te),
    ensures
        edit_distance(q, t) == edit_distance(q.subrange(p, qe), t.subrange(p, te)),
{
    let s = q.len() - qe;
    assert(q.len() - qe == t.len() - te) by {
        assert(q.skip(qe).len() == t.skip(te).len());
        assert(q.skip(qe).len() == q.len() - qe);
        assert(t.skip(te).len() == t.len() - te);
    }
    lemma_drop_common_suffix(q, t, s);
    let q1 = q.take(qe);
    let t1 = t.take(te);
    assert(q1.take(p) =~= q.take(p));
    assert(t1.take(p) =~= t.take(p));
    lemma_drop_common_prefix(q1, t1, p);
    assert(q1.skip(p) =~= q.subrange(p, qe));
    assert(t1.skip(p) =~= t.subrange(p, te));
}

/// Finds the longest common prefix of `query` and `text`, then the longest
/// common suffix of what is left after it. Returns `(p, qe, te)`: the prefix
/// length, and where the common suffix starts in `query` and in `text`.
pub fn trim(query: &str, text: &str) -> (r: (usize, usize, usize))
    ensures
        ({
            let (p, qe, te) = r;
            let q = query.spec_bytes();
            let t = text.spec_bytes();
            &&& p <= qe <= q.len()
            &&& p <= te <= t.len()
            &&& q.len() - qe == t.len() - te
            &&& q.take(p as int) == t.take(p as int)
            &&& q.skip(qe as int) == t.skip(te as int)
            &&& (p == q.len() || p == t.len() || q[p as int] != t[p as int])
            &&& (qe == p || te == p || q[qe - 1] != t[te - 1])
            &&& edit_distance(q, t) == edit_distance(q.subrange(p as int, qe as int), t.subrange(
                p as int,
                te as int,
            ))
        }),
{
    let q = query.as_bytes();
    let t = text.as_bytes();
    let qlen = q.len();
    let tlen = t.len();
    let shorter = if qlen < tlen {
        qlen
    } else {
        tlen
    };
    let mut prefix: usize = 0;
    while prefix < shorter && q[prefix] == t[prefix]
        invariant
            shorter <= qlen == q@.len(),
            shorter <= tlen == t@.len(),
            shorter == qlen || shorter == tlen,
            prefix <= shorter,
            q@.take(prefix as int) == t@.take(prefix as int),
        decreases shorter - prefix,
    {
        assert(q@.take(prefix + 1) =~= q@.take(prefix as int).push(q@[prefix as int]));
        assert(t@.take(prefix + 1) =~= t@.take(prefix as int).push(t@[prefix as int]));
        prefix += 1;
    }
    let mut suffix: usize = 0;
    while suffix < shorter - prefix && q[qlen - 1 - suffix] == t[tlen - 1 - suffix]
        invariant
            shorter <= qlen == q@.len(),
            shorter <= tlen == t@.len(),
            prefix <= shorter,
            suffix <= shorter - prefix,
            q@.skip(qlen - suffix) == t@.skip(tlen - suffix),
        decreases shorter - prefix - suffix,
    {
        assert(q@.skip(qlen - suffix - 1) =~= seq![q@[qlen - 1 - suffix]] + q@.skip(
            qlen - suffix,
        ));
        assert(t@.skip(tlen - suffix - 1) =~= seq![t@[tlen - 1 - suffix]] + t@.skip(
            tlen - suffix,
        ));
        suffix += 1;
    }
    let r = (prefix, qlen - suffix, tlen - suffix);
    proof {
        lemma_trim_keeps_distance(q@, t@, prefix as int, qlen - suffix, tlen - suffix);
    }
    r
}

} // verus!
