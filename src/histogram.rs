//! Byte histograms and the lower bound on the edit distance drawn from them.
use vstd::prelude::*;
use vstd::string::*;
use crate::levenshtein::{edit_distance, subst_cost};

verus! {

/// Occurrences of byte `c` in `s`.
pub open spec fn count(s: Seq<u8>, c: u8) -> int
    decreases s.len(),
{
    if s.len() == 0 {
        0
    } else {
        count(s.drop_last(), c) + if s.last() == c {
            1int
        } else {
            0int
        }
    }
}

pub open spec fn abs(x: int) -> int {
    if x < 0 {
        -x
    } else {
        x
    }
}

/// Sum, over the byte values below `n`, of how far the counts in `a` and `b`
/// are apart.
pub open spec fn histogram_gap(a: Seq<u8>, b: Seq<u8>, n: int) -> int
    decreases n,
{
    if n <= 0 {
        0
    } else {
        histogram_gap(a, b, n - 1) + abs(count(a, (n - 1) as u8) - count(b, (n - 1) as u8))
    }
}

/// Number of bytes of `s` whose value is below `n`.
pub open spec fn count_below(s: Seq<u8>, n: int) -> int
    decreases n,
{
    if n <= 0 {
        0
    } else {
        count_below(s, n - 1) + count(s, (n - 1) as u8)
    }
}

/// Half the histogram gap plus the length difference, rounded down.
pub open spec fn histogram_bound(a: Seq<u8>, b: Seq<u8>) -> int {
    (histogram_gap(a, b, 256) + abs(a.len() - b.len())) / 2
}

proof fn lemma_count_range(s: Seq<u8>, c: u8)
    ensures
        0 <= count(s, c) <= s.len(),
    decreases s.len(),
{
    if s.len() > 0 {
        lemma_count_range(s.drop_last(), c);
    }
}

proof fn lemma_count_below_drop(s: Seq<u8>, n: int)
    requires
        s.len() > 0,
        0 <= n <= 256,
    ensures
        count_below(s, n) == count_below(s.drop_last(), n) + if s.last() < n {
            1int
        } else {
            0int
        },
    decreases n,
{
    if n > 0 {
        lemma_count_below_drop(s, n - 1);
    }
}

/// Every byte is below 256.
proof fn lemma_count_below_all(s: Seq<u8>)
    ensures
        count_below(s, 256) == s.len(),
    decreases s.len(),
{
    if s.len() == 0 {
        lemma_count_below_zero(s, 256);
    } else {
        lemma_count_below_drop(s, 256);
        lemma_count_below_all(s.drop_last());
    }
}

proof fn lemma_count_below_zero(s: Seq<u8>, n: int)
    requires
        s.len() == 0,
    ensures
        count_below(s, n) == 0,
    decreases n,
{
    if n > 0 {
        lemma_count_below_zero(s, n - 1);
    }
}

proof fn lemma_count_below_mono(s: Seq<u8>, n: int, k: int)
    requires
        0 <= n <= k,
    ensures
        0 <= count_below(s, n) <= count_below(s, k),
    decreases k,
{
    if k > n {
        lemma_count_below_mono(s, n, k - 1);
        lemma_count_range(s, (k - 1) as u8);
    } else {
        lemma_count_below_nonneg(s, n);
    }
}

proof fn lemma_count_below_nonneg(s: Seq<u8>, n: int)
    ensures
        0 <= count_below(s, n),
    decreases n,
{
    if n > 0 {
        lemma_count_below_nonneg(s, n - 1);
        lemma_count_range(s, (n - 1) as u8);
    }
}

/// The gap is at most the two strings' counts together.
proof fn lemma_gap_bounded(a: Seq<u8>, b: Seq<u8>, n: int)
    requires
        0 <= n,
    ensures
        0 <= histogram_gap(a, b, n) <= count_below(a, n) + count_below(b, n),
    decreases n,
{
    if n > 0 {
        lemma_gap_bounded(a, b, n - 1);
        lemma_count_range(a, (n - 1) as u8);
        lemma_count_range(b, (n - 1) as u8);
    }
}

/// Against an empty string the gap is the other string's count.
proof fn lemma_gap_empty(a: Seq<u8>, b: Seq<u8>, n: int)
    requires
        a.len() == 0 || b.len() == 0,
        0 <= n,
    ensures
        histogram_gap(a, b, n) == count_below(a, n) + count_below(b, n),
    decreases n,
{
    if n > 0 {
        lemma_gap_empty(a, b, n - 1);
        lemma_count_range(a, (n - 1) as u8);
        lemma_count_range(b, (n - 1) as u8);
    }
}

/// Dropping the last byte of `a` moves the gap by at most one.
proof fn lemma_gap_drop_first(a: Seq<u8>, b: Seq<u8>, n: int)
    requires
        0 <= n <= 256,
        a.len() > 0,
    ensures
        histogram_gap(a, b, n) - 1 <= histogram_gap(a.drop_last(), b, n) <= histogram_gap(a, b, n)
            + 1,
        n <= a.last() ==> histogram_gap(a.drop_last(), b, n) == histogram_gap(a, b, n),
    decreases n,
{
    if n > 0 {
        lemma_gap_drop_first(a, b, n - 1);
        let c = (n - 1) as u8;
        assert(count(a, c) == count(a.drop_last(), c) + if a.last() == c {
            1int
        } else {
            0int
        });
    }
}

/// Dropping the last byte of `b` moves the gap by at most one.
proof fn lemma_gap_drop_second(a: Seq<u8>, b: Seq<u8>, n: int)
    requires
        0 <= n <= 256,
        b.len() > 0,
    ensures
        histogram_gap(a, b, n) - 1 <= histogram_gap(a, b.drop_last(), n) <= histogram_gap(a, b, n)
            + 1,
        n <= b.last() ==> histogram_gap(a, b.drop_last(), n) == histogram_gap(a, b, n),
    decreases n,
{
    if n > 0 {
        lemma_gap_drop_second(a, b, n - 1);
        let c = (n - 1) as u8;
        assert(count(b, c) == count(b.drop_last(), c) + if b.last() == c {
            1int
        } else {
            0int
        });
    }
}

/// Dropping the same last byte from both leaves the gap as it was.
proof fn lemma_gap_drop_both(a: Seq<u8>, b: Seq<u8>, n: int)
    requires
        0 <= n <= 256,
        a.len() > 0,
        b.len() > 0,
        a.last() == b.last(),
    ensures
        histogram_gap(a.drop_last(), b.drop_last(), n) == histogram_gap(a, b, n),
    decreases n,
{
    if n > 0 {
        lemma_gap_drop_both(a, b, n - 1);
    }
}

/// The histogram bound never exceeds the edit distance: each edit moves the
/// histogram gap by at most two and the length difference by at most one.
pub proof fn lemma_lower_bound_sound(a: Seq<u8>, b: Seq<u8>)
    ensures
        histogram_gap(a, b, 256) + abs(a.len() - b.len()) <= 2 * edit_distance(a, b),
        histogram_bound(a, b) <= edit_distance(a, b),
    decreases a.len() + b.len(),
{
    if a.len() == 0 || b.len() == 0 {
        lemma_gap_empty(a, b, 256);
        lemma_count_below_all(a);
        lemma_count_below_all(b);
    } else {
        let a1 = a.drop_last();
        let b1 = b.drop_last();
        lemma_lower_bound_sound(a1, b1);
        lemma_lower_bound_sound(a1, b);
        lemma_lower_bound_sound(a, b1);
        lemma_gap_drop_first(a, b, 256);
        lemma_gap_drop_second(a, b, 256);
        lemma_gap_drop_second(a1, b, 256);
        if a.last() == b.last() {
            lemma_gap_drop_both(a, b, 256);
        }
        assert(histogram_gap(a, b, 256) + abs(a.len() - b.len()) <= 2 * (edit_distance(a1, b1)
            + subst_cost(a.last(), b.last())));
    }
}

/// Counts of each byte value in `string`.
pub fn histogram(string: &str) -> (hist: [usize; 256])
    ensures
        forall|c: u8| #[trigger] hist[c as int] == count(string.spec_bytes(), c),
{
    let s = string.as_bytes();
    let mut hist: [usize; 256] = [0usize; 256];
    let mut i: usize = 0;
    while i < s.len()
        invariant
            i <= s@.len(),
            forall|c: u8| #[trigger] hist[c as int] == count(s@.take(i as int), c),
        decreases s@.len() - i,
    {
        let b = s[i];
        proof {
            assert(s@.take(i + 1).drop_last() =~= s@.take(i as int));
            lemma_count_range(s@.take(i as int), b);
        }
        hist[b as usize] = hist[b as usize] + 1;
        i += 1;
    }
    proof {
        assert(s@.take(s@.len() as int) =~= s@);
    }
    hist
}

/// A lower bound on the edit distance of `query` and `text`: half the summed
/// differences of their byte histograms plus the difference of their lengths,
/// rounded down. Never more than the edit distance. The two lengths together
/// must fit in a `usize`, as they do for any two strings held in memory.
pub fn lower_bound(query: &str, text: &str) -> (r: usize)
    requires
        query.spec_bytes().len() + text.spec_bytes().len() <= usize::MAX,
    ensures
        r == histogram_bound(query.spec_bytes(), text.spec_bytes()),
        r <= edit_distance(query.spec_bytes(), text.spec_bytes()),
{
    let ghost q = query.spec_bytes();
    let ghost t = text.spec_bytes();
    let qh = histogram(query);
    let th = histogram(text);
    let mut h_diff: usize = 0;
    let mut i: usize = 0;
    while i < 256
        invariant
            q.len() + t.len() <= usize::MAX,
            i <= 256,
            forall|c: u8| #[trigger] qh[c as int] == count(q, c),
            forall|c: u8| #[trigger] th[c as int] == count(t, c),
            h_diff == histogram_gap(q, t, i as int),
        decreases 256 - i,
    {
        let qf = qh[i];
        let tf = th[i];
        proof {
            assert(qf == count(q, i as u8));
            assert(tf == count(t, i as u8));
            lemma_gap_bounded(q, t, i + 1);
            lemma_count_below_mono(q, i + 1, 256);
            lemma_count_below_mono(t, i + 1, 256);
            lemma_count_below_all(q);
            lemma_count_below_all(t);
        }
        let mut diff: usize = 0;
        if qf < tf {
            diff = tf - qf;
        } else if tf < qf {
            diff = qf - tf;
        }
        h_diff += diff;
        i += 1;
    }
    let mut l_diff: usize = 0;
    if query.len() < text.len() {
        l_diff = text.len() - query.len();
    } else if text.len() < query.len() {
        l_diff = query.len() - text.len();
    }
    proof {
        lemma_lower_bound_sound(q, t);
    }
    h_diff / 2 + l_diff / 2 + (h_diff % 2 + l_diff % 2) / 2
}

} // verus!
