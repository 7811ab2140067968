//! The single-word engine: queries of at most 64 bytes.
use vstd::prelude::*;
use vstd::string::*;
use crate::bits::{bit, lemma_bit_ops, lemma_bit_single};
use crate::levenshtein::{cell, edit_distance, lemma_cell, lemma_cell_full, lemma_distance_bounds, lemma_horizontal_step};
use crate::masks::{build_masks, mask_table};
use crate::recurrence::{column_state, hdelta, lemma_column_step, lemma_top_row, vdelta};

verus! {

/// Edit distance between `query` and `text`, bytewise, for a query of at
/// most 64 bytes. An empty query is `text.len()` edits away.
pub fn myers_64(query: &str, text: &str) -> (r: usize)
    requires
        query.spec_bytes().len() <= 64,
    ensures
        r == edit_distance(query.spec_bytes(), text.spec_bytes()),
{
    let q = query.as_bytes();
    let t = text.as_bytes();
    proof {
        lemma_cell_full(q@, t@);
    }
    let m = q.len();
    if m == 0 {
        proof {
            lemma_cell(q@, t@, 0, t@.len() as int);
        }
        return t.len();
    }
    let peq = build_masks(q, 1);
    let h = m as u64;
    let mut score: usize = m;
    let mut mv: u64 = 0;
    let mut pv: u64 = 0xffff_ffff_ffff_ffffu64;
    let last: u64 = 1u64 << (h - 1);
    proof {
        assert forall|i: u64| i < h implies #[trigger] bit(pv, i) == (vdelta(q@, t@, 0 + i, 0) == 1)
            && bit(mv, i) == (vdelta(q@, t@, 0 + i, 0) == -1) by {
            lemma_bit_ops(pv, mv, i);
            lemma_cell(q@, t@, i as int, 0);
            lemma_cell(q@, t@, i + 1, 0);
        }
        lemma_cell(q@, t@, m as int, 0);
    }
    let mut j: usize = 0;
    while j < t.len()
        invariant
            1 <= m <= 64,
            m == q@.len(),
            h == m,
            last == 1u64 << ((h - 1) as u64),
            j <= t@.len(),
            mask_table(q@, peq@, 1),
            column_state(q@, t@, 0, h, j as int, pv, mv),
            score == cell(q@, t@, m as int, j as int),
        decreases t@.len() - j,
    {
        let c = t[j];
        let word = peq[c as usize];
        let eq = word;
        let s = (eq & pv).wrapping_add(pv);
        let xh = (s ^ pv) | eq;
        let ph = mv | !(xh | pv);
        let mh = pv & xh;
        proof {
            assert forall|i: u64| i < h implies #[trigger] bit(word, i) == (q@[0 + i] == c) by {
                assert(bit(peq@[0 * 256 + c], i) == (64 * 0 + i < q@.len() && q@[64 * 0 + i] == c));
            }
            lemma_top_row(q@, t@, j as int);
            assert(word | 0u64 == word) by (bit_vector);
            assert(mh << 1u64 == (mh << 1u64) | 0u64) by (bit_vector);
            lemma_column_step(
                q@,
                t@,
                0,
                h,
                j as int,
                word,
                pv,
                mv,
                1,
                0,
                eq,
                s,
                xh,
                ph,
                mh,
                ((mh << 1u64) | 0u64) | !((eq | mv) | ((ph << 1u64) | 1u64)),
                ((ph << 1u64) | 1u64) & (eq | mv),
            );
            lemma_bit_single(ph, (h - 1) as u64, (h - 1) as u64);
            lemma_bit_single(mh, (h - 1) as u64, (h - 1) as u64);
            assert(bit(ph, (h - 1) as u64) == (hdelta(q@, t@, m as int, j as int) == 1));
            assert(bit(mh, (h - 1) as u64) == (hdelta(q@, t@, m as int, j as int) == -1));
            lemma_distance_bounds(q@.take(m as int), t@.take(j + 1));
            lemma_horizontal_step(q@, t@, m as int, j as int);
        }
        assert((ph & last != 0) == (hdelta(q@, t@, m as int, j as int) == 1));
        assert((mh & last != 0) == (hdelta(q@, t@, m as int, j as int) == -1));
        if ph & last != 0 {
            score += 1;
        }
        if mh & last != 0 {
            score -= 1;
        }
        assert(score == cell(q@, t@, m as int, j + 1));
        let ph2 = (ph << 1u64) | 1u64;
        let mh2 = mh << 1u64;
        pv = mh2 | !((eq | mv) | ph2);
        mv = ph2 & (eq | mv);
        j += 1;
    }
    score
}

} // verus!
