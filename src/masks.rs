//! The equality-mask table of a query: for each block of 64 query bytes and
//! each byte value, the word whose bits mark where that byte occurs.
use vstd::prelude::*;
use crate::bits::{bit, lemma_bit_ops, lemma_bit_single};

verus! {

/// `peq` is the table of `q` in `blocks` blocks: word `b * 256 + c` has bit
/// `k` set exactly when query position `64 * b + k` exists and holds `c`.
pub open spec fn mask_table(q: Seq<u8>, peq: Seq<u64>, blocks: int) -> bool {
    &&& peq.len() == 256 * blocks
    &&& forall|b: int, c: u8, k: u64|
        0 <= b < blocks && k < 64 ==> #[trigger] bit(peq[b * 256 + c], k) == (64 * b + k < q.len()
            && q[64 * b + k] == c)
}

proof fn lemma_index_split(b: int, c: int, b2: int, c2: int, w: int)
    requires
        0 <= b,
        0 <= b2,
        0 <= c < w,
        0 <= c2 < w,
    ensures
        (b * w + c == b2 * w + c2) == (b == b2 && c == c2),
{
    if b < b2 {
        assert(b * w + c < b2 * w + c2) by (nonlinear_arith)
            requires b < b2, 0 <= c < w, 0 <= c2;
    } else if b > b2 {
        assert(b * w + c > b2 * w + c2) by (nonlinear_arith)
            requires b > b2, 0 <= c2 < w, 0 <= c;
    }
}

/// Builds the table of `q` in `blocks` blocks of 64 positions.
pub fn build_masks(q: &[u8], blocks: usize) -> (peq: Vec<u64>)
    requires
        q@.len() <= 64 * blocks,
        256 * blocks <= usize::MAX,
    ensures
        mask_table(q@, peq@, blocks as int),
{
    let mut peq: Vec<u64> = vec![0u64; 256 * blocks];
    assert forall|b: int, c: u8, k: u64|
        0 <= b < blocks && k < 64 implies #[trigger] bit(peq@[b * 256 + c], k) == (64 * b + k < 0
            && q@[64 * b + k] == c) by {
        assert(0 <= b * 256 + c < 256 * blocks) by (nonlinear_arith)
            requires 0 <= b < blocks, 0 <= c < 256;
        lemma_bit_ops(0, 0, k);
    }
    let mut i: usize = 0;
    while i < q.len()
        invariant
            q@.len() <= 64 * blocks,
            256 * blocks <= usize::MAX,
            i <= q@.len(),
            peq@.len() == 256 * blocks,
            forall|b: int, c: u8, k: u64|
                0 <= b < blocks && k < 64 ==> #[trigger] bit(peq@[b * 256 + c], k) == (64 * b + k
                    < i && q@[64 * b + k] == c),
        decreases q@.len() - i,
    {
        let byte = q[i];
        let blk = i / 64;
        let off = (i % 64) as u64;
        assert(blk * 256 + byte < 256 * blocks) by (nonlinear_arith)
            requires blk == i / 64, i < 64 * blocks, byte < 256;
        let idx = blk * 256 + byte as usize;
        let old_peq = Ghost(peq@);
        let w = peq[idx] | (1u64 << off);
        peq.set(idx, w);
        assert forall|b: int, c: u8, k: u64|
            0 <= b < blocks && k < 64 implies #[trigger] bit(peq@[b * 256 + c], k) == (64 * b + k
                < i + 1 && q@[64 * b + k] == c) by {
            assert(0 <= b * 256 + c < 256 * blocks) by (nonlinear_arith)
                requires 0 <= b < blocks, 0 <= c < 256;
            lemma_index_split(b, c as int, blk as int, byte as int, 256);
            lemma_index_split(b, k as int, blk as int, off as int, 64);
            assert(i == 64 * blk + off);
            assert(b * 64 == 64 * b) by (nonlinear_arith);
            assert(blk * 64 == 64 * blk) by (nonlinear_arith);
            lemma_bit_single(old_peq@[idx as int], off, k);
        }
        i += 1;
    }
    peq
}

} // verus!
