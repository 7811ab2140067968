//! One column step of the bit-parallel recurrence, proved against the
//! dynamic-programming matrix of the edit distance.
use vstd::prelude::*;
use crate::bits::{bit, lemma_bit_ops, lemma_bit_shl1, lemma_bit_small, lemma_carry_bits, lemma_carry_chain};
use crate::levenshtein::{cell, lemma_cell, lemma_cell_deltas, lemma_horizontal_step, lemma_vertical_step};

verus! {

/// Vertical difference below row `r` of column `j`.
pub open spec fn vdelta(q: Seq<u8>, t: Seq<u8>, r: int, j: int) -> int {
    cell(q, t, r + 1, j) - cell(q, t, r, j)
}

/// Horizontal difference right of column `j` on row `r`.
pub open spec fn hdelta(q: Seq<u8>, t: Seq<u8>, r: int, j: int) -> int {
    cell(q, t, r, j + 1) - cell(q, t, r, j)
}

/// The words `pv` and `mv` hold the vertical differences of column `j` for
/// the `h` rows that start at row `base`: `pv` marks the +1, `mv` the -1.
pub open spec fn column_state(
    q: Seq<u8>,
    t: Seq<u8>,
    base: int,
    h: u64,
    j: int,
    pv: u64,
    mv: u64,
) -> bool {
    forall|i: u64|
        #![trigger bit(pv, i)]
        #![trigger bit(mv, i)]
        i < h ==> (bit(pv, i) == (vdelta(q, t, base + i, j) == 1) && bit(mv, i) == (vdelta(
            q,
            t,
            base + i,
            j,
        ) == -1))
}

/// `w` marks the rows among the `h` from `base` that hold byte `c`.
pub open spec fn match_mask(q: Seq<u8>, base: int, h: u64, w: u64, c: u8) -> bool {
    forall|i: u64| i < h ==> #[trigger] bit(w, i) == (q[base + i] == c)
}

/// `pb` and `mb` mark a +1 or a -1 horizontal difference entering row `base`
/// between columns `j` and `j + 1`.
pub open spec fn carry_in(q: Seq<u8>, t: Seq<u8>, base: int, j: int, pb: u64, mb: u64) -> bool {
    &&& pb <= 1
    &&& mb <= 1
    &&& (pb == 1) == (hdelta(q, t, base, j) == 1)
    &&& (mb == 1) == (hdelta(q, t, base, j) == -1)
}

/// The top row of the matrix grows by one per column.
pub proof fn lemma_top_row(q: Seq<u8>, t: Seq<u8>, j: int)
    requires
        0 <= j < t.len(),
    ensures
        hdelta(q, t, 0, j) == 1,
{
    lemma_cell(q, t, 0, j);
    lemma_cell(q, t, 0, j + 1);
}

/// The differences around cell `(r + 1, j + 1)`.
pub proof fn lemma_corner(q: Seq<u8>, t: Seq<u8>, r: int, j: int)
    requires
        0 <= r < q.len(),
        0 <= j < t.len(),
    ensures
        -1 <= vdelta(q, t, r, j) <= 1,
        -1 <= hdelta(q, t, r, j) <= 1,
        (hdelta(q, t, r + 1, j) == 1) == (vdelta(q, t, r, j) == -1 || !(q[r] == t[j] || hdelta(
            q,
            t,
            r,
            j,
        ) == -1 || vdelta(q, t, r, j) == 1)),
        (hdelta(q, t, r + 1, j) == -1) == (vdelta(q, t, r, j) == 1 && (q[r] == t[j] || hdelta(
            q,
            t,
            r,
            j,
        ) == -1)),
        (vdelta(q, t, r, j + 1) == 1) == (hdelta(q, t, r, j) == -1 || !(q[r] == t[j] || vdelta(
            q,
            t,
            r,
            j,
        ) == -1 || hdelta(q, t, r, j) == 1)),
        (vdelta(q, t, r, j + 1) == -1) == (hdelta(q, t, r, j) == 1 && (q[r] == t[j] || vdelta(
            q,
            t,
            r,
            j,
        ) == -1)),
{
    lemma_vertical_step(q, t, r, j);
    lemma_horizontal_step(q, t, r, j);
    lemma_cell(q, t, r + 1, j + 1);
    lemma_cell_deltas(
        cell(q, t, r, j),
        cell(q, t, r, j + 1),
        cell(q, t, r + 1, j),
        cell(q, t, r + 1, j + 1),
        q[r] == t[j],
    );
}

/// Bit `i` of the carry chain marks a match or a -1 entering from above.
proof fn lemma_xh_bit(
    q: Seq<u8>,
    t: Seq<u8>,
    base: int,
    h: u64,
    j: int,
    peq: u64,
    pv: u64,
    mv: u64,
    pb: u64,
    mb: u64,
    eq: u64,
    xh: u64,
    i: u64,
)
    requires
        0 <= base,
        1 <= h <= 64,
        base + h <= q.len(),
        0 <= j < t.len(),
        column_state(q, t, base, h, j, pv, mv),
        match_mask(q, base, h, peq, t[j]),
        carry_in(q, t, base, j, pb, mb),
        eq == peq | mb,
        xh == eq | ((pv & xh) << 1u64),
        i < h,
    ensures
        bit(xh, i) == (q[base + i] == t[j] || hdelta(q, t, base + i, j) == -1),
    decreases i,
{
    lemma_carry_bits(eq, pv, xh, i);
    lemma_bit_ops(peq, mb, i);
    lemma_bit_small(mb, i);
    if i > 0 {
        let k = (i - 1) as u64;
        lemma_xh_bit(q, t, base, h, j, peq, pv, mv, pb, mb, eq, xh, k);
        lemma_bit_ops(pv, xh, k);
        lemma_corner(q, t, base + k, j);
        assert(bit(pv, k) == (vdelta(q, t, base + k, j) == 1));
        assert(base + i == base + k + 1);
    }
}

/// One text column of the recurrence on one block of rows: the new vertical
/// words describe column `j + 1`, and the horizontal words `ph`, `mh` hold
/// the horizontal differences leaving each row of the block.
pub proof fn lemma_column_step(
    q: Seq<u8>,
    t: Seq<u8>,
    base: int,
    h: u64,
    j: int,
    peq: u64,
    pv: u64,
    mv: u64,
    pb: u64,
    mb: u64,
    eq: u64,
    s: u64,
    xh: u64,
    ph: u64,
    mh: u64,
    npv: u64,
    nmv: u64,
)
    requires
        0 <= base,
        1 <= h <= 64,
        base + h <= q.len(),
        0 <= j < t.len(),
        column_state(q, t, base, h, j, pv, mv),
        match_mask(q, base, h, peq, t[j]),
        carry_in(q, t, base, j, pb, mb),
        eq == peq | mb,
        s == (eq & pv) + pv || s == (eq & pv) + pv - 0x1_0000_0000_0000_0000,
        xh == (s ^ pv) | eq,
        ph == mv | !(xh | pv),
        mh == pv & xh,
        npv == ((mh << 1u64) | mb) | !((eq | mv) | ((ph << 1u64) | pb)),
        nmv == ((ph << 1u64) | pb) & (eq | mv),
    ensures
        column_state(q, t, base, h, j + 1, npv, nmv),
        forall|i: u64|
            i < h ==> (#[trigger] bit(ph, i) == (hdelta(q, t, base + i + 1, j) == 1) && bit(mh, i)
                == (hdelta(q, t, base + i + 1, j) == -1)),
{
    lemma_carry_chain(eq, pv, s, xh);
    assert forall|i: u64| i < h implies (#[trigger] bit(ph, i) == (hdelta(q, t, base + i + 1, j)
        == 1) && bit(mh, i) == (hdelta(q, t, base + i + 1, j) == -1)) by {
        lemma_xh_bit(q, t, base, h, j, peq, pv, mv, pb, mb, eq, xh, i);
        lemma_bit_ops(mv, !(xh | pv), i);
        lemma_bit_ops(xh, pv, i);
        lemma_bit_ops(xh | pv, 0, i);
        lemma_bit_ops(pv, xh, i);
        lemma_corner(q, t, base + i, j);
    }
    assert forall|i: u64| i < h implies (#[trigger] bit(npv, i) == (vdelta(q, t, base + i, j + 1)
        == 1) && bit(nmv, i) == (vdelta(q, t, base + i, j + 1) == -1)) by {
        lemma_corner(q, t, base + i, j);
        lemma_bit_ops(peq, mb, i);
        lemma_bit_small(mb, i);
        lemma_bit_small(pb, i);
        lemma_bit_shl1(mh, mb, i);
        lemma_bit_shl1(ph, pb, i);
        lemma_bit_ops((mh << 1u64) | mb, !((eq | mv) | ((ph << 1u64) | pb)), i);
        lemma_bit_ops((eq | mv) | ((ph << 1u64) | pb), 0, i);
        lemma_bit_ops(eq | mv, (ph << 1u64) | pb, i);
        lemma_bit_ops(eq, mv, i);
        lemma_bit_ops((ph << 1u64) | pb, eq | mv, i);
        if i == 0 {
            assert(base + i == base);
            assert(bit((ph << 1u64) | pb, i) == (hdelta(q, t, base + i, j) == 1));
            assert(bit((mh << 1u64) | mb, i) == (hdelta(q, t, base + i, j) == -1));
        }
        if i > 0 {
            let k = (i - 1) as u64;
            lemma_xh_bit(q, t, base, h, j, peq, pv, mv, pb, mb, eq, xh, k);
            lemma_bit_ops(mv, !(xh | pv), k);
            lemma_bit_ops(xh, pv, k);
            lemma_bit_ops(xh | pv, 0, k);
            lemma_bit_ops(pv, xh, k);
            lemma_corner(q, t, base + k, j);
            assert(base + i == base + k + 1);
            assert(bit(ph, k) == (hdelta(q, t, base + k + 1, j) == 1));
            assert(bit((ph << 1u64) | pb, i) == (hdelta(q, t, base + i, j) == 1));
            assert(bit((mh << 1u64) | mb, i) == (hdelta(q, t, base + i, j) == -1));
        }
    }
}

} // verus!
