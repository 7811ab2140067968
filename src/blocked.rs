//! The block engine: queries of any length, cut into blocks of 64 rows that
//! hand horizontal carries up to the next block, one bit per text column.
use vstd::prelude::*;
use vstd::string::*;
use crate::bits::{bit, lemma_bit_extract, lemma_bit_ops, lemma_bit_single};
use crate::levenshtein::{
    cell,
    edit_distance,
    lemma_cell,
    lemma_cell_full,
    lemma_distance_bounds,
    lemma_horizontal_step,
};
use crate::masks::{build_masks, mask_table};
use crate::recurrence::{column_state, hdelta, lemma_column_step, lemma_top_row, vdelta};

verus! {

/// Bit `i` of a packed array of bits, 64 to a word.
pub open spec fn packed_bit(words: Seq<u64>, i: int) -> bool {
    bit(words[i / 64], (i % 64) as u64)
}

/// For the columns `lo..hi`, the packed arrays `phc` and `mhc` mark a +1 and
/// a -1 horizontal difference on row `row`.
pub open spec fn carries(
    q: Seq<u8>,
    t: Seq<u8>,
    row: int,
    phc: Seq<u64>,
    mhc: Seq<u64>,
    lo: int,
    hi: int,
) -> bool {
    forall|i: int|
        #![trigger packed_bit(phc, i)]
        #![trigger packed_bit(mhc, i)]
        lo <= i < hi ==> (packed_bit(phc, i) == (hdelta(q, t, row, i) == 1) && packed_bit(mhc, i)
            == (hdelta(q, t, row, i) == -1))
}

/// Number of 64-wide blocks needed to hold `n` items.
pub open spec fn blocks_for(n: int) -> int {
    if n % 64 == 0 {
        n / 64
    } else {
        n / 64 + 1
    }
}

fn block_count(n: usize) -> (r: usize)
    ensures
        r == blocks_for(n as int),
        64 * (r - 1) < n <= 64 * r || (n == 0 && r == 0),
{
    if n % 64 == 0 {
        n / 64
    } else {
        n / 64 + 1
    }
}

/// Flipping bit `j` of a packed array leaves the other bits alone.
proof fn lemma_packed_flip(words: Seq<u64>, new_words: Seq<u64>, j: int, flip: bool)
    requires
        0 <= j,
        j / 64 < words.len(),
        new_words == (if flip {
            words.update(j / 64, words[j / 64] ^ (1u64 << ((j % 64) as u64)))
        } else {
            words
        }),
    ensures
        new_words.len() == words.len(),
        packed_bit(new_words, j) == (packed_bit(words, j) != flip),
        forall|i: int|
            0 <= i && i != j && i / 64 < words.len() ==> #[trigger] packed_bit(new_words, i)
                == packed_bit(words, i),
{
    lemma_bit_single(words[j / 64], (j % 64) as u64, (j % 64) as u64);
    assert forall|i: int|
        0 <= i && i != j && i / 64 < words.len() implies #[trigger] packed_bit(new_words, i)
            == packed_bit(words, i) by {
        lemma_bit_single(words[j / 64], (j % 64) as u64, (i % 64) as u64);
    }
}

/// Edit distance between `query` and `text`, bytewise, for a query of any
/// length. An empty query is `text.len()` edits away. The query's mask table,
/// 256 words for each block of 64 query bytes, must be addressable.
pub fn myers_unbounded(query: &str, text: &str) -> (r: usize)
    requires
        query.spec_bytes().len() / 64 + 1 <= usize::MAX / 256,
    ensures
        r == edit_distance(query.spec_bytes(), text.spec_bytes()),
{
    let q = query.as_bytes();
    let t = text.as_bytes();
    proof {
        lemma_cell_full(q@, t@);
    }
    let m = q.len();
    let n = t.len();
    if m == 0 {
        proof {
            lemma_cell(q@, t@, 0, n as int);
        }
        return n;
    }
    let hsize = block_count(n);
    let vsize = block_count(m);
    let peq = build_masks(q, vsize);
    let mut mhc: Vec<u64> = vec![0u64; hsize];
    let mut phc: Vec<u64> = vec![0xffff_ffff_ffff_ffffu64; hsize];
    let last: u64 = 1u64 << (((m - 1) % 64) as u64);
    let mut score: usize = m;
    proof {
        assert forall|i: int| 0 <= i < n implies #[trigger] packed_bit(phc@, i) == (hdelta(
            q@,
            t@,
            0,
            i,
        ) == 1) && packed_bit(mhc@, i) == (hdelta(q@, t@, 0, i) == -1) by {
            lemma_top_row(q@, t@, i);
            lemma_bit_ops(0, 0, (i % 64) as u64);
        }
    }
    let mut b: usize = 0;
    while b < vsize
        invariant
            1 <= m,
            m == q@.len(),
            n == t@.len(),
            64 * (vsize - 1) < m <= 64 * vsize,
            64 * (hsize - 1) < n <= 64 * hsize || (n == 0 && hsize == 0),
            mask_table(q@, peq@, vsize as int),
            256 * vsize <= usize::MAX,
            last == 1u64 << (((m - 1) % 64) as u64),
            b <= vsize,
            phc@.len() == hsize,
            mhc@.len() == hsize,
            b < vsize ==> carries(q@, t@, 64 * b, phc@, mhc@, 0, n as int),
            b == vsize ==> score == cell(q@, t@, m as int, n as int),
        decreases vsize - b,
    {
        let base = Ghost(64 * b as int);
        let h: u64 = if b + 1 == vsize {
            (m - 64 * b) as u64
        } else {
            64
        };
        let mut mv: u64 = 0;
        let mut pv: u64 = 0xffff_ffff_ffff_ffffu64;
        score = m;
        proof {
            assert(1 <= h <= 64);
            assert(base@ + h <= m);
            assert forall|i: u64| i < h implies #[trigger] bit(pv, i) == (vdelta(
                q@,
                t@,
                base@ + i,
                0,
            ) == 1) && bit(mv, i) == (vdelta(q@, t@, base@ + i, 0) == -1) by {
                lemma_bit_ops(pv, mv, i);
                lemma_cell(q@, t@, base@ + i, 0);
                lemma_cell(q@, t@, base@ + i + 1, 0);
            }
            lemma_cell(q@, t@, m as int, 0);
        }
        let mut j: usize = 0;
        while j < n
            invariant
                1 <= m,
                m == q@.len(),
                n == t@.len(),
                64 * (vsize - 1) < m <= 64 * vsize,
                64 * (hsize - 1) < n <= 64 * hsize || (n == 0 && hsize == 0),
                mask_table(q@, peq@, vsize as int),
                256 * vsize <= usize::MAX,
                last == 1u64 << (((m - 1) % 64) as u64),
                b < vsize,
                base@ == 64 * b,
                h == (if b + 1 == vsize { m - 64 * b } else { 64 }),
                1 <= h <= 64,
                base@ + h <= m,
                j <= n,
                phc@.len() == hsize,
                mhc@.len() == hsize,
                column_state(q@, t@, base@, h, j as int, pv, mv),
                b + 1 < vsize ==> carries(q@, t@, base@ + 64, phc@, mhc@, 0, j as int),
                carries(q@, t@, base@, phc@, mhc@, j as int, n as int),
                b + 1 == vsize ==> score == cell(q@, t@, m as int, j as int),
            decreases n - j,
        {
            let c = t[j];
            assert(b * 256 + c < 256 * vsize) by (nonlinear_arith)
                requires b < vsize, c < 256;
            let word = peq[b * 256 + c as usize];
            assert(j / 64 < hsize);
            let wi = j / 64;
            let off = (j % 64) as u64;
            let pb: u64 = (phc[wi] >> off) & 1;
            let mb: u64 = (mhc[wi] >> off) & 1;
            let eq = word | mb;
            let s = (eq & pv).wrapping_add(pv);
            let xh = (s ^ pv) | eq;
            let ph = mv | !(xh | pv);
            let mh = pv & xh;
            let npv = ((mh << 1u64) | mb) | !((eq | mv) | ((ph << 1u64) | pb));
            let nmv = ((ph << 1u64) | pb) & (eq | mv);
            proof {
                assert forall|i: u64| i < h implies #[trigger] bit(word, i) == (q@[base@ + i] == c) by {
                    assert(bit(peq@[b * 256 + c], i) == (64 * b + i < q@.len() && q@[64 * b + i]
                        == c));
                }
                lemma_bit_extract(phc@[wi as int], off);
                lemma_bit_extract(mhc@[wi as int], off);
                assert(packed_bit(phc@, j as int) == (pb == 1));
                assert(packed_bit(mhc@, j as int) == (mb == 1));
                lemma_column_step(
                    q@,
                    t@,
                    base@,
                    h,
                    j as int,
                    word,
                    pv,
                    mv,
                    pb,
                    mb,
                    eq,
                    s,
                    xh,
                    ph,
                    mh,
                    npv,
                    nmv,
                );
            }
            if b + 1 == vsize {
                proof {
                    lemma_bit_single(ph, (h - 1) as u64, (h - 1) as u64);
                    lemma_bit_single(mh, (h - 1) as u64, (h - 1) as u64);
                    assert(bit(ph, (h - 1) as u64) == (hdelta(q@, t@, m as int, j as int) == 1));
                    assert(bit(mh, (h - 1) as u64) == (hdelta(q@, t@, m as int, j as int) == -1));
                    lemma_distance_bounds(q@.take(m as int), t@.take(j + 1));
                    lemma_horizontal_step(q@, t@, m as int, j as int);
                }
                if ph & last != 0 {
                    score += 1;
                }
                if mh & last != 0 {
                    score -= 1;
                }
            }
            let ghost old_phc = phc@;
            let ghost old_mhc = mhc@;
            let flip_p = ((ph >> 63u64) ^ pb) > 0;
            if flip_p {
                let w = phc[wi] ^ (1u64 << off);
                phc.set(wi, w);
            }
            let flip_m = ((mh >> 63u64) ^ mb) > 0;
            if flip_m {
                let w = mhc[wi] ^ (1u64 << off);
                mhc.set(wi, w);
            }
            proof {
                lemma_packed_flip(old_phc, phc@, j as int, flip_p);
                lemma_packed_flip(old_mhc, mhc@, j as int, flip_m);
                lemma_bit_extract(ph, 63);
                lemma_bit_extract(mh, 63);
                assert(flip_p == ((ph >> 63u64) != pb)) by (bit_vector)
                    requires flip_p == (((ph >> 63u64) ^ pb) > 0), pb <= 1, ph >> 63u64 <= 1;
                assert(flip_m == ((mh >> 63u64) != mb)) by (bit_vector)
                    requires flip_m == (((mh >> 63u64) ^ mb) > 0), mb <= 1, mh >> 63u64 <= 1;
                if b + 1 < vsize {
                    assert(bit(ph, 63) == (hdelta(q@, t@, base@ + 63 + 1, j as int) == 1));
                    assert(bit(mh, 63) == (hdelta(q@, t@, base@ + 63 + 1, j as int) == -1));
                }
            }
            pv = npv;
            mv = nmv;
            j += 1;
        }
        b += 1;
    }
    score
}

} // verus!
