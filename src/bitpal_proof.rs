//! What the bitplanes of the bit-parallel engine mean: each row of planes
//! encodes the horizontal deltas of one row of the score matrix, so the engine
//! returns the optimal score.
use vstd::prelude::*;
use crate::bitpal::{
    DeltaPlanes,
    advance,
    all_ones,
    bitpal_score,
    dv_low,
    dv_max,
    dv_pos3,
    dv_pos4,
    horizontal_of,
    lemma_planes_partition,
    match_vector,
    ones_below,
    partition8,
    planes_after,
    vertical_of,
};
use crate::delta::lemma_delta_bounds;
use crate::scoring::{max3, nw};

verus! {

/// Bit `j` of `x` is set.
#[verifier::opaque]
pub open spec fn bit(x: u64, j: int) -> bool {
    0 <= j < 64 && (x >> (j as u64)) & 1u64 == 1u64
}

/// The carry into bit `j` when adding `a` and `b`.
#[verifier::opaque]
pub open spec fn carry(a: u64, b: u64, j: int) -> bool {
    0 <= j < 64 && bit(((a & (((1u64 << (j as u64)) - 1) as u64)) + (b & (((1u64 << (j as u64)) - 1) as u64))) as u64, j)
}

proof fn bv_and(x: u64, y: u64, j: u64)
    by (bit_vector)
    requires
        j < 64,
    ensures
        (((x & y) >> j) & 1u64 == 1u64) == (((x >> j) & 1u64 == 1u64) && ((y >> j) & 1u64 == 1u64)),
        (((x | y) >> j) & 1u64 == 1u64) == (((x >> j) & 1u64 == 1u64) || ((y >> j) & 1u64 == 1u64)),
        (((x ^ y) >> j) & 1u64 == 1u64) == (((x >> j) & 1u64 == 1u64) != ((y >> j) & 1u64 == 1u64)),
        (((!x) >> j) & 1u64 == 1u64) == !((x >> j) & 1u64 == 1u64),
{
}

pub broadcast proof fn lemma_bit_and(x: u64, y: u64, j: int)
    ensures
        #[trigger] bit(x & y, j) == (bit(x, j) && bit(y, j)),
{
    reveal(bit);
    if 0 <= j < 64 {
        bv_and(x, y, j as u64);
    }
}

pub broadcast proof fn lemma_bit_or(x: u64, y: u64, j: int)
    ensures
        #[trigger] bit(x | y, j) == (bit(x, j) || bit(y, j)),
{
    reveal(bit);
    if 0 <= j < 64 {
        bv_and(x, y, j as u64);
    }
}

pub broadcast proof fn lemma_bit_xor(x: u64, y: u64, j: int)
    ensures
        #[trigger] bit(x ^ y, j) == (bit(x, j) != bit(y, j)),
{
    reveal(bit);
    if 0 <= j < 64 {
        bv_and(x, y, j as u64);
    }
}

pub broadcast proof fn lemma_bit_not(x: u64, j: int)
    ensures
        #[trigger] bit(!x, j) == (0 <= j < 64 && !bit(x, j)),
{
    reveal(bit);
    if 0 <= j < 64 {
        bv_and(x, x, j as u64);
    }
}

proof fn bv_shifts(x: u64, j: u64)
    by (bit_vector)
    requires
        j < 64,
    ensures
        ((((x << 1u64) as u64) >> j) & 1u64 == 1u64) == (j > 0 && ((x >> ((j - 1) as u64)) & 1u64 == 1u64)),
        (((x >> 1u64) >> j) & 1u64 == 1u64) == (j < 63 && ((x >> ((j + 1) as u64)) & 1u64 == 1u64)),
{
}

pub broadcast proof fn lemma_bit_shl(x: u64, j: int)
    ensures
        #[trigger] bit((x << 1u64) as u64, j) == (0 < j < 64 && bit(x, j - 1)),
{
    reveal(bit);
    if 0 <= j < 64 {
        bv_shifts(x, j as u64);
    }
}

pub broadcast proof fn lemma_bit_shr(x: u64, j: int)
    ensures
        #[trigger] bit(x >> 1u64, j) == (0 <= j < 63 && bit(x, j + 1)),
{
    reveal(bit);
    if 0 <= j < 64 {
        bv_shifts(x, j as u64);
    }
}

proof fn bv_carry(a: u64, b: u64, j: u64)
    by (bit_vector)
    requires
        j < 64,
    ensures
        ((((a + b) as u64) >> j) & 1u64 == 1u64) == ((((a >> j) & 1u64 == 1u64) != ((b >> j) & 1u64 == 1u64)) != (
        ((((a & (((1u64 << j) - 1) as u64)) + (b & (((1u64 << j) - 1) as u64))) as u64) >> j) & 1u64 == 1u64)),
{
}

#[verifier::rlimit(100)]
proof fn bv_carry_next(a: u64, b: u64, j: u64)
    by (bit_vector)
    requires
        j < 63,
    ensures
        (((((a & (((1u64 << ((j + 1) as u64)) - 1) as u64)) + (b & (((1u64 << ((j + 1) as u64)) - 1) as u64))) as u64)
            >> ((j + 1) as u64)) & 1u64 == 1u64) == ({
            let x = (a >> j) & 1u64 == 1u64;
            let y = (b >> j) & 1u64 == 1u64;
            let c = ((((a & (((1u64 << j) - 1) as u64)) + (b & (((1u64 << j) - 1) as u64))) as u64) >> j) & 1u64 == 1u64;
            (x && y) || (c && (x || y))
        }),
{
}

proof fn bv_carry_zero(a: u64, b: u64)
    by (bit_vector)
    ensures
        !(((((a & (((1u64 << 0u64) - 1) as u64)) + (b & (((1u64 << 0u64) - 1) as u64))) as u64) >> 0u64) & 1u64 == 1u64),
{
}

/// Bits of a sum: each is the two summands' bits and the carry, and the carry
/// into the next bit is their majority.
pub broadcast proof fn lemma_bit_add(a: u64, b: u64, j: int)
    ensures
        #[trigger] bit((a + b) as u64, j) == (0 <= j < 64 && ((bit(a, j) != bit(b, j)) != carry(a, b, j))),
{
    reveal(bit);
    reveal(carry);
    if 0 <= j < 64 {
        bv_carry(a, b, j as u64);
    }
}

pub proof fn lemma_carry_next(a: u64, b: u64, j: int)
    requires
        -1 <= j < 63,
    ensures
        carry(a, b, j + 1) == if j < 0 {
            false
        } else {
            (bit(a, j) && bit(b, j)) || (carry(a, b, j) && (bit(a, j) || bit(b, j)))
        },
{
    reveal(bit);
    reveal(carry);
    if j < 0 {
        bv_carry_zero(a, b);
    } else {
        bv_carry_next(a, b, j as u64);
    }
}

/// Planes `p` hold the delta `k` at bit `j`: the plane for `k`, and no other, has the bit.
pub open spec fn holds(p: DeltaPlanes, j: int, k: int) -> bool {
    &&& bit(p.neg3, j) == (k == -3)
    &&& bit(p.neg2, j) == (k == -2)
    &&& bit(p.neg1, j) == (k == -1)
    &&& bit(p.zero, j) == (k == 0)
    &&& bit(p.pos1, j) == (k == 1)
    &&& bit(p.pos2, j) == (k == 2)
    &&& bit(p.pos3, j) == (k == 3)
    &&& bit(p.pos4, j) == (k == 4)
}

/// The step from the cell up-left to the cell: `S[r][j+1] - S[r-1][j]`, from the
/// horizontal delta above, the vertical delta to the left and whether the
/// symbols match, under (+1, -1, -3).
pub open spec fn diagonal_step(dh: int, dv: int, is_match: bool) -> int {
    max3(
        if is_match {
            1
        } else {
            -1
        },
        dh - 3,
        dv - 3,
    )
}

/// The vertical deltas `S[r][j] - S[r-1][j]` along a row, from the horizontal
/// deltas `dh` of the row above and the matches `ms`.
pub open spec fn vertical_deltas(dh: Seq<int>, ms: Seq<bool>, j: nat) -> int
    decreases j,
{
    if j == 0 {
        -3
    } else {
        diagonal_step(dh[j - 1], vertical_deltas(dh, ms, (j - 1) as nat), ms[j - 1]) - dh[j - 1]
    }
}

proof fn bv_mask_bit(l: u64, j: u64)
    by (bit_vector)
    requires
        j < 64,
        l <= 64,
    ensures
        (((if l >= 64 {
            u64::MAX
        } else {
            ((1u64 << l) - 1) as u64
        }) >> j) & 1u64 == 1u64) == (j < l),
{
}

pub proof fn lemma_all_ones_bit(len: nat, j: int)
    requires
        len <= 64,
    ensures
        bit(all_ones(len), j) == (0 <= j < len),
{
    reveal(bit);
    if 0 <= j < 64 {
        bv_mask_bit(len as u64, j as u64);
    }
}

/// The vertical planes at bit `j` hold the vertical delta of column `j`.
pub open spec fn vertical_planes_hold(p: DeltaPlanes, mv: u64, j: int, dv: int) -> bool {
    let (n3, n2) = (p.neg3, p.neg2);
    &&& bit(dv_pos4(mv, n3), j) == (dv == 4)
    &&& bit(dv_pos3(mv, n3, n2), j) == (dv == 3)
    &&& bit(dv_low(mv, n3, n2, p.neg1, p.neg2, p.neg3), j) == (dv == 2)
    &&& bit(dv_low(mv, n3, n2, p.zero, p.neg1, p.neg2), j) == (dv == 1)
    &&& bit(dv_low(mv, n3, n2, p.pos1, p.zero, p.neg1), j) == (dv == 0)
    &&& bit(dv_low(mv, n3, n2, p.pos2, p.pos1, p.zero), j) == (dv == -1)
    &&& bit(dv_low(mv, n3, n2, p.pos3, p.pos2, p.pos1), j) == (dv == -2)
}

/// The addends whose carries give the `+3` vertical plane.
pub open spec fn pos3_addend(mv: u64, n3: u64, n2: u64) -> u64 {
    ((n2 & dv_max(mv, n3)) << 1u64) as u64
}

pub open spec fn pos3_remain(mv: u64, n3: u64) -> u64 {
    n3 ^ (dv_pos4(mv, n3) >> 1u64)
}

proof fn lemma_vertical_planes(p: DeltaPlanes, mv: u64, len: nat, dh: Seq<int>, ms: Seq<bool>, j: nat)
    requires
        len <= 64,
        j < len,
        dh.len() == len,
        ms.len() == len,
        forall|i: int| 0 <= i < len ==> holds(p, i, #[trigger] dh[i]),
        forall|i: int| 0 <= i < len ==> -3 <= #[trigger] dh[i] <= 4,
        forall|i: int| 0 <= i < len ==> bit(mv, i) == #[trigger] ms[i],
    ensures
        vertical_planes_hold(p, mv, j as int, vertical_deltas(dh, ms, j)),
        -3 <= vertical_deltas(dh, ms, j) <= 4,
        carry(mv & p.neg3, p.neg3, j as int) == (vertical_deltas(dh, ms, j) == 4),
        carry(pos3_addend(mv, p.neg3, p.neg2), pos3_remain(mv, p.neg3), j as int) == (j > 0 && bit(
            pos3_remain(mv, p.neg3),
            j - 1,
        ) && vertical_deltas(dh, ms, (j - 1) as nat) == 3),
    decreases j,
{
    broadcast use lemma_bit_and, lemma_bit_or, lemma_bit_xor, lemma_bit_not, lemma_bit_shl, lemma_bit_shr, lemma_bit_add;

    let (n3, n2) = (p.neg3, p.neg2);
    let init4 = mv & n3;
    let x = pos3_addend(mv, n3, n2);
    let rem = pos3_remain(mv, n3);
    lemma_carry_next(init4, n3, j - 1);
    lemma_carry_next(x, rem, j - 1);
    if j > 0 {
        lemma_vertical_planes(p, mv, len, dh, ms, (j - 1) as nat);
        assert(holds(p, j - 1, dh[j - 1]));
        assert(bit(mv, j - 1) == ms[j - 1]);
    }
    let dv = vertical_deltas(dh, ms, j);
    assert(bit(init4, j as int) == (bit(mv, j as int) && bit(n3, j as int)));
    let sum4 = ((init4 + n3) as u64);
    assert(bit(sum4, j as int) == (0 <= j < 64 && ((bit(init4, j as int) != bit(n3, j as int)) != carry(init4, n3, j as int))));
    assert(dv_pos4(mv, n3) == (sum4 ^ n3) ^ init4);
    assert(bit(dv_pos4(mv, n3), j as int) == carry(init4, n3, j as int));
    assert(bit(dv_pos3(mv, n3, n2), j as int) == (bit(x, j as int) != carry(x, rem, j as int)));
}

/// One row update: at every column the next planes hold the next row's
/// horizontal delta, the diagonal step less the vertical delta to the left.
pub proof fn lemma_advance_holds(p: DeltaPlanes, mv: u64, len: nat, dh: Seq<int>, ms: Seq<bool>, j: nat)
    requires
        len <= 64,
        j < len,
        dh.len() == len,
        ms.len() == len,
        forall|i: int| 0 <= i < len ==> holds(p, i, #[trigger] dh[i]),
        forall|i: int| 0 <= i < len ==> -3 <= #[trigger] dh[i] <= 4,
        forall|i: int| 0 <= i < len ==> bit(mv, i) == #[trigger] ms[i],
    ensures
        holds(
            advance(p, mv, all_ones(len)),
            j as int,
            diagonal_step(dh[j as int], vertical_deltas(dh, ms, j), ms[j as int]) - vertical_deltas(dh, ms, j),
        ),
{
    broadcast use lemma_bit_and, lemma_bit_or, lemma_bit_xor, lemma_bit_not, lemma_bit_shl, lemma_bit_shr, lemma_bit_add;

    lemma_vertical_planes(p, mv, len, dh, ms, j);
    lemma_all_ones_bit(len, j as int);
    assert(holds(p, j as int, dh[j as int]));
    assert(bit(mv, j as int) == ms[j as int]);
}

proof fn bv_single_bit(n: u64, j: u64)
    by (bit_vector)
    requires
        n < 64,
        j < 64,
    ensures
        (((1u64 << n) >> j) & 1u64 == 1u64) == (j == n),
        ((0u64 >> j) & 1u64 == 1u64) == false,
{
}

proof fn lemma_bit_zero(j: int)
    ensures
        !bit(0, j),
{
    reveal(bit);
    if 0 <= j < 64 {
        bv_single_bit(0, j as u64);
    }
}

/// Bit `j` of a match vector is set exactly where the sequence holds the symbol.
proof fn lemma_match_vector_bits(seq: Seq<u8>, c: u8, j: int)
    requires
        seq.len() <= 64,
    ensures
        bit(match_vector(seq, c), j) == (0 <= j < seq.len() && seq[j] == c),
    decreases seq.len(),
{
    broadcast use lemma_bit_or;

    if seq.len() == 0 {
        lemma_bit_zero(j);
    } else {
        let n = (seq.len() - 1) as nat;
        lemma_match_vector_bits(seq.drop_last(), c, j);
        reveal(bit);
        if 0 <= j < 64 {
            bv_single_bit(n as u64, j as u64);
        }
    }
}

/// The score of `h[..c]` against `v[..r]` under (+1, -1, -3).
pub open spec fn cell(h: Seq<u8>, v: Seq<u8>, r: nat, c: nat) -> int {
    nw(h, v, 1, -1, -3, c, r)
}

/// The horizontal deltas of row `r`.
pub open spec fn row_deltas(h: Seq<u8>, v: Seq<u8>, r: nat) -> Seq<int> {
    Seq::new(h.len(), |j: int| cell(h, v, r, (j + 1) as nat) - cell(h, v, r, j as nat))
}

/// Where `h` matches the symbol `c`.
pub open spec fn matches_of(h: Seq<u8>, c: u8) -> Seq<bool> {
    Seq::new(h.len(), |j: int| h[j] == c)
}

proof fn lemma_vertical_deltas_are_differences(h: Seq<u8>, v: Seq<u8>, r: nat, j: nat)
    requires
        r < v.len(),
        j <= h.len(),
    ensures
        vertical_deltas(row_deltas(h, v, r), matches_of(h, v[r as int]), j) == cell(h, v, r + 1, j) - cell(
            h,
            v,
            r,
            j,
        ),
    decreases j,
{
    if j > 0 {
        lemma_vertical_deltas_are_differences(h, v, r, (j - 1) as nat);
    }
}

/// The planes after `r` rows hold the horizontal deltas of row `r`.
pub proof fn lemma_planes_hold_deltas(h: Seq<u8>, v: Seq<u8>, r: nat)
    requires
        h.len() <= 64,
        r <= v.len(),
    ensures
        forall|j: int| 0 <= j < h.len() ==> holds(planes_after(h, v, r), j, #[trigger] row_deltas(h, v, r)[j]),
    decreases r,
{
    let len = h.len();
    if r == 0 {
        assert forall|j: int| 0 <= j < len implies holds(planes_after(h, v, r), j, #[trigger] row_deltas(h, v, r)[j]) by {
            lemma_all_ones_bit(len, j);
            lemma_bit_zero(j);
        }
    } else {
        let q = (r - 1) as nat;
        lemma_planes_hold_deltas(h, v, q);
        let p = planes_after(h, v, q);
        let c = v[q as int];
        let mv = match_vector(h, c);
        let dh = row_deltas(h, v, q);
        let ms = matches_of(h, c);
        assert forall|i: int| 0 <= i < len implies -3 <= #[trigger] dh[i] <= 4 by {
            lemma_delta_bounds(h, v, 1, -1, -3, (i + 1) as nat, q);
        }
        assert forall|i: int| 0 <= i < len implies bit(mv, i) == #[trigger] ms[i] by {
            lemma_match_vector_bits(h, c, i);
        }
        assert forall|j: int| 0 <= j < len implies holds(planes_after(h, v, r), j, #[trigger] row_deltas(h, v, r)[j]) by {
            lemma_advance_holds(p, mv, len, dh, ms, j as nat);
            lemma_vertical_deltas_are_differences(h, v, q, j as nat);
        }
    }
}

/// The weighted count of the planes' bits below `t`.
pub open spec fn weighted_below(p: DeltaPlanes, t: nat) -> int {
    (-3) * ones_below(p.neg3, t) + (-2) * ones_below(p.neg2, t) + (-1) * ones_below(p.neg1, t) + ones_below(p.pos1, t)
        + 2 * ones_below(p.pos2, t) + 3 * ones_below(p.pos3, t) + 4 * ones_below(p.pos4, t)
}

proof fn lemma_ones_below_step(x: u64, t: nat)
    requires
        t < 64,
    ensures
        ones_below(x, t + 1) == ones_below(x, t) + if bit(x, t as int) {
            1int
        } else {
            0int
        },
{
    reveal(bit);
}

proof fn lemma_weighted_below(h: Seq<u8>, v: Seq<u8>, r: nat, t: nat)
    requires
        h.len() <= 64,
        r <= v.len(),
        t <= 64,
    ensures
        weighted_below(planes_after(h, v, r), t) == cell(h, v, r, if t < h.len() {
            t
        } else {
            h.len()
        }) - cell(h, v, r, 0),
    decreases t,
{
    broadcast use lemma_bit_and, lemma_bit_not;

    if t > 0 {
        let p = planes_after(h, v, r);
        let j = (t - 1) as nat;
        lemma_weighted_below(h, v, r, j);
        lemma_ones_below_step(p.neg3, j);
        lemma_ones_below_step(p.neg2, j);
        lemma_ones_below_step(p.neg1, j);
        lemma_ones_below_step(p.zero, j);
        lemma_ones_below_step(p.pos1, j);
        lemma_ones_below_step(p.pos2, j);
        lemma_ones_below_step(p.pos3, j);
        lemma_ones_below_step(p.pos4, j);
        lemma_planes_hold_deltas(h, v, r);
        lemma_planes_partition(h, v, r);
        if j < h.len() {
            let d = row_deltas(h, v, r)[j as int];
            assert(holds(p, j as int, d));
            assert(d == cell(h, v, r, j + 1) - cell(h, v, r, j));
            assert(-3 <= d <= 4) by {
                if r > 0 {
                    lemma_delta_bounds(h, v, 1, -1, -3, j + 1, r);
                } else {
                    assert(cell(h, v, r, j + 1) == (j + 1) * -3);
                }
            }
            assert(weighted_below(p, t) == weighted_below(p, j) + d);
        } else {
            lemma_all_ones_bit(h.len(), j as int);
            // no plane has a bit beyond the sequence
            let all = all_ones(h.len());
            let (a3, a2, a1, z, b1, b2, b3, b4) = (p.neg3, p.neg2, p.neg1, p.zero, p.pos1, p.pos2, p.pos3, p.pos4);
            assert(a3 & !all == 0 && a2 & !all == 0 && a1 & !all == 0 && z & !all == 0 && b1 & !all == 0 && b2
                & !all == 0 && b3 & !all == 0 && b4 & !all == 0) by (bit_vector)
                requires
                    partition8(a3, a2, a1, z, b1, b2, b3, b4, all),
            ;
            lemma_bit_zero(j as int);
            assert(bit(a3 & !all, j as int) == bit(a3, j as int));
            assert(bit(a2 & !all, j as int) == bit(a2, j as int));
            assert(bit(a1 & !all, j as int) == bit(a1, j as int));
            assert(bit(b1 & !all, j as int) == bit(b1, j as int));
            assert(bit(b2 & !all, j as int) == bit(b2, j as int));
            assert(bit(b3 & !all, j as int) == bit(b3, j as int));
            assert(bit(b4 & !all, j as int) == bit(b4, j as int));
            assert(weighted_below(p, t) == weighted_below(p, j));
        }
    }
}

/// The planes after the whole vertical sequence score its optimal alignment
/// against the horizontal one under (+1, -1, -3).
pub proof fn lemma_plane_score_is_optimal(h: Seq<u8>, v: Seq<u8>)
    requires
        h.len() <= 64,
    ensures
        bitpal_score(h, v) == nw(h, v, 1, -1, -3, h.len(), v.len()),
{
    lemma_weighted_below(h, v, v.len(), 64);
}

/// The recurrence is symmetric in its two sequences.
pub proof fn lemma_nw_symmetric(a: Seq<u8>, b: Seq<u8>, m: int, x: int, g: int, i: nat, j: nat)
    ensures
        nw(a, b, m, x, g, i, j) == nw(b, a, m, x, g, j, i),
    decreases i + j,
{
    if i > 0 && j > 0 {
        lemma_nw_symmetric(a, b, m, x, g, (i - 1) as nat, (j - 1) as nat);
        lemma_nw_symmetric(a, b, m, x, g, (i - 1) as nat, j);
        lemma_nw_symmetric(a, b, m, x, g, i, (j - 1) as nat);
    }
}

/// Cross-engine agreement: whenever one sequence fits in a word, the
/// bit-parallel score equals the full-matrix optimum under (+1, -1, -3).
pub proof fn lemma_bitpal_equals_full_matrix(s1: Seq<u8>, s2: Seq<u8>)
    requires
        s1.len() <= 64 || s2.len() <= 64,
    ensures
        bitpal_score(horizontal_of(s1, s2), vertical_of(s1, s2)) == nw(s1, s2, 1, -1, -3, s1.len(), s2.len()),
{
    lemma_plane_score_is_optimal(horizontal_of(s1, s2), vertical_of(s1, s2));
    if s1.len() > 64 {
        lemma_nw_symmetric(s2, s1, 1, -1, -3, s2.len(), s1.len());
    }
}

} // verus!
