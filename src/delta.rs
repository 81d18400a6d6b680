//! Delta encoding of the score matrix: differences between neighbouring cells.
use vstd::prelude::*;
use crate::scoring::{magnitude, max3, nw};

verus! {

/// The horizontal delta `S[r][c] - S[r][c - 1]` of the score matrix (`c >= 1`).
pub open spec fn delta_h(s1: Seq<u8>, s2: Seq<u8>, m: int, x: int, g: int, c: nat, r: nat) -> int {
    nw(s1, s2, m, x, g, c, r) - nw(s1, s2, m, x, g, (c - 1) as nat, r)
}

/// The vertical delta `S[r][c] - S[r - 1][c]` of the score matrix (`r >= 1`).
pub open spec fn delta_v(s1: Seq<u8>, s2: Seq<u8>, m: int, x: int, g: int, c: nat, r: nat) -> int {
    nw(s1, s2, m, x, g, c, r) - nw(s1, s2, m, x, g, c, (r - 1) as nat)
}

/// When a match scores at least a mismatch and at least two gaps, every delta
/// lies between `g` and `m - g`.
pub proof fn lemma_delta_bounds(s1: Seq<u8>, s2: Seq<u8>, m: int, x: int, g: int, c: nat, r: nat)
    requires
        x <= m,
        2 * g <= m,
    ensures
        c >= 1 ==> g <= delta_h(s1, s2, m, x, g, c, r) <= m - g,
        r >= 1 ==> g <= delta_v(s1, s2, m, x, g, c, r) <= m - g,
    decreases c + r,
{
    if c >= 1 && r >= 1 {
        lemma_delta_bounds(s1, s2, m, x, g, (c - 1) as nat, r);
        lemma_delta_bounds(s1, s2, m, x, g, c, (r - 1) as nat);
    }
    if c >= 1 && r == 0 {
        assert(c * g - (c - 1) * g == g) by (nonlinear_arith);
    }
    if r >= 1 && c == 0 {
        assert(r * g - (r - 1) * g == g) by (nonlinear_arith);
    }
}

/// The delta of one interior cell from the delta above it and the delta left
/// of it: `(horizontal, vertical)`.
fn delta_cell(
    is_match: bool,
    cell_above: i32,
    cell_left: i32,
    match_score: i32,
    mismatch_score: i32,
    gap_score: i32,
) -> (r: (i32, i32))
    requires
        5 * magnitude(match_score as int, mismatch_score as int, gap_score as int) <= i32::MAX,
        gap_score <= cell_above <= match_score - gap_score,
        gap_score <= cell_left <= match_score - gap_score,
        mismatch_score <= match_score,
    ensures
        ({
            let d = max3(
                if is_match {
                    match_score as int
                } else {
                    mismatch_score as int
                },
                cell_left + gap_score,
                cell_above + gap_score,
            );
            r.0 == d - cell_left && r.1 == d - cell_above
        }),
{
    if is_match {
        (match_score - cell_left, match_score - cell_above)
    } else if mismatch_score - gap_score >= cell_above && mismatch_score - gap_score >= cell_left {
        // mismatch
        (mismatch_score - cell_left, mismatch_score - cell_above)
    } else if cell_above >= mismatch_score - gap_score && cell_above >= cell_left {
        // indel from above
        (cell_above + gap_score - cell_left, gap_score)
    } else {
        // indel from left
        (gap_score, cell_left + gap_score - cell_above)
    }
}

/// The delta matrices `(delta_h, delta_v)` of `seq1` (columns) against `seq2`
/// (rows). `delta_h[r][c]` is `S[r][c] - S[r][c - 1]` and `delta_v[r][c]` is
/// `S[r][c] - S[r - 1][c]`; the first row of `delta_h` and the first column of
/// `delta_v` hold the gap score, and the cells without a neighbour to take the
/// difference with are `None`. Each interior delta is computed from the delta
/// above and the delta to the left alone, which relies on a match scoring at
/// least a mismatch and at least two gaps.
pub fn construct_delta_matrices(
    seq1: &[u8],
    seq2: &[u8],
    match_score: i32,
    mismatch_score: i32,
    gap_score: i32,
) -> (res: (Vec<Vec<Option<i32>>>, Vec<Vec<Option<i32>>>))
    requires
        mismatch_score <= match_score,
        2 * gap_score <= match_score,
        5 * magnitude(match_score as int, mismatch_score as int, gap_score as int) <= i32::MAX,
    ensures
        ({
            let (dh, dv) = res;
            let (s1, s2) = (seq1@, seq2@);
            let (m, x, g) = (match_score as int, mismatch_score as int, gap_score as int);
            &&& dh@.len() == s2.len() + 1
            &&& dv@.len() == s2.len() + 1
            &&& forall|r: int| 0 <= r <= s2.len() ==> #[trigger] dh@[r]@.len() == s1.len() + 1
            &&& forall|r: int| 0 <= r <= s2.len() ==> #[trigger] dv@[r]@.len() == s1.len() + 1
            &&& forall|c: int| 0 <= c <= s1.len() ==> #[trigger] dh@[0]@[c] == Some(gap_score)
            &&& forall|r: int| 0 <= r <= s2.len() ==> #[trigger] dv@[r]@[0] == Some(gap_score)
            &&& forall|r: int| 1 <= r <= s2.len() ==> #[trigger] dh@[r]@[0] is None
            &&& forall|c: int| 1 <= c <= s1.len() ==> #[trigger] dv@[0]@[c] is None
            &&& forall|r: int, c: int|
                1 <= r <= s2.len() && 1 <= c <= s1.len() ==> #[trigger] dh@[r]@[c] == Some(
                    delta_h(s1, s2, m, x, g, c as nat, r as nat) as i32,
                )
            &&& forall|r: int, c: int|
                1 <= r <= s2.len() && 1 <= c <= s1.len() ==> #[trigger] dv@[r]@[c] == Some(
                    delta_v(s1, s2, m, x, g, c as nat, r as nat) as i32,
                )
        }),
{
    let ghost (s1, s2) = (seq1@, seq2@);
    let ghost (m, x, g) = (match_score as int, mismatch_score as int, gap_score as int);
    let n1 = seq1.len();
    let n2 = seq2.len();
    let mut delta_hs: Vec<Vec<Option<i32>>> = Vec::new();
    let mut delta_vs: Vec<Vec<Option<i32>>> = Vec::new();
    // the first row
    let mut first_h: Vec<Option<i32>> = Vec::new();
    let mut first_v: Vec<Option<i32>> = Vec::new();
    first_h.push(Some(gap_score));
    first_v.push(Some(gap_score));
    let mut col: usize = 0;
    while col < n1
        invariant
            n1 == s1.len(),
            col <= n1,
            first_h@.len() == col + 1,
            first_v@.len() == col + 1,
            forall|c: int| 0 <= c <= col ==> #[trigger] first_h@[c] == Some(gap_score),
            first_v@[0] == Some(gap_score),
            forall|c: int| 1 <= c <= col ==> #[trigger] first_v@[c] is None,
        decreases n1 - col,
    {
        first_h.push(Some(gap_score));
        first_v.push(None);
        col = col + 1;
    }
    delta_hs.push(first_h);
    delta_vs.push(first_v);
    let mut row: usize = 0;
    while row < n2
        invariant
            n1 == s1.len(),
            n2 == s2.len(),
            s1 == seq1@,
            s2 == seq2@,
            m == match_score as int,
            x == mismatch_score as int,
            g == gap_score as int,
            mismatch_score <= match_score,
            2 * gap_score <= match_score,
            5 * magnitude(m, x, g) <= i32::MAX,
            row <= n2,
            delta_hs@.len() == row + 1,
            delta_vs@.len() == row + 1,
            forall|r: int| 0 <= r <= row ==> #[trigger] delta_hs@[r]@.len() == n1 + 1,
            forall|r: int| 0 <= r <= row ==> #[trigger] delta_vs@[r]@.len() == n1 + 1,
            forall|c: int| 0 <= c <= n1 ==> #[trigger] delta_hs@[0]@[c] == Some(gap_score),
            forall|r: int| 0 <= r <= row ==> #[trigger] delta_vs@[r]@[0] == Some(gap_score),
            forall|r: int| 1 <= r <= row ==> #[trigger] delta_hs@[r]@[0] is None,
            forall|c: int| 1 <= c <= n1 ==> #[trigger] delta_vs@[0]@[c] is None,
            forall|r: int, c: int|
                1 <= r <= row && 1 <= c <= n1 ==> #[trigger] delta_hs@[r]@[c] == Some(
                    delta_h(s1, s2, m, x, g, c as nat, r as nat) as i32,
                ),
            forall|r: int, c: int|
                1 <= r <= row && 1 <= c <= n1 ==> #[trigger] delta_vs@[r]@[c] == Some(
                    delta_v(s1, s2, m, x, g, c as nat, r as nat) as i32,
                ),
        decreases n2 - row,
    {
        let current_seq2_char = seq2[row];
        let above_row = &delta_hs[row];
        assert(above_row@.len() == n1 + 1);
        let mut h_row: Vec<Option<i32>> = Vec::new();
        let mut v_row: Vec<Option<i32>> = Vec::new();
        h_row.push(None);
        v_row.push(Some(gap_score));
        let mut col: usize = 0;
        while col < n1
            invariant
                n1 == s1.len(),
                n2 == s2.len(),
                s1 == seq1@,
                s2 == seq2@,
                m == match_score as int,
                x == mismatch_score as int,
                g == gap_score as int,
                mismatch_score <= match_score,
                2 * gap_score <= match_score,
                5 * magnitude(m, x, g) <= i32::MAX,
                row < n2,
                current_seq2_char == s2[row as int],
                col <= n1,
                above_row@.len() == n1 + 1,
                row == 0 ==> forall|c: int| 0 <= c <= n1 ==> #[trigger] above_row@[c] == Some(gap_score),
                row > 0 ==> forall|c: int|
                    1 <= c <= n1 ==> #[trigger] above_row@[c] == Some(
                        delta_h(s1, s2, m, x, g, c as nat, row as nat) as i32,
                    ),
                h_row@.len() == col + 1,
                v_row@.len() == col + 1,
                h_row@[0] is None,
                v_row@[0] == Some(gap_score),
                forall|c: int|
                    1 <= c <= col ==> #[trigger] h_row@[c] == Some(
                        delta_h(s1, s2, m, x, g, c as nat, (row + 1) as nat) as i32,
                    ),
                forall|c: int|
                    1 <= c <= col ==> #[trigger] v_row@[c] == Some(
                        delta_v(s1, s2, m, x, g, c as nat, (row + 1) as nat) as i32,
                    ),
            decreases n1 - col,
        {
            let ghost (c, r) = ((col + 1) as nat, (row + 1) as nat);
            proof {
                crate::delta::lemma_delta_bounds(s1, s2, m, x, g, c, (r - 1) as nat);
                crate::delta::lemma_delta_bounds(s1, s2, m, x, g, (c - 1) as nat, r);
                crate::delta::lemma_delta_bounds(s1, s2, m, x, g, c, r);
                if row == 0 {
                    assert(c * g - (c - 1) * g == g) by (nonlinear_arith);
                }
                if col == 0 {
                    assert(r * g - (r - 1) * g == g) by (nonlinear_arith);
                }
            }
            let cell_above = above_row[col + 1].unwrap();
            let cell_left = v_row[col].unwrap();
            assert(cell_above == delta_h(s1, s2, m, x, g, c, (r - 1) as nat));
            assert(cell_left == delta_v(s1, s2, m, x, g, (c - 1) as nat, r));
            let (h, v) = delta_cell(
                seq1[col] == current_seq2_char,
                cell_above,
                cell_left,
                match_score,
                mismatch_score,
                gap_score,
            );
            h_row.push(Some(h));
            v_row.push(Some(v));
            col = col + 1;
        }
        delta_hs.push(h_row);
        delta_vs.push(v_row);
        row = row + 1;
    }
    (delta_hs, delta_vs)
}

} // verus!
