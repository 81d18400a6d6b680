//! The banded engine: the recurrence restricted to cells near the main diagonal.
use vstd::prelude::*;
use crate::scoring::{abs, lemma_nw_bounded, magnitude, nw, scores_fit, sigma};
use crate::alignment::{GAP, SPACE, BAR, STAR, aligns, alignment_score, diff_symbol, gap_free, no_double_gap, remove_gaps};
use crate::optimal::{is_alignment, lemma_remove_gaps_last};

verus! {

/// The band of width `width` misses the bottom-right cell, so no score exists.
#[derive(Debug, PartialEq, Eq, Structural)]
pub struct CornerNotComputed;

/// Cell `[r][c]` lies in the band of width `w`.
pub open spec fn in_band(r: int, c: int, w: int) -> bool {
    abs(c - r) <= w
}

/// A defined score plus `d`; undefined stays undefined.
pub open spec fn plus(o: Option<int>, d: int) -> Option<int> {
    match o {
        Some(v) => Some(v + d),
        None => None,
    }
}

/// The larger of two optional scores, an undefined one counting as minus infinity.
pub open spec fn best(a: Option<int>, b: Option<int>) -> Option<int> {
    match (a, b) {
        (Some(u), Some(v)) => Some(if u >= v {
            u
        } else {
            v
        }),
        (Some(u), None) => Some(u),
        (None, _) => b,
    }
}

/// The banded score of `s1[..i]` against `s2[..j]` (row `j`, column `i`), or
/// `None` where the cell lies outside the band of width `w`.
pub open spec fn banded(s1: Seq<u8>, s2: Seq<u8>, m: int, x: int, g: int, w: nat, i: nat, j: nat) -> Option<int>
    decreases i + j,
{
    if !in_band(j as int, i as int, w as int) {
        None
    } else if i == 0 {
        Some(j * g)
    } else if j == 0 {
        Some(i * g)
    } else {
        best(
            best(
                plus(banded(s1, s2, m, x, g, w, (i - 1) as nat, (j - 1) as nat), sigma(s1[i - 1], s2[j - 1], m, x)),
                plus(banded(s1, s2, m, x, g, w, (i - 1) as nat, j), g),
            ),
            plus(banded(s1, s2, m, x, g, w, i, (j - 1) as nat), g),
        )
    }
}

/// A cell of the band is defined exactly when it lies in the band, and its
/// score is bounded as the full recurrence's is.
pub proof fn lemma_banded_defined(s1: Seq<u8>, s2: Seq<u8>, m: int, x: int, g: int, w: nat, i: nat, j: nat)
    ensures
        banded(s1, s2, m, x, g, w, i, j) is Some <==> in_band(j as int, i as int, w as int),
        banded(s1, s2, m, x, g, w, i, j) matches Some(v) ==> abs(v) <= magnitude(m, x, g) * (i + j),
    decreases i + j,
{
    let k = magnitude(m, x, g);
    assert(k >= abs(m) && k >= abs(x) && k >= abs(g));
    if !in_band(j as int, i as int, w as int) {
    } else if i == 0 {
        assert(abs(j * g) <= k * j) by (nonlinear_arith)
            requires
                k >= abs(g),
                j >= 0,
        ;
    } else if j == 0 {
        assert(abs(i * g) <= k * i) by (nonlinear_arith)
            requires
                k >= abs(g),
                i >= 0,
        ;
    } else {
        lemma_banded_defined(s1, s2, m, x, g, w, (i - 1) as nat, (j - 1) as nat);
        lemma_banded_defined(s1, s2, m, x, g, w, (i - 1) as nat, j);
        lemma_banded_defined(s1, s2, m, x, g, w, i, (j - 1) as nat);
        assert(k * (i + j) == k * (i + j - 1) + k) by (nonlinear_arith);
        assert(k * (i + j - 1) == k * (i + j - 2) + k) by (nonlinear_arith);
    }
}

/// Upper bound of the band: a defined banded score never exceeds the full
/// optimum of the same cell.
pub proof fn lemma_banded_at_most_full(s1: Seq<u8>, s2: Seq<u8>, m: int, x: int, g: int, w: nat, i: nat, j: nat)
    ensures
        banded(s1, s2, m, x, g, w, i, j) matches Some(v) ==> v <= nw(s1, s2, m, x, g, i, j),
    decreases i + j,
{
    if in_band(j as int, i as int, w as int) && i > 0 && j > 0 {
        lemma_banded_at_most_full(s1, s2, m, x, g, w, (i - 1) as nat, (j - 1) as nat);
        lemma_banded_at_most_full(s1, s2, m, x, g, w, (i - 1) as nat, j);
        lemma_banded_at_most_full(s1, s2, m, x, g, w, i, (j - 1) as nat);
    }
}

/// A band as wide as the longer sequence covers every cell: the banded score
/// is then the full optimum.
pub proof fn lemma_wide_band_is_full(s1: Seq<u8>, s2: Seq<u8>, m: int, x: int, g: int, w: nat, i: nat, j: nat)
    requires
        i <= w,
        j <= w,
    ensures
        banded(s1, s2, m, x, g, w, i, j) == Some(nw(s1, s2, m, x, g, i, j)),
    decreases i + j,
{
    if i > 0 && j > 0 {
        lemma_wide_band_is_full(s1, s2, m, x, g, w, (i - 1) as nat, (j - 1) as nat);
        lemma_wide_band_is_full(s1, s2, m, x, g, w, (i - 1) as nat, j);
        lemma_wide_band_is_full(s1, s2, m, x, g, w, i, (j - 1) as nat);
    }
}

/// The optional score that an executable cell holds.
pub open spec fn opt_int(cell: Option<i32>) -> Option<int> {
    match cell {
        Some(v) => Some(v as int),
        None => None,
    }
}

/// Every cell that the alignment `top` over `bottom` passes through lies in the
/// band of width `w`: after each column, the symbols consumed from the two
/// sequences differ in number by at most `w`.
pub open spec fn stays_in_band(top: Seq<u8>, bottom: Seq<u8>, w: nat) -> bool {
    forall|k: int|
        0 <= k <= top.len() ==> #[trigger] in_band(
            remove_gaps(bottom.take(k)).len() as int,
            remove_gaps(top.take(k)).len() as int,
            w as int,
        )
}

/// The banded score of a cell is at least the score of any alignment of the
/// two prefixes that stays in the band.
pub proof fn lemma_band_score_at_least(
    a: Seq<u8>,
    b: Seq<u8>,
    m: int,
    x: int,
    g: int,
    w: nat,
    i: nat,
    j: nat,
    top: Seq<u8>,
    bottom: Seq<u8>,
)
    requires
        i <= a.len(),
        j <= b.len(),
        is_alignment(top, bottom, a.take(i as int), b.take(j as int)),
        stays_in_band(top, bottom, w),
    ensures
        banded(a, b, m, x, g, w, i, j) matches Some(v) && alignment_score(top, bottom, m, x, g) <= v,
    decreases top.len(),
{
    let n = top.len() as int;
    assert(top.take(n) =~= top);
    assert(bottom.take(n) =~= bottom);
    assert(in_band(remove_gaps(bottom.take(n)).len() as int, remove_gaps(top.take(n)).len() as int, w as int));
    lemma_banded_defined(a, b, m, x, g, w, i, j);
    if top.len() == 0 {
        assert(a.take(i as int).len() == 0);
        assert(b.take(j as int).len() == 0);
    } else {
        let (tp, bp) = (top.drop_last(), bottom.drop_last());
        let (u, v) = (top.last(), bottom.last());
        lemma_remove_gaps_last(top);
        lemma_remove_gaps_last(bottom);
        assert(!(top[top.len() - 1] == GAP && bottom[top.len() - 1] == GAP));
        assert(no_double_gap(tp, bp)) by {
            assert forall|k: int| 0 <= k < tp.len() && k < bp.len() implies !(#[trigger] tp[k] == GAP && bp[k] == GAP) by {
                assert(tp[k] == top[k] && bp[k] == bottom[k]);
            }
        }
        assert(stays_in_band(tp, bp, w)) by {
            assert forall|k: int| 0 <= k <= tp.len() implies #[trigger] in_band(
                remove_gaps(bp.take(k)).len() as int,
                remove_gaps(tp.take(k)).len() as int,
                w as int,
            ) by {
                assert(tp.take(k) =~= top.take(k));
                assert(bp.take(k) =~= bottom.take(k));
                assert(in_band(remove_gaps(bottom.take(k)).len() as int, remove_gaps(top.take(k)).len() as int, w as int));
            }
        }
        let i2 = if u == GAP {
            i
        } else {
            assert(a.take(i as int) == remove_gaps(tp).push(u));
            assert(i >= 1);
            assert(remove_gaps(tp).push(u).drop_last() =~= remove_gaps(tp));
            assert(a.take(i as int).drop_last() =~= a.take(i - 1));
            assert(u == a.take(i as int)[i - 1]);
            (i - 1) as nat
        };
        let j2 = if v == GAP {
            j
        } else {
            assert(b.take(j as int) == remove_gaps(bp).push(v));
            assert(j >= 1);
            assert(remove_gaps(bp).push(v).drop_last() =~= remove_gaps(bp));
            assert(b.take(j as int).drop_last() =~= b.take(j - 1));
            assert(v == b.take(j as int)[j - 1]);
            (j - 1) as nat
        };
        lemma_band_score_at_least(a, b, m, x, g, w, i2, j2, tp, bp);
        if u == GAP {
            if i == 0 {
                lemma_banded_defined(a, b, m, x, g, w, 0, j2);
                assert(j * g == (j - 1) * g + g) by (nonlinear_arith);
            }
        } else if v == GAP {
            if j == 0 {
                lemma_banded_defined(a, b, m, x, g, w, i2, 0);
                assert(i * g == (i - 1) * g + g) by (nonlinear_arith);
            }
        }
    }
}

/// The banded engine reaches the full optimum exactly when the band holds an
/// optimal alignment: then the banded score of the bottom-right cell is the
/// full-matrix score.
pub proof fn lemma_band_holding_optimum(
    s1: Seq<u8>,
    s2: Seq<u8>,
    m: int,
    x: int,
    g: int,
    w: nat,
    top: Seq<u8>,
    bottom: Seq<u8>,
)
    requires
        is_alignment(top, bottom, s1, s2),
        stays_in_band(top, bottom, w),
        alignment_score(top, bottom, m, x, g) == nw(s1, s2, m, x, g, s1.len(), s2.len()),
    ensures
        banded(s1, s2, m, x, g, w, s1.len(), s2.len()) == Some(nw(s1, s2, m, x, g, s1.len(), s2.len())),
{
    assert(s1.take(s1.len() as int) =~= s1);
    assert(s2.take(s2.len() as int) =~= s2);
    lemma_band_score_at_least(s1, s2, m, x, g, w, s1.len(), s2.len(), top, bottom);
    lemma_banded_at_most_full(s1, s2, m, x, g, w, s1.len(), s2.len());
}

/// `matrix` holds the banded scores of `s1` (columns) against `s2` (rows).
pub open spec fn is_banded_matrix(
    matrix: Seq<Vec<Option<i32>>>,
    s1: Seq<u8>,
    s2: Seq<u8>,
    m: int,
    x: int,
    g: int,
    w: nat,
) -> bool {
    &&& matrix.len() == s2.len() + 1
    &&& forall|r: int| 0 <= r < matrix.len() ==> #[trigger] matrix[r]@.len() == s1.len() + 1
    &&& forall|r: int, c: int|
        0 <= r <= s2.len() && 0 <= c <= s1.len() ==> opt_int(#[trigger] matrix[r]@[c]) == banded(
            s1,
            s2,
            m,
            x,
            g,
            w,
            c as nat,
            r as nat,
        )
}

proof fn lemma_band_cell_fits(s1: Seq<u8>, s2: Seq<u8>, m: int, x: int, g: int, w: nat, i: nat, j: nat)
    requires
        i <= s1.len(),
        j <= s2.len(),
        scores_fit(s1.len() + s2.len(), m, x, g),
    ensures
        banded(s1, s2, m, x, g, w, i, j) matches Some(v) ==> abs(v) <= i32::MAX,
        banded(s1, s2, m, x, g, w, i, j) matches Some(v) ==> (i + j < s1.len() + s2.len() ==> abs(v) + magnitude(
            m,
            x,
            g,
        ) <= i32::MAX),
        magnitude(m, x, g) >= abs(m) && magnitude(m, x, g) >= abs(x) && magnitude(m, x, g) >= abs(g),
{
    lemma_banded_defined(s1, s2, m, x, g, w, i, j);
    let k = magnitude(m, x, g);
    let n = s1.len() + s2.len();
    assert(k * (i + j) <= k * n) by (nonlinear_arith)
        requires
            k >= 0,
            i + j <= n,
    ;
    if i + j < n {
        assert(k * (i + j) + k <= k * n) by (nonlinear_arith)
            requires
                k >= 0,
                i + j + 1 <= n,
        ;
    }
}

/// A defined score plus `d`.
fn add_defined(cell: Option<i32>, d: i32) -> (r: Option<i32>)
    requires
        cell matches Some(v) ==> i32::MIN <= v + d <= i32::MAX,
    ensures
        opt_int(r) == plus(opt_int(cell), d as int),
{
    match cell {
        Some(v) => Some(v + d),
        None => None,
    }
}

/// The larger of two optional scores, ignoring an undefined one.
fn larger_defined(a: Option<i32>, b: Option<i32>) -> (r: Option<i32>)
    ensures
        opt_int(r) == best(opt_int(a), opt_int(b)),
{
    match (a, b) {
        (Some(u), Some(v)) => Some(
            if u >= v {
                u
            } else {
                v
            },
        ),
        (Some(u), None) => Some(u),
        (None, _) => b,
    }
}

/// Cell `[r][c]` lies in the band of width `width`.
fn within_band(r: usize, c: usize, width: usize) -> (b: bool)
    ensures
        b == in_band(r as int, c as int, width as int),
{
    if c >= r {
        c - r <= width
    } else {
        r - c <= width
    }
}

/// Builds the banded score matrix: cell `[r][c]` is defined when
/// `|c - r| <= width` and then holds the best score over the paths that stay
/// in the band.
pub fn construct_banded_matrix(
    seq1: &[u8],
    seq2: &[u8],
    width: usize,
    match_score: i32,
    mismatch_score: i32,
    gap_score: i32,
) -> (matrix: Vec<Vec<Option<i32>>>)
    requires
        scores_fit(seq1@.len() + seq2@.len(), match_score as int, mismatch_score as int, gap_score as int),
    ensures
        is_banded_matrix(
            matrix@,
            seq1@,
            seq2@,
            match_score as int,
            mismatch_score as int,
            gap_score as int,
            width as nat,
        ),
{
    let ghost s1 = seq1@;
    let ghost s2 = seq2@;
    let ghost m = match_score as int;
    let ghost x = mismatch_score as int;
    let ghost g = gap_score as int;
    let ghost w = width as nat;
    let n1 = seq1.len();
    let n2 = seq2.len();
    let mut matrix: Vec<Vec<Option<i32>>> = Vec::new();
    // the first row: one gap per symbol of seq1, inside the band
    let mut first_row: Vec<Option<i32>> = Vec::new();
    let mut value: i32 = 0;
    first_row.push(Some(value));
    let mut col: usize = 0;
    while col < n1
        invariant
            n1 == s1.len(),
            n2 == s2.len(),
            g == gap_score as int,
            w == width,
            scores_fit(s1.len() + s2.len(), m, x, g),
            col <= n1,
            first_row@.len() == col + 1,
            value == nw(s1, s2, m, x, g, col as nat, 0),
            forall|c: int| 0 <= c <= col ==> opt_int(#[trigger] first_row@[c]) == banded(s1, s2, m, x, g, w, c as nat, 0),
        decreases n1 - col,
    {
        proof {
            lemma_nw_bounded(s1, s2, m, x, g, (col + 1) as nat, 0);
            crate::needleman_wunsch::lemma_cell_fits(s1, s2, m, x, g, col as nat, 0);
            assert((col + 1) * g == col * g + g) by (nonlinear_arith);
        }
        value = value + gap_score;
        if within_band(0, col + 1, width) {
            first_row.push(Some(value));
        } else {
            first_row.push(None);
        }
        col = col + 1;
    }
    matrix.push(first_row);
    let mut row: usize = 0;
    while row < n2
        invariant
            n1 == s1.len(),
            n2 == s2.len(),
            s1 == seq1@,
            s2 == seq2@,
            m == match_score as int,
            x == mismatch_score as int,
            g == gap_score as int,
            w == width,
            scores_fit(s1.len() + s2.len(), m, x, g),
            row <= n2,
            matrix@.len() == row + 1,
            forall|r: int| 0 <= r <= row ==> #[trigger] matrix@[r]@.len() == n1 + 1,
            forall|r: int, c: int|
                0 <= r <= row && 0 <= c <= n1 ==> opt_int(#[trigger] matrix@[r]@[c]) == banded(
                    s1,
                    s2,
                    m,
                    x,
                    g,
                    w,
                    c as nat,
                    r as nat,
                ),
        decreases n2 - row,
    {
        let current_seq2_char = seq2[row];
        let prev = &matrix[row];
        assert(prev@.len() == n1 + 1);
        let mut current: Vec<Option<i32>> = Vec::new();
        proof {
            crate::needleman_wunsch::lemma_cell_fits(s1, s2, m, x, g, 0, row as nat);
            assert((row + 1) * g == row * g + g) by (nonlinear_arith);
        }
        // the first column: one gap per symbol of seq2, inside the band
        if within_band(row + 1, 0, width) {
            match prev[0] {
                Some(v) => current.push(Some(v + gap_score)),
                None => current.push(None),
            }
        } else {
            current.push(None);
        }
        let mut col: usize = 0;
        while col < n1
            invariant
                n1 == s1.len(),
                n2 == s2.len(),
                s1 == seq1@,
                s2 == seq2@,
                m == match_score as int,
                x == mismatch_score as int,
                g == gap_score as int,
                w == width,
                scores_fit(s1.len() + s2.len(), m, x, g),
                row < n2,
                current_seq2_char == s2[row as int],
                col <= n1,
                prev@.len() == n1 + 1,
                forall|c: int| 0 <= c <= n1 ==> opt_int(#[trigger] prev@[c]) == banded(s1, s2, m, x, g, w, c as nat, row as nat),
                current@.len() == col + 1,
                forall|c: int|
                    0 <= c <= col ==> opt_int(#[trigger] current@[c]) == banded(s1, s2, m, x, g, w, c as nat, (row + 1) as nat),
            decreases n1 - col,
        {
            if within_band(row + 1, col + 1, width) {
                proof {
                    lemma_band_cell_fits(s1, s2, m, x, g, w, col as nat, row as nat);
                    lemma_band_cell_fits(s1, s2, m, x, g, w, col as nat, (row + 1) as nat);
                    lemma_band_cell_fits(s1, s2, m, x, g, w, (col + 1) as nat, row as nat);
                }
                let sigma_score = if seq1[col] == current_seq2_char {
                    match_score
                } else {
                    mismatch_score
                };
                let diag_score = add_defined(prev[col], sigma_score);
                let col_score = add_defined(current[col], gap_score);
                let row_score = add_defined(prev[col + 1], gap_score);
                current.push(larger_defined(larger_defined(diag_score, col_score), row_score));
            } else {
                current.push(None);
            }
            col = col + 1;
        }
        matrix.push(current);
        row = row + 1;
    }
    matrix
}

/// The banded score of `seq1` against `seq2`: the bottom-right cell of the
/// banded matrix, or `CornerNotComputed` when the band misses it.
pub fn banded_score(
    seq1: &[u8],
    seq2: &[u8],
    width: usize,
    match_score: i32,
    mismatch_score: i32,
    gap_score: i32,
) -> (res: Result<i32, CornerNotComputed>)
    requires
        scores_fit(seq1@.len() + seq2@.len(), match_score as int, mismatch_score as int, gap_score as int),
    ensures
        res is Err <==> abs(seq1@.len() - seq2@.len()) > width,
        res matches Ok(v) ==> banded(
            seq1@,
            seq2@,
            match_score as int,
            mismatch_score as int,
            gap_score as int,
            width as nat,
            seq1@.len(),
            seq2@.len(),
        ) == Some(v as int),
        res matches Ok(v) ==> v <= nw(
            seq1@,
            seq2@,
            match_score as int,
            mismatch_score as int,
            gap_score as int,
            seq1@.len(),
            seq2@.len(),
        ),
        width >= seq1@.len() && width >= seq2@.len() ==> res == Ok::<i32, CornerNotComputed>(
            nw(
                seq1@,
                seq2@,
                match_score as int,
                mismatch_score as int,
                gap_score as int,
                seq1@.len(),
                seq2@.len(),
            ) as i32,
        ),
{
    let ghost (m, x, g, w) = (match_score as int, mismatch_score as int, gap_score as int, width as nat);
    let matrix = construct_banded_matrix(seq1, seq2, width, match_score, mismatch_score, gap_score);
    let corner = matrix[seq2.len()][seq1.len()];
    proof {
        let (n1, n2) = (seq1@.len(), seq2@.len());
        assert(opt_int(matrix@[n2 as int]@[n1 as int]) == banded(seq1@, seq2@, m, x, g, w, n1, n2));
        lemma_banded_defined(seq1@, seq2@, m, x, g, w, n1, n2);
        lemma_banded_at_most_full(seq1@, seq2@, m, x, g, w, n1, n2);
        if width >= n1 && width >= n2 {
            lemma_wide_band_is_full(seq1@, seq2@, m, x, g, w, n1, n2);
        }
    }
    match corner {
        Some(score) => Ok(score),
        None => Err(CornerNotComputed),
    }
}

/// The triple that traceback from cell `[r][c]` of a banded matrix yields: a
/// step left, then a step up, then the diagonal, each only from a defined cell.
pub open spec fn band_trace(
    matrix: Seq<Vec<Option<i32>>>,
    s1: Seq<u8>,
    s2: Seq<u8>,
    g: int,
    r: nat,
    c: nat,
) -> (Seq<u8>, Seq<u8>, Seq<u8>)
    decreases r + c,
{
    if r == 0 && c == 0 {
        (Seq::empty(), Seq::empty(), Seq::empty())
    } else if c > 0 && opt_int(matrix[r as int]@[c - 1]) is Some && opt_int(matrix[r as int]@[c as int])
        == plus(opt_int(matrix[r as int]@[c - 1]), g) {
        let t = band_trace(matrix, s1, s2, g, r, (c - 1) as nat);
        (t.0.push(s1[c - 1]), t.1.push(SPACE), t.2.push(GAP))
    } else if r > 0 && opt_int(matrix[r - 1]@[c as int]) is Some && opt_int(matrix[r as int]@[c as int])
        == plus(opt_int(matrix[r - 1]@[c as int]), g) {
        let t = band_trace(matrix, s1, s2, g, (r - 1) as nat, c);
        (t.0.push(GAP), t.1.push(SPACE), t.2.push(s2[r - 1]))
    } else if r > 0 && c > 0 {
        let t = band_trace(matrix, s1, s2, g, (r - 1) as nat, (c - 1) as nat);
        let d = if s1[c - 1] == s2[r - 1] {
            BAR
        } else {
            STAR
        };
        (t.0.push(s1[c - 1]), t.1.push(d), t.2.push(s2[r - 1]))
    } else {
        (Seq::empty(), Seq::empty(), Seq::empty())
    }
}

/// Where neither gap step reproduces a defined cell, the diagonal step does.
proof fn lemma_band_diagonal(s1: Seq<u8>, s2: Seq<u8>, m: int, x: int, g: int, w: nat, i: nat, j: nat)
    requires
        i > 0 || j > 0,
        banded(s1, s2, m, x, g, w, i, j) is Some,
        !(i > 0 && banded(s1, s2, m, x, g, w, (i - 1) as nat, j) is Some && banded(s1, s2, m, x, g, w, i, j)
            == plus(banded(s1, s2, m, x, g, w, (i - 1) as nat, j), g)),
        !(j > 0 && banded(s1, s2, m, x, g, w, i, (j - 1) as nat) is Some && banded(s1, s2, m, x, g, w, i, j)
            == plus(banded(s1, s2, m, x, g, w, i, (j - 1) as nat), g)),
    ensures
        i > 0 && j > 0,
        banded(s1, s2, m, x, g, w, (i - 1) as nat, (j - 1) as nat) is Some,
        banded(s1, s2, m, x, g, w, i, j) == plus(
            banded(s1, s2, m, x, g, w, (i - 1) as nat, (j - 1) as nat),
            sigma(s1[i - 1], s2[j - 1], m, x),
        ),
{
    lemma_banded_defined(s1, s2, m, x, g, w, i, j);
    if j == 0 {
        lemma_banded_defined(s1, s2, m, x, g, w, (i - 1) as nat, 0);
        assert(i * g == (i - 1) * g + g) by (nonlinear_arith);
    } else if i == 0 {
        lemma_banded_defined(s1, s2, m, x, g, w, 0, (j - 1) as nat);
        assert(j * g == (j - 1) * g + g) by (nonlinear_arith);
    } else {
        lemma_banded_defined(s1, s2, m, x, g, w, (i - 1) as nat, (j - 1) as nat);
    }
}

/// Traceback through a banded matrix stays on defined cells and yields an
/// alignment of the two prefixes whose column scores add up to the banded score.
pub proof fn lemma_band_trace_consistent(
    matrix: Seq<Vec<Option<i32>>>,
    s1: Seq<u8>,
    s2: Seq<u8>,
    m: int,
    x: int,
    g: int,
    w: nat,
    r: nat,
    c: nat,
)
    requires
        is_banded_matrix(matrix, s1, s2, m, x, g, w),
        r <= s2.len(),
        c <= s1.len(),
        banded(s1, s2, m, x, g, w, c, r) is Some,
    ensures
        ({
            let t = band_trace(matrix, s1, s2, g, r, c);
            &&& t.0.len() == t.1.len() && t.2.len() == t.1.len()
            &&& gap_free(s1) && gap_free(s2) ==> aligns(t.0, t.1, t.2, s1.take(c as int), s2.take(r as int))
            &&& gap_free(s1) && gap_free(s2) ==> Some(alignment_score(t.0, t.2, m, x, g)) == banded(
                s1,
                s2,
                m,
                x,
                g,
                w,
                c,
                r,
            )
        }),
    decreases r + c,
{
    let t = band_trace(matrix, s1, s2, g, r, c);
    if r == 0 && c == 0 {
        assert(s1.take(0) =~= Seq::<u8>::empty());
        assert(s2.take(0) =~= Seq::<u8>::empty());
    } else {
        let here = banded(s1, s2, m, x, g, w, c, r);
        assert(opt_int(matrix[r as int]@[c as int]) == here);
        if c > 0 {
            assert(opt_int(matrix[r as int]@[c - 1]) == banded(s1, s2, m, x, g, w, (c - 1) as nat, r));
        }
        if r > 0 {
            assert(opt_int(matrix[r - 1]@[c as int]) == banded(s1, s2, m, x, g, w, c, (r - 1) as nat));
        }
        let left = c > 0 && banded(s1, s2, m, x, g, w, (c - 1) as nat, r) is Some && here == plus(
            banded(s1, s2, m, x, g, w, (c - 1) as nat, r),
            g,
        );
        let up = r > 0 && banded(s1, s2, m, x, g, w, c, (r - 1) as nat) is Some && here == plus(
            banded(s1, s2, m, x, g, w, c, (r - 1) as nat),
            g,
        );
        let (pr, pc) = if left {
            (r, (c - 1) as nat)
        } else if up {
            ((r - 1) as nat, c)
        } else {
            lemma_band_diagonal(s1, s2, m, x, g, w, c, r);
            ((r - 1) as nat, (c - 1) as nat)
        };
        lemma_band_trace_consistent(matrix, s1, s2, m, x, g, w, pr, pc);
        let p = band_trace(matrix, s1, s2, g, pr, pc);
        assert(t.0.drop_last() =~= p.0);
        assert(t.1.drop_last() =~= p.1);
        assert(t.2.drop_last() =~= p.2);
        if gap_free(s1) && gap_free(s2) {
            if pc < c {
                assert(s1.take(c as int) =~= s1.take(pc as int).push(s1[pc as int]));
            } else {
                assert(s1.take(c as int) =~= s1.take(pc as int));
            }
            if pr < r {
                assert(s2.take(r as int) =~= s2.take(pr as int).push(s2[pr as int]));
            } else {
                assert(s2.take(r as int) =~= s2.take(pr as int));
            }
            let n = t.1.len() - 1;
            assert forall|i: int| 0 <= i < t.1.len() implies #[trigger] t.1[i] == diff_symbol(t.0[i], t.2[i]) by {
                if i < n {
                    assert(t.1[i] == p.1[i] && t.0[i] == p.0[i] && t.2[i] == p.2[i]);
                }
            }
            assert forall|i: int| 0 <= i < t.0.len() && i < t.2.len() implies !(#[trigger] t.0[i] == GAP && t.2[i] == GAP) by {
                if i < n {
                    assert(t.0[i] == p.0[i] && t.2[i] == p.2[i]);
                }
            }
        }
    }
}

/// Defined cell `[r][c]` of `matrix` steps to a defined neighbour: left or up
/// by one gap, else diagonally.
pub open spec fn band_step_ok(matrix: Seq<Vec<Option<i32>>>, g: int, r: int, c: int) -> bool {
    ||| c > 0 && matrix[r]@[c - 1] is Some && opt_int(matrix[r]@[c]) == plus(opt_int(matrix[r]@[c - 1]), g)
    ||| r > 0 && matrix[r - 1]@[c] is Some && opt_int(matrix[r]@[c]) == plus(opt_int(matrix[r - 1]@[c]), g)
    ||| r > 0 && c > 0 && matrix[r - 1]@[c - 1] is Some
}

/// Every defined cell of `matrix` but the first steps to a defined neighbour,
/// and adding `g` to any defined cell but the bottom-right one stays within `i32`.
pub open spec fn band_traceable(matrix: Seq<Vec<Option<i32>>>, n1: nat, n2: nat, g: int) -> bool {
    &&& matrix.len() == n2 + 1
    &&& forall|r: int| 0 <= r <= n2 ==> #[trigger] matrix[r]@.len() == n1 + 1
    &&& forall|r: int, c: int|
        0 <= r <= n2 && 0 <= c <= n1 && (r > 0 || c > 0) && matrix[r]@[c] is Some ==> #[trigger] band_step_ok(
            matrix,
            g,
            r,
            c,
        )
    &&& forall|r: int, c: int|
        0 <= r <= n2 && 0 <= c <= n1 && r + c < n1 + n2 ==> (#[trigger] matrix[r]@[c] matches Some(v) ==> i32::MIN
            <= v + g <= i32::MAX)
}

/// A banded matrix satisfies the requirements of traceback.
pub proof fn lemma_banded_matrix_traceable(
    matrix: Seq<Vec<Option<i32>>>,
    s1: Seq<u8>,
    s2: Seq<u8>,
    m: int,
    x: int,
    g: int,
    w: nat,
)
    requires
        is_banded_matrix(matrix, s1, s2, m, x, g, w),
        scores_fit(s1.len() + s2.len(), m, x, g),
    ensures
        band_traceable(matrix, s1.len(), s2.len(), g),
{
    assert forall|r: int, c: int|
        0 <= r <= s2.len() && 0 <= c <= s1.len() && (r > 0 || c > 0) && matrix[r]@[c] is Some implies #[trigger] band_step_ok(
        matrix,
        g,
        r,
        c,
    ) by {
        assert(opt_int(matrix[r]@[c]) == banded(s1, s2, m, x, g, w, c as nat, r as nat));
        if c > 0 {
            assert(opt_int(matrix[r]@[c - 1]) == banded(s1, s2, m, x, g, w, (c - 1) as nat, r as nat));
        }
        if r > 0 {
            assert(opt_int(matrix[r - 1]@[c]) == banded(s1, s2, m, x, g, w, c as nat, (r - 1) as nat));
        }
        if r > 0 && c > 0 {
            assert(opt_int(matrix[r - 1]@[c - 1]) == banded(s1, s2, m, x, g, w, (c - 1) as nat, (r - 1) as nat));
        }
        let left = c > 0 && matrix[r]@[c - 1] is Some && opt_int(matrix[r]@[c]) == plus(opt_int(matrix[r]@[c - 1]), g);
        let up = r > 0 && matrix[r - 1]@[c] is Some && opt_int(matrix[r]@[c]) == plus(opt_int(matrix[r - 1]@[c]), g);
        if !left && !up {
            lemma_band_diagonal(s1, s2, m, x, g, w, c as nat, r as nat);
        }
    }
    assert forall|r: int, c: int|
        0 <= r <= s2.len() && 0 <= c <= s1.len() && r + c < s1.len() + s2.len() implies (
        #[trigger] matrix[r]@[c] matches Some(v) ==> i32::MIN <= v + g <= i32::MAX) by {
        assert(opt_int(matrix[r]@[c]) == banded(s1, s2, m, x, g, w, c as nat, r as nat));
        lemma_band_cell_fits(s1, s2, m, x, g, w, c as nat, r as nat);
    }
}

/// Traces one path back from the bottom-right cell of a banded matrix, over
/// defined cells only, and returns the aligned triple `(top, diff, bottom)`.
pub fn banded_backtrack(matrix: &Vec<Vec<Option<i32>>>, seq1: &[u8], seq2: &[u8], gap_score: i32) -> (res: (
    Vec<u8>,
    Vec<u8>,
    Vec<u8>,
))
    requires
        band_traceable(matrix@, seq1@.len(), seq2@.len(), gap_score as int),
        matrix@[seq2@.len() as int]@[seq1@.len() as int] is Some,
    ensures
        ({
            let t = band_trace(matrix@, seq1@, seq2@, gap_score as int, seq2@.len(), seq1@.len());
            res.0@ == t.0 && res.1@ == t.1 && res.2@ == t.2
        }),
{
    let ghost mat = matrix@;
    let ghost s1 = seq1@;
    let ghost s2 = seq2@;
    let ghost g = gap_score as int;
    let ghost whole = band_trace(mat, s1, s2, g, s2.len(), s1.len());
    let mut current_row = seq2.len();
    let mut current_col = seq1.len();
    let mut aligned_seq1: Vec<u8> = Vec::new();
    let mut aligned_seq2: Vec<u8> = Vec::new();
    let mut diff_line: Vec<u8> = Vec::new();
    while current_col != 0 || current_row != 0
        invariant
            mat == matrix@,
            s1 == seq1@,
            s2 == seq2@,
            g == gap_score as int,
            band_traceable(mat, s1.len(), s2.len(), g),
            whole == band_trace(mat, s1, s2, g, s2.len(), s1.len()),
            current_row <= s2.len(),
            current_col <= s1.len(),
            mat[current_row as int]@[current_col as int] is Some,
            ({
                let t = band_trace(mat, s1, s2, g, current_row as nat, current_col as nat);
                &&& t.0 + aligned_seq1@ == whole.0
                &&& t.1 + diff_line@ == whole.1
                &&& t.2 + aligned_seq2@ == whole.2
            }),
        decreases current_row + current_col,
    {
        let ghost (r, c) = (current_row as int, current_col as int);
        let ghost t = band_trace(mat, s1, s2, g, r as nat, c as nat);
        let ghost (old1, oldd, old2) = (aligned_seq1@, diff_line@, aligned_seq2@);
        let row = &matrix[current_row];
        assert(row@.len() == s1.len() + 1);
        assert(mat[r]@[c] is Some);
        assert(band_step_ok(mat, g, r, c));
        let current_score = row[current_col].unwrap();
        let take_left = current_col != 0 && match row[current_col - 1] {
            Some(left) => current_score == left + gap_score,
            None => false,
        };
        let take_up = !take_left && current_row != 0 && match matrix[current_row - 1][current_col] {
            Some(up) => current_score == up + gap_score,
            None => false,
        };
        if take_left {
            aligned_seq1.insert(0, seq1[current_col - 1]);
            diff_line.insert(0, SPACE);
            aligned_seq2.insert(0, GAP);
            current_col = current_col - 1;
        } else if take_up {
            aligned_seq1.insert(0, GAP);
            diff_line.insert(0, SPACE);
            aligned_seq2.insert(0, seq2[current_row - 1]);
            current_row = current_row - 1;
        } else {
            assert(current_row != 0 && current_col != 0);
            aligned_seq1.insert(0, seq1[current_col - 1]);
            aligned_seq2.insert(0, seq2[current_row - 1]);
            let char_to_insert = if seq1[current_col - 1] == seq2[current_row - 1] {
                BAR
            } else {
                STAR
            };
            diff_line.insert(0, char_to_insert);
            current_row = current_row - 1;
            current_col = current_col - 1;
        }
        proof {
            let t2 = band_trace(mat, s1, s2, g, current_row as nat, current_col as nat);
            assert(t2.0 + aligned_seq1@ =~= t.0 + old1);
            assert(t2.1 + diff_line@ =~= t.1 + oldd);
            assert(t2.2 + aligned_seq2@ =~= t.2 + old2);
        }
    }
    proof {
        assert(aligned_seq1@ =~= whole.0);
        assert(diff_line@ =~= whole.1);
        assert(aligned_seq2@ =~= whole.2);
    }
    (aligned_seq1, diff_line, aligned_seq2)
}

/// The triple that banded traceback from cell `[r][c]` yields when read off
/// the banded recurrence itself, with the tie-break of `band_trace`.
pub open spec fn banded_trace(s1: Seq<u8>, s2: Seq<u8>, m: int, x: int, g: int, w: nat, r: nat, c: nat) -> (
    Seq<u8>,
    Seq<u8>,
    Seq<u8>,
)
    decreases r + c,
{
    if r == 0 && c == 0 {
        (Seq::empty(), Seq::empty(), Seq::empty())
    } else if c > 0 && banded(s1, s2, m, x, g, w, (c - 1) as nat, r) is Some && banded(s1, s2, m, x, g, w, c, r)
        == plus(banded(s1, s2, m, x, g, w, (c - 1) as nat, r), g) {
        let t = banded_trace(s1, s2, m, x, g, w, r, (c - 1) as nat);
        (t.0.push(s1[c - 1]), t.1.push(SPACE), t.2.push(GAP))
    } else if r > 0 && banded(s1, s2, m, x, g, w, c, (r - 1) as nat) is Some && banded(s1, s2, m, x, g, w, c, r)
        == plus(banded(s1, s2, m, x, g, w, c, (r - 1) as nat), g) {
        let t = banded_trace(s1, s2, m, x, g, w, (r - 1) as nat, c);
        (t.0.push(GAP), t.1.push(SPACE), t.2.push(s2[r - 1]))
    } else if r > 0 && c > 0 {
        let t = banded_trace(s1, s2, m, x, g, w, (r - 1) as nat, (c - 1) as nat);
        let d = if s1[c - 1] == s2[r - 1] {
            BAR
        } else {
            STAR
        };
        (t.0.push(s1[c - 1]), t.1.push(d), t.2.push(s2[r - 1]))
    } else {
        (Seq::empty(), Seq::empty(), Seq::empty())
    }
}

proof fn lemma_band_trace_is_banded_trace(
    matrix: Seq<Vec<Option<i32>>>,
    s1: Seq<u8>,
    s2: Seq<u8>,
    m: int,
    x: int,
    g: int,
    w: nat,
    r: nat,
    c: nat,
)
    requires
        is_banded_matrix(matrix, s1, s2, m, x, g, w),
        r <= s2.len(),
        c <= s1.len(),
    ensures
        band_trace(matrix, s1, s2, g, r, c) == banded_trace(s1, s2, m, x, g, w, r, c),
    decreases r + c,
{
    if r > 0 || c > 0 {
        assert(opt_int(matrix[r as int]@[c as int]) == banded(s1, s2, m, x, g, w, c, r));
        if c > 0 {
            assert(opt_int(matrix[r as int]@[c - 1]) == banded(s1, s2, m, x, g, w, (c - 1) as nat, r));
            lemma_band_trace_is_banded_trace(matrix, s1, s2, m, x, g, w, r, (c - 1) as nat);
        }
        if r > 0 {
            assert(opt_int(matrix[r - 1]@[c as int]) == banded(s1, s2, m, x, g, w, c, (r - 1) as nat));
            lemma_band_trace_is_banded_trace(matrix, s1, s2, m, x, g, w, (r - 1) as nat, c);
        }
        if r > 0 && c > 0 {
            lemma_band_trace_is_banded_trace(matrix, s1, s2, m, x, g, w, (r - 1) as nat, (c - 1) as nat);
        }
    }
}

/// The banded score of `seq1` against `seq2` and an aligned triple that
/// reaches it, or `CornerNotComputed` when the band misses the bottom-right cell.
pub fn banded_alignment(
    seq1: &[u8],
    seq2: &[u8],
    width: usize,
    match_score: i32,
    mismatch_score: i32,
    gap_score: i32,
) -> (res: Result<(i32, (Vec<u8>, Vec<u8>, Vec<u8>)), CornerNotComputed>)
    requires
        scores_fit(seq1@.len() + seq2@.len(), match_score as int, mismatch_score as int, gap_score as int),
    ensures
        res is Err <==> abs(seq1@.len() - seq2@.len()) > width,
        res matches Ok((score, t)) ==> {
            &&& (t.0@, t.1@, t.2@) == banded_trace(
                seq1@,
                seq2@,
                match_score as int,
                mismatch_score as int,
                gap_score as int,
                width as nat,
                seq2@.len(),
                seq1@.len(),
            )
            &&& banded(
                seq1@,
                seq2@,
                match_score as int,
                mismatch_score as int,
                gap_score as int,
                width as nat,
                seq1@.len(),
                seq2@.len(),
            ) == Some(score as int)
            &&& t.0@.len() == t.1@.len() && t.2@.len() == t.1@.len()
            &&& gap_free(seq1@) && gap_free(seq2@) ==> aligns(t.0@, t.1@, t.2@, seq1@, seq2@)
            &&& gap_free(seq1@) && gap_free(seq2@) ==> alignment_score(
                t.0@,
                t.2@,
                match_score as int,
                mismatch_score as int,
                gap_score as int,
            ) == score
        },
{
    let ghost (m, x, g, w) = (match_score as int, mismatch_score as int, gap_score as int, width as nat);
    let matrix = construct_banded_matrix(seq1, seq2, width, match_score, mismatch_score, gap_score);
    let corner = matrix[seq2.len()][seq1.len()];
    let ghost (n1, n2) = (seq1@.len(), seq2@.len());
    proof {
        assert(opt_int(matrix@[n2 as int]@[n1 as int]) == banded(seq1@, seq2@, m, x, g, w, n1, n2));
        lemma_banded_defined(seq1@, seq2@, m, x, g, w, n1, n2);
    }
    match corner {
        Some(score) => {
            proof {
                lemma_banded_matrix_traceable(matrix@, seq1@, seq2@, m, x, g, w);
            }
            let triple = banded_backtrack(&matrix, seq1, seq2, gap_score);
            proof {
                lemma_band_trace_consistent(matrix@, seq1@, seq2@, m, x, g, w, n2, n1);
                lemma_band_trace_is_banded_trace(matrix@, seq1@, seq2@, m, x, g, w, n2, n1);
                assert(seq1@.take(n1 as int) =~= seq1@);
                assert(seq2@.take(n2 as int) =~= seq2@);
            }
            Ok((score, triple))
        },
        None => Err(CornerNotComputed),
    }
}

} // verus!
