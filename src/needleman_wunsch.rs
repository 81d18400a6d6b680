//! The full-matrix engine: score matrix and traceback.
use vstd::prelude::*;
use crate::scoring::{lemma_nw_bounded, magnitude, nw, scores_fit, abs};
use crate::alignment::{GAP, SPACE, BAR, STAR, aligns, alignment_score, diff_symbol, gap_free};

verus! {

/// `matrix` is the score matrix of `s1` (columns) against `s2` (rows):
/// `|s2| + 1` rows of `|s1| + 1` cells, cell `[r][c]` holding `nw(.., c, r)`.
pub open spec fn is_score_matrix(
    matrix: Seq<Vec<i32>>,
    s1: Seq<u8>,
    s2: Seq<u8>,
    m: int,
    x: int,
    g: int,
) -> bool {
    &&& matrix.len() == s2.len() + 1
    &&& forall|r: int| 0 <= r < matrix.len() ==> #[trigger] matrix[r]@.len() == s1.len() + 1
    &&& forall|r: int, c: int|
        0 <= r <= s2.len() && 0 <= c <= s1.len() ==> #[trigger] matrix[r]@[c] == nw(
            s1,
            s2,
            m,
            x,
            g,
            c as nat,
            r as nat,
        )
}

/// Adding one score to a cell that is not the last corner stays within `i32`.
pub proof fn lemma_cell_fits(s1: Seq<u8>, s2: Seq<u8>, m: int, x: int, g: int, i: nat, j: nat)
    requires
        i <= s1.len(),
        j <= s2.len(),
        scores_fit(s1.len() + s2.len(), m, x, g),
    ensures
        abs(nw(s1, s2, m, x, g, i, j)) <= i32::MAX,
        i + j < s1.len() + s2.len() ==> abs(nw(s1, s2, m, x, g, i, j)) + magnitude(m, x, g) <= i32::MAX,
        magnitude(m, x, g) >= abs(m) && magnitude(m, x, g) >= abs(x) && magnitude(m, x, g) >= abs(g),
{
    lemma_nw_bounded(s1, s2, m, x, g, i, j);
    let k = magnitude(m, x, g);
    let n = s1.len() + s2.len();
    assert(k * (i + j) <= k * n) by (nonlinear_arith)
        requires
            k >= 0,
            i + j <= n,
    ;
    if i + j < n {
        assert(k * (i + j) + k <= k * n) by (nonlinear_arith)
            requires
                k >= 0,
                i + j + 1 <= n,
        ;
    }
}

/// Builds the `(|seq2| + 1) x (|seq1| + 1)` score matrix: row `r`, column `c`
/// holds the optimal score of `seq1[..c]` against `seq2[..r]`.
pub fn construct_matrix(
    seq1: &[u8],
    seq2: &[u8],
    match_score: i32,
    mismatch_score: i32,
    gap_score: i32,
) -> (matrix: Vec<Vec<i32>>)
    requires
        scores_fit(seq1@.len() + seq2@.len(), match_score as int, mismatch_score as int, gap_score as int),
    ensures
        is_score_matrix(matrix@, seq1@, seq2@, match_score as int, mismatch_score as int, gap_score as int),
{
    let ghost s1 = seq1@;
    let ghost s2 = seq2@;
    let ghost m = match_score as int;
    let ghost x = mismatch_score as int;
    let ghost g = gap_score as int;
    let n1 = seq1.len();
    let n2 = seq2.len();
    let mut matrix: Vec<Vec<i32>> = Vec::new();
    // the first row: one gap per symbol of seq1
    let mut first_row: Vec<i32> = Vec::new();
    let mut value: i32 = 0;
    first_row.push(value);
    let mut col: usize = 0;
    while col < n1
        invariant
            n1 == s1.len(),
            n2 == s2.len(),
            s1 == seq1@,
            s2 == seq2@,
            g == gap_score as int,
            scores_fit(s1.len() + s2.len(), m, x, g),
            col <= n1,
            first_row@.len() == col + 1,
            value == nw(s1, s2, m, x, g, col as nat, 0),
            forall|c: int| 0 <= c <= col ==> #[trigger] first_row@[c] == nw(s1, s2, m, x, g, c as nat, 0),
        decreases n1 - col,
    {
        proof {
            lemma_cell_fits(s1, s2, m, x, g, col as nat, 0);
            assert((col + 1) * g == col * g + g) by (nonlinear_arith);
        }
        value = value + gap_score;
        first_row.push(value);
        col = col + 1;
    }
    matrix.push(first_row);
    let mut row: usize = 0;
    while row < n2
        invariant
            n1 == s1.len(),
            n2 == s2.len(),
            s1 == seq1@,
            s2 == seq2@,
            m == match_score as int,
            x == mismatch_score as int,
            g == gap_score as int,
            scores_fit(s1.len() + s2.len(), m, x, g),
            row <= n2,
            matrix@.len() == row + 1,
            forall|r: int| 0 <= r <= row ==> #[trigger] matrix@[r]@.len() == n1 + 1,
            forall|r: int, c: int|
                0 <= r <= row && 0 <= c <= n1 ==> #[trigger] matrix@[r]@[c] == nw(
                    s1,
                    s2,
                    m,
                    x,
                    g,
                    c as nat,
                    r as nat,
                ),
        decreases n2 - row,
    {
        let current_seq2_char = seq2[row];
        let prev = &matrix[row];
        assert(prev@.len() == n1 + 1);
        proof {
            lemma_cell_fits(s1, s2, m, x, g, 0, row as nat);
            assert((row + 1) * g == row * g + g) by (nonlinear_arith);
        }
        let mut current: Vec<i32> = Vec::new();
        current.push(prev[0] + gap_score);
        let mut col: usize = 0;
        while col < n1
            invariant
                n1 == s1.len(),
                n2 == s2.len(),
                s1 == seq1@,
                s2 == seq2@,
                m == match_score as int,
                x == mismatch_score as int,
                g == gap_score as int,
                scores_fit(s1.len() + s2.len(), m, x, g),
                row < n2,
                current_seq2_char == s2[row as int],
                col <= n1,
                prev@.len() == n1 + 1,
                forall|c: int| 0 <= c <= n1 ==> #[trigger] prev@[c] == nw(s1, s2, m, x, g, c as nat, row as nat),
                current@.len() == col + 1,
                forall|c: int| 0 <= c <= col ==> #[trigger] current@[c] == nw(s1, s2, m, x, g, c as nat, (row + 1) as nat),
            decreases n1 - col,
        {
            proof {
                lemma_cell_fits(s1, s2, m, x, g, col as nat, row as nat);
                lemma_cell_fits(s1, s2, m, x, g, col as nat, (row + 1) as nat);
                lemma_cell_fits(s1, s2, m, x, g, (col + 1) as nat, row as nat);
            }
            let diag_score = prev[col] + if seq1[col] == current_seq2_char {
                match_score
            } else {
                mismatch_score
            };
            let left_score = current[col] + gap_score;
            let up_score = prev[col + 1] + gap_score;
            let best = if diag_score >= left_score && diag_score >= up_score {
                diag_score
            } else if left_score >= up_score {
                left_score
            } else {
                up_score
            };
            current.push(best);
            col = col + 1;
        }
        matrix.push(current);
        row = row + 1;
    }
    matrix
}

} // verus!

verus! {

/// `matrix` has the shape of a score matrix of `n1` columns and `n2` rows
/// beyond the first, its first row and column grow by `g` per cell, and adding
/// `g` to any cell but the bottom-right one stays within `i32`.
pub open spec fn traceable(matrix: Seq<Vec<i32>>, n1: nat, n2: nat, g: int) -> bool {
    &&& matrix.len() == n2 + 1
    &&& forall|r: int| 0 <= r <= n2 ==> #[trigger] matrix[r]@.len() == n1 + 1
    &&& forall|c: int| 1 <= c <= n1 ==> #[trigger] matrix[0]@[c] == matrix[0]@[c - 1] + g
    &&& forall|r: int| 1 <= r <= n2 ==> #[trigger] matrix[r]@[0] == matrix[r - 1]@[0] + g
    &&& forall|r: int, c: int|
        0 <= r <= n2 && 0 <= c <= n1 && r + c < n1 + n2 ==> i32::MIN <= #[trigger] matrix[r]@[c] + g
            <= i32::MAX
}

/// The triple that traceback from cell `[r][c]` yields. Each step prefers a gap
/// in `s2` (a step left), then a gap in `s1` (a step up), then the diagonal.
pub open spec fn trace(matrix: Seq<Vec<i32>>, s1: Seq<u8>, s2: Seq<u8>, g: int, r: nat, c: nat) -> (
    Seq<u8>,
    Seq<u8>,
    Seq<u8>,
)
    decreases r + c,
{
    if r == 0 && c == 0 {
        (Seq::empty(), Seq::empty(), Seq::empty())
    } else if c > 0 && matrix[r as int]@[c as int] == matrix[r as int]@[c - 1] + g {
        let t = trace(matrix, s1, s2, g, r, (c - 1) as nat);
        (t.0.push(s1[c - 1]), t.1.push(SPACE), t.2.push(GAP))
    } else if r > 0 && matrix[r as int]@[c as int] == matrix[r - 1]@[c as int] + g {
        let t = trace(matrix, s1, s2, g, (r - 1) as nat, c);
        (t.0.push(GAP), t.1.push(SPACE), t.2.push(s2[r - 1]))
    } else if r > 0 && c > 0 {
        let t = trace(matrix, s1, s2, g, (r - 1) as nat, (c - 1) as nat);
        let d = if s1[c - 1] == s2[r - 1] {
            BAR
        } else {
            STAR
        };
        (t.0.push(s1[c - 1]), t.1.push(d), t.2.push(s2[r - 1]))
    } else {
        (Seq::empty(), Seq::empty(), Seq::empty())
    }
}

/// Traces one optimal path back from the bottom-right cell of `matrix` and
/// returns the aligned triple `(top, diff, bottom)`.
pub fn backtrack_alignment(matrix: &Vec<Vec<i32>>, seq1: &[u8], seq2: &[u8], gap_score: i32) -> (res: (
    Vec<u8>,
    Vec<u8>,
    Vec<u8>,
))
    requires
        traceable(matrix@, seq1@.len(), seq2@.len(), gap_score as int),
    ensures
        ({
            let t = trace(matrix@, seq1@, seq2@, gap_score as int, seq2@.len(), seq1@.len());
            res.0@ == t.0 && res.1@ == t.1 && res.2@ == t.2
        }),
{
    let ghost mat = matrix@;
    let ghost s1 = seq1@;
    let ghost s2 = seq2@;
    let ghost g = gap_score as int;
    let ghost whole = trace(mat, s1, s2, g, s2.len(), s1.len());
    let mut current_row = seq2.len();
    let mut current_col = seq1.len();
    let mut aligned_seq1: Vec<u8> = Vec::new();
    let mut aligned_seq2: Vec<u8> = Vec::new();
    let mut diff_line: Vec<u8> = Vec::new();
    while current_col != 0 || current_row != 0
        invariant
            mat == matrix@,
            s1 == seq1@,
            s2 == seq2@,
            g == gap_score as int,
            traceable(mat, s1.len(), s2.len(), g),
            whole == trace(mat, s1, s2, g, s2.len(), s1.len()),
            current_row <= s2.len(),
            current_col <= s1.len(),
            ({
                let t = trace(mat, s1, s2, g, current_row as nat, current_col as nat);
                &&& t.0 + aligned_seq1@ == whole.0
                &&& t.1 + diff_line@ == whole.1
                &&& t.2 + aligned_seq2@ == whole.2
            }),
        decreases current_row + current_col,
    {
        let ghost t = trace(mat, s1, s2, g, current_row as nat, current_col as nat);
        let ghost (old1, oldd, old2) = (aligned_seq1@, diff_line@, aligned_seq2@);
        let row = &matrix[current_row];
        assert(row@.len() == s1.len() + 1);
        if current_col != 0 && row[current_col] == row[current_col - 1] + gap_score {
            aligned_seq1.insert(0, seq1[current_col - 1]);
            diff_line.insert(0, SPACE);
            aligned_seq2.insert(0, GAP);
            current_col = current_col - 1;
        } else if current_row != 0 && row[current_col] == matrix[current_row - 1][current_col] + gap_score {
            aligned_seq1.insert(0, GAP);
            diff_line.insert(0, SPACE);
            aligned_seq2.insert(0, seq2[current_row - 1]);
            current_row = current_row - 1;
        } else {
            // the first row and column always step along themselves
            assert(current_row != 0 && current_col != 0);
            aligned_seq1.insert(0, seq1[current_col - 1]);
            aligned_seq2.insert(0, seq2[current_row - 1]);
            let char_to_insert = if seq1[current_col - 1] == seq2[current_row - 1] {
                BAR
            } else {
                STAR
            };
            diff_line.insert(0, char_to_insert);
            current_row = current_row - 1;
            current_col = current_col - 1;
        }
        proof {
            let t2 = trace(mat, s1, s2, g, current_row as nat, current_col as nat);
            assert(t.0 =~= t2.0.push(aligned_seq1@[0]));
            assert(t2.0 + aligned_seq1@ =~= t.0 + old1);
            assert(t2.1 + diff_line@ =~= t.1 + oldd);
            assert(t2.2 + aligned_seq2@ =~= t.2 + old2);
        }
    }
    proof {
        assert(aligned_seq1@ =~= whole.0);
        assert(diff_line@ =~= whole.1);
        assert(aligned_seq2@ =~= whole.2);
    }
    (aligned_seq1, diff_line, aligned_seq2)
}

/// A score matrix satisfies the requirements of traceback.
pub proof fn lemma_score_matrix_traceable(
    matrix: Seq<Vec<i32>>,
    s1: Seq<u8>,
    s2: Seq<u8>,
    m: int,
    x: int,
    g: int,
)
    requires
        is_score_matrix(matrix, s1, s2, m, x, g),
        scores_fit(s1.len() + s2.len(), m, x, g),
    ensures
        traceable(matrix, s1.len(), s2.len(), g),
{
    assert forall|c: int| 1 <= c <= s1.len() implies #[trigger] matrix[0]@[c] == matrix[0]@[c - 1] + g by {
        assert(c * g == (c - 1) * g + g) by (nonlinear_arith);
    }
    assert forall|r: int| 1 <= r <= s2.len() implies #[trigger] matrix[r]@[0] == matrix[r - 1]@[0] + g by {
        assert(r * g == (r - 1) * g + g) by (nonlinear_arith);
    }
    assert forall|r: int, c: int|
        0 <= r <= s2.len() && 0 <= c <= s1.len() && r + c < s1.len() + s2.len() implies i32::MIN
        <= #[trigger] matrix[r]@[c] + g <= i32::MAX by {
        lemma_cell_fits(s1, s2, m, x, g, c as nat, r as nat);
    }
}

/// Traceback through a score matrix yields an alignment of the two prefixes
/// whose column scores add up to the optimal score.
pub proof fn lemma_trace_consistent(
    matrix: Seq<Vec<i32>>,
    s1: Seq<u8>,
    s2: Seq<u8>,
    m: int,
    x: int,
    g: int,
    r: nat,
    c: nat,
)
    requires
        is_score_matrix(matrix, s1, s2, m, x, g),
        gap_free(s1),
        gap_free(s2),
        r <= s2.len(),
        c <= s1.len(),
    ensures
        ({
            let t = trace(matrix, s1, s2, g, r, c);
            &&& aligns(t.0, t.1, t.2, s1.take(c as int), s2.take(r as int))
            &&& alignment_score(t.0, t.2, m, x, g) == nw(s1, s2, m, x, g, c, r)
        }),
    decreases r + c,
{
    let t = trace(matrix, s1, s2, g, r, c);
    if r == 0 && c == 0 {
        assert(s1.take(0) =~= Seq::<u8>::empty());
        assert(s2.take(0) =~= Seq::<u8>::empty());
    } else {
        let (pr, pc) = if c > 0 && matrix[r as int]@[c as int] == matrix[r as int]@[c - 1] + g {
            (r, (c - 1) as nat)
        } else if r > 0 && matrix[r as int]@[c as int] == matrix[r - 1]@[c as int] + g {
            ((r - 1) as nat, c)
        } else {
            if r == 0 {
                assert(c * g == (c - 1) * g + g) by (nonlinear_arith);
            }
            if c == 0 {
                assert(r * g == (r - 1) * g + g) by (nonlinear_arith);
            }
            ((r - 1) as nat, (c - 1) as nat)
        };
        lemma_trace_consistent(matrix, s1, s2, m, x, g, pr, pc);
        let p = trace(matrix, s1, s2, g, pr, pc);
        assert(t.0.drop_last() =~= p.0);
        assert(t.1.drop_last() =~= p.1);
        assert(t.2.drop_last() =~= p.2);
        if pc < c {
            assert(s1.take(c as int) =~= s1.take(pc as int).push(s1[pc as int]));
        } else {
            assert(s1.take(c as int) =~= s1.take(pc as int));
        }
        if pr < r {
            assert(s2.take(r as int) =~= s2.take(pr as int).push(s2[pr as int]));
        } else {
            assert(s2.take(r as int) =~= s2.take(pr as int));
        }
        let n = t.1.len() - 1;
        assert forall|i: int| 0 <= i < t.1.len() implies #[trigger] t.1[i] == diff_symbol(t.0[i], t.2[i]) by {
            if i < n {
                assert(t.1[i] == p.1[i] && t.0[i] == p.0[i] && t.2[i] == p.2[i]);
            }
        }
        assert forall|i: int| 0 <= i < t.0.len() && i < t.2.len() implies !(#[trigger] t.0[i] == GAP && t.2[i] == GAP) by {
            if i < n {
                assert(t.0[i] == p.0[i] && t.2[i] == p.2[i]);
            }
        }
    }
}

/// Backtrack consistency of the full-matrix engine: on gap-free inputs, the
/// triple that traceback yields aligns `s1` with `s2` (removing the gaps from
/// its rows gives back the inputs), and its column scores add up to the
/// optimal score in the bottom-right cell.
pub proof fn lemma_backtrack_consistent(
    matrix: Seq<Vec<i32>>,
    s1: Seq<u8>,
    s2: Seq<u8>,
    m: int,
    x: int,
    g: int,
)
    requires
        is_score_matrix(matrix, s1, s2, m, x, g),
        gap_free(s1),
        gap_free(s2),
    ensures
        ({
            let t = trace(matrix, s1, s2, g, s2.len(), s1.len());
            &&& aligns(t.0, t.1, t.2, s1, s2)
            &&& alignment_score(t.0, t.2, m, x, g) == nw(s1, s2, m, x, g, s1.len(), s2.len())
            &&& alignment_score(t.0, t.2, m, x, g) == matrix[s2.len() as int]@[s1.len() as int]
        }),
{
    lemma_trace_consistent(matrix, s1, s2, m, x, g, s2.len(), s1.len());
    assert(s1.take(s1.len() as int) =~= s1);
    assert(s2.take(s2.len() as int) =~= s2);
}

/// The triple that traceback from cell `[r][c]` yields when read off the
/// recurrence itself, with the tie-break of `trace`.
pub open spec fn nw_trace(s1: Seq<u8>, s2: Seq<u8>, m: int, x: int, g: int, r: nat, c: nat) -> (
    Seq<u8>,
    Seq<u8>,
    Seq<u8>,
)
    decreases r + c,
{
    if r == 0 && c == 0 {
        (Seq::empty(), Seq::empty(), Seq::empty())
    } else if c > 0 && nw(s1, s2, m, x, g, c, r) == nw(s1, s2, m, x, g, (c - 1) as nat, r) + g {
        let t = nw_trace(s1, s2, m, x, g, r, (c - 1) as nat);
        (t.0.push(s1[c - 1]), t.1.push(SPACE), t.2.push(GAP))
    } else if r > 0 && nw(s1, s2, m, x, g, c, r) == nw(s1, s2, m, x, g, c, (r - 1) as nat) + g {
        let t = nw_trace(s1, s2, m, x, g, (r - 1) as nat, c);
        (t.0.push(GAP), t.1.push(SPACE), t.2.push(s2[r - 1]))
    } else if r > 0 && c > 0 {
        let t = nw_trace(s1, s2, m, x, g, (r - 1) as nat, (c - 1) as nat);
        let d = if s1[c - 1] == s2[r - 1] {
            BAR
        } else {
            STAR
        };
        (t.0.push(s1[c - 1]), t.1.push(d), t.2.push(s2[r - 1]))
    } else {
        (Seq::empty(), Seq::empty(), Seq::empty())
    }
}

/// Traceback through a score matrix reads the recurrence.
pub proof fn lemma_trace_is_nw_trace(
    matrix: Seq<Vec<i32>>,
    s1: Seq<u8>,
    s2: Seq<u8>,
    m: int,
    x: int,
    g: int,
    r: nat,
    c: nat,
)
    requires
        is_score_matrix(matrix, s1, s2, m, x, g),
        r <= s2.len(),
        c <= s1.len(),
    ensures
        trace(matrix, s1, s2, g, r, c) == nw_trace(s1, s2, m, x, g, r, c),
    decreases r + c,
{
    if r > 0 || c > 0 {
        assert(matrix[r as int]@[c as int] == nw(s1, s2, m, x, g, c, r));
        if c > 0 {
            assert(matrix[r as int]@[c - 1] == nw(s1, s2, m, x, g, (c - 1) as nat, r));
            lemma_trace_is_nw_trace(matrix, s1, s2, m, x, g, r, (c - 1) as nat);
        }
        if r > 0 {
            assert(matrix[r - 1]@[c as int] == nw(s1, s2, m, x, g, c, (r - 1) as nat));
            lemma_trace_is_nw_trace(matrix, s1, s2, m, x, g, (r - 1) as nat, c);
        }
        if r > 0 && c > 0 {
            lemma_trace_is_nw_trace(matrix, s1, s2, m, x, g, (r - 1) as nat, (c - 1) as nat);
        }
    }
}

} // verus!
