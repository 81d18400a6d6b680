//! The linear-space divide-and-conquer engine.
use vstd::prelude::*;
use crate::scoring::{lemma_nw_bounded, lemma_scores_fit_fewer, magnitude, nw, scores_fit};
use crate::needleman_wunsch::{
    backtrack_alignment,
    construct_matrix,
    lemma_backtrack_consistent,
    lemma_cell_fits,
    lemma_score_matrix_traceable,
    lemma_trace_is_nw_trace,
    nw_trace,
};
use crate::alignment::{aligns, alignment_score, gap_free, lemma_aligns_concat};
use crate::optimal::{
    lemma_nw_prefix,
    lemma_optimal_score_reverse,
    lemma_score_at_most_optimal,
    lemma_score_concat,
    lemma_split_point,
    optimal_score,
};

verus! {

/// The search for the split point found no candidate. The divide step never
/// meets it: the candidates are the `|seq2| + 1` split rows.
#[derive(Debug, PartialEq, Eq, Structural)]
pub struct ArgmaxEmpty;

/// The last row of the score matrix of `seq1` (rows) against `seq2` (columns),
/// computed with two rolling rows; with `reversed` both sequences are read from
/// their right ends.
pub fn nw_score(
    seq1: &[u8],
    seq2: &[u8],
    match_score: i32,
    mismatch_score: i32,
    gap_score: i32,
    reversed: bool,
) -> (last_row: Vec<i32>)
    requires
        scores_fit(seq1@.len() + seq2@.len(), match_score as int, mismatch_score as int, gap_score as int),
    ensures
        last_row@.len() == seq2@.len() + 1,
        forall|j: int|
            0 <= j <= seq2@.len() ==> #[trigger] last_row@[j] == if reversed {
                nw(
                    seq1@.reverse(),
                    seq2@.reverse(),
                    match_score as int,
                    mismatch_score as int,
                    gap_score as int,
                    seq1@.len(),
                    j as nat,
                )
            } else {
                nw(
                    seq1@,
                    seq2@,
                    match_score as int,
                    mismatch_score as int,
                    gap_score as int,
                    seq1@.len(),
                    j as nat,
                )
            },
{
    let ghost s1 = if reversed {
        seq1@.reverse()
    } else {
        seq1@
    };
    let ghost s2 = if reversed {
        seq2@.reverse()
    } else {
        seq2@
    };
    let ghost m = match_score as int;
    let ghost x = mismatch_score as int;
    let ghost g = gap_score as int;
    let n1 = seq1.len();
    let n2 = seq2.len();
    let mut prev_row: Vec<i32> = Vec::new();
    let mut value: i32 = 0;
    prev_row.push(value);
    let mut col: usize = 0;
    while col < n2
        invariant
            n1 == s1.len(),
            n2 == s2.len(),
            g == gap_score as int,
            scores_fit(s1.len() + s2.len(), m, x, g),
            col <= n2,
            prev_row@.len() == col + 1,
            value == nw(s2, s1, m, x, g, col as nat, 0),
            forall|c: int| 0 <= c <= col ==> #[trigger] prev_row@[c] == nw(s1, s2, m, x, g, 0, c as nat),
        decreases n2 - col,
    {
        proof {
            lemma_cell_fits(s2, s1, m, x, g, col as nat, 0);
            assert((col + 1) * g == col * g + g) by (nonlinear_arith);
        }
        value = value + gap_score;
        prev_row.push(value);
        col = col + 1;
    }
    let mut row: usize = 0;
    while row < n1
        invariant
            n1 == s1.len(),
            n2 == s2.len(),
            n1 == seq1@.len(),
            n2 == seq2@.len(),
            s1 == if reversed {
                seq1@.reverse()
            } else {
                seq1@
            },
            s2 == if reversed {
                seq2@.reverse()
            } else {
                seq2@
            },
            m == match_score as int,
            x == mismatch_score as int,
            g == gap_score as int,
            scores_fit(s1.len() + s2.len(), m, x, g),
            row <= n1,
            prev_row@.len() == n2 + 1,
            forall|c: int| 0 <= c <= n2 ==> #[trigger] prev_row@[c] == nw(s1, s2, m, x, g, row as nat, c as nat),
        decreases n1 - row,
    {
        proof {
            lemma_cell_fits(s1, s2, m, x, g, row as nat, 0);
            assert((row + 1) * g == row * g + g) by (nonlinear_arith);
        }
        let mut current_row: Vec<i32> = Vec::new();
        current_row.push(prev_row[0] + gap_score);
        let current_seq1_char = if reversed {
            seq1[n1 - 1 - row]
        } else {
            seq1[row]
        };
        assert(current_seq1_char == s1[row as int]);
        let mut col: usize = 0;
        while col < n2
            invariant
                n1 == s1.len(),
                n2 == s2.len(),
                n1 == seq1@.len(),
                n2 == seq2@.len(),
                s2 == if reversed {
                    seq2@.reverse()
                } else {
                    seq2@
                },
                m == match_score as int,
                x == mismatch_score as int,
                g == gap_score as int,
                scores_fit(s1.len() + s2.len(), m, x, g),
                row < n1,
                current_seq1_char == s1[row as int],
                col <= n2,
                prev_row@.len() == n2 + 1,
                forall|c: int| 0 <= c <= n2 ==> #[trigger] prev_row@[c] == nw(s1, s2, m, x, g, row as nat, c as nat),
                current_row@.len() == col + 1,
                forall|c: int| 0 <= c <= col ==> #[trigger] current_row@[c] == nw(s1, s2, m, x, g, (row + 1) as nat, c as nat),
            decreases n2 - col,
        {
            proof {
                lemma_cell_fits(s1, s2, m, x, g, row as nat, col as nat);
                lemma_cell_fits(s1, s2, m, x, g, (row + 1) as nat, col as nat);
                lemma_cell_fits(s1, s2, m, x, g, row as nat, (col + 1) as nat);
            }
            let current_seq2_char = if reversed {
                seq2[n2 - 1 - col]
            } else {
                seq2[col]
            };
            assert(current_seq2_char == s2[col as int]);
            let diag_score = prev_row[col] + if current_seq1_char == current_seq2_char {
                match_score
            } else {
                mismatch_score
            };
            let left_score = current_row[col] + gap_score;
            let up_score = prev_row[col + 1] + gap_score;
            let best = if diag_score >= left_score && diag_score >= up_score {
                diag_score
            } else if left_score >= up_score {
                left_score
            } else {
                up_score
            };
            current_row.push(best);
            col = col + 1;
        }
        prev_row = current_row;
        row = row + 1;
    }
    prev_row
}

/// The two halves' last rows, read at split row `j`, hold the optimal scores of
/// the two quarters on either side of the split.
proof fn lemma_halves_at_split(
    left: Seq<u8>,
    right: Seq<u8>,
    s2: Seq<u8>,
    m: int,
    x: int,
    g: int,
    j: int,
)
    requires
        gap_free(right),
        gap_free(s2),
        0 <= j <= s2.len(),
    ensures
        nw(left, s2, m, x, g, left.len(), j as nat) == optimal_score(left, s2.take(j), m, x, g),
        nw(right.reverse(), s2.reverse(), m, x, g, right.len(), (s2.len() - j) as nat) == optimal_score(
            right,
            s2.skip(j),
            m,
            x,
            g,
        ),
{
    lemma_nw_prefix(left, s2, left, s2.take(j), m, x, g, left.len(), j as nat);
    let rest = s2.skip(j);
    assert forall|k: int| 0 <= k < s2.len() - j implies s2.reverse()[k] == rest.reverse()[k] by {
        assert(rest.reverse()[k] == rest[rest.len() - 1 - k]);
    }
    lemma_nw_prefix(
        right.reverse(),
        s2.reverse(),
        right.reverse(),
        rest.reverse(),
        m,
        x,
        g,
        right.len(),
        (s2.len() - j) as nat,
    );
    assert(gap_free(rest)) by {
        assert forall|k: int| 0 <= k < rest.len() implies #[trigger] rest[k] != crate::alignment::GAP by {
            assert(rest[k] == s2[k + j]);
        }
    }
    lemma_optimal_score_reverse(right, rest, m, x, g);
}

/// The score of the best path through row `j` of column `xmid`: the first
/// `xmid` symbols of `s1` against `s2[..j]`, plus the rest of `s1` against
/// `s2[j..]` read backwards.
pub open spec fn split_sum(s1: Seq<u8>, s2: Seq<u8>, m: int, x: int, g: int, xmid: int, j: int) -> int {
    nw(s1.take(xmid), s2, m, x, g, xmid as nat, j as nat) + nw(
        s1.skip(xmid).reverse(),
        s2.reverse(),
        m,
        x,
        g,
        (s1.len() - xmid) as nat,
        (s2.len() - j) as nat,
    )
}

/// The last row among `0..=n` with the largest split sum.
pub open spec fn best_split(s1: Seq<u8>, s2: Seq<u8>, m: int, x: int, g: int, xmid: int, n: nat) -> nat
    decreases n,
{
    if n == 0 {
        0
    } else {
        let b = best_split(s1, s2, m, x, g, xmid, (n - 1) as nat);
        if split_sum(s1, s2, m, x, g, xmid, n as int) >= split_sum(s1, s2, m, x, g, xmid, b as int) {
            n
        } else {
            b
        }
    }
}

/// The triple of the divide-and-conquer alignment: traceback when either
/// sequence has at most one symbol, else the triples of the two quarters on
/// either side of the best split of the middle column, side by side.
pub open spec fn hirschberg_triple(s1: Seq<u8>, s2: Seq<u8>, m: int, x: int, g: int) -> (Seq<u8>, Seq<u8>, Seq<u8>)
    decreases s1.len(),
{
    if s1.len() <= 1 || s2.len() <= 1 {
        nw_trace(s1, s2, m, x, g, s2.len(), s1.len())
    } else {
        let xmid = s1.len() / 2;
        let ymid = best_split(s1, s2, m, x, g, xmid as int, s2.len());
        let a = hirschberg_triple(s1.take(xmid as int), s2.take(ymid as int), m, x, g);
        let b = hirschberg_triple(s1.skip(xmid as int), s2.skip(ymid as int), m, x, g);
        (a.0 + b.0, a.1 + b.1, a.2 + b.2)
    }
}

/// Aligns `seq1` with `seq2` in linear space: splits `seq1` in half, finds the
/// row where an optimal path crosses the middle column from the scores of the
/// two halves (the last such row on a tie), and aligns the two quarters on
/// either side of it. On gap-free sequences the triple is an optimal alignment.
pub fn hirschberg(
    seq1: &[u8],
    seq2: &[u8],
    match_score: i32,
    mismatch_score: i32,
    gap_score: i32,
) -> (res: Result<(Vec<u8>, Vec<u8>, Vec<u8>), ArgmaxEmpty>)
    requires
        scores_fit(seq1@.len() + seq2@.len(), match_score as int, mismatch_score as int, gap_score as int),
    ensures
        res is Ok,
        res matches Ok(t) ==> (t.0@, t.1@, t.2@) == hirschberg_triple(
            seq1@,
            seq2@,
            match_score as int,
            mismatch_score as int,
            gap_score as int,
        ),
        res matches Ok(t) ==> (gap_free(seq1@) && gap_free(seq2@) ==> aligns(t.0@, t.1@, t.2@, seq1@, seq2@)),
        res matches Ok(t) ==> (gap_free(seq1@) && gap_free(seq2@) ==> alignment_score(
            t.0@,
            t.2@,
            match_score as int,
            mismatch_score as int,
            gap_score as int,
        ) == nw(
            seq1@,
            seq2@,
            match_score as int,
            mismatch_score as int,
            gap_score as int,
            seq1@.len(),
            seq2@.len(),
        )),
    decreases seq1@.len(),
{
    let ghost m = match_score as int;
    let ghost x = mismatch_score as int;
    let ghost g = gap_score as int;
    if seq1.len() <= 1 || seq2.len() <= 1 {
        let matrix = construct_matrix(seq1, seq2, match_score, mismatch_score, gap_score);
        proof {
            lemma_score_matrix_traceable(matrix@, seq1@, seq2@, m, x, g);
            lemma_trace_is_nw_trace(matrix@, seq1@, seq2@, m, x, g, seq2@.len(), seq1@.len());
            if gap_free(seq1@) && gap_free(seq2@) {
                lemma_backtrack_consistent(matrix@, seq1@, seq2@, m, x, g);
            }
        }
        return Ok(backtrack_alignment(&matrix, seq1, seq2, gap_score));
    }
    let n2 = seq2.len();
    let xmid = seq1.len() / 2;
    let (left, right) = seq1.split_at(xmid);
    proof {
        lemma_scores_fit_fewer(seq1@.len() + seq2@.len(), left@.len() + seq2@.len(), m, x, g);
        lemma_scores_fit_fewer(seq1@.len() + seq2@.len(), right@.len() + seq2@.len(), m, x, g);
    }
    let score_l = nw_score(left, seq2, match_score, mismatch_score, gap_score, false);
    let score_r = nw_score(right, seq2, match_score, mismatch_score, gap_score, true);
    assert(left@ =~= seq1@.take(xmid as int));
    assert(right@ =~= seq1@.skip(xmid as int));
    // the last row with the largest sum of the two halves' scores
    let mut ymid: usize = 0;
    let mut best: i32 = i32::MIN;
    let mut i: usize = 0;
    while i < score_l.len()
        invariant
            n2 == seq2@.len(),
            n2 >= 2,
            i <= n2 + 1,
            ymid <= n2,
            score_l@.len() == n2 + 1,
            score_r@.len() == n2 + 1,
            forall|j: int| 0 <= j <= n2 ==> #[trigger] score_l@[j] == nw(left@, seq2@, m, x, g, left@.len(), j as nat),
            forall|j: int|
                0 <= j <= n2 ==> #[trigger] score_r@[j] == nw(right@.reverse(), seq2@.reverse(), m, x, g, right@.len(), j as nat),
            left@.len() + right@.len() == seq1@.len(),
            scores_fit(seq1@.len() + seq2@.len(), m, x, g),
            i == 0 ==> best == i32::MIN,
            i > 0 ==> best == score_l@[ymid as int] + score_r@[n2 - ymid],
            i > 0 ==> ymid == best_split(seq1@, seq2@, m, x, g, xmid as int, (i - 1) as nat),
            left@ == seq1@.take(xmid as int),
            right@ == seq1@.skip(xmid as int),
            forall|j: int| 0 <= j <= n2 ==> #[trigger] split_sum(seq1@, seq2@, m, x, g, xmid as int, j) == score_l@[j]
                + score_r@[n2 - j],
            forall|j: int| 0 <= j < i ==> #[trigger] score_l@[j] + score_r@[n2 - j] <= best,
        decreases n2 + 1 - i,
    {
        proof {
            let k = magnitude(m, x, g);
            lemma_nw_bounded(left@, seq2@, m, x, g, left@.len(), i as nat);
            lemma_nw_bounded(right@.reverse(), seq2@.reverse(), m, x, g, right@.len(), (n2 - i) as nat);
            assert(k * (left@.len() + i) + k * (right@.len() + (n2 - i)) == k * (seq1@.len() + seq2@.len())) by (nonlinear_arith)
                requires
                    left@.len() + right@.len() == seq1@.len(),
                    n2 == seq2@.len(),
            ;
        }
        let total = score_l[i] + score_r[n2 - i];
        if total >= best {
            best = total;
            ymid = i;
        }
        i = i + 1;
    }
    let (top2, bottom2) = seq2.split_at(ymid);
    proof {
        lemma_scores_fit_fewer(seq1@.len() + seq2@.len(), left@.len() + top2@.len(), m, x, g);
        lemma_scores_fit_fewer(seq1@.len() + seq2@.len(), right@.len() + bottom2@.len(), m, x, g);
    }
    let first = hirschberg(left, top2, match_score, mismatch_score, gap_score);
    let second = hirschberg(right, bottom2, match_score, mismatch_score, gap_score);
    match (first, second) {
        (Ok((mut alx1, mut diff1, mut aly1)), Ok((mut alx2, mut diff2, mut aly2))) => {
            let ghost (t1, d1, b1) = (alx1@, diff1@, aly1@);
            assert(ymid == best_split(seq1@, seq2@, m, x, g, xmid as int, n2 as nat));
            let ghost (t2, d2, b2) = (alx2@, diff2@, aly2@);
            alx1.append(&mut alx2);
            diff1.append(&mut diff2);
            aly1.append(&mut aly2);
            proof {
                assert(left@ + right@ =~= seq1@);
                assert(top2@ + bottom2@ =~= seq2@);
                if gap_free(seq1@) && gap_free(seq2@) {
                    assert(gap_free(left@)) by {
                        assert forall|j: int| 0 <= j < left@.len() implies #[trigger] left@[j] != crate::alignment::GAP by {
                            assert(left@[j] == seq1@[j]);
                        }
                    }
                    assert(gap_free(right@)) by {
                        assert forall|j: int| 0 <= j < right@.len() implies #[trigger] right@[j] != crate::alignment::GAP by {
                            assert(right@[j] == seq1@[j + xmid]);
                        }
                    }
                    assert(gap_free(top2@)) by {
                        assert forall|j: int| 0 <= j < top2@.len() implies #[trigger] top2@[j] != crate::alignment::GAP by {
                            assert(top2@[j] == seq2@[j]);
                        }
                    }
                    assert(gap_free(bottom2@)) by {
                        assert forall|j: int| 0 <= j < bottom2@.len() implies #[trigger] bottom2@[j] != crate::alignment::GAP by {
                            assert(bottom2@[j] == seq2@[j + ymid]);
                        }
                    }
                    lemma_aligns_concat(t1, d1, b1, left@, top2@, t2, d2, b2, right@, bottom2@);
                    // the result reaches the best split, which an optimal alignment attains
                    lemma_score_concat(t1, b1, t2, b2, m, x, g);
                    lemma_halves_at_split(left@, right@, seq2@, m, x, g, ymid as int);
                    assert(left@ =~= seq1@.take(xmid as int));
                    assert(right@ =~= seq1@.skip(xmid as int));
                    assert(top2@ =~= seq2@.take(ymid as int));
                    assert(bottom2@ =~= seq2@.skip(ymid as int));
                    let j = lemma_split_point(seq1@, seq2@, m, x, g, xmid as nat);
                    lemma_halves_at_split(left@, right@, seq2@, m, x, g, j as int);
                    assert(score_l@[j as int] + score_r@[n2 - j] <= best);
                    assert(seq1@.take(seq1@.len() as int) =~= seq1@);
                    assert(seq2@.take(seq2@.len() as int) =~= seq2@);
                    lemma_score_at_most_optimal(
                        seq1@,
                        seq2@,
                        m,
                        x,
                        g,
                        seq1@.len(),
                        seq2@.len(),
                        alx1@,
                        aly1@,
                    );
                }
            }
            Ok((alx1, diff1, aly1))
        },
        _ => Err(ArgmaxEmpty),
    }
}

} // verus!
