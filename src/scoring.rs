//! The recurrence that every engine computes, and facts about it.
use vstd::prelude::*;

verus! {

/// Score of aligning symbol `a` against symbol `b`: `m` on a match, `x` otherwise.
pub open spec fn sigma(a: u8, b: u8, m: int, x: int) -> int {
    if a == b {
        m
    } else {
        x
    }
}

pub open spec fn max3(a: int, b: int, c: int) -> int {
    if a >= b && a >= c {
        a
    } else if b >= c {
        b
    } else {
        c
    }
}

/// The optimal global alignment score of `s1[..i]` against `s2[..j]` with match
/// score `m`, mismatch score `x` and gap score `g`.
///
/// In a score matrix this is the cell in row `j` and column `i`.
pub open spec fn nw(s1: Seq<u8>, s2: Seq<u8>, m: int, x: int, g: int, i: nat, j: nat) -> int
    decreases i + j,
{
    if i == 0 {
        j * g
    } else if j == 0 {
        i * g
    } else {
        max3(
            nw(s1, s2, m, x, g, (i - 1) as nat, (j - 1) as nat) + sigma(s1[i - 1], s2[j - 1], m, x),
            nw(s1, s2, m, x, g, (i - 1) as nat, j) + g,
            nw(s1, s2, m, x, g, i, (j - 1) as nat) + g,
        )
    }
}

pub open spec fn abs(a: int) -> int {
    if a < 0 {
        -a
    } else {
        a
    }
}

/// The largest magnitude among the three scores.
pub open spec fn magnitude(m: int, x: int, g: int) -> int {
    max3(abs(m), abs(x), abs(g))
}

/// Every score of an alignment of `n` symbols in all fits in an `i32`.
pub open spec fn scores_fit(n: nat, m: int, x: int, g: int) -> bool {
    magnitude(m, x, g) * n <= i32::MAX
}

/// A cell's score is at most `magnitude * (i + j)` in absolute value.
pub proof fn lemma_nw_bounded(s1: Seq<u8>, s2: Seq<u8>, m: int, x: int, g: int, i: nat, j: nat)
    requires
        i <= s1.len(),
        j <= s2.len(),
    ensures
        abs(nw(s1, s2, m, x, g, i, j)) <= magnitude(m, x, g) * (i + j),
    decreases i + j,
{
    let k = magnitude(m, x, g);
    assert(k >= abs(m) && k >= abs(x) && k >= abs(g));
    if i == 0 {
        assert(abs(j * g) <= k * j) by (nonlinear_arith)
            requires
                k >= abs(g),
                j >= 0,
        ;
    } else if j == 0 {
        assert(abs(i * g) <= k * i) by (nonlinear_arith)
            requires
                k >= abs(g),
                i >= 0,
        ;
    } else {
        lemma_nw_bounded(s1, s2, m, x, g, (i - 1) as nat, (j - 1) as nat);
        lemma_nw_bounded(s1, s2, m, x, g, (i - 1) as nat, j);
        lemma_nw_bounded(s1, s2, m, x, g, i, (j - 1) as nat);
        assert(k * (i + j) == k * (i + j - 1) + k) by (nonlinear_arith);
        assert(k * (i + j - 1) == k * (i + j - 2) + k) by (nonlinear_arith);
    }
}

/// The empty-input laws: aligning against an empty sequence costs one gap per symbol.
pub proof fn lemma_empty_input_scores(s: Seq<u8>, m: int, x: int, g: int)
    ensures
        nw(Seq::empty(), s, m, x, g, 0, s.len()) == s.len() * g,
        nw(s, Seq::empty(), m, x, g, s.len(), 0) == s.len() * g,
        nw(Seq::empty(), Seq::empty(), m, x, g, 0, 0) == 0,
{
}

/// Fewer symbols fit when more do.
pub proof fn lemma_scores_fit_fewer(n: nat, fewer: nat, m: int, x: int, g: int)
    requires
        scores_fit(n, m, x, g),
        fewer <= n,
    ensures
        scores_fit(fewer, m, x, g),
{
    let k = magnitude(m, x, g);
    assert(k * fewer <= k * n) by (nonlinear_arith)
        requires
            k >= 0,
            fewer <= n,
    ;
}

} // verus!
