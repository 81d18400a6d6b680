//! Alignments as pairs of gapped rows, and the optimality of the recurrence:
//! no alignment scores above it, and one reaches it.
use vstd::prelude::*;
use crate::scoring::{nw, sigma};
use crate::alignment::{GAP, alignment_score, column_score, gap_free, no_double_gap, remove_gaps, lemma_remove_gaps_concat};

verus! {

/// The optimal score of `a` against `b`.
pub open spec fn optimal_score(a: Seq<u8>, b: Seq<u8>, m: int, x: int, g: int) -> int {
    nw(a, b, m, x, g, a.len(), b.len())
}

/// `top` over `bottom` is an alignment of `a` with `b`: two rows of one length
/// that give back `a` and `b` without their gaps, with no column of two gaps.
pub open spec fn is_alignment(top: Seq<u8>, bottom: Seq<u8>, a: Seq<u8>, b: Seq<u8>) -> bool {
    &&& top.len() == bottom.len()
    &&& remove_gaps(top) == a
    &&& remove_gaps(bottom) == b
    &&& no_double_gap(top, bottom)
}

/// A cell depends only on the prefixes it covers.
pub proof fn lemma_nw_prefix(a1: Seq<u8>, b1: Seq<u8>, a2: Seq<u8>, b2: Seq<u8>, m: int, x: int, g: int, i: nat, j: nat)
    requires
        i <= a1.len(),
        i <= a2.len(),
        j <= b1.len(),
        j <= b2.len(),
        forall|k: int| 0 <= k < i ==> a1[k] == a2[k],
        forall|k: int| 0 <= k < j ==> b1[k] == b2[k],
    ensures
        nw(a1, b1, m, x, g, i, j) == nw(a2, b2, m, x, g, i, j),
    decreases i + j,
{
    if i > 0 && j > 0 {
        lemma_nw_prefix(a1, b1, a2, b2, m, x, g, (i - 1) as nat, (j - 1) as nat);
        lemma_nw_prefix(a1, b1, a2, b2, m, x, g, (i - 1) as nat, j);
        lemma_nw_prefix(a1, b1, a2, b2, m, x, g, i, (j - 1) as nat);
    }
}

/// Column scores add up over side-by-side alignments.
pub proof fn lemma_score_concat(t1: Seq<u8>, b1: Seq<u8>, t2: Seq<u8>, b2: Seq<u8>, m: int, x: int, g: int)
    requires
        t1.len() == b1.len(),
        t2.len() == b2.len(),
    ensures
        alignment_score(t1 + t2, b1 + b2, m, x, g) == alignment_score(t1, b1, m, x, g) + alignment_score(t2, b2, m, x, g),
    decreases t2.len(),
{
    if t2.len() == 0 {
        assert(t1 + t2 =~= t1);
        assert(b1 + b2 =~= b1);
    } else {
        lemma_score_concat(t1, b1, t2.drop_last(), b2.drop_last(), m, x, g);
        assert((t1 + t2).drop_last() =~= t1 + t2.drop_last());
        assert((b1 + b2).drop_last() =~= b1 + b2.drop_last());
    }
}

/// Removing the gaps of one more symbol: the row without its last column.
pub(crate) proof fn lemma_remove_gaps_last(s: Seq<u8>)
    requires
        s.len() > 0,
    ensures
        s.last() == GAP ==> remove_gaps(s) == remove_gaps(s.drop_last()),
        s.last() != GAP ==> remove_gaps(s) == remove_gaps(s.drop_last()).push(s.last()),
{
}

/// No alignment of the prefixes `a[..i]` and `b[..j]` scores above the cell.
pub proof fn lemma_score_at_most_optimal(
    a: Seq<u8>,
    b: Seq<u8>,
    m: int,
    x: int,
    g: int,
    i: nat,
    j: nat,
    top: Seq<u8>,
    bottom: Seq<u8>,
)
    requires
        i <= a.len(),
        j <= b.len(),
        is_alignment(top, bottom, a.take(i as int), b.take(j as int)),
    ensures
        alignment_score(top, bottom, m, x, g) <= nw(a, b, m, x, g, i, j),
    decreases top.len(),
{
    if top.len() == 0 {
        assert(a.take(i as int).len() == 0);
        assert(b.take(j as int).len() == 0);
    } else {
        let (tp, bp) = (top.drop_last(), bottom.drop_last());
        let (u, v) = (top.last(), bottom.last());
        lemma_remove_gaps_last(top);
        lemma_remove_gaps_last(bottom);
        assert(!(top[top.len() - 1] == GAP && bottom[top.len() - 1] == GAP));
        assert(no_double_gap(tp, bp)) by {
            assert forall|k: int| 0 <= k < tp.len() && k < bp.len() implies !(#[trigger] tp[k] == GAP && bp[k] == GAP) by {
                assert(tp[k] == top[k] && bp[k] == bottom[k]);
            }
        }
        let i2 = if u == GAP {
            i
        } else {
            assert(a.take(i as int) == remove_gaps(tp).push(u));
            assert(i >= 1);
            assert(remove_gaps(tp).push(u).drop_last() =~= remove_gaps(tp));
            assert(a.take(i as int).drop_last() =~= a.take(i - 1));
            assert(u == a.take(i as int)[i - 1]);
            (i - 1) as nat
        };
        let j2 = if v == GAP {
            j
        } else {
            assert(b.take(j as int) == remove_gaps(bp).push(v));
            assert(j >= 1);
            assert(remove_gaps(bp).push(v).drop_last() =~= remove_gaps(bp));
            assert(b.take(j as int).drop_last() =~= b.take(j - 1));
            assert(v == b.take(j as int)[j - 1]);
            (j - 1) as nat
        };
        lemma_score_at_most_optimal(a, b, m, x, g, i2, j2, tp, bp);
        if u == GAP {
            if i == 0 {
                assert(j * g == (j - 1) * g + g) by (nonlinear_arith);
            }
        } else if v == GAP {
            if j == 0 {
                assert(i * g == (i - 1) * g + g) by (nonlinear_arith);
            }
        } else {
            assert(u == a[i - 1]);
            assert(v == b[j - 1]);
        }
    }
}

/// One optimal alignment of `a[..i]` with `b[..j]`, built back from the cell.
pub open spec fn optimal_path(a: Seq<u8>, b: Seq<u8>, m: int, x: int, g: int, i: nat, j: nat) -> (Seq<u8>, Seq<u8>)
    decreases i + j,
{
    if i == 0 && j == 0 {
        (Seq::empty(), Seq::empty())
    } else if i > 0 && j > 0 && nw(a, b, m, x, g, i, j) == nw(a, b, m, x, g, (i - 1) as nat, (j - 1) as nat)
        + sigma(a[i - 1], b[j - 1], m, x) {
        let p = optimal_path(a, b, m, x, g, (i - 1) as nat, (j - 1) as nat);
        (p.0.push(a[i - 1]), p.1.push(b[j - 1]))
    } else if i > 0 && (j == 0 || nw(a, b, m, x, g, i, j) == nw(a, b, m, x, g, (i - 1) as nat, j) + g) {
        let p = optimal_path(a, b, m, x, g, (i - 1) as nat, j);
        (p.0.push(a[i - 1]), p.1.push(GAP))
    } else if j > 0 {
        let p = optimal_path(a, b, m, x, g, i, (j - 1) as nat);
        (p.0.push(GAP), p.1.push(b[j - 1]))
    } else {
        (Seq::empty(), Seq::empty())
    }
}

/// On gap-free sequences the optimal path aligns the prefixes and reaches the cell's score.
pub proof fn lemma_optimal_path(a: Seq<u8>, b: Seq<u8>, m: int, x: int, g: int, i: nat, j: nat)
    requires
        gap_free(a),
        gap_free(b),
        i <= a.len(),
        j <= b.len(),
    ensures
        ({
            let p = optimal_path(a, b, m, x, g, i, j);
            &&& is_alignment(p.0, p.1, a.take(i as int), b.take(j as int))
            &&& alignment_score(p.0, p.1, m, x, g) == nw(a, b, m, x, g, i, j)
        }),
    decreases i + j,
{
    let p = optimal_path(a, b, m, x, g, i, j);
    if i == 0 && j == 0 {
        assert(a.take(0) =~= Seq::<u8>::empty());
        assert(b.take(0) =~= Seq::<u8>::empty());
    } else {
        let diag = i > 0 && j > 0 && nw(a, b, m, x, g, i, j) == nw(a, b, m, x, g, (i - 1) as nat, (j - 1) as nat)
            + sigma(a[i - 1], b[j - 1], m, x);
        let left = !diag && i > 0 && (j == 0 || nw(a, b, m, x, g, i, j) == nw(a, b, m, x, g, (i - 1) as nat, j) + g);
        let (pi, pj) = if diag {
            ((i - 1) as nat, (j - 1) as nat)
        } else if left {
            if j == 0 {
                assert(i * g == (i - 1) * g + g) by (nonlinear_arith);
            }
            ((i - 1) as nat, j)
        } else {
            if i == 0 {
                assert(j * g == (j - 1) * g + g) by (nonlinear_arith);
            }
            (i, (j - 1) as nat)
        };
        lemma_optimal_path(a, b, m, x, g, pi, pj);
        let q = optimal_path(a, b, m, x, g, pi, pj);
        assert(p.0.drop_last() =~= q.0);
        assert(p.1.drop_last() =~= q.1);
        lemma_remove_gaps_last(p.0);
        lemma_remove_gaps_last(p.1);
        if pi < i {
            assert(a.take(i as int) =~= a.take(pi as int).push(a[pi as int]));
        }
        if pj < j {
            assert(b.take(j as int) =~= b.take(pj as int).push(b[pj as int]));
        }
        assert forall|k: int| 0 <= k < p.0.len() && k < p.1.len() implies !(#[trigger] p.0[k] == GAP && p.1[k] == GAP) by {
            if k < q.0.len() {
                assert(p.0[k] == q.0[k] && p.1[k] == q.1[k]);
            }
        }
    }
}

/// The number of columns of `top` that hold its first `k` symbols.
pub open spec fn columns_for(top: Seq<u8>, k: nat) -> nat
    decreases top.len(),
{
    if top.len() == 0 || remove_gaps(top).len() <= k {
        top.len()
    } else {
        columns_for(top.drop_last(), k)
    }
}

proof fn lemma_columns_for(top: Seq<u8>, k: nat)
    requires
        k <= remove_gaps(top).len(),
    ensures
        columns_for(top, k) <= top.len(),
        remove_gaps(top.take(columns_for(top, k) as int)).len() == k,
    decreases top.len(),
{
    if top.len() == 0 || remove_gaps(top).len() <= k {
        assert(top.take(top.len() as int) =~= top);
    } else {
        lemma_remove_gaps_last(top);
        lemma_columns_for(top.drop_last(), k);
        let p = columns_for(top.drop_last(), k);
        assert(top.drop_last().take(p as int) =~= top.take(p as int));
    }
}

/// An alignment splits where its top row has consumed `k` symbols: the left
/// part aligns the first `k` symbols of `a` with some prefix of `b`, the right
/// part the rest.
proof fn lemma_split_alignment(top: Seq<u8>, bottom: Seq<u8>, a: Seq<u8>, b: Seq<u8>, k: nat) -> (cut: (nat, nat))
    requires
        is_alignment(top, bottom, a, b),
        k <= a.len(),
    ensures
        cut.0 <= top.len(),
        cut.1 <= b.len(),
        is_alignment(top.take(cut.0 as int), bottom.take(cut.0 as int), a.take(k as int), b.take(cut.1 as int)),
        is_alignment(top.skip(cut.0 as int), bottom.skip(cut.0 as int), a.skip(k as int), b.skip(cut.1 as int)),
        top =~= top.take(cut.0 as int) + top.skip(cut.0 as int),
        bottom =~= bottom.take(cut.0 as int) + bottom.skip(cut.0 as int),
{
    lemma_columns_for(top, k);
    let p = columns_for(top, k);
    let (t1, t2) = (top.take(p as int), top.skip(p as int));
    let (b1, b2) = (bottom.take(p as int), bottom.skip(p as int));
    assert(top =~= t1 + t2);
    assert(bottom =~= b1 + b2);
    lemma_remove_gaps_concat(t1, t2);
    lemma_remove_gaps_concat(b1, b2);
    let j = remove_gaps(b1).len();
    assert(remove_gaps(t1) =~= a.take(k as int));
    assert(remove_gaps(t2) =~= a.skip(k as int));
    assert(remove_gaps(b1) =~= b.take(j as int));
    assert(remove_gaps(b2) =~= b.skip(j as int));
    assert forall|i: int| 0 <= i < t1.len() && i < b1.len() implies !(#[trigger] t1[i] == GAP && b1[i] == GAP) by {
        assert(t1[i] == top[i] && b1[i] == bottom[i]);
    }
    assert forall|i: int| 0 <= i < t2.len() && i < b2.len() implies !(#[trigger] t2[i] == GAP && b2[i] == GAP) by {
        assert(t2[i] == top[i + p] && b2[i] == bottom[i + p]);
    }
    (p, j)
}

proof fn lemma_remove_gaps_reverse(s: Seq<u8>)
    ensures
        remove_gaps(s.reverse()) == remove_gaps(s).reverse(),
    decreases s.len(),
{
    if s.len() == 0 {
        assert(s.reverse() =~= s);
        assert(remove_gaps(s).reverse() =~= remove_gaps(s));
    } else {
        let (init, last) = (s.drop_last(), s.last());
        lemma_remove_gaps_reverse(init);
        let single = seq![last];
        assert(s.reverse() =~= single + init.reverse());
        lemma_remove_gaps_concat(single, init.reverse());
        assert(single.drop_last() =~= Seq::<u8>::empty());
        lemma_remove_gaps_last(single);
        lemma_remove_gaps_last(s);
        if last == GAP {
            assert(remove_gaps(single) =~= Seq::<u8>::empty());
            assert(Seq::<u8>::empty() + remove_gaps(init).reverse() =~= remove_gaps(init).reverse());
        } else {
            assert(remove_gaps(single) =~= single);
            assert(remove_gaps(init).push(last).reverse() =~= single + remove_gaps(init).reverse());
        }
    }
}

proof fn lemma_score_reverse(top: Seq<u8>, bottom: Seq<u8>, m: int, x: int, g: int)
    requires
        top.len() == bottom.len(),
    ensures
        alignment_score(top.reverse(), bottom.reverse(), m, x, g) == alignment_score(top, bottom, m, x, g),
    decreases top.len(),
{
    if top.len() > 0 {
        let (t, b) = (top.drop_last(), bottom.drop_last());
        lemma_score_reverse(t, b, m, x, g);
        let (st, sb) = (seq![top.last()], seq![bottom.last()]);
        assert(top.reverse() =~= st + t.reverse());
        assert(bottom.reverse() =~= sb + b.reverse());
        lemma_score_concat(st, sb, t.reverse(), b.reverse(), m, x, g);
        assert(st.drop_last() =~= Seq::<u8>::empty());
        assert(sb.drop_last() =~= Seq::<u8>::empty());
        assert(alignment_score(st, sb, m, x, g) == alignment_score(st.drop_last(), sb.drop_last(), m, x, g)
            + column_score(top.last(), bottom.last(), m, x, g));
        assert(alignment_score(top, bottom, m, x, g) == alignment_score(t, b, m, x, g) + column_score(
            top.last(),
            bottom.last(),
            m,
            x,
            g,
        ));
    }
}

proof fn lemma_reverse_alignment(top: Seq<u8>, bottom: Seq<u8>, a: Seq<u8>, b: Seq<u8>)
    requires
        is_alignment(top, bottom, a, b),
    ensures
        is_alignment(top.reverse(), bottom.reverse(), a.reverse(), b.reverse()),
{
    lemma_remove_gaps_reverse(top);
    lemma_remove_gaps_reverse(bottom);
    let (rt, rb) = (top.reverse(), bottom.reverse());
    assert forall|i: int| 0 <= i < rt.len() && i < rb.len() implies !(#[trigger] rt[i] == GAP && rb[i] == GAP) by {
        let k = top.len() - 1 - i;
        assert(rt[i] == top[k] && rb[i] == bottom[k]);
    }
}

/// Reading both sequences backwards leaves the optimal score unchanged.
pub proof fn lemma_optimal_score_reverse(a: Seq<u8>, b: Seq<u8>, m: int, x: int, g: int)
    requires
        gap_free(a),
        gap_free(b),
    ensures
        optimal_score(a.reverse(), b.reverse(), m, x, g) == optimal_score(a, b, m, x, g),
{
    assert(gap_free(a.reverse())) by {
        assert forall|i: int| 0 <= i < a.reverse().len() implies #[trigger] a.reverse()[i] != GAP by {
            assert(a.reverse()[i] == a[a.len() - 1 - i]);
        }
    }
    assert(gap_free(b.reverse())) by {
        assert forall|i: int| 0 <= i < b.reverse().len() implies #[trigger] b.reverse()[i] != GAP by {
            assert(b.reverse()[i] == b[b.len() - 1 - i]);
        }
    }
    let (ra, rb) = (a.reverse(), b.reverse());
    assert(a.take(a.len() as int) =~= a);
    assert(b.take(b.len() as int) =~= b);
    assert(ra.take(ra.len() as int) =~= ra);
    assert(rb.take(rb.len() as int) =~= rb);
    assert(ra.reverse() =~= a);
    assert(rb.reverse() =~= b);
    // an optimal alignment of a with b, reversed, aligns the reversed sequences
    lemma_optimal_path(a, b, m, x, g, a.len(), b.len());
    let p = optimal_path(a, b, m, x, g, a.len(), b.len());
    lemma_reverse_alignment(p.0, p.1, a, b);
    lemma_score_reverse(p.0, p.1, m, x, g);
    lemma_score_at_most_optimal(ra, rb, m, x, g, ra.len(), rb.len(), p.0.reverse(), p.1.reverse());
    // and the other way round
    lemma_optimal_path(ra, rb, m, x, g, ra.len(), rb.len());
    let q = optimal_path(ra, rb, m, x, g, ra.len(), rb.len());
    lemma_reverse_alignment(q.0, q.1, ra, rb);
    lemma_score_reverse(q.0, q.1, m, x, g);
    lemma_score_at_most_optimal(a, b, m, x, g, a.len(), b.len(), q.0.reverse(), q.1.reverse());
}

/// Some split of `b` matches the split of `a` after `k` symbols in an optimal
/// alignment: the optimal scores of the two halves add up to the whole's.
pub proof fn lemma_split_point(a: Seq<u8>, b: Seq<u8>, m: int, x: int, g: int, k: nat) -> (j: nat)
    requires
        gap_free(a),
        gap_free(b),
        k <= a.len(),
    ensures
        j <= b.len(),
        optimal_score(a.take(k as int), b.take(j as int), m, x, g) + optimal_score(a.skip(k as int), b.skip(j as int), m, x, g)
            >= optimal_score(a, b, m, x, g),
{
    lemma_optimal_path(a, b, m, x, g, a.len(), b.len());
    assert(a.take(a.len() as int) =~= a);
    assert(b.take(b.len() as int) =~= b);
    let p = optimal_path(a, b, m, x, g, a.len(), b.len());
    let cut = lemma_split_alignment(p.0, p.1, a, b, k);
    let (c, j) = cut;
    let (a1, b1, a2, b2) = (a.take(k as int), b.take(j as int), a.skip(k as int), b.skip(j as int));
    assert(a1.take(a1.len() as int) =~= a1);
    assert(b1.take(b1.len() as int) =~= b1);
    assert(a2.take(a2.len() as int) =~= a2);
    assert(b2.take(b2.len() as int) =~= b2);
    lemma_score_at_most_optimal(a1, b1, m, x, g, a1.len(), b1.len(), p.0.take(c as int), p.1.take(c as int));
    lemma_score_at_most_optimal(a2, b2, m, x, g, a2.len(), b2.len(), p.0.skip(c as int), p.1.skip(c as int));
    lemma_score_concat(p.0.take(c as int), p.1.take(c as int), p.0.skip(c as int), p.1.skip(c as int), m, x, g);
    j
}

} // verus!
