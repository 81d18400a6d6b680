//! Aligned triples `(top, diff, bottom)` and what it means for one to align two sequences.
use vstd::prelude::*;
use crate::scoring::sigma;

verus! {

/// The gap symbol `-` of an aligned sequence.
pub const GAP: u8 = 45;

/// Diff-line symbol (a space) of a column holding a gap.
pub const SPACE: u8 = 32;

/// Diff-line symbol `|` of a column whose two symbols are equal.
pub const BAR: u8 = 124;

/// Diff-line symbol `*` of a column whose two symbols differ.
pub const STAR: u8 = 42;

/// The diff-line symbol of a column holding `a` over `b`.
pub open spec fn diff_symbol(a: u8, b: u8) -> u8 {
    if a == GAP || b == GAP {
        SPACE
    } else if a == b {
        BAR
    } else {
        STAR
    }
}

/// `s` with every gap symbol removed.
pub open spec fn remove_gaps(s: Seq<u8>) -> Seq<u8>
    decreases s.len(),
{
    if s.len() == 0 {
        s
    } else if s.last() == GAP {
        remove_gaps(s.drop_last())
    } else {
        remove_gaps(s.drop_last()).push(s.last())
    }
}

/// No symbol of `s` is the gap symbol.
pub open spec fn gap_free(s: Seq<u8>) -> bool {
    forall|i: int| 0 <= i < s.len() ==> #[trigger] s[i] != GAP
}

/// The score of one column: `g` for a gap, else the match or mismatch score.
pub open spec fn column_score(a: u8, b: u8, m: int, x: int, g: int) -> int {
    if a == GAP || b == GAP {
        g
    } else {
        sigma(a, b, m, x)
    }
}

/// The sum of the column scores of `top` over `bottom`.
pub open spec fn alignment_score(top: Seq<u8>, bottom: Seq<u8>, m: int, x: int, g: int) -> int
    decreases top.len(),
{
    if top.len() == 0 || bottom.len() == 0 {
        0
    } else {
        alignment_score(top.drop_last(), bottom.drop_last(), m, x, g) + column_score(
            top.last(),
            bottom.last(),
            m,
            x,
            g,
        )
    }
}

/// `(top, diff, bottom)` aligns `s1` with `s2`: three rows of one length, `top`
/// is `s1` with gaps, `bottom` is `s2` with gaps, no column holds two gaps, and
/// `diff` marks each column.
pub open spec fn aligns(top: Seq<u8>, diff: Seq<u8>, bottom: Seq<u8>, s1: Seq<u8>, s2: Seq<u8>) -> bool {
    &&& top.len() == diff.len()
    &&& bottom.len() == diff.len()
    &&& remove_gaps(top) == s1
    &&& remove_gaps(bottom) == s2
    &&& forall|i: int| 0 <= i < diff.len() ==> #[trigger] diff[i] == diff_symbol(top[i], bottom[i])
    &&& no_double_gap(top, bottom)
}

/// No column of `top` over `bottom` holds a gap in both rows.
pub open spec fn no_double_gap(top: Seq<u8>, bottom: Seq<u8>) -> bool {
    forall|i: int| 0 <= i < top.len() && i < bottom.len() ==> !(#[trigger] top[i] == GAP && bottom[i] == GAP)
}

/// Removing gaps distributes over concatenation.
pub proof fn lemma_remove_gaps_concat(a: Seq<u8>, b: Seq<u8>)
    ensures
        remove_gaps(a + b) == remove_gaps(a) + remove_gaps(b),
    decreases b.len(),
{
    if b.len() == 0 {
        assert(a + b =~= a);
        assert(remove_gaps(b) =~= Seq::<u8>::empty());
        assert(remove_gaps(a) + remove_gaps(b) =~= remove_gaps(a));
    } else {
        lemma_remove_gaps_concat(a, b.drop_last());
        assert((a + b).drop_last() =~= a + b.drop_last());
        assert((a + b).last() == b.last());
        if b.last() != GAP {
            assert(remove_gaps(a) + remove_gaps(b.drop_last()).push(b.last()) =~= (remove_gaps(a) + remove_gaps(
                b.drop_last(),
            )).push(b.last()));
        }
    }
}

/// Two alignments side by side align the concatenated sequences.
pub proof fn lemma_aligns_concat(
    t1: Seq<u8>,
    d1: Seq<u8>,
    b1: Seq<u8>,
    s1: Seq<u8>,
    s2: Seq<u8>,
    t2: Seq<u8>,
    d2: Seq<u8>,
    b2: Seq<u8>,
    u1: Seq<u8>,
    u2: Seq<u8>,
)
    requires
        aligns(t1, d1, b1, s1, s2),
        aligns(t2, d2, b2, u1, u2),
    ensures
        aligns(t1 + t2, d1 + d2, b1 + b2, s1 + u1, s2 + u2),
{
    lemma_remove_gaps_concat(t1, t2);
    lemma_remove_gaps_concat(b1, b2);
    let d = d1 + d2;
    let t = t1 + t2;
    let b = b1 + b2;
    assert forall|i: int| 0 <= i < d.len() implies #[trigger] d[i] == diff_symbol(t[i], b[i]) by {
        if i < d1.len() {
            assert(d[i] == d1[i] && t[i] == t1[i] && b[i] == b1[i]);
        } else {
            let k = i - d1.len();
            assert(d[i] == d2[k] && t[i] == t2[k] && b[i] == b2[k]);
        }
    }
    assert forall|i: int| 0 <= i < t.len() && i < b.len() implies !(#[trigger] t[i] == GAP && b[i] == GAP) by {
        if i < d1.len() {
            assert(t[i] == t1[i] && b[i] == b1[i]);
        } else {
            let k = i - d1.len();
            assert(t[i] == t2[k] && b[i] == b2[k]);
        }
    }
}

} // verus!
