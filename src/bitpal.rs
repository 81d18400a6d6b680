//! The bit-parallel score engine for the scoring (+1, -1, -3).
use vstd::prelude::*;
use std::collections::{HashMap, HashSet};

verus! {

broadcast use vstd::std_specs::hash::group_hash_axioms;

/// Both sequences are longer than a 64-bit word, so neither can lie along it.
#[derive(Debug, PartialEq, Eq, Structural)]
pub struct InputTooLongError;

/// One row of horizontal score deltas, one-hot over eight bitplanes: bit `j` of
/// the plane for `k` is set when `S[r][j + 1] - S[r][j]`, the delta at position
/// `j` of the horizontal sequence, is `k`.
#[derive(Clone, Copy, Debug, PartialEq, Eq, Structural)]
pub struct DeltaPlanes {
    pub neg3: u64,
    pub neg2: u64,
    pub neg1: u64,
    pub zero: u64,
    pub pos1: u64,
    pub pos2: u64,
    pub pos3: u64,
    pub pos4: u64,
}

/// The bits of the columns of a horizontal sequence of `len` symbols.
pub open spec fn all_ones(len: nat) -> u64 {
    if len >= 64 {
        u64::MAX
    } else {
        ((1u64 << (len as u64)) - 1) as u64
    }
}

/// The match vector of `c` along `seq`: bit `j` is set when `seq[j] == c`.
pub open spec fn match_vector(seq: Seq<u8>, c: u8) -> u64
    decreases seq.len(),
{
    if seq.len() == 0 {
        0
    } else if seq.last() == c {
        match_vector(seq.drop_last(), c) | (1u64 << ((seq.len() - 1) as u64))
    } else {
        match_vector(seq.drop_last(), c)
    }
}

/// The first row: every column's delta is the gap score `-3`.
pub open spec fn initial_planes(all: u64) -> DeltaPlanes {
    DeltaPlanes { neg3: all, neg2: 0, neg1: 0, zero: 0, pos1: 0, pos2: 0, pos3: 0, pos4: 0 }
}

/// The eight planes of `p` partition `all`.
pub open spec fn partitions(p: DeltaPlanes, all: u64) -> bool {
    partition8(p.neg3, p.neg2, p.neg1, p.zero, p.pos1, p.pos2, p.pos3, p.pos4, all)
}

/// The eight planes partition `all`: pairwise disjoint, union `all`.
pub open spec fn partition8(
    neg3: u64,
    neg2: u64,
    neg1: u64,
    zero: u64,
    pos1: u64,
    pos2: u64,
    pos3: u64,
    pos4: u64,
    all: u64,
) -> bool {
    &&& neg3 | neg2 | neg1 | zero | pos1 | pos2 | pos3 | pos4 == all
    &&& neg3 & neg2 == 0 && neg3 & neg1 == 0 && neg3 & zero == 0 && neg3 & pos1 == 0 && neg3 & pos2 == 0 && neg3 & pos3 == 0 && neg3 & pos4 == 0
    &&& neg2 & neg1 == 0 && neg2 & zero == 0 && neg2 & pos1 == 0 && neg2 & pos2 == 0 && neg2 & pos3 == 0 && neg2 & pos4 == 0
    &&& neg1 & zero == 0 && neg1 & pos1 == 0 && neg1 & pos2 == 0 && neg1 & pos3 == 0 && neg1 & pos4 == 0
    &&& zero & pos1 == 0 && zero & pos2 == 0 && zero & pos3 == 0 && zero & pos4 == 0
    &&& pos1 & pos2 == 0 && pos1 & pos3 == 0 && pos1 & pos4 == 0
    &&& pos2 & pos3 == 0 && pos2 & pos4 == 0
    &&& pos3 & pos4 == 0
}

/// `all` is a run of ones from bit 0 up (`2^L - 1` for some `L <= 64`).
pub open spec fn low_mask(all: u64) -> bool {
    all & ((all + 1) as u64) == 0
}

/// Plane of vertical deltas `+4`, shifted left by one: the carries of adding the
/// matches inside the `-3` plane to that plane.
pub open spec fn dv_pos4(mv: u64, neg3: u64) -> u64 {
    ((((mv & neg3) + neg3) as u64) ^ neg3) ^ (mv & neg3)
}

/// Plane of vertical deltas `+4` (shifted) or matches: columns that take the maximum step.
pub open spec fn dv_max(mv: u64, neg3: u64) -> u64 {
    dv_pos4(mv, neg3) | mv
}

/// Plane of vertical deltas `+3`, shifted left by one.
pub open spec fn dv_pos3(mv: u64, neg3: u64, neg2: u64) -> u64 {
    let remain = neg3 ^ (dv_pos4(mv, neg3) >> 1u64);
    ((((neg2 & dv_max(mv, neg3)) << 1u64) as u64 + remain) as u64) ^ remain
}

/// Columns with a shifted `+3` vertical delta and no match.
pub open spec fn dv_pos3_plain(mv: u64, neg3: u64, neg2: u64) -> u64 {
    dv_pos3(mv, neg3, neg2) & !mv
}

/// Columns that take neither of the two largest steps.
pub open spec fn dv_rest(mv: u64, neg3: u64, neg2: u64) -> u64 {
    !(dv_max(mv, neg3) | dv_pos3(mv, neg3, neg2))
}

/// A lower vertical-delta plane, shifted left by one, from the three horizontal
/// planes `a`, `b`, `c` that lead to it in the three cases.
pub open spec fn dv_low(mv: u64, neg3: u64, neg2: u64, a: u64, b: u64, c: u64) -> u64 {
    (((dv_max(mv, neg3) & a) | (dv_pos3_plain(mv, neg3, neg2) & b) | (dv_rest(mv, neg3, neg2) & c)) << 1u64) as u64
}

#[verifier::rlimit(100)]
proof fn lemma_dv_top_disjoint(neg3: u64, neg2: u64, mv: u64, all: u64)
    by (bit_vector)
    requires
        neg3 & neg2 == 0,
        neg3 & !all == 0,
        neg2 & !all == 0,
        mv & !all == 0,
        low_mask(all),
    ensures
        dv_pos4(mv, neg3) & dv_pos3(mv, neg3, neg2) & all == 0,
{
}

#[verifier::rlimit(100)]
proof fn lemma_dv_pos4_vs_low(neg3: u64, neg2: u64, mv: u64, all: u64, a: u64, b: u64, c: u64)
    by (bit_vector)
    requires
        neg3 & neg2 == 0,
        neg3 & a == 0,
        neg3 & b == 0,
        neg3 & !all == 0,
        neg2 & !all == 0,
        mv & !all == 0,
        low_mask(all),
    ensures
        dv_pos4(mv, neg3) & dv_low(mv, neg3, neg2, a, b, c) & all == 0,
{
}

#[verifier::rlimit(100)]
proof fn lemma_dv_pos3_vs_low(neg3: u64, neg2: u64, mv: u64, all: u64, a: u64, b: u64, c: u64)
    by (bit_vector)
    requires
        neg3 & neg2 == 0,
        neg3 & a == 0,
        neg2 & a == 0,
        neg3 & b == 0,
        neg3 & !all == 0,
        neg2 & !all == 0,
        mv & !all == 0,
        low_mask(all),
    ensures
        dv_pos3(mv, neg3, neg2) & dv_low(mv, neg3, neg2, a, b, c) & all == 0,
{
}

#[verifier::rlimit(100)]
proof fn lemma_dv_low_vs_low(
    neg3: u64,
    neg2: u64,
    mv: u64,
    all: u64,
    a: u64,
    b: u64,
    c: u64,
    a2: u64,
    b2: u64,
    c2: u64,
)
    by (bit_vector)
    requires
        a & a2 == 0,
        b & b2 == 0,
        c & c2 == 0,
        dv_pos4(mv, neg3) & dv_pos3(mv, neg3, neg2) & all == 0,
        low_mask(all),
    ensures
        dv_low(mv, neg3, neg2, a, b, c) & dv_low(mv, neg3, neg2, a2, b2, c2) & all == 0,
{
}

/// The three horizontal planes that a row update combines are disjoint and
/// lie inside `all`.
proof fn lemma_prepared_planes(neg3: u64, neg2: u64, neg1: u64, zero: u64, pos1: u64, pos2: u64, pos3: u64, pos4: u64, mv: u64, all: u64)
    by (bit_vector)
    requires
        partition8(neg3, neg2, neg1, zero, pos1, pos2, pos3, pos4, all),
        mv & !all == 0,
    ensures
        (pos4 | mv) & (pos3 & !mv) == 0,
        (pos4 | mv) & ((pos2 | pos1 | zero | neg1 | neg2 | neg3) & !mv) == 0,
        (pos3 & !mv) & ((pos2 | pos1 | zero | neg1 | neg2 | neg3) & !mv) == 0,
        (pos4 | mv) & !all == 0,
        (pos3 & !mv) & !all == 0,
        ((pos2 | pos1 | zero | neg1 | neg2 | neg3) & !mv) & !all == 0,
{
}

/// Combining three disjoint horizontal planes with eight vertical planes that
/// are disjoint inside `all` gives eight planes that partition `all`.
#[verifier::rlimit(100)]
proof fn lemma_combine_partition(
    v4: u64,
    v3: u64,
    v2: u64,
    v1: u64,
    v0: u64,
    vm1: u64,
    vm2: u64,
    h4: u64,
    h3: u64,
    h2: u64,
    all: u64,
)
    by (bit_vector)
    requires
        v4 & v3 & all == 0 && v4 & v2 & all == 0 && v4 & v1 & all == 0 && v4 & v0 & all == 0
            && v4 & vm1 & all == 0 && v4 & vm2 & all == 0,
        v3 & v2 & all == 0 && v3 & v1 & all == 0 && v3 & v0 & all == 0 && v3 & vm1 & all == 0
            && v3 & vm2 & all == 0,
        v2 & v1 & all == 0 && v2 & v0 & all == 0 && v2 & vm1 & all == 0 && v2 & vm2 & all == 0,
        v1 & v0 & all == 0 && v1 & vm1 & all == 0 && v1 & vm2 & all == 0,
        v0 & vm1 & all == 0 && v0 & vm2 & all == 0,
        vm1 & vm2 & all == 0,
        h4 & h3 == 0,
        h4 & h2 == 0,
        h3 & h2 == 0,
        h4 & !all == 0,
        h3 & !all == 0,
        h2 & !all == 0,
    ensures
        ({
            let vm3 = all ^ (v4 | v3 | v2 | v1 | v0 | vm1 | vm2);
            let r_n2 = (h4 & v3) | (h3 & v2) | (h2 & v1);
            let r_n1 = (h4 & v2) | (h3 & v1) | (h2 & v0);
            let r_z = (h4 & v1) | (h3 & v0) | (h2 & vm1);
            let r_p1 = (h4 & v0) | (h3 & vm1) | (h2 & vm2);
            let r_p2 = (h4 & vm1) | (h3 & vm2) | (h2 & vm3);
            let r_p3 = (h4 & vm2) | (h3 & vm3);
            let r_p4 = h4 & vm3;
            let r_n3 = all ^ (r_p4 | r_p3 | r_p2 | r_p1 | r_z | r_n1 | r_n2);
            partition8(r_n3, r_n2, r_n1, r_z, r_p1, r_p2, r_p3, r_p4, all)
        }),
{
}

/// The planes of the next row, for a vertical symbol whose match vector is `mv`.
pub open spec fn advance(p: DeltaPlanes, mv: u64, all: u64) -> DeltaPlanes {
    let v4 = dv_pos4(mv, p.neg3);
    let v3 = dv_pos3(mv, p.neg3, p.neg2);
    let v2 = dv_low(mv, p.neg3, p.neg2, p.neg1, p.neg2, p.neg3);
    let v1 = dv_low(mv, p.neg3, p.neg2, p.zero, p.neg1, p.neg2);
    let v0 = dv_low(mv, p.neg3, p.neg2, p.pos1, p.zero, p.neg1);
    let vm1 = dv_low(mv, p.neg3, p.neg2, p.pos2, p.pos1, p.zero);
    let vm2 = dv_low(mv, p.neg3, p.neg2, p.pos3, p.pos2, p.pos1);
    let vm3 = all ^ (v4 | v3 | v2 | v1 | v0 | vm1 | vm2);
    let h4 = p.pos4 | mv;
    let h3 = p.pos3 & !mv;
    let h2 = (p.pos2 | p.pos1 | p.zero | p.neg1 | p.neg2 | p.neg3) & !mv;
    let neg2 = (h4 & v3) | (h3 & v2) | (h2 & v1);
    let neg1 = (h4 & v2) | (h3 & v1) | (h2 & v0);
    let zero = (h4 & v1) | (h3 & v0) | (h2 & vm1);
    let pos1 = (h4 & v0) | (h3 & vm1) | (h2 & vm2);
    let pos2 = (h4 & vm1) | (h3 & vm2) | (h2 & vm3);
    let pos3 = (h4 & vm2) | (h3 & vm3);
    let pos4 = h4 & vm3;
    let neg3 = all ^ (pos4 | pos3 | pos2 | pos1 | zero | neg1 | neg2);
    DeltaPlanes { neg3, neg2, neg1, zero, pos1, pos2, pos3, pos4 }
}

/// The planes after the first `k` symbols of `vertical` have been processed.
pub open spec fn planes_after(horizontal: Seq<u8>, vertical: Seq<u8>, k: nat) -> DeltaPlanes
    decreases k,
{
    if k == 0 {
        initial_planes(all_ones(horizontal.len()))
    } else {
        advance(
            planes_after(horizontal, vertical, (k - 1) as nat),
            match_vector(horizontal, vertical[k - 1]),
            all_ones(horizontal.len()),
        )
    }
}

/// Disjointness of the update: if the planes partition `all` and the match
/// vector lies inside `all`, the planes of the next row partition `all` too.
pub proof fn lemma_advance_partitions(p: DeltaPlanes, mv: u64, all: u64)
    requires
        partitions(p, all),
        mv & !all == 0,
        low_mask(all),
    ensures
        partitions(advance(p, mv, all), all),
{
    let (neg3, neg2, neg1, zero, pos1, pos2, pos3, pos4) = (p.neg3, p.neg2, p.neg1, p.zero, p.pos1, p.pos2, p.pos3, p.pos4);
    assert(neg3 & !all == 0 && neg2 & !all == 0 && neg3 & neg2 == 0) by (bit_vector)
        requires
            partition8(neg3, neg2, neg1, zero, pos1, pos2, pos3, pos4, all),
    ;
    lemma_dv_top_disjoint(neg3, neg2, mv, all);
    let v4 = dv_pos4(mv, neg3);
    let v3 = dv_pos3(mv, neg3, neg2);
    let v2 = dv_low(mv, neg3, neg2, neg1, neg2, neg3);
    let v1 = dv_low(mv, neg3, neg2, zero, neg1, neg2);
    let v0 = dv_low(mv, neg3, neg2, pos1, zero, neg1);
    let vm1 = dv_low(mv, neg3, neg2, pos2, pos1, zero);
    let vm2 = dv_low(mv, neg3, neg2, pos3, pos2, pos1);
    lemma_dv_pos4_vs_low(neg3, neg2, mv, all, neg1, neg2, neg3);
    lemma_dv_pos4_vs_low(neg3, neg2, mv, all, zero, neg1, neg2);
    lemma_dv_pos4_vs_low(neg3, neg2, mv, all, pos1, zero, neg1);
    lemma_dv_pos4_vs_low(neg3, neg2, mv, all, pos2, pos1, zero);
    lemma_dv_pos4_vs_low(neg3, neg2, mv, all, pos3, pos2, pos1);
    lemma_dv_pos3_vs_low(neg3, neg2, mv, all, neg1, neg2, neg3);
    lemma_dv_pos3_vs_low(neg3, neg2, mv, all, zero, neg1, neg2);
    lemma_dv_pos3_vs_low(neg3, neg2, mv, all, pos1, zero, neg1);
    lemma_dv_pos3_vs_low(neg3, neg2, mv, all, pos2, pos1, zero);
    lemma_dv_pos3_vs_low(neg3, neg2, mv, all, pos3, pos2, pos1);
    lemma_dv_low_vs_low(neg3, neg2, mv, all, neg1, neg2, neg3, zero, neg1, neg2);
    lemma_dv_low_vs_low(neg3, neg2, mv, all, neg1, neg2, neg3, pos1, zero, neg1);
    lemma_dv_low_vs_low(neg3, neg2, mv, all, neg1, neg2, neg3, pos2, pos1, zero);
    lemma_dv_low_vs_low(neg3, neg2, mv, all, neg1, neg2, neg3, pos3, pos2, pos1);
    lemma_dv_low_vs_low(neg3, neg2, mv, all, zero, neg1, neg2, pos1, zero, neg1);
    lemma_dv_low_vs_low(neg3, neg2, mv, all, zero, neg1, neg2, pos2, pos1, zero);
    lemma_dv_low_vs_low(neg3, neg2, mv, all, zero, neg1, neg2, pos3, pos2, pos1);
    lemma_dv_low_vs_low(neg3, neg2, mv, all, pos1, zero, neg1, pos2, pos1, zero);
    lemma_dv_low_vs_low(neg3, neg2, mv, all, pos1, zero, neg1, pos3, pos2, pos1);
    lemma_dv_low_vs_low(neg3, neg2, mv, all, pos2, pos1, zero, pos3, pos2, pos1);
    lemma_prepared_planes(neg3, neg2, neg1, zero, pos1, pos2, pos3, pos4, mv, all);
    lemma_combine_partition(
        v4,
        v3,
        v2,
        v1,
        v0,
        vm1,
        vm2,
        pos4 | mv,
        pos3 & !mv,
        (pos2 | pos1 | zero | neg1 | neg2 | neg3) & !mv,
        all,
    );
}

proof fn lemma_wrapping_add(a: u64, b: u64)
    ensures
        a.wrapping_add(b) == ((a + b) as u64),
{
    assert(a.wrapping_add(b) == ((a + b) as u64)) by (bit_vector);
}

/// The planes of the next row of horizontal deltas, for a vertical symbol whose
/// match vector is `current_match_vector`: `advance(p, mv, all)`. Planes that
/// partition the columns `all_ones` still partition them after the update.
pub fn advance_planes(p: DeltaPlanes, current_match_vector: u64, all_ones: u64) -> (r: DeltaPlanes)
    ensures
        r == advance(p, current_match_vector, all_ones),
        partitions(p, all_ones) && current_match_vector & !all_ones == 0 && low_mask(all_ones)
            ==> partitions(r, all_ones),
{
    let not_match = !current_match_vector;
    // the carries of adding the matches inside the -3 plane to that plane
    let init_pos4 = current_match_vector & p.neg3;
    proof {
        lemma_wrapping_add(init_pos4, p.neg3);
    }
    let delta_v_pos4_shift = ((init_pos4.wrapping_add(p.neg3)) ^ p.neg3) ^ init_pos4;
    // the remaining vertical deltas, from high to low
    let remain_delta_h_neg3 = p.neg3 ^ (delta_v_pos4_shift >> 1u64);
    let delta_v_pos4_shift_or_match = delta_v_pos4_shift | current_match_vector;
    let init_pos3s = p.neg2 & delta_v_pos4_shift_or_match;
    proof {
        lemma_wrapping_add(init_pos3s << 1u64, remain_delta_h_neg3);
    }
    let delta_v_pos3_shift = ((init_pos3s << 1u64).wrapping_add(remain_delta_h_neg3)) ^ remain_delta_h_neg3;
    let delta_v_pos3_shift_not_match = delta_v_pos3_shift & not_match;
    let delta_v_rest = !(delta_v_pos4_shift_or_match | delta_v_pos3_shift);
    let delta_v_pos2_shift = ((delta_v_pos4_shift_or_match & p.neg1) | (delta_v_pos3_shift_not_match & p.neg2) | (
    delta_v_rest & p.neg3)) << 1u64;
    let delta_v_pos1_shift = ((delta_v_pos4_shift_or_match & p.zero) | (delta_v_pos3_shift_not_match & p.neg1) | (
    delta_v_rest & p.neg2)) << 1u64;
    let delta_v_0_shift = ((delta_v_pos4_shift_or_match & p.pos1) | (delta_v_pos3_shift_not_match & p.zero) | (
    delta_v_rest & p.neg1)) << 1u64;
    let delta_v_neg1_shift = ((delta_v_pos4_shift_or_match & p.pos2) | (delta_v_pos3_shift_not_match & p.pos1) | (
    delta_v_rest & p.zero)) << 1u64;
    let delta_v_neg2_shift = ((delta_v_pos4_shift_or_match & p.pos3) | (delta_v_pos3_shift_not_match & p.pos2) | (
    delta_v_rest & p.pos1)) << 1u64;
    let delta_v_neg3_shift = all_ones ^ (delta_v_pos4_shift | delta_v_pos3_shift | delta_v_pos2_shift
        | delta_v_pos1_shift | delta_v_0_shift | delta_v_neg1_shift | delta_v_neg2_shift);
    // matches join the +4 plane and leave the others
    let delta_h_pos4 = p.pos4 | current_match_vector;
    let delta_h_pos2 = (p.pos2 | p.pos1 | p.zero | p.neg1 | p.neg2 | p.neg3) & not_match;
    let delta_h_pos3 = p.pos3 & not_match;
    // the new horizontal deltas
    let neg2 = (delta_h_pos4 & delta_v_pos3_shift) | (delta_h_pos3 & delta_v_pos2_shift) | (delta_h_pos2
        & delta_v_pos1_shift);
    let neg1 = (delta_h_pos4 & delta_v_pos2_shift) | (delta_h_pos3 & delta_v_pos1_shift) | (delta_h_pos2
        & delta_v_0_shift);
    let zero = (delta_h_pos4 & delta_v_pos1_shift) | (delta_h_pos3 & delta_v_0_shift) | (delta_h_pos2
        & delta_v_neg1_shift);
    let pos1 = (delta_h_pos4 & delta_v_0_shift) | (delta_h_pos3 & delta_v_neg1_shift) | (delta_h_pos2
        & delta_v_neg2_shift);
    let pos2 = (delta_h_pos4 & delta_v_neg1_shift) | (delta_h_pos3 & delta_v_neg2_shift) | (delta_h_pos2
        & delta_v_neg3_shift);
    let pos3 = (delta_h_pos4 & delta_v_neg2_shift) | (delta_h_pos3 & delta_v_neg3_shift);
    let pos4 = delta_h_pos4 & delta_v_neg3_shift;
    let neg3 = all_ones ^ (pos4 | pos3 | pos2 | pos1 | zero | neg1 | neg2);
    proof {
        if partitions(p, all_ones) && current_match_vector & !all_ones == 0 && low_mask(all_ones) {
            lemma_advance_partitions(p, current_match_vector, all_ones);
        }
    }
    DeltaPlanes { neg3, neg2, neg1, zero, pos1, pos2, pos3, pos4 }
}

/// The number of set bits among the lowest `n` bits of `x`.
pub open spec fn ones_below(x: u64, n: nat) -> nat
    decreases n,
{
    if n == 0 {
        0
    } else {
        ones_below(x, (n - 1) as nat) + if (x >> ((n - 1) as u64)) & 1u64 == 1u64 {
            1nat
        } else {
            0nat
        }
    }
}

/// The number of set bits of `x`.
pub open spec fn ones(x: u64) -> nat {
    ones_below(x, 64)
}

/// Relies on `u64::count_ones`: the number of ones in the binary representation.
#[verifier::external_body]
fn count_ones(x: u64) -> (r: u32)
    ensures
        r == ones(x),
{
    x.count_ones()
}

proof fn lemma_ones_below_bounded(x: u64, n: nat)
    ensures
        ones_below(x, n) <= n,
    decreases n,
{
    if n > 0 {
        lemma_ones_below_bounded(x, (n - 1) as nat);
    }
}

/// Sum of `k * ones(m[k])` over the keys `k` of `m` from `from` up to `4`.
pub open spec fn weighted_ones(m: Map<i32, u64>, from: int) -> int
    decreases 5 - from,
{
    if from > 4 {
        0
    } else {
        (if m.contains_key(from as i32) {
            from * ones(m[from as i32])
        } else {
            0
        }) + weighted_ones(m, from + 1)
    }
}

/// The score that a row of deltas gives: the first cell of the row,
/// `vertical_len * gap`, plus the sum of the deltas along it.
pub open spec fn plane_score(p: DeltaPlanes, vertical_len: nat, gap: int) -> int {
    vertical_len * gap + (-3) * ones(p.neg3) + (-2) * ones(p.neg2) + (-1) * ones(p.neg1) + ones(p.pos1) + 2
        * ones(p.pos2) + 3 * ones(p.pos3) + 4 * ones(p.pos4)
}

/// Builds, for each symbol of `alphabet`, the bitvector of the positions of `seq`
/// that hold it.
pub fn calculate_match_vectors(seq: &Vec<u8>, alphabet: &HashSet<u8>) -> (match_vectors: HashMap<u8, u64>)
    requires
        seq@.len() <= 64,
    ensures
        match_vectors@.dom() == alphabet@,
        forall|c: u8| #[trigger] alphabet@.contains(c) ==> match_vectors@[c] == match_vector(seq@, c),
{
    let mut match_vectors: HashMap<u8, u64> = HashMap::new();
    let mut b: u16 = 0;
    while b < 256
        invariant
            b <= 256,
            forall|c: u8| #[trigger] match_vectors@.contains_key(c) <==> (alphabet@.contains(c) && c < b),
            forall|c: u8| #[trigger] match_vectors@.contains_key(c) ==> match_vectors@[c] == 0,
        decreases 256 - b,
    {
        let letter = b as u8;
        if alphabet.contains(&letter) {
            match_vectors.insert(letter, 0);
        }
        b = b + 1;
    }
    assert(match_vectors@.dom() =~= alphabet@);
    let mut i: usize = 0;
    while i < seq.len()
        invariant
            seq@.len() <= 64,
            i <= seq@.len(),
            match_vectors@.dom() == alphabet@,
            forall|c: u8| #[trigger] alphabet@.contains(c) ==> match_vectors@[c] == match_vector(seq@.take(i as int), c),
        decreases seq@.len() - i,
    {
        let character = seq[i];
        let ghost before = match_vectors@;
        match match_vectors.get(&character) {
            Some(vector) => {
                let updated = *vector | (1u64 << i as u64);
                match_vectors.insert(character, updated);
            },
            None => {},
        }
        proof {
            assert(seq@.take(i + 1).drop_last() =~= seq@.take(i as int));
            assert(match_vectors@.dom() =~= alphabet@);
        }
        i = i + 1;
    }
    assert(seq@.take(seq@.len() as int) =~= seq@);
    match_vectors
}

/// The score from the last row of deltas: `gap_score * vertical_sequence_length`
/// plus `k` times the number of columns whose delta is `k`, for each key `k`.
pub fn gather_score(delta_h_map: HashMap<i32, u64>, vertical_sequence_length: usize, gap_score: i32) -> (score: i32)
    requires
        forall|k: i32| #[trigger] delta_h_map@.contains_key(k) ==> -3 <= k <= 4,
        crate::scoring::abs(gap_score as int) * vertical_sequence_length + 2048 <= i32::MAX,
    ensures
        score == gap_score * vertical_sequence_length + weighted_ones(delta_h_map@, -3),
{
    let ghost m = delta_h_map@;
    let ghost base = gap_score * vertical_sequence_length;
    let length = if vertical_sequence_length <= 0x7fff_ffff {
        vertical_sequence_length as i32
    } else {
        0
    };
    proof {
        let g = gap_score as int;
        let n = vertical_sequence_length as int;
        if n > 0x7fff_ffff {
            assert(g == 0) by (nonlinear_arith)
                requires
                    crate::scoring::abs(g) * n + 2048 <= i32::MAX,
                    n > 0x7fff_ffff,
            ;
        }
        assert(crate::scoring::abs(g * length) <= crate::scoring::abs(g) * n) by (nonlinear_arith)
            requires
                0 <= length <= n,
        ;
        assert(g * length == base) by (nonlinear_arith)
            requires
                n > 0x7fff_ffff ==> g == 0,
                n <= 0x7fff_ffff ==> length == n,
                base == g * n,
        ;
    }
    let mut score: i32 = gap_score * length;
    let mut value: i32 = -3;
    while value <= 4
        invariant
            -3 <= value <= 5,
            m == delta_h_map@,
            crate::scoring::abs(base) + 2048 <= i32::MAX,
            score + weighted_ones(m, value as int) == base + weighted_ones(m, -3),
            crate::scoring::abs(score - base) <= 256 * (value + 3),
        decreases 5 - value,
    {
        proof {
            assert(weighted_ones(m, value as int) == (if m.contains_key(value) {
                value * ones(m[value])
            } else {
                0
            }) + weighted_ones(m, value + 1));
        }
        match delta_h_map.get(&value) {
            Some(bitrow) => {
                let count = count_ones(*bitrow);
                proof {
                    lemma_ones_below_bounded(*bitrow, 64);
                    assert(crate::scoring::abs(count * value) <= 256) by (nonlinear_arith)
                        requires
                            0 <= count <= 64,
                            -3 <= value <= 4,
                    ;
                }
                score = score + count as i32 * value;
            },
            None => {},
        }
        value = value + 1;
    }
    score
}

/// The horizontal sequence: `s1` when it fits in a word, else `s2`.
pub open spec fn horizontal_of(s1: Seq<u8>, s2: Seq<u8>) -> Seq<u8> {
    if s1.len() <= 64 {
        s1
    } else {
        s2
    }
}

/// The vertical sequence: the one that is not horizontal.
pub open spec fn vertical_of(s1: Seq<u8>, s2: Seq<u8>) -> Seq<u8> {
    if s1.len() <= 64 {
        s2
    } else {
        s1
    }
}

/// The score that the planes of the last row give.
pub open spec fn bitpal_score(horizontal: Seq<u8>, vertical: Seq<u8>) -> int {
    plane_score(planes_after(horizontal, vertical, vertical.len()), vertical.len(), -3)
}

proof fn lemma_mask_facts(n: u64)
    by (bit_vector)
    requires
        n < 64,
    ensures
        low_mask(((1u64 << n) - 1) as u64),
        1u64 << n >= 1,
        low_mask(u64::MAX),
        n + 1 < 64 ==> (((1u64 << n) - 1) as u64) & !((((1u64 << ((n + 1) as u64)) - 1) as u64)) == 0,
        n + 1 < 64 ==> (1u64 << n) & !((((1u64 << ((n + 1) as u64)) - 1) as u64)) == 0,
{
}

proof fn lemma_all_ones_facts(len: nat)
    requires
        len <= 64,
    ensures
        low_mask(all_ones(len)),
        len < 64 ==> all_ones(len) == ((1u64 << (len as u64)) - 1) as u64,
        len == 0 ==> all_ones(len) == 0,
{
    if len < 64 {
        lemma_mask_facts(len as u64);
    } else {
        lemma_mask_facts(0);
    }
    if len == 0 {
        assert(((1u64 << 0u64) - 1) as u64 == 0) by (bit_vector);
    }
}

proof fn lemma_subset_grow(x: u64, n: u64)
    by (bit_vector)
    requires
        n < 64,
        x & !(((1u64 << n) - 1) as u64) == 0,
    ensures
        (x | (1u64 << n)) & !(if n + 1 >= 64 {
            u64::MAX
        } else {
            ((1u64 << ((n + 1) as u64)) - 1) as u64
        }) == 0,
        x & !(if n + 1 >= 64 {
            u64::MAX
        } else {
            ((1u64 << ((n + 1) as u64)) - 1) as u64
        }) == 0,
{
}

/// A match vector has no bit beyond the sequence.
proof fn lemma_match_vector_inside(seq: Seq<u8>, c: u8)
    requires
        seq.len() <= 64,
    ensures
        match_vector(seq, c) & !all_ones(seq.len()) == 0,
    decreases seq.len(),
{
    if seq.len() == 0 {
        lemma_all_ones_facts(0);
        assert(0u64 & !0u64 == 0) by (bit_vector);
    } else {
        let n = (seq.len() - 1) as nat;
        lemma_match_vector_inside(seq.drop_last(), c);
        lemma_all_ones_facts(n);
        lemma_subset_grow(match_vector(seq.drop_last(), c), n as u64);
    }
}

proof fn lemma_initial_partition(all: u64)
    by (bit_vector)
    ensures
        partition8(all, 0, 0, 0, 0, 0, 0, 0, all),
{
}


/// At every row the eight planes partition the columns.
pub proof fn lemma_planes_partition(horizontal: Seq<u8>, vertical: Seq<u8>, k: nat)
    requires
        horizontal.len() <= 64,
        k <= vertical.len(),
    ensures
        partitions(planes_after(horizontal, vertical, k), all_ones(horizontal.len())),
    decreases k,
{
    let all = all_ones(horizontal.len());
    lemma_all_ones_facts(horizontal.len());
    if k == 0 {
        lemma_initial_partition(all);
    } else {
        lemma_planes_partition(horizontal, vertical, (k - 1) as nat);
        lemma_match_vector_inside(horizontal, vertical[k - 1]);
        lemma_advance_partitions(
            planes_after(horizontal, vertical, (k - 1) as nat),
            match_vector(horizontal, vertical[k - 1]),
            all,
        );
    }
}





/// The map from delta to plane that the final row gives scores the optimal alignment.
proof fn lemma_scored_planes(s1: Seq<u8>, s2: Seq<u8>, planes: DeltaPlanes, m: Map<i32, u64>)
    requires
        s1.len() <= 64 || s2.len() <= 64,
        planes == planes_after(horizontal_of(s1, s2), vertical_of(s1, s2), vertical_of(s1, s2).len()),
        m == Map::<i32, u64>::empty().insert(-3i32, planes.neg3).insert(-2i32, planes.neg2).insert(-1i32, planes.neg1).insert(
            1i32,
            planes.pos1,
        ).insert(2i32, planes.pos2).insert(3i32, planes.pos3).insert(4i32, planes.pos4),
    ensures
        forall|k: i32| #[trigger] m.contains_key(k) ==> -3 <= k <= 4,
        -3 * vertical_of(s1, s2).len() + weighted_ones(m, -3) == crate::scoring::nw(s1, s2, 1, -1, -3, s1.len(), s2.len()),
{
    reveal_with_fuel(weighted_ones, 9);
    assert(!m.contains_key(0i32));
    assert(weighted_ones(m, -3) == (-3) * ones(planes.neg3) + (-2) * ones(planes.neg2) + (-1) * ones(planes.neg1)
        + ones(planes.pos1) + 2 * ones(planes.pos2) + 3 * ones(planes.pos3) + 4 * ones(planes.pos4));
    crate::bitpal_proof::lemma_bitpal_equals_full_matrix(s1, s2);
}

/// Scores the optimal global alignment of `seq1` and `seq2` under (+1, -1, -3)
/// bit-parallel, with one of them (preferably `seq1`) laid along a 64-bit word.
pub fn bitpal(seq1: &Vec<u8>, seq2: &Vec<u8>) -> (res: Result<i32, InputTooLongError>)
    requires
        3 * (seq1@.len() + seq2@.len()) + 2048 <= i32::MAX,
    ensures
        res is Err <==> seq1@.len() > 64 && seq2@.len() > 64,
        res matches Ok(score) ==> score == crate::scoring::nw(seq1@, seq2@, 1, -1, -3, seq1@.len(), seq2@.len()),
        seq1@.len() == 0 ==> res == Ok::<i32, InputTooLongError>((-3 * seq2@.len()) as i32),
        seq2@.len() == 0 ==> res == Ok::<i32, InputTooLongError>((-3 * seq1@.len()) as i32),
{
    let (horizontal_seq, vertical_seq) = if seq1.len() <= 64 {
        (seq1, seq2)
    } else if seq2.len() <= 64 {
        (seq2, seq1)
    } else {
        return Err(InputTooLongError);
    };
    let ghost h = horizontal_seq@;
    let ghost v = vertical_seq@;
    assert(h == horizontal_of(seq1@, seq2@) && v == vertical_of(seq1@, seq2@));
    // the alphabet in use
    let mut alphabet: HashSet<u8> = HashSet::new();
    let mut i: usize = 0;
    while i < horizontal_seq.len()
        invariant
            i <= h.len(),
            h == horizontal_seq@,
            forall|j: int| 0 <= j < i ==> #[trigger] alphabet@.contains(h[j]),
        decreases h.len() - i,
    {
        alphabet.insert(horizontal_seq[i]);
        i = i + 1;
    }
    let mut i: usize = 0;
    while i < vertical_seq.len()
        invariant
            i <= v.len(),
            v == vertical_seq@,
            forall|j: int| 0 <= j < i ==> #[trigger] alphabet@.contains(v[j]),
        decreases v.len() - i,
    {
        alphabet.insert(vertical_seq[i]);
        i = i + 1;
    }
    let match_vectors = calculate_match_vectors(horizontal_seq, &alphabet);
    // the columns of the horizontal sequence
    let len = horizontal_seq.len();
    let all_ones: u64 = if len == 64 {
        u64::MAX
    } else {
        proof {
            lemma_mask_facts(len as u64);
        }
        (1u64 << len as u64) - 1
    };
    assert(all_ones == crate::bitpal::all_ones(h.len()));
    let mut planes = DeltaPlanes { neg3: all_ones, neg2: 0, neg1: 0, zero: 0, pos1: 0, pos2: 0, pos3: 0, pos4: 0 };
    let mut row: usize = 0;
    while row < vertical_seq.len()
        invariant
            h == horizontal_seq@,
            v == vertical_seq@,
            h.len() <= 64,
            all_ones == crate::bitpal::all_ones(h.len()),
            row <= v.len(),
            planes == planes_after(h, v, row as nat),
            match_vectors@.dom() == alphabet@,
            forall|c: u8| #[trigger] alphabet@.contains(c) ==> match_vectors@[c] == match_vector(h, c),
            forall|j: int| 0 <= j < v.len() ==> #[trigger] alphabet@.contains(v[j]),
        decreases v.len() - row,
    {
        let character = vertical_seq[row];
        assert(alphabet@.contains(v[row as int]));
        let current_match_vector = *match_vectors.get(&character).unwrap();
        planes = advance_planes(planes, current_match_vector, all_ones);
        row = row + 1;
    }
    let mut score_mapping: HashMap<i32, u64> = HashMap::new();
    score_mapping.insert(-3, planes.neg3);
    score_mapping.insert(-2, planes.neg2);
    score_mapping.insert(-1, planes.neg1);
    score_mapping.insert(1, planes.pos1);
    score_mapping.insert(2, planes.pos2);
    score_mapping.insert(3, planes.pos3);
    score_mapping.insert(4, planes.pos4);
    proof {
        lemma_scored_planes(seq1@, seq2@, planes, score_mapping@);
    }
    Ok(gather_score(score_mapping, vertical_seq.len(), -3))
}

} // verus!
