use vstd::prelude::*;
use vstd::arithmetic::power2::{pow2, lemma_pow2_unfold, lemma2_to64};
use crate::bpm::{Bpm, scaled_lt, scaled_gt};

verus! {

/// `r` is what octave normalisation into `[lo, hi]` makes of `b`: the same
/// mantissa (so `r` is `b` times a power of two), and
/// - a tempo already in range is kept;
/// - a tempo below `lo` is doubled until it reaches `lo`; should that overshoot
///   `hi`, it is halved once more, leaving a tempo whose double is above `hi`;
/// - a tempo above `hi` is halved until it is at most `hi`.
pub open spec fn normalizes(b: Bpm, lo: nat, hi: nat, r: Bpm) -> bool {
    let m = b.mantissa as nat;
    let e = r.exponent as int;
    &&& r.mantissa == b.mantissa
    &&& if b.lt_spec(lo) {
        &&& e >= b.exponent
        &&& ((r.in_range(lo, hi) && scaled_lt(m, e - 1, lo)) || (r.lt_spec(lo) && scaled_gt(
            m,
            e + 1,
            hi,
        )))
    } else if b.gt_spec(hi) {
        &&& e < b.exponent
        &&& !r.gt_spec(hi)
        &&& scaled_gt(m, e + 1, hi)
    } else {
        r == b
    }
}

/// Halving a tempo that is below `n` keeps it below `n`.
proof fn lemma_lt_step(m: nat, e: int, n: nat)
    requires
        scaled_lt(m, e, n),
    ensures
        scaled_lt(m, e - 1, n),
{
    lemma2_to64();
    if e >= 1 {
        let p = pow2((e - 1) as nat);
        let q = pow2(e as nat);
        lemma_pow2_unfold(e as nat);
        assert(m * p <= m * q) by (nonlinear_arith)
            requires q == 2 * p;
    } else if e == 0 {
        assert(m * pow2(0) == m);
        assert(n * pow2(1) == 2 * n);
    } else {
        let p = pow2((-e) as nat);
        let q = pow2((1 - e) as nat);
        lemma_pow2_unfold((1 - e) as nat);
        assert(n * p <= n * q) by (nonlinear_arith)
            requires q == 2 * p;
    }
}

/// Doubling a tempo that is above `n` keeps it above `n`.
proof fn lemma_gt_step(m: nat, e: int, n: nat)
    requires
        scaled_gt(m, e, n),
    ensures
        scaled_gt(m, e + 1, n),
{
    lemma2_to64();
    if e >= 0 {
        let p = pow2(e as nat);
        let q = pow2((e + 1) as nat);
        lemma_pow2_unfold((e + 1) as nat);
        assert(m * p <= m * q) by (nonlinear_arith)
            requires q == 2 * p;
    } else if e == -1 {
        assert(m * pow2(0) == m);
        assert(n * pow2(1) == 2 * n);
    } else {
        let p = pow2((-e - 1) as nat);
        let q = pow2((-e) as nat);
        lemma_pow2_unfold((-e) as nat);
        assert(n * p <= n * q) by (nonlinear_arith)
            requires q == 2 * p;
    }
}

/// Below a lower bound at `e2` means below it at every smaller exponent.
proof fn lemma_lt_mono(m: nat, e1: int, e2: int, n: nat)
    requires
        e1 <= e2,
        scaled_lt(m, e2, n),
    ensures
        scaled_lt(m, e1, n),
    decreases e2 - e1,
{
    if e1 < e2 {
        lemma_lt_step(m, e2, n);
        lemma_lt_mono(m, e1, e2 - 1, n);
    }
}

/// Above an upper bound at `e1` means above it at every larger exponent.
proof fn lemma_gt_mono(m: nat, e1: int, e2: int, n: nat)
    requires
        e1 <= e2,
        scaled_gt(m, e1, n),
    ensures
        scaled_gt(m, e2, n),
    decreases e2 - e1,
{
    if e1 < e2 {
        lemma_gt_step(m, e1, n);
        lemma_gt_mono(m, e1 + 1, e2, n);
    }
}

/// No tempo is both above `b` and below some `a <= b`.
proof fn lemma_gt_excludes_lt(m: nat, e: int, a: nat, b: nat)
    requires
        a <= b,
        scaled_gt(m, e, b),
    ensures
        !scaled_lt(m, e, a),
{
    if e < 0 {
        let p = pow2((-e) as nat);
        assert(a * p <= b * p) by (nonlinear_arith)
            requires a <= b;
    }
}

/// A tempo below `n` has a double below `2n`.
proof fn lemma_lt_double(m: nat, e: int, n: nat)
    requires
        scaled_lt(m, e, n),
    ensures
        scaled_lt(m, e + 1, 2 * n),
{
    lemma2_to64();
    if e >= 0 {
        let p = pow2(e as nat);
        let q = pow2((e + 1) as nat);
        lemma_pow2_unfold((e + 1) as nat);
        assert(m * q == 2 * (m * p)) by (nonlinear_arith)
            requires q == 2 * p;
    } else if e == -1 {
        assert(m * pow2(0) == m);
        assert(n * pow2(1) == 2 * n);
    } else {
        let p = pow2((-e - 1) as nat);
        let q = pow2((-e) as nat);
        lemma_pow2_unfold((-e) as nat);
        assert(n * q == (2 * n) * p) by (nonlinear_arith)
            requires q == 2 * p;
    }
}

/// Moves a tempo by octaves into `[lo, hi]`: doubles it while it is below
/// `lo`, then halves it while it is above `hi`.
pub fn adjust_tempo(tempo: Bpm, lo: u32, hi: u32) -> (r: Bpm)
    requires
        tempo.wf(),
        0 < lo < hi,
    ensures
        normalizes(tempo, lo as nat, hi as nat, r),
        r.wf(),
{
    let ghost m = tempo.mantissa as nat;
    let ghost e0 = tempo.exponent as int;
    let mut t = tempo;
    while t.lt_whole(lo)
        invariant
            t.mantissa == tempo.mantissa,
            m == tempo.mantissa as nat,
            e0 == tempo.exponent as int,
            t.exponent >= e0,
            t.exponent > e0 ==> scaled_lt(m, t.exponent - 1, lo as nat),
            tempo.wf(),
        decreases 32 - t.exponent,
    {
        t.exponent = t.exponent + 1;
    }
    let ghost e1 = t.exponent as int;
    assert(!t.lt_spec(lo as nat));
    assert(tempo.lt_spec(lo as nat) <==> e1 > e0) by {
        if e1 == e0 {
            assert(t == tempo);
        } else {
            lemma_lt_mono(m, e0, e1 - 1, lo as nat);
        }
    }
    while t.gt_whole(hi)
        invariant
            t.mantissa == tempo.mantissa,
            m == tempo.mantissa as nat,
            e0 == tempo.exponent as int,
            t.exponent <= e1,
            t.exponent < e1 ==> scaled_gt(m, t.exponent + 1, hi as nat),
            tempo.wf(),
            0 < lo < hi,
        decreases t.exponent + 64,
    {
        t.exponent = t.exponent - 1;
    }
    let ghost e = t.exponent as int;
    proof {
        if tempo.lt_spec(lo as nat) {
            if e < e1 {
                // The first loop overshot `hi`; exactly one halving brings it back.
                if e < e1 - 1 {
                    lemma_gt_mono(m, e + 1, e1 - 1, hi as nat);
                    lemma_gt_excludes_lt(m, e1 - 1, lo as nat, hi as nat);
                }
            } else {
                assert(t.in_range(lo as nat, hi as nat));
            }
        } else if tempo.gt_spec(hi as nat) {
            assert(e1 == e0);
        } else {
            assert(e1 == e0);
            if e < e1 {
                lemma_gt_mono(m, e + 1, e1, hi as nat);
            }
        }
    }
    t
}

/// Where `hi` is at least twice `lo`, octave normalisation lands inside
/// `[lo, hi]`, and the result is the input times a power of two (it keeps the
/// mantissa and moves only the exponent).
pub proof fn lemma_adjust_in_range(b: Bpm, lo: nat, hi: nat, r: Bpm)
    requires
        b.wf(),
        0 < lo < hi,
        2 * lo <= hi,
        normalizes(b, lo, hi, r),
    ensures
        r.in_range(lo, hi),
        r.mantissa == b.mantissa,
{
    let m = b.mantissa as nat;
    let e = r.exponent as int;
    if b.lt_spec(lo) {
        if r.lt_spec(lo) {
            lemma_lt_double(m, e, lo);
            lemma_gt_excludes_lt(m, e + 1, 2 * lo, hi);
        }
    } else if b.gt_spec(hi) {
        if r.lt_spec(lo) {
            lemma_lt_double(m, e, lo);
            lemma_gt_excludes_lt(m, e + 1, 2 * lo, hi);
        }
    }
}

/// Normalising an already normalised tempo changes nothing.
pub proof fn lemma_adjust_idempotent(b: Bpm, lo: nat, hi: nat, r: Bpm, s: Bpm)
    requires
        b.wf(),
        0 < lo < hi,
        normalizes(b, lo, hi, r),
        normalizes(r, lo, hi, s),
    ensures
        s == r,
{
    let m = b.mantissa as nat;
    let er = r.exponent as int;
    let es = s.exponent as int;
    if r.gt_spec(hi) {
        // Each branch of `normalizes` leaves `r` at most `hi`.
        if b.lt_spec(lo) {
            if !r.in_range(lo, hi) {
                lemma_gt_excludes_lt(m, er, lo, hi);
            }
        }
    } else if r.lt_spec(lo) {
        // `r` sits just below `lo` with its double above `hi`.
        if b.lt_spec(lo) {
            assert(scaled_gt(m, er + 1, hi));
        } else if b.gt_spec(hi) {
            assert(scaled_gt(m, er + 1, hi));
        } else {
            assert(r == b);
        }
        assert(scaled_gt(m, er + 1, hi));
        if es > er {
            lemma_gt_mono(m, er + 1, es, hi);
            lemma_gt_excludes_lt(m, es, lo, hi);
        }
    }
}

/// Octave normalisation has one outcome: two tempos that both normalise `b`
/// into `[lo, hi]` are the same.
pub proof fn lemma_adjust_unique(b: Bpm, lo: nat, hi: nat, r: Bpm, s: Bpm)
    requires
        b.wf(),
        0 < lo < hi,
        normalizes(b, lo, hi, r),
        normalizes(b, lo, hi, s),
    ensures
        r == s,
{
    lemma_adjust_unique_ordered(b, lo, hi, r, s);
    lemma_adjust_unique_ordered(b, lo, hi, s, r);
}

proof fn lemma_adjust_unique_ordered(b: Bpm, lo: nat, hi: nat, r: Bpm, s: Bpm)
    requires
        b.wf(),
        0 < lo < hi,
        normalizes(b, lo, hi, r),
        normalizes(b, lo, hi, s),
    ensures
        r.exponent <= s.exponent,
{
    let m = b.mantissa as nat;
    let er = r.exponent as int;
    let es = s.exponent as int;
    if es < er {
        if b.lt_spec(lo) {
            if s.in_range(lo, hi) {
                if r.in_range(lo, hi) {
                    lemma_lt_mono(m, es, er - 1, lo);
                } else {
                    lemma_lt_mono(m, es, er, lo);
                }
            } else {
                lemma_gt_mono(m, es + 1, er, hi);
                lemma_gt_excludes_lt(m, er, lo, hi);
            }
        } else if b.gt_spec(hi) {
            lemma_gt_mono(m, es + 1, er, hi);
        }
    }
}

} // verus!
