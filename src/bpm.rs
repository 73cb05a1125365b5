use vstd::prelude::*;
use vstd::arithmetic::power2::{
    pow2,
    lemma_pow2_pos,
    lemma_pow2_unfold,
    lemma_pow2_strictly_increases,
    lemma2_to64,
    lemma2_to64_rest,
};

verus! {

/// A positive tempo in beats per minute, held exactly as `mantissa * 2^exponent`.
///
/// Doubling and halving a tempo only move the exponent, so octave corrections
/// never lose precision.
#[derive(Clone, Copy, Debug, PartialEq, Eq, Structural)]
pub struct Bpm {
    pub mantissa: u64,
    pub exponent: i32,
}

/// `m * 2^e < n`, compared exactly over the integers.
pub open spec fn scaled_lt(m: nat, e: int, n: nat) -> bool {
    if e >= 0 {
        m * pow2(e as nat) < n
    } else {
        m < n * pow2((-e) as nat)
    }
}

/// `m * 2^e > n`, compared exactly over the integers.
pub open spec fn scaled_gt(m: nat, e: int, n: nat) -> bool {
    if e >= 0 {
        m * pow2(e as nat) > n
    } else {
        m > n * pow2((-e) as nat)
    }
}

impl Bpm {
    /// A tempo is well formed when it is strictly positive.
    pub open spec fn wf(&self) -> bool {
        self.mantissa > 0
    }

    /// The tempo is below `n` beats per minute.
    pub open spec fn lt_spec(&self, n: nat) -> bool {
        scaled_lt(self.mantissa as nat, self.exponent as int, n)
    }

    /// The tempo is above `n` beats per minute.
    pub open spec fn gt_spec(&self, n: nat) -> bool {
        scaled_gt(self.mantissa as nat, self.exponent as int, n)
    }

    /// The tempo lies in the inclusive range `[lo, hi]`.
    pub open spec fn in_range(&self, lo: nat, hi: nat) -> bool {
        !self.lt_spec(lo) && !self.gt_spec(hi)
    }

    /// Builds `mantissa * 2^exponent`; `None` for a zero mantissa, which is no tempo.
    pub fn new(mantissa: u64, exponent: i32) -> (r: Option<Bpm>)
        ensures
            mantissa == 0 <==> r is None,
            r matches Some(b) ==> b.mantissa == mantissa && b.exponent == exponent && b.wf(),
    {
        if mantissa == 0 {
            None
        } else {
            Some(Bpm { mantissa, exponent })
        }
    }

    /// A whole number of beats per minute; `None` for zero.
    pub fn from_whole(n: u32) -> (r: Option<Bpm>)
        ensures
            n == 0 <==> r is None,
            r matches Some(b) ==> b.mantissa == n && b.exponent == 0 && b.wf(),
    {
        Bpm::new(n as u64, 0)
    }
}

/// `2^e` as a machine integer.
fn pow2_u128(e: u32) -> (r: u128)
    requires
        e < 128,
    ensures
        r == pow2(e as nat),
{
    let mut r: u128 = 1;
    let mut i: u32 = 0;
    proof {
        lemma2_to64();
    }
    while i < e
        invariant
            i <= e,
            e < 128,
            r == pow2(i as nat),
        decreases e - i,
    {
        proof {
            lemma_pow2_unfold((i + 1) as nat);
            lemma_pow2_strictly_increases((i + 1) as nat, 128);
            lemma_pow2_unfold(128);
            assert(pow2(128) == 2 * pow2(127));
            lemma_pow2_bound_128();
        }
        r = r * 2;
        i = i + 1;
    }
    r
}

proof fn lemma_pow2_bound_128()
    ensures
        pow2(128) == 0x1_0000_0000_0000_0000_0000_0000_0000_0000,
{
    lemma2_to64_rest();
    vstd::arithmetic::power2::lemma_pow2_adds(64, 64);
}

/// Powers of two grow with the exponent.
proof fn lemma_pow2_ge(a: nat, b: nat)
    requires
        a <= b,
    ensures
        pow2(a) <= pow2(b),
{
    if a < b {
        lemma_pow2_strictly_increases(a, b);
    }
}

impl Bpm {
    /// Whether the tempo is below `n` beats per minute.
    pub fn lt_whole(&self, n: u32) -> (r: bool)
        requires
            self.wf(),
        ensures
            r == self.lt_spec(n as nat),
            r ==> self.exponent < 32,
    {
        let m = self.mantissa;
        let e = self.exponent;
        proof {
            lemma2_to64();
            lemma2_to64_rest();
        }
        if e >= 0 {
            if e >= 32 {
                proof {
                    lemma_pow2_ge(32, e as nat);
                    assert(m as nat * pow2(e as nat) >= pow2(e as nat)) by (nonlinear_arith)
                        requires m >= 1;
                }
                false
            } else {
                let p = pow2_u128(e as u32);
                proof {
                    lemma_pow2_ge(e as nat, 32);
                    assert(m as nat * p <= 0xffff_ffff_ffff_ffff * 0x1_0000_0000) by (nonlinear_arith)
                        requires m <= 0xffff_ffff_ffff_ffff, p <= 0x1_0000_0000;
                }
                (m as u128) * p < n as u128
            }
        } else {
            let d: u32 = (-(e as i64)) as u32;
            if d >= 64 {
                proof {
                    lemma_pow2_ge(64, d as nat);
                    lemma_pow2_pos(d as nat);
                    if n > 0 {
                        assert(n as nat * pow2(d as nat) >= pow2(d as nat)) by (nonlinear_arith)
                            requires n >= 1;
                    } else {
                        assert(n as nat * pow2(d as nat) == 0) by (nonlinear_arith)
                            requires n == 0;
                    }
                }
                n > 0
            } else {
                let p = pow2_u128(d);
                proof {
                    lemma_pow2_ge(d as nat, 64);
                    assert(n as nat * p <= 0xffff_ffff * 0x1_0000_0000_0000_0000) by (nonlinear_arith)
                        requires n <= 0xffff_ffff, p <= 0x1_0000_0000_0000_0000;
                }
                (m as u128) < (n as u128) * p
            }
        }
    }

    /// Whether the tempo is above `n` beats per minute.
    pub fn gt_whole(&self, n: u32) -> (r: bool)
        requires
            self.wf(),
        ensures
            r == self.gt_spec(n as nat),
            r && n > 0 ==> self.exponent > -64,
    {
        let m = self.mantissa;
        let e = self.exponent;
        proof {
            lemma2_to64();
            lemma2_to64_rest();
        }
        if e >= 0 {
            if e >= 32 {
                proof {
                    lemma_pow2_ge(32, e as nat);
                    assert(m as nat * pow2(e as nat) >= pow2(e as nat)) by (nonlinear_arith)
                        requires m >= 1;
                }
                true
            } else {
                let p = pow2_u128(e as u32);
                proof {
                    lemma_pow2_ge(e as nat, 32);
                    assert(m as nat * p <= 0xffff_ffff_ffff_ffff * 0x1_0000_0000) by (nonlinear_arith)
                        requires m <= 0xffff_ffff_ffff_ffff, p <= 0x1_0000_0000;
                }
                (m as u128) * p > n as u128
            }
        } else {
            let d: u32 = (-(e as i64)) as u32;
            if d >= 64 {
                proof {
                    lemma_pow2_ge(64, d as nat);
                    if n > 0 {
                        assert(n as nat * pow2(d as nat) >= pow2(d as nat)) by (nonlinear_arith)
                            requires n >= 1;
                    } else {
                        assert(n as nat * pow2(d as nat) == 0) by (nonlinear_arith)
                            requires n == 0;
                    }
                }
                n == 0
            } else {
                let p = pow2_u128(d);
                proof {
                    lemma_pow2_ge(d as nat, 64);
                    assert(n as nat * p <= 0xffff_ffff * 0x1_0000_0000_0000_0000) by (nonlinear_arith)
                        requires n <= 0xffff_ffff, p <= 0x1_0000_0000_0000_0000;
                }
                (m as u128) > (n as u128) * p
            }
        }
    }
}

/// The sign bit of an IEEE-754 single-precision bit pattern.
pub open spec fn f32_sign(bits: u32) -> nat {
    bits as nat / 0x8000_0000
}

/// The biased exponent field of an IEEE-754 single-precision bit pattern.
pub open spec fn f32_biased_exponent(bits: u32) -> nat {
    (bits as nat / 0x80_0000) % 0x100
}

/// The fraction field of an IEEE-754 single-precision bit pattern.
pub open spec fn f32_fraction(bits: u32) -> nat {
    bits as nat % 0x80_0000
}

/// The bit pattern encodes a finite number above zero.
pub open spec fn f32_is_positive(bits: u32) -> bool {
    &&& f32_sign(bits) == 0
    &&& f32_biased_exponent(bits) != 0xff
    &&& (f32_biased_exponent(bits) != 0 || f32_fraction(bits) != 0)
}

impl Bpm {
    /// The tempo that a single-precision bit pattern encodes: a subnormal is
    /// `fraction * 2^-149`, a normal number `(2^23 + fraction) * 2^(biased - 150)`.
    /// Zero, negative numbers, infinities and NaN are no tempo and give `None`.
    pub fn from_f32_bits(bits: u32) -> (r: Option<Bpm>)
        ensures
            r is Some <==> f32_is_positive(bits),
            r matches Some(b) ==> {
                &&& b.wf()
                &&& f32_biased_exponent(bits) == 0 ==> b.mantissa == f32_fraction(bits)
                    && b.exponent == -149
                &&& f32_biased_exponent(bits) != 0 ==> b.mantissa == f32_fraction(bits)
                    + 0x80_0000 && b.exponent == f32_biased_exponent(bits) - 150
            },
    {
        let sign = bits / 0x8000_0000;
        let biased = (bits / 0x80_0000) % 0x100;
        let fraction = bits % 0x80_0000;
        if sign != 0 || biased == 0xff {
            None
        } else if biased == 0 {
            Bpm::new(fraction as u64, -149)
        } else {
            Bpm::new(fraction as u64 + 0x80_0000, biased as i32 - 150)
        }
    }
}

} // verus!
