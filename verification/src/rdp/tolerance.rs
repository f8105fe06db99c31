//! The tolerance of a simplification, held exactly.
//!
//! A tolerance is a binary floating-point number that is not negative. It is
//! kept as a whole mantissa and a power of two, so that comparing a distance
//! with it takes no rounding.

use vstd::arithmetic::power2::{
    lemma2_to64, lemma2_to64_rest, lemma_pow2_adds, lemma_pow2_pos, lemma_pow2_strictly_increases,
    lemma_pow2_unfold, pow2,
};
use vstd::prelude::*;

verus! {

/// The tolerance `mantissa * 2^exponent`, in grid units.
#[derive(Clone, Copy, Debug, PartialEq, Eq, Structural)]
pub struct Tolerance {
    pub mantissa: u64,
    pub exponent: i32,
}

/// Two to the power of 52: the weight of the hidden bit of a double.
pub const HIDDEN_BIT: u64 = 0x10_0000_0000_0000;

/// The bits of a double with only the sign set.
pub const SIGN_BIT: u64 = 0x8000_0000_0000_0000;

/// The tolerance that the bits of an IEEE 754 double stand for, or `None`
/// where they stand for no tolerance: for an infinity, for what is not a
/// number, and for a negative number. Zero with the sign set is zero.
pub open spec fn tolerance_of_bits(bits: u64) -> Option<Tolerance> {
    let fraction = bits % HIDDEN_BIT;
    let exponent = (bits / HIDDEN_BIT) % 0x800;
    if exponent == 0x7FF {
        None
    } else if bits >= SIGN_BIT && !(exponent == 0 && fraction == 0) {
        None
    } else if exponent == 0 {
        Some(Tolerance { mantissa: fraction, exponent: -1074i32 })
    } else {
        Some(Tolerance { mantissa: (HIDDEN_BIT + fraction) as u64, exponent: (exponent - 1075) as i32 })
    }
}

impl Tolerance {
    /// Whether the ratio of `numerator` to `denominator` is above the
    /// tolerance. No ratio has a denominator of zero, so none is above then.
    pub open spec fn is_exceeded_by(self, numerator: nat, denominator: nat) -> bool {
        &&& denominator > 0
        &&& if self.exponent >= 0 {
            numerator > self.mantissa * pow2(self.exponent as nat) * denominator
        } else {
            numerator * pow2((-self.exponent) as nat) > self.mantissa * denominator
        }
    }

    /// Reads a tolerance from the bits of a double, as `to_bits` gives them.
    pub fn from_bits(bits: u64) -> (tolerance: Option<Tolerance>)
        ensures
            tolerance == tolerance_of_bits(bits),
    {
        let fraction: u64 = bits % HIDDEN_BIT;
        let exponent: u64 = (bits / HIDDEN_BIT) % 0x800;
        if exponent == 0x7FF {
            None
        } else if bits >= SIGN_BIT && !(exponent == 0 && fraction == 0) {
            None
        } else if exponent == 0 {
            Some(Tolerance { mantissa: fraction, exponent: -1074 })
        } else {
            Some(Tolerance { mantissa: HIDDEN_BIT + fraction, exponent: exponent as i32 - 1075 })
        }
    }

    /// Whether the ratio of `numerator` to `denominator` is above the
    /// tolerance.
    pub fn is_exceeded(&self, numerator: u64, denominator: u16) -> (above: bool)
        ensures
            above == self.is_exceeded_by(numerator as nat, denominator as nat),
    {
        if denominator == 0 {
            return false;
        }
        let ghost m = self.mantissa as int;
        let ghost d = denominator as int;
        let ghost n = numerator as int;
        proof {
            lemma2_to64();
            lemma2_to64_rest();
            lemma_pow2_adds(64, 16);
        }
        if self.exponent >= 0 {
            let ghost p = pow2(self.exponent as nat) as int;
            if self.mantissa == 0 {
                assert(m * p * d == 0) by (nonlinear_arith)
                    requires
                        m == 0,
                ;
                return numerator > 0;
            }
            if self.exponent >= 64 {
                proof {
                    if self.exponent > 64 {
                        lemma_pow2_strictly_increases(64, self.exponent as nat);
                    }
                    assert(m * p * d >= p) by (nonlinear_arith)
                        requires
                            m >= 1,
                            d >= 1,
                            p >= 0,
                    ;
                }
                return false;
            }
            let scale = power_of_two(self.exponent as u32);
            proof {
                lemma_pow2_strictly_increases(self.exponent as nat, 64);
                assert(0 <= m * p < 0x1_0000_0000_0000_0000 * 0x1_0000_0000_0000_0000) by (nonlinear_arith)
                    requires
                        0 <= m < 0x1_0000_0000_0000_0000,
                        0 <= p < 0x1_0000_0000_0000_0000,
                ;
            }
            let scaled: u128 = (self.mantissa as u128) * scale;
            if scaled > u64::MAX as u128 {
                assert(m * p * d >= m * p) by (nonlinear_arith)
                    requires
                        m * p >= 0,
                        d >= 1,
                ;
                return false;
            }
            assert(0 <= m * p * d < 0x1_0000_0000_0000_0000 * 0x1_0000) by (nonlinear_arith)
                requires
                    0 <= m * p < 0x1_0000_0000_0000_0000,
                    0 <= d < 0x1_0000,
            ;
            (numerator as u128) > scaled * (denominator as u128)
        } else {
            let shift: i64 = -(self.exponent as i64);
            let ghost p = pow2(shift as nat) as int;
            assert(0 <= m * d < 0x1_0000_0000_0000_0000 * 0x1_0000) by (nonlinear_arith)
                requires
                    0 <= m < 0x1_0000_0000_0000_0000,
                    0 <= d < 0x1_0000,
            ;
            let allowance: u128 = (self.mantissa as u128) * (denominator as u128);
            if numerator == 0 {
                assert(n * p == 0) by (nonlinear_arith)
                    requires
                        n == 0,
                ;
                return false;
            }
            if shift >= 80 {
                proof {
                    if shift > 80 {
                        lemma_pow2_strictly_increases(80, shift as nat);
                    }
                    assert(n * p >= p) by (nonlinear_arith)
                        requires
                            n >= 1,
                            p >= 0,
                    ;
                }
                return true;
            }
            let scale = power_of_two(shift as u32);
            let room = power_of_two((80 - shift) as u32);
            let ghost r = room as int;
            proof {
                lemma_pow2_adds(shift as nat, (80 - shift) as nat);
                lemma_pow2_pos(shift as nat);
                assert(p * r == 0x1_0000_0000_0000_0000_0000);
            }
            if numerator as u128 >= room {
                assert(n * p >= r * p) by (nonlinear_arith)
                    requires
                        n >= r,
                        p >= 0,
                ;
                assert(r * p == p * r) by (nonlinear_arith);
                return true;
            }
            assert(0 <= n * p < r * p) by (nonlinear_arith)
                requires
                    0 <= n < r,
                    p > 0,
            ;
            assert(r * p == p * r) by (nonlinear_arith);
            (numerator as u128) * scale > allowance
        }
    }
}

/// Two to the power of `e`.
fn power_of_two(e: u32) -> (p: u128)
    requires
        e <= 80,
    ensures
        p == pow2(e as nat),
{
    proof {
        lemma2_to64();
        lemma2_to64_rest();
        lemma_pow2_adds(64, 16);
    }
    let mut p: u128 = 1;
    let mut i: u32 = 0;
    while i < e
        invariant
            i <= e <= 80,
            p == pow2(i as nat),
            pow2(80) == 0x1_0000_0000_0000_0000_0000,
        decreases e - i,
    {
        proof {
            lemma_pow2_unfold((i + 1) as nat);
            if i + 1 < 80 {
                lemma_pow2_strictly_increases((i + 1) as nat, 80);
            }
        }
        p = p * 2;
        i += 1;
    }
    p
}

} // verus!
