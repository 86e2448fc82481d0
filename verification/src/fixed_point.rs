//! The Q7 fixed-point format: a number in [-1, 1] held in one byte, the
//! signed count of 1/128 steps.
//!
//! A double converts to Q7 by clamping to the bounds and truncating toward
//! zero at 1/128 resolution. Floating point stays outside this crate, so the
//! conversion takes the double's raw bits — sign, biased exponent and
//! fraction per IEEE 754 — and the contract states the clamp and the
//! truncated magnitude in those terms; a caller holding an `f64` passes
//! `to_bits()`.

use vstd::prelude::*;

use vstd::arithmetic::div_mod::{
    lemma_basic_div, lemma_div_is_ordered, lemma_div_is_ordered_by_denominator,
    lemma_multiply_divide_lt,
};
use vstd::arithmetic::power2::{lemma2_to64, lemma2_to64_rest, lemma_pow2_pos,
    lemma_pow2_strictly_increases, lemma_pow2_subtracts, pow2};
use vstd::bits::{
    lemma_low_bits_mask_values, lemma_u64_low_bits_mask_is_mod, lemma_u64_shr_is_div,
};

verus! {

/// A fixed-point number: the wrapped byte counts steps of 1/128, so the
/// covered range is -1 to 127/128.
#[derive(Debug, Clone, Copy, PartialEq, Eq, Structural)]
pub struct Q7(pub i8);

/// The double the bits hold is negative (sign bit set).
pub open spec fn f64_sign_negative(bits: u64) -> bool {
    bits as int / 0x8000000000000000 == 1
}

/// The biased exponent field of the bits: 11 bits below the sign.
pub open spec fn f64_exp(bits: u64) -> int {
    (bits as int / 0x10000000000000) % 0x800
}

/// The fraction field of the bits: the low 52 bits.
pub open spec fn f64_frac(bits: u64) -> int {
    bits as int % 0x10000000000000
}

/// The magnitude of a normal double with biased exponent `e` and fraction
/// `f`, times 128, truncated to an integer: the magnitude is
/// `(2^52 + f) * 2^(e - 1075)`, so 128 times it is `(2^52 + f) * 2^(e - 1068)`.
pub open spec fn mag128(e: int, f: int) -> int
    recommends
        1 <= e <= 2046,
        0 <= f < 0x10000000000000,
{
    let m = 0x10000000000000 + f;
    if e >= 1068 {
        m * pow2((e - 1068) as nat)
    } else {
        m / pow2((1068 - e) as nat) as int
    }
}

/// The Q7 steps a double with these bits converts to: zero for a NaN (its
/// clamp comparisons all fail and truncation of a NaN product yields zero),
/// the clamp bound for anything at or beyond 1 in magnitude — infinities
/// included — and otherwise the magnitude times 128, truncated toward zero
/// and signed. A subnormal double truncates to zero.
pub open spec fn q7_of_f64_bits(bits: u64) -> i8 {
    let neg = f64_sign_negative(bits);
    let e = f64_exp(bits);
    let f = f64_frac(bits);
    if e == 0x7ff {
        if f != 0 {
            0i8
        } else if neg {
            -128i8
        } else {
            127i8
        }
    } else {
        let t = if e == 0 {
            0int
        } else {
            mag128(e, f)
        };
        if t >= 128 {
            if neg {
                -128i8
            } else {
                127i8
            }
        } else {
            if neg {
                (-t) as i8
            } else {
                t as i8
            }
        }
    }
}

/// At or above the exponent of 1.0, the truncated scaled magnitude reaches
/// the clamp bound.
proof fn lemma_mag128_clamps(e: int, f: int)
    requires
        1023 <= e <= 2046,
        0 <= f < 0x10000000000000,
    ensures
        mag128(e, f) >= 128,
{
    let m = 0x10000000000000 + f;
    lemma2_to64();
    lemma2_to64_rest();
    if e >= 1068 {
        lemma_pow2_pos((e - 1068) as nat);
        assert(m * pow2((e - 1068) as nat) >= 128) by (nonlinear_arith)
            requires
                m >= 0x10000000000000,
                pow2((e - 1068) as nat) >= 1,
        ;
    } else {
        let k = (1068 - e) as nat;
        lemma_pow2_pos(k);
        lemma_pow2_subtracts(k, 52);
        lemma_div_is_ordered(pow2(52) as int, m, pow2(k) as int);
        if 52 - k > 7 {
            lemma_pow2_strictly_increases(7, (52 - k) as nat);
        }
    }
}

/// Below the exponent of 1.0, the truncated scaled magnitude stays under the
/// clamp bound.
proof fn lemma_mag128_small(e: int, f: int)
    requires
        1 <= e <= 1022,
        0 <= f < 0x10000000000000,
    ensures
        0 <= mag128(e, f) < 128,
{
    let m = 0x10000000000000 + f;
    let k = (1068 - e) as nat;
    lemma2_to64();
    lemma2_to64_rest();
    if k > 46 {
        lemma_pow2_strictly_increases(46, k);
    }
    lemma_div_is_ordered_by_denominator(m, pow2(46) as int, pow2(k) as int);
    lemma_multiply_divide_lt(m, pow2(46) as int, 128);
    lemma_basic_div(0, pow2(k) as int);
    lemma_div_is_ordered(0, m, pow2(k) as int);
}

impl Q7 {
    /// Converts a double, given as its raw IEEE 754 bits, to Q7: clamped to
    /// the representable range, truncated toward zero at 1/128 resolution.
    pub fn from_f64_bits(bits: u64) -> (r: Q7)
        ensures
            r.0 == q7_of_f64_bits(bits),
    {
        proof {
            lemma_u64_shr_is_div(bits, 63);
            lemma_u64_shr_is_div(bits, 52);
            lemma_u64_low_bits_mask_is_mod(bits >> 52, 11);
            lemma_u64_low_bits_mask_is_mod(bits, 52);
            lemma_low_bits_mask_values();
            lemma2_to64();
            lemma2_to64_rest();
        }
        let neg = (bits >> 63) == 1;
        let e = (bits >> 52) & 0x7ff;
        let f = bits & 0xfffffffffffff;
        assert(neg == f64_sign_negative(bits));
        assert(e as int == f64_exp(bits));
        assert(f as int == f64_frac(bits));
        if e == 0x7ff {
            if f != 0 {
                Q7(0)
            } else if neg {
                Q7(-128)
            } else {
                Q7(127)
            }
        } else if e >= 1023 {
            proof {
                lemma_mag128_clamps(e as int, f as int);
            }
            if neg {
                Q7(-128)
            } else {
                Q7(127)
            }
        } else if e == 0 {
            Q7(0)
        } else {
            let shift = 1068 - e;
            let m: u64 = 0x10000000000000 + f;
            proof {
                lemma_mag128_small(e as int, f as int);
                if shift < 64 {
                    lemma_u64_shr_is_div(m, shift);
                } else {
                    lemma_pow2_strictly_increases(53, shift as nat);
                    lemma_basic_div(m as int, pow2(shift as nat) as int);
                }
            }
            let t: u64 = if shift >= 64 {
                0
            } else {
                m >> shift
            };
            assert(t as int == mag128(e as int, f as int));
            if neg {
                Q7(-(t as i8))
            } else {
                Q7(t as i8)
            }
        }
    }
}

/// The module's demonstration hook: it has nothing left to do, since the
/// conversions carry all of the format's behaviour.
pub fn run() {
}

} // verus!
