//! Floating-point numbers as their IEEE 754 bit patterns.

use vstd::prelude::*;
use vstd::arithmetic::power2::pow2;
use vstd::arithmetic::power2::lemma_pow2_unfold;
use vstd::arithmetic::power2::lemma_pow2_strictly_increases;
use vstd::arithmetic::power2::lemma2_to64;
use vstd::arithmetic::power2::lemma_pow2_adds;

verus! {

/// A single-precision number, as its 32 bits.
#[derive(Debug, Clone, Copy, PartialEq, Eq, Structural)]
pub struct Single {
    pub bits: u32,
}

/// A double-precision number, as its 64 bits.
#[derive(Debug, Clone, Copy, PartialEq, Eq, Structural)]
pub struct Double {
    pub bits: u64,
}

/// The sign bit of a single-precision pattern.
pub open spec fn single_sign(bits: u32) -> nat {
    (bits / 0x8000_0000) as nat
}

/// The eight exponent bits of a single-precision pattern.
pub open spec fn single_exponent(bits: u32) -> nat {
    ((bits / 0x80_0000) % 0x100) as nat
}

/// The 23 fraction bits of a single-precision pattern.
pub open spec fn single_fraction(bits: u32) -> nat {
    (bits % 0x80_0000) as nat
}

/// The double-precision pattern with the given sign, exponent and fraction.
pub open spec fn double_of(sign: nat, exponent: nat, fraction: nat) -> nat {
    sign * 0x8000_0000_0000_0000 + exponent * 0x10_0000_0000_0000 + fraction
}

/// A subnormal single-precision significand `m`, doubled until its bit 23 is
/// set, and the double-precision exponent `e` lowered by one for each
/// doubling.
pub open spec fn normalized(m: nat, e: nat) -> (nat, nat)
    decreases e,
{
    if m == 0 || m >= 0x80_0000 || e == 0 {
        (m, e)
    } else {
        normalized(2 * m, (e - 1) as nat)
    }
}

/// The double-precision pattern of the number that the single-precision
/// pattern `bits` stands for. Infinities stay infinities and zeros keep their
/// sign; a NaN becomes the quiet NaN with the same sign and payload.
pub open spec fn widen(bits: u32) -> nat {
    let s = single_sign(bits);
    let e = single_exponent(bits);
    let f = single_fraction(bits);
    if e == 0xff {
        if f == 0 {
            double_of(s, 0x7ff, 0)
        } else if f < 0x40_0000 {
            double_of(s, 0x7ff, 0x8_0000_0000_0000 + f * 0x2000_0000)
        } else {
            double_of(s, 0x7ff, f * 0x2000_0000)
        }
    } else if e == 0 {
        if f == 0 {
            double_of(s, 0, 0)
        } else {
            let (m, x) = normalized(f, 897);
            double_of(s, x, ((m - 0x80_0000) * 0x2000_0000) as nat)
        }
    } else {
        double_of(s, e + 896, f * 0x2000_0000)
    }
}

/// Widens a single-precision bit pattern to the double-precision pattern of
/// the same number.
pub fn widen_single(bits: u32) -> (d: u64)
    ensures
        d == widen(bits),
{
    let sign: u64 = (bits / 0x8000_0000) as u64;
    let e: u64 = ((bits / 0x80_0000) % 0x100) as u64;
    let f: u64 = (bits % 0x80_0000) as u64;
    let mut exponent: u64 = 0;
    let mut fraction: u64 = 0;
    if e == 0xff {
        exponent = 0x7ff;
        if f == 0 {
            fraction = 0;
        } else if f < 0x40_0000 {
            fraction = 0x8_0000_0000_0000 + f * 0x2000_0000;
        } else {
            fraction = f * 0x2000_0000;
        }
    } else if e == 0 {
        if f != 0 {
            let mut m: u64 = f;
            let mut x: u64 = 897;
            proof {
                lemma2_to64();
            }
            while m < 0x80_0000
                invariant
                    0 < m < 0x100_0000,
                    874 <= x <= 897,
                    m >= pow2((897 - x) as nat),
                    normalized(m as nat, x as nat) == normalized(f as nat, 897),
                decreases x,
            {
                proof {
                    lemma2_to64();
                    if x <= 874 {
                        assert(pow2(23) == 0x80_0000);
                    }
                    lemma_pow2_unfold((897 - x + 1) as nat);
                    if x == 875 {
                    } else {
                        lemma_pow2_strictly_increases((897 - x) as nat, 23);
                    }
                }
                m = m * 2;
                x = x - 1;
            }
            exponent = x;
            fraction = (m - 0x80_0000) * 0x2000_0000;
        }
    } else {
        exponent = e + 896;
        fraction = f * 0x2000_0000;
    }
    sign * 0x8000_0000_0000_0000 + exponent * 0x10_0000_0000_0000 + fraction
}


/// The sign bit of a double-precision pattern.
pub open spec fn double_sign(bits: nat) -> nat {
    bits / 0x8000_0000_0000_0000
}

/// The eleven exponent bits of a double-precision pattern.
pub open spec fn double_exponent(bits: nat) -> nat {
    (bits / 0x10_0000_0000_0000) % 0x800
}

/// The 52 fraction bits of a double-precision pattern.
pub open spec fn double_fraction(bits: nat) -> nat {
    bits % 0x10_0000_0000_0000
}

/// The significand of a finite single-precision pattern as a whole number:
/// the pattern stands for this number times two to the power of
/// [`single_scale`], with its sign.
pub open spec fn single_significand(bits: u32) -> nat {
    if single_exponent(bits) == 0 {
        single_fraction(bits)
    } else {
        0x80_0000 + single_fraction(bits)
    }
}

/// The power of two that scales the significand of a finite single-precision
/// pattern.
pub open spec fn single_scale(bits: u32) -> int {
    if single_exponent(bits) == 0 {
        -149
    } else {
        single_exponent(bits) - 150
    }
}

/// The significand of a finite double-precision pattern as a whole number.
pub open spec fn double_significand(bits: nat) -> nat {
    if double_exponent(bits) == 0 {
        double_fraction(bits)
    } else {
        0x10_0000_0000_0000 + double_fraction(bits)
    }
}

/// The power of two that scales the significand of a finite double-precision
/// pattern.
pub open spec fn double_scale(bits: nat) -> int {
    if double_exponent(bits) == 0 {
        -1074
    } else {
        double_exponent(bits) - 1075
    }
}

/// A double-precision pattern has the fields that it was put together from.
pub proof fn lemma_double_fields(sign: nat, exponent: nat, fraction: nat)
    requires
        sign <= 1,
        exponent < 0x800,
        fraction < 0x10_0000_0000_0000,
    ensures
        double_of(sign, exponent, fraction) <= u64::MAX,
        double_sign(double_of(sign, exponent, fraction)) == sign,
        double_exponent(double_of(sign, exponent, fraction)) == exponent,
        double_fraction(double_of(sign, exponent, fraction)) == fraction,
{
}

/// Normalizing a subnormal significand `m` multiplies it by a power of two
/// that sets its bit 23, and lowers the exponent by that power.
pub proof fn lemma_normalized(m: nat, e: nat)
    requires
        0 < m < 0x100_0000,
        874 <= e <= 897,
        m >= pow2((897 - e) as nat),
    ensures
        0x80_0000 <= normalized(m, e).0 < 0x100_0000,
        874 <= normalized(m, e).1 <= e,
        normalized(m, e).0 == m * pow2((e - normalized(m, e).1) as nat),
    decreases e,
{
    lemma2_to64();
    if m >= 0x80_0000 {
        assert(normalized(m, e) == (m, e));
        assert(m == m * 1) by (nonlinear_arith);
    } else {
        if e == 874 {
            assert(pow2(23) == 0x80_0000);
        }
        lemma_pow2_unfold((897 - e + 1) as nat);
        lemma_normalized(2 * m, (e - 1) as nat);
        let (n, x) = normalized(2 * m, (e - 1) as nat);
        assert(normalized(m, e) == (n, x));
        let p = pow2((e - 1 - x) as nat);
        lemma_pow2_unfold((e - x) as nat);
        assert(pow2((e - x) as nat) == 2 * p);
        assert((2 * m) * p == m * (2 * p)) by (nonlinear_arith);
    }
}

/// Widening keeps the number: the double-precision pattern of a finite
/// single-precision pattern is finite, has the same sign, and its significand
/// and scale stand for the same product. Infinities stay infinities, and a
/// NaN stays a NaN.
pub proof fn lemma_widen_keeps_number(bits: u32)
    ensures
        widen(bits) <= u64::MAX,
        double_sign(widen(bits)) == single_sign(bits),
        single_exponent(bits) == 0xff <==> double_exponent(widen(bits)) == 0x7ff,
        single_exponent(bits) == 0xff ==> (single_fraction(bits) == 0 <==> double_fraction(
            widen(bits),
        ) == 0),
        single_exponent(bits) != 0xff ==> {
            &&& double_scale(widen(bits)) <= single_scale(bits)
            &&& double_significand(widen(bits)) == single_significand(bits) * pow2(
                (single_scale(bits) - double_scale(widen(bits))) as nat,
            )
        },
{
    let s = single_sign(bits);
    let e = single_exponent(bits);
    let f = single_fraction(bits);
    lemma2_to64();
    if e == 0xff {
        if f == 0 {
            lemma_double_fields(s, 0x7ff, 0);
        } else if f < 0x40_0000 {
            lemma_double_fields(s, 0x7ff, 0x8_0000_0000_0000 + f * 0x2000_0000);
        } else {
            lemma_double_fields(s, 0x7ff, f * 0x2000_0000);
        }
    } else if e == 0 {
        if f == 0 {
            lemma_double_fields(s, 0, 0);
            assert(0 == 0 * pow2(925)) by (nonlinear_arith);
        } else {
            lemma_normalized(f, 897);
            let (m, x) = normalized(f, 897);
            let fraction = ((m - 0x80_0000) * 0x2000_0000) as nat;
            let d = double_of(s, x, fraction);
            assert(widen(bits) == d);
            lemma_double_fields(s, x, fraction);
            assert(double_exponent(d) == x);
            assert(double_scale(d) == x - 1075);
            assert(single_scale(bits) == -149);
            let p = pow2((897 - x) as nat);
            lemma_pow2_adds((897 - x) as nat, 29);
            assert(pow2(29) == 0x2000_0000);
            assert(pow2((926 - x) as nat) == p * 0x2000_0000);
            assert(double_significand(d) == m * 0x2000_0000);
            assert(m == f * p);
            assert((f * p) * 0x2000_0000 == f * (p * 0x2000_0000)) by (nonlinear_arith);
        }
    } else {
        let d = double_of(s, e + 896, f * 0x2000_0000);
        assert(widen(bits) == d);
        lemma_double_fields(s, e + 896, f * 0x2000_0000);
        assert(pow2(29) == 0x2000_0000);
        assert(double_scale(d) == e + 896 - 1075);
        assert(single_scale(bits) == e - 150);
        assert(double_significand(d) == (0x80_0000 + f) * 0x2000_0000);
    }
}

} // verus!
