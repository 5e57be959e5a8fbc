//! Single-precision binary numbers, carried by their bit patterns.
//!
//! The pipeline's arithmetic is done elsewhere; what the pipeline *decides*
//! from a number (is it below zero, which of two is farther away) is decided
//! here, on the 32 bits of the number, and proved against the value those bits
//! stand for.
use vstd::arithmetic::power2::{lemma_pow2_pos, lemma_pow2_unfold, pow2};
use vstd::prelude::*;

verus! {

/// The bit that holds the sign.
pub const SIGN_BIT: u32 = 0x8000_0000;

/// The magnitude bits of an infinity; larger magnitudes are not numbers.
pub const INFINITY_MAGNITUDE: u32 = 0x7f80_0000;

/// Number of different fraction fields: two to the power 23.
pub const FRACTION_SPAN: u32 = 0x80_0000;

/// The order key of a value that is not a number: above every number's key.
pub const NAN_KEY: u32 = 0xffff_ffff;

/// A single-precision number: one sign bit, eight exponent bits and 23
/// fraction bits, most significant first.
#[derive(Clone, Copy, Debug, PartialEq, Eq, Structural)]
pub struct Single {
    pub bits: u32,
}

/// The magnitude, in units of two to the power -149, that the 31 low bits
/// `m` of a pattern stand for. Subnormal patterns count their fraction;
/// normal ones add the hidden bit and double once per exponent step. An
/// infinity gets the value that the next exponent step would have, which is
/// above every finite magnitude.
pub open spec fn magnitude_value(m: nat) -> nat {
    let e = m / (FRACTION_SPAN as nat);
    let f = m % (FRACTION_SPAN as nat);
    if e == 0 {
        f
    } else {
        (FRACTION_SPAN as nat + f) * pow2((e - 1) as nat)
    }
}

impl Single {
    /// The sign bit is set.
    pub open spec fn sign(self) -> bool {
        self.bits >= SIGN_BIT
    }

    /// The 31 bits below the sign bit.
    pub open spec fn magnitude(self) -> nat {
        if self.bits >= SIGN_BIT {
            (self.bits - SIGN_BIT) as nat
        } else {
            self.bits as nat
        }
    }

    /// The pattern stands for no number.
    pub open spec fn nan(self) -> bool {
        self.magnitude() > INFINITY_MAGNITUDE
    }

    /// The number times two to the power 149, which is an integer for every
    /// finite pattern. Both zeros have the value 0. Meaningful only where
    /// `nan()` is false.
    pub open spec fn value(self) -> int {
        if self.sign() {
            -(magnitude_value(self.magnitude()) as int)
        } else {
            magnitude_value(self.magnitude()) as int
        }
    }

    /// The number is strictly below zero.
    pub open spec fn below_zero(self) -> bool {
        !self.nan() && self.value() < 0
    }

    /// An integer that orders patterns as their values are ordered, with
    /// everything that is not a number on top.
    pub open spec fn key(self) -> u32 {
        if self.nan() {
            NAN_KEY
        } else if self.sign() {
            (SIGN_BIT - self.magnitude()) as u32
        } else {
            (SIGN_BIT + self.magnitude()) as u32
        }
    }

    /// Wraps a bit pattern.
    pub fn from_bits(bits: u32) -> (r: Single)
        ensures
            r.bits == bits,
    {
        Single { bits }
    }

    /// The bit pattern.
    pub fn to_bits(self) -> (r: u32)
        ensures
            r == self.bits,
    {
        self.bits
    }

    /// Positive zero.
    pub fn zero() -> (r: Single)
        ensures
            r.bits == 0,
            !r.nan(),
            r.value() == 0,
    {
        Single { bits: 0 }
    }

    /// The number one.
    pub fn one() -> (r: Single)
        ensures
            r.bits == 0x3f80_0000,
            !r.nan(),
            r.value() == pow2(149),
    {
        proof {
            lemma_value_of_one();
        }
        Single { bits: 0x3f80_0000 }
    }

    /// The 31 bits below the sign bit.
    pub fn magnitude_bits(self) -> (r: u32)
        ensures
            r == self.magnitude(),
            r < SIGN_BIT,
    {
        if self.bits >= SIGN_BIT {
            self.bits - SIGN_BIT
        } else {
            self.bits
        }
    }

    /// Whether the pattern stands for no number.
    pub fn is_nan(self) -> (r: bool)
        ensures
            r == self.nan(),
    {
        self.magnitude_bits() > INFINITY_MAGNITUDE
    }

    /// Whether the number is strictly below zero. Neither zero is, and
    /// nothing that is not a number is.
    pub fn is_below_zero(self) -> (r: bool)
        ensures
            r == self.below_zero(),
    {
        proof {
            lemma_magnitude_value_zero(self.magnitude());
        }
        let m = self.magnitude_bits();
        self.bits >= SIGN_BIT && 0 < m && m <= INFINITY_MAGNITUDE
    }

    /// The order key: for numbers `a` and `b`, `a` is below `b` exactly when
    /// `a`'s key is below `b`'s (see `lemma_key_orders_values`).
    pub fn order_key(self) -> (r: u32)
        ensures
            r == self.key(),
    {
        let m = self.magnitude_bits();
        if m > INFINITY_MAGNITUDE {
            NAN_KEY
        } else if self.bits >= SIGN_BIT {
            SIGN_BIT - m
        } else {
            SIGN_BIT + m
        }
    }

    /// Whether `self` is a number strictly below the number `other`. False
    /// as soon as one of the two is not a number.
    pub fn is_below(self, other: Single) -> (r: bool)
        ensures
            r == (!self.nan() && !other.nan() && self.value() < other.value()),
    {
        proof {
            if !self.nan() && !other.nan() {
                lemma_key_orders_values(self, other);
            }
        }
        !self.is_nan() && !other.is_nan() && self.order_key() < other.order_key()
    }
}

/// Only the all-zero magnitude stands for zero.
pub proof fn lemma_magnitude_value_zero(m: nat)
    ensures
        magnitude_value(m) == 0 <==> m == 0,
{
    let e = m / (FRACTION_SPAN as nat);
    let f = m % (FRACTION_SPAN as nat);
    if e != 0 {
        lemma_pow2_pos((e - 1) as nat);
        assert((FRACTION_SPAN as nat + f) * pow2((e - 1) as nat) > 0) by (nonlinear_arith)
            requires
                pow2((e - 1) as nat) > 0,
        ;
    }
}

/// The next magnitude pattern stands for a larger magnitude.
proof fn lemma_magnitude_value_step(m: nat)
    ensures
        magnitude_value(m) < magnitude_value(m + 1),
{
    let span = FRACTION_SPAN as nat;
    let e = m / span;
    let f = m % span;
    if f + 1 < span {
        assert((m + 1) / span == e && (m + 1) % span == f + 1) by (nonlinear_arith)
            requires
                e == m / span,
                f == m % span,
                f + 1 < span,
                span == 0x80_0000,
        ;
        if e != 0 {
            let p = pow2((e - 1) as nat);
            lemma_pow2_pos((e - 1) as nat);
            assert((span + f) * p < (span + f + 1) * p) by (nonlinear_arith)
                requires
                    p > 0,
            ;
        }
    } else {
        assert((m + 1) / span == e + 1 && (m + 1) % span == 0) by (nonlinear_arith)
            requires
                e == m / span,
                f == m % span,
                f + 1 == span,
                span == 0x80_0000,
        ;
        if e == 0 {
            lemma_pow2_unfold(1);
            assert(pow2(0) == 1) by {
                vstd::arithmetic::power2::lemma2_to64();
            }
        } else {
            let p = pow2((e - 1) as nat);
            lemma_pow2_unfold(e);
            lemma_pow2_pos((e - 1) as nat);
            assert(pow2(e) == 2 * p);
            assert((span + f) * p < span * (2 * p)) by (nonlinear_arith)
                requires
                    p > 0,
                    f + 1 == span,
                    span == 0x80_0000,
            ;
        }
    }
}

/// Larger magnitude patterns stand for larger magnitudes.
pub proof fn lemma_magnitude_value_increases(m1: nat, m2: nat)
    requires
        m1 < m2,
    ensures
        magnitude_value(m1) < magnitude_value(m2),
    decreases m2 - m1,
{
    if m1 + 1 < m2 {
        lemma_magnitude_value_increases(m1, (m2 - 1) as nat);
    }
    lemma_magnitude_value_step((m2 - 1) as nat);
}

/// The pattern `0x3f80_0000` stands for one: two to the power 149 of the
/// units in which values are counted.
pub proof fn lemma_value_of_one()
    ensures
        !(Single { bits: 0x3f80_0000 }).nan(),
        (Single { bits: 0x3f80_0000 }).value() == pow2(149),
{
    let m: nat = 0x3f80_0000;
    assert(m / (FRACTION_SPAN as nat) == 127 && m % (FRACTION_SPAN as nat) == 0);
    vstd::arithmetic::power2::lemma_pow2_adds(23, 126);
    vstd::arithmetic::power2::lemma2_to64();
    assert(pow2(23) == 0x80_0000);
}

/// Keys order numbers as their values do: of two numbers, the one with the
/// smaller value has the smaller key, and equal values have equal keys. So
/// the two zeros share a key.
pub proof fn lemma_key_orders_values(a: Single, b: Single)
    requires
        !a.nan(),
        !b.nan(),
    ensures
        a.key() < b.key() <==> a.value() < b.value(),
        a.key() == b.key() <==> a.value() == b.value(),
{
    let ma = a.magnitude();
    let mb = b.magnitude();
    lemma_magnitude_value_zero(ma);
    lemma_magnitude_value_zero(mb);
    if ma < mb {
        lemma_magnitude_value_increases(ma, mb);
    } else if mb < ma {
        lemma_magnitude_value_increases(mb, ma);
    }
}

/// What is not a number has the largest key of all.
pub proof fn lemma_nan_key_is_largest(a: Single, b: Single)
    requires
        a.nan(),
    ensures
        b.key() <= a.key(),
        !b.nan() ==> b.key() < a.key(),
{
}

} // verus!
