//! IEEE-754 single-precision numbers, held as bit patterns.
//!
//! A [`Single`] is the 32-bit pattern of a binary32 number: one sign bit,
//! eight exponent bits, twenty-three fraction bits. Its mathematical value is
//! modelled by [`Single::scaled`], the number multiplied by 2^150, which is an
//! integer for every finite single. Sums and halves are stated over that
//! model: the exact result, rounded to nearest with ties to even.
use crate::rounding::{
    lemma_absorbed_above, lemma_absorbed_below, lemma_body_on_grid, lemma_decode,
    lemma_magnitude_increases, lemma_nearest, lemma_nearest_in_cell, lemma_zero, magnitude_of,
    mantissa_of, nearest_body, pack, scale_of, split, HIDDEN_BIT, INFINITY_BODY,
};
use vstd::arithmetic::power2::{
    lemma2_to64, lemma_pow2_adds, lemma_pow2_pos, lemma_pow2_strictly_increases,
    lemma_pow2_unfold, pow2,
};
use vstd::prelude::*;

verus! {

/// The sign bit of a pattern.
pub const SIGN_BIT: u32 = 0x8000_0000;

/// The pattern that every operation returns for "not a number".
pub const NAN_BITS: u32 = 0x7fc0_0000;

/// Operands whose scales differ by this much or more do not meet: the sum is
/// the larger operand.
pub const REACH: u32 = 32;

/// A single-precision number, as its bit pattern.
#[derive(Clone, Copy, Debug)]
pub struct Single {
    pub bits: u32,
}

impl Single {
    /// Whether the sign bit is set.
    pub open spec fn sign(self) -> bool {
        self.bits >= SIGN_BIT
    }

    /// The pattern without its sign bit: exponent and fraction fields.
    pub open spec fn body(self) -> nat {
        (self.bits % SIGN_BIT) as nat
    }

    /// Whether the pattern is no number: all exponent bits set, and some
    /// fraction bit.
    pub open spec fn is_nan(self) -> bool {
        self.body() > INFINITY_BODY
    }

    /// Whether the pattern is one of the two infinities.
    pub open spec fn is_infinite(self) -> bool {
        self.body() == INFINITY_BODY
    }

    /// Whether the pattern is a number: a zero, a subnormal or a normal.
    pub open spec fn is_finite(self) -> bool {
        self.body() < INFINITY_BODY
    }

    /// Absolute value in units of 2^-150. An infinity counts as 2^278, which
    /// lies above every finite magnitude.
    pub open spec fn magnitude(self) -> nat {
        magnitude_of(self.body())
    }

    /// The value in units of 2^-150.
    pub open spec fn scaled(self) -> int {
        if self.sign() {
            -(self.magnitude() as int)
        } else {
            self.magnitude() as int
        }
    }

    /// The body bits, counted below zero for a pattern with the sign bit.
    pub open spec fn key(self) -> int {
        if self.sign() {
            -(self.body() as int)
        } else {
            self.body() as int
        }
    }

    /// The single with the given sign and body bits.
    pub open spec fn compose(negative: bool, body: nat) -> Single {
        Single {
            bits: (if negative {
                SIGN_BIT + body
            } else {
                body as int
            }) as u32,
        }
    }

    /// The single nearest to the magnitude `n`, with the given sign.
    pub open spec fn nearest(negative: bool, n: nat) -> Single {
        Single::compose(negative, nearest_body(n))
    }

    /// The pattern returned where no number results.
    pub open spec fn nan() -> Single {
        Single { bits: NAN_BITS }
    }

    /// The same number with the opposite sign: only the sign bit changes.
    pub open spec fn spec_neg(self) -> Single {
        Single::compose(!self.sign(), self.body())
    }

    /// The sum, rounded to nearest with ties to even.
    ///
    /// A sum with a NaN, or of two infinities of opposite sign, is NaN. An
    /// exact sum of zero is negative only if both operands are.
    pub open spec fn spec_plus(self, rhs: Single) -> Single {
        if self.is_nan() || rhs.is_nan() {
            Single::nan()
        } else if self.is_infinite() {
            if rhs.is_infinite() && self.sign() != rhs.sign() {
                Single::nan()
            } else {
                self
            }
        } else if rhs.is_infinite() {
            rhs
        } else {
            let exact = self.scaled() + rhs.scaled();
            if exact == 0 {
                Single::compose(self.sign() && rhs.sign(), 0)
            } else if exact < 0 {
                Single::nearest(true, (-exact) as nat)
            } else {
                Single::nearest(false, exact as nat)
            }
        }
    }

    /// The difference: the sum with the negated right operand.
    pub open spec fn spec_minus(self, rhs: Single) -> Single {
        self.spec_plus(rhs.spec_neg())
    }

    /// The half, rounded to nearest with ties to even. Only a subnormal
    /// result can be inexact.
    pub open spec fn spec_half(self) -> Single {
        if self.is_nan() {
            Single::nan()
        } else if self.is_infinite() {
            self
        } else {
            Single::nearest(self.sign(), self.magnitude() / 2)
        }
    }

    /// Numeric `<=`: false if either side is NaN; the two zeros are equal.
    pub open spec fn spec_le(self, rhs: Single) -> bool {
        !self.is_nan() && !rhs.is_nan() && self.scaled() <= rhs.scaled()
    }

    /// Numeric `>=`.
    pub open spec fn spec_ge(self, rhs: Single) -> bool {
        rhs.spec_le(self)
    }

    /// Numeric `<`: false if either side is NaN.
    pub open spec fn spec_lt(self, rhs: Single) -> bool {
        !self.is_nan() && !rhs.is_nan() && self.scaled() < rhs.scaled()
    }

    /// The four bytes of the pattern, least significant first.
    pub open spec fn le_bytes(self) -> Seq<u8> {
        seq![
            (self.bits % 0x100) as u8,
            (self.bits / 0x100 % 0x100) as u8,
            (self.bits / 0x1_0000 % 0x100) as u8,
            (self.bits / 0x100_0000) as u8,
        ]
    }

    /// The single that four little-endian bytes denote.
    pub open spec fn spec_from_le_bytes(bytes: Seq<u8>) -> Single
        recommends
            bytes.len() == 4,
    {
        Single {
            bits: (bytes[0] + bytes[1] * 0x100 + bytes[2] * 0x1_0000 + bytes[3] * 0x100_0000) as u32,
        }
    }

    /// Positive zero.
    pub fn zero() -> (out: Single)
        ensures
            out.bits == 0,
    {
        Single { bits: 0 }
    }

    /// The single with the given pattern.
    pub fn from_bits(bits: u32) -> (out: Single)
        ensures
            out.bits == bits,
    {
        Single { bits }
    }

    /// The pattern.
    pub fn to_bits(self) -> (bits: u32)
        ensures
            bits == self.bits,
    {
        self.bits
    }

    /// Flips the sign bit.
    pub fn negate(self) -> (out: Single)
        ensures
            out == self.spec_neg(),
    {
        if self.bits >= SIGN_BIT {
            Single { bits: self.bits - SIGN_BIT }
        } else {
            Single { bits: self.bits + SIGN_BIT }
        }
    }

    /// Numeric `<=`.
    pub fn le(self, rhs: Single) -> (out: bool)
        ensures
            out == self.spec_le(rhs),
    {
        let a: u32 = self.bits % SIGN_BIT;
        let b: u32 = rhs.bits % SIGN_BIT;
        if a > INFINITY_BODY || b > INFINITY_BODY {
            return false;
        }
        proof {
            lemma_order(self, rhs);
        }
        let ka: i64 = if self.bits >= SIGN_BIT {
            -(a as i64)
        } else {
            a as i64
        };
        let kb: i64 = if rhs.bits >= SIGN_BIT {
            -(b as i64)
        } else {
            b as i64
        };
        ka <= kb
    }

    /// Numeric `>=`.
    pub fn ge(self, rhs: Single) -> (out: bool)
        ensures
            out == self.spec_ge(rhs),
    {
        rhs.le(self)
    }

    /// The half, rounded to nearest with ties to even.
    pub fn half(self) -> (out: Single)
        ensures
            out == self.spec_half(),
    {
        let body: u32 = self.bits % SIGN_BIT;
        if body > INFINITY_BODY {
            return Single { bits: NAN_BITS };
        }
        if body == INFINITY_BODY {
            return self;
        }
        proof {
            lemma2_to64();
        }
        if body >= 2 * HIDDEN_BIT {
            proof {
                let e = scale_of(self.body());
                let k = mantissa_of(self.body());
                lemma_body_on_grid(self.body());
                lemma_pow2_unfold(e);
                lemma_pow2_pos((e - 1) as nat);
                let h = pow2((e - 1) as nat);
                assert((k * (2 * h)) / 2 == k * h) by (nonlinear_arith);
                lemma_nearest_in_cell(k * h, (e - 1) as nat, k, 0);
            }
            Single { bits: self.bits - HIDDEN_BIT }
        } else {
            let k: u32 = body / 2;
            let up: bool = body % 2 == 1 && k % 2 == 1;
            proof {
                assert(self.magnitude() == 2 * body) by {
                    lemma_body_on_grid(self.body());
                    assert(mantissa_of(self.body()) * pow2(1) == 2 * mantissa_of(self.body()))
                        by (nonlinear_arith)
                        requires
                            pow2(1) == 2,
                    ;
                }
                lemma_nearest_in_cell(body as nat, 1, k as nat, (body % 2) as nat);
            }
            if up {
                Single { bits: self.bits - body + k + 1 }
            } else {
                Single { bits: self.bits - body + k }
            }
        }
    }

    /// The sum, rounded to nearest with ties to even.
    pub fn plus(self, rhs: Single) -> (out: Single)
        ensures
            out == self.spec_plus(rhs),
    {
        let a: u32 = self.bits % SIGN_BIT;
        let b: u32 = rhs.bits % SIGN_BIT;
        if a > INFINITY_BODY || b > INFINITY_BODY {
            Single { bits: NAN_BITS }
        } else if a == INFINITY_BODY {
            if b == INFINITY_BODY && (self.bits >= SIGN_BIT) != (rhs.bits >= SIGN_BIT) {
                Single { bits: NAN_BITS }
            } else {
                self
            }
        } else if b == INFINITY_BODY {
            rhs
        } else if a >= b {
            combine(self, rhs)
        } else {
            combine(rhs, self)
        }
    }

    /// The difference, rounded to nearest with ties to even.
    pub fn minus(self, rhs: Single) -> (out: Single)
        ensures
            out == self.spec_minus(rhs),
    {
        self.plus(rhs.negate())
    }

    /// The pattern as four bytes, least significant first.
    pub fn to_le_bytes(self) -> (out: [u8; 4])
        ensures
            out@ == self.le_bytes(),
    {
        let b0: u8 = (self.bits % 0x100) as u8;
        let b1: u8 = (self.bits / 0x100 % 0x100) as u8;
        let b2: u8 = (self.bits / 0x1_0000 % 0x100) as u8;
        let b3: u8 = (self.bits / 0x100_0000) as u8;
        let out: [u8; 4] = [b0, b1, b2, b3];
        assert(out@ =~= self.le_bytes());
        out
    }
}

/// Two to the power `d`.
fn power_of_two(d: u32) -> (p: u64)
    requires
        d < REACH,
    ensures
        p == pow2(d as nat),
        p <= 0x8000_0000,
{
    proof {
        lemma2_to64();
        if d < 31 {
            lemma_pow2_strictly_increases(d as nat, 31);
        }
        vstd::bits::lemma_u64_shl_is_mul(1, d as u64);
    }
    1u64 << (d as u64)
}

/// Sum of two finite singles, the first not smaller in magnitude.
fn combine(big: Single, small: Single) -> (out: Single)
    requires
        big.is_finite(),
        small.is_finite(),
        big.body() >= small.body(),
    ensures
        out == big.spec_plus(small),
        out == small.spec_plus(big),
{
    let big_body: u32 = big.bits % SIGN_BIT;
    let small_body: u32 = small.bits % SIGN_BIT;
    let negative: bool = big.bits >= SIGN_BIT;
    let same: bool = negative == (small.bits >= SIGN_BIT);
    if !same && big_body == small_body {
        return Single { bits: 0 };
    }
    let (mb, eb) = split(big_body);
    let (ms, es) = split(small_body);
    let ghost upper: nat = big.magnitude();
    let ghost lower: nat = small.magnitude();
    proof {
        lemma_zero();
        if big_body > small_body {
            lemma_magnitude_increases(small_body as nat, big_body as nat);
        }
        lemma_pow2_pos(es as nat);
        lemma_pow2_pos(eb as nat);
    }
    let d: u32 = eb - es;
    if d >= REACH {
        proof {
            lemma2_to64();
            lemma_pow2_adds(32, es as nat);
            if d > 32 {
                lemma_pow2_strictly_increases((es + 32) as nat, eb as nat);
            }
            assert(256 * lower < pow2(eb as nat)) by (nonlinear_arith)
                requires
                    lower == ms * pow2(es as nat),
                    ms < 0x100_0000,
                    pow2(es as nat) > 0,
                    pow2(eb as nat) >= 0x1_0000_0000 * pow2(es as nat),
            ;
            if same || lower == 0 {
                lemma_absorbed_above(mb as nat, eb as nat, lower);
            } else {
                lemma_absorbed_below(mb as nat, eb as nat, lower);
            }
        }
        return big;
    }
    let p: u64 = power_of_two(d);
    proof {
        lemma_pow2_adds(d as nat, es as nat);
        assert(upper == (mb * p) * pow2(es as nat)) by (nonlinear_arith)
            requires
                upper == mb * pow2(eb as nat),
                pow2(eb as nat) == p * pow2(es as nat),
        ;
        assert(mb * p < 0x80_0000_0000_0000) by (nonlinear_arith)
            requires
                mb < 0x100_0000,
                p <= 0x8000_0000,
        ;
        assert(mb * p >= ms && (upper > lower ==> mb * p > ms)) by (nonlinear_arith)
            requires
                upper == (mb * p) * pow2(es as nat),
                lower == ms * pow2(es as nat),
                upper >= lower,
                pow2(es as nat) > 0,
        ;
    }
    let m: u64 = if same {
        mb * p + ms
    } else {
        mb * p - ms
    };
    proof {
        assert(m * pow2(es as nat) == (if same {
            (upper + lower) as int
        } else {
            upper - lower
        })) by (nonlinear_arith)
            requires
                upper == (mb * p) * pow2(es as nat),
                lower == ms * pow2(es as nat),
                m == (if same {
                    mb * p + ms
                } else {
                    mb * p - ms
                }),
        ;
    }
    let body: u32 = pack(m, es);
    if negative {
        Single { bits: SIGN_BIT + body }
    } else {
        Single { bits: body }
    }
}

/// Singles compare as their signed body bits do: within one sign the
/// patterns grow with the magnitude.
pub proof fn lemma_order(a: Single, b: Single)
    ensures
        (a.key() <= b.key()) == (a.scaled() <= b.scaled()),
        (a.key() < b.key()) == (a.scaled() < b.scaled()),
{
    lemma_zero();
    if a.body() < b.body() {
        lemma_magnitude_increases(a.body(), b.body());
    }
    if b.body() < a.body() {
        lemma_magnitude_increases(b.body(), a.body());
    }
    if 0 < a.body() {
        lemma_magnitude_increases(0, a.body());
    }
    if 0 < b.body() {
        lemma_magnitude_increases(0, b.body());
    }
}

/// Negation mirrors the value and keeps the body bits, so it keeps the kind
/// of the number as well.
pub proof fn lemma_neg(x: Single)
    ensures
        x.spec_neg().body() == x.body(),
        x.spec_neg().sign() == !x.sign(),
        x.spec_neg().scaled() == -x.scaled(),
        x.spec_neg().spec_neg() == x,
{
}

/// The sum of two finite singles is a single or an infinity, taking an
/// infinity for 2^128, and no other is nearer to the exact sum. Where
/// another value is as near, the sum is the one whose last fraction bit is
/// clear.
pub proof fn lemma_plus_is_nearest(a: Single, b: Single, other: Single)
    requires
        a.is_finite(),
        b.is_finite(),
        !other.is_nan(),
    ensures
        !a.spec_plus(b).is_nan(),
        vstd::math::abs(a.spec_plus(b).scaled() - (a.scaled() + b.scaled())) <= vstd::math::abs(
            other.scaled() - (a.scaled() + b.scaled()),
        ),
        vstd::math::abs(a.spec_plus(b).scaled() - (a.scaled() + b.scaled())) == vstd::math::abs(
            other.scaled() - (a.scaled() + b.scaled()),
        ) && other.scaled() != a.spec_plus(b).scaled() ==> a.spec_plus(b).bits % 2 == 0,
{
    let exact = a.scaled() + b.scaled();
    lemma_zero();
    if exact != 0 {
        let n = vstd::math::abs(exact) as nat;
        lemma_nearest(n, other.body());
        lemma_nearest(n, 0);
    }
}

/// The half of a finite single is a single, and no other is nearer to the
/// exact half. Where another value is as near, the half is the one whose last
/// fraction bit is clear. From the second binade on the half is exact.
pub proof fn lemma_half_is_nearest(x: Single, other: Single)
    requires
        x.is_finite(),
        !other.is_nan(),
    ensures
        x.spec_half().is_finite(),
        x.spec_half().sign() == x.sign(),
        vstd::math::abs(2 * x.spec_half().scaled() - x.scaled()) <= vstd::math::abs(
            2 * other.scaled() - x.scaled(),
        ),
        vstd::math::abs(2 * x.spec_half().scaled() - x.scaled()) == vstd::math::abs(
            2 * other.scaled() - x.scaled(),
        ) && other.scaled() != x.spec_half().scaled() ==> x.spec_half().bits % 2 == 0,
        x.body() >= 2 * HIDDEN_BIT ==> 2 * x.spec_half().scaled() == x.scaled(),
{
    let k = mantissa_of(x.body());
    let e = scale_of(x.body());
    lemma_body_on_grid(x.body());
    lemma_pow2_unfold(e);
    let h = pow2((e - 1) as nat);
    let n = k * h;
    assert(k * (2 * h) == 2 * n && (2 * n) / 2 == n) by (nonlinear_arith)
        requires
            n == k * h,
    ;
    lemma_zero();
    lemma_nearest(n, other.body());
    lemma_nearest(n, x.body());
    lemma_nearest(n, 0);
    lemma_magnitude_increases(x.body(), INFINITY_BODY as nat);
    lemma_magnitude_increases(nearest_body(n), INFINITY_BODY as nat);
    if x.body() >= 2 * HIDDEN_BIT {
        lemma_pow2_pos((e - 1) as nat);
        lemma_nearest_in_cell(n, (e - 1) as nat, k, 0);
        lemma_decode(k, (e - 1) as nat);
    }
}

/// Rounding a sum does not carry it across a single: a single that the
/// exact sum of two finite singles does not exceed, the rounded sum does not
/// exceed either, and likewise from below.
pub proof fn lemma_plus_keeps_side(a: Single, b: Single, bound: Single)
    requires
        a.is_finite(),
        b.is_finite(),
        !bound.is_nan(),
    ensures
        !a.spec_plus(b).is_nan(),
        a.scaled() + b.scaled() <= bound.scaled() ==> a.spec_plus(b).scaled() <= bound.scaled(),
        a.scaled() + b.scaled() >= bound.scaled() ==> a.spec_plus(b).scaled() >= bound.scaled(),
{
    let exact = a.scaled() + b.scaled();
    lemma_zero();
    if exact != 0 {
        let n = vstd::math::abs(exact) as nat;
        lemma_nearest(n, bound.body());
        lemma_nearest(n, 0);
    }
}

/// Decoding the four bytes of a single gives the single back.
pub proof fn lemma_le_bytes_round_trip(x: Single)
    ensures
        x.le_bytes().len() == 4,
        Single::spec_from_le_bytes(x.le_bytes()) == x,
{
    let b = x.bits as int;
    let b0 = b % 0x100;
    let b1 = b / 0x100 % 0x100;
    let b2 = b / 0x1_0000 % 0x100;
    let b3 = b / 0x100_0000;
    assert(b == b0 + b1 * 0x100 + b2 * 0x1_0000 + b3 * 0x100_0000) by {
        let c = b / 0x100;
        let d = c / 0x100;
        assert(d == b / 0x1_0000);
        assert(d / 0x100 == b / 0x100_0000);
        assert(b == b0 + c * 0x100);
        assert(c == b1 + d * 0x100);
        assert(d == b2 + b3 * 0x100);
    }
    let bytes = x.le_bytes();
    assert(bytes[0] == b0 && bytes[1] == b1 && bytes[2] == b2 && bytes[3] == b3);
}

} // verus!
