//! IEEE single-precision numbers, held as their bit patterns.
//!
//! The arithmetic is written in whole numbers and proved to round exactly once, to nearest and
//! ties to even, so that its results are the hardware's, bit for bit.  A result that is not a
//! number is always the one quiet pattern `NAN`.
use vstd::arithmetic::div_mod::*;
use vstd::arithmetic::mul::*;
use vstd::arithmetic::power2::*;
use vstd::prelude::*;

use crate::rounding::{
    lemma_half_even_whole, lemma_round_at, lemma_round_same, lemma_round_sticky, round_bits,
    round_to_bits, with_sticky, INFINITY_BITS,
};

verus! {

/// The weight of the sign bit.
pub const SIGN_BIT: u32 = 0x8000_0000;

/// The pattern of a result that is not a number.
pub const NAN_BITS: u32 = 0x7fc0_0000;

/// A single-precision number.  Every bit pattern is one.
#[derive(Debug, Clone, Copy, PartialEq, Eq, Structural)]
pub struct Single {
    pub bits: u32,
}

/// The number with the given sign and magnitude bits; magnitudes from infinity up are infinite.
pub open spec fn pack(neg: bool, mag: nat) -> Single {
    Single {
        bits: ((if neg {
            SIGN_BIT as int
        } else {
            0
        }) + (if mag < INFINITY_BITS {
            mag as int
        } else {
            INFINITY_BITS as int
        })) as u32,
    }
}

/// The pattern of a result that is not a number.
pub open spec fn not_a_number() -> Single {
    Single { bits: NAN_BITS }
}

impl Single {
    pub open spec fn neg(self) -> bool {
        self.bits >= SIGN_BIT
    }

    /// The bits without the sign.
    pub open spec fn mag(self) -> nat {
        if self.bits >= SIGN_BIT {
            (self.bits - SIGN_BIT) as nat
        } else {
            self.bits as nat
        }
    }

    pub open spec fn is_nan(self) -> bool {
        self.mag() > INFINITY_BITS
    }

    pub open spec fn is_infinite(self) -> bool {
        self.mag() == INFINITY_BITS
    }

    pub open spec fn is_finite(self) -> bool {
        self.mag() < INFINITY_BITS
    }

    /// The power of two by which the significand is scaled.
    pub open spec fn exponent(self) -> nat {
        if self.mag() < 0x80_0000 {
            0
        } else {
            (self.mag() / 0x80_0000 - 1) as nat
        }
    }

    pub open spec fn significand(self) -> nat {
        (self.mag() - self.exponent() * 0x80_0000) as nat
    }

    /// The absolute value of a finite number, in units of the smallest positive number.
    pub open spec fn units(self) -> nat {
        self.significand() * pow2(self.exponent())
    }

    /// The value of a finite number, in units of the smallest positive number.
    pub open spec fn value(self) -> int {
        if self.neg() {
            -(self.units() as int)
        } else {
            self.units() as int
        }
    }

    /// A whole number that orders the numbers as their values do.
    pub open spec fn key(self) -> int {
        if self.neg() {
            -(self.mag() as int)
        } else {
            self.mag() as int
        }
    }
}

pub open spec fn lt(a: Single, b: Single) -> bool {
    !a.is_nan() && !b.is_nan() && a.key() < b.key()
}

pub open spec fn le(a: Single, b: Single) -> bool {
    !a.is_nan() && !b.is_nan() && a.key() <= b.key()
}

/// Equality of numbers: the zeros are equal, and what is not a number equals nothing.
pub open spec fn same(a: Single, b: Single) -> bool {
    !a.is_nan() && !b.is_nan() && a.key() == b.key()
}

pub open spec fn negated(a: Single) -> Single {
    Single {
        bits: if a.bits >= SIGN_BIT {
            (a.bits - SIGN_BIT) as u32
        } else {
            (a.bits + SIGN_BIT) as u32
        },
    }
}

pub open spec fn absolute(a: Single) -> Single {
    Single { bits: a.mag() as u32 }
}

/// The sum, rounded once.
#[verifier::opaque]
pub open spec fn sum(a: Single, b: Single) -> Single {
    if a.is_nan() || b.is_nan() || (a.is_infinite() && b.is_infinite() && a.neg() != b.neg()) {
        not_a_number()
    } else if a.is_infinite() {
        a
    } else if b.is_infinite() {
        b
    } else {
        let v = a.value() + b.value();
        if v == 0 {
            pack(a.neg() && b.neg(), 0)
        } else {
            pack(v < 0, round_bits(vstd::math::abs(v), 1))
        }
    }
}

pub open spec fn difference(a: Single, b: Single) -> Single {
    sum(a, negated(b))
}

/// The product, rounded once.
#[verifier::opaque]
pub open spec fn product(a: Single, b: Single) -> Single {
    if a.is_nan() || b.is_nan() || (a.is_infinite() && b.mag() == 0) || (b.is_infinite()
        && a.mag() == 0) {
        not_a_number()
    } else if a.is_infinite() || b.is_infinite() {
        pack(a.neg() != b.neg(), INFINITY_BITS as nat)
    } else {
        pack(a.neg() != b.neg(), round_bits(a.units() * b.units(), pow2(149)))
    }
}

/// The quotient, rounded once.
#[verifier::opaque]
pub open spec fn quotient(a: Single, b: Single) -> Single {
    if a.is_nan() || b.is_nan() || (a.is_infinite() && b.is_infinite()) || (a.mag() == 0 && b.mag()
        == 0) {
        not_a_number()
    } else if a.is_infinite() || b.mag() == 0 {
        pack(a.neg() != b.neg(), INFINITY_BITS as nat)
    } else if b.is_infinite() {
        pack(a.neg() != b.neg(), 0)
    } else {
        pack(a.neg() != b.neg(), round_bits(a.units() * pow2(149), b.units()))
    }
}

/// `r` is the integral part of the square root of `x`.
pub open spec fn is_whole_root(r: nat, x: nat) -> bool {
    r * r <= x < (r + 1) * (r + 1)
}

/// The integral part of the square root of `x`.
pub open spec fn whole_root(x: nat) -> nat {
    choose|r: nat| is_whole_root(r, x)
}

/// The square root, rounded once: the digits below the integral part of the root in units count
/// only through whether there are any.
#[verifier::opaque]
pub open spec fn root(a: Single) -> Single {
    if a.is_nan() || (a.neg() && a.mag() != 0) {
        not_a_number()
    } else if a.is_infinite() || a.mag() == 0 {
        a
    } else {
        let x = a.units() * pow2(149);
        let r = whole_root(x);
        pack(
            false,
            round_bits(
                2 * r + if r * r == x {
                    0nat
                } else {
                    1nat
                },
                2,
            ),
        )
    }
}

/// The exact remainder of a division that cuts towards zero; it has the dividend's sign.
#[verifier::opaque]
pub open spec fn remainder(a: Single, b: Single) -> Single {
    if a.is_nan() || b.is_nan() || a.is_infinite() || b.mag() == 0 {
        not_a_number()
    } else if b.is_infinite() {
        a
    } else {
        pack(a.neg(), round_bits(a.units() % b.units(), 1))
    }
}

pub open spec fn zero() -> Single {
    Single { bits: 0 }
}

/// The remainder moved into the range from zero to the divisor.
pub open spec fn wrapped(a: Single, b: Single) -> Single {
    let r = remainder(a, b);
    if lt(r, zero()) {
        sum(r, absolute(b))
    } else {
        r
    }
}

/// The lesser number; where one is not a number, the other.
pub open spec fn lesser(a: Single, b: Single) -> Single {
    if lt(b, a) || a.is_nan() {
        b
    } else {
        a
    }
}

/// The greater number; where one is not a number, the other.
pub open spec fn greater(a: Single, b: Single) -> Single {
    if lt(a, b) || a.is_nan() {
        b
    } else {
        a
    }
}

pub open spec fn clamped(a: Single, low: Single, high: Single) -> Single {
    if lt(a, low) {
        low
    } else if lt(high, a) {
        high
    } else {
        a
    }
}

/// The number nearest to a whole number.
#[verifier::opaque]
pub open spec fn from_whole(n: int) -> Single {
    pack(n < 0, round_bits(vstd::math::abs(n) * pow2(149), 1))
}

/// The number nearest to a fraction of whole numbers, each of which is itself a number.
pub open spec fn from_fraction(n: int, d: int) -> Single {
    quotient(from_whole(n), from_whole(d))
}

/// A number is what its units round to.
pub proof fn lemma_units_round(a: Single)
    requires
        a.is_finite(),
    ensures
        round_bits(a.units(), 1) == a.mag(),
        a.significand() < 0x100_0000,
        a.exponent() > 0 ==> a.significand() >= 0x80_0000,
        a.exponent() <= 253,
        a.mag() == a.exponent() * 0x80_0000 + a.significand(),
        a.units() == 0 <==> a.mag() == 0,
{
    let m = a.significand();
    let e = a.exponent();
    lemma_pow2_pos(e);
    lemma2_to64();
    lemma_pow2_adds(24, e);
    assert(m * pow2(e) < 0x100_0000 * pow2(e)) by (nonlinear_arith)
        requires
            m < 0x100_0000,
            pow2(e) > 0,
    ;
    if e > 0 {
        lemma_pow2_adds(23, e);
        assert(m * pow2(e) >= 0x80_0000 * pow2(e)) by (nonlinear_arith)
            requires
                m >= 0x80_0000,
    ;
    }
    assert(1 * pow2(24 + e) == pow2(24 + e));
    assert(1 * pow2(e) == pow2(e));
    lemma_round_at(m * pow2(e), 1, e);
    lemma_half_even_whole(m, pow2(e));
    if m > 0 {
        assert(m * pow2(e) > 0) by (nonlinear_arith)
            requires
                m > 0,
                pow2(e) > 0,
        ;
    } else {
        assert(0 * pow2(e) == 0);
    }
}

impl Single {
    /// The significand and the exponent.
    pub(crate) fn parts(self) -> (r: (u32, u32))
        requires
            self.is_finite(),
        ensures
            r.0 == self.significand(),
            r.1 == self.exponent(),
            r.0 < 0x100_0000,
            r.1 <= 253,
            r.1 > 0 ==> r.0 >= 0x80_0000,
    {
        proof {
            lemma_units_round(self);
        }
        let mag: u32 = self.magnitude();
        let e: u32 = if mag < 0x80_0000 {
            0
        } else {
            mag / 0x80_0000 - 1
        };
        (mag - e * 0x80_0000, e)
    }

    pub(crate) fn magnitude(self) -> (m: u32)
        ensures
            m == self.mag(),
            m < SIGN_BIT,
    {
        if self.bits >= SIGN_BIT {
            self.bits - SIGN_BIT
        } else {
            self.bits
        }
    }

    fn packed(neg: bool, mag: u32) -> (r: Single)
        requires
            mag <= INFINITY_BITS,
        ensures
            r == pack(neg, mag as nat),
    {
        Single {
            bits: if neg {
                SIGN_BIT + mag
            } else {
                mag
            },
        }
    }

    pub fn from_bits(bits: u32) -> (r: Single)
        ensures
            r == (Single { bits }),
    {
        Single { bits }
    }

    pub fn to_bits(self) -> (bits: u32)
        ensures
            bits == self.bits,
    {
        self.bits
    }

    pub fn is_negative(self) -> (r: bool)
        ensures
            r == self.neg(),
    {
        self.bits >= SIGN_BIT
    }

    fn nan(self) -> (r: bool)
        ensures
            r == self.is_nan(),
    {
        self.magnitude() > INFINITY_BITS
    }

    pub fn is_less(self, other: Single) -> (r: bool)
        ensures
            r == lt(self, other),
    {
        if self.nan() || other.nan() {
            return false;
        }
        let a: u32 = self.magnitude();
        let b: u32 = other.magnitude();
        if self.is_negative() {
            if other.is_negative() {
                b < a
            } else {
                a > 0 || b > 0
            }
        } else {
            !other.is_negative() && a < b
        }
    }

    pub fn is_at_most(self, other: Single) -> (r: bool)
        ensures
            r == le(self, other),
    {
        self.is_less(other) || self.is_same(other)
    }

    pub fn is_same(self, other: Single) -> (r: bool)
        ensures
            r == same(self, other),
    {
        !self.nan() && !other.nan() && (self.bits == other.bits || (self.magnitude() == 0
            && other.magnitude() == 0))
    }

    pub fn negate(self) -> (r: Single)
        ensures
            r == negated(self),
    {
        Single {
            bits: if self.bits >= SIGN_BIT {
                self.bits - SIGN_BIT
            } else {
                self.bits + SIGN_BIT
            },
        }
    }

    pub fn abs(self) -> (r: Single)
        ensures
            r == absolute(self),
    {
        Single { bits: self.magnitude() }
    }

    pub fn plus(self, other: Single) -> (r: Single)
        ensures
            r == sum(self, other),
    {
        proof {
            reveal(sum);
        }
        let a: u32 = self.magnitude();
        let b: u32 = other.magnitude();
        if a > INFINITY_BITS || b > INFINITY_BITS || (a == INFINITY_BITS && b == INFINITY_BITS
            && self.is_negative() != other.is_negative()) {
            return Single { bits: NAN_BITS };
        }
        if a == INFINITY_BITS {
            return self;
        }
        if b == INFINITY_BITS {
            return other;
        }
        let (m1, e1) = self.parts();
        let (m2, e2) = other.parts();
        if e1 >= e2 {
            add_aligned(self, other, m1, e1, m2, e2)
        } else {
            add_aligned(other, self, m2, e2, m1, e1)
        }
    }

    pub fn minus(self, other: Single) -> (r: Single)
        ensures
            r == difference(self, other),
    {
        self.plus(other.negate())
    }

    pub fn times(self, other: Single) -> (r: Single)
        ensures
            r == product(self, other),
    {
        proof {
            reveal(product);
        }
        let a: u32 = self.magnitude();
        let b: u32 = other.magnitude();
        let neg: bool = self.is_negative() != other.is_negative();
        if a > INFINITY_BITS || b > INFINITY_BITS || (a == INFINITY_BITS && b == 0) || (b
            == INFINITY_BITS && a == 0) {
            return Single { bits: NAN_BITS };
        }
        if a == INFINITY_BITS || b == INFINITY_BITS {
            return Single::packed(neg, INFINITY_BITS);
        }
        let (m1, e1) = self.parts();
        let (m2, e2) = other.parts();
        assert(m1 * m2 < 0x1_0000_0000_0000) by (nonlinear_arith)
            requires
                m1 < 0x100_0000,
                m2 < 0x100_0000,
        ;
        let n: u64 = (m1 as u64) * (m2 as u64);
        let s: i32 = e1 as i32 + e2 as i32 - 149;
        proof {
            lemma_pow2_pos(149);
            lemma_pow2_adds(e1 as nat, e2 as nat);
            let u = self.units() * other.units();
            assert(u == n * pow2((e1 + e2) as nat)) by (nonlinear_arith)
                requires
                    u == (m1 * pow2(e1 as nat)) * (m2 * pow2(e2 as nat)),
                    n == m1 * m2,
                    pow2((e1 + e2) as nat) == pow2(e1 as nat) * pow2(e2 as nat),
            ;
            if s >= 0 {
                lemma_pow2_adds(s as nat, 149);
                assert(u * 1 == (n * pow2(s as nat)) * pow2(149)) by (nonlinear_arith)
                    requires
                        u == n * pow2((e1 + e2) as nat),
                        pow2((e1 + e2) as nat) == pow2(s as nat) * pow2(149),
                ;
                lemma_round_same(u, pow2(149), (n * pow2(s as nat)) as nat, 1);
            } else {
                lemma_pow2_adds((e1 + e2) as nat, (-s) as nat);
                lemma_pow2_pos((-s) as nat);
                assert(u * pow2((-s) as nat) == n * pow2(149)) by (nonlinear_arith)
                    requires
                        u == n * pow2((e1 + e2) as nat),
                        pow2(149) == pow2((e1 + e2) as nat) * pow2((-s) as nat),
                ;
                lemma_round_same(u, pow2(149), n as nat, pow2((-s) as nat));
            }
        }
        Single::packed(neg, round_to_bits(n, s))
    }
}

/// Adds finite numbers, the first of which has the greater exponent.
fn add_aligned(a: Single, b: Single, m1: u32, e1: u32, m2: u32, e2: u32) -> (r: Single)
    requires
        a.is_finite(),
        b.is_finite(),
        m1 == a.significand(),
        e1 == a.exponent(),
        m2 == b.significand(),
        e2 == b.exponent(),
        e1 >= e2,
    ensures
        r == sum(a, b),
        r == sum(b, a),
{
    proof {
        reveal(sum);
        lemma_units_round(a);
        lemma_units_round(b);
        lemma_pow2_pos(e1 as nat);
        lemma_pow2_pos(e2 as nat);
        lemma2_to64();
    }
    let d: u32 = e1 - e2;
    let neg1: bool = a.is_negative();
    let neg2: bool = b.is_negative();
    if d > 30 {
        if m2 == 0 {
            proof {
                assert(0 * pow2(e2 as nat) == 0);
            }
            return a;
        }
        proof {
            lemma_absorbed(a, b);
        }
        return a;
    }
    let mut scale: u64 = 1;
    let mut i: u32 = 0;
    while i < d
        invariant
            i <= d <= 30,
            scale == pow2(i as nat),
        decreases d - i,
    {
        proof {
            lemma_pow2_unfold((i + 1) as nat);
            lemma_pow2_strictly_increases(i as nat, 31);
            lemma2_to64();
        }
        scale = scale * 2;
        i = i + 1;
    }
    proof {
        if d < 30 {
            lemma_pow2_strictly_increases(d as nat, 30);
        }
        assert(m1 * scale <= 0x100_0000 * 0x4000_0000) by (nonlinear_arith)
            requires
                m1 <= 0x100_0000,
                scale <= 0x4000_0000,
        ;
    }
    let n1: u64 = (m1 as u64) * scale;
    let n2: u64 = m2 as u64;
    proof {
        lemma_pow2_adds(d as nat, e2 as nat);
        assert(a.units() == n1 * pow2(e2 as nat)) by (nonlinear_arith)
            requires
                a.units() == m1 * pow2(e1 as nat),
                pow2(e1 as nat) == scale * pow2(e2 as nat),
                n1 == m1 * scale,
        ;
    }
    let (neg, n): (bool, u64) = if neg1 == neg2 {
        (neg1, n1 + n2)
    } else if n1 >= n2 {
        (neg1, n1 - n2)
    } else {
        (neg2, n2 - n1)
    };
    proof {
        let p = pow2(e2 as nat);
        assert(n * p == (if neg1 == neg2 {
            n1 * p + n2 * p
        } else if n1 >= n2 {
            n1 * p - n2 * p
        } else {
            n2 * p - n1 * p
        })) by (nonlinear_arith)
            requires
                n == (if neg1 == neg2 {
                    n1 + n2
                } else if n1 >= n2 {
                    n1 - n2
                } else {
                    n2 - n1
                }),
        ;
        assert(n1 >= n2 ==> n1 * p >= n2 * p) by (nonlinear_arith);
        assert(n1 < n2 ==> n1 * p < n2 * p) by (nonlinear_arith)
            requires
                p > 0,
        ;
        if n == 0 {
            assert(0 * p == 0);
        } else {
            assert(n * p > 0) by (nonlinear_arith)
                requires
                    n > 0,
                    p > 0,
            ;
        }
    }
    if n == 0 {
        return Single::packed(neg1 && neg2, 0);
    }
    Single::packed(neg, round_to_bits(n, e2 as i32))
}

/// A number much smaller than another is absorbed in their sum.
proof fn lemma_absorbed(a: Single, b: Single)
    requires
        a.is_finite(),
        b.is_finite(),
        a.exponent() >= b.exponent() + 31,
        b.mag() != 0,
    ensures
        sum(a, b) == a,
        sum(b, a) == a,
{
    reveal(sum);
    lemma_units_round(a);
    lemma_units_round(b);
    let m = a.significand();
    let e = a.exponent();
    let p = pow2(e);
    let u = b.units();
    lemma2_to64();
    lemma_pow2_pos(b.exponent());
    lemma_pow2_adds(24, b.exponent());
    assert(u < 0x100_0000 * pow2(b.exponent())) by (nonlinear_arith)
        requires
            u == b.significand() * pow2(b.exponent()),
            b.significand() < 0x100_0000,
            pow2(b.exponent()) > 0,
    ;
    let low = pow2((e - 7) as nat);
    if 24 + b.exponent() < e - 7 {
        lemma_pow2_strictly_increases((24 + b.exponent()) as nat, (e - 7) as nat);
    }
    assert(u < low);
    lemma_pow2_adds(7, (e - 7) as nat);
    assert(p == 128 * low);
    lemma_pow2_adds(24, e);
    lemma_pow2_adds(23, e);
    assert(1 * pow2(24 + e) == pow2(24 + e));
    assert(1 * p == p);
    if a.neg() == b.neg() {
        let num = m * p + u;
        assert(num < 0x100_0000 * p) by (nonlinear_arith)
            requires
                num == m * p + u,
                m + 1 <= 0x100_0000,
                u < p,
        ;
        assert(num >= 0x80_0000 * p) by (nonlinear_arith)
            requires
                num == m * p + u,
                m >= 0x80_0000,
                u >= 0,
        ;
        lemma_round_at(num, 1, e);
        lemma_fundamental_div_mod_converse(num as int, p as int, m as int, u as int);
    } else {
        assert(m * p >= 0x80_0000 * p) by (nonlinear_arith)
            requires
                m >= 0x80_0000,
        ;
        let num = (m * p - u) as nat;
        if m > 0x80_0000 {
            assert(m * p - p >= 0x80_0000 * p) by (nonlinear_arith)
                requires
                    m >= 0x80_0001,
            ;
            assert(m * p <= 0x100_0000 * p) by (nonlinear_arith)
                requires
                    m <= 0x100_0000,
            ;
            lemma_round_at(num, 1, e);
            assert(num == (m - 1) * p + (p - u)) by (nonlinear_arith)
                requires
                    num == m * p - u,
            ;
            lemma_fundamental_div_mod_converse(num as int, p as int, m - 1, (p - u) as int);
        } else {
            let h = pow2((e - 1) as nat);
            lemma_pow2_unfold(e);
            lemma_pow2_adds(24, (e - 1) as nat);
            lemma_pow2_adds(23, (e - 1) as nat);
            assert(1 * pow2((24 + e - 1) as nat) == pow2((24 + e - 1) as nat));
            assert(1 * h == h);
            assert(m * p == 0x100_0000 * h);
            lemma_round_at(num, 1, (e - 1) as nat);
            assert(num == 0xff_ffff * h + (h - u));
            lemma_fundamental_div_mod_converse(num as int, h as int, 0xff_ffff, (h - u) as int);
        }
    }
}

/// A product of two scaled numbers and a power is one scaled number.
proof fn lemma_gather(m1: nat, x: nat, m2: nat, y: nat, z: nat)
    ensures
        (m1 * pow2(x)) * pow2(z) * (m2 * pow2(y)) == (m1 * m2) * pow2(x + y + z),
{
    lemma_pow2_adds(x, y);
    lemma_pow2_adds(x + y, z);
    assert((m1 * pow2(x)) * pow2(z) * (m2 * pow2(y)) == (m1 * m2) * (pow2(x) * pow2(y) * pow2(z)))
        by (nonlinear_arith);
}

/// Moves the leading digit of a positive significand to the top; also gives the distance.
fn normalised(m: u32) -> (r: (u64, u32))
    requires
        0 < m < 0x100_0000,
    ensures
        r.1 <= 23,
        r.0 == m * pow2(r.1 as nat),
        0x80_0000 <= r.0 < 0x100_0000,
{
    let mut a: u64 = m as u64;
    let mut k: u32 = 0;
    proof {
        lemma2_to64();
    }
    while a < 0x80_0000
        invariant
            0 < m < 0x100_0000,
            a == m * pow2(k as nat),
            m <= a < 0x100_0000,
            k <= 23,
        decreases 0x100_0000 - a,
    {
        proof {
            lemma_pow2_unfold((k + 1) as nat);
            assert(2 * (m * pow2(k as nat)) == m * (2 * pow2(k as nat))) by (nonlinear_arith);
            assert(pow2(k as nat) <= a) by (nonlinear_arith)
                requires
                    a == m * pow2(k as nat),
                    m >= 1,
                    pow2(k as nat) >= 0,
            ;
            lemma2_to64();
        }
        a = a * 2;
        k = k + 1;
    }
    (a, k)
}

fn division_with_sticky(a: u64, b: u64) -> (n: u64)
    requires
        0x80_0000 <= a < 0x100_0000,
        0x80_0000 <= b < 0x100_0000,
    ensures
        n == with_sticky((a * pow2(38)) as nat, b as nat),
        n < 0x4000_0000_0000_0000,
        (a * pow2(38)) as nat / b as nat >= 0x400_0000,
{
    proof {
        lemma2_to64_rest();
    }
    let x: u64 = a * 0x40_0000_0000;
    assert(x / b >= 0x400_0000) by (nonlinear_arith)
        requires
            x >= 0x80_0000 * 0x40_0000_0000,
            b < 0x100_0000,
            b > 0,
    ;
    assert(x / b <= 0x100_0000_0000) by (nonlinear_arith)
        requires
            x <= 0x100_0000 * 0x40_0000_0000,
            b >= 0x80_0000,
    ;
    let q: u64 = x / b;
    if x % b == 0 {
        2 * q
    } else {
        2 * q + 1
    }
}

impl Single {
    pub fn over(self, other: Single) -> (r: Single)
        ensures
            r == quotient(self, other),
    {
        proof {
            reveal(quotient);
        }
        let x: u32 = self.magnitude();
        let y: u32 = other.magnitude();
        let neg: bool = self.is_negative() != other.is_negative();
        if x > INFINITY_BITS || y > INFINITY_BITS || (x == INFINITY_BITS && y == INFINITY_BITS) || (
        x == 0 && y == 0) {
            return Single { bits: NAN_BITS };
        }
        if x == INFINITY_BITS || y == 0 {
            return Single::packed(neg, INFINITY_BITS);
        }
        if y == INFINITY_BITS {
            return Single::packed(neg, 0);
        }
        let (m1, e1) = self.parts();
        let (m2, e2) = other.parts();
        proof {
            lemma_units_round(self);
            lemma_units_round(other);
        }
        if x == 0 {
            proof {
                assert(0 * pow2(e1 as nat) == 0);
                assert(0 * pow2(149) == 0);
                lemma_half_even_whole(0, other.units());
            }
            return Single::packed(neg, 0);
        }
        let (a, k1) = normalised(m1);
        let (b, k2) = normalised(m2);
        let n: u64 = division_with_sticky(a, b);
        let s: i32 = e1 as i32 - e2 as i32 + k2 as i32 - k1 as i32 + 110;
        proof {
            let num = a as nat * pow2(38);
            lemma_round_sticky(num, b as nat, s as int);
            let u = self.units() * pow2(149);
            lemma_gather(m1 as nat, e1 as nat, m2 as nat, k2 as nat, 149);
            lemma_pow2_unfold(39);
            assert(2 * num == a * pow2(39)) by (nonlinear_arith)
                requires
                    num == a * pow2(38),
                    pow2(39) == 2 * pow2(38),
            ;
            if s >= 0 {
                lemma_pow2_adds(39, s as nat);
                lemma_gather(m1 as nat, k1 as nat, m2 as nat, e2 as nat, (39 + s) as nat);
                assert((2 * num) * pow2(s as nat) == (m1 * pow2(k1 as nat)) * pow2((39 + s) as nat))
                    by (nonlinear_arith)
                    requires
                        2 * num == (m1 * pow2(k1 as nat)) * pow2(39),
                        pow2((39 + s) as nat) == pow2(39) * pow2(s as nat),
                ;
                assert(e1 + k2 + 149 == k1 + e2 + (39 + s));
                lemma_round_same(u, other.units(), (2 * num) * pow2(s as nat), b as nat);
            } else {
                let t = (-s) as nat;
                lemma_pow2_adds(149, t);
                lemma_pow2_pos(t);
                lemma_gather(m1 as nat, e1 as nat, m2 as nat, k2 as nat, 149 + t);
                lemma_gather(m1 as nat, k1 as nat, m2 as nat, e2 as nat, 39);
                assert(u * (b * pow2(t)) == (m1 * pow2(e1 as nat)) * pow2(149 + t) * (m2 * pow2(
                    k2 as nat,
                ))) by (nonlinear_arith)
                    requires
                        u == (m1 * pow2(e1 as nat)) * pow2(149),
                        b == m2 * pow2(k2 as nat),
                        pow2(149 + t) == pow2(149) * pow2(t),
                ;
                assert(b * pow2(t) > 0) by (nonlinear_arith)
                    requires
                        b > 0,
                        pow2(t) > 0,
                ;
                assert(e1 + k2 + (149 + t) == k1 + e2 + 39);
                lemma_round_same(u, other.units(), 2 * num, (b * pow2(t)) as nat);
            }
        }
        Single::packed(neg, round_to_bits(n, s))
    }
}

/// The integral part of a square root is unique.
proof fn lemma_whole_root(r: nat, x: nat)
    requires
        is_whole_root(r, x),
    ensures
        whole_root(x) == r,
{
    let w = whole_root(x);
    assert(is_whole_root(w, x));
    if w < r {
        assert((w + 1) * (w + 1) <= r * r) by (nonlinear_arith)
            requires
                w + 1 <= r,
        ;
    }
    if r < w {
        assert((r + 1) * (r + 1) <= w * w) by (nonlinear_arith)
            requires
                r + 1 <= w,
        ;
    }
}

proof fn lemma_whole_root_exists(x: nat) -> (r: nat)
    ensures
        is_whole_root(r, x),
    decreases x,
{
    if x == 0 {
        assert(0nat * 0nat <= 0 < (0nat + 1) * (0nat + 1)) by (nonlinear_arith);
        0
    } else {
        let p = lemma_whole_root_exists((x - 1) as nat);
        if (p + 1) * (p + 1) <= x {
            let t: nat = p + 1;
            assert(t * t <= x < (t + 1) * (t + 1)) by (nonlinear_arith)
                requires
                    x - 1 < t * t <= x,
            ;
            t
        } else {
            p
        }
    }
}

/// The integral part of a square root is what it says.
pub proof fn lemma_whole_root_is(x: nat)
    ensures
        is_whole_root(whole_root(x), x),
{
    let r = lemma_whole_root_exists(x);
    lemma_whole_root(r, x);
}

/// The integral part of the root of a number scaled by a power of four, seen in coarser steps.
proof fn lemma_coarse_root(m: nat, r: nat, j: nat)
    requires
        is_whole_root(r, m),
    ensures
        ({
            let x = m * pow2(2 * j);
            let w = whole_root(x);
            let n = 2 * w + if w * w == x {
                0nat
            } else {
                1nat
            };
            with_sticky(n, pow2(j + 1)) == 2 * r + (if r * r == m {
                0nat
            } else {
                1nat
            }) && n / pow2(j + 1) == r
        }),
{
    let x = m * pow2(2 * j);
    let w = lemma_whole_root_exists(x);
    lemma_whole_root(w, x);
    let st: nat = if w * w == x {
        0
    } else {
        1
    };
    let n = 2 * w + st;
    let p = pow2(j);
    lemma_pow2_pos(j);
    lemma_pow2_adds(j, j);
    lemma_pow2_unfold(j + 1);
    assert(x == m * (p * p));
    // r * p <= w < (r + 1) * p
    assert((r * p) * (r * p) == (r * r) * (p * p)) by (nonlinear_arith);
    assert(((r + 1) * p) * ((r + 1) * p) == ((r + 1) * (r + 1)) * (p * p)) by (nonlinear_arith);
    assert((r * r) * (p * p) <= x) by (nonlinear_arith)
        requires
            r * r <= m,
            x == m * (p * p),
            p > 0,
    ;
    assert(x < ((r + 1) * (r + 1)) * (p * p)) by (nonlinear_arith)
        requires
            m < (r + 1) * (r + 1),
            x == m * (p * p),
            p > 0,
    ;
    if w < r * p {
        assert((w + 1) * (w + 1) <= (r * p) * (r * p)) by (nonlinear_arith)
            requires
                w + 1 <= r * p,
        ;
    }
    if w >= (r + 1) * p {
        assert(w * w >= ((r + 1) * p) * ((r + 1) * p)) by (nonlinear_arith)
            requires
                w >= (r + 1) * p,
        ;
    }
    let rest = (w - r * p) as nat;
    assert((r + 1) * p == r * p + p) by (nonlinear_arith);
    assert(n == r * (2 * p) + (2 * rest + st)) by (nonlinear_arith)
        requires
            n == 2 * w + st,
            rest == w - r * p,
    ;
    lemma_fundamental_div_mod_converse(n as int, (2 * p) as int, r as int, (2 * rest + st) as int);
    if r * r == m {
        assert((r * p) * (r * p) == x);
        assert(is_whole_root(r * p, x)) by {
            assert((r * p) * (r * p) < (r * p + 1) * (r * p + 1)) by (nonlinear_arith)
                requires
                    r * p >= 0,
            ;
        }
        lemma_whole_root(r * p, x);
    } else {
        assert(r * r + 1 <= m);
        assert((r * r) * (p * p) < x) by (nonlinear_arith)
            requires
                r * r + 1 <= m,
                x == m * (p * p),
                p > 0,
        ;
        if rest == 0 {
            assert(w == r * p);
            assert(w * w != x);
        }
    }
}

/// The integral part of the square root of a number below two to the power of 54.
fn root_of(m: u64) -> (r: u64)
    requires
        0x10_0000_0000_0000 <= m < 0x40_0000_0000_0000,
    ensures
        is_whole_root(r as nat, m as nat),
        0x400_0000 <= r < 0x800_0000,
{
    let mut low: u64 = 0x400_0000;
    let mut high: u64 = 0x800_0000;
    while high - low > 1
        invariant
            0x400_0000 <= low < high <= 0x800_0000,
            low * low <= m < high * high,
        decreases high - low,
    {
        let mid: u64 = low + (high - low) / 2;
        assert(mid * mid <= 0x800_0000 * 0x800_0000) by (nonlinear_arith)
            requires
                0 <= mid <= 0x800_0000,
        ;
        if mid * mid <= m {
            low = mid;
        } else {
            high = mid;
        }
    }
    assert(high == low + 1);
    low
}

impl Single {
    pub fn sqrt(self) -> (r: Single)
        ensures
            r == root(self),
    {
        proof {
            reveal(root);
        }
        let x: u32 = self.magnitude();
        if x > INFINITY_BITS || (self.is_negative() && x != 0) {
            return Single { bits: NAN_BITS };
        }
        if x == INFINITY_BITS || x == 0 {
            return self;
        }
        let (m, e) = self.parts();
        proof {
            lemma_units_round(self);
        }
        let (a, k0) = normalised(m);
        // Move the significand to 53 or 54 digits, so that the power left over is even.
        let odd: bool = (e + 149 - k0) % 2 == 0;
        let (big, k): (u64, u32) = if odd {
            (a * 0x4000_0000, k0 + 30)
        } else {
            (a * 0x2000_0000, k0 + 29)
        };
        proof {
            lemma2_to64();
            lemma_pow2_adds(k0 as nat, 29);
            lemma_pow2_adds(k0 as nat, 30);
            assert(big == m * pow2(k as nat)) by (nonlinear_arith)
                requires
                    a == m * pow2(k0 as nat),
                    big == a * pow2((k - k0) as nat),
                    pow2(k as nat) == pow2(k0 as nat) * pow2((k - k0) as nat),
            ;
        }
        let r: u64 = root_of(big);
        let j: u32 = (e + 149 - k) / 2;
        assert(r * r <= 0x800_0000 * 0x800_0000) by (nonlinear_arith)
            requires
                0 <= r <= 0x800_0000,
        ;
        let n: u64 = if r * r == big {
            2 * r
        } else {
            2 * r + 1
        };
        proof {
            let s = j - 1;
            let u = self.units() * pow2(149);
            lemma_pow2_adds(k as nat, (2 * j) as nat);
            lemma_pow2_adds(e as nat, 149);
            assert(u == big * pow2((2 * j) as nat)) by (nonlinear_arith)
                requires
                    u == (m * pow2(e as nat)) * pow2(149),
                    big == m * pow2(k as nat),
                    pow2((e + 149) as nat) == pow2(e as nat) * pow2(149),
                    pow2((e + 149) as nat) == pow2(k as nat) * pow2((2 * j) as nat),
            ;
            lemma_coarse_root(big as nat, r as nat, j as nat);
            let w = whole_root(u);
            let full = 2 * w + if w * w == u {
                0nat
            } else {
                1nat
            };
            lemma_pow2_pos((j + 1) as nat);
            lemma_pow2_pos(s as nat);
            lemma_round_sticky(full, pow2((j + 1) as nat), s as int);
            lemma_pow2_adds(2, s as nat);
            assert(full * pow2((j + 1) as nat) == ((2 * full) * pow2(s as nat)) * 2)
                by (nonlinear_arith)
                requires
                    pow2((j + 1) as nat) == 4 * pow2(s as nat),
            ;
            lemma_round_same(full, 2, (2 * full) * pow2(s as nat), pow2((j + 1) as nat));
        }
        Single::packed(false, round_to_bits(n, j as i32 - 1))
    }
}

impl Single {
    /// The remainder of a division that cuts towards zero.
    pub fn rem(self, other: Single) -> (r: Single)
        ensures
            r == remainder(self, other),
    {
        proof {
            reveal(remainder);
        }
        let x: u32 = self.magnitude();
        let y: u32 = other.magnitude();
        if x > INFINITY_BITS || y > INFINITY_BITS || x == INFINITY_BITS || y == 0 {
            return Single { bits: NAN_BITS };
        }
        if y == INFINITY_BITS {
            return self;
        }
        let (m1, e1) = self.parts();
        let (m2, e2) = other.parts();
        proof {
            lemma_units_round(self);
            lemma_units_round(other);
        }
        if e1 < e2 {
            proof {
                lemma_pow2_pos(e1 as nat);
                lemma_pow2_unfold((e1 + 1) as nat);
                if e1 + 1 < e2 {
                    lemma_pow2_strictly_increases((e1 + 1) as nat, e2 as nat);
                }
                assert(m1 * pow2(e1 as nat) < m2 * pow2(e2 as nat)) by (nonlinear_arith)
                    requires
                        m1 < 0x100_0000,
                        m2 >= 0x80_0000,
                        pow2(e2 as nat) >= 2 * pow2(e1 as nat),
                        pow2(e1 as nat) > 0,
                ;
                lemma_small_mod(self.units(), other.units());
            }
            return self;
        }
        let d: u32 = e1 - e2;
        let m: u64 = m2 as u64;
        let mut r: u64 = (m1 as u64) % m;
        let mut i: u32 = 0;
        proof {
            lemma2_to64();
            assert(m1 * pow2(0) == m1);
        }
        while i < d
            invariant
                i <= d,
                0 < m < 0x100_0000,
                r < m,
                r == (m1 * pow2(i as nat)) as nat % m as nat,
            decreases d - i,
        {
            proof {
                let t = (m1 * pow2(i as nat)) as nat;
                lemma_pow2_unfold((i + 1) as nat);
                assert(m1 * pow2((i + 1) as nat) == 2 * t) by (nonlinear_arith)
                    requires
                        pow2((i + 1) as nat) == 2 * pow2(i as nat),
                        t == m1 * pow2(i as nat),
                ;
                lemma_mul_mod_noop_right(2, t as int, m as int);
            }
            r = (2 * r) % m;
            i = i + 1;
        }
        proof {
            let t = (m1 * pow2(d as nat)) as nat;
            let p = pow2(e2 as nat);
            lemma_pow2_pos(e2 as nat);
            lemma_pow2_adds(d as nat, e2 as nat);
            assert(self.units() == t * p) by (nonlinear_arith)
                requires
                    self.units() == m1 * pow2(e1 as nat),
                    pow2(e1 as nat) == pow2(d as nat) * p,
                    t == m1 * pow2(d as nat),
            ;
            lemma_fundamental_div_mod(t as int, m as int);
            let q = t / m as nat;
            assert(t * p == q * (m * p) + r * p) by (nonlinear_arith)
                requires
                    t == m * q + r,
            ;
            assert(r * p < m * p) by (nonlinear_arith)
                requires
                    r < m,
                    p > 0,
            ;
            assert(r * p >= 0) by (nonlinear_arith)
                requires
                    r >= 0,
                    p > 0,
            ;
            lemma_fundamental_div_mod_converse((t * p) as int, (m * p) as int, q as int, (r
                * p) as int);
        }
        Single::packed(self.is_negative(), round_to_bits(r, e2 as i32))
    }

    /// The remainder moved into the range from zero to the divisor.
    pub fn rem_euclid(self, other: Single) -> (r: Single)
        ensures
            r == wrapped(self, other),
    {
        let r: Single = self.rem(other);
        if r.is_less(Single::nought()) {
            r.plus(other.abs())
        } else {
            r
        }
    }

    pub fn min(self, other: Single) -> (r: Single)
        ensures
            r == lesser(self, other),
    {
        if other.is_less(self) || self.nan() {
            other
        } else {
            self
        }
    }

    pub fn max(self, other: Single) -> (r: Single)
        ensures
            r == greater(self, other),
    {
        if self.is_less(other) || self.nan() {
            other
        } else {
            self
        }
    }

    pub fn clamp(self, low: Single, high: Single) -> (r: Single)
        ensures
            r == clamped(self, low, high),
    {
        if self.is_less(low) {
            low
        } else if high.is_less(self) {
            high
        } else {
            self
        }
    }

    pub fn nought() -> (r: Single)
        ensures
            r == zero(),
    {
        Single { bits: 0 }
    }

    /// The number nearest to a whole number.
    pub fn whole(n: i32) -> (r: Single)
        ensures
            r == from_whole(n as int),
    {
        proof {
            reveal(from_whole);
        }
        let a: u64 = if n < 0 {
            (-(n as i64)) as u64
        } else {
            n as u64
        };
        Single::packed(n < 0, round_to_bits(a, 149))
    }

    /// The number nearest to a count.
    pub fn count(n: u64) -> (r: Single)
        ensures
            r == from_whole(n as int),
    {
        proof {
            reveal(from_whole);
        }
        Single::packed(false, round_to_bits(n, 149))
    }

    /// The number nearest to the fraction of two whole numbers below two to the power of 24.
    pub fn fraction(n: i32, d: i32) -> (r: Single)
        ensures
            r == from_fraction(n as int, d as int),
    {
        Single::whole(n).over(Single::whole(d))
    }
}

} // verus!
