//! Whole numbers cut out of single-precision numbers.
use vstd::arithmetic::div_mod::*;
use vstd::arithmetic::power2::*;
use vstd::prelude::*;

use crate::rounding::INFINITY_BITS;
use crate::single::Single;

verus! {

/// The units in one whole.
pub open spec fn one_whole() -> nat {
    pow2(149)
}

/// The greatest whole number not above a finite number.
#[verifier::opaque]
pub open spec fn floor_of(a: Single) -> int {
    a.value() / (one_whole() as int)
}

/// The least whole number not below a finite number.
#[verifier::opaque]
pub open spec fn ceiling_of(a: Single) -> int {
    -((-a.value()) / (one_whole() as int))
}

/// A finite number without its fraction.
#[verifier::opaque]
pub open spec fn truncation_of(a: Single) -> int {
    if a.neg() {
        -((a.units() / one_whole()) as int)
    } else {
        (a.units() / one_whole()) as int
    }
}

/// The nearest number within bounds.
pub open spec fn within(n: int, low: int, high: int) -> int {
    if n < low {
        low
    } else if n > high {
        high
    } else {
        n
    }
}

/// A conversion to a bounded type: infinities go to the bounds, what is not a number to zero.
pub open spec fn converted(a: Single, cut: int, low: int, high: int) -> int {
    if a.is_nan() {
        0
    } else if a.is_infinite() {
        if a.neg() {
            low
        } else {
            high
        }
    } else {
        within(cut, low, high)
    }
}

/// The integral part of the absolute value, up to the greatest 64-bit number, and whether anything
/// was cut off.
fn integral(a: Single) -> (r: (u64, bool))
    requires
        a.is_finite(),
    ensures
        r.0 == (if a.units() / one_whole() <= u64::MAX {
            a.units() / one_whole()
        } else {
            u64::MAX as nat
        }),
        r.1 == (a.units() % one_whole() != 0),
        r.1 ==> r.0 < 0x100_0000,
{
    let (m, e) = a.parts();
    proof {
        lemma_pow2_pos(149);
        lemma2_to64();
        lemma2_to64_rest();
    }
    if e >= 149 {
        let up: u32 = e - 149;
        proof {
            lemma_pow2_adds(up as nat, 149);
            let q = (m * pow2(up as nat)) as nat;
            assert(a.units() == q * one_whole()) by (nonlinear_arith)
                requires
                    a.units() == m * pow2(e as nat),
                    pow2(e as nat) == pow2(up as nat) * one_whole(),
                    q == m * pow2(up as nat),
            ;
            lemma_fundamental_div_mod_converse(
                a.units() as int,
                one_whole() as int,
                q as int,
                0,
            );
        }
        if up >= 41 {
            proof {
                if up > 41 {
                    lemma_pow2_strictly_increases(41, up as nat);
                }
                assert(m * pow2(up as nat) >= 0x80_0000 * 0x200_0000_0000) by (nonlinear_arith)
                    requires
                        m >= 0x80_0000,
                        pow2(up as nat) >= 0x200_0000_0000,
                ;
            }
            return (u64::MAX, false);
        }
        let mut q: u64 = m as u64;
        let mut i: u32 = 0;
        proof {
            assert(m * pow2(0) == m);
        }
        while i < up
            invariant
                i <= up < 41,
                m < 0x100_0000,
                q == m * pow2(i as nat),
            decreases up - i,
        {
            proof {
                lemma_pow2_unfold((i + 1) as nat);
                assert(m * pow2((i + 1) as nat) == 2 * (m * pow2(i as nat))) by (nonlinear_arith)
                    requires
                        pow2((i + 1) as nat) == 2 * pow2(i as nat),
                ;
                lemma2_to64_rest();
                if i + 1 < 40 {
                    lemma_pow2_strictly_increases((i + 1) as nat, 40);
                }
                assert(m * pow2((i + 1) as nat) <= 0xff_ffff * 0x100_0000_0000)
                    by (nonlinear_arith)
                    requires
                        m <= 0xff_ffff,
                        pow2((i + 1) as nat) <= 0x100_0000_0000,
                ;
            }
            q = q * 2;
            i = i + 1;
        }
        (q, false)
    } else {
        let down: u32 = 149 - e;
        let mut q: u64 = m as u64;
        let mut cut: bool = false;
        let mut i: u32 = 0;
        proof {
            lemma_pow2_pos(e as nat);
            lemma_pow2_adds(e as nat, down as nat);
        }
        while i < down
            invariant
                i <= down,
                m < 0x100_0000,
                q == m as nat / pow2(i as nat),
                q <= m,
                cut == (m as nat % pow2(i as nat) != 0),
            decreases down - i,
        {
            proof {
                let p = pow2(i as nat);
                lemma_pow2_pos(i as nat);
                lemma_pow2_unfold((i + 1) as nat);
                lemma_fundamental_div_mod(m as int, p as int);
                lemma_fundamental_div_mod(q as int, 2);
                let h = q / 2;
                let b = q % 2;
                let f = m as nat % p;
                assert(m == h * (2 * p) + (b * p + f)) by (nonlinear_arith)
                    requires
                        m == p * q + f,
                        q == 2 * h + b,
                ;
                assert(b == 0 ==> b * p == 0) by (nonlinear_arith);
                assert(b == 1 ==> b * p == p) by (nonlinear_arith);
                lemma_fundamental_div_mod_converse(m as int, (2 * p) as int, h as int, (b * p
                    + f) as int);
            }
            cut = cut || q % 2 == 1;
            q = q / 2;
            i = i + 1;
        }
        proof {
            let p = pow2(down as nat);
            let w = pow2(e as nat);
            lemma_pow2_pos(down as nat);
            lemma_fundamental_div_mod(m as int, p as int);
            let f = m as nat % p;
            assert(a.units() == q * (p * w) + f * w) by (nonlinear_arith)
                requires
                    a.units() == m * w,
                    m == p * q + f,
            ;
            assert(0 <= f * w < p * w) by (nonlinear_arith)
                requires
                    0 <= f < p,
                    w > 0,
            ;
            assert(p * w == one_whole()) by (nonlinear_arith)
                requires
                    one_whole() == w * p,
            ;
            lemma_fundamental_div_mod_converse(a.units() as int, (p * w) as int, q as int, (f
                * w) as int);
            assert(f == 0 <==> f * w == 0) by (nonlinear_arith)
                requires
                    w > 0,
                    f >= 0,
            ;
        }
        (q, cut)
    }
}

/// Dividing a negated number rounds the other way.
proof fn lemma_negative_floor(u: nat, w: nat)
    requires
        w > 0,
    ensures
        (-(u as int)) / (w as int) == (if u % w == 0 {
            -((u / w) as int)
        } else {
            -((u / w) as int) - 1
        }),
{
    lemma_fundamental_div_mod(u as int, w as int);
    let q = (u / w) as int;
    let r = (u % w) as int;
    if r == 0 {
        assert(-(u as int) == (-q) * w) by (nonlinear_arith)
            requires
                u == w * q + 0,
        ;
        lemma_fundamental_div_mod_converse(-(u as int), w as int, -q, 0);
    } else {
        assert(-(u as int) == (-q - 1) * w + (w - r)) by (nonlinear_arith)
            requires
                u == w * q + r,
        ;
        lemma_fundamental_div_mod_converse(-(u as int), w as int, -q - 1, w - r);
    }
}

fn bounded(neg: bool, q: u64) -> (r: i32)
    ensures
        r == within(
            if neg {
                -(q as int)
            } else {
                q as int
            },
            i32::MIN as int,
            i32::MAX as int,
        ),
{
    if neg {
        if q > 0x8000_0000 {
            i32::MIN
        } else {
            (-(q as i64)) as i32
        }
    } else if q > 0x7fff_ffff {
        i32::MAX
    } else {
        q as i32
    }
}

impl Single {
    /// Rounds down and converts.
    pub fn floor_to_whole(self) -> (r: i32)
        ensures
            r == converted(self, floor_of(self), i32::MIN as int, i32::MAX as int),
    {
        proof {
            reveal(floor_of);
            lemma_pow2_pos(149);
        }
        let m: u32 = self.magnitude();
        if m > INFINITY_BITS {
            return 0;
        }
        let neg: bool = self.is_negative();
        if m == INFINITY_BITS {
            return if neg {
                i32::MIN
            } else {
                i32::MAX
            };
        }
        let (q, cut) = integral(self);
        proof {
            lemma_negative_floor(self.units(), one_whole());
        }
        if neg && cut {
            bounded(neg, q + 1)
        } else {
            bounded(neg, q)
        }
    }

    /// Rounds up and converts.
    pub fn ceil_to_whole(self) -> (r: i32)
        ensures
            r == converted(self, ceiling_of(self), i32::MIN as int, i32::MAX as int),
    {
        proof {
            reveal(ceiling_of);
            lemma_pow2_pos(149);
        }
        let m: u32 = self.magnitude();
        if m > INFINITY_BITS {
            return 0;
        }
        let neg: bool = self.is_negative();
        if m == INFINITY_BITS {
            return if neg {
                i32::MIN
            } else {
                i32::MAX
            };
        }
        let (q, cut) = integral(self);
        proof {
            lemma_negative_floor(self.units(), one_whole());
        }
        if !neg && cut {
            bounded(neg, q + 1)
        } else {
            bounded(neg, q)
        }
    }

    /// Rounds up and converts to a number from zero up.
    pub fn ceil_to_size(self) -> (r: u64)
        ensures
            r == converted(self, ceiling_of(self), 0, u64::MAX as int),
    {
        proof {
            reveal(ceiling_of);
            lemma_pow2_pos(149);
        }
        let m: u32 = self.magnitude();
        if m > INFINITY_BITS {
            return 0;
        }
        let neg: bool = self.is_negative();
        if m == INFINITY_BITS {
            return if neg {
                0
            } else {
                u64::MAX
            };
        }
        let (q, cut) = integral(self);
        proof {
            lemma_negative_floor(self.units(), one_whole());
        }
        if neg {
            0
        } else if cut {
            q + 1
        } else {
            q
        }
    }

    /// Cuts off the fraction and converts.
    pub fn to_whole(self) -> (r: i32)
        ensures
            r == converted(self, truncation_of(self), i32::MIN as int, i32::MAX as int),
    {
        proof {
            reveal(truncation_of);
        }
        let m: u32 = self.magnitude();
        if m > INFINITY_BITS {
            return 0;
        }
        let neg: bool = self.is_negative();
        if m == INFINITY_BITS {
            return if neg {
                i32::MIN
            } else {
                i32::MAX
            };
        }
        let (q, _cut) = integral(self);
        bounded(neg, q)
    }

    /// Cuts off the fraction and converts to a number from zero up.
    pub fn to_count(self) -> (r: u32)
        ensures
            r == converted(self, truncation_of(self), 0, u32::MAX as int),
    {
        proof {
            reveal(truncation_of);
            lemma_pow2_pos(149);
        }
        let m: u32 = self.magnitude();
        if m > INFINITY_BITS || self.is_negative() {
            return 0;
        }
        if m == INFINITY_BITS {
            return u32::MAX;
        }
        let (q, _cut) = integral(self);
        if q > 0xffff_ffff {
            u32::MAX
        } else {
            q as u32
        }
    }

    /// Cuts off the fraction and converts to a byte.
    pub fn to_byte(self) -> (r: u8)
        ensures
            r == converted(self, truncation_of(self), 0, 255),
    {
        let n: u32 = self.to_count();
        if n > 255 {
            255
        } else {
            n as u8
        }
    }
}

} // verus!
