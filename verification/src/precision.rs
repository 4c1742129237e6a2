//! How far rounding moves a number, and what that means for speeds and headings.
use vstd::arithmetic::div_mod::*;
use vstd::arithmetic::power2::*;
use vstd::prelude::*;

use crate::bounds::is_amount;
use crate::order::{law_order_is_order_of_values, law_small_wholes_are_exact};
use crate::rounding::{
    half_even, lemma_half_even_whole, lemma_halving_descends, lemma_round_at, lemma_round_monotone,
    lemma_round_same, round_bits,
};
use crate::single::{absolute, from_whole, lemma_units_round, lt, pack, product, quotient, Single};

verus! {

/// The exponent to which an exact quantity is rounded.
proof fn lemma_exponent(num: nat, den: nat) -> (e: nat)
    requires
        den > 0,
    ensures
        num < den * pow2(24 + e),
        e == 0 || num >= den * pow2((23 + e) as nat),
        round_bits(num, den) == e * 0x80_0000 + half_even(num, den * pow2(e)),
    decreases num / den,
{
    lemma2_to64();
    if num < den * 0x100_0000 {
        lemma_round_at(num, den, 0);
        0
    } else {
        lemma_halving_descends(num, den);
        let d = lemma_exponent(num, 2 * den);
        let e = d + 1;
        lemma_pow2_unfold(24 + e);
        lemma_pow2_unfold(23 + e);
        assert(den * pow2(24 + e) == (2 * den) * pow2(24 + d)) by (nonlinear_arith)
            requires
                pow2(24 + e) == 2 * pow2(24 + d),
        ;
        assert(den * pow2((23 + e) as nat) == (2 * den) * pow2((23 + d) as nat))
            by (nonlinear_arith)
            requires
                pow2((23 + e) as nat) == 2 * pow2((23 + d) as nat),
        ;
        lemma_round_at(num, den, e);
        e
    }
}

/// Rounding to the nearest whole number moves a quantity by a half at most.
proof fn lemma_half_even_near(num: nat, den: nat)
    requires
        den > 0,
    ensures
        2 * (den * half_even(num, den)) <= 2 * num + den,
        2 * num <= 2 * (den * half_even(num, den)) + den,
{
    let q = num / den;
    let r = num % den;
    lemma_fundamental_div_mod(num as int, den as int);
    assert(den * (q + 1) == den * q + den) by (nonlinear_arith);
}

/// A rounded quantity is as many units as its exponent and its rounding say.
proof fn lemma_rounded_units(neg: bool, num: nat, den: nat) -> (e: nat)
    requires
        den > 0,
        pack(neg, round_bits(num, den)).is_finite(),
    ensures
        num < den * pow2(24 + e),
        e == 0 || num >= den * pow2((23 + e) as nat),
        pack(neg, round_bits(num, den)).units() == half_even(num, den * pow2(e)) * pow2(e),
{
    let e = lemma_exponent(num, den);
    let r = pack(neg, round_bits(num, den));
    let d = den * pow2(e);
    let h = half_even(num, d);
    lemma_pow2_pos(e);
    assert(d > 0) by (nonlinear_arith)
        requires
            d == den * pow2(e),
            den > 0,
            pow2(e) > 0,
    ;
    lemma_half_even_near(num, d);
    lemma2_to64();
    lemma_pow2_adds(24, e);
    assert(num < 0x100_0000 * d) by (nonlinear_arith)
        requires
            num < den * pow2(24 + e),
            pow2(24 + e) == 0x100_0000 * pow2(e),
            d == den * pow2(e),
    ;
    assert(h <= 0x100_0000) by (nonlinear_arith)
        requires
            2 * (d * h) <= 2 * num + d,
            num < 0x100_0000 * d,
            d > 0,
    ;
    if e > 0 {
        lemma_pow2_adds(23, e);
        assert(num >= 0x80_0000 * d) by (nonlinear_arith)
            requires
                num >= den * pow2((23 + e) as nat),
                pow2((23 + e) as nat) == 0x80_0000 * pow2(e),
                d == den * pow2(e),
        ;
        assert(h >= 0x80_0000) by (nonlinear_arith)
            requires
                2 * num <= 2 * (d * h) + d,
                num >= 0x80_0000 * d,
                d > 0,
        ;
    }
    assert(r.mag() == e * 0x80_0000 + h);
    if h == 0x100_0000 {
        assert(r.exponent() == e + 1);
        assert(r.significand() == 0x80_0000);
        lemma_pow2_unfold(e + 1);
    } else {
        assert(r.exponent() == e);
        assert(r.significand() == h);
    }
    e
}

/// Rounding moves a quantity by one part in two to the power of 24, and by half a unit, at most; a
/// whole quantity, by the former alone.
pub proof fn law_rounding_is_near(neg: bool, num: nat, den: nat)
    requires
        den > 0,
        pack(neg, round_bits(num, den)).is_finite(),
    ensures
        ({
            let u = pack(neg, round_bits(num, den)).units();
            &&& u * den * 0x100_0000 <= num * 0x100_0001 + den * 0x80_0000
            &&& num * 0x100_0000 <= u * den * 0x100_0000 + num + den * 0x80_0000
            &&& den == 1 ==> u * 0x100_0000 <= num * 0x100_0001
            &&& den == 1 ==> num * 0x100_0000 <= u * 0x100_0000 + num
        }),
{
    let e = lemma_rounded_units(neg, num, den);
    let u = pack(neg, round_bits(num, den)).units();
    let p = pow2(e);
    let d = den * p;
    let h = half_even(num, d);
    lemma_pow2_pos(e);
    lemma2_to64();
    assert(d > 0) by (nonlinear_arith)
        requires
            d == den * p,
            den > 0,
            p > 0,
    ;
    lemma_half_even_near(num, d);
    assert(u * den == d * h) by (nonlinear_arith)
        requires
            u == h * p,
            d == den * p,
    ;
    if e > 0 {
        lemma_pow2_adds(23, e);
        assert(num >= 0x80_0000 * d) by (nonlinear_arith)
            requires
                num >= den * pow2((23 + e) as nat),
                pow2((23 + e) as nat) == 0x80_0000 * p,
                d == den * p,
        ;
    } else {
        assert(d == den) by (nonlinear_arith)
            requires
                d == den * p,
                p == 1,
        ;
        if den == 1 {
            assert(num * 1 == num);
            lemma_half_even_whole(num, 1);
        }
    }
    if den == 1 {
        assert(u * den == u) by (nonlinear_arith)
            requires
                den == 1,
        ;
    }
    let w = u * den;
    assert(w * 0x100_0000 <= num * 0x100_0001 + den * 0x80_0000);
    assert(num * 0x100_0000 <= w * 0x100_0000 + num + den * 0x80_0000);
}

/// Rounding raises a quantity by one part in two to the power of 24, and by half a unit, at most.
pub proof fn law_rounding_raises_little(neg: bool, num: nat, den: nat)
    requires
        den > 0,
        pack(neg, round_bits(num, den)).is_finite(),
    ensures
        pack(neg, round_bits(num, den)).units() * den * 0x200_0000 <= num * 0x200_0002 + den
            * 0x100_0000,
{
    let e = lemma_rounded_units(neg, num, den);
    let u = pack(neg, round_bits(num, den)).units();
    let p = pow2(e);
    let d = den * p;
    let h = half_even(num, d);
    lemma_pow2_pos(e);
    lemma2_to64();
    assert(d > 0) by (nonlinear_arith)
        requires
            d == den * p,
            den > 0,
            p > 0,
    ;
    lemma_half_even_near(num, d);
    assert(u * den == d * h) by (nonlinear_arith)
        requires
            u == h * p,
            d == den * p,
    ;
    if e > 0 {
        lemma_pow2_adds(23, e);
        assert(num >= 0x80_0000 * d) by (nonlinear_arith)
            requires
                num >= den * pow2((23 + e) as nat),
                pow2((23 + e) as nat) == 0x80_0000 * p,
                d == den * p,
        ;
    } else {
        assert(d == den) by (nonlinear_arith)
            requires
                d == den * p,
                p == 1,
        ;
    }
}

/// Rounding a whole quantity below two to the power of 24 times a power of two moves it by half of
/// that power at most.
pub proof fn law_rounding_moves_little(neg: bool, num: nat, top: nat)
    requires
        num < pow2(24 + top),
        pack(neg, round_bits(num, 1)).is_finite(),
    ensures
        2 * pack(neg, round_bits(num, 1)).units() <= 2 * num + pow2(top),
        2 * num <= 2 * pack(neg, round_bits(num, 1)).units() + pow2(top),
{
    let e = lemma_rounded_units(neg, num, 1);
    let p = pow2(e);
    lemma_pow2_pos(e);
    assert(1 * p == p);
    let h = half_even(num, p);
    lemma_half_even_near(num, p);
    assert(p * h == h * p) by (nonlinear_arith);
    if e > top {
        if 23 + e > 24 + top {
            lemma_pow2_strictly_increases(24 + top, 23 + e);
        }
        assert(1 * pow2((23 + e) as nat) == pow2((23 + e) as nat));
    } else if e < top {
        lemma_pow2_strictly_increases(e, top);
    }
}

/// A share of a number is no farther from zero than the number.
pub proof fn lemma_share(a: Single, b: Single)
    requires
        a.is_finite(),
        is_amount(b, 1),
    ensures
        product(a, b).is_finite(),
        product(a, b).units() <= a.units(),
{
    reveal(product);
    let p = pow2(149);
    lemma_pow2_pos(149);
    law_small_wholes_are_exact(1);
    law_order_is_order_of_values(b, from_whole(1));
    let ua = a.units();
    let ub = b.units();
    assert(ua * ub <= ua * p) by (nonlinear_arith)
        requires
            ub <= p,
    ;
    lemma_round_monotone(ua * ub, ua * p, p);
    assert((ua * p) * 1 == ua * p);
    lemma_round_same(ua * p, p, ua, 1);
    lemma_units_round(a);
    let r = product(a, b);
    law_order_is_order_of_values(absolute(r), absolute(a));
}

/// A positive number over a greater one is a share.
pub proof fn lemma_scale(a: Single, b: Single)
    requires
        a.is_finite(),
        b.is_finite(),
        !a.neg(),
        lt(a, b),
    ensures
        is_amount(quotient(a, b), 1),
{
    reveal(quotient);
    let p = pow2(149);
    lemma_pow2_pos(149);
    law_small_wholes_are_exact(1);
    law_order_is_order_of_values(a, b);
    lemma_units_round(a);
    lemma_units_round(b);
    let ua = a.units();
    let ub = b.units();
    assert(ua * p <= p * ub) by (nonlinear_arith)
        requires
            ua <= ub,
    ;
    assert(ub > 0);
    lemma_round_monotone(ua * p, p * ub, ub);
    assert((p * ub) * 1 == p * ub);
    lemma_round_same(p * ub, ub, p, 1);
    lemma_units_round(from_whole(1));
}

/// Whether a number falls short of the length of a vector by one in its last digit at most.
pub open spec fn measures(s: Single, x: Single, y: Single) -> bool {
    &&& !s.is_nan()
    &&& !s.neg()
    &&& s.is_finite() ==> x.units() * x.units() + y.units() * y.units() <= (s.units() + pow2(
        s.exponent(),
    )) * (s.units() + pow2(s.exponent()))
}

/// Whether a velocity is at most so fast, up to one part in two to the power of 20.
pub open spec fn is_at_most_as_fast(vx: Single, vy: Single, max: Single) -> bool {
    (vx.units() * vx.units() + vy.units() * vy.units()) * (0x10_0000 * 0x10_0000) <= (max.units()
        * 0x10_0001) * (max.units() * 0x10_0001)
}

/// The last digit of a number that is not subnormal is a small part of it.
proof fn lemma_last_digit(a: Single)
    requires
        a.is_finite(),
        a.exponent() > 0,
    ensures
        pow2(a.exponent()) * 0x80_0000 <= a.units(),
{
    lemma_units_round(a);
    let m = a.significand();
    let p = pow2(a.exponent());
    assert(p * 0x80_0000 <= m * p) by (nonlinear_arith)
        requires
            m >= 0x80_0000,
    ;
}

/// What a part of a velocity is after it was scaled: `a` is the part `x` times `m / s`, up to two
/// roundings.
proof fn lemma_scaled_part(v: Single, max: Single, speed: Single)
    requires
        v.is_finite(),
        max.is_finite(),
        speed.is_finite(),
        !max.neg(),
        lt(max, speed),
        max.units() >= 64 * pow2(149),
    ensures
        ({
            let r = product(v, quotient(max, speed));
            &&& r.is_finite()
            &&& (r.units() - 1) * speed.units() * 0x4_0000_0000_0000 <= v.units() * max.units() * (
            0x200_0002 * 0x200_0003)
        }),
{
    let p = pow2(149);
    lemma_pow2_pos(149);
    lemma_scale(max, speed);
    let scale = quotient(max, speed);
    lemma_share(v, scale);
    let r = product(v, scale);
    reveal(quotient);
    reveal(product);
    let (x, q, s, m, a) = (v.units(), scale.units(), speed.units(), max.units(), r.units());
    law_order_is_order_of_values(max, speed);
    assert(s > 0);
    lemma_units_round(speed);
    law_rounding_raises_little(false, m * p, s);
    law_rounding_raises_little(v.neg() != scale.neg(), x * q, p);
    // The speed is below two to the power of 277 units, so its share of the rounding is small.
    assert(s * 0x100_0000 <= m * p) by {
        let g = speed.significand();
        let z = pow2(speed.exponent());
        lemma2_to64();
        lemma_pow2_adds(speed.exponent(), (253 - speed.exponent()) as nat);
        lemma_pow2_pos((253 - speed.exponent()) as nat);
        let y = pow2((253 - speed.exponent()) as nat);
        assert(g * z <= 0x100_0000 * pow2(253)) by (nonlinear_arith)
            requires
                g < 0x100_0000,
                z * y == pow2(253),
                y >= 1,
                z >= 0,
        ;
        lemma_pow2_adds(104, 149);
        lemma2_to64_rest();
        let c = pow2(104);
        assert(pow2(253) * 0x1_0000_0000_0000 <= 64 * (p * p)) by {
            lemma_pow2_adds(45, 104);
            assert(p == pow2(45) * c);
            assert((c * p) * 0x1_0000_0000_0000 <= 64 * (p * p)) by (nonlinear_arith)
                requires
                    p == 0x2000_0000_0000 * c,
                    c > 0,
            {
                lemma_pow2_pos(104);
            }
        }
        assert(m * p >= 64 * (p * p)) by (nonlinear_arith)
            requires
                m >= 64 * p,
        ;
        assert(s * 0x100_0000 <= pow2(253) * 0x1_0000_0000_0000) by (nonlinear_arith)
            requires
                s <= 0x100_0000 * pow2(253),
        ;
    }
    let two25: nat = 0x200_0000;
    assert(q * s * two25 <= (m * p) * 0x200_0003);
    assert(a * p * two25 <= (x * q) * 0x200_0002 + p * 0x100_0000);
    assert((a * p * two25) * (s * two25) <= ((x * q) * 0x200_0002 + p * 0x100_0000) * (s * two25))
        by (nonlinear_arith)
        requires
            a * p * two25 <= (x * q) * 0x200_0002 + p * 0x100_0000,
            s * two25 >= 0,
    ;
    assert(((x * q) * 0x200_0002 + p * 0x100_0000) * (s * two25) == (x * 0x200_0002) * (q * s
        * two25) + (p * 0x100_0000) * (s * two25)) by (nonlinear_arith);
    assert((x * 0x200_0002) * (q * s * two25) <= (x * 0x200_0002) * ((m * p) * 0x200_0003))
        by (nonlinear_arith)
        requires
            q * s * two25 <= (m * p) * 0x200_0003,
            x >= 0,
    ;
    let big: nat = 0x4_0000_0000_0000;
    assert((a * p * two25) * (s * two25) == p * (a * s * big)) by (nonlinear_arith)
        requires
            two25 == 0x200_0000,
            big == 0x4_0000_0000_0000,
    ;
    assert((x * 0x200_0002) * ((m * p) * 0x200_0003) == p * (x * m * (0x200_0002 * 0x200_0003)))
        by (nonlinear_arith);
    assert((p * 0x100_0000) * (s * two25) <= p * (s * big)) by (nonlinear_arith)
        requires
            two25 == 0x200_0000,
            big == 0x4_0000_0000_0000,
            p >= 0,
            s >= 0,
    ;
    assert(p * (x * m * (0x200_0002 * 0x200_0003)) + p * (s * big) == p * (x * m * (0x200_0002
        * 0x200_0003) + s * big)) by (nonlinear_arith);
    assert(a * s * big <= x * m * (0x200_0002 * 0x200_0003) + s * big) by (nonlinear_arith)
        requires
            p * (a * s * big) <= p * (x * m * (0x200_0002 * 0x200_0003) + s * big),
            p > 0,
    ;
    assert((a - 1) * s * big == a * s * big - s * big) by (nonlinear_arith);
}

proof fn lemma_square_order(a: int, b: int)
    requires
        0 <= a <= b,
    ensures
        a * a <= b * b,
{
    assert(a * a <= b * b) by (nonlinear_arith)
        requires
            0 <= a <= b,
    ;
}

proof fn lemma_root_order(a: int, b: int)
    requires
        0 <= a,
        0 <= b,
        a * a <= b * b,
    ensures
        a <= b,
{
    assert(a <= b) by (nonlinear_arith)
        requires
            0 <= a,
            0 <= b,
            a * a <= b * b,
    ;
}

proof fn lemma_square_of_product(a: int, b: int)
    ensures
        (a * b) * (a * b) == (a * a) * (b * b),
{
    assert((a * b) * (a * b) == (a * a) * (b * b)) by (nonlinear_arith);
}

/// The parts `a` and `b` of a velocity, which were `x` and `y` before they were scaled by the
/// greatest speed `m` over the measured speed `s`, lie within the greatest speed.
proof fn lemma_scaled_speed(x: int, y: int, s: int, t: int, m: int, a: int, b: int)
    requires
        0 <= x,
        0 <= y,
        0 < s,
        0 <= t,
        0x10_0000_0000 <= m,
        0 <= a,
        0 <= b,
        (a - 1) * s * 0x4_0000_0000_0000 <= x * m * (0x200_0002 * 0x200_0003),
        (b - 1) * s * 0x4_0000_0000_0000 <= y * m * (0x200_0002 * 0x200_0003),
        x * x + y * y <= t * t,
        t * 0x80_0000 <= s * 0x80_0001,
    ensures
        (a * a + b * b) * (0x10_0000 * 0x10_0000) <= (m * 0x10_0001) * (m * 0x10_0001),
{
    let d: int = 0x4_0000_0000_0000;
    let c: int = 0x200_0002int * 0x200_0003int;
    let g: int = d * 0x80_0000;
    let h: int = c * 0x80_0001;
    let k: int = 0x10_0000;
    let a1 = if a > 0 {
        a - 1
    } else {
        0
    };
    let b1 = if b > 0 {
        b - 1
    } else {
        0
    };
    let w = m * c;
    assert(x * m * c == x * w && y * m * c == y * w) by (nonlinear_arith)
        requires
            w == m * c,
    ;
    assert(0 <= w && 0 <= x * w && 0 <= y * w) by (nonlinear_arith)
        requires
            w == m * c,
            m >= 0,
            c == 0x200_0002 * 0x200_0003,
            x >= 0,
            y >= 0,
    ;
    let sd = s * d;
    assert((a - 1) * s * d == (a - 1) * sd && (b - 1) * s * d == (b - 1) * sd) by (nonlinear_arith)
        requires
            sd == s * d,
    ;
    assert(0 <= a1 * sd && 0 <= b1 * sd) by (nonlinear_arith)
        requires
            sd == s * d,
            s > 0,
            d > 0,
            a1 >= 0,
            b1 >= 0,
    ;
    assert(a1 * sd <= x * w && b1 * sd <= y * w) by {
        assert(0 * sd == 0);
    }
    // The scaled parts, squared.
    lemma_square_order(a1 * sd, x * w);
    lemma_square_order(b1 * sd, y * w);
    lemma_square_of_product(a1, sd);
    lemma_square_of_product(b1, sd);
    lemma_square_of_product(x, w);
    lemma_square_of_product(y, w);
    let n = a1 * a1 + b1 * b1;
    let l = x * x + y * y;
    assert(n * (sd * sd) == (a1 * a1) * (sd * sd) + (b1 * b1) * (sd * sd)) by (nonlinear_arith)
        requires
            n == a1 * a1 + b1 * b1,
    ;
    assert(l * (w * w) == (x * x) * (w * w) + (y * y) * (w * w)) by (nonlinear_arith)
        requires
            l == x * x + y * y,
    ;
    assert(l * (w * w) <= (t * t) * (w * w)) by (nonlinear_arith)
        requires
            l <= t * t,
            w * w >= 0,
    {
        assert(w * w >= 0) by (nonlinear_arith);
    }
    lemma_square_of_product(t, w);
    // The measured speed in place of the true one.
    let z: int = 0x80_0000;
    let tw = t * w;
    assert(n * (sd * sd) <= tw * tw);
    assert((n * (sd * sd)) * (z * z) <= (tw * tw) * (z * z)) by (nonlinear_arith)
        requires
            n * (sd * sd) <= tw * tw,
            z * z >= 0,
    ;
    lemma_square_of_product(tw, z);
    lemma_square_of_product(sd, z);
    assert((n * (sd * sd)) * (z * z) == n * ((sd * z) * (sd * z))) by (nonlinear_arith)
        requires
            (sd * z) * (sd * z) == (sd * sd) * (z * z),
    ;
    assert(sd * z == s * g) by (nonlinear_arith)
        requires
            sd == s * d,
            g == d * z,
    ;
    let f = m * h;
    assert(0 <= tw * z <= s * f) by (nonlinear_arith)
        requires
            tw == t * w,
            t * z <= s * 0x80_0001,
            0 <= t,
            w == m * c,
            w >= 0,
            f == m * h,
            h == c * 0x80_0001,
            z > 0,
    {
        assert(tw * z == (t * z) * w) by (nonlinear_arith)
            requires
                tw == t * w,
        ;
        assert((t * z) * w <= (s * 0x80_0001) * w) by (nonlinear_arith)
            requires
                t * z <= s * 0x80_0001,
                w >= 0,
        ;
        assert((s * 0x80_0001) * w == s * f) by (nonlinear_arith)
            requires
                w == m * c,
                f == m * h,
                h == c * 0x80_0001,
        ;
        assert(0 <= tw * z) by (nonlinear_arith)
            requires
                tw == t * w,
                t >= 0,
                w >= 0,
                z > 0,
        ;
    }
    lemma_square_order(tw * z, s * f);
    lemma_square_of_product(s, g);
    lemma_square_of_product(s, f);
    let ss = s * s;
    assert(n * (ss * (g * g)) <= ss * (f * f));
    assert(ss > 0) by (nonlinear_arith)
        requires
            ss == s * s,
            s > 0,
    ;
    assert(n * (ss * (g * g)) == ss * (n * (g * g))) by (nonlinear_arith);
    assert(n * (g * g) <= f * f) by (nonlinear_arith)
        requires
            ss * (n * (g * g)) <= ss * (f * f),
            ss > 0,
    ;
    // Each part on its own.
    let gg = g * g;
    assert(n * gg == (a1 * a1) * gg + (b1 * b1) * gg) by (nonlinear_arith)
        requires
            n == a1 * a1 + b1 * b1,
    ;
    lemma_square_of_product(a1, g);
    lemma_square_of_product(b1, g);
    assert((a1 * a1) * gg >= 0 && (b1 * b1) * gg >= 0) by (nonlinear_arith)
        requires
            gg == g * g,
    ;
    assert(0 <= f && 0 <= a1 * g && 0 <= b1 * g) by (nonlinear_arith)
        requires
            f == m * h,
            m >= 0,
            h >= 0,
            a1 >= 0,
            b1 >= 0,
            g >= 0,
    ;
    lemma_root_order(a1 * g, f);
    lemma_root_order(b1 * g, f);
    // One unit more for each part.
    lemma_square_order(a, a1 + 1);
    lemma_square_order(b, b1 + 1);
    assert((a1 + 1) * (a1 + 1) == a1 * a1 + 2 * a1 + 1) by (nonlinear_arith);
    assert((b1 + 1) * (b1 + 1) == b1 * b1 + 2 * b1 + 1) by (nonlinear_arith);
    let v = a * a + b * b;
    assert(v * gg <= (n + 2 * a1 + 2 * b1 + 2) * gg) by (nonlinear_arith)
        requires
            v <= n + 2 * a1 + 2 * b1 + 2,
            gg >= 0,
    ;
    assert((n + 2 * a1 + 2 * b1 + 2) * gg == n * gg + (2 * (a1 * g) + 2 * (b1 * g) + 2 * g) * g)
        by (nonlinear_arith)
        requires
            gg == g * g,
    ;
    assert((2 * (a1 * g) + 2 * (b1 * g) + 2 * g) * g <= (4 * f + 4 * g) * g) by (nonlinear_arith)
        requires
            a1 * g <= f,
            b1 * g <= f,
            g > 0,
    ;
    let top = f + 2 * g;
    assert(top * top == f * f + (4 * f + 4 * g) * g) by (nonlinear_arith)
        requires
            top == f + 2 * g,
    ;
    assert(v * gg <= top * top);
    // The constants.
    let e = m * 0x10_0001;
    assert(0 <= top * k <= g * e) by (nonlinear_arith)
        requires
            top == m * h + 2 * g,
            e == m * 0x10_0001,
            k == 0x10_0000,
            g == 0x4_0000_0000_0000 * 0x80_0000,
            h == (0x200_0002 * 0x200_0003) * 0x80_0001,
            m >= 0x10_0000_0000,
    ;
    lemma_square_order(top * k, g * e);
    lemma_square_of_product(top, k);
    lemma_square_of_product(g, e);
    assert((v * gg) * (k * k) <= (top * top) * (k * k)) by (nonlinear_arith)
        requires
            v * gg <= top * top,
            k * k >= 0,
    ;
    assert((v * gg) * (k * k) == gg * (v * (k * k))) by (nonlinear_arith);
    assert(v * (k * k) <= e * e) by (nonlinear_arith)
        requires
            gg * (v * (k * k)) <= gg * (e * e),
            gg > 0,
    ;
}

/// A velocity that was scaled by the greatest speed over its measured length, and then shortened by
/// drag, lies within the greatest speed; so does one whose measured length was within it.
pub proof fn lemma_capped_speed(
    vx: Single,
    vy: Single,
    speed: Single,
    max: Single,
    drag: Single,
)
    requires
        vx.is_finite(),
        vy.is_finite(),
        measures(speed, vx, vy),
        max.is_finite(),
        !max.neg(),
        max.units() >= 64 * pow2(149),
        is_amount(drag, 1),
    ensures
        lt(max, speed) ==> is_at_most_as_fast(
            product(product(vx, quotient(max, speed)), drag),
            product(product(vy, quotient(max, speed)), drag),
            max,
        ),
        !lt(max, speed) ==> is_at_most_as_fast(product(vx, drag), product(vy, drag), max),
{
    let (x, y, m) = (vx.units() as int, vy.units() as int, max.units() as int);
    let k: int = 0x10_0000;
    lemma_pow2_adds(113, 36);
    lemma_pow2_pos(113);
    lemma2_to64_rest();
    assert(max.exponent() > 0) by {
        lemma_units_round(max);
        lemma2_to64();
        if max.exponent() == 0 {
            assert(max.significand() * pow2(0) == max.significand());
        }
    }
    lemma_last_digit(max);
    if lt(max, speed) && speed.is_finite() {
        law_order_is_order_of_values(max, speed);
        lemma_scaled_part(vx, max, speed);
        lemma_scaled_part(vy, max, speed);
        let ax = product(vx, quotient(max, speed));
        let ay = product(vy, quotient(max, speed));
        lemma_share(ax, drag);
        lemma_share(ay, drag);
        lemma_last_digit(speed);
        let s = speed.units() as int;
        let t = s + pow2(speed.exponent()) as int;
        let (a, b) = (ax.units() as int, ay.units() as int);
        lemma_scaled_speed(x, y, s, t, m, a, b);
        let (c, d) = (product(ax, drag).units() as int, product(ay, drag).units() as int);
        lemma_square_order(c, a);
        lemma_square_order(d, b);
        assert((c * c + d * d) * (k * k) <= (a * a + b * b) * (k * k)) by (nonlinear_arith)
            requires
                c * c + d * d <= a * a + b * b,
        ;
        assert(is_at_most_as_fast(product(ax, drag), product(ay, drag), max));
    } else if lt(max, speed) {
        // Beyond every number, the scale is nothing.
        reveal(quotient);
        reveal(product);
        let zero = quotient(max, speed);
        assert(zero.units() == 0) by {
            lemma2_to64();
            assert(0 * pow2(0) == 0);
        }
        assert(is_amount(zero, 1)) by {
            law_small_wholes_are_exact(1);
            law_order_is_order_of_values(zero, from_whole(1));
        }
        lemma_share(vx, zero);
        lemma_share(vy, zero);
        let ax = product(vx, zero);
        let ay = product(vy, zero);
        lemma_round_nothing();
        assert(vx.units() * 0 == 0 && vy.units() * 0 == 0);
        assert(ax.mag() == 0 && ay.mag() == 0);
        lemma_units_round(ax);
        lemma_units_round(ay);
        lemma_share(ax, drag);
        lemma_share(ay, drag);
        assert(product(ax, drag).units() == 0 && product(ay, drag).units() == 0);
        assert((m * 0x10_0001) * (m * 0x10_0001) >= 0) by (nonlinear_arith);
        assert(is_at_most_as_fast(product(ax, drag), product(ay, drag), max));
    } else {
        law_order_is_order_of_values(speed, max);
        lemma_share(vx, drag);
        lemma_share(vy, drag);
        let s = speed.units() as int;
        let u = pow2(speed.exponent()) as int;
        assert(u * 0x80_0000 <= m) by {
            assert(speed.mag() <= max.mag());
            assert(speed.exponent() <= max.exponent());
            if speed.exponent() < max.exponent() {
                lemma_pow2_strictly_increases(speed.exponent(), max.exponent());
            }
        }
        let (c, d) = (product(vx, drag).units() as int, product(vy, drag).units() as int);
        lemma_square_order(c, x);
        lemma_square_order(d, y);
        let v = c * c + d * d;
        let t = s + u;
        assert(0 <= t * k <= m * 0x10_0001) by (nonlinear_arith)
            requires
                t == s + u,
                0 <= s <= m,
                0 <= u,
                u * 0x80_0000 <= m,
                k == 0x10_0000,
        ;
        lemma_square_order(t * k, m * 0x10_0001);
        lemma_square_of_product(t, k);
        assert(v * (k * k) <= (t * t) * (k * k)) by (nonlinear_arith)
            requires
                v <= t * t,
                k * k >= 0,
        ;
    }
}

/// Nothing rounds to nothing.
proof fn lemma_round_nothing()
    ensures
        round_bits(0, pow2(149)) == 0,
{
    lemma_pow2_pos(149);
    lemma_small_mod(0, pow2(149));
    lemma_fundamental_div_mod_converse(0, pow2(149) as int, 0, 0);
}

} // verus!
