//! How rounding and order go together: the facts that the rules of the game rest on.
use vstd::arithmetic::div_mod::*;
use vstd::arithmetic::mul::*;
use vstd::arithmetic::power2::*;
use vstd::prelude::*;

use crate::rounding::{lemma_half_even_whole, lemma_round_monotone, round_bits, INFINITY_BITS};
use crate::single::{
    absolute, difference, from_whole, le, lemma_units_round, lt, negated, pack, product, remainder,
    sum, wrapped, zero, Single,
};

verus! {

/// Numbers are ordered as the values they stand for.
pub proof fn law_order_is_order_of_values(a: Single, b: Single)
    requires
        a.is_finite(),
        b.is_finite(),
    ensures
        lt(a, b) <==> a.value() < b.value(),
        le(a, b) <==> a.value() <= b.value(),
{
    lemma_units_round(a);
    lemma_units_round(b);
    if a.units() <= b.units() {
        lemma_round_monotone(a.units(), b.units(), 1);
    }
    if b.units() <= a.units() {
        lemma_round_monotone(b.units(), a.units(), 1);
    }
}

/// Rounding a sum never crosses a number: a sum that is exactly at most a number stays at most
/// that number, and one that is at least it stays at least it.
pub proof fn law_sum_never_crosses(a: Single, b: Single, c: Single)
    requires
        a.is_finite(),
        b.is_finite(),
        c.is_finite(),
    ensures
        a.value() + b.value() <= c.value() ==> le(sum(a, b), c),
        a.value() + b.value() >= c.value() ==> le(c, sum(a, b)),
{
    reveal(sum);
    let v = a.value() + b.value();
    lemma_units_round(c);
    let n = vstd::math::abs(v);
    if n <= c.units() {
        lemma_round_monotone(n, c.units(), 1);
    }
    if c.units() <= n {
        lemma_round_monotone(c.units(), n, 1);
    }
}

pub proof fn lemma_zero()
    ensures
        zero().is_finite(),
        zero().value() == 0,
        zero().key() == 0,
{
    lemma_units_round(zero());
}

pub proof fn lemma_negated(b: Single)
    ensures
        negated(b).mag() == b.mag(),
        negated(b).key() == -b.key(),
        negated(b).is_finite() == b.is_finite(),
        negated(b).units() == b.units(),
        negated(b).value() == -b.value(),
{
}

/// Taking away from a number something not negative never raises it, even where either goes beyond
/// every number.
pub proof fn lemma_difference_at_most(a: Single, b: Single)
    requires
        a.is_finite() || (a.is_infinite() && a.neg()),
        le(zero(), b),
    ensures
        le(difference(a, b), a),
{
    lemma_zero();
    lemma_negated(b);
    if a.is_finite() && b.is_finite() {
        law_order_is_order_of_values(zero(), b);
        law_sum_never_crosses(a, negated(b), a);
    } else {
        reveal(sum);
    }
}

/// Taking away from a number something not above it leaves nothing negative.
pub proof fn lemma_difference_not_negative(a: Single, b: Single)
    requires
        a.is_finite(),
        b.is_finite(),
        le(b, a),
    ensures
        le(zero(), difference(a, b)),
{
    lemma_zero();
    lemma_negated(b);
    law_order_is_order_of_values(b, a);
    law_sum_never_crosses(a, negated(b), zero());
}

/// A sum with something not negative is at least the other term, even where either goes beyond
/// every number.
pub proof fn lemma_sum_at_least(a: Single, b: Single)
    requires
        a.is_finite() || (a.is_infinite() && !a.neg()),
        le(zero(), b),
    ensures
        le(a, sum(a, b)),
{
    lemma_zero();
    if a.is_finite() && b.is_finite() {
        law_order_is_order_of_values(zero(), b);
        law_sum_never_crosses(a, b, a);
    } else {
        reveal(sum);
    }
}

/// Nothing that is not below every number brings a sum back from beyond every number.
pub proof fn lemma_sum_beyond(a: Single, b: Single)
    requires
        !a.is_nan(),
        !(a.is_infinite() && a.neg()),
        b.is_infinite(),
        !b.neg(),
    ensures
        sum(a, b) == b,
{
    reveal(sum);
}

/// A sum with a finite number is a number.
pub proof fn lemma_sum_is_a_number(a: Single, b: Single)
    requires
        !a.is_nan(),
        b.is_finite(),
    ensures
        !sum(a, b).is_nan(),
{
    reveal(sum);
}

/// Wrapping round a positive divisor leads into the range from zero to the divisor, both included.
pub proof fn law_wrapped_in_range(a: Single, b: Single)
    requires
        a.is_finite(),
        b.is_finite(),
        lt(zero(), b),
    ensures
        wrapped(a, b).is_finite(),
        le(zero(), wrapped(a, b)),
        le(wrapped(a, b), b),
{
    reveal(remainder);
    lemma_zero();
    lemma_units_round(a);
    lemma_units_round(b);
    law_order_is_order_of_values(zero(), b);
    let u = a.units() % b.units();
    let r = remainder(a, b);
    lemma_mod_bound(a.units() as int, b.units() as int);
    lemma_round_monotone(u, b.units(), 1);
    lemma_remainder_units(a, b);
    if lt(r, zero()) {
        assert(absolute(b) == b);
        law_sum_never_crosses(r, b, b);
        law_sum_never_crosses(r, b, zero());
    }
}

/// Wrapping leads to the number nearest to what the division leaves; where the dividend is not
/// negative, to exactly that.
pub proof fn law_wrapping_is_congruent(a: Single, b: Single)
    requires
        a.is_finite(),
        b.is_finite(),
        lt(zero(), b),
    ensures
        wrapped(a, b).mag() == round_bits((a.value() % b.value()) as nat, 1),
        a.value() >= 0 ==> wrapped(a, b).value() == a.value() % b.value(),
{
    lemma_zero();
    law_order_is_order_of_values(zero(), b);
    law_wrapped_in_range(a, b);
    lemma_remainder_units(a, b);
    let r = remainder(a, b);
    let ua = a.units() as int;
    let ub = b.units() as int;
    lemma_fundamental_div_mod(ua, ub);
    lemma_mod_bound(ua, ub);
    law_order_is_order_of_values(r, zero());
    lemma_units_round(r);
    let q = ua / ub;
    if lt(r, zero()) {
        assert(absolute(b) == b);
        assert(-ua == ub * (-q - 1) + (ub - ua % ub)) by (nonlinear_arith)
            requires
                ua == ub * q + ua % ub,
        ;
        lemma_fundamental_div_mod_converse(-ua, ub, -q - 1, ub - ua % ub);
        reveal(sum);
    } else if a.neg() {
        assert(-ua == ub * (-q) + 0) by (nonlinear_arith)
            requires
                ua == ub * q,
        ;
        lemma_fundamental_div_mod_converse(-ua, ub, -q, 0);
    }
}

/// A remainder is exact.
proof fn lemma_remainder_units(a: Single, b: Single)
    requires
        a.is_finite(),
        b.is_finite(),
        b.mag() != 0,
    ensures
        remainder(a, b).is_finite(),
        remainder(a, b).units() == a.units() % b.units(),
        remainder(a, b).neg() == a.neg(),
{
    reveal(remainder);
    lemma_units_round(a);
    lemma_units_round(b);
    let u = a.units() % b.units();
    lemma_mod_bound(a.units() as int, b.units() as int);
    lemma_round_monotone(u, b.units(), 1);
    let r = remainder(a, b);
    lemma_units_round(r);
    lemma_pow2_pos(a.exponent());
    lemma_pow2_pos(b.exponent());
    // The remainder is a multiple of the lesser power, and less than the divisor.
    let e = if a.exponent() < b.exponent() {
        a.exponent()
    } else {
        b.exponent()
    };
    let p = pow2(e);
    lemma_pow2_pos(e);
    lemma_pow2_adds((a.exponent() - e) as nat, e);
    lemma_pow2_adds((b.exponent() - e) as nat, e);
    let x = a.significand() * pow2((a.exponent() - e) as nat);
    let y = b.significand() * pow2((b.exponent() - e) as nat);
    assert(a.units() == x * p) by (nonlinear_arith)
        requires
            a.units() == a.significand() * pow2(a.exponent()),
            pow2(a.exponent()) == pow2((a.exponent() - e) as nat) * p,
            x == a.significand() * pow2((a.exponent() - e) as nat),
    ;
    assert(b.units() == y * p) by (nonlinear_arith)
        requires
            b.units() == b.significand() * pow2(b.exponent()),
            pow2(b.exponent()) == pow2((b.exponent() - e) as nat) * p,
            y == b.significand() * pow2((b.exponent() - e) as nat),
    ;
    assert(y > 0) by (nonlinear_arith)
        requires
            y * p > 0,
            p > 0,
    ;
    lemma_fundamental_div_mod(x as int, y as int);
    let q = x / y;
    let m = x % y;
    assert(x * p == q * (y * p) + m * p) by (nonlinear_arith)
        requires
            x == y * q + m,
    ;
    assert(0 <= m * p < y * p) by (nonlinear_arith)
        requires
            0 <= m < y,
            p > 0,
    ;
    lemma_fundamental_div_mod_converse((x * p) as int, (y * p) as int, q as int, (m * p) as int);
    assert(u == m * p);
    lemma2_to64();
    assert(m < 0x100_0000) by {
        if b.exponent() == e {
            assert(pow2(0) == 1);
            lemma_mul_basics(b.significand() as int);
        } else {
            // The dividend has the lesser exponent and is less than the divisor.
            assert(pow2(0) == 1);
            lemma_mul_basics(a.significand() as int);
            if x < y {
                lemma_small_mod(x, y);
            } else {
                lemma_pow2_pos((b.exponent() - e) as nat);
                lemma_pow2_unfold((b.exponent() - e) as nat);
                lemma_pow2_pos((b.exponent() - e - 1) as nat);
                assert(y >= 0x100_0000) by (nonlinear_arith)
                    requires
                        y == b.significand() * pow2((b.exponent() - e) as nat),
                        b.significand() >= 0x80_0000,
                        pow2((b.exponent() - e) as nat) >= 2,
                ;
            }
        }
    }
    lemma_round_exact(m, e);
    lemma_round_monotone(u, b.units(), 1);
}

/// A number with at most 24 digits is kept by rounding, wherever its digits stand.
proof fn lemma_round_exact(m: nat, e: nat)
    requires
        m < 0x100_0000,
        e <= 253,
    ensures
        ({
            let r = pack(false, round_bits(m * pow2(e), 1));
            round_bits(m * pow2(e), 1) < INFINITY_BITS && r.units() == m * pow2(e)
                && pack(true, round_bits(m * pow2(e), 1)).units() == m * pow2(e)
        }),
    decreases e,
{
    lemma2_to64();
    if m >= 0x80_0000 || e == 0 {
        let c = Single { bits: (e * 0x80_0000 + m) as u32 };
        let d = Single { bits: (0x8000_0000 + e * 0x80_0000 + m) as u32 };
        assert(c.mag() == e * 0x80_0000 + m);
        assert(d.mag() == e * 0x80_0000 + m);
        lemma_units_round(c);
        lemma_units_round(d);
        if e == 0 && m < 0x80_0000 {
            assert(c.exponent() == 0);
        } else {
            assert((e * 0x80_0000 + m) / 0x80_0000 == e + 1) by (nonlinear_arith)
                requires
                    0x80_0000 <= m < 0x100_0000,
            ;
        }
        assert(c.units() == m * pow2(e));
    } else {
        lemma_pow2_unfold(e);
        assert(m * pow2(e) == (2 * m) * pow2((e - 1) as nat)) by (nonlinear_arith)
            requires
                pow2(e) == 2 * pow2((e - 1) as nat),
        ;
        lemma_round_exact(2 * m, (e - 1) as nat);
    }
}

/// Small whole numbers are held exactly.
pub proof fn law_small_wholes_are_exact(n: int)
    requires
        -0x100_0000 < n < 0x100_0000,
    ensures
        from_whole(n).is_finite(),
        from_whole(n).value() == n * pow2(149),
{
    reveal(from_whole);
    let m = vstd::math::abs(n);
    lemma_round_exact(m, 149);
    if n < 0 {
        assert(-(m * pow2(149)) == n * pow2(149)) by (nonlinear_arith)
            requires
                m == -n,
        ;
    }
}

/// Small whole numbers are ordered as whole numbers are.
pub proof fn lemma_small_wholes_order(m: int, n: int)
    requires
        -0x100_0000 < m < 0x100_0000,
        -0x100_0000 < n < 0x100_0000,
    ensures
        lt(from_whole(m), from_whole(n)) <==> m < n,
        le(from_whole(m), from_whole(n)) <==> m <= n,
{
    law_small_wholes_are_exact(m);
    law_small_wholes_are_exact(n);
    law_order_is_order_of_values(from_whole(m), from_whole(n));
    lemma_pow2_pos(149);
    let p = pow2(149);
    assert(m < n ==> m * p < n * p) by (nonlinear_arith)
        requires
            p > 0,
    ;
    assert(m > n ==> m * p > n * p) by (nonlinear_arith)
        requires
            p > 0,
    ;
}

/// Small whole numbers are added exactly.
pub proof fn law_small_wholes_add(m: int, n: int)
    requires
        -0x80_0000 < m < 0x80_0000,
        -0x80_0000 < n < 0x80_0000,
        m != 0 || n != 0,
    ensures
        sum(from_whole(m), from_whole(n)) == from_whole(m + n),
{
    law_small_wholes_are_exact(m);
    law_small_wholes_are_exact(n);
    reveal(sum);
    let p = pow2(149);
    lemma_pow2_pos(149);
    assert(m * p + n * p == (m + n) * p) by (nonlinear_arith);
    let v = (m + n) * p;
    assert(vstd::math::abs(v) == vstd::math::abs(m + n) * p) by (nonlinear_arith)
        requires
            v == (m + n) * p,
            p > 0,
    ;
    reveal(from_whole);
    assert(m + n > 0 ==> v > 0) by (nonlinear_arith)
        requires
            v == (m + n) * p,
            p > 0,
    ;
    assert(m + n < 0 ==> v < 0) by (nonlinear_arith)
        requires
            v == (m + n) * p,
            p > 0,
    ;
    if m + n == 0 {
        assert(0 * p == 0);
        lemma_half_even_whole(0, 1);
    }
}

/// A difference of small whole numbers is exact.
pub proof fn law_small_wholes_subtract(m: int, n: int)
    requires
        -0x80_0000 < m < 0x80_0000,
        -0x80_0000 < n < 0x80_0000,
        n != 0,
    ensures
        difference(from_whole(m), from_whole(n)) == from_whole(m - n),
{
    reveal(from_whole);
    law_small_wholes_add(m, -n);
    lemma_round_exact(vstd::math::abs(n), 149);
    assert(negated(from_whole(n)) == from_whole(-n));
}

/// A product of numbers that are not negative is not negative.
pub proof fn lemma_product_not_negative(a: Single, b: Single)
    requires
        a.is_finite(),
        b.is_finite(),
        !a.neg(),
        !b.neg(),
    ensures
        !product(a, b).neg(),
        !product(a, b).is_nan(),
        le(zero(), product(a, b)),
{
    reveal(product);
}

} // verus!
