//! Amounts: numbers that are not negative and not too great, and what becomes of them.
use vstd::arithmetic::mul::*;
use vstd::arithmetic::power2::*;
use vstd::prelude::*;

use crate::game::{class_stats, ShipClass};
use crate::order::{
    law_order_is_order_of_values, law_small_wholes_are_exact, law_sum_never_crosses, lemma_negated,
    lemma_small_wholes_order, lemma_zero,
};
use crate::rounding::{lemma_round_monotone, lemma_round_same, round_bits};
use crate::single::{
    clamped, difference, from_fraction, from_whole, le, lemma_units_round, lt, negated, product,
    quotient, sum, zero, Single,
};

verus! {

/// A number between minus a whole number and that whole number.
pub open spec fn is_within(a: Single, n: int) -> bool {
    a.is_finite() && le(from_whole(-n), a) && le(a, from_whole(n))
}

/// A number from zero to a whole number.
pub open spec fn is_amount(a: Single, n: int) -> bool {
    a.is_finite() && !a.neg() && le(a, from_whole(n))
}

/// A whole number is an amount up to any that is not less.
pub proof fn lemma_whole_amount(m: int, n: int)
    requires
        0 <= m <= n < 0x100_0000,
    ensures
        is_amount(from_whole(m), n),
{
    law_small_wholes_are_exact(m);
    lemma_small_wholes_order(m, n);
    reveal(from_whole);
}

/// What is between zero and an amount is within the bound of the amount.
pub proof fn lemma_below_amount(a: Single, b: Single, n: int)
    requires
        is_amount(b, n),
        le(zero(), a),
        le(a, b),
        0 <= n < 0x100_0000,
    ensures
        is_within(a, n),
{
    lemma_zero();
    law_small_wholes_are_exact(n);
    law_small_wholes_are_exact(-n);
    law_order_is_order_of_values(from_whole(-n), zero());
    lemma_pow2_pos(149);
    assert(-n * pow2(149) <= 0) by (nonlinear_arith)
        requires
            n >= 0,
            pow2(149) > 0,
    ;
}

/// An amount is within its bound.
pub proof fn lemma_amount_within(a: Single, n: int)
    requires
        is_amount(a, n),
        0 <= n < 0x100_0000,
    ensures
        is_within(a, n),
        le(zero(), a),
{
    lemma_below_amount(a, a, n);
}

/// Sums stay within the sum of the bounds.
pub proof fn lemma_sum_within(a: Single, b: Single, m: int, n: int)
    requires
        is_within(a, m),
        is_within(b, n),
        0 <= m,
        0 <= n,
        m + n < 0x100_0000,
    ensures
        is_within(sum(a, b), m + n),
{
    let p = pow2(149);
    law_small_wholes_are_exact(m);
    law_small_wholes_are_exact(n);
    law_small_wholes_are_exact(-m);
    law_small_wholes_are_exact(-n);
    law_small_wholes_are_exact(m + n);
    law_small_wholes_are_exact(-(m + n));
    law_order_is_order_of_values(a, from_whole(m));
    law_order_is_order_of_values(b, from_whole(n));
    law_order_is_order_of_values(from_whole(-m), a);
    law_order_is_order_of_values(from_whole(-n), b);
    assert((m + n) * p == m * p + n * p) by (nonlinear_arith);
    assert(-(m + n) * p == -m * p + -n * p) by (nonlinear_arith);
    law_sum_never_crosses(a, b, from_whole(m + n));
    law_sum_never_crosses(a, b, from_whole(-(m + n)));
}

/// Differences stay within the sum of the bounds.
pub proof fn lemma_difference_within(a: Single, b: Single, m: int, n: int)
    requires
        is_within(a, m),
        is_within(b, n),
        0 <= m,
        0 <= n,
        m + n < 0x100_0000,
    ensures
        is_within(difference(a, b), m + n),
{
    lemma_negated(b);
    lemma_negated(from_whole(n));
    law_small_wholes_are_exact(n);
    law_small_wholes_are_exact(-n);
    law_order_is_order_of_values(b, from_whole(n));
    law_order_is_order_of_values(from_whole(-n), b);
    law_order_is_order_of_values(negated(b), from_whole(n));
    law_order_is_order_of_values(from_whole(-n), negated(b));
    let p = pow2(149);
    assert(-n * p == -(n * p)) by (nonlinear_arith);
    lemma_sum_within(a, negated(b), m, n);
}

/// A product of amounts is at most the product of their bounds.
pub proof fn lemma_product_amount(a: Single, b: Single, m: int, n: int)
    requires
        is_amount(a, m),
        is_amount(b, n),
        0 <= m < 0x100_0000,
        0 <= n < 0x100_0000,
        0 <= m * n < 0x100_0000,
    ensures
        is_amount(product(a, b), m * n),
{
    reveal(product);
    let p = pow2(149);
    lemma_pow2_pos(149);
    law_small_wholes_are_exact(m);
    law_small_wholes_are_exact(n);
    law_small_wholes_are_exact(m * n);
    law_order_is_order_of_values(a, from_whole(m));
    law_order_is_order_of_values(b, from_whole(n));
    let ua = a.units();
    let ub = b.units();
    let top = ((m * n) * p) as nat;
    assert(ua * ub <= top * p) by (nonlinear_arith)
        requires
            0 <= ua <= m * p,
            0 <= ub <= n * p,
            top == (m * n) * p,
    ;
    lemma_round_monotone(ua * ub, top * p, p);
    assert((top * p) * 1 == top * p);
    lemma_round_same(top * p, p, top, 1);
    lemma_units_round(from_whole(m * n));
}

/// A greater factor gives no smaller product: where that is finite, so is the other.
pub proof fn lemma_product_monotone(a: Single, b: Single, c: Single)
    requires
        a.is_finite(),
        !a.neg(),
        b.is_finite(),
        !b.neg(),
        c.is_finite(),
        !c.neg(),
        le(a, b),
        product(b, c).is_finite(),
    ensures
        product(a, c).is_finite(),
        le(product(a, c), product(b, c)),
{
    reveal(product);
    let p = pow2(149);
    lemma_pow2_pos(149);
    law_order_is_order_of_values(a, b);
    let ua = a.units();
    let ub = b.units();
    let uc = c.units();
    assert(ua * uc <= ub * uc) by (nonlinear_arith)
        requires
            ua <= ub,
    ;
    lemma_round_monotone(ua * uc, ub * uc, p);
}

/// The least positive number of units rounds to itself.
proof fn lemma_one_unit(den: nat)
    requires
        den > 0,
    ensures
        round_bits(den, den) == 1,
{
    let least = Single { bits: 1 };
    lemma2_to64();
    assert(least.units() == 1);
    lemma_units_round(least);
    assert(den * 1 == den);
    lemma_round_same(den, den, 1, 1);
}

/// A product with a factor of at least one is positive where the other factor is.
pub proof fn lemma_product_positive(a: Single, b: Single)
    requires
        a.is_finite(),
        b.is_finite(),
        le(from_whole(1), a),
        lt(zero(), b),
    ensures
        lt(zero(), product(a, b)),
{
    reveal(product);
    let p = pow2(149);
    lemma_pow2_pos(149);
    lemma_zero();
    law_small_wholes_are_exact(1);
    law_order_is_order_of_values(from_whole(1), a);
    law_order_is_order_of_values(zero(), b);
    let ua = a.units();
    let ub = b.units();
    assert(ua * ub >= p) by (nonlinear_arith)
        requires
            ua >= p,
            ub >= 1,
    ;
    lemma_one_unit(p);
    lemma_round_monotone(p, ua * ub, p);
}

/// A product of two numbers that are at least one is at least one.
pub proof fn lemma_product_at_least_one(a: Single, b: Single)
    requires
        a.is_finite(),
        b.is_finite(),
        le(from_whole(1), a),
        le(from_whole(1), b),
    ensures
        le(from_whole(1), product(a, b)),
{
    reveal(product);
    let p = pow2(149);
    lemma_pow2_pos(149);
    law_small_wholes_are_exact(1);
    lemma_units_round(from_whole(1));
    law_order_is_order_of_values(from_whole(1), a);
    law_order_is_order_of_values(from_whole(1), b);
    let ua = a.units();
    let ub = b.units();
    assert(ua * ub >= p * p) by (nonlinear_arith)
        requires
            ua >= p,
            ub >= p,
    ;
    lemma_round_monotone(p * p, ua * ub, p);
    assert((p * p) * 1 == p * p);
    lemma_round_same(p * p, p, p, 1);
}

/// A fraction of positive whole numbers is positive.
pub proof fn lemma_fraction_positive(n: int, d: int)
    requires
        0 < n <= 1000,
        0 < d <= 1000,
    ensures
        lt(zero(), from_fraction(n, d)),
{
    reveal(quotient);
    let p = pow2(149);
    lemma_pow2_pos(149);
    lemma_zero();
    law_small_wholes_are_exact(n);
    law_small_wholes_are_exact(d);
    lemma_small_wholes_order(0, n);
    lemma_small_wholes_order(0, d);
    let a = from_whole(n);
    let b = from_whole(d);
    lemma_units_round(b);
    lemma2_to64();
    lemma_pow2_strictly_increases(10, 149);
    assert(a.units() * p >= b.units()) by (nonlinear_arith)
        requires
            a.units() == n * p,
            b.units() == d * p,
            n >= 1,
            p >= 1000,
            d <= 1000,
    ;
    assert(b.units() > 0) by (nonlinear_arith)
        requires
            b.units() == d * p,
            d > 0,
            p > 0,
    ;
    lemma_one_unit(b.units());
    lemma_round_monotone(b.units(), a.units() * p, b.units());
}

/// A number divided by at least one is no greater.
pub proof fn lemma_quotient_at_most(a: Single, b: Single)
    requires
        a.is_finite(),
        !a.neg(),
        b.is_finite(),
        le(from_whole(1), b),
    ensures
        quotient(a, b).is_finite(),
        !quotient(a, b).neg(),
        le(quotient(a, b), a),
{
    reveal(quotient);
    let p = pow2(149);
    lemma_pow2_pos(149);
    law_small_wholes_are_exact(1);
    law_order_is_order_of_values(from_whole(1), b);
    lemma_zero();
    law_order_is_order_of_values(zero(), b);
    let ua = a.units();
    let ub = b.units();
    assert(b.value() >= p);
    assert(!b.neg());
    assert(ub >= p);
    assert(b.mag() != 0) by {
        if b.mag() == 0 {
            lemma_units_round(b);
            assert(b.key() == 0);
            law_order_is_order_of_values(b, zero());
        }
    }
    assert(p * ub > 0) by (nonlinear_arith)
        requires
            p > 0,
            ub > 0,
    ;
    // The quotient as a fraction of the same denominator as the dividend itself.
    assert((ua * p) * (p * ub) == (ua * p * p) * ub) by (nonlinear_arith);
    lemma_round_same(ua * p, ub, ua * p * p, p * ub);
    assert(ua * p * p <= ua * p * ub) by (nonlinear_arith)
        requires
            p <= ub,
    ;
    lemma_round_monotone(ua * p * p, ua * p * ub, p * ub);
    assert((ua * p * ub) * 1 == ua * (p * ub)) by (nonlinear_arith);
    lemma_round_same(ua * p * ub, p * ub, ua, 1);
    lemma_units_round(a);
}

/// A fraction of whole numbers whose lower part is at least one is an amount.
pub proof fn lemma_fraction_amount(m: int, d: int)
    requires
        0 <= m < 0x100_0000,
        1 <= d < 0x100_0000,
    ensures
        is_amount(from_fraction(m, d), m),
{
    lemma_whole_amount(m, m);
    law_small_wholes_are_exact(d);
    lemma_small_wholes_order(1, d);
    lemma_quotient_at_most(from_whole(m), from_whole(d));
}

/// A number held between two others that are in order lies between them.
pub proof fn lemma_clamped(a: Single, low: Single, high: Single)
    requires
        !a.is_nan(),
        le(low, high),
    ensures
        le(low, clamped(a, low, high)),
        le(clamped(a, low, high), high),
{
}

/// What the rules need of the numbers of a class.
pub proof fn lemma_class_amounts(class: ShipClass)
    ensures
        is_amount(class_stats(class).max_hull, 1000),
        lt(zero(), class_stats(class).max_hull),
        is_amount(class_stats(class).max_shields, 1000),
        is_amount(class_stats(class).fuel_capacity, 1000),
        is_amount(class_stats(class).fuel_regen, 1000),
        is_amount(class_stats(class).phaser_fuel_drain, 1000),
        is_amount(class_stats(class).cloak_fuel_drain, 1000),
        is_amount(class_stats(class).phaser_damage, 1000),
        is_amount(class_stats(class).primary_damage, 1000),
        is_amount(class_stats(class).shield_energy_per_damage, 1000),
{
    assert forall|m: int| 0 <= m <= 1000 implies is_amount(#[trigger] from_whole(m), 1000) by {
        lemma_whole_amount(m, 1000);
    }
    assert forall|m: int| 0 < m <= 1000 implies lt(zero(), #[trigger] from_whole(m)) by {
        lemma_small_wholes_order(0, m);
        law_small_wholes_are_exact(0);
        lemma_zero();
        law_order_is_order_of_values(zero(), from_whole(0));
    }
    assert forall|m: int, d: int|
        0 <= m <= 1000 && 1 <= d <= 1000 implies is_amount(
        #[trigger] from_fraction(m, d),
        1000,
    ) by {
        lemma_fraction_amount(m, d);
        lemma_small_wholes_order(m, 1000);
    }
}

} // verus!
