//! What numbers stand for: every finite number is an exact real number, and every operation gives
//! the exact result up to one rounding.
use vstd::arithmetic::power2::*;
use vstd::prelude::*;

use crate::bounds::lemma_fraction_amount;
use crate::order::{law_order_is_order_of_values, law_small_wholes_are_exact, lemma_negated};
use crate::precision::law_rounding_is_near;
use crate::rounding::{lemma_round_monotone, lemma_round_same, round_bits};
use crate::single::{
    absolute, difference, from_fraction, from_whole, le, lemma_units_round, lemma_whole_root_is, lt,
    negated, pack, product, quotient, root, sum, whole_root, Single,
};

verus! {

/// The least positive number, in which all others are counted.
pub open spec fn unit() -> real {
    (1 as real) / (pow2(149) as real)
}

/// The real number that a finite number stands for.
pub open spec fn real_of(a: Single) -> real {
    (a.value() as real) * unit()
}

/// The absolute value of a real number.
pub open spec fn size(x: real) -> real {
    if x < 0 as real {
        -x
    } else {
        x
    }
}

/// What rounding moves a result by where that is too small to have all its digits, times two to the
/// power of 24.
pub open spec fn dust() -> real {
    unit() * (0x80_0000 as real)
}

/// A greater factor gives no smaller product.
pub proof fn lemma_times_order(a: real, b: real, c: real)
    requires
        a <= b,
        c >= 0 as real,
    ensures
        a * c <= b * c,
        c * a <= c * b,
{
    assert(a * c <= b * c && c * a <= c * b) by (nonlinear_arith)
        requires
            a <= b,
            c >= 0 as real,
    ;
}

/// A positive factor can be dropped.
pub proof fn lemma_times_cancel(a: real, b: real, c: real)
    requires
        a * c <= b * c,
        c > 0 as real,
    ensures
        a <= b,
{
    assert(a <= b) by (nonlinear_arith)
        requires
            a * c <= b * c,
            c > 0 as real,
    ;
}

/// A sum is multiplied term by term.
pub proof fn lemma_times_sum(a: real, b: real, c: real)
    ensures
        (a + b) * c == a * c + b * c,
        c * (a + b) == c * a + c * b,
        (a - b) * c == a * c - b * c,
        c * (a - b) == c * a - c * b,
{
    assert((a + b) * c == a * c + b * c && c * (a + b) == c * a + c * b) by (nonlinear_arith);
    assert((a - b) * c == a * c - b * c && c * (a - b) == c * a - c * b) by (nonlinear_arith);
}

/// Factors may be taken in any order.
pub proof fn lemma_times_regroup(a: real, b: real, c: real, d: real)
    ensures
        (a * b) * (c * d) == (a * c) * (b * d),
{
    assert((a * b) * (c * d) == (a * c) * (b * d)) by (nonlinear_arith);
}

/// A factor of one changes nothing.
pub proof fn lemma_times_one(a: real, one: real)
    requires
        one == 1 as real,
    ensures
        a * one == a,
        one * a == a,
{
    assert(a * one == a && one * a == a) by (nonlinear_arith)
        requires
            one == 1 as real,
    ;
}

pub proof fn lemma_times_swap(a: real, b: real, c: real)
    ensures
        (a * b) * c == a * (b * c),
        (a * b) * c == (a * c) * b,
        a * b == b * a,
{
    assert((a * b) * c == a * (b * c)) by (nonlinear_arith);
    assert((a * b) * c == (a * c) * b) by (nonlinear_arith);
    assert(a * b == b * a) by (nonlinear_arith);
}

/// Products of bounded amounts are bounded.
pub proof fn lemma_bound_product(x: real, c: real, y: real, d: real)
    requires
        0 as real <= x <= c,
        0 as real <= y <= d,
    ensures
        0 as real <= x * y <= c * d,
{
    assert(0 as real <= x * y) by (nonlinear_arith)
        requires
            0 as real <= x,
            0 as real <= y,
    ;
    lemma_times_order(x, c, y);
    lemma_times_order(y, d, c);
}

/// An opposite factor gives the opposite product.
pub proof fn lemma_times_opposite(x: real, y: real)
    ensures
        (-x) * y == -(x * y),
        x * (-y) == -(x * y),
        (-x) * (-y) == x * y,
{
    assert((-x) * y == -(x * y)) by (nonlinear_arith);
    assert(x * (-y) == -(x * y)) by (nonlinear_arith);
    assert((-x) * (-y) == x * y) by (nonlinear_arith);
}

/// The size of a product is the product of the sizes.
pub proof fn lemma_size_product(x: real, y: real)
    ensures
        size(x * y) == size(x) * size(y),
{
    lemma_times_opposite(x, y);
    lemma_bound_product(size(x), size(x), size(y), size(y));
}

/// Whole numbers multiply alike as reals.
pub proof fn lemma_real_product(a: int, b: int)
    ensures
        (a * b) as real == (a as real) * (b as real),
{
    assert((a * b) as real == (a as real) * (b as real)) by (nonlinear_arith);
}

/// The unit is positive and tiny.
pub proof fn lemma_unit()
    ensures
        unit() > 0 as real,
        unit() * (pow2(149) as real) == 1 as real,
        (pow2(149) as real) * unit() == 1 as real,
        dust() > 0 as real,
        dust() * (0x100_0000 as real) <= 1 as real,
{
    lemma_pow2_pos(149);
    let p = pow2(149) as real;
    let e = (1 as real) / p;
    assert(e > 0 as real && e * p == 1 as real) by (nonlinear_arith)
        requires
            p > 0 as real,
            e == (1 as real) / p,
    ;
    lemma_pow2_adds(48, 101);
    lemma_pow2_pos(101);
    lemma2_to64_rest();
    let n = pow2(101);
    assert(pow2(149) == 0x1_0000_0000_0000 * n);
    assert(pow2(149) >= 0x1_0000_0000_0000);
    assert(p >= 0x1_0000_0000_0000 as real);
    lemma_times_order(0x1_0000_0000_0000 as real, p, e);
    lemma_times_swap(e, p, 1 as real);
}

/// A rounded quotient of units is near the quotient.
proof fn lemma_units_near(u: nat, num: nat, den: nat, x: real)
    requires
        den > 0,
        u * den * 0x100_0000 <= num * 0x100_0001 + den * 0x80_0000,
        num * 0x100_0000 <= u * den * 0x100_0000 + num + den * 0x80_0000,
        x * (den as real) == num as real,
    ensures
        size((u as real) - x) * (0x100_0000 as real) <= x + 0x80_0000 as real,
{
    let (ur, d, n) = (u as real, den as real, num as real);
    lemma_real_product(u as int, den as int);
    let w = ur * d;
    assert((u * den * 0x100_0000) as real == w * (0x100_0000 as real));
    assert((num * 0x100_0001 + den * 0x80_0000) as real == n * (0x100_0001 as real) + d * (
    0x80_0000 as real));
    assert((u * den * 0x100_0000 + num + den * 0x80_0000) as real == w * (0x100_0000 as real) + n
        + d * (0x80_0000 as real));
    assert((num * 0x100_0000) as real == n * (0x100_0000 as real));
    let k = 0x100_0000 as real;
    let h = 0x80_0000 as real;
    // Above.
    let top = x * (0x100_0001 as real) + h;
    lemma_times_swap(ur, k, d);
    lemma_times_swap(x, 0x100_0001 as real, d);
    lemma_times_sum(x * (0x100_0001 as real), h, d);
    assert((ur * k) * d == w * k);
    assert(top * d == n * (0x100_0001 as real) + h * d);
    lemma_times_cancel(ur * k, top, d);
    // Below.
    let low = ur * k + x + h;
    lemma_times_swap(x, k, d);
    lemma_times_sum(ur * k + x, h, d);
    lemma_times_sum(ur * k, x, d);
    assert((x * k) * d == n * k);
    lemma_times_cancel(x * k, low, d);
}

/// The real number of a rounded quotient of units is near the quotient, with the sign it was given.
proof fn lemma_packed(neg: bool, num: nat, den: nat, x: real)
    requires
        den > 0,
        pack(neg, round_bits(num, den)).is_finite(),
        x * (den as real) == num as real,
    ensures
        ({
            let r = real_of(pack(neg, round_bits(num, den)));
            let y = x * unit();
            size(r - if neg {
                -y
            } else {
                y
            }) * (0x100_0000 as real) <= y + dust()
        }),
{
    law_rounding_is_near(neg, num, den);
    let r = pack(neg, round_bits(num, den));
    lemma_units_near(r.units(), num, den, x);
    lemma_unit();
    let e = unit();
    let u = r.units() as real;
    let y = x * e;
    let k = 0x100_0000 as real;
    let d = u - x;
    lemma_times_sum(u, x, e);
    lemma_size_product(d, e);
    assert(size(e) == e);
    // The bound, in units of the least number.
    lemma_times_order(size(d) * k, x + 0x80_0000 as real, e);
    lemma_times_sum(x, 0x80_0000 as real, e);
    lemma_times_swap(size(d), k, e);
    lemma_times_swap(0x80_0000 as real, e, 1 as real);
    assert((size(d) * e) * k <= y + dust());
    assert(size(u * e - y) * k <= y + dust());
    lemma_times_opposite(u, e);
    if neg {
        assert(r.value() as real == -u);
        assert(real_of(r) == -(u * e));
    } else {
        assert(r.value() as real == u);
    }
}

/// A sum is finite only where both terms are.
pub proof fn lemma_sum_parts(a: Single, b: Single)
    requires
        sum(a, b).is_finite(),
    ensures
        a.is_finite(),
        b.is_finite(),
{
    reveal(sum);
}

/// A product is finite only where both factors are.
pub proof fn lemma_product_parts(a: Single, b: Single)
    requires
        product(a, b).is_finite(),
    ensures
        a.is_finite(),
        b.is_finite(),
{
    reveal(product);
}

/// A sum is the exact sum up to one rounding.
pub proof fn law_sums_are_sums(a: Single, b: Single)
    requires
        sum(a, b).is_finite(),
    ensures
        size(real_of(sum(a, b)) - (real_of(a) + real_of(b))) * (0x100_0000 as real) <= size(
            real_of(a) + real_of(b),
        ),
{
    lemma_sum_parts(a, b);
    reveal(sum);
    lemma_unit();
    let e = unit();
    let v = a.value() + b.value();
    let r = sum(a, b);
    let x = v as real;
    lemma_times_sum(a.value() as real, b.value() as real, e);
    assert(x * e == real_of(a) + real_of(b));
    let z = r.value() as real;
    let k = 0x100_0000 as real;
    let d = z - x;
    if v == 0 {
        lemma2_to64();
        assert(0 * pow2(0) == 0);
        assert(r.value() == 0);
    } else {
        let n = vstd::math::abs(v);
        law_rounding_is_near(v < 0, n, 1);
        let u = r.units();
        assert((u * 0x100_0000) as real == (u as real) * k);
        assert((n * 0x100_0001) as real == (n as real) * (0x100_0001 as real));
        assert((u * 0x100_0000 + n) as real == (u as real) * k + (n as real));
        assert((n * 0x100_0000) as real == (n as real) * k);
    }
    assert(size(d) * k <= size(x));
    lemma_times_order(size(d) * k, size(x), e);
    lemma_size_product(d, e);
    lemma_size_product(x, e);
    lemma_times_sum(z, x, e);
    lemma_times_swap(size(d), k, e);
}

/// The opposite of a number stands for the opposite.
pub proof fn law_opposites_are_opposites(a: Single)
    ensures
        real_of(negated(a)) == -real_of(a),
        negated(a).is_finite() == a.is_finite(),
{
    lemma_negated(a);
    lemma_times_opposite(a.value() as real, unit());
}

/// A difference is the exact difference up to one rounding.
pub proof fn law_differences_are_differences(a: Single, b: Single)
    requires
        difference(a, b).is_finite(),
    ensures
        a.is_finite(),
        b.is_finite(),
        size(real_of(difference(a, b)) - (real_of(a) - real_of(b))) * (0x100_0000 as real) <= size(
            real_of(a) - real_of(b),
        ),
{
    law_opposites_are_opposites(b);
    lemma_sum_parts(a, negated(b));
    law_sums_are_sums(a, negated(b));
}

/// The units of a number give the size of what it stands for.
pub proof fn lemma_size_of(a: Single)
    ensures
        size(real_of(a)) == (a.units() as real) * unit(),
        a.neg() ==> real_of(a) == -((a.units() as real) * unit()),
        !a.neg() ==> real_of(a) == (a.units() as real) * unit(),
{
    lemma_unit();
    let u = a.units() as real;
    lemma_times_opposite(u, unit());
    lemma_bound_product(u, u, unit(), unit());
    if a.neg() {
        assert(a.value() as real == -u);
    } else {
        assert(a.value() as real == u);
    }
}

/// A product is the exact product up to one rounding.
pub proof fn law_products_are_products(a: Single, b: Single)
    requires
        product(a, b).is_finite(),
    ensures
        size(real_of(product(a, b)) - real_of(a) * real_of(b)) * (0x100_0000 as real) <= size(
            real_of(a) * real_of(b),
        ) + dust(),
{
    lemma_product_parts(a, b);
    reveal(product);
    lemma_unit();
    lemma_size_of(a);
    lemma_size_of(b);
    let e = unit();
    let p = pow2(149) as real;
    let (ua, ub) = (a.units() as real, b.units() as real);
    let (xa, xb) = (ua * e, ub * e);
    let neg = a.neg() != b.neg();
    lemma_real_product(a.units() as int, b.units() as int);
    let x = (ua * ub) * e;
    lemma_times_swap(ua * ub, e, p);
    assert(x * p == (ua * ub) * (e * p));
    lemma_times_one(ua * ub, e * p);
    assert(x * p == ua * ub);
    lemma_packed(neg, a.units() * b.units(), pow2(149), x);
    lemma_times_regroup(ua, ub, e, e);
    lemma_times_swap(ua * ub, e, e);
    assert(x * e == xa * xb);
    lemma_times_opposite(xa, xb);
    lemma_bound_product(xa, xa, xb, xb);
}

/// A quotient is the exact quotient up to one rounding: multiplied by the divisor, it gives the
/// dividend.
pub proof fn law_quotients_are_quotients(a: Single, b: Single)
    requires
        quotient(a, b).is_finite(),
        b.is_finite(),
    ensures
        a.is_finite(),
        real_of(b) != 0 as real,
        size(real_of(quotient(a, b)) * real_of(b) - real_of(a)) * (0x100_0000 as real) <= size(
            real_of(a),
        ) + dust() * size(real_of(b)),
{
    reveal(quotient);
    lemma_unit();
    lemma_size_of(a);
    lemma_size_of(b);
    lemma_units_round(b);
    assert(a.is_finite() && b.mag() != 0);
    let e = unit();
    let p = pow2(149) as real;
    let (ua, ub) = (a.units() as real, b.units() as real);
    let (xa, xb) = (ua * e, ub * e);
    let neg = a.neg() != b.neg();
    lemma_real_product(a.units() as int, pow2(149) as int);
    let x = ua * p / ub;
    assert(ub >= 1 as real);
    lemma_undone(ua * p, ub);
    assert(x * ub == ua * p);
    lemma_packed(neg, a.units() * pow2(149), b.units(), x);
    let y = x * e;
    // Times the divisor.
    lemma_times_regroup(x, e, ub, e);
    lemma_times_swap(ua, p, e * e);
    lemma_times_swap(p, e, e);
    lemma_times_swap(ua, e, 1 as real);
    assert(y * xb == (x * ub) * (e * e));
    assert((ua * p) * (e * e) == ua * (p * (e * e)));
    assert(p * (e * e) == (p * e) * e);
    assert(y * xb == xa);
    let r = real_of(quotient(a, b));
    let q = if neg {
        -y
    } else {
        y
    };
    let k = 0x100_0000 as real;
    lemma_bound_product(ub, ub, e, e);
    assert(xb > 0 as real) by {
        lemma_times_order(1 as real, ub, e);
    }
    let d = r - q;
    lemma_times_order(size(d) * k, y + dust(), xb);
    lemma_times_sum(y, dust(), xb);
    lemma_times_swap(size(d), k, xb);
    lemma_size_product(d, real_of(b));
    lemma_times_sum(r, q, real_of(b));
    lemma_times_opposite(y, xb);
    assert(q * real_of(b) == real_of(a));
}

/// A division is undone by its divisor.
pub proof fn lemma_undone(n: real, d: real)
    requires
        d > 0 as real,
    ensures
        (n / d) * d == n,
{
    let q = n / d;
    assert(q * d == n) by (nonlinear_arith)
        requires
            d > 0 as real,
            q == n / d,
    ;
}

/// A small whole number stands for itself.
pub proof fn law_wholes_are_wholes(n: int)
    requires
        -0x100_0000 < n < 0x100_0000,
    ensures
        real_of(from_whole(n)) == n as real,
        from_whole(n).is_finite(),
{
    law_small_wholes_are_exact(n);
    lemma_unit();
    lemma_real_product(n, pow2(149) as int);
    lemma_times_swap(n as real, pow2(149) as real, unit());
    lemma_times_one(n as real, (pow2(149) as real) * unit());
}

/// Whether two real numbers agree up to `k` roundings on a scale `c` of at least one.
pub open spec fn near(x: real, y: real, c: real, k: int) -> bool {
    &&& c >= 1 as real
    &&& size(y) <= c
    &&& size(x - y) * (0x100_0000 as real) <= (k as real) * c
}

/// Whether two real numbers agree up to one part in two to the power of 20 of a scale.
pub open spec fn close(x: real, y: real, c: real) -> bool {
    size(x - y) * (0x10_0000 as real) <= c
}

/// The scale of a number: its size, and one more.
pub open spec fn scale(x: real) -> real {
    1 as real + size(x)
}

pub proof fn lemma_near_self(x: real)
    ensures
        near(x, x, scale(x), 0),
{
    let z = 0int as real;
    assert(z == 0 as real);
    lemma_times_order(z, z, scale(x));
    lemma_times_sum(z, z, scale(x));
}

/// A few roundings make little difference.
pub proof fn lemma_near_close(x: real, y: real, c: real, k: int)
    requires
        near(x, y, c, k),
        k <= 16,
    ensures
        close(x, y, c),
{
    lemma_times_order(k as real, 16 as real, c);
}

/// How far apart numbers that are near may be.
pub proof fn lemma_near_apart(x: real, y: real, c: real, k: int, n: real)
    requires
        near(x, y, c, k),
        (k as real) <= n,
    ensures
        size(x - y) * (0x100_0000 as real) <= n * c,
{
    lemma_times_order(k as real, n, c);
}

/// What is near a bounded number is bounded.
pub proof fn lemma_near_size(x: real, y: real, c: real, k: int)
    requires
        near(x, y, c, k),
        k <= 0x1_0000,
    ensures
        size(x - y) * (0x100 as real) <= c,
        size(x) * (0x100 as real) <= c * (0x101 as real),
{
    lemma_times_order(k as real, 0x1_0000 as real, c);
}

pub proof fn lemma_near_opposite(x: real, y: real, c: real, k: int)
    requires
        near(x, y, c, k),
    ensures
        near(-x, -y, c, k),
{
}

/// Terms that are near make a sum that is near.
pub proof fn lemma_near_sum(a: real, x: real, c: real, b: real, y: real, d: real, k: int)
    requires
        near(a, x, c, k),
        near(b, y, d, k),
    ensures
        near(a + b, x + y, c + d, k),
{
    lemma_times_sum(c, d, k as real);
}

/// Where fewer roundings were made, no more were made.
pub proof fn lemma_near_more(x: real, y: real, c: real, k: int, l: int)
    requires
        near(x, y, c, k),
        k <= l,
    ensures
        near(x, y, c, l),
{
    lemma_times_order(k as real, l as real, c);
}

/// On a greater scale, what is near stays near.
pub proof fn lemma_near_wider(x: real, y: real, c: real, d: real, k: int)
    requires
        near(x, y, c, k),
        c <= d,
        0 <= k,
    ensures
        near(x, y, d, k),
{
    lemma_times_order(c, d, k as real);
}

/// Factors that are near make a product that is near.
pub proof fn lemma_near_product(
    a: real,
    x: real,
    c: real,
    k: int,
    b: real,
    y: real,
    d: real,
    l: int,
)
    requires
        near(a, x, c, k),
        near(b, y, d, l),
        0 <= k <= 1000,
        0 <= l <= 1000,
    ensures
        near(a * b, x * y, c * d, k + l + 1),
{
    let g = 0x100_0000 as real;
    let (m, n) = (k as real, l as real);
    let (ea, eb) = (a - x, b - y);
    let (sa, sb) = (size(ea), size(eb));
    let w = c * d;
    lemma_times_sum(x, ea, y + eb);
    lemma_times_sum(y, eb, x);
    lemma_times_sum(y, eb, ea);
    assert(a * b == (x + ea) * (y + eb));
    assert(a * b - x * y == x * eb + ea * y + ea * eb);
    lemma_size_product(x, eb);
    lemma_size_product(ea, y);
    lemma_size_product(ea, eb);
    lemma_size_product(x, y);
    // The errors, times the bound of the other factor.
    lemma_bound_product(size(x), c, sb * g, n * d);
    lemma_bound_product(sa * g, m * c, size(y), d);
    lemma_bound_product(sa * g, m * c, sb * g, n * d);
    lemma_bound_product(size(x), c, size(y), d);
    lemma_times_swap(size(x), sb, g);
    lemma_times_swap(sa, g, size(y));
    lemma_times_regroup(sa, g, sb, g);
    lemma_times_regroup(1 as real, c, n, d);
    assert(c * (n * d) == n * w);
    lemma_times_swap(m, c, d);
    assert((m * c) * d == m * w);
    lemma_times_regroup(m, c, n, d);
    assert((m * c) * (n * d) == (m * n) * w);
    lemma_bound_product(m, 1000 as real, n, 1000 as real);
    lemma_bound_product(1 as real, c, 1 as real, d);
    assert(w >= 1 as real);
    lemma_times_order(m * n, 1_000_000 as real, w);
    let q = sa * sb;
    assert((q * g) * g <= (1_000_000 as real) * w) by {
        lemma_times_swap(q, g, g);
    }
    assert(q * g <= w);
    lemma_times_sum(m, n, w);
    lemma_times_sum(m + n, 1 as real, w);
    assert(((k + l + 1) as real) == m + n + 1 as real);
}

/// What is one rounding away from something near is near.
pub proof fn lemma_near_rounded(r: real, z: real, y: real, c: real, k: int)
    requires
        near(z, y, c, k),
        0 <= k <= 5000,
        size(r - z) * (0x100_0000 as real) <= size(z) + dust(),
    ensures
        near(r, y, c, k + 2),
{
    lemma_unit();
    let m = k as real;
    lemma_times_order(m, 5000 as real, c);
    assert(size(z) <= c + c / (2 as real));
    lemma_times_sum(m, 2 as real, c);
    assert((k + 2) as real == m + 2 as real);
}

/// A rounded sum of numbers that are near is near.
pub proof fn lemma_sum_of_near(a: Single, x: real, c: real, b: Single, y: real, d: real, k: int)
    requires
        sum(a, b).is_finite(),
        near(real_of(a), x, c, k),
        near(real_of(b), y, d, k),
        0 <= k <= 5000,
    ensures
        near(real_of(sum(a, b)), x + y, c + d, k + 2),
{
    lemma_unit();
    law_sums_are_sums(a, b);
    lemma_near_sum(real_of(a), x, c, real_of(b), y, d, k);
    lemma_near_rounded(real_of(sum(a, b)), real_of(a) + real_of(b), x + y, c + d, k);
}

/// A rounded difference of numbers that are near is near.
pub proof fn lemma_difference_of_near(
    a: Single,
    x: real,
    c: real,
    b: Single,
    y: real,
    d: real,
    k: int,
)
    requires
        difference(a, b).is_finite(),
        near(real_of(a), x, c, k),
        near(real_of(b), y, d, k),
        0 <= k <= 5000,
    ensures
        near(real_of(difference(a, b)), x - y, c + d, k + 2),
{
    law_opposites_are_opposites(b);
    lemma_near_opposite(real_of(b), y, d, k);
    lemma_sum_of_near(a, x, c, negated(b), -y, d, k);
    assert(x + (-y) == x - y);
}

/// A rounded product of numbers that are near is near.
pub proof fn lemma_product_of_near(
    a: Single,
    x: real,
    c: real,
    k: int,
    b: Single,
    y: real,
    d: real,
    l: int,
)
    requires
        product(a, b).is_finite(),
        near(real_of(a), x, c, k),
        near(real_of(b), y, d, l),
        0 <= k <= 1000,
        0 <= l <= 1000,
    ensures
        near(real_of(product(a, b)), x * y, c * d, k + l + 3),
{
    law_products_are_products(a, b);
    lemma_near_product(real_of(a), x, c, k, real_of(b), y, d, l);
    lemma_near_rounded(
        real_of(product(a, b)),
        real_of(a) * real_of(b),
        x * y,
        c * d,
        k + l + 1,
    );
}

/// One half stands for one half.
pub proof fn law_a_half_is_a_half()
    ensures
        from_fraction(1, 2).is_finite(),
        near(real_of(from_fraction(1, 2)), (1 as real) / (2 as real), 2 as real, 2),
{
    lemma_fraction_amount(1, 2);
    law_wholes_are_wholes(1);
    law_wholes_are_wholes(2);
    law_quotients_are_quotients(from_whole(1), from_whole(2));
    lemma_unit();
    let r = real_of(from_fraction(1, 2));
    lemma_times_swap(r, 2 as real, 1 as real);
    lemma_times_swap(dust(), 2 as real, 1 as real);
}

/// A fraction of small whole numbers is the exact quotient up to one rounding.
pub proof fn law_fractions_are_fractions(n: int, d: int)
    requires
        0 <= n <= 0x10_0000,
        0 < d <= 0x10_0000,
    ensures
        from_fraction(n, d).is_finite(),
        size(real_of(from_fraction(n, d)) * (d as real) - n as real) * (0x100_0000 as real) <= (
        n as real) + dust() * (d as real),
{
    lemma_unit();
    law_wholes_are_wholes(n);
    law_wholes_are_wholes(d);
    lemma_times_order(1 as real, d as real, n as real);
    lemma_times_one(n as real, 1 as real);
    lemma_finite_quotient(from_whole(n), from_whole(d), n);
    law_quotients_are_quotients(from_whole(n), from_whole(d));
}

/// Units and reals count alike: a bound on the real number bounds the units.
pub proof fn lemma_units_bound(x: real, n: int)
    requires
        x * unit() <= n as real,
    ensures
        x <= (n as real) * (pow2(149) as real),
{
    lemma_unit();
    let p = pow2(149) as real;
    lemma_pow2_pos(149);
    lemma_times_order(x * unit(), n as real, p);
    lemma_times_swap(x, unit(), p);
    lemma_times_one(x, unit() * p);
}

/// A sum of moderate numbers is finite.
pub proof fn lemma_finite_sum(a: Single, b: Single, n: int)
    requires
        a.is_finite(),
        b.is_finite(),
        size(real_of(a) + real_of(b)) <= n as real,
        0 <= n < 0x100_0000,
    ensures
        sum(a, b).is_finite(),
{
    reveal(sum);
    reveal(from_whole);
    lemma_unit();
    law_small_wholes_are_exact(n);
    let v = a.value() + b.value();
    lemma_times_sum(a.value() as real, b.value() as real, unit());
    lemma_size_product(v as real, unit());
    lemma_units_bound(size(v as real), n);
    lemma_real_product(n, pow2(149) as int);
    let u = vstd::math::abs(v);
    assert(size(v as real) == u as real);
    assert(u <= n * pow2(149));
    lemma_round_monotone(u, (n * pow2(149)) as nat, 1);
}

/// A difference of moderate numbers is finite.
pub proof fn lemma_finite_difference(a: Single, b: Single, n: int)
    requires
        a.is_finite(),
        b.is_finite(),
        size(real_of(a) - real_of(b)) <= n as real,
        0 <= n < 0x100_0000,
    ensures
        difference(a, b).is_finite(),
{
    law_opposites_are_opposites(b);
    lemma_finite_sum(a, negated(b), n);
}

/// A product of moderate numbers is finite.
pub proof fn lemma_finite_product(a: Single, b: Single, n: int)
    requires
        a.is_finite(),
        b.is_finite(),
        size(real_of(a) * real_of(b)) <= n as real,
        0 <= n < 0x100_0000,
    ensures
        product(a, b).is_finite(),
{
    reveal(product);
    reveal(from_whole);
    lemma_unit();
    law_small_wholes_are_exact(n);
    let e = unit();
    let p = pow2(149);
    lemma_pow2_pos(149);
    let (ua, ub) = (a.units() as real, b.units() as real);
    lemma_size_of(a);
    lemma_size_of(b);
    lemma_size_product(real_of(a), real_of(b));
    lemma_times_regroup(ua, e, ub, e);
    lemma_times_swap(ua * ub, e, e);
    let w = (ua * ub) * e;
    lemma_units_bound(w, n);
    lemma_real_product(n, p as int);
    lemma_real_product(n * p, p as int);
    lemma_real_product(a.units() as int, b.units() as int);
    lemma_times_order(w, (n * p) as real, p as real);
    lemma_times_swap(ua * ub, e, p as real);
    lemma_times_one(ua * ub, e * (p as real));
    let num = a.units() * b.units();
    let top = (n * p) as nat;
    assert(num as real <= (n * p * p) as real);
    assert(num <= n * p * p);
    assert(top * p == n * p * p);
    lemma_round_monotone(num, top * p, p);
    assert((top * p) * 1 == top * p);
    lemma_round_same(top * p, p, top, 1);
}

/// The absolute value stands for the size.
pub proof fn law_absolute_values_are_sizes(a: Single)
    requires
        a.is_finite(),
    ensures
        absolute(a).is_finite(),
        real_of(absolute(a)) == size(real_of(a)),
{
    lemma_size_of(a);
    lemma_size_of(absolute(a));
}

/// Numbers are ordered as what they stand for.
pub proof fn law_order_is_order_of_reals(a: Single, b: Single)
    requires
        a.is_finite(),
        b.is_finite(),
    ensures
        lt(a, b) <==> real_of(a) < real_of(b),
        le(a, b) <==> real_of(a) <= real_of(b),
{
    law_order_is_order_of_values(a, b);
    lemma_unit();
    let (x, y) = (a.value() as real, b.value() as real);
    if a.value() <= b.value() {
        lemma_times_order(x, y, unit());
        if real_of(b) <= real_of(a) {
            lemma_times_cancel(y, x, unit());
        }
    } else {
        lemma_times_order(y, x, unit());
        if real_of(a) <= real_of(b) {
            lemma_times_cancel(x, y, unit());
        }
    }
}

/// A quotient of numbers of which the divisor is not much smaller is finite.
pub proof fn lemma_finite_quotient(a: Single, b: Single, n: int)
    requires
        a.is_finite(),
        b.is_finite(),
        real_of(b) != 0 as real,
        size(real_of(a)) <= (n as real) * size(real_of(b)),
        0 <= n < 0x100_0000,
    ensures
        quotient(a, b).is_finite(),
{
    reveal(quotient);
    reveal(from_whole);
    lemma_unit();
    law_small_wholes_are_exact(n);
    let e = unit();
    let p = pow2(149);
    lemma_pow2_pos(149);
    let (ua, ub) = (a.units() as real, b.units() as real);
    lemma_size_of(a);
    lemma_size_of(b);
    lemma_units_round(b);
    if b.mag() == 0 {
        lemma_times_opposite(ub, e);
    }
    lemma_times_swap(n as real, ub, e);
    lemma_times_cancel(ua, (n as real) * ub, e);
    lemma_real_product(n, b.units() as int);
    assert(a.units() <= n * b.units());
    let top = (n * p) as nat;
    assert(a.units() * p <= top * b.units()) by (nonlinear_arith)
        requires
            a.units() <= n * b.units(),
            top == n * p,
            p > 0,
    ;
    lemma_round_monotone(a.units() * p, top * b.units(), b.units());
    assert((top * b.units()) * 1 == top * b.units());
    lemma_round_same(top * b.units(), b.units(), top, 1);
}

/// What the rounded root of a quantity of units squares to.
proof fn lemma_root_units(x: nat, r: nat, u: nat)
    requires
        r * r <= x < (r + 1) * (r + 1),
        r >= 0x1000_0000_0000,
        ({
            let num = 2 * r + if r * r == x {
                0nat
            } else {
                1nat
            };
            &&& u * 2 * 0x100_0000 <= num * 0x100_0001 + 2 * 0x80_0000
            &&& num * 0x100_0000 <= u * 2 * 0x100_0000 + num + 2 * 0x80_0000
        }),
    ensures
        u * u * 0x100_0000 <= x * 0x100_0008,
        x * 0xff_fff8 <= u * u * 0x100_0000,
{
    let k: int = 0x100_0000;
    assert(u * k <= r * (k + 2));
    assert((r + 1) * (k - 2) <= u * k);
    assert((u * k) * (u * k) <= (r * (k + 2)) * (r * (k + 2))) by (nonlinear_arith)
        requires
            0 <= u * k <= r * (k + 2),
    ;
    assert((r * (k + 2)) * (r * (k + 2)) == (r * r) * ((k + 2) * (k + 2))) by (nonlinear_arith);
    assert((u * k) * (u * k) == (u * u) * (k * k)) by (nonlinear_arith);
    assert((r * r) * ((k + 2) * (k + 2)) <= x * ((k + 2) * (k + 2))) by (nonlinear_arith)
        requires
            r * r <= x,
            k == 0x100_0000,
    ;
    assert(((r + 1) * (k - 2)) * ((r + 1) * (k - 2)) <= (u * k) * (u * k)) by (nonlinear_arith)
        requires
            0 <= (r + 1) * (k - 2) <= u * k,
    ;
    assert(((r + 1) * (k - 2)) * ((r + 1) * (k - 2)) == ((r + 1) * (r + 1)) * ((k - 2) * (k - 2)))
        by (nonlinear_arith);
    assert(x * ((k - 2) * (k - 2)) <= ((r + 1) * (r + 1)) * ((k - 2) * (k - 2)))
        by (nonlinear_arith)
        requires
            x < (r + 1) * (r + 1),
            k == 0x100_0000,
    ;
    let v = u * u;
    assert(k * k == 0x1_0000_0000_0000 && (k + 2) * (k + 2) == 0x1_0000_0400_0004 && (k - 2) * (k
        - 2) == 0xffff_fc00_0004) by (nonlinear_arith)
        requires
            k == 0x100_0000,
    ;
    assert(v * 0x1_0000_0000_0000 <= x * 0x1_0000_0400_0004);
    assert(x * 0xffff_fc00_0004 <= v * 0x1_0000_0000_0000);
}

/// The square of a root is what the root was taken of, up to rounding.
pub proof fn law_roots_are_roots(a: Single)
    requires
        a.is_finite(),
        real_of(a) >= 0 as real,
        root(a).is_finite(),
    ensures
        real_of(root(a)) >= 0 as real,
        size(real_of(root(a)) * real_of(root(a)) - real_of(a)) * (0x100_0000 as real) <= (
        8 as real) * real_of(a),
{
    reveal(root);
    lemma_unit();
    lemma_units_round(a);
    lemma_size_of(a);
    let e = unit();
    if a.mag() == 0 {
        lemma_times_opposite(0 as real, e);
        lemma_times_sum(0 as real, 0 as real, e);
        lemma_times_sum(0 as real, 0 as real, real_of(a));
    } else {
        let p = pow2(149);
        lemma_pow2_pos(149);
        let x = a.units() * p;
        let r = whole_root(x);
        lemma_whole_root_is(x);
        let num = 2 * r + if r * r == x {
            0nat
        } else {
            1nat
        };
        let u = root(a).units();
        law_rounding_is_near(false, num, 2);
        if a.neg() {
            lemma_times_order(1 as real, a.units() as real, e);
        }
        lemma_root_large(a.units(), p, r);
        lemma_root_units(x, r, u);
        // In reals.
        let (ur, ua, xr, pr) = (u as real, a.units() as real, x as real, p as real);
        lemma_real_product(u as int, u as int);
        lemma_real_product(a.units() as int, p as int);
        assert(ur * ur * (0x100_0000 as real) <= xr * (0x100_0008 as real)) by {
            assert((u * u * 0x100_0000) as real == ur * ur * (0x100_0000 as real));
            assert((x * 0x100_0008) as real == xr * (0x100_0008 as real));
        }
        assert(xr * (0xff_fff8 as real) <= ur * ur * (0x100_0000 as real)) by {
            assert((u * u * 0x100_0000) as real == ur * ur * (0x100_0000 as real));
            assert((x * 0xff_fff8) as real == xr * (0xff_fff8 as real));
        }
        let ee = e * e;
        lemma_times_order(1 as real, 1 as real, e);
        lemma_bound_product(e, e, e, e);
        assert(ee >= 0 as real) by {
            lemma_times_order(0 as real, e, e);
            lemma_times_opposite(0 as real, e);
            lemma_times_sum(0 as real, 0 as real, e);
        }
        let v = ur * ur;
        lemma_times_order(v * (0x100_0000 as real), xr * (0x100_0008 as real), ee);
        lemma_times_order(xr * (0xff_fff8 as real), v * (0x100_0000 as real), ee);
        lemma_times_swap(v, 0x100_0000 as real, ee);
        lemma_times_swap(xr, 0x100_0008 as real, ee);
        lemma_times_swap(xr, 0xff_fff8 as real, ee);
        // The two sides.
        lemma_times_regroup(ur, e, ur, e);
        assert(real_of(root(a)) == ur * e);
        assert(v * ee == real_of(root(a)) * real_of(root(a)));
        lemma_times_swap(ua, pr, ee);
        lemma_times_swap(pr, e, e);
        lemma_times_swap(ua, e, 1 as real);
        assert(xr * ee == real_of(a));
        lemma_times_order(0 as real, ur, e);
        lemma_times_sum(0 as real, 0 as real, e);
    }
}

/// The integral part of the root of a large quantity is large.
proof fn lemma_root_large(u: nat, p: nat, r: nat)
    requires
        u >= 1,
        p == pow2(149),
        u * p < (r + 1) * (r + 1),
    ensures
        r >= 0x1000_0000_0000,
{
    lemma_pow2_adds(96, 53);
    lemma_pow2_adds(48, 48);
    lemma_pow2_pos(53);
    lemma2_to64_rest();
    let (a, b) = (pow2(96), pow2(53));
    assert(p >= a) by (nonlinear_arith)
        requires
            p == a * b,
            b >= 1,
    ;
    assert(u * p >= p) by (nonlinear_arith)
        requires
            u >= 1,
    ;
    if r < 0x1000_0000_0000 {
        assert((r + 1) * (r + 1) <= 0x1_0000_0000_0000 * 0x1_0000_0000_0000) by (nonlinear_arith)
            requires
                0 <= r + 1 <= 0x1_0000_0000_0000,
        ;
    }
}

/// The root of a moderate number is finite.
pub proof fn lemma_finite_root(a: Single, n: int)
    requires
        a.is_finite(),
        0 as real <= real_of(a) <= n as real,
        1 <= n < 0xff_ffff,
    ensures
        root(a).is_finite(),
{
    reveal(root);
    lemma_unit();
    lemma_units_round(a);
    lemma_size_of(a);
    let e = unit();
    if a.mag() != 0 {
        if a.neg() {
            lemma_times_order(1 as real, a.units() as real, e);
        }
        let p = pow2(149);
        lemma_pow2_pos(149);
        let x = a.units() * p;
        let r = whole_root(x);
        lemma_whole_root_is(x);
        let ua = a.units();
        lemma_units_bound(ua as real, n);
        lemma_real_product(n, p as int);
        let np = (n * p) as nat;
        assert(x <= np * np) by (nonlinear_arith)
            requires
                x == ua * p,
                ua <= n * p,
                np == n * p,
                n >= 1,
                p >= 1,
        ;
        assert(r <= np) by (nonlinear_arith)
            requires
                r * r <= x,
                x <= np * np,
                np >= 0,
                r >= 0,
        ;
        let num = 2 * r + if r * r == x {
            0nat
        } else {
            1nat
        };
        let top = ((n + 1) * p) as nat;
        assert(top == np + p) by (nonlinear_arith)
            requires
                top == (n + 1) * p,
                np == n * p,
        ;
        lemma_round_monotone(num, top * 2, 2);
        lemma_round_same(top * 2, 2, top, 1);
        law_small_wholes_are_exact(n + 1);
        reveal(from_whole);
    }
}

} // verus!
