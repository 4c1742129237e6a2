//! What figures cover on a canvas, in real numbers, up to rounding, and what classes are made for.
use vstd::arithmetic::div_mod::lemma_fundamental_div_mod;
use vstd::arithmetic::power2::*;
use vstd::prelude::*;

use crate::bounce::lemma_square;
use crate::canvas::{covers, crossing, down, offset, square, up, Corner, Region};
use crate::exact::{
    dust, law_differences_are_differences, law_fractions_are_fractions, law_order_is_order_of_reals,
    law_products_are_products, law_quotients_are_quotients, law_sums_are_sums,
    law_wholes_are_wholes, lemma_bound_product, lemma_finite_difference, lemma_finite_product,
    lemma_finite_quotient, lemma_finite_sum, lemma_real_product, lemma_size_product,
    lemma_times_one, lemma_times_opposite, lemma_times_order, lemma_times_sum, lemma_times_swap,
    lemma_unit, real_of, size, unit,
};
use crate::game::{class_stats, cloaks, ShipClass};
use crate::single::{difference, from_fraction, from_whole, product, quotient, sum, Single};
use crate::whole::{ceiling_of, floor_of};

verus! {

/// Whether a corner lies on a moderate canvas.
pub open spec fn is_on_canvas(c: Corner) -> bool {
    &&& c.0.is_finite() && c.1.is_finite()
    &&& size(real_of(c.0)) <= 500 as real && size(real_of(c.1)) <= 500 as real
}

/// What is near a share of a width is near it over the height of an edge.
proof fn lemma_crossing_real(c: real, q: real, m: real, n: real, w: real)
    requires
        size(c - q * w) * (0x100_0000 as real) <= 9000 as real,
        size(q * m - n) * (0x100_0000 as real) <= 5000 as real,
        size(m) <= 1000 as real,
        size(w) <= 1000 as real,
    ensures
        size(c * m - n * w) <= 1 as real,
{
    let k = 0x100_0000 as real;
    let (g, off) = (c - q * w, q * m - n);
    lemma_size_product(g, m);
    lemma_bound_product(size(g) * k, 9000 as real, size(m), 1000 as real);
    lemma_times_swap(size(g), k, size(m));
    lemma_size_product(off, w);
    lemma_bound_product(size(off) * k, 5000 as real, size(w), 1000 as real);
    lemma_times_swap(size(off), k, size(w));
    lemma_times_sum(c, q * w, m);
    lemma_times_sum(q * m, n, w);
    lemma_times_swap(q, w, m);
    lemma_times_swap(q, m, w);
    assert((q * w) * m == (q * m) * w);
    assert(c * m - n * w == g * m + off * w);
}

/// Where an edge crosses a line, it is on the edge: as far from one end along it as the line is
/// from that end, in proportion.
#[verifier::spinoff_prover]
#[verifier::rlimit(30)]
pub proof fn law_crossings_lie_on_the_edge(a: Corner, b: Corner, y: Single)
    requires
        is_on_canvas(a),
        is_on_canvas(b),
        y.is_finite(),
        size(real_of(y)) <= 500 as real,
        size(real_of(b.1) - real_of(a.1)) >= 1 as real,
        size(real_of(y) - real_of(a.1)) <= size(real_of(b.1) - real_of(a.1)),
    ensures
        crossing(a, b, y).is_finite(),
        size(
            (real_of(crossing(a, b, y)) - real_of(a.0)) * (real_of(b.1) - real_of(a.1)) - (real_of(
                y,
            ) - real_of(a.1)) * (real_of(b.0) - real_of(a.0)),
        ) <= 1 as real,
{
    lemma_unit();
    let k = 0x100_0000 as real;
    let (n, m, w) = (
        real_of(y) - real_of(a.1),
        real_of(b.1) - real_of(a.1),
        real_of(b.0) - real_of(a.0),
    );
    lemma_finite_difference(y, a.1, 1000);
    lemma_finite_difference(b.1, a.1, 1000);
    lemma_finite_difference(b.0, a.0, 1000);
    law_differences_are_differences(y, a.1);
    law_differences_are_differences(b.1, a.1);
    law_differences_are_differences(b.0, a.0);
    let (sn, sm, sw) = (difference(y, a.1), difference(b.1, a.1), difference(b.0, a.0));
    let (n1, m1, w1) = (real_of(sn), real_of(sm), real_of(sw));
    lemma_finite_quotient(sn, sm, 2);
    law_quotients_are_quotients(sn, sm);
    let sq = quotient(sn, sm);
    let q = real_of(sq);
    lemma_times_order(size(m1), 1001 as real, dust());
    lemma_size_product(q, m1);
    // The quotient is no more than two.
    assert(size(q) <= 2 as real) by {
        if size(q) > 2 as real {
            lemma_times_order(2 as real, size(q), size(m1));
        }
    }
    let e1 = q * m1 - n1;
    lemma_size_product(q, m - m1);
    lemma_bound_product(size(q), 2 as real, size(m - m1) * k, 1000 as real);
    lemma_times_swap(size(q), size(m - m1), k);
    lemma_times_sum(m, m1, q);
    let off = q * m - n;
    assert(size(off) * k <= 5000 as real);
    // The product.
    lemma_size_product(q, w1);
    lemma_bound_product(size(q), 2 as real, size(w1), 1001 as real);
    lemma_finite_product(sq, sw, 2100);
    law_products_are_products(sq, sw);
    let sp = product(sq, sw);
    lemma_size_product(q, w1 - w);
    lemma_bound_product(size(q), 2 as real, size(w1 - w) * k, 1000 as real);
    lemma_times_swap(size(q), size(w1 - w), k);
    lemma_times_sum(w1, w, q);
    lemma_finite_sum(a.0, sp, 3000);
    law_sums_are_sums(a.0, sp);
    let c = real_of(crossing(a, b, y)) - real_of(a.0);
    let g = c - q * w;
    assert(size(g) * k <= 9000 as real);
    lemma_crossing_real(c, q, m, n, w);
}

/// A quantity of units that is below a number of wholes has fewer wholes in it.
proof fn lemma_wholes_in(v: int, n: int)
    requires
        (v as real) * unit() < n as real,
    ensures
        v / (pow2(149) as int) < n,
{
    lemma_unit();
    let p = pow2(149) as int;
    lemma_pow2_pos(149);
    let q = v / p;
    lemma_fundamental_div_mod(v, p);
    if q >= n {
        assert(p * n <= p * q) by (nonlinear_arith)
            requires
                n <= q,
                p > 0,
        ;
        lemma_real_product(n, p);
        let (vr, nr, pr) = (v as real, n as real, p as real);
        assert((n * p) as real <= vr) by {
            assert(n * p == p * n) by (nonlinear_arith);
        }
        lemma_times_order(nr * pr, vr, unit());
        lemma_times_swap(nr, pr, unit());
        lemma_times_one(nr, pr * unit());
    }
}

/// The whole number at or below what is less than the next one is no greater.
proof fn lemma_down(a: Single, x: int)
    requires
        a.is_finite(),
        real_of(a) < (x + 1) as real,
        -100_000 <= x <= 100_000,
    ensures
        down(a) <= x,
{
    reveal(floor_of);
    lemma_wholes_in(a.value(), x + 1);
}

/// The whole number at or above what is more than the one before is no less.
proof fn lemma_up(a: Single, x: int)
    requires
        a.is_finite(),
        real_of(a) > (x - 1) as real,
        -100_000 <= x <= 100_000,
    ensures
        x <= up(a),
{
    reveal(ceiling_of);
    lemma_times_opposite(a.value() as real, unit());
    lemma_wholes_in(-a.value(), 1 - x);
}

/// The offset of the middle of a pixel from a coordinate.
proof fn lemma_middle(x: int, c: Single)
    requires
        -200 <= x <= 200,
        c.is_finite(),
        size(real_of(c)) <= 200 as real,
    ensures
        ({
            let d = difference(sum(from_whole(x), from_fraction(1, 2)), c);
            let t = (x as real) + (1 as real) / (2 as real) - real_of(c);
            &&& d.is_finite() && size(real_of(d)) <= 402 as real && size(t) <= 401 as real
            &&& size(real_of(d) - t) * (10_000 as real) <= 1 as real
            &&& product(d, d).is_finite()
            &&& size(real_of(product(d, d)) - t * t) * (10 as real) <= 1 as real
        }),
{
    lemma_unit();
    law_wholes_are_wholes(x);
    law_fractions_are_fractions(1, 2);
    let half = from_fraction(1, 2);
    let h = real_of(half);
    assert(size(h * (2 as real) - 1 as real) * (0x100_0000 as real) <= (1 as real) + dust() * (
    2 as real));
    lemma_finite_sum(from_whole(x), half, 201);
    law_sums_are_sums(from_whole(x), half);
    let s = sum(from_whole(x), half);
    lemma_finite_difference(s, c, 402);
    law_differences_are_differences(s, c);
    let d = real_of(difference(s, c));
    let t = (x as real) + (1 as real) / (2 as real) - real_of(c);
    let e = d - t;
    lemma_size_product(d, d);
    lemma_bound_product(size(d), 402 as real, size(d), 402 as real);
    lemma_finite_product(difference(s, c), difference(s, c), 170_000);
    law_products_are_products(difference(s, c), difference(s, c));
    // The squares.
    lemma_times_sum(d, t, d);
    lemma_times_sum(d, t, t);
    lemma_times_swap(d, t, 1 as real);
    assert(d * d - t * t == e * d + e * t);
    lemma_size_product(e, d);
    lemma_size_product(e, t);
    lemma_bound_product(size(e) * (10_000 as real), 1 as real, size(d), 402 as real);
    lemma_bound_product(size(e) * (10_000 as real), 1 as real, size(t), 402 as real);
    lemma_times_swap(size(e), 10_000 as real, size(d));
    lemma_times_swap(size(e), 10_000 as real, size(t));
    lemma_times_one(402 as real, 1 as real);
}

/// A disc is round: it covers the pixels whose middle is nearer to its own than its radius, and
/// none that is farther, up to one square pixel.
pub proof fn law_discs_are_round(cx: Single, cy: Single, r: Single, x: int, y: int)
    requires
        -200 <= x <= 200,
        -200 <= y <= 200,
        cx.is_finite(),
        cy.is_finite(),
        r.is_finite(),
        size(real_of(cx)) <= 200 as real,
        size(real_of(cy)) <= 200 as real,
        0 as real <= real_of(r) <= 200 as real,
    ensures
        ({
            let half = (1 as real) / (2 as real);
            let (dx, dy) = ((x as real) + half - real_of(cx), (y as real) + half - real_of(cy));
            let z = dx * dx + dy * dy;
            let rr = real_of(r) * real_of(r);
            &&& z + 1 as real <= rr ==> covers(Region::Disc { cx, cy, r }, x, y)
            &&& z >= rr + 1 as real ==> !covers(Region::Disc { cx, cy, r }, x, y)
        }),
{
    lemma_unit();
    lemma_middle(x, cx);
    lemma_middle(y, cy);
    let half = (1 as real) / (2 as real);
    let (dx, dy) = ((x as real) + half - real_of(cx), (y as real) + half - real_of(cy));
    let (sx, sy) = (
        difference(sum(from_whole(x), from_fraction(1, 2)), cx),
        difference(sum(from_whole(y), from_fraction(1, 2)), cy),
    );
    let (px, py) = (product(sx, sx), product(sy, sy));
    lemma_square(dx);
    lemma_square(dy);
    lemma_bound_product(size(dx), 401 as real, size(dx), 401 as real);
    lemma_bound_product(size(dy), 401 as real, size(dy), 401 as real);
    lemma_finite_sum(px, py, 400_000);
    law_sums_are_sums(px, py);
    let t = real_of(r);
    lemma_bound_product(t, 200 as real, t, 200 as real);
    lemma_finite_product(r, r, 40_000);
    law_products_are_products(r, r);
    law_order_is_order_of_reals(offset(x, y, cx, cy), square(r));
    if dx * dx + dy * dy + 1 as real <= t * t {
        lemma_within_radius(dx, dy, t);
        lemma_within_radius(dy, dx, t);
        lemma_box(cx, r, x);
        lemma_box(cy, r, y);
    }
}

/// An offset is no greater than the radius that it is within.
proof fn lemma_within_radius(x: real, y: real, r: real)
    requires
        r >= 0 as real,
        x * x + y * y <= r * r,
    ensures
        size(x) <= r,
{
    lemma_square(x);
    lemma_square(y);
    if size(x) > r {
        lemma_times_order(r, size(x), r);
        lemma_times_order(r, size(x), size(x));
        assert(size(x) * size(x) > r * r) by (nonlinear_arith)
            requires
                size(x) > r,
                r >= 0 as real,
        ;
    }
}

/// A pixel whose middle is within a radius lies in the box around it.
proof fn lemma_box(c: Single, r: Single, x: int)
    requires
        -200 <= x <= 200,
        c.is_finite(),
        r.is_finite(),
        size(real_of(c)) <= 200 as real,
        0 as real <= real_of(r) <= 200 as real,
        size((x as real) + (1 as real) / (2 as real) - real_of(c)) <= real_of(r),
    ensures
        down(difference(c, r)) <= x <= up(sum(c, r)),
{
    lemma_finite_difference(c, r, 400);
    law_differences_are_differences(c, r);
    lemma_finite_sum(c, r, 400);
    law_sums_are_sums(c, r);
    lemma_down(difference(c, r), x);
    lemma_up(sum(c, r), x);
}

/// Classes trade speed for strength: one with a stronger hull has stronger shields that cost less
/// fuel, but is slower, speeds up and turns more slowly, and its torpedoes fly more slowly.
pub proof fn law_classes_trade_speed_for_strength(a: ShipClass, b: ShipClass)
    requires
        real_of(class_stats(a).max_hull) < real_of(class_stats(b).max_hull),
    ensures
        ({
            let (s, t) = (class_stats(a), class_stats(b));
            &&& real_of(s.max_shields) < real_of(t.max_shields)
            &&& real_of(s.shield_energy_per_damage) > real_of(t.shield_energy_per_damage)
            &&& real_of(s.max_speed) > real_of(t.max_speed)
            &&& real_of(s.thrust_force) > real_of(t.thrust_force)
            &&& real_of(s.turn_rate) > real_of(t.turn_rate)
            &&& real_of(s.primary_projectile_speed) > real_of(t.primary_projectile_speed)
        }),
{
    assert forall|n: int| 0 <= n <= 1000 implies real_of(#[trigger] from_whole(n)) == n as real by {
        law_wholes_are_wholes(n);
    }
    lemma_ratio(3, 2);
    lemma_ratio(11, 5);
    lemma_ratio(4, 5);
    lemma_ratio(3, 5);
    lemma_ratio(7, 10);
}

/// A fraction of small whole numbers, to the thousandth.
proof fn lemma_ratio(n: int, d: int)
    requires
        0 <= n <= 20,
        1 <= d <= 20,
    ensures
        size(real_of(from_fraction(n, d)) * (d as real) - n as real) * (1000 as real) <= 1 as real,
{
    lemma_unit();
    law_fractions_are_fractions(n, d);
    lemma_times_order(d as real, 20 as real, dust());
}

/// Only ships that have a cloak pay for one, and every beam drains more fuel than the reactor gives
/// back.
pub proof fn law_fuel_limits_cloaks_and_beams(class: ShipClass)
    ensures
        cloaks(class) <==> real_of(class_stats(class).cloak_fuel_drain) > 0 as real,
        real_of(class_stats(class).phaser_fuel_drain) > real_of(class_stats(class).fuel_regen),
        cloaks(class) ==> real_of(class_stats(class).cloak_fuel_drain) > real_of(
            class_stats(class).fuel_regen,
        ),
{
    assert forall|n: int| 0 <= n <= 1000 implies real_of(#[trigger] from_whole(n)) == n as real by {
        law_wholes_are_wholes(n);
    }
    lemma_unit();
    law_fractions_are_fractions(149, 2);
    let r = real_of(from_fraction(149, 2));
    assert(size(r * (2 as real) - 149 as real) * (0x100_0000 as real) <= (149 as real) + dust() * (
    2 as real));
}

} // verus!
