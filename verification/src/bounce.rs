//! How things rebound from each other, in real numbers, up to rounding.
use vstd::prelude::*;

use crate::collisions::{
    bumped, bumps, first_met, gap_squared, grounded, knock_of, knocked, knocking, normal_of,
    parting, rebounded, reflected, rock_bruises, ship_bruises, ship_radius, squared, Contact, Knock,
};
use crate::contact::{distance_squared, lemma_gap, lemma_within_reach};
use crate::exact::{
    dust, law_a_half_is_a_half, law_differences_are_differences, law_fractions_are_fractions,
    law_opposites_are_opposites, law_order_is_order_of_reals, law_products_are_products,
    law_quotients_are_quotients, law_roots_are_roots, law_sums_are_sums, law_wholes_are_wholes,
    lemma_bound_product, lemma_difference_of_near, lemma_finite_difference, lemma_finite_product,
    lemma_finite_quotient, lemma_finite_root, lemma_finite_sum, lemma_near_apart, lemma_near_more,
    lemma_near_self, lemma_near_size, lemma_near_wider, lemma_product_of_near, lemma_size_product,
    lemma_sum_of_near, lemma_times_cancel, lemma_times_one, lemma_times_opposite, lemma_times_order,
    lemma_times_regroup, lemma_times_sum, lemma_times_swap, lemma_unit, near, real_of, scale, size,
};
use crate::helm::shifted;
use crate::motion::{goes_by, law_shifts_go_their_way};
use crate::order::lemma_zero;
use crate::physics::{is_direction, is_in_the_world, lemma_direction_parts, lemma_real_zero};
use crate::ray::radius_of;
use crate::single::{
    difference, from_fraction, from_whole, greater, negated, product, quotient, root, sum, zero,
    Single,
};
use crate::table::{law_put_is_found, law_put_leaves_the_others, lemma_find};
use crate::world::{entity_of, with_entity, ServerEntity, World};

verus! {

/// A square is no less than zero, and is that of the size.
pub proof fn lemma_square(x: real)
    ensures
        x * x >= 0 as real,
        size(x) * size(x) == x * x,
{
    lemma_size_product(x, x);
    lemma_bound_product(size(x), size(x), size(x), size(x));
    lemma_times_opposite(x, x);
}

/// The squares of amounts that differ by a given part of a third one.
pub proof fn lemma_squares_differ(a: real, x: real, k: real, d: real, m: real)
    requires
        size(a - x) * (0x100_0000 as real) <= k * d,
        size(a + x) <= m * d,
        k >= 0 as real,
        m >= 0 as real,
        d >= 0 as real,
    ensures
        size(a * a - x * x) * (0x100_0000 as real) <= (k * m) * (d * d),
{
    assert((a - x) * (a + x) == a * a - x * x) by (nonlinear_arith);
    let w = 0x100_0000 as real;
    lemma_size_product(a - x, a + x);
    lemma_bound_product(size(a - x) * w, k * d, size(a + x), m * d);
    lemma_times_swap(size(a - x), w, size(a + x));
    lemma_times_regroup(k, d, m, d);
}

/// The square of the distance is near the sum of the squares of the offsets.
proof fn lemma_gap_near(x: real, y: real, dx: real, dy: real, px: real, py: real, g: real)
    requires
        x * x + y * y >= 1 as real,
        size(dx - x) * (0x100_0000 as real) <= size(x),
        size(dy - y) * (0x100_0000 as real) <= size(y),
        size(px - dx * dx) * (0x100_0000 as real) <= size(dx * dx) + dust(),
        size(py - dy * dy) * (0x100_0000 as real) <= size(dy * dy) + dust(),
        size(g - (px + py)) * (0x100_0000 as real) <= size(px + py),
    ensures
        size(g - (x * x + y * y)) * (0x100_0000 as real) <= (9 as real) * (x * x + y * y),
        g >= 0 as real,
{
    lemma_unit();
    lemma_square(x);
    lemma_square(y);
    lemma_square(dx);
    lemma_square(dy);
    lemma_times_one(size(x), 1 as real);
    lemma_times_one(size(y), 1 as real);
    lemma_squares_differ(dx, x, 1 as real, size(x), 3 as real);
    lemma_squares_differ(dy, y, 1 as real, size(y), 3 as real);
    let (xx, yy) = (x * x, y * y);
    assert(size(dx * dx - xx) * (0x100_0000 as real) <= (3 as real) * xx);
    assert(size(dy * dy - yy) * (0x100_0000 as real) <= (3 as real) * yy);
}

/// Offsets over the distance make a vector of length one.
proof fn lemma_normal_real(
    x: real,
    y: real,
    dx: real,
    dy: real,
    g: real,
    d: real,
    nx: real,
    ny: real,
)
    requires
        x * x + y * y >= 1 as real,
        size(dx - x) * (0x100_0000 as real) <= size(x),
        size(dy - y) * (0x100_0000 as real) <= size(y),
        size(g - (x * x + y * y)) * (0x100_0000 as real) <= (9 as real) * (x * x + y * y),
        d >= 0 as real,
        size(d * d - g) * (0x100_0000 as real) <= (8 as real) * g,
        size(nx * d - dx) * (0x100_0000 as real) <= size(dx) + dust() * d,
        size(ny * d - dy) * (0x100_0000 as real) <= size(dy) + dust() * d,
    ensures
        is_direction(nx, ny),
        size(nx * d - x) * (0x100_0000 as real) <= (7 as real) * d,
        size(ny * d - y) * (0x100_0000 as real) <= (7 as real) * d,
        size(d * d - (x * x + y * y)) * (0x100_0000 as real) <= (18 as real) * (x * x + y * y),
        d * (2 as real) >= 1 as real,
{
    lemma_unit();
    let z = x * x + y * y;
    let dd = d * d;
    lemma_distance_large(z, d);
    lemma_offset_small(x, y, d);
    lemma_offset_small(y, x, d);
    lemma_times_order(dust(), 1 as real, d);
    lemma_times_one(d, 1 as real);
    assert(size(nx * d - x) * (0x100_0000 as real) <= (7 as real) * d);
    assert(size(ny * d - y) * (0x100_0000 as real) <= (7 as real) * d);
    let (ax, ay) = (nx * d, ny * d);
    lemma_squares_differ(ax, x, 7 as real, d, 5 as real);
    lemma_squares_differ(ay, y, 7 as real, d, 5 as real);
    lemma_times_regroup(nx, d, nx, d);
    lemma_times_regroup(ny, d, ny, d);
    let n2 = nx * nx + ny * ny;
    lemma_times_sum(nx * nx, ny * ny, dd);
    lemma_times_sum(n2, 1 as real, dd);
    lemma_times_one(dd, 1 as real);
    let off = n2 - 1 as real;
    assert(off * dd == n2 * dd - dd);
    assert(size(off * dd) * (0x100_0000 as real) <= (110 as real) * dd);
    lemma_size_product(off, dd);
    lemma_times_swap(size(off), 0x100_0000 as real, dd);
    lemma_times_cancel(size(off) * (0x100_0000 as real), 110 as real, dd);
}

/// A distance whose square is about one or more is no less than a half.
proof fn lemma_distance_large(z: real, d: real)
    requires
        z >= 1 as real,
        d >= 0 as real,
        (d * d) * (2 as real) >= z,
    ensures
        d * (2 as real) >= 1 as real,
        d * d > 0 as real,
{
    if d * (2 as real) < 1 as real {
        let h = d * (2 as real);
        lemma_bound_product(h, 1 as real, h, 1 as real);
        lemma_times_regroup(d, 2 as real, d, 2 as real);
        assert(h * h == (d * d) * (4 as real));
        lemma_times_one(1 as real, 1 as real);
    }
}

/// An offset is no more than twice the distance.
proof fn lemma_offset_small(x: real, y: real, d: real)
    requires
        d >= 0 as real,
        d * d > 0 as real,
        x * x + y * y <= (d * d) * (2 as real),
    ensures
        size(x) <= (2 as real) * d,
{
    lemma_square(x);
    lemma_square(y);
    if size(x) > (2 as real) * d {
        let h = (2 as real) * d;
        lemma_bound_product(h, size(x), h, size(x));
        lemma_times_regroup(2 as real, d, 2 as real, d);
        assert(h * h == (4 as real) * (d * d));
    }
}

/// The least distance that is divided by is less than a half.
proof fn lemma_least_distance()
    ensures
        from_fraction(1, 1000).is_finite(),
        real_of(from_fraction(1, 1000)) * (4 as real) <= 1 as real,
{
    lemma_unit();
    law_fractions_are_fractions(1, 1000);
    let r = real_of(from_fraction(1, 1000));
    assert(size(r * (1000 as real) - 1 as real) * (0x100_0000 as real) <= (1 as real) + dust() * (
    1000 as real));
}

/// Whether two entities are close enough to touch and not in the same place: both lie in the world,
/// at least one unit and in each coordinate at most two thousand apart.
pub open spec fn are_close(a: ServerEntity, b: ServerEntity) -> bool {
    let (x, y) = (real_of(a.x) - real_of(b.x), real_of(a.y) - real_of(b.y));
    &&& is_in_the_world(a.x) && is_in_the_world(a.y)
    &&& is_in_the_world(b.x) && is_in_the_world(b.y)
    &&& size(x) <= 2000 as real && size(y) <= 2000 as real
    &&& x * x + y * y >= 1 as real
}

/// The normal at a collision is a vector of length one that points from the one entity to the
/// other: times their distance it is their offset.
pub proof fn law_normals_point_apart(a: ServerEntity, b: ServerEntity, reach: Single)
    requires
        are_close(a, b),
    ensures
        ({
            let (nx, ny, _) = normal_of(a, b, reach);
            let (x, y) = (real_of(a.x) - real_of(b.x), real_of(a.y) - real_of(b.y));
            let dist = root(gap_squared(a, b));
            let d = real_of(dist);
            &&& nx.is_finite() && ny.is_finite() && dist.is_finite()
            &&& is_direction(real_of(nx), real_of(ny))
            &&& d * (2 as real) >= 1 as real
            &&& size(d * d - (x * x + y * y)) * (0x100_0000 as real) <= (18 as real) * (x * x + y
                * y)
            &&& size(real_of(nx) * d - x) * (0x100_0000 as real) <= (7 as real) * d
            &&& size(real_of(ny) * d - y) * (0x100_0000 as real) <= (7 as real) * d
            &&& normal_of(a, b, reach).2 == difference(reach, dist)
        }),
{
    lemma_unit();
    let (x, y) = (real_of(a.x) - real_of(b.x), real_of(a.y) - real_of(b.y));
    lemma_finite_difference(a.x, b.x, 2000);
    lemma_finite_difference(a.y, b.y, 2000);
    law_differences_are_differences(a.x, b.x);
    law_differences_are_differences(a.y, b.y);
    let (sx, sy) = (difference(a.x, b.x), difference(a.y, b.y));
    let (dx, dy) = (real_of(sx), real_of(sy));
    lemma_square(dx);
    lemma_square(dy);
    lemma_bound_product(size(dx), 2001 as real, size(dx), 2001 as real);
    lemma_bound_product(size(dy), 2001 as real, size(dy), 2001 as real);
    lemma_finite_product(sx, sx, 4_004_001);
    lemma_finite_product(sy, sy, 4_004_001);
    law_products_are_products(sx, sx);
    law_products_are_products(sy, sy);
    let (qx, qy) = (product(sx, sx), product(sy, sy));
    lemma_finite_sum(qx, qy, 9_000_000);
    law_sums_are_sums(qx, qy);
    let gap = gap_squared(a, b);
    lemma_gap_near(x, y, dx, dy, real_of(qx), real_of(qy), real_of(gap));
    lemma_finite_root(gap, 10_000_000);
    law_roots_are_roots(gap);
    let dist = root(gap);
    let d = real_of(dist);
    let z = x * x + y * y;
    assert((d * d) * (2 as real) >= z);
    lemma_distance_large(z, d);
    lemma_least_distance();
    law_order_is_order_of_reals(dist, from_fraction(1, 1000));
    assert(greater(dist, from_fraction(1, 1000)) == dist);
    lemma_offset_small(x, y, d);
    lemma_offset_small(y, x, d);
    lemma_finite_quotient(sx, dist, 3);
    lemma_finite_quotient(sy, dist, 3);
    law_quotients_are_quotients(sx, dist);
    law_quotients_are_quotients(sy, dist);
    lemma_normal_real(
        x,
        y,
        dx,
        dy,
        real_of(gap),
        d,
        real_of(quotient(sx, dist)),
        real_of(quotient(sy, dist)),
    );
}

/// What the impulse comes to: times both masses it is what it was divided by them.
proof fn lemma_impulse_real(
    r1: real,
    r2: real,
    m1: real,
    m2: real,
    total: real,
    p: real,
    q: real,
    b: real,
)
    requires
        1 as real <= r1 <= 1_000_000 as real,
        1 as real <= r2 <= 1_000_000 as real,
        size(m1 - r1) * (0x100_0000 as real) <= r1 + dust(),
        size(m2 - r2) * (0x100_0000 as real) <= r2 + dust(),
        size(total - (m1 + m2)) * (0x100_0000 as real) <= size(m1 + m2),
        size(q * total - p) * (0x100_0000 as real) <= size(p) + dust() * size(total),
        (4 as real) * size(p) + 1 as real <= b,
    ensures
        size(q) * (r1 + r2) <= b,
        size(q * (r1 + r2) - p) * (0x100_0000 as real) <= (6 as real) * b,
{
    lemma_unit();
    let s = r1 + r2;
    let w = 0x100_0000 as real;
    assert(s <= total * (2 as real) && total <= s * (2 as real));
    assert(size(total) == total && 0 as real <= total <= w);
    lemma_times_order(total, w, dust());
    assert(dust() * total <= 1 as real);
    lemma_size_product(q, total);
    assert(size(q) * total <= (2 as real) * size(p) + (1 as real) / (2 as real));
    lemma_times_order(s, total * (2 as real), size(q));
    lemma_times_swap(size(q), total, 2 as real);
    assert(size(q) * (total * (2 as real)) == (size(q) * total) * (2 as real));
    // The other mass is not far off.
    assert(size(s - total) * w <= (4 as real) * s);
    lemma_size_product(q, s - total);
    lemma_times_order(size(s - total) * w, (4 as real) * s, size(q));
    lemma_times_swap(size(q), size(s - total), w);
    lemma_times_swap(size(q), s, 4 as real);
    assert(size(q) * ((4 as real) * s) == (size(q) * s) * (4 as real));
    assert(size(q) * (size(s - total) * w) == size(q * (s - total)) * w);
    lemma_times_sum(s, total, q);
}

/// The impulse times a mass, rounded.
proof fn lemma_share_real(q: real, r: real, m: real, s: real, a: real, b: real)
    requires
        1 as real <= r <= s,
        size(m - r) * (0x100_0000 as real) <= r + dust(),
        size(q) * s <= b,
        1 as real <= b,
        size(a - q * m) * (0x100_0000 as real) <= size(q * m) + dust(),
    ensures
        near(a, q * r, b, 5),
{
    lemma_share_bound(q, r, m, s, b);
    lemma_unit();
    let (x, y) = (a - q * m, q * m - q * r);
    assert(size(x + y) <= size(x) + size(y));
    assert(size(a - q * r) * (0x100_0000 as real) <= (5 as real) * b);
}

/// The impulse times a mass is bounded.
proof fn lemma_share_bound(q: real, r: real, m: real, s: real, b: real)
    requires
        1 as real <= r <= s,
        size(m - r) * (0x100_0000 as real) <= r + dust(),
        size(q) * s <= b,
        1 as real <= b,
    ensures
        size(q * r) <= b,
        size(q * m) <= (2 as real) * b,
        size(q * m - q * r) * (0x100_0000 as real) <= (2 as real) * b,
{
    lemma_unit();
    let w = 0x100_0000 as real;
    lemma_size_product(q, r);
    lemma_times_order(r, s, size(q));
    lemma_size_product(q, m - r);
    lemma_times_order(size(m - r) * w, (2 as real) * r, size(q));
    lemma_times_swap(size(q), size(m - r), w);
    lemma_times_swap(size(q), r, 2 as real);
    lemma_times_sum(m, r, q);
    assert(size(q) * ((2 as real) * r) == (size(q) * r) * (2 as real));
    assert(size(q) * (size(m - r) * w) == size(q * (m - r)) * w);
}

/// Momentum, in one coordinate: the changes of velocity weigh the same.
proof fn lemma_momentum_real(q: real, r1: real, r2: real, n: real, v1: real, v2: real, b: real)
    requires
        r1 >= 0 as real,
        r2 >= 0 as real,
        near(v1, (-(q * r2)) * n, b, 10),
        near(v2, (q * r1) * n, b, 10),
    ensures
        size(r1 * v1 + r2 * v2) * (0x100_0000 as real) <= (r1 + r2) * ((10 as real) * b),
{
    let w = 0x100_0000 as real;
    let e1 = v1 - (-(q * r2)) * n;
    let e2 = v2 - (q * r1) * n;
    lemma_times_opposite(q * r2, n);
    lemma_times_sum(v1, (-(q * r2)) * n, r1);
    lemma_times_sum(v2, (q * r1) * n, r2);
    let g = q * n;
    lemma_times_swap(q, r2, n);
    lemma_times_swap(q, r1, n);
    lemma_times_swap(r1, g, r2);
    lemma_times_swap(r2, g, r1);
    lemma_times_swap(r1, r2, g);
    lemma_times_opposite(r1, (q * r2) * n);
    assert((q * r2) * n == g * r2);
    assert((q * r1) * n == g * r1);
    assert(r1 * (g * r2) == r2 * (g * r1));
    assert(r1 * v1 + r2 * v2 == r1 * e1 + r2 * e2);
    let t = (10 as real) * b;
    lemma_size_product(r1, e1);
    lemma_size_product(r2, e2);
    lemma_times_order(size(e1) * w, t, r1);
    lemma_times_order(size(e2) * w, t, r2);
    lemma_times_swap(r1, size(e1), w);
    lemma_times_swap(r2, size(e2), w);
    lemma_times_sum(r1, r2, t);
}

/// Whether an entity moves by no more than an amount a second in each coordinate.
pub open spec fn moves_within(e: ServerEntity, c: real) -> bool {
    &&& e.vx.is_finite() && e.vy.is_finite()
    &&& size(real_of(e.vx)) <= c && size(real_of(e.vy)) <= c
}

/// Whether a body is between one and a hundred units in radius.
pub open spec fn is_sized(r: Single) -> bool {
    r.is_finite() && 1 as real <= real_of(r) <= 100 as real
}

/// The mass of a disc, as its area.
pub open spec fn mass(e: ServerEntity) -> real {
    real_of(radius_of(e)) * real_of(radius_of(e))
}

/// The speed at which two entities part along a direction.
pub open spec fn speed_apart(
    vx1: real,
    vy1: real,
    vx2: real,
    vy2: real,
    nx: real,
    ny: real,
) -> real {
    (vx1 - vx2) * nx + (vy1 - vy2) * ny
}

/// One coordinate of the relative velocity along the normal.
proof fn lemma_relative(u: Single, v: Single, n: Single, c: real)
    requires
        u.is_finite(),
        v.is_finite(),
        n.is_finite(),
        1 as real <= c <= 4000 as real,
        size(real_of(u)) <= c,
        size(real_of(v)) <= c,
        size(real_of(n)) <= 2 as real,
    ensures
        product(difference(u, v), n).is_finite(),
        near(
            real_of(product(difference(u, v), n)),
            (real_of(u) - real_of(v)) * real_of(n),
            (12 as real) * c,
            5,
        ),
{
    lemma_finite_difference(u, v, 8000);
    lemma_near_self(real_of(u));
    lemma_near_self(real_of(v));
    lemma_near_self(real_of(n));
    let cc = (2 as real) * c;
    lemma_near_wider(real_of(u), real_of(u), scale(real_of(u)), cc, 0);
    lemma_near_wider(real_of(v), real_of(v), scale(real_of(v)), cc, 0);
    lemma_near_wider(real_of(n), real_of(n), scale(real_of(n)), 3 as real, 0);
    lemma_difference_of_near(u, real_of(u), cc, v, real_of(v), cc, 0);
    let d = difference(u, v);
    law_differences_are_differences(u, v);
    lemma_size_product(real_of(d), real_of(n));
    lemma_bound_product(size(real_of(d)), 8002 as real, size(real_of(n)), 2 as real);
    lemma_finite_product(d, n, 20_000);
    lemma_product_of_near(
        d,
        real_of(u) - real_of(v),
        cc + cc,
        2,
        n,
        real_of(n),
        3 as real,
        0,
    );
    assert((cc + cc) * (3 as real) == (12 as real) * c);
}

/// Twice the speed at which two asteroids part.
proof fn lemma_parting(a: ServerEntity, b: ServerEntity, c: real)
    requires
        are_close(a, b),
        1 as real <= c <= 4000 as real,
        moves_within(a, c),
        moves_within(b, c),
    ensures
        ({
            let (nx, ny, _) = normal_of(a, b, sum(radius_of(a), radius_of(b)));
            let v = speed_apart(
                real_of(a.vx),
                real_of(a.vy),
                real_of(b.vx),
                real_of(b.vy),
                real_of(nx),
                real_of(ny),
            );
            let p = product(from_whole(2), parting(a, b));
            &&& p.is_finite()
            &&& near(real_of(p), (2 as real) * v, (72 as real) * c, 10)
            &&& parting(a, b).is_finite()
            &&& near(real_of(parting(a, b)), v, (24 as real) * c, 7)
        }),
{
    let reach = sum(radius_of(a), radius_of(b));
    let (nx, ny, _) = normal_of(a, b, reach);
    law_normals_point_apart(a, b, reach);
    lemma_direction_parts(real_of(nx), real_of(ny));
    lemma_relative(a.vx, b.vx, nx, c);
    lemma_relative(a.vy, b.vy, ny, c);
    let (x, y) = (product(difference(a.vx, b.vx), nx), product(difference(a.vy, b.vy), ny));
    let (rx, ry) = (
        (real_of(a.vx) - real_of(b.vx)) * real_of(nx),
        (real_of(a.vy) - real_of(b.vy)) * real_of(ny),
    );
    let w = (12 as real) * c;
    lemma_near_size(real_of(x), rx, w, 5);
    lemma_near_size(real_of(y), ry, w, 5);
    lemma_finite_sum(x, y, 200_000);
    lemma_sum_of_near(x, rx, w, y, ry, w, 5);
    law_wholes_are_wholes(2);
    lemma_near_self(2 as real);
    let s = parting(a, b);
    assert(w + w == (24 as real) * c);
    lemma_near_size(real_of(s), rx + ry, w + w, 7);
    lemma_finite_product(from_whole(2), s, 400_000);
    lemma_product_of_near(from_whole(2), 2 as real, 3 as real, 0, s, rx + ry, w + w, 7);
    assert((3 as real) * (w + w) == (72 as real) * c);
}

/// A squared radius is a mass.
proof fn lemma_mass(r: Single)
    requires
        is_sized(r),
    ensures
        squared(r).is_finite(),
        1 as real <= real_of(r) * real_of(r) <= 10_000 as real,
        size(real_of(squared(r)) - real_of(r) * real_of(r)) * (0x100_0000 as real) <= real_of(r)
            * real_of(r) + dust(),
{
    let x = real_of(r);
    lemma_bound_product(x, 100 as real, x, 100 as real);
    lemma_bound_product(1 as real, x, 1 as real, x);
    lemma_times_one(1 as real, 1 as real);
    lemma_finite_product(r, r, 10_000);
    law_products_are_products(r, r);
}

/// A share of the impulse along the normal.
proof fn lemma_kick(h: Single, y: real, n: Single, b: real)
    requires
        h.is_finite(),
        n.is_finite(),
        near(real_of(h), y, b, 5),
        size(real_of(n)) <= 2 as real,
        b <= 1_200_000 as real,
    ensures
        product(h, n).is_finite(),
        near(real_of(product(h, n)), y * real_of(n), (3 as real) * b, 10),
{
    lemma_near_self(real_of(n));
    lemma_near_wider(real_of(n), real_of(n), scale(real_of(n)), 3 as real, 0);
    lemma_near_size(real_of(h), y, b, 5);
    lemma_size_product(real_of(h), real_of(n));
    lemma_bound_product(size(real_of(h)), 1_300_000 as real, size(real_of(n)), 2 as real);
    lemma_finite_product(h, n, 3_000_000);
    lemma_product_of_near(h, y, b, 5, n, real_of(n), 3 as real, 0);
    assert(b * (3 as real) == (3 as real) * b);
    lemma_near_more(real_of(product(h, n)), y * real_of(n), (3 as real) * b, 8, 10);
}

/// The parts of a knock: each change of velocity is along the normal and as the other mass.
proof fn lemma_knock_parts(a: ServerEntity, b: ServerEntity, c: real) -> (q: real)
    requires
        are_close(a, b),
        is_sized(radius_of(a)),
        is_sized(radius_of(b)),
        1 as real <= c <= 4000 as real,
        moves_within(a, c),
        moves_within(b, c),
    ensures
        ({
            let k = knock_of(a, b);
            let (nx, ny) = (real_of(k.nx), real_of(k.ny));
            let (m1, m2) = (mass(a), mass(b));
            let v = speed_apart(
                real_of(a.vx),
                real_of(a.vy),
                real_of(b.vx),
                real_of(b.vy),
                nx,
                ny,
            );
            let w = (900 as real) * c;
            &&& 1 as real <= m1 && 1 as real <= m2
            &&& is_direction(nx, ny)
            &&& k.dvx1.is_finite() && k.dvy1.is_finite() && k.dvx2.is_finite()
                && k.dvy2.is_finite()
            &&& near(real_of(k.dvx1), (-(q * m2)) * nx, w, 10)
            &&& near(real_of(k.dvy1), (-(q * m2)) * ny, w, 10)
            &&& near(real_of(k.dvx2), (q * m1) * nx, w, 10)
            &&& near(real_of(k.dvy2), (q * m1) * ny, w, 10)
            &&& size(q * (m1 + m2) - (2 as real) * v) * (0x100_0000 as real) <= (3000 as real) * c
            &&& size(v) <= (36 as real) * c
        }),
{
    lemma_unit();
    let reach = sum(radius_of(a), radius_of(b));
    let (nx, ny, _) = normal_of(a, b, reach);
    law_normals_point_apart(a, b, reach);
    lemma_direction_parts(real_of(nx), real_of(ny));
    lemma_parting(a, b, c);
    lemma_mass(radius_of(a));
    lemma_mass(radius_of(b));
    let (s1, s2) = (squared(radius_of(a)), squared(radius_of(b)));
    let (r1, r2) = (mass(a), mass(b));
    lemma_finite_sum(s1, s2, 40_000);
    law_sums_are_sums(s1, s2);
    let total = sum(s1, s2);
    let t = real_of(total);
    let twice = product(from_whole(2), parting(a, b));
    let p = real_of(twice);
    let v = speed_apart(
        real_of(a.vx),
        real_of(a.vy),
        real_of(b.vx),
        real_of(b.vy),
        real_of(nx),
        real_of(ny),
    );
    lemma_near_size(p, (2 as real) * v, (72 as real) * c, 10);
    lemma_near_apart(p, (2 as real) * v, (72 as real) * c, 10, 10 as real);
    let gap = size(p - (2 as real) * v);
    assert((10 as real) * ((72 as real) * c) == (720 as real) * c);
    assert(gap * (0x100_0000 as real) <= (10 as real) * ((72 as real) * c));
    assert(gap * (0x100_0000 as real) <= (720 as real) * c);
    assert(size(p) <= (73 as real) * c);
    lemma_times_order(1 as real, size(t), 300_000 as real);
    lemma_finite_quotient(twice, total, 300_000);
    law_quotients_are_quotients(twice, total);
    let impulse = quotient(twice, total);
    let q = real_of(impulse);
    let big = (300 as real) * c;
    lemma_impulse_real(r1, r2, real_of(s1), real_of(s2), t, p, q, big);
    law_opposites_are_opposites(impulse);
    lemma_times_opposite(q, r2);
    lemma_times_opposite(q, real_of(s2));
    lemma_share_bound(q, r1, real_of(s1), r1 + r2, big);
    lemma_share_bound(-q, r2, real_of(s2), r1 + r2, big);
    lemma_finite_product(negated(impulse), s2, 3_000_000);
    lemma_finite_product(impulse, s1, 3_000_000);
    law_products_are_products(negated(impulse), s2);
    law_products_are_products(impulse, s1);
    let (h1, h2) = (product(negated(impulse), s2), product(impulse, s1));
    lemma_share_real(-q, r2, real_of(s2), r1 + r2, real_of(h1), big);
    lemma_share_real(q, r1, real_of(s1), r1 + r2, real_of(h2), big);
    lemma_kick(h1, -(q * r2), nx, big);
    lemma_kick(h1, -(q * r2), ny, big);
    lemma_kick(h2, q * r1, nx, big);
    lemma_kick(h2, q * r1, ny, big);
    q
}

/// A velocity that is changed, rounded.
proof fn lemma_kicked(v: Single, d: Single, y: real, c: real)
    requires
        v.is_finite(),
        d.is_finite(),
        1 as real <= c <= 4000 as real,
        size(real_of(v)) <= c,
        near(real_of(d), y, (900 as real) * c, 10),
    ensures
        sum(v, d).is_finite(),
        near(real_of(sum(v, d)) - real_of(v), y, (1000 as real) * c, 10),
{
    let w = (900 as real) * c;
    lemma_near_size(real_of(d), y, w, 10);
    lemma_near_apart(real_of(d), y, w, 10, 10 as real);
    lemma_finite_sum(v, d, 4_000_000);
    law_sums_are_sums(v, d);
    let (e, f) = (real_of(sum(v, d)) - (real_of(v) + real_of(d)), real_of(d) - y);
    assert(size(e) * (0x100_0000 as real) <= (1000 as real) * c);
    assert((10 as real) * w == (9000 as real) * c);
    assert(size(f) * (0x100_0000 as real) <= (9000 as real) * c);
    assert(size(e + f) <= size(e) + size(f));
    let g = real_of(sum(v, d)) - real_of(v) - y;
    assert(g == e + f);
    assert(size(g) * (0x100_0000 as real) <= (10 as real) * ((1000 as real) * c));
}

/// A velocity changed by an impulse along a direction is reversed along that direction.
proof fn lemma_reversal_real(h: real, v: real, nx: real, ny: real, ex: real, ey: real, c: real)
    requires
        is_direction(nx, ny),
        c >= 1 as real,
        size(v) <= (36 as real) * c,
        size(h - (2 as real) * v) * (0x100_0000 as real) <= (3000 as real) * c,
        size(ex) * (0x100_0000 as real) <= (20_000 as real) * c,
        size(ey) * (0x100_0000 as real) <= (20_000 as real) * c,
    ensures
        size(v + (ex - h * nx) * nx + (ey - h * ny) * ny + v) * (100 as real) <= c,
{
    let w = 0x100_0000 as real;
    lemma_direction_parts(nx, ny);
    let n2 = nx * nx + ny * ny;
    lemma_times_sum(ex, h * nx, nx);
    lemma_times_sum(ey, h * ny, ny);
    lemma_times_swap(h, nx, nx);
    lemma_times_swap(h, ny, ny);
    lemma_times_sum(nx * nx, ny * ny, h);
    lemma_times_sum(n2, 1 as real, h);
    lemma_times_one(h, 1 as real);
    let off = h * (n2 - 1 as real);
    assert(v + (ex - h * nx) * nx + (ey - h * ny) * ny + v == ((2 as real) * v - h) - off + ex * nx
        + ey * ny);
    // What is left over.
    lemma_size_product(h, n2 - 1 as real);
    lemma_bound_product(
        size(h),
        (73 as real) * c,
        size(n2 - 1 as real) * (0x1_0000 as real),
        1 as real,
    );
    lemma_times_swap(size(h), size(n2 - 1 as real), 0x1_0000 as real);
    lemma_times_one((73 as real) * c, 1 as real);
    assert(size(off) * (0x1_0000 as real) <= (73 as real) * c);
    lemma_size_product(ex, nx);
    lemma_size_product(ey, ny);
    lemma_bound_product(size(ex) * w, (20_000 as real) * c, size(nx), 2 as real);
    lemma_bound_product(size(ey) * w, (20_000 as real) * c, size(ny), 2 as real);
    lemma_times_swap(size(ex), w, size(nx));
    lemma_times_swap(size(ey), w, size(ny));
    assert(size(ex * nx) * w <= (40_000 as real) * c);
    assert(size(ey * ny) * w <= (40_000 as real) * c);
}

/// The difference of two changes along one coordinate of the normal.
proof fn lemma_changes_real(q: real, m1: real, m2: real, n: real, d1: real, d2: real, c: real)
    requires
        near(d1, (-(q * m2)) * n, (1000 as real) * c, 10),
        near(d2, (q * m1) * n, (1000 as real) * c, 10),
    ensures
        size(d1 - d2 + (q * (m1 + m2)) * n) * (0x100_0000 as real) <= (20_000 as real) * c,
{
    let w = (1000 as real) * c;
    lemma_near_apart(d1, (-(q * m2)) * n, w, 10, 10 as real);
    lemma_near_apart(d2, (q * m1) * n, w, 10, 10 as real);
    lemma_times_opposite(q * m2, n);
    lemma_times_sum(m1, m2, q);
    lemma_times_sum(q * m1, q * m2, n);
    let (e, f) = (d1 - (-(q * m2)) * n, d2 - (q * m1) * n);
    assert((10 as real) * w == (10_000 as real) * c);
    assert(size(e) * (0x100_0000 as real) <= (10_000 as real) * c);
    assert(size(f) * (0x100_0000 as real) <= (10_000 as real) * c);
    assert(d1 - d2 + (q * (m1 + m2)) * n == e - f);
    assert(size(e - f) <= size(e) + size(f));
}

/// A change along the normal leaves what is across it.
proof fn lemma_across_real(g: real, nx: real, ny: real, dx: real, dy: real, c: real)
    requires
        is_direction(nx, ny),
        c >= 1 as real,
        near(dx, g * nx, (1000 as real) * c, 10),
        near(dy, g * ny, (1000 as real) * c, 10),
    ensures
        size(dx * ny - dy * nx) * (100 as real) <= c,
{
    let w = (1000 as real) * c;
    let k = 0x100_0000 as real;
    lemma_direction_parts(nx, ny);
    lemma_near_apart(dx, g * nx, w, 10, 10 as real);
    lemma_near_apart(dy, g * ny, w, 10, 10 as real);
    let (e, f) = (dx - g * nx, dy - g * ny);
    assert((10 as real) * w == (10_000 as real) * c);
    assert(size(e) * k <= (10_000 as real) * c);
    assert(size(f) * k <= (10_000 as real) * c);
    lemma_times_sum(dx, g * nx, ny);
    lemma_times_sum(dy, g * ny, nx);
    lemma_times_swap(g, nx, ny);
    assert(dx * ny - dy * nx == e * ny - f * nx);
    lemma_size_product(e, ny);
    lemma_size_product(f, nx);
    lemma_bound_product(size(e) * k, (10_000 as real) * c, size(ny), 2 as real);
    lemma_bound_product(size(f) * k, (10_000 as real) * c, size(nx), 2 as real);
    lemma_times_swap(size(e), k, size(ny));
    lemma_times_swap(size(f), k, size(nx));
    assert(size(e * ny) * k <= (20_000 as real) * c);
    assert(size(f * nx) * k <= (20_000 as real) * c);
}

/// When two asteroids run into each other, momentum is kept: with masses as the squares of the
/// radii, the changes of both velocities weigh nothing together.  The speed at which they part is
/// turned round, and neither changes its speed across the line between them.  Up to rounding: a
/// thousandth part, or a hundredth, of the greatest speed `c`.
pub proof fn law_knocks_are_elastic(w: World, a: ServerEntity, b: ServerEntity, c: real)
    requires
        entity_of(w, a.id) == Some(a),
        entity_of(w, b.id) == Some(b),
        a.id != b.id,
        are_close(a, b),
        is_sized(radius_of(a)),
        is_sized(radius_of(b)),
        1 as real <= c <= 4000 as real,
        moves_within(a, c),
        moves_within(b, c),
    ensures
        ({
            let r = knocked(w, knock_of(a, b));
            let (m1, m2) = (mass(a), mass(b));
            let (nx, ny, _) = normal_of(a, b, sum(radius_of(a), radius_of(b)));
            let (nx, ny) = (real_of(nx), real_of(ny));
            &&& is_direction(nx, ny)
            &&& entity_of(r, a.id) is Some && entity_of(r, b.id) is Some
            &&& ({
                let (a2, b2) = (entity_of(r, a.id)->0, entity_of(r, b.id)->0);
                let (ax, ay) = (real_of(a2.vx) - real_of(a.vx), real_of(a2.vy) - real_of(a.vy));
                let (bx, by) = (real_of(b2.vx) - real_of(b.vx), real_of(b2.vy) - real_of(b.vy));
                &&& a2.vx.is_finite() && a2.vy.is_finite()
                &&& b2.vx.is_finite() && b2.vy.is_finite()
                &&& size(m1 * ax + m2 * bx) * (1000 as real) <= (m1 + m2) * c
                &&& size(m1 * ay + m2 * by) * (1000 as real) <= (m1 + m2) * c
                &&& size(
                    speed_apart(
                        real_of(a2.vx),
                        real_of(a2.vy),
                        real_of(b2.vx),
                        real_of(b2.vy),
                        nx,
                        ny,
                    ) + speed_apart(
                        real_of(a.vx),
                        real_of(a.vy),
                        real_of(b.vx),
                        real_of(b.vy),
                        nx,
                        ny,
                    ),
                ) * (100 as real) <= c
                &&& size(ax * ny - ay * nx) * (100 as real) <= c
                &&& size(bx * ny - by * nx) * (100 as real) <= c
            })
            &&& forall|id: u32|
                id != a.id && id != b.id ==> #[trigger] entity_of(r, id) == entity_of(w, id)
        }),
{
    let k = knock_of(a, b);
    let q = lemma_knock_parts(a, b, c);
    let r = knocked(w, k);
    lemma_knocked(w, a, b, k);
    let (m1, m2) = (mass(a), mass(b));
    let (nx, ny) = (real_of(k.nx), real_of(k.ny));
    lemma_kicked(a.vx, k.dvx1, (-(q * m2)) * nx, c);
    lemma_kicked(a.vy, k.dvy1, (-(q * m2)) * ny, c);
    lemma_kicked(b.vx, k.dvx2, (q * m1) * nx, c);
    lemma_kicked(b.vy, k.dvy2, (q * m1) * ny, c);
    let (a2, b2) = (entity_of(r, a.id)->0, entity_of(r, b.id)->0);
    let (ax, ay) = (real_of(a2.vx) - real_of(a.vx), real_of(a2.vy) - real_of(a.vy));
    let (bx, by) = (real_of(b2.vx) - real_of(b.vx), real_of(b2.vy) - real_of(b.vy));
    lemma_momentum_scaled(q, m1, m2, nx, ax, bx, c);
    lemma_momentum_scaled(q, m1, m2, ny, ay, by, c);
    lemma_across_real(-(q * m2), nx, ny, ax, ay, c);
    lemma_across_real(q * m1, nx, ny, bx, by, c);
    // Along the normal.
    let h = q * (m1 + m2);
    let v = speed_apart(real_of(a.vx), real_of(a.vy), real_of(b.vx), real_of(b.vy), nx, ny);
    lemma_changes_real(q, m1, m2, nx, ax, bx, c);
    lemma_changes_real(q, m1, m2, ny, ay, by, c);
    let (ex, ey) = (ax - bx + h * nx, ay - by + h * ny);
    lemma_reversal_real(h, v, nx, ny, ex, ey, c);
    let (vx, vy) = (real_of(a.vx) - real_of(b.vx), real_of(a.vy) - real_of(b.vy));
    lemma_times_sum(vx, ax - bx, nx);
    lemma_times_sum(vy, ay - by, ny);
    assert(ex - h * nx == ax - bx);
    assert(ey - h * ny == ay - by);
    let v2 = speed_apart(
        real_of(a2.vx),
        real_of(a2.vy),
        real_of(b2.vx),
        real_of(b2.vy),
        nx,
        ny,
    );
    assert(real_of(a2.vx) - real_of(b2.vx) == vx + (ax - bx));
    assert(real_of(a2.vy) - real_of(b2.vy) == vy + (ay - by));
    assert(v2 + v == v + (ex - h * nx) * nx + (ey - h * ny) * ny + v);
}

/// Momentum, with the bound in terms of the greatest speed.
proof fn lemma_momentum_scaled(
    q: real,
    m1: real,
    m2: real,
    n: real,
    d1: real,
    d2: real,
    c: real,
)
    requires
        m1 >= 0 as real,
        m2 >= 0 as real,
        c >= 1 as real,
        near(d1, (-(q * m2)) * n, (1000 as real) * c, 10),
        near(d2, (q * m1) * n, (1000 as real) * c, 10),
    ensures
        size(m1 * d1 + m2 * d2) * (1000 as real) <= (m1 + m2) * c,
{
    lemma_momentum_real(q, m1, m2, n, d1, d2, (1000 as real) * c);
    let s = m1 + m2;
    assert((10 as real) * ((1000 as real) * c) == (10_000 as real) * c);
    lemma_times_swap(s, 10_000 as real, c);
    assert(s * ((10_000 as real) * c) == (s * c) * (10_000 as real));
    lemma_bound_product(s, s, c, c);
}

/// What a knock does to the world.
proof fn lemma_knocked(w: World, a: ServerEntity, b: ServerEntity, k: Knock)
    requires
        entity_of(w, a.id) == Some(a),
        entity_of(w, b.id) == Some(b),
        a.id != b.id,
        k.id1 == a.id,
        k.id2 == b.id,
    ensures
        ({
            let r = knocked(w, k);
            &&& entity_of(r, a.id) matches Some(e) && e.vx == sum(a.vx, k.dvx1) && e.vy == sum(
                a.vy,
                k.dvy1,
            ) && e.x == shifted(a.x, product(k.nx, k.push1)) && e.y == shifted(
                a.y,
                product(k.ny, k.push1),
            )
            &&& entity_of(r, b.id) matches Some(e) && e.vx == sum(b.vx, k.dvx2) && e.vy == sum(
                b.vy,
                k.dvy2,
            ) && e.x == shifted(b.x, negated(product(k.nx, k.push2))) && e.y == shifted(
                b.y,
                negated(product(k.ny, k.push2)),
            )
            &&& forall|id: u32|
                id != a.id && id != b.id ==> #[trigger] entity_of(r, id) == entity_of(w, id)
        }),
{
    let a2 = ServerEntity {
        x: shifted(a.x, product(k.nx, k.push1)),
        y: shifted(a.y, product(k.ny, k.push1)),
        vx: sum(a.vx, k.dvx1),
        vy: sum(a.vy, k.dvy1),
        ..a
    };
    let w1 = with_entity(w, a2);
    law_put_is_found(w.entities, a2);
    law_put_leaves_the_others(w.entities, a2, b.id);
    let b2 = ServerEntity {
        x: shifted(b.x, negated(product(k.nx, k.push2))),
        y: shifted(b.y, negated(product(k.ny, k.push2))),
        vx: sum(b.vx, k.dvx2),
        vy: sum(b.vy, k.dvy2),
        ..b
    };
    law_put_is_found(w1.entities, b2);
    law_put_leaves_the_others(w1.entities, b2, a.id);
    let r = with_entity(w1, b2);
    assert(knocked(w, k) == r);
    assert forall|id: u32| id != a.id && id != b.id implies #[trigger] entity_of(r, id)
        == entity_of(w, id) by {
        law_put_leaves_the_others(w.entities, a2, id);
        law_put_leaves_the_others(w1.entities, b2, id);
    }
}

/// One coordinate of a velocity that is reflected and damped.
proof fn lemma_reflected(
    v: Single,
    n: Single,
    dot: Single,
    damping: Single,
    s: real,
    d: real,
    c: real,
)
    requires
        v.is_finite(),
        n.is_finite(),
        dot.is_finite(),
        damping.is_finite(),
        1 as real <= c <= 4000 as real,
        size(real_of(v)) <= c,
        size(real_of(n)) <= 2 as real,
        near(real_of(dot), s, (12 as real) * c, 5),
        near(real_of(damping), d, 2 as real, 2),
    ensures
        reflected(v, n, dot, damping).is_finite(),
        near(
            real_of(reflected(v, n, dot, damping)),
            (real_of(v) - ((2 as real) * s) * real_of(n)) * d,
            (220 as real) * c,
            18,
        ),
{
    let w = (12 as real) * c;
    let two = from_whole(2);
    law_wholes_are_wholes(2);
    lemma_near_self(2 as real);
    lemma_near_size(real_of(dot), s, w, 5);
    lemma_finite_product(two, dot, 100_000);
    lemma_product_of_near(two, 2 as real, 3 as real, 0, dot, s, w, 5);
    let twice = product(two, dot);
    let w3 = (3 as real) * w;
    lemma_near_size(real_of(twice), (2 as real) * s, w3, 8);
    lemma_near_self(real_of(n));
    lemma_near_wider(real_of(n), real_of(n), scale(real_of(n)), 3 as real, 0);
    lemma_size_product(real_of(twice), real_of(n));
    lemma_bound_product(size(real_of(twice)), 150_000 as real, size(real_of(n)), 2 as real);
    lemma_finite_product(twice, n, 300_000);
    lemma_product_of_near(
        twice,
        (2 as real) * s,
        w3,
        8,
        n,
        real_of(n),
        3 as real,
        0,
    );
    let back = product(twice, n);
    let y = ((2 as real) * s) * real_of(n);
    let w9 = w3 * (3 as real);
    lemma_near_size(real_of(back), y, w9, 11);
    lemma_finite_difference(v, back, 1_000_000);
    lemma_near_self(real_of(v));
    lemma_near_wider(real_of(v), real_of(v), scale(real_of(v)), (2 as real) * c, 0);
    lemma_near_more(real_of(v), real_of(v), (2 as real) * c, 0, 11);
    lemma_difference_of_near(v, real_of(v), (2 as real) * c, back, y, w9, 11);
    let left = difference(v, back);
    let wl = (2 as real) * c + w9;
    lemma_near_size(real_of(left), real_of(v) - y, wl, 13);
    lemma_near_size(real_of(damping), d, 2 as real, 2);
    lemma_size_product(real_of(left), real_of(damping));
    lemma_bound_product(size(real_of(left)), 1_000_000 as real, size(real_of(damping)), 3 as real);
    lemma_finite_product(left, damping, 4_000_000);
    lemma_product_of_near(left, real_of(v) - y, wl, 13, damping, d, 2 as real, 2);
    assert(wl * (2 as real) == (220 as real) * c);
}

/// A reflected velocity, along the direction and across it.
proof fn lemma_reflection_real(
    vx: real,
    vy: real,
    nx: real,
    ny: real,
    d: real,
    ux: real,
    uy: real,
    c: real,
)
    requires
        is_direction(nx, ny),
        c >= 1 as real,
        size(vx) <= c,
        size(vy) <= c,
        0 as real <= d <= 1 as real,
        ({
            let s = vx * nx + vy * ny;
            &&& near(ux, (vx - ((2 as real) * s) * nx) * d, (220 as real) * c, 18)
            &&& near(uy, (vy - ((2 as real) * s) * ny) * d, (220 as real) * c, 18)
        }),
    ensures
        size(ux * nx + uy * ny + d * (vx * nx + vy * ny)) * (100 as real) <= c,
        size(ux * ny - uy * nx - d * (vx * ny - vy * nx)) * (100 as real) <= c,
{
    let w = (220 as real) * c;
    let k = 0x100_0000 as real;
    let s = vx * nx + vy * ny;
    let t = (2 as real) * s;
    lemma_direction_parts(nx, ny);
    let (yx, yy) = ((vx - t * nx) * d, (vy - t * ny) * d);
    lemma_near_apart(ux, yx, w, 18, 18 as real);
    lemma_near_apart(uy, yy, w, 18, 18 as real);
    let (ex, ey) = (ux - yx, uy - yy);
    assert((18 as real) * w == (3960 as real) * c);
    assert(size(ex) * k <= (3960 as real) * c);
    assert(size(ey) * k <= (3960 as real) * c);
    // The exact parts.
    let n2 = nx * nx + ny * ny;
    let (ax, ay) = (vx - t * nx, vy - t * ny);
    lemma_times_swap(ax, d, nx);
    lemma_times_swap(ay, d, ny);
    lemma_times_swap(ax, d, ny);
    lemma_times_swap(ay, d, nx);
    lemma_times_sum(vx, t * nx, nx);
    lemma_times_sum(vy, t * ny, ny);
    lemma_times_sum(vx, t * nx, ny);
    lemma_times_sum(vy, t * ny, nx);
    lemma_times_swap(t, nx, nx);
    lemma_times_swap(t, ny, ny);
    lemma_times_swap(t, nx, ny);
    lemma_times_swap(t, ny, nx);
    lemma_times_swap(nx, ny, d);
    lemma_times_sum(nx * nx, ny * ny, t);
    let (bx, by) = (ax * nx, ay * ny);
    let (cx, cy) = (ax * ny, ay * nx);
    assert(bx + by == s - t * n2);
    assert(cx - cy == vx * ny - vy * nx);
    lemma_times_sum(bx, by, d);
    lemma_times_sum(cx, cy, d);
    assert(yx * nx + yy * ny == d * (s - t * n2)) by {
        lemma_times_swap(bx + by, d, 1 as real);
    }
    assert(yx * ny - yy * nx == d * (vx * ny - vy * nx)) by {
        lemma_times_swap(cx - cy, d, 1 as real);
    }
    let off = t * (n2 - 1 as real);
    lemma_times_sum(n2, 1 as real, t);
    lemma_times_one(t, 1 as real);
    lemma_times_sum(s - t * n2, s, d);
    assert(d * (s - t * n2) + d * s == d * (-off)) by {
        assert(s - t * n2 + s == -off);
    }
    lemma_size_product(vx, nx);
    lemma_size_product(vy, ny);
    lemma_bound_product(size(vx), c, size(nx), 2 as real);
    lemma_bound_product(size(vy), c, size(ny), 2 as real);
    assert(size(t) <= (8 as real) * c);
    lemma_size_product(t, n2 - 1 as real);
    lemma_bound_product(
        size(t),
        (8 as real) * c,
        size(n2 - 1 as real) * (0x1_0000 as real),
        1 as real,
    );
    lemma_times_swap(size(t), size(n2 - 1 as real), 0x1_0000 as real);
    lemma_times_one((8 as real) * c, 1 as real);
    lemma_size_product(d, -off);
    lemma_bound_product(d, 1 as real, size(off), size(off));
    lemma_times_one(size(off), 1 as real);
    assert(size(d * (-off)) * (0x1_0000 as real) <= (8 as real) * c);
    // The rounding.
    lemma_small_part(ex, nx, c);
    lemma_small_part(ex, ny, c);
    lemma_small_part(ey, nx, c);
    lemma_small_part(ey, ny, c);
    lemma_times_sum(ux, yx, nx);
    lemma_times_sum(uy, yy, ny);
    lemma_times_sum(ux, yx, ny);
    lemma_times_sum(uy, yy, nx);
    assert(ux * nx + uy * ny + d * s == d * (-off) + ex * nx + ey * ny);
    assert(ux * ny - uy * nx - d * (vx * ny - vy * nx) == ex * ny - ey * nx);
}

/// What is lost to rounding, along a direction.
proof fn lemma_small_part(e: real, n: real, c: real)
    requires
        size(e) * (0x100_0000 as real) <= (3960 as real) * c,
        size(n) <= 2 as real,
        c >= 1 as real,
    ensures
        size(e * n) * (0x100_0000 as real) <= (7920 as real) * c,
{
    let k = 0x100_0000 as real;
    lemma_size_product(e, n);
    lemma_bound_product(size(e) * k, (3960 as real) * c, size(n), 2 as real);
    lemma_times_swap(size(e), k, size(n));
}

/// The speed of an entity along a direction.
pub open spec fn speed_along(e: ServerEntity, nx: real, ny: real) -> real {
    real_of(e.vx) * nx + real_of(e.vy) * ny
}

/// The speed of an entity across a direction.
pub open spec fn speed_across(e: ServerEntity, nx: real, ny: real) -> real {
    real_of(e.vx) * ny - real_of(e.vy) * nx
}

/// What rebounds turns its speed along the normal round and keeps the one across it; both are
/// damped.  Up to rounding: a hundredth part of the greatest speed `c`.
pub proof fn law_rebounds_reflect(
    e: ServerEntity,
    nx: Single,
    ny: Single,
    push: Single,
    damping: Single,
    d: real,
    c: real,
)
    requires
        nx.is_finite(),
        ny.is_finite(),
        is_direction(real_of(nx), real_of(ny)),
        damping.is_finite(),
        near(real_of(damping), d, 2 as real, 2),
        0 as real <= d <= 1 as real,
        1 as real <= c <= 4000 as real,
        moves_within(e, c),
    ensures
        ({
            let r = rebounded(e, nx, ny, push, damping);
            let (x, y) = (real_of(nx), real_of(ny));
            &&& r.vx.is_finite() && r.vy.is_finite()
            &&& size(speed_along(r, x, y) + d * speed_along(e, x, y)) * (100 as real) <= c
            &&& size(speed_across(r, x, y) - d * speed_across(e, x, y)) * (100 as real) <= c
        }),
{
    let (x, y) = (real_of(nx), real_of(ny));
    lemma_direction_parts(x, y);
    lemma_relative_still(e.vx, nx, c);
    lemma_relative_still(e.vy, ny, c);
    let (a, b) = (product(e.vx, nx), product(e.vy, ny));
    let (ra, rb) = (real_of(e.vx) * x, real_of(e.vy) * y);
    let w = (6 as real) * c;
    lemma_near_size(real_of(a), ra, w, 3);
    lemma_near_size(real_of(b), rb, w, 3);
    lemma_finite_sum(a, b, 100_000);
    lemma_sum_of_near(a, ra, w, b, rb, w, 3);
    let dot = sum(a, b);
    assert(w + w == (12 as real) * c);
    lemma_reflected(e.vx, nx, dot, damping, ra + rb, d, c);
    lemma_reflected(e.vy, ny, dot, damping, ra + rb, d, c);
    let r = rebounded(e, nx, ny, push, damping);
    lemma_reflection_real(
        real_of(e.vx),
        real_of(e.vy),
        x,
        y,
        d,
        real_of(r.vx),
        real_of(r.vy),
        c,
    );
}

/// One coordinate of a velocity along the normal.
proof fn lemma_relative_still(u: Single, n: Single, c: real)
    requires
        u.is_finite(),
        n.is_finite(),
        1 as real <= c <= 4000 as real,
        size(real_of(u)) <= c,
        size(real_of(n)) <= 2 as real,
    ensures
        product(u, n).is_finite(),
        near(real_of(product(u, n)), real_of(u) * real_of(n), (6 as real) * c, 3),
{
    lemma_near_self(real_of(u));
    lemma_near_self(real_of(n));
    let cc = (2 as real) * c;
    lemma_near_wider(real_of(u), real_of(u), scale(real_of(u)), cc, 0);
    lemma_near_wider(real_of(n), real_of(n), scale(real_of(n)), 3 as real, 0);
    lemma_size_product(real_of(u), real_of(n));
    lemma_bound_product(size(real_of(u)), 4000 as real, size(real_of(n)), 2 as real);
    lemma_finite_product(u, n, 10_000);
    lemma_product_of_near(u, real_of(u), cc, 0, n, real_of(n), 3 as real, 0);
    assert(cc * (3 as real) == (6 as real) * c);
}

/// Three fifths, rounded.
proof fn lemma_three_fifths()
    ensures
        from_fraction(3, 5).is_finite(),
        near(real_of(from_fraction(3, 5)), (3 as real) / (5 as real), 2 as real, 2),
{
    lemma_unit();
    law_fractions_are_fractions(3, 5);
    let r = real_of(from_fraction(3, 5));
    assert(size(r * (5 as real) - 3 as real) * (0x100_0000 as real) <= (3 as real) + dust() * (
    5 as real));
    let d = r - (3 as real) / (5 as real);
    assert(d * (5 as real) == r * (5 as real) - 3 as real);
    assert(size(d) * (0x100_0000 as real) <= (2 as real) * (2 as real));
}

/// A ship that touches a planet is turned back along the line between them at half its speed,
/// keeps half its speed across that line, and takes a blow of 25 that nobody is credited with;
/// nothing else in the world changes.  Up to rounding: a hundredth part of the greatest speed `c`.
pub proof fn law_ships_rebound_from_planets(
    w: World,
    ships: Seq<ServerEntity>,
    s: ServerEntity,
    planets: Seq<ServerEntity>,
    e: ServerEntity,
    planet: ServerEntity,
    c: real,
)
    requires
        entity_of(grounded(w, ships, planets).0, s.id) == Some(e),
        first_met(Contact::ShipPlanet, e, planets) == Some(planet),
        are_close(e, planet),
        1 as real <= c <= 4000 as real,
        moves_within(e, c),
    ensures
        ({
            let (w1, before) = grounded(w, ships, planets);
            let (r, blows) = grounded(w, ships.push(s), planets);
            let (nx, ny, _) = normal_of(e, planet, sum(planet.vx, ship_radius()));
            let (x, y) = (real_of(nx), real_of(ny));
            let d = (1 as real) / (2 as real);
            &&& is_direction(x, y)
            &&& entity_of(r, s.id) matches Some(e2) && {
                &&& e2.vx.is_finite() && e2.vy.is_finite()
                &&& size(speed_along(e2, x, y) + d * speed_along(e, x, y)) * (100 as real) <= c
                &&& size(speed_across(e2, x, y) - d * speed_across(e, x, y)) * (100 as real) <= c
            }
            &&& blows.len() == before.len() + 1
            &&& blows.last().dmg == from_whole(25) && blows.last().by is None
            &&& s.owner matches Some(id) ==> blows.last().id == id
            &&& forall|id: u32| id != s.id ==> #[trigger] entity_of(r, id) == entity_of(w1, id)
        }),
{
    let all = ships.push(s);
    assert(all.drop_last() == ships);
    let w1 = grounded(w, ships, planets).0;
    let reach = sum(planet.vx, ship_radius());
    let (nx, ny, push) = normal_of(e, planet, reach);
    law_normals_point_apart(e, planet, reach);
    law_a_half_is_a_half();
    let half = from_fraction(1, 2);
    law_rebounds_reflect(e, nx, ny, push, half, (1 as real) / (2 as real), c);
    let e2 = rebounded(e, nx, ny, push, half);
    lemma_find(w1.entities, s.id);
    law_put_is_found(w1.entities, e2);
    let r = grounded(w, all, planets).0;
    assert(r == with_entity(w1, e2));
    assert forall|id: u32| id != s.id implies #[trigger] entity_of(r, id) == entity_of(w1, id) by {
        law_put_leaves_the_others(w1.entities, e2, id);
    }
}

/// A nudge of 15 against a direction.
proof fn lemma_nudged(v: Single, n: Single)
    requires
        v.is_finite(),
        n.is_finite(),
        size(real_of(v)) <= 4000 as real,
        size(real_of(n)) <= 2 as real,
    ensures
        difference(v, product(n, from_whole(15))).is_finite(),
        size(
            real_of(difference(v, product(n, from_whole(15)))) - real_of(v) + real_of(n) * (
            15 as real),
        ) * (100 as real) <= 1 as real,
{
    lemma_unit();
    law_wholes_are_wholes(15);
    lemma_finite_product(n, from_whole(15), 30);
    law_products_are_products(n, from_whole(15));
    let p = product(n, from_whole(15));
    lemma_finite_difference(v, p, 5000);
    law_differences_are_differences(v, p);
}

/// A ship that runs into an asteroid is turned back at three fifths of its speed, and the asteroid
/// is nudged away from it by 15; the ship takes a blow of 12.5 and the asteroid one of 10.  Nothing
/// else in the world changes.
pub proof fn law_ships_rebound_from_asteroids(
    w: World,
    ships: Seq<ServerEntity>,
    s: ServerEntity,
    rocks: Seq<ServerEntity>,
    rock: ServerEntity,
    e: ServerEntity,
    f: ServerEntity,
    c: real,
)
    requires
        first_met(Contact::ShipRock, s, rocks) == Some(rock),
        entity_of(w, s.id) == Some(e),
        entity_of(w, rock.id) == Some(f),
        s.id != rock.id,
        are_close(s, rock),
        1 as real <= c <= 4000 as real,
        moves_within(e, c),
        moves_within(f, c),
    ensures
        ({
            let bs = bumps(ships.push(s), rocks);
            let r = bumped(w, bs.last());
            let (nx, ny, _) = normal_of(s, rock, sum(radius_of(rock), ship_radius()));
            let (x, y) = (real_of(nx), real_of(ny));
            let d = (3 as real) / (5 as real);
            &&& bs == bumps(ships, rocks).push(bs.last())
            &&& is_direction(x, y)
            &&& entity_of(r, s.id) matches Some(e2) && {
                &&& e2.vx.is_finite() && e2.vy.is_finite()
                &&& size(speed_along(e2, x, y) + d * speed_along(e, x, y)) * (100 as real) <= c
                &&& size(speed_across(e2, x, y) - d * speed_across(e, x, y)) * (100 as real) <= c
            }
            &&& entity_of(r, rock.id) matches Some(f2) && {
                &&& f2.x == f.x && f2.y == f.y
                &&& f2.vx.is_finite() && f2.vy.is_finite()
                &&& size(real_of(f2.vx) - real_of(f.vx) + x * (15 as real)) * (100 as real) <= (
                1 as real)
                &&& size(real_of(f2.vy) - real_of(f.vy) + y * (15 as real)) * (100 as real) <= (
                1 as real)
            }
            &&& forall|id: u32|
                id != s.id && id != rock.id ==> #[trigger] entity_of(r, id) == entity_of(w, id)
            &&& ship_bruises(bs).len() == bs.len() && rock_bruises(bs).len() == bs.len()
            &&& size(
                real_of(ship_bruises(bs).last().dmg) * (2 as real) - 25 as real,
            ) * (1000 as real) <= 1 as real
            &&& s.owner matches Some(id) ==> ship_bruises(bs).last().id == id
            &&& rock_bruises(bs).last().id == rock.id
            &&& rock_bruises(bs).last().dmg == from_whole(10)
            &&& ship_bruises(bs).last().by is None && rock_bruises(bs).last().by is None
        }),
{
    let all = ships.push(s);
    assert(all.drop_last() == ships);
    let bs = bumps(all, rocks);
    let b = bs.last();
    let reach = sum(radius_of(rock), ship_radius());
    law_normals_point_apart(s, rock, reach);
    let (nx, ny, push) = normal_of(s, rock, reach);
    lemma_direction_parts(real_of(nx), real_of(ny));
    lemma_three_fifths();
    let most = from_fraction(3, 5);
    law_rebounds_reflect(e, nx, ny, push, most, (3 as real) / (5 as real), c);
    let e2 = rebounded(e, nx, ny, push, most);
    lemma_find(w.entities, s.id);
    lemma_find(w.entities, rock.id);
    law_put_is_found(w.entities, e2);
    law_put_leaves_the_others(w.entities, e2, rock.id);
    let w1 = with_entity(w, e2);
    let f2 = ServerEntity {
        vx: difference(f.vx, product(nx, from_whole(15))),
        vy: difference(f.vy, product(ny, from_whole(15))),
        ..f
    };
    lemma_nudged(f.vx, nx);
    lemma_nudged(f.vy, ny);
    law_put_is_found(w1.entities, f2);
    law_put_leaves_the_others(w1.entities, f2, s.id);
    let r = bumped(w, b);
    assert(r == with_entity(w1, f2));
    assert forall|id: u32| id != s.id && id != rock.id implies #[trigger] entity_of(r, id)
        == entity_of(w, id) by {
        law_put_leaves_the_others(w.entities, e2, id);
        law_put_leaves_the_others(w1.entities, f2, id);
    }
    lemma_unit();
    law_fractions_are_fractions(25, 2);
    let q = real_of(from_fraction(25, 2));
    assert(size(q * (2 as real) - 25 as real) * (0x100_0000 as real) <= (25 as real) + dust() * (
    2 as real));
    assert(ship_bruises(bs).last().dmg == from_fraction(25, 2));
}

/// A share of an overlap that goes by the other mass.
proof fn lemma_push_real(
    o: real,
    r: real,
    m: real,
    s: real,
    total: real,
    u: real,
    p: real,
)
    requires
        size(o) <= 210 as real,
        1 as real <= r <= 10_000 as real,
        r <= s <= 20_000 as real,
        size(m - r) * (0x100_0000 as real) <= (2 as real) * r,
        size(total - s) * (0x100_0000 as real) <= (4 as real) * s,
        size(u - o * m) * (0x100_0000 as real) <= size(o * m) + 1 as real,
        size(p * total - u) * (0x100_0000 as real) <= size(u) + 1 as real,
    ensures
        size(p) <= 2000 as real,
        size(p * s - o * r) * (1000 as real) <= s,
{
    let k = 0x100_0000 as real;
    lemma_size_product(o, m - r);
    lemma_bound_product(size(o), 210 as real, size(m - r) * k, (2 as real) * r);
    lemma_times_swap(size(o), size(m - r), k);
    lemma_times_sum(m, r, o);
    let (om, or) = (o * m, o * r);
    assert(size(om - or) * k <= (420 as real) * r);
    lemma_size_product(o, r);
    lemma_bound_product(size(o), 210 as real, r, r);
    assert(size(or) <= (210 as real) * r);
    assert(size(om) <= (211 as real) * r);
    assert(size(u) <= (212 as real) * r + 1 as real);
    let pt = p * total;
    assert(size(pt) <= (215 as real) * s);
    // The share itself.
    lemma_size_product(p, total);
    lemma_times_order(s, total * (2 as real), size(p));
    lemma_times_swap(size(p), total, 2 as real);
    lemma_size_product(p, s);
    assert(size(p) * s <= (430 as real) * s);
    lemma_times_cancel(size(p), 430 as real, s);
    // Over both masses.
    lemma_size_product(p, s - total);
    lemma_bound_product(size(p), 430 as real, size(s - total) * k, (4 as real) * s);
    lemma_times_swap(size(p), size(s - total), k);
    lemma_times_sum(s, total, p);
    assert(size(p * s - pt) * k <= (1720 as real) * s);
}

/// How asteroids that overlap are moved apart: together by the overlap, and each as the mass of the
/// other.
proof fn lemma_pushes(a: ServerEntity, b: ServerEntity)
    requires
        are_close(a, b),
        is_sized(radius_of(a)),
        is_sized(radius_of(b)),
        distance_is_within(a, b),
    ensures
        ({
            let k = knock_of(a, b);
            let (m1, m2) = (mass(a), mass(b));
            let o = real_of(radius_of(a)) + real_of(radius_of(b)) - real_of(
                root(gap_squared(a, b)),
            );
            &&& k.push1.is_finite() && k.push2.is_finite()
            &&& size(real_of(k.push1)) <= 2000 as real && size(real_of(k.push2)) <= 2000 as real
            &&& 1 as real <= m1 && 1 as real <= m2
            &&& size(real_of(k.push1) + real_of(k.push2) - o) * (100 as real) <= 1 as real
            &&& size(m1 * real_of(k.push1) - m2 * real_of(k.push2)) * (100 as real) <= m1 + m2
        }),
{
    lemma_unit();
    let (ra, rb) = (radius_of(a), radius_of(b));
    lemma_finite_sum(ra, rb, 200);
    law_sums_are_sums(ra, rb);
    let reach = sum(ra, rb);
    law_normals_point_apart(a, b, reach);
    let dist = root(gap_squared(a, b));
    let d = real_of(dist);
    let (x, y) = (real_of(a.x) - real_of(b.x), real_of(a.y) - real_of(b.y));
    assert(d <= 202 as real) by {
        if d > 202 as real {
            lemma_bound_product(202 as real, d, 202 as real, d);
            let t = real_of(ra) + real_of(rb);
            lemma_bound_product(t, 200 as real, t, 200 as real);
        }
    }
    lemma_finite_difference(reach, dist, 300);
    law_differences_are_differences(reach, dist);
    let over = difference(reach, dist);
    let o = real_of(over);
    lemma_mass(ra);
    lemma_mass(rb);
    let (s1, s2) = (squared(ra), squared(rb));
    let (m1, m2) = (mass(a), mass(b));
    let s = m1 + m2;
    lemma_finite_sum(s1, s2, 40_000);
    law_sums_are_sums(s1, s2);
    let total = sum(s1, s2);
    let t = real_of(total);
    lemma_push(over, s2, m2, s, total);
    lemma_push(over, s1, m1, s, total);
    let (p1, p2) = (
        real_of(quotient(product(over, s2), total)),
        real_of(quotient(product(over, s1), total)),
    );
    // Together.
    lemma_times_sum(p1, p2, s);
    lemma_times_sum(m2, m1, o);
    lemma_times_sum(p1 + p2, o, s);
    let off = p1 + p2 - o;
    assert(off * s == (p1 * s - o * m2) + (p2 * s - o * m1));
    lemma_size_product(off, s);
    assert(size(off) * s * (500 as real) <= s);
    lemma_times_swap(size(off), s, 500 as real);
    lemma_times_one(s, 1 as real);
    lemma_times_cancel(size(off) * (500 as real), 1 as real, s);
    // Against each other.
    let (e1, e2) = (p1 * s - o * m2, p2 * s - o * m1);
    lemma_times_sum(p1 * s, o * m2, m1);
    lemma_times_sum(p2 * s, o * m1, m2);
    lemma_times_swap(o, m2, m1);
    lemma_times_swap(o, m1, m2);
    lemma_times_swap(m1, p1, s);
    lemma_times_swap(m2, p2, s);
    lemma_times_swap(m1, e1, 1 as real);
    lemma_times_swap(m2, e2, 1 as real);
    let g = m1 * p1 - m2 * p2;
    lemma_times_sum(m1 * p1, m2 * p2, s);
    assert(g * s == m1 * (p1 * s) - m2 * (p2 * s));
    assert(m1 * (o * m2) == m2 * (o * m1)) by {
        lemma_times_swap(m1, o, m2);
        lemma_times_swap(m1, m2, o);
        lemma_times_swap(m2, o, m1);
        lemma_times_swap(m2, m1, o);
    }
    assert(g * s == m1 * e1 - m2 * e2);
    lemma_size_product(m1, e1);
    lemma_size_product(m2, e2);
    lemma_times_order(size(e1) * (1000 as real), s, m1);
    lemma_times_order(size(e2) * (1000 as real), s, m2);
    lemma_times_swap(m1, size(e1), 1000 as real);
    lemma_times_swap(m2, size(e2), 1000 as real);
    lemma_times_sum(m1, m2, s);
    lemma_size_product(g, s);
    assert(size(g) * s * (1000 as real) <= s * s);
    lemma_times_swap(size(g), s, 1000 as real);
    lemma_times_cancel(size(g) * (1000 as real), s, s);
}

/// Whether two bodies overlap: they are nearer than the sum of their radii.
pub open spec fn distance_is_within(a: ServerEntity, b: ServerEntity) -> bool {
    let (x, y) = (real_of(a.x) - real_of(b.x), real_of(a.y) - real_of(b.y));
    let t = real_of(radius_of(a)) + real_of(radius_of(b));
    x * x + y * y <= t * t
}

/// A share of an overlap, rounded.
proof fn lemma_push(over: Single, m: Single, r: real, s: real, total: Single)
    requires
        over.is_finite(),
        m.is_finite(),
        total.is_finite(),
        size(real_of(over)) <= 210 as real,
        1 as real <= r <= 10_000 as real,
        r <= s <= 20_000 as real,
        size(real_of(m) - r) * (0x100_0000 as real) <= (2 as real) * r,
        size(real_of(total) - s) * (0x100_0000 as real) <= (4 as real) * s,
    ensures
        ({
            let p = quotient(product(over, m), total);
            &&& p.is_finite()
            &&& size(real_of(p)) <= 2000 as real
            &&& size(real_of(p) * s - real_of(over) * r) * (1000 as real) <= s
        }),
{
    lemma_unit();
    let (o, x, t) = (real_of(over), real_of(m), real_of(total));
    lemma_size_product(o, x);
    lemma_bound_product(size(o), 210 as real, size(x), (2 as real) * r);
    lemma_finite_product(over, m, 5_000_000);
    law_products_are_products(over, m);
    let u = product(over, m);
    lemma_finite_quotient(u, total, 2000);
    law_quotients_are_quotients(u, total);
    lemma_times_order(size(t), 0x100_0000 as real, dust());
    lemma_push_real(o, r, x, s, t, real_of(u), real_of(quotient(u, total)));
}

/// Asteroids that run into each other are moved apart along the line between them: together by as
/// much as they overlap, and the heavier one less, each as the mass of the other.
pub proof fn law_knocks_part_what_overlaps(w: World, a: ServerEntity, b: ServerEntity)
    requires
        entity_of(w, a.id) == Some(a),
        entity_of(w, b.id) == Some(b),
        a.id != b.id,
        are_close(a, b),
        is_sized(radius_of(a)),
        is_sized(radius_of(b)),
        distance_is_within(a, b),
    ensures
        ({
            let r = knocked(w, knock_of(a, b));
            let (a2, b2) = (entity_of(r, a.id)->0, entity_of(r, b.id)->0);
            let (nx, ny, _) = normal_of(a, b, sum(radius_of(a), radius_of(b)));
            let (x, y) = (real_of(nx), real_of(ny));
            let (m1, m2) = (mass(a), mass(b));
            let o = real_of(radius_of(a)) + real_of(radius_of(b)) - real_of(
                root(gap_squared(a, b)),
            );
            exists|p1: real, p2: real|
                #![trigger
                    goes_by(real_of(a.x), real_of(a2.x), x * p1),
                    goes_by(real_of(b.x), real_of(b2.x), -(x * p2))]
                {
                    &&& size(p1 + p2 - o) * (100 as real) <= 1 as real
                    &&& size(m1 * p1 - m2 * p2) * (100 as real) <= m1 + m2
                    &&& goes_by(real_of(a.x), real_of(a2.x), x * p1)
                    &&& goes_by(real_of(a.y), real_of(a2.y), y * p1)
                    &&& goes_by(real_of(b.x), real_of(b2.x), -(x * p2))
                    &&& goes_by(real_of(b.y), real_of(b2.y), -(y * p2))
                }
        }),
{
    lemma_pushes(a, b);
    let reach = sum(radius_of(a), radius_of(b));
    law_normals_point_apart(a, b, reach);
    let k = knock_of(a, b);
    lemma_direction_parts(real_of(k.nx), real_of(k.ny));
    lemma_knocked(w, a, b, k);
    lemma_shoved(a.x, k.nx, k.push1);
    lemma_shoved(a.y, k.ny, k.push1);
    lemma_shoved(b.x, k.nx, k.push2);
    lemma_shoved(b.y, k.ny, k.push2);
    let r = knocked(w, k);
    let (a2, b2) = (entity_of(r, a.id)->0, entity_of(r, b.id)->0);
    let (p1, p2) = (real_of(k.push1), real_of(k.push2));
    let (x, y) = (real_of(k.nx), real_of(k.ny));
    assert(goes_by(real_of(a.x), real_of(a2.x), x * p1));
    assert(goes_by(real_of(b.x), real_of(b2.x), -(x * p2)));
}

/// A coordinate moved along a direction, or against it.
proof fn lemma_shoved(x: Single, n: Single, push: Single)
    requires
        is_in_the_world(x),
        n.is_finite(),
        push.is_finite(),
        size(real_of(n)) <= 2 as real,
        size(real_of(push)) <= 2000 as real,
    ensures
        goes_by(
            real_of(x),
            real_of(shifted(x, product(n, push))),
            real_of(n) * real_of(push),
        ),
        goes_by(
            real_of(x),
            real_of(shifted(x, negated(product(n, push)))),
            -(real_of(n) * real_of(push)),
        ),
{
    lemma_unit();
    let p = product(n, push);
    lemma_size_product(real_of(n), real_of(push));
    lemma_bound_product(size(real_of(n)), 2 as real, size(real_of(push)), 2000 as real);
    lemma_finite_product(n, push, 4000);
    law_products_are_products(n, push);
    law_opposites_are_opposites(p);
    law_shifts_go_their_way(x, p);
    law_shifts_go_their_way(x, negated(p));
}

/// What rebounds is pushed out of what it hit, away from it along the line between them, by as much
/// as it was too near.
pub proof fn law_rebounds_push_out(
    e: ServerEntity,
    o: ServerEntity,
    reach: Single,
    damping: Single,
)
    requires
        are_close(e, o),
        reach.is_finite(),
        1 as real <= real_of(reach) <= 500 as real,
        ({
            let (x, y) = (real_of(e.x) - real_of(o.x), real_of(e.y) - real_of(o.y));
            x * x + y * y <= real_of(reach) * real_of(reach)
        }),
    ensures
        ({
            let (nx, ny, push) = normal_of(e, o, reach);
            let r = rebounded(e, nx, ny, push, damping);
            let p = real_of(push);
            &&& push.is_finite()
            &&& size(p - (real_of(reach) - real_of(root(gap_squared(e, o))))) * (1000 as real) <= (
            1 as real)
            &&& goes_by(real_of(e.x), real_of(r.x), real_of(nx) * p)
            &&& goes_by(real_of(e.y), real_of(r.y), real_of(ny) * p)
            &&& r.id == e.id && r.kind == e.kind && r.owner == e.owner && r.angle == e.angle
        }),
{
    law_normals_point_apart(e, o, reach);
    let (nx, ny, push) = normal_of(e, o, reach);
    lemma_direction_parts(real_of(nx), real_of(ny));
    let dist = root(gap_squared(e, o));
    let (d, t) = (real_of(dist), real_of(reach));
    assert(d <= 502 as real) by {
        if d > 502 as real {
            lemma_bound_product(502 as real, d, 502 as real, d);
            lemma_bound_product(t, 500 as real, t, 500 as real);
        }
    }
    lemma_finite_difference(reach, dist, 1000);
    law_differences_are_differences(reach, dist);
    lemma_shoved(e.x, nx, push);
    lemma_shoved(e.y, ny, push);
}

/// Two asteroids run into each other where they overlap and come nearer; not where they are apart,
/// nor where they part.
pub proof fn law_knocks_need_overlap_and_approach(a: ServerEntity, b: ServerEntity, c: real)
    requires
        are_close(a, b),
        is_sized(radius_of(a)),
        is_sized(radius_of(b)),
        1 as real <= c <= 4000 as real,
        moves_within(a, c),
        moves_within(b, c),
    ensures
        ({
            let (nx, ny, _) = normal_of(a, b, sum(radius_of(a), radius_of(b)));
            let v = speed_apart(
                real_of(a.vx),
                real_of(a.vy),
                real_of(b.vx),
                real_of(b.vy),
                real_of(nx),
                real_of(ny),
            );
            let t = real_of(radius_of(a)) + real_of(radius_of(b));
            let z = distance_squared(a, b);
            let overlap = z * (1000 as real) < (t * t) * (999 as real);
            let apart = z * (1000 as real) > (t * t) * (1001 as real);
            &&& overlap && v * (100 as real) < -c ==> knocking(a, b)
            &&& apart || v * (100 as real) > c ==> !knocking(a, b)
        }),
{
    lemma_unit();
    let (ra, rb) = (radius_of(a), radius_of(b));
    lemma_finite_sum(ra, rb, 200);
    law_sums_are_sums(ra, rb);
    let reach = sum(ra, rb);
    let t = real_of(ra) + real_of(rb);
    lemma_within_reach(a, b, reach, t);
    lemma_parting(a, b, c);
    let (nx, ny, _) = normal_of(a, b, reach);
    let v = speed_apart(
        real_of(a.vx),
        real_of(a.vy),
        real_of(b.vx),
        real_of(b.vy),
        real_of(nx),
        real_of(ny),
    );
    let p = parting(a, b);
    lemma_near_apart(real_of(p), v, (24 as real) * c, 7, 7 as real);
    let gap = size(real_of(p) - v);
    assert((7 as real) * ((24 as real) * c) == (168 as real) * c);
    assert(gap * (0x100_0000 as real) <= (168 as real) * c);
    lemma_zero();
    lemma_real_zero();
    law_order_is_order_of_reals(zero(), p);
    lemma_gap(a, b);
    let far = real_of(reach);
    lemma_bound_product(far, 201 as real, far, 201 as real);
    lemma_finite_product(reach, reach, 50_000);
    law_order_is_order_of_reals(squared(reach), gap_squared(a, b));
    law_order_is_order_of_reals(gap_squared(a, b), squared(reach));
}

} // verus!
