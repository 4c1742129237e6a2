//! How things move from tick to tick, in real numbers, up to rounding.
use vstd::arithmetic::power2::*;
use vstd::prelude::*;

use crate::exact::{
    law_differences_are_differences, law_opposites_are_opposites, law_order_is_order_of_reals,
    law_products_are_products, law_sums_are_sums, lemma_bound_product, lemma_finite_difference,
    lemma_finite_product, lemma_finite_sum, lemma_real_product, lemma_size_product, lemma_times_one,
    lemma_times_opposite, lemma_times_order, lemma_times_sum, lemma_times_swap, lemma_unit,
    lemma_units_bound, real_of, size, unit,
};
use crate::game::{half_turn, world_side, EntityKind, ShipStats};
use crate::helm::{
    drag_ask, heading, law_headings_follow_the_aim, lemma_half_turn, normal_angle, shifted, steered,
};
use crate::oracle::{answers, past, Ask, Event, Trace};
use crate::order::{
    law_order_is_order_of_values, law_small_wholes_are_exact, law_wrapped_in_range, lemma_zero,
};
use crate::physics::{is_in_the_world, reply};
use crate::precision::law_rounding_is_near;
use crate::protocol::PlayerInput;
use crate::rounding::round_bits;
use crate::rules::law_moves_go_round_the_world;
use crate::single::{difference, negated, pack, product, sum, zero, Single};
use crate::tick::drifted;
use crate::world::ServerEntity;

verus! {

/// Whether a coordinate has gone a way on the torus, up to a hundredth: it may have left the world
/// at one edge and come back at the other.
pub open spec fn goes(from: real, to: real, way: real) -> bool {
    let d = to - (from + way);
    ||| size(d) * (100 as real) <= 1 as real
    ||| size(d + 10_000 as real) * (100 as real) <= 1 as real
    ||| size(d - 10_000 as real) * (100 as real) <= 1 as real
}

/// A coordinate that is shifted goes that way on the torus.
pub proof fn law_shifts_go_their_way(x: Single, d: Single)
    requires
        is_in_the_world(x),
        d.is_finite(),
        size(real_of(d)) <= 5000 as real,
    ensures
        is_in_the_world(shifted(x, d)),
        goes(real_of(x), real_of(shifted(x, d)), real_of(d)),
{
    lemma_finite_sum(x, d, 15_000);
    law_sums_are_sums(x, d);
    let s = sum(x, d);
    let r = shifted(x, d);
    lemma_unit();
    let e = unit();
    let p = pow2(149);
    let pr = p as real;
    lemma_pow2_pos(149);
    law_small_wholes_are_exact(10_000);
    law_moves_go_round_the_world(x, d);
    let side = world_side().value();
    let v = s.value();
    lemma_times_opposite(v as real, e);
    lemma_units_bound(v as real, 15_001);
    lemma_units_bound(-(v as real), 5_001);
    lemma_real_product(15_001, p as int);
    lemma_real_product(5_001, p as int);
    lemma_real_product(10_000, p as int);
    lemma_times_swap(10_000 as real, pr, e);
    lemma_times_one(10_000 as real, pr * e);
    assert(v <= 15_001 * p && -v <= 5_001 * p);
    assert(side == 10_000 * p);
    lemma_zero();
    law_order_is_order_of_values(zero(), world_side());
    law_wrapped_in_range(s, world_side());
    law_order_is_order_of_values(zero(), r);
    law_order_is_order_of_reals(r, world_side());
    law_order_is_order_of_reals(zero(), r);
    assert(real_of(zero()) == 0 as real) by {
        lemma_times_sum(0 as real, 0 as real, e);
    }
    assert(real_of(world_side()) == 10_000 as real);
    let (sr, wr) = (v as real, side as real);
    if v >= 0 {
        if v < side {
            assert(v % side == v) by (nonlinear_arith)
                requires
                    0 <= v < side,
            ;
        } else {
            assert(v % side == v - side) by (nonlinear_arith)
                requires
                    side <= v < 2 * side,
            ;
            lemma_times_sum(sr, wr, e);
            assert((v - side) as real == sr - wr);
            assert(real_of(r) == real_of(s) - 10_000 as real);
        }
    } else {
        assert(v % side == v + side) by (nonlinear_arith)
            requires
                -side < v < 0,
        ;
        let u = (v + side) as nat;
        lemma_rounded_up(r, u);
        lemma_times_sum(sr, wr, e);
        assert((u as real) * e == real_of(s) + 10_000 as real);
    }
}

/// A number with the bits of a rounded quantity of units is near it.
proof fn lemma_rounded_up(r: Single, u: nat)
    requires
        r.is_finite(),
        r.mag() == round_bits(u, 1),
        r.value() >= 0,
    ensures
        size(real_of(r) - (u as real) * unit()) * (0x100_0000 as real) <= (u as real) * unit(),
{
    lemma_unit();
    let q = pack(false, round_bits(u, 1));
    law_rounding_is_near(false, u, 1);
    assert(q.units() == r.units());
    let e = unit();
    let (a, b) = (r.units() as real, u as real);
    assert(r.value() == r.units());
    assert((r.units() * 0x100_0000) as real == a * (0x100_0000 as real));
    assert((u * 0x100_0001) as real == b * (0x100_0001 as real));
    assert((u * 0x100_0000) as real == b * (0x100_0000 as real));
    assert(size(a - b) * (0x100_0000 as real) <= b);
    lemma_size_product(a - b, e);
    lemma_times_sum(a, b, e);
    lemma_times_order(size(a - b) * (0x100_0000 as real), b, e);
    lemma_times_swap(size(a - b), 0x100_0000 as real, e);
}

/// A coordinate moved by a velocity over a time.
proof fn lemma_moved(x: Single, v: Single, dt: Single)
    requires
        is_in_the_world(x),
        v.is_finite(),
        dt.is_finite(),
        0 as real <= real_of(dt) <= 1 as real,
        size(real_of(v)) <= 4000 as real,
    ensures
        is_in_the_world(shifted(x, product(v, dt))),
        goes_by(real_of(x), real_of(shifted(x, product(v, dt))), real_of(v) * real_of(dt)),
{
    lemma_unit();
    let way = real_of(v) * real_of(dt);
    lemma_size_product(real_of(v), real_of(dt));
    lemma_bound_product(size(real_of(v)), 4000 as real, real_of(dt), 1 as real);
    lemma_times_one(4000 as real, 1 as real);
    lemma_finite_product(v, dt, 4000);
    law_products_are_products(v, dt);
    law_shifts_go_their_way(x, product(v, dt));
}

/// Whether a coordinate has gone a way on the torus, up to a fiftieth.
pub open spec fn goes_by(from: real, to: real, way: real) -> bool {
    let d = to - (from + way);
    ||| size(d) * (50 as real) <= 1 as real
    ||| size(d + 10_000 as real) * (50 as real) <= 1 as real
    ||| size(d - 10_000 as real) * (50 as real) <= 1 as real
}

/// Whether an entity lies in the world and its speed is moderate.
pub open spec fn is_under_way(e: ServerEntity) -> bool {
    &&& is_in_the_world(e.x) && is_in_the_world(e.y)
    &&& e.vx.is_finite() && e.vy.is_finite()
    &&& size(real_of(e.vx)) <= 4000 as real && size(real_of(e.vy)) <= 4000 as real
}

/// Whether a time is that of a tick: no less than nothing, and no more than a second.
pub open spec fn is_a_moment(dt: Single) -> bool {
    dt.is_finite() && 0 as real <= real_of(dt) <= 1 as real
}

/// Torpedoes, drones, debris and asteroids move by their velocity, in each coordinate by its own
/// part, round the world; what else no player steers stays where it is.
pub proof fn law_things_move_by_their_velocity(e: ServerEntity, dt: Single, t: Trace)
    requires
        is_under_way(e),
        is_a_moment(dt),
    ensures
        ({
            let r = drifted(e, dt, t).0;
            let d = real_of(dt);
            &&& e.kind == EntityKind::Torpedo || e.kind == EntityKind::Drone || e.kind
                == EntityKind::Debris || e.kind == EntityKind::Asteroid ==> {
                &&& is_in_the_world(r.x) && is_in_the_world(r.y)
                &&& goes_by(real_of(e.x), real_of(r.x), real_of(e.vx) * d)
                &&& goes_by(real_of(e.y), real_of(r.y), real_of(e.vy) * d)
            }
            &&& e.kind == EntityKind::Planet || e.kind == EntityKind::Explosion || e.kind
                == EntityKind::Phaser || e.kind == EntityKind::Ship ==> r.x == e.x && r.y == e.y
            &&& e.kind != EntityKind::Debris ==> r.vx == e.vx && r.vy == e.vy && r.angle == e.angle
            &&& r.id == e.id && r.kind == e.kind && r.owner == e.owner && r.health == e.health
        }),
{
    lemma_moved(e.x, e.vx, dt);
    lemma_moved(e.y, e.vy, dt);
}

/// A ship moves by the velocity that it has at the end of a tick.
pub proof fn law_ships_move_by_their_velocity(
    e: ServerEntity,
    input: PlayerInput,
    stats: ShipStats,
    fuel: Single,
    dt: Single,
    t: Trace,
)
    requires
        is_in_the_world(e.x),
        is_in_the_world(e.y),
        is_a_moment(dt),
        ({
            let r = steered(e, input, stats, fuel, dt, t).0;
            &&& r.vx.is_finite() && r.vy.is_finite()
            &&& size(real_of(r.vx)) <= 4000 as real && size(real_of(r.vy)) <= 4000 as real
        }),
    ensures
        ({
            let r = steered(e, input, stats, fuel, dt, t).0;
            let d = real_of(dt);
            &&& is_under_way(r)
            &&& goes_by(real_of(e.x), real_of(r.x), real_of(r.vx) * d)
            &&& goes_by(real_of(e.y), real_of(r.y), real_of(r.vy) * d)
            &&& r.id == e.id && r.kind == e.kind && r.owner == e.owner
        }),
{
    let r = steered(e, input, stats, fuel, dt, t).0;
    lemma_moved(e.x, r.vx, dt);
    lemma_moved(e.y, r.vy, dt);
}

/// Time runs alike for all that ends: a tick takes its length from what is left.
pub proof fn law_time_runs_out(e: ServerEntity, dt: Single, t: Trace)
    requires
        is_a_moment(dt),
        e.lifetime is Some,
        e.lifetime->0.is_finite(),
        size(real_of(e.lifetime->0)) <= 1000 as real,
    ensures
        drifted(e, dt, t).0.lifetime matches Some(left) && left.is_finite() && size(
            real_of(left) - (real_of(e.lifetime->0) - real_of(dt)),
        ) * (1000 as real) <= 1 as real,
{
    let a = e.lifetime->0;
    lemma_finite_difference(a, dt, 1001);
    law_differences_are_differences(a, dt);
}

/// A projectile uses up its range by the way that it flies: the length of its velocity times the
/// time.
pub proof fn law_ranges_are_used_up(e: ServerEntity, dt: Single, t: Trace)
    requires
        e.kind == EntityKind::Torpedo || e.kind == EntityKind::Drone,
        e.travel_remaining is Some,
        (e.travel_remaining->0).is_finite(),
        size(real_of(e.travel_remaining->0)) <= 1000 as real,
        is_a_moment(dt),
        drifted(e, dt, t).1.len() > 0,
        reply(t, 0).is_finite(),
        size(real_of(reply(t, 0))) <= 4000 as real,
    ensures
        t[0] == Event::Number(Ask::Hypot(e.vx, e.vy), reply(t, 0)),
        drifted(e, dt, t).0.travel_remaining matches Some(left) && left.is_finite() && size(
            real_of(left) - (real_of(e.travel_remaining->0) - real_of(reply(t, 0)) * real_of(dt)),
        ) * (100 as real) <= 1 as real,
{
    lemma_unit();
    let qs = seq![Ask::Hypot(e.vx, e.vy)];
    assert(past(t, qs).len() > 0);
    assert(answers(t, qs));
    assert(t[0] == Event::Number(qs[0], reply(t, 0)));
    let (v, a) = (reply(t, 0), e.travel_remaining->0);
    lemma_size_product(real_of(v), real_of(dt));
    lemma_bound_product(size(real_of(v)), 4000 as real, real_of(dt), 1 as real);
    lemma_times_one(4000 as real, 1 as real);
    lemma_finite_product(v, dt, 4000);
    law_products_are_products(v, dt);
    lemma_finite_difference(a, product(v, dt), 6000);
    law_differences_are_differences(a, product(v, dt));
}

/// Wreckage slows down in both parts of its velocity alike, by the share that drag leaves, and
/// tumbles at its own rate.
pub proof fn law_wreckage_slows_and_tumbles(e: ServerEntity, dt: Single, t: Trace)
    requires
        e.kind == EntityKind::Debris,
        is_under_way(e),
        is_a_moment(dt),
        e.angle.is_finite(),
        size(real_of(e.angle)) <= 1000 as real,
        e.damage.is_finite(),
        size(real_of(e.damage)) <= 1000 as real,
        drifted(e, dt, t).1.len() > 0,
        reply(t, 0).is_finite(),
        0 as real <= real_of(reply(t, 0)) <= 1 as real,
    ensures
        t[0] == Event::Number(drag_ask(dt), reply(t, 0)),
        ({
            let r = drifted(e, dt, t).0;
            let drag = real_of(reply(t, 0));
            &&& size(real_of(r.vx) - real_of(e.vx) * drag) * (100 as real) <= 1 as real
            &&& size(real_of(r.vy) - real_of(e.vy) * drag) * (100 as real) <= 1 as real
            &&& size(
                real_of(r.angle) - (real_of(e.angle) + real_of(e.damage) * real_of(dt)),
            ) * (100 as real) <= 1 as real
        }),
{
    lemma_unit();
    let qs = seq![drag_ask(dt)];
    assert(past(t, qs).len() > 0);
    assert(answers(t, qs));
    assert(t[0] == Event::Number(qs[0], reply(t, 0)));
    let drag = reply(t, 0);
    lemma_slowed(e.vx, drag);
    lemma_slowed(e.vy, drag);
    lemma_slowed(e.damage, dt);
    let turn = product(e.damage, dt);
    lemma_size_product(real_of(e.damage), real_of(dt));
    lemma_bound_product(size(real_of(e.damage)), 1000 as real, real_of(dt), 1 as real);
    lemma_times_one(1000 as real, 1 as real);
    lemma_finite_sum(e.angle, turn, 3000);
    law_sums_are_sums(e.angle, turn);
}

/// A share of a moderate amount.
proof fn lemma_slowed(v: Single, share: Single)
    requires
        v.is_finite(),
        share.is_finite(),
        size(real_of(v)) <= 4000 as real,
        0 as real <= real_of(share) <= 1 as real,
    ensures
        product(v, share).is_finite(),
        size(real_of(product(v, share)) - real_of(v) * real_of(share)) * (1000 as real) <= (
        1 as real),
{
    lemma_unit();
    lemma_size_product(real_of(v), real_of(share));
    lemma_bound_product(size(real_of(v)), 4000 as real, real_of(share), 1 as real);
    lemma_times_one(4000 as real, 1 as real);
    lemma_finite_product(v, share, 4000);
    law_products_are_products(v, share);
}

/// Half a turn, in real numbers.
proof fn lemma_half_turn_real()
    ensures
        half_turn().is_finite(),
        real_of(half_turn()) * (4_194_304 as real) == 13_176_795 as real,
        (pow2(126) as real) * unit() * (8_388_608 as real) == 1 as real,
{
    lemma_half_turn();
    lemma_unit();
    lemma_pow2_adds(126, 23);
    lemma2_to64();
    let e = unit();
    let p = pow2(126) as real;
    lemma_real_product(pow2(126) as int, 8_388_608);
    assert(pow2(149) as real == p * (8_388_608 as real));
    lemma_times_swap(p, 8_388_608 as real, e);
    let v = half_turn().value();
    assert(v == 26_353_590 * pow2(126));
    lemma_real_product(26_353_590, pow2(126) as int);
    lemma_times_swap(26_353_590 as real, p, e);
    let g = p * e;
    assert(real_of(half_turn()) == (26_353_590 as real) * g);
}

/// A heading that is asked for, well within half a turn either way, is taken.
proof fn lemma_heading_taken(a: Single, x: real)
    requires
        a.is_finite(),
        size(x) <= 3 as real,
        size(real_of(a) - x) * (2000 as real) <= 1 as real,
    ensures
        normal_angle(a).is_finite(),
        size(real_of(normal_angle(a)) - x) * (1000 as real) <= 1 as real,
{
    lemma_half_turn_real();
    let pi = half_turn();
    law_opposites_are_opposites(pi);
    law_order_is_order_of_reals(negated(pi), a);
    law_order_is_order_of_reals(a, pi);
    law_headings_follow_the_aim(a);
    lemma_unit();
    let (u, v) = (normal_angle(a).value(), a.value());
    let e = unit();
    let d = (u as real) - (v as real);
    assert((u - v) as real == d);
    lemma_real_product(3, pow2(126) as int);
    let p = pow2(126) as real;
    assert(size(d) <= (3 as real) * p);
    lemma_times_order(size(d), (3 as real) * p, e);
    lemma_size_product(d, e);
    lemma_times_sum(u as real, v as real, e);
    lemma_times_swap(3 as real, p, e);
}

/// The key that turns left lowers the heading by the turn rate times the time, the key that turns
/// right raises it by as much, both together leave it, and so does neither.
pub proof fn law_turn_keys_turn_the_ship(
    angle: Single,
    input: PlayerInput,
    turn_rate: Single,
    dt: Single,
)
    requires
        input.aim_angle is None,
        is_a_moment(dt),
        angle.is_finite(),
        turn_rate.is_finite(),
        0 as real <= real_of(turn_rate) <= 10 as real,
        size(real_of(angle)) <= 3 as real,
        size(real_of(angle) + real_of(turn_rate) * real_of(dt)) <= 3 as real,
        size(real_of(angle) - real_of(turn_rate) * real_of(dt)) <= 3 as real,
    ensures
        ({
            let r = heading(angle, input, turn_rate, dt);
            let way = real_of(turn_rate) * real_of(dt);
            let from = real_of(angle);
            &&& r.is_finite()
            &&& input.turn_left && !input.turn_right ==> size(real_of(r) - (from - way)) * (
            1000 as real) <= 1 as real
            &&& !input.turn_left && input.turn_right ==> size(real_of(r) - (from + way)) * (
            1000 as real) <= 1 as real
            &&& input.turn_left == input.turn_right ==> size(real_of(r) - from) * (1000 as real)
                <= 1 as real
        }),
{
    lemma_unit();
    let way = real_of(turn_rate) * real_of(dt);
    lemma_bound_product(real_of(turn_rate), 10 as real, real_of(dt), 1 as real);
    lemma_times_one(10 as real, 1 as real);
    lemma_finite_product(turn_rate, dt, 10);
    law_products_are_products(turn_rate, dt);
    let p = product(turn_rate, dt);
    lemma_finite_difference(angle, p, 20);
    law_differences_are_differences(angle, p);
    lemma_finite_sum(angle, p, 20);
    law_sums_are_sums(angle, p);
    let left = difference(angle, p);
    lemma_finite_sum(left, p, 20);
    law_sums_are_sums(left, p);
    if input.turn_left && input.turn_right {
        lemma_heading_taken(sum(left, p), real_of(angle));
    } else if input.turn_left {
        lemma_heading_taken(left, real_of(angle) - way);
    } else if input.turn_right {
        lemma_heading_taken(sum(angle, p), real_of(angle) + way);
    } else {
        lemma_heading_taken(angle, real_of(angle));
    }
}

} // verus!
