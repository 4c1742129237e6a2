//! How a ship moves in one tick.
use vstd::arithmetic::div_mod::{lemma_fundamental_div_mod_converse, lemma_small_mod};
use vstd::arithmetic::power2::{
    lemma2_to64, lemma_pow2_adds, lemma_pow2_pos, lemma_pow2_unfold, pow2,
};
use vstd::prelude::*;

use crate::bounds::{is_amount, lemma_whole_amount};
use crate::game::{
    class_stats, full_turn, half_turn, pi, tau, world_side, world_width, ShipClass, ShipStats,
    PI_BITS, TAU_BITS,
};
use crate::oracle::{
    answers, lemma_follows, lemma_past, lemma_since_chain, lemma_since_now, past, told, Ask, Event,
    Oracle, Trace,
};
use crate::order::{
    law_order_is_order_of_values, law_small_wholes_are_exact, law_sum_never_crosses,
    law_wrapped_in_range, law_wrapping_is_congruent, lemma_negated, lemma_zero,
};
use crate::precision::{is_at_most_as_fast, law_rounding_moves_little, lemma_capped_speed, measures};
use crate::protocol::PlayerInput;
use crate::rounding::{lemma_round_at, lemma_round_monotone, round_bits};
use crate::single::{
    difference, from_fraction, from_whole, lt, negated, product, quotient, sum, wrapped, zero,
    Single,
};
use crate::world::ServerEntity;

verus! {

broadcast use lemma_follows;

/// A velocity, and the fuel burnt to get it.
#[derive(Debug, Clone, Copy)]
pub struct Motion {
    pub vx: Single,
    pub vy: Single,
    pub burnt: Single,
}

/// The angle in the range from minus half a turn to half a turn.
pub open spec fn normal_angle(a: Single) -> Single {
    difference(wrapped(sum(a, half_turn()), full_turn()), half_turn())
}

/// The heading that the pilot asks for: the aim where there is one, or else the old heading turned
/// by the keys that are held.
pub open spec fn heading(
    angle: Single,
    input: PlayerInput,
    turn_rate: Single,
    dt: Single,
) -> Single {
    let turned = match input.aim_angle {
        Some(a) => a,
        None => {
            let left = if input.turn_left {
                difference(angle, product(turn_rate, dt))
            } else {
                angle
            };
            if input.turn_right {
                sum(left, product(turn_rate, dt))
            } else {
                left
            }
        },
    };
    normal_angle(turned)
}

/// The engine pushes the ship ahead.
pub open spec fn ahead(m: Motion, on: bool, angle: Single, force: Single, dt: Single, t: Trace) -> (
    Motion,
    Trace,
) {
    if on {
        let c = told(t, 0, Ask::Cos(angle));
        let s = told(t, 1, Ask::Sin(angle));
        (
            Motion {
                vx: sum(m.vx, product(product(c, force), dt)),
                vy: sum(m.vy, product(product(s, force), dt)),
                burnt: sum(m.burnt, product(from_whole(10), dt)),
            },
            past(t, seq![Ask::Cos(angle), Ask::Sin(angle)]),
        )
    } else {
        (m, t)
    }
}

/// The engine pushes the ship astern, with half its force.
pub open spec fn astern(
    m: Motion,
    on: bool,
    angle: Single,
    force: Single,
    dt: Single,
    t: Trace,
) -> (Motion, Trace) {
    if on {
        let half = from_fraction(1, 2);
        let c = told(t, 0, Ask::Cos(angle));
        let s = told(t, 1, Ask::Sin(angle));
        (
            Motion {
                vx: difference(m.vx, product(product(product(c, force), half), dt)),
                vy: difference(m.vy, product(product(product(s, force), half), dt)),
                burnt: sum(m.burnt, product(from_whole(5), dt)),
            },
            past(t, seq![Ask::Cos(angle), Ask::Sin(angle)]),
        )
    } else {
        (m, t)
    }
}

/// The velocity scaled down to the greatest speed.
pub open spec fn capped(m: Motion, max_speed: Single, t: Trace) -> (Motion, Trace) {
    let speed = told(t, 0, Ask::Hypot(m.vx, m.vy));
    (
        if lt(max_speed, speed) {
            let scale = quotient(max_speed, speed);
            Motion { vx: product(m.vx, scale), vy: product(m.vy, scale), burnt: m.burnt }
        } else {
            m
        },
        past(t, seq![Ask::Hypot(m.vx, m.vy)]),
    )
}

/// The question for the share of a speed that drag leaves.
pub open spec fn drag_ask(dt: Single) -> Ask {
    Ask::Pow(from_fraction(49, 50), product(dt, from_whole(20)))
}

/// The velocity that drag leaves.
pub open spec fn dragged(m: Motion, dt: Single, t: Trace) -> (Motion, Trace) {
    let drag = told(t, 0, drag_ask(dt));
    (
        Motion { vx: product(m.vx, drag), vy: product(m.vy, drag), burnt: m.burnt },
        past(t, seq![drag_ask(dt)]),
    )
}

/// A coordinate moved on the torus.
pub open spec fn shifted(x: Single, dx: Single) -> Single {
    wrapped(sum(x, dx), world_side())
}

/// The velocity that the engine leaves, and the fuel burnt for it.
pub open spec fn pushed(
    e: ServerEntity,
    input: PlayerInput,
    stats: ShipStats,
    fuel: Single,
    dt: Single,
    t: Trace,
) -> (Motion, Trace) {
    let angle = heading(e.angle, input, stats.turn_rate, dt);
    let fuelled = lt(zero(), fuel);
    let m0 = Motion { vx: e.vx, vy: e.vy, burnt: zero() };
    let (m1, t1) = ahead(m0, input.thrust && fuelled, angle, stats.thrust_force, dt, t);
    astern(m1, input.reverse_thrust && fuelled, angle, stats.thrust_force, dt, t1)
}

/// A ship after one tick under its pilot's control, and the fuel burnt.
pub open spec fn steered(
    e: ServerEntity,
    input: PlayerInput,
    stats: ShipStats,
    fuel: Single,
    dt: Single,
    t: Trace,
) -> (ServerEntity, Single, Trace) {
    let (m1, t1) = pushed(e, input, stats, fuel, dt, t);
    let (m2, t2) = capped(m1, stats.max_speed, t1);
    let (m, t3) = dragged(m2, dt, t2);
    (
        ServerEntity {
            angle: heading(e.angle, input, stats.turn_rate, dt),
            vx: m.vx,
            vy: m.vy,
            x: shifted(e.x, product(m.vx, dt)),
            y: shifted(e.y, product(m.vy, dt)),
            ..e
        },
        m.burnt,
        t3,
    )
}

/// A velocity held to the greatest speed: one whose length is above it is scaled by the greatest
/// speed over that length, in both parts alike, and any other stays.
pub open spec fn held(v: Single, speed: Single, max_speed: Single) -> Single {
    if lt(max_speed, speed) {
        product(v, quotient(max_speed, speed))
    } else {
        v
    }
}

/// No ship keeps a speed above the greatest of its class: the source was asked for the length of
/// the velocity that the engine left, the velocity is held to the greatest speed by that reply, and
/// drag slows down what is left.  The ship moves on by the velocity that it has then.
pub proof fn law_speed_is_capped(
    e: ServerEntity,
    input: PlayerInput,
    stats: ShipStats,
    fuel: Single,
    dt: Single,
    t: Trace,
)
    requires
        steered(e, input, stats, fuel, dt, t).2.len() > 0,
    ensures
        ({
            let (m, t1) = pushed(e, input, stats, fuel, dt, t);
            let r = steered(e, input, stats, fuel, dt, t).0;
            &&& t1.len() > 2
            &&& t1[0] matches Event::Number(length, speed) && t1[1] matches Event::Number(
                share,
                drag,
            ) && {
                &&& length == Ask::Hypot(m.vx, m.vy)
                &&& share == drag_ask(dt)
                &&& r.vx == product(held(m.vx, speed, stats.max_speed), drag)
                &&& r.vy == product(held(m.vy, speed, stats.max_speed), drag)
                &&& r.x == shifted(e.x, product(r.vx, dt))
                &&& r.y == shifted(e.y, product(r.vy, dt))
            }
        }),
{
    let (m, t1) = pushed(e, input, stats, fuel, dt, t);
    let qs = seq![Ask::Hypot(m.vx, m.vy)];
    let t2 = past(t1, qs);
    let ds = seq![drag_ask(dt)];
    assert(past(t2, ds).len() > 0);
    assert(answers(t2, ds));
    assert(t2.len() > 0);
    assert(answers(t1, qs));
    assert(t2 == t1.skip(1));
    assert(t1[0] == Event::Number(qs[0], told(t1, 0, qs[0])));
    assert(t2[0] == Event::Number(ds[0], told(t2, 0, ds[0])));
    assert(t1[1] == t2[0]);
}

/// No ship ends a tick faster than its class may be, up to one part in two to the power of 20,
/// where the source measures the length of the velocity to the last digit, and gives for drag a
/// share of the speed.
pub proof fn law_speed_stays_within_the_maximum(
    e: ServerEntity,
    input: PlayerInput,
    class: ShipClass,
    fuel: Single,
    dt: Single,
    t: Trace,
)
    requires
        steered(e, input, class_stats(class), fuel, dt, t).2.len() > 0,
        ({
            let (m, t1) = pushed(e, input, class_stats(class), fuel, dt, t);
            &&& m.vx.is_finite()
            &&& m.vy.is_finite()
            &&& measures(told(t1, 0, Ask::Hypot(m.vx, m.vy)), m.vx, m.vy)
            &&& is_amount(told(t1, 1, drag_ask(dt)), 1)
        }),
    ensures
        is_at_most_as_fast(
            steered(e, input, class_stats(class), fuel, dt, t).0.vx,
            steered(e, input, class_stats(class), fuel, dt, t).0.vy,
            class_stats(class).max_speed,
        ),
{
    let stats = class_stats(class);
    let (m, t1) = pushed(e, input, stats, fuel, dt, t);
    law_speed_is_capped(e, input, stats, fuel, dt, t);
    let speed = told(t1, 0, Ask::Hypot(m.vx, m.vy));
    let drag = told(t1, 1, drag_ask(dt));
    let max = stats.max_speed;
    assert(max.is_finite() && !max.neg() && max.units() >= 64 * pow2(149)) by {
        lemma_pow2_pos(149);
        assert forall|n: int| 100 <= n <= 300 implies (#[trigger] from_whole(n)).is_finite()
            && !from_whole(n).neg() && from_whole(n).units() >= 64 * pow2(149) by {
            law_small_wholes_are_exact(n);
            lemma_whole_amount(n, n);
            assert(n * pow2(149) >= 64 * pow2(149)) by (nonlinear_arith)
                requires
                    n >= 64,
                    pow2(149) > 0,
            ;
        }
    }
    lemma_capped_speed(m.vx, m.vy, speed, max, drag);
}

/// A sum of numbers is within half of a power of two of the exact sum, if that is small enough.
proof fn lemma_sum_near(a: Single, b: Single, top: nat)
    requires
        a.is_finite(),
        b.is_finite(),
        sum(a, b).is_finite(),
        -pow2(24 + top) < a.value() + b.value() < pow2(24 + top),
    ensures
        2 * sum(a, b).value() <= 2 * (a.value() + b.value()) + pow2(top),
        2 * (a.value() + b.value()) <= 2 * sum(a, b).value() + pow2(top),
{
    reveal(sum);
    let v = a.value() + b.value();
    let r = sum(a, b);
    if v == 0 {
        lemma2_to64();
        lemma_pow2_pos(top);
        assert(0 * pow2(0) == 0);
    } else {
        law_rounding_moves_little(v < 0, vstd::math::abs(v), top);
    }
}

/// The number before half a turn, and what its sum with half a turn rounds to.
pub proof fn lemma_half_turn()
    ensures
        half_turn().is_finite(),
        half_turn().value() == 0xc9_0fdb * pow2(127),
        full_turn().is_finite(),
        full_turn().value() == 0xc9_0fdb * pow2(128),
        pow2(128) == 2 * pow2(127),
        pow2(127) == 2 * pow2(126),
        pow2(126) > 0,
        pow2(151) == 0x100_0000 * pow2(127),
        pow2(152) == 0x200_0000 * pow2(127),
        ({
            let before = Single { bits: (PI_BITS - 1) as u32 };
            &&& before.is_finite()
            &&& !before.neg()
            &&& before.value() == 0xc9_0fda * pow2(127)
        }),
        round_bits((0x192_1fb5 * pow2(127)) as nat, 1) == TAU_BITS - 1,
{
    let before = Single { bits: (PI_BITS - 1) as u32 };
    assert(half_turn().exponent() == 127 && half_turn().significand() == 0xc9_0fdb);
    assert(full_turn().exponent() == 128 && full_turn().significand() == 0xc9_0fdb);
    assert(before.exponent() == 127 && before.significand() == 0xc9_0fda);
    lemma_pow2_pos(126);
    lemma_pow2_unfold(127);
    lemma_pow2_unfold(128);
    lemma2_to64();
    lemma_pow2_adds(24, 127);
    lemma_pow2_adds(25, 127);
    let p = pow2(127);
    let num = (0x192_1fb5 * p) as nat;
    assert(1 * pow2(152) == pow2(152) && 1 * pow2(151) == pow2(151) && 1 * pow2(128) == pow2(128));
    lemma_round_at(num, 1, 128);
    lemma_fundamental_div_mod_converse(num as int, pow2(128) as int, 0xc9_0fda, p as int);
}

/// The heading is the aim: for an aim between minus half a turn and half a turn, the two differ by
/// three parts in two to the power of 23 of a radian at most, which is three times two to the power
/// of 126 of the units that numbers are made of.
pub proof fn law_headings_follow_the_aim(a: Single)
    requires
        lt(negated(half_turn()), a),
        lt(a, half_turn()),
    ensures
        normal_angle(a).is_finite(),
        normal_angle(a).value() - a.value() <= 3 * pow2(126),
        a.value() - normal_angle(a).value() <= 3 * pow2(126),
{
    lemma_half_turn();
    lemma_zero();
    let (pi, tau) = (half_turn(), full_turn());
    let p = pow2(127) as int;
    let before = Single { bits: (PI_BITS - 1) as u32 };
    lemma_negated(pi);
    lemma_negated(before);
    law_order_is_order_of_values(a, before);
    law_order_is_order_of_values(negated(before), a);
    // Half a turn more, below a full turn.
    let v = a.value() + pi.value();
    assert(p <= v <= 0x192_1fb5 * p);
    let s = sum(a, pi);
    lemma_round_monotone(v as nat, (0x192_1fb5 * p) as nat, 1);
    assert(s.mag() <= TAU_BITS - 1 && !s.neg()) by {
        reveal(sum);
    }
    lemma_sum_near(a, pi, 128);
    law_order_is_order_of_values(s, tau);
    law_order_is_order_of_values(zero(), tau);
    law_wrapped_in_range(s, tau);
    law_wrapping_is_congruent(s, tau);
    lemma_small_mod(s.value() as nat, tau.value() as nat);
    let w = wrapped(s, tau);
    assert(w.value() == s.value());
    // Half a turn less.
    law_sum_never_crosses(w, negated(pi), pi);
    law_sum_never_crosses(w, negated(pi), negated(pi));
    lemma_sum_near(w, negated(pi), 127);
}

/// Where the pilot aims, the keys that turn the ship change nothing: the heading is the aim,
/// brought into the range of headings.
pub proof fn law_aim_takes_priority_over_keys(
    e: ServerEntity,
    a: PlayerInput,
    b: PlayerInput,
    stats: ShipStats,
    fuel: Single,
    dt: Single,
    t: Trace,
)
    requires
        a.aim_angle is Some,
        b == (PlayerInput { turn_left: b.turn_left, turn_right: b.turn_right, ..a }),
    ensures
        steered(e, a, stats, fuel, dt, t) == steered(e, b, stats, fuel, dt, t),
        steered(e, a, stats, fuel, dt, t).0.angle == normal_angle(a.aim_angle->0),
{
}

/// Brings an angle into the range from minus half a turn to half a turn.
pub fn normalise(a: Single) -> (r: Single)
    ensures
        r == normal_angle(a),
{
    a.plus(pi()).rem_euclid(tau()).minus(pi())
}

/// Moves a coordinate on the torus.
pub fn shift(x: Single, dx: Single) -> (r: Single)
    ensures
        r == shifted(x, dx),
{
    x.plus(dx).rem_euclid(world_width())
}

/// The heading that the pilot asks for.
pub fn choose_heading(angle: Single, input: &PlayerInput, turn_rate: Single, dt: Single) -> (r:
    Single)
    ensures
        r == heading(angle, *input, turn_rate, dt),
{
    let turned: Single = match input.aim_angle {
        Some(a) => a,
        None => {
            let mut a: Single = angle;
            if input.turn_left {
                a = a.minus(turn_rate.times(dt));
            }
            if input.turn_right {
                a = a.plus(turn_rate.times(dt));
            }
            a
        },
    };
    normalise(turned)
}

fn push_ahead<F: Fn(Ask) -> Single>(
    m: Motion,
    on: bool,
    angle: Single,
    force: Single,
    dt: Single,
    oracle: &mut Oracle<F>,
) -> (r: Motion)
    ensures
        final(oracle).follows(*old(oracle)),
        forall|rest: Trace| #[trigger]
            ahead(m, on, angle, force, dt, final(oracle).since(*old(oracle)) + rest) == (r, rest),
{
    if !on {
        proof {
            lemma_since_now(*oracle);
        }
        return m;
    }
    let c: Single = oracle.ask(Ask::Cos(angle));
    let s: Single = oracle.ask(Ask::Sin(angle));
    proof {
        let tr = oracle.since(*old(oracle));
        lemma_past(tr);
    }
    Motion {
        vx: m.vx.plus(c.times(force).times(dt)),
        vy: m.vy.plus(s.times(force).times(dt)),
        burnt: m.burnt.plus(Single::whole(10).times(dt)),
    }
}

fn push_astern<F: Fn(Ask) -> Single>(
    m: Motion,
    on: bool,
    angle: Single,
    force: Single,
    dt: Single,
    oracle: &mut Oracle<F>,
) -> (r: Motion)
    ensures
        final(oracle).follows(*old(oracle)),
        forall|rest: Trace| #[trigger]
            astern(m, on, angle, force, dt, final(oracle).since(*old(oracle)) + rest) == (r, rest),
{
    if !on {
        proof {
            lemma_since_now(*oracle);
        }
        return m;
    }
    let half: Single = Single::fraction(1, 2);
    let c: Single = oracle.ask(Ask::Cos(angle));
    let s: Single = oracle.ask(Ask::Sin(angle));
    proof {
        let tr = oracle.since(*old(oracle));
        lemma_past(tr);
    }
    Motion {
        vx: m.vx.minus(c.times(force).times(half).times(dt)),
        vy: m.vy.minus(s.times(force).times(half).times(dt)),
        burnt: m.burnt.plus(Single::whole(5).times(dt)),
    }
}

fn cap_speed<F: Fn(Ask) -> Single>(m: Motion, max_speed: Single, oracle: &mut Oracle<F>) -> (r:
    Motion)
    ensures
        final(oracle).follows(*old(oracle)),
        forall|rest: Trace| #[trigger]
            capped(m, max_speed, final(oracle).since(*old(oracle)) + rest) == (r, rest),
{
    let speed: Single = oracle.ask(Ask::Hypot(m.vx, m.vy));
    proof {
        let tr = oracle.since(*old(oracle));
        lemma_past(tr);
    }
    if max_speed.is_less(speed) {
        let scale: Single = max_speed.over(speed);
        Motion { vx: m.vx.times(scale), vy: m.vy.times(scale), burnt: m.burnt }
    } else {
        m
    }
}

/// Slows a moving thing by the drag of one tick.
pub fn drag<F: Fn(Ask) -> Single>(m: Motion, dt: Single, oracle: &mut Oracle<F>) -> (r: Motion)
    ensures
        final(oracle).follows(*old(oracle)),
        forall|rest: Trace| #[trigger]
            dragged(m, dt, final(oracle).since(*old(oracle)) + rest) == (r, rest),
{
    let drag: Single = oracle.ask(
        Ask::Pow(Single::fraction(49, 50), dt.times(Single::whole(20))),
    );
    proof {
        let tr = oracle.since(*old(oracle));
        lemma_past(tr);
    }
    Motion { vx: m.vx.times(drag), vy: m.vy.times(drag), burnt: m.burnt }
}

/// Moves a ship by one tick under its pilot's control; gives the fuel burnt too.
pub fn steer<F: Fn(Ask) -> Single>(
    e: &ServerEntity,
    input: &PlayerInput,
    stats: &ShipStats,
    fuel: Single,
    dt: Single,
    oracle: &mut Oracle<F>,
) -> (r: (ServerEntity, Single))
    ensures
        final(oracle).follows(*old(oracle)),
        forall|rest: Trace| #[trigger]
            steered(*e, *input, *stats, fuel, dt, final(oracle).since(*old(oracle)) + rest) == (
                r.0,
                r.1,
                rest,
            ),
{
    let angle: Single = choose_heading(e.angle, input, stats.turn_rate, dt);
    let fuelled: bool = Single::nought().is_less(fuel);
    let m0: Motion = Motion { vx: e.vx, vy: e.vy, burnt: Single::nought() };
    let m1: Motion = push_ahead(
        m0,
        input.thrust && fuelled,
        angle,
        stats.thrust_force,
        dt,
        oracle,
    );
    let ghost o1 = *oracle;
    let m2: Motion = push_astern(
        m1,
        input.reverse_thrust && fuelled,
        angle,
        stats.thrust_force,
        dt,
        oracle,
    );
    let ghost o2 = *oracle;
    let m3: Motion = cap_speed(m2, stats.max_speed, oracle);
    let ghost o3 = *oracle;
    let m: Motion = drag(m3, dt, oracle);
    proof {
        lemma_since_chain(o2, o3, *oracle);
        lemma_since_chain(o1, o2, *oracle);
        lemma_since_chain(*old(oracle), o1, *oracle);
    }
    let mut moved: ServerEntity = *e;
    moved.angle = angle;
    moved.vx = m.vx;
    moved.vy = m.vy;
    moved.x = shift(e.x, m.vx.times(dt));
    moved.y = shift(e.y, m.vy.times(dt));
    (moved, m.burnt)
}

} // verus!
