//! The laws of motion, in real numbers: what engines, guns, beams and collisions do, up to
//! rounding.
use vstd::prelude::*;

use crate::exact::{
    close, law_a_half_is_a_half, law_absolute_values_are_sizes, law_order_is_order_of_reals,
    law_wholes_are_wholes, lemma_bound_product, lemma_difference_of_near, lemma_finite_difference,
    lemma_finite_product, lemma_finite_sum, lemma_near_close, lemma_near_more, lemma_near_self,
    lemma_near_wider, lemma_product_of_near, lemma_product_parts, lemma_size_product,
    lemma_sum_of_near, lemma_sum_parts, lemma_times_one, lemma_times_opposite, lemma_times_order,
    lemma_times_sum, lemma_times_swap, lemma_unit, near, real_of, scale, size, unit,
};
use crate::game::{class_stats, EntityId, EntityKind, PlayerId, ShipStats};
use crate::helm::{ahead, astern, heading, pushed, Motion};
use crate::oracle::{answers, past, told, Ask, Event, Trace};
use crate::order::{law_order_is_order_of_values, lemma_negated, lemma_zero};
use crate::pilot::{fired, launched, torpedo_from};
use crate::protocol::PlayerInput;
use crate::ray::{
    along, aside, beam_end, is_rock, lemma_nearest, meets, nearest, radius_of, target, Ray,
};
use crate::single::{
    difference, from_fraction, from_whole, le, lt, negated, product, sum, zero, Single,
};
use crate::table::{law_put_is_found, lemma_find};
use crate::world::{entity_of, player_of, with_player, PhaserHit, ServerEntity, World};

verus! {

/// The number that was told at a place of a record.
pub open spec fn reply(t: Trace, k: int) -> Single {
    match t[k] {
        Event::Number(_, a) => a,
        Event::Count(_, _, _) => arbitrary(),
    }
}

/// Whether two questions in a row, from a place of a record on, were for the cosine and the sine of
/// an angle.
pub open spec fn asks_direction(t: Trace, k: int, angle: Single) -> bool {
    &&& k + 2 <= t.len()
    &&& t[k] == Event::Number(Ask::Cos(angle), reply(t, k))
    &&& t[k + 1] == Event::Number(Ask::Sin(angle), reply(t, k + 1))
}

/// What is left over after a cosine and a sine shows that they were asked for.
pub proof fn lemma_direction(t: Trace, angle: Single)
    requires
        past(t, seq![Ask::Cos(angle), Ask::Sin(angle)]).len() > 0,
    ensures
        asks_direction(t, 0, angle),
        told(t, 0, Ask::Cos(angle)) == reply(t, 0),
        told(t, 1, Ask::Sin(angle)) == reply(t, 1),
        past(t, seq![Ask::Cos(angle), Ask::Sin(angle)]) == t.skip(2),
{
    let qs = seq![Ask::Cos(angle), Ask::Sin(angle)];
    assert(answers(t, qs));
    assert(qs[0] == Ask::Cos(angle) && qs[1] == Ask::Sin(angle));
}

/// A product of three numbers.
proof fn lemma_triple(a: Single, b: Single, c: Single)
    requires
        product(product(a, b), c).is_finite(),
    ensures
        near(
            real_of(product(product(a, b), c)),
            real_of(a) * real_of(b) * real_of(c),
            scale(real_of(a)) * scale(real_of(b)) * scale(real_of(c)),
            6,
        ),
{
    let (x, y, z) = (real_of(a), real_of(b), real_of(c));
    lemma_product_parts(product(a, b), c);
    lemma_near_self(x);
    lemma_near_self(y);
    lemma_near_self(z);
    lemma_product_of_near(a, x, scale(x), 0, b, y, scale(y), 0);
    lemma_product_of_near(
        product(a, b),
        x * y,
        scale(x) * scale(y),
        3,
        c,
        z,
        scale(z),
        0,
    );
}

/// The velocity that a push of an engine gives, in real numbers: along the direction, by the force
/// times the seconds.
pub open spec fn push_of(share: Single, force: Single, dt: Single) -> real {
    real_of(share) * real_of(force) * real_of(dt)
}

/// The scale of such a push.
pub open spec fn push_scale(share: Single, force: Single, dt: Single) -> real {
    scale(real_of(share)) * scale(real_of(force)) * scale(real_of(dt))
}

/// A push ahead, one coordinate.
proof fn lemma_push(v: Single, share: Single, force: Single, dt: Single)
    requires
        sum(v, product(product(share, force), dt)).is_finite(),
    ensures
        near(
            real_of(sum(v, product(product(share, force), dt))),
            real_of(v) + push_of(share, force, dt),
            scale(real_of(v)) + push_scale(share, force, dt),
            8,
        ),
{
    let push = product(product(share, force), dt);
    lemma_sum_parts(v, push);
    lemma_triple(share, force, dt);
    lemma_near_self(real_of(v));
    lemma_near_more(real_of(v), real_of(v), scale(real_of(v)), 0, 6);
    lemma_sum_of_near(
        v,
        real_of(v),
        scale(real_of(v)),
        push,
        push_of(share, force, dt),
        push_scale(share, force, dt),
        6,
    );
}

/// A push astern, one coordinate.
proof fn lemma_pull(v: Single, x: real, c: real, share: Single, force: Single, dt: Single)
    requires
        near(real_of(v), x, c, 8),
        difference(
            v,
            product(product(product(share, force), from_fraction(1, 2)), dt),
        ).is_finite(),
    ensures
        near(
            real_of(
                difference(v, product(product(product(share, force), from_fraction(1, 2)), dt)),
            ),
            x - push_of(share, force, dt) / (2 as real),
            c + push_scale(share, force, dt) * (2 as real),
            13,
        ),
{
    let half = from_fraction(1, 2);
    let a = product(share, force);
    let b = product(a, half);
    let pull = product(b, dt);
    lemma_sum_parts(v, negated(pull));
    lemma_negated(pull);
    lemma_product_parts(b, dt);
    lemma_product_parts(a, half);
    let (p, f, d) = (real_of(share), real_of(force), real_of(dt));
    let h = (1 as real) / (2 as real);
    lemma_near_self(p);
    lemma_near_self(f);
    lemma_near_self(d);
    law_a_half_is_a_half();
    lemma_product_of_near(share, p, scale(p), 0, force, f, scale(f), 0);
    lemma_product_of_near(a, p * f, scale(p) * scale(f), 3, half, h, 2 as real, 2);
    lemma_product_of_near(
        b,
        (p * f) * h,
        scale(p) * scale(f) * (2 as real),
        8,
        dt,
        d,
        scale(d),
        0,
    );
    lemma_times_swap(p * f, h, d);
    lemma_times_swap(scale(p) * scale(f), 2 as real, scale(d));
    assert(((p * f) * h) * d == ((p * f) * d) * h);
    assert(((p * f) * d) * h == push_of(share, force, dt) / (2 as real));
    let z = push_of(share, force, dt) / (2 as real);
    let e = push_scale(share, force, dt) * (2 as real);
    assert(near(real_of(pull), z, e, 11));
    lemma_near_more(real_of(v), x, c, 8, 11);
    lemma_difference_of_near(v, x, c, pull, z, e, 11);
}

/// Engines push a ship along its heading: ahead by the force of its class times the seconds, and
/// astern by half of that.  Both coordinates change by the replies for the cosine and the sine of
/// the heading, with the same sign; without fuel nothing changes.
pub proof fn law_engines_push_along_the_heading(
    e: ServerEntity,
    input: PlayerInput,
    stats: ShipStats,
    fuel: Single,
    dt: Single,
    t: Trace,
)
    requires
        pushed(e, input, stats, fuel, dt, t).1.len() > 0,
        pushed(e, input, stats, fuel, dt, t).0.vx.is_finite(),
        pushed(e, input, stats, fuel, dt, t).0.vy.is_finite(),
        fuel.is_finite(),
    ensures
        ({
            let m = pushed(e, input, stats, fuel, dt, t).0;
            let way = heading(e.angle, input, stats.turn_rate, dt);
            let force = stats.thrust_force;
            let fuelled = real_of(fuel) > 0 as real;
            let on = input.thrust && fuelled;
            let back = input.reverse_thrust && fuelled;
            let k = if on {
                2int
            } else {
                0
            };
            let none = 0 as real;
            &&& on ==> asks_direction(t, 0, way)
            &&& back ==> asks_direction(t, k, way)
            &&& close(
                real_of(m.vx),
                real_of(e.vx) + (if on {
                    push_of(reply(t, 0), force, dt)
                } else {
                    none
                }) - (if back {
                    push_of(reply(t, k), force, dt) / (2 as real)
                } else {
                    none
                }),
                scale(real_of(e.vx)) + (if on {
                    push_scale(reply(t, 0), force, dt)
                } else {
                    none
                }) + (if back {
                    push_scale(reply(t, k), force, dt) * (2 as real)
                } else {
                    none
                }),
            )
            &&& close(
                real_of(m.vy),
                real_of(e.vy) + (if on {
                    push_of(reply(t, 1), force, dt)
                } else {
                    none
                }) - (if back {
                    push_of(reply(t, k + 1), force, dt) / (2 as real)
                } else {
                    none
                }),
                scale(real_of(e.vy)) + (if on {
                    push_scale(reply(t, 1), force, dt)
                } else {
                    none
                }) + (if back {
                    push_scale(reply(t, k + 1), force, dt) * (2 as real)
                } else {
                    none
                }),
            )
        }),
{
    let way = heading(e.angle, input, stats.turn_rate, dt);
    let force = stats.thrust_force;
    lemma_zero();
    lemma_sign(fuel);
    let on = input.thrust && lt(zero(), fuel);
    let back = input.reverse_thrust && lt(zero(), fuel);
    let m0 = Motion { vx: e.vx, vy: e.vy, burnt: zero() };
    let (m1, t1) = ahead(m0, on, way, force, dt, t);
    let (m2, t2) = astern(m1, back, way, force, dt, t1);
    let qs = seq![Ask::Cos(way), Ask::Sin(way)];
    let (x, y) = (real_of(e.vx), real_of(e.vy));
    if back {
        lemma_direction(t1, way);
        lemma_sum_parts(
            m1.vx,
            negated(product(product(product(reply(t1, 0), force), from_fraction(1, 2)), dt)),
        );
        lemma_sum_parts(
            m1.vy,
            negated(product(product(product(reply(t1, 1), force), from_fraction(1, 2)), dt)),
        );
    }
    assert(t1.len() > 0);
    if on {
        lemma_direction(t, way);
        lemma_push(e.vx, reply(t, 0), force, dt);
        lemma_push(e.vy, reply(t, 1), force, dt);
        assert(back ==> t[2] == t1[0] && t[3] == t1[1]);
    } else {
        lemma_near_self(x);
        lemma_near_self(y);
        lemma_near_more(x, x, scale(x), 0, 8);
        lemma_near_more(y, y, scale(y), 0, 8);
    }
    let (x1, c1) = if on {
        (
            x + push_of(reply(t, 0), force, dt),
            scale(x) + push_scale(reply(t, 0), force, dt),
        )
    } else {
        (x, scale(x))
    };
    let (y1, d1) = if on {
        (
            y + push_of(reply(t, 1), force, dt),
            scale(y) + push_scale(reply(t, 1), force, dt),
        )
    } else {
        (y, scale(y))
    };
    assert(near(real_of(m1.vx), x1, c1, 8));
    assert(near(real_of(m1.vy), y1, d1, 8));
    if back {
        lemma_pull(m1.vx, x1, c1, reply(t1, 0), force, dt);
        lemma_pull(m1.vy, y1, d1, reply(t1, 1), force, dt);
        let p = push_of(reply(t1, 0), force, dt) / (2 as real);
        let q = push_of(reply(t1, 1), force, dt) / (2 as real);
        let u = push_scale(reply(t1, 0), force, dt) * (2 as real);
        let v = push_scale(reply(t1, 1), force, dt) * (2 as real);
        lemma_near_close(real_of(m2.vx), x1 - p, c1 + u, 13);
        lemma_near_close(real_of(m2.vy), y1 - q, d1 + v, 13);
    } else {
        lemma_near_close(real_of(m1.vx), x1, c1, 8);
        lemma_near_close(real_of(m1.vy), y1, d1, 8);
    }
}

/// A number is positive as a real where it is as a number.
pub proof fn lemma_sign(a: Single)
    requires
        a.is_finite(),
    ensures
        lt(zero(), a) <==> real_of(a) > 0 as real,
        lt(a, zero()) <==> real_of(a) < 0 as real,
{
    lemma_zero();
    lemma_unit();
    law_order_is_order_of_values(zero(), a);
    law_order_is_order_of_values(a, zero());
    let v = a.value() as real;
    if a.value() > 0 {
        lemma_times_order(1 as real, v, unit());
    } else if a.value() < 0 {
        lemma_times_order(v, -(1 as real), unit());
        lemma_times_opposite(1 as real, unit());
    } else {
        lemma_times_opposite(v, unit());
    }
    lemma_times_one(unit(), 1 as real);
}

/// A product of two numbers.
proof fn lemma_pair(a: Single, b: Single)
    requires
        product(a, b).is_finite(),
    ensures
        near(
            real_of(product(a, b)),
            real_of(a) * real_of(b),
            scale(real_of(a)) * scale(real_of(b)),
            3,
        ),
{
    let (x, y) = (real_of(a), real_of(b));
    lemma_near_self(x);
    lemma_near_self(y);
    lemma_product_of_near(a, x, scale(x), 0, b, y, scale(y), 0);
}

/// Adding a product of two numbers to a number.
proof fn lemma_plus_pair(v: Single, a: Single, b: Single)
    requires
        sum(v, product(a, b)).is_finite(),
    ensures
        near(
            real_of(sum(v, product(a, b))),
            real_of(v) + real_of(a) * real_of(b),
            scale(real_of(v)) + scale(real_of(a)) * scale(real_of(b)),
            5,
        ),
{
    lemma_sum_parts(v, product(a, b));
    lemma_pair(a, b);
    let x = real_of(v);
    lemma_near_self(x);
    lemma_near_more(x, x, scale(x), 0, 3);
    lemma_sum_of_near(
        v,
        x,
        scale(x),
        product(a, b),
        real_of(a) * real_of(b),
        scale(real_of(a)) * scale(real_of(b)),
        3,
    );
}

/// Engines burn ten units of fuel a second ahead, and five astern, while there is fuel.
pub proof fn law_engines_burn_fuel(
    e: ServerEntity,
    input: PlayerInput,
    stats: ShipStats,
    fuel: Single,
    dt: Single,
    t: Trace,
)
    requires
        fuel.is_finite(),
        pushed(e, input, stats, fuel, dt, t).0.burnt.is_finite(),
        dt.is_finite(),
    ensures
        ({
            let rate = (if input.thrust && real_of(fuel) > 0 as real {
                10 as real
            } else {
                0 as real
            }) + (if input.reverse_thrust && real_of(fuel) > 0 as real {
                5 as real
            } else {
                0 as real
            });
            close(
                real_of(pushed(e, input, stats, fuel, dt, t).0.burnt),
                rate * real_of(dt),
                (20 as real) * scale(real_of(dt)),
            )
        }),
{
    lemma_zero();
    lemma_sign(fuel);
    law_wholes_are_wholes(10);
    law_wholes_are_wholes(5);
    let on = input.thrust && lt(zero(), fuel);
    let back = input.reverse_thrust && lt(zero(), fuel);
    let d = real_of(dt);
    let c = scale(d);
    let ten = product(from_whole(10), dt);
    let five = product(from_whole(5), dt);
    let none = real_of(zero());
    lemma_real_zero();
    lemma_near_self(none);
    lemma_near_more(none, none, 1 as real, 0, 5);
    lemma_times_order(1 as real, c, 20 as real);
    if on {
        if back {
            lemma_sum_parts(sum(zero(), ten), five);
        }
        lemma_plus_pair(zero(), from_whole(10), dt);
    }
    let a = if on {
        sum(zero(), ten)
    } else {
        zero()
    };
    let (x, s) = if on {
        ((10 as real) * d, (11 as real) * c + 1 as real)
    } else {
        (0 as real, 1 as real)
    };
    assert(near(real_of(a), x, s, 5));
    if back {
        lemma_sum_parts(a, five);
        lemma_pair(from_whole(5), dt);
        lemma_near_more(real_of(five), (5 as real) * d, (6 as real) * c, 3, 5);
        lemma_sum_of_near(a, x, s, five, (5 as real) * d, (6 as real) * c, 5);
        lemma_times_sum(10 as real, 5 as real, d);
        lemma_near_wider(
            real_of(sum(a, five)),
            x + (5 as real) * d,
            s + (6 as real) * c,
            (20 as real) * c,
            7,
        );
        lemma_near_close(real_of(sum(a, five)), x + (5 as real) * d, (20 as real) * c, 7);
    } else {
        lemma_near_wider(real_of(a), x, s, (20 as real) * c, 5);
        lemma_near_close(real_of(a), x, (20 as real) * c, 5);
    }
}

/// Nothing stands for nothing.
pub proof fn lemma_real_zero()
    ensures
        real_of(zero()) == 0 as real,
        zero().is_finite(),
{
    lemma_zero();
    let v = zero().value() as real;
    assert(v == 0 as real);
    lemma_times_opposite(v, unit());
}

/// A torpedo leaves its ship in the direction of the cursor, which is its angle, for every angle:
/// by the replies for the cosine and the sine it stands 22 units off the ship, and flies with the
/// speed of its class on top of the ship's.  It belongs to the pilot and does the damage of the
/// class, and one torpedo fewer is left.
pub proof fn law_torpedoes_fly_to_the_cursor(w: World, id: PlayerId, eid: EntityId, t: Trace)
    requires
        player_of(w, id) is Some,
        entity_of(w, eid) is Some,
        launched(w, id, eid, t).1.len() > 0,
        ({
            let e = entity_of(launched(w, id, eid, t).0, w.next_entity_id)->0;
            e.x.is_finite() && e.y.is_finite() && e.vx.is_finite() && e.vy.is_finite()
        }),
    ensures
        ({
            let p = player_of(w, id)->0;
            let ship = entity_of(w, eid)->0;
            let stats = class_stats(p.ship_class);
            let found = entity_of(launched(w, id, eid, t).0, w.next_entity_id);
            let e = found->0;
            let (c, s) = (real_of(reply(t, 0)), real_of(reply(t, 1)));
            let speed = real_of(stats.primary_projectile_speed);
            &&& found is Some
            &&& asks_direction(t, 0, p.input.mouse_angle)
            &&& e.kind == EntityKind::Torpedo
            &&& e.owner == Some(id)
            &&& e.angle == p.input.mouse_angle
            &&& e.damage == stats.primary_damage
            &&& player_of(launched(w, id, eid, t).0, id) matches Some(q) && (p.torpedo_count > 0
                ==> q.torpedo_count == p.torpedo_count - 1)
            &&& close(
                real_of(e.x),
                real_of(ship.x) + (22 as real) * c,
                scale(real_of(ship.x)) + (23 as real) * scale(c),
            )
            &&& close(
                real_of(e.y),
                real_of(ship.y) + (22 as real) * s,
                scale(real_of(ship.y)) + (23 as real) * scale(s),
            )
            &&& close(
                real_of(e.vx),
                real_of(ship.vx) + speed * c,
                scale(real_of(ship.vx)) + scale(speed) * scale(c),
            )
            &&& close(
                real_of(e.vy),
                real_of(ship.vy) + speed * s,
                scale(real_of(ship.vy)) + scale(speed) * scale(s),
            )
        }),
{
    let p = player_of(w, id)->0;
    let ship = entity_of(w, eid)->0;
    let stats = class_stats(p.ship_class);
    let angle = p.input.mouse_angle;
    lemma_direction(t, angle);
    let (c, s) = (reply(t, 0), reply(t, 1));
    let e = torpedo_from(w.next_entity_id, id, ship, stats, angle, c, s);
    lemma_find(w.players, id);
    law_put_is_found(w.players, fired(p));
    law_put_is_found(with_player(w, fired(p)).entities, e);
    assert(entity_of(launched(w, id, eid, t).0, w.next_entity_id) == Some(e));
    law_wholes_are_wholes(22);
    lemma_plus_pair(ship.x, c, from_whole(22));
    lemma_plus_pair(ship.y, s, from_whole(22));
    lemma_plus_pair(ship.vx, c, stats.primary_projectile_speed);
    lemma_plus_pair(ship.vy, s, stats.primary_projectile_speed);
    let (x, y) = (real_of(c), real_of(s));
    let v = real_of(stats.primary_projectile_speed);
    lemma_times_swap(x, 22 as real, 1 as real);
    lemma_times_swap(y, 22 as real, 1 as real);
    lemma_times_swap(scale(x), 23 as real, 1 as real);
    lemma_times_swap(scale(y), 23 as real, 1 as real);
    lemma_times_swap(x, v, 1 as real);
    lemma_times_swap(y, v, 1 as real);
    lemma_times_swap(scale(x), scale(v), 1 as real);
    lemma_times_swap(scale(y), scale(v), 1 as real);
    lemma_near_close(
        real_of(e.x),
        real_of(ship.x) + (22 as real) * x,
        scale(real_of(ship.x)) + (23 as real) * scale(x),
        5,
    );
    lemma_near_close(
        real_of(e.y),
        real_of(ship.y) + (22 as real) * y,
        scale(real_of(ship.y)) + (23 as real) * scale(y),
        5,
    );
    lemma_near_close(
        real_of(e.vx),
        real_of(ship.vx) + v * x,
        scale(real_of(ship.vx)) + scale(v) * scale(x),
        5,
    );
    lemma_near_close(
        real_of(e.vy),
        real_of(ship.vy) + v * y,
        scale(real_of(ship.vy)) + scale(v) * scale(y),
        5,
    );
}

/// A number that lies in the world.
pub open spec fn is_in_the_world(a: Single) -> bool {
    a.is_finite() && 0 as real <= real_of(a) <= 10_000 as real
}

/// A direction: a vector whose length is one, up to one part in two to the power of 16.
pub open spec fn is_direction(x: real, y: real) -> bool {
    size(x * x + y * y - 1 as real) * (0x1_0000 as real) <= 1 as real
}

/// The parts of a direction are moderate.
pub proof fn lemma_direction_parts(x: real, y: real)
    requires
        is_direction(x, y),
    ensures
        size(x) <= 2 as real,
        size(y) <= 2 as real,
{
    lemma_times_opposite(x, x);
    lemma_times_opposite(y, y);
    lemma_bound_product(size(x), size(x), size(x), size(x));
    lemma_bound_product(size(y), size(y), size(y), size(y));
    if size(x) > 2 as real {
        lemma_bound_product(2 as real, size(x), 2 as real, size(x));
    }
    if size(y) > 2 as real {
        lemma_bound_product(2 as real, size(y), 2 as real, size(y));
    }
}

/// A difference of places times a part of a direction.
proof fn lemma_offset(a: Single, b: Single, d: Single)
    requires
        is_in_the_world(a),
        is_in_the_world(b),
        d.is_finite(),
        size(real_of(d)) <= 2 as real,
    ensures
        product(difference(a, b), d).is_finite(),
        near(
            real_of(product(difference(a, b), d)),
            (real_of(a) - real_of(b)) * real_of(d),
            60_006 as real,
            5,
        ),
        size(real_of(product(difference(a, b), d))) <= 60_010 as real,
{
    let (x, y, z) = (real_of(a), real_of(b), real_of(d));
    let c = difference(a, b);
    lemma_finite_difference(a, b, 10_000);
    lemma_near_self(x);
    lemma_near_self(y);
    lemma_near_self(z);
    lemma_difference_of_near(a, x, scale(x), b, y, scale(y), 0);
    lemma_near_wider(real_of(c), x - y, scale(x) + scale(y), 20_002 as real, 2);
    lemma_size_product(real_of(c), z);
    lemma_bound_product(size(real_of(c)), 20_000 as real, size(z), 2 as real);
    lemma_finite_product(c, d, 40_000);
    lemma_near_wider(z, z, scale(z), 3 as real, 0);
    lemma_product_of_near(c, x - y, 20_002 as real, 2, d, z, 3 as real, 0);
}

/// A beam measures how far a thing is along its direction, and how far aside, in every direction.
pub proof fn law_beams_measure_distances(ray: Ray, e: ServerEntity)
    requires
        is_in_the_world(e.x),
        is_in_the_world(e.y),
        is_in_the_world(ray.ox),
        is_in_the_world(ray.oy),
        ray.dx.is_finite(),
        ray.dy.is_finite(),
        is_direction(real_of(ray.dx), real_of(ray.dy)),
    ensures
        ({
            let (x, y) = (real_of(e.x) - real_of(ray.ox), real_of(e.y) - real_of(ray.oy));
            let (dx, dy) = (real_of(ray.dx), real_of(ray.dy));
            &&& along(ray, e).is_finite()
            &&& aside(ray, e).is_finite()
            &&& size(real_of(along(ray, e)) - (x * dx + y * dy)) <= 1 as real
            &&& size(real_of(aside(ray, e)) - size(x * dy - y * dx)) <= 1 as real
        }),
{
    let (x, y) = (real_of(e.x) - real_of(ray.ox), real_of(e.y) - real_of(ray.oy));
    let (dx, dy) = (real_of(ray.dx), real_of(ray.dy));
    lemma_direction_parts(dx, dy);
    lemma_offset(e.x, ray.ox, ray.dx);
    lemma_offset(e.y, ray.oy, ray.dy);
    lemma_offset(e.x, ray.ox, ray.dy);
    lemma_offset(e.y, ray.oy, ray.dx);
    let a = product(difference(e.x, ray.ox), ray.dx);
    let b = product(difference(e.y, ray.oy), ray.dy);
    let c = product(difference(e.x, ray.ox), ray.dy);
    let d = product(difference(e.y, ray.oy), ray.dx);
    let w = 60_006 as real;
    lemma_finite_sum(a, b, 130_000);
    lemma_sum_of_near(a, x * dx, w, b, y * dy, w, 5);
    lemma_near_close(real_of(sum(a, b)), x * dx + y * dy, w + w, 7);
    lemma_finite_difference(c, d, 130_000);
    lemma_difference_of_near(c, x * dy, w, d, y * dx, w, 5);
    lemma_near_close(real_of(difference(c, d)), x * dy - y * dx, w + w, 7);
    law_absolute_values_are_sizes(difference(c, d));
}

/// Whether a thing lies within one unit of the place at some distance on a beam.
pub open spec fn lies_ahead(ray: Ray, e: ServerEntity, d: real) -> bool {
    &&& size(real_of(e.x) - (real_of(ray.ox) + d * real_of(ray.dx))) <= 1 as real
    &&& size(real_of(e.y) - (real_of(ray.oy) + d * real_of(ray.dy))) <= 1 as real
}

/// A thing straight ahead is that far along, and not aside.
proof fn lemma_ahead(ray: Ray, e: ServerEntity, d: real)
    requires
        is_in_the_world(e.x),
        is_in_the_world(e.y),
        is_in_the_world(ray.ox),
        is_in_the_world(ray.oy),
        ray.dx.is_finite(),
        ray.dy.is_finite(),
        is_direction(real_of(ray.dx), real_of(ray.dy)),
        lies_ahead(ray, e, d),
        0 as real <= d <= 1000 as real,
    ensures
        along(ray, e).is_finite(),
        aside(ray, e).is_finite(),
        size(real_of(along(ray, e)) - d) <= 6 as real,
        real_of(aside(ray, e)) <= 6 as real,
{
    law_beams_measure_distances(ray, e);
    let (x, y) = (real_of(e.x) - real_of(ray.ox), real_of(e.y) - real_of(ray.oy));
    let (dx, dy) = (real_of(ray.dx), real_of(ray.dy));
    lemma_direction_parts(dx, dy);
    let (u, v) = (x - d * dx, y - d * dy);
    // The parts that are off the beam.
    lemma_size_product(u, dx);
    lemma_size_product(v, dy);
    lemma_size_product(u, dy);
    lemma_size_product(v, dx);
    lemma_bound_product(size(u), 1 as real, size(dx), 2 as real);
    lemma_bound_product(size(v), 1 as real, size(dy), 2 as real);
    lemma_bound_product(size(u), 1 as real, size(dy), 2 as real);
    lemma_bound_product(size(v), 1 as real, size(dx), 2 as real);
    lemma_times_sum(d * dx, u, dx);
    lemma_times_sum(d * dy, v, dy);
    lemma_times_sum(d * dx, u, dy);
    lemma_times_sum(d * dy, v, dx);
    assert(x == d * dx + u && y == d * dy + v);
    lemma_times_swap(d, dx, dx);
    lemma_times_swap(d, dy, dy);
    lemma_times_swap(d, dx, dy);
    lemma_times_swap(d, dy, dx);
    lemma_times_swap(dx, dy, 1 as real);
    lemma_times_sum(dx * dx, dy * dy, d);
    let l = dx * dx + dy * dy;
    assert(x * dx + y * dy == d * l + u * dx + v * dy);
    assert(x * dy - y * dx == u * dy - v * dx);
    let o = l - 1 as real;
    lemma_times_sum(1 as real, o, d);
    lemma_times_one(d, 1 as real);
    assert(d * l == d + d * o);
    lemma_size_product(d, o);
    lemma_bound_product(size(d), 1000 as real, size(o), (1 as real) / (0x1_0000 as real));
}

/// A beam hits an enemy ship that is straight ahead within its range, in every direction, unless
/// something that it meets is nearer: it ends there, and the ship is what it hits.
pub proof fn law_beams_hit_what_is_straight_ahead(
    es: Seq<ServerEntity>,
    ray: Ray,
    i: int,
    owner: PlayerId,
    d: real,
)
    requires
        0 <= i < es.len(),
        es[i].kind == EntityKind::Ship,
        es[i].owner == Some(owner),
        owner != ray.shooter,
        is_in_the_world(es[i].x),
        is_in_the_world(es[i].y),
        is_in_the_world(ray.ox),
        is_in_the_world(ray.oy),
        ray.dx.is_finite(),
        ray.dy.is_finite(),
        is_direction(real_of(ray.dx), real_of(ray.dy)),
        ray.range.is_finite(),
        real_of(ray.range) <= 1000 as real,
        lies_ahead(ray, es[i], d),
        10 as real <= d <= real_of(ray.range) - 10 as real,
    ensures
        beam_end(es, ray).0.is_finite(),
        real_of(beam_end(es, ray).0) <= d + 6 as real,
        beam_end(es, ray).1 is Some,
        (forall|j: int, rocks: bool|
            0 <= j < es.len() && j != i ==> (#[trigger] target(
                es[j],
                ray.shooter,
                rocks,
            ) matches Some(x) ==> meets(ray, es[j], x.1) ==> lt(
                along(ray, es[i]),
                along(ray, es[j]),
            ))) ==> {
            &&& beam_end(es, ray).1 == Some(PhaserHit::Ship(owner))
            &&& size(real_of(beam_end(es, ray).0) - d) <= 6 as real
        },
{
    let e = es[i];
    lemma_ahead(ray, e, d);
    law_wholes_are_wholes(16);
    lemma_real_zero();
    law_order_is_order_of_reals(along(ray, e), zero());
    law_order_is_order_of_reals(ray.range, along(ray, e));
    law_order_is_order_of_reals(along(ray, e), ray.range);
    law_order_is_order_of_reals(aside(ray, e), from_whole(16));
    assert(target(e, ray.shooter, false) == Some((PhaserHit::Ship(owner), from_whole(16))));
    assert(target(e, ray.shooter, true) is None);
    assert(meets(ray, e, from_whole(16)));
    let start = (ray.range, None);
    let near_ships = nearest(es, ray, false, start);
    lemma_nearest(es, ray, false, start);
    lemma_nearest(es, ray, true, near_ships);
    let end = beam_end(es, ray);
    assert(!lt(along(ray, e), near_ships.0));
    assert(near_ships != start);
    assert(le(end.0, near_ships.0));
    // Where it ends.
    let k = choose|k: int|
        0 <= k < es.len() && (target(#[trigger] es[k], ray.shooter, false) matches Some(x) && meets(
            ray,
            es[k],
            x.1,
        ) && near_ships == (along(ray, es[k]), Some(x.0)));
    assert(le(near_ships.0, along(ray, e)));
    assert(!le(near_ships.0, zero()));
    lemma_finite_between(zero(), near_ships.0, along(ray, e));
    if end != near_ships {
        let l = choose|l: int|
            0 <= l < es.len() && (target(#[trigger] es[l], ray.shooter, true) matches Some(x)
                && meets(ray, es[l], x.1) && end == (along(ray, es[l]), Some(x.0)));
        assert(!le(end.0, zero()));
        lemma_finite_between(zero(), end.0, near_ships.0);
    }
    law_order_is_order_of_reals(end.0, along(ray, e));
}

/// A beam hits an asteroid that is straight ahead within its range, in every direction, unless
/// something that it meets is nearer: it ends there, and the asteroid is what it hits.
pub proof fn law_beams_hit_asteroids_straight_ahead(
    es: Seq<ServerEntity>,
    ray: Ray,
    i: int,
    d: real,
)
    requires
        0 <= i < es.len(),
        is_rock(es[i]),
        radius_of(es[i]).is_finite(),
        real_of(radius_of(es[i])) >= 7 as real,
        is_in_the_world(es[i].x),
        is_in_the_world(es[i].y),
        is_in_the_world(ray.ox),
        is_in_the_world(ray.oy),
        ray.dx.is_finite(),
        ray.dy.is_finite(),
        is_direction(real_of(ray.dx), real_of(ray.dy)),
        ray.range.is_finite(),
        real_of(ray.range) <= 1000 as real,
        lies_ahead(ray, es[i], d),
        10 as real <= d <= real_of(ray.range) - 10 as real,
    ensures
        beam_end(es, ray).0.is_finite(),
        real_of(beam_end(es, ray).0) <= d + 6 as real,
        beam_end(es, ray).1 is Some,
        (forall|j: int, rocks: bool|
            0 <= j < es.len() && j != i ==> (#[trigger] target(
                es[j],
                ray.shooter,
                rocks,
            ) matches Some(x) ==> meets(ray, es[j], x.1) ==> lt(
                along(ray, es[i]),
                along(ray, es[j]),
            ))) ==> {
            &&& beam_end(es, ray).1 == Some(PhaserHit::Asteroid(es[i].id))
            &&& size(real_of(beam_end(es, ray).0) - d) <= 6 as real
        },
{
    let e = es[i];
    let width = radius_of(e);
    lemma_ahead(ray, e, d);
    lemma_real_zero();
    law_order_is_order_of_reals(along(ray, e), zero());
    law_order_is_order_of_reals(ray.range, along(ray, e));
    law_order_is_order_of_reals(along(ray, e), ray.range);
    law_order_is_order_of_reals(aside(ray, e), width);
    assert(target(e, ray.shooter, true) == Some((PhaserHit::Asteroid(e.id), width)));
    assert(target(e, ray.shooter, false) is None);
    assert(meets(ray, e, width));
    let start = (ray.range, None);
    let near_ships = nearest(es, ray, false, start);
    lemma_nearest(es, ray, false, start);
    lemma_nearest(es, ray, true, near_ships);
    let end = beam_end(es, ray);
    assert(!lt(along(ray, e), end.0));
    if near_ships != start {
        let k = choose|k: int|
            0 <= k < es.len() && (target(#[trigger] es[k], ray.shooter, false) matches Some(x)
                && meets(ray, es[k], x.1) && near_ships == (along(ray, es[k]), Some(x.0)));
        assert(!le(near_ships.0, zero()));
        assert(le(near_ships.0, ray.range));
        lemma_finite_between(zero(), near_ships.0, ray.range);
        law_order_is_order_of_reals(along(ray, e), near_ships.0);
    }
    if end != near_ships {
        let l = choose|l: int|
            0 <= l < es.len() && (target(#[trigger] es[l], ray.shooter, true) matches Some(x)
                && meets(ray, es[l], x.1) && end == (along(ray, es[l]), Some(x.0)));
        assert(!le(end.0, zero()));
        lemma_finite_between(zero(), end.0, near_ships.0);
    }
    law_order_is_order_of_reals(end.0, along(ray, e));
    law_order_is_order_of_reals(along(ray, e), end.0);
}

/// A beam meets nothing that is behind it, beyond its range, or farther aside than the width that
/// counts.
pub proof fn law_beams_miss_what_is_not_ahead(ray: Ray, e: ServerEntity, width: Single)
    requires
        is_in_the_world(e.x),
        is_in_the_world(e.y),
        is_in_the_world(ray.ox),
        is_in_the_world(ray.oy),
        ray.dx.is_finite(),
        ray.dy.is_finite(),
        is_direction(real_of(ray.dx), real_of(ray.dy)),
        ray.range.is_finite(),
        width.is_finite(),
        ({
            let (x, y) = (real_of(e.x) - real_of(ray.ox), real_of(e.y) - real_of(ray.oy));
            let (dx, dy) = (real_of(ray.dx), real_of(ray.dy));
            ||| x * dx + y * dy < -1 as real
            ||| x * dx + y * dy > real_of(ray.range) + 1 as real
            ||| size(x * dy - y * dx) > real_of(width) + 1 as real
        }),
    ensures
        !meets(ray, e, width),
{
    law_beams_measure_distances(ray, e);
    lemma_real_zero();
    law_order_is_order_of_reals(along(ray, e), zero());
    law_order_is_order_of_reals(ray.range, along(ray, e));
    law_order_is_order_of_reals(aside(ray, e), width);
}

/// What is not nothing or less, and at most a finite number, is finite.
proof fn lemma_finite_between(a: Single, b: Single, c: Single)
    requires
        a.is_finite(),
        c.is_finite(),
        !le(b, a),
        le(b, c),
    ensures
        b.is_finite(),
{
}

} // verus!
