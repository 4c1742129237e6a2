//! What ships aim at, and what flies off where, in real numbers, up to rounding.
use vstd::prelude::*;

use crate::collisions::gap_squared;
use crate::contact::{are_around, distance_squared, lemma_gap};
use crate::damage::{asteroid_damaged, more, scored, smalls_spawned, struck};
use crate::exact::{
    dust, law_differences_are_differences, law_fractions_are_fractions, law_order_is_order_of_reals,
    law_products_are_products, law_roots_are_roots, law_sums_are_sums, law_wholes_are_wholes,
    lemma_bound_product, lemma_finite_difference, lemma_finite_product, lemma_finite_root,
    lemma_size_product, lemma_sum_parts, lemma_times_sum, lemma_times_swap, lemma_unit, real_of,
    size,
};
use crate::game::{class_stats, EntityId, EntityKind, PlayerId, ShipClass};
use crate::gauges::least;
use crate::oracle::{answers, past, past_count, told, told_count, Ask, Event, Trace};
use crate::order::{law_small_wholes_are_exact, lemma_small_wholes_order, lemma_zero};
use crate::physics::{
    asks_direction, is_direction, is_in_the_world, law_beams_hit_what_is_straight_ahead,
    lemma_direction, lemma_real_zero, lies_ahead, reply,
};
use crate::pilot::{
    aimed, beam_at, beam_dropped, beam_shown, burnt, fired, launched, locked_place, torpedo_from,
};
use crate::ray::{along, beam_end, cast, meets, target, Ray};
use crate::single::{
    difference, from_fraction, from_whole, le, lt, product, root, same, sum, zero, Single,
};
use crate::table::{
    distinct, law_put_is_found, law_put_leaves_the_others, law_without_keeps_distinct,
    law_without_leaves_the_others, lemma_find,
};
use crate::world::{
    advanced, any_angle, any_place, asteroid_at, big_radius, big_spawned, debris_at, drifter,
    drifter_asks, entity_of, exploded, piece_spawned, player_of, small_radius, small_spawned,
    with_entity, with_player, without_entity, PhaserHit, ServerEntity, ServerPlayer, World,
};

verus! {

/// The ranges of all beams are between 200 and 280.
proof fn lemma_ranges(class: ShipClass)
    ensures
        class_stats(class).phaser_range.is_finite(),
        200 as real <= real_of(class_stats(class).phaser_range) <= 280 as real,
{
    law_wholes_are_wholes(200);
    law_wholes_are_wholes(250);
    law_wholes_are_wholes(280);
    law_wholes_are_wholes(260);
    law_wholes_are_wholes(240);
}

/// A torpedo flies six fifths of the range of its ship's beam.
pub proof fn law_torpedoes_outrange_beams(w: World, id: PlayerId, eid: EntityId, t: Trace)
    requires
        player_of(w, id) is Some,
        entity_of(w, eid) is Some,
    ensures
        ({
            let range = real_of(class_stats((player_of(w, id)->0).ship_class).phaser_range);
            entity_of(launched(w, id, eid, t).0, w.next_entity_id) matches Some(e) && (
            e.travel_remaining matches Some(left) && left.is_finite() && size(
                real_of(left) * (5 as real) - range * (6 as real),
            ) * (100 as real) <= 1 as real)
        }),
{
    let p = player_of(w, id)->0;
    let ship = entity_of(w, eid)->0;
    let stats = class_stats(p.ship_class);
    let angle = p.input.mouse_angle;
    let c = told(t, 0, Ask::Cos(angle));
    let s = told(t, 1, Ask::Sin(angle));
    let e = torpedo_from(w.next_entity_id, id, ship, stats, angle, c, s);
    law_put_is_found(with_player(w, fired(p)).entities, e);
    lemma_unit();
    lemma_ranges(p.ship_class);
    law_wholes_are_wholes(2);
    law_fractions_are_fractions(3, 5);
    let most = from_fraction(3, 5);
    let q = real_of(most);
    assert(size(q * (5 as real) - 3 as real) * (0x100_0000 as real) <= (3 as real) + dust() * (
    5 as real));
    let r = real_of(stats.phaser_range);
    lemma_finite_product(from_whole(2), stats.phaser_range, 600);
    law_products_are_products(from_whole(2), stats.phaser_range);
    let twice = product(from_whole(2), stats.phaser_range);
    let v = real_of(twice);
    lemma_bound_product(v, 600 as real, q, 1 as real);
    lemma_finite_product(twice, most, 600);
    law_products_are_products(twice, most);
    let off = q * (5 as real) - 3 as real;
    lemma_times_sum(q * (5 as real), 3 as real, v);
    lemma_times_swap(v, q, 5 as real);
    lemma_size_product(v, off);
    lemma_bound_product(v, 600 as real, size(off) * (0x10_0000 as real), 1 as real);
    lemma_times_swap(v, size(off), 0x10_0000 as real);
    assert(v * off == v * (q * (5 as real)) - v * (3 as real));
    assert(size(v * off) * (0x10_0000 as real) <= 600 as real);
}

/// What is left over after questions shows that they were asked, in their order.
proof fn lemma_asked(t: Trace, qs: Seq<Ask>)
    requires
        past(t, qs).len() > 0,
    ensures
        qs.len() <= t.len(),
        forall|i: int|
            0 <= i < qs.len() ==> #[trigger] t[i] == Event::Number(qs[i], reply(t, i)) && told(
                t,
                i,
                qs[i],
            ) == reply(t, i),
{
    assert(answers(t, qs));
}

/// Whether a number is a product of two others, up to rounding.
pub open spec fn is_product(a: Single, x: real, y: real) -> bool {
    size(real_of(a) - x * y) * (1000 as real) <= size(x * y) + 1 as real
}

/// A rounded product.
proof fn lemma_is_product(a: Single, b: Single)
    requires
        product(a, b).is_finite(),
    ensures
        is_product(product(a, b), real_of(a), real_of(b)),
        is_product(product(a, b), real_of(b), real_of(a)),
{
    lemma_unit();
    law_products_are_products(a, b);
    lemma_times_swap(real_of(a), real_of(b), 1 as real);
}

/// A small asteroid flies off from the place in the direction that is drawn for it, at the speed
/// that is drawn for it.
pub proof fn law_small_asteroids_fly_off(w: World, x: Single, y: Single, t: Trace)
    requires
        small_spawned(w, x, y, t).1.len() > 0,
    ensures
        ({
            let found = entity_of(small_spawned(w, x, y, t).0, w.next_entity_id);
            let e = found->0;
            let speed = real_of(reply(t, 1));
            &&& found is Some && e.kind == EntityKind::Asteroid && e.x == x && e.y == y
            &&& e.asteroid_radius == Some(small_radius())
            &&& t[1] == Event::Number(Ask::Uniform(from_whole(30), from_whole(80)), reply(t, 1))
            &&& asks_direction(t, 2, reply(t, 0))
            &&& e.vx.is_finite() ==> is_product(e.vx, speed, real_of(reply(t, 2)))
            &&& e.vy.is_finite() ==> is_product(e.vy, speed, real_of(reply(t, 3)))
        }),
{
    let drift = told(t, 0, any_angle());
    let push = Ask::Uniform(from_whole(30), from_whole(80));
    let qs = seq![any_angle(), push, Ask::Cos(drift), Ask::Sin(drift), any_angle()];
    lemma_asked(t, qs);
    assert(qs[0] == any_angle() && qs[1] == push && qs[2] == Ask::Cos(drift) && qs[3] == Ask::Sin(
        drift,
    ));
    assert(t[0] == Event::Number(qs[0], reply(t, 0)) && t[1] == Event::Number(qs[1], reply(t, 1)));
    assert(t[2] == Event::Number(qs[2], reply(t, 2)) && t[3] == Event::Number(qs[3], reply(t, 3)));
    assert(t[4] == Event::Number(qs[4], reply(t, 4)));
    let (c, s, v) = (reply(t, 2), reply(t, 3), reply(t, 1));
    let e = asteroid_at(
        w.next_entity_id,
        false,
        x,
        y,
        product(c, v),
        product(s, v),
        told(t, 4, any_angle()),
    );
    law_put_is_found(advanced(w).entities, e);
    assert(entity_of(small_spawned(w, x, y, t).0, w.next_entity_id) == Some(e));
    if e.vx.is_finite() {
        lemma_is_product(c, v);
    }
    if e.vy.is_finite() {
        lemma_is_product(s, v);
    }
}

/// A big asteroid appears at the place that is drawn for it, and drifts in the direction and at the
/// speed that are drawn for it.
pub proof fn law_big_asteroids_drift_off(w: World, t: Trace)
    requires
        big_spawned(w, t).1.len() > 0,
    ensures
        ({
            let found = entity_of(big_spawned(w, t).0, w.next_entity_id);
            let e = found->0;
            let speed = real_of(reply(t, 1));
            &&& found is Some && e.kind == EntityKind::Asteroid
            &&& e.x == reply(t, 2) && e.y == reply(t, 3)
            &&& e.asteroid_radius == Some(big_radius())
            &&& t[1] == Event::Number(Ask::Uniform(from_whole(10), from_whole(40)), reply(t, 1))
            &&& asks_direction(t, 4, reply(t, 0))
            &&& e.vx.is_finite() ==> is_product(e.vx, speed, real_of(reply(t, 4)))
            &&& e.vy.is_finite() ==> is_product(e.vy, speed, real_of(reply(t, 5)))
        }),
{
    let qs = drifter_asks(t);
    lemma_asked(t, qs);
    let drift = told(t, 0, any_angle());
    assert(qs[0] == any_angle() && qs[2] == any_place() && qs[3] == any_place() && qs[4]
        == Ask::Cos(drift) && qs[5] == Ask::Sin(drift) && qs[6] == any_angle());
    assert(t[0] == Event::Number(qs[0], reply(t, 0)) && t[1] == Event::Number(qs[1], reply(t, 1)));
    assert(t[2] == Event::Number(qs[2], reply(t, 2)) && t[3] == Event::Number(qs[3], reply(t, 3)));
    assert(t[4] == Event::Number(qs[4], reply(t, 4)) && t[5] == Event::Number(qs[5], reply(t, 5)));
    let e = drifter(w.next_entity_id, t);
    law_put_is_found(advanced(w).entities, e);
    assert(entity_of(big_spawned(w, t).0, w.next_entity_id) == Some(e));
    if e.vx.is_finite() {
        lemma_is_product(reply(t, 4), reply(t, 1));
    }
    if e.vy.is_finite() {
        lemma_is_product(reply(t, 5), reply(t, 1));
    }
}

/// Wreckage starts where its ship was and keeps the ship's velocity, with a push on top in the
/// direction that is drawn for it.
pub proof fn law_wreckage_flies_on(
    w: World,
    x: Single,
    y: Single,
    vx: Single,
    vy: Single,
    t: Trace,
)
    requires
        piece_spawned(w, x, y, vx, vy, t).1.len() > 0,
        size(real_of(vx)) <= 1000 as real,
        size(real_of(vy)) <= 1000 as real,
    ensures
        ({
            let found = entity_of(piece_spawned(w, x, y, vx, vy, t).0, w.next_entity_id);
            let e = found->0;
            let speed = real_of(reply(t, 1));
            let (c, s) = (real_of(reply(t, 3)), real_of(reply(t, 4)));
            &&& found is Some && e.kind == EntityKind::Debris && e.x == x && e.y == y
            &&& t[1] == Event::Number(Ask::Uniform(from_whole(30), from_whole(120)), reply(t, 1))
            &&& asks_direction(t, 3, reply(t, 0))
            &&& e.vx.is_finite() ==> size(real_of(e.vx) - (real_of(vx) + speed * c)) * (100 as real)
                <= size(speed * c) + 1 as real
            &&& e.vy.is_finite() ==> size(real_of(e.vy) - (real_of(vy) + speed * s)) * (100 as real)
                <= size(speed * s) + 1 as real
        }),
{
    let push = Ask::Uniform(from_whole(30), from_whole(120));
    let turn = Ask::Uniform(from_whole(-3), from_whole(3));
    let spread = told(t, 0, any_angle());
    let qs = seq![any_angle(), push, turn, Ask::Cos(spread), Ask::Sin(spread), any_angle()];
    lemma_asked(t, qs);
    assert(qs[0] == any_angle() && qs[1] == push && qs[2] == turn && qs[3] == Ask::Cos(spread)
        && qs[4] == Ask::Sin(spread));
    assert(t[0] == Event::Number(qs[0], reply(t, 0)) && t[1] == Event::Number(qs[1], reply(t, 1)));
    assert(t[2] == Event::Number(qs[2], reply(t, 2)) && t[3] == Event::Number(qs[3], reply(t, 3)));
    assert(t[4] == Event::Number(qs[4], reply(t, 4)));
    let (c, s, v) = (reply(t, 3), reply(t, 4), reply(t, 1));
    let e = debris_at(
        w.next_entity_id,
        x,
        y,
        sum(vx, product(c, v)),
        sum(vy, product(s, v)),
        told(t, 5, any_angle()),
        told(t, 2, turn),
    );
    law_put_is_found(advanced(w).entities, e);
    assert(entity_of(piece_spawned(w, x, y, vx, vy, t).0, w.next_entity_id) == Some(e));
    if e.vx.is_finite() {
        lemma_pushed(vx, c, v);
    }
    if e.vy.is_finite() {
        lemma_pushed(vy, s, v);
    }
}

/// A velocity with a push on top.
proof fn lemma_pushed(u: Single, c: Single, v: Single)
    requires
        sum(u, product(c, v)).is_finite(),
        size(real_of(u)) <= 1000 as real,
    ensures
        size(
            real_of(sum(u, product(c, v))) - (real_of(u) + real_of(v) * real_of(c)),
        ) * (100 as real) <= size(real_of(v) * real_of(c)) + 1 as real,
{
    lemma_unit();
    lemma_sum_parts(u, product(c, v));
    law_sums_are_sums(u, product(c, v));
    law_products_are_products(c, v);
    lemma_times_swap(real_of(c), real_of(v), 1 as real);
}

/// A beam that holds a target is aimed from the ship at it, by the arc tangent of the offset from
/// the ship to the target, and reaches as far as the target or its range, whichever is less.  A
/// beam that holds none goes to the cursor, as far as that or its range.
pub proof fn law_beams_aim_at_what_they_hold(
    w: World,
    p: ServerPlayer,
    e: ServerEntity,
    o: ServerEntity,
    t: Trace,
)
    requires
        locked_place(w, p) matches Some(at) ==> at == (o.x, o.y) && are_around(o, e) && aimed(
            w,
            p,
            e.x,
            e.y,
            t,
        ).2.len() > 0,
        p.input.mouse_distance.is_finite(),
    ensures
        ({
            let (dir, reach, _) = aimed(w, p, e.x, e.y, t);
            let range = real_of(class_stats(p.ship_class).phaser_range);
            let far = distance_squared(o, e);
            &&& reach.is_finite() && real_of(reach) <= range
            &&& locked_place(w, p) is None ==> dir == p.input.mouse_angle && real_of(reach)
                == least(real_of(p.input.mouse_distance), range)
            &&& locked_place(w, p) is Some ==> {
                &&& t[0] matches Event::Number(Ask::Atan2(dy, dx), a) && a == dir && size(
                    real_of(dx) - (real_of(o.x) - real_of(e.x)),
                ) * (1000 as real) <= 1 as real && size(
                    real_of(dy) - (real_of(o.y) - real_of(e.y)),
                ) * (1000 as real) <= 1 as real
                &&& far * (1000 as real) < (range * range) * (999 as real) ==> size(
                    real_of(reach) * real_of(reach) - far,
                ) * (1000 as real) <= far + 1 as real
                &&& far * (1000 as real) > (range * range) * (1001 as real) ==> real_of(reach)
                    == range
            }
        }),
{
    let stats = class_stats(p.ship_class);
    lemma_ranges(p.ship_class);
    lemma_unit();
    let range = stats.phaser_range;
    let r = real_of(range);
    if locked_place(w, p) is Some {
        let (dx, dy) = (difference(o.x, e.x), difference(o.y, e.y));
        lemma_finite_difference(o.x, e.x, 2000);
        lemma_finite_difference(o.y, e.y, 2000);
        law_differences_are_differences(o.x, e.x);
        law_differences_are_differences(o.y, e.y);
        let qs = seq![Ask::Atan2(dy, dx)];
        lemma_asked(t, qs);
        assert(t[0] == Event::Number(qs[0], reply(t, 0)));
        lemma_gap(o, e);
        let gap = gap_squared(o, e);
        lemma_finite_root(gap, 10_000_000);
        law_roots_are_roots(gap);
        let dist = root(gap);
        let d = real_of(dist);
        law_order_is_order_of_reals(range, dist);
        let far = distance_squared(o, e);
        lemma_bound_product(200 as real, r, 200 as real, r);
        let reach = aimed(w, p, e.x, e.y, t).1;
        if d < r {
            lemma_bound_product(d, r, d, r);
            assert(reach == dist);
        } else {
            lemma_bound_product(r, d, r, d);
            assert(real_of(reach) == r);
        }
    } else {
        law_order_is_order_of_reals(range, p.input.mouse_distance);
    }
}

/// A phaser that is cast at an enemy ship straight ahead within its range hits it with the damage
/// of the shooter's class, in every direction that the replies for the cosine and the sine of the
/// angle give, unless something that the beam meets is nearer.
pub proof fn law_phasers_hit_what_is_straight_ahead(
    w: World,
    ox: Single,
    oy: Single,
    angle: Single,
    range: Single,
    shooter: PlayerId,
    t: Trace,
    i: int,
    owner: PlayerId,
    d: real,
)
    requires
        cast(w, ox, oy, angle, range, shooter, t).2.len() > 0,
        player_of(w, shooter) is Some,
        0 <= i < w.entities.len(),
        w.entities[i].kind == EntityKind::Ship,
        w.entities[i].owner == Some(owner),
        owner != shooter,
        is_in_the_world(w.entities[i].x),
        is_in_the_world(w.entities[i].y),
        is_in_the_world(ox),
        is_in_the_world(oy),
        reply(t, 0).is_finite(),
        reply(t, 1).is_finite(),
        is_direction(real_of(reply(t, 0)), real_of(reply(t, 1))),
        range.is_finite(),
        real_of(range) <= 1000 as real,
        ({
            let ray = Ray { ox, oy, dx: reply(t, 0), dy: reply(t, 1), range, shooter };
            &&& lies_ahead(ray, w.entities[i], d)
            &&& forall|j: int, rocks: bool|
                0 <= j < w.entities.len() && j != i ==> (#[trigger] target(
                    w.entities[j],
                    shooter,
                    rocks,
                ) matches Some(x) ==> meets(ray, w.entities[j], x.1) ==> lt(
                    along(ray, w.entities[i]),
                    along(ray, w.entities[j]),
                ))
        }),
        10 as real <= d <= real_of(range) - 10 as real,
    ensures
        asks_direction(t, 0, angle),
        cast(w, ox, oy, angle, range, shooter, t).1 == Some(
            (
                PhaserHit::Ship(owner),
                class_stats((player_of(w, shooter)->0).ship_class).phaser_damage,
            ),
        ),
        size(real_of(cast(w, ox, oy, angle, range, shooter, t).0) - d) <= 6 as real,
{
    lemma_direction(t, angle);
    let ray = Ray { ox, oy, dx: reply(t, 0), dy: reply(t, 1), range, shooter };
    law_beams_hit_what_is_straight_ahead(w.entities, ray, i, owner, d);
    assert(beam_end(w.entities, ray).1 == Some(PhaserHit::Ship(owner)));
}

/// Points go to whoever earned them, and to nobody else; kills and deaths stay as they are.
pub proof fn law_points_go_to_the_scorer(w: World, id: PlayerId, points: u32, other: PlayerId)
    requires
        player_of(w, id) is Some,
        other != id,
    ensures
        ({
            let p = player_of(w, id)->0;
            let r = scored(w, Some(id), points);
            &&& player_of(r, id) matches Some(q) && q.score == more(p.score, points) && q.kills
                == p.kills && q.deaths == p.deaths && q.id == p.id
            &&& p.score + points <= u32::MAX ==> player_of(r, id)->0.score == p.score + points
            &&& player_of(r, other) == player_of(w, other)
            &&& r.entities == w.entities
        }),
{
    let p = player_of(w, id)->0;
    lemma_find(w.players, id);
    let q = ServerPlayer { score: more(p.score, points), ..p };
    law_put_is_found(w.players, q);
    law_put_leaves_the_others(w.players, q, other);
}

/// Small asteroids come without changing any player.
proof fn lemma_smalls_leave_players(w: World, n: nat, x: Single, y: Single, t: Trace)
    ensures
        smalls_spawned(w, n, x, y, t).0.players == w.players,
    decreases n,
{
    if n > 0 {
        lemma_smalls_leave_players(w, (n - 1) as nat, x, y, t);
    }
}

/// An asteroid loses the damage that it takes.  A big one breaks when less than 250 is left, for
/// three points; any other is gone when nothing is left, for one point; and where it holds, there
/// are no points.
pub proof fn law_asteroids_wear_down(
    w: World,
    id: EntityId,
    dmg: Single,
    scorer: PlayerId,
    t: Trace,
)
    requires
        entity_of(w, id) is Some,
        (entity_of(w, id)->0).health is Some,
        player_of(w, scorer) is Some,
        ({
            let h = (entity_of(w, id)->0).health->0;
            &&& h.is_finite() && size(real_of(h)) <= 1000 as real
        }),
        dmg.is_finite(),
        size(real_of(dmg)) <= 1000 as real,
    ensures
        ({
            let e = entity_of(w, id)->0;
            let left = real_of(e.health->0) - real_of(dmg);
            let (r, t1) = asteroid_damaged(w, id, dmg, Some(scorer), t);
            let (p, q) = (player_of(w, scorer)->0, player_of(r, scorer)->0);
            let big = e.asteroid_radius == Some(big_radius());
            let small = e.asteroid_radius == Some(small_radius());
            &&& player_of(r, scorer) is Some && q.kills == p.kills && q.deaths == p.deaths
            &&& big && left < 249 as real ==> q.score == more(p.score, 3)
            &&& big && left > 251 as real ==> q == p && (entity_of(r, id) matches Some(f) && (
            f.health matches Some(h) && size(real_of(h) - left) * (100 as real) <= 1 as real))
            &&& small && left * (100 as real) < -1 as real ==> q.score == more(p.score, 1)
            &&& small && left * (100 as real) > 1 as real ==> q == p && (entity_of(
                r,
                id,
            ) matches Some(f) && (f.health matches Some(h) && size(real_of(h) - left) * (
            100 as real) <= 1 as real))
        }),
{
    let e = entity_of(w, id)->0;
    let h = e.health->0;
    lemma_find(w.entities, id);
    lemma_find(w.players, scorer);
    law_wholes_are_wholes(250);
    law_wholes_are_wholes(30);
    law_wholes_are_wholes(60);
    lemma_finite_difference(h, dmg, 2000);
    law_differences_are_differences(h, dmg);
    let left = difference(h, dmg);
    law_order_is_order_of_reals(left, from_whole(250));
    lemma_zero();
    lemma_real_zero();
    law_order_is_order_of_reals(left, zero());
    let hit = ServerEntity { health: Some(left), ..e };
    law_put_is_found(w.entities, hit);
    law_order_is_order_of_reals(small_radius(), big_radius());
    lemma_radii_differ();
    let w1 = with_entity(w, hit);
    let p = player_of(w, scorer)->0;
    law_put_is_found(w.players, ServerPlayer { score: more(p.score, 3), ..p });
    law_put_is_found(w.players, ServerPlayer { score: more(p.score, 1), ..p });
    let n = told_count(t, 0, 1, 4);
    lemma_smalls_leave_players(
        exploded(without_entity(w1, e.id), e.x, e.y),
        n as nat,
        e.x,
        e.y,
        past_count(t, 1, 4),
    );
}

/// Big asteroids and small ones are told apart by their radius.
proof fn lemma_radii_differ()
    ensures
        same(big_radius(), big_radius()),
        !same(small_radius(), big_radius()),
{
    law_small_wholes_are_exact(30);
    law_small_wholes_are_exact(60);
    lemma_small_wholes_order(30, 60);
}

/// A beam is shown from the ship, along its direction and as long as it reaches, under the player's
/// name: a new one for a player who had none, and otherwise the one that was there.
pub proof fn law_beams_are_shown_from_the_ship(
    w: World,
    p: ServerPlayer,
    x: Single,
    y: Single,
    angle: Single,
    length: Single,
)
    requires
        p.phaser_beam_entity matches Some(id) ==> entity_of(w, id) is Some,
    ensures
        ({
            let (r, q) = beam_shown(w, p, x, y, angle, length);
            let id = match p.phaser_beam_entity {
                Some(id) => id,
                None => w.next_entity_id,
            };
            &&& q.phaser_beam_entity == Some(id)
            &&& entity_of(r, id) matches Some(b) && b.x == x && b.y == y && b.angle == angle && b.vx
                == length
            &&& p.phaser_beam_entity is None ==> (entity_of(r, id) matches Some(b) && b.kind
                == EntityKind::Phaser && b.owner == Some(p.id))
            &&& forall|other: u32|
                other != id ==> #[trigger] entity_of(r, other) == entity_of(w, other)
            &&& q.hull == p.hull && q.fuel == p.fuel && q.kills == p.kills
        }),
{
    let r = beam_shown(w, p, x, y, angle, length).0;
    match p.phaser_beam_entity {
        Some(id) => {
            lemma_find(w.entities, id);
            let b = ServerEntity { x, y, angle, vx: length, ..entity_of(w, id)->0 };
            law_put_is_found(w.entities, b);
            assert forall|other: u32| other != id implies #[trigger] entity_of(r, other)
                == entity_of(w, other) by {
                law_put_leaves_the_others(w.entities, b, other);
            }
        },
        None => {
            let id = w.next_entity_id;
            let b = beam_at(id, p.id, x, y, angle, length);
            law_put_is_found(w.entities, b);
            assert forall|other: u32| other != id implies #[trigger] entity_of(r, other)
                == entity_of(w, other) by {
                law_put_leaves_the_others(w.entities, b, other);
            }
        },
    }
}

/// A beam that is off is gone, with its lock, and lingers no longer.
pub proof fn law_beams_that_are_off_are_gone(w: World, p: ServerPlayer)
    requires
        distinct(w.entities),
    ensures
        ({
            let r = beam_dropped(w, p);
            &&& p.phaser_beam_entity matches Some(id) ==> entity_of(r, id) is None
            &&& player_of(r, p.id) matches Some(q) && q.phaser_beam_entity is None
                && q.phaser_lock_target is None && q.hull == p.hull && q.fuel == p.fuel && q.kills
                == p.kills
            &&& forall|id: u32|
                p.phaser_beam_entity != Some(id) ==> #[trigger] entity_of(r, id) == entity_of(w, id)
        }),
{
    let r = beam_dropped(w, p);
    let q = ServerPlayer {
        phaser_beam_entity: None,
        phaser_lock_target: None,
        phaser_min_remaining: zero(),
        ..p
    };
    law_put_is_found(w.players, q);
    if p.phaser_beam_entity is Some {
        law_without_keeps_distinct(w.entities, p.phaser_beam_entity->0);
    }
    assert forall|id: u32| p.phaser_beam_entity != Some(id) implies #[trigger] entity_of(r, id)
        == entity_of(w, id) by {
        if p.phaser_beam_entity is Some {
            law_without_leaves_the_others(w.entities, p.phaser_beam_entity->0, id);
        }
    }
}

/// What a beam hits takes its damage, to the credit of the one who shoots: a ship loses shields and
/// hull, an asteroid its health, and where nothing is hit, nothing changes.
pub proof fn law_beams_burn_what_they_hit(
    w: World,
    id: PlayerId,
    victim: PlayerId,
    dmg: Single,
    t: Trace,
)
    requires
        player_of(w, victim) is Some,
        victim != id,
        !le(struck(player_of(w, victim)->0, dmg).hull, zero()),
    ensures
        ({
            let r = burnt(w, id, Some((PhaserHit::Ship(victim), dmg)), t).0;
            &&& player_of(r, victim) == Some(struck(player_of(w, victim)->0, dmg))
            &&& player_of(r, id) == player_of(w, id)
            &&& r.entities == w.entities
        }),
        burnt(w, id, None, t) == (w, t),
        forall|rock: EntityId| #[trigger]
            burnt(w, id, Some((PhaserHit::Asteroid(rock), dmg)), t) == asteroid_damaged(
                w,
                rock,
                dmg,
                Some(id),
                t,
            ),
{
    let q = struck(player_of(w, victim)->0, dmg);
    lemma_find(w.players, victim);
    law_put_is_found(w.players, q);
    law_put_leaves_the_others(w.players, q, id);
}

} // verus!
