//! What touches what, in real numbers, up to rounding, and who is struck for it.
use vstd::prelude::*;

use crate::bounce::{lemma_square, lemma_squares_differ};
use crate::collisions::{
    crashes, first_met, gap_squared, knock_of, knocking, knocks, knocks_with, lemma_first_met,
    planet_hits, rock_hits, ship_hits, squared, torpedo_radius, touch, Contact, Knock,
};
use crate::damage::struck;
use crate::exact::{
    dust, law_differences_are_differences, law_fractions_are_fractions, law_order_is_order_of_reals,
    law_products_are_products, law_roots_are_roots, law_sums_are_sums, law_wholes_are_wholes,
    lemma_bound_product, lemma_finite_difference, lemma_finite_product, lemma_finite_root,
    lemma_finite_sum, lemma_times_one, lemma_unit, real_of, size, unit,
};
use crate::game::{class_stats, EntityKind};
use crate::helm::drag_ask;
use crate::impact::{burst, picked, takes, wounded, Blast, Blow, Pick};
use crate::oracle::{Ask, Trace};
use crate::order::lemma_zero;
use crate::physics::{is_in_the_world, lemma_real_zero};
use crate::pilot::{beam_on, shot_due, torpedo_due};
use crate::ray::radius_of;
use crate::single::{
    difference, from_fraction, from_whole, le, lt, product, root, sum, zero, Single,
};
use crate::table::{
    distinct, law_put_is_found, law_put_leaves_the_others, law_without_keeps_distinct,
    law_without_leaves_the_others, lemma_find,
};
use crate::world::{
    entity_of, explosion_at, player_of, without_entity, ServerEntity, ServerPlayer, World,
};

verus! {

/// Whether two entities lie in the world, in each coordinate no more than two thousand apart.
pub open spec fn are_around(a: ServerEntity, b: ServerEntity) -> bool {
    &&& is_in_the_world(a.x) && is_in_the_world(a.y)
    &&& is_in_the_world(b.x) && is_in_the_world(b.y)
    &&& size(real_of(a.x) - real_of(b.x)) <= 2000 as real
    &&& size(real_of(a.y) - real_of(b.y)) <= 2000 as real
}

/// The square of the distance between two entities.
pub open spec fn distance_squared(a: ServerEntity, b: ServerEntity) -> real {
    let (x, y) = (real_of(a.x) - real_of(b.x), real_of(a.y) - real_of(b.y));
    x * x + y * y
}

/// The distance within which two entities meet in a given way: the sum of their radii, where that
/// of a ship is 18, that of a projectile 2.5, and that of a planet is in `vx`.
pub open spec fn reach_of(how: Contact, a: ServerEntity, b: ServerEntity) -> real {
    let shot = (5 as real) / (2 as real);
    match how {
        Contact::ProjectileShip => (18 as real) + shot,
        Contact::ProjectileRock => real_of(radius_of(b)) + shot,
        Contact::TorpedoPlanet => real_of(b.vx) + shot,
        Contact::ShipPlanet => real_of(b.vx) + 18 as real,
        Contact::ShipRock => real_of(radius_of(b)) + 18 as real,
        Contact::RockPlanet => real_of(b.vx) + real_of(radius_of(a)),
    }
}

/// Whether the radii that a contact goes by are moderate.
pub open spec fn are_sized(how: Contact, a: ServerEntity, b: ServerEntity) -> bool {
    &&& how == Contact::ProjectileRock || how == Contact::ShipRock ==> is_radius(radius_of(b))
    &&& how == Contact::RockPlanet ==> is_radius(radius_of(a))
    &&& how == Contact::TorpedoPlanet || how == Contact::ShipPlanet || how
        == Contact::RockPlanet ==> is_radius(b.vx)
}

/// Whether a number is the radius of something in the world.
pub open spec fn is_radius(r: Single) -> bool {
    r.is_finite() && 1 as real <= real_of(r) <= 400 as real
}

/// The square of the distance, rounded.
pub proof fn lemma_gap(a: ServerEntity, b: ServerEntity)
    requires
        are_around(a, b),
    ensures
        gap_squared(a, b).is_finite(),
        0 as real <= distance_squared(a, b),
        0 as real <= real_of(gap_squared(a, b)) <= 10_000_000 as real,
        size(real_of(gap_squared(a, b)) - distance_squared(a, b)) * (0x100_0000 as real) <= (
        9 as real) * distance_squared(a, b) + 1 as real,
{
    lemma_unit();
    let (x, y) = (real_of(a.x) - real_of(b.x), real_of(a.y) - real_of(b.y));
    lemma_finite_difference(a.x, b.x, 2000);
    lemma_finite_difference(a.y, b.y, 2000);
    law_differences_are_differences(a.x, b.x);
    law_differences_are_differences(a.y, b.y);
    let (sx, sy) = (difference(a.x, b.x), difference(a.y, b.y));
    let (dx, dy) = (real_of(sx), real_of(sy));
    lemma_square(x);
    lemma_square(y);
    lemma_square(dx);
    lemma_square(dy);
    lemma_bound_product(size(dx), 2001 as real, size(dx), 2001 as real);
    lemma_bound_product(size(dy), 2001 as real, size(dy), 2001 as real);
    lemma_finite_product(sx, sx, 4_004_001);
    lemma_finite_product(sy, sy, 4_004_001);
    law_products_are_products(sx, sx);
    law_products_are_products(sy, sy);
    let (qx, qy) = (product(sx, sx), product(sy, sy));
    let (xx, yy) = (x * x, y * y);
    let (vx, vy) = (dx * dx, dy * dy);
    let k = 0x100_0000 as real;
    lemma_times_one(size(x), 1 as real);
    lemma_times_one(size(y), 1 as real);
    lemma_squares_differ(dx, x, 1 as real, size(x), 3 as real);
    lemma_squares_differ(dy, y, 1 as real, size(y), 3 as real);
    assert(size(vx - xx) * k <= (3 as real) * xx);
    assert(size(vy - yy) * k <= (3 as real) * yy);
    lemma_finite_sum(qx, qy, 9_000_000);
    law_sums_are_sums(qx, qy);
    let (px, py) = (real_of(qx), real_of(qy));
    assert(size(px - vx) * k <= vx + dust());
    assert(size(py - vy) * k <= vy + dust());
    lemma_not_below(sx);
    lemma_not_below(sy);
}

/// A rounded square is not below zero.
proof fn lemma_not_below(s: Single)
    requires
        product(s, s).is_finite(),
    ensures
        real_of(product(s, s)) >= 0 as real,
{
    reveal(product);
    lemma_unit();
    let u = product(s, s).units() as real;
    lemma_bound_product(u, u, unit(), unit());
}

/// A reach and the square of a distance, compared as the rules do.
pub proof fn lemma_within_reach(a: ServerEntity, b: ServerEntity, reach: Single, t: real)
    requires
        are_around(a, b),
        reach.is_finite(),
        2 as real <= t <= 1000 as real,
        size(real_of(reach) - t) * (0x100_0000 as real) <= (4 as real) * t,
    ensures
        distance_squared(a, b) * (1000 as real) < (t * t) * (999 as real) ==> lt(
            gap_squared(a, b),
            squared(reach),
        ),
        distance_squared(a, b) * (1000 as real) > (t * t) * (1001 as real) ==> !lt(
            gap_squared(a, b),
            squared(reach),
        ),
        distance_squared(a, b) * (1000 as real) < (t * t) * (999 as real) ==> lt(
            root(gap_squared(a, b)),
            reach,
        ),
        distance_squared(a, b) * (1000 as real) > (t * t) * (1001 as real) ==> !lt(
            root(gap_squared(a, b)),
            reach,
        ),
{
    lemma_unit();
    lemma_gap(a, b);
    let r = real_of(reach);
    let k = 0x100_0000 as real;
    let (tt, rr) = (t * t, r * r);
    lemma_bound_product(2 as real, t, 2 as real, t);
    lemma_bound_product(r, 1001 as real, r, 1001 as real);
    lemma_squares_differ(r, t, 4 as real, t, 3 as real);
    assert(size(rr - tt) * k <= (12 as real) * tt);
    lemma_finite_product(reach, reach, 1_100_000);
    law_products_are_products(reach, reach);
    let s = real_of(squared(reach));
    assert(size(s - tt) * k <= (15 as real) * tt);
    law_order_is_order_of_reals(gap_squared(a, b), squared(reach));
    let g = real_of(gap_squared(a, b));
    let z = distance_squared(a, b);
    // By way of the root.
    lemma_finite_root(gap_squared(a, b), 10_000_000);
    law_roots_are_roots(gap_squared(a, b));
    let d = real_of(root(gap_squared(a, b)));
    law_order_is_order_of_reals(root(gap_squared(a, b)), reach);
    let dd = d * d;
    if d >= r {
        lemma_bound_product(r, d, r, d);
    } else {
        lemma_bound_product(d, r, d, r);
    }
}

/// Two entities meet where they are nearer to each other than the sum of their radii, and not where
/// they are farther apart, up to a thousandth part; only the ships of its own player a projectile
/// passes.
pub proof fn law_contact_is_by_distance(how: Contact, a: ServerEntity, b: ServerEntity)
    requires
        are_around(a, b),
        are_sized(how, a, b),
    ensures
        ({
            let t = reach_of(how, a, b);
            let own = how == Contact::ProjectileShip && a.owner == b.owner;
            &&& own ==> !touch(how, a, b)
            &&& !own && distance_squared(a, b) * (1000 as real) < (t * t) * (999 as real) ==> touch(
                how,
                a,
                b,
            )
            &&& distance_squared(a, b) * (1000 as real) > (t * t) * (1001 as real) ==> !touch(
                how,
                a,
                b,
            )
        }),
{
    lemma_unit();
    law_wholes_are_wholes(18);
    law_fractions_are_fractions(5, 2);
    let shot = real_of(torpedo_radius());
    assert(size(shot * (2 as real) - 5 as real) * (0x100_0000 as real) <= (5 as real) + dust() * (
    2 as real));
    let t = reach_of(how, a, b);
    let (l, m) = match how {
        Contact::ProjectileShip => (from_whole(18), torpedo_radius()),
        Contact::ProjectileRock => (radius_of(b), torpedo_radius()),
        Contact::TorpedoPlanet => (b.vx, torpedo_radius()),
        Contact::ShipPlanet => (b.vx, from_whole(18)),
        Contact::ShipRock => (radius_of(b), from_whole(18)),
        Contact::RockPlanet => (b.vx, radius_of(a)),
    };
    lemma_finite_sum(l, m, 1000);
    law_sums_are_sums(l, m);
    assert(size(real_of(sum(l, m)) - t) * (0x100_0000 as real) <= (4 as real) * t);
    lemma_within_reach(a, b, sum(l, m), t);
}

/// Every projectile that meets a ship strikes the player of the first ship that it meets, with its
/// own damage, in the name of its own player, and goes off where it is; no other projectile does.
pub proof fn law_hits_strike_the_ships_that_are_met(
    ps: Seq<ServerEntity>,
    p: ServerEntity,
    ships: Seq<ServerEntity>,
)
    ensures
        ({
            let (before, gone) = ship_hits(ps, ships);
            let (blows, blasts) = ship_hits(ps.push(p), ships);
            &&& first_met(Contact::ProjectileShip, p, ships) matches Some(ship) ==> {
                &&& blows.len() == before.len() + 1 && blows.drop_last() == before
                &&& blasts.len() == gone.len() + 1 && blasts.drop_last() == gone
                &&& ship.owner matches Some(id) ==> blows.last().id == id
                &&& blows.last().dmg == p.damage && blows.last().by == p.owner
                &&& blasts.last().id == p.id && blasts.last().x == p.x && blasts.last().y == p.y
                &&& blasts.last().seen == (p.kind == EntityKind::Torpedo)
                &&& ships.contains(ship) && ship.owner != p.owner
            }
            &&& first_met(Contact::ProjectileShip, p, ships) is None ==> blows == before && blasts
                == gone
        }),
{
    assert(ps.push(p).drop_last() == ps);
    lemma_first_met(Contact::ProjectileShip, p, ships);
    let (before, gone) = ship_hits(ps, ships);
    let (blows, blasts) = ship_hits(ps.push(p), ships);
    if first_met(Contact::ProjectileShip, p, ships) is Some {
        assert(blows.drop_last() == before);
        assert(blasts.drop_last() == gone);
    }
}

/// Every projectile that meets an asteroid and no ship strikes the first asteroid that it meets,
/// with its own damage, in the name of its own player, and goes off where it is; no other
/// projectile strikes one.
pub proof fn law_hits_strike_the_asteroids_that_are_met(
    ps: Seq<ServerEntity>,
    p: ServerEntity,
    ships: Seq<ServerEntity>,
    rocks: Seq<ServerEntity>,
)
    ensures
        ({
            let (before, gone) = rock_hits(ps, ships, rocks);
            let (blows, blasts) = rock_hits(ps.push(p), ships, rocks);
            let free = first_met(Contact::ProjectileShip, p, ships) is None;
            &&& first_met(Contact::ProjectileRock, p, rocks) matches Some(rock) ==> free ==> {
                &&& blows.len() == before.len() + 1 && blows.drop_last() == before
                &&& blasts.len() == gone.len() + 1 && blasts.drop_last() == gone
                &&& blows.last().id == rock.id
                &&& blows.last().dmg == p.damage && blows.last().by == p.owner
                &&& blasts.last().id == p.id && blasts.last().x == p.x && blasts.last().y == p.y
                &&& rocks.contains(rock)
            }
            &&& first_met(Contact::ProjectileRock, p, rocks) is None || !free ==> blows == before
                && blasts == gone
        }),
{
    assert(ps.push(p).drop_last() == ps);
    lemma_first_met(Contact::ProjectileRock, p, rocks);
    let (before, gone) = rock_hits(ps, ships, rocks);
    let (blows, blasts) = rock_hits(ps.push(p), ships, rocks);
    if first_met(Contact::ProjectileRock, p, rocks) is Some && first_met(
        Contact::ProjectileShip,
        p,
        ships,
    ) is None {
        assert(blows.drop_last() == before);
        assert(blasts.drop_last() == gone);
    }
}

/// A torpedo that meets a planet goes off where it is, and no other does.
pub proof fn law_torpedoes_go_off_on_planets(
    ts: Seq<ServerEntity>,
    p: ServerEntity,
    planets: Seq<ServerEntity>,
)
    ensures
        ({
            let gone = planet_hits(ts, planets);
            let blasts = planet_hits(ts.push(p), planets);
            let met = exists|i: int|
                0 <= i < planets.len() && touch(Contact::TorpedoPlanet, p, #[trigger] planets[i]);
            &&& met ==> blasts.len() == gone.len() + 1 && blasts.drop_last() == gone
                && blasts.last().id == p.id && blasts.last().x == p.x && blasts.last().y == p.y
                && blasts.last().seen
            &&& !met ==> blasts == gone
        }),
{
    assert(ts.push(p).drop_last() == ts);
    lemma_first_met(Contact::TorpedoPlanet, p, planets);
    let gone = planet_hits(ts, planets);
    let blasts = planet_hits(ts.push(p), planets);
    if first_met(Contact::TorpedoPlanet, p, planets) is Some {
        assert(blasts.drop_last() == gone);
        let o = first_met(Contact::TorpedoPlanet, p, planets)->0;
        let i = choose|i: int| 0 <= i < planets.len() && planets[i] == o;
        assert(touch(Contact::TorpedoPlanet, p, planets[i]));
    }
}

/// A selection takes every entity that belongs to it and no other: projectiles are torpedoes and
/// drones, ships are those that somebody owns, and rocks are the asteroids that can be destroyed.
pub proof fn law_selections_take_their_own(es: Seq<ServerEntity>, pick: Pick, e: ServerEntity)
    ensures
        picked(es, pick).contains(e) <==> es.contains(e) && match pick {
            Pick::Projectiles => e.kind == EntityKind::Torpedo || e.kind == EntityKind::Drone,
            Pick::Torpedoes => e.kind == EntityKind::Torpedo,
            Pick::Ships => e.kind == EntityKind::Ship && e.owner is Some,
            Pick::Rocks => e.kind == EntityKind::Asteroid && e.health is Some,
            Pick::Planets => e.kind == EntityKind::Planet,
        },
    decreases es.len(),
{
    if es.len() > 0 {
        let front = es.drop_last();
        law_selections_take_their_own(front, pick, e);
        let (all, some) = (picked(es, pick), picked(front, pick));
        if some.contains(e) {
            let k = choose|k: int| 0 <= k < some.len() && some[k] == e;
            assert(all[k] == e);
        }
        if front.contains(e) {
            let k = choose|k: int| 0 <= k < front.len() && front[k] == e;
            assert(es[k] == e);
        }
        if es.last() == e {
            assert(es[es.len() - 1] == e);
            if takes(pick, e) {
                assert(all[all.len() - 1] == e);
            }
        }
        if all.contains(e) && !some.contains(e) {
            let k = choose|k: int| 0 <= k < all.len() && all[k] == e;
            if k < some.len() {
                assert(some[k] == e);
            }
            assert(e == es.last());
        }
        if es.contains(e) && es.last() != e {
            let k = choose|k: int| 0 <= k < es.len() && es[k] == e;
            assert(front[k] == e);
        }
    }
}

/// The knocks of one asteroid are with those later ones that it runs into, and no others.
proof fn lemma_knocks_with(rs: Seq<ServerEntity>, i: int, j: int, k: Knock)
    requires
        0 <= i < rs.len(),
        j <= rs.len(),
    ensures
        knocks_with(rs, i, j).contains(k) <==> exists|m: int|
            i < m < j && knocking(rs[i], #[trigger] rs[m]) && k == knock_of(rs[i], rs[m]),
    decreases j - i,
{
    let all = knocks_with(rs, i, j);
    if j > i + 1 {
        let some = knocks_with(rs, i, j - 1);
        lemma_knocks_with(rs, i, j - 1, k);
        if some.contains(k) {
            let n = choose|n: int| 0 <= n < some.len() && some[n] == k;
            assert(all[n] == k);
        }
        if knocking(rs[i], rs[j - 1]) {
            assert(all[all.len() - 1] == knock_of(rs[i], rs[j - 1]));
        }
        if all.contains(k) && !some.contains(k) {
            let n = choose|n: int| 0 <= n < all.len() && all[n] == k;
            if n < some.len() {
                assert(some[n] == k);
            }
            assert(knocking(rs[i], rs[j - 1]) && k == knock_of(rs[i], rs[j - 1]));
        }
    }
}

/// Every two asteroids that run into each other are knocked, the earlier with the later one, and no
/// others are.
pub proof fn law_every_pair_that_meets_is_knocked(rs: Seq<ServerEntity>, n: nat, k: Knock)
    requires
        n <= rs.len(),
    ensures
        knocks(rs, n).contains(k) <==> exists|i: int, j: int|
            0 <= i < n && i < j < rs.len() && knocking(#[trigger] rs[i], #[trigger] rs[j]) && k
                == knock_of(rs[i], rs[j]),
    decreases n,
{
    if n > 0 {
        let i = n - 1;
        law_every_pair_that_meets_is_knocked(rs, i as nat, k);
        lemma_knocks_with(rs, i, rs.len() as int, k);
        let (front, last) = (knocks(rs, i as nat), knocks_with(rs, i, rs.len() as int));
        let all = knocks(rs, n);
        if front.contains(k) {
            let m = choose|m: int| 0 <= m < front.len() && front[m] == k;
            assert(all[m] == k);
        }
        if last.contains(k) {
            let m = choose|m: int| 0 <= m < last.len() && last[m] == k;
            assert(all[front.len() + m] == k);
        }
        if all.contains(k) {
            let m = choose|m: int| 0 <= m < all.len() && all[m] == k;
            if m < front.len() {
                assert(front[m] == k);
            } else {
                assert(last[m - front.len()] == k);
            }
        }
    }
}

/// What goes off is gone, and where that is to be seen, an explosion takes its place.
pub proof fn law_what_goes_off_is_gone(w: World, blasts: Seq<Blast>, b: Blast)
    requires
        distinct(burst(w, blasts).entities),
        b.id != burst(w, blasts).next_entity_id,
    ensures
        ({
            let w1 = burst(w, blasts);
            let r = burst(w, blasts.push(b));
            &&& entity_of(r, b.id) is None
            &&& b.seen ==> (entity_of(r, w1.next_entity_id) matches Some(e) && e.kind
                == EntityKind::Explosion && e.x == b.x && e.y == b.y)
            &&& r.players == w1.players
            &&& forall|id: u32|
                id != b.id && id != w1.next_entity_id ==> #[trigger] entity_of(r, id) == entity_of(
                    w1,
                    id,
                )
        }),
{
    assert(blasts.push(b).drop_last() == blasts);
    let w1 = burst(w, blasts);
    let r = burst(w, blasts.push(b));
    law_without_keeps_distinct(w1.entities, b.id);
    let w2 = without_entity(w1, b.id);
    let e = explosion_at(w1.next_entity_id, b.x, b.y);
    law_put_is_found(w2.entities, e);
    law_put_leaves_the_others(w2.entities, e, b.id);
    assert forall|id: u32| id != b.id && id != w1.next_entity_id implies #[trigger] entity_of(r, id)
        == entity_of(w1, id) by {
        law_without_leaves_the_others(w1.entities, b.id, id);
        law_put_leaves_the_others(w2.entities, e, id);
    }
}

/// An asteroid that is still there and touches a planet goes off where it is, and no other does.
pub proof fn law_asteroids_crash_on_planets(
    w: World,
    rocks: Seq<ServerEntity>,
    rock: ServerEntity,
    planets: Seq<ServerEntity>,
)
    ensures
        ({
            let gone = crashes(w, rocks, planets);
            let all = crashes(w, rocks.push(rock), planets);
            let met = entity_of(w, rock.id) matches Some(e) && exists|i: int|
                0 <= i < planets.len() && touch(Contact::RockPlanet, e, #[trigger] planets[i]);
            &&& met ==> all.len() == gone.len() + 1 && all.drop_last() == gone && all.last().id
                == rock.id && all.last().x == (entity_of(w, rock.id)->0).x && all.last().y == (
            entity_of(w, rock.id)->0).y && all.last().seen
            &&& !met ==> all == gone
        }),
{
    assert(rocks.push(rock).drop_last() == rocks);
    let gone = crashes(w, rocks, planets);
    let all = crashes(w, rocks.push(rock), planets);
    if entity_of(w, rock.id) is Some {
        let e = entity_of(w, rock.id)->0;
        lemma_first_met(Contact::RockPlanet, e, planets);
        if first_met(Contact::RockPlanet, e, planets) is Some {
            assert(all.drop_last() == gone);
            let o = first_met(Contact::RockPlanet, e, planets)->0;
            let i = choose|i: int| 0 <= i < planets.len() && planets[i] == o;
            assert(touch(Contact::RockPlanet, e, planets[i]));
        }
    }
}

/// Blows strike whom they name, one after the other: a player whose hull holds has it as the blow
/// leaves it, and everybody else is as before.
pub proof fn law_blows_strike_whom_they_name(
    w: World,
    blows: Seq<Blow>,
    b: Blow,
    other: u32,
    t: Trace,
)
    requires
        player_of(wounded(w, blows, t).0, b.id) is Some,
        other != b.id,
        !le(struck(player_of(wounded(w, blows, t).0, b.id)->0, b.dmg).hull, zero()),
    ensures
        ({
            let w1 = wounded(w, blows, t).0;
            let r = wounded(w, blows.push(b), t).0;
            &&& player_of(r, b.id) == Some(struck(player_of(w1, b.id)->0, b.dmg))
            &&& player_of(r, other) == player_of(w1, other)
            &&& r.entities == w1.entities
        }),
{
    assert(blows.push(b).drop_last() == blows);
    let w1 = wounded(w, blows, t).0;
    lemma_find(w1.players, b.id);
    let q = struck(player_of(w1, b.id)->0, b.dmg);
    law_put_is_found(w1.players, q);
    law_put_leaves_the_others(w1.players, q, other);
}

/// A torpedo leaves only when it is asked for, loaded and cooled down, and a beam is on only with
/// fuel, held within its range or lingering; neither while the ship hides.
pub proof fn law_guns_fire_when_they_may(p: ServerPlayer)
    requires
        p.fire_cooldown.is_finite(),
        p.phaser_cooldown.is_finite(),
        p.phaser_min_remaining.is_finite(),
        p.fuel.is_finite(),
        p.input.mouse_distance.is_finite(),
        class_stats(p.ship_class).phaser_range.is_finite(),
    ensures
        torpedo_due(p) <==> p.pending_torpedo_fire && p.torpedo_count > 0 && real_of(
            p.fire_cooldown,
        ) <= 0 as real && !p.cloaked,
        beam_on(p) <==> real_of(p.fuel) > 0 as real && !p.cloaked && (real_of(
            p.phaser_min_remaining,
        ) > 0 as real || p.input.fire_phaser && real_of(p.input.mouse_distance) <= real_of(
            class_stats(p.ship_class).phaser_range,
        )),
        shot_due(p) <==> beam_on(p) && real_of(p.phaser_cooldown) <= 0 as real,
{
    lemma_zero();
    lemma_real_zero();
    law_order_is_order_of_reals(p.fire_cooldown, zero());
    law_order_is_order_of_reals(p.phaser_cooldown, zero());
    law_order_is_order_of_reals(zero(), p.phaser_min_remaining);
    law_order_is_order_of_reals(zero(), p.fuel);
    law_order_is_order_of_reals(
        p.input.mouse_distance,
        class_stats(p.ship_class).phaser_range,
    );
}

/// The source is asked for the power of 49 fiftieths to twenty times the time: drag takes a
/// fiftieth of the speed in every twentieth of a second.
pub proof fn law_drag_takes_a_fiftieth(dt: Single)
    requires
        dt.is_finite(),
        0 as real <= real_of(dt) <= 1 as real,
    ensures
        drag_ask(dt) matches Ask::Pow(base, times) && size(
            real_of(base) * (50 as real) - 49 as real,
        ) * (1000 as real) <= 1 as real && size(real_of(times) - real_of(dt) * (20 as real)) * (
        1000 as real) <= 1 as real,
{
    lemma_unit();
    law_fractions_are_fractions(49, 50);
    let b = real_of(from_fraction(49, 50));
    assert(size(b * (50 as real) - 49 as real) * (0x100_0000 as real) <= (49 as real) + dust() * (
    50 as real));
    law_wholes_are_wholes(20);
    lemma_finite_product(dt, from_whole(20), 20);
    law_products_are_products(dt, from_whole(20));
}

} // verus!
