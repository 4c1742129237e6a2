//! What every state of the game keeps: ids stay distinct, and the gauges of every ship that is
//! there stay within the limits of its class.
use vstd::prelude::*;

use crate::bounds::{
    is_amount, lemma_amount_within, lemma_below_amount, lemma_clamped, lemma_class_amounts,
    lemma_difference_within, lemma_fraction_amount, lemma_product_monotone, lemma_whole_amount,
};
use crate::collisions::{
    all_bumped, all_knocked, bumps, crashes, first_met, grounded, knocks, normal_of, planet_hits,
    planet_struck, rebounded, rock_bruises, rock_hits, rock_struck, ship_bruises, ship_hits,
    ship_radius, shot_down, Bump, Contact, Knock,
};
use crate::damage::{
    absorbed, asteroid_damaged, credited, damaged, fallen, felled, killed, more, scored, ship_of,
    smalls_spawned, struck,
};
use crate::game::{class_stats, EntityKind, ShipStats};
use crate::helm::{shifted, steered};
use crate::impact::{burst, chipped, picked, takes, wounded, Blast, Blow, Pick};
use crate::oracle::{past_count, told, told_count, Ask, Trace};
use crate::order::{
    law_order_is_order_of_values, law_sum_never_crosses, lemma_negated, lemma_difference_at_most,
    lemma_difference_not_negative, lemma_product_not_negative, lemma_small_wholes_order,
    lemma_sum_at_least, lemma_sum_beyond, lemma_sum_is_a_number, lemma_zero,
};
use crate::pilot::{
    aimed, beam_at, beam_dropped, beam_held, beam_on, may_cloak, beam_shown, beamed, fired,
    fuel_left, launched, piloted, relocked, reloaded, shot, shot_due, torpedo_due, torpedo_from,
    tuned,
};
use crate::protocol::PlayerInput;
use crate::ray::{cast, phaser_damage};
use crate::single::{
    difference, from_fraction, from_whole, le, lt, negated, product, sum, zero, Single,
};
use crate::table::{
    distinct, find, law_put_keeps_distinct, law_without_keeps_distinct, lemma_find, Keyed,
};
use crate::tick::{
    all_drifted, all_piloted, all_respawned, all_waited, entities_ticked, fresh, handled, ids_of,
    living, newcomer, next_tick, players_ticked, ready, recalled, reclassed, respawned, steered_by,
    updated, waited, GameEvent,
};
use crate::world::{
    advanced, any_angle, any_place, asteroid_at, debris_at, drifter, entity_of, exploded,
    explosion_at, first_asteroids, first_planets, joined, next_id, pieces_spawned, planet_at,
    planet_radius, player_of, ship_at, ship_spawned, statics_spawned, void, with_entity,
    with_player, without_any, without_entity, PhaserHit, ServerEntity, ServerPlayer, World,
};

verus! {

/// The gauges of a ship that is there are within the limits of its class, and its hull holds.
pub open spec fn is_fit(p: ServerPlayer) -> bool {
    let stats = class_stats(p.ship_class);
    p.entity_id is Some ==> {
        &&& lt(zero(), p.hull)
        &&& le(p.hull, stats.max_hull)
        &&& le(zero(), p.shields)
        &&& le(p.shields, stats.max_shields)
        &&& le(zero(), p.fuel)
        &&& le(p.fuel, stats.fuel_capacity)
        &&& p.torpedo_count <= stats.max_torpedoes
    }
}

/// The most damage that a single blow does.
pub open spec fn greatest_blow() -> int {
    1000
}

/// The damage of a projectile is an amount.
pub open spec fn is_armed(e: ServerEntity) -> bool {
    e.kind == EntityKind::Torpedo || e.kind == EntityKind::Drone ==> is_amount(
        e.damage,
        greatest_blow(),
    )
}

/// A state in which no two entities and no two players share an id, every ship is fit and the
/// damage of every projectile is an amount.
pub open spec fn is_sound(w: World) -> bool {
    &&& distinct(w.entities)
    &&& distinct(w.players)
    &&& forall|i: int| 0 <= i < w.players.len() ==> is_fit(#[trigger] w.players[i])
    &&& forall|i: int| 0 <= i < w.entities.len() ==> is_armed(#[trigger] w.entities[i])
}

/// The part of a blow that the shields take is neither more than the blow nor than the shields.
proof fn lemma_absorbed(p: ServerPlayer, dmg: Single)
    requires
        le(zero(), p.shields),
        le(p.shields, class_stats(p.ship_class).max_shields),
        is_amount(dmg, greatest_blow()),
    ensures
        is_amount(absorbed(p, dmg), greatest_blow()),
        le(absorbed(p, dmg), dmg),
        le(absorbed(p, dmg), p.shields),
{
    lemma_zero();
    lemma_class_amounts(p.ship_class);
    lemma_amount_within(dmg, greatest_blow());
    lemma_whole_amount(0, greatest_blow());
}

/// A blow raises no gauge, and leaves all of them within their limits unless the hull gives way.
pub proof fn law_blows_only_take(p: ServerPlayer, dmg: Single)
    requires
        is_fit(p),
        p.entity_id is Some,
        is_amount(dmg, greatest_blow()),
    ensures
        !le(struck(p, dmg).hull, zero()) ==> is_fit(struck(p, dmg)),
        le(struck(p, dmg).hull, p.hull),
        le(struck(p, dmg).shields, p.shields),
        le(struck(p, dmg).fuel, p.fuel),
{
    let stats = class_stats(p.ship_class);
    let part = absorbed(p, dmg);
    lemma_zero();
    lemma_class_amounts(p.ship_class);
    lemma_absorbed(p, dmg);
    lemma_amount_within(dmg, greatest_blow());
    lemma_amount_within(part, greatest_blow());
    lemma_amount_within(stats.max_hull, greatest_blow());
    let rest = difference(dmg, part);
    lemma_difference_not_negative(dmg, part);
    lemma_difference_at_most(dmg, part);
    lemma_difference_at_most(p.hull, rest);
    lemma_below_amount(p.hull, stats.max_hull, greatest_blow());
    lemma_below_amount(rest, dmg, greatest_blow());
    lemma_difference_within(p.hull, rest, greatest_blow(), greatest_blow());
    lemma_difference_not_negative(p.shields, part);
    lemma_difference_at_most(p.shields, part);
    lemma_product_not_negative(part, stats.shield_energy_per_damage);
    lemma_difference_at_most(p.fuel, product(part, stats.shield_energy_per_damage));
}

/// A tick of this length, in seconds, does not refill any tank by more than every number.  After a
/// longer one, of more than some ten to the power of 37 seconds, what a beam used up and what the
/// reactor gave are both beyond every number, and what is left is none.
pub open spec fn is_step(dt: Single) -> bool {
    dt.is_finite() && !dt.neg() && product(from_whole(15), dt).is_finite()
}

/// Whether the fuel that a ship gains in a tick and the fuel that it loses do not both go beyond
/// every number.
pub open spec fn fuel_adds_up(p: ServerPlayer, burnt: Single, dt: Single) -> bool {
    ||| may_cloak(p)
    ||| product(class_stats(p.ship_class).fuel_regen, dt).is_finite()
    ||| burnt.is_finite() && !beam_held(p) && !lt(zero(), p.phaser_min_remaining)
}

/// The reactor of every class gives a finite amount in a tick.
proof fn lemma_refill(p: ServerPlayer, dt: Single)
    requires
        is_step(dt),
    ensures
        product(class_stats(p.ship_class).fuel_regen, dt).is_finite(),
{
    let regen = class_stats(p.ship_class).fuel_regen;
    lemma_class_amounts(p.ship_class);
    lemma_small_wholes_order(5, 15);
    lemma_small_wholes_order(8, 15);
    lemma_small_wholes_order(10, 15);
    lemma_small_wholes_order(12, 15);
    lemma_whole_amount(15, 15);
    lemma_product_monotone(regen, from_whole(15), dt);
}

/// The fuel after a tick is neither negative nor more than the tanks hold.
proof fn lemma_fuel_left(p: ServerPlayer, burnt: Single, dt: Single)
    requires
        is_fit(p),
        p.entity_id is Some,
        le(zero(), burnt),
        dt.is_finite(),
        !dt.neg(),
        fuel_adds_up(p, burnt, dt),
    ensures
        le(zero(), fuel_left(p, burnt, dt)),
        le(fuel_left(p, burnt, dt), class_stats(p.ship_class).fuel_capacity),
{
    let stats = class_stats(p.ship_class);
    lemma_zero();
    lemma_class_amounts(p.ship_class);
    lemma_product_not_negative(stats.cloak_fuel_drain, dt);
    lemma_product_not_negative(stats.phaser_fuel_drain, dt);
    let drain = product(stats.cloak_fuel_drain, dt);
    lemma_difference_at_most(p.fuel, drain);
    lemma_difference_at_most(difference(p.fuel, drain), burnt);
    let cost = product(stats.phaser_fuel_drain, dt);
    let a = difference(p.fuel, burnt);
    lemma_difference_at_most(p.fuel, burnt);
    lemma_difference_at_most(a, cost);
    lemma_difference_at_most(a, zero());
    let regen = product(stats.fuel_regen, dt);
    lemma_product_not_negative(stats.fuel_regen, dt);
    if regen.is_finite() {
        lemma_sum_is_a_number(difference(a, cost), regen);
        lemma_sum_is_a_number(difference(a, zero()), regen);
        lemma_clamped(sum(difference(a, cost), regen), zero(), stats.fuel_capacity);
        lemma_clamped(sum(difference(a, zero()), regen), zero(), stats.fuel_capacity);
    } else if !may_cloak(p) {
        lemma_negated(burnt);
        lemma_negated(zero());
        lemma_below_amount(p.fuel, stats.fuel_capacity, greatest_blow());
        law_order_is_order_of_values(zero(), p.fuel);
        law_sum_never_crosses(p.fuel, negated(burnt), negated(burnt));
        law_sum_never_crosses(a, negated(zero()), a);
        lemma_sum_beyond(difference(a, zero()), regen);
        lemma_clamped(regen, zero(), stats.fuel_capacity);
    }
}

/// Reloading never goes past the capacity.
proof fn lemma_reloaded(timer: Single, count: u8, max: u8)
    requires
        count <= max,
    ensures
        reloaded(timer, count, max).1 <= max,
        reloaded(timer, count, max).1 >= count,
    decreases timer.key() + 0x8000_0000,
{
    let half = from_fraction(1, 2);
    let less = difference(timer, half);
    if le(half, timer) && lt(less, timer) {
        lemma_reloaded(
            less,
            if count < max {
                (count + 1) as u8
            } else {
                max
            },
            max,
        );
    }
}

/// A tick leaves every gauge within its limits, however long it is and whatever was burnt, as long
/// as the fuel that was gained and the fuel that was lost do not both go beyond every number.
pub proof fn law_ticks_keep_ships_fit(p: ServerPlayer, burnt: Single, dt: Single)
    requires
        is_fit(p),
        p.entity_id is Some,
        le(zero(), burnt),
        dt.is_finite(),
        !dt.neg(),
        fuel_adds_up(p, burnt, dt),
    ensures
        is_fit(tuned(p, burnt, dt)),
{
    let stats = class_stats(p.ship_class);
    lemma_zero();
    lemma_class_amounts(p.ship_class);
    lemma_fuel_left(p, burnt, dt);
    lemma_whole_amount(10, 10);
    lemma_product_not_negative(from_whole(10), dt);
    lemma_sum_at_least(p.shields, product(from_whole(10), dt));
    if p.torpedo_count < stats.max_torpedoes {
        lemma_reloaded(sum(p.torpedo_regen_timer, dt), p.torpedo_count, stats.max_torpedoes);
    }
}

/// The player found under an id has it, and is fit.
proof fn lemma_player(w: World, id: u32)
    requires
        is_sound(w),
    ensures
        player_of(w, id) matches Some(p) ==> is_fit(p) && p.id == id,
{
    lemma_find(w.players, id);
}

/// The entity found under an id has it, and is armed soundly.
proof fn lemma_entity(w: World, id: u32)
    requires
        is_sound(w),
    ensures
        entity_of(w, id) matches Some(e) ==> is_armed(e) && e.id == id,
{
    lemma_find(w.entities, id);
}

proof fn lemma_with_player(w: World, p: ServerPlayer)
    requires
        is_sound(w),
        is_fit(p),
    ensures
        is_sound(with_player(w, p)),
{
    law_put_keeps_distinct(w.players, p);
    lemma_find(w.players, p.id);
}

proof fn lemma_with_entity(w: World, e: ServerEntity)
    requires
        is_sound(w),
        is_armed(e),
    ensures
        is_sound(with_entity(w, e)),
{
    law_put_keeps_distinct(w.entities, e);
    lemma_find(w.entities, e.id);
}

proof fn lemma_joined(w: World, e: ServerEntity)
    requires
        is_sound(w),
        is_armed(e),
    ensures
        is_sound(joined(w, e)),
{
    lemma_with_entity(advanced(w), e);
}

proof fn lemma_without_entity(w: World, id: u32)
    requires
        is_sound(w),
    ensures
        is_sound(without_entity(w, id)),
{
    law_without_keeps_distinct(w.entities, id);
    lemma_find(w.entities, id);
    if find(w.entities, id) is Some {
        let k = find(w.entities, id)->0;
        let es = w.entities.remove(k);
        assert forall|i: int| 0 <= i < es.len() implies is_armed(#[trigger] es[i]) by {
            if i < k {
                assert(es[i] == w.entities[i]);
            } else {
                assert(es[i] == w.entities[i + 1]);
            }
        }
    }
}

proof fn lemma_without_any(w: World, id: Option<u32>)
    requires
        is_sound(w),
    ensures
        is_sound(without_any(w, id)),
{
    if id is Some {
        lemma_without_entity(w, id->0);
    }
}

/// A state that is sound but for the gauges of one player.
spec fn is_sound_but(w: World, id: u32) -> bool {
    &&& distinct(w.entities)
    &&& distinct(w.players)
    &&& forall|i: int|
        0 <= i < w.players.len() && w.players[i].id != id ==> is_fit(#[trigger] w.players[i])
    &&& forall|i: int| 0 <= i < w.entities.len() ==> is_armed(#[trigger] w.entities[i])
}

proof fn lemma_felled(w: World, victim: u32, self_destruct: bool)
    requires
        is_sound_but(w, victim),
    ensures
        is_sound(felled(w, victim, self_destruct)),
{
    lemma_find(w.players, victim);
    match find(w.players, victim) {
        Some(k) => {
            let p = w.players[k];
            let q = fallen(p, self_destruct);
            law_put_keeps_distinct(w.players, q);
            let w1 = with_player(w, q);
            assert(w1.players == w.players.update(k, q));
            assert forall|i: int| 0 <= i < w1.players.len() implies is_fit(
                #[trigger] w1.players[i],
            ) by {
                if i < k {
                    assert(w.players[i].key() != victim);
                } else if i > k {
                    assert(w.players[k].key() != w.players[i].key());
                }
            }
            lemma_without_any(w1, p.entity_id);
            lemma_without_any(without_any(w1, p.entity_id), p.phaser_beam_entity);
        },
        None => {
            assert forall|i: int| 0 <= i < w.players.len() implies is_fit(
                #[trigger] w.players[i],
            ) by {
                assert(w.players[i].key() != victim);
            }
        },
    }
}

proof fn lemma_credited(w: World, killer: Option<u32>)
    requires
        is_sound(w),
    ensures
        is_sound(credited(w, killer)),
{
    if killer is Some {
        lemma_player(w, killer->0);
        if player_of(w, killer->0) is Some {
            let p = player_of(w, killer->0)->0;
            lemma_with_player(w, ServerPlayer { kills: next_id(p.kills), ..p });
        }
    }
}

proof fn lemma_scored(w: World, scorer: Option<u32>, points: u32)
    requires
        is_sound(w),
    ensures
        is_sound(scored(w, scorer, points)),
{
    if scorer is Some {
        lemma_player(w, scorer->0);
        if player_of(w, scorer->0) is Some {
            let p = player_of(w, scorer->0)->0;
            lemma_with_player(w, ServerPlayer { score: more(p.score, points), ..p });
        }
    }
}

proof fn lemma_pieces(
    w: World,
    n: nat,
    x: Single,
    y: Single,
    vx: Single,
    vy: Single,
    t: Trace,
)
    requires
        is_sound(w),
    ensures
        is_sound(pieces_spawned(w, n, x, y, vx, vy, t).0),
    decreases n,
{
    if n > 0 {
        lemma_pieces(w, (n - 1) as nat, x, y, vx, vy, t);
        let (w1, t1) = pieces_spawned(w, (n - 1) as nat, x, y, vx, vy, t);
        let spread = told(t1, 0, any_angle());
        let speed = told(t1, 1, Ask::Uniform(from_whole(30), from_whole(120)));
        let spin = told(t1, 2, Ask::Uniform(from_whole(-3), from_whole(3)));
        let c = told(t1, 3, Ask::Cos(spread));
        let s = told(t1, 4, Ask::Sin(spread));
        let angle = told(t1, 5, any_angle());
        lemma_joined(
            w1,
            debris_at(
                w1.next_entity_id,
                x,
                y,
                sum(vx, product(c, speed)),
                sum(vy, product(s, speed)),
                angle,
                spin,
            ),
        );
    }
}

proof fn lemma_exploded(w: World, x: Single, y: Single)
    requires
        is_sound(w),
    ensures
        is_sound(exploded(w, x, y)),
{
    lemma_joined(w, explosion_at(w.next_entity_id, x, y));
}

proof fn lemma_killed(
    w: World,
    victim: u32,
    killer: Option<u32>,
    self_destruct: bool,
    t: Trace,
)
    requires
        is_sound_but(w, victim),
    ensures
        is_sound(killed(w, victim, killer, self_destruct, t).0),
{
    let (x, y, vx, vy) = match ship_of(w, victim) {
        Some(e) => (e.x, e.y, e.vx, e.vy),
        None => (zero(), zero(), zero(), zero()),
    };
    lemma_felled(w, victim, self_destruct);
    let w1 = felled(w, victim, self_destruct);
    lemma_credited(w1, killer);
    lemma_exploded(credited(w1, killer), x, y);
    lemma_pieces(exploded(credited(w1, killer), x, y), 4, x, y, vx, vy, t);
}

proof fn lemma_damaged(
    w: World,
    victim: u32,
    dmg: Single,
    killer: Option<u32>,
    self_destruct: bool,
    t: Trace,
)
    requires
        is_sound(w),
        is_amount(dmg, greatest_blow()),
    ensures
        is_sound(damaged(w, victim, dmg, killer, self_destruct, t).0),
{
    lemma_player(w, victim);
    if player_of(w, victim) is Some {
        let p = player_of(w, victim)->0;
        let q = struck(p, dmg);
        if p.entity_id is Some {
            law_blows_only_take(p, dmg);
        }
        if le(q.hull, zero()) {
            law_put_keeps_distinct(w.players, q);
            lemma_find(w.players, victim);
            lemma_killed(with_player(w, q), victim, killer, self_destruct, t);
        } else {
            lemma_with_player(w, q);
        }
    }
}

proof fn lemma_smalls(w: World, n: nat, x: Single, y: Single, t: Trace)
    requires
        is_sound(w),
    ensures
        is_sound(smalls_spawned(w, n, x, y, t).0),
    decreases n,
{
    if n > 0 {
        lemma_smalls(w, (n - 1) as nat, x, y, t);
        let (w1, t1) = smalls_spawned(w, (n - 1) as nat, x, y, t);
        let speed = told(t1, 1, Ask::Uniform(from_whole(30), from_whole(80)));
        let drift = told(t1, 0, any_angle());
        let c = told(t1, 2, Ask::Cos(drift));
        let s = told(t1, 3, Ask::Sin(drift));
        let angle = told(t1, 4, any_angle());
        lemma_joined(
            w1,
            asteroid_at(
                w1.next_entity_id,
                false,
                x,
                y,
                product(c, speed),
                product(s, speed),
                angle,
            ),
        );
    }
}

proof fn lemma_asteroid_damaged(
    w: World,
    id: u32,
    dmg: Single,
    scorer: Option<u32>,
    t: Trace,
)
    requires
        is_sound(w),
    ensures
        is_sound(asteroid_damaged(w, id, dmg, scorer, t).0),
{
    lemma_entity(w, id);
    if entity_of(w, id) matches Some(e) && e.health is Some {
        let e = entity_of(w, id)->0;
        let left = difference(e.health->0, dmg);
        let hit = ServerEntity { health: Some(left), ..e };
        let w1 = with_entity(w, hit);
        lemma_with_entity(w, hit);
        lemma_without_entity(w1, id);
        let w2 = exploded(without_entity(w1, id), e.x, e.y);
        lemma_exploded(without_entity(w1, id), e.x, e.y);
        lemma_scored(w2, scorer, 1);
        let n = told_count(t, 0, 1, 4);
        lemma_smalls(w2, n as nat, e.x, e.y, past_count(t, 1, 4));
        lemma_scored(smalls_spawned(w2, n as nat, e.x, e.y, past_count(t, 1, 4)).0, scorer, 3);
    }
}

/// The fuel that the engine burns in a tick is not negative.
proof fn lemma_burnt(
    e: ServerEntity,
    input: PlayerInput,
    stats: ShipStats,
    fuel: Single,
    dt: Single,
    t: Trace,
)
    requires
        dt.is_finite(),
        !dt.neg(),
    ensures
        le(zero(), steered(e, input, stats, fuel, dt, t).1),
        steered(e, input, stats, fuel, dt, t).0.id == e.id,
        steered(e, input, stats, fuel, dt, t).0.kind == e.kind,
        steered(e, input, stats, fuel, dt, t).0.damage == e.damage,
{
    lemma_zero();
    lemma_whole_amount(10, 10);
    lemma_whole_amount(5, 5);
    lemma_product_not_negative(from_whole(10), dt);
    lemma_product_not_negative(from_whole(5), dt);
    let a = product(from_whole(10), dt);
    let b = product(from_whole(5), dt);
    lemma_sum_at_least(zero(), a);
    lemma_sum_at_least(zero(), b);
    lemma_sum_at_least(sum(zero(), a), b);
}

proof fn lemma_beam_shown(
    w: World,
    p: ServerPlayer,
    x: Single,
    y: Single,
    angle: Single,
    length: Single,
)
    requires
        is_sound(w),
        is_fit(p),
    ensures
        is_sound(beam_shown(w, p, x, y, angle, length).0),
        is_fit(beam_shown(w, p, x, y, angle, length).1),
{
    match p.phaser_beam_entity {
        Some(id) => {
            lemma_entity(w, id);
            if entity_of(w, id) is Some {
                let b = entity_of(w, id)->0;
                lemma_with_entity(w, ServerEntity { x, y, angle, vx: length, ..b });
            }
        },
        None => {
            let b = beam_at(w.next_entity_id, p.id, x, y, angle, length);
            lemma_joined(w, b);
            lemma_with_player(joined(w, b), beam_shown(w, p, x, y, angle, length).1);
        },
    }
}

proof fn lemma_beamed(w: World, p: ServerPlayer, e: ServerEntity, fires: bool, t: Trace)
    requires
        is_sound(w),
        is_fit(p),
    ensures
        is_sound(beamed(w, p, e, fires, t).0),
{
    let (dir, reach, t1) = aimed(w, p, e.x, e.y, t);
    let p1 = relocked(w, p);
    let w1 = with_player(w, p1);
    lemma_with_player(w, p1);
    let (length, hit, t2) = cast(w1, e.x, e.y, dir, reach, p.id, t1);
    let (w2, p2) = beam_shown(w1, p1, e.x, e.y, dir, length);
    lemma_beam_shown(w1, p1, e.x, e.y, dir, length);
    if fires {
        let w3 = with_player(w2, shot(p2, hit));
        lemma_with_player(w2, shot(p2, hit));
        match hit {
            Some((PhaserHit::Ship(victim), dmg)) => {
                lemma_phaser_amount(w1, p.id);
                lemma_damaged(w3, victim, dmg, Some(p.id), false, t2);
            },
            Some((PhaserHit::Asteroid(rock), dmg)) => {
                lemma_asteroid_damaged(w3, rock, dmg, Some(p.id), t2);
            },
            None => {},
        }
    }
}

/// The damage of a phaser is an amount.
proof fn lemma_phaser_amount(w: World, shooter: u32)
    ensures
        is_amount(phaser_damage(w, shooter), greatest_blow()),
{
    lemma_zero();
    lemma_whole_amount(0, greatest_blow());
    lemma_below_amount(zero(), from_whole(0), greatest_blow());
    if player_of(w, shooter) is Some {
        lemma_class_amounts(player_of(w, shooter)->0.ship_class);
    }
}

proof fn lemma_launched(w: World, id: u32, eid: u32, t: Trace)
    requires
        is_sound(w),
    ensures
        is_sound(launched(w, id, eid, t).0),
{
    lemma_player(w, id);
    if player_of(w, id) is Some {
        let p = player_of(w, id)->0;
        lemma_with_player(w, fired(p));
        lemma_class_amounts(p.ship_class);
        if entity_of(w, eid) is Some {
            let angle = p.input.mouse_angle;
            lemma_joined(
                with_player(w, fired(p)),
                torpedo_from(
                    w.next_entity_id,
                    id,
                    entity_of(w, eid)->0,
                    class_stats(p.ship_class),
                    angle,
                    told(t, 0, Ask::Cos(angle)),
                    told(t, 1, Ask::Sin(angle)),
                ),
            );
        }
    }
}

proof fn lemma_piloted(w: World, id: u32, dt: Single, t: Trace)
    requires
        is_sound(w),
        is_step(dt),
    ensures
        is_sound(piloted(w, id, dt, t).0),
{
    lemma_player(w, id);
    if player_of(w, id) is Some && player_of(w, id)->0.entity_id is Some {
        let p = player_of(w, id)->0;
        let eid = p.entity_id->0;
        lemma_entity(w, eid);
        if entity_of(w, eid) is Some {
            let e = entity_of(w, eid)->0;
            let stats = class_stats(p.ship_class);
            let (e1, burnt, t1) = steered(e, p.input, stats, p.fuel, dt, t);
            lemma_burnt(e, p.input, stats, p.fuel, dt, t);
            let p1 = tuned(p, burnt, dt);
            lemma_refill(p, dt);
            law_ticks_keep_ships_fit(p, burnt, dt);
            lemma_with_entity(w, e1);
            let w1 = with_player(with_entity(w, e1), p1);
            lemma_with_player(with_entity(w, e1), p1);
            let (w2, t2) = if beam_on(p1) {
                beamed(w1, p1, e1, shot_due(p1), t1)
            } else {
                (beam_dropped(w1, p1), t1)
            };
            if beam_on(p1) {
                lemma_beamed(w1, p1, e1, shot_due(p1), t1);
            } else {
                lemma_without_any(w1, p1.phaser_beam_entity);
                lemma_with_player(
                    without_any(w1, p1.phaser_beam_entity),
                    ServerPlayer {
                        phaser_beam_entity: None,
                        phaser_lock_target: None,
                        phaser_min_remaining: zero(),
                        ..p1
                    },
                );
            }
            if torpedo_due(p1) {
                lemma_launched(w2, p.id, e.id, t2);
            }
        }
    }
}

proof fn lemma_all_piloted(w: World, ids: Seq<u32>, dt: Single, t: Trace)
    requires
        is_sound(w),
        is_step(dt),
    ensures
        is_sound(all_piloted(w, ids, dt, t).0),
    decreases ids.len(),
{
    if ids.len() > 0 {
        lemma_all_piloted(w, ids.drop_last(), dt, t);
        let (w1, t1) = all_piloted(w, ids.drop_last(), dt, t);
        lemma_piloted(w1, ids.last(), dt, t1);
    }
}

/// A new ship is fit.
pub proof fn law_new_ships_are_fit(p: ServerPlayer, eid: u32)
    ensures
        is_fit(fresh(p, eid)),
{
    lemma_class_amounts(p.ship_class);
    let stats = class_stats(p.ship_class);
    lemma_amount_within(stats.max_shields, greatest_blow());
    lemma_amount_within(stats.fuel_capacity, greatest_blow());
}

proof fn lemma_respawned(w: World, id: u32, t: Trace)
    requires
        is_sound(w),
    ensures
        is_sound(respawned(w, id, t).0),
{
    let (w1, eid, t1) = ship_spawned(w, id, t);
    lemma_joined(
        w,
        ship_at(
            w.next_entity_id,
            id,
            told(t, 0, any_place()),
            told(t, 1, any_place()),
            told(t, 2, any_angle()),
        ),
    );
    if player_of(w1, id) is Some {
        let p = player_of(w1, id)->0;
        law_new_ships_are_fit(p, eid);
        lemma_with_player(w1, fresh(p, eid));
    }
}

proof fn lemma_all_respawned(w: World, ids: Seq<u32>, t: Trace)
    requires
        is_sound(w),
    ensures
        is_sound(all_respawned(w, ids, t).0),
    decreases ids.len(),
{
    if ids.len() > 0 {
        lemma_all_respawned(w, ids.drop_last(), t);
        let (w1, t1) = all_respawned(w, ids.drop_last(), t);
        lemma_respawned(w1, ids.last(), t1);
    }
}

proof fn lemma_players_ticked(w: World, dt: Single, t: Trace)
    requires
        is_sound(w),
        is_step(dt),
    ensures
        is_sound(players_ticked(w, dt, t).0),
{
    let ps = all_waited(w.players, dt);
    let w0 = World { tick: next_tick(w.tick), players: ps, ..w };
    assert forall|i: int| 0 <= i < ps.len() implies is_fit(#[trigger] ps[i]) by {
        assert(ps[i] == waited(w.players[i], dt));
    }
    assert forall|i: int, j: int| 0 <= i < j < ps.len() implies (#[trigger] ps[i]).key() != (
    #[trigger] ps[j]).key() by {
        assert(ps[i] == waited(w.players[i], dt));
        assert(ps[j] == waited(w.players[j], dt));
        assert(w.players[i].key() != w.players[j].key());
    }
    lemma_all_respawned(w0, ready(w.players, dt), t);
    let (w1, t1) = all_respawned(w0, ready(w.players, dt), t);
    lemma_all_piloted(w1, ids_of(w1.players), dt, t1);
}

/// Drifting keeps the ids, the kinds and the damage of the projectiles.
proof fn lemma_all_drifted(es: Seq<ServerEntity>, dt: Single, t: Trace)
    ensures
        all_drifted(es, dt, t).0.len() == es.len(),
        forall|i: int|
            0 <= i < es.len() ==> {
                let e = #[trigger] all_drifted(es, dt, t).0[i];
                e.id == es[i].id && e.kind == es[i].kind && e.damage == es[i].damage
            },
    decreases es.len(),
{
    if es.len() > 0 {
        lemma_all_drifted(es.drop_last(), dt, t);
        let front = all_drifted(es.drop_last(), dt, t).0;
        assert forall|i: int| 0 <= i < es.len() implies {
            let e = #[trigger] all_drifted(es, dt, t).0[i];
            e.id == es[i].id && e.kind == es[i].kind && e.damage == es[i].damage
        } by {
            if i < front.len() {
                assert(all_drifted(es, dt, t).0[i] == front[i]);
            }
        }
    }
}

/// The living are among the entities, and keep distinct ids.
proof fn lemma_living(es: Seq<ServerEntity>)
    requires
        distinct(es),
        forall|i: int| 0 <= i < es.len() ==> is_armed(#[trigger] es[i]),
    ensures
        distinct(living(es)),
        forall|i: int| 0 <= i < living(es).len() ==> is_armed(#[trigger] living(es)[i]),
        forall|i: int|
            0 <= i < living(es).len() ==> exists|j: int|
                0 <= j < es.len() && es[j] == #[trigger] living(es)[i],
    decreases es.len(),
{
    if es.len() > 0 {
        let front = es.drop_last();
        assert(distinct(front)) by {
            assert forall|i: int, j: int| 0 <= i < j < front.len() implies (
            #[trigger] front[i]).key() != (#[trigger] front[j]).key() by {
                assert(es[i].key() != es[j].key());
            }
        }
        lemma_living(front);
        let s = living(front);
        let r = living(es);
        assert forall|i: int| 0 <= i < r.len() implies exists|j: int|
            0 <= j < es.len() && es[j] == #[trigger] r[i] by {
            if i < s.len() {
                assert(r[i] == s[i]);
                let j = choose|j: int| 0 <= j < front.len() && front[j] == s[i];
                assert(es[j] == r[i]);
            } else {
                assert(es[es.len() - 1] == r[i]);
            }
        }
        assert forall|i: int, j: int| 0 <= i < j < r.len() implies (#[trigger] r[i]).key() != (
        #[trigger] r[j]).key() by {
            assert(r[i] == s[i]);
            if j < s.len() {
                assert(r[j] == s[j]);
            } else {
                let k = choose|k: int| 0 <= k < front.len() && front[k] == s[i];
                assert(es[k] == s[i]);
                assert(es[k].key() != es[es.len() - 1].key());
            }
        }
        assert forall|i: int| 0 <= i < r.len() implies is_armed(#[trigger] r[i]) by {
            let j = choose|j: int| 0 <= j < es.len() && es[j] == r[i];
            assert(is_armed(es[j]));
        }
    }
}

proof fn lemma_entities_ticked(w: World, dt: Single, t: Trace)
    requires
        is_sound(w),
    ensures
        is_sound(entities_ticked(w, dt, t).0),
{
    let (es, t1) = all_drifted(w.entities, dt, t);
    lemma_all_drifted(w.entities, dt, t);
    assert forall|i: int, j: int| 0 <= i < j < es.len() implies (#[trigger] es[i]).key() != (
    #[trigger] es[j]).key() by {
        assert(w.entities[i].key() != w.entities[j].key());
    }
    assert forall|i: int| 0 <= i < es.len() implies is_armed(#[trigger] es[i]) by {
        assert(is_armed(w.entities[i]));
    }
    lemma_living(es);
    let w1 = World { entities: living(es), ..w };
    lemma_joined(w1, drifter(w1.next_entity_id, t1));
}

/// What a selection takes is among the entities, and it takes it.
pub proof fn lemma_picked(es: Seq<ServerEntity>, pick: Pick)
    ensures
        forall|i: int|
            0 <= i < picked(es, pick).len() ==> es.contains(#[trigger] picked(es, pick)[i])
                && takes(pick, picked(es, pick)[i]),
        picked(es, pick).len() <= es.len(),
    decreases es.len(),
{
    if es.len() > 0 {
        let front = es.drop_last();
        lemma_picked(front, pick);
        let s = picked(front, pick);
        let r = picked(es, pick);
        assert forall|i: int| 0 <= i < r.len() implies es.contains(#[trigger] r[i]) && takes(
            pick,
            r[i],
        ) by {
            if i < s.len() {
                assert(r[i] == s[i]);
                let j = choose|j: int| 0 <= j < front.len() && front[j] == s[i];
                assert(es[j] == r[i]);
            } else {
                assert(es[es.len() - 1] == r[i]);
            }
        }
    }
}

/// Blows whose damage is an amount each.
spec fn are_amounts(blows: Seq<Blow>) -> bool {
    forall|i: int| 0 <= i < blows.len() ==> is_amount((#[trigger] blows[i]).dmg, greatest_blow())
}

proof fn lemma_wounded(w: World, blows: Seq<Blow>, t: Trace)
    requires
        is_sound(w),
        are_amounts(blows),
    ensures
        is_sound(wounded(w, blows, t).0),
    decreases blows.len(),
{
    if blows.len() > 0 {
        lemma_wounded(w, blows.drop_last(), t);
        let (w1, t1) = wounded(w, blows.drop_last(), t);
        let b = blows.last();
        assert(is_amount(blows[blows.len() - 1].dmg, greatest_blow()));
        lemma_damaged(w1, b.id, b.dmg, b.by, false, t1);
    }
}

proof fn lemma_chipped(w: World, blows: Seq<Blow>, t: Trace)
    requires
        is_sound(w),
    ensures
        is_sound(chipped(w, blows, t).0),
    decreases blows.len(),
{
    if blows.len() > 0 {
        lemma_chipped(w, blows.drop_last(), t);
        let (w1, t1) = chipped(w, blows.drop_last(), t);
        let b = blows.last();
        lemma_asteroid_damaged(w1, b.id, b.dmg, b.by, t1);
    }
}

proof fn lemma_burst(w: World, blasts: Seq<Blast>)
    requires
        is_sound(w),
    ensures
        is_sound(burst(w, blasts)),
    decreases blasts.len(),
{
    if blasts.len() > 0 {
        lemma_burst(w, blasts.drop_last());
        let b = blasts.last();
        let w1 = burst(w, blasts.drop_last());
        lemma_without_entity(w1, b.id);
        lemma_exploded(without_entity(w1, b.id), b.x, b.y);
    }
}

/// The blows of sound projectiles are amounts.
proof fn lemma_ship_hits(ps: Seq<ServerEntity>, ships: Seq<ServerEntity>)
    requires
        forall|i: int|
            0 <= i < ps.len() ==> is_amount((#[trigger] ps[i]).damage, greatest_blow()),
    ensures
        are_amounts(ship_hits(ps, ships).0),
    decreases ps.len(),
{
    if ps.len() > 0 {
        lemma_ship_hits(ps.drop_last(), ships);
        assert(is_amount(ps[ps.len() - 1].damage, greatest_blow()));
    }
}

proof fn lemma_shot_down(w: World, t: Trace)
    requires
        is_sound(w),
    ensures
        is_sound(shot_down(w, t).0),
{
    let ps = picked(w.entities, Pick::Projectiles);
    let ships = picked(w.entities, Pick::Ships);
    let rocks = picked(w.entities, Pick::Rocks);
    lemma_picked(w.entities, Pick::Projectiles);
    assert forall|i: int| 0 <= i < ps.len() implies is_amount(
        (#[trigger] ps[i]).damage,
        greatest_blow(),
    ) by {
        let j = choose|j: int| 0 <= j < w.entities.len() && w.entities[j] == ps[i];
        assert(is_armed(w.entities[j]));
    }
    lemma_ship_hits(ps, ships);
    let blasts = ship_hits(ps, ships).1 + rock_hits(ps, ships, rocks).1;
    lemma_burst(w, blasts);
    lemma_wounded(burst(w, blasts), ship_hits(ps, ships).0, t);
    let (w2, t2) = wounded(burst(w, blasts), ship_hits(ps, ships).0, t);
    lemma_chipped(w2, rock_hits(ps, ships, rocks).0, t2);
}

proof fn lemma_grounded(w: World, ships: Seq<ServerEntity>, planets: Seq<ServerEntity>)
    requires
        is_sound(w),
    ensures
        is_sound(grounded(w, ships, planets).0),
        are_amounts(grounded(w, ships, planets).1),
    decreases ships.len(),
{
    if ships.len() > 0 {
        lemma_grounded(w, ships.drop_last(), planets);
        let w1 = grounded(w, ships.drop_last(), planets).0;
        lemma_whole_amount(25, greatest_blow());
        let s = ships.last();
        lemma_entity(w1, s.id);
        if entity_of(w1, s.id) is Some {
            let e = entity_of(w1, s.id)->0;
            if first_met(Contact::ShipPlanet, e, planets) is Some {
                let planet = first_met(Contact::ShipPlanet, e, planets)->0;
                let (nx, ny, push) = normal_of(e, planet, sum(planet.vx, ship_radius()));
                lemma_with_entity(w1, rebounded(e, nx, ny, push, from_fraction(1, 2)));
            }
        }
    }
}

proof fn lemma_planet_struck(w: World, t: Trace)
    requires
        is_sound(w),
    ensures
        is_sound(planet_struck(w, t).0),
{
    let planets = picked(w.entities, Pick::Planets);
    let blasts = planet_hits(picked(w.entities, Pick::Torpedoes), planets);
    lemma_burst(w, blasts);
    let w1 = burst(w, blasts);
    let ships = picked(w1.entities, Pick::Ships);
    lemma_grounded(w1, ships, planets);
    let (w2, blows) = grounded(w1, ships, planets);
    lemma_wounded(w2, blows, t);
}

proof fn lemma_all_bumped(w: World, bs: Seq<Bump>)
    requires
        is_sound(w),
    ensures
        is_sound(all_bumped(w, bs)),
    decreases bs.len(),
{
    if bs.len() > 0 {
        lemma_all_bumped(w, bs.drop_last());
        let w0 = all_bumped(w, bs.drop_last());
        let b = bs.last();
        lemma_entity(w0, b.ship);
        let w1 = match entity_of(w0, b.ship) {
            Some(e) => with_entity(w0, rebounded(e, b.nx, b.ny, b.push, from_fraction(3, 5))),
            None => w0,
        };
        if entity_of(w0, b.ship) is Some {
            let e = entity_of(w0, b.ship)->0;
            lemma_with_entity(w0, rebounded(e, b.nx, b.ny, b.push, from_fraction(3, 5)));
        }
        lemma_entity(w1, b.rock);
        if entity_of(w1, b.rock) is Some {
            let e = entity_of(w1, b.rock)->0;
            lemma_with_entity(
                w1,
                ServerEntity {
                    vx: difference(e.vx, product(b.nx, from_whole(15))),
                    vy: difference(e.vy, product(b.ny, from_whole(15))),
                    ..e
                },
            );
        }
    }
}

proof fn lemma_all_knocked(w: World, ks: Seq<Knock>)
    requires
        is_sound(w),
    ensures
        is_sound(all_knocked(w, ks)),
    decreases ks.len(),
{
    if ks.len() > 0 {
        lemma_all_knocked(w, ks.drop_last());
        let w0 = all_knocked(w, ks.drop_last());
        let k = ks.last();
        lemma_entity(w0, k.id1);
        let w1 = match entity_of(w0, k.id1) {
            Some(e) => with_entity(
                w0,
                ServerEntity {
                    x: shifted(e.x, product(k.nx, k.push1)),
                    y: shifted(e.y, product(k.ny, k.push1)),
                    vx: sum(e.vx, k.dvx1),
                    vy: sum(e.vy, k.dvy1),
                    ..e
                },
            ),
            None => w0,
        };
        if entity_of(w0, k.id1) is Some {
            let e = entity_of(w0, k.id1)->0;
            lemma_with_entity(
                w0,
                ServerEntity {
                    x: shifted(e.x, product(k.nx, k.push1)),
                    y: shifted(e.y, product(k.ny, k.push1)),
                    vx: sum(e.vx, k.dvx1),
                    vy: sum(e.vy, k.dvy1),
                    ..e
                },
            );
        }
        lemma_entity(w1, k.id2);
        if entity_of(w1, k.id2) is Some {
            let e = entity_of(w1, k.id2)->0;
            lemma_with_entity(
                w1,
                ServerEntity {
                    x: shifted(e.x, negated(product(k.nx, k.push2))),
                    y: shifted(e.y, negated(product(k.ny, k.push2))),
                    vx: sum(e.vx, k.dvx2),
                    vy: sum(e.vy, k.dvy2),
                    ..e
                },
            );
        }
    }
}

proof fn lemma_rock_struck(w: World, t: Trace)
    requires
        is_sound(w),
    ensures
        is_sound(rock_struck(w, t).0),
{
    let rocks = picked(w.entities, Pick::Rocks);
    let bs = bumps(picked(w.entities, Pick::Ships), rocks);
    lemma_all_bumped(w, bs);
    lemma_fraction_amount(25, 2);
    lemma_small_wholes_order(25, greatest_blow());
    lemma_wounded(all_bumped(w, bs), ship_bruises(bs), t);
    let (w1, t1) = wounded(all_bumped(w, bs), ship_bruises(bs), t);
    lemma_chipped(w1, rock_bruises(bs), t1);
    let w2 = chipped(w1, rock_bruises(bs), t1).0;
    let rs = picked(w2.entities, Pick::Rocks);
    lemma_all_knocked(w2, knocks(rs, rs.len()));
    let w3 = all_knocked(w2, knocks(rs, rs.len()));
    lemma_burst(w3, crashes(w3, rocks, picked(w3.entities, Pick::Planets)));
}

/// Every tick of up to a second leads from a sound state to a sound state.
pub proof fn law_ticks_keep_the_world_sound(w: World, dt: Single, t: Trace)
    requires
        is_sound(w),
        is_step(dt),
    ensures
        is_sound(updated(w, dt, t).0),
{
    lemma_players_ticked(w, dt, t);
    let (w1, t1) = players_ticked(w, dt, t);
    lemma_entities_ticked(w1, dt, t1);
    let (w2, t2) = entities_ticked(w1, dt, t1);
    lemma_shot_down(w2, t2);
    let (w3, t3) = shot_down(w2, t2);
    lemma_planet_struck(w3, t3);
    let (w4, t4) = planet_struck(w3, t3);
    lemma_rock_struck(w4, t4);
}

/// Every event, whatever a client sends, leads from a sound state to a sound state.
pub proof fn law_events_keep_the_world_sound(w: World, event: GameEvent, t: Trace)
    requires
        is_sound(w),
    ensures
        is_sound(handled(w, event, t).0),
{
    match event {
        GameEvent::PlayerJoined { id, username } => {
            lemma_with_player(w, newcomer(id, username));
        },
        GameEvent::PlayerLeft(id) => {
            lemma_find(w.players, id);
            law_without_keeps_distinct(w.players, id);
            if find(w.players, id) is Some {
                let k = find(w.players, id)->0;
                let p = w.players[k];
                let ps = w.players.remove(k);
                assert forall|i: int| 0 <= i < ps.len() implies is_fit(#[trigger] ps[i]) by {
                    if i < k {
                        assert(ps[i] == w.players[i]);
                    } else {
                        assert(ps[i] == w.players[i + 1]);
                    }
                }
                let w1 = World { players: ps, ..w };
                lemma_without_any(w1, p.entity_id);
                lemma_without_any(without_any(w1, p.entity_id), p.phaser_beam_entity);
            }
        },
        GameEvent::PlayerInput { id, input } => {
            lemma_player(w, id);
            if player_of(w, id) is Some {
                lemma_with_player(w, steered_by(player_of(w, id)->0, input));
            }
        },
        GameEvent::SelectShip { id, class } => {
            lemma_player(w, id);
            if player_of(w, id) is Some {
                lemma_with_player(w, reclassed(player_of(w, id)->0, class));
            }
        },
        GameEvent::RequestRespawn(id) => {
            lemma_player(w, id);
            if player_of(w, id) is Some {
                lemma_with_player(w, recalled(player_of(w, id)->0));
            }
        },
        GameEvent::SelfDestruct(id) => {
            lemma_killed(w, id, None, true, t);
        },
    }
}

proof fn lemma_first_asteroids(w: World, n: nat, t: Trace)
    requires
        is_sound(w),
    ensures
        is_sound(first_asteroids(w, n, t).0),
    decreases n,
{
    if n > 0 {
        lemma_first_asteroids(w, (n - 1) as nat, t);
        let (w1, t1) = first_asteroids(w, (n - 1) as nat, t);
        lemma_with_entity(w1, drifter((n - 1) as u32, t1));
    }
}

proof fn lemma_first_planets(w: World, n: nat, t: Trace)
    requires
        is_sound(w),
    ensures
        is_sound(first_planets(w, n, t).0),
    decreases n,
{
    if n > 0 {
        lemma_first_planets(w, (n - 1) as nat, t);
        let (w1, t1) = first_planets(w, (n - 1) as nat, t);
        let q = Ask::Uniform(from_whole(1500), from_whole(8500));
        lemma_with_entity(
            w1,
            planet_at(
                (20 + n - 1) as u32,
                told(t1, 0, q),
                told(t1, 1, q),
                planet_radius(n - 1),
                from_whole(n - 1),
            ),
        );
    }
}

/// The game starts in a sound state.
pub proof fn law_the_first_world_is_sound(t: Trace)
    ensures
        is_sound(statics_spawned(void(), t).0),
{
    lemma_first_asteroids(void(), 20, t);
    let (w1, t1) = first_asteroids(void(), 20, t);
    lemma_first_planets(w1, 5, t1);
}

} // verus!
