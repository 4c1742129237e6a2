//! Every player who is alive has a ship in the world: no rule takes it away but the ship's end.
//! Planets stay for ever as they are, and nothing stays beyond its time.
use vstd::arithmetic::power2::pow2;
use vstd::prelude::*;

use crate::bounds::{
    is_amount, lemma_fraction_amount, lemma_fraction_positive, lemma_product_amount,
    lemma_product_at_least_one, lemma_product_positive, lemma_whole_amount,
};
use crate::collisions::{
    all_bumped, all_knocked, bumps, crashes, first_met, grounded, knocks, knocks_with,
    lemma_first_met, normal_of, planet_hits, planet_struck, rebounded, rock_bruises, rock_hits,
    rock_struck, ship_bruises, ship_hits, ship_radius, shot_down, spent, Bump, Contact, Knock,
};
use crate::damage::{
    announced, asteroid_damaged, credited, damaged, fallen, felled, killed, more, scored, ship_of,
    smalls_spawned, struck,
};
use crate::game::{class_stats, explosion_seconds, half_turn, EntityKind, ShipClass};
use crate::helm::{law_aim_takes_priority_over_keys, law_headings_follow_the_aim, shifted, steered};
use crate::impact::{burst, chipped, picked, takes, wounded, Blast, Blow, Pick};
use crate::oracle::{past_count, told, told_count, Ask, Trace};
use crate::order::{
    law_order_is_order_of_values, law_small_wholes_are_exact, lemma_small_wholes_order, lemma_zero,
};
use crate::pilot::{
    aimed, beam_at, beam_dropped, beam_on, beam_shown, beamed, burnt, fired, launched, piloted,
    relocked, shot, shot_due, torpedo_due, torpedo_from, tuned,
};
use crate::protocol::PlayerInput;
use crate::ray::cast;
use crate::single::{
    difference, from_fraction, from_whole, le, lt, negated, product, sum, zero, Single,
};
use crate::soundness::lemma_picked;
use crate::table::{
    distinct, find, law_put_is_found, law_put_keeps_distinct, law_put_leaves_the_others,
    law_without_keeps_distinct, law_without_leaves_the_others, lemma_find, lemma_row_at, row,
    without, Keyed,
};
use crate::tick::{
    all_drifted, all_piloted, all_respawned, all_waited, collided, departed, entities_ticked, fresh,
    handled, ids_of, lives, living, newcomer, next_tick, players_ticked, ready, recalled, reclassed,
    respawned, steered_by, updated, waited, GameEvent,
};
use crate::world::{
    any_angle, any_place, asteroid_at, debris_at, debris_seconds, drifter, entity_of, exploded,
    explosion_at, first_asteroids, first_planets, joined, next_id, pieces_spawned, planet_at,
    planet_radius, player_of, ship_at, statics_spawned, void, with_entity, with_player, without_any,
    without_entity, Death, PhaserHit, ServerEntity, ServerPlayer, World,
};

verus! {

/// Whether an entity is a ship that a player flies.
pub open spec fn flies(w: World, player: u32, eid: u32) -> bool {
    row(w.entities, eid) matches Some(e) && e.kind == EntityKind::Ship && e.owner == Some(player)
}

/// Whether an entity, if it is there, is a beam.
pub open spec fn shines(w: World, beam: u32) -> bool {
    row(w.entities, beam) matches Some(e) ==> e.kind == EntityKind::Phaser
}

/// A player's ship is in the world, and what passes for the player's beam is one.
pub open spec fn has_ship(w: World, p: ServerPlayer) -> bool {
    &&& p.entity_id matches Some(eid) ==> eid < w.next_entity_id && flies(w, p.id, eid)
    &&& p.phaser_beam_entity matches Some(b) ==> b < w.next_entity_id && shines(w, b)
}

/// A ship or a planet neither ages nor uses up a range, and has no health as asteroids have it.
pub open spec fn lasts(e: ServerEntity) -> bool {
    e.kind == EntityKind::Ship || e.kind == EntityKind::Planet ==> {
        &&& e.lifetime is None
        &&& e.travel_remaining is None
        &&& e.health is None
    }
}

/// An entity that has been given its id, and that lasts if it is a ship or a planet.
pub open spec fn is_settled(w: World, e: ServerEntity) -> bool {
    e.id < w.next_entity_id && lasts(e)
}

/// A state in which ids are distinct and given in order, and every player who is alive has a ship.
pub open spec fn is_crewed(w: World) -> bool {
    &&& distinct(w.entities)
    &&& distinct(w.players)
    &&& forall|i: int| 0 <= i < w.players.len() ==> has_ship(w, #[trigger] w.players[i])
    &&& forall|i: int| 0 <= i < w.entities.len() ==> is_settled(w, #[trigger] w.entities[i])
}

/// Whether a planet was found under an id.
pub open spec fn is_planet(found: Option<ServerEntity>) -> bool {
    found matches Some(e) && e.kind == EntityKind::Planet
}

/// Whether two states have the same planets, under the same ids and in every respect as they were.
pub open spec fn keeps_planets(r: World, w: World) -> bool {
    forall|id: u32|
        is_planet(#[trigger] row(r.entities, id)) || is_planet(row(w.entities, id)) ==> row(
            r.entities,
            id,
        ) == row(w.entities, id)
}

/// Whether nothing in the world has outlived its time or used up its range.
pub open spec fn all_live(w: World) -> bool {
    forall|i: int| 0 <= i < w.entities.len() ==> lives(#[trigger] w.entities[i])
}

/// A later state, after at most `c` new ids, in which every id that was in use
/// stands for a thing of the same kind as before, or for nothing; the planets are as they were, and
/// nothing has been brought in whose time is over.
pub open spec fn comes_from(r: World, w: World, c: nat) -> bool {
    &&& w.next_entity_id <= r.next_entity_id <= w.next_entity_id + c
    &&& r.entities.len() <= w.entities.len() + c
    &&& r.players.len() <= w.players.len()
    &&& keeps_planets(r, w)
    &&& all_live(w) ==> all_live(r)
    &&& forall|id: u32|
        id < w.next_entity_id ==> (#[trigger] row(r.entities, id) matches Some(e) ==> (row(
            w.entities,
            id,
        ) matches Some(d) && d.kind == e.kind))
}

proof fn lemma_chain(a: World, b: World, d: World, m: nat, n: nat)
    requires
        comes_from(b, a, m),
        comes_from(d, b, n),
    ensures
        comes_from(d, a, m + n),
{
    assert forall|id: u32| id < a.next_entity_id implies (#[trigger] row(
        d.entities,
        id,
    ) matches Some(e) ==> (row(a.entities, id) matches Some(x) && x.kind == e.kind)) by {
        assert(id < b.next_entity_id);
        if row(d.entities, id) is Some {
            assert(row(b.entities, id) is Some);
        }
    }
    assert forall|id: u32|
        is_planet(#[trigger] row(d.entities, id)) || is_planet(row(a.entities, id)) implies row(
        d.entities,
        id,
    ) == row(a.entities, id) by {
        assert(is_planet(row(b.entities, id)) || !is_planet(row(b.entities, id)));
    }
}

/// An id that has been given, and not to a planet.
spec fn is_loose(w: World, id: u32) -> bool {
    id < w.next_entity_id && !is_planet(row(w.entities, id))
}

/// What is no planet does not become one.
proof fn lemma_loose(r: World, w: World, c: nat, id: u32)
    requires
        comes_from(r, w, c),
        is_loose(w, id),
    ensures
        is_loose(r, id),
{
    assert(!is_planet(row(r.entities, id)) || is_planet(row(w.entities, id)));
}

/// Explosions and debris start with some time left.
proof fn lemma_spans()
    ensures
        lt(zero(), explosion_seconds()),
        lt(zero(), debris_seconds()),
{
    lemma_fraction_positive(3, 4);
    lemma_zero();
    law_small_wholes_are_exact(0);
    lemma_small_wholes_order(0, 5);
    law_order_is_order_of_values(zero(), from_whole(0));
}

/// Torpedoes start with some range left.
proof fn lemma_torpedo_range(class: ShipClass)
    ensures
        lt(
            zero(),
            product(
                product(from_whole(2), class_stats(class).phaser_range),
                from_fraction(3, 5),
            ),
        ),
{
    let range = class_stats(class).phaser_range;
    assert(is_amount(range, 1000) && le(from_whole(1), range)) by {
        assert forall|m: int| 1 <= m <= 1000 implies is_amount(#[trigger] from_whole(m), 1000)
            && le(from_whole(1), from_whole(m)) by {
            lemma_whole_amount(m, 1000);
            lemma_small_wholes_order(1, m);
        }
    }
    lemma_whole_amount(2, 2);
    lemma_small_wholes_order(1, 2);
    lemma_product_at_least_one(from_whole(2), range);
    lemma_product_amount(from_whole(2), range, 2, 1000);
    lemma_fraction_positive(3, 5);
    lemma_fraction_amount(3, 5);
    lemma_product_positive(product(from_whole(2), range), from_fraction(3, 5));
}

/// A state with fewer new ids is one with more.
proof fn lemma_widen(r: World, w: World, m: nat, n: nat)
    requires
        comes_from(r, w, m),
        m <= n,
    ensures
        comes_from(r, w, n),
{
}

proof fn lemma_player(w: World, id: u32)
    requires
        is_crewed(w),
    ensures
        player_of(w, id) matches Some(p) ==> has_ship(w, p) && p.id == id,
{
    lemma_find(w.players, id);
}

proof fn lemma_entity(w: World, id: u32)
    requires
        is_crewed(w),
    ensures
        entity_of(w, id) == row(w.entities, id),
        entity_of(w, id) matches Some(e) ==> is_settled(w, e) && e.id == id,
{
    lemma_find(w.entities, id);
}

/// A player with a ship of their own, or none, is put into the world.
proof fn lemma_with_player(w: World, p: ServerPlayer)
    requires
        is_crewed(w),
        has_ship(w, p),
        player_of(w, p.id) is Some,
    ensures
        is_crewed(with_player(w, p)),
        comes_from(with_player(w, p), w, 0),
        has_ship(with_player(w, p), p),
        player_of(with_player(w, p), p.id) == Some(p),
{
    law_put_keeps_distinct(w.players, p);
    lemma_find(w.players, p.id);
    let r = with_player(w, p);
    assert forall|i: int| 0 <= i < r.players.len() implies has_ship(r, #[trigger] r.players[i]) by {
        let k = find(w.players, p.id)->0;
        if i != k {
            assert(r.players[i] == w.players[i]);
            assert(has_ship(w, w.players[i]));
        }
    }
    assert forall|i: int| 0 <= i < r.entities.len() implies is_settled(
        r,
        #[trigger] r.entities[i],
    ) by {
        assert(is_settled(w, w.entities[i]));
    }
}

/// An entity that is no planet changes, and keeps its kind, its owner and its time.
proof fn lemma_with_entity(w: World, e: ServerEntity)
    requires
        is_crewed(w),
        entity_of(w, e.id) matches Some(d) && d.kind == e.kind && d.owner == e.owner && d.lifetime
            == e.lifetime && d.travel_remaining == e.travel_remaining,
        e.kind != EntityKind::Planet,
        lasts(e),
    ensures
        is_crewed(with_entity(w, e)),
        comes_from(with_entity(w, e), w, 0),
        entity_of(with_entity(w, e), e.id) == Some(e),
        forall|p: ServerPlayer| has_ship(w, p) ==> #[trigger] has_ship(with_entity(w, e), p),
{
    let r = with_entity(w, e);
    law_put_keeps_distinct(w.entities, e);
    lemma_find(w.entities, e.id);
    let k = find(w.entities, e.id)->0;
    assert(is_settled(w, w.entities[k]));
    assert forall|id: u32| #[trigger] row(r.entities, id) == if id == e.id {
        Some(e)
    } else {
        row(w.entities, id)
    } by {
        if id != e.id {
            law_put_leaves_the_others(w.entities, e, id);
        }
    }
    assert forall|i: int| 0 <= i < r.entities.len() implies is_settled(
        r,
        #[trigger] r.entities[i],
    ) by {
        if i != k {
            assert(r.entities[i] == w.entities[i]);
            assert(is_settled(w, w.entities[i]));
        }
    }
    if all_live(w) {
        assert forall|i: int| 0 <= i < r.entities.len() implies lives(
            #[trigger] r.entities[i],
        ) by {
            assert(lives(w.entities[i]));
        }
    }
    assert forall|i: int| 0 <= i < r.players.len() implies has_ship(r, #[trigger] r.players[i]) by {
        assert(has_ship(w, w.players[i]));
    }
}

/// An entity appears under the next id.
proof fn lemma_joined(w: World, e: ServerEntity)
    requires
        is_crewed(w),
        w.next_entity_id < u32::MAX,
        e.id == w.next_entity_id,
        e.kind != EntityKind::Planet,
        lives(e),
        lasts(e),
    ensures
        is_crewed(joined(w, e)),
        comes_from(joined(w, e), w, 1),
        entity_of(joined(w, e), e.id) == Some(e),
        forall|p: ServerPlayer| has_ship(w, p) ==> #[trigger] has_ship(joined(w, e), p),
{
    let r = joined(w, e);
    law_put_keeps_distinct(w.entities, e);
    lemma_find(w.entities, e.id);
    assert(find(w.entities, e.id) is None) by {
        if find(w.entities, e.id) is Some {
            assert(is_settled(w, w.entities[find(w.entities, e.id)->0]));
        }
    }
    assert(r.entities == w.entities.push(e));
    assert forall|id: u32| id != e.id implies #[trigger] row(r.entities, id) == row(
        w.entities,
        id,
    ) by {
        law_put_leaves_the_others(w.entities, e, id);
    }
    law_put_is_found(w.entities, e);
    if all_live(w) {
        assert forall|i: int| 0 <= i < r.entities.len() implies lives(
            #[trigger] r.entities[i],
        ) by {
            if i < w.entities.len() {
                assert(lives(w.entities[i]));
            }
        }
    }
    assert forall|i: int| 0 <= i < r.entities.len() implies is_settled(
        r,
        #[trigger] r.entities[i],
    ) by {
        if i < w.entities.len() {
            assert(r.entities[i] == w.entities[i]);
            assert(is_settled(w, w.entities[i]));
        }
    }
    assert forall|p: ServerPlayer| has_ship(w, p) implies #[trigger] has_ship(r, p) by {
        if p.entity_id is Some {
            assert(row(r.entities, p.entity_id->0) == row(w.entities, p.entity_id->0));
        }
        if p.phaser_beam_entity is Some {
            assert(row(r.entities, p.phaser_beam_entity->0) == row(
                w.entities,
                p.phaser_beam_entity->0,
            ));
        }
    }
    assert forall|i: int| 0 <= i < r.players.len() implies has_ship(r, #[trigger] r.players[i]) by {
        assert(has_ship(w, w.players[i]));
    }
}

/// Whether no player flies the entity with an id.
spec fn is_free(w: World, id: u32) -> bool {
    forall|i: int| 0 <= i < w.players.len() ==> (#[trigger] w.players[i]).entity_id != Some(id)
}

/// What is no ship, nobody flies.
proof fn lemma_free(w: World, id: u32)
    requires
        is_crewed(w),
        row(w.entities, id) matches Some(e) ==> e.kind != EntityKind::Ship,
    ensures
        is_free(w, id),
{
    assert forall|i: int| 0 <= i < w.players.len() implies (#[trigger] w.players[i]).entity_id
        != Some(id) by {
        assert(has_ship(w, w.players[i]));
    }
}

/// What is found when one entity has gone.
proof fn lemma_without_rows(es: Seq<ServerEntity>, id: u32)
    requires
        distinct(es),
    ensures
        distinct(without(es, id)),
        row(without(es, id), id) is None,
        forall|other: u32|
            other != id ==> #[trigger] row(without(es, id), other) == row(es, other),
        forall|i: int|
            0 <= i < without(es, id).len() ==> es.contains(#[trigger] without(es, id)[i]),
        without(es, id).len() <= es.len(),
{
    law_without_keeps_distinct(es, id);
    lemma_find(es, id);
    assert forall|other: u32| other != id implies #[trigger] row(without(es, id), other) == row(
        es,
        other,
    ) by {
        law_without_leaves_the_others(es, id, other);
    }
    assert forall|i: int| 0 <= i < without(es, id).len() implies es.contains(
        #[trigger] without(es, id)[i],
    ) by {
        match find(es, id) {
            Some(k) => {
                let j = if i < k {
                    i
                } else {
                    i + 1
                };
                assert(without(es, id)[i] == es[j]);
            },
            None => {},
        }
    }
}

/// An entity that nobody flies, and that is no planet, goes.
proof fn lemma_without(w: World, id: u32)
    requires
        is_crewed(w),
        is_free(w, id),
        !is_planet(row(w.entities, id)),
    ensures
        is_crewed(without_entity(w, id)),
        comes_from(without_entity(w, id), w, 0),
        row(without_entity(w, id).entities, id) is None,
        forall|other: u32|
            other != id ==> #[trigger] row(without_entity(w, id).entities, other) == row(
                w.entities,
                other,
            ),
{
    let r = without_entity(w, id);
    lemma_without_rows(w.entities, id);
    assert forall|i: int| 0 <= i < r.entities.len() implies is_settled(
        r,
        #[trigger] r.entities[i],
    ) by {
        let j = choose|j: int| 0 <= j < w.entities.len() && w.entities[j] == r.entities[i];
        assert(is_settled(w, w.entities[j]));
    }
    if all_live(w) {
        assert forall|i: int| 0 <= i < r.entities.len() implies lives(
            #[trigger] r.entities[i],
        ) by {
            assert(w.entities.contains(r.entities[i]));
            let j = choose|j: int| 0 <= j < w.entities.len() && w.entities[j] == r.entities[i];
            assert(lives(w.entities[j]));
        }
    }
    assert forall|i: int| 0 <= i < r.players.len() implies has_ship(r, #[trigger] r.players[i]) by {
        assert(has_ship(w, w.players[i]));
    }
}

/// A ship that has lost its player is flown by nobody else.
proof fn lemma_left_ship_is_free(w: World, p: ServerPlayer, ps: Seq<ServerPlayer>, eid: u32)
    requires
        is_crewed(w),
        has_ship(w, p),
        p.entity_id == Some(eid),
        forall|i: int|
            0 <= i < ps.len() ==> (#[trigger] ps[i]).entity_id is None || ps[i].id != p.id
                && w.players.contains(ps[i]),
    ensures
        is_free((World { players: ps, ..w }), eid),
{
    assert forall|i: int| 0 <= i < ps.len() implies (#[trigger] ps[i]).entity_id != Some(eid) by {
        if ps[i].entity_id is Some {
            let j = choose|j: int| 0 <= j < w.players.len() && w.players[j] == ps[i];
            assert(has_ship(w, w.players[j]));
        }
    }
}

proof fn lemma_felled(w: World, victim: u32, self_destruct: bool)
    requires
        is_crewed(w),
    ensures
        is_crewed(felled(w, victim, self_destruct)),
        comes_from(felled(w, victim, self_destruct), w, 0),
{
    lemma_player(w, victim);
    if player_of(w, victim) is Some {
        let p = player_of(w, victim)->0;
        let q = fallen(p, self_destruct);
        let w1 = with_player(w, q);
        lemma_with_player(w, q);
        lemma_find(w.players, victim);
        let k = find(w.players, victim)->0;
        assert(w1.players == w.players.update(k, q));
        if p.entity_id is Some {
            let eid = p.entity_id->0;
            assert forall|i: int| 0 <= i < w1.players.len() implies (
            #[trigger] w1.players[i]).entity_id is None || w1.players[i].id != p.id
                && w.players.contains(w1.players[i]) by {
                if i != k {
                    assert(w1.players[i] == w.players[i]);
                    if i < k {
                        assert(w.players[i].key() != w.players[k].key());
                    } else {
                        assert(w.players[k].key() != w.players[i].key());
                    }
                }
            }
            lemma_left_ship_is_free(w, p, w1.players, eid);
            lemma_without(w1, eid);
        }
        let w2 = without_any(w1, p.entity_id);
        lemma_chain(w, w1, w2, 0, 0);
        if p.phaser_beam_entity is Some {
            let b = p.phaser_beam_entity->0;
            lemma_free(w2, b);
            lemma_without(w2, b);
            lemma_chain(w, w2, without_entity(w2, b), 0, 0);
        }
    }
}

/// A player's account changes.
proof fn lemma_account(w: World, p: ServerPlayer, q: ServerPlayer)
    requires
        is_crewed(w),
        player_of(w, p.id) == Some(p),
        q.id == p.id,
        q.entity_id == p.entity_id,
        q.phaser_beam_entity == p.phaser_beam_entity,
    ensures
        is_crewed(with_player(w, q)),
        comes_from(with_player(w, q), w, 0),
        player_of(with_player(w, q), q.id) == Some(q),
{
    lemma_player(w, p.id);
    lemma_with_player(w, q);
}

proof fn lemma_credited(w: World, killer: Option<u32>)
    requires
        is_crewed(w),
    ensures
        is_crewed(credited(w, killer)),
        comes_from(credited(w, killer), w, 0),
{
    if killer is Some {
        lemma_player(w, killer->0);
        if player_of(w, killer->0) is Some {
            let p = player_of(w, killer->0)->0;
            lemma_account(w, p, ServerPlayer { kills: next_id(p.kills), ..p });
        }
    }
}

proof fn lemma_scored(w: World, scorer: Option<u32>, points: u32)
    requires
        is_crewed(w),
    ensures
        is_crewed(scored(w, scorer, points)),
        comes_from(scored(w, scorer, points), w, 0),
{
    if scorer is Some {
        lemma_player(w, scorer->0);
        if player_of(w, scorer->0) is Some {
            let p = player_of(w, scorer->0)->0;
            lemma_account(w, p, ServerPlayer { score: more(p.score, points), ..p });
        }
    }
}

proof fn lemma_exploded(w: World, x: Single, y: Single)
    requires
        is_crewed(w),
        w.next_entity_id < u32::MAX,
    ensures
        is_crewed(exploded(w, x, y)),
        comes_from(exploded(w, x, y), w, 1),
{
    lemma_spans();
    lemma_joined(w, explosion_at(w.next_entity_id, x, y));
}

proof fn lemma_pieces(
    w: World,
    n: nat,
    x: Single,
    y: Single,
    vx: Single,
    vy: Single,
    t: Trace,
)
    requires
        is_crewed(w),
        w.next_entity_id + n <= u32::MAX,
    ensures
        is_crewed(pieces_spawned(w, n, x, y, vx, vy, t).0),
        comes_from(pieces_spawned(w, n, x, y, vx, vy, t).0, w, n),
    decreases n,
{
    if n > 0 {
        lemma_pieces(w, (n - 1) as nat, x, y, vx, vy, t);
        let (w1, t1) = pieces_spawned(w, (n - 1) as nat, x, y, vx, vy, t);
        let spread = told(t1, 0, any_angle());
        let speed = told(t1, 1, Ask::Uniform(from_whole(30), from_whole(120)));
        let spin = told(t1, 2, Ask::Uniform(from_whole(-3), from_whole(3)));
        let c = told(t1, 3, Ask::Cos(spread));
        let s = told(t1, 4, Ask::Sin(spread));
        let angle = told(t1, 5, any_angle());
        let e = debris_at(
            w1.next_entity_id,
            x,
            y,
            sum(vx, product(c, speed)),
            sum(vy, product(s, speed)),
            angle,
            spin,
        );
        lemma_spans();
        lemma_joined(w1, e);
        lemma_chain(w, w1, joined(w1, e), (n - 1) as nat, 1);
    }
}

/// What is announced changes nothing else.
proof fn lemma_announced(w: World, d: Death)
    requires
        is_crewed(w),
    ensures
        is_crewed(announced(w, d)),
        comes_from(announced(w, d), w, 0),
{
    let r = announced(w, d);
    assert forall|i: int| 0 <= i < r.players.len() implies has_ship(r, #[trigger] r.players[i]) by {
        assert(has_ship(w, w.players[i]));
    }
    assert forall|i: int| 0 <= i < r.entities.len() implies is_settled(
        r,
        #[trigger] r.entities[i],
    ) by {
        assert(is_settled(w, w.entities[i]));
    }
}

proof fn lemma_killed(
    w: World,
    victim: u32,
    killer: Option<u32>,
    self_destruct: bool,
    t: Trace,
)
    requires
        is_crewed(w),
        w.next_entity_id + 5 <= u32::MAX,
    ensures
        is_crewed(killed(w, victim, killer, self_destruct, t).0),
        comes_from(killed(w, victim, killer, self_destruct, t).0, w, 5),
{
    let (x, y, vx, vy) = match ship_of(w, victim) {
        Some(e) => (e.x, e.y, e.vx, e.vy),
        None => (zero(), zero(), zero(), zero()),
    };
    lemma_felled(w, victim, self_destruct);
    let w1 = felled(w, victim, self_destruct);
    lemma_credited(w1, killer);
    let w2 = credited(w1, killer);
    lemma_chain(w, w1, w2, 0, 0);
    lemma_exploded(w2, x, y);
    let w3 = exploded(w2, x, y);
    lemma_chain(w, w2, w3, 0, 1);
    lemma_pieces(w3, 4, x, y, vx, vy, t);
    let w4 = pieces_spawned(w3, 4, x, y, vx, vy, t).0;
    lemma_chain(w, w3, w4, 1, 4);
    lemma_announced(w4, Death { victim, killer, self_destruct });
    lemma_chain(w, w4, announced(w4, Death { victim, killer, self_destruct }), 5, 0);
}

proof fn lemma_damaged(
    w: World,
    victim: u32,
    dmg: Single,
    killer: Option<u32>,
    self_destruct: bool,
    t: Trace,
)
    requires
        is_crewed(w),
        w.next_entity_id + 5 <= u32::MAX,
    ensures
        is_crewed(damaged(w, victim, dmg, killer, self_destruct, t).0),
        comes_from(damaged(w, victim, dmg, killer, self_destruct, t).0, w, 5),
{
    lemma_player(w, victim);
    if player_of(w, victim) is Some {
        let p = player_of(w, victim)->0;
        let q = struck(p, dmg);
        let w1 = with_player(w, q);
        lemma_account(w, p, q);
        if le(q.hull, zero()) {
            lemma_killed(w1, victim, killer, self_destruct, t);
            lemma_chain(w, w1, killed(w1, victim, killer, self_destruct, t).0, 0, 5);
        } else {
            lemma_widen(w1, w, 0, 5);
        }
    }
}

proof fn lemma_smalls(w: World, n: nat, x: Single, y: Single, t: Trace)
    requires
        is_crewed(w),
        w.next_entity_id + n <= u32::MAX,
    ensures
        is_crewed(smalls_spawned(w, n, x, y, t).0),
        comes_from(smalls_spawned(w, n, x, y, t).0, w, n),
    decreases n,
{
    if n > 0 {
        lemma_smalls(w, (n - 1) as nat, x, y, t);
        let (w1, t1) = smalls_spawned(w, (n - 1) as nat, x, y, t);
        let speed = told(t1, 1, Ask::Uniform(from_whole(30), from_whole(80)));
        let drift = told(t1, 0, any_angle());
        let c = told(t1, 2, Ask::Cos(drift));
        let s = told(t1, 3, Ask::Sin(drift));
        let angle = told(t1, 4, any_angle());
        let e = asteroid_at(
            w1.next_entity_id,
            false,
            x,
            y,
            product(c, speed),
            product(s, speed),
            angle,
        );
        lemma_joined(w1, e);
        lemma_chain(w, w1, joined(w1, e), (n - 1) as nat, 1);
    }
}

proof fn lemma_asteroid_damaged(
    w: World,
    id: u32,
    dmg: Single,
    scorer: Option<u32>,
    t: Trace,
)
    requires
        is_crewed(w),
        w.next_entity_id + 5 <= u32::MAX,
    ensures
        is_crewed(asteroid_damaged(w, id, dmg, scorer, t).0),
        comes_from(asteroid_damaged(w, id, dmg, scorer, t).0, w, 5),
{
    lemma_entity(w, id);
    if entity_of(w, id) is Some && entity_of(w, id)->0.health is Some {
        let e = entity_of(w, id)->0;
        let left = difference(e.health->0, dmg);
        let hit = ServerEntity { health: Some(left), ..e };
        let w1 = with_entity(w, hit);
        lemma_with_entity(w, hit);
        lemma_widen(w1, w, 0, 5);
        lemma_entity(w1, id);
        lemma_free(w1, id);
        let w2 = without_entity(w1, id);
        lemma_without(w1, id);
        lemma_chain(w, w1, w2, 0, 0);
        let w3 = exploded(w2, e.x, e.y);
        lemma_exploded(w2, e.x, e.y);
        lemma_chain(w, w2, w3, 0, 1);
        lemma_scored(w3, scorer, 1);
        lemma_chain(w, w3, scored(w3, scorer, 1), 1, 0);
        lemma_widen(scored(w3, scorer, 1), w, 1, 5);
        let n = told_count(t, 0, 1, 4);
        let w4 = smalls_spawned(w3, n as nat, e.x, e.y, past_count(t, 1, 4)).0;
        lemma_smalls(w3, n as nat, e.x, e.y, past_count(t, 1, 4));
        lemma_chain(w, w3, w4, 1, n as nat);
        lemma_scored(w4, scorer, 3);
        lemma_chain(w, w4, scored(w4, scorer, 3), 1 + n as nat, 0);
        lemma_widen(scored(w4, scorer, 3), w, 1 + n as nat, 5);
    } else {
        lemma_widen(w, w, 0, 5);
    }
}

proof fn lemma_wounded(w: World, blows: Seq<Blow>, t: Trace)
    requires
        is_crewed(w),
        w.next_entity_id + 5 * blows.len() <= u32::MAX,
    ensures
        is_crewed(wounded(w, blows, t).0),
        comes_from(wounded(w, blows, t).0, w, 5 * blows.len()),
    decreases blows.len(),
{
    if blows.len() > 0 {
        let front = blows.drop_last();
        lemma_wounded(w, front, t);
        let (w1, t1) = wounded(w, front, t);
        let b = blows.last();
        lemma_damaged(w1, b.id, b.dmg, b.by, false, t1);
        lemma_chain(w, w1, damaged(w1, b.id, b.dmg, b.by, false, t1).0, 5 * front.len(), 5);
    }
}

proof fn lemma_chipped(w: World, blows: Seq<Blow>, t: Trace)
    requires
        is_crewed(w),
        w.next_entity_id + 5 * blows.len() <= u32::MAX,
    ensures
        is_crewed(chipped(w, blows, t).0),
        comes_from(chipped(w, blows, t).0, w, 5 * blows.len()),
    decreases blows.len(),
{
    if blows.len() > 0 {
        let front = blows.drop_last();
        lemma_chipped(w, front, t);
        let (w1, t1) = chipped(w, front, t);
        let b = blows.last();
        lemma_asteroid_damaged(w1, b.id, b.dmg, b.by, t1);
        lemma_chain(w, w1, asteroid_damaged(w1, b.id, b.dmg, b.by, t1).0, 5 * front.len(), 5);
    }
}

/// Whether an id has been given, and neither to a ship nor to a planet.
spec fn is_fair_game(w: World, id: u32) -> bool {
    is_loose(w, id) && (row(w.entities, id) matches Some(e) ==> e.kind != EntityKind::Ship)
}

/// Whether no blast is meant for a ship or a planet.
spec fn spare_ships(w: World, blasts: Seq<Blast>) -> bool {
    forall|i: int| 0 <= i < blasts.len() ==> is_fair_game(w, (#[trigger] blasts[i]).id)
}

proof fn lemma_burst(w: World, blasts: Seq<Blast>)
    requires
        is_crewed(w),
        spare_ships(w, blasts),
        w.next_entity_id + blasts.len() <= u32::MAX,
    ensures
        is_crewed(burst(w, blasts)),
        comes_from(burst(w, blasts), w, blasts.len()),
    decreases blasts.len(),
{
    if blasts.len() > 0 {
        let front = blasts.drop_last();
        assert(spare_ships(w, front)) by {
            assert forall|i: int| 0 <= i < front.len() implies is_fair_game(
                w,
                (#[trigger] front[i]).id,
            ) by {
                assert(front[i] == blasts[i]);
            }
        }
        lemma_burst(w, front);
        let w1 = burst(w, front);
        let b = blasts.last();
        assert(b == blasts[blasts.len() - 1]);
        assert(row(w1.entities, b.id) matches Some(e) ==> row(w.entities, b.id) is Some);
        lemma_loose(w1, w, front.len(), b.id);
        lemma_free(w1, b.id);
        lemma_without(w1, b.id);
        let w2 = without_entity(w1, b.id);
        lemma_chain(w, w1, w2, front.len(), 0);
        if b.seen {
            lemma_exploded(w2, b.x, b.y);
            lemma_chain(w, w2, exploded(w2, b.x, b.y), front.len(), 1);
        } else {
            lemma_widen(w2, w, front.len(), blasts.len());
        }
    }
}

/// What a selection takes is found under its id.
proof fn lemma_picked_row(w: World, pick: Pick, p: ServerEntity)
    requires
        is_crewed(w),
        picked(w.entities, pick).contains(p),
    ensures
        row(w.entities, p.id) == Some(p),
        p.id < w.next_entity_id,
        takes(pick, p),
{
    let s = picked(w.entities, pick);
    lemma_picked(w.entities, pick);
    let i = choose|i: int| 0 <= i < s.len() && s[i] == p;
    assert(w.entities.contains(s[i]));
    let j = choose|j: int| 0 <= j < w.entities.len() && w.entities[j] == p;
    lemma_row_at(w.entities, j);
    assert(is_settled(w, w.entities[j]));
}

/// Whether every blast is the end of one of the entities.
spec fn ends_of(blasts: Seq<Blast>, ps: Seq<ServerEntity>) -> bool {
    forall|i: int|
        0 <= i < blasts.len() ==> exists|j: int|
            0 <= j < ps.len() && (#[trigger] ps[j]).id == (#[trigger] blasts[i]).id
}

/// One more end of one of the entities.
proof fn lemma_one_more_end(blasts: Seq<Blast>, ps: Seq<ServerEntity>, b: Blast)
    requires
        ps.len() > 0,
        ends_of(blasts, ps.drop_last()),
        b.id == ps.last().id,
    ensures
        ends_of(blasts, ps),
        ends_of(blasts.push(b), ps),
{
    let front = ps.drop_last();
    let more = blasts.push(b);
    assert forall|i: int| 0 <= i < more.len() implies exists|j: int|
        0 <= j < ps.len() && (#[trigger] ps[j]).id == (#[trigger] more[i]).id by {
        if i < blasts.len() {
            assert(more[i] == blasts[i]);
            let j = choose|j: int|
                0 <= j < front.len() && (#[trigger] front[j]).id == blasts[i].id;
            assert(ps[j] == front[j]);
        } else {
            assert(ps[ps.len() - 1].id == more[i].id);
        }
    }
    assert forall|i: int| 0 <= i < blasts.len() implies exists|j: int|
        0 <= j < ps.len() && (#[trigger] ps[j]).id == (#[trigger] blasts[i]).id by {
        let j = choose|j: int| 0 <= j < front.len() && (#[trigger] front[j]).id == blasts[i].id;
        assert(ps[j] == front[j]);
    }
}

proof fn lemma_ship_hits(ps: Seq<ServerEntity>, ships: Seq<ServerEntity>)
    ensures
        ends_of(ship_hits(ps, ships).1, ps),
        ship_hits(ps, ships).0.len() <= ps.len(),
        ship_hits(ps, ships).1.len() <= ps.len(),
    decreases ps.len(),
{
    if ps.len() > 0 {
        lemma_ship_hits(ps.drop_last(), ships);
        lemma_one_more_end(ship_hits(ps.drop_last(), ships).1, ps, spent(ps.last()));
    }
}

proof fn lemma_rock_hits(
    ps: Seq<ServerEntity>,
    ships: Seq<ServerEntity>,
    rocks: Seq<ServerEntity>,
)
    ensures
        ends_of(rock_hits(ps, ships, rocks).1, ps),
        rock_hits(ps, ships, rocks).0.len() <= ps.len(),
        rock_hits(ps, ships, rocks).1.len() <= ps.len(),
    decreases ps.len(),
{
    if ps.len() > 0 {
        lemma_rock_hits(ps.drop_last(), ships, rocks);
        lemma_one_more_end(rock_hits(ps.drop_last(), ships, rocks).1, ps, spent(ps.last()));
    }
}

proof fn lemma_planet_hits(ts: Seq<ServerEntity>, planets: Seq<ServerEntity>)
    ensures
        ends_of(planet_hits(ts, planets), ts),
        planet_hits(ts, planets).len() <= ts.len(),
    decreases ts.len(),
{
    if ts.len() > 0 {
        lemma_planet_hits(ts.drop_last(), planets);
        let p = ts.last();
        lemma_one_more_end(
            planet_hits(ts.drop_last(), planets),
            ts,
            Blast { id: p.id, x: p.x, y: p.y, seen: true },
        );
    }
}

/// The ends of what is neither ship nor planet spare both.
proof fn lemma_ends_spare(w: World, blasts: Seq<Blast>, pick: Pick)
    requires
        is_crewed(w),
        ends_of(blasts, picked(w.entities, pick)),
        pick != Pick::Ships,
        pick != Pick::Planets,
    ensures
        spare_ships(w, blasts),
{
    let ps = picked(w.entities, pick);
    assert forall|i: int| 0 <= i < blasts.len() implies is_fair_game(
        w,
        (#[trigger] blasts[i]).id,
    ) by {
        let j = choose|j: int| 0 <= j < ps.len() && (#[trigger] ps[j]).id == blasts[i].id;
        assert(ps.contains(ps[j]));
        lemma_picked_row(w, pick, ps[j]);
    }
}

proof fn lemma_shot_down(w: World, t: Trace)
    requires
        is_crewed(w),
        w.next_entity_id + 12 * w.entities.len() <= u32::MAX,
    ensures
        is_crewed(shot_down(w, t).0),
        comes_from(shot_down(w, t).0, w, 12 * w.entities.len()),
{
    let n = w.entities.len();
    let ps = picked(w.entities, Pick::Projectiles);
    let ships = picked(w.entities, Pick::Ships);
    let rocks = picked(w.entities, Pick::Rocks);
    lemma_picked(w.entities, Pick::Projectiles);
    lemma_ship_hits(ps, ships);
    lemma_rock_hits(ps, ships, rocks);
    let (b1, s1) = ship_hits(ps, ships);
    let (b2, s2) = rock_hits(ps, ships, rocks);
    lemma_ends_spare(w, s1, Pick::Projectiles);
    lemma_ends_spare(w, s2, Pick::Projectiles);
    assert(spare_ships(w, s1 + s2)) by {
        assert forall|i: int| 0 <= i < (s1 + s2).len() implies is_fair_game(
            w,
            (#[trigger] (s1 + s2)[i]).id,
        ) by {
            if i < s1.len() {
                assert((s1 + s2)[i] == s1[i]);
            } else {
                assert((s1 + s2)[i] == s2[i - s1.len()]);
            }
        }
    }
    lemma_burst(w, s1 + s2);
    let w1 = burst(w, s1 + s2);
    lemma_widen(w1, w, (s1 + s2).len(), 2 * n);
    lemma_wounded(w1, b1, t);
    let (w2, t2) = wounded(w1, b1, t);
    lemma_widen(w2, w1, 5 * b1.len(), 5 * n);
    lemma_chain(w, w1, w2, 2 * n, 5 * n);
    lemma_chipped(w2, b2, t2);
    let w3 = chipped(w2, b2, t2).0;
    lemma_widen(w3, w2, 5 * b2.len(), 5 * n);
    lemma_chain(w, w2, w3, 7 * n, 5 * n);
}

/// Whether none of the entities is a planet of the world.
spec fn are_loose(w: World, es: Seq<ServerEntity>) -> bool {
    forall|i: int| 0 <= i < es.len() ==> is_loose(w, (#[trigger] es[i]).id)
}

/// What a selection takes is no planet, unless it takes the planets.
proof fn lemma_picked_loose(w: World, pick: Pick)
    requires
        is_crewed(w),
        pick != Pick::Planets,
    ensures
        are_loose(w, picked(w.entities, pick)),
{
    let ps = picked(w.entities, pick);
    assert forall|i: int| 0 <= i < ps.len() implies is_loose(w, (#[trigger] ps[i]).id) by {
        assert(ps.contains(ps[i]));
        lemma_picked_row(w, pick, ps[i]);
    }
}

proof fn lemma_loose_front(w: World, es: Seq<ServerEntity>)
    requires
        es.len() > 0,
        are_loose(w, es),
    ensures
        are_loose(w, es.drop_last()),
        is_loose(w, es.last().id),
{
    let front = es.drop_last();
    assert forall|i: int| 0 <= i < front.len() implies is_loose(w, (#[trigger] front[i]).id) by {
        assert(front[i] == es[i]);
    }
    assert(es[es.len() - 1] == es.last());
}

proof fn lemma_grounded(w: World, ships: Seq<ServerEntity>, planets: Seq<ServerEntity>)
    requires
        is_crewed(w),
        are_loose(w, ships),
    ensures
        is_crewed(grounded(w, ships, planets).0),
        comes_from(grounded(w, ships, planets).0, w, 0),
        grounded(w, ships, planets).1.len() <= ships.len(),
    decreases ships.len(),
{
    if ships.len() > 0 {
        lemma_loose_front(w, ships);
        lemma_grounded(w, ships.drop_last(), planets);
        let w1 = grounded(w, ships.drop_last(), planets).0;
        let s = ships.last();
        lemma_loose(w1, w, 0, s.id);
        lemma_entity(w1, s.id);
        if entity_of(w1, s.id) is Some {
            let e = entity_of(w1, s.id)->0;
            if first_met(Contact::ShipPlanet, e, planets) is Some {
                let planet = first_met(Contact::ShipPlanet, e, planets)->0;
                let (nx, ny, push) = normal_of(e, planet, sum(planet.vx, ship_radius()));
                let d = rebounded(e, nx, ny, push, from_fraction(1, 2));
                lemma_with_entity(w1, d);
                lemma_chain(w, w1, with_entity(w1, d), 0, 0);
            }
        }
    }
}

proof fn lemma_planet_struck(w: World, t: Trace)
    requires
        is_crewed(w),
        w.next_entity_id + 11 * w.entities.len() <= u32::MAX,
    ensures
        is_crewed(planet_struck(w, t).0),
        comes_from(planet_struck(w, t).0, w, 11 * w.entities.len()),
{
    let n = w.entities.len();
    let planets = picked(w.entities, Pick::Planets);
    let ts = picked(w.entities, Pick::Torpedoes);
    lemma_picked(w.entities, Pick::Torpedoes);
    lemma_planet_hits(ts, planets);
    let blasts = planet_hits(ts, planets);
    lemma_ends_spare(w, blasts, Pick::Torpedoes);
    lemma_burst(w, blasts);
    let w1 = burst(w, blasts);
    lemma_widen(w1, w, blasts.len(), n);
    let ships = picked(w1.entities, Pick::Ships);
    lemma_picked(w1.entities, Pick::Ships);
    lemma_picked_loose(w1, Pick::Ships);
    lemma_grounded(w1, ships, planets);
    let (w2, blows) = grounded(w1, ships, planets);
    lemma_chain(w, w1, w2, n, 0);
    lemma_wounded(w2, blows, t);
    let w3 = wounded(w2, blows, t).0;
    lemma_widen(w3, w2, 5 * blows.len(), 10 * n);
    lemma_chain(w, w2, w3, n, 10 * n);
}

/// Whether no planet is bumped.
spec fn are_loose_bumps(w: World, bs: Seq<Bump>) -> bool {
    forall|i: int|
        0 <= i < bs.len() ==> is_loose(w, (#[trigger] bs[i]).ship) && is_loose(w, bs[i].rock)
}

proof fn lemma_bumps(w: World, ships: Seq<ServerEntity>, rocks: Seq<ServerEntity>)
    requires
        are_loose(w, ships),
        are_loose(w, rocks),
    ensures
        bumps(ships, rocks).len() <= ships.len(),
        are_loose_bumps(w, bumps(ships, rocks)),
    decreases ships.len(),
{
    if ships.len() > 0 {
        lemma_loose_front(w, ships);
        lemma_bumps(w, ships.drop_last(), rocks);
        let front = bumps(ships.drop_last(), rocks);
        let bs = bumps(ships, rocks);
        lemma_first_met(Contact::ShipRock, ships.last(), rocks);
        assert forall|i: int| 0 <= i < bs.len() implies is_loose(w, (#[trigger] bs[i]).ship)
            && is_loose(w, bs[i].rock) by {
            if i < front.len() {
                assert(bs[i] == front[i]);
            } else {
                let rock = first_met(Contact::ShipRock, ships.last(), rocks)->0;
                let j = choose|j: int| 0 <= j < rocks.len() && rocks[j] == rock;
                assert(is_loose(w, rocks[j].id));
            }
        }
    }
}

proof fn lemma_all_bumped(w: World, bs: Seq<Bump>)
    requires
        is_crewed(w),
        are_loose_bumps(w, bs),
    ensures
        is_crewed(all_bumped(w, bs)),
        comes_from(all_bumped(w, bs), w, 0),
    decreases bs.len(),
{
    if bs.len() > 0 {
        let front = bs.drop_last();
        assert forall|i: int| 0 <= i < front.len() implies is_loose(w, (#[trigger] front[i]).ship)
            && is_loose(w, front[i].rock) by {
            assert(front[i] == bs[i]);
        }
        lemma_all_bumped(w, front);
        let w0 = all_bumped(w, front);
        let b = bs.last();
        assert(b == bs[bs.len() - 1]);
        lemma_loose(w0, w, 0, b.ship);
        lemma_loose(w0, w, 0, b.rock);
        lemma_entity(w0, b.ship);
        let w1 = match entity_of(w0, b.ship) {
            Some(e) => with_entity(w0, rebounded(e, b.nx, b.ny, b.push, from_fraction(3, 5))),
            None => w0,
        };
        if entity_of(w0, b.ship) is Some {
            let e = entity_of(w0, b.ship)->0;
            lemma_with_entity(w0, rebounded(e, b.nx, b.ny, b.push, from_fraction(3, 5)));
            lemma_chain(w, w0, w1, 0, 0);
            lemma_loose(w1, w, 0, b.rock);
        }
        lemma_entity(w1, b.rock);
        if entity_of(w1, b.rock) is Some {
            let e = entity_of(w1, b.rock)->0;
            let d = ServerEntity {
                vx: difference(e.vx, product(b.nx, from_whole(15))),
                vy: difference(e.vy, product(b.ny, from_whole(15))),
                ..e
            };
            lemma_with_entity(w1, d);
            lemma_chain(w, w1, with_entity(w1, d), 0, 0);
        }
    }
}

/// Whether no planet is knocked.
spec fn are_loose_knocks(w: World, ks: Seq<Knock>) -> bool {
    forall|i: int|
        0 <= i < ks.len() ==> is_loose(w, (#[trigger] ks[i]).id1) && is_loose(w, ks[i].id2)
}

proof fn lemma_knocks_with(w: World, rs: Seq<ServerEntity>, i: int, j: int)
    requires
        are_loose(w, rs),
        0 <= i < rs.len(),
        j <= rs.len(),
    ensures
        are_loose_knocks(w, knocks_with(rs, i, j)),
    decreases j - i,
{
    if j > i + 1 {
        lemma_knocks_with(w, rs, i, j - 1);
        let front = knocks_with(rs, i, j - 1);
        let ks = knocks_with(rs, i, j);
        assert forall|k: int| 0 <= k < ks.len() implies is_loose(w, (#[trigger] ks[k]).id1)
            && is_loose(w, ks[k].id2) by {
            if k < front.len() {
                assert(ks[k] == front[k]);
            } else {
                assert(is_loose(w, rs[i].id) && is_loose(w, rs[j - 1].id));
            }
        }
    }
}

proof fn lemma_knocks(w: World, rs: Seq<ServerEntity>, n: nat)
    requires
        are_loose(w, rs),
        n <= rs.len(),
    ensures
        are_loose_knocks(w, knocks(rs, n)),
    decreases n,
{
    if n > 0 {
        lemma_knocks(w, rs, (n - 1) as nat);
        lemma_knocks_with(w, rs, n - 1, rs.len() as int);
        let front = knocks(rs, (n - 1) as nat);
        let more = knocks_with(rs, n - 1, rs.len() as int);
        assert forall|k: int| 0 <= k < (front + more).len() implies is_loose(
            w,
            (#[trigger] (front + more)[k]).id1,
        ) && is_loose(w, (front + more)[k].id2) by {
            if k < front.len() {
                assert((front + more)[k] == front[k]);
            } else {
                assert((front + more)[k] == more[k - front.len()]);
            }
        }
    }
}

proof fn lemma_all_knocked(w: World, ks: Seq<Knock>)
    requires
        is_crewed(w),
        are_loose_knocks(w, ks),
    ensures
        is_crewed(all_knocked(w, ks)),
        comes_from(all_knocked(w, ks), w, 0),
    decreases ks.len(),
{
    if ks.len() > 0 {
        let front = ks.drop_last();
        assert forall|i: int| 0 <= i < front.len() implies is_loose(w, (#[trigger] front[i]).id1)
            && is_loose(w, front[i].id2) by {
            assert(front[i] == ks[i]);
        }
        lemma_all_knocked(w, front);
        let w0 = all_knocked(w, front);
        let k = ks.last();
        assert(k == ks[ks.len() - 1]);
        lemma_loose(w0, w, 0, k.id1);
        lemma_loose(w0, w, 0, k.id2);
        lemma_entity(w0, k.id1);
        let w1 = match entity_of(w0, k.id1) {
            Some(e) => with_entity(
                w0,
                ServerEntity {
                    x: shifted(e.x, product(k.nx, k.push1)),
                    y: shifted(e.y, product(k.ny, k.push1)),
                    vx: sum(e.vx, k.dvx1),
                    vy: sum(e.vy, k.dvy1),
                    ..e
                },
            ),
            None => w0,
        };
        if entity_of(w0, k.id1) is Some {
            let e = entity_of(w0, k.id1)->0;
            let d = ServerEntity {
                x: shifted(e.x, product(k.nx, k.push1)),
                y: shifted(e.y, product(k.ny, k.push1)),
                vx: sum(e.vx, k.dvx1),
                vy: sum(e.vy, k.dvy1),
                ..e
            };
            lemma_with_entity(w0, d);
            lemma_chain(w, w0, w1, 0, 0);
            lemma_loose(w1, w, 0, k.id2);
        }
        lemma_entity(w1, k.id2);
        if entity_of(w1, k.id2) is Some {
            let e = entity_of(w1, k.id2)->0;
            let d = ServerEntity {
                x: shifted(e.x, negated(product(k.nx, k.push2))),
                y: shifted(e.y, negated(product(k.ny, k.push2))),
                vx: sum(e.vx, k.dvx2),
                vy: sum(e.vy, k.dvy2),
                ..e
            };
            lemma_with_entity(w1, d);
            lemma_chain(w, w1, with_entity(w1, d), 0, 0);
        }
    }
}

proof fn lemma_crashes(w: World, rocks: Seq<ServerEntity>, planets: Seq<ServerEntity>)
    ensures
        ends_of(crashes(w, rocks, planets), rocks),
        crashes(w, rocks, planets).len() <= rocks.len(),
    decreases rocks.len(),
{
    if rocks.len() > 0 {
        lemma_crashes(w, rocks.drop_last(), planets);
        let id = rocks.last().id;
        let (x, y) = match entity_of(w, id) {
            Some(e) => (e.x, e.y),
            None => (zero(), zero()),
        };
        lemma_one_more_end(
            crashes(w, rocks.drop_last(), planets),
            rocks,
            Blast { id, x, y, seen: true },
        );
    }
}

proof fn lemma_rock_struck(w: World, t: Trace)
    requires
        is_crewed(w),
        w.next_entity_id + 11 * w.entities.len() <= u32::MAX,
    ensures
        is_crewed(rock_struck(w, t).0),
        comes_from(rock_struck(w, t).0, w, 11 * w.entities.len()),
{
    let n = w.entities.len();
    let rocks = picked(w.entities, Pick::Rocks);
    let ships = picked(w.entities, Pick::Ships);
    lemma_picked(w.entities, Pick::Rocks);
    lemma_picked(w.entities, Pick::Ships);
    lemma_picked_loose(w, Pick::Rocks);
    lemma_picked_loose(w, Pick::Ships);
    let bs = bumps(ships, rocks);
    lemma_bumps(w, ships, rocks);
    lemma_all_bumped(w, bs);
    let w0 = all_bumped(w, bs);
    lemma_wounded(w0, ship_bruises(bs), t);
    let (w1, t1) = wounded(w0, ship_bruises(bs), t);
    lemma_widen(w1, w0, 5 * bs.len(), 5 * n);
    lemma_chain(w, w0, w1, 0, 5 * n);
    lemma_chipped(w1, rock_bruises(bs), t1);
    let w2 = chipped(w1, rock_bruises(bs), t1).0;
    lemma_widen(w2, w1, 5 * bs.len(), 5 * n);
    lemma_chain(w, w1, w2, 5 * n, 5 * n);
    let rs = picked(w2.entities, Pick::Rocks);
    lemma_picked_loose(w2, Pick::Rocks);
    lemma_knocks(w2, rs, rs.len());
    lemma_all_knocked(w2, knocks(rs, rs.len()));
    let w3 = all_knocked(w2, knocks(rs, rs.len()));
    lemma_chain(w, w2, w3, 10 * n, 0);
    let planets = picked(w3.entities, Pick::Planets);
    lemma_crashes(w3, rocks, planets);
    let blasts = crashes(w3, rocks, planets);
    lemma_ends_spare(w, blasts, Pick::Rocks);
    assert(spare_ships(w3, blasts)) by {
        assert forall|i: int| 0 <= i < blasts.len() implies is_fair_game(
            w3,
            (#[trigger] blasts[i]).id,
        ) by {
            lemma_loose(w3, w, 10 * n, blasts[i].id);
            assert(row(w3.entities, blasts[i].id) matches Some(e) ==> row(
                w.entities,
                blasts[i].id,
            ) is Some);
        }
    }
    lemma_burst(w3, blasts);
    lemma_widen(burst(w3, blasts), w3, blasts.len(), n);
    lemma_chain(w, w3, burst(w3, blasts), 10 * n, n);
}

proof fn lemma_beam_shown(
    w: World,
    p: ServerPlayer,
    x: Single,
    y: Single,
    angle: Single,
    length: Single,
)
    requires
        is_crewed(w),
        player_of(w, p.id) == Some(p),
        w.next_entity_id < u32::MAX,
    ensures
        ({
            let (r, q) = beam_shown(w, p, x, y, angle, length);
            is_crewed(r) && comes_from(r, w, 1) && player_of(r, p.id) == Some(q) && q.id == p.id
        }),
{
    lemma_player(w, p.id);
    match p.phaser_beam_entity {
        Some(id) => {
            lemma_entity(w, id);
            if entity_of(w, id) is Some {
                let b = entity_of(w, id)->0;
                lemma_with_entity(w, ServerEntity { x, y, angle, vx: length, ..b });
            }
        },
        None => {
            let b = beam_at(w.next_entity_id, p.id, x, y, angle, length);
            lemma_joined(w, b);
            let w1 = joined(w, b);
            let (r, q) = beam_shown(w, p, x, y, angle, length);
            assert(has_ship(w1, p));
            assert(has_ship(w1, q));
            lemma_with_player(w1, q);
            lemma_chain(w, w1, r, 1, 0);
        },
    }
}

proof fn lemma_burnt(w: World, id: u32, hit: Option<(PhaserHit, Single)>, t: Trace)
    requires
        is_crewed(w),
        w.next_entity_id + 5 <= u32::MAX,
    ensures
        is_crewed(burnt(w, id, hit, t).0),
        comes_from(burnt(w, id, hit, t).0, w, 5),
{
    match hit {
        Some((PhaserHit::Ship(victim), dmg)) => {
            lemma_damaged(w, victim, dmg, Some(id), false, t);
        },
        Some((PhaserHit::Asteroid(rock), dmg)) => {
            lemma_asteroid_damaged(w, rock, dmg, Some(id), t);
        },
        None => {
            lemma_widen(w, w, 0, 5);
        },
    }
}

proof fn lemma_beamed(w: World, p: ServerPlayer, e: ServerEntity, fires: bool, t: Trace)
    requires
        is_crewed(w),
        player_of(w, p.id) == Some(p),
        w.next_entity_id + 6 <= u32::MAX,
    ensures
        is_crewed(beamed(w, p, e, fires, t).0),
        comes_from(beamed(w, p, e, fires, t).0, w, 6),
{
    let (dir, reach, t1) = aimed(w, p, e.x, e.y, t);
    let p1 = relocked(w, p);
    let w1 = with_player(w, p1);
    lemma_account(w, p, p1);
    let (length, hit, t2) = cast(w1, e.x, e.y, dir, reach, p.id, t1);
    let (w2, p2) = beam_shown(w1, p1, e.x, e.y, dir, length);
    lemma_beam_shown(w1, p1, e.x, e.y, dir, length);
    lemma_chain(w, w1, w2, 0, 1);
    if fires {
        let w3 = with_player(w2, shot(p2, hit));
        lemma_account(w2, p2, shot(p2, hit));
        lemma_chain(w, w2, w3, 1, 0);
        lemma_burnt(w3, p.id, hit, t2);
        lemma_chain(w, w3, burnt(w3, p.id, hit, t2).0, 1, 5);
    } else {
        lemma_widen(w2, w, 1, 6);
    }
}

proof fn lemma_beam_dropped(w: World, p: ServerPlayer)
    requires
        is_crewed(w),
        player_of(w, p.id) == Some(p),
    ensures
        is_crewed(beam_dropped(w, p)),
        comes_from(beam_dropped(w, p), w, 0),
{
    lemma_player(w, p.id);
    let w1 = without_any(w, p.phaser_beam_entity);
    if p.phaser_beam_entity is Some {
        let b = p.phaser_beam_entity->0;
        lemma_free(w, b);
        lemma_without(w, b);
        if p.entity_id is Some {
            assert(row(w1.entities, p.entity_id->0) == row(w.entities, p.entity_id->0));
        }
    }
    let q = ServerPlayer {
        phaser_beam_entity: None,
        phaser_lock_target: None,
        phaser_min_remaining: zero(),
        ..p
    };
    assert(has_ship(w1, q));
    lemma_with_player(w1, q);
    lemma_chain(w, w1, with_player(w1, q), 0, 0);
}

proof fn lemma_launched(w: World, id: u32, eid: u32, t: Trace)
    requires
        is_crewed(w),
        w.next_entity_id < u32::MAX,
    ensures
        is_crewed(launched(w, id, eid, t).0),
        comes_from(launched(w, id, eid, t).0, w, 1),
{
    lemma_player(w, id);
    if player_of(w, id) is Some {
        let p = player_of(w, id)->0;
        let w1 = with_player(w, fired(p));
        lemma_account(w, p, fired(p));
        lemma_widen(w1, w, 0, 1);
        if entity_of(w, eid) is Some {
            let angle = p.input.mouse_angle;
            let e = torpedo_from(
                w.next_entity_id,
                id,
                entity_of(w, eid)->0,
                class_stats(p.ship_class),
                angle,
                told(t, 0, Ask::Cos(angle)),
                told(t, 1, Ask::Sin(angle)),
            );
            lemma_torpedo_range(p.ship_class);
            lemma_joined(w1, e);
            lemma_chain(w, w1, joined(w1, e), 0, 1);
        }
    } else {
        lemma_widen(w, w, 0, 1);
    }
}

proof fn lemma_piloted(w: World, id: u32, dt: Single, t: Trace)
    requires
        is_crewed(w),
        w.next_entity_id + 7 <= u32::MAX,
    ensures
        is_crewed(piloted(w, id, dt, t).0),
        comes_from(piloted(w, id, dt, t).0, w, 7),
{
    lemma_player(w, id);
    lemma_widen(w, w, 0, 7);
    if player_of(w, id) is Some && player_of(w, id)->0.entity_id is Some {
        let p = player_of(w, id)->0;
        let eid = p.entity_id->0;
        lemma_entity(w, eid);
        let e = entity_of(w, eid)->0;
        let (e1, burnt, t1) = steered(e, p.input, class_stats(p.ship_class), p.fuel, dt, t);
        let w0 = with_entity(w, e1);
        lemma_with_entity(w, e1);
        let p1 = tuned(p, burnt, dt);
        let w1 = with_player(w0, p1);
        lemma_account(w0, p, p1);
        lemma_chain(w, w0, w1, 0, 0);
        let (w2, t2) = if beam_on(p1) {
            beamed(w1, p1, e1, shot_due(p1), t1)
        } else {
            (beam_dropped(w1, p1), t1)
        };
        if beam_on(p1) {
            lemma_beamed(w1, p1, e1, shot_due(p1), t1);
        } else {
            lemma_beam_dropped(w1, p1);
            lemma_widen(w2, w1, 0, 6);
        }
        lemma_chain(w, w1, w2, 0, 6);
        lemma_widen(w2, w, 6, 7);
        if torpedo_due(p1) {
            lemma_launched(w2, p.id, e.id, t2);
            lemma_chain(w, w2, launched(w2, p.id, e.id, t2).0, 6, 1);
        }
    }
}

/// Whether a ship fires neither beam nor torpedo in a tick.
pub open spec fn holds_fire(p: ServerPlayer, e: ServerEntity, dt: Single, t: Trace) -> bool {
    let p1 = tuned(p, steered(e, p.input, class_stats(p.ship_class), p.fuel, dt, t).1, dt);
    !beam_on(p1) && !torpedo_due(p1)
}

/// A ship that fires nothing ends a tick of its pilot where it was steered.
pub proof fn law_ships_fly_as_steered(
    w: World,
    p: ServerPlayer,
    e: ServerEntity,
    dt: Single,
    t: Trace,
)
    requires
        is_crewed(w),
        player_of(w, p.id) == Some(p),
        p.entity_id == Some(e.id),
        entity_of(w, e.id) == Some(e),
        holds_fire(p, e, dt, t),
    ensures
        entity_of(piloted(w, p.id, dt, t).0, e.id) == Some(
            steered(e, p.input, class_stats(p.ship_class), p.fuel, dt, t).0,
        ),
{
    lemma_player(w, p.id);
    lemma_entity(w, e.id);
    let (e1, burnt, t1) = steered(e, p.input, class_stats(p.ship_class), p.fuel, dt, t);
    lemma_with_entity(w, e1);
    let w0 = with_entity(w, e1);
    let p1 = tuned(p, burnt, dt);
    let w1 = with_player(w0, p1);
    lemma_account(w0, p, p1);
    if p1.phaser_beam_entity is Some {
        let b = p1.phaser_beam_entity->0;
        lemma_player(w1, p.id);
        assert(has_ship(w1, p1));
        assert(b != e.id);
        law_without_leaves_the_others(w1.entities, b, e.id);
    }
}

/// Where the pilot aims, the keys that turn the ship change nothing of how it flies, and the ship
/// ends the tick with the aim for its heading, up to three parts in two to the power of 23 of a
/// radian.
pub proof fn law_aimed_ships_ignore_the_turn_keys(
    w: World,
    p: ServerPlayer,
    e: ServerEntity,
    turn_left: bool,
    turn_right: bool,
    dt: Single,
    t: Trace,
)
    requires
        is_crewed(w),
        player_of(w, p.id) == Some(p),
        p.entity_id == Some(e.id),
        entity_of(w, e.id) == Some(e),
        holds_fire(p, e, dt, t),
        p.input.aim_angle matches Some(a) && lt(negated(half_turn()), a) && lt(a, half_turn()),
    ensures
        ({
            let q = ServerPlayer {
                input: PlayerInput { turn_left, turn_right, ..p.input },
                ..p
            };
            let r = entity_of(piloted(w, p.id, dt, t).0, e.id);
            let s = entity_of(piloted(with_player(w, q), p.id, dt, t).0, e.id);
            let a = p.input.aim_angle->0;
            &&& r is Some
            &&& r == s
            &&& r->0.angle.is_finite()
            &&& -3 * pow2(126) <= r->0.angle.value() - a.value() <= 3 * pow2(126)
        }),
{
    let q = ServerPlayer { input: PlayerInput { turn_left, turn_right, ..p.input }, ..p };
    let stats = class_stats(p.ship_class);
    law_aim_takes_priority_over_keys(e, p.input, q.input, stats, p.fuel, dt, t);
    law_ships_fly_as_steered(w, p, e, dt, t);
    lemma_account(w, p, q);
    assert(holds_fire(q, e, dt, t));
    law_ships_fly_as_steered(with_player(w, q), q, e, dt, t);
    law_headings_follow_the_aim(p.input.aim_angle->0);
}

proof fn lemma_all_piloted(w: World, ids: Seq<u32>, dt: Single, t: Trace)
    requires
        is_crewed(w),
        w.next_entity_id + 7 * ids.len() <= u32::MAX,
    ensures
        is_crewed(all_piloted(w, ids, dt, t).0),
        comes_from(all_piloted(w, ids, dt, t).0, w, 7 * ids.len()),
    decreases ids.len(),
{
    if ids.len() > 0 {
        let front = ids.drop_last();
        lemma_all_piloted(w, front, dt, t);
        let (w1, t1) = all_piloted(w, front, dt, t);
        lemma_piloted(w1, ids.last(), dt, t1);
        lemma_chain(w, w1, piloted(w1, ids.last(), dt, t1).0, 7 * front.len(), 7);
    }
}

proof fn lemma_respawned(w: World, id: u32, t: Trace)
    requires
        is_crewed(w),
        w.next_entity_id < u32::MAX,
    ensures
        is_crewed(respawned(w, id, t).0),
        comes_from(respawned(w, id, t).0, w, 1),
{
    let e = ship_at(
        w.next_entity_id,
        id,
        told(t, 0, any_place()),
        told(t, 1, any_place()),
        told(t, 2, any_angle()),
    );
    lemma_joined(w, e);
    let w1 = joined(w, e);
    lemma_player(w1, id);
    lemma_entity(w1, e.id);
    if player_of(w1, id) is Some {
        let q = fresh(player_of(w1, id)->0, e.id);
        assert(has_ship(w1, q));
        lemma_with_player(w1, q);
        lemma_chain(w, w1, with_player(w1, q), 1, 0);
    }
}

proof fn lemma_all_respawned(w: World, ids: Seq<u32>, t: Trace)
    requires
        is_crewed(w),
        w.next_entity_id + ids.len() <= u32::MAX,
    ensures
        is_crewed(all_respawned(w, ids, t).0),
        comes_from(all_respawned(w, ids, t).0, w, ids.len()),
    decreases ids.len(),
{
    if ids.len() > 0 {
        let front = ids.drop_last();
        lemma_all_respawned(w, front, t);
        let (w1, t1) = all_respawned(w, front, t);
        lemma_respawned(w1, ids.last(), t1);
        lemma_chain(w, w1, respawned(w1, ids.last(), t1).0, front.len(), 1);
    }
}

proof fn lemma_ready(ps: Seq<ServerPlayer>, dt: Single)
    ensures
        ready(ps, dt).len() <= ps.len(),
    decreases ps.len(),
{
    if ps.len() > 0 {
        lemma_ready(ps.drop_last(), dt);
    }
}

/// Waiting changes no ship.
proof fn lemma_all_waited(w: World, dt: Single)
    requires
        is_crewed(w),
    ensures
        ({
            let r = World {
                tick: next_tick(w.tick),
                players: all_waited(w.players, dt),
                ..w
            };
            is_crewed(r) && comes_from(r, w, 0)
        }),
{
    let ps = all_waited(w.players, dt);
    let r = World { tick: next_tick(w.tick), players: ps, ..w };
    assert forall|i: int, j: int| 0 <= i < j < ps.len() implies (#[trigger] ps[i]).key() != (
    #[trigger] ps[j]).key() by {
        assert(ps[i] == waited(w.players[i], dt));
        assert(ps[j] == waited(w.players[j], dt));
        assert(w.players[i].key() != w.players[j].key());
    }
    assert forall|i: int| 0 <= i < ps.len() implies has_ship(r, #[trigger] ps[i]) by {
        assert(ps[i] == waited(w.players[i], dt));
        assert(has_ship(w, w.players[i]));
    }
    assert forall|i: int| 0 <= i < r.entities.len() implies is_settled(
        r,
        #[trigger] r.entities[i],
    ) by {
        assert(is_settled(w, w.entities[i]));
    }
}

proof fn lemma_players_ticked(w: World, dt: Single, t: Trace)
    requires
        is_crewed(w),
        w.next_entity_id + 8 * w.players.len() <= u32::MAX,
    ensures
        is_crewed(players_ticked(w, dt, t).0),
        comes_from(players_ticked(w, dt, t).0, w, 8 * w.players.len()),
{
    let n = w.players.len();
    let w0 = World { tick: next_tick(w.tick), players: all_waited(w.players, dt), ..w };
    lemma_all_waited(w, dt);
    lemma_ready(w.players, dt);
    let ids = ready(w.players, dt);
    lemma_all_respawned(w0, ids, t);
    let (w1, t1) = all_respawned(w0, ids, t);
    lemma_widen(w1, w0, ids.len(), n);
    lemma_chain(w, w0, w1, 0, n);
    lemma_all_piloted(w1, ids_of(w1.players), dt, t1);
    let w2 = all_piloted(w1, ids_of(w1.players), dt, t1).0;
    lemma_widen(w2, w1, 7 * w1.players.len(), 7 * n);
    lemma_chain(w, w1, w2, n, 7 * n);
}

/// Rows with the same ids in the same places are found in the same places.
proof fn lemma_same_ids(a: Seq<ServerEntity>, b: Seq<ServerEntity>, id: u32)
    requires
        a.len() == b.len(),
        forall|i: int| 0 <= i < a.len() ==> (#[trigger] a[i]).id == b[i].id,
    ensures
        find(a, id) == find(b, id),
    decreases a.len(),
{
    if a.len() > 0 {
        let c = a.drop_last();
        let d = b.drop_last();
        assert forall|i: int| 0 <= i < c.len() implies (#[trigger] c[i]).id == d[i].id by {
            assert(c[i] == a[i]);
        }
        lemma_same_ids(c, d, id);
        assert(a[a.len() - 1].id == b[b.len() - 1].id);
    }
}

/// Drifting keeps the ids, the kinds and the owners, lets ships last, and leaves planets alone.
proof fn lemma_all_drifted(es: Seq<ServerEntity>, dt: Single, t: Trace)
    ensures
        all_drifted(es, dt, t).0.len() == es.len(),
        forall|i: int|
            0 <= i < es.len() ==> {
                let e = #[trigger] all_drifted(es, dt, t).0[i];
                e.id == es[i].id && e.kind == es[i].kind && e.owner == es[i].owner && (lasts(es[i])
                    ==> lasts(e) && (e.kind == EntityKind::Planet ==> e == es[i]))
            },
    decreases es.len(),
{
    if es.len() > 0 {
        lemma_all_drifted(es.drop_last(), dt, t);
        let front = all_drifted(es.drop_last(), dt, t).0;
        assert forall|i: int| 0 <= i < es.len() implies {
            let e = #[trigger] all_drifted(es, dt, t).0[i];
            e.id == es[i].id && e.kind == es[i].kind && e.owner == es[i].owner && (lasts(es[i])
                ==> lasts(e) && (e.kind == EntityKind::Planet ==> e == es[i]))
        } by {
            if i < front.len() {
                assert(all_drifted(es, dt, t).0[i] == front[i]);
            }
        }
    }
}

/// What lives, lives.
proof fn lemma_living_live(es: Seq<ServerEntity>)
    ensures
        forall|i: int| 0 <= i < living(es).len() ==> lives(#[trigger] living(es)[i]),
    decreases es.len(),
{
    if es.len() > 0 {
        lemma_living_live(es.drop_last());
        let s = living(es.drop_last());
        assert forall|i: int| 0 <= i < living(es).len() implies lives(#[trigger] living(es)[i]) by {
            if i < s.len() {
                assert(living(es)[i] == s[i]);
            }
        }
    }
}

/// What lives is found as before, and nothing else is found.
proof fn lemma_living(es: Seq<ServerEntity>, id: u32)
    requires
        distinct(es),
    ensures
        distinct(living(es)),
        living(es).len() <= es.len(),
        row(living(es), id) == match row(es, id) {
            Some(e) => if lives(e) {
                Some(e)
            } else {
                None
            },
            None => None,
        },
        forall|i: int| 0 <= i < living(es).len() ==> es.contains(#[trigger] living(es)[i]),
    decreases es.len(),
{
    if es.len() > 0 {
        let front = es.drop_last();
        let last = es.last();
        assert forall|i: int, j: int| 0 <= i < j < front.len() implies (#[trigger] front[i]).key()
            != (#[trigger] front[j]).key() by {
            assert(es[i].key() != es[j].key());
        }
        lemma_living(front, id);
        let s = living(front);
        let r = living(es);
        assert forall|i: int| 0 <= i < r.len() implies es.contains(#[trigger] r[i]) by {
            if i < s.len() {
                assert(r[i] == s[i]);
                assert(front.contains(s[i]));
                let j = choose|j: int| 0 <= j < front.len() && front[j] == s[i];
                assert(es[j] == r[i]);
            } else {
                assert(es[es.len() - 1] == r[i]);
            }
        }
        assert forall|i: int, j: int| 0 <= i < j < r.len() implies (#[trigger] r[i]).key() != (
        #[trigger] r[j]).key() by {
            assert(r[i] == s[i]);
            if j < s.len() {
                assert(r[j] == s[j]);
            } else {
                assert(front.contains(s[i]));
                let k = choose|k: int| 0 <= k < front.len() && front[k] == s[i];
                assert(es[k].key() != es[es.len() - 1].key());
            }
        }
        if lives(last) {
            assert(r == s.push(last));
            assert(r.drop_last() =~= s);
        }
        lemma_find(front, id);
        lemma_find(s, id);
        if row(front, id) is Some && last.id == id {
            let k = find(front, id)->0;
            assert(es[k].key() != es[es.len() - 1].key());
        }
    }
}

proof fn lemma_entities_ticked(w: World, dt: Single, t: Trace)
    requires
        is_crewed(w),
        w.next_entity_id < u32::MAX,
    ensures
        is_crewed(entities_ticked(w, dt, t).0),
        comes_from(entities_ticked(w, dt, t).0, w, 1),
        all_live(entities_ticked(w, dt, t).0),
{
    let (es, t1) = all_drifted(w.entities, dt, t);
    lemma_all_drifted(w.entities, dt, t);
    assert forall|i: int, j: int| 0 <= i < j < es.len() implies (#[trigger] es[i]).key() != (
    #[trigger] es[j]).key() by {
        assert(w.entities[i].key() != w.entities[j].key());
    }
    let w1 = World { entities: living(es), ..w };
    lemma_living(es, 0);
    assert forall|id: u32| #[trigger] row(w1.entities, id) matches Some(e) ==> (row(
        w.entities,
        id,
    ) matches Some(d) && d.kind == e.kind) by {
        lemma_living(es, id);
        lemma_same_ids(es, w.entities, id);
        lemma_find(es, id);
    }
    assert forall|id: u32|
        is_planet(#[trigger] row(w1.entities, id)) || is_planet(row(w.entities, id)) implies row(
        w1.entities,
        id,
    ) == row(w.entities, id) by {
        lemma_living(es, id);
        lemma_same_ids(es, w.entities, id);
        lemma_find(es, id);
        if find(es, id) is Some {
            let k = find(es, id)->0;
            assert(is_settled(w, w.entities[k]));
            assert(es[k].kind == w.entities[k].kind);
        }
    }
    lemma_living_live(es);
    assert(all_live(w1));
    assert forall|i: int| 0 <= i < w1.entities.len() implies is_settled(
        w1,
        #[trigger] w1.entities[i],
    ) by {
        assert(es.contains(w1.entities[i]));
        let j = choose|j: int| 0 <= j < es.len() && es[j] == w1.entities[i];
        assert(is_settled(w, w.entities[j]));
    }
    assert forall|i: int| 0 <= i < w1.players.len() implies has_ship(
        w1,
        #[trigger] w1.players[i],
    ) by {
        let p = w.players[i];
        assert(has_ship(w, p));
        if p.entity_id is Some {
            let eid = p.entity_id->0;
            lemma_living(es, eid);
            lemma_same_ids(es, w.entities, eid);
            lemma_find(w.entities, eid);
            let k = find(w.entities, eid)->0;
            assert(is_settled(w, w.entities[k]));
        }
        if p.phaser_beam_entity is Some {
            assert(row(w1.entities, p.phaser_beam_entity->0) matches Some(e) ==> row(
                w.entities,
                p.phaser_beam_entity->0,
            ) is Some);
        }
    }
    assert(comes_from(w1, w, 0));
    let e = drifter(w1.next_entity_id, t1);
    lemma_joined(w1, e);
    lemma_chain(w, w1, joined(w1, e), 0, 1);
    lemma_widen(w1, w, 0, 1);
}

/// Enough ids for whatever may happen in one tick.
pub open spec fn has_ids_for_a_tick(w: World) -> bool {
    w.next_entity_id + 2000 * (w.entities.len() + 8 * w.players.len() + 1) <= u32::MAX
}

proof fn lemma_updated(w: World, dt: Single, t: Trace)
    requires
        is_crewed(w),
        has_ids_for_a_tick(w),
    ensures
        is_crewed(updated(w, dt, t).0),
        keeps_planets(updated(w, dt, t).0, w),
        all_live(updated(w, dt, t).0),
{
    let n = w.entities.len() + 8 * w.players.len() + 1;
    lemma_players_ticked(w, dt, t);
    let (w1, t1) = players_ticked(w, dt, t);
    lemma_entities_ticked(w1, dt, t1);
    let (w2, t2) = entities_ticked(w1, dt, t1);
    lemma_chain(w, w1, w2, 8 * w.players.len(), 1);
    assert(w2.entities.len() <= n);
    lemma_shot_down(w2, t2);
    let (w3, t3) = shot_down(w2, t2);
    assert(w3.entities.len() <= 13 * n);
    lemma_chain(w, w2, w3, 8 * w.players.len() + 1, 12 * w2.entities.len());
    lemma_planet_struck(w3, t3);
    let (w4, t4) = planet_struck(w3, t3);
    assert(w4.entities.len() <= 156 * n);
    let c = 8 * w.players.len() + 1 + 12 * w2.entities.len();
    lemma_chain(w, w3, w4, c, 11 * w3.entities.len());
    lemma_rock_struck(w4, t4);
    let w5 = rock_struck(w4, t4).0;
    lemma_chain(w, w4, w5, c + 11 * w3.entities.len(), 11 * w4.entities.len());
}

/// Every tick leaves every player who is alive a ship in the world, as long as the ids last.
pub proof fn law_ticks_keep_every_ship_crewed(w: World, dt: Single, t: Trace)
    requires
        is_crewed(w),
        has_ids_for_a_tick(w),
    ensures
        is_crewed(updated(w, dt, t).0),
{
    lemma_updated(w, dt, t);
}

proof fn lemma_pieces_tick(w: World, n: nat, x: Single, y: Single, vx: Single, vy: Single, t: Trace)
    ensures
        pieces_spawned(w, n, x, y, vx, vy, t).0.tick == w.tick,
    decreases n,
{
    if n > 0 {
        lemma_pieces_tick(w, (n - 1) as nat, x, y, vx, vy, t);
    }
}

proof fn lemma_damaged_tick(
    w: World,
    victim: u32,
    dmg: Single,
    killer: Option<u32>,
    self_destruct: bool,
    t: Trace,
)
    ensures
        damaged(w, victim, dmg, killer, self_destruct, t).0.tick == w.tick,
{
    if player_of(w, victim) is Some {
        let w0 = with_player(w, struck(player_of(w, victim)->0, dmg));
        let (x, y, vx, vy) = match ship_of(w0, victim) {
            Some(e) => (e.x, e.y, e.vx, e.vy),
            None => (zero(), zero(), zero(), zero()),
        };
        let w1 = exploded(credited(felled(w0, victim, self_destruct), killer), x, y);
        lemma_pieces_tick(w1, 4, x, y, vx, vy, t);
    }
}

proof fn lemma_smalls_tick(w: World, n: nat, x: Single, y: Single, t: Trace)
    ensures
        smalls_spawned(w, n, x, y, t).0.tick == w.tick,
    decreases n,
{
    if n > 0 {
        lemma_smalls_tick(w, (n - 1) as nat, x, y, t);
    }
}

proof fn lemma_asteroid_damaged_tick(
    w: World,
    id: u32,
    dmg: Single,
    scorer: Option<u32>,
    t: Trace,
)
    ensures
        asteroid_damaged(w, id, dmg, scorer, t).0.tick == w.tick,
{
    if entity_of(w, id) is Some && entity_of(w, id)->0.health is Some {
        let e = entity_of(w, id)->0;
        let hit = ServerEntity { health: Some(difference(e.health->0, dmg)), ..e };
        let w1 = exploded(without_entity(with_entity(w, hit), e.id), e.x, e.y);
        lemma_smalls_tick(w1, told_count(t, 0, 1, 4) as nat, e.x, e.y, past_count(t, 1, 4));
    }
}

proof fn lemma_wounded_tick(w: World, blows: Seq<Blow>, t: Trace)
    ensures
        wounded(w, blows, t).0.tick == w.tick,
    decreases blows.len(),
{
    if blows.len() > 0 {
        lemma_wounded_tick(w, blows.drop_last(), t);
        let (w1, t1) = wounded(w, blows.drop_last(), t);
        let b = blows.last();
        lemma_damaged_tick(w1, b.id, b.dmg, b.by, false, t1);
    }
}

proof fn lemma_chipped_tick(w: World, blows: Seq<Blow>, t: Trace)
    ensures
        chipped(w, blows, t).0.tick == w.tick,
    decreases blows.len(),
{
    if blows.len() > 0 {
        lemma_chipped_tick(w, blows.drop_last(), t);
        let (w1, t1) = chipped(w, blows.drop_last(), t);
        let b = blows.last();
        lemma_asteroid_damaged_tick(w1, b.id, b.dmg, b.by, t1);
    }
}

proof fn lemma_burst_tick(w: World, blasts: Seq<Blast>)
    ensures
        burst(w, blasts).tick == w.tick,
    decreases blasts.len(),
{
    if blasts.len() > 0 {
        lemma_burst_tick(w, blasts.drop_last());
    }
}

proof fn lemma_grounded_tick(w: World, ships: Seq<ServerEntity>, planets: Seq<ServerEntity>)
    ensures
        grounded(w, ships, planets).0.tick == w.tick,
    decreases ships.len(),
{
    if ships.len() > 0 {
        lemma_grounded_tick(w, ships.drop_last(), planets);
    }
}

proof fn lemma_all_bumped_tick(w: World, bs: Seq<Bump>)
    ensures
        all_bumped(w, bs).tick == w.tick,
    decreases bs.len(),
{
    if bs.len() > 0 {
        lemma_all_bumped_tick(w, bs.drop_last());
    }
}

proof fn lemma_all_knocked_tick(w: World, ks: Seq<Knock>)
    ensures
        all_knocked(w, ks).tick == w.tick,
    decreases ks.len(),
{
    if ks.len() > 0 {
        lemma_all_knocked_tick(w, ks.drop_last());
    }
}

proof fn lemma_collided_tick(w: World, t: Trace)
    ensures
        collided(w, t).0.tick == w.tick,
{
    let ps = picked(w.entities, Pick::Projectiles);
    let ships = picked(w.entities, Pick::Ships);
    let rocks = picked(w.entities, Pick::Rocks);
    let (b1, s1) = ship_hits(ps, ships);
    let (b2, s2) = rock_hits(ps, ships, rocks);
    lemma_burst_tick(w, s1 + s2);
    let w1 = burst(w, s1 + s2);
    lemma_wounded_tick(w1, b1, t);
    let (w2, t2) = wounded(w1, b1, t);
    lemma_chipped_tick(w2, b2, t2);
    let (w3, t3) = shot_down(w, t);
    let planets = picked(w3.entities, Pick::Planets);
    let blasts = planet_hits(picked(w3.entities, Pick::Torpedoes), planets);
    lemma_burst_tick(w3, blasts);
    let w4 = burst(w3, blasts);
    let afloat = picked(w4.entities, Pick::Ships);
    lemma_grounded_tick(w4, afloat, planets);
    let (w5, blows) = grounded(w4, afloat, planets);
    lemma_wounded_tick(w5, blows, t3);
    let (w6, t6) = planet_struck(w3, t3);
    let bs = bumps(picked(w6.entities, Pick::Ships), picked(w6.entities, Pick::Rocks));
    lemma_all_bumped_tick(w6, bs);
    let w7 = all_bumped(w6, bs);
    lemma_wounded_tick(w7, ship_bruises(bs), t6);
    let (w8, t8) = wounded(w7, ship_bruises(bs), t6);
    lemma_chipped_tick(w8, rock_bruises(bs), t8);
    let w9 = chipped(w8, rock_bruises(bs), t8).0;
    let rs = picked(w9.entities, Pick::Rocks);
    lemma_all_knocked_tick(w9, knocks(rs, rs.len()));
    let w10 = all_knocked(w9, knocks(rs, rs.len()));
    lemma_burst_tick(
        w10,
        crashes(w10, picked(w6.entities, Pick::Rocks), picked(w10.entities, Pick::Planets)),
    );
}

proof fn lemma_piloted_tick(w: World, id: u32, dt: Single, t: Trace)
    ensures
        piloted(w, id, dt, t).0.tick == w.tick,
{
    if player_of(w, id) is Some && player_of(w, id)->0.entity_id is Some {
        let p = player_of(w, id)->0;
        if entity_of(w, p.entity_id->0) is Some {
            let e = entity_of(w, p.entity_id->0)->0;
            let (e1, used, t1) = steered(e, p.input, class_stats(p.ship_class), p.fuel, dt, t);
            let q = tuned(p, used, dt);
            let w1 = with_player(with_entity(w, e1), q);
            let (dir, reach, t2) = aimed(w1, q, e1.x, e1.y, t1);
            let q1 = relocked(w1, q);
            let w2 = with_player(w1, q1);
            let (length, hit, t3) = cast(w2, e1.x, e1.y, dir, reach, q.id, t2);
            let (w3, q2) = beam_shown(w2, q1, e1.x, e1.y, dir, length);
            let w4 = with_player(w3, shot(q2, hit));
            match hit {
                Some((PhaserHit::Ship(victim), dmg)) => {
                    lemma_damaged_tick(w4, victim, dmg, Some(q.id), false, t3);
                },
                Some((PhaserHit::Asteroid(rock), dmg)) => {
                    lemma_asteroid_damaged_tick(w4, rock, dmg, Some(q.id), t3);
                },
                None => {},
            }
        }
    }
}

proof fn lemma_all_piloted_tick(w: World, ids: Seq<u32>, dt: Single, t: Trace)
    ensures
        all_piloted(w, ids, dt, t).0.tick == w.tick,
    decreases ids.len(),
{
    if ids.len() > 0 {
        lemma_all_piloted_tick(w, ids.drop_last(), dt, t);
        let (w1, t1) = all_piloted(w, ids.drop_last(), dt, t);
        lemma_piloted_tick(w1, ids.last(), dt, t1);
    }
}

proof fn lemma_all_respawned_tick(w: World, ids: Seq<u32>, t: Trace)
    ensures
        all_respawned(w, ids, t).0.tick == w.tick,
    decreases ids.len(),
{
    if ids.len() > 0 {
        lemma_all_respawned_tick(w, ids.drop_last(), t);
    }
}

/// A tick counts itself: the number of the tick goes up by one, until the counter starts again.
pub proof fn law_ticks_are_counted(w: World, dt: Single, t: Trace)
    ensures
        updated(w, dt, t).0.tick == next_tick(w.tick),
        w.tick < u64::MAX ==> updated(w, dt, t).0.tick == w.tick + 1,
{
    let w0 = World { tick: next_tick(w.tick), players: all_waited(w.players, dt), ..w };
    let ids = ready(w.players, dt);
    lemma_all_respawned_tick(w0, ids, t);
    let (w1, t1) = all_respawned(w0, ids, t);
    lemma_all_piloted_tick(w1, ids_of(w1.players), dt, t1);
    let (w2, t2) = players_ticked(w, dt, t);
    let (w3, t3) = entities_ticked(w2, dt, t2);
    lemma_collided_tick(w3, t3);
}

/// No tick moves, changes, adds or removes a planet.
pub proof fn law_planets_stay(w: World, dt: Single, t: Trace)
    requires
        is_crewed(w),
        has_ids_for_a_tick(w),
    ensures
        keeps_planets(updated(w, dt, t).0, w),
{
    lemma_updated(w, dt, t);
}

/// After a tick, nothing is left that has outlived its time or used up its range.
pub proof fn law_nothing_outlives_its_time(w: World, dt: Single, t: Trace)
    requires
        is_crewed(w),
        has_ids_for_a_tick(w),
    ensures
        all_live(updated(w, dt, t).0),
{
    lemma_updated(w, dt, t);
}

/// Every event leaves every player who is alive a ship in the world.
pub proof fn law_events_keep_every_ship_crewed(w: World, event: GameEvent, t: Trace)
    requires
        is_crewed(w),
        w.next_entity_id + 5 <= u32::MAX,
    ensures
        is_crewed(handled(w, event, t).0),
{
    lemma_handled(w, event, t);
}

/// No event moves, changes, adds or removes a planet.
pub proof fn law_events_leave_planets(w: World, event: GameEvent, t: Trace)
    requires
        is_crewed(w),
        w.next_entity_id + 5 <= u32::MAX,
    ensures
        keeps_planets(handled(w, event, t).0, w),
{
    lemma_handled(w, event, t);
}

proof fn lemma_handled(w: World, event: GameEvent, t: Trace)
    requires
        is_crewed(w),
        w.next_entity_id + 5 <= u32::MAX,
    ensures
        is_crewed(handled(w, event, t).0),
        keeps_planets(handled(w, event, t).0, w),
{
    match event {
        GameEvent::PlayerJoined { id, username } => {
            lemma_new_player(w, newcomer(id, username));
        },
        GameEvent::PlayerLeft(id) => {
            lemma_departed(w, id);
        },
        GameEvent::PlayerInput { id, input } => {
            lemma_player(w, id);
            if player_of(w, id) is Some {
                let p = player_of(w, id)->0;
                lemma_account(w, p, steered_by(p, input));
            }
        },
        GameEvent::SelectShip { id, class } => {
            lemma_player(w, id);
            if player_of(w, id) is Some {
                let p = player_of(w, id)->0;
                lemma_account(w, p, reclassed(p, class));
            }
        },
        GameEvent::RequestRespawn(id) => {
            lemma_player(w, id);
            if player_of(w, id) is Some {
                let p = player_of(w, id)->0;
                lemma_account(w, p, recalled(p));
            }
        },
        GameEvent::SelfDestruct(id) => {
            lemma_killed(w, id, None, true, t);
        },
    }
}

/// A player without a ship is put into the world.
proof fn lemma_new_player(w: World, p: ServerPlayer)
    requires
        is_crewed(w),
        has_ship(w, p),
    ensures
        is_crewed(with_player(w, p)),
{
    law_put_keeps_distinct(w.players, p);
    lemma_find(w.players, p.id);
    let r = with_player(w, p);
    assert forall|i: int| 0 <= i < r.players.len() implies has_ship(r, #[trigger] r.players[i]) by {
        if r.players[i] != p {
            assert(has_ship(w, w.players[i]));
        }
    }
    assert forall|i: int| 0 <= i < r.entities.len() implies is_settled(
        r,
        #[trigger] r.entities[i],
    ) by {
        assert(is_settled(w, w.entities[i]));
    }
}

proof fn lemma_departed(w: World, id: u32)
    requires
        is_crewed(w),
    ensures
        is_crewed(departed(w, id)),
        keeps_planets(departed(w, id), w),
{
    lemma_player(w, id);
    if player_of(w, id) is Some {
        let p = player_of(w, id)->0;
        lemma_find(w.players, id);
        law_without_keeps_distinct(w.players, id);
        let k = find(w.players, id)->0;
        let ps = without(w.players, id);
        let w1 = World { players: ps, ..w };
        assert forall|i: int| 0 <= i < ps.len() implies w.players.contains(#[trigger] ps[i])
            && ps[i].id != p.id by {
            let j = if i < k {
                i
            } else {
                i + 1
            };
            assert(ps[i] == w.players[j]);
            if i < k {
                assert(w.players[i].key() != w.players[k].key());
            } else {
                assert(w.players[k].key() != w.players[j].key());
            }
        }
        assert forall|i: int| 0 <= i < ps.len() implies has_ship(w1, #[trigger] ps[i]) by {
            assert(w.players.contains(ps[i]));
            let j = choose|j: int| 0 <= j < w.players.len() && w.players[j] == ps[i];
            assert(has_ship(w, w.players[j]));
        }
        assert forall|i: int| 0 <= i < w1.entities.len() implies is_settled(
            w1,
            #[trigger] w1.entities[i],
        ) by {
            assert(is_settled(w, w.entities[i]));
        }
        if p.entity_id is Some {
            lemma_left_ship_is_free(w, p, ps, p.entity_id->0);
            lemma_without(w1, p.entity_id->0);
        }
        let w2 = without_any(w1, p.entity_id);
        assert(comes_from(w2, w1, 0));
        if p.phaser_beam_entity is Some {
            let b = p.phaser_beam_entity->0;
            lemma_free(w2, b);
            lemma_without(w2, b);
            lemma_chain(w1, w2, without_entity(w2, b), 0, 0);
        }
    }
}

/// Something that is no ship is put into a world without players.
proof fn lemma_static(w: World, e: ServerEntity)
    requires
        is_crewed(w),
        w.players.len() == 0,
        e.id < w.next_entity_id,
        lasts(e),
    ensures
        is_crewed(with_entity(w, e)),
        with_entity(w, e).players == w.players,
        with_entity(w, e).next_entity_id == w.next_entity_id,
{
    law_put_keeps_distinct(w.entities, e);
    lemma_find(w.entities, e.id);
    let r = with_entity(w, e);
    assert forall|i: int| 0 <= i < r.entities.len() implies is_settled(
        r,
        #[trigger] r.entities[i],
    ) by {
        if r.entities[i] != e {
            assert(is_settled(w, w.entities[i]));
        }
    }
}

proof fn lemma_first_asteroids(w: World, n: nat, t: Trace)
    requires
        is_crewed(w),
        w.players.len() == 0,
        w.next_entity_id == 1000,
        n <= 20,
    ensures
        is_crewed(first_asteroids(w, n, t).0),
        first_asteroids(w, n, t).0.players == w.players,
        first_asteroids(w, n, t).0.next_entity_id == w.next_entity_id,
    decreases n,
{
    if n > 0 {
        lemma_first_asteroids(w, (n - 1) as nat, t);
        let (w1, t1) = first_asteroids(w, (n - 1) as nat, t);
        lemma_static(w1, drifter((n - 1) as u32, t1));
    }
}

proof fn lemma_first_planets(w: World, n: nat, t: Trace)
    requires
        is_crewed(w),
        w.players.len() == 0,
        w.next_entity_id == 1000,
        n <= 5,
    ensures
        is_crewed(first_planets(w, n, t).0),
        first_planets(w, n, t).0.players == w.players,
        first_planets(w, n, t).0.next_entity_id == w.next_entity_id,
    decreases n,
{
    if n > 0 {
        lemma_first_planets(w, (n - 1) as nat, t);
        let (w1, t1) = first_planets(w, (n - 1) as nat, t);
        let q = Ask::Uniform(from_whole(1500), from_whole(8500));
        lemma_static(
            w1,
            planet_at(
                (20 + n - 1) as u32,
                told(t1, 0, q),
                told(t1, 1, q),
                planet_radius(n - 1),
                from_whole(n - 1),
            ),
        );
    }
}

/// The game starts with every ship crewed: there is none.
pub proof fn law_the_first_world_is_crewed(t: Trace)
    ensures
        is_crewed(statics_spawned(void(), t).0),
{
    lemma_first_asteroids(void(), 20, t);
    let (w1, t1) = first_asteroids(void(), 20, t);
    lemma_first_planets(w1, 5, t1);
}

} // verus!
