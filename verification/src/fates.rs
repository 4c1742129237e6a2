//! How players come, wait, are struck and leave.
use vstd::prelude::*;

use crate::damage::{damaged, killed, struck};
use crate::exact::{
    law_differences_are_differences, law_order_is_order_of_reals, lemma_finite_difference, real_of,
    size,
};
use crate::game::PlayerId;
use crate::motion::is_a_moment;
use crate::oracle::Trace;
use crate::order::lemma_zero;
use crate::physics::lemma_real_zero;
use crate::rules::law_deaths_are_counted_and_credited;
use crate::single::{difference, from_whole, zero, Single};
use crate::table::{
    distinct, law_put_is_found, law_put_keeps_distinct, law_put_leaves_the_others,
    law_without_keeps_distinct, law_without_leaves_the_others, lemma_find, put, without, Keyed,
};
use crate::tick::{
    departed, handled, is_ready, lives, living, newcomer, ready, recalled, reclassed, steered_by,
    waited, GameEvent,
};
use crate::world::{
    entity_of, next_id, player_of, with_player, without_any, ServerEntity, ServerPlayer, World,
};

verus! {

/// A player who waits for a ship waits the time of the tick less, and is ready when nothing of the
/// wait is left.
pub proof fn law_waits_run_out(p: ServerPlayer, dt: Single)
    requires
        is_a_moment(dt),
        p.respawn_timer is Some,
        (p.respawn_timer->0).is_finite(),
        size(real_of(p.respawn_timer->0)) <= 1000 as real,
    ensures
        ({
            let left = real_of(p.respawn_timer->0) - real_of(dt);
            &&& left * (1000 as real) > 1 as real ==> !is_ready(p, dt) && (waited(
                p,
                dt,
            ).respawn_timer matches Some(a) && size(real_of(a) - left) * (1000 as real) <= (
            1 as real))
            &&& left * (1000 as real) < -1 as real ==> is_ready(p, dt) && waited(
                p,
                dt,
            ).respawn_timer is None
            &&& waited(p, dt).entity_id == p.entity_id && waited(p, dt).ship_class == p.ship_class
        }),
{
    let a = p.respawn_timer->0;
    lemma_zero();
    lemma_real_zero();
    lemma_finite_difference(a, dt, 1001);
    law_differences_are_differences(a, dt);
    law_order_is_order_of_reals(difference(a, dt), zero());
}

/// The players who are ready are those whose wait ends, and no others.
pub proof fn law_the_ready_are_ready(ps: Seq<ServerPlayer>, dt: Single, id: PlayerId)
    ensures
        ready(ps, dt).contains(id) <==> exists|i: int|
            0 <= i < ps.len() && (#[trigger] ps[i]).id == id && is_ready(ps[i], dt),
    decreases ps.len(),
{
    if ps.len() > 0 {
        let front = ps.drop_last();
        law_the_ready_are_ready(front, dt, id);
        let all = ready(ps, dt);
        let some = ready(front, dt);
        if some.contains(id) {
            let k = choose|k: int| 0 <= k < some.len() && some[k] == id;
            assert(all[k] == id);
            let i = choose|i: int|
                0 <= i < front.len() && (#[trigger] front[i]).id == id && is_ready(front[i], dt);
            assert(ps[i].id == id && is_ready(ps[i], dt));
        }
        if is_ready(ps.last(), dt) && ps.last().id == id {
            assert(all[all.len() - 1] == id);
            assert(ps[ps.len() - 1].id == id);
        }
        if all.contains(id) && !some.contains(id) {
            let k = choose|k: int| 0 <= k < all.len() && all[k] == id;
            assert(k == all.len() - 1 && is_ready(ps.last(), dt)) by {
                if k < some.len() {
                    assert(some[k] == id);
                }
            }
            assert(ps[ps.len() - 1].id == id);
        }
        if exists|i: int|
            0 <= i < ps.len() && (#[trigger] ps[i]).id == id && is_ready(ps[i], dt) {
            let i = choose|i: int|
                0 <= i < ps.len() && (#[trigger] ps[i]).id == id && is_ready(ps[i], dt);
            if i < front.len() {
                assert(front[i].id == id && is_ready(front[i], dt));
            }
        }
    }
}

/// A player who leaves is gone, and so are the ship and the beam; every other player and everything
/// else in the world stays.
pub proof fn law_leaving_takes_only_ones_own(w: World, id: PlayerId)
    requires
        distinct(w.players),
        distinct(w.entities),
        player_of(w, id) is Some,
    ensures
        ({
            let p = player_of(w, id)->0;
            let r = handled(w, GameEvent::PlayerLeft(id), Seq::empty()).0;
            &&& player_of(r, id) is None
            &&& p.entity_id matches Some(eid) ==> entity_of(r, eid) is None
            &&& p.phaser_beam_entity matches Some(eid) ==> entity_of(r, eid) is None
            &&& forall|other: u32|
                other != id ==> #[trigger] player_of(r, other) == player_of(w, other)
            &&& forall|eid: u32|
                p.entity_id != Some(eid) && p.phaser_beam_entity != Some(eid)
                    ==> #[trigger] entity_of(r, eid) == entity_of(w, eid)
        }),
{
    let p = player_of(w, id)->0;
    let r = departed(w, id);
    law_without_keeps_distinct(w.players, id);
    assert forall|other: u32| other != id implies #[trigger] player_of(r, other) == player_of(
        w,
        other,
    ) by {
        law_without_leaves_the_others(w.players, id, other);
    }
    let w1 = World { players: without(w.players, id), ..w };
    let w2 = without_any(w1, p.entity_id);
    if p.entity_id is Some {
        law_without_keeps_distinct(w.entities, p.entity_id->0);
    }
    if p.phaser_beam_entity is Some {
        law_without_keeps_distinct(w2.entities, p.phaser_beam_entity->0);
        if p.entity_id is Some && p.entity_id != p.phaser_beam_entity {
            law_without_leaves_the_others(
                w2.entities,
                p.phaser_beam_entity->0,
                p.entity_id->0,
            );
        }
    }
    assert forall|eid: u32|
        p.entity_id != Some(eid) && p.phaser_beam_entity != Some(
            eid,
        ) implies #[trigger] entity_of(r, eid) == entity_of(w, eid) by {
        if p.entity_id is Some {
            law_without_leaves_the_others(w.entities, p.entity_id->0, eid);
        }
        if p.phaser_beam_entity is Some {
            law_without_leaves_the_others(w2.entities, p.phaser_beam_entity->0, eid);
        }
    }
}

/// A message of a player changes that player only: an input, a class or a request to come back
/// leaves every other player and every entity as they are.
pub proof fn law_messages_concern_their_sender(w: World, event: GameEvent, id: PlayerId, t: Trace)
    requires
        match event {
            GameEvent::PlayerInput { id: sender, input } => sender == id,
            GameEvent::SelectShip { id: sender, class } => sender == id,
            GameEvent::RequestRespawn(sender) => sender == id,
            GameEvent::PlayerJoined { id: sender, username } => sender == id,
            _ => false,
        },
    ensures
        ({
            let r = handled(w, event, t).0;
            &&& r.entities == w.entities
            &&& forall|other: u32|
                other != id ==> #[trigger] player_of(r, other) == player_of(w, other)
            &&& player_of(w, id) matches Some(p) ==> (player_of(r, id) matches Some(q) && (event
                !is PlayerJoined ==> q.kills == p.kills && q.deaths == p.deaths && q.score
                == p.score && q.hull == p.hull && q.entity_id == p.entity_id))
            &&& event matches GameEvent::RequestRespawn(_) ==> (player_of(w, id) matches Some(p)
                ==> p.entity_id is None && p.respawn_timer is None ==> (player_of(
                r,
                id,
            ) matches Some(q) && q.respawn_timer == Some(from_whole(5))))
            &&& event matches GameEvent::PlayerJoined { id: _, username } ==> (player_of(
                r,
                id,
            ) matches Some(q) && q.id == id && q.username == username && q.kills == 0 && q.deaths
                == 0 && q.score == 0 && q.entity_id is None && q.respawn_timer == Some(
                from_whole(1),
            ))
        }),
{
    let r = handled(w, event, t).0;
    lemma_find(w.players, id);
    if r.players != w.players {
        let q = choose|q: ServerPlayer| #[trigger] put(w.players, q) == r.players && q.id == id;
        assert(exists|q: ServerPlayer| #[trigger] put(w.players, q) == r.players && q.id == id) by {
            match event {
                GameEvent::PlayerInput { id: sender, input } => {
                    let p = player_of(w, id)->0;
                    assert(put(w.players, steered_by(p, input)) == r.players);
                },
                GameEvent::SelectShip { id: sender, class } => {
                    let p = player_of(w, id)->0;
                    assert(put(w.players, reclassed(p, class)) == r.players);
                },
                GameEvent::RequestRespawn(sender) => {
                    let p = player_of(w, id)->0;
                    assert(put(w.players, recalled(p)) == r.players);
                },
                GameEvent::PlayerJoined { id: sender, username } => {
                    assert(put(w.players, newcomer(id, username)) == r.players);
                },
                _ => {},
            }
        }
        assert forall|other: u32| other != id implies #[trigger] player_of(r, other) == player_of(
            w,
            other,
        ) by {
            law_put_leaves_the_others(w.players, q, other);
        }
    }
    match event {
        GameEvent::PlayerInput { id: sender, input } => {
            if player_of(w, id) is Some {
                let p = player_of(w, id)->0;
                law_put_is_found(w.players, steered_by(p, input));
            }
        },
        GameEvent::SelectShip { id: sender, class } => {
            if player_of(w, id) is Some {
                let p = player_of(w, id)->0;
                law_put_is_found(w.players, reclassed(p, class));
            }
        },
        GameEvent::RequestRespawn(sender) => {
            if player_of(w, id) is Some {
                law_put_is_found(w.players, recalled(player_of(w, id)->0));
            }
        },
        GameEvent::PlayerJoined { id: sender, username } => {
            law_put_is_found(w.players, newcomer(id, username));
        },
        _ => {},
    }
}

/// A player who is struck lives as long as any hull is left, and is killed, to the credit of the
/// one who struck, when none is.
pub proof fn law_ships_die_when_the_hull_is_gone(
    w: World,
    victim: PlayerId,
    dmg: Single,
    killer: PlayerId,
    t: Trace,
)
    requires
        distinct(w.players),
        distinct(w.entities),
        w.next_entity_id <= u32::MAX - 5,
        player_of(w, victim) is Some,
        player_of(w, killer) is Some,
        killer != victim,
        struck(player_of(w, victim)->0, dmg).hull.is_finite(),
    ensures
        ({
            let p = player_of(w, victim)->0;
            let left = real_of(struck(p, dmg).hull);
            let r = damaged(w, victim, dmg, Some(killer), false, t).0;
            let (a, b) = (player_of(w, killer)->0, player_of(r, killer)->0);
            &&& player_of(r, victim) is Some && player_of(r, killer) is Some
            &&& left > 0 as real ==> player_of(r, victim) == Some(struck(p, dmg)) && b == a
                && r.entities == w.entities
            &&& left <= 0 as real ==> (player_of(r, victim)->0).entity_id is None && (player_of(
                r,
                victim,
            )->0).deaths == next_id(p.deaths) && b.kills == next_id(a.kills) && b.deaths == a.deaths
            &&& struck(p, dmg).kills == p.kills && struck(p, dmg).deaths == p.deaths
        }),
{
    let p = player_of(w, victim)->0;
    let q = struck(p, dmg);
    lemma_zero();
    lemma_real_zero();
    law_order_is_order_of_reals(q.hull, zero());
    lemma_find(w.players, victim);
    let w1 = with_player(w, q);
    law_put_is_found(w.players, q);
    law_put_keeps_distinct(w.players, q);
    law_put_leaves_the_others(w.players, q, killer);
    if real_of(q.hull) <= 0 as real {
        law_deaths_are_counted_and_credited(w1, victim, Some(killer), false, t);
    }
}

/// What lasts has time left, and range left, where it has either; what has used up one of them is
/// gone.
pub proof fn law_what_lasts_has_time_and_range(es: Seq<ServerEntity>, e: ServerEntity)
    requires
        e.lifetime matches Some(left) ==> left.is_finite(),
        e.travel_remaining matches Some(left) ==> left.is_finite(),
    ensures
        living(es).contains(e) <==> es.contains(e) && (e.lifetime matches Some(left) ==> real_of(
            left,
        ) > 0 as real) && (e.travel_remaining matches Some(left) ==> real_of(left) > 0 as real),
    decreases es.len(),
{
    lemma_zero();
    lemma_real_zero();
    if e.lifetime is Some {
        law_order_is_order_of_reals(zero(), e.lifetime->0);
    }
    if e.travel_remaining is Some {
        law_order_is_order_of_reals(zero(), e.travel_remaining->0);
    }
    if es.len() > 0 {
        let front = es.drop_last();
        law_what_lasts_has_time_and_range(front, e);
        let (all, some) = (living(es), living(front));
        if some.contains(e) {
            let k = choose|k: int| 0 <= k < some.len() && some[k] == e;
            assert(all[k] == e);
        }
        if front.contains(e) {
            let k = choose|k: int| 0 <= k < front.len() && front[k] == e;
            assert(es[k] == e);
        }
        if es.last() == e {
            assert(es[es.len() - 1] == e);
            if lives(e) {
                assert(all[all.len() - 1] == e);
            }
        }
        if all.contains(e) && !some.contains(e) {
            let k = choose|k: int| 0 <= k < all.len() && all[k] == e;
            if k < some.len() {
                assert(some[k] == e);
            }
            assert(e == es.last());
        }
        if es.contains(e) && es.last() != e {
            let k = choose|k: int| 0 <= k < es.len() && es[k] == e;
            assert(front[k] == e);
        }
    }
}

} // verus!
