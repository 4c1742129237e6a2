//! What the players read off the snapshots that they are sent.
use vstd::prelude::*;

use crate::damage::{credited, fallen, felled, killed};
use crate::game::{EntityKind, EntityState};
use crate::oracle::Trace;
use crate::protocol::PlayerScore;
use crate::rules::{law_deaths_are_counted_and_credited, lemma_killed_apart};
use crate::table::{
    distinct, law_put_keeps_distinct, law_put_leaves_the_others, lemma_find, lemma_row_at, put, row,
    Keyed,
};
use crate::tick::{row_of, state_of};
use crate::world::{next_id, player_of, ServerEntity, ServerPlayer, World};

verus! {

/// The rows of the scoreboard in a snapshot of the world.
pub open spec fn rows_of(w: World) -> Seq<PlayerScore> {
    w.players.map_values(|p: ServerPlayer| row_of(p))
}

/// The entities in a snapshot of the world.
pub open spec fn states_of(w: World) -> Seq<EntityState> {
    w.entities.map_values(|e: ServerEntity| state_of(w, e))
}

/// Every player has a row of the scoreboard with their own name, kills, deaths and class, and
/// every row is that of a player.
pub proof fn law_every_player_has_a_row(w: World, i: int)
    requires
        0 <= i < rows_of(w).len(),
    ensures
        rows_of(w).len() == w.players.len(),
        rows_of(w)[i].player_id == w.players[i].id,
        rows_of(w)[i].username == w.players[i].username,
        rows_of(w)[i].kills == w.players[i].kills,
        rows_of(w)[i].deaths == w.players[i].deaths,
        rows_of(w)[i].score == w.players[i].score,
        rows_of(w)[i].ship_class == w.players[i].ship_class,
        rows_of(w)[i].alive == (w.players[i].entity_id is Some),
{
}

/// The players after a kill, one row for each, as before.
proof fn lemma_players_after(w: World, victim: u32, killer: u32, self_destruct: bool, t: Trace)
    requires
        distinct(w.players),
        w.next_entity_id <= u32::MAX - 5,
        player_of(w, victim) is Some,
        killer != victim,
    ensures
        distinct(killed(w, victim, Some(killer), self_destruct, t).0.players),
        player_of(killed(w, victim, Some(killer), self_destruct, t).0, victim) == Some(
            fallen(player_of(w, victim)->0, self_destruct),
        ),
{
    lemma_killed_apart(w, victim, Some(killer), self_destruct, t);
    let p = player_of(w, victim)->0;
    let q = fallen(p, self_destruct);
    lemma_find(w.players, victim);
    law_put_keeps_distinct(w.players, q);
    let w1 = felled(w, victim, self_destruct);
    let ps = put(w.players, q);
    assert(w1.players == ps);
    lemma_find(ps, killer);
    if row(ps, killer) is Some {
        let a = row(ps, killer)->0;
        let b = ServerPlayer { kills: next_id(a.kills), ..a };
        law_put_keeps_distinct(ps, b);
        law_put_leaves_the_others(ps, b, victim);
    }
    assert(credited(w1, Some(killer)).players == killed(
        w,
        victim,
        Some(killer),
        self_destruct,
        t,
    ).0.players);
}

/// When a player kills another, the killer's row shows one kill more and as many deaths as before;
/// the victim's row shows one death more, as many kills as before, and that they are dead; and
/// nobody else's row changes.
pub proof fn law_kills_show_on_the_scoreboard(
    w: World,
    victim: u32,
    killer: u32,
    self_destruct: bool,
    t: Trace,
    i: int,
    j: int,
)
    requires
        distinct(w.players),
        distinct(w.entities),
        w.next_entity_id <= u32::MAX - 5,
        player_of(w, victim) is Some,
        killer != victim,
        0 <= i < rows_of(w).len(),
        0 <= j < rows_of(killed(w, victim, Some(killer), self_destruct, t).0).len(),
        rows_of(w)[i].player_id == rows_of(
            killed(w, victim, Some(killer), self_destruct, t).0,
        )[j].player_id,
    ensures
        ({
            let before = rows_of(w)[i];
            let after = rows_of(killed(w, victim, Some(killer), self_destruct, t).0)[j];
            &&& before.player_id == killer ==> after.kills == next_id(before.kills) && after.deaths
                == before.deaths && after.alive == before.alive
            &&& before.player_id == victim ==> after.deaths == next_id(before.deaths)
                && after.kills == before.kills && !after.alive
            &&& before.player_id != killer && before.player_id != victim ==> after == before
            &&& after.username == before.username && after.score == before.score
                && after.ship_class == before.ship_class
        }),
{
    let r = killed(w, victim, Some(killer), self_destruct, t).0;
    law_every_player_has_a_row(w, i);
    law_every_player_has_a_row(r, j);
    law_deaths_are_counted_and_credited(w, victim, Some(killer), self_destruct, t);
    lemma_players_after(w, victim, killer, self_destruct, t);
    lemma_row_at(w.players, i);
    lemma_row_at(r.players, j);
    let id = w.players[i].id;
    assert(player_of(w, id) == Some(w.players[i]));
    assert(player_of(r, id) == Some(r.players[j]));
}

/// A snapshot shows every entity where it is, and every ship with its player's hull, shields, fuel
/// and torpedoes.
pub proof fn law_ships_are_shown_as_they_are(w: World, i: int)
    requires
        0 <= i < states_of(w).len(),
    ensures
        states_of(w).len() == w.entities.len(),
        ({
            let (e, s) = (w.entities[i], states_of(w)[i]);
            &&& s.id == e.id && s.kind == e.kind
            &&& s.x == e.x && s.y == e.y && s.angle == e.angle
            &&& e.kind == EntityKind::Ship ==> s.vx == e.vx && s.vy == e.vy
            &&& e.kind == EntityKind::Torpedo ==> s.vx == e.vx && (e.travel_remaining matches Some(
                left,
            ) ==> s.vy == left)
            &&& e.kind == EntityKind::Explosion ==> (e.lifetime matches Some(left) ==> s.vy == left)
            &&& e.kind == EntityKind::Asteroid ==> (e.asteroid_radius matches Some(r) ==> s.vx == r)
            &&& e.kind == EntityKind::Ship ==> (e.owner matches Some(id) ==> (player_of(
                w,
                id,
            ) matches Some(p) ==> (s.ship_info matches Some(f) && f.player_id == id && f.class
                == p.ship_class && f.hull == p.hull && f.shields == p.shields && f.fuel == p.fuel
                && f.cloaked == p.cloaked && f.shields_on == p.shields_on && f.torpedo_count
                == p.torpedo_count && f.phaser_locked == (p.phaser_lock_target is Some))))
            &&& e.kind != EntityKind::Ship ==> s.ship_info is None
        }),
{
}

} // verus!
