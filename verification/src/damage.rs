//! Damage to ships and asteroids, and what becomes of them.
use vstd::prelude::*;

use crate::game::{class_stats, EntityId, PlayerId};
use crate::oracle::{
    lemma_follows, lemma_since_chain, lemma_since_now, lemma_past_count, past_count, told_count,
    Ask, Oracle, Trace,
};
use crate::single::{difference, from_whole, greater, le, lesser, lt, product, same, zero, Single};

use crate::world::{
    big_radius, entity_of, exploded, next_id, pieces_spawned, player_of, small_spawned, with_entity,
    with_player, without_any, without_entity, counted, Death, GameState, ServerEntity, ServerPlayer,
    World,
};

verus! {

broadcast use lemma_follows;

/// What the shields take of a blow: all that they can, where they are up and nothing hides the
/// ship.
pub open spec fn absorbed(p: ServerPlayer, dmg: Single) -> Single {
    if p.shields_on && !p.cloaked && lt(zero(), p.shields) {
        lesser(dmg, p.shields)
    } else {
        zero()
    }
}

/// The fuel left after the shields took their part of a blow.
pub open spec fn fuel_after(p: ServerPlayer, dmg: Single) -> Single {
    greater(
        difference(
            p.fuel,
            product(absorbed(p, dmg), class_stats(p.ship_class).shield_energy_per_damage),
        ),
        zero(),
    )
}

/// A player after a blow: the shields take their part at the cost of fuel, and collapse where the
/// fuel is used up; the hull takes the rest.  Whatever it meets, a blow keeps the shields from
/// regenerating for five seconds.
pub open spec fn struck(p: ServerPlayer, dmg: Single) -> ServerPlayer {
    let hull = difference(p.hull, difference(dmg, absorbed(p, dmg)));
    let shield_regen_cooldown = if lt(zero(), dmg) || lt(zero(), absorbed(p, dmg)) {
        from_whole(5)
    } else {
        p.shield_regen_cooldown
    };
    if lt(zero(), absorbed(p, dmg)) {
        ServerPlayer {
            hull,
            shields: difference(p.shields, absorbed(p, dmg)),
            shield_regen_cooldown,
            fuel: fuel_after(p, dmg),
            shields_on: p.shields_on && !same(fuel_after(p, dmg), zero()),
            shields_collapsed: p.shields_collapsed || same(fuel_after(p, dmg), zero()),
            ..p
        }
    } else {
        ServerPlayer { hull, shield_regen_cooldown, ..p }
    }
}

/// A player whose ship is gone; unless they destroyed it themselves, it comes back in five
/// seconds.
pub open spec fn fallen(p: ServerPlayer, self_destruct: bool) -> ServerPlayer {
    ServerPlayer {
        entity_id: None,
        phaser_beam_entity: None,
        phaser_lock_target: None,
        phaser_min_remaining: zero(),
        hull: zero(),
        shields: zero(),
        deaths: next_id(p.deaths),
        respawn_timer: if self_destruct {
            p.respawn_timer
        } else {
            Some(from_whole(5))
        },
        ..p
    }
}

/// The ship of a player.
pub open spec fn ship_of(w: World, id: PlayerId) -> Option<ServerEntity> {
    match player_of(w, id) {
        Some(p) => match p.entity_id {
            Some(eid) => entity_of(w, eid),
            None => None,
        },
        None => None,
    }
}

/// The victim's ship and beam are gone.
pub open spec fn felled(w: World, victim: PlayerId, self_destruct: bool) -> World {
    match player_of(w, victim) {
        Some(p) => without_any(
            without_any(with_player(w, fallen(p, self_destruct)), p.entity_id),
            p.phaser_beam_entity,
        ),
        None => w,
    }
}

/// A kill goes to the killer's account.
pub open spec fn credited(w: World, killer: Option<PlayerId>) -> World {
    match killer {
        Some(k) => match player_of(w, k) {
            Some(p) => with_player(w, ServerPlayer { kills: next_id(p.kills), ..p }),
            None => w,
        },
        None => w,
    }
}

/// A death waits to be announced.
pub open spec fn announced(w: World, d: Death) -> World {
    World { announcements: w.announcements.push(d), ..w }
}

/// A player is destroyed: the ship gives way to an explosion and four pieces of debris that start
/// where it was.
pub open spec fn killed(
    w: World,
    victim: PlayerId,
    killer: Option<PlayerId>,
    self_destruct: bool,
    t: Trace,
) -> (World, Trace) {
    let (x, y, vx, vy) = match ship_of(w, victim) {
        Some(e) => (e.x, e.y, e.vx, e.vy),
        None => (zero(), zero(), zero(), zero()),
    };
    let (w1, t1) = pieces_spawned(
        exploded(credited(felled(w, victim, self_destruct), killer), x, y),
        4,
        x,
        y,
        vx,
        vy,
        t,
    );
    (announced(w1, Death { victim, killer, self_destruct }), t1)
}

/// A player takes damage, and is destroyed where the hull does not hold.
pub open spec fn damaged(
    w: World,
    victim: PlayerId,
    dmg: Single,
    killer: Option<PlayerId>,
    self_destruct: bool,
    t: Trace,
) -> (World, Trace) {
    match player_of(w, victim) {
        Some(p) => {
            let q = struck(p, dmg);
            if le(q.hull, zero()) {
                killed(with_player(w, q), victim, killer, self_destruct, t)
            } else {
                (with_player(w, q), t)
            }
        },
        None => (w, t),
    }
}

/// A player whose ship is there destroys it.
pub open spec fn self_destructed(w: World, id: PlayerId, t: Trace) -> (World, Trace) {
    if player_of(w, id) matches Some(p) && p.entity_id is Some {
        killed(w, id, None, true, t)
    } else {
        (w, t)
    }
}

/// A score with points added, counting on from zero where it is full.
pub open spec fn more(n: u32, k: u32) -> u32 {
    if n + k > u32::MAX {
        (n + k - 0x1_0000_0000) as u32
    } else {
        (n + k) as u32
    }
}

/// Points for whoever earned them.
pub open spec fn scored(w: World, scorer: Option<PlayerId>, points: u32) -> World {
    match scorer {
        Some(id) => match player_of(w, id) {
            Some(p) => with_player(w, ServerPlayer { score: more(p.score, points), ..p }),
            None => w,
        },
        None => w,
    }
}

/// Small asteroids fly off from a place.
pub open spec fn smalls_spawned(w: World, n: nat, x: Single, y: Single, t: Trace) -> (World, Trace)
    decreases n,
{
    if n == 0 {
        (w, t)
    } else {
        let (w1, t1) = smalls_spawned(w, (n - 1) as nat, x, y, t);
        small_spawned(w1, x, y, t1)
    }
}

/// Whether an asteroid is a big one.
pub open spec fn is_big(e: ServerEntity) -> bool {
    e.asteroid_radius matches Some(r) && same(r, big_radius())
}

/// An asteroid breaks: an explosion takes its place, and small ones fly off.
pub open spec fn split(
    w: World,
    e: ServerEntity,
    scorer: Option<PlayerId>,
    t: Trace,
) -> (World, Trace) {
    let n = told_count(t, 0, 1, 4);
    let (w1, t1) = smalls_spawned(
        exploded(without_entity(w, e.id), e.x, e.y),
        n as nat,
        e.x,
        e.y,
        past_count(t, 1, 4),
    );
    (scored(w1, scorer, 3), t1)
}

/// Damage to an asteroid: a big one breaks into one to four small ones below half its health, for
/// three points; any other is destroyed when its health is gone, for one point.
pub open spec fn asteroid_damaged(
    w: World,
    id: EntityId,
    dmg: Single,
    scorer: Option<PlayerId>,
    t: Trace,
) -> (World, Trace) {
    match entity_of(w, id) {
        Some(e) => match e.health {
            Some(h) => {
                let left = difference(h, dmg);
                let hit = ServerEntity { health: Some(left), ..e };
                if is_big(e) && lt(left, from_whole(250)) {
                    split(with_entity(w, hit), hit, scorer, t)
                } else if le(left, zero()) {
                    (
                        scored(
                            exploded(without_entity(with_entity(w, hit), id), e.x, e.y),
                            scorer,
                            1,
                        ),
                        t,
                    )
                } else {
                    (with_entity(w, hit), t)
                }
            },
            None => (w, t),
        },
        None => (w, t),
    }
}

impl ServerPlayer {
    /// Takes a blow.
    pub fn strike(&mut self, dmg: Single)
        ensures
            *final(self) == struck(*old(self), dmg),
    {
        let zero: Single = Single::nought();
        let shields_active: bool = self.shields_on && !self.cloaked && zero.is_less(self.shields);
        let taken: Single = if shields_active {
            dmg.min(self.shields)
        } else {
            zero
        };
        let hull_dmg: Single = dmg.minus(taken);
        if zero.is_less(dmg) || zero.is_less(taken) {
            self.shield_regen_cooldown = Single::whole(5);
        }
        if zero.is_less(taken) {
            self.shields = self.shields.minus(taken);
            let fuel_cost: Single = taken.times(self.ship_class.stats().shield_energy_per_damage);
            self.fuel = self.fuel.minus(fuel_cost).max(zero);
            if self.fuel.is_same(zero) {
                self.shields_on = false;
                self.shields_collapsed = true;
            }
        }
        self.hull = self.hull.minus(hull_dmg);
    }

    /// Loses the ship.
    pub fn fall(&mut self, self_destruct: bool)
        ensures
            *final(self) == fallen(*old(self), self_destruct),
    {
        self.entity_id = None;
        self.phaser_beam_entity = None;
        self.phaser_lock_target = None;
        self.phaser_min_remaining = Single::nought();
        self.hull = Single::nought();
        self.shields = Single::nought();
        self.deaths = counted(self.deaths);
        if !self_destruct {
            self.respawn_timer = Some(Single::whole(5));
        }
    }
}

impl GameState {
    /// Damages a player's ship, crediting the killer where it is destroyed.
    pub fn apply_damage<F: Fn(Ask) -> Single>(
        &mut self,
        victim_id: PlayerId,
        dmg: Single,
        killer_id: Option<PlayerId>,
        self_destruct: bool,
        oracle: &mut Oracle<F>,
    )
        ensures
            final(oracle).follows(*old(oracle)),
            forall|rest: Trace| #[trigger]
                damaged(
                    old(self)@,
                    victim_id,
                    dmg,
                    killer_id,
                    self_destruct,
                    final(oracle).since(*old(oracle)) + rest,
                ) == (final(self)@, rest),
    {
        proof {
            lemma_since_now(*oracle);
        }
        if let Some(i) = self.players.position(victim_id) {
            self.players.rows[i].strike(dmg);
            assert(self@ =~= with_player(
                old(self)@,
                struck(old(self)@.players[i as int], dmg),
            ));
            if self.players.rows[i].hull.is_at_most(Single::nought()) {
                self.kill_player(victim_id, killer_id, self_destruct, oracle);
            }
        }
    }

    /// Destroys a player's ship and keeps the news for the other players.
    pub fn kill_player<F: Fn(Ask) -> Single>(
        &mut self,
        victim_id: PlayerId,
        killer_id: Option<PlayerId>,
        self_destruct: bool,
        oracle: &mut Oracle<F>,
    )
        ensures
            final(oracle).follows(*old(oracle)),
            forall|rest: Trace| #[trigger]
                killed(
                    old(self)@,
                    victim_id,
                    killer_id,
                    self_destruct,
                    final(oracle).since(*old(oracle)) + rest,
                ) == (final(self)@, rest),
    {
        let wreck: Option<ServerEntity> = self.ship(victim_id);
        let (x, y, vx, vy) = match wreck {
            Some(e) => (e.x, e.y, e.vx, e.vy),
            None => (Single::nought(), Single::nought(), Single::nought(), Single::nought()),
        };
        if let Some(i) = self.players.position(victim_id) {
            let ship: Option<EntityId> = self.players.rows[i].entity_id;
            let beam: Option<EntityId> = self.players.rows[i].phaser_beam_entity;
            self.players.rows[i].fall(self_destruct);
            assert(self@ =~= with_player(
                old(self)@,
                fallen(old(self)@.players[i as int], self_destruct),
            ));
            self.remove_any(ship);
            self.remove_any(beam);
        }
        assert(self@ == felled(old(self)@, victim_id, self_destruct));
        self.credit(killer_id);
        self.spawn_explosion(x, y);
        self.spawn_debris(x, y, vx, vy, oracle);
        self.announcements.push(
            Death { victim: victim_id, killer: killer_id, self_destruct },
        );
    }

    /// The ship of a player.
    pub fn ship(&self, id: PlayerId) -> (r: Option<ServerEntity>)
        ensures
            r == ship_of(self@, id),
    {
        match self.players.get(id) {
            Some(p) => match p.entity_id {
                Some(eid) => self.entity(eid),
                None => None,
            },
            None => None,
        }
    }

    fn credit(&mut self, killer_id: Option<PlayerId>)
        ensures
            final(self)@ == credited(old(self)@, killer_id),
    {
        if let Some(kid) = killer_id {
            if let Some(i) = self.players.position(kid) {
                self.players.rows[i].kills = counted(self.players.rows[i].kills);
                let ghost p = old(self)@.players[i as int];
                assert(self@ =~= with_player(
                    old(self)@,
                    ServerPlayer { kills: next_id(p.kills), ..p },
                ));
            }
        }
    }

    /// Destroys the ship of a player who asked for it, where there is one.
    pub fn self_destruct_player<F: Fn(Ask) -> Single>(
        &mut self,
        pid: PlayerId,
        oracle: &mut Oracle<F>,
    )
        ensures
            final(oracle).follows(*old(oracle)),
            forall|rest: Trace| #[trigger]
                self_destructed(old(self)@, pid, final(oracle).since(*old(oracle)) + rest) == (
                    final(self)@,
                    rest,
                ),
    {
        proof {
            lemma_since_now(*oracle);
        }
        let alive: bool = match self.players.get(pid) {
            Some(p) => p.entity_id.is_some(),
            None => false,
        };
        if alive {
            self.kill_player(pid, None, true, oracle);
        }
    }

    fn score(&mut self, scorer: Option<PlayerId>, points: u32)
        ensures
            final(self)@ == scored(old(self)@, scorer, points),
    {
        if let Some(id) = scorer {
            if let Some(i) = self.players.position(id) {
                let s: u32 = self.players.rows[i].score;
                self.players.rows[i].score = if points > u32::MAX - s {
                    points - (u32::MAX - s) - 1
                } else {
                    s + points
                };
                let ghost p = old(self)@.players[i as int];
                assert(self@ =~= with_player(
                    old(self)@,
                    ServerPlayer { score: more(p.score, points), ..p },
                ));
            }
        }
    }

    fn spawn_smalls<F: Fn(Ask) -> Single>(
        &mut self,
        n: u32,
        x: Single,
        y: Single,
        oracle: &mut Oracle<F>,
    )
        ensures
            final(oracle).follows(*old(oracle)),
            forall|rest: Trace| #[trigger]
                smalls_spawned(
                    old(self)@,
                    n as nat,
                    x,
                    y,
                    final(oracle).since(*old(oracle)) + rest,
                ) == (final(self)@, rest),
    {
        proof {
            lemma_since_now(*oracle);
        }
        let mut i: u32 = 0;
        while i < n
            invariant
                i <= n,
                oracle.follows(*old(oracle)),
                forall|rest: Trace| #[trigger]
                    smalls_spawned(
                        old(self)@,
                        i as nat,
                        x,
                        y,
                        oracle.since(*old(oracle)) + rest,
                    ) == (self@, rest),
            decreases n - i,
        {
            let ghost before = *oracle;
            let ghost w = self@;
            self.spawn_small_asteroid(x, y, oracle);
            i = i + 1;
            proof {
                lemma_since_chain(*old(oracle), before, *oracle);
                assert forall|rest: Trace| #[trigger]
                    smalls_spawned(
                        old(self)@,
                        i as nat,
                        x,
                        y,
                        oracle.since(*old(oracle)) + rest,
                    ) == (self@, rest) by {
                    let next = oracle.since(before) + rest;
                    assert(smalls_spawned(
                        old(self)@,
                        (i - 1) as nat,
                        x,
                        y,
                        before.since(*old(oracle)) + next,
                    ) == (w, next));
                }
            }
        }
    }

    /// Damages an asteroid, breaking or destroying it where its health calls for that.
    pub fn apply_asteroid_damage<F: Fn(Ask) -> Single>(
        &mut self,
        asteroid_id: EntityId,
        dmg: Single,
        scorer: Option<PlayerId>,
        oracle: &mut Oracle<F>,
    )
        ensures
            final(oracle).follows(*old(oracle)),
            forall|rest: Trace| #[trigger]
                asteroid_damaged(
                    old(self)@,
                    asteroid_id,
                    dmg,
                    scorer,
                    final(oracle).since(*old(oracle)) + rest,
                ) == (final(self)@, rest),
    {
        proof {
            lemma_since_now(*oracle);
        }
        if let Some(i) = self.entities.position(asteroid_id) {
            let e: ServerEntity = self.entities.rows[i];
            if let Some(h) = e.health {
                let left: Single = h.minus(dmg);
                self.entities.rows[i].health = Some(left);
                assert(self@ =~= with_entity(
                    old(self)@,
                    ServerEntity { health: Some(left), ..e },
                ));
                let big: bool = match e.asteroid_radius {
                    Some(r) => r.is_same(Single::whole(60)),
                    None => false,
                };
                if big && left.is_less(Single::whole(250)) {
                    self.remove_entity(asteroid_id);
                    self.spawn_explosion(e.x, e.y);
                    let n: u32 = oracle.count(1, 4);
                    let ghost before = *oracle;
                    self.spawn_smalls(n, e.x, e.y, oracle);
                    self.score(scorer, 3);
                    proof {
                        lemma_since_chain(*old(oracle), before, *oracle);
                        let tr = before.since(*old(oracle));
                        lemma_past_count(tr, 1, 4);
                    }
                } else if left.is_at_most(Single::nought()) {
                    self.remove_entity(asteroid_id);
                    self.spawn_explosion(e.x, e.y);
                    self.score(scorer, 1);
                }
            }
        }
    }
}

} // verus!
