//! One tick of a player's ship: energy, shields, ammunition and weapons.
use vstd::prelude::*;

use crate::damage::{asteroid_damaged, damaged, ship_of};
use crate::game::{class_stats, cloaks, EntityId, EntityKind, PlayerId, ShipStats};
use crate::helm::{steer, steered};
use crate::oracle::{
    lemma_follows, lemma_since_chain, lemma_since_now, lemma_past, past, told, Ask, Oracle, Trace,
};
use crate::protocol::PlayerInput;
use crate::ray::cast;
use crate::single::{
    clamped, difference, from_fraction, from_whole, greater, le, lesser, lt, product, quotient,
    root, sum, zero, Single,
};
use crate::table::{find, lemma_find, lemma_found};
use crate::world::{
    entity_of, joined, player_of, still, with_entity, with_player, without_any, GameState,
    PhaserHit, ServerEntity, ServerPlayer, World,
};

verus! {

broadcast use lemma_follows;

/// Whether the beam button is held and the cursor is within range.
pub open spec fn beam_held(p: ServerPlayer) -> bool {
    p.input.fire_phaser && le(p.input.mouse_distance, class_stats(p.ship_class).phaser_range)
}

/// Whether the ship hides in this tick: its pilot wants it to, its class can, and there is fuel.
pub open spec fn may_cloak(p: ServerPlayer) -> bool {
    p.input.cloak_active && cloaks(p.ship_class) && lt(zero(), p.fuel)
}

/// The fuel after one tick: cloaking drains it on top of what was burnt and suppresses the
/// regeneration; otherwise a held or lingering beam drains it and the reactor refills it.
pub open spec fn fuel_left(p: ServerPlayer, burnt: Single, dt: Single) -> Single {
    let stats = class_stats(p.ship_class);
    if may_cloak(p) {
        greater(
            difference(difference(p.fuel, product(stats.cloak_fuel_drain, dt)), burnt),
            zero(),
        )
    } else {
        let cost = if beam_held(p) || lt(zero(), p.phaser_min_remaining) {
            product(stats.phaser_fuel_drain, dt)
        } else {
            zero()
        };
        clamped(
            sum(difference(difference(p.fuel, burnt), cost), product(stats.fuel_regen, dt)),
            zero(),
            stats.fuel_capacity,
        )
    }
}

/// Whether the ship is hidden after one tick.
pub open spec fn hidden(p: ServerPlayer, burnt: Single, dt: Single) -> bool {
    may_cloak(p) && lt(zero(), fuel_left(p, burnt, dt))
}

/// A countdown after one tick.
pub open spec fn ticked(timer: Single, dt: Single) -> Single {
    if lt(zero(), timer) {
        difference(timer, dt)
    } else {
        timer
    }
}

/// The timer and the torpedoes after every full half second on the timer gave one torpedo.  Where
/// the timer is so great that half a second makes no difference, it stays.
pub open spec fn reloaded(timer: Single, count: u8, max: u8) -> (Single, u8)
    decreases timer.key() + 0x8000_0000,
{
    let half = from_fraction(1, 2);
    let less = difference(timer, half);
    if le(half, timer) && lt(less, timer) {
        reloaded(
            less,
            if count < max {
                (count + 1) as u8
            } else {
                max
            },
            max,
        )
    } else {
        (timer, count)
    }
}

/// The torpedoes and the timer after one tick.
pub open spec fn torpedoes(p: ServerPlayer, dt: Single) -> (Single, u8) {
    let max = class_stats(p.ship_class).max_torpedoes;
    if p.torpedo_count < max {
        reloaded(sum(p.torpedo_regen_timer, dt), p.torpedo_count, max)
    } else {
        (p.torpedo_regen_timer, p.torpedo_count)
    }
}

/// A player's gauges after one tick in which some fuel was burnt.
pub open spec fn tuned(p: ServerPlayer, burnt: Single, dt: Single) -> ServerPlayer {
    let cloaked = hidden(p, burnt, dt);
    let shields_on = p.input.shields_active && !cloaked && !p.shields_collapsed;
    ServerPlayer {
        fuel: fuel_left(p, burnt, dt),
        cloaked,
        shields_on,
        shield_regen_cooldown: ticked(p.shield_regen_cooldown, dt),
        shields: if !lt(zero(), p.shield_regen_cooldown) && shields_on {
            lesser(
                sum(p.shields, product(from_whole(10), dt)),
                class_stats(p.ship_class).max_shields,
            )
        } else {
            p.shields
        },
        fire_cooldown: ticked(p.fire_cooldown, dt),
        phaser_cooldown: ticked(p.phaser_cooldown, dt),
        phaser_min_remaining: greater(difference(p.phaser_min_remaining, dt), zero()),
        torpedo_regen_timer: torpedoes(p, dt).0,
        torpedo_count: torpedoes(p, dt).1,
        ..p
    }
}

/// Whether the beam is on: held or lingering, with fuel, and not hidden.
pub open spec fn beam_on(p: ServerPlayer) -> bool {
    !p.cloaked && (beam_held(p) || lt(zero(), p.phaser_min_remaining)) && lt(zero(), p.fuel)
}

/// Whether the beam does damage in this tick.
pub open spec fn shot_due(p: ServerPlayer) -> bool {
    beam_on(p) && le(p.phaser_cooldown, zero())
}

/// Whether a torpedo leaves in this tick: asked for, loaded, cooled down, and not hidden.
pub open spec fn torpedo_due(p: ServerPlayer) -> bool {
    !p.cloaked && p.pending_torpedo_fire && le(p.fire_cooldown, zero()) && p.torpedo_count > 0
}

/// Where the thing is that the beam is locked onto.
pub open spec fn locked_place(w: World, p: ServerPlayer) -> Option<(Single, Single)> {
    let e = match p.phaser_lock_target {
        Some(PhaserHit::Ship(id)) => ship_of(w, id),
        Some(PhaserHit::Asteroid(id)) => entity_of(w, id),
        None => None,
    };
    match e {
        Some(e) => Some((e.x, e.y)),
        None => None,
    }
}

/// The direction and reach of the beam: towards the locked target, or else towards the cursor.
pub open spec fn aimed(w: World, p: ServerPlayer, sx: Single, sy: Single, t: Trace) -> (
    Single,
    Single,
    Trace,
) {
    let range = class_stats(p.ship_class).phaser_range;
    match locked_place(w, p) {
        Some((tx, ty)) => {
            let dx = difference(tx, sx);
            let dy = difference(ty, sy);
            let dist = root(sum(product(dx, dx), product(dy, dy)));
            let q = Ask::Atan2(dy, dx);
            (told(t, 0, q), lesser(dist, range), past(t, seq![q]))
        },
        None => (p.input.mouse_angle, lesser(p.input.mouse_distance, range), t),
    }
}

/// A player who lets go of a target that is no longer there.
pub open spec fn relocked(w: World, p: ServerPlayer) -> ServerPlayer {
    if locked_place(w, p) is None {
        ServerPlayer { phaser_lock_target: None, ..p }
    } else {
        p
    }
}

/// A beam as clients see it; `vx` carries its length.
pub open spec fn beam_at(
    id: EntityId,
    owner: PlayerId,
    x: Single,
    y: Single,
    angle: Single,
    length: Single,
) -> ServerEntity {
    ServerEntity { vx: length, angle, owner: Some(owner), ..still(id, EntityKind::Phaser, x, y) }
}

/// The beam is shown: the old one is moved, or a new one appears that stays for a second at least.
pub open spec fn beam_shown(
    w: World,
    p: ServerPlayer,
    x: Single,
    y: Single,
    angle: Single,
    length: Single,
) -> (World, ServerPlayer) {
    match p.phaser_beam_entity {
        Some(id) => (
            match entity_of(w, id) {
                Some(b) => with_entity(w, ServerEntity { x, y, angle, vx: length, ..b }),
                None => w,
            },
            p,
        ),
        None => {
            let q = ServerPlayer {
                phaser_beam_entity: Some(w.next_entity_id),
                phaser_min_remaining: greater(p.phaser_min_remaining, from_whole(1)),
                ..p
            };
            (
                with_player(
                    joined(w, beam_at(w.next_entity_id, p.id, x, y, angle, length)),
                    q,
                ),
                q,
            )
        },
    }
}

/// A player who has just shot, and locks onto what was hit first.
pub open spec fn shot(p: ServerPlayer, hit: Option<(PhaserHit, Single)>) -> ServerPlayer {
    ServerPlayer {
        phaser_cooldown: quotient(from_whole(1), class_stats(p.ship_class).phaser_fire_rate_hz),
        phaser_lock_target: match p.phaser_lock_target {
            Some(h) => Some(h),
            None => match hit {
                Some((h, _)) => Some(h),
                None => None,
            },
        },
        ..p
    }
}

/// What was hit takes the damage.
pub open spec fn burnt(w: World, id: PlayerId, hit: Option<(PhaserHit, Single)>, t: Trace) -> (
    World,
    Trace,
) {
    match hit {
        Some((PhaserHit::Ship(victim), dmg)) => damaged(w, victim, dmg, Some(id), false, t),
        Some((PhaserHit::Asteroid(rock), dmg)) => asteroid_damaged(w, rock, dmg, Some(id), t),
        None => (w, t),
    }
}

/// The beam is on: it is aimed, cast and shown, and at its fire rate it does damage.
pub open spec fn beamed(w: World, p: ServerPlayer, e: ServerEntity, fires: bool, t: Trace) -> (
    World,
    Trace,
) {
    let (dir, reach, t1) = aimed(w, p, e.x, e.y, t);
    let p1 = relocked(w, p);
    let w1 = with_player(w, p1);
    let (length, hit, t2) = cast(w1, e.x, e.y, dir, reach, p.id, t1);
    let (w2, p2) = beam_shown(w1, p1, e.x, e.y, dir, length);
    if fires {
        burnt(with_player(w2, shot(p2, hit)), p.id, hit, t2)
    } else {
        (w2, t2)
    }
}

/// The beam is off.
pub open spec fn beam_dropped(w: World, p: ServerPlayer) -> World {
    with_player(
        without_any(w, p.phaser_beam_entity),
        ServerPlayer {
            phaser_beam_entity: None,
            phaser_lock_target: None,
            phaser_min_remaining: zero(),
            ..p
        },
    )
}

/// A player who has just fired a torpedo.
pub open spec fn fired(p: ServerPlayer) -> ServerPlayer {
    ServerPlayer {
        fire_cooldown: quotient(from_whole(1), class_stats(p.ship_class).primary_fire_rate_hz),
        pending_torpedo_fire: false,
        torpedo_count: if p.torpedo_count > 0 {
            (p.torpedo_count - 1) as u8
        } else {
            0
        },
        ..p
    }
}

/// A torpedo that leaves a ship in a direction with the cosine and the sine given.
pub open spec fn torpedo_from(
    id: EntityId,
    owner: PlayerId,
    ship: ServerEntity,
    stats: ShipStats,
    angle: Single,
    c: Single,
    s: Single,
) -> ServerEntity {
    ServerEntity {
        vx: sum(ship.vx, product(c, stats.primary_projectile_speed)),
        vy: sum(ship.vy, product(s, stats.primary_projectile_speed)),
        angle,
        owner: Some(owner),
        damage: stats.primary_damage,
        travel_remaining: Some(
            product(product(from_whole(2), stats.phaser_range), from_fraction(3, 5)),
        ),
        ..still(
            id,
            EntityKind::Torpedo,
            sum(ship.x, product(c, from_whole(22))),
            sum(ship.y, product(s, from_whole(22))),
        )
    }
}

/// A torpedo leaves the ship towards the cursor.
pub open spec fn launched(w: World, id: PlayerId, eid: EntityId, t: Trace) -> (World, Trace) {
    match player_of(w, id) {
        Some(p) => {
            let w1 = with_player(w, fired(p));
            match entity_of(w, eid) {
                Some(ship) => {
                    let angle = p.input.mouse_angle;
                    let c = told(t, 0, Ask::Cos(angle));
                    let s = told(t, 1, Ask::Sin(angle));
                    (
                        joined(
                            w1,
                            torpedo_from(
                                w.next_entity_id,
                                id,
                                ship,
                                class_stats(p.ship_class),
                                angle,
                                c,
                                s,
                            ),
                        ),
                        past(t, seq![Ask::Cos(angle), Ask::Sin(angle)]),
                    )
                },
                None => (w1, t),
            }
        },
        None => (w, t),
    }
}

/// One tick of a player whose ship is there.
pub open spec fn flown(w: World, p: ServerPlayer, e: ServerEntity, dt: Single, t: Trace) -> (
    World,
    Trace,
) {
    let (e1, burnt, t1) = steered(e, p.input, class_stats(p.ship_class), p.fuel, dt, t);
    let p1 = tuned(p, burnt, dt);
    let w1 = with_player(with_entity(w, e1), p1);
    let (w2, t2) = if beam_on(p1) {
        beamed(w1, p1, e1, shot_due(p1), t1)
    } else {
        (beam_dropped(w1, p1), t1)
    };
    if torpedo_due(p1) {
        launched(w2, p.id, e.id, t2)
    } else {
        (w2, t2)
    }
}

/// One tick of a player: nothing happens without a ship.
pub open spec fn piloted(w: World, id: PlayerId, dt: Single, t: Trace) -> (World, Trace) {
    match player_of(w, id) {
        Some(p) => match p.entity_id {
            Some(eid) => match entity_of(w, eid) {
                Some(e) => flown(w, p, e, dt, t),
                None => (w, t),
            },
            None => (w, t),
        },
        None => (w, t),
    }
}

/// Gives one torpedo for every full half second on the timer.
fn reload(timer: Single, count: u8, max: u8) -> (r: (Single, u8))
    ensures
        r == reloaded(timer, count, max),
{
    let half: Single = Single::fraction(1, 2);
    let mut t: Single = timer;
    let mut n: u8 = count;
    let mut less: Single = t.minus(half);
    while half.is_at_most(t) && less.is_less(t)
        invariant
            half == from_fraction(1, 2),
            less == difference(t, half),
            reloaded(timer, count, max) == reloaded(t, n, max),
        decreases t.key() + 0x8000_0000,
    {
        n = if n < max {
            n + 1
        } else {
            max
        };
        t = less;
        less = t.minus(half);
    }
    (t, n)
}

fn tick_down(timer: Single, dt: Single) -> (r: Single)
    ensures
        r == ticked(timer, dt),
{
    if Single::nought().is_less(timer) {
        timer.minus(dt)
    } else {
        timer
    }
}

impl ServerPlayer {
    fn holds_beam(&self) -> (r: bool)
        ensures
            r == beam_held(*self),
    {
        self.input.fire_phaser && self.input.mouse_distance.is_at_most(
            self.ship_class.stats().phaser_range,
        )
    }

    /// Spends and refills the fuel of one tick, and hides the ship where it can.
    fn spend_fuel(&mut self, burnt: Single, dt: Single)
        ensures
            *final(self) == (ServerPlayer {
                fuel: fuel_left(*old(self), burnt, dt),
                cloaked: hidden(*old(self), burnt, dt),
                ..*old(self)
            }),
    {
        let zero: Single = Single::nought();
        let stats: ShipStats = self.ship_class.stats();
        if self.input.cloak_active && self.ship_class.can_cloak() && zero.is_less(self.fuel) {
            self.fuel = self.fuel.minus(stats.cloak_fuel_drain.times(dt)).minus(burnt).max(zero);
            self.cloaked = zero.is_less(self.fuel);
        } else {
            let cost: Single = if self.holds_beam() || zero.is_less(self.phaser_min_remaining) {
                stats.phaser_fuel_drain.times(dt)
            } else {
                zero
            };
            self.cloaked = false;
            self.fuel = self.fuel.minus(burnt).minus(cost).plus(stats.fuel_regen.times(dt)).clamp(
                zero,
                stats.fuel_capacity,
            );
        }
    }

    /// Brings the gauges on by one tick in which some fuel was burnt.
    pub fn tune(&mut self, burnt: Single, dt: Single)
        ensures
            *final(self) == tuned(*old(self), burnt, dt),
    {
        let zero: Single = Single::nought();
        let stats: ShipStats = self.ship_class.stats();
        self.spend_fuel(burnt, dt);
        self.shields_on = self.input.shields_active && !self.cloaked && !self.shields_collapsed;
        if !zero.is_less(self.shield_regen_cooldown) && self.shields_on {
            self.shields = self.shields.plus(Single::whole(10).times(dt)).min(stats.max_shields);
        }
        self.shield_regen_cooldown = tick_down(self.shield_regen_cooldown, dt);
        self.fire_cooldown = tick_down(self.fire_cooldown, dt);
        self.phaser_cooldown = tick_down(self.phaser_cooldown, dt);
        self.phaser_min_remaining = self.phaser_min_remaining.minus(dt).max(zero);
        if self.torpedo_count < stats.max_torpedoes {
            let (timer, count) = reload(
                self.torpedo_regen_timer.plus(dt),
                self.torpedo_count,
                stats.max_torpedoes,
            );
            self.torpedo_regen_timer = timer;
            self.torpedo_count = count;
        }
    }

    pub fn is_beam_on(&self) -> (r: bool)
        ensures
            r == beam_on(*self),
    {
        let zero: Single = Single::nought();
        !self.cloaked && (self.holds_beam() || zero.is_less(self.phaser_min_remaining))
            && zero.is_less(self.fuel)
    }

    pub fn is_shot_due(&self) -> (r: bool)
        ensures
            r == shot_due(*self),
    {
        self.is_beam_on() && self.phaser_cooldown.is_at_most(Single::nought())
    }

    pub fn is_torpedo_due(&self) -> (r: bool)
        ensures
            r == torpedo_due(*self),
    {
        !self.cloaked && self.pending_torpedo_fire && self.fire_cooldown.is_at_most(
            Single::nought(),
        ) && self.torpedo_count > 0
    }

    /// Spends a torpedo.
    fn fire(&mut self)
        ensures
            *final(self) == fired(*old(self)),
    {
        self.fire_cooldown = Single::whole(1).over(self.ship_class.stats().primary_fire_rate_hz);
        self.pending_torpedo_fire = false;
        self.torpedo_count = if self.torpedo_count > 0 {
            self.torpedo_count - 1
        } else {
            0
        };
    }

    /// Starts the wait for the next shot, and locks onto what was hit first.
    fn shoot(&mut self, hit: Option<(PhaserHit, Single)>)
        ensures
            *final(self) == shot(*old(self), hit),
    {
        self.phaser_cooldown = Single::whole(1).over(self.ship_class.stats().phaser_fire_rate_hz);
        if self.phaser_lock_target.is_none() {
            if let Some((h, _)) = hit {
                self.phaser_lock_target = Some(h);
            }
        }
    }
}

impl GameState {
    /// Where the thing is that a player's beam is locked onto.
    fn find_locked(&self, p: &ServerPlayer) -> (r: Option<(Single, Single)>)
        ensures
            r == locked_place(self@, *p),
    {
        let e: Option<ServerEntity> = match p.phaser_lock_target {
            Some(PhaserHit::Ship(id)) => self.ship(id),
            Some(PhaserHit::Asteroid(id)) => self.entity(id),
            None => None,
        };
        match e {
            Some(e) => Some((e.x, e.y)),
            None => None,
        }
    }

    /// The direction and reach of a player's beam.
    fn aim<F: Fn(Ask) -> Single>(
        &self,
        p: &ServerPlayer,
        sx: Single,
        sy: Single,
        oracle: &mut Oracle<F>,
    ) -> (r: (Single, Single))
        ensures
            final(oracle).follows(*old(oracle)),
            forall|rest: Trace| #[trigger]
                aimed(self@, *p, sx, sy, final(oracle).since(*old(oracle)) + rest) == (
                    r.0,
                    r.1,
                    rest,
                ),
    {
        let range: Single = p.ship_class.stats().phaser_range;
        match self.find_locked(p) {
            Some((tx, ty)) => {
                let dx: Single = tx.minus(sx);
                let dy: Single = ty.minus(sy);
                let dist: Single = dx.times(dx).plus(dy.times(dy)).sqrt().min(range);
                let dir: Single = oracle.ask(Ask::Atan2(dy, dx));
                proof {
                    let tr = oracle.since(*old(oracle));
                    lemma_past(tr);
                }
                (dir, dist)
            },
            None => {
                proof {
                    lemma_since_now(*oracle);
                }
                (p.input.mouse_angle, p.input.mouse_distance.min(range))
            },
        }
    }

    /// Shows the beam of the player at place `i`.
    fn show_beam(&mut self, i: usize, x: Single, y: Single, angle: Single, length: Single)
        requires
            i < old(self)@.players.len(),
            find(old(self)@.players, old(self)@.players[i as int].id) == Some(i as int),
        ensures
            beam_shown(old(self)@, old(self)@.players[i as int], x, y, angle, length) == (
                final(self)@,
                final(self)@.players[i as int],
            ),
            final(self)@.players.len() == old(self)@.players.len(),
    {
        match self.players.rows[i].phaser_beam_entity {
            Some(id) => {
                if let Some(k) = self.entities.position(id) {
                    self.entities.rows[k].x = x;
                    self.entities.rows[k].y = y;
                    self.entities.rows[k].angle = angle;
                    self.entities.rows[k].vx = length;
                    let ghost b = old(self)@.entities[k as int];
                    assert(self@ =~= with_entity(
                        old(self)@,
                        ServerEntity { x, y, angle, vx: length, ..b },
                    ));
                }
            },
            None => {
                let id: EntityId = self.alloc_entity_id();
                let mut b: ServerEntity = ServerEntity::still(id, EntityKind::Phaser, x, y);
                b.vx = length;
                b.angle = angle;
                b.owner = Some(self.players.rows[i].id);
                self.add_entity(b);
                let ghost w = self@;
                self.players.rows[i].phaser_beam_entity = Some(id);
                let lingers: Single = self.players.rows[i].phaser_min_remaining;
                self.players.rows[i].phaser_min_remaining = lingers.max(Single::whole(1));
                assert(self@ =~= with_player(w, self@.players[i as int]));
            },
        }
    }

    /// Turns the beam of the player at place `i` off.
    fn drop_beam(&mut self, i: usize)
        requires
            i < old(self)@.players.len(),
            find(old(self)@.players, old(self)@.players[i as int].id) == Some(i as int),
        ensures
            final(self)@ == beam_dropped(old(self)@, old(self)@.players[i as int]),
    {
        let beam: Option<EntityId> = self.players.rows[i].phaser_beam_entity;
        self.remove_any(beam);
        self.players.rows[i].phaser_beam_entity = None;
        self.players.rows[i].phaser_lock_target = None;
        self.players.rows[i].phaser_min_remaining = Single::nought();
        assert(self@ =~= beam_dropped(old(self)@, old(self)@.players[i as int]));
    }

    /// Damages what a beam hit.
    fn burn<F: Fn(Ask) -> Single>(
        &mut self,
        pid: PlayerId,
        hit: Option<(PhaserHit, Single)>,
        oracle: &mut Oracle<F>,
    )
        ensures
            final(oracle).follows(*old(oracle)),
            forall|rest: Trace| #[trigger]
                burnt(old(self)@, pid, hit, final(oracle).since(*old(oracle)) + rest) == (
                    final(self)@,
                    rest,
                ),
    {
        match hit {
            Some((PhaserHit::Ship(victim), dmg)) => {
                self.apply_damage(victim, dmg, Some(pid), false, oracle);
            },
            Some((PhaserHit::Asteroid(rock), dmg)) => {
                self.apply_asteroid_damage(rock, dmg, Some(pid), oracle);
            },
            None => {
                proof {
                    lemma_since_now(*oracle);
                }
            },
        }
    }

    /// Aims, casts and shows the beam of the player at place `i`, and does its damage.
    fn beam<F: Fn(Ask) -> Single>(
        &mut self,
        i: usize,
        e: &ServerEntity,
        fires: bool,
        oracle: &mut Oracle<F>,
    )
        requires
            i < old(self)@.players.len(),
            find(old(self)@.players, old(self)@.players[i as int].id) == Some(i as int),
        ensures
            final(oracle).follows(*old(oracle)),
            forall|rest: Trace| #[trigger]
                beamed(
                    old(self)@,
                    old(self)@.players[i as int],
                    *e,
                    fires,
                    final(oracle).since(*old(oracle)) + rest,
                ) == (final(self)@, rest),
    {
        let ghost p = self@.players[i as int];
        let ghost w = self@;
        let pid: PlayerId = self.players.rows[i].id;
        let (dir, reach) = self.aim(&self.players.rows[i], e.x, e.y, oracle);
        let ghost o1 = *oracle;
        if self.find_locked(&self.players.rows[i]).is_none() {
            self.players.rows[i].phaser_lock_target = None;
        }
        let ghost p1 = relocked(w, p);
        let ghost w1 = with_player(w, p1);
        assert(self@ =~= w1);
        let (length, hit) = self.cast_phaser_ray(e.x, e.y, dir, reach, pid, oracle);
        let ghost o2 = *oracle;
        proof {
            assert(p1.id == p.id);
            assert(find(w1.players, p.id) == Some(i as int)) by {
                lemma_find(w.players, p.id);
                lemma_found(w1.players, p.id, i as int);
            }
        }
        self.show_beam(i, e.x, e.y, dir, length);
        let ghost w2 = self@;
        let ghost p2 = self@.players[i as int];
        if fires {
            proof {
                lemma_find(w1.players, p.id);
                lemma_found(w2.players, p.id, i as int);
            }
            self.players.rows[i].shoot(hit);
            assert(self@ =~= with_player(w2, shot(p2, hit)));
            self.burn(pid, hit, oracle);
        } else {
            proof {
                lemma_since_now(*oracle);
            }
        }
        proof {
            lemma_since_chain(o1, o2, *oracle);
            lemma_since_chain(*old(oracle), o1, *oracle);
        }
    }

    /// Launches a torpedo from a player's ship towards the cursor.
    fn launch<F: Fn(Ask) -> Single>(
        &mut self,
        pid: PlayerId,
        eid: EntityId,
        oracle: &mut Oracle<F>,
    )
        ensures
            final(oracle).follows(*old(oracle)),
            forall|rest: Trace| #[trigger]
                launched(old(self)@, pid, eid, final(oracle).since(*old(oracle)) + rest) == (
                    final(self)@,
                    rest,
                ),
    {
        proof {
            lemma_since_now(*oracle);
        }
        if let Some(i) = self.players.position(pid) {
            self.players.rows[i].fire();
            assert(self@ =~= with_player(old(self)@, fired(old(self)@.players[i as int])));
            if let Some(ship) = self.entity(eid) {
                let stats: ShipStats = self.players.rows[i].ship_class.stats();
                let angle: Single = self.players.rows[i].input.mouse_angle;
                let id: EntityId = self.alloc_entity_id();
                let c: Single = oracle.ask(Ask::Cos(angle));
                let s: Single = oracle.ask(Ask::Sin(angle));
                let mut e: ServerEntity = ServerEntity::still(
                    id,
                    EntityKind::Torpedo,
                    ship.x.plus(c.times(Single::whole(22))),
                    ship.y.plus(s.times(Single::whole(22))),
                );
                e.vx = ship.vx.plus(c.times(stats.primary_projectile_speed));
                e.vy = ship.vy.plus(s.times(stats.primary_projectile_speed));
                e.angle = angle;
                e.owner = Some(pid);
                e.damage = stats.primary_damage;
                e.travel_remaining = Some(
                    Single::whole(2).times(stats.phaser_range).times(Single::fraction(3, 5)),
                );
                self.add_entity(e);
                proof {
                    let tr = oracle.since(*old(oracle));
                    lemma_past(tr);
                }
            }
        }
    }

    /// One tick of a player: the ship moves, the gauges move on, and the weapons fire.
    pub fn update_player<F: Fn(Ask) -> Single>(
        &mut self,
        pid: PlayerId,
        dt: Single,
        oracle: &mut Oracle<F>,
    )
        ensures
            final(oracle).follows(*old(oracle)),
            forall|rest: Trace| #[trigger]
                piloted(old(self)@, pid, dt, final(oracle).since(*old(oracle)) + rest) == (
                    final(self)@,
                    rest,
                ),
    {
        proof {
            lemma_since_now(*oracle);
        }
        let i: usize = match self.players.position(pid) {
            Some(i) => i,
            None => {
                return;
            },
        };
        let eid: EntityId = match self.players.rows[i].entity_id {
            Some(eid) => eid,
            None => {
                return;
            },
        };
        let k: usize = match self.entities.position(eid) {
            Some(k) => k,
            None => {
                return;
            },
        };
        let ghost w = self@;
        let ghost p = self@.players[i as int];
        let stats: ShipStats = self.players.rows[i].ship_class.stats();
        let input: PlayerInput = self.players.rows[i].input;
        let fuel: Single = self.players.rows[i].fuel;
        let (moved, burnt) = steer(&self.entities.rows[k], &input, &stats, fuel, dt, oracle);
        let ghost o1 = *oracle;
        proof {
            let tr = o1.since(*old(oracle)) + Seq::empty();
            assert(steered(w.entities[k as int], input, stats, fuel, dt, tr).0 == moved);
        }
        self.entities.rows[k] = moved;
        assert(self@ =~= with_entity(w, moved));
        self.players.rows[i].tune(burnt, dt);
        let ghost p1 = tuned(p, burnt, dt);
        let ghost w1 = with_player(with_entity(w, moved), p1);
        assert(self@ =~= w1);
        proof {
            lemma_find(w.players, p.id);
            lemma_found(w1.players, p.id, i as int);
        }
        let fires: bool = self.players.rows[i].is_shot_due();
        let launches: bool = self.players.rows[i].is_torpedo_due();
        if self.players.rows[i].is_beam_on() {
            self.beam(i, &moved, fires, oracle);
        } else {
            proof {
                lemma_since_now(*oracle);
            }
            self.drop_beam(i);
        }
        let ghost o2 = *oracle;
        if launches {
            self.launch(pid, eid, oracle);
        } else {
            proof {
                lemma_since_now(*oracle);
            }
        }
        proof {
            lemma_since_chain(o1, o2, *oracle);
            lemma_since_chain(*old(oracle), o1, *oracle);
        }
    }
}

} // verus!
