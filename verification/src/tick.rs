//! Events from the players, the tick of the world, and the snapshot that is sent out.
use vstd::prelude::*;

use crate::collisions::{planet_struck, rock_struck, shot_down};
use crate::damage::{is_big, self_destructed};
use crate::game::{
    class_stats, EntityId, EntityKind, EntityState, PlayerId, ShipClass, ShipInfo, ShipStats,
};
use crate::helm::{drag, dragged, shift, shifted, Motion};
use crate::oracle::{
    lemma_follows, lemma_since_chain, lemma_since_now, lemma_past, past, told, Ask, Oracle, Trace,
};
use crate::pilot::piloted;
use crate::protocol::{idle_input, GameStateSnapshot, PlayerInput, PlayerScore, ServerMessage};
use crate::ray::radius_of;
use crate::single::{difference, from_whole, le, lt, product, sum, zero, Single};
use crate::table::{put, without};
use crate::world::{
    big_spawned, player_of, ship_spawned, with_player, without_any, Death, GameState, ServerEntity,
    ServerPlayer, World,
};

verus! {

broadcast use lemma_follows;

/// Something that a player does.
#[derive(Debug)]
pub enum GameEvent {
    PlayerJoined { id: PlayerId, username: String },
    PlayerLeft(PlayerId),
    PlayerInput { id: PlayerId, input: PlayerInput },
    SelectShip { id: PlayerId, class: ShipClass },
    RequestRespawn(PlayerId),
    /// The self-destruct countdown of a player has run out.
    SelfDestruct(PlayerId),
}

/// A player who has just joined: a destroyer that appears in a second.
pub open spec fn newcomer(id: PlayerId, username: String) -> ServerPlayer {
    ServerPlayer {
        id,
        username,
        ship_class: ShipClass::Destroyer,
        entity_id: None,
        hull: zero(),
        shields: zero(),
        fuel: zero(),
        fire_cooldown: zero(),
        phaser_cooldown: zero(),
        phaser_beam_entity: None,
        phaser_lock_target: None,
        phaser_min_remaining: zero(),
        shield_regen_cooldown: zero(),
        cloaked: false,
        shields_on: true,
        shields_collapsed: false,
        respawn_timer: Some(from_whole(1)),
        kills: 0,
        deaths: 0,
        last_input_seq: 0,
        input: idle_input(),
        torpedo_count: class_stats(ShipClass::Destroyer).max_torpedoes,
        torpedo_regen_timer: zero(),
        score: 0,
        pending_torpedo_fire: false,
    }
}

/// A player after an input: one that does not raise the sequence number is ignored, a request for
/// a torpedo stays until the torpedo leaves, and collapsed shields can be raised again once the
/// pilot has switched them off.
pub open spec fn steered_by(p: ServerPlayer, input: PlayerInput) -> ServerPlayer {
    if input.sequence > p.last_input_seq {
        ServerPlayer {
            last_input_seq: input.sequence,
            pending_torpedo_fire: p.pending_torpedo_fire || input.fire_primary,
            shields_collapsed: p.shields_collapsed && input.shields_active,
            input,
            ..p
        }
    } else {
        p
    }
}

/// A player after asking for a class: it changes only while there is no ship.
pub open spec fn reclassed(p: ServerPlayer, class: ShipClass) -> ServerPlayer {
    if p.entity_id is None {
        ServerPlayer { ship_class: class, ..p }
    } else {
        p
    }
}

/// A player after asking to come back: the countdown starts where there is no ship and none is
/// under way.
pub open spec fn recalled(p: ServerPlayer) -> ServerPlayer {
    if p.entity_id is None && p.respawn_timer is None {
        ServerPlayer { respawn_timer: Some(from_whole(5)), ..p }
    } else {
        p
    }
}

/// A player leaves, with the ship and the beam.
pub open spec fn departed(w: World, id: PlayerId) -> World {
    match player_of(w, id) {
        Some(p) => without_any(
            without_any(World { players: without(w.players, id), ..w }, p.entity_id),
            p.phaser_beam_entity,
        ),
        None => w,
    }
}

/// The world after an event.
pub open spec fn handled(w: World, event: GameEvent, t: Trace) -> (World, Trace) {
    match event {
        GameEvent::PlayerJoined { id, username } => (with_player(w, newcomer(id, username)), t),
        GameEvent::PlayerLeft(id) => (departed(w, id), t),
        GameEvent::PlayerInput { id, input } => (
            match player_of(w, id) {
                Some(p) => with_player(w, steered_by(p, input)),
                None => w,
            },
            t,
        ),
        GameEvent::SelectShip { id, class } => (
            match player_of(w, id) {
                Some(p) => with_player(w, reclassed(p, class)),
                None => w,
            },
            t,
        ),
        GameEvent::RequestRespawn(id) => (
            match player_of(w, id) {
                Some(p) => with_player(w, recalled(p)),
                None => w,
            },
            t,
        ),
        GameEvent::SelfDestruct(id) => self_destructed(w, id, t),
    }
}

/// Whether a player's countdown ends in this tick.
pub open spec fn is_ready(p: ServerPlayer, dt: Single) -> bool {
    p.respawn_timer matches Some(left) && le(difference(left, dt), zero())
}

/// A player whose countdown has gone on by one tick.
pub open spec fn waited(p: ServerPlayer, dt: Single) -> ServerPlayer {
    match p.respawn_timer {
        Some(left) => ServerPlayer {
            respawn_timer: if is_ready(p, dt) {
                None
            } else {
                Some(difference(left, dt))
            },
            ..p
        },
        None => p,
    }
}

/// All countdowns have gone on by one tick.
pub open spec fn all_waited(ps: Seq<ServerPlayer>, dt: Single) -> Seq<ServerPlayer> {
    ps.map_values(|p: ServerPlayer| waited(p, dt))
}

/// The players whose countdown ends in this tick.
pub open spec fn ready(ps: Seq<ServerPlayer>, dt: Single) -> Seq<PlayerId>
    decreases ps.len(),
{
    if ps.len() == 0 {
        Seq::empty()
    } else if is_ready(ps.last(), dt) {
        ready(ps.drop_last(), dt).push(ps.last().id)
    } else {
        ready(ps.drop_last(), dt)
    }
}

/// A player with a new ship, everything at the maximum of its class.
pub open spec fn fresh(p: ServerPlayer, eid: EntityId) -> ServerPlayer {
    let stats = class_stats(p.ship_class);
    ServerPlayer {
        entity_id: Some(eid),
        hull: stats.max_hull,
        shields: stats.max_shields,
        fuel: stats.fuel_capacity,
        fire_cooldown: zero(),
        phaser_cooldown: zero(),
        phaser_beam_entity: None,
        shield_regen_cooldown: zero(),
        cloaked: false,
        input: PlayerInput { cloak_active: false, ..p.input },
        shields_on: true,
        shields_collapsed: false,
        torpedo_count: stats.max_torpedoes,
        torpedo_regen_timer: zero(),
        pending_torpedo_fire: false,
        ..p
    }
}

/// A player's ship appears.
pub open spec fn respawned(w: World, id: PlayerId, t: Trace) -> (World, Trace) {
    let (w1, eid, t1) = ship_spawned(w, id, t);
    (
        match player_of(w1, id) {
            Some(p) => with_player(w1, fresh(p, eid)),
            None => w1,
        },
        t1,
    )
}

/// The ships of several players appear.
pub open spec fn all_respawned(w: World, ids: Seq<PlayerId>, t: Trace) -> (World, Trace)
    decreases ids.len(),
{
    if ids.len() == 0 {
        (w, t)
    } else {
        let (w1, t1) = all_respawned(w, ids.drop_last(), t);
        respawned(w1, ids.last(), t1)
    }
}

/// The ids of the players.
pub open spec fn ids_of(ps: Seq<ServerPlayer>) -> Seq<PlayerId> {
    ps.map_values(|p: ServerPlayer| p.id)
}

/// Several players go on by one tick.
pub open spec fn all_piloted(w: World, ids: Seq<PlayerId>, dt: Single, t: Trace) -> (World, Trace)
    decreases ids.len(),
{
    if ids.len() == 0 {
        (w, t)
    } else {
        let (w1, t1) = all_piloted(w, ids.drop_last(), dt, t);
        piloted(w1, ids.last(), dt, t1)
    }
}

/// An entity whose lifetime has gone on by one tick.
pub open spec fn aged(e: ServerEntity, dt: Single) -> ServerEntity {
    ServerEntity {
        lifetime: match e.lifetime {
            Some(left) => Some(difference(left, dt)),
            None => None,
        },
        ..e
    }
}

/// An entity moved by its velocity.
pub open spec fn moved(e: ServerEntity, dt: Single) -> ServerEntity {
    ServerEntity {
        x: shifted(e.x, product(e.vx, dt)),
        y: shifted(e.y, product(e.vy, dt)),
        ..e
    }
}

/// One tick of an entity that no player steers: projectiles use up their range, debris tumbles and
/// slows down, asteroids drift, and everything else stays.
pub open spec fn drifted(e: ServerEntity, dt: Single, t: Trace) -> (ServerEntity, Trace) {
    let a = aged(e, dt);
    if e.kind == EntityKind::Torpedo || e.kind == EntityKind::Drone {
        match e.travel_remaining {
            Some(left) => {
                let speed = told(t, 0, Ask::Hypot(e.vx, e.vy));
                (
                    ServerEntity {
                        travel_remaining: Some(difference(left, product(speed, dt))),
                        ..moved(a, dt)
                    },
                    past(t, seq![Ask::Hypot(e.vx, e.vy)]),
                )
            },
            None => (moved(a, dt), t),
        }
    } else if e.kind == EntityKind::Debris {
        let (m, t1) = dragged(Motion { vx: e.vx, vy: e.vy, burnt: zero() }, dt, t);
        (
            ServerEntity {
                angle: sum(e.angle, product(e.damage, dt)),
                vx: m.vx,
                vy: m.vy,
                ..moved(a, dt)
            },
            t1,
        )
    } else if e.kind == EntityKind::Asteroid {
        (moved(a, dt), t)
    } else {
        (a, t)
    }
}

/// One tick of all entities that no player steers.
pub open spec fn all_drifted(es: Seq<ServerEntity>, dt: Single, t: Trace) -> (
    Seq<ServerEntity>,
    Trace,
)
    decreases es.len(),
{
    if es.len() == 0 {
        (Seq::empty(), t)
    } else {
        let (front, t1) = all_drifted(es.drop_last(), dt, t);
        let (e, t2) = drifted(es.last(), dt, t1);
        (front.push(e), t2)
    }
}

/// Whether an entity has neither outlived its time nor used up its range.
pub open spec fn lives(e: ServerEntity) -> bool {
    &&& e.lifetime matches Some(left) ==> lt(zero(), left)
    &&& e.travel_remaining matches Some(left) ==> lt(zero(), left)
}

/// The entities that have neither outlived their time nor used up their range.
pub open spec fn living(es: Seq<ServerEntity>) -> Seq<ServerEntity>
    decreases es.len(),
{
    if es.len() == 0 {
        Seq::empty()
    } else if lives(es.last()) {
        living(es.drop_last()).push(es.last())
    } else {
        living(es.drop_last())
    }
}

/// How many big asteroids there are.
pub open spec fn big_count(es: Seq<ServerEntity>) -> nat
    decreases es.len(),
{
    if es.len() == 0 {
        0
    } else if is_big(es.last()) {
        big_count(es.drop_last()) + 1
    } else {
        big_count(es.drop_last())
    }
}

/// A big asteroid appears where fewer than five are left.
pub open spec fn replenished(w: World, t: Trace) -> (World, Trace) {
    if big_count(w.entities) < 5 {
        big_spawned(w, t)
    } else {
        (w, t)
    }
}

/// A tick number after the given one.
pub open spec fn next_tick(n: u64) -> u64 {
    if n == u64::MAX {
        0
    } else {
        (n + 1) as u64
    }
}

/// The players move on by one tick: those whose countdown ends appear, and then each ship flies.
pub open spec fn players_ticked(w: World, dt: Single, t: Trace) -> (World, Trace) {
    let w0 = World {
        tick: next_tick(w.tick),
        players: all_waited(w.players, dt),
        ..w
    };
    let (w1, t1) = all_respawned(w0, ready(w.players, dt), t);
    all_piloted(w1, ids_of(w1.players), dt, t1)
}

/// The other entities move on by one tick, those that are done go, and asteroids are replenished.
pub open spec fn entities_ticked(w: World, dt: Single, t: Trace) -> (World, Trace) {
    let (es, t1) = all_drifted(w.entities, dt, t);
    replenished(World { entities: living(es), ..w }, t1)
}

/// What has come to touch collides.
pub open spec fn collided(w: World, t: Trace) -> (World, Trace) {
    let (w1, t1) = shot_down(w, t);
    let (w2, t2) = planet_struck(w1, t1);
    rock_struck(w2, t2)
}

/// The world moves on by one tick.
pub open spec fn updated(w: World, dt: Single, t: Trace) -> (World, Trace) {
    let (w1, t1) = players_ticked(w, dt, t);
    let (w2, t2) = entities_ticked(w1, dt, t1);
    collided(w2, t2)
}

/// What clients are told of a player's ship.
pub open spec fn info_of(p: ServerPlayer, id: PlayerId) -> ShipInfo {
    ShipInfo {
        player_id: id,
        class: p.ship_class,
        hull: p.hull,
        shields: p.shields,
        fuel: p.fuel,
        cloaked: p.cloaked,
        shields_on: p.shields_on,
        torpedo_count: p.torpedo_count,
        phaser_locked: p.phaser_lock_target is Some,
    }
}

/// What clients are told of an entity: of an asteroid, its radius is in `vx`; of an explosion and
/// of a torpedo, what is left of its time or range is in `vy`.
pub open spec fn state_of(w: World, e: ServerEntity) -> EntityState {
    EntityState {
        id: e.id,
        kind: e.kind,
        x: e.x,
        y: e.y,
        vx: if e.kind == EntityKind::Asteroid {
            radius_of(e)
        } else {
            e.vx
        },
        vy: if e.kind == EntityKind::Explosion {
            match e.lifetime {
                Some(left) => left,
                None => zero(),
            }
        } else if e.kind == EntityKind::Torpedo {
            match e.travel_remaining {
                Some(left) => left,
                None => zero(),
            }
        } else {
            e.vy
        },
        angle: e.angle,
        ship_info: if e.kind == EntityKind::Ship {
            match e.owner {
                Some(id) => match player_of(w, id) {
                    Some(p) => Some(info_of(p, id)),
                    None => None,
                },
                None => None,
            }
        } else {
            None
        },
    }
}

/// A player's row of the scoreboard.
pub open spec fn row_of(p: ServerPlayer) -> PlayerScore {
    PlayerScore {
        player_id: p.id,
        username: p.username,
        kills: p.kills,
        deaths: p.deaths,
        score: p.score,
        ship_class: p.ship_class,
        alive: p.entity_id is Some,
    }
}

impl ServerPlayer {
    /// A player who has just joined.
    pub fn newcomer(id: PlayerId, username: String) -> (r: ServerPlayer)
        ensures
            r == newcomer(id, username),
    {
        ServerPlayer {
            id,
            username,
            ship_class: ShipClass::Destroyer,
            entity_id: None,
            hull: Single::nought(),
            shields: Single::nought(),
            fuel: Single::nought(),
            fire_cooldown: Single::nought(),
            phaser_cooldown: Single::nought(),
            phaser_beam_entity: None,
            phaser_lock_target: None,
            phaser_min_remaining: Single::nought(),
            shield_regen_cooldown: Single::nought(),
            cloaked: false,
            shields_on: true,
            shields_collapsed: false,
            respawn_timer: Some(Single::whole(1)),
            kills: 0,
            deaths: 0,
            last_input_seq: 0,
            input: PlayerInput::default(),
            torpedo_count: ShipClass::Destroyer.stats().max_torpedoes,
            torpedo_regen_timer: Single::nought(),
            score: 0,
            pending_torpedo_fire: false,
        }
    }

    fn take_input(&mut self, input: PlayerInput)
        ensures
            *final(self) == steered_by(*old(self), input),
    {
        if input.sequence > self.last_input_seq {
            self.last_input_seq = input.sequence;
            if input.fire_primary {
                self.pending_torpedo_fire = true;
            }
            if !input.shields_active {
                self.shields_collapsed = false;
            }
            self.input = input;
        }
    }

    fn take_class(&mut self, class: ShipClass)
        ensures
            *final(self) == reclassed(*old(self), class),
    {
        if self.entity_id.is_none() {
            self.ship_class = class;
        }
    }

    fn recall(&mut self)
        ensures
            *final(self) == recalled(*old(self)),
    {
        if self.entity_id.is_none() && self.respawn_timer.is_none() {
            self.respawn_timer = Some(Single::whole(5));
        }
    }

    /// Brings the countdown on by one tick; tells whether it ends.
    fn wait(&mut self, dt: Single) -> (r: bool)
        ensures
            r == is_ready(*old(self), dt),
            *final(self) == waited(*old(self), dt),
    {
        match self.respawn_timer {
            Some(left) => {
                let rest: Single = left.minus(dt);
                if rest.is_at_most(Single::nought()) {
                    self.respawn_timer = None;
                    true
                } else {
                    self.respawn_timer = Some(rest);
                    false
                }
            },
            None => false,
        }
    }

    /// Takes over a new ship.
    fn refresh(&mut self, eid: EntityId)
        ensures
            *final(self) == fresh(*old(self), eid),
    {
        let stats: ShipStats = self.ship_class.stats();
        self.entity_id = Some(eid);
        self.hull = stats.max_hull;
        self.shields = stats.max_shields;
        self.fuel = stats.fuel_capacity;
        self.fire_cooldown = Single::nought();
        self.phaser_cooldown = Single::nought();
        self.phaser_beam_entity = None;
        self.shield_regen_cooldown = Single::nought();
        self.cloaked = false;
        self.input.cloak_active = false;
        self.shields_on = true;
        self.shields_collapsed = false;
        self.torpedo_count = stats.max_torpedoes;
        self.torpedo_regen_timer = Single::nought();
        self.pending_torpedo_fire = false;
    }
}

impl ServerEntity {
    /// Whether this entity has neither outlived its time nor used up its range.
    fn is_living(&self) -> (r: bool)
        ensures
            r == lives(*self),
    {
        let zero: Single = Single::nought();
        let timely: bool = match self.lifetime {
            Some(left) => zero.is_less(left),
            None => true,
        };
        let near: bool = match self.travel_remaining {
            Some(left) => zero.is_less(left),
            None => true,
        };
        timely && near
    }

    /// Moves this entity by one tick.
    fn drift<F: Fn(Ask) -> Single>(&self, dt: Single, oracle: &mut Oracle<F>) -> (r: ServerEntity)
        ensures
            final(oracle).follows(*old(oracle)),
            forall|rest: Trace| #[trigger]
                drifted(*self, dt, final(oracle).since(*old(oracle)) + rest) == (r, rest),
    {
        proof {
            lemma_since_now(*oracle);
        }
        let mut r: ServerEntity = *self;
        if let Some(left) = self.lifetime {
            r.lifetime = Some(left.minus(dt));
        }
        let moves: bool = match self.kind {
            EntityKind::Torpedo => true,
            EntityKind::Drone => true,
            EntityKind::Debris => true,
            EntityKind::Asteroid => true,
            _ => false,
        };
        if moves {
            r.x = shift(self.x, self.vx.times(dt));
            r.y = shift(self.y, self.vy.times(dt));
        }
        if self.kind == EntityKind::Torpedo || self.kind == EntityKind::Drone {
            if let Some(left) = self.travel_remaining {
                let speed: Single = oracle.ask(Ask::Hypot(self.vx, self.vy));
                proof {
                    let tr = oracle.since(*old(oracle));
                    lemma_past(tr);
                }
                r.travel_remaining = Some(left.minus(speed.times(dt)));
            }
        } else if self.kind == EntityKind::Debris {
            r.angle = self.angle.plus(self.damage.times(dt));
            let m: Motion = drag(
                Motion { vx: self.vx, vy: self.vy, burnt: Single::nought() },
                dt,
                oracle,
            );
            r.vx = m.vx;
            r.vy = m.vy;
        }
        r
    }
}

impl Death {
    /// The news of a destruction.
    pub fn message(&self) -> (r: ServerMessage)
        ensures
            r == (ServerMessage::PlayerDied {
                victim: self.victim,
                killer: self.killer,
                self_destruct: self.self_destruct,
            }),
    {
        ServerMessage::PlayerDied {
            victim: self.victim,
            killer: self.killer,
            self_destruct: self.self_destruct,
        }
    }
}

impl GameState {
    /// Takes the destructions that have not been announced yet, for every player to be told.
    pub fn take_announcements(&mut self) -> (r: Vec<Death>)
        ensures
            r@ == old(self)@.announcements,
            final(self)@ == (World { announcements: Seq::empty(), ..old(self)@ }),
    {
        let mut r: Vec<Death> = Vec::new();
        r.append(&mut self.announcements);
        assert(r@ =~= old(self)@.announcements);
        r
    }

    /// Handles an event.
    pub fn handle_event<F: Fn(Ask) -> Single>(&mut self, event: GameEvent, oracle: &mut Oracle<F>)
        ensures
            final(oracle).follows(*old(oracle)),
            forall|rest: Trace| #[trigger]
                handled(old(self)@, event, final(oracle).since(*old(oracle)) + rest) == (
                    final(self)@,
                    rest,
                ),
    {
        proof {
            lemma_since_now(*oracle);
        }
        match event {
            GameEvent::PlayerJoined { id, username } => {
                self.players.put(ServerPlayer::newcomer(id, username));
            },
            GameEvent::PlayerLeft(id) => {
                if let Some(i) = self.players.position(id) {
                    let ship: Option<EntityId> = self.players.rows[i].entity_id;
                    let beam: Option<EntityId> = self.players.rows[i].phaser_beam_entity;
                    self.players.remove(id);
                    self.remove_any(ship);
                    self.remove_any(beam);
                }
            },
            GameEvent::PlayerInput { id, input } => {
                if let Some(i) = self.players.position(id) {
                    self.players.rows[i].take_input(input);
                    assert(self@ =~= with_player(
                        old(self)@,
                        steered_by(old(self)@.players[i as int], input),
                    ));
                }
            },
            GameEvent::SelectShip { id, class } => {
                if let Some(i) = self.players.position(id) {
                    self.players.rows[i].take_class(class);
                    assert(self@ =~= with_player(
                        old(self)@,
                        reclassed(old(self)@.players[i as int], class),
                    ));
                }
            },
            GameEvent::RequestRespawn(id) => {
                if let Some(i) = self.players.position(id) {
                    self.players.rows[i].recall();
                    assert(self@ =~= with_player(
                        old(self)@,
                        recalled(old(self)@.players[i as int]),
                    ));
                }
            },
            GameEvent::SelfDestruct(id) => {
                self.self_destruct_player(id, oracle);
            },
        }
    }

    /// Brings all countdowns on by one tick; gives the players whose countdown ends.
    fn wait_all(&mut self, dt: Single) -> (r: Vec<PlayerId>)
        ensures
            final(self)@ == (World { players: all_waited(old(self)@.players, dt), ..old(self)@ }),
            r@ == ready(old(self)@.players, dt),
    {
        let mut r: Vec<PlayerId> = Vec::new();
        let mut i: usize = 0;
        let ghost ps = self@.players;
        while i < self.players.rows.len()
            invariant
                i <= self@.players.len(),
                ps == old(self)@.players,
                self@.players.len() == ps.len(),
                self@ == (World { players: self@.players, ..old(self)@ }),
                forall|j: int| 0 <= j < i ==> #[trigger] self@.players[j] == waited(ps[j], dt),
                forall|j: int| i <= j < ps.len() ==> #[trigger] self@.players[j] == ps[j],
                r@ == ready(ps.take(i as int), dt),
            decreases self.players.rows.len() - i,
        {
            proof {
                assert(ps.take(i + 1).drop_last() =~= ps.take(i as int));
            }
            let id: PlayerId = self.players.rows[i].id;
            if self.players.rows[i].wait(dt) {
                r.push(id);
            }
            i = i + 1;
        }
        proof {
            assert(ps.take(i as int) =~= ps);
            assert(self@.players =~= all_waited(ps, dt));
        }
        r
    }

    /// Gives a player a new ship, everything at the maximum of its class.
    pub fn respawn_player<F: Fn(Ask) -> Single>(&mut self, pid: PlayerId, oracle: &mut Oracle<F>)
        ensures
            final(oracle).follows(*old(oracle)),
            forall|rest: Trace| #[trigger]
                respawned(old(self)@, pid, final(oracle).since(*old(oracle)) + rest) == (
                    final(self)@,
                    rest,
                ),
    {
        let eid: EntityId = self.spawn_ship_entity(pid, oracle);
        let ghost w = self@;
        if let Some(i) = self.players.position(pid) {
            self.players.rows[i].refresh(eid);
            assert(self@ =~= with_player(w, fresh(w.players[i as int], eid)));
        }
    }

    fn respawn_all<F: Fn(Ask) -> Single>(&mut self, ids: &Vec<PlayerId>, oracle: &mut Oracle<F>)
        ensures
            final(oracle).follows(*old(oracle)),
            forall|rest: Trace| #[trigger]
                all_respawned(old(self)@, ids@, final(oracle).since(*old(oracle)) + rest) == (
                    final(self)@,
                    rest,
                ),
    {
        proof {
            lemma_since_now(*oracle);
        }
        let mut i: usize = 0;
        while i < ids.len()
            invariant
                i <= ids.len(),
                oracle.follows(*old(oracle)),
                forall|rest: Trace| #[trigger]
                    all_respawned(
                        old(self)@,
                        ids@.take(i as int),
                        oracle.since(*old(oracle)) + rest,
                    ) == (self@, rest),
            decreases ids.len() - i,
        {
            let ghost before = *oracle;
            let ghost w = self@;
            self.respawn_player(ids[i], oracle);
            i = i + 1;
            proof {
                lemma_since_chain(*old(oracle), before, *oracle);
                assert(ids@.take(i as int).drop_last() =~= ids@.take(i - 1));
                assert forall|rest: Trace| #[trigger]
                    all_respawned(
                        old(self)@,
                        ids@.take(i as int),
                        oracle.since(*old(oracle)) + rest,
                    ) == (self@, rest) by {
                    let next = oracle.since(before) + rest;
                    assert(all_respawned(
                        old(self)@,
                        ids@.take(i - 1),
                        before.since(*old(oracle)) + next,
                    ) == (w, next));
                }
            }
        }
        proof {
            assert(ids@.take(i as int) =~= ids@);
        }
    }

    /// The ids of the players.
    fn player_ids(&self) -> (r: Vec<PlayerId>)
        ensures
            r@ == ids_of(self@.players),
    {
        let mut r: Vec<PlayerId> = Vec::new();
        let mut i: usize = 0;
        while i < self.players.rows.len()
            invariant
                i <= self@.players.len(),
                r@ == ids_of(self@.players.take(i as int)),
            decreases self@.players.len() - i,
        {
            r.push(self.players.rows[i].id);
            i = i + 1;
            proof {
                assert(r@ =~= ids_of(self@.players.take(i as int)));
            }
        }
        proof {
            assert(self@.players.take(i as int) =~= self@.players);
        }
        r
    }

    fn update_all<F: Fn(Ask) -> Single>(
        &mut self,
        ids: &Vec<PlayerId>,
        dt: Single,
        oracle: &mut Oracle<F>,
    )
        ensures
            final(oracle).follows(*old(oracle)),
            forall|rest: Trace| #[trigger]
                all_piloted(old(self)@, ids@, dt, final(oracle).since(*old(oracle)) + rest) == (
                    final(self)@,
                    rest,
                ),
    {
        proof {
            lemma_since_now(*oracle);
        }
        let mut i: usize = 0;
        while i < ids.len()
            invariant
                i <= ids.len(),
                oracle.follows(*old(oracle)),
                forall|rest: Trace| #[trigger]
                    all_piloted(
                        old(self)@,
                        ids@.take(i as int),
                        dt,
                        oracle.since(*old(oracle)) + rest,
                    ) == (self@, rest),
            decreases ids.len() - i,
        {
            let ghost before = *oracle;
            let ghost w = self@;
            self.update_player(ids[i], dt, oracle);
            i = i + 1;
            proof {
                lemma_since_chain(*old(oracle), before, *oracle);
                assert(ids@.take(i as int).drop_last() =~= ids@.take(i - 1));
                assert forall|rest: Trace| #[trigger]
                    all_piloted(
                        old(self)@,
                        ids@.take(i as int),
                        dt,
                        oracle.since(*old(oracle)) + rest,
                    ) == (self@, rest) by {
                    let next = oracle.since(before) + rest;
                    assert(all_piloted(
                        old(self)@,
                        ids@.take(i - 1),
                        dt,
                        before.since(*old(oracle)) + next,
                    ) == (w, next));
                }
            }
        }
        proof {
            assert(ids@.take(i as int) =~= ids@);
        }
    }

    /// Moves the players on by one tick.
    fn tick_players<F: Fn(Ask) -> Single>(&mut self, dt: Single, oracle: &mut Oracle<F>)
        ensures
            final(oracle).follows(*old(oracle)),
            forall|rest: Trace| #[trigger]
                players_ticked(old(self)@, dt, final(oracle).since(*old(oracle)) + rest) == (
                    final(self)@,
                    rest,
                ),
    {
        self.tick = if self.tick == u64::MAX {
            0
        } else {
            self.tick + 1
        };
        let to_spawn: Vec<PlayerId> = self.wait_all(dt);
        self.respawn_all(&to_spawn, oracle);
        let ghost o1 = *oracle;
        let ids: Vec<PlayerId> = self.player_ids();
        self.update_all(&ids, dt, oracle);
        proof {
            lemma_since_chain(*old(oracle), o1, *oracle);
        }
    }

    /// Moves the entities that no player steers.
    fn drift_all<F: Fn(Ask) -> Single>(&mut self, dt: Single, oracle: &mut Oracle<F>)
        ensures
            final(oracle).follows(*old(oracle)),
            forall|rest: Trace| #[trigger]
                all_drifted(old(self)@.entities, dt, final(oracle).since(*old(oracle)) + rest) == (
                    final(self)@.entities,
                    rest,
                ),
            final(self)@ == (World { entities: final(self)@.entities, ..old(self)@ }),
    {
        proof {
            lemma_since_now(*oracle);
        }
        let ghost es = self@.entities;
        let mut i: usize = 0;
        while i < self.entities.rows.len()
            invariant
                i <= self@.entities.len(),
                es == old(self)@.entities,
                self@.entities.len() == es.len(),
                self@ == (World { entities: self@.entities, ..old(self)@ }),
                forall|j: int| i <= j < es.len() ==> #[trigger] self@.entities[j] == es[j],
                oracle.follows(*old(oracle)),
                forall|rest: Trace| #[trigger]
                    all_drifted(es.take(i as int), dt, oracle.since(*old(oracle)) + rest) == (
                        self@.entities.take(i as int),
                        rest,
                    ),
            decreases self.entities.rows.len() - i,
        {
            let ghost before = *oracle;
            let ghost done = self@.entities.take(i as int);
            let e: ServerEntity = self.entities.rows[i].drift(dt, oracle);
            self.entities.rows[i] = e;
            i = i + 1;
            proof {
                lemma_since_chain(*old(oracle), before, *oracle);
                assert(es.take(i as int).drop_last() =~= es.take(i - 1));
                assert(self@.entities.take(i as int) =~= done.push(e));
                assert forall|rest: Trace| #[trigger]
                    all_drifted(es.take(i as int), dt, oracle.since(*old(oracle)) + rest) == (
                        self@.entities.take(i as int),
                        rest,
                    ) by {
                    let next = oracle.since(before) + rest;
                    assert(all_drifted(es.take(i - 1), dt, before.since(*old(oracle)) + next) == (
                        done,
                        next,
                    ));
                }
            }
        }
        proof {
            assert(es.take(i as int) =~= es);
            assert(self@.entities.take(i as int) =~= self@.entities);
        }
    }

    /// Takes away the entities that have outlived their time or used up their range.
    fn remove_spent(&mut self)
        ensures
            final(self)@ == (World { entities: living(old(self)@.entities), ..old(self)@ }),
    {
        let mut r: Vec<ServerEntity> = Vec::new();
        let mut i: usize = 0;
        while i < self.entities.rows.len()
            invariant
                i <= self@.entities.len(),
                self@ == old(self)@,
                r@ == living(self@.entities.take(i as int)),
            decreases self@.entities.len() - i,
        {
            let e: ServerEntity = self.entities.rows[i];
            proof {
                assert(self@.entities.take(i + 1).drop_last() =~= self@.entities.take(i as int));
            }
            if e.is_living() {
                r.push(e);
            }
            i = i + 1;
        }
        proof {
            assert(self@.entities.take(i as int) =~= self@.entities);
        }
        self.entities.rows = r;
    }

    /// Whether fewer than five big asteroids are left.
    fn lacks_asteroids(&self) -> (r: bool)
        ensures
            r == (big_count(self@.entities) < 5),
    {
        let mut n: usize = 0;
        let mut i: usize = 0;
        while i < self.entities.rows.len()
            invariant
                n <= i <= self@.entities.len(),
                n == big_count(self@.entities.take(i as int)),
            decreases self@.entities.len() - i,
        {
            let big: bool = match self.entities.rows[i].asteroid_radius {
                Some(r) => r.is_same(Single::whole(60)),
                None => false,
            };
            proof {
                assert(self@.entities.take(i + 1).drop_last() =~= self@.entities.take(i as int));
            }
            if big {
                n = n + 1;
            }
            i = i + 1;
        }
        proof {
            assert(self@.entities.take(i as int) =~= self@.entities);
        }
        n < 5
    }

    /// Moves the other entities on by one tick.
    fn tick_entities<F: Fn(Ask) -> Single>(&mut self, dt: Single, oracle: &mut Oracle<F>)
        ensures
            final(oracle).follows(*old(oracle)),
            forall|rest: Trace| #[trigger]
                entities_ticked(old(self)@, dt, final(oracle).since(*old(oracle)) + rest) == (
                    final(self)@,
                    rest,
                ),
    {
        self.drift_all(dt, oracle);
        let ghost o1 = *oracle;
        self.remove_spent();
        if self.lacks_asteroids() {
            self.spawn_big_asteroid(oracle);
        } else {
            proof {
                lemma_since_now(*oracle);
            }
        }
        proof {
            lemma_since_chain(*old(oracle), o1, *oracle);
        }
    }

    /// Moves the world on by one tick.
    pub fn update<F: Fn(Ask) -> Single>(&mut self, dt: Single, oracle: &mut Oracle<F>)
        ensures
            final(oracle).follows(*old(oracle)),
            forall|rest: Trace| #[trigger]
                updated(old(self)@, dt, final(oracle).since(*old(oracle)) + rest) == (
                    final(self)@,
                    rest,
                ),
    {
        self.tick_players(dt, oracle);
        let ghost o1 = *oracle;
        self.tick_entities(dt, oracle);
        let ghost o2 = *oracle;
        self.check_collisions(oracle);
        let ghost o3 = *oracle;
        self.check_planet_collisions(oracle);
        let ghost o4 = *oracle;
        self.check_asteroid_collisions(oracle);
        proof {
            lemma_since_chain(o3, o4, *oracle);
            lemma_since_chain(o2, o3, *oracle);
            lemma_since_chain(o1, o2, *oracle);
            lemma_since_chain(*old(oracle), o1, *oracle);
        }
    }

    /// What clients are told of an entity.
    fn describe(&self, e: &ServerEntity) -> (r: EntityState)
        ensures
            r == state_of(self@, *e),
    {
        let ship_info: Option<ShipInfo> = if e.kind == EntityKind::Ship {
            match e.owner {
                Some(id) => match self.players.get(id) {
                    Some(p) => Some(
                        ShipInfo {
                            player_id: id,
                            class: p.ship_class,
                            hull: p.hull,
                            shields: p.shields,
                            fuel: p.fuel,
                            cloaked: p.cloaked,
                            shields_on: p.shields_on,
                            torpedo_count: p.torpedo_count,
                            phaser_locked: p.phaser_lock_target.is_some(),
                        },
                    ),
                    None => None,
                },
                None => None,
            }
        } else {
            None
        };
        let vx: Single = if e.kind == EntityKind::Asteroid {
            e.radius()
        } else {
            e.vx
        };
        let left: Option<Single> = if e.kind == EntityKind::Explosion {
            e.lifetime
        } else {
            e.travel_remaining
        };
        let vy: Single = if e.kind == EntityKind::Explosion || e.kind == EntityKind::Torpedo {
            match left {
                Some(v) => v,
                None => Single::nought(),
            }
        } else {
            e.vy
        };
        EntityState { id: e.id, kind: e.kind, x: e.x, y: e.y, vx, vy, angle: e.angle, ship_info }
    }

    /// The snapshot of the world that is sent out.
    pub fn build_snapshot(&self) -> (r: GameStateSnapshot)
        ensures
            r.tick == self@.tick,
            r.entities@ == self@.entities.map_values(|e: ServerEntity| state_of(self@, e)),
            r.scores@ == self@.players.map_values(|p: ServerPlayer| row_of(p)),
            forall|i: int|
                0 <= i < self@.players.len() ==> {
                    let (p, line) = (self@.players[i], #[trigger] r.scores@[i]);
                    &&& line.player_id == p.id && line.username == p.username
                    &&& line.kills == p.kills && line.deaths == p.deaths && line.score == p.score
                    &&& line.ship_class == p.ship_class && line.alive == (p.entity_id is Some)
                },
            forall|i: int|
                0 <= i < self@.entities.len() ==> {
                    let (e, s) = (self@.entities[i], #[trigger] r.entities@[i]);
                    &&& s.id == e.id && s.kind == e.kind
                    &&& s.x == e.x && s.y == e.y && s.angle == e.angle
                    &&& e.kind == EntityKind::Ship ==> s.vx == e.vx && s.vy == e.vy
                },
    {
        let mut entities: Vec<EntityState> = Vec::new();
        let mut i: usize = 0;
        while i < self.entities.rows.len()
            invariant
                i <= self@.entities.len(),
                entities@.len() == i,
                forall|j: int|
                    0 <= j < i ==> #[trigger] entities@[j] == state_of(self@, self@.entities[j]),
            decreases self@.entities.len() - i,
        {
            entities.push(self.describe(&self.entities.rows[i]));
            i = i + 1;
        }
        let mut scores: Vec<PlayerScore> = Vec::new();
        let mut k: usize = 0;
        while k < self.players.rows.len()
            invariant
                k <= self@.players.len(),
                scores@.len() == k,
                forall|j: int| 0 <= j < k ==> #[trigger] scores@[j] == row_of(self@.players[j]),
            decreases self@.players.len() - k,
        {
            let p: &ServerPlayer = &self.players.rows[k];
            scores.push(
                PlayerScore {
                    player_id: p.id,
                    username: p.username.clone(),
                    kills: p.kills,
                    deaths: p.deaths,
                    score: p.score,
                    ship_class: p.ship_class,
                    alive: p.entity_id.is_some(),
                },
            );
            k = k + 1;
        }
        let r: GameStateSnapshot = GameStateSnapshot { tick: self.tick, entities, scores };
        proof {
            assert(r.entities@ =~= self@.entities.map_values(
                |e: ServerEntity| state_of(self@, e),
            ));
            assert(r.scores@ =~= self@.players.map_values(|p: ServerPlayer| row_of(p)));
        }
        r
    }
}

} // verus!
