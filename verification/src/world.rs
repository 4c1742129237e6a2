//! The state of the simulation, and how things come into the world.
use vstd::prelude::*;

use crate::game::{
    explosion_lifetime, explosion_seconds, full_turn, tau, EntityId, EntityKind, PlayerId,
    ShipClass,
};
use crate::oracle::{
    lemma_follows, lemma_since_chain, lemma_since_now, lemma_past, past, told, Ask, Event, Oracle,
    Trace,
};
use crate::protocol::PlayerInput;
use crate::single::{from_whole, product, sum, zero, Single};
use crate::table::{find, put, without, Keyed, Table};

verus! {

broadcast use lemma_follows;

/// What a phaser beam hit on its way.
#[derive(Debug, Clone, Copy, PartialEq, Eq, Structural)]
pub enum PhaserHit {
    Ship(PlayerId),
    Asteroid(EntityId),
}

/// An object of the simulated world.
#[derive(Debug, Clone, Copy)]
pub struct ServerEntity {
    pub id: EntityId,
    pub kind: EntityKind,
    pub x: Single,
    pub y: Single,
    pub vx: Single,
    pub vy: Single,
    pub angle: Single,
    pub owner: Option<PlayerId>,
    /// Damage inflicted on a hit; for debris, the angular velocity.
    pub damage: Single,
    /// Hit points of asteroids; `None` means indestructible.
    pub health: Option<Single>,
    /// Collision radius of asteroids.
    pub asteroid_radius: Option<Single>,
    /// Remaining lifetime in seconds; `None` means permanent.
    pub lifetime: Option<Single>,
    /// Remaining travel distance; `None` means no limit.
    pub travel_remaining: Option<Single>,
}

impl Keyed for ServerEntity {
    open spec fn key(&self) -> u32 {
        self.id
    }

    fn id(&self) -> (r: u32) {
        self.id
    }
}

/// A player and the state of their ship.
#[derive(Debug)]
pub struct ServerPlayer {
    pub id: PlayerId,
    pub username: String,
    pub ship_class: ShipClass,
    pub entity_id: Option<EntityId>,
    pub hull: Single,
    pub shields: Single,
    pub fuel: Single,
    /// Seconds until the next torpedo can be fired.
    pub fire_cooldown: Single,
    /// Seconds until the next phaser shot does damage.
    pub phaser_cooldown: Single,
    /// The visible phaser beam, if any.
    pub phaser_beam_entity: Option<EntityId>,
    /// What the beam is locked onto.
    pub phaser_lock_target: Option<PhaserHit>,
    /// Seconds for which the beam stays on though the button is released.
    pub phaser_min_remaining: Single,
    /// Seconds until shields regenerate again.
    pub shield_regen_cooldown: Single,
    pub cloaked: bool,
    pub shields_on: bool,
    /// The shields gave way under fire; they stay down until the pilot switches them off and on.
    pub shields_collapsed: bool,
    /// Seconds until the ship appears; `None` once it is there.
    pub respawn_timer: Option<Single>,
    pub kills: u32,
    pub deaths: u32,
    /// The greatest input sequence number accepted so far.
    pub last_input_seq: u32,
    pub input: PlayerInput,
    pub torpedo_count: u8,
    /// Seconds gathered towards the next torpedo.
    pub torpedo_regen_timer: Single,
    pub score: u32,
    /// A torpedo was asked for and not yet launched.
    pub pending_torpedo_fire: bool,
}

impl Keyed for ServerPlayer {
    open spec fn key(&self) -> u32 {
        self.id
    }

    fn id(&self) -> (r: u32) {
        self.id
    }
}

/// A destruction to be announced to every player.
#[derive(Debug, Clone, Copy, PartialEq, Eq, Structural)]
pub struct Death {
    pub victim: PlayerId,
    pub killer: Option<PlayerId>,
    pub self_destruct: bool,
}

/// The authoritative state of the game.
pub struct GameState {
    pub tick: u64,
    pub next_entity_id: EntityId,
    pub entities: Table<ServerEntity>,
    pub players: Table<ServerPlayer>,
    /// Destructions not yet announced, in the order in which they happened.
    pub announcements: Vec<Death>,
}

/// The mathematical state of the game.
#[verifier::ext_equal]
pub struct World {
    pub tick: u64,
    pub next_entity_id: EntityId,
    pub entities: Seq<ServerEntity>,
    pub players: Seq<ServerPlayer>,
    pub announcements: Seq<Death>,
}

impl View for GameState {
    type V = World;

    open spec fn view(&self) -> World {
        World {
            tick: self.tick,
            next_entity_id: self.next_entity_id,
            entities: self.entities@,
            players: self.players@,
            announcements: self.announcements@,
        }
    }
}

/// The next number of a counter that starts again at zero when it is full.
pub open spec fn next_id(n: u32) -> u32 {
    if n == u32::MAX {
        0
    } else {
        (n + 1) as u32
    }
}

pub fn counted(n: u32) -> (r: u32)
    ensures
        r == next_id(n),
{
    if n == u32::MAX {
        0
    } else {
        n + 1
    }
}

/// The world with one id given away.
pub open spec fn advanced(w: World) -> World {
    World { next_entity_id: next_id(w.next_entity_id), ..w }
}

/// The world with an entity put into it.
pub open spec fn with_entity(w: World, e: ServerEntity) -> World {
    World { entities: put(w.entities, e), ..w }
}

/// The world with an entity under a fresh id.
pub open spec fn joined(w: World, e: ServerEntity) -> World {
    with_entity(advanced(w), e)
}

/// The entity with an id.
pub open spec fn entity_of(w: World, id: EntityId) -> Option<ServerEntity> {
    match find(w.entities, id) {
        Some(i) => Some(w.entities[i]),
        None => None,
    }
}

/// The player with an id.
pub open spec fn player_of(w: World, id: PlayerId) -> Option<ServerPlayer> {
    match find(w.players, id) {
        Some(i) => Some(w.players[i]),
        None => None,
    }
}

/// The world with a player put into it.
pub open spec fn with_player(w: World, p: ServerPlayer) -> World {
    World { players: put(w.players, p), ..w }
}

/// The world without an entity.
pub open spec fn without_entity(w: World, id: EntityId) -> World {
    World { entities: without(w.entities, id), ..w }
}

/// The world without an entity, where there is one to take away.
pub open spec fn without_any(w: World, id: Option<EntityId>) -> World {
    match id {
        Some(i) => without_entity(w, i),
        None => w,
    }
}

/// An entity at rest that nobody owns, harmless, indestructible and permanent.
pub open spec fn still(id: EntityId, kind: EntityKind, x: Single, y: Single) -> ServerEntity {
    ServerEntity {
        id,
        kind,
        x,
        y,
        vx: zero(),
        vy: zero(),
        angle: zero(),
        owner: None,
        damage: zero(),
        health: None,
        asteroid_radius: None,
        lifetime: None,
        travel_remaining: None,
    }
}

pub open spec fn ship_at(
    id: EntityId,
    owner: PlayerId,
    x: Single,
    y: Single,
    angle: Single,
) -> ServerEntity {
    ServerEntity { angle, owner: Some(owner), ..still(id, EntityKind::Ship, x, y) }
}

/// An explosion; `vx` tells clients how long it lasts in all.
pub open spec fn explosion_at(id: EntityId, x: Single, y: Single) -> ServerEntity {
    ServerEntity {
        vx: explosion_seconds(),
        lifetime: Some(explosion_seconds()),
        ..still(id, EntityKind::Explosion, x, y)
    }
}

/// The seconds for which debris drifts.
pub open spec fn debris_seconds() -> Single {
    from_whole(5)
}

pub open spec fn debris_at(
    id: EntityId,
    x: Single,
    y: Single,
    vx: Single,
    vy: Single,
    angle: Single,
    spin: Single,
) -> ServerEntity {
    ServerEntity {
        vx,
        vy,
        angle,
        damage: spin,
        lifetime: Some(debris_seconds()),
        ..still(id, EntityKind::Debris, x, y)
    }
}

pub open spec fn big_radius() -> Single {
    from_whole(60)
}

pub open spec fn small_radius() -> Single {
    from_whole(30)
}

pub open spec fn big_health() -> Single {
    from_whole(500)
}

pub open spec fn small_health() -> Single {
    from_whole(200)
}

pub open spec fn asteroid_at(
    id: EntityId,
    big: bool,
    x: Single,
    y: Single,
    vx: Single,
    vy: Single,
    angle: Single,
) -> ServerEntity {
    ServerEntity {
        vx,
        vy,
        angle,
        damage: if big {
            from_whole(50)
        } else {
            from_whole(25)
        },
        health: Some(
            if big {
                big_health()
            } else {
                small_health()
            },
        ),
        asteroid_radius: Some(
            if big {
                big_radius()
            } else {
                small_radius()
            },
        ),
        ..still(id, EntityKind::Asteroid, x, y)
    }
}

/// A planet; `vx` carries its radius and `vy` its type.
pub open spec fn planet_at(
    id: EntityId,
    x: Single,
    y: Single,
    radius: Single,
    kind: Single,
) -> ServerEntity {
    ServerEntity { vx: radius, vy: kind, ..still(id, EntityKind::Planet, x, y) }
}

/// A random angle.
pub open spec fn any_angle() -> Ask {
    Ask::Uniform(zero(), full_turn())
}

/// A random coordinate at some distance from the edge of the world.
pub open spec fn any_place() -> Ask {
    Ask::Uniform(from_whole(500), from_whole(9500))
}

/// A ship appears at a random place.
pub open spec fn ship_spawned(w: World, player: PlayerId, t: Trace) -> (World, EntityId, Trace) {
    let id = w.next_entity_id;
    let x = told(t, 0, any_place());
    let y = told(t, 1, any_place());
    let angle = told(t, 2, any_angle());
    (
        joined(w, ship_at(id, player, x, y, angle)),
        id,
        past(t, seq![any_place(), any_place(), any_angle()]),
    )
}

/// An explosion appears.
pub open spec fn exploded(w: World, x: Single, y: Single) -> World {
    joined(w, explosion_at(w.next_entity_id, x, y))
}

/// One piece of wreckage flies off: the ship's velocity, and a random push.
pub open spec fn piece_spawned(
    w: World,
    x: Single,
    y: Single,
    vx: Single,
    vy: Single,
    t: Trace,
) -> (World, Trace) {
    let push = Ask::Uniform(from_whole(30), from_whole(120));
    let turn = Ask::Uniform(from_whole(-3), from_whole(3));
    let spread = told(t, 0, any_angle());
    let speed = told(t, 1, push);
    let spin = told(t, 2, turn);
    let c = told(t, 3, Ask::Cos(spread));
    let s = told(t, 4, Ask::Sin(spread));
    let angle = told(t, 5, any_angle());
    let e = debris_at(
        w.next_entity_id,
        x,
        y,
        sum(vx, product(c, speed)),
        sum(vy, product(s, speed)),
        angle,
        spin,
    );
    (
        joined(w, e),
        past(
            t,
            seq![any_angle(), push, turn, Ask::Cos(spread), Ask::Sin(spread), any_angle()],
        ),
    )
}

/// A number of pieces of wreckage fly off.
pub open spec fn pieces_spawned(
    w: World,
    n: nat,
    x: Single,
    y: Single,
    vx: Single,
    vy: Single,
    t: Trace,
) -> (World, Trace)
    decreases n,
{
    if n == 0 {
        (w, t)
    } else {
        let (w1, t1) = pieces_spawned(w, (n - 1) as nat, x, y, vx, vy, t);
        piece_spawned(w1, x, y, vx, vy, t1)
    }
}

/// The questions for a drifting asteroid.
pub open spec fn drifter_asks(t: Trace) -> Seq<Ask> {
    let drift = told(t, 0, any_angle());
    seq![
        any_angle(),
        Ask::Uniform(from_whole(10), from_whole(40)),
        any_place(),
        any_place(),
        Ask::Cos(drift),
        Ask::Sin(drift),
        any_angle(),
    ]
}

/// A drifting asteroid with the given id appears: its direction, speed, place and angle are drawn.
pub open spec fn drifter(
    id: EntityId,
    t: Trace,
) -> ServerEntity {
    let drift = told(t, 0, any_angle());
    let speed = told(t, 1, Ask::Uniform(from_whole(10), from_whole(40)));
    let x = told(t, 2, any_place());
    let y = told(t, 3, any_place());
    let c = told(t, 4, Ask::Cos(drift));
    let s = told(t, 5, Ask::Sin(drift));
    let angle = told(t, 6, any_angle());
    asteroid_at(id, true, x, y, product(c, speed), product(s, speed), angle)
}

/// A big asteroid appears at a random place.
pub open spec fn big_spawned(w: World, t: Trace) -> (World, Trace) {
    (joined(w, drifter(w.next_entity_id, t)), past(t, drifter_asks(t)))
}

/// A small asteroid flies off from a place.
pub open spec fn small_spawned(w: World, x: Single, y: Single, t: Trace) -> (World, Trace) {
    let drift = told(t, 0, any_angle());
    let push = Ask::Uniform(from_whole(30), from_whole(80));
    let speed = told(t, 1, push);
    let c = told(t, 2, Ask::Cos(drift));
    let s = told(t, 3, Ask::Sin(drift));
    let angle = told(t, 4, any_angle());
    let e = asteroid_at(
        w.next_entity_id,
        false,
        x,
        y,
        product(c, speed),
        product(s, speed),
        angle,
    );
    (
        joined(w, e),
        past(t, seq![any_angle(), push, Ask::Cos(drift), Ask::Sin(drift), any_angle()]),
    )
}

/// The first big asteroids, under the ids from zero up.
pub open spec fn first_asteroids(w: World, n: nat, t: Trace) -> (World, Trace)
    decreases n,
{
    if n == 0 {
        (w, t)
    } else {
        let (w1, t1) = first_asteroids(w, (n - 1) as nat, t);
        (with_entity(w1, drifter((n - 1) as u32, t1)), past(t1, drifter_asks(t1)))
    }
}

/// The radius of each of the five planets.
pub open spec fn planet_radius(i: int) -> Single {
    if i == 0 {
        from_whole(70)
    } else if i == 1 {
        from_whole(110)
    } else if i == 2 {
        from_whole(75)
    } else if i == 3 {
        from_whole(65)
    } else {
        from_whole(55)
    }
}

/// The planets, under the ids from twenty up.
pub open spec fn first_planets(w: World, n: nat, t: Trace) -> (World, Trace)
    decreases n,
{
    if n == 0 {
        (w, t)
    } else {
        let (w1, t1) = first_planets(w, (n - 1) as nat, t);
        let q = Ask::Uniform(from_whole(1500), from_whole(8500));
        let x = told(t1, 0, q);
        let y = told(t1, 1, q);
        let e = planet_at(
            (20 + n - 1) as u32,
            x,
            y,
            planet_radius(n - 1),
            from_whole(n - 1),
        );
        (with_entity(w1, e), past(t1, seq![q, q]))
    }
}

/// Twenty asteroids and five planets appear.
pub open spec fn statics_spawned(w: World, t: Trace) -> (World, Trace) {
    let (w1, t1) = first_asteroids(w, 20, t);
    first_planets(w1, 5, t1)
}

/// A world without anything in it.
pub open spec fn void() -> World {
    World {
        tick: 0,
        next_entity_id: 1_000,
        entities: Seq::empty(),
        players: Seq::empty(),
        announcements: Seq::empty(),
    }
}

impl ServerEntity {
    pub fn still(id: EntityId, kind: EntityKind, x: Single, y: Single) -> (r: ServerEntity)
        ensures
            r == still(id, kind, x, y),
    {
        ServerEntity {
            id,
            kind,
            x,
            y,
            vx: Single::nought(),
            vy: Single::nought(),
            angle: Single::nought(),
            owner: None,
            damage: Single::nought(),
            health: None,
            asteroid_radius: None,
            lifetime: None,
            travel_remaining: None,
        }
    }

    pub fn asteroid(
        id: EntityId,
        big: bool,
        x: Single,
        y: Single,
        vx: Single,
        vy: Single,
        angle: Single,
    ) -> (r: ServerEntity)
        ensures
            r == asteroid_at(id, big, x, y, vx, vy, angle),
    {
        let mut e: ServerEntity = ServerEntity::still(id, EntityKind::Asteroid, x, y);
        e.vx = vx;
        e.vy = vy;
        e.angle = angle;
        if big {
            e.damage = Single::whole(50);
            e.health = Some(Single::whole(500));
            e.asteroid_radius = Some(Single::whole(60));
        } else {
            e.damage = Single::whole(25);
            e.health = Some(Single::whole(200));
            e.asteroid_radius = Some(Single::whole(30));
        }
        e
    }
}

fn ask_angle<F: Fn(Ask) -> Single>(oracle: &mut Oracle<F>) -> (a: Single)
    ensures
        final(oracle).log() == old(oracle).log().push(Event::Number(any_angle(), a)),
        final(oracle).follows(*old(oracle)),
{
    oracle.ask(Ask::Uniform(Single::nought(), tau()))
}

fn ask_between<F: Fn(Ask) -> Single>(oracle: &mut Oracle<F>, low: i32, high: i32) -> (a: Single)
    ensures
        final(oracle).log() == old(oracle).log().push(
            Event::Number(Ask::Uniform(from_whole(low as int), from_whole(high as int)), a),
        ),
        final(oracle).follows(*old(oracle)),
{
    oracle.ask(Ask::Uniform(Single::whole(low), Single::whole(high)))
}

/// Draws the direction, speed, place and angle of a drifting asteroid.
fn draw_drifter<F: Fn(Ask) -> Single>(id: EntityId, oracle: &mut Oracle<F>) -> (e: ServerEntity)
    ensures
        final(oracle).follows(*old(oracle)),
        forall|rest: Trace|
            #![trigger final(oracle).since(*old(oracle)) + rest]
            drifter(id, final(oracle).since(*old(oracle)) + rest) == e && past(
                final(oracle).since(*old(oracle)) + rest,
                drifter_asks(final(oracle).since(*old(oracle)) + rest),
            ) == rest,
{
    let drift: Single = ask_angle(oracle);
    let speed: Single = ask_between(oracle, 10, 40);
    let x: Single = ask_between(oracle, 500, 9500);
    let y: Single = ask_between(oracle, 500, 9500);
    let c: Single = oracle.ask(Ask::Cos(drift));
    let s: Single = oracle.ask(Ask::Sin(drift));
    let angle: Single = ask_angle(oracle);
    let e: ServerEntity = ServerEntity::asteroid(
        id,
        true,
        x,
        y,
        c.times(speed),
        s.times(speed),
        angle,
    );
    proof {
        let tr = oracle.since(*old(oracle));
        lemma_past(tr);
    }
    e
}

impl GameState {
    pub fn new<F: Fn(Ask) -> Single>(oracle: &mut Oracle<F>) -> (r: Self)
        ensures
            final(oracle).follows(*old(oracle)),
            forall|rest: Trace| #[trigger]
                statics_spawned(void(), final(oracle).since(*old(oracle)) + rest) == (r@, rest),
    {
        let mut state: GameState = GameState {
            tick: 0,
            next_entity_id: 1_000,
            entities: Table::new(),
            players: Table::new(),
            announcements: Vec::new(),
        };
        assert(state@ =~= void());
        state.spawn_static_objects(oracle);
        state
    }

    /// Gives away an entity id.
    pub fn alloc_entity_id(&mut self) -> (id: EntityId)
        ensures
            id == old(self).next_entity_id,
            final(self)@ == advanced(old(self)@),
    {
        let id: EntityId = self.next_entity_id;
        self.next_entity_id = counted(id);
        id
    }

    /// Puts an entity into the world.
    pub fn add_entity(&mut self, e: ServerEntity)
        ensures
            final(self)@ == with_entity(old(self)@, e),
    {
        self.entities.put(e);
    }

    /// Takes an entity out of the world.
    pub fn remove_entity(&mut self, id: EntityId)
        ensures
            final(self)@ == without_entity(old(self)@, id),
    {
        self.entities.remove(id);
    }

    /// Takes an entity out of the world, where there is one to take away.
    pub fn remove_any(&mut self, id: Option<EntityId>)
        ensures
            final(self)@ == without_any(old(self)@, id),
    {
        if let Some(i) = id {
            self.remove_entity(i);
        }
    }

    /// The entity with an id.
    pub fn entity(&self, id: EntityId) -> (r: Option<ServerEntity>)
        ensures
            r == entity_of(self@, id),
    {
        match self.entities.position(id) {
            Some(i) => Some(self.entities.rows[i]),
            None => None,
        }
    }

    pub fn spawn_ship_entity<F: Fn(Ask) -> Single>(
        &mut self,
        player_id: PlayerId,
        oracle: &mut Oracle<F>,
    ) -> (id: EntityId)
        ensures
            final(oracle).follows(*old(oracle)),
            forall|rest: Trace| #[trigger]
                ship_spawned(old(self)@, player_id, final(oracle).since(*old(oracle)) + rest) == (
                    final(self)@,
                    id,
                    rest,
                ),
    {
        let id: EntityId = self.alloc_entity_id();
        let x: Single = ask_between(oracle, 500, 9500);
        let y: Single = ask_between(oracle, 500, 9500);
        let angle: Single = ask_angle(oracle);
        let mut e: ServerEntity = ServerEntity::still(id, EntityKind::Ship, x, y);
        e.angle = angle;
        e.owner = Some(player_id);
        self.add_entity(e);
        proof {
            let tr = oracle.since(*old(oracle));
            lemma_past(tr);
        }
        id
    }

    pub fn spawn_explosion(&mut self, x: Single, y: Single)
        ensures
            final(self)@ == exploded(old(self)@, x, y),
    {
        let id: EntityId = self.alloc_entity_id();
        let mut e: ServerEntity = ServerEntity::still(id, EntityKind::Explosion, x, y);
        e.vx = explosion_lifetime();
        e.lifetime = Some(explosion_lifetime());
        self.add_entity(e);
    }

    fn spawn_piece<F: Fn(Ask) -> Single>(
        &mut self,
        x: Single,
        y: Single,
        ship_vx: Single,
        ship_vy: Single,
        oracle: &mut Oracle<F>,
    )
        ensures
            final(oracle).follows(*old(oracle)),
            forall|rest: Trace| #[trigger]
                piece_spawned(
                    old(self)@,
                    x,
                    y,
                    ship_vx,
                    ship_vy,
                    final(oracle).since(*old(oracle)) + rest,
                ) == (final(self)@, rest),
    {
        let id: EntityId = self.alloc_entity_id();
        let spread: Single = ask_angle(oracle);
        let speed: Single = ask_between(oracle, 30, 120);
        let spin: Single = ask_between(oracle, -3, 3);
        let c: Single = oracle.ask(Ask::Cos(spread));
        let s: Single = oracle.ask(Ask::Sin(spread));
        let angle: Single = ask_angle(oracle);
        let mut e: ServerEntity = ServerEntity::still(id, EntityKind::Debris, x, y);
        e.vx = ship_vx.plus(c.times(speed));
        e.vy = ship_vy.plus(s.times(speed));
        e.angle = angle;
        e.damage = spin;
        e.lifetime = Some(Single::whole(5));
        self.add_entity(e);
        proof {
            let tr = oracle.since(*old(oracle));
            lemma_past(tr);
        }
    }

    /// Four pieces of wreckage fly off with the ship's velocity and a random push each.
    pub fn spawn_debris<F: Fn(Ask) -> Single>(
        &mut self,
        x: Single,
        y: Single,
        ship_vx: Single,
        ship_vy: Single,
        oracle: &mut Oracle<F>,
    )
        ensures
            final(oracle).follows(*old(oracle)),
            forall|rest: Trace| #[trigger]
                pieces_spawned(
                    old(self)@,
                    4,
                    x,
                    y,
                    ship_vx,
                    ship_vy,
                    final(oracle).since(*old(oracle)) + rest,
                ) == (final(self)@, rest),
    {
        let mut i: u32 = 0;
        proof {
            lemma_since_now(*oracle);
        }
        while i < 4
            invariant
                i <= 4,
                oracle.follows(*old(oracle)),
                forall|rest: Trace| #[trigger]
                    pieces_spawned(
                        old(self)@,
                        i as nat,
                        x,
                        y,
                        ship_vx,
                        ship_vy,
                        oracle.since(*old(oracle)) + rest,
                    ) == (self@, rest),
            decreases 4 - i,
        {
            let ghost before = *oracle;
            let ghost w = self@;
            self.spawn_piece(x, y, ship_vx, ship_vy, oracle);
            i = i + 1;
            proof {
                lemma_since_chain(*old(oracle), before, *oracle);
                assert forall|rest: Trace| #[trigger]
                    pieces_spawned(
                        old(self)@,
                        i as nat,
                        x,
                        y,
                        ship_vx,
                        ship_vy,
                        oracle.since(*old(oracle)) + rest,
                    ) == (self@, rest) by {
                    let next = oracle.since(before) + rest;
                    assert(pieces_spawned(
                        old(self)@,
                        (i - 1) as nat,
                        x,
                        y,
                        ship_vx,
                        ship_vy,
                        before.since(*old(oracle)) + next,
                    ) == (w, next));
                }
            }
        }
    }

    pub fn spawn_static_objects<F: Fn(Ask) -> Single>(&mut self, oracle: &mut Oracle<F>)
        ensures
            final(oracle).follows(*old(oracle)),
            forall|rest: Trace| #[trigger]
                statics_spawned(old(self)@, final(oracle).since(*old(oracle)) + rest) == (
                    final(self)@,
                    rest,
                ),
    {
        let mut i: u32 = 0;
        proof {
            lemma_since_now(*oracle);
        }
        while i < 20
            invariant
                i <= 20,
                oracle.follows(*old(oracle)),
                forall|rest: Trace| #[trigger]
                    first_asteroids(old(self)@, i as nat, oracle.since(*old(oracle)) + rest) == (
                        self@,
                        rest,
                    ),
            decreases 20 - i,
        {
            let ghost before = *oracle;
            let ghost w = self@;
            let e: ServerEntity = draw_drifter(i, oracle);
            self.add_entity(e);
            proof {
                lemma_since_chain(*old(oracle), before, *oracle);
                assert forall|rest: Trace| #[trigger]
                    first_asteroids(
                        old(self)@,
                        (i + 1) as nat,
                        oracle.since(*old(oracle)) + rest,
                    ) == (self@, rest) by {
                    let next = oracle.since(before) + rest;
                    assert(first_asteroids(
                        old(self)@,
                        i as nat,
                        before.since(*old(oracle)) + next,
                    ) == (w, next));
                }
            }
            i = i + 1;
        }
        let ghost middle = *oracle;
        let ghost drifting = self@;
        proof {
            lemma_since_now(*oracle);
        }
        let mut k: u32 = 0;
        while k < 5
            invariant
                k <= 5,
                oracle.follows(middle),
                forall|rest: Trace| #[trigger]
                    first_planets(drifting, k as nat, oracle.since(middle) + rest) == (
                        self@,
                        rest,
                    ),
            decreases 5 - k,
        {
            let ghost before = *oracle;
            let ghost w = self@;
            let x: Single = ask_between(oracle, 1500, 8500);
            let y: Single = ask_between(oracle, 1500, 8500);
            let radius: Single = if k == 0 {
                Single::whole(70)
            } else if k == 1 {
                Single::whole(110)
            } else if k == 2 {
                Single::whole(75)
            } else if k == 3 {
                Single::whole(65)
            } else {
                Single::whole(55)
            };
            let mut e: ServerEntity = ServerEntity::still(20 + k, EntityKind::Planet, x, y);
            e.vx = radius;
            e.vy = Single::whole(k as i32);
            self.add_entity(e);
            proof {
                let tr = oracle.since(before);
                lemma_past(tr);
                lemma_since_chain(middle, before, *oracle);
                assert forall|rest: Trace| #[trigger]
                    first_planets(drifting, (k + 1) as nat, oracle.since(middle) + rest) == (
                        self@,
                        rest,
                    ) by {
                    let next = oracle.since(before) + rest;
                    assert(first_planets(drifting, k as nat, before.since(middle) + next) == (
                        w,
                        next,
                    ));
                }
            }
            k = k + 1;
        }
        proof {
            lemma_since_chain(*old(oracle), middle, *oracle);
        }
    }

    pub fn spawn_big_asteroid<F: Fn(Ask) -> Single>(&mut self, oracle: &mut Oracle<F>)
        ensures
            final(oracle).follows(*old(oracle)),
            forall|rest: Trace| #[trigger]
                big_spawned(old(self)@, final(oracle).since(*old(oracle)) + rest) == (
                    final(self)@,
                    rest,
                ),
    {
        let id: EntityId = self.alloc_entity_id();
        let e: ServerEntity = draw_drifter(id, oracle);
        self.add_entity(e);
    }

    pub fn spawn_small_asteroid<F: Fn(Ask) -> Single>(
        &mut self,
        x: Single,
        y: Single,
        oracle: &mut Oracle<F>,
    )
        ensures
            final(oracle).follows(*old(oracle)),
            forall|rest: Trace| #[trigger]
                small_spawned(old(self)@, x, y, final(oracle).since(*old(oracle)) + rest) == (
                    final(self)@,
                    rest,
                ),
    {
        let id: EntityId = self.alloc_entity_id();
        let drift: Single = ask_angle(oracle);
        let speed: Single = ask_between(oracle, 30, 80);
        let c: Single = oracle.ask(Ask::Cos(drift));
        let s: Single = oracle.ask(Ask::Sin(drift));
        let angle: Single = ask_angle(oracle);
        self.add_entity(
            ServerEntity::asteroid(id, false, x, y, c.times(speed), s.times(speed), angle),
        );
        proof {
            let tr = oracle.since(*old(oracle));
            lemma_past(tr);
        }
    }
}

} // verus!
