//! Collisions between projectiles, ships, asteroids and planets.
use vstd::prelude::*;

use crate::game::{EntityId, EntityKind, PlayerId};
use crate::helm::{shift, shifted};
use crate::impact::{burst, chipped, picked, select, wounded, Blast, Blow, Pick};
use crate::oracle::{lemma_follows, lemma_since_chain, Ask, Oracle, Trace};
use crate::ray::radius_of;
use crate::single::{
    difference, from_fraction, from_whole, greater, le, lt, negated, product, quotient, root, sum,
    zero, Single,
};
use crate::world::{entity_of, with_entity, GameState, ServerEntity, World};

verus! {

broadcast use lemma_follows;

/// The square of the distance between two entities, wherever the world's edges are.
pub open spec fn gap_squared(a: ServerEntity, b: ServerEntity) -> Single {
    let dx = difference(a.x, b.x);
    let dy = difference(a.y, b.y);
    sum(product(dx, dx), product(dy, dy))
}

pub open spec fn squared(a: Single) -> Single {
    product(a, a)
}

/// The radius within which a ship is hit.
pub open spec fn ship_radius() -> Single {
    from_whole(18)
}

/// The radius within which a torpedo goes off.
pub open spec fn torpedo_radius() -> Single {
    from_fraction(5, 2)
}

/// Whether a projectile hits a ship; those of its own player it passes.
pub open spec fn hits_ship(p: ServerEntity, ship: ServerEntity) -> bool {
    ship.owner != p.owner && lt(
        gap_squared(p, ship),
        squared(sum(ship_radius(), torpedo_radius())),
    )
}

/// Whether a projectile hits an asteroid.
pub open spec fn hits_rock(p: ServerEntity, rock: ServerEntity) -> bool {
    lt(gap_squared(p, rock), squared(sum(radius_of(rock), torpedo_radius())))
}

/// Whether a torpedo hits a planet; the planet's radius is in `vx`.
pub open spec fn hits_planet(p: ServerEntity, planet: ServerEntity) -> bool {
    lt(root(gap_squared(p, planet)), sum(planet.vx, torpedo_radius()))
}

/// Whether a ship touches a planet.
pub open spec fn ship_on_planet(ship: ServerEntity, planet: ServerEntity) -> bool {
    lt(gap_squared(ship, planet), squared(sum(planet.vx, ship_radius())))
}

/// Whether a ship touches an asteroid.
pub open spec fn ship_on_rock(ship: ServerEntity, rock: ServerEntity) -> bool {
    lt(gap_squared(ship, rock), squared(sum(radius_of(rock), ship_radius())))
}

/// Whether an asteroid touches a planet.
pub open spec fn rock_on_planet(rock: ServerEntity, planet: ServerEntity) -> bool {
    lt(gap_squared(rock, planet), squared(sum(planet.vx, radius_of(rock))))
}

/// The ways in which one entity can meet another.
#[derive(Debug, Clone, Copy, PartialEq, Eq, Structural)]
pub enum Contact {
    ProjectileShip,
    ProjectileRock,
    TorpedoPlanet,
    ShipPlanet,
    ShipRock,
    RockPlanet,
}

/// Whether two entities meet in a given way.
pub open spec fn touch(how: Contact, a: ServerEntity, b: ServerEntity) -> bool {
    match how {
        Contact::ProjectileShip => hits_ship(a, b),
        Contact::ProjectileRock => hits_rock(a, b),
        Contact::TorpedoPlanet => hits_planet(a, b),
        Contact::ShipPlanet => ship_on_planet(a, b),
        Contact::ShipRock => ship_on_rock(a, b),
        Contact::RockPlanet => rock_on_planet(a, b),
    }
}

/// The first of the others that an entity meets.
pub open spec fn first_met(
    how: Contact,
    e: ServerEntity,
    others: Seq<ServerEntity>,
) -> Option<ServerEntity>
    decreases others.len(),
{
    if others.len() == 0 {
        None
    } else {
        match first_met(how, e, others.drop_last()) {
            Some(o) => Some(o),
            None => if touch(how, e, others.last()) {
                Some(others.last())
            } else {
                None
            },
        }
    }
}

/// What is met is one of the others, and it is met in that way; nothing is met where none is.
pub proof fn lemma_first_met(how: Contact, e: ServerEntity, others: Seq<ServerEntity>)
    ensures
        match first_met(how, e, others) {
            Some(o) => touch(how, e, o) && others.contains(o),
            None => forall|i: int| 0 <= i < others.len() ==> !touch(how, e, #[trigger] others[i]),
        },
    decreases others.len(),
{
    if others.len() > 0 {
        let front = others.drop_last();
        lemma_first_met(how, e, front);
        match first_met(how, e, front) {
            Some(o) => {
                let k = choose|k: int| 0 <= k < front.len() && front[k] == o;
                assert(others[k] == o);
            },
            None => {
                assert(others[others.len() - 1] == others.last());
                assert forall|i: int| 0 <= i < front.len() implies !touch(
                    how,
                    e,
                    #[trigger] others[i],
                ) by {
                    assert(front[i] == others[i]);
                }
            },
        }
    }
}

/// The end of a projectile; only a torpedo goes off visibly.
pub open spec fn spent(p: ServerEntity) -> Blast {
    Blast { id: p.id, x: p.x, y: p.y, seen: p.kind == EntityKind::Torpedo }
}

/// The blow of a projectile.
pub open spec fn blow_of(p: ServerEntity, id: u32) -> Blow {
    Blow { id, dmg: p.damage, by: p.owner }
}

/// The player who owns an entity.
pub open spec fn owner_of(e: ServerEntity) -> PlayerId {
    match e.owner {
        Some(id) => id,
        None => 0,
    }
}

/// The blows and the ends of the projectiles that hit a ship.
pub open spec fn ship_hits(ps: Seq<ServerEntity>, ships: Seq<ServerEntity>) -> (
    Seq<Blow>,
    Seq<Blast>,
)
    decreases ps.len(),
{
    if ps.len() == 0 {
        (Seq::empty(), Seq::empty())
    } else {
        let (blows, blasts) = ship_hits(ps.drop_last(), ships);
        let p = ps.last();
        match first_met(Contact::ProjectileShip, p, ships) {
            Some(ship) => (blows.push(blow_of(p, owner_of(ship))), blasts.push(spent(p))),
            None => (blows, blasts),
        }
    }
}

/// The blows and the ends of the projectiles that hit no ship, but an asteroid.
pub open spec fn rock_hits(
    ps: Seq<ServerEntity>,
    ships: Seq<ServerEntity>,
    rocks: Seq<ServerEntity>,
) -> (Seq<Blow>, Seq<Blast>)
    decreases ps.len(),
{
    if ps.len() == 0 {
        (Seq::empty(), Seq::empty())
    } else {
        let (blows, blasts) = rock_hits(ps.drop_last(), ships, rocks);
        let p = ps.last();
        match first_met(Contact::ProjectileRock, p, rocks) {
            Some(rock) => if first_met(Contact::ProjectileShip, p, ships) is None {
                (blows.push(blow_of(p, rock.id)), blasts.push(spent(p)))
            } else {
                (blows, blasts)
            },
            None => (blows, blasts),
        }
    }
}

/// Projectiles hit ships and asteroids: they go, and then what they hit takes the damage.
pub open spec fn shot_down(w: World, t: Trace) -> (World, Trace) {
    let ps = picked(w.entities, Pick::Projectiles);
    let ships = picked(w.entities, Pick::Ships);
    let rocks = picked(w.entities, Pick::Rocks);
    let (ship_blows, ship_blasts) = ship_hits(ps, ships);
    let (rock_blows, rock_blasts) = rock_hits(ps, ships, rocks);
    let w1 = burst(w, ship_blasts + rock_blasts);
    let (w2, t2) = wounded(w1, ship_blows, t);
    chipped(w2, rock_blows, t2)
}

/// The ends of the torpedoes that hit a planet.
pub open spec fn planet_hits(ts: Seq<ServerEntity>, planets: Seq<ServerEntity>) -> Seq<Blast>
    decreases ts.len(),
{
    if ts.len() == 0 {
        Seq::empty()
    } else {
        let blasts = planet_hits(ts.drop_last(), planets);
        let p = ts.last();
        if first_met(Contact::TorpedoPlanet, p, planets) is Some {
            blasts.push(Blast { id: p.id, x: p.x, y: p.y, seen: true })
        } else {
            blasts
        }
    }
}

/// The unit vector from a place to an entity that is no farther than `reach`, and how far the
/// entity has to go to be that far.
pub open spec fn normal_of(e: ServerEntity, o: ServerEntity, reach: Single) -> (
    Single,
    Single,
    Single,
) {
    let dist = greater(root(gap_squared(e, o)), from_fraction(1, 1000));
    (
        quotient(difference(e.x, o.x), dist),
        quotient(difference(e.y, o.y), dist),
        difference(reach, dist),
    )
}

/// A velocity component reflected and damped.
pub open spec fn reflected(v: Single, n: Single, dot: Single, damping: Single) -> Single {
    product(difference(v, product(product(from_whole(2), dot), n)), damping)
}

/// An entity pushed out of what it hit; its velocity is reflected and damped.
pub open spec fn rebounded(
    e: ServerEntity,
    nx: Single,
    ny: Single,
    push: Single,
    damping: Single,
) -> ServerEntity {
    let dot = sum(product(e.vx, nx), product(e.vy, ny));
    ServerEntity {
        x: shifted(e.x, product(nx, push)),
        y: shifted(e.y, product(ny, push)),
        vx: reflected(e.vx, nx, dot, damping),
        vy: reflected(e.vy, ny, dot, damping),
        ..e
    }
}

/// The ships that touch a planet rebound from it one after the other, and take a blow each.
pub open spec fn grounded(w: World, ships: Seq<ServerEntity>, planets: Seq<ServerEntity>) -> (
    World,
    Seq<Blow>,
)
    decreases ships.len(),
{
    if ships.len() == 0 {
        (w, Seq::empty())
    } else {
        let (w1, blows) = grounded(w, ships.drop_last(), planets);
        let s = ships.last();
        match entity_of(w1, s.id) {
            Some(e) => match first_met(Contact::ShipPlanet, e, planets) {
                Some(planet) => {
                    let (nx, ny, push) = normal_of(e, planet, sum(planet.vx, ship_radius()));
                    (
                        with_entity(w1, rebounded(e, nx, ny, push, from_fraction(1, 2))),
                        blows.push(Blow { id: owner_of(s), dmg: from_whole(25), by: None }),
                    )
                },
                None => (w1, blows),
            },
            None => (w1, blows),
        }
    }
}

/// Torpedoes go off on planets, and ships rebound from them and take damage.
pub open spec fn planet_struck(w: World, t: Trace) -> (World, Trace) {
    let planets = picked(w.entities, Pick::Planets);
    let w1 = burst(w, planet_hits(picked(w.entities, Pick::Torpedoes), planets));
    let (w2, blows) = grounded(w1, picked(w1.entities, Pick::Ships), planets);
    wounded(w2, blows, t)
}

/// A ship that touches an asteroid: the unit vector between them and the overlap.
#[derive(Debug, Clone, Copy)]
pub struct Bump {
    pub ship: EntityId,
    pub pid: PlayerId,
    pub rock: EntityId,
    pub nx: Single,
    pub ny: Single,
    pub push: Single,
}

/// The bumps of ships into asteroids, at most one for each ship.
pub open spec fn bumps(ships: Seq<ServerEntity>, rocks: Seq<ServerEntity>) -> Seq<Bump>
    decreases ships.len(),
{
    if ships.len() == 0 {
        Seq::empty()
    } else {
        let front = bumps(ships.drop_last(), rocks);
        let s = ships.last();
        match first_met(Contact::ShipRock, s, rocks) {
            Some(rock) => {
                let (nx, ny, push) = normal_of(s, rock, sum(radius_of(rock), ship_radius()));
                front.push(Bump { ship: s.id, pid: owner_of(s), rock: rock.id, nx, ny, push })
            },
            None => front,
        }
    }
}

/// A ship rebounds, and the asteroid is nudged away from it.
pub open spec fn bumped(w: World, b: Bump) -> World {
    let w1 = match entity_of(w, b.ship) {
        Some(e) => with_entity(w, rebounded(e, b.nx, b.ny, b.push, from_fraction(3, 5))),
        None => w,
    };
    match entity_of(w1, b.rock) {
        Some(e) => with_entity(
            w1,
            ServerEntity {
                vx: difference(e.vx, product(b.nx, from_whole(15))),
                vy: difference(e.vy, product(b.ny, from_whole(15))),
                ..e
            },
        ),
        None => w1,
    }
}

/// The bumps happen one after the other.
pub open spec fn all_bumped(w: World, bs: Seq<Bump>) -> World
    decreases bs.len(),
{
    if bs.len() == 0 {
        w
    } else {
        bumped(all_bumped(w, bs.drop_last()), bs.last())
    }
}

/// What the ships take from the bumps.
pub open spec fn ship_bruises(bs: Seq<Bump>) -> Seq<Blow> {
    bs.map_values(|b: Bump| Blow { id: b.pid, dmg: from_fraction(25, 2), by: None })
}

/// What the asteroids take from the bumps.
pub open spec fn rock_bruises(bs: Seq<Bump>) -> Seq<Blow> {
    bs.map_values(|b: Bump| Blow { id: b.rock, dmg: from_whole(10), by: None })
}

/// Two asteroids that run into each other: how both are moved apart, and how their velocities
/// change.
#[derive(Debug, Clone, Copy)]
pub struct Knock {
    pub id1: EntityId,
    pub id2: EntityId,
    pub nx: Single,
    pub ny: Single,
    pub push1: Single,
    pub push2: Single,
    pub dvx1: Single,
    pub dvy1: Single,
    pub dvx2: Single,
    pub dvy2: Single,
}

/// The speed at which two asteroids part along the line between them.
pub open spec fn parting(a: ServerEntity, b: ServerEntity) -> Single {
    let (nx, ny, _) = normal_of(a, b, sum(radius_of(a), radius_of(b)));
    sum(product(difference(a.vx, b.vx), nx), product(difference(a.vy, b.vy), ny))
}

/// Whether two asteroids overlap and are not moving apart.
pub open spec fn knocking(a: ServerEntity, b: ServerEntity) -> bool {
    !le(squared(sum(radius_of(a), radius_of(b))), gap_squared(a, b)) && !le(zero(), parting(a, b))
}

/// An elastic collision between discs whose masses are as their areas.
pub open spec fn knock_of(a: ServerEntity, b: ServerEntity) -> Knock {
    let (nx, ny, overlap) = normal_of(a, b, sum(radius_of(a), radius_of(b)));
    let m1 = squared(radius_of(a));
    let m2 = squared(radius_of(b));
    let total = sum(m1, m2);
    let impulse = quotient(product(from_whole(2), parting(a, b)), total);
    Knock {
        id1: a.id,
        id2: b.id,
        nx,
        ny,
        push1: quotient(product(overlap, m2), total),
        push2: quotient(product(overlap, m1), total),
        dvx1: product(product(negated(impulse), m2), nx),
        dvy1: product(product(negated(impulse), m2), ny),
        dvx2: product(product(impulse, m1), nx),
        dvy2: product(product(impulse, m1), ny),
    }
}

/// The knocks of the asteroid at place `i` with the later ones before place `j`.
pub open spec fn knocks_with(rs: Seq<ServerEntity>, i: int, j: int) -> Seq<Knock>
    decreases j - i,
{
    if j <= i + 1 {
        Seq::empty()
    } else {
        let front = knocks_with(rs, i, j - 1);
        if knocking(rs[i], rs[j - 1]) {
            front.push(knock_of(rs[i], rs[j - 1]))
        } else {
            front
        }
    }
}

/// The knocks of the first `n` asteroids with those after each of them.
pub open spec fn knocks(rs: Seq<ServerEntity>, n: nat) -> Seq<Knock>
    decreases n,
{
    if n == 0 {
        Seq::empty()
    } else {
        knocks(rs, (n - 1) as nat) + knocks_with(rs, n - 1, rs.len() as int)
    }
}

/// Both asteroids are moved apart and get their new velocities.
pub open spec fn knocked(w: World, k: Knock) -> World {
    let w1 = match entity_of(w, k.id1) {
        Some(e) => with_entity(
            w,
            ServerEntity {
                x: shifted(e.x, product(k.nx, k.push1)),
                y: shifted(e.y, product(k.ny, k.push1)),
                vx: sum(e.vx, k.dvx1),
                vy: sum(e.vy, k.dvy1),
                ..e
            },
        ),
        None => w,
    };
    match entity_of(w1, k.id2) {
        Some(e) => with_entity(
            w1,
            ServerEntity {
                x: shifted(e.x, negated(product(k.nx, k.push2))),
                y: shifted(e.y, negated(product(k.ny, k.push2))),
                vx: sum(e.vx, k.dvx2),
                vy: sum(e.vy, k.dvy2),
                ..e
            },
        ),
        None => w1,
    }
}

/// The knocks happen one after the other.
pub open spec fn all_knocked(w: World, ks: Seq<Knock>) -> World
    decreases ks.len(),
{
    if ks.len() == 0 {
        w
    } else {
        knocked(all_knocked(w, ks.drop_last()), ks.last())
    }
}

/// The ends of those asteroids that are still there and touch a planet.
pub open spec fn crashes(w: World, rocks: Seq<ServerEntity>, planets: Seq<ServerEntity>) -> Seq<
    Blast,
>
    decreases rocks.len(),
{
    if rocks.len() == 0 {
        Seq::empty()
    } else {
        let front = crashes(w, rocks.drop_last(), planets);
        match entity_of(w, rocks.last().id) {
            Some(e) => if first_met(Contact::RockPlanet, e, planets) is Some {
                front.push(Blast { id: rocks.last().id, x: e.x, y: e.y, seen: true })
            } else {
                front
            },
            None => front,
        }
    }
}

/// Asteroids collide with ships, with each other and with planets.
pub open spec fn rock_struck(w: World, t: Trace) -> (World, Trace) {
    let rocks = picked(w.entities, Pick::Rocks);
    let bs = bumps(picked(w.entities, Pick::Ships), rocks);
    let (w1, t1) = wounded(all_bumped(w, bs), ship_bruises(bs), t);
    let (w2, t2) = chipped(w1, rock_bruises(bs), t1);
    let rs = picked(w2.entities, Pick::Rocks);
    let w3 = all_knocked(w2, knocks(rs, rs.len()));
    (burst(w3, crashes(w3, rocks, picked(w3.entities, Pick::Planets))), t2)
}

impl ServerEntity {
    fn gap_squared(&self, other: &ServerEntity) -> (r: Single)
        ensures
            r == gap_squared(*self, *other),
    {
        let dx: Single = self.x.minus(other.x);
        let dy: Single = self.y.minus(other.y);
        dx.times(dx).plus(dy.times(dy))
    }

    /// Whether this entity meets another in a given way.
    pub fn touches(&self, how: Contact, other: &ServerEntity) -> (r: bool)
        ensures
            r == touch(how, *self, *other),
    {
        let gap: Single = self.gap_squared(other);
        match how {
            Contact::ProjectileShip => {
                let own: bool = match (self.owner, other.owner) {
                    (Some(a), Some(b)) => a == b,
                    (None, None) => true,
                    _ => false,
                };
                let reach: Single = Single::whole(18).plus(Single::fraction(5, 2));
                !own && gap.is_less(reach.times(reach))
            },
            Contact::ProjectileRock => {
                let reach: Single = other.radius().plus(Single::fraction(5, 2));
                gap.is_less(reach.times(reach))
            },
            Contact::TorpedoPlanet => gap.sqrt().is_less(other.vx.plus(Single::fraction(5, 2))),
            Contact::ShipPlanet => {
                let reach: Single = other.vx.plus(Single::whole(18));
                gap.is_less(reach.times(reach))
            },
            Contact::ShipRock => {
                let reach: Single = other.radius().plus(Single::whole(18));
                gap.is_less(reach.times(reach))
            },
            Contact::RockPlanet => {
                let reach: Single = other.vx.plus(self.radius());
                gap.is_less(reach.times(reach))
            },
        }
    }

    /// The first of the others that this entity meets.
    pub fn meet_first(&self, how: Contact, others: &Vec<ServerEntity>) -> (r: Option<ServerEntity>)
        ensures
            r == first_met(how, *self, others@),
    {
        let mut r: Option<ServerEntity> = None;
        let mut i: usize = 0;
        while i < others.len()
            invariant
                i <= others.len(),
                r == first_met(how, *self, others@.take(i as int)),
            decreases others.len() - i,
        {
            let o: ServerEntity = others[i];
            proof {
                assert(others@.take(i + 1).drop_last() =~= others@.take(i as int));
            }
            if r.is_none() && self.touches(how, &o) {
                r = Some(o);
            }
            i = i + 1;
        }
        proof {
            assert(others@.take(i as int) =~= others@);
        }
        r
    }

    /// The unit vector from another entity to this one, and how far this one has to go to be as
    /// far from it as it should.
    fn normal(&self, other: &ServerEntity, reach: Single) -> (r: (Single, Single, Single))
        ensures
            r == normal_of(*self, *other, reach),
    {
        let dist: Single = self.gap_squared(other).sqrt().max(Single::fraction(1, 1000));
        (
            self.x.minus(other.x).over(dist),
            self.y.minus(other.y).over(dist),
            reach.minus(dist),
        )
    }

    /// Pushes this entity out of what it hit, and reflects and damps its velocity.
    fn rebound(&mut self, nx: Single, ny: Single, push: Single, damping: Single)
        ensures
            *final(self) == rebounded(*old(self), nx, ny, push, damping),
    {
        let two: Single = Single::whole(2);
        self.x = shift(self.x, nx.times(push));
        self.y = shift(self.y, ny.times(push));
        let dot: Single = self.vx.times(nx).plus(self.vy.times(ny));
        self.vx = self.vx.minus(two.times(dot).times(nx)).times(damping);
        self.vy = self.vy.minus(two.times(dot).times(ny)).times(damping);
    }

    /// The player who owns this entity.
    fn owner_id(&self) -> (r: PlayerId)
        ensures
            r == owner_of(*self),
    {
        match self.owner {
            Some(id) => id,
            None => 0,
        }
    }

    /// The knock of this asteroid with another, where they run into each other.
    fn knock(&self, other: &ServerEntity) -> (r: Option<Knock>)
        ensures
            r == if knocking(*self, *other) {
                Some(knock_of(*self, *other))
            } else {
                None
            },
    {
        let r1: Single = self.radius();
        let r2: Single = other.radius();
        let min_dist: Single = r1.plus(r2);
        if min_dist.times(min_dist).is_at_most(self.gap_squared(other)) {
            return None;
        }
        let (nx, ny, overlap) = self.normal(other, min_dist);
        let m1: Single = r1.times(r1);
        let m2: Single = r2.times(r2);
        let total: Single = m1.plus(m2);
        let rel: Single = self.vx.minus(other.vx).times(nx).plus(
            self.vy.minus(other.vy).times(ny),
        );
        if Single::nought().is_at_most(rel) {
            return None;
        }
        let impulse: Single = Single::whole(2).times(rel).over(total);
        Some(
            Knock {
                id1: self.id,
                id2: other.id,
                nx,
                ny,
                push1: overlap.times(m2).over(total),
                push2: overlap.times(m1).over(total),
                dvx1: impulse.negate().times(m2).times(nx),
                dvy1: impulse.negate().times(m2).times(ny),
                dvx2: impulse.times(m1).times(nx),
                dvy2: impulse.times(m1).times(ny),
            },
        )
    }
}

/// The blows and the ends of the projectiles that hit a ship, or else an asteroid.
fn find_hits(
    ps: &Vec<ServerEntity>,
    ships: &Vec<ServerEntity>,
    rocks: &Vec<ServerEntity>,
    at_rocks: bool,
) -> (r: (Vec<Blow>, Vec<Blast>))
    ensures
        !at_rocks ==> (r.0@, r.1@) == ship_hits(ps@, ships@),
        at_rocks ==> (r.0@, r.1@) == rock_hits(ps@, ships@, rocks@),
{
    let mut blows: Vec<Blow> = Vec::new();
    let mut blasts: Vec<Blast> = Vec::new();
    let mut i: usize = 0;
    while i < ps.len()
        invariant
            i <= ps.len(),
            !at_rocks ==> (blows@, blasts@) == ship_hits(ps@.take(i as int), ships@),
            at_rocks ==> (blows@, blasts@) == rock_hits(ps@.take(i as int), ships@, rocks@),
        decreases ps.len() - i,
    {
        let p: ServerEntity = ps[i];
        let ship: Option<ServerEntity> = p.meet_first(Contact::ProjectileShip, ships);
        let hit: Option<u32> = if at_rocks {
            match p.meet_first(Contact::ProjectileRock, rocks) {
                Some(rock) => if ship.is_none() {
                    Some(rock.id)
                } else {
                    None
                },
                None => None,
            }
        } else {
            match ship {
                Some(s) => Some(s.owner_id()),
                None => None,
            }
        };
        proof {
            assert(ps@.take(i + 1).drop_last() =~= ps@.take(i as int));
        }
        if let Some(id) = hit {
            blows.push(Blow { id, dmg: p.damage, by: p.owner });
            blasts.push(
                Blast { id: p.id, x: p.x, y: p.y, seen: p.kind == EntityKind::Torpedo },
            );
        }
        i = i + 1;
    }
    proof {
        assert(ps@.take(i as int) =~= ps@);
    }
    (blows, blasts)
}

/// The ends of the torpedoes that hit a planet.
fn find_planet_hits(ts: &Vec<ServerEntity>, planets: &Vec<ServerEntity>) -> (r: Vec<Blast>)
    ensures
        r@ == planet_hits(ts@, planets@),
{
    let mut r: Vec<Blast> = Vec::new();
    let mut i: usize = 0;
    while i < ts.len()
        invariant
            i <= ts.len(),
            r@ == planet_hits(ts@.take(i as int), planets@),
        decreases ts.len() - i,
    {
        let p: ServerEntity = ts[i];
        proof {
            assert(ts@.take(i + 1).drop_last() =~= ts@.take(i as int));
        }
        if p.meet_first(Contact::TorpedoPlanet, planets).is_some() {
            r.push(Blast { id: p.id, x: p.x, y: p.y, seen: true });
        }
        i = i + 1;
    }
    proof {
        assert(ts@.take(i as int) =~= ts@);
    }
    r
}

/// The bumps of ships into asteroids.
fn find_bumps(ships: &Vec<ServerEntity>, rocks: &Vec<ServerEntity>) -> (r: Vec<Bump>)
    ensures
        r@ == bumps(ships@, rocks@),
{
    let mut r: Vec<Bump> = Vec::new();
    let mut i: usize = 0;
    while i < ships.len()
        invariant
            i <= ships.len(),
            r@ == bumps(ships@.take(i as int), rocks@),
        decreases ships.len() - i,
    {
        let s: ServerEntity = ships[i];
        proof {
            assert(ships@.take(i + 1).drop_last() =~= ships@.take(i as int));
        }
        if let Some(rock) = s.meet_first(Contact::ShipRock, rocks) {
            let (nx, ny, push) = s.normal(&rock, rock.radius().plus(Single::whole(18)));
            r.push(Bump { ship: s.id, pid: s.owner_id(), rock: rock.id, nx, ny, push });
        }
        i = i + 1;
    }
    proof {
        assert(ships@.take(i as int) =~= ships@);
    }
    r
}

/// The knocks between asteroids.
fn find_knocks(rs: &Vec<ServerEntity>) -> (r: Vec<Knock>)
    ensures
        r@ == knocks(rs@, rs@.len()),
{
    let mut r: Vec<Knock> = Vec::new();
    let mut i: usize = 0;
    while i < rs.len()
        invariant
            i <= rs.len(),
            r@ == knocks(rs@, i as nat),
        decreases rs.len() - i,
    {
        let mut j: usize = i + 1;
        let ghost front = r@;
        proof {
            assert(r@ =~= front + knocks_with(rs@, i as int, j as int));
        }
        while j < rs.len()
            invariant
                i < j <= rs.len(),
                r@ == front + knocks_with(rs@, i as int, j as int),
            decreases rs.len() - j,
        {
            let ghost before = r@;
            if let Some(k) = rs[i].knock(&rs[j]) {
                r.push(k);
            }
            j = j + 1;
            proof {
                let old_row = knocks_with(rs@, i as int, j - 1);
                let row = knocks_with(rs@, i as int, j as int);
                if knocking(rs@[i as int], rs@[j - 1]) {
                    assert(row == old_row.push(knock_of(rs@[i as int], rs@[j - 1])));
                } else {
                    assert(row == old_row);
                }
                assert(r@ =~= front + row);
            }
        }
        i = i + 1;
    }
    r
}

impl GameState {
    /// Lets projectiles hit ships and asteroids.  Torpedoes never go off on their own player's
    /// ship.
    pub fn check_collisions<F: Fn(Ask) -> Single>(&mut self, oracle: &mut Oracle<F>)
        ensures
            final(oracle).follows(*old(oracle)),
            forall|rest: Trace| #[trigger]
                shot_down(old(self)@, final(oracle).since(*old(oracle)) + rest) == (
                    final(self)@,
                    rest,
                ),
    {
        let ps: Vec<ServerEntity> = select(&self.entities.rows, Pick::Projectiles);
        let ships: Vec<ServerEntity> = select(&self.entities.rows, Pick::Ships);
        let rocks: Vec<ServerEntity> = select(&self.entities.rows, Pick::Rocks);
        let (ship_blows, ship_blasts) = find_hits(&ps, &ships, &rocks, false);
        let (rock_blows, rock_blasts) = find_hits(&ps, &ships, &rocks, true);
        let mut blasts: Vec<Blast> = ship_blasts;
        let mut rest: Vec<Blast> = rock_blasts;
        blasts.append(&mut rest);
        self.blast(&blasts);
        self.wound(&ship_blows, oracle);
        let ghost o1 = *oracle;
        self.chip(&rock_blows, oracle);
        proof {
            lemma_since_chain(*old(oracle), o1, *oracle);
        }
    }

    /// Lets the ships that touch a planet rebound; gives the blows that they take.
    fn ground(&mut self, ships: &Vec<ServerEntity>, planets: &Vec<ServerEntity>) -> (r: Vec<Blow>)
        ensures
            (final(self)@, r@) == grounded(old(self)@, ships@, planets@),
    {
        let mut r: Vec<Blow> = Vec::new();
        let mut i: usize = 0;
        while i < ships.len()
            invariant
                i <= ships.len(),
                (self@, r@) == grounded(old(self)@, ships@.take(i as int), planets@),
            decreases ships.len() - i,
        {
            let s: ServerEntity = ships[i];
            let ghost w = self@;
            proof {
                assert(ships@.take(i + 1).drop_last() =~= ships@.take(i as int));
            }
            if let Some(k) = self.entities.position(s.id) {
                let e: ServerEntity = self.entities.rows[k];
                if let Some(planet) = e.meet_first(Contact::ShipPlanet, planets) {
                    let (nx, ny, push) = e.normal(&planet, planet.vx.plus(Single::whole(18)));
                    self.entities.rows[k].rebound(nx, ny, push, Single::fraction(1, 2));
                    assert(self@ =~= with_entity(
                        w,
                        rebounded(e, nx, ny, push, from_fraction(1, 2)),
                    ));
                    r.push(Blow { id: s.owner_id(), dmg: Single::whole(25), by: None });
                }
            }
            i = i + 1;
        }
        proof {
            assert(ships@.take(i as int) =~= ships@);
        }
        r
    }

    /// Pushes ships out of planets at the cost of damage, and detonates torpedoes there.
    pub fn check_planet_collisions<F: Fn(Ask) -> Single>(&mut self, oracle: &mut Oracle<F>)
        ensures
            final(oracle).follows(*old(oracle)),
            forall|rest: Trace| #[trigger]
                planet_struck(old(self)@, final(oracle).since(*old(oracle)) + rest) == (
                    final(self)@,
                    rest,
                ),
    {
        let planets: Vec<ServerEntity> = select(&self.entities.rows, Pick::Planets);
        let torpedoes: Vec<ServerEntity> = select(&self.entities.rows, Pick::Torpedoes);
        let blasts: Vec<Blast> = find_planet_hits(&torpedoes, &planets);
        self.blast(&blasts);
        let ships: Vec<ServerEntity> = select(&self.entities.rows, Pick::Ships);
        let blows: Vec<Blow> = self.ground(&ships, &planets);
        self.wound(&blows, oracle);
    }

    fn bump(&mut self, b: &Bump)
        ensures
            final(self)@ == bumped(old(self)@, *b),
    {
        if let Some(k) = self.entities.position(b.ship) {
            let ghost e = self@.entities[k as int];
            self.entities.rows[k].rebound(b.nx, b.ny, b.push, Single::fraction(3, 5));
            assert(self@ =~= with_entity(
                old(self)@,
                rebounded(e, b.nx, b.ny, b.push, from_fraction(3, 5)),
            ));
        }
        let ghost w1 = self@;
        if let Some(k) = self.entities.position(b.rock) {
            let e: ServerEntity = self.entities.rows[k];
            let nudge: Single = Single::whole(15);
            self.entities.rows[k].vx = e.vx.minus(b.nx.times(nudge));
            self.entities.rows[k].vy = e.vy.minus(b.ny.times(nudge));
            assert(self@ =~= with_entity(
                w1,
                ServerEntity {
                    vx: difference(e.vx, product(b.nx, from_whole(15))),
                    vy: difference(e.vy, product(b.ny, from_whole(15))),
                    ..e
                },
            ));
        }
    }

    /// Lets the bumps happen; gives the blows that ships and asteroids take.
    fn bump_all(&mut self, bs: &Vec<Bump>) -> (r: (Vec<Blow>, Vec<Blow>))
        ensures
            final(self)@ == all_bumped(old(self)@, bs@),
            r.0@ == ship_bruises(bs@),
            r.1@ == rock_bruises(bs@),
    {
        let mut ship_blows: Vec<Blow> = Vec::new();
        let mut rock_blows: Vec<Blow> = Vec::new();
        let mut i: usize = 0;
        while i < bs.len()
            invariant
                i <= bs.len(),
                self@ == all_bumped(old(self)@, bs@.take(i as int)),
                ship_blows@ == ship_bruises(bs@.take(i as int)),
                rock_blows@ == rock_bruises(bs@.take(i as int)),
            decreases bs.len() - i,
        {
            let b: Bump = bs[i];
            self.bump(&b);
            ship_blows.push(Blow { id: b.pid, dmg: Single::fraction(25, 2), by: None });
            rock_blows.push(Blow { id: b.rock, dmg: Single::whole(10), by: None });
            i = i + 1;
            proof {
                assert(bs@.take(i as int).drop_last() =~= bs@.take(i - 1));
                assert(ship_blows@ =~= ship_bruises(bs@.take(i as int)));
                assert(rock_blows@ =~= rock_bruises(bs@.take(i as int)));
            }
        }
        proof {
            assert(bs@.take(i as int) =~= bs@);
        }
        (ship_blows, rock_blows)
    }

    fn knock(&mut self, k: &Knock)
        ensures
            final(self)@ == knocked(old(self)@, *k),
    {
        if let Some(i) = self.entities.position(k.id1) {
            let e: ServerEntity = self.entities.rows[i];
            self.entities.rows[i].x = shift(e.x, k.nx.times(k.push1));
            self.entities.rows[i].y = shift(e.y, k.ny.times(k.push1));
            self.entities.rows[i].vx = e.vx.plus(k.dvx1);
            self.entities.rows[i].vy = e.vy.plus(k.dvy1);
            assert(self@ =~= with_entity(old(self)@, self@.entities[i as int]));
        }
        let ghost w1 = self@;
        if let Some(i) = self.entities.position(k.id2) {
            let e: ServerEntity = self.entities.rows[i];
            self.entities.rows[i].x = shift(e.x, k.nx.times(k.push2).negate());
            self.entities.rows[i].y = shift(e.y, k.ny.times(k.push2).negate());
            self.entities.rows[i].vx = e.vx.plus(k.dvx2);
            self.entities.rows[i].vy = e.vy.plus(k.dvy2);
            assert(self@ =~= with_entity(w1, self@.entities[i as int]));
        }
    }

    fn knock_all(&mut self, ks: &Vec<Knock>)
        ensures
            final(self)@ == all_knocked(old(self)@, ks@),
    {
        let mut i: usize = 0;
        while i < ks.len()
            invariant
                i <= ks.len(),
                self@ == all_knocked(old(self)@, ks@.take(i as int)),
            decreases ks.len() - i,
        {
            let k: Knock = ks[i];
            self.knock(&k);
            i = i + 1;
            proof {
                assert(ks@.take(i as int).drop_last() =~= ks@.take(i - 1));
            }
        }
        proof {
            assert(ks@.take(i as int) =~= ks@);
        }
    }

    /// The ends of those asteroids that are still there and touch a planet.
    fn find_crashes(&self, rocks: &Vec<ServerEntity>, planets: &Vec<ServerEntity>) -> (r: Vec<
        Blast,
    >)
        ensures
            r@ == crashes(self@, rocks@, planets@),
    {
        let mut r: Vec<Blast> = Vec::new();
        let mut i: usize = 0;
        while i < rocks.len()
            invariant
                i <= rocks.len(),
                r@ == crashes(self@, rocks@.take(i as int), planets@),
            decreases rocks.len() - i,
        {
            let id: EntityId = rocks[i].id;
            proof {
                assert(rocks@.take(i + 1).drop_last() =~= rocks@.take(i as int));
            }
            if let Some(e) = self.entity(id) {
                if e.meet_first(Contact::RockPlanet, planets).is_some() {
                    r.push(Blast { id, x: e.x, y: e.y, seen: true });
                }
            }
            i = i + 1;
        }
        proof {
            assert(rocks@.take(i as int) =~= rocks@);
        }
        r
    }

    /// Lets asteroids collide with ships, with each other and with planets.
    pub fn check_asteroid_collisions<F: Fn(Ask) -> Single>(&mut self, oracle: &mut Oracle<F>)
        ensures
            final(oracle).follows(*old(oracle)),
            forall|rest: Trace| #[trigger]
                rock_struck(old(self)@, final(oracle).since(*old(oracle)) + rest) == (
                    final(self)@,
                    rest,
                ),
    {
        let rocks: Vec<ServerEntity> = select(&self.entities.rows, Pick::Rocks);
        let ships: Vec<ServerEntity> = select(&self.entities.rows, Pick::Ships);
        let bs: Vec<Bump> = find_bumps(&ships, &rocks);
        let (ship_blows, rock_blows) = self.bump_all(&bs);
        self.wound(&ship_blows, oracle);
        let ghost o1 = *oracle;
        self.chip(&rock_blows, oracle);
        proof {
            lemma_since_chain(*old(oracle), o1, *oracle);
        }
        let rs: Vec<ServerEntity> = select(&self.entities.rows, Pick::Rocks);
        let ks: Vec<Knock> = find_knocks(&rs);
        self.knock_all(&ks);
        let planets: Vec<ServerEntity> = select(&self.entities.rows, Pick::Planets);
        let blasts: Vec<Blast> = self.find_crashes(&rocks, &planets);
        self.blast(&blasts);
    }
}

} // verus!
