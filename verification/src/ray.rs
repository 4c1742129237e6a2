//! What a phaser beam meets on its way.
use vstd::prelude::*;

use crate::game::{class_stats, EntityKind, PlayerId};
use crate::oracle::{lemma_follows, lemma_past, past, told, Ask, Oracle, Trace};
use crate::single::{absolute, difference, from_whole, le, lt, product, sum, zero, Single};
use crate::world::{player_of, small_radius, GameState, PhaserHit, ServerEntity, World};

verus! {

broadcast use lemma_follows;

/// A beam: where it starts, its direction as a unit vector, how far it can reach, and who shot.
#[derive(Debug, Clone, Copy)]
pub struct Ray {
    pub ox: Single,
    pub oy: Single,
    pub dx: Single,
    pub dy: Single,
    pub range: Single,
    pub shooter: PlayerId,
}

/// The distance of an entity along a beam.
pub open spec fn along(ray: Ray, e: ServerEntity) -> Single {
    sum(
        product(difference(e.x, ray.ox), ray.dx),
        product(difference(e.y, ray.oy), ray.dy),
    )
}

/// The distance of an entity to the side of a beam.
pub open spec fn aside(ray: Ray, e: ServerEntity) -> Single {
    absolute(
        difference(
            product(difference(e.x, ray.ox), ray.dy),
            product(difference(e.y, ray.oy), ray.dx),
        ),
    )
}

/// The radius of an asteroid.
pub open spec fn radius_of(e: ServerEntity) -> Single {
    match e.asteroid_radius {
        Some(r) => r,
        None => small_radius(),
    }
}

/// Whether an entity is an asteroid that can be destroyed.
pub open spec fn is_rock(e: ServerEntity) -> bool {
    e.kind == EntityKind::Asteroid && e.health is Some
}

/// What a beam hits where it meets an entity, and how near it has to pass: either ships other than
/// the shooter's, or asteroids.
pub open spec fn target(e: ServerEntity, shooter: PlayerId, rocks: bool) -> Option<
    (PhaserHit, Single),
> {
    if rocks {
        if is_rock(e) {
            Some((PhaserHit::Asteroid(e.id), radius_of(e)))
        } else {
            None
        }
    } else {
        match e.owner {
            Some(owner) => if e.kind == EntityKind::Ship && owner != shooter {
                Some((PhaserHit::Ship(owner), from_whole(16)))
            } else {
                None
            },
            None => None,
        }
    }
}

/// Whether a beam passes near enough to an entity ahead of it and within its reach.
pub open spec fn meets(ray: Ray, e: ServerEntity, width: Single) -> bool {
    &&& !le(along(ray, e), zero())
    &&& !lt(ray.range, along(ray, e))
    &&& lt(aside(ray, e), width)
}

/// The nearest of the targets nearer than where a beam ends so far; of two at one distance, the
/// first.
pub open spec fn nearest(
    es: Seq<ServerEntity>,
    ray: Ray,
    rocks: bool,
    start: (Single, Option<PhaserHit>),
) -> (Single, Option<PhaserHit>)
    decreases es.len(),
{
    if es.len() == 0 {
        start
    } else {
        let so_far = nearest(es.drop_last(), ray, rocks, start);
        let e = es.last();
        match target(e, ray.shooter, rocks) {
            Some((hit, width)) => if meets(ray, e, width) && lt(along(ray, e), so_far.0) {
                (along(ray, e), Some(hit))
            } else {
                so_far
            },
            None => so_far,
        }
    }
}

/// Where a beam ends and what it hits there: ships first, then asteroids that are nearer still.
pub open spec fn beam_end(es: Seq<ServerEntity>, ray: Ray) -> (Single, Option<PhaserHit>) {
    nearest(es, ray, true, nearest(es, ray, false, (ray.range, None)))
}

/// The damage that a player's phaser does.
pub open spec fn phaser_damage(w: World, shooter: PlayerId) -> Single {
    match player_of(w, shooter) {
        Some(p) => class_stats(p.ship_class).phaser_damage,
        None => zero(),
    }
}

/// How long a beam is, and what it hits with which damage.
pub open spec fn cast(
    w: World,
    ox: Single,
    oy: Single,
    angle: Single,
    range: Single,
    shooter: PlayerId,
    t: Trace,
) -> (Single, Option<(PhaserHit, Single)>, Trace) {
    let dx = told(t, 0, Ask::Cos(angle));
    let dy = told(t, 1, Ask::Sin(angle));
    let (dist, hit) = beam_end(w.entities, Ray { ox, oy, dx, dy, range, shooter });
    (
        dist,
        match hit {
            Some(h) => Some((h, phaser_damage(w, shooter))),
            None => None,
        },
        past(t, seq![Ask::Cos(angle), Ask::Sin(angle)]),
    )
}

/// No target that a beam meets is nearer than where the search ends, which is no farther than
/// where it started.
pub proof fn lemma_nearest(
    es: Seq<ServerEntity>,
    ray: Ray,
    rocks: bool,
    start: (Single, Option<PhaserHit>),
)
    ensures
        !start.0.is_nan() ==> le(nearest(es, ray, rocks, start).0, start.0),
        forall|i: int|
            0 <= i < es.len() ==> (target(#[trigger] es[i], ray.shooter, rocks) matches Some(x)
                ==> meets(ray, es[i], x.1) ==> !lt(
                along(ray, es[i]),
                nearest(es, ray, rocks, start).0,
            )),
        nearest(es, ray, rocks, start) == start || exists|i: int|
            0 <= i < es.len() && (target(#[trigger] es[i], ray.shooter, rocks) matches Some(x)
                && meets(ray, es[i], x.1) && nearest(es, ray, rocks, start) == (
                along(ray, es[i]),
                Some(x.0),
            )),
    decreases es.len(),
{
    if es.len() > 0 {
        let front = es.drop_last();
        lemma_nearest(front, ray, rocks, start);
        let r = nearest(es, ray, rocks, start);
        assert forall|i: int| 0 <= i < es.len() implies (target(
            #[trigger] es[i],
            ray.shooter,
            rocks,
        ) matches Some(x) ==> meets(ray, es[i], x.1) ==> !lt(along(ray, es[i]), r.0)) by {
            if i < front.len() {
                assert(front[i] == es[i]);
            }
        }
        if r != start {
            if r == nearest(front, ray, rocks, start) {
                let k = choose|k: int|
                    0 <= k < front.len() && (target(#[trigger] front[k], ray.shooter, rocks)
                        matches Some(x) && meets(ray, front[k], x.1) && r == (
                        along(ray, front[k]),
                        Some(x.0),
                    ));
                assert(es[k] == front[k]);
            } else {
                assert(es[es.len() - 1] == es.last());
            }
        }
    }
}

/// A beam never hits the ship of the player who shot it.
pub proof fn law_beam_spares_shooter(es: Seq<ServerEntity>, ray: Ray)
    ensures
        beam_end(es, ray).1 != Some(PhaserHit::Ship(ray.shooter)),
{
    lemma_nearest(es, ray, false, (ray.range, None));
    lemma_nearest(es, ray, true, nearest(es, ray, false, (ray.range, None)));
}

/// A beam is no longer than its range, and it stops at the first ship or asteroid that it meets:
/// none of those it meets is nearer than its end.
pub proof fn law_beam_stops_at_the_first_hit(es: Seq<ServerEntity>, ray: Ray, i: int, rocks: bool)
    requires
        !ray.range.is_nan(),
        0 <= i < es.len(),
    ensures
        le(beam_end(es, ray).0, ray.range),
        target(es[i], ray.shooter, rocks) matches Some(x) ==> meets(ray, es[i], x.1) ==> !lt(
            along(ray, es[i]),
            beam_end(es, ray).0,
        ),
{
    lemma_nearest(es, ray, false, (ray.range, None));
    lemma_nearest(es, ray, true, nearest(es, ray, false, (ray.range, None)));
}

impl ServerEntity {
    /// The radius of an asteroid.
    pub fn radius(&self) -> (r: Single)
        ensures
            r == radius_of(*self),
    {
        match self.asteroid_radius {
            Some(r) => r,
            None => Single::whole(30),
        }
    }

    /// Whether this is an asteroid that can be destroyed.
    pub fn is_asteroid(&self) -> (r: bool)
        ensures
            r == is_rock(*self),
    {
        self.kind == EntityKind::Asteroid && self.health.is_some()
    }

    fn target(&self, shooter: PlayerId, rocks: bool) -> (r: Option<(PhaserHit, Single)>)
        ensures
            r == target(*self, shooter, rocks),
    {
        if rocks {
            if self.is_asteroid() {
                Some((PhaserHit::Asteroid(self.id), self.radius()))
            } else {
                None
            }
        } else {
            match self.owner {
                Some(owner) => if self.kind == EntityKind::Ship && owner != shooter {
                    Some((PhaserHit::Ship(owner), Single::whole(16)))
                } else {
                    None
                },
                None => None,
            }
        }
    }
}

fn find_nearest(
    es: &Vec<ServerEntity>,
    ray: Ray,
    rocks: bool,
    start: (Single, Option<PhaserHit>),
) -> (r: (Single, Option<PhaserHit>))
    ensures
        r == nearest(es@, ray, rocks, start),
{
    let mut best: (Single, Option<PhaserHit>) = start;
    let mut i: usize = 0;
    while i < es.len()
        invariant
            i <= es.len(),
            best == nearest(es@.take(i as int), ray, rocks, start),
        decreases es.len() - i,
    {
        proof {
            assert(es@.take(i + 1).drop_last() =~= es@.take(i as int));
        }
        let e: ServerEntity = es[i];
        if let Some((hit, width)) = e.target(ray.shooter, rocks) {
            let rx: Single = e.x.minus(ray.ox);
            let ry: Single = e.y.minus(ray.oy);
            let proj: Single = rx.times(ray.dx).plus(ry.times(ray.dy));
            if !proj.is_at_most(Single::nought()) && !ray.range.is_less(proj) {
                let perp: Single = rx.times(ray.dy).minus(ry.times(ray.dx)).abs();
                if perp.is_less(width) && proj.is_less(best.0) {
                    best = (proj, Some(hit));
                }
            }
        }
        i = i + 1;
    }
    proof {
        assert(es@.take(i as int) =~= es@);
    }
    best
}

impl GameState {
    /// Casts a phaser ray from a place in a direction: how long the beam is, and what it hits with
    /// which damage.  It stops at the first ship or asteroid within its range.
    pub fn cast_phaser_ray<F: Fn(Ask) -> Single>(
        &self,
        ox: Single,
        oy: Single,
        angle: Single,
        range: Single,
        shooter: PlayerId,
        oracle: &mut Oracle<F>,
    ) -> (r: (Single, Option<(PhaserHit, Single)>))
        ensures
            final(oracle).follows(*old(oracle)),
            forall|rest: Trace| #[trigger]
                cast(
                    self@,
                    ox,
                    oy,
                    angle,
                    range,
                    shooter,
                    final(oracle).since(*old(oracle)) + rest,
                ) == (r.0, r.1, rest),
    {
        let dx: Single = oracle.ask(Ask::Cos(angle));
        let dy: Single = oracle.ask(Ask::Sin(angle));
        let dmg: Single = match self.players.get(shooter) {
            Some(p) => p.ship_class.stats().phaser_damage,
            None => Single::nought(),
        };
        let ray: Ray = Ray { ox, oy, dx, dy, range, shooter };
        let ships: (Single, Option<PhaserHit>) = find_nearest(
            &self.entities.rows,
            ray,
            false,
            (range, None),
        );
        let best: (Single, Option<PhaserHit>) = find_nearest(
            &self.entities.rows,
            ray,
            true,
            ships,
        );
        proof {
            let tr = oracle.since(*old(oracle));
            lemma_past(tr);
        }
        match best.1 {
            Some(h) => (best.0, Some((h, dmg))),
            None => (best.0, None),
        }
    }
}

} // verus!
