//! Selections of entities, and lists of impacts that are worked off in order.
use vstd::prelude::*;

use crate::damage::{asteroid_damaged, damaged};
use crate::game::{EntityId, EntityKind, PlayerId};
use crate::oracle::{lemma_follows, lemma_since_chain, lemma_since_now, Ask, Oracle, Trace};
use crate::ray::is_rock;
use crate::single::Single;
use crate::world::{exploded, without_entity, GameState, ServerEntity, World};

verus! {

broadcast use lemma_follows;

/// A selection of entities.
#[derive(Debug, Clone, Copy, PartialEq, Eq, Structural)]
pub enum Pick {
    /// Torpedoes and drones.
    Projectiles,
    Torpedoes,
    /// Ships that belong to a player.
    Ships,
    /// Asteroids that can be destroyed.
    Rocks,
    Planets,
}

/// Whether a selection takes an entity.
pub open spec fn takes(pick: Pick, e: ServerEntity) -> bool {
    match pick {
        Pick::Projectiles => e.kind == EntityKind::Torpedo || e.kind == EntityKind::Drone,
        Pick::Torpedoes => e.kind == EntityKind::Torpedo,
        Pick::Ships => e.kind == EntityKind::Ship && e.owner is Some,
        Pick::Rocks => is_rock(e),
        Pick::Planets => e.kind == EntityKind::Planet,
    }
}

/// The entities that a selection takes, in their order.
pub open spec fn picked(es: Seq<ServerEntity>, pick: Pick) -> Seq<ServerEntity>
    decreases es.len(),
{
    if es.len() == 0 {
        Seq::empty()
    } else if takes(pick, es.last()) {
        picked(es.drop_last(), pick).push(es.last())
    } else {
        picked(es.drop_last(), pick)
    }
}

/// Damage to a player or to an asteroid, and the player who is to be credited.
#[derive(Debug, Clone, Copy)]
pub struct Blow {
    pub id: u32,
    pub dmg: Single,
    pub by: Option<PlayerId>,
}

/// An entity that is to go, and whether an explosion is to be seen in its place.
#[derive(Debug, Clone, Copy)]
pub struct Blast {
    pub id: EntityId,
    pub x: Single,
    pub y: Single,
    pub seen: bool,
}

/// The players take their blows one after the other.
pub open spec fn wounded(w: World, blows: Seq<Blow>, t: Trace) -> (World, Trace)
    decreases blows.len(),
{
    if blows.len() == 0 {
        (w, t)
    } else {
        let (w1, t1) = wounded(w, blows.drop_last(), t);
        let b = blows.last();
        damaged(w1, b.id, b.dmg, b.by, false, t1)
    }
}

/// The asteroids take their blows one after the other.
pub open spec fn chipped(w: World, blows: Seq<Blow>, t: Trace) -> (World, Trace)
    decreases blows.len(),
{
    if blows.len() == 0 {
        (w, t)
    } else {
        let (w1, t1) = chipped(w, blows.drop_last(), t);
        let b = blows.last();
        asteroid_damaged(w1, b.id, b.dmg, b.by, t1)
    }
}

/// The entities go one after the other.
pub open spec fn burst(w: World, blasts: Seq<Blast>) -> World
    decreases blasts.len(),
{
    if blasts.len() == 0 {
        w
    } else {
        let b = blasts.last();
        let w1 = without_entity(burst(w, blasts.drop_last()), b.id);
        if b.seen {
            exploded(w1, b.x, b.y)
        } else {
            w1
        }
    }
}

/// A selection takes what it takes from a front of the entities, and then from the rest.
pub proof fn lemma_picked_step(es: Seq<ServerEntity>, pick: Pick, i: int)
    requires
        0 <= i < es.len(),
    ensures
        picked(es.take(i + 1), pick) == if takes(pick, es[i]) {
            picked(es.take(i), pick).push(es[i])
        } else {
            picked(es.take(i), pick)
        },
{
    assert(es.take(i + 1).drop_last() =~= es.take(i));
}

/// Selects entities.
pub fn select(es: &Vec<ServerEntity>, pick: Pick) -> (r: Vec<ServerEntity>)
    ensures
        r@ == picked(es@, pick),
{
    let mut r: Vec<ServerEntity> = Vec::new();
    let mut i: usize = 0;
    while i < es.len()
        invariant
            i <= es.len(),
            r@ == picked(es@.take(i as int), pick),
        decreases es.len() - i,
    {
        let e: ServerEntity = es[i];
        let wanted: bool = match pick {
            Pick::Projectiles => e.kind == EntityKind::Torpedo || e.kind == EntityKind::Drone,
            Pick::Torpedoes => e.kind == EntityKind::Torpedo,
            Pick::Ships => e.kind == EntityKind::Ship && e.owner.is_some(),
            Pick::Rocks => e.is_asteroid(),
            Pick::Planets => e.kind == EntityKind::Planet,
        };
        proof {
            lemma_picked_step(es@, pick, i as int);
        }
        if wanted {
            r.push(e);
        }
        i = i + 1;
    }
    proof {
        assert(es@.take(i as int) =~= es@);
    }
    r
}

impl GameState {
    /// Lets players take their blows.
    pub fn wound<F: Fn(Ask) -> Single>(&mut self, blows: &Vec<Blow>, oracle: &mut Oracle<F>)
        ensures
            final(oracle).follows(*old(oracle)),
            forall|rest: Trace| #[trigger]
                wounded(old(self)@, blows@, final(oracle).since(*old(oracle)) + rest) == (
                    final(self)@,
                    rest,
                ),
    {
        proof {
            lemma_since_now(*oracle);
        }
        let mut i: usize = 0;
        while i < blows.len()
            invariant
                i <= blows.len(),
                oracle.follows(*old(oracle)),
                forall|rest: Trace| #[trigger]
                    wounded(
                        old(self)@,
                        blows@.take(i as int),
                        oracle.since(*old(oracle)) + rest,
                    ) == (self@, rest),
            decreases blows.len() - i,
        {
            let ghost before = *oracle;
            let ghost w = self@;
            let b: Blow = blows[i];
            self.apply_damage(b.id, b.dmg, b.by, false, oracle);
            i = i + 1;
            proof {
                lemma_since_chain(*old(oracle), before, *oracle);
                assert(blows@.take(i as int).drop_last() =~= blows@.take(i - 1));
                assert forall|rest: Trace| #[trigger]
                    wounded(
                        old(self)@,
                        blows@.take(i as int),
                        oracle.since(*old(oracle)) + rest,
                    ) == (self@, rest) by {
                    let next = oracle.since(before) + rest;
                    assert(wounded(
                        old(self)@,
                        blows@.take(i - 1),
                        before.since(*old(oracle)) + next,
                    ) == (w, next));
                }
            }
        }
        proof {
            assert(blows@.take(i as int) =~= blows@);
        }
    }

    /// Lets asteroids take their blows.
    pub fn chip<F: Fn(Ask) -> Single>(&mut self, blows: &Vec<Blow>, oracle: &mut Oracle<F>)
        ensures
            final(oracle).follows(*old(oracle)),
            forall|rest: Trace| #[trigger]
                chipped(old(self)@, blows@, final(oracle).since(*old(oracle)) + rest) == (
                    final(self)@,
                    rest,
                ),
    {
        proof {
            lemma_since_now(*oracle);
        }
        let mut i: usize = 0;
        while i < blows.len()
            invariant
                i <= blows.len(),
                oracle.follows(*old(oracle)),
                forall|rest: Trace| #[trigger]
                    chipped(
                        old(self)@,
                        blows@.take(i as int),
                        oracle.since(*old(oracle)) + rest,
                    ) == (self@, rest),
            decreases blows.len() - i,
        {
            let ghost before = *oracle;
            let ghost w = self@;
            let b: Blow = blows[i];
            self.apply_asteroid_damage(b.id, b.dmg, b.by, oracle);
            i = i + 1;
            proof {
                lemma_since_chain(*old(oracle), before, *oracle);
                assert(blows@.take(i as int).drop_last() =~= blows@.take(i - 1));
                assert forall|rest: Trace| #[trigger]
                    chipped(
                        old(self)@,
                        blows@.take(i as int),
                        oracle.since(*old(oracle)) + rest,
                    ) == (self@, rest) by {
                    let next = oracle.since(before) + rest;
                    assert(chipped(
                        old(self)@,
                        blows@.take(i - 1),
                        before.since(*old(oracle)) + next,
                    ) == (w, next));
                }
            }
        }
        proof {
            assert(blows@.take(i as int) =~= blows@);
        }
    }

    /// Takes entities away, with explosions in the place of those that are to be seen going.
    pub fn blast(&mut self, blasts: &Vec<Blast>)
        ensures
            final(self)@ == burst(old(self)@, blasts@),
    {
        let mut i: usize = 0;
        while i < blasts.len()
            invariant
                i <= blasts.len(),
                self@ == burst(old(self)@, blasts@.take(i as int)),
            decreases blasts.len() - i,
        {
            let b: Blast = blasts[i];
            self.remove_entity(b.id);
            if b.seen {
                self.spawn_explosion(b.x, b.y);
            }
            i = i + 1;
            proof {
                assert(blasts@.take(i as int).drop_last() =~= blasts@.take(i - 1));
            }
        }
        proof {
            assert(blasts@.take(i as int) =~= blasts@);
        }
    }
}

} // verus!
