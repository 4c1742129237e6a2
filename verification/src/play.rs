//! Everything that can come of a game, from its first world on.
use vstd::prelude::*;

use crate::crew::{
    all_live, has_ids_for_a_tick, is_crewed, is_planet, keeps_planets,
    law_events_keep_every_ship_crewed, law_events_leave_planets, law_nothing_outlives_its_time,
    law_planets_stay, law_the_first_world_is_crewed, law_ticks_are_counted,
    law_ticks_keep_every_ship_crewed,
};
use crate::oracle::Trace;
use crate::single::Single;
use crate::soundness::{
    is_sound, is_step, law_events_keep_the_world_sound, law_the_first_world_is_sound,
    law_ticks_keep_the_world_sound,
};
use crate::table::row;
use crate::tick::{handled, next_tick, updated, GameEvent};
use crate::world::{statics_spawned, void, World};

verus! {

/// What happens to a game: an event, or a tick of some length.
pub enum Step {
    Event(GameEvent),
    Tick(Single),
}

/// The world after one step.
pub open spec fn stepped(w: World, step: Step, t: Trace) -> (World, Trace) {
    match step {
        Step::Event(event) => handled(w, event, t),
        Step::Tick(dt) => updated(w, dt, t),
    }
}

/// The world that a game has come to after some steps.
pub open spec fn played(steps: Seq<Step>, t: Trace) -> (World, Trace)
    decreases steps.len(),
{
    if steps.len() == 0 {
        statics_spawned(void(), t)
    } else {
        let (w, t1) = played(steps.drop_last(), t);
        stepped(w, steps.last(), t1)
    }
}

/// Whether the ids of entities have lasted through all steps.
pub open spec fn ids_last(steps: Seq<Step>, t: Trace) -> bool
    decreases steps.len(),
{
    steps.len() > 0 ==> ids_last(steps.drop_last(), t) && has_ids_for_a_tick(
        played(steps.drop_last(), t).0,
    )
}

/// In every world that a game comes to, ids are distinct and every ship that is there is fit,
/// whatever clients sent and however many ticks went by.
pub proof fn law_every_world_is_sound(steps: Seq<Step>, t: Trace)
    requires
        forall|i: int|
            0 <= i < steps.len() ==> (#[trigger] steps[i] matches Step::Tick(dt) ==> is_step(dt)),
    ensures
        is_sound(played(steps, t).0),
    decreases steps.len(),
{
    if steps.len() == 0 {
        law_the_first_world_is_sound(t);
    } else {
        let front = steps.drop_last();
        assert forall|i: int| 0 <= i < front.len() implies (#[trigger] front[i] matches Step::Tick(
            dt,
        ) ==> is_step(dt)) by {
            assert(front[i] == steps[i]);
        }
        law_every_world_is_sound(front, t);
        let (w, t1) = played(front, t);
        assert(steps[steps.len() - 1] == steps.last());
        match steps.last() {
            Step::Event(event) => law_events_keep_the_world_sound(w, event, t1),
            Step::Tick(dt) => law_ticks_keep_the_world_sound(w, dt, t1),
        }
    }
}

/// In every world that a game comes to while the ids last, every player who is alive has a ship.
pub proof fn law_every_world_is_crewed(steps: Seq<Step>, t: Trace)
    requires
        ids_last(steps, t),
    ensures
        is_crewed(played(steps, t).0),
    decreases steps.len(),
{
    if steps.len() == 0 {
        law_the_first_world_is_crewed(t);
    } else {
        law_every_world_is_crewed(steps.drop_last(), t);
        let (w, t1) = played(steps.drop_last(), t);
        match steps.last() {
            Step::Event(event) => law_events_keep_every_ship_crewed(w, event, t1),
            Step::Tick(dt) => law_ticks_keep_every_ship_crewed(w, dt, t1),
        }
    }
}

/// The planets of every world that a game comes to while the ids last are those of its first world,
/// each as it was: none is moved, changed, added or removed.
pub proof fn law_planets_are_for_ever(steps: Seq<Step>, t: Trace)
    requires
        ids_last(steps, t),
    ensures
        keeps_planets(played(steps, t).0, statics_spawned(void(), t).0),
    decreases steps.len(),
{
    if steps.len() > 0 {
        law_planets_are_for_ever(steps.drop_last(), t);
        law_every_world_is_crewed(steps.drop_last(), t);
        let (w, t1) = played(steps.drop_last(), t);
        match steps.last() {
            Step::Event(event) => law_events_leave_planets(w, event, t1),
            Step::Tick(dt) => law_planets_stay(w, dt, t1),
        }
        let first = statics_spawned(void(), t).0;
        let r = played(steps, t).0;
        assert(keeps_planets(r, w) && keeps_planets(w, first));
        assert forall|id: u32|
            is_planet(#[trigger] row(r.entities, id)) || is_planet(
                row(first.entities, id),
            ) implies row(r.entities, id) == row(first.entities, id) by {
            assert(is_planet(row(w.entities, id)) || !is_planet(row(w.entities, id)));
        }
    }
}

/// A tick of every world that a game comes to counts itself, leaves the planets as they are, and
/// leaves nothing that has outlived its time or used up its range.
pub proof fn law_ticks_of_a_game(steps: Seq<Step>, dt: Single, t: Trace)
    requires
        ids_last(steps.push(Step::Tick(dt)), t),
    ensures
        ({
            let (w, t1) = played(steps, t);
            let r = updated(w, dt, t1).0;
            &&& r.tick == next_tick(w.tick)
            &&& keeps_planets(r, w)
            &&& all_live(r)
        }),
{
    assert(steps.push(Step::Tick(dt)).drop_last() =~= steps);
    law_every_world_is_crewed(steps, t);
    let (w, t1) = played(steps, t);
    law_ticks_are_counted(w, dt, t1);
    law_planets_stay(w, dt, t1);
    law_nothing_outlives_its_time(w, dt, t1);
}

} // verus!
