//! The rules as the players know them.
use vstd::arithmetic::power2::*;
use vstd::prelude::*;

use crate::collisions::{first_met, lemma_first_met, Contact};
use crate::controls::{input_of, switched, Controls, Keys, Pointer};
use crate::damage::{
    absorbed, asteroid_damaged, credited, fallen, felled, fuel_after, is_big, killed, more, ship_of,
    smalls_spawned, split, struck,
};
use crate::game::{
    class_stats, cloaks, full_turn, half_turn, world_side, EntityKind, PlayerId, ShipClass,
};
use crate::helm::{normal_angle, shifted};
use crate::link::{link_after, LinkStage};
use crate::oracle::{
    is_fair, law_what_is_left_was_asked_for, past_count, told, told_count, Ask, Event, Trace,
};
use crate::order::{
    law_order_is_order_of_values, law_small_wholes_are_exact, law_sum_never_crosses,
    law_wrapped_in_range, law_wrapping_is_congruent, lemma_negated, lemma_small_wholes_order,
    lemma_zero,
};
use crate::phase::LoginInfo;
use crate::pilot::{beam_on, beam_shown, piloted, torpedo_due, tuned};
use crate::protocol::{ClientMessage, PlayerInput, PROTOCOL_VERSION};
use crate::rounding::round_bits;
use crate::session::{law_cloaked_ships_are_not_sent, next_stage, opens, seen, Action, Stage};
use crate::single::{
    difference, from_whole, le, lemma_units_round, lt, negated, product, same, sum, wrapped, zero,
    Single,
};
use crate::table::{
    distinct, find, law_put_is_found, law_put_keeps_distinct, law_put_leaves_the_others,
    law_without_keeps_distinct, law_without_leaves_the_others, lemma_find, lemma_not_found, put,
    row, without, Keyed,
};
use crate::tick::{
    big_count, drifted, fresh, reclassed, replenished, respawned, state_of, steered_by, GameEvent,
};
use crate::world::{
    any_angle, any_place, asteroid_at, big_spawned, debris_at, drifter, drifter_asks, entity_of,
    exploded, explosion_at, next_id, piece_spawned, pieces_spawned, player_of, ship_at,
    ship_spawned, small_radius, without_entity, Death, ServerEntity, ServerPlayer, World,
};

verus! {

/// A number taken from itself leaves nothing.
proof fn lemma_difference_same(a: Single)
    requires
        a.is_finite(),
    ensures
        difference(a, a) == zero(),
{
    reveal(sum);
    lemma_negated(a);
}

/// Taking nothing away changes nothing.
proof fn lemma_difference_zero(a: Single)
    requires
        a.is_finite(),
        !a.neg(),
    ensures
        difference(a, zero()) == a,
{
    reveal(sum);
    lemma_zero();
    lemma_negated(zero());
    lemma_units_round(a);
}

/// Shields that are up take a blow that is no greater than they are, and the hull takes nothing.
pub proof fn law_shields_absorb_damage_before_hull(p: ServerPlayer, dmg: Single)
    requires
        p.shields_on,
        !p.cloaked,
        p.hull.is_finite(),
        !p.hull.neg(),
        dmg.is_finite(),
        lt(zero(), dmg),
        le(dmg, p.shields),
    ensures
        struck(p, dmg).hull == p.hull,
        struck(p, dmg).shields == difference(p.shields, dmg),
        struck(p, dmg).shield_regen_cooldown == from_whole(5),
{
    if lt(p.shields, dmg) {
    } else {
        assert(absorbed(p, dmg) == dmg);
    }
    lemma_difference_same(dmg);
    lemma_difference_zero(p.hull);
}

/// Of a blow that is greater than the shields, what they cannot take goes to the hull.
pub proof fn law_excess_damage_goes_to_the_hull(p: ServerPlayer, dmg: Single)
    requires
        p.shields_on,
        !p.cloaked,
        p.shields.is_finite(),
        lt(zero(), p.shields),
        lt(p.shields, dmg),
    ensures
        struck(p, dmg).hull == difference(p.hull, difference(dmg, p.shields)),
        struck(p, dmg).shields == zero(),
{
    lemma_difference_same(p.shields);
}

/// Without shields, or behind a cloak, the hull takes all of a blow.  Nothing else changes but that
/// the shields must wait five seconds before they regenerate.
pub proof fn law_damage_bypasses_shields_that_are_off(p: ServerPlayer, dmg: Single)
    requires
        !p.shields_on || p.cloaked,
        dmg.is_finite(),
        lt(zero(), dmg),
    ensures
        struck(p, dmg) == (ServerPlayer {
            hull: difference(p.hull, dmg),
            shield_regen_cooldown: from_whole(5),
            ..p
        }),
{
    lemma_zero();
    lemma_difference_zero(dmg);
}

/// Shields that used up the fuel under fire collapse.  They stay down through every tick, and
/// through every input that keeps them switched on.
pub proof fn law_collapsed_shields_stay_down(
    p: ServerPlayer,
    dmg: Single,
    burnt: Single,
    dt: Single,
    input: PlayerInput,
)
    ensures
        lt(zero(), absorbed(p, dmg)) && same(fuel_after(p, dmg), zero()) ==> !struck(
            p,
            dmg,
        ).shields_on && struck(p, dmg).shields_collapsed,
        p.shields_collapsed ==> !tuned(p, burnt, dt).shields_on && tuned(
            p,
            burnt,
            dt,
        ).shields_collapsed,
        p.shields_collapsed && input.shields_active ==> steered_by(p, input).shields_collapsed,
{
}

/// Once their pilot has switched collapsed shields off, they come up when switched on again,
/// unless the ship hides.
pub proof fn law_shields_come_back_when_switched(
    p: ServerPlayer,
    off: PlayerInput,
    on: PlayerInput,
    burnt: Single,
    dt: Single,
)
    requires
        !off.shields_active,
        on.shields_active,
        !on.cloak_active,
        p.last_input_seq < off.sequence < on.sequence,
    ensures
        tuned(steered_by(steered_by(p, off), on), burnt, dt).shields_on,
{
}

/// Shields regenerate only when they are up and the ship has not been hit for five seconds: every
/// blow, whatever it meets, starts the wait anew.
pub proof fn law_shields_wait_before_regenerating(
    p: ServerPlayer,
    dmg: Single,
    burnt: Single,
    dt: Single,
)
    ensures
        lt(zero(), dmg) || lt(zero(), absorbed(p, dmg)) ==> struck(p, dmg).shield_regen_cooldown
            == from_whole(5),
        lt(zero(), p.shield_regen_cooldown) ==> tuned(p, burnt, dt).shields == p.shields,
        !tuned(p, burnt, dt).shields_on ==> tuned(p, burnt, dt).shields == p.shields,
{
}

/// A cloaked ship fires neither beam nor torpedo, and its shields take nothing.
pub proof fn law_cloaked_ships_hold_their_fire(p: ServerPlayer, dmg: Single)
    requires
        p.cloaked,
    ensures
        !beam_on(p),
        !torpedo_due(p),
        absorbed(p, dmg) == zero(),
{
}

/// A ship is cloaked only while its pilot asks for it, its class can, and fuel is left; cloaking
/// forces the shields down.
pub proof fn law_cloaking_needs_a_device_and_fuel(p: ServerPlayer, burnt: Single, dt: Single)
    requires
        tuned(p, burnt, dt).cloaked,
    ensures
        p.input.cloak_active,
        cloaks(p.ship_class),
        lt(zero(), tuned(p, burnt, dt).fuel),
        !tuned(p, burnt, dt).shields_on,
{
}

/// What the server tells a player of the world never shows where another player's cloaked ship is.
pub proof fn law_cloaked_ships_stay_hidden(w: World, viewer: u32, e: ServerEntity, owner: u32)
    requires
        e.kind == EntityKind::Ship,
        e.owner == Some(owner),
        owner != viewer,
        player_of(w, owner) matches Some(p) && p.cloaked,
    ensures
        !seen(w.entities.map_values(|s: ServerEntity| state_of(w, s)), viewer).contains(
            state_of(w, e),
        ),
{
    law_cloaked_ships_are_not_sent(
        w.entities.map_values(|s: ServerEntity| state_of(w, s)),
        viewer,
        state_of(w, e),
    );
}

/// An input is taken if and only if it raises the sequence number, which never falls.
pub proof fn law_stale_inputs_are_ignored(p: ServerPlayer, input: PlayerInput)
    ensures
        input.sequence <= p.last_input_seq ==> steered_by(p, input) == p,
        input.sequence > p.last_input_seq ==> steered_by(p, input).input == input,
        steered_by(p, input).last_input_seq >= p.last_input_seq,
{
}

/// The server takes every input of a client that numbers its inputs, until the counter is full.
pub proof fn law_every_numbered_input_is_taken(
    p: ServerPlayer,
    c: Controls,
    k: Keys,
    pointer: Pointer,
    t: Trace,
)
    requires
        p.last_input_seq <= c.input_seq < u32::MAX,
    ensures
        ({
            let input = input_of(switched(c, k), k, pointer, t).0;
            let q = steered_by(p, input);
            q.input == input && q.last_input_seq <= switched(c, k).input_seq
        }),
{
}

/// A client of the server's own version that pings and then greets is let in, and both sides then
/// know it by the same id.
pub proof fn law_handshakes_of_one_version_succeed(
    id: u32,
    login: LoginInfo,
    server_name: String,
    admitted: Action,
)
    requires
        opens(
            Stage::Greeted,
            ClientMessage::Hello { version: PROTOCOL_VERSION, username: login.username },
            id,
            server_name@,
            admitted,
        ),
    ensures
        ({
            let hello = ClientMessage::Hello {
                version: PROTOCOL_VERSION,
                username: login.username,
            };
            &&& next_stage(next_stage(Stage::Fresh, ClientMessage::Ping, id), hello, id)
                == Stage::Joined(id)
            &&& admitted matches Action::Admit(welcome, event) && event == (
            GameEvent::PlayerJoined { id, username: login.username }) && link_after(
                LinkStage::Greeted,
                welcome,
            ) == LinkStage::Open(id)
        }),
{
}

/// A request for a torpedo is kept through every later input.
pub proof fn law_torpedo_requests_are_kept(p: ServerPlayer, first: PlayerInput, later: PlayerInput)
    requires
        first.fire_primary,
        first.sequence > p.last_input_seq,
    ensures
        steered_by(steered_by(p, first), later).pending_torpedo_fire,
{
}

/// The class of a ship that is there does not change.
pub proof fn law_class_changes_only_without_a_ship(p: ServerPlayer, class: ShipClass)
    ensures
        p.entity_id is Some ==> reclassed(p, class) == p,
        p.entity_id is None ==> reclassed(p, class).ship_class == class,
{
}

/// A ship that comes back has everything at the maximum of its class, and its shields up.
pub proof fn law_respawning_resets_everything(w: World, id: u32, t: Trace)
    requires
        distinct(w.players),
        distinct(w.entities),
        player_of(w, id) is Some,
    ensures
        ({
            let p = player_of(w, id)->0;
            let w1 = respawned(w, id, t).0;
            let stats = class_stats(p.ship_class);
            &&& player_of(w1, id) matches Some(q) && q.entity_id == Some(w.next_entity_id)
                && q.ship_class == p.ship_class && q.hull == stats.max_hull && q.shields
                == stats.max_shields && q.fuel == stats.fuel_capacity && q.torpedo_count
                == stats.max_torpedoes && q.shields_on && !q.shields_collapsed && !q.cloaked
            &&& entity_of(w1, w.next_entity_id) matches Some(e) && e.owner == Some(id)
        }),
{
    let e = ship_at(
        w.next_entity_id,
        id,
        told(t, 0, any_place()),
        told(t, 1, any_place()),
        told(t, 2, any_angle()),
    );
    law_put_keeps_distinct(w.entities, e);
    lemma_find(w.players, id);
    let p = player_of(w, id)->0;
    law_put_keeps_distinct(w.players, fresh(p, w.next_entity_id));
}

/// What moves stays in the world, whose edges meet.
pub proof fn law_moves_stay_in_the_world(x: Single, dx: Single)
    requires
        sum(x, dx).is_finite(),
    ensures
        le(zero(), shifted(x, dx)),
        le(shifted(x, dx), world_side()),
{
    law_small_wholes_are_exact(10_000);
    law_small_wholes_are_exact(0);
    lemma_small_wholes_order(0, 10_000);
    lemma_zero();
    law_order_is_order_of_values(zero(), from_whole(10_000));
    law_order_is_order_of_values(from_whole(0), from_whole(10_000));
    law_wrapped_in_range(sum(x, dx), world_side());
}

/// What leaves the world at one edge comes back at the other: a coordinate is the number nearest to
/// what its sum with the way leaves when it is divided by the side of the world.
pub proof fn law_moves_go_round_the_world(x: Single, dx: Single)
    requires
        sum(x, dx).is_finite(),
    ensures
        shifted(x, dx).mag() == round_bits(
            (sum(x, dx).value() % world_side().value()) as nat,
            1,
        ),
        sum(x, dx).value() >= 0 ==> shifted(x, dx).value() == sum(x, dx).value()
            % world_side().value(),
{
    law_small_wholes_are_exact(10_000);
    lemma_small_wholes_order(0, 10_000);
    law_small_wholes_are_exact(0);
    lemma_zero();
    law_order_is_order_of_values(zero(), from_whole(10_000));
    law_order_is_order_of_values(from_whole(0), from_whole(10_000));
    law_wrapping_is_congruent(sum(x, dx), world_side());
}

/// A player without a ship is left alone by a tick, and so is the world round the player.
pub proof fn law_nothing_happens_without_a_ship(w: World, id: PlayerId, dt: Single, t: Trace)
    requires
        player_of(w, id) matches Some(p) ==> (p.entity_id matches Some(eid) ==> entity_of(
            w,
            eid,
        ) is None),
    ensures
        piloted(w, id, dt, t) == (w, t),
{
}

/// Ships appear at least 500 units from every edge, where the source keeps its random numbers
/// within their bounds.
pub proof fn law_ships_appear_off_the_edges(w: World, player: PlayerId, t: Trace)
    requires
        is_fair(t),
        ship_spawned(w, player, t).2.len() > 0,
    ensures
        entity_of(ship_spawned(w, player, t).0, w.next_entity_id) matches Some(e) && {
            &&& e.kind == EntityKind::Ship
            &&& e.owner == Some(player)
            &&& le(from_whole(500), e.x) && lt(e.x, from_whole(9500))
            &&& le(from_whole(500), e.y) && lt(e.y, from_whole(9500))
        },
{
    let qs = seq![any_place(), any_place(), any_angle()];
    law_what_is_left_was_asked_for(t, qs);
    assert(t[0] == Event::Number(qs[0], told(t, 0, qs[0])));
    assert(t[1] == Event::Number(qs[1], told(t, 1, qs[1])));
    lemma_small_wholes_order(500, 9500);
    let e = ship_at(
        w.next_entity_id,
        player,
        told(t, 0, any_place()),
        told(t, 1, any_place()),
        told(t, 2, any_angle()),
    );
    law_put_is_found(w.entities, e);
}

/// Big asteroids appear at least 500 units from every edge, where the source keeps its random
/// numbers within their bounds.
pub proof fn law_big_asteroids_appear_off_the_edges(w: World, t: Trace)
    requires
        is_fair(t),
        big_spawned(w, t).1.len() > 0,
    ensures
        entity_of(big_spawned(w, t).0, w.next_entity_id) matches Some(e) && {
            &&& e.kind == EntityKind::Asteroid
            &&& le(from_whole(500), e.x) && lt(e.x, from_whole(9500))
            &&& le(from_whole(500), e.y) && lt(e.y, from_whole(9500))
        },
{
    let qs = drifter_asks(t);
    law_what_is_left_was_asked_for(t, qs);
    assert(t[2] == Event::Number(qs[2], told(t, 2, qs[2])));
    assert(t[3] == Event::Number(qs[3], told(t, 3, qs[3])));
    lemma_small_wholes_order(500, 9500);
    law_put_is_found(w.entities, drifter(w.next_entity_id, t));
}

/// A full turn is twice half a turn.
proof fn lemma_turns()
    ensures
        full_turn().is_finite(),
        half_turn().is_finite(),
        lt(zero(), full_turn()),
        half_turn().value() > 0,
        full_turn().value() == 2 * half_turn().value(),
{
    lemma_zero();
    let a = full_turn();
    let b = half_turn();
    assert(b.exponent() == 127);
    assert(a.exponent() == 128);
    assert(b.significand() == a.significand());
    lemma_pow2_unfold(128);
    lemma_pow2_pos(127);
    let m = b.significand();
    let p = pow2(127);
    assert(m * (2 * p) == 2 * (m * p)) by (nonlinear_arith);
    assert(m * p > 0) by (nonlinear_arith)
        requires
            m > 0,
            p > 0,
    ;
}

/// Headings stay between minus half a turn and half a turn.
pub proof fn law_headings_are_normal(a: Single)
    requires
        sum(a, half_turn()).is_finite(),
    ensures
        le(negated(half_turn()), normal_angle(a)),
        le(normal_angle(a), half_turn()),
{
    lemma_turns();
    lemma_zero();
    let r = wrapped(sum(a, half_turn()), full_turn());
    law_wrapped_in_range(sum(a, half_turn()), full_turn());
    lemma_negated(half_turn());
    law_order_is_order_of_values(zero(), r);
    law_order_is_order_of_values(r, full_turn());
    law_sum_never_crosses(r, negated(half_turn()), half_turn());
    law_sum_never_crosses(r, negated(half_turn()), negated(half_turn()));
}

/// A projectile never hits a ship of the player who fired it.
pub proof fn law_projectiles_pass_their_own_ship(p: ServerEntity, ships: Seq<ServerEntity>)
    ensures
        first_met(Contact::ProjectileShip, p, ships) matches Some(s) ==> s.owner != p.owner,
{
    lemma_first_met(Contact::ProjectileShip, p, ships);
}

/// A torpedo flies straight on: its velocity and its heading do not change.
pub proof fn law_torpedoes_fly_straight(e: ServerEntity, dt: Single, t: Trace)
    requires
        e.kind == EntityKind::Torpedo,
    ensures
        ({
            let r = drifted(e, dt, t).0;
            r.vx == e.vx && r.vy == e.vy && r.angle == e.angle && r.x == shifted(
                e.x,
                product(e.vx, dt),
            ) && r.y == shifted(e.y, product(e.vy, dt))
        }),
{
}

/// What has no health, such as a planet, no damage destroys.
pub proof fn law_things_without_health_are_indestructible(
    w: World,
    id: u32,
    dmg: Single,
    scorer: Option<u32>,
    t: Trace,
)
    requires
        entity_of(w, id) matches Some(e) && e.health is None,
    ensures
        asteroid_damaged(w, id, dmg, scorer, t) == (w, t),
{
}

/// A beam that has just appeared stays for at least a second.
pub proof fn law_new_beams_stay_for_a_second(
    w: World,
    p: ServerPlayer,
    x: Single,
    y: Single,
    angle: Single,
    length: Single,
)
    requires
        p.phaser_beam_entity is None,
    ensures
        le(from_whole(1), beam_shown(w, p, x, y, angle, length).1.phaser_min_remaining),
        beam_shown(w, p, x, y, angle, length).1.phaser_beam_entity == Some(w.next_entity_id),
{
    law_small_wholes_are_exact(1);
}

/// A lingering beam stays on though the button is released, while there is fuel and the ship does
/// not hide.
pub proof fn law_lingering_beams_stay_on(p: ServerPlayer)
    requires
        lt(zero(), p.phaser_min_remaining),
        lt(zero(), p.fuel),
        !p.cloaked,
    ensures
        beam_on(p),
{
}

/// Every id in use is below the next one to be given, and five more can be given.
pub open spec fn has_fresh_ids(w: World) -> bool {
    &&& w.next_entity_id <= u32::MAX - 5
    &&& forall|i: int|
        0 <= i < w.entities.len() ==> (#[trigger] w.entities[i]).id < w.next_entity_id
}

/// Wreckage changes nothing but the entities under new ids.
proof fn lemma_pieces_apart(
    w: World,
    n: nat,
    x: Single,
    y: Single,
    vx: Single,
    vy: Single,
    t: Trace,
)
    requires
        w.next_entity_id + n <= u32::MAX,
    ensures
        ({
            let r = pieces_spawned(w, n, x, y, vx, vy, t).0;
            &&& r.players == w.players
            &&& r.announcements == w.announcements
            &&& r.next_entity_id == w.next_entity_id + n
            &&& forall|id: u32|
                id < w.next_entity_id ==> #[trigger] row(r.entities, id) == row(w.entities, id)
        }),
    decreases n,
{
    if n > 0 {
        lemma_pieces_apart(w, (n - 1) as nat, x, y, vx, vy, t);
        let (w1, t1) = pieces_spawned(w, (n - 1) as nat, x, y, vx, vy, t);
        let (w2, t2) = piece_spawned(w1, x, y, vx, vy, t1);
        assert forall|id: u32| id < w.next_entity_id implies #[trigger] row(w2.entities, id)
            == row(w.entities, id) by {
            let spread = told(t1, 0, any_angle());
            let speed = told(t1, 1, Ask::Uniform(from_whole(30), from_whole(120)));
            let spin = told(t1, 2, Ask::Uniform(from_whole(-3), from_whole(3)));
            let c = told(t1, 3, Ask::Cos(spread));
            let s = told(t1, 4, Ask::Sin(spread));
            let angle = told(t1, 5, any_angle());
            let e = debris_at(
                w1.next_entity_id,
                x,
                y,
                sum(vx, product(c, speed)),
                sum(vy, product(s, speed)),
                angle,
                spin,
            );
            law_put_leaves_the_others(w1.entities, e, id);
        }
    }
}

/// A kill changes the accounts of the victim and the killer only, and no entity under an old id
/// but the victim's ship and beam.
pub proof fn lemma_killed_apart(
    w: World,
    victim: u32,
    killer: Option<u32>,
    self_destruct: bool,
    t: Trace,
)
    requires
        w.next_entity_id <= u32::MAX - 5,
    ensures
        ({
            let w1 = felled(w, victim, self_destruct);
            let r = killed(w, victim, killer, self_destruct, t).0;
            &&& r.players == credited(w1, killer).players
            &&& r.announcements == w.announcements.push(Death { victim, killer, self_destruct })
            &&& forall|id: u32|
                id < w.next_entity_id ==> #[trigger] row(r.entities, id) == row(w1.entities, id)
        }),
{
    let w1 = felled(w, victim, self_destruct);
    let w2 = credited(w1, killer);
    let (x, y, vx, vy) = match ship_of(w, victim) {
        Some(e) => (e.x, e.y, e.vx, e.vy),
        None => (zero(), zero(), zero(), zero()),
    };
    let w3 = exploded(w2, x, y);
    lemma_pieces_apart(w3, 4, x, y, vx, vy, t);
    let r = killed(w, victim, killer, self_destruct, t).0;
    assert forall|id: u32| id < w.next_entity_id implies #[trigger] row(r.entities, id) == row(
        w1.entities,
        id,
    ) by {
        law_put_leaves_the_others(w2.entities, explosion_at(w2.next_entity_id, x, y), id);
        assert(row(r.entities, id) == row(w3.entities, id));
    }
}

/// The ship of a victim is gone.
proof fn lemma_felled_gone(w: World, victim: u32, self_destruct: bool)
    requires
        distinct(w.entities),
    ensures
        player_of(w, victim) matches Some(p) ==> (p.entity_id matches Some(eid) ==> row(
            felled(w, victim, self_destruct).entities,
            eid,
        ) is None),
{
    if player_of(w, victim) is Some {
        let p = player_of(w, victim)->0;
        if p.entity_id is Some {
            let eid = p.entity_id->0;
            law_without_keeps_distinct(w.entities, eid);
            let es = without(w.entities, eid);
            if p.phaser_beam_entity is Some && p.phaser_beam_entity->0 != eid {
                law_without_leaves_the_others(es, p.phaser_beam_entity->0, eid);
            }
        }
    }
}

/// The accounts after a kill.
proof fn lemma_accounts(w: World, victim: u32, killer: Option<u32>, self_destruct: bool)
    requires
        distinct(w.players),
        player_of(w, victim) is Some,
    ensures
        ({
            let p = player_of(w, victim)->0;
            let ps = credited(felled(w, victim, self_destruct), killer).players;
            &&& row(ps, victim) matches Some(q) && q.entity_id is None && q.deaths == next_id(
                p.deaths,
            ) && q.respawn_timer == fallen(p, self_destruct).respawn_timer
            &&& killer matches Some(k) ==> k != victim ==> (player_of(w, k) matches Some(a) ==> (
            row(ps, k) == Some(ServerPlayer { kills: next_id(a.kills), ..a })))
            &&& forall|id: u32|
                id != victim && killer != Some(id) ==> #[trigger] row(ps, id) == player_of(w, id)
        }),
{
    let p = player_of(w, victim)->0;
    let q = fallen(p, self_destruct);
    lemma_find(w.players, victim);
    law_put_keeps_distinct(w.players, q);
    let w1 = felled(w, victim, self_destruct);
    let ps = put(w.players, q);
    assert(w1.players == ps);
    assert forall|id: u32| id != victim implies #[trigger] row(ps, id) == player_of(w, id) by {
        law_put_leaves_the_others(w.players, q, id);
    }
    if killer is Some {
        let k = killer->0;
        lemma_find(ps, k);
        assert(k != victim ==> row(ps, k) == player_of(w, k));
        if row(ps, k) is Some {
            let a = row(ps, k)->0;
            let b = ServerPlayer { kills: next_id(a.kills), ..a };
            law_put_keeps_distinct(ps, b);
            assert forall|id: u32| id != k implies #[trigger] row(put(ps, b), id) == row(
                ps,
                id,
            ) by {
                law_put_leaves_the_others(ps, b, id);
            }
        }
    }
}

/// The death of a player: the ship is gone, a death is counted, and unless the player wanted it,
/// the ship comes back in five seconds.  A killer gets the credit, nobody else's account changes,
/// and the death is announced.
pub proof fn law_deaths_are_counted_and_credited(
    w: World,
    victim: u32,
    killer: Option<u32>,
    self_destruct: bool,
    t: Trace,
)
    requires
        distinct(w.players),
        distinct(w.entities),
        w.next_entity_id <= u32::MAX - 5,
        player_of(w, victim) is Some,
    ensures
        ({
            let p = player_of(w, victim)->0;
            let r = killed(w, victim, killer, self_destruct, t).0;
            &&& player_of(r, victim) matches Some(q) && q.entity_id is None && q.deaths == next_id(
                p.deaths,
            ) && q.respawn_timer == if self_destruct {
                p.respawn_timer
            } else {
                Some(from_whole(5))
            }
            &&& p.entity_id matches Some(eid) ==> eid < w.next_entity_id ==> entity_of(
                r,
                eid,
            ) is None
            &&& killer matches Some(k) ==> k != victim ==> (player_of(w, k) matches Some(a) ==> (
            player_of(r, k) matches Some(b) && b == ServerPlayer { kills: next_id(a.kills), ..a }))
            &&& forall|id: u32|
                id != victim && killer != Some(id) ==> #[trigger] player_of(r, id) == player_of(
                    w,
                    id,
                )
            &&& r.announcements == w.announcements.push(Death { victim, killer, self_destruct })
        }),
{
    lemma_killed_apart(w, victim, killer, self_destruct, t);
    lemma_felled_gone(w, victim, self_destruct);
    lemma_accounts(w, victim, killer, self_destruct);
    let r = killed(w, victim, killer, self_destruct, t).0;
    assert forall|id: u32| id != victim && killer != Some(id) implies #[trigger] player_of(r, id)
        == player_of(w, id) by {
        assert(row(r.players, id) == player_of(w, id));
    }
    let p = player_of(w, victim)->0;
    if p.entity_id is Some && p.entity_id->0 < w.next_entity_id {
        assert(row(r.entities, p.entity_id->0) is None);
    }
}

/// A new row under a new id goes to the end.
proof fn lemma_put_at_end(s: Seq<ServerEntity>, e: ServerEntity)
    requires
        forall|i: int| 0 <= i < s.len() ==> (#[trigger] s[i]).id != e.id,
    ensures
        put(s, e) == s.push(e),
{
    lemma_not_found(s, e.id);
}

/// Small asteroids come on top of what was there, under new ids.
proof fn lemma_smalls_join(w: World, n: nat, x: Single, y: Single, t: Trace)
    requires
        w.next_entity_id + n <= u32::MAX,
        forall|i: int|
            0 <= i < w.entities.len() ==> (#[trigger] w.entities[i]).id < w.next_entity_id,
    ensures
        ({
            let r = smalls_spawned(w, n, x, y, t).0;
            &&& r.players == w.players
            &&& r.next_entity_id == w.next_entity_id + n
            &&& r.entities.len() == w.entities.len() + n
            &&& r.entities.take(w.entities.len() as int) == w.entities
            &&& forall|i: int|
                w.entities.len() <= i < r.entities.len() ==> (#[trigger] r.entities[i]).kind
                    == EntityKind::Asteroid && r.entities[i].asteroid_radius == Some(
                    small_radius(),
                ) && r.entities[i].x == x && r.entities[i].y == y && r.entities[i].id
                    >= w.next_entity_id
            &&& forall|i: int|
                0 <= i < r.entities.len() ==> (#[trigger] r.entities[i]).id < r.next_entity_id
        }),
    decreases n,
{
    if n > 0 {
        lemma_smalls_join(w, (n - 1) as nat, x, y, t);
        let (w1, t1) = smalls_spawned(w, (n - 1) as nat, x, y, t);
        let speed = told(t1, 1, Ask::Uniform(from_whole(30), from_whole(80)));
        let drift = told(t1, 0, any_angle());
        let c = told(t1, 2, Ask::Cos(drift));
        let s = told(t1, 3, Ask::Sin(drift));
        let angle = told(t1, 4, any_angle());
        let e = asteroid_at(
            w1.next_entity_id,
            false,
            x,
            y,
            product(c, speed),
            product(s, speed),
            angle,
        );
        lemma_put_at_end(w1.entities, e);
        let r = smalls_spawned(w, n, x, y, t).0;
        assert(r.entities == w1.entities.push(e));
        assert(r.entities.take(w.entities.len() as int) =~= w1.entities.take(
            w.entities.len() as int,
        ));
    } else {
        assert(w.entities.take(w.entities.len() as int) =~= w.entities);
    }
}

/// A big asteroid that breaks gives way to an explosion and one to four small ones in its place,
/// whatever chance says, and its destroyer gets three points.
pub proof fn law_big_asteroids_break_into_one_to_four(
    w: World,
    e: ServerEntity,
    scorer: u32,
    t: Trace,
)
    requires
        distinct(w.entities),
        distinct(w.players),
        has_fresh_ids(w),
        entity_of(w, e.id) is Some,
        player_of(w, scorer) is Some,
    ensures
        ({
            let r = split(w, e, Some(scorer), t).0;
            let n = told_count(t, 0, 1, 4);
            let p = player_of(w, scorer)->0;
            &&& 1 <= n <= 4
            &&& r.entities.len() == w.entities.len() + n
            &&& entity_of(r, e.id) is None
            &&& r.entities[w.entities.len() - 1].kind == EntityKind::Explosion
            &&& forall|i: int|
                w.entities.len() <= i < r.entities.len() ==> (#[trigger] r.entities[i]).kind
                    == EntityKind::Asteroid && r.entities[i].asteroid_radius == Some(
                    small_radius(),
                ) && r.entities[i].x == e.x && r.entities[i].y == e.y
            &&& player_of(r, scorer) == Some(ServerPlayer { score: more(p.score, 3), ..p })
        }),
{
    let n = told_count(t, 0, 1, 4);
    lemma_find(w.entities, e.id);
    law_without_keeps_distinct(w.entities, e.id);
    let w1 = without_entity(w, e.id);
    let k = find(w.entities, e.id)->0;
    assert forall|i: int| 0 <= i < w1.entities.len() implies (#[trigger] w1.entities[i]).id
        < w1.next_entity_id by {
        assert(w1.entities[i] == w.entities[if i < k {
            i
        } else {
            i + 1
        }]);
    }
    let b = explosion_at(w1.next_entity_id, e.x, e.y);
    lemma_put_at_end(w1.entities, b);
    let w2 = exploded(w1, e.x, e.y);
    assert(w2.entities == w1.entities.push(b));
    lemma_smalls_join(w2, n as nat, e.x, e.y, past_count(t, 1, 4));
    let w3 = smalls_spawned(w2, n as nat, e.x, e.y, past_count(t, 1, 4)).0;
    let r = split(w, e, Some(scorer), t).0;
    lemma_find(w.players, scorer);
    assert(r.entities == w3.entities);
    assert(w3.entities[w1.entities.len() as int] == w3.entities.take(
        w2.entities.len() as int,
    )[w1.entities.len() as int]);
    let p = player_of(w, scorer)->0;
    let q = ServerPlayer { score: more(p.score, 3), ..p };
    law_put_keeps_distinct(w.players, q);
    lemma_find(w1.entities, e.id);
    assert forall|i: int| 0 <= i < r.entities.len() implies (#[trigger] r.entities[i]).id
        != e.id by {
        if i < w1.entities.len() {
            assert(r.entities[i] == w3.entities.take(w2.entities.len() as int)[i]);
            assert(w1.entities[i].key() != e.id);
        } else if i == w1.entities.len() {
            assert(r.entities[i] == b);
        } else {
            assert(r.entities[i].id >= w2.next_entity_id);
        }
    }
    lemma_not_found(r.entities, e.id);
}

/// Where fewer than five big asteroids are left, one more comes; otherwise nothing changes.
pub proof fn law_big_asteroids_are_replenished(w: World, t: Trace)
    requires
        has_fresh_ids(w),
    ensures
        big_count(w.entities) < 5 ==> big_count(replenished(w, t).0.entities) == big_count(
            w.entities,
        ) + 1,
        big_count(w.entities) >= 5 ==> replenished(w, t).0 == w,
{
    let e = drifter(w.next_entity_id, t);
    lemma_put_at_end(w.entities, e);
    assert(w.entities.push(e).drop_last() =~= w.entities);
    law_small_wholes_are_exact(60);
    assert(is_big(e));
}

} // verus!
