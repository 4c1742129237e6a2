use std::cell::Cell;

use fleet_commander::game::{EntityKind, PlayerId, ShipClass};
use fleet_commander::helm::{choose_heading, normalise, shift};
use fleet_commander::oracle::{Ask, Oracle};
use fleet_commander::protocol::{PlayerInput, ServerMessage};
use fleet_commander::single::Single;
use fleet_commander::tick::GameEvent;
use fleet_commander::world::{GameState, ServerEntity, ServerPlayer};

fn s(x: f32) -> Single {
    Single::from_bits(x.to_bits())
}

fn f(x: Single) -> f32 {
    f32::from_bits(x.to_bits())
}

fn source() -> impl Fn(Ask) -> Single {
    let seed: Cell<u64> = Cell::new(0x9e37_79b9_7f4a_7c15);
    move |q: Ask| match q {
        Ask::Cos(a) => s(f(a).cos()),
        Ask::Sin(a) => s(f(a).sin()),
        Ask::Atan2(y, x) => s(f(y).atan2(f(x))),
        Ask::Hypot(x, y) => s(f(x).hypot(f(y))),
        Ask::Pow(x, y) => s(f(x).powf(f(y))),
        Ask::Uniform(low, high) => {
            let mut n = seed.get();
            n ^= n << 13;
            n ^= n >> 7;
            n ^= n << 17;
            seed.set(n);
            let unit = (n >> 40) as f32 / (1u64 << 24) as f32;
            s(f(low) + unit * (f(high) - f(low)))
        }
    }
}

const DT: f32 = 0.05;

/// A game without asteroids and planets.
fn empty_game<F: Fn(Ask) -> Single>(oracle: &mut Oracle<F>) -> GameState {
    let mut state = GameState::new(oracle);
    state.entities.rows.clear();
    state
}

fn join<F: Fn(Ask) -> Single>(
    state: &mut GameState,
    pid: PlayerId,
    x: f32,
    y: f32,
    oracle: &mut Oracle<F>,
) -> u32 {
    state.handle_event(
        GameEvent::PlayerJoined { id: pid, username: format!("PILOT_{pid}") },
        oracle,
    );
    player_mut(state, pid).respawn_timer = None;
    state.respawn_player(pid, oracle);
    let eid = player(state, pid).entity_id.unwrap();
    let e = entity_mut(state, eid);
    e.x = s(x);
    e.y = s(y);
    e.angle = s(0.0);
    eid
}

fn player(state: &GameState, pid: PlayerId) -> &ServerPlayer {
    state.players.get(pid).unwrap()
}

fn player_mut(state: &mut GameState, pid: PlayerId) -> &mut ServerPlayer {
    let i = state.players.position(pid).unwrap();
    &mut state.players.rows[i]
}

fn entity(state: &GameState, id: u32) -> ServerEntity {
    state.entity(id).unwrap()
}

fn entity_mut(state: &mut GameState, id: u32) -> &mut ServerEntity {
    let i = state.entities.position(id).unwrap();
    &mut state.entities.rows[i]
}

fn count(state: &GameState, kind: EntityKind) -> usize {
    state.entities.rows.iter().filter(|e| e.kind == kind).count()
}

fn send<F: Fn(Ask) -> Single>(
    state: &mut GameState,
    pid: PlayerId,
    input: PlayerInput,
    oracle: &mut Oracle<F>,
) {
    state.handle_event(GameEvent::PlayerInput { id: pid, input }, oracle);
}

fn input(sequence: u32) -> PlayerInput {
    PlayerInput { sequence, shields_active: true, ..PlayerInput::default() }
}

fn rock(id: u32, big: bool, x: f32, y: f32, vx: f32, vy: f32) -> ServerEntity {
    ServerEntity::asteroid(id, big, s(x), s(y), s(vx), s(vy), s(0.0))
}

// ── Shields ───────────────────────────────────────────────────────────────────

#[test]
fn excess_damage_goes_to_the_hull() {
    let mut oracle = Oracle::new(source());
    let mut state = empty_game(&mut oracle);
    join(&mut state, 1, 5000.0, 5000.0, &mut oracle);
    state.apply_damage(1, s(75.0), None, false, &mut oracle);
    let p = player(&state, 1);
    assert_eq!(f(p.shields), 0.0);
    assert_eq!(f(p.hull), 85.0);
    assert_eq!(f(p.fuel), 240.0);
}

#[test]
fn shields_cost_fuel_at_the_rate_of_the_class() {
    let mut oracle = Oracle::new(source());
    let mut state = empty_game(&mut oracle);
    join(&mut state, 1, 5000.0, 5000.0, &mut oracle);
    player_mut(&mut state, 1).ship_class = ShipClass::Cruiser;
    state.respawn_player(1, &mut oracle);
    state.apply_damage(1, s(50.0), None, false, &mut oracle);
    assert_eq!(f(player(&state, 1).fuel), 400.0 - 50.0 * 0.8);
    assert_eq!(f(player(&state, 1).shields), 70.0);
}

#[test]
fn collapsed_shields_stay_down_until_switched() {
    let mut oracle = Oracle::new(source());
    let mut state = empty_game(&mut oracle);
    join(&mut state, 1, 5000.0, 5000.0, &mut oracle);
    player_mut(&mut state, 1).fuel = s(5.0);
    state.apply_damage(1, s(10.0), None, false, &mut oracle);
    assert_eq!(f(player(&state, 1).fuel), 0.0);
    assert!(!player(&state, 1).shields_on);
    assert!(player(&state, 1).shields_collapsed);

    send(&mut state, 1, input(1), &mut oracle);
    state.update(s(DT), &mut oracle);
    state.update(s(DT), &mut oracle);
    assert!(f(player(&state, 1).fuel) > 0.0);
    assert!(!player(&state, 1).shields_on);

    send(&mut state, 1, PlayerInput { shields_active: false, ..input(2) }, &mut oracle);
    state.update(s(DT), &mut oracle);
    assert!(!player(&state, 1).shields_on);
    send(&mut state, 1, input(3), &mut oracle);
    state.update(s(DT), &mut oracle);
    assert!(player(&state, 1).shields_on);
}

#[test]
fn shields_regenerate_after_five_seconds() {
    let mut oracle = Oracle::new(source());
    let mut state = empty_game(&mut oracle);
    join(&mut state, 1, 5000.0, 5000.0, &mut oracle);
    send(&mut state, 1, input(1), &mut oracle);
    state.apply_damage(1, s(10.0), None, false, &mut oracle);
    state.update(s(DT), &mut oracle);
    assert_eq!(f(player(&state, 1).shields), 50.0);
    assert_eq!(f(player(&state, 1).shield_regen_cooldown), 5.0 - DT);

    player_mut(&mut state, 1).shield_regen_cooldown = s(0.0);
    state.update(s(DT), &mut oracle);
    assert_eq!(f(player(&state, 1).shields), 50.0 + 10.0 * DT);
    player_mut(&mut state, 1).shields = s(59.9);
    state.update(s(DT), &mut oracle);
    assert_eq!(f(player(&state, 1).shields), 60.0);
}

#[test]
fn every_blow_keeps_shields_from_regenerating() {
    let mut oracle = Oracle::new(source());
    let mut state = empty_game(&mut oracle);
    join(&mut state, 1, 5000.0, 5000.0, &mut oracle);
    player_mut(&mut state, 1).shields_on = false;
    state.apply_damage(1, s(10.0), None, false, &mut oracle);
    let p = player(&state, 1);
    assert_eq!(f(p.shield_regen_cooldown), 5.0);
    assert_eq!(f(p.hull), 90.0);
    assert_eq!(f(p.shields), 60.0);
    assert_eq!(f(p.fuel), 300.0);

    // Behind a cloak, and with shields that are up but used up.
    for (cloaked, shields) in [(true, 60.0), (false, 0.0)] {
        let p = player_mut(&mut state, 1);
        p.shields_on = true;
        p.cloaked = cloaked;
        p.shields = s(shields);
        p.shield_regen_cooldown = s(1.0);
        state.apply_damage(1, s(10.0), None, false, &mut oracle);
        assert_eq!(f(player(&state, 1).shield_regen_cooldown), 5.0);
    }

    // What is no number takes all of the shields, and leaves nothing to compare of the hull.
    let p = player_mut(&mut state, 1);
    p.cloaked = false;
    p.shields_on = true;
    p.shields = s(60.0);
    p.shield_regen_cooldown = s(1.0);
    p.strike(s(f32::NAN));
    assert_eq!(f(p.shields), 0.0);
    assert_eq!(f(p.shield_regen_cooldown), 5.0);
    p.hull = s(90.0);

    // No blow, no wait.
    player_mut(&mut state, 1).shield_regen_cooldown = s(1.0);
    state.apply_damage(1, s(0.0), None, false, &mut oracle);
    assert_eq!(f(player(&state, 1).shield_regen_cooldown), 1.0);
}

// ── Cloak ─────────────────────────────────────────────────────────────────────

#[test]
fn cloaked_ships_hold_their_fire() {
    let mut oracle = Oracle::new(source());
    let mut state = empty_game(&mut oracle);
    join(&mut state, 1, 5000.0, 5000.0, &mut oracle);
    send(
        &mut state,
        1,
        PlayerInput {
            cloak_active: true,
            fire_primary: true,
            fire_phaser: true,
            mouse_distance: s(100.0),
            ..input(1)
        },
        &mut oracle,
    );
    state.update(s(DT), &mut oracle);
    let p = player(&state, 1);
    assert!(p.cloaked);
    assert!(!p.shields_on);
    assert!(p.pending_torpedo_fire);
    assert_eq!(p.torpedo_count, 6);
    assert_eq!(f(p.fuel), 300.0 - 20.0 * DT);
    assert_eq!(count(&state, EntityKind::Torpedo), 0);
    assert_eq!(count(&state, EntityKind::Phaser), 0);

    // A cloaked ship's shields take nothing.
    state.apply_damage(1, s(10.0), None, false, &mut oracle);
    assert_eq!(f(player(&state, 1).hull), 90.0);
    assert_eq!(f(player(&state, 1).shields), 60.0);
}

#[test]
fn heavy_ships_cannot_cloak() {
    let mut oracle = Oracle::new(source());
    let mut state = empty_game(&mut oracle);
    join(&mut state, 1, 5000.0, 5000.0, &mut oracle);
    for class in [ShipClass::Battleship, ShipClass::Carrier] {
        player_mut(&mut state, 1).ship_class = class;
        state.respawn_player(1, &mut oracle);
        let seq = player(&state, 1).last_input_seq + 1;
        send(&mut state, 1, PlayerInput { cloak_active: true, ..input(seq) }, &mut oracle);
        state.update(s(DT), &mut oracle);
        assert!(!player(&state, 1).cloaked);
        assert!(player(&state, 1).shields_on);
    }
}

#[test]
fn the_cloak_drops_when_fuel_is_gone() {
    let mut oracle = Oracle::new(source());
    let mut state = empty_game(&mut oracle);
    join(&mut state, 1, 5000.0, 5000.0, &mut oracle);
    player_mut(&mut state, 1).fuel = s(0.5);
    send(&mut state, 1, PlayerInput { cloak_active: true, ..input(1) }, &mut oracle);
    state.update(s(DT), &mut oracle);
    assert!(!player(&state, 1).cloaked);
    assert_eq!(f(player(&state, 1).fuel), 0.0);
}

// ── Players ───────────────────────────────────────────────────────────────────

#[test]
fn class_changes_only_without_a_ship() {
    let mut oracle = Oracle::new(source());
    let mut state = empty_game(&mut oracle);
    join(&mut state, 1, 5000.0, 5000.0, &mut oracle);
    state.handle_event(
        GameEvent::SelectShip { id: 1, class: ShipClass::Scout },
        &mut oracle,
    );
    assert_eq!(player(&state, 1).ship_class, ShipClass::Destroyer);
    state.kill_player(1, None, false, &mut oracle);
    state.handle_event(
        GameEvent::SelectShip { id: 1, class: ShipClass::Scout },
        &mut oracle,
    );
    assert_eq!(player(&state, 1).ship_class, ShipClass::Scout);
}

#[test]
fn newcomers_appear_after_a_second() {
    let mut oracle = Oracle::new(source());
    let mut state = empty_game(&mut oracle);
    state.handle_event(
        GameEvent::PlayerJoined { id: 7, username: "NOVA".to_string() },
        &mut oracle,
    );
    assert_eq!(player(&state, 7).ship_class, ShipClass::Destroyer);
    state.update(s(0.5), &mut oracle);
    assert!(player(&state, 7).entity_id.is_none());
    state.update(s(0.5), &mut oracle);
    let e = entity(&state, player(&state, 7).entity_id.unwrap());
    assert_eq!(e.kind, EntityKind::Ship);
    assert_eq!(e.owner, Some(7));
    assert!((0.0..=10_000.0).contains(&f(e.x)));
}

#[test]
fn leaving_takes_the_ship_along() {
    let mut oracle = Oracle::new(source());
    let mut state = empty_game(&mut oracle);
    let eid = join(&mut state, 1, 5000.0, 5000.0, &mut oracle);
    state.handle_event(GameEvent::PlayerLeft(1), &mut oracle);
    assert!(state.players.get(1).is_none());
    assert!(state.entity(eid).is_none());
    state.handle_event(GameEvent::PlayerLeft(1), &mut oracle);
    assert_eq!(state.players.len(), 0);
}

#[test]
fn deaths_are_counted_and_credited() {
    let mut oracle = Oracle::new(source());
    let mut state = empty_game(&mut oracle);
    let eid = join(&mut state, 1, 5000.0, 4000.0, &mut oracle);
    join(&mut state, 2, 100.0, 100.0, &mut oracle);
    state.kill_player(1, Some(2), false, &mut oracle);
    let p = player(&state, 1);
    assert!(p.entity_id.is_none());
    assert_eq!(p.deaths, 1);
    assert_eq!(f(p.hull), 0.0);
    assert_eq!(p.respawn_timer.map(f), Some(5.0));
    assert_eq!(player(&state, 2).kills, 1);
    assert_eq!(player(&state, 2).deaths, 0);
    assert!(state.entity(eid).is_none());
    assert_eq!(count(&state, EntityKind::Debris), 4);
    assert_eq!(count(&state, EntityKind::Explosion), 1);
    let boom = state.entities.rows.iter().find(|e| e.kind == EntityKind::Explosion).unwrap();
    assert_eq!((f(boom.x), f(boom.y)), (5000.0, 4000.0));
    assert_eq!(boom.lifetime.map(f), Some(0.75));

    let news = state.take_announcements();
    assert_eq!(news.len(), 1);
    assert!(matches!(
        news[0].message(),
        ServerMessage::PlayerDied { victim: 1, killer: Some(2), self_destruct: false }
    ));
    assert_eq!(state.take_announcements().len(), 0);
}

#[test]
fn destroyed_ships_come_back_in_five_seconds() {
    let mut oracle = Oracle::new(source());
    let mut state = empty_game(&mut oracle);
    join(&mut state, 1, 5000.0, 4000.0, &mut oracle);
    state.kill_player(1, None, false, &mut oracle);
    for _ in 0..9 {
        state.update(s(0.5), &mut oracle);
    }
    assert!(player(&state, 1).entity_id.is_none());
    state.update(s(0.5), &mut oracle);
    assert!(player(&state, 1).entity_id.is_some());
    assert!(player(&state, 1).shields_on || !player(&state, 1).input.shields_active);
}

#[test]
fn self_destruction_waits_for_the_pilot() {
    let mut oracle = Oracle::new(source());
    let mut state = empty_game(&mut oracle);
    join(&mut state, 1, 5000.0, 4000.0, &mut oracle);
    state.handle_event(GameEvent::SelfDestruct(1), &mut oracle);
    assert!(player(&state, 1).entity_id.is_none());
    assert!(player(&state, 1).respawn_timer.is_none());
    assert_eq!(player(&state, 1).deaths, 1);
    assert!(state.take_announcements()[0].self_destruct);
    // Without a ship there is nothing to destroy.
    state.handle_event(GameEvent::SelfDestruct(1), &mut oracle);
    assert_eq!(player(&state, 1).deaths, 1);

    state.handle_event(GameEvent::RequestRespawn(1), &mut oracle);
    assert_eq!(player(&state, 1).respawn_timer.map(f), Some(5.0));
    player_mut(&mut state, 1).respawn_timer = Some(s(2.0));
    state.handle_event(GameEvent::RequestRespawn(1), &mut oracle);
    assert_eq!(player(&state, 1).respawn_timer.map(f), Some(2.0));
}

// ── Movement ──────────────────────────────────────────────────────────────────

#[test]
fn the_world_wraps_at_its_edges() {
    assert_eq!(f(shift(s(9_999.0), s(5.0))), 4.0);
    assert_eq!(f(shift(s(3.0), s(-5.0))), 9_998.0);
    assert_eq!(f(shift(s(3.0), s(5.0))), 8.0);
}

#[test]
fn headings_are_normal() {
    let pi = std::f32::consts::PI;
    assert_eq!(f(normalise(s(0.0))), 0.0);
    for a in [-20.0f32, -4.0, -pi, 0.1, pi, 3.2, 7.0, 100.0] {
        let n = f(normalise(s(a)));
        assert!((-pi..=pi).contains(&n), "{a} gave {n}");
        assert_eq!(n, (a + pi).rem_euclid(std::f32::consts::TAU) - pi);
    }
}

#[test]
fn the_aim_overrides_the_turn_keys() {
    let aimed = PlayerInput { aim_angle: Some(s(1.0)), turn_left: true, ..input(1) };
    assert!((f(choose_heading(s(0.5), &aimed, s(2.0), s(0.05))) - 1.0).abs() < 1e-6);
    let left = PlayerInput { turn_left: true, ..input(1) };
    assert!((f(choose_heading(s(0.5), &left, s(2.0), s(0.05))) - 0.4).abs() < 1e-6);
    let right = PlayerInput { turn_right: true, ..input(1) };
    assert!((f(choose_heading(s(0.5), &right, s(2.0), s(0.05))) - 0.6).abs() < 1e-6);
}

#[test]
fn ships_head_where_their_pilots_aim() {
    let below_pi = f32::from_bits(std::f32::consts::PI.to_bits() - 1);
    for aim in [0.0, 1.0e-30, 0.1, -0.1, 1.5, -1.5, 3.0, -3.0, below_pi, -below_pi] {
        let mut angles = Vec::new();
        for (turn_left, turn_right) in [(false, false), (true, false), (false, true), (true, true)] {
            let mut oracle = Oracle::new(source());
            let mut state = empty_game(&mut oracle);
            let eid = join(&mut state, 1, 5000.0, 5000.0, &mut oracle);
            let aimed = PlayerInput { aim_angle: Some(s(aim)), turn_left, turn_right, ..input(1) };
            send(&mut state, 1, aimed, &mut oracle);
            state.update_player(1, s(DT), &mut oracle);
            angles.push(entity(&state, eid).angle.to_bits());
        }
        assert!(angles.iter().all(|&a| a == angles[0]));
        let off = f32::from_bits(angles[0]) as f64 - aim as f64;
        assert!(off.abs() <= 3.0 / 8_388_608.0, "{aim:e}");
    }
}

#[test]
fn thrust_adds_velocity_and_burns_fuel() {
    let mut oracle = Oracle::new(source());
    let mut state = empty_game(&mut oracle);
    let eid = join(&mut state, 1, 5000.0, 5000.0, &mut oracle);
    player_mut(&mut state, 1).fuel = s(100.0);
    send(&mut state, 1, PlayerInput { thrust: true, ..input(1) }, &mut oracle);
    state.update(s(DT), &mut oracle);
    let e = entity(&state, eid);
    let drag = 0.98f32.powf(DT * 20.0);
    assert_eq!(f(e.vx), (150.0 * DT) * drag);
    assert_eq!(f(e.x), 5000.0 + f(e.vx) * DT);
    assert_eq!(f(player(&state, 1).fuel), 100.0 - 10.0 * DT + 8.0 * DT);
}

#[test]
fn speed_is_capped() {
    let mut oracle = Oracle::new(source());
    let mut state = empty_game(&mut oracle);
    let eid = join(&mut state, 1, 5000.0, 5000.0, &mut oracle);
    entity_mut(&mut state, eid).vx = s(1000.0);
    state.update(s(DT), &mut oracle);
    let e = entity(&state, eid);
    assert!(f(e.vx) <= 220.0);
    assert!(f(e.vx) > 210.0);
    // In every direction, up to one part in a million.
    for (vx, vy) in [(300.0, 400.0), (-1.0e20, 3.0e19), (170.0, -170.0), (3.0e38, 1.0)] {
        let e = entity_mut(&mut state, eid);
        (e.vx, e.vy) = (s(vx), s(vy));
        state.update_player(1, s(1.0e-20), &mut oracle);
        let e = entity(&state, eid);
        let speed = (f(e.vx) as f64).hypot(f(e.vy) as f64);
        assert!(speed <= 220.0 * (1.0 + 1.0 / 1_048_576.0) && speed > 219.9, "{speed}");
    }
}

#[test]
fn without_fuel_there_is_no_thrust() {
    let mut oracle = Oracle::new(source());
    let mut state = empty_game(&mut oracle);
    let eid = join(&mut state, 1, 5000.0, 5000.0, &mut oracle);
    player_mut(&mut state, 1).fuel = s(0.0);
    send(&mut state, 1, PlayerInput { reverse_thrust: true, ..input(1) }, &mut oracle);
    state.update(s(DT), &mut oracle);
    assert_eq!(f(entity(&state, eid).vx), 0.0);
    send(&mut state, 1, PlayerInput { reverse_thrust: true, ..input(2) }, &mut oracle);
    state.update(s(DT), &mut oracle);
    assert!(f(entity(&state, eid).vx) < 0.0);
}

// ── Weapons ───────────────────────────────────────────────────────────────────

#[test]
fn torpedoes_leave_towards_the_cursor() {
    let mut oracle = Oracle::new(source());
    let mut state = empty_game(&mut oracle);
    let eid = join(&mut state, 1, 5000.0, 5000.0, &mut oracle);
    send(
        &mut state,
        1,
        PlayerInput { fire_primary: true, mouse_angle: s(0.0), ..input(1) },
        &mut oracle,
    );
    state.update_player(1, s(DT), &mut oracle);
    assert_eq!(player(&state, 1).torpedo_count, 5);
    assert!(!player(&state, 1).pending_torpedo_fire);
    assert_eq!(f(player(&state, 1).fire_cooldown), 0.25);
    let t = entity(&state, eid + 1);
    assert_eq!(t.kind, EntityKind::Torpedo);
    assert_eq!(f(t.x), 5022.0);
    assert_eq!(f(t.vx), 300.0);
    assert_eq!(f(t.damage), 25.0);
    assert_eq!(t.owner, Some(1));
    assert_eq!(t.travel_remaining.map(f), Some(300.0));
}

#[test]
fn torpedoes_end_with_their_range() {
    let mut oracle = Oracle::new(source());
    let mut state = empty_game(&mut oracle);
    let mut t = ServerEntity::still(500, EntityKind::Torpedo, s(100.0), s(100.0));
    t.vx = s(100.0);
    t.travel_remaining = Some(s(7.0));
    state.add_entity(t);
    state.update(s(DT), &mut oracle);
    assert_eq!(f(entity(&state, 500).x), 105.0);
    assert_eq!(entity(&state, 500).travel_remaining.map(f), Some(2.0));
    state.update(s(DT), &mut oracle);
    assert!(state.entity(500).is_none());
}

#[test]
fn torpedoes_are_reloaded_every_half_second() {
    let mut oracle = Oracle::new(source());
    let mut state = empty_game(&mut oracle);
    join(&mut state, 1, 5000.0, 5000.0, &mut oracle);
    player_mut(&mut state, 1).torpedo_count = 5;
    state.update_player(1, s(0.5), &mut oracle);
    assert_eq!(player(&state, 1).torpedo_count, 6);
    player_mut(&mut state, 1).torpedo_count = 2;
    for _ in 0..3 {
        state.update(s(0.125), &mut oracle);
    }
    assert_eq!(player(&state, 1).torpedo_count, 2);
    state.update(s(0.125), &mut oracle);
    assert_eq!(player(&state, 1).torpedo_count, 3);
    for _ in 0..40 {
        state.update(s(0.5), &mut oracle);
    }
    assert_eq!(player(&state, 1).torpedo_count, 6);
}

#[test]
fn beams_stay_for_a_second_and_lock() {
    let mut oracle = Oracle::new(source());
    let mut state = empty_game(&mut oracle);
    join(&mut state, 1, 5000.0, 5000.0, &mut oracle);
    join(&mut state, 2, 5100.0, 5000.0, &mut oracle);
    send(
        &mut state,
        1,
        PlayerInput { fire_phaser: true, mouse_distance: s(200.0), ..input(1) },
        &mut oracle,
    );
    send(&mut state, 2, input(1), &mut oracle);
    state.update_player(1, s(DT), &mut oracle);
    let p = player(&state, 1);
    let beam = entity(&state, p.phaser_beam_entity.unwrap());
    assert_eq!(beam.kind, EntityKind::Phaser);
    assert_eq!(f(beam.vx), 100.0);
    assert_eq!(f(p.phaser_min_remaining), 1.0);
    assert_eq!(f(p.phaser_cooldown), 0.5);
    assert!(p.phaser_lock_target.is_some());
    assert_eq!(f(player(&state, 2).shields), 30.0);

    // The button is released, and the beam lingers.
    send(&mut state, 1, input(2), &mut oracle);
    for _ in 0..18 {
        state.update_player(1, s(DT), &mut oracle);
        assert!(player(&state, 1).phaser_beam_entity.is_some());
    }
    for _ in 0..4 {
        state.update_player(1, s(DT), &mut oracle);
    }
    assert!(player(&state, 1).phaser_beam_entity.is_none());
    assert!(player(&state, 1).phaser_lock_target.is_none());
    assert_eq!(count(&state, EntityKind::Phaser), 0);
}

#[test]
fn beams_stop_at_the_first_hit() {
    let mut oracle = Oracle::new(source());
    let mut state = empty_game(&mut oracle);
    join(&mut state, 1, 5000.0, 5000.0, &mut oracle);
    join(&mut state, 2, 5150.0, 5000.0, &mut oracle);
    state.add_entity(rock(600, false, 5080.0, 5010.0, 0.0, 0.0));
    let (dist, hit) =
        state.cast_phaser_ray(s(5000.0), s(5000.0), s(0.0), s(250.0), 1, &mut oracle);
    assert_eq!(f(dist), 80.0);
    let (what, dmg) = hit.unwrap();
    assert_eq!(what, fleet_commander::world::PhaserHit::Asteroid(600));
    assert_eq!(f(dmg), 30.0);
}

// ── Asteroids and planets ─────────────────────────────────────────────────────

#[test]
fn the_first_world_has_asteroids_and_planets() {
    let mut oracle = Oracle::new(source());
    let state = GameState::new(&mut oracle);
    assert_eq!(state.entities.len(), 25);
    for id in 0..20 {
        let e = entity(&state, id);
        assert_eq!(e.kind, EntityKind::Asteroid);
        assert_eq!(e.health.map(f), Some(500.0));
        assert_eq!(e.asteroid_radius.map(f), Some(60.0));
    }
    let radii = [70.0, 110.0, 75.0, 65.0, 55.0];
    for (i, r) in radii.iter().enumerate() {
        let e = entity(&state, 20 + i as u32);
        assert_eq!(e.kind, EntityKind::Planet);
        assert_eq!(f(e.vx), *r);
        assert_eq!(f(e.vy), i as f32);
        assert!(e.health.is_none());
    }
}

#[test]
fn big_asteroids_break_into_one_to_four() {
    let mut oracle = Oracle::new(source());
    let mut state = empty_game(&mut oracle);
    join(&mut state, 1, 5000.0, 5000.0, &mut oracle);
    let mut seen = [false; 5];
    for round in 0..200u32 {
        state.entities.rows.clear();
        state.add_entity(rock(900, true, 300.0, 400.0, 0.0, 0.0));
        state.apply_asteroid_damage(900, s(250.0), Some(1), &mut oracle);
        assert_eq!(entity(&state, 900).health.map(f), Some(250.0));
        state.apply_asteroid_damage(900, s(1.0), Some(1), &mut oracle);
        assert!(state.entity(900).is_none());
        let n = count(&state, EntityKind::Asteroid);
        assert!((1..=4).contains(&n));
        seen[n] = true;
        assert_eq!(count(&state, EntityKind::Explosion), 1);
        assert_eq!(player(&state, 1).score, 3 * (round + 1));
        for e in state.entities.rows.iter().filter(|e| e.kind == EntityKind::Asteroid) {
            assert_eq!(e.asteroid_radius.map(f), Some(30.0));
            assert_eq!(e.health.map(f), Some(200.0));
            assert_eq!((f(e.x), f(e.y)), (300.0, 400.0));
        }
    }
    assert!(seen[1] && seen[2] && seen[3] && seen[4]);
}

#[test]
fn small_asteroids_are_destroyed_for_a_point() {
    let mut oracle = Oracle::new(source());
    let mut state = empty_game(&mut oracle);
    join(&mut state, 1, 5000.0, 5000.0, &mut oracle);
    state.add_entity(rock(900, false, 300.0, 400.0, 0.0, 0.0));
    state.apply_asteroid_damage(900, s(199.0), Some(1), &mut oracle);
    assert_eq!(player(&state, 1).score, 0);
    state.apply_asteroid_damage(900, s(1.0), Some(1), &mut oracle);
    assert!(state.entity(900).is_none());
    assert_eq!(player(&state, 1).score, 1);
    assert_eq!(count(&state, EntityKind::Asteroid), 0);
}

#[test]
fn planets_are_indestructible() {
    let mut oracle = Oracle::new(source());
    let mut state = empty_game(&mut oracle);
    state.add_entity(ServerEntity::still(20, EntityKind::Planet, s(1.0), s(2.0)));
    state.apply_asteroid_damage(20, s(100_000.0), None, &mut oracle);
    assert_eq!(state.entities.len(), 1);
    assert!(entity(&state, 20).health.is_none());
}

#[test]
fn big_asteroids_are_replenished() {
    let mut oracle = Oracle::new(source());
    let mut state = empty_game(&mut oracle);
    for i in 0..3 {
        state.add_entity(rock(i, true, 1000.0 * (i as f32 + 1.0), 500.0, 0.0, 0.0));
    }
    state.update(s(DT), &mut oracle);
    assert_eq!(count(&state, EntityKind::Asteroid), 4);
    state.update(s(DT), &mut oracle);
    assert_eq!(count(&state, EntityKind::Asteroid), 5);
    state.update(s(DT), &mut oracle);
    assert_eq!(count(&state, EntityKind::Asteroid), 5);
}

#[test]
fn ships_rebound_from_planets() {
    let mut oracle = Oracle::new(source());
    let mut state = empty_game(&mut oracle);
    let mut planet = ServerEntity::still(20, EntityKind::Planet, s(5000.0), s(5000.0));
    planet.vx = s(70.0);
    state.add_entity(planet);
    let eid = join(&mut state, 1, 5080.0, 5000.0, &mut oracle);
    entity_mut(&mut state, eid).vx = s(-40.0);
    state.check_planet_collisions(&mut oracle);
    let e = entity(&state, eid);
    assert_eq!(f(e.x), 5088.0);
    assert_eq!(f(e.vx), 20.0);
    assert_eq!(f(player(&state, 1).shields), 35.0);
}

#[test]
fn torpedoes_go_off_on_planets() {
    let mut oracle = Oracle::new(source());
    let mut state = empty_game(&mut oracle);
    let mut planet = ServerEntity::still(20, EntityKind::Planet, s(5000.0), s(5000.0));
    planet.vx = s(70.0);
    state.add_entity(planet);
    state.add_entity(ServerEntity::still(30, EntityKind::Torpedo, s(5072.0), s(5000.0)));
    state.add_entity(ServerEntity::still(31, EntityKind::Torpedo, s(5073.0), s(5000.0)));
    state.check_planet_collisions(&mut oracle);
    assert!(state.entity(30).is_none());
    assert!(state.entity(31).is_some());
    assert_eq!(count(&state, EntityKind::Explosion), 1);
}

#[test]
fn ships_and_asteroids_hurt_each_other() {
    let mut oracle = Oracle::new(source());
    let mut state = empty_game(&mut oracle);
    let eid = join(&mut state, 1, 5000.0, 5000.0, &mut oracle);
    state.add_entity(rock(900, false, 5040.0, 5000.0, 0.0, 0.0));
    entity_mut(&mut state, eid).vx = s(50.0);
    state.check_asteroid_collisions(&mut oracle);
    let e = entity(&state, eid);
    assert_eq!(f(e.x), 4992.0);
    assert_eq!(f(e.vx), -50.0 * 0.6);
    assert_eq!(f(player(&state, 1).shields), 47.5);
    let r = entity(&state, 900);
    assert_eq!(r.health.map(f), Some(190.0));
    assert_eq!(f(r.vx), 15.0);
}

#[test]
fn asteroids_knock_each_other_elastically() {
    let mut oracle = Oracle::new(source());
    let mut state = empty_game(&mut oracle);
    state.add_entity(rock(900, false, 1000.0, 1000.0, 10.0, 0.0));
    state.add_entity(rock(901, false, 1050.0, 1000.0, -20.0, 0.0));
    state.check_asteroid_collisions(&mut oracle);
    let (a, b) = (entity(&state, 900), entity(&state, 901));
    // Equal masses swap their velocities, and both are moved apart by half the overlap.
    assert!((f(a.vx) + 20.0).abs() < 1e-3);
    assert!((f(b.vx) - 10.0).abs() < 1e-3);
    assert!((f(a.x) - 995.0).abs() < 1e-3);
    assert!((f(b.x) - 1055.0).abs() < 1e-3);

    // Those that are moving apart are left alone.
    state.check_asteroid_collisions(&mut oracle);
    assert_eq!(f(entity(&state, 900).vx), f(a.vx));
}

#[test]
fn asteroids_crash_on_planets() {
    let mut oracle = Oracle::new(source());
    let mut state = empty_game(&mut oracle);
    let mut planet = ServerEntity::still(20, EntityKind::Planet, s(5000.0), s(5000.0));
    planet.vx = s(70.0);
    state.add_entity(planet);
    state.add_entity(rock(900, true, 5129.0, 5000.0, 0.0, 0.0));
    state.add_entity(rock(901, true, 5000.0, 5131.0, 0.0, 0.0));
    state.check_asteroid_collisions(&mut oracle);
    assert!(state.entity(900).is_none());
    assert!(state.entity(901).is_some());
}

#[test]
fn torpedoes_chip_asteroids() {
    let mut oracle = Oracle::new(source());
    let mut state = empty_game(&mut oracle);
    state.add_entity(rock(900, true, 1000.0, 1000.0, 0.0, 0.0));
    let mut t = ServerEntity::still(500, EntityKind::Torpedo, s(1030.0), s(1000.0));
    t.damage = s(40.0);
    t.owner = Some(1);
    state.add_entity(t);
    state.check_collisions(&mut oracle);
    assert!(state.entity(500).is_none());
    assert_eq!(entity(&state, 900).health.map(f), Some(460.0));
    assert_eq!(count(&state, EntityKind::Explosion), 1);
}

// ── Snapshots ─────────────────────────────────────────────────────────────────

#[test]
fn snapshots_carry_what_clients_need() {
    let mut oracle = Oracle::new(source());
    let mut state = empty_game(&mut oracle);
    let eid = join(&mut state, 4, 1.0, 2.0, &mut oracle);
    state.add_entity(rock(900, true, 300.0, 400.0, 9.0, 8.0));
    state.spawn_explosion(s(5.0), s(6.0));
    let mut t = ServerEntity::still(500, EntityKind::Torpedo, s(7.0), s(8.0));
    t.vx = s(3.0);
    t.travel_remaining = Some(s(44.0));
    state.add_entity(t);
    state.tick = 77;
    let snap = state.build_snapshot();
    assert_eq!(snap.tick, 77);
    assert_eq!(snap.entities.len(), 4);
    let by_id = |id: u32| snap.entities.iter().find(|e| e.id == id).unwrap();
    let info = by_id(eid).ship_info.unwrap();
    assert_eq!(info.player_id, 4);
    assert_eq!(f(info.hull), 100.0);
    assert_eq!(info.torpedo_count, 6);
    assert!(!info.phaser_locked);
    assert_eq!((f(by_id(900).vx), f(by_id(900).vy)), (60.0, 8.0));
    assert_eq!((f(by_id(500).vx), f(by_id(500).vy)), (3.0, 44.0));
    let boom = by_id(eid + 1);
    assert_eq!((f(boom.vx), f(boom.vy)), (0.75, 0.75));
    assert_eq!(snap.scores.len(), 1);
    assert_eq!(snap.scores[0].username, "PILOT_4");
    assert!(snap.scores[0].alive);
}

#[test]
fn ticks_keep_the_world_sound_and_crewed() {
    let mut oracle = Oracle::new(source());
    let mut state = GameState::new(&mut oracle);
    for pid in 1..=4 {
        join(&mut state, pid, 5000.0 + 40.0 * pid as f32, 5000.0, &mut oracle);
    }
    let planets = |state: &GameState| -> Vec<[u32; 6]> {
        let rows = state.entities.rows.iter().filter(|e| e.kind == EntityKind::Planet);
        rows.map(|e| {
            [
                e.id,
                e.x.to_bits(),
                e.y.to_bits(),
                e.vx.to_bits(),
                e.vy.to_bits(),
                e.angle.to_bits(),
            ]
        })
        .collect()
    };
    let first_planets = planets(&state);
    assert_eq!(first_planets.len(), 5);
    for tick in 1..=400u32 {
        for pid in 1..=4u32 {
            let n = tick.wrapping_mul(2_654_435_761).wrapping_add(pid * 97);
            send(
                &mut state,
                pid,
                PlayerInput {
                    thrust: n & 1 != 0,
                    reverse_thrust: n & 2 != 0,
                    turn_left: n & 4 != 0,
                    fire_primary: n & 8 != 0,
                    fire_phaser: n & 16 != 0,
                    cloak_active: n & 96 == 96,
                    mouse_angle: s((n >> 16) as f32 / 10_000.0 - 3.0),
                    mouse_distance: s(150.0),
                    ..input(tick)
                },
                &mut oracle,
            );
        }
        state.update(s(DT), &mut oracle);
        assert_eq!(state.tick, tick as u64);
        assert_eq!(planets(&state), first_planets);
        for e in &state.entities.rows {
            assert!(e.lifetime.map_or(true, |left| f(left) > 0.0));
            assert!(e.travel_remaining.map_or(true, |left| f(left) > 0.0));
        }
        let mut ids: Vec<u32> = state.entities.rows.iter().map(|e| e.id).collect();
        ids.sort();
        ids.dedup();
        assert_eq!(ids.len(), state.entities.len());
        for p in &state.players.rows {
            if p.entity_id.is_some() {
                let stats = p.ship_class.stats();
                assert!(f(p.hull) > 0.0 && f(p.hull) <= f(stats.max_hull));
                assert!(f(p.shields) >= 0.0 && f(p.shields) <= f(stats.max_shields));
                assert!(f(p.fuel) >= 0.0 && f(p.fuel) <= f(stats.fuel_capacity));
                assert!(p.torpedo_count <= stats.max_torpedoes);
                let ship = entity(&state, p.entity_id.unwrap());
                assert_eq!(ship.kind, EntityKind::Ship);
                assert_eq!(ship.owner, Some(p.id));
            }
        }
    }
    assert_eq!(state.tick, 400);
}

#[test]
fn long_ticks_leave_ships_fit() {
    for dt in [0.0, 1.0, 1.5, 3600.0, 1.0e9, 2.0e37] {
        for class in [ShipClass::Scout, ShipClass::Carrier] {
            let mut oracle = Oracle::new(source());
            let mut state = empty_game(&mut oracle);
            join(&mut state, 1, 5000.0, 5000.0, &mut oracle);
            player_mut(&mut state, 1).ship_class = class;
            state.respawn_player(1, &mut oracle);
            send(
                &mut state,
                1,
                PlayerInput {
                    thrust: true,
                    reverse_thrust: true,
                    fire_phaser: true,
                    mouse_distance: s(100.0),
                    ..input(1)
                },
                &mut oracle,
            );
            state.update_player(1, s(dt), &mut oracle);
            let p = player(&state, 1);
            let stats = class.stats();
            assert!(f(p.fuel) >= 0.0 && f(p.fuel) <= f(stats.fuel_capacity));
            assert!(f(p.shields) >= 0.0 && f(p.shields) <= f(stats.max_shields));
            assert!(p.torpedo_count <= stats.max_torpedoes);
        }
    }
}

#[test]
fn nothing_happens_without_a_ship() {
    let mut oracle = Oracle::new(source());
    let mut state = empty_game(&mut oracle);
    join(&mut state, 1, 5000.0, 5000.0, &mut oracle);
    state.self_destruct_player(1, &mut oracle);
    player_mut(&mut state, 1).torpedo_count = 2;
    player_mut(&mut state, 1).fuel = s(7.0);
    let things = state.entities.len();
    state.update_player(1, s(10.0), &mut oracle);
    state.update_player(9, s(10.0), &mut oracle);
    assert_eq!(player(&state, 1).torpedo_count, 2);
    assert_eq!(f(player(&state, 1).fuel), 7.0);
    assert_eq!(state.entities.len(), things);
}

#[test]
fn ships_appear_off_the_edges() {
    for share in [0.0f32, 0.25, 0.999] {
        let mut oracle = Oracle::new(move |q: Ask| match q {
            Ask::Uniform(low, high) => s(f(low) + (f(high) - f(low)) * share),
            _ => s(0.0),
        });
        let mut state = GameState::new(&mut oracle);
        let id = state.spawn_ship_entity(1, &mut oracle);
        let e = entity(&state, id);
        assert_eq!(f(e.x), 500.0 + 9000.0 * share);
        assert_eq!(f(e.y), 500.0 + 9000.0 * share);
    }
}
