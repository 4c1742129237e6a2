use std::cell::Cell;

use fleet_commander::game::{EntityKind, PlayerId};
use fleet_commander::oracle::{Ask, Oracle};
use fleet_commander::protocol::PlayerInput;
use fleet_commander::single::Single;
use fleet_commander::tick::GameEvent;
use fleet_commander::world::{GameState, PhaserHit, ServerEntity, ServerPlayer};

// ── Helpers ───────────────────────────────────────────────────────────────────

fn s(x: f32) -> Single {
    Single::from_bits(x.to_bits())
}

fn f(x: Single) -> f32 {
    f32::from_bits(x.to_bits())
}

/// Answers questions with the platform's functions and a repeatable sequence of draws.
fn source() -> impl Fn(Ask) -> Single {
    let seed: Cell<u64> = Cell::new(0x2545_f491_4f6c_dd1d);
    move |q: Ask| match q {
        Ask::Cos(a) => s(f(a).cos()),
        Ask::Sin(a) => s(f(a).sin()),
        Ask::Atan2(y, x) => s(f(y).atan2(f(x))),
        Ask::Hypot(x, y) => s(f(x).hypot(f(y))),
        Ask::Pow(x, y) => s(f(x).powf(f(y))),
        Ask::Uniform(low, high) => {
            let mut n = seed.get();
            n ^= n << 13;
            n ^= n >> 7;
            n ^= n << 17;
            seed.set(n);
            let unit = (n >> 40) as f32 / (1u64 << 24) as f32;
            s(f(low) + unit * (f(high) - f(low)))
        }
    }
}

fn add_player<F: Fn(Ask) -> Single>(state: &mut GameState, pid: PlayerId, oracle: &mut Oracle<F>) {
    state.handle_event(
        GameEvent::PlayerJoined { id: pid, username: format!("player{pid}") },
        oracle,
    );
}

/// Join a player and immediately spawn their ship (bypasses the respawn timer).
fn add_spawned_player<F: Fn(Ask) -> Single>(
    state: &mut GameState,
    pid: PlayerId,
    oracle: &mut Oracle<F>,
) {
    add_player(state, pid, oracle);
    state.respawn_player(pid, oracle);
}

fn player(state: &GameState, pid: PlayerId) -> &ServerPlayer {
    state.players.get(pid).unwrap()
}

fn player_mut(state: &mut GameState, pid: PlayerId) -> &mut ServerPlayer {
    let i = state.players.position(pid).unwrap();
    &mut state.players.rows[i]
}

fn entity_mut(state: &mut GameState, id: u32) -> &mut ServerEntity {
    let i = state.entities.position(id).unwrap();
    &mut state.entities.rows[i]
}

fn torpedo(id: u32, x: Single, y: Single, vx: f32, owner: PlayerId) -> ServerEntity {
    ServerEntity {
        id,
        kind: EntityKind::Torpedo,
        x,
        y,
        vx: s(vx),
        vy: s(0.0),
        angle: s(0.0),
        owner: Some(owner),
        damage: s(25.0),
        health: None,
        asteroid_radius: None,
        lifetime: None,
        travel_remaining: Some(s(1000.0)),
    }
}

// ── apply_damage ──────────────────────────────────────────────────────────────

#[test]
fn shields_absorb_damage_before_hull() {
    let mut oracle = Oracle::new(source());
    let mut state = GameState::new(&mut oracle);
    add_spawned_player(&mut state, 1, &mut oracle);

    let stats = player(&state, 1).ship_class.stats();
    let initial_hull = f(player(&state, 1).hull);
    assert_eq!(initial_hull, f(stats.max_hull));

    // Damage smaller than shield capacity — hull must be untouched.
    let dmg = 10.0_f32;
    assert!(f(player(&state, 1).shields) >= dmg);
    state.apply_damage(1, s(dmg), None, false, &mut oracle);

    assert_eq!(f(player(&state, 1).hull), initial_hull);
    assert!(f(player(&state, 1).shields) < f(stats.max_shields));
    assert_eq!(f(player(&state, 1).shields), 50.0);
    assert_eq!(f(player(&state, 1).fuel), 290.0);
    assert_eq!(f(player(&state, 1).shield_regen_cooldown), 5.0);
}

#[test]
fn damage_bypasses_shields_when_shields_off() {
    let mut oracle = Oracle::new(source());
    let mut state = GameState::new(&mut oracle);
    add_spawned_player(&mut state, 1, &mut oracle);

    player_mut(&mut state, 1).shields_on = false;
    let initial_hull = f(player(&state, 1).hull);

    state.apply_damage(1, s(10.0), None, false, &mut oracle);

    assert!(f(player(&state, 1).hull) < initial_hull);
    assert_eq!(f(player(&state, 1).hull), 90.0);
}

#[test]
fn lethal_damage_kills_player() {
    let mut oracle = Oracle::new(source());
    let mut state = GameState::new(&mut oracle);
    add_spawned_player(&mut state, 1, &mut oracle);

    {
        let p = player_mut(&mut state, 1);
        p.shields_on = false;
        p.hull = s(1.0);
    }
    state.apply_damage(1, s(100.0), None, false, &mut oracle);

    assert!(player(&state, 1).entity_id.is_none());
    assert_eq!(player(&state, 1).deaths, 1);
}

#[test]
fn killer_gets_kill_credit() {
    let mut oracle = Oracle::new(source());
    let mut state = GameState::new(&mut oracle);
    add_spawned_player(&mut state, 1, &mut oracle); // victim
    add_spawned_player(&mut state, 2, &mut oracle); // killer

    {
        let p = player_mut(&mut state, 1);
        p.shields_on = false;
        p.hull = s(1.0);
    }
    state.apply_damage(1, s(100.0), Some(2), false, &mut oracle);

    assert_eq!(player(&state, 2).kills, 1);
}

// ── respawn_player ────────────────────────────────────────────────────────────

#[test]
fn respawn_resets_stats_to_class_maximums() {
    let mut oracle = Oracle::new(source());
    let mut state = GameState::new(&mut oracle);
    add_spawned_player(&mut state, 1, &mut oracle);

    // Simulate damage.
    {
        let p = player_mut(&mut state, 1);
        p.hull = s(1.0);
        p.shields = s(0.0);
        p.fuel = s(0.0);
        p.entity_id = None; // pretend the entity was removed
    }

    let stats = player(&state, 1).ship_class.stats();
    state.respawn_player(1, &mut oracle);

    let p = player(&state, 1);
    assert_eq!(f(p.hull), f(stats.max_hull));
    assert_eq!(f(p.shields), f(stats.max_shields));
    assert_eq!(f(p.fuel), f(stats.fuel_capacity));
    assert!(p.entity_id.is_some());
}

// ── PlayerInput sequence deduplication ───────────────────────────────────────

#[test]
fn stale_input_sequence_is_rejected() {
    let mut oracle = Oracle::new(source());
    let mut state = GameState::new(&mut oracle);
    add_spawned_player(&mut state, 1, &mut oracle);

    // seq=5 accepted.
    state.handle_event(
        GameEvent::PlayerInput {
            id: 1,
            input: PlayerInput { sequence: 5, thrust: true, ..Default::default() },
        },
        &mut oracle,
    );
    assert!(player(&state, 1).input.thrust);

    // seq=4 (older) must be silently dropped.
    state.handle_event(
        GameEvent::PlayerInput {
            id: 1,
            input: PlayerInput { sequence: 4, thrust: false, ..Default::default() },
        },
        &mut oracle,
    );
    assert!(player(&state, 1).input.thrust, "stale input overwrote accepted input");
}

#[test]
fn fire_primary_sets_sticky_torpedo_flag() {
    let mut oracle = Oracle::new(source());
    let mut state = GameState::new(&mut oracle);
    add_spawned_player(&mut state, 1, &mut oracle);

    state.handle_event(
        GameEvent::PlayerInput {
            id: 1,
            input: PlayerInput { sequence: 1, fire_primary: true, ..Default::default() },
        },
        &mut oracle,
    );
    assert!(player(&state, 1).pending_torpedo_fire);

    // A follow-up input with fire_primary=false must NOT clear the sticky flag.
    state.handle_event(
        GameEvent::PlayerInput {
            id: 1,
            input: PlayerInput { sequence: 2, fire_primary: false, ..Default::default() },
        },
        &mut oracle,
    );
    assert!(
        player(&state, 1).pending_torpedo_fire,
        "sticky torpedo flag was cleared prematurely"
    );
}

// ── check_collisions ──────────────────────────────────────────────────────────

#[test]
fn torpedo_hits_enemy_ship_and_is_removed() {
    let mut oracle = Oracle::new(source());
    let mut state = GameState::new(&mut oracle);
    add_spawned_player(&mut state, 1, &mut oracle); // torpedo owner
    add_spawned_player(&mut state, 2, &mut oracle); // target

    // Place the torpedo exactly on the target ship's position.
    let target_eid = player(&state, 2).entity_id.unwrap();
    let (tx, ty) = {
        let e = state.entities.get(target_eid).unwrap();
        (e.x, e.y)
    };

    let torp_id = state.alloc_entity_id();
    state.entities.put(torpedo(torp_id, tx, ty, 100.0, 1));

    let initial_shields = f(player(&state, 2).shields);
    state.check_collisions(&mut oracle);

    assert!(!state.entities.contains(torp_id), "torpedo should be removed on hit");
    assert!(f(player(&state, 2).shields) < initial_shields, "target should have taken damage");
}

#[test]
fn torpedo_does_not_hit_own_ship() {
    let mut oracle = Oracle::new(source());
    let mut state = GameState::new(&mut oracle);
    add_spawned_player(&mut state, 1, &mut oracle);

    let own_eid = player(&state, 1).entity_id.unwrap();
    let (sx, sy) = {
        let e = state.entities.get(own_eid).unwrap();
        (e.x, e.y)
    };

    let torp_id = state.alloc_entity_id();
    state.entities.put(torpedo(torp_id, sx, sy, 0.0, 1));

    let initial_hull = f(player(&state, 1).hull);
    state.check_collisions(&mut oracle);

    assert!(state.entities.contains(torp_id), "torpedo should not detonate on own ship");
    assert_eq!(f(player(&state, 1).hull), initial_hull);
}

// ── cast_phaser_ray ───────────────────────────────────────────────────────────

#[test]
fn phaser_ray_hits_enemy_directly_ahead() {
    let mut oracle = Oracle::new(source());
    let mut state = GameState::new(&mut oracle);
    add_spawned_player(&mut state, 1, &mut oracle); // shooter
    add_spawned_player(&mut state, 2, &mut oracle); // target

    // Place target 500 units to the east; shoot eastward (angle=0) with range=1000.
    let target_eid = player(&state, 2).entity_id.unwrap();
    entity_mut(&mut state, target_eid).x = s(500.0);
    entity_mut(&mut state, target_eid).y = s(5000.0);

    let (beam_len, hit) =
        state.cast_phaser_ray(s(0.0), s(5000.0), s(0.0), s(1000.0), 1, &mut oracle);

    assert!(hit.is_some(), "beam should hit the target");
    let (phaser_hit, dmg) = hit.unwrap();
    assert!(matches!(phaser_hit, PhaserHit::Ship(2)), "expected hit on player 2");
    assert!(f(dmg) > 0.0);
    assert!(f(beam_len) <= 501.0, "beam should stop at the target, not extend to full range");
}

#[test]
fn phaser_ray_misses_out_of_range_ship() {
    let mut oracle = Oracle::new(source());
    let mut state = GameState::new(&mut oracle);
    add_spawned_player(&mut state, 1, &mut oracle); // shooter
    add_spawned_player(&mut state, 2, &mut oracle); // target far away

    let target_eid = player(&state, 2).entity_id.unwrap();
    entity_mut(&mut state, target_eid).x = s(5000.0);
    entity_mut(&mut state, target_eid).y = s(5000.0);

    // Shoot eastward with range=100 — target is 5000 units away.
    let (beam_len, hit) =
        state.cast_phaser_ray(s(0.0), s(5000.0), s(0.0), s(100.0), 1, &mut oracle);

    assert!(hit.is_none(), "beam should not reach target");
    assert_eq!(f(beam_len), 100.0, "beam should extend to full range when nothing is hit");
}
