use fleet_commander::client::{find_camera_target, RenderState};
use fleet_commander::controls::{Controls, Keys, Pointer, SETTLING_REPORTS};
use fleet_commander::game::{EntityKind, EntityState, ShipClass, ShipInfo};
use fleet_commander::oracle::{Ask, Oracle};
use fleet_commander::phase::{
    capitalise, class_of_index, index_of_class, update_phase, AppPhase, Outcome,
};
use fleet_commander::protocol::{ClientMessage, GameStateSnapshot, ServerMessage};
use fleet_commander::single::Single;
use fleet_commander::sounds::{spatial_volume, Cue, Ears, Sound};
use fleet_commander::tick::GameEvent;
use fleet_commander::world::GameState;

fn s(x: f32) -> Single {
    Single::from_bits(x.to_bits())
}

fn f(x: Single) -> f32 {
    f32::from_bits(x.to_bits())
}

fn source() -> impl Fn(Ask) -> Single {
    |q: Ask| match q {
        Ask::Cos(a) => s(f(a).cos()),
        Ask::Sin(a) => s(f(a).sin()),
        Ask::Atan2(y, x) => s(f(y).atan2(f(x))),
        Ask::Hypot(x, y) => s(f(x).hypot(f(y))),
        Ask::Pow(x, y) => s(f(x).powf(f(y))),
        Ask::Uniform(low, _) => low,
    }
}

fn keys() -> Keys {
    Keys {
        typed: Vec::new(),
        backspace: false,
        enter: false,
        keypad_enter: false,
        up: false,
        down: false,
        left: false,
        right: false,
        a: false,
        c: false,
        d: false,
        f: false,
        h: false,
        m: false,
        q: false,
        r: false,
        s: false,
        t: false,
        w: false,
        space: false,
        left_button: false,
        up_down: false,
        down_down: false,
        left_down: false,
        right_down: false,
        a_down: false,
        c_down: false,
        d_down: false,
        s_down: false,
        w_down: false,
        left_shift_down: false,
        left_control_down: false,
        right_control_down: false,
        right_button_down: false,
    }
}

fn typing(text: &str) -> Keys {
    Keys { typed: text.chars().collect(), ..keys() }
}

/// The cursor a hundred units to the right of the middle of a window.
fn pointer() -> Pointer {
    Pointer {
        x: s(500.0),
        y: s(300.0),
        moved: false,
        screen_width: s(800.0),
        screen_height: s(600.0),
    }
}

fn step(phase: AppPhase, c: &mut Controls, k: &Keys, dt: f32) -> (AppPhase, Outcome) {
    let mut oracle = Oracle::new(source());
    update_phase(phase, c, k, &pointer(), s(dt), &mut oracle)
}

fn info(player_id: u32, class: ShipClass) -> ShipInfo {
    let stats = class.stats();
    ShipInfo {
        player_id,
        class,
        hull: stats.max_hull,
        shields: stats.max_shields,
        fuel: stats.fuel_capacity,
        cloaked: false,
        shields_on: true,
        torpedo_count: 6,
        phaser_locked: false,
    }
}

fn thing(id: u32, kind: EntityKind, x: f32, y: f32) -> EntityState {
    EntityState {
        id,
        kind,
        x: s(x),
        y: s(y),
        vx: s(0.0),
        vy: s(0.0),
        angle: s(0.0),
        ship_info: None,
    }
}

fn ship(id: u32, x: f32, y: f32, info: ShipInfo) -> EntityState {
    EntityState { ship_info: Some(info), ..thing(id, EntityKind::Ship, x, y) }
}

fn snapshot(entities: Vec<EntityState>) -> ServerMessage {
    ServerMessage::GameState(GameStateSnapshot { tick: 1, entities, scores: Vec::new() })
}

// ── Controls ──────────────────────────────────────────────────────────────────

#[test]
fn keys_become_an_input() {
    let mut oracle = Oracle::new(source());
    let mut c = Controls::new();
    let k = Keys { w_down: true, left_down: true, space: true, right_button_down: true, ..keys() };
    let input = c.collect_input(&k, &pointer(), &mut oracle);
    assert!(input.thrust && input.turn_left && input.fire_primary && input.fire_phaser);
    assert!(!input.reverse_thrust && !input.turn_right && !input.cloak_active);
    assert!(input.shields_active);
    assert_eq!(f(input.mouse_angle), 0.0);
    assert_eq!(f(input.mouse_distance), 100.0);
    assert!(input.aim_angle.is_none());
    assert_eq!(input.sequence, 1);

    let p = Pointer { moved: true, y: s(400.0), ..pointer() };
    let input = c.collect_input(&keys(), &p, &mut oracle);
    assert_eq!(input.sequence, 2);
    assert_eq!(input.aim_angle.map(f), Some(std::f32::consts::FRAC_PI_4));
    assert!(!input.fire_phaser);
}

#[test]
fn every_numbered_input_is_taken() {
    let mut oracle = Oracle::new(source());
    let mut game = GameState::new(&mut oracle);
    game.handle_event(
        GameEvent::PlayerJoined { id: 1, username: "NOVA".to_string() },
        &mut oracle,
    );
    let mut c = Controls::new();
    for n in 1..=5u32 {
        let input = c.collect_input(&keys(), &pointer(), &mut oracle);
        game.handle_event(GameEvent::PlayerInput { id: 1, input }, &mut oracle);
        assert_eq!(game.players.get(1).unwrap().last_input_seq, n);
    }
}

#[test]
fn torpedoes_are_fired_by_the_left_button() {
    let mut oracle = Oracle::new(source());
    let mut c = Controls::new();
    let k = Keys { left_button: true, ..keys() };
    assert!(c.collect_input(&k, &pointer(), &mut oracle).fire_primary);
    let k = Keys { t: true, ..keys() };
    assert!(c.collect_input(&k, &pointer(), &mut oracle).fire_primary);
    assert!(!c.collect_input(&keys(), &pointer(), &mut oracle).fire_primary);
}

#[test]
fn phasers_reach_no_farther_than_their_range() {
    let mut oracle = Oracle::new(source());
    let mut c = Controls::new();
    let k = Keys { left_shift_down: true, ..keys() };
    let near = Pointer { x: s(650.0), ..pointer() };
    assert!(c.collect_input(&k, &near, &mut oracle).fire_phaser);
    let far = Pointer { x: s(651.0), ..pointer() };
    assert!(!c.collect_input(&k, &far, &mut oracle).fire_phaser);
}

#[test]
fn the_cloak_is_held() {
    let mut oracle = Oracle::new(source());
    let mut c = Controls::new();
    let press = Keys { c: true, c_down: true, ..keys() };
    let hold = Keys { c_down: true, ..keys() };
    assert!(c.collect_input(&press, &pointer(), &mut oracle).cloak_active);
    assert!(c.collect_input(&hold, &pointer(), &mut oracle).cloak_active);
    assert!(!c.collect_input(&keys(), &pointer(), &mut oracle).cloak_active);
    c.current_class = ShipClass::Battleship;
    assert!(!c.collect_input(&press, &pointer(), &mut oracle).cloak_active);
}

#[test]
fn switches_toggle() {
    let mut oracle = Oracle::new(source());
    let mut c = Controls::new();
    let k = Keys { f: true, h: true, m: true, ..keys() };
    assert!(!c.collect_input(&k, &pointer(), &mut oracle).shields_active);
    assert!(c.show_help && !c.show_minimap);
    assert!(c.collect_input(&k, &pointer(), &mut oracle).shields_active);
    assert!(!c.show_help && c.show_minimap);
}

#[test]
fn self_destruction_is_armed_and_cancelled() {
    let mut oracle = Oracle::new(source());
    let mut c = Controls::new();
    let q = Keys { q: true, ..keys() };
    c.collect_input(&q, &pointer(), &mut oracle);
    assert!(c.self_destruct_countdown.is_none());
    let arm = Keys { q: true, left_control_down: true, ..keys() };
    c.collect_input(&arm, &pointer(), &mut oracle);
    assert_eq!(c.self_destruct_countdown.map(f), Some(5.0));
    let w = Keys { w: true, ..keys() };
    c.collect_input(&w, &pointer(), &mut oracle);
    assert!(c.self_destruct_countdown.is_none());
}

// ── Phases ────────────────────────────────────────────────────────────────────

#[test]
fn callsigns_are_typed() {
    let mut c = Controls::new();
    let phase = AppPhase::LoginName { buf: String::new(), error: false };
    let (phase, _) = step(phase, &mut c, &typing("no-va 7!"), 0.1);
    match &phase {
        AppPhase::LoginName { buf, error } => {
            assert_eq!(buf, "NOVA7");
            assert!(!error);
        }
        _ => panic!("left the login"),
    }
    let (phase, _) = step(phase, &mut c, &Keys { backspace: true, ..keys() }, 0.1);
    let (phase, _) = step(phase, &mut c, &typing("_abcdefghijkl"), 0.1);
    match &phase {
        AppPhase::LoginName { buf, .. } => assert_eq!(buf, "NOVA_ABCDEFG"),
        _ => panic!("left the login"),
    }
    let (phase, out) = step(phase, &mut c, &Keys { enter: true, ..keys() }, 0.1);
    match phase {
        AppPhase::LoginShip { username, selected_idx } => {
            assert_eq!(username, "NOVA_ABCDEFG");
            assert_eq!(selected_idx, 1);
        }
        _ => panic!("not accepted"),
    }
    assert!(out.login.is_none() && out.messages.is_empty());
}

#[test]
fn short_callsigns_are_refused() {
    let mut c = Controls::new();
    let phase = AppPhase::LoginName { buf: "ABC".to_string(), error: false };
    let (phase, _) = step(phase, &mut c, &Keys { enter: true, ..keys() }, 0.1);
    assert!(matches!(phase, AppPhase::LoginName { error: true, .. }));
    let (phase, _) = step(phase, &mut c, &typing("-"), 0.1);
    assert!(matches!(phase, AppPhase::LoginName { error: true, .. }));
    let (phase, _) = step(phase, &mut c, &typing("d"), 0.1);
    assert!(matches!(phase, AppPhase::LoginName { error: false, .. }));
    let (phase, _) = step(phase, &mut c, &Keys { keypad_enter: true, ..keys() }, 0.1);
    assert!(matches!(phase, AppPhase::LoginShip { .. }));
}

#[test]
fn letters_become_capitals() {
    assert_eq!(capitalise('a'), 'A');
    assert_eq!(capitalise('z'), 'Z');
    assert_eq!(capitalise('_'), '_');
    assert_eq!(capitalise('5'), '5');
    assert_eq!(capitalise('\u{e4}'), '\u{e4}');
}

#[test]
fn classes_and_places_match() {
    for i in 0..5 {
        assert_eq!(index_of_class(class_of_index(i)), i);
    }
    assert_eq!(class_of_index(0), ShipClass::Scout);
    assert_eq!(class_of_index(4), ShipClass::Carrier);
}

#[test]
fn a_ship_is_chosen() {
    let mut c = Controls::new();
    let phase = AppPhase::LoginShip { username: "NOVA".to_string(), selected_idx: 1 };
    let (phase, _) = step(phase, &mut c, &Keys { down: true, ..keys() }, 0.1);
    let (phase, _) = step(phase, &mut c, &Keys { s: true, ..keys() }, 0.1);
    let (phase, _) = step(phase, &mut c, &Keys { down: true, ..keys() }, 0.1);
    let (phase, _) = step(phase, &mut c, &Keys { down: true, ..keys() }, 0.1);
    let (phase, _) = step(phase, &mut c, &Keys { w: true, ..keys() }, 0.1);
    let (phase, out) = step(phase, &mut c, &Keys { enter: true, ..keys() }, 0.1);
    assert!(matches!(phase, AppPhase::Playing));
    let login = out.login.unwrap();
    assert_eq!(login.username, "NOVA");
    assert_eq!(login.ship_class, ShipClass::Battleship);
    assert_eq!(c.current_class, ShipClass::Battleship);
    assert!(c.just_entered_game);
}

#[test]
fn playing_sends_inputs_and_the_end() {
    let mut c = Controls::new();
    let arm = Keys { q: true, right_control_down: true, ..keys() };
    let (phase, out) = step(AppPhase::Playing, &mut c, &arm, 1.0);
    assert_eq!(out.messages.len(), 1);
    assert_eq!(c.self_destruct_countdown.map(f), Some(4.0));
    let (phase, out) = step(phase, &mut c, &keys(), 3.5);
    assert_eq!(out.messages.len(), 1);
    let (phase, out) = step(phase, &mut c, &keys(), 0.5);
    assert!(matches!(out.messages[0], ClientMessage::Input(_)));
    assert!(matches!(out.messages[1], ClientMessage::SelfDestruct));
    assert!(c.self_destruct_countdown.is_none());
    assert!(matches!(phase, AppPhase::Playing));
}

#[test]
fn after_a_death_a_ship_is_chosen() {
    let mut c = Controls::new();
    c.shields_on = false;
    let phase = AppPhase::DeadWatching {
        previous_class: ShipClass::Cruiser,
        timer: s(1.0),
        self_destruct: false,
    };
    let (phase, _) = step(phase, &mut c, &keys(), 0.5);
    assert!(matches!(phase, AppPhase::DeadWatching { .. }));
    let (phase, _) = step(phase, &mut c, &keys(), 0.5);
    match &phase {
        AppPhase::DeadChoosing { previous_class, selected_idx, countdown } => {
            assert_eq!(*previous_class, ShipClass::Cruiser);
            assert_eq!(*selected_idx, 2);
            assert_eq!(f(*countdown), 10.0);
        }
        _ => panic!("no choice"),
    }
    let (phase, _) = step(phase, &mut c, &Keys { up: true, ..keys() }, 0.5);
    let (phase, out) = step(phase, &mut c, &Keys { r: true, ..keys() }, 0.5);
    assert!(matches!(phase, AppPhase::Playing));
    assert!(matches!(
        out.messages[0],
        ClientMessage::SelectShip { class: ShipClass::Destroyer }
    ));
    assert!(matches!(out.messages[1], ClientMessage::RequestRespawn));
    assert!(c.shields_on);
}

#[test]
fn the_timeout_keeps_the_ship() {
    let mut c = Controls::new();
    let phase = AppPhase::DeadChoosing {
        previous_class: ShipClass::Cruiser,
        selected_idx: 4,
        countdown: s(0.25),
    };
    let (phase, out) = step(phase, &mut c, &keys(), 0.25);
    assert!(matches!(phase, AppPhase::Playing));
    assert!(matches!(
        out.messages[0],
        ClientMessage::SelectShip { class: ShipClass::Cruiser }
    ));
}

#[test]
fn after_self_destruction_one_may_quit() {
    let mut c = Controls::new();
    let phase = AppPhase::DeadWatching {
        previous_class: ShipClass::Scout,
        timer: s(0.1),
        self_destruct: true,
    };
    let (phase, _) = step(phase, &mut c, &keys(), 0.5);
    assert!(matches!(phase, AppPhase::SelfDestructed));
    let (phase, out) = step(phase, &mut c, &keys(), 0.5);
    assert!(!out.quit);
    let (_, out) = step(phase, &mut c, &Keys { q: true, ..keys() }, 0.5);
    assert!(out.quit);
    let (phase, _) = step(AppPhase::SelfDestructed, &mut c, &Keys { r: true, ..keys() }, 0.5);
    assert!(matches!(phase, AppPhase::DeadChoosing { .. }));
}

// ── The client's state ────────────────────────────────────────────────────────

fn playing() -> RenderState {
    let mut r = RenderState::new();
    r.phase = AppPhase::Playing;
    r.my_player_id = Some(1);
    r
}

#[test]
fn the_server_introduces_itself() {
    let mut r = RenderState::new();
    r.handle_server_message(ServerMessage::ServerInfo { server_name: "Sector 7".to_string() });
    assert_eq!(r.server_name, "Sector 7");
    r.handle_server_message(ServerMessage::Welcome {
        version: 2,
        player_id: 9,
        server_name: "Sector 8".to_string(),
    });
    assert_eq!(r.my_player_id, Some(9));
}

#[test]
fn own_death_is_watched() {
    let mut r = playing();
    r.controls.current_class = ShipClass::Cruiser;
    r.handle_server_message(ServerMessage::PlayerDied {
        victim: 2,
        killer: None,
        self_destruct: false,
    });
    assert!(matches!(r.phase, AppPhase::Playing));
    r.handle_server_message(ServerMessage::PlayerDied {
        victim: 1,
        killer: Some(2),
        self_destruct: false,
    });
    assert!(matches!(
        r.phase,
        AppPhase::DeadWatching { previous_class: ShipClass::Cruiser, self_destruct: false, .. }
    ));
}

#[test]
fn exhausted_cloaks_stay_off() {
    let mut r = playing();
    r.controls.cloak_on = true;
    let mut i = info(1, ShipClass::Scout);
    i.cloaked = true;
    i.fuel = s(1.0);
    i.shields_on = false;
    r.handle_server_message(snapshot(vec![ship(5, 1.0, 2.0, i)]));
    assert!(r.controls.cloak_on);
    let mut oracle = Oracle::new(source());
    r.listen(&mut oracle);
    i.cloaked = false;
    i.fuel = s(0.0);
    r.handle_server_message(snapshot(vec![ship(5, 1.0, 2.0, i)]));
    assert!(!r.controls.cloak_on);
}

#[test]
fn collapsed_shields_need_the_key() {
    let mut r = playing();
    let mut i = info(1, ShipClass::Scout);
    for _ in 0..SETTLING_REPORTS {
        r.handle_server_message(snapshot(vec![ship(5, 1.0, 2.0, i)]));
    }
    i.shields_on = false;
    i.cloaked = true;
    r.handle_server_message(snapshot(vec![ship(5, 1.0, 2.0, i)]));
    assert!(r.controls.shields_on);
    i.cloaked = false;
    r.handle_server_message(snapshot(vec![ship(5, 1.0, 2.0, i)]));
    assert!(!r.controls.shields_on);
    let mut oracle = Oracle::new(source());
    let press = Keys { f: true, ..keys() };
    assert!(r.controls.collect_input(&press, &pointer(), &mut oracle).shields_active);
}

#[test]
fn late_reports_leave_the_shields_as_switched() {
    let mut oracle = Oracle::new(source());
    let mut r = playing();
    let press = Keys { f: true, ..keys() };
    r.controls.collect_input(&press, &pointer(), &mut oracle);
    r.controls.collect_input(&press, &pointer(), &mut oracle);
    assert!(r.controls.shields_on);
    let mut i = info(1, ShipClass::Scout);
    // The server may not have taken the second press yet.
    i.shields_on = false;
    for _ in 0..SETTLING_REPORTS {
        r.handle_server_message(snapshot(vec![ship(5, 1.0, 2.0, i)]));
        assert!(r.controls.shields_on);
    }
    // By now it has, and the shields are down all the same.
    r.handle_server_message(snapshot(vec![ship(5, 1.0, 2.0, i)]));
    assert!(!r.controls.shields_on);
}

#[test]
fn the_camera_follows_the_ship() {
    let own = ship(5, 30.0, 40.0, info(1, ShipClass::Scout));
    let other = ship(6, 70.0, 80.0, info(2, ShipClass::Scout));
    let es = vec![other, own];
    let at = |es: &Vec<EntityState>, id, x: f32, y: f32| {
        let (a, b) = find_camera_target(es, id, s(x), s(y));
        (f(a), f(b))
    };
    assert_eq!(at(&es, Some(1), 1.0, 2.0), (30.0, 40.0));
    assert_eq!(at(&es, Some(3), 1.0, 2.0), (1.0, 2.0));
    assert_eq!(at(&es, None, 0.0, 0.0), (5000.0, 5000.0));
}

#[test]
fn a_frame_of_the_client() {
    let mut oracle = Oracle::new(source());
    let mut r = playing();
    let own = ship(5, 30.0, 40.0, info(1, ShipClass::Carrier));
    r.handle_server_message(snapshot(vec![own]));
    assert_eq!(r.controls.current_class, ShipClass::Carrier);
    r.follow();
    assert_eq!((f(r.cam_x), f(r.cam_y)), (30.0, 40.0));
    let out = r.advance(&keys(), &pointer(), s(0.1), &mut oracle);
    assert!(matches!(out.messages[0], ClientMessage::Input(_)));
}

// ── Sounds ────────────────────────────────────────────────────────────────────

fn listen(ears: &mut Ears, es: &Vec<EntityState>, entered: bool) -> Vec<Cue> {
    let mut oracle = Oracle::new(source());
    ears.process_sound_events(es, Some(1), s(0.0), s(0.0), entered, &mut oracle)
}

fn kinds(cues: &[Cue]) -> Vec<Sound> {
    cues.iter().map(|c| c.sound).collect()
}

#[test]
fn volume_falls_with_the_distance() {
    let mut oracle = Oracle::new(source());
    let mut at = |x: f32| f(spatial_volume(s(0.0), s(0.0), s(x), s(0.0), &mut oracle));
    assert_eq!(at(0.0), 1.0);
    assert_eq!(at(200.0), 1.0);
    assert_eq!(at(1600.0), 0.5);
    assert_eq!(at(3000.0), 0.0);
    assert_eq!(at(9000.0), 0.0);
}

#[test]
fn new_things_are_heard_once() {
    let mut ears = Ears::new();
    let es = vec![
        thing(1, EntityKind::Torpedo, 1600.0, 0.0),
        thing(2, EntityKind::Explosion, 0.0, 0.0),
        thing(3, EntityKind::Debris, 0.0, 0.0),
        thing(4, EntityKind::Debris, 0.0, 0.0),
        thing(5, EntityKind::Asteroid, 0.0, 0.0),
    ];
    let cues = listen(&mut ears, &es, true);
    assert_eq!(
        kinds(&cues),
        vec![Sound::TorpedoFire, Sound::Explosion, Sound::Debris, Sound::EnterGame]
    );
    assert_eq!(f(cues[0].volume), 0.5);
    assert_eq!(listen(&mut ears, &es, false).len(), 0);
}

#[test]
fn torpedoes_are_heard_to_go_off() {
    let mut ears = Ears::new();
    listen(&mut ears, &vec![thing(1, EntityKind::Torpedo, 100.0, 0.0)], false);
    let cues = listen(&mut ears, &vec![thing(2, EntityKind::Explosion, 120.0, 0.0)], false);
    assert_eq!(kinds(&cues), vec![Sound::Explosion, Sound::TorpedoDetonation]);
    listen(&mut ears, &vec![thing(3, EntityKind::Torpedo, 100.0, 0.0)], false);
    let cues = listen(&mut ears, &vec![thing(4, EntityKind::Explosion, 900.0, 0.0)], false);
    assert_eq!(kinds(&cues), vec![Sound::Explosion]);
}

#[test]
fn the_own_phaser_is_heard() {
    let mut ears = Ears::new();
    let own = ship(5, 0.0, 0.0, info(1, ShipClass::Scout));
    let es = vec![own, thing(6, EntityKind::Phaser, 100.0, 0.0)];
    assert_eq!(kinds(&listen(&mut ears, &es, false)), vec![Sound::PhaserFire]);
    let es = vec![own, thing(7, EntityKind::Phaser, 150.0, 0.0)];
    assert_eq!(listen(&mut ears, &es, false).len(), 0);
}

#[test]
fn warnings_are_given_once() {
    let mut ears = Ears::new();
    let mut i = info(1, ShipClass::Scout);
    listen(&mut ears, &vec![ship(5, 0.0, 0.0, i)], false);
    i.shields = s(2.9);
    i.fuel = s(9.0);
    let cues = listen(&mut ears, &vec![ship(5, 0.0, 0.0, i)], false);
    assert_eq!(kinds(&cues), vec![Sound::ShieldsLow, Sound::FuelLow]);
    assert_eq!(listen(&mut ears, &vec![ship(5, 0.0, 0.0, i)], false).len(), 0);
    i.shields = s(6.1);
    i.fuel = s(20.0);
    assert_eq!(listen(&mut ears, &vec![ship(5, 0.0, 0.0, i)], false).len(), 0);
    i.shields = s(1.0);
    let cues = listen(&mut ears, &vec![ship(5, 0.0, 0.0, i)], false);
    assert_eq!(kinds(&cues), vec![Sound::ShieldsLow]);
}

#[test]
fn the_cloak_and_bumps_are_heard() {
    let mut ears = Ears::new();
    let mut i = info(1, ShipClass::Scout);
    let rock = thing(9, EntityKind::Asteroid, 9_990.0, 0.0);
    listen(&mut ears, &vec![ship(5, 0.0, 0.0, i), rock], false);
    i.cloaked = true;
    let cues = listen(&mut ears, &vec![ship(5, 0.0, 0.0, i), rock], false);
    assert_eq!(kinds(&cues), vec![Sound::CloakOn]);
    i.cloaked = false;
    i.hull = s(40.0);
    let cues = listen(&mut ears, &vec![ship(5, 0.0, 0.0, i), rock], false);
    assert_eq!(kinds(&cues), vec![Sound::CloakOff, Sound::ShipAsteroidHit]);
    i.hull = s(30.0);
    let planet = thing(10, EntityKind::Planet, 5.0, 0.0);
    let cues = listen(&mut ears, &vec![ship(5, 0.0, 0.0, i), rock, planet], false);
    assert_eq!(kinds(&cues), vec![Sound::ShipPlanetHit]);
}
