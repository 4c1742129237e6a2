use fleet_commander::client::RenderState;
use fleet_commander::controls::Pointer;
use fleet_commander::frame::{Moment, Picture};
use fleet_commander::game::{EntityKind, EntityState, ShipClass, ShipInfo};
use fleet_commander::hud::{
    draw_hud, draw_minimap, draw_scoreboard, planet_abbr, rank, to_map, Chart,
};
use fleet_commander::oracle::{Ask, Oracle};
use fleet_commander::paint::{Anchor, Figure, Ink, Loaded, Named, Shape, Sprite, Text};
use fleet_commander::phase::AppPhase;
use fleet_commander::protocol::{GameStateSnapshot, PlayerScore, ServerMessage};
use fleet_commander::scene::{
    cursor_on_target, draw_entities, draw_mouse_crosshair, draw_ship, draw_world_border,
    find_username, gauge, phaser_locked, planet_name, shake_camera, ship_color, ship_size, Sight,
};
use fleet_commander::screens::{
    class_label, draw_dead_overlay, draw_help_overlay, draw_login_name, draw_login_ship,
    draw_ship_list, Window,
};
use fleet_commander::single::Single;
use fleet_commander::stars::draw_starfield;
use fleet_commander::text::push_number;

fn s(x: f32) -> Single {
    Single::from_bits(x.to_bits())
}

fn f(x: Single) -> f32 {
    f32::from_bits(x.to_bits())
}

fn source() -> impl Fn(Ask) -> Single {
    |q: Ask| match q {
        Ask::Cos(a) => s(f(a).cos()),
        Ask::Sin(a) => s(f(a).sin()),
        Ask::Atan2(y, x) => s(f(y).atan2(f(x))),
        Ask::Hypot(x, y) => s(f(x).hypot(f(y))),
        Ask::Pow(x, y) => s(f(x).powf(f(y))),
        Ask::Uniform(low, _) => low,
    }
}

fn info(player_id: u32, class: ShipClass) -> ShipInfo {
    let stats = class.stats();
    ShipInfo {
        player_id,
        class,
        hull: stats.max_hull,
        shields: stats.max_shields,
        fuel: stats.fuel_capacity,
        cloaked: false,
        shields_on: true,
        torpedo_count: 4,
        phaser_locked: false,
    }
}

fn thing(id: u32, kind: EntityKind, x: f32, y: f32) -> EntityState {
    EntityState {
        id,
        kind,
        x: s(x),
        y: s(y),
        vx: s(0.0),
        vy: s(0.0),
        angle: s(0.0),
        ship_info: None,
    }
}

fn ship(id: u32, x: f32, y: f32, info: ShipInfo) -> EntityState {
    EntityState { ship_info: Some(info), ..thing(id, EntityKind::Ship, x, y) }
}

fn nothing_loaded() -> Loaded {
    Loaded {
        scout: false,
        destroyer: false,
        cruiser: false,
        battleship: false,
        carrier: false,
        rocky: false,
        gas_giant: false,
        ocean: false,
        lava: false,
        ice: false,
        asteroid: false,
    }
}

fn sight() -> Sight {
    Sight { my_id: Some(1), time: s(0.0), loaded: nothing_loaded() }
}

fn row(player_id: u32, username: &str, kills: u32, score: u32, alive: bool) -> PlayerScore {
    PlayerScore {
        player_id,
        username: username.to_string(),
        kills,
        deaths: 2,
        score,
        ship_class: ShipClass::Scout,
        alive,
    }
}

fn texts(list: &[Shape]) -> Vec<String> {
    list.iter()
        .filter_map(|x| match x {
            Shape::Text(t) => Some(t.text.clone()),
            Shape::Figure(_) => None,
        })
        .collect()
}

fn text<'a>(list: &'a [Shape], what: &str) -> &'a Text {
    for x in list {
        if let Shape::Text(t) = x {
            if t.text == what {
                return t;
            }
        }
    }
    panic!("no text {what}")
}

fn window() -> Window {
    Window { width: s(800.0), height: s(600.0) }
}

// ── Gauges and scores ─────────────────────────────────────────────────────────

#[test]
fn numbers_are_written() {
    let mut t = String::new();
    push_number(&mut t, 0);
    t.push(' ');
    push_number(&mut t, 1_234_567_890);
    t.push(' ');
    push_number(&mut t, u64::MAX);
    assert_eq!(t, "0 1234567890 18446744073709551615");
}

#[test]
fn the_gauges_are_shown() {
    let mut list = Vec::new();
    let mut i = info(1, ShipClass::Destroyer);
    i.hull = s(25.0);
    i.shields_on = false;
    let es = vec![ship(5, 0.0, 0.0, i)];
    draw_hud(&mut list, 99, &es, Some(1), None, s(800.0), s(600.0));
    let words = texts(&list);
    for w in ["HULL", "SHLD", "FUEL", "Corsair", "SHLD OFF", "CLOAK OFF", "TORP", "tick 99"] {
        assert!(words.iter().any(|x| x == w), "{w} is missing");
    }
    // The hull is at a quarter of its gauge.
    match &list[1] {
        Shape::Figure(Figure::Block { w, ink: Ink::Named(Named::Red), .. }) => {
            assert_eq!(f(*w), 37.5);
        }
        _ => panic!("no gauge"),
    }
    let bright = list
        .iter()
        .filter(|x| {
            matches!(x, Shape::Figure(Figure::Block { ink: Ink::Named(Named::Yellow), .. }))
        })
        .count();
    assert_eq!(bright, 4);
}

#[test]
fn the_dead_are_told_what_to_do() {
    let mut list = Vec::new();
    draw_hud(&mut list, 1, &Vec::new(), Some(1), None, s(800.0), s(600.0));
    assert!(texts(&list)[0].starts_with("DESTROYED"));
    let mut list = Vec::new();
    draw_hud(&mut list, 1, &Vec::new(), None, None, s(800.0), s(600.0));
    assert!(list.is_empty());
}

#[test]
fn the_countdown_is_shown() {
    let mut list = Vec::new();
    draw_hud(&mut list, 1, &Vec::new(), Some(1), Some(s(3.25)), s(800.0), s(600.0));
    let t = text(&list, "SELF DESTRUCT IN  ");
    let seconds = t.seconds.unwrap();
    assert_eq!(f(seconds.value), 3.25);
    assert!(seconds.spaced && t.plate.is_some());
    assert_eq!((f(t.x), f(t.y)), (400.0, 240.0));
}

#[test]
fn the_scoreboard_is_ranked() {
    let scores = vec![
        row(1, "AAAA", 1, 9, true),
        row(2, "BBBB", 3, 0, false),
        row(3, "CCCC", 1, 10, true),
        row(4, "DDDD", 1, 9, true),
    ];
    let names: Vec<String> = rank(&scores).iter().map(|r| r.username.clone()).collect();
    assert_eq!(names, vec!["BBBB", "CCCC", "AAAA", "DDDD"]);

    let mut list = Vec::new();
    draw_scoreboard(&mut list, &scores, Some(3), s(800.0));
    assert_eq!(
        texts(&list)[1..],
        [
            "BBBB 3/2 pts:0 (dead)",
            "CCCC 1/2 pts:10",
            "AAAA 1/2 pts:9",
            "DDDD 1/2 pts:9"
        ]
    );
    assert!(matches!(text(&list, "CCCC 1/2 pts:10").ink, Ink::Named(Named::Green)));
    assert_eq!(f(text(&list, "CCCC 1/2 pts:10").y), 54.0);
    let mut empty = Vec::new();
    draw_scoreboard(&mut empty, &Vec::new(), None, s(800.0));
    assert!(empty.is_empty());
}

#[test]
fn the_map_goes_round_the_edges() {
    let c = Chart { x: s(600.0), y: s(400.0), side: s(100.0), cx: s(100.0), cy: s(5000.0) };
    let at = |x: f32, y: f32| to_map(&c, s(x), s(y)).map(|(a, b)| (f(a), f(b)));
    assert_eq!(at(100.0, 5000.0), Some((650.0, 450.0)));
    assert_eq!(at(2600.0, 5000.0), Some((700.0, 450.0)));
    assert_eq!(at(9600.0, 5000.0), Some((640.0, 450.0)));
    assert_eq!(at(2700.0, 5000.0), None);
    assert_eq!(at(100.0, 2400.0), None);
}

#[test]
fn the_map_shows_what_is_near() {
    let mut planet = thing(20, EntityKind::Planet, 5100.0, 5000.0);
    planet.vx = s(70.0);
    planet.vy = s(3.0);
    let mut big = thing(1, EntityKind::Asteroid, 5200.0, 5000.0);
    big.vx = s(60.0);
    let mut small = thing(2, EntityKind::Asteroid, 5300.0, 5000.0);
    small.vx = s(30.0);
    let es = vec![
        ship(5, 5000.0, 5000.0, info(1, ShipClass::Scout)),
        ship(6, 5050.0, 5000.0, info(2, ShipClass::Scout)),
        planet,
        big,
        small,
    ];
    let mut list = Vec::new();
    draw_minimap(&mut list, &es, Some(1), s(1200.0), s(600.0));
    assert_eq!(texts(&list), vec!["MAP", "Pyr", "#", "*", "?", "[M] hide"]);
    assert_eq!(planet_abbr(0), "Dur");
    // The player's own ship is in the middle of the map.
    let own = text(&list, "*");
    assert_eq!((f(own.x), f(own.y)), (1090.0, 490.0));
    assert_eq!(own.anchor, Anchor::Centre);
}

// ── The world ─────────────────────────────────────────────────────────────────

#[test]
fn names_sizes_and_colours() {
    assert_eq!(planet_name(0), "Duronn");
    assert_eq!(planet_name(7), "Glaciera");
    assert_eq!(f(ship_size(ShipClass::Battleship)), 24.0);
    assert_eq!(ship_color(ShipClass::Cruiser, true), Named::Green);
    assert_eq!(ship_color(ShipClass::Cruiser, false), Named::Purple);
    assert_eq!(f(gauge(s(30.0), s(40.0))), 0.75);
    assert_eq!(f(gauge(s(50.0), s(40.0))), 1.0);
    assert_eq!(f(gauge(s(-1.0), s(40.0))), 0.0);
    let scores = vec![row(1, "AAAA", 0, 0, true), row(2, "BBBB", 0, 0, true)];
    assert_eq!(find_username(&scores, 2), "BBBB");
    assert_eq!(find_username(&scores, 3), "");
}

#[test]
fn ships_have_textures_or_triangles() {
    let mut oracle = Oracle::new(source());
    let e = ship(5, 100.0, 200.0, info(2, ShipClass::Scout));
    let mut list = Vec::new();
    draw_ship(&mut list, &e, &sight(), &Vec::new(), &mut oracle);
    assert!(list.iter().any(|x| matches!(x, Shape::Figure(Figure::Triangle { .. }))));

    let seen = Sight { loaded: Loaded { scout: true, ..nothing_loaded() }, ..sight() };
    let mut list = Vec::new();
    draw_ship(&mut list, &e, &seen, &Vec::new(), &mut oracle);
    assert!(list.iter().any(|x| match x {
        Shape::Figure(Figure::Picture { sprite: Sprite::Scout, side, .. }) => f(*side) == 25.0,
        _ => false,
    }));
}

#[test]
fn cloaked_ships_are_not_drawn() {
    let mut oracle = Oracle::new(source());
    let mut i = info(2, ShipClass::Scout);
    i.cloaked = true;
    let es = vec![ship(5, 100.0, 200.0, i)];
    let mut list = Vec::new();
    draw_entities(&mut list, &es, &sight(), &Vec::new(), &mut oracle);
    assert!(list.is_empty());
    i.player_id = 1;
    let es = vec![ship(5, 100.0, 200.0, i)];
    draw_entities(&mut list, &es, &sight(), &Vec::new(), &mut oracle);
    assert!(!list.is_empty());
}

#[test]
fn entities_are_drawn_by_kind() {
    let mut oracle = Oracle::new(source());
    let mut torpedo = thing(1, EntityKind::Torpedo, 10.0, 20.0);
    torpedo.vy = s(300.0);
    let mut beam = thing(2, EntityKind::Phaser, 0.0, 0.0);
    beam.vx = s(50.0);
    let mut boom = thing(3, EntityKind::Explosion, 0.0, 0.0);
    boom.vx = s(0.75);
    boom.vy = s(0.75);
    let mut rock = thing(4, EntityKind::Asteroid, 0.0, 0.0);
    rock.vx = s(60.0);
    for (e, n) in [(torpedo, 2), (beam, 2), (boom, 2), (rock, 1)] {
        let mut list = Vec::new();
        draw_entities(&mut list, &vec![e], &sight(), &Vec::new(), &mut oracle);
        assert_eq!(list.len(), n);
    }
    let mut list = Vec::new();
    draw_entities(&mut list, &vec![beam], &sight(), &Vec::new(), &mut oracle);
    match &list[0] {
        Shape::Figure(Figure::Line { x2, y2, .. }) => assert_eq!((f(*x2), f(*y2)), (50.0, 0.0)),
        _ => panic!("no beam"),
    }
    // The inner band of a gas giant lies on its middle, whatever the radius.
    let mut giant = thing(5, EntityKind::Planet, 30.0, 40.0);
    giant.vx = s(f32::INFINITY);
    giant.vy = s(1.0);
    let mut list = Vec::new();
    draw_entities(&mut list, &vec![giant], &sight(), &Vec::new(), &mut oracle);
    let centred = list.iter().filter(|shape| match shape {
        Shape::Figure(Figure::Disc { x, y, .. }) => f(*x) == 30.0 && f(*y) == 40.0,
        _ => false,
    });
    assert!(centred.count() >= 2);
    let mut list = Vec::new();
    draw_entities(&mut list, &vec![boom], &sight(), &Vec::new(), &mut oracle);
    match &list[0] {
        Shape::Figure(Figure::Ring { r, .. }) => assert_eq!(f(*r), 4.0),
        _ => panic!("no ring"),
    }
}

#[test]
fn the_crosshair_knows_its_target() {
    let mut i = info(2, ShipClass::Scout);
    let es = vec![ship(5, 100.0, 200.0, i)];
    assert!(cursor_on_target(&es, Some(1), s(100.0), s(200.0)));
    assert!(!cursor_on_target(&es, Some(1), s(300.0), s(200.0)));
    assert!(!cursor_on_target(&es, Some(2), s(100.0), s(200.0)));
    assert!(!phaser_locked(&es, Some(2)));
    i.phaser_locked = true;
    assert!(phaser_locked(&vec![ship(5, 100.0, 200.0, i)], Some(2)));
    assert!(!phaser_locked(&vec![ship(5, 100.0, 200.0, i)], Some(1)));

    let mut oracle = Oracle::new(source());
    let mut list = Vec::new();
    draw_mouse_crosshair(&mut list, s(1.0), s(2.0), false, false, s(0.0), &mut oracle);
    assert!(!list.is_empty());
}

#[test]
fn the_border_goes_round_the_world() {
    let mut list = Vec::new();
    draw_world_border(&mut list);
    match &list[0] {
        Shape::Figure(Figure::Border { x, y, w, h, .. }) => {
            assert_eq!((f(*x), f(*y), f(*w), f(*h)), (0.0, 0.0, 10_000.0, 10_000.0));
        }
        _ => panic!("no border"),
    }
}

#[test]
fn the_camera_shakes() {
    let mut oracle = Oracle::new(source());
    let (x, y) = shake_camera(s(10.0), s(20.0), s(0.0), s(1.0), &mut oracle);
    assert_eq!((f(x), f(y)), (10.0, 20.0));
    let (x, y) = shake_camera(s(10.0), s(20.0), s(18.0), s(1.0), &mut oracle);
    assert!(f(x) != 10.0 || f(y) != 20.0);
    assert!((f(x) - 10.0).abs() <= 18.0 && (f(y) - 20.0).abs() <= 18.0);
}

#[test]
fn the_same_stars_are_seen_from_one_place() {
    let mut first = Vec::new();
    draw_starfield(&mut first, s(5000.0), s(5000.0));
    let mut again = Vec::new();
    draw_starfield(&mut again, s(5000.0), s(5000.0));
    assert!(!first.is_empty());
    assert_eq!(format!("{first:?}"), format!("{again:?}"));
    let mut other = Vec::new();
    draw_starfield(&mut other, s(100.0), s(9000.0));
    assert_ne!(format!("{first:?}"), format!("{other:?}"));
}

// ── Screens ───────────────────────────────────────────────────────────────────

#[test]
fn the_login_shows_the_server() {
    let mut list = Vec::new();
    draw_login_name(&mut list, &window(), "NOVA", false, "Sector 7", true);
    let words = texts(&list);
    assert_eq!(words[0], "FLEET COMMANDER");
    assert_eq!(words[1], "Sector 7");
    assert!(words.iter().any(|w| w.contains("NOVA")));
    let mut failed = Vec::new();
    draw_login_name(&mut failed, &window(), "NOV", true, "Sector 7", true);
    assert!(texts(&failed).len() > words.len());
}

#[test]
fn the_ship_list_shows_every_class() {
    let mut list = Vec::new();
    draw_ship_list(&mut list, s(400.0), s(100.0), 3);
    let words = texts(&list);
    for class in ["SCOUT", "DESTROYER", "CRUISER", "BATTLESHIP", "CARRIER"] {
        assert!(words.iter().any(|w| w.contains(class)));
    }
    assert_eq!(words.iter().filter(|w| *w == "CLOAK").count(), 3);
    assert!(words.iter().any(|w| w.starts_with('\u{25b6}') && w.contains("BATTLESHIP")));
    assert_eq!(class_label(ShipClass::Carrier), "CARRIER");
    let mut screen = Vec::new();
    draw_login_ship(&mut screen, &window(), 0, "Sector 7");
    assert!(texts(&screen).iter().any(|w| w == "Sector 7"));
}

#[test]
fn overlays_are_shown() {
    let mut list = Vec::new();
    draw_dead_overlay(&mut list, &window(), ShipClass::Cruiser, 2, s(7.5));
    assert!(list.iter().any(|x| match x {
        Shape::Text(t) => t.seconds.map(|n| f(n.value)) == Some(7.5),
        Shape::Figure(_) => false,
    }));
    let mut help = Vec::new();
    draw_help_overlay(&mut help, &window());
    assert!(texts(&help).len() > 20);
}

// ── Frames ────────────────────────────────────────────────────────────────────

fn moment() -> Moment {
    Moment {
        pointer: Pointer {
            x: s(400.0),
            y: s(300.0),
            moved: false,
            screen_width: s(800.0),
            screen_height: s(600.0),
        },
        time: s(1.0),
        loaded: nothing_loaded(),
        cursor: false,
    }
}

fn draw(r: &RenderState) -> Picture {
    let mut oracle = Oracle::new(source());
    r.draw(&moment(), &mut oracle)
}

#[test]
fn every_phase_has_its_picture() {
    let mut r = RenderState::new();
    let p = draw(&r);
    assert!(p.camera.is_none() && p.world.is_empty());
    assert!(texts(&p.overlay).iter().any(|w| w == "test server"));

    r.phase = AppPhase::Playing;
    let p = draw(&r);
    assert!(p.camera.is_none());
    assert_eq!(p.overlay.len(), 1);

    r.my_player_id = Some(1);
    r.handle_server_message(ServerMessage::GameState(GameStateSnapshot {
        tick: 5,
        entities: vec![ship(5, 700.0, 800.0, info(1, ShipClass::Scout))],
        scores: vec![row(1, "NOVA", 0, 0, true)],
    }));
    let p = draw(&r);
    assert_eq!(p.camera.map(|(x, y)| (f(x), f(y))), Some((700.0, 800.0)));
    let words = texts(&p.overlay);
    assert!(words.iter().any(|w| w == "tick 5"));
    assert!(words.iter().any(|w| w == "MAP"));
    assert!(words.iter().any(|w| w.starts_with("NOVA")));

    r.controls.show_minimap = false;
    let plain = texts(&draw(&r).overlay);
    assert!(!plain.iter().any(|w| w == "MAP"));
    r.controls.show_help = true;
    assert!(texts(&draw(&r).overlay).len() > plain.len());

    r.phase = AppPhase::DeadChoosing {
        previous_class: ShipClass::Scout,
        selected_idx: 0,
        countdown: s(9.0),
    };
    assert!(texts(&draw(&r).overlay).iter().any(|w| w.contains("BATTLESHIP")));
    r.phase = AppPhase::SelfDestructed;
    assert!(draw(&r).camera.is_some());
}
