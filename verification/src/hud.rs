//! What lies over the world: the gauges, the map and the scoreboard.
use vstd::prelude::*;
use vstd::string::*;

use crate::game::{
    class_stats, cloaks, name_of, world_width, EntityKind, EntityState, PlayerId, ShipInfo,
    ShipStats, world_side,
};
use crate::paint::{
    drawn, figure, ink, print, print_owned, print_seconds, text_at, timed_at, Anchor, Drawn, Figure,
    Ink, Named, Seconds, Shape,
};
use crate::protocol::PlayerScore;
use crate::scene::{fig, gauge, planet_type, share};
use crate::single::{
    absolute, difference, from_fraction, from_whole, greater, lesser, lt, product, quotient, sum,
    zero, Single,
};
use crate::sounds::{find_own_ship, own_ship};
use crate::text::{digits, push_number};

verus! {

/// A named ink.
pub open spec fn named(n: Named) -> Ink {
    Ink::Named(n)
}

/// A text that starts at a place in whole units.
pub open spec fn label(text: Seq<char>, x: int, y: int, size: int, ink: Ink) -> Drawn {
    text_at(text, from_whole(x), from_whole(y), from_whole(size), Anchor::Start, ink)
}

/// A gauge: its name, its level and its frame.
pub open spec fn gauge_shapes(
    name: Seq<char>,
    top: int,
    level: Single,
    color: Named,
) -> Seq<Drawn> {
    seq![
        label(name, 20, top + 12, 16, named(Named::White)),
        fig(
            Figure::Block {
                x: from_whole(64),
                y: from_whole(top),
                w: product(from_whole(150), level),
                h: from_whole(12),
                ink: named(color),
            },
        ),
        fig(
            Figure::Border {
                x: from_whole(64),
                y: from_whole(top),
                w: from_whole(150),
                h: from_whole(12),
                thickness: from_whole(1),
                ink: named(Named::DarkGray),
            },
        ),
    ]
}

/// The badges: the shields, and the cloak of a class that has one.
pub open spec fn badge_shapes(info: ShipInfo) -> Seq<Drawn> {
    let off = ink(40, 40, 40, 100);
    let shields = if info.shields_on {
        label("SHLD ON"@, 20, 100, 14, ink(30, 70, 100, 100))
    } else {
        label("SHLD OFF"@, 20, 100, 14, off)
    };
    let cloak = if info.cloaked {
        label("CLOAK"@, 100, 100, 14, ink(40, 90, 100, 100))
    } else {
        label("CLOAK OFF"@, 100, 100, 14, off)
    };
    if cloaks(info.class) {
        seq![shields, cloak]
    } else {
        seq![shields]
    }
}

/// The first `n` of the marks that stand for torpedoes: bright for one that is there, dark for one
/// that is spent.
pub open spec fn pips(count: u8, n: nat) -> Seq<Drawn>
    decreases n,
{
    if n == 0 {
        Seq::empty()
    } else {
        let i = n - 1;
        pips(count, i as nat).push(
            fig(
                Figure::Block {
                    x: sum(from_whole(64), product(from_whole(i), from_fraction(21, 2))),
                    y: from_whole(112),
                    w: from_whole(8),
                    h: from_whole(8),
                    ink: named(
                        if i < count {
                            Named::Yellow
                        } else {
                            Named::DarkGray
                        },
                    ),
                },
            ),
        )
    }
}

/// The gauges of the player's ship.
pub open spec fn ship_panel(info: ShipInfo) -> Seq<Drawn> {
    let stats = class_stats(info.class);
    gauge_shapes("HULL"@, 12, share(info.hull, stats.max_hull), Named::Red) + gauge_shapes(
        "SHLD"@,
        32,
        share(info.shields, stats.max_shields),
        Named::SkyBlue,
    ) + gauge_shapes("FUEL"@, 52, share(info.fuel, stats.fuel_capacity), Named::Orange) + seq![
        label(name_of(info.class), 20, 82, 14, named(Named::LightGray)),
    ] + badge_shapes(info) + seq![label("TORP"@, 20, 122, 14, named(Named::LightGray))] + pips(
        info.torpedo_count,
        6,
    )
}

/// The warning that the ship is about to destroy itself.
pub open spec fn countdown_shapes(countdown: Option<Single>, width: Single, height: Single) -> Seq<
    Drawn,
> {
    match countdown {
        Some(left) => {
            let x = quotient(width, from_whole(2));
            let y = difference(quotient(height, from_whole(2)), from_whole(60));
            seq![
                timed_at(
                    "SELF DESTRUCT IN  "@,
                    Seconds { value: greater(left, zero()), spaced: true },
                    x,
                    y,
                    from_whole(18),
                    Anchor::Middle,
                    named(Named::Red),
                    Some(ink(50, 0, 0, 75)),
                ),
                text_at(
                    "Move or click to cancel"@,
                    x,
                    sum(y, from_whole(18)),
                    from_whole(13),
                    Anchor::Middle,
                    ink(90, 40, 40, 90),
                ),
            ]
        },
        None => Seq::empty(),
    }
}

/// The tick counter and the reminder of the controls at the bottom.
pub open spec fn footer_shapes(tick: u64, width: Single, height: Single) -> Seq<Drawn> {
    let y = difference(height, from_whole(10));
    let gray = named(Named::DarkGray);
    seq![
        text_at(
            "tick "@ + digits(tick as nat),
            from_whole(20),
            y,
            from_whole(12),
            Anchor::Start,
            gray,
        ),
        text_at(
            "Mouse: aim  LMB/Space: torpedo  RMB/Shift: phaser  F: shields  C (hold): cloak  Ctrl+Q: self-destruct  M: map"@,
            difference(width, from_whole(10)),
            y,
            from_whole(12),
            Anchor::End,
            gray,
        ),
    ]
}

/// Everything at the edges of the window for a player who has been welcomed.
pub open spec fn hud_shapes(
    tick: u64,
    es: Seq<EntityState>,
    id: Option<PlayerId>,
    countdown: Option<Single>,
    width: Single,
    height: Single,
) -> Seq<Drawn> {
    if id is None {
        Seq::empty()
    } else {
        let panel = match own_ship(es, id) {
            Some(e) => match e.ship_info {
                Some(info) => ship_panel(info),
                None => Seq::empty(),
            },
            None => seq![
                label(
                    "DESTROYED — choose a ship and press R or ENTER"@,
                    20,
                    30,
                    18,
                    named(Named::Orange),
                ),
            ],
        };
        panel + countdown_shapes(countdown, width, height) + footer_shapes(tick, width, height)
    }
}

fn write_label(list: &mut Vec<Shape>, text: &str, x: i32, y: i32, size: i32, ink: Ink)
    ensures
        drawn(*final(list)) == drawn(*old(list)).push(
            label(text@, x as int, y as int, size as int, ink),
        ),
{
    print(
        list,
        text,
        Single::whole(x),
        Single::whole(y),
        Single::whole(size),
        Anchor::Start,
        ink,
    );
}

fn draw_gauge(list: &mut Vec<Shape>, name: &str, top: i32, level: Single, color: Named)
    requires
        0 <= top < 1000,
    ensures
        drawn(*final(list)) == drawn(*old(list)) + gauge_shapes(name@, top as int, level, color),
{
    write_label(list, name, 20, top + 12, 16, Ink::Named(Named::White));
    figure(
        list,
        Figure::Block {
            x: Single::whole(64),
            y: Single::whole(top),
            w: Single::whole(150).times(level),
            h: Single::whole(12),
            ink: Ink::Named(color),
        },
    );
    figure(
        list,
        Figure::Border {
            x: Single::whole(64),
            y: Single::whole(top),
            w: Single::whole(150),
            h: Single::whole(12),
            thickness: Single::whole(1),
            ink: Ink::Named(Named::DarkGray),
        },
    );
    assert(drawn(*list) =~= drawn(*old(list)) + gauge_shapes(name@, top as int, level, color));
}

fn draw_badges(list: &mut Vec<Shape>, info: &ShipInfo)
    ensures
        drawn(*final(list)) == drawn(*old(list)) + badge_shapes(*info),
{
    let off: Ink = Ink::mix(40, 40, 40, 100);
    if info.shields_on {
        write_label(list, "SHLD ON", 20, 100, 14, Ink::mix(30, 70, 100, 100));
    } else {
        write_label(list, "SHLD OFF", 20, 100, 14, off);
    }
    if info.class.can_cloak() {
        if info.cloaked {
            write_label(list, "CLOAK", 100, 100, 14, Ink::mix(40, 90, 100, 100));
        } else {
            write_label(list, "CLOAK OFF", 100, 100, 14, off);
        }
    }
    assert(drawn(*list) =~= drawn(*old(list)) + badge_shapes(*info));
}

fn draw_pips(list: &mut Vec<Shape>, count: u8)
    ensures
        drawn(*final(list)) == drawn(*old(list)) + pips(count, 6),
{
    let mut i: u8 = 0;
    proof {
        assert(drawn(*list) =~= drawn(*old(list)) + pips(count, 0));
    }
    while i < 6
        invariant
            i <= 6,
            drawn(*list) == drawn(*old(list)) + pips(count, i as nat),
        decreases 6 - i,
    {
        let color: Named = if i < count {
            Named::Yellow
        } else {
            Named::DarkGray
        };
        figure(
            list,
            Figure::Block {
                x: Single::whole(64).plus(Single::whole(i as i32).times(Single::fraction(21, 2))),
                y: Single::whole(112),
                w: Single::whole(8),
                h: Single::whole(8),
                ink: Ink::Named(color),
            },
        );
        i = i + 1;
        proof {
            assert(drawn(*list) =~= drawn(*old(list)) + pips(count, i as nat));
        }
    }
}

fn draw_panel(list: &mut Vec<Shape>, info: &ShipInfo)
    ensures
        drawn(*final(list)) == drawn(*old(list)) + ship_panel(*info),
{
    let stats: ShipStats = info.class.stats();
    draw_gauge(list, "HULL", 12, gauge(info.hull, stats.max_hull), Named::Red);
    draw_gauge(list, "SHLD", 32, gauge(info.shields, stats.max_shields), Named::SkyBlue);
    draw_gauge(list, "FUEL", 52, gauge(info.fuel, stats.fuel_capacity), Named::Orange);
    write_label(list, info.class.display_name(), 20, 82, 14, Ink::Named(Named::LightGray));
    draw_badges(list, info);
    write_label(list, "TORP", 20, 122, 14, Ink::Named(Named::LightGray));
    draw_pips(list, info.torpedo_count);
    assert(drawn(*list) =~= drawn(*old(list)) + ship_panel(*info));
}

fn draw_countdown(list: &mut Vec<Shape>, countdown: Option<Single>, width: Single, height: Single)
    ensures
        drawn(*final(list)) == drawn(*old(list)) + countdown_shapes(countdown, width, height),
{
    if let Some(left) = countdown {
        let x: Single = width.over(Single::whole(2));
        let y: Single = height.over(Single::whole(2)).minus(Single::whole(60));
        print_seconds(
            list,
            String::from_str("SELF DESTRUCT IN  "),
            Seconds { value: left.max(Single::nought()), spaced: true },
            x,
            y,
            Single::whole(18),
            Anchor::Middle,
            Ink::Named(Named::Red),
            Some(Ink::mix(50, 0, 0, 75)),
        );
        print(
            list,
            "Move or click to cancel",
            x,
            y.plus(Single::whole(18)),
            Single::whole(13),
            Anchor::Middle,
            Ink::mix(90, 40, 40, 90),
        );
    }
    assert(drawn(*list) =~= drawn(*old(list)) + countdown_shapes(countdown, width, height));
}

fn draw_footer(list: &mut Vec<Shape>, tick: u64, width: Single, height: Single)
    ensures
        drawn(*final(list)) == drawn(*old(list)) + footer_shapes(tick, width, height),
{
    let y: Single = height.minus(Single::whole(10));
    let mut text: String = String::from_str("tick ");
    push_number(&mut text, tick);
    print_owned(
        list,
        text,
        Single::whole(20),
        y,
        Single::whole(12),
        Anchor::Start,
        Ink::Named(Named::DarkGray),
    );
    print(
        list,
        "Mouse: aim  LMB/Space: torpedo  RMB/Shift: phaser  F: shields  C (hold): cloak  Ctrl+Q: self-destruct  M: map",
        width.minus(Single::whole(10)),
        y,
        Single::whole(12),
        Anchor::End,
        Ink::Named(Named::DarkGray),
    );
    assert(drawn(*list) =~= drawn(*old(list)) + footer_shapes(tick, width, height));
}

/// Draws the gauges and what else lies at the edges of the window.
pub fn draw_hud(
    list: &mut Vec<Shape>,
    tick: u64,
    es: &Vec<EntityState>,
    id: Option<PlayerId>,
    countdown: Option<Single>,
    width: Single,
    height: Single,
)
    ensures
        drawn(*final(list)) == drawn(*old(list)) + hud_shapes(
            tick,
            es@,
            id,
            countdown,
            width,
            height,
        ),
{
    if id.is_none() {
        assert(drawn(*list) =~= drawn(*old(list)) + Seq::empty());
        return;
    }
    match find_own_ship(es, id) {
        Some(e) => {
            if let Some(info) = e.ship_info {
                draw_panel(list, &info);
            }
        },
        None => {
            write_label(
                list,
                "DESTROYED — choose a ship and press R or ENTER",
                20,
                30,
                18,
                Ink::Named(Named::Orange),
            );
        },
    }
    draw_countdown(list, countdown, width, height);
    draw_footer(list, tick, width, height);
    assert(drawn(*list) =~= drawn(*old(list)) + hud_shapes(
        tick,
        es@,
        id,
        countdown,
        width,
        height,
    ));
}

/// The map in the corner: its corner, its side, and the place in its middle.
#[derive(Debug, Clone, Copy)]
pub struct Chart {
    pub x: Single,
    pub y: Single,
    pub side: Single,
    pub cx: Single,
    pub cy: Single,
}

/// The map of a window: a square in the lower right corner around the player's ship, or else
/// around the middle of the world.
pub open spec fn chart_of(
    es: Seq<EntityState>,
    id: Option<PlayerId>,
    width: Single,
    height: Single,
) -> Chart {
    let side = lesser(quotient(width, from_whole(6)), quotient(height, from_whole(2)));
    let (cx, cy) = match own_ship(es, id) {
        Some(e) => (e.x, e.y),
        None => (from_whole(5000), from_whole(5000)),
    };
    Chart {
        x: difference(difference(width, side), from_whole(10)),
        y: difference(difference(height, side), from_whole(10)),
        side,
        cx,
        cy,
    }
}

/// The way from one coordinate to another, the short way round the torus.
pub open spec fn short_way(from: Single, to: Single) -> Single {
    let d = difference(to, from);
    let e = if lt(from_whole(5000), d) {
        difference(d, world_side())
    } else {
        d
    };
    if lt(e, from_whole(-5000)) {
        sum(e, world_side())
    } else {
        e
    }
}

/// The place of a way on one side of the map.
pub open spec fn charted(start: Single, side: Single, d: Single) -> Single {
    sum(
        start,
        product(sum(quotient(d, from_whole(5000)), from_fraction(1, 2)), side),
    )
}

/// The place of something on the map, if it is within a quarter of the world.
pub open spec fn on_chart(c: Chart, x: Single, y: Single) -> Option<(Single, Single)> {
    let dx = short_way(c.cx, x);
    let dy = short_way(c.cy, y);
    let reach = from_whole(2500);
    if lt(reach, absolute(dx)) || lt(reach, absolute(dy)) {
        None
    } else {
        Some((charted(c.x, c.side, dx), charted(c.y, c.side, dy)))
    }
}

/// The place of something on the map.
pub fn to_map(c: &Chart, x: Single, y: Single) -> (r: Option<(Single, Single)>)
    ensures
        r == on_chart(*c, x, y),
{
    let dx: Single = go_round(c.cx, x);
    let dy: Single = go_round(c.cy, y);
    let reach: Single = Single::whole(2500);
    if reach.is_less(dx.abs()) || reach.is_less(dy.abs()) {
        return None;
    }
    let half: Single = Single::fraction(1, 2);
    let span: Single = Single::whole(5000);
    Some(
        (
            c.x.plus(dx.over(span).plus(half).times(c.side)),
            c.y.plus(dy.over(span).plus(half).times(c.side)),
        ),
    )
}

fn go_round(from: Single, to: Single) -> (r: Single)
    ensures
        r == short_way(from, to),
{
    let mut d: Single = to.minus(from);
    if Single::whole(5000).is_less(d) {
        d = d.minus(world_width());
    }
    if d.is_less(Single::whole(-5000)) {
        d = d.plus(world_width());
    }
    d
}

/// The short name of a type of planet.
pub open spec fn planet_short(kind: u32) -> Seq<char> {
    match kind {
        0 => "Dur"@,
        1 => "Nab"@,
        2 => "Aqu"@,
        3 => "Pyr"@,
        _ => "Gla"@,
    }
}

/// The short name of a type of planet.
pub fn planet_abbr(planet_type: u32) -> (r: &'static str)
    ensures
        r@ == planet_short(planet_type),
{
    match planet_type {
        0 => "Dur",
        1 => "Nab",
        2 => "Aqu",
        3 => "Pyr",
        _ => "Gla",
    }
}

/// The colour of a type of planet on the map.
pub open spec fn planet_dot(kind: u32) -> Ink {
    match kind {
        0 => ink(60, 40, 20, 100),
        1 => ink(90, 60, 18, 100),
        2 => ink(18, 42, 90, 100),
        3 => ink(80, 18, 6, 100),
        _ => ink(72, 88, 100, 100),
    }
}

/// The colour of a type of planet on the map.
pub fn planet_minimap_color(planet_type: u32) -> (r: Ink)
    ensures
        r == planet_dot(planet_type),
{
    match planet_type {
        0 => Ink::mix(60, 40, 20, 100),
        1 => Ink::mix(90, 60, 18, 100),
        2 => Ink::mix(18, 42, 90, 100),
        3 => Ink::mix(80, 18, 6, 100),
        _ => Ink::mix(72, 88, 100, 100),
    }
}

/// What the map is drawn of, in this order.
#[derive(Debug, Clone, Copy, PartialEq, Eq, Structural)]
pub enum Layer {
    Planets,
    Asteroids,
    Ships,
}

/// A symbol in the middle of a place.
pub open spec fn symbol(text: Seq<char>, x: Single, y: Single, size: int, ink: Ink) -> Drawn {
    text_at(text, x, y, from_whole(size), Anchor::Centre, ink)
}

/// The mark of an entity at a place of the map: planets with their short names, big asteroids, and
/// ships, of which the player's own has another mark.
pub open spec fn chart_mark(
    layer: Layer,
    e: EntityState,
    id: Option<PlayerId>,
    x: Single,
    y: Single,
) -> Seq<Drawn> {
    match layer {
        Layer::Planets => if e.kind == EntityKind::Planet {
            seq![
                fig(
                    Figure::Disc { x, y, r: from_whole(5), ink: planet_dot(planet_type(e)) },
                ),
                text_at(
                    planet_short(planet_type(e)),
                    x,
                    sum(sum(y, from_whole(5)), from_whole(8)),
                    from_whole(8),
                    Anchor::Middle,
                    ink(80, 88, 100, 88),
                ),
            ]
        } else {
            Seq::empty()
        },
        Layer::Asteroids => if e.kind == EntityKind::Asteroid && !lt(e.vx, from_whole(50)) {
            seq![symbol("#"@, x, y, 9, ink(100, 55, 0, 85))]
        } else {
            Seq::empty()
        },
        Layer::Ships => match e.ship_info {
            Some(info) => if e.kind == EntityKind::Ship {
                seq![
                    if id == Some(info.player_id) {
                        symbol("*"@, x, y, 10, ink(20, 100, 20, 100))
                    } else {
                        symbol("?"@, x, y, 10, ink(90, 70, 20, 90))
                    },
                ]
            } else {
                Seq::empty()
            },
            None => Seq::empty(),
        },
    }
}

/// One layer of the map.
pub open spec fn chart_layer(
    layer: Layer,
    es: Seq<EntityState>,
    id: Option<PlayerId>,
    c: Chart,
) -> Seq<Drawn>
    decreases es.len(),
{
    if es.len() == 0 {
        Seq::empty()
    } else {
        let e = es.last();
        let front = chart_layer(layer, es.drop_last(), id, c);
        match on_chart(c, e.x, e.y) {
            Some((x, y)) => front + chart_mark(layer, e, id, x, y),
            None => front,
        }
    }
}

/// The ground of the map, with its title.
pub open spec fn chart_ground(c: Chart) -> Seq<Drawn> {
    seq![
        fig(
            Figure::Block { x: c.x, y: c.y, w: c.side, h: c.side, ink: ink(2, 4, 10, 72) },
        ),
        fig(
            Figure::Border {
                x: c.x,
                y: c.y,
                w: c.side,
                h: c.side,
                thickness: from_whole(1),
                ink: ink(35, 50, 65, 80),
            },
        ),
        text_at(
            "MAP"@,
            sum(c.x, from_whole(4)),
            sum(c.y, from_whole(10)),
            from_whole(10),
            Anchor::Start,
            ink(50, 60, 70, 70),
        ),
    ]
}

/// The whole map.
pub open spec fn minimap_shapes(
    es: Seq<EntityState>,
    id: Option<PlayerId>,
    width: Single,
    height: Single,
) -> Seq<Drawn> {
    let c = chart_of(es, id, width, height);
    chart_ground(c) + chart_layer(Layer::Planets, es, id, c) + chart_layer(
        Layer::Asteroids,
        es,
        id,
        c,
    ) + chart_layer(Layer::Ships, es, id, c) + seq![
        text_at(
            "[M] hide"@,
            difference(sum(c.x, c.side), from_whole(3)),
            difference(sum(c.y, c.side), from_whole(3)),
            from_whole(8),
            Anchor::End,
            ink(38, 42, 50, 70),
        ),
    ]
}

fn draw_mark(
    list: &mut Vec<Shape>,
    layer: Layer,
    e: &EntityState,
    id: Option<PlayerId>,
    x: Single,
    y: Single,
)
    ensures
        drawn(*final(list)) == drawn(*old(list)) + chart_mark(layer, *e, id, x, y),
{
    match layer {
        Layer::Planets => {
            if e.kind == EntityKind::Planet {
                let kind: u32 = e.vy.to_count();
                figure(
                    list,
                    Figure::Disc { x, y, r: Single::whole(5), ink: planet_minimap_color(kind) },
                );
                print(
                    list,
                    planet_abbr(kind),
                    x,
                    y.plus(Single::whole(5)).plus(Single::whole(8)),
                    Single::whole(8),
                    Anchor::Middle,
                    Ink::mix(80, 88, 100, 88),
                );
            }
        },
        Layer::Asteroids => {
            if e.kind == EntityKind::Asteroid && !e.vx.is_less(Single::whole(50)) {
                print(
                    list,
                    "#",
                    x,
                    y,
                    Single::whole(9),
                    Anchor::Centre,
                    Ink::mix(100, 55, 0, 85),
                );
            }
        },
        Layer::Ships => {
            if let Some(info) = e.ship_info {
                if e.kind == EntityKind::Ship {
                    let is_me: bool = match id {
                        Some(pid) => pid == info.player_id,
                        None => false,
                    };
                    if is_me {
                        print(
                            list,
                            "*",
                            x,
                            y,
                            Single::whole(10),
                            Anchor::Centre,
                            Ink::mix(20, 100, 20, 100),
                        );
                    } else {
                        print(
                            list,
                            "?",
                            x,
                            y,
                            Single::whole(10),
                            Anchor::Centre,
                            Ink::mix(90, 70, 20, 90),
                        );
                    }
                }
            }
        },
    }
    assert(drawn(*list) =~= drawn(*old(list)) + chart_mark(layer, *e, id, x, y));
}

fn draw_layer(
    list: &mut Vec<Shape>,
    layer: Layer,
    es: &Vec<EntityState>,
    id: Option<PlayerId>,
    c: &Chart,
)
    ensures
        drawn(*final(list)) == drawn(*old(list)) + chart_layer(layer, es@, id, *c),
{
    let mut i: usize = 0;
    proof {
        assert(drawn(*list) =~= drawn(*old(list)) + chart_layer(layer, es@.take(0), id, *c));
    }
    while i < es.len()
        invariant
            i <= es.len(),
            drawn(*list) == drawn(*old(list)) + chart_layer(layer, es@.take(i as int), id, *c),
        decreases es.len() - i,
    {
        let e: EntityState = es[i];
        if let Some((x, y)) = to_map(c, e.x, e.y) {
            draw_mark(list, layer, &e, id, x, y);
        }
        i = i + 1;
        proof {
            assert(es@.take(i as int).drop_last() =~= es@.take(i - 1));
            assert(drawn(*list) =~= drawn(*old(list)) + chart_layer(
                layer,
                es@.take(i as int),
                id,
                *c,
            ));
        }
    }
    proof {
        assert(es@.take(i as int) =~= es@);
    }
}

/// Draws the map.
pub fn draw_minimap(
    list: &mut Vec<Shape>,
    es: &Vec<EntityState>,
    id: Option<PlayerId>,
    width: Single,
    height: Single,
)
    ensures
        drawn(*final(list)) == drawn(*old(list)) + minimap_shapes(es@, id, width, height),
{
    let side: Single = width.over(Single::whole(6)).min(height.over(Single::whole(2)));
    let (cx, cy) = match find_own_ship(es, id) {
        Some(e) => (e.x, e.y),
        None => (Single::whole(5000), Single::whole(5000)),
    };
    let ten: Single = Single::whole(10);
    let c: Chart = Chart {
        x: width.minus(side).minus(ten),
        y: height.minus(side).minus(ten),
        side,
        cx,
        cy,
    };
    figure(
        list,
        Figure::Block { x: c.x, y: c.y, w: side, h: side, ink: Ink::mix(2, 4, 10, 72) },
    );
    figure(
        list,
        Figure::Border {
            x: c.x,
            y: c.y,
            w: side,
            h: side,
            thickness: Single::whole(1),
            ink: Ink::mix(35, 50, 65, 80),
        },
    );
    print(
        list,
        "MAP",
        c.x.plus(Single::whole(4)),
        c.y.plus(ten),
        ten,
        Anchor::Start,
        Ink::mix(50, 60, 70, 70),
    );
    assert(drawn(*list) =~= drawn(*old(list)) + chart_ground(c));
    draw_layer(list, Layer::Planets, es, id, &c);
    draw_layer(list, Layer::Asteroids, es, id, &c);
    draw_layer(list, Layer::Ships, es, id, &c);
    print(
        list,
        "[M] hide",
        c.x.plus(side).minus(Single::whole(3)),
        c.y.plus(side).minus(Single::whole(3)),
        Single::whole(8),
        Anchor::End,
        Ink::mix(38, 42, 50, 70),
    );
    assert(drawn(*list) =~= drawn(*old(list)) + minimap_shapes(es@, id, width, height));
}

/// Whether one row stands above another: more kills, or as many and a higher score.
pub open spec fn outranks(a: PlayerScore, b: PlayerScore) -> bool {
    a.kills > b.kills || a.kills == b.kills && a.score > b.score
}

/// The place of a new row: above the first that it outranks.
pub open spec fn place_of(rows: Seq<PlayerScore>, row: PlayerScore) -> int
    decreases rows.len(),
{
    if rows.len() == 0 {
        0
    } else {
        let p = place_of(rows.drop_last(), row);
        if p < rows.len() - 1 {
            p
        } else if outranks(row, rows.last()) {
            rows.len() - 1
        } else {
            rows.len() as int
        }
    }
}

/// The rows by rank; rows of one rank keep their order.
pub open spec fn ranked(rows: Seq<PlayerScore>) -> Seq<PlayerScore>
    decreases rows.len(),
{
    if rows.len() == 0 {
        Seq::empty()
    } else {
        let front = ranked(rows.drop_last());
        front.insert(place_of(front, rows.last()), rows.last())
    }
}

/// A place is within the rows, none above it is outranked, and the one at it is.
proof fn lemma_place(rows: Seq<PlayerScore>, row: PlayerScore)
    ensures
        0 <= place_of(rows, row) <= rows.len(),
        forall|i: int| 0 <= i < place_of(rows, row) ==> !outranks(row, #[trigger] rows[i]),
        place_of(rows, row) < rows.len() ==> outranks(row, rows[place_of(rows, row)]),
    decreases rows.len(),
{
    if rows.len() > 0 {
        let front = rows.drop_last();
        lemma_place(front, row);
        let p = place_of(rows, row);
        assert forall|i: int| 0 <= i < p implies !outranks(row, #[trigger] rows[i]) by {
            if i < front.len() {
                assert(front[i] == rows[i]);
            }
        }
        if p < front.len() {
            assert(front[p] == rows[p]);
        }
    }
}

/// Whether no row is outranked by a later one.
pub open spec fn in_rank_order(rows: Seq<PlayerScore>) -> bool {
    forall|i: int, j: int|
        0 <= i < j < rows.len() ==> !outranks(#[trigger] rows[j], #[trigger] rows[i])
}

/// The scoreboard shows every row once, by kills and then by score.
pub proof fn law_scoreboard_is_ranked(rows: Seq<PlayerScore>)
    ensures
        in_rank_order(ranked(rows)),
        forall|i: int, j: int|
            #![trigger ranked(rows)[i], ranked(rows)[j]]
            0 <= i < j < ranked(rows).len() ==> ranked(rows)[i].kills > ranked(rows)[j].kills
                || ranked(rows)[i].kills == ranked(rows)[j].kills && ranked(rows)[i].score
                >= ranked(rows)[j].score,
        ranked(rows).to_multiset() == rows.to_multiset(),
        ranked(rows).len() == rows.len(),
    decreases rows.len(),
{
    broadcast use vstd::seq_lib::group_to_multiset_ensures;

    if rows.len() > 0 {
        let front = ranked(rows.drop_last());
        let row = rows.last();
        law_scoreboard_is_ranked(rows.drop_last());
        lemma_place(front, row);
        let p = place_of(front, row);
        let all = ranked(rows);
        assert(rows =~= rows.drop_last().push(row));
        assert(all.to_multiset() =~= front.to_multiset().insert(row)) by {
            assert(all[p] == row);
            assert(all.remove(p) =~= front);
            assert(all.to_multiset().count(row) > 0);
        }
        assert forall|i: int, j: int| 0 <= i < j < all.len() implies !outranks(
            #[trigger] all[j],
            #[trigger] all[i],
        ) by {
            let fi = if i < p {
                i
            } else {
                i - 1
            };
            let fj = if j < p {
                j
            } else {
                j - 1
            };
            if i != p {
                assert(all[i] == front[fi]);
            }
            if j != p {
                assert(all[j] == front[fj]);
            }
            if i == p {
                assert(outranks(row, front[p]));
                if fj > p {
                    assert(!outranks(front[fj], front[p]));
                }
            }
        }
    } else {
        assert(rows =~= Seq::empty());
    }
}

/// The line of a row.
pub open spec fn row_text(s: PlayerScore) -> Seq<char> {
    s.username@ + " "@ + digits(s.kills as nat) + "/"@ + digits(s.deaths as nat) + " pts:"@
        + digits(s.score as nat) + if s.alive {
        ""@
    } else {
        " (dead)"@
    }
}

/// The height of a row.
pub open spec fn row_y(i: nat) -> Single
    decreases i,
{
    if i == 0 {
        sum(from_whole(20), from_whole(18))
    } else {
        sum(row_y((i - 1) as nat), from_whole(16))
    }
}

/// The first `n` rows.
pub open spec fn row_shapes(
    rows: Seq<PlayerScore>,
    id: Option<PlayerId>,
    x: Single,
    n: nat,
) -> Seq<Drawn>
    decreases n,
{
    if n == 0 {
        Seq::empty()
    } else {
        let s = rows[n - 1];
        row_shapes(rows, id, x, (n - 1) as nat).push(
            text_at(
                row_text(s),
                x,
                row_y((n - 1) as nat),
                from_whole(13),
                Anchor::Start,
                named(
                    if id == Some(s.player_id) {
                        Named::Green
                    } else {
                        Named::LightGray
                    },
                ),
            ),
        )
    }
}

/// The scoreboard, where there is anybody on it.
pub open spec fn scoreboard_shapes(
    scores: Seq<PlayerScore>,
    id: Option<PlayerId>,
    width: Single,
) -> Seq<Drawn> {
    if scores.len() == 0 {
        Seq::empty()
    } else {
        let x = difference(width, from_whole(200));
        seq![
            text_at(
                "── SCORES ──"@,
                x,
                from_whole(20),
                from_whole(14),
                Anchor::Start,
                named(Named::White),
            ),
        ] + row_shapes(ranked(scores), id, x, ranked(scores).len())
    }
}

/// The rows by rank.
pub fn rank(scores: &Vec<PlayerScore>) -> (r: Vec<PlayerScore>)
    ensures
        r@ == ranked(scores@),
{
    let mut r: Vec<PlayerScore> = Vec::new();
    let mut i: usize = 0;
    while i < scores.len()
        invariant
            i <= scores.len(),
            r@ == ranked(scores@.take(i as int)),
        decreases scores.len() - i,
    {
        let row: PlayerScore = scores[i].clone();
        let mut p: usize = 0;
        let mut k: usize = 0;
        while k < r.len()
            invariant
                p <= k <= r.len(),
                row == scores@[i as int],
                p == place_of(r@.take(k as int), row),
            decreases r.len() - k,
        {
            proof {
                assert(r@.take(k + 1).drop_last() =~= r@.take(k as int));
            }
            if p == k {
                let above: bool = row.kills > r[k].kills || row.kills == r[k].kills && row.score
                    > r[k].score;
                if !above {
                    p = k + 1;
                }
            }
            k = k + 1;
        }
        proof {
            assert(r@.take(k as int) =~= r@);
            assert(scores@.take(i + 1).drop_last() =~= scores@.take(i as int));
        }
        r.insert(p, row);
        i = i + 1;
    }
    proof {
        assert(scores@.take(i as int) =~= scores@);
    }
    r
}

fn write_row(s: &PlayerScore) -> (r: String)
    ensures
        r@ == row_text(*s),
{
    let mut text: String = s.username.clone();
    text.append(" ");
    push_number(&mut text, s.kills as u64);
    text.append("/");
    push_number(&mut text, s.deaths as u64);
    text.append(" pts:");
    push_number(&mut text, s.score as u64);
    if s.alive {
        text.append("");
    } else {
        text.append(" (dead)");
    }
    text
}

/// Draws the scoreboard.
pub fn draw_scoreboard(
    list: &mut Vec<Shape>,
    scores: &Vec<PlayerScore>,
    id: Option<PlayerId>,
    width: Single,
)
    ensures
        drawn(*final(list)) == drawn(*old(list)) + scoreboard_shapes(scores@, id, width),
{
    if scores.len() == 0 {
        assert(drawn(*list) =~= drawn(*old(list)) + Seq::empty());
        return;
    }
    let x: Single = width.minus(Single::whole(200));
    let mut y: Single = Single::whole(20);
    print(
        list,
        "── SCORES ──",
        x,
        y,
        Single::whole(14),
        Anchor::Start,
        Ink::Named(Named::White),
    );
    let ghost titled = drawn(*list);
    y = y.plus(Single::whole(18));
    let rows: Vec<PlayerScore> = rank(scores);
    let mut i: usize = 0;
    proof {
        assert(drawn(*list) =~= titled + row_shapes(rows@, id, x, 0));
    }
    while i < rows.len()
        invariant
            i <= rows.len(),
            y == row_y(i as nat),
            drawn(*list) == titled + row_shapes(rows@, id, x, i as nat),
        decreases rows.len() - i,
    {
        let is_me: bool = match id {
            Some(pid) => pid == rows[i].player_id,
            None => false,
        };
        let color: Named = if is_me {
            Named::Green
        } else {
            Named::LightGray
        };
        print_owned(
            list,
            write_row(&rows[i]),
            x,
            y,
            Single::whole(13),
            Anchor::Start,
            Ink::Named(color),
        );
        y = y.plus(Single::whole(16));
        i = i + 1;
        proof {
            assert(drawn(*list) =~= titled + row_shapes(rows@, id, x, i as nat));
        }
    }
    proof {
        assert(drawn(*list) =~= drawn(*old(list)) + scoreboard_shapes(scores@, id, width));
    }
}

} // verus!
