//! The world as a client shows it: stars, ships, weapons, planets and the crosshair.
use vstd::prelude::*;
use vstd::string::*;

use crate::game::{
    class_stats, full_turn, tau, world_side, world_width, EntityKind, EntityState, PlayerId,
    ShipClass, ShipInfo,
};
use crate::oracle::{
    lemma_follows, lemma_since_chain, lemma_since_now, lemma_past, past, told, Ask, Oracle, Trace,
};
use crate::paint::{
    drawn, figure, ink, is_loaded, planet_sprite, ship_sprite, text_at, veil, print, Anchor, Color,
    Drawn, Figure, Ink, Loaded, Named, Shape, Sprite, mixed,
};
use crate::protocol::PlayerScore;
use crate::single::{
    clamped, difference, from_fraction, from_whole, lt, product, quotient, root, sum, zero, Single,
};
use crate::sounds::is_own;
use crate::whole::{converted, truncation_of};

verus! {

broadcast use lemma_follows;

/// What a drawing depends on beside the entities.
#[derive(Debug, Clone, Copy)]
pub struct Sight {
    pub my_id: Option<PlayerId>,
    /// Seconds since the start, for what pulses.
    pub time: Single,
    pub loaded: Loaded,
}

/// A figure as a thing to draw.
pub open spec fn fig(f: Figure) -> Drawn {
    Drawn::Figure(f)
}

/// The type of a planet, which its `vy` carries.
pub open spec fn planet_type(e: EntityState) -> u32 {
    converted(e.vy, truncation_of(e.vy), 0, u32::MAX as int) as u32
}

/// The name of a type of planet.
pub open spec fn planet_title(kind: u32) -> Seq<char> {
    match kind {
        0 => "Duronn"@,
        1 => "Nabulon"@,
        2 => "Aquaris"@,
        3 => "Pyraxis"@,
        _ => "Glaciera"@,
    }
}

/// The name of a type of planet.
pub fn planet_name(planet_type: u32) -> (r: &'static str)
    ensures
        r@ == planet_title(planet_type),
{
    match planet_type {
        0 => "Duronn",
        1 => "Nabulon",
        2 => "Aquaris",
        3 => "Pyraxis",
        _ => "Glaciera",
    }
}

/// The size at which a class is drawn.
pub open spec fn class_size(class: ShipClass) -> Single {
    match class {
        ShipClass::Scout => from_whole(10),
        ShipClass::Destroyer => from_whole(14),
        ShipClass::Cruiser => from_whole(18),
        ShipClass::Battleship => from_whole(24),
        ShipClass::Carrier => from_whole(20),
    }
}

/// The size at which a class is drawn.
pub fn ship_size(class: ShipClass) -> (r: Single)
    ensures
        r == class_size(class),
{
    match class {
        ShipClass::Scout => Single::whole(10),
        ShipClass::Destroyer => Single::whole(14),
        ShipClass::Cruiser => Single::whole(18),
        ShipClass::Battleship => Single::whole(24),
        ShipClass::Carrier => Single::whole(20),
    }
}

/// The colour of a class; the player's own ship is green.
pub open spec fn class_color(class: ShipClass, is_me: bool) -> Named {
    if is_me {
        Named::Green
    } else {
        match class {
            ShipClass::Scout => Named::Lime,
            ShipClass::Destroyer => Named::Blue,
            ShipClass::Cruiser => Named::Purple,
            ShipClass::Battleship => Named::Red,
            ShipClass::Carrier => Named::Gold,
        }
    }
}

/// The colour of a class.
pub fn ship_color(class: ShipClass, is_me: bool) -> (r: Named)
    ensures
        r == class_color(class, is_me),
{
    if is_me {
        return Named::Green;
    }
    match class {
        ShipClass::Scout => Named::Lime,
        ShipClass::Destroyer => Named::Blue,
        ShipClass::Cruiser => Named::Purple,
        ShipClass::Battleship => Named::Red,
        ShipClass::Carrier => Named::Gold,
    }
}

/// A share of a maximum, from zero to one.
pub open spec fn share(value: Single, max: Single) -> Single {
    clamped(quotient(value, max), zero(), from_whole(1))
}

/// A share of a maximum, from zero to one.
pub fn gauge(value: Single, max: Single) -> (r: Single)
    ensures
        r == share(value, max),
{
    value.over(max).clamp(Single::nought(), Single::whole(1))
}

/// A wave between zero and one, from a sine.
pub open spec fn pulse(sine: Single) -> Single {
    sum(product(sine, from_fraction(1, 2)), from_fraction(1, 2))
}

fn pulse_of(sine: Single) -> (r: Single)
    ensures
        r == pulse(sine),
{
    let half: Single = Single::fraction(1, 2);
    sine.times(half).plus(half)
}

/// A torpedo: a core and a glow that shimmers; both fade over the last sixty units.
pub open spec fn torpedo_shapes(e: EntityState, time: Single, t: Trace) -> (Seq<Drawn>, Trace) {
    let life = share(e.vy, from_whole(60));
    let q = Ask::Sin(sum(product(time, from_whole(10)), e.angle));
    let shimmer = pulse(told(t, 0, q));
    (
        seq![
            fig(
                Figure::Disc {
                    x: e.x,
                    y: e.y,
                    r: product(
                        sum(from_whole(2), product(shimmer, from_fraction(3, 2))),
                        life,
                    ),
                    ink: veil(
                        100,
                        10,
                        10,
                        product(
                            sum(from_fraction(1, 4), product(shimmer, from_fraction(45, 100))),
                            life,
                        ),
                    ),
                },
            ),
            fig(
                Figure::Disc {
                    x: e.x,
                    y: e.y,
                    r: product(from_whole(2), life),
                    ink: veil(100, 35, 35, life),
                },
            ),
        ],
        past(t, seq![q]),
    )
}

/// A phaser beam; `vx` carries its length.
pub open spec fn phaser_shapes(e: EntityState, t: Trace) -> (Seq<Drawn>, Trace) {
    let x2 = sum(e.x, product(told(t, 0, Ask::Cos(e.angle)), e.vx));
    let y2 = sum(e.y, product(told(t, 1, Ask::Sin(e.angle)), e.vx));
    (
        seq![
            fig(
                Figure::Line {
                    x1: e.x,
                    y1: e.y,
                    x2,
                    y2,
                    thickness: from_whole(2),
                    ink: ink(30, 90, 100, 90),
                },
            ),
            fig(
                Figure::Line {
                    x1: e.x,
                    y1: e.y,
                    x2,
                    y2,
                    thickness: from_fraction(4, 5),
                    ink: ink(80, 100, 100, 100),
                },
            ),
        ],
        past(t, seq![Ask::Cos(e.angle), Ask::Sin(e.angle)]),
    )
}

/// How far an explosion has come, from zero to one; `vx` carries its lifetime, and `vy` what is
/// left of it.
pub open spec fn explosion_age(e: EntityState) -> Single {
    if lt(zero(), e.vx) {
        clamped(
            difference(from_whole(1), quotient(e.vy, e.vx)),
            zero(),
            from_whole(1),
        )
    } else {
        from_whole(1)
    }
}

/// An explosion: a ring that grows, and a core that fades.
pub open spec fn explosion_shapes(e: EntityState) -> Seq<Drawn> {
    let age = explosion_age(e);
    let left = difference(from_whole(1), age);
    seq![
        fig(
            Figure::Ring {
                x: e.x,
                y: e.y,
                r: sum(from_whole(4), product(age, from_whole(22))),
                thickness: from_fraction(3, 2),
                ink: veil(100, 60, 10, product(left, from_fraction(9, 10))),
            },
        ),
        fig(
            Figure::Disc {
                x: e.x,
                y: e.y,
                r: product(from_whole(7), root(left)),
                ink: veil(100, 40, 0, product(left, from_fraction(85, 100))),
            },
        ),
    ]
}

/// A piece of debris: a short line, whose length goes by the id.
pub open spec fn debris_shapes(e: EntityState, t: Trace) -> (Seq<Drawn>, Trace) {
    let len = sum(
        from_whole(3),
        product(from_whole((e.id % 4) as int), from_fraction(3, 2)),
    );
    let dx = product(told(t, 0, Ask::Cos(e.angle)), len);
    let dy = product(told(t, 1, Ask::Sin(e.angle)), len);
    (
        seq![
            fig(
                Figure::Line {
                    x1: difference(e.x, dx),
                    y1: difference(e.y, dy),
                    x2: sum(e.x, dx),
                    y2: sum(e.y, dy),
                    thickness: from_whole(2),
                    ink: ink(75, 45, 15, 85),
                },
            ),
        ],
        past(t, seq![Ask::Cos(e.angle), Ask::Sin(e.angle)]),
    )
}

/// A radius that an entity carries in `vx`, or another where it carries none.
pub open spec fn carried_radius(e: EntityState, other: int) -> Single {
    if lt(zero(), e.vx) {
        e.vx
    } else {
        from_whole(other)
    }
}

/// An asteroid.
pub open spec fn asteroid_shapes(e: EntityState, loaded: Loaded) -> Seq<Drawn> {
    let radius = carried_radius(e, 30);
    if loaded.asteroid {
        seq![
            fig(
                Figure::Picture {
                    sprite: Sprite::Asteroid,
                    x: e.x,
                    y: e.y,
                    side: product(radius, from_whole(2)),
                    turn: zero(),
                    ink: Ink::Named(Named::White),
                },
            ),
        ]
    } else {
        seq![
            fig(
                Figure::Hexagon {
                    x: e.x,
                    y: e.y,
                    r: radius,
                    turn: e.angle,
                    thickness: from_whole(2),
                    ink: Ink::Named(Named::Gray),
                },
            ),
        ]
    }
}

/// The colours of a type of planet: the base, the features, the highlight, and how dense the
/// atmosphere is.
pub open spec fn planet_palette(kind: u32) -> (Color, Color, Color, Single) {
    match kind {
        0 => (
            mixed(53, 36, 20, 100),
            mixed(38, 26, 14, 100),
            mixed(78, 60, 40, 100),
            from_fraction(18, 100),
        ),
        1 => (
            mixed(78, 52, 18, 100),
            mixed(56, 32, 8, 100),
            mixed(96, 82, 50, 100),
            from_fraction(22, 100),
        ),
        2 => (
            mixed(10, 24, 70, 100),
            mixed(5, 48, 28, 100),
            mixed(35, 65, 100, 100),
            from_fraction(22, 100),
        ),
        3 => (
            mixed(52, 8, 2, 100),
            mixed(90, 20, 2, 100),
            mixed(100, 45, 5, 100),
            from_fraction(30, 100),
        ),
        _ => (
            mixed(72, 86, 100, 100),
            mixed(58, 76, 94, 100),
            mixed(96, 98, 100, 100),
            from_fraction(20, 100),
        ),
    }
}

/// A colour with another opacity.
pub open spec fn tinted(c: Color, a: Single) -> Ink {
    Ink::Mixed(Color { a, ..c })
}

/// A coordinate that lies some hundredths of a planet's radius from its middle.
pub open spec fn beside(c: Single, r: Single, n: int) -> Single {
    if n == 0 {
        c
    } else {
        sum(c, product(r, from_fraction(n, 100)))
    }
}

/// A disc whose place and radius are hundredths of a planet's radius.
pub open spec fn spot(
    cx: Single,
    cy: Single,
    r: Single,
    dx: int,
    dy: int,
    size: int,
    ink: Ink,
) -> Drawn {
    fig(
        Figure::Disc {
            x: beside(cx, r, dx),
            y: beside(cy, r, dy),
            r: product(r, from_fraction(size, 100)),
            ink,
        },
    )
}

/// A ring around a planet, with a radius in hundredths of the planet's and a thickness in tenths.
pub open spec fn orbit(
    cx: Single,
    cy: Single,
    r: Single,
    size: int,
    thickness: int,
    ink: Ink,
) -> Drawn {
    fig(
        Figure::Ring {
            x: cx,
            y: cy,
            r: product(r, from_fraction(size, 100)),
            thickness: from_fraction(thickness, 10),
            ink,
        },
    )
}

/// The body of a planet: atmosphere, ground, features, highlight and edge.
pub open spec fn planet_body(cx: Single, cy: Single, r: Single, kind: u32) -> Seq<Drawn> {
    let (base, feature, highlight, air) = planet_palette(kind);
    let half = from_fraction(1, 2);
    seq![
        fig(
            Figure::Disc {
                x: cx,
                y: cy,
                r: sum(r, from_whole(12)),
                ink: tinted(highlight, air),
            },
        ),
        fig(
            Figure::Disc {
                x: cx,
                y: cy,
                r: sum(r, from_whole(6)),
                ink: tinted(highlight, product(air, half)),
            },
        ),
        fig(Figure::Disc { x: cx, y: cy, r, ink: Ink::Mixed(base) }),
        spot(cx, cy, r, 22, 18, 40, Ink::Mixed(feature)),
        spot(cx, cy, r, -30, -22, 28, Ink::Mixed(feature)),
        spot(cx, cy, r, 5, -38, 20, Ink::Mixed(feature)),
        spot(cx, cy, r, -28, -28, 52, tinted(highlight, from_fraction(30, 100))),
        fig(
            Figure::Ring {
                x: cx,
                y: cy,
                r,
                thickness: from_whole(3),
                ink: Ink::Mixed(
                    Color {
                        r: product(base.r, half),
                        g: product(base.g, half),
                        b: product(base.b, half),
                        a: from_fraction(80, 100),
                    },
                ),
            },
        ),
    ]
}

/// What only some types of planet have: bands and rings, cracks, or an ice cap.
pub open spec fn planet_extras(cx: Single, cy: Single, r: Single, kind: u32) -> Seq<Drawn> {
    let (_, feature, highlight, _) = planet_palette(kind);
    if kind == 1 {
        seq![
            spot(cx, cy, r, 0, 0, 75, tinted(feature, from_fraction(25, 100))),
            spot(cx, cy, r, 0, 0, 45, tinted(highlight, from_fraction(18, 100))),
            orbit(cx, cy, r, 145, 30, ink(75, 60, 35, 50)),
            orbit(cx, cy, r, 160, 20, ink(70, 55, 30, 38)),
            orbit(cx, cy, r, 178, 15, ink(65, 50, 25, 25)),
        ]
    } else if kind == 3 {
        seq![
            orbit(cx, cy, r, 80, 20, ink(100, 55, 5, 45)),
            orbit(cx, cy, r, 55, 15, ink(100, 65, 10, 35)),
            fig(
                Figure::Ring {
                    x: cx,
                    y: cy,
                    r: sum(r, from_whole(4)),
                    thickness: from_fraction(5, 2),
                    ink: ink(100, 35, 2, 35),
                },
            ),
        ]
    } else if kind == 4 {
        seq![spot(cx, cy, r, 0, -40, 40, ink(96, 98, 100, 45))]
    } else {
        Seq::empty()
    }
}

/// A planet without a texture.
pub open spec fn planet_figures(e: EntityState) -> Seq<Drawn> {
    let r = carried_radius(e, 60);
    planet_body(e.x, e.y, r, planet_type(e)) + planet_extras(e.x, e.y, r, planet_type(e))
}

/// A planet with its name below.
pub open spec fn planet_shapes(e: EntityState, loaded: Loaded) -> Seq<Drawn> {
    let r = carried_radius(e, 60);
    let sprite = planet_sprite(planet_type(e));
    let body = if is_loaded(loaded, sprite) {
        seq![
            fig(
                Figure::Picture {
                    sprite,
                    x: e.x,
                    y: e.y,
                    side: product(r, from_whole(3)),
                    turn: zero(),
                    ink: Ink::Named(Named::White),
                },
            ),
        ]
    } else {
        planet_figures(e)
    };
    body.push(
        text_at(
            planet_title(planet_type(e)),
            e.x,
            sum(sum(e.y, r), from_whole(22)),
            from_whole(16),
            Anchor::Middle,
            ink(85, 90, 100, 90),
        ),
    )
}

/// The callsign of a player on the scoreboard.
pub open spec fn username_of(scores: Seq<PlayerScore>, id: PlayerId) -> Seq<char>
    decreases scores.len(),
{
    if scores.len() == 0 {
        Seq::empty()
    } else if scores[0].player_id == id {
        scores[0].username@
    } else {
        username_of(scores.skip(1), id)
    }
}

/// A ship without a texture: a triangle that points ahead.
pub open spec fn hull_triangle(e: EntityState, size: Single, tint: Ink, t: Trace) -> (
    Figure,
    Trace,
) {
    let a = e.angle;
    let lean = from_fraction(5, 2);
    let back = from_fraction(55, 100);
    let l = sum(a, lean);
    let r = difference(a, lean);
    (
        Figure::Triangle {
            x1: sum(e.x, product(told(t, 0, Ask::Cos(a)), size)),
            y1: sum(e.y, product(told(t, 1, Ask::Sin(a)), size)),
            x2: sum(e.x, product(product(told(t, 2, Ask::Cos(l)), size), back)),
            y2: sum(e.y, product(product(told(t, 3, Ask::Sin(l)), size), back)),
            x3: sum(e.x, product(product(told(t, 4, Ask::Cos(r)), size), back)),
            y3: sum(e.y, product(product(told(t, 5, Ask::Sin(r)), size), back)),
            ink: tint,
        },
        past(
            t,
            seq![
                Ask::Cos(a),
                Ask::Sin(a),
                Ask::Cos(l),
                Ask::Sin(l),
                Ask::Cos(r),
                Ask::Sin(r),
            ],
        ),
    )
}

/// The hull of a ship.
pub open spec fn hull_figure(
    e: EntityState,
    info: ShipInfo,
    is_me: bool,
    alpha: Single,
    loaded: Loaded,
    t: Trace,
) -> (Figure, Trace) {
    let size = class_size(info.class);
    let tint = Ink::Faded(class_color(info.class, is_me), alpha);
    if is_loaded(loaded, ship_sprite(info.class)) {
        (
            Figure::Picture {
                sprite: ship_sprite(info.class),
                x: e.x,
                y: e.y,
                side: product(size, from_fraction(5, 2)),
                turn: e.angle,
                ink: tint,
            },
            t,
        )
    } else {
        hull_triangle(e, size, tint, t)
    }
}

/// The marks around a ship: the shimmer of its own cloak, the bubble of its shields, the mark of
/// the player's own ship.
pub open spec fn ship_marks(e: EntityState, info: ShipInfo, is_me: bool) -> Seq<Drawn> {
    let size = class_size(info.class);
    let cloak = if info.cloaked && is_me {
        seq![
            fig(
                Figure::Ring {
                    x: e.x,
                    y: e.y,
                    r: sum(size, from_whole(4)),
                    thickness: from_whole(1),
                    ink: ink(40, 90, 100, 50),
                },
            ),
        ]
    } else {
        Seq::empty()
    };
    let bubble = if info.shields_on && lt(zero(), info.shields) {
        let level = share(info.shields, class_stats(info.class).max_shields);
        seq![
            fig(
                Figure::Ring {
                    x: e.x,
                    y: e.y,
                    r: sum(size, from_whole(2)),
                    thickness: from_fraction(3, 2),
                    ink: veil(
                        20,
                        60,
                        100,
                        sum(from_fraction(3, 10), product(from_fraction(2, 5), level)),
                    ),
                },
            ),
        ]
    } else {
        Seq::empty()
    };
    let mark = if is_me && !info.cloaked {
        seq![
            fig(
                Figure::Disc { x: e.x, y: e.y, r: from_whole(4), ink: ink(20, 60, 100, 50) },
            ),
        ]
    } else {
        Seq::empty()
    };
    cloak + bubble + mark
}

/// The bars above a ship.
pub open spec fn ship_bars(e: EntityState, info: ShipInfo, alpha: Single) -> Seq<Drawn> {
    let size = class_size(info.class);
    let width = product(size, from_fraction(11, 5));
    let x = difference(e.x, quotient(width, from_whole(2)));
    let y = difference(difference(e.y, size), from_whole(8));
    let hull = seq![
        fig(
            Figure::Block {
                x,
                y,
                w: product(width, share(info.hull, class_stats(info.class).max_hull)),
                h: from_whole(3),
                ink: veil(100, 20, 20, alpha),
            },
        ),
    ];
    if info.shields_on {
        hull.push(
            fig(
                Figure::Block {
                    x,
                    y: difference(y, from_whole(4)),
                    w: product(
                        width,
                        share(info.shields, class_stats(info.class).max_shields),
                    ),
                    h: from_whole(3),
                    ink: veil(30, 70, 100, alpha),
                },
            ),
        )
    } else {
        hull
    }
}

/// The callsign below a ship, unless it is cloaked.
pub open spec fn ship_label(
    e: EntityState,
    info: ShipInfo,
    is_me: bool,
    scores: Seq<PlayerScore>,
) -> Seq<Drawn> {
    let name = username_of(scores, info.player_id);
    if !info.cloaked && name.len() > 0 {
        seq![
            text_at(
                name,
                e.x,
                sum(sum(e.y, class_size(info.class)), from_whole(16)),
                from_whole(11),
                Anchor::Middle,
                if is_me {
                    ink(40, 100, 40, 90)
                } else {
                    ink(85, 85, 85, 80)
                },
            ),
        ]
    } else {
        Seq::empty()
    }
}

/// A ship.  Another player's cloaked ship is not shown.
pub open spec fn ship_shapes(
    e: EntityState,
    sight: Sight,
    scores: Seq<PlayerScore>,
    t: Trace,
) -> (Seq<Drawn>, Trace) {
    match e.ship_info {
        Some(info) => {
            let is_me = sight.my_id == Some(info.player_id);
            if info.cloaked && !is_me {
                (Seq::empty(), t)
            } else {
                let alpha = if info.cloaked {
                    from_fraction(35, 100)
                } else {
                    from_whole(1)
                };
                let (hull, t1) = hull_figure(e, info, is_me, alpha, sight.loaded, t);
                (
                    seq![fig(hull)] + ship_marks(e, info, is_me) + ship_bars(e, info, alpha)
                        + ship_label(e, info, is_me, scores),
                    t1,
                )
            }
        },
        None => (Seq::empty(), t),
    }
}

/// An entity.
pub open spec fn entity_shapes(
    e: EntityState,
    sight: Sight,
    scores: Seq<PlayerScore>,
    t: Trace,
) -> (Seq<Drawn>, Trace) {
    match e.kind {
        EntityKind::Ship => ship_shapes(e, sight, scores, t),
        EntityKind::Torpedo => torpedo_shapes(e, sight.time, t),
        EntityKind::Phaser => phaser_shapes(e, t),
        EntityKind::Drone => (
            seq![
                fig(
                    Figure::Disc {
                        x: e.x,
                        y: e.y,
                        r: from_whole(4),
                        ink: Ink::Named(Named::Orange),
                    },
                ),
            ],
            t,
        ),
        EntityKind::Explosion => (explosion_shapes(e), t),
        EntityKind::Debris => debris_shapes(e, t),
        EntityKind::Asteroid => (asteroid_shapes(e, sight.loaded), t),
        EntityKind::Planet => (planet_shapes(e, sight.loaded), t),
    }
}

/// All entities.
pub open spec fn entities_shapes(
    es: Seq<EntityState>,
    sight: Sight,
    scores: Seq<PlayerScore>,
    t: Trace,
) -> (Seq<Drawn>, Trace)
    decreases es.len(),
{
    if es.len() == 0 {
        (Seq::empty(), t)
    } else {
        let (front, t1) = entities_shapes(es.drop_last(), sight, scores, t);
        let (last, t2) = entity_shapes(es.last(), sight, scores, t1);
        (front + last, t2)
    }
}

/// A cloaked ship of another player leaves no trace on the screen.
pub proof fn law_cloaked_ships_are_not_drawn(
    e: EntityState,
    sight: Sight,
    scores: Seq<PlayerScore>,
    t: Trace,
)
    requires
        e.kind == EntityKind::Ship,
        e.ship_info matches Some(info) && info.cloaked && sight.my_id != Some(info.player_id),
    ensures
        entity_shapes(e, sight, scores, t).0.len() == 0,
{
}

/// The square of the distance from an entity to a place.
pub open spec fn offset_squared(e: EntityState, x: Single, y: Single) -> Single {
    let dx = difference(e.x, x);
    let dy = difference(e.y, y);
    sum(product(dx, dx), product(dy, dy))
}

/// Whether the cursor is on something to shoot at: near another ship, or on an asteroid.
pub open spec fn on_target(e: EntityState, id: Option<PlayerId>, x: Single, y: Single) -> bool {
    match e.kind {
        EntityKind::Ship => !(id matches Some(pid) && is_own(e, pid)) && lt(
            offset_squared(e, x, y),
            from_whole(400),
        ),
        EntityKind::Asteroid => {
            let reach = sum(e.vx, from_whole(5));
            lt(offset_squared(e, x, y), product(reach, reach))
        },
        _ => false,
    }
}

/// Whether an entity is the player's own ship with its phaser locked.
pub open spec fn is_locked(e: EntityState, id: Option<PlayerId>) -> bool {
    id matches Some(pid) && e.ship_info matches Some(info) && info.player_id == pid
        && info.phaser_locked
}

/// The crosshair at a place; with a lock, a square pulses around it.
pub open spec fn crosshair(
    x: Single,
    y: Single,
    on_target: bool,
    locked: bool,
    time: Single,
    t: Trace,
) -> (Seq<Drawn>, Trace) {
    let color = if on_target {
        ink(100, 15, 15, 95)
    } else {
        ink(90, 90, 90, 75)
    };
    let one = from_whole(1);
    let far = from_whole(8);
    let near = from_whole(3);
    let cross = seq![
        stroke(difference(x, far), y, difference(x, near), y, one, color),
        stroke(sum(x, near), y, sum(x, far), y, one, color),
        stroke(x, difference(y, far), x, difference(y, near), one, color),
        stroke(x, sum(y, near), x, sum(y, far), one, color),
        fig(
            Figure::Ring {
                x,
                y,
                r: from_whole(4),
                thickness: from_fraction(1, 2),
                ink: color,
            },
        ),
    ];
    if locked {
        let q = Ask::Sin(product(product(time, full_turn()), from_whole(2)));
        let beat = pulse(told(t, 0, q));
        let half = sum(from_whole(9), product(beat, from_whole(4)));
        let red = veil(
            100,
            15,
            15,
            sum(from_fraction(55, 100), product(beat, from_fraction(45, 100))),
        );
        let wide = from_fraction(3, 2);
        let (l, r, u, d) = (difference(x, half), sum(x, half), difference(y, half), sum(y, half));
        (
            cross + seq![
                stroke(l, u, r, u, wide, red),
                stroke(l, d, r, d, wide, red),
                stroke(l, u, l, d, wide, red),
                stroke(r, u, r, d, wide, red),
            ],
            past(t, seq![q]),
        )
    } else {
        (cross, t)
    }
}

/// A line.
pub open spec fn stroke(
    x1: Single,
    y1: Single,
    x2: Single,
    y2: Single,
    thickness: Single,
    ink: Ink,
) -> Drawn {
    fig(Figure::Line { x1, y1, x2, y2, thickness, ink })
}

fn draw_line(
    list: &mut Vec<Shape>,
    x1: Single,
    y1: Single,
    x2: Single,
    y2: Single,
    thickness: Single,
    ink: Ink,
)
    ensures
        drawn(*final(list)) == drawn(*old(list)).push(stroke(x1, y1, x2, y2, thickness, ink)),
{
    figure(list, Figure::Line { x1, y1, x2, y2, thickness, ink });
}

fn draw_torpedo<F: Fn(Ask) -> Single>(
    list: &mut Vec<Shape>,
    e: &EntityState,
    time: Single,
    oracle: &mut Oracle<F>,
)
    ensures
        final(oracle).follows(*old(oracle)),
        forall|rest: Trace|
            {
                let (shapes, after) = #[trigger] torpedo_shapes(
                    *e,
                    time,
                    final(oracle).since(*old(oracle)) + rest,
                );
                drawn(*final(list)) == drawn(*old(list)) + shapes && after == rest
            },
{
    let life: Single = gauge(e.vy, Single::whole(60));
    let sine: Single = oracle.ask(Ask::Sin(time.times(Single::whole(10)).plus(e.angle)));
    let shimmer: Single = pulse_of(sine);
    figure(
        list,
        Figure::Disc {
            x: e.x,
            y: e.y,
            r: Single::whole(2).plus(shimmer.times(Single::fraction(3, 2))).times(life),
            ink: Ink::veil(
                100,
                10,
                10,
                Single::fraction(1, 4).plus(shimmer.times(Single::fraction(45, 100))).times(life),
            ),
        },
    );
    figure(
        list,
        Figure::Disc {
            x: e.x,
            y: e.y,
            r: Single::whole(2).times(life),
            ink: Ink::veil(100, 35, 35, life),
        },
    );
    proof {
        let tr = oracle.since(*old(oracle));
        lemma_past(tr);
        assert forall|rest: Trace|
            {
                let (shapes, after) = #[trigger] torpedo_shapes(*e, time, tr + rest);
                drawn(*list) == drawn(*old(list)) + shapes && after == rest
            } by {
            let shapes = torpedo_shapes(*e, time, tr + rest).0;
            assert(drawn(*list) =~= drawn(*old(list)) + shapes);
        }
    }
}

fn draw_phaser<F: Fn(Ask) -> Single>(
    list: &mut Vec<Shape>,
    e: &EntityState,
    oracle: &mut Oracle<F>,
)
    ensures
        final(oracle).follows(*old(oracle)),
        forall|rest: Trace|
            {
                let (shapes, after) = #[trigger] phaser_shapes(
                    *e,
                    final(oracle).since(*old(oracle)) + rest,
                );
                drawn(*final(list)) == drawn(*old(list)) + shapes && after == rest
            },
{
    let c: Single = oracle.ask(Ask::Cos(e.angle));
    let s: Single = oracle.ask(Ask::Sin(e.angle));
    let x2: Single = e.x.plus(c.times(e.vx));
    let y2: Single = e.y.plus(s.times(e.vx));
    draw_line(list, e.x, e.y, x2, y2, Single::whole(2), Ink::mix(30, 90, 100, 90));
    draw_line(list, e.x, e.y, x2, y2, Single::fraction(4, 5), Ink::mix(80, 100, 100, 100));
    proof {
        let tr = oracle.since(*old(oracle));
        lemma_past(tr);
        assert forall|rest: Trace|
            {
                let (shapes, after) = #[trigger] phaser_shapes(*e, tr + rest);
                drawn(*list) == drawn(*old(list)) + shapes && after == rest
            } by {
            assert(drawn(*list) =~= drawn(*old(list)) + phaser_shapes(*e, tr + rest).0);
        }
    }
}

fn draw_explosion(list: &mut Vec<Shape>, e: &EntityState)
    ensures
        drawn(*final(list)) == drawn(*old(list)) + explosion_shapes(*e),
{
    let one: Single = Single::whole(1);
    let age: Single = if Single::nought().is_less(e.vx) {
        one.minus(e.vy.over(e.vx)).clamp(Single::nought(), one)
    } else {
        one
    };
    let left: Single = one.minus(age);
    figure(
        list,
        Figure::Ring {
            x: e.x,
            y: e.y,
            r: Single::whole(4).plus(age.times(Single::whole(22))),
            thickness: Single::fraction(3, 2),
            ink: Ink::veil(100, 60, 10, left.times(Single::fraction(9, 10))),
        },
    );
    figure(
        list,
        Figure::Disc {
            x: e.x,
            y: e.y,
            r: Single::whole(7).times(left.sqrt()),
            ink: Ink::veil(100, 40, 0, left.times(Single::fraction(85, 100))),
        },
    );
    assert(drawn(*list) =~= drawn(*old(list)) + explosion_shapes(*e));
}

fn draw_debris<F: Fn(Ask) -> Single>(
    list: &mut Vec<Shape>,
    e: &EntityState,
    oracle: &mut Oracle<F>,
)
    ensures
        final(oracle).follows(*old(oracle)),
        forall|rest: Trace|
            {
                let (shapes, after) = #[trigger] debris_shapes(
                    *e,
                    final(oracle).since(*old(oracle)) + rest,
                );
                drawn(*final(list)) == drawn(*old(list)) + shapes && after == rest
            },
{
    let len: Single = Single::whole(3).plus(
        Single::whole((e.id % 4) as i32).times(Single::fraction(3, 2)),
    );
    let c: Single = oracle.ask(Ask::Cos(e.angle));
    let s: Single = oracle.ask(Ask::Sin(e.angle));
    let dx: Single = c.times(len);
    let dy: Single = s.times(len);
    draw_line(
        list,
        e.x.minus(dx),
        e.y.minus(dy),
        e.x.plus(dx),
        e.y.plus(dy),
        Single::whole(2),
        Ink::mix(75, 45, 15, 85),
    );
    proof {
        let tr = oracle.since(*old(oracle));
        lemma_past(tr);
        assert forall|rest: Trace|
            {
                let (shapes, after) = #[trigger] debris_shapes(*e, tr + rest);
                drawn(*list) == drawn(*old(list)) + shapes && after == rest
            } by {
            assert(drawn(*list) =~= drawn(*old(list)) + debris_shapes(*e, tr + rest).0);
        }
    }
}

fn radius_carried(e: &EntityState, other: i32) -> (r: Single)
    ensures
        r == carried_radius(*e, other as int),
{
    if Single::nought().is_less(e.vx) {
        e.vx
    } else {
        Single::whole(other)
    }
}

fn draw_asteroid(list: &mut Vec<Shape>, e: &EntityState, loaded: &Loaded)
    ensures
        drawn(*final(list)) == drawn(*old(list)) + asteroid_shapes(*e, *loaded),
{
    let radius: Single = radius_carried(e, 30);
    if loaded.asteroid {
        figure(
            list,
            Figure::Picture {
                sprite: Sprite::Asteroid,
                x: e.x,
                y: e.y,
                side: radius.times(Single::whole(2)),
                turn: Single::nought(),
                ink: Ink::Named(Named::White),
            },
        );
    } else {
        figure(
            list,
            Figure::Hexagon {
                x: e.x,
                y: e.y,
                r: radius,
                turn: e.angle,
                thickness: Single::whole(2),
                ink: Ink::Named(Named::Gray),
            },
        );
    }
    assert(drawn(*list) =~= drawn(*old(list)) + asteroid_shapes(*e, *loaded));
}

fn palette(kind: u32) -> (r: (Color, Color, Color, Single))
    ensures
        r == planet_palette(kind),
{
    match kind {
        0 => (
            Color::mix(53, 36, 20, 100),
            Color::mix(38, 26, 14, 100),
            Color::mix(78, 60, 40, 100),
            Single::fraction(18, 100),
        ),
        1 => (
            Color::mix(78, 52, 18, 100),
            Color::mix(56, 32, 8, 100),
            Color::mix(96, 82, 50, 100),
            Single::fraction(22, 100),
        ),
        2 => (
            Color::mix(10, 24, 70, 100),
            Color::mix(5, 48, 28, 100),
            Color::mix(35, 65, 100, 100),
            Single::fraction(22, 100),
        ),
        3 => (
            Color::mix(52, 8, 2, 100),
            Color::mix(90, 20, 2, 100),
            Color::mix(100, 45, 5, 100),
            Single::fraction(30, 100),
        ),
        _ => (
            Color::mix(72, 86, 100, 100),
            Color::mix(58, 76, 94, 100),
            Color::mix(96, 98, 100, 100),
            Single::fraction(20, 100),
        ),
    }
}

fn tint(c: Color, a: Single) -> (r: Ink)
    ensures
        r == tinted(c, a),
{
    Ink::Mixed(Color { r: c.r, g: c.g, b: c.b, a })
}

fn beside_of(c: Single, r: Single, n: i32) -> (a: Single)
    ensures
        a == beside(c, r, n as int),
{
    if n == 0 {
        c
    } else {
        c.plus(r.times(Single::fraction(n, 100)))
    }
}

fn draw_spot(
    list: &mut Vec<Shape>,
    cx: Single,
    cy: Single,
    r: Single,
    dx: i32,
    dy: i32,
    size: i32,
    ink: Ink,
)
    ensures
        drawn(*final(list)) == drawn(*old(list)).push(
            spot(cx, cy, r, dx as int, dy as int, size as int, ink),
        ),
{
    figure(
        list,
        Figure::Disc {
            x: beside_of(cx, r, dx),
            y: beside_of(cy, r, dy),
            r: r.times(Single::fraction(size, 100)),
            ink,
        },
    );
}

fn draw_orbit(
    list: &mut Vec<Shape>,
    cx: Single,
    cy: Single,
    r: Single,
    size: i32,
    thickness: i32,
    ink: Ink,
)
    ensures
        drawn(*final(list)) == drawn(*old(list)).push(
            orbit(cx, cy, r, size as int, thickness as int, ink),
        ),
{
    figure(
        list,
        Figure::Ring {
            x: cx,
            y: cy,
            r: r.times(Single::fraction(size, 100)),
            thickness: Single::fraction(thickness, 10),
            ink,
        },
    );
}

fn draw_planet_body(list: &mut Vec<Shape>, cx: Single, cy: Single, r: Single, kind: u32)
    ensures
        drawn(*final(list)) == drawn(*old(list)) + planet_body(cx, cy, r, kind),
{
    let (base, feature, highlight, air) = palette(kind);
    let half: Single = Single::fraction(1, 2);
    figure(
        list,
        Figure::Disc { x: cx, y: cy, r: r.plus(Single::whole(12)), ink: tint(highlight, air) },
    );
    figure(
        list,
        Figure::Disc {
            x: cx,
            y: cy,
            r: r.plus(Single::whole(6)),
            ink: tint(highlight, air.times(half)),
        },
    );
    figure(list, Figure::Disc { x: cx, y: cy, r, ink: Ink::Mixed(base) });
    draw_spot(list, cx, cy, r, 22, 18, 40, Ink::Mixed(feature));
    draw_spot(list, cx, cy, r, -30, -22, 28, Ink::Mixed(feature));
    draw_spot(list, cx, cy, r, 5, -38, 20, Ink::Mixed(feature));
    draw_spot(list, cx, cy, r, -28, -28, 52, tint(highlight, Single::fraction(30, 100)));
    figure(
        list,
        Figure::Ring {
            x: cx,
            y: cy,
            r,
            thickness: Single::whole(3),
            ink: Ink::Mixed(
                Color {
                    r: base.r.times(half),
                    g: base.g.times(half),
                    b: base.b.times(half),
                    a: Single::fraction(80, 100),
                },
            ),
        },
    );
    assert(drawn(*list) =~= drawn(*old(list)) + planet_body(cx, cy, r, kind));
}

fn draw_planet_extras(list: &mut Vec<Shape>, cx: Single, cy: Single, r: Single, kind: u32)
    ensures
        drawn(*final(list)) == drawn(*old(list)) + planet_extras(cx, cy, r, kind),
{
    let (_base, feature, highlight, _air) = palette(kind);
    if kind == 1 {
        draw_spot(list, cx, cy, r, 0, 0, 75, tint(feature, Single::fraction(25, 100)));
        draw_spot(list, cx, cy, r, 0, 0, 45, tint(highlight, Single::fraction(18, 100)));
        draw_orbit(list, cx, cy, r, 145, 30, Ink::mix(75, 60, 35, 50));
        draw_orbit(list, cx, cy, r, 160, 20, Ink::mix(70, 55, 30, 38));
        draw_orbit(list, cx, cy, r, 178, 15, Ink::mix(65, 50, 25, 25));
    } else if kind == 3 {
        draw_orbit(list, cx, cy, r, 80, 20, Ink::mix(100, 55, 5, 45));
        draw_orbit(list, cx, cy, r, 55, 15, Ink::mix(100, 65, 10, 35));
        figure(
            list,
            Figure::Ring {
                x: cx,
                y: cy,
                r: r.plus(Single::whole(4)),
                thickness: Single::fraction(5, 2),
                ink: Ink::mix(100, 35, 2, 35),
            },
        );
    } else if kind == 4 {
        draw_spot(list, cx, cy, r, 0, -40, 40, Ink::mix(96, 98, 100, 45));
    }
    assert(drawn(*list) =~= drawn(*old(list)) + planet_extras(cx, cy, r, kind));
}

/// Draws a planet.
pub fn draw_planet(list: &mut Vec<Shape>, e: &EntityState, loaded: &Loaded)
    ensures
        drawn(*final(list)) == drawn(*old(list)) + planet_shapes(*e, *loaded),
{
    let r: Single = radius_carried(e, 60);
    let kind: u32 = e.vy.to_count();
    let sprite: Sprite = Sprite::of_planet(kind);
    if loaded.has(sprite) {
        figure(
            list,
            Figure::Picture {
                sprite,
                x: e.x,
                y: e.y,
                side: r.times(Single::whole(3)),
                turn: Single::nought(),
                ink: Ink::Named(Named::White),
            },
        );
    } else {
        draw_planet_body(list, e.x, e.y, r, kind);
        draw_planet_extras(list, e.x, e.y, r, kind);
    }
    print(
        list,
        planet_name(kind),
        e.x,
        e.y.plus(r).plus(Single::whole(22)),
        Single::whole(16),
        Anchor::Middle,
        Ink::mix(85, 90, 100, 90),
    );
    assert(drawn(*list) =~= drawn(*old(list)) + planet_shapes(*e, *loaded));
}

/// Draws the hull of a ship.
fn draw_hull<F: Fn(Ask) -> Single>(
    list: &mut Vec<Shape>,
    e: &EntityState,
    info: &ShipInfo,
    is_me: bool,
    alpha: Single,
    loaded: &Loaded,
    oracle: &mut Oracle<F>,
)
    ensures
        final(oracle).follows(*old(oracle)),
        forall|rest: Trace|
            {
                let (hull, after) = #[trigger] hull_figure(
                    *e,
                    *info,
                    is_me,
                    alpha,
                    *loaded,
                    final(oracle).since(*old(oracle)) + rest,
                );
                drawn(*final(list)) == drawn(*old(list)).push(fig(hull)) && after == rest
            },
{
    let size: Single = ship_size(info.class);
    let ink: Ink = Ink::Faded(ship_color(info.class, is_me), alpha);
    let sprite: Sprite = Sprite::of_ship(info.class);
    if loaded.has(sprite) {
        figure(
            list,
            Figure::Picture {
                sprite,
                x: e.x,
                y: e.y,
                side: size.times(Single::fraction(5, 2)),
                turn: e.angle,
                ink,
            },
        );
        proof {
            lemma_since_now(*oracle);
        }
    } else {
        let a: Single = e.angle;
        let lean: Single = Single::fraction(5, 2);
        let back: Single = Single::fraction(55, 100);
        let l: Single = a.plus(lean);
        let r: Single = a.minus(lean);
        let c0: Single = oracle.ask(Ask::Cos(a));
        let s0: Single = oracle.ask(Ask::Sin(a));
        let c1: Single = oracle.ask(Ask::Cos(l));
        let s1: Single = oracle.ask(Ask::Sin(l));
        let c2: Single = oracle.ask(Ask::Cos(r));
        let s2: Single = oracle.ask(Ask::Sin(r));
        figure(
            list,
            Figure::Triangle {
                x1: e.x.plus(c0.times(size)),
                y1: e.y.plus(s0.times(size)),
                x2: e.x.plus(c1.times(size).times(back)),
                y2: e.y.plus(s1.times(size).times(back)),
                x3: e.x.plus(c2.times(size).times(back)),
                y3: e.y.plus(s2.times(size).times(back)),
                ink,
            },
        );
        proof {
            let tr = oracle.since(*old(oracle));
            lemma_past(tr);
        }
    }
}

fn draw_marks(list: &mut Vec<Shape>, e: &EntityState, info: &ShipInfo, is_me: bool)
    ensures
        drawn(*final(list)) == drawn(*old(list)) + ship_marks(*e, *info, is_me),
{
    let size: Single = ship_size(info.class);
    if info.cloaked && is_me {
        figure(
            list,
            Figure::Ring {
                x: e.x,
                y: e.y,
                r: size.plus(Single::whole(4)),
                thickness: Single::whole(1),
                ink: Ink::mix(40, 90, 100, 50),
            },
        );
    }
    if info.shields_on && Single::nought().is_less(info.shields) {
        let level: Single = gauge(info.shields, info.class.stats().max_shields);
        figure(
            list,
            Figure::Ring {
                x: e.x,
                y: e.y,
                r: size.plus(Single::whole(2)),
                thickness: Single::fraction(3, 2),
                ink: Ink::veil(
                    20,
                    60,
                    100,
                    Single::fraction(3, 10).plus(Single::fraction(2, 5).times(level)),
                ),
            },
        );
    }
    if is_me && !info.cloaked {
        figure(
            list,
            Figure::Disc { x: e.x, y: e.y, r: Single::whole(4), ink: Ink::mix(20, 60, 100, 50) },
        );
    }
    assert(drawn(*list) =~= drawn(*old(list)) + ship_marks(*e, *info, is_me));
}

fn draw_bars(list: &mut Vec<Shape>, e: &EntityState, info: &ShipInfo, alpha: Single)
    ensures
        drawn(*final(list)) == drawn(*old(list)) + ship_bars(*e, *info, alpha),
{
    let size: Single = ship_size(info.class);
    let width: Single = size.times(Single::fraction(11, 5));
    let x: Single = e.x.minus(width.over(Single::whole(2)));
    let y: Single = e.y.minus(size).minus(Single::whole(8));
    figure(
        list,
        Figure::Block {
            x,
            y,
            w: width.times(gauge(info.hull, info.class.stats().max_hull)),
            h: Single::whole(3),
            ink: Ink::veil(100, 20, 20, alpha),
        },
    );
    if info.shields_on {
        figure(
            list,
            Figure::Block {
                x,
                y: y.minus(Single::whole(4)),
                w: width.times(gauge(info.shields, info.class.stats().max_shields)),
                h: Single::whole(3),
                ink: Ink::veil(30, 70, 100, alpha),
            },
        );
    }
    assert(drawn(*list) =~= drawn(*old(list)) + ship_bars(*e, *info, alpha));
}

/// The callsign of a player on the scoreboard.
pub fn find_username<'a>(scores: &'a Vec<PlayerScore>, id: PlayerId) -> (r: &'a str)
    ensures
        r@ == username_of(scores@, id),
{
    let mut i: usize = 0;
    proof {
        assert(scores@.skip(0) =~= scores@);
    }
    while i < scores.len()
        invariant
            i <= scores.len(),
            username_of(scores@, id) == username_of(scores@.skip(i as int), id),
        decreases scores.len() - i,
    {
        proof {
            assert(scores@.skip(i as int)[0] == scores@[i as int]);
            assert(scores@.skip(i as int).skip(1) =~= scores@.skip(i + 1));
        }
        if scores[i].player_id == id {
            return scores[i].username.as_str();
        }
        i = i + 1;
    }
    proof {
        reveal_strlit("");
        assert(""@ =~= Seq::<char>::empty());
    }
    ""
}

fn draw_label(
    list: &mut Vec<Shape>,
    e: &EntityState,
    info: &ShipInfo,
    is_me: bool,
    scores: &Vec<PlayerScore>,
)
    ensures
        drawn(*final(list)) == drawn(*old(list)) + ship_label(*e, *info, is_me, scores@),
{
    let name: &str = find_username(scores, info.player_id);
    if !info.cloaked && name.unicode_len() > 0 {
        let ink: Ink = if is_me {
            Ink::mix(40, 100, 40, 90)
        } else {
            Ink::mix(85, 85, 85, 80)
        };
        print(
            list,
            name,
            e.x,
            e.y.plus(ship_size(info.class)).plus(Single::whole(16)),
            Single::whole(11),
            Anchor::Middle,
            ink,
        );
    }
    assert(drawn(*list) =~= drawn(*old(list)) + ship_label(*e, *info, is_me, scores@));
}

/// Draws a ship.
pub fn draw_ship<F: Fn(Ask) -> Single>(
    list: &mut Vec<Shape>,
    e: &EntityState,
    sight: &Sight,
    scores: &Vec<PlayerScore>,
    oracle: &mut Oracle<F>,
)
    ensures
        final(oracle).follows(*old(oracle)),
        forall|rest: Trace|
            {
                let (shapes, after) = #[trigger] ship_shapes(
                    *e,
                    *sight,
                    scores@,
                    final(oracle).since(*old(oracle)) + rest,
                );
                drawn(*final(list)) == drawn(*old(list)) + shapes && after == rest
            },
{
    proof {
        lemma_since_now(*oracle);
        assert(drawn(*list) =~= drawn(*old(list)) + Seq::empty());
    }
    let info: ShipInfo = match e.ship_info {
        Some(info) => info,
        None => {
            return;
        },
    };
    let is_me: bool = match sight.my_id {
        Some(id) => id == info.player_id,
        None => false,
    };
    if info.cloaked && !is_me {
        return;
    }
    let alpha: Single = if info.cloaked {
        Single::fraction(35, 100)
    } else {
        Single::whole(1)
    };
    draw_hull(list, e, &info, is_me, alpha, &sight.loaded, oracle);
    draw_marks(list, e, &info, is_me);
    draw_bars(list, e, &info, alpha);
    draw_label(list, e, &info, is_me, scores);
    proof {
        let tr = oracle.since(*old(oracle));
        assert forall|rest: Trace|
            {
                let (shapes, after) = #[trigger] ship_shapes(*e, *sight, scores@, tr + rest);
                drawn(*list) == drawn(*old(list)) + shapes && after == rest
            } by {
            let hull = hull_figure(*e, info, is_me, alpha, sight.loaded, tr + rest).0;
            let shapes = ship_shapes(*e, *sight, scores@, tr + rest).0;
            assert(drawn(*list) =~= drawn(*old(list)) + shapes);
        }
    }
}

fn draw_entity<F: Fn(Ask) -> Single>(
    list: &mut Vec<Shape>,
    e: &EntityState,
    sight: &Sight,
    scores: &Vec<PlayerScore>,
    oracle: &mut Oracle<F>,
)
    ensures
        final(oracle).follows(*old(oracle)),
        forall|rest: Trace|
            {
                let (shapes, after) = #[trigger] entity_shapes(
                    *e,
                    *sight,
                    scores@,
                    final(oracle).since(*old(oracle)) + rest,
                );
                drawn(*final(list)) == drawn(*old(list)) + shapes && after == rest
            },
{
    proof {
        lemma_since_now(*oracle);
    }
    match e.kind {
        EntityKind::Ship => draw_ship(list, e, sight, scores, oracle),
        EntityKind::Torpedo => draw_torpedo(list, e, sight.time, oracle),
        EntityKind::Phaser => draw_phaser(list, e, oracle),
        EntityKind::Drone => {
            figure(
                list,
                Figure::Disc {
                    x: e.x,
                    y: e.y,
                    r: Single::whole(4),
                    ink: Ink::Named(Named::Orange),
                },
            );
            proof {
                let shapes = entity_shapes(*e, *sight, scores@, Seq::empty()).0;
                assert(drawn(*list) =~= drawn(*old(list)) + shapes);
            }
        },
        EntityKind::Explosion => draw_explosion(list, e),
        EntityKind::Debris => draw_debris(list, e, oracle),
        EntityKind::Asteroid => draw_asteroid(list, e, &sight.loaded),
        EntityKind::Planet => draw_planet(list, e, &sight.loaded),
    }
}

/// Draws all entities.
pub fn draw_entities<F: Fn(Ask) -> Single>(
    list: &mut Vec<Shape>,
    es: &Vec<EntityState>,
    sight: &Sight,
    scores: &Vec<PlayerScore>,
    oracle: &mut Oracle<F>,
)
    ensures
        final(oracle).follows(*old(oracle)),
        forall|rest: Trace|
            {
                let (shapes, after) = #[trigger] entities_shapes(
                    es@,
                    *sight,
                    scores@,
                    final(oracle).since(*old(oracle)) + rest,
                );
                drawn(*final(list)) == drawn(*old(list)) + shapes && after == rest
            },
{
    proof {
        lemma_since_now(*oracle);
        assert(drawn(*list) =~= drawn(*old(list)) + Seq::empty());
    }
    let mut i: usize = 0;
    while i < es.len()
        invariant
            i <= es.len(),
            oracle.follows(*old(oracle)),
            forall|rest: Trace|
                {
                    let (shapes, after) = #[trigger] entities_shapes(
                        es@.take(i as int),
                        *sight,
                        scores@,
                        oracle.since(*old(oracle)) + rest,
                    );
                    drawn(*list) == drawn(*old(list)) + shapes && after == rest
                },
        decreases es.len() - i,
    {
        let ghost before = *oracle;
        let ghost so_far = drawn(*list);
        let e: EntityState = es[i];
        draw_entity(list, &e, sight, scores, oracle);
        i = i + 1;
        proof {
            lemma_since_chain(*old(oracle), before, *oracle);
            assert(es@.take(i as int).drop_last() =~= es@.take(i - 1));
            assert forall|rest: Trace|
                {
                    let (shapes, after) = #[trigger] entities_shapes(
                        es@.take(i as int),
                        *sight,
                        scores@,
                        oracle.since(*old(oracle)) + rest,
                    );
                    drawn(*list) == drawn(*old(list)) + shapes && after == rest
                } by {
                let next = oracle.since(before) + rest;
                let (front, middle) = entities_shapes(
                    es@.take(i - 1),
                    *sight,
                    scores@,
                    before.since(*old(oracle)) + next,
                );
                assert(so_far == drawn(*old(list)) + front && middle == next);
                let last = entity_shapes(e, *sight, scores@, next).0;
                assert((drawn(*old(list)) + front) + last =~= drawn(*old(list)) + (front + last));
            }
        }
    }
    proof {
        assert(es@.take(i as int) =~= es@);
    }
}

fn is_on_target(e: &EntityState, id: Option<PlayerId>, x: Single, y: Single) -> (r: bool)
    ensures
        r == on_target(*e, id, x, y),
{
    let dx: Single = e.x.minus(x);
    let dy: Single = e.y.minus(y);
    let gap: Single = dx.times(dx).plus(dy.times(dy));
    match e.kind {
        EntityKind::Ship => {
            let own: bool = match (id, e.ship_info) {
                (Some(pid), Some(info)) => info.player_id == pid,
                _ => false,
            };
            !own && gap.is_less(Single::whole(400))
        },
        EntityKind::Asteroid => {
            let reach: Single = e.vx.plus(Single::whole(5));
            gap.is_less(reach.times(reach))
        },
        _ => false,
    }
}

/// Whether the cursor is on something to shoot at.
pub fn cursor_on_target(es: &Vec<EntityState>, id: Option<PlayerId>, x: Single, y: Single) -> (r:
    bool)
    ensures
        r == exists|i: int| 0 <= i < es@.len() && on_target(#[trigger] es@[i], id, x, y),
{
    let mut i: usize = 0;
    while i < es.len()
        invariant
            i <= es.len(),
            forall|j: int| 0 <= j < i ==> !on_target(#[trigger] es@[j], id, x, y),
        decreases es.len() - i,
    {
        if is_on_target(&es[i], id, x, y) {
            assert(on_target(es@[i as int], id, x, y));
            return true;
        }
        i = i + 1;
    }
    false
}

/// Whether the player's phaser is locked onto a target.
pub fn phaser_locked(es: &Vec<EntityState>, id: Option<PlayerId>) -> (r: bool)
    ensures
        r == exists|i: int| 0 <= i < es@.len() && is_locked(#[trigger] es@[i], id),
{
    let mut i: usize = 0;
    while i < es.len()
        invariant
            i <= es.len(),
            forall|j: int| 0 <= j < i ==> !is_locked(#[trigger] es@[j], id),
        decreases es.len() - i,
    {
        let locked: bool = match (id, es[i].ship_info) {
            (Some(pid), Some(info)) => info.player_id == pid && info.phaser_locked,
            _ => false,
        };
        if locked {
            assert(is_locked(es@[i as int], id));
            return true;
        }
        i = i + 1;
    }
    false
}

/// Draws the crosshair.
pub fn draw_mouse_crosshair<F: Fn(Ask) -> Single>(
    list: &mut Vec<Shape>,
    x: Single,
    y: Single,
    on_target: bool,
    locked: bool,
    time: Single,
    oracle: &mut Oracle<F>,
)
    ensures
        final(oracle).follows(*old(oracle)),
        forall|rest: Trace|
            {
                let (shapes, after) = #[trigger] crosshair(
                    x,
                    y,
                    on_target,
                    locked,
                    time,
                    final(oracle).since(*old(oracle)) + rest,
                );
                drawn(*final(list)) == drawn(*old(list)) + shapes && after == rest
            },
{
    let color: Ink = if on_target {
        Ink::mix(100, 15, 15, 95)
    } else {
        Ink::mix(90, 90, 90, 75)
    };
    let one: Single = Single::whole(1);
    let far: Single = Single::whole(8);
    let near: Single = Single::whole(3);
    draw_line(list, x.minus(far), y, x.minus(near), y, one, color);
    draw_line(list, x.plus(near), y, x.plus(far), y, one, color);
    draw_line(list, x, y.minus(far), x, y.minus(near), one, color);
    draw_line(list, x, y.plus(near), x, y.plus(far), one, color);
    figure(
        list,
        Figure::Ring { x, y, r: Single::whole(4), thickness: Single::fraction(1, 2), ink: color },
    );
    if locked {
        let sine: Single = oracle.ask(Ask::Sin(time.times(tau()).times(Single::whole(2))));
        let beat: Single = pulse_of(sine);
        let half: Single = Single::whole(9).plus(beat.times(Single::whole(4)));
        let red: Ink = Ink::veil(
            100,
            15,
            15,
            Single::fraction(55, 100).plus(beat.times(Single::fraction(45, 100))),
        );
        let wide: Single = Single::fraction(3, 2);
        let (l, r, u, d) = (x.minus(half), x.plus(half), y.minus(half), y.plus(half));
        draw_line(list, l, u, r, u, wide, red);
        draw_line(list, l, d, r, d, wide, red);
        draw_line(list, l, u, l, d, wide, red);
        draw_line(list, r, u, r, d, wide, red);
        proof {
            let tr = oracle.since(*old(oracle));
            lemma_past(tr);
        }
    } else {
        proof {
            lemma_since_now(*oracle);
        }
    }
    proof {
        let tr = oracle.since(*old(oracle));
        assert forall|rest: Trace|
            {
                let (shapes, after) = #[trigger] crosshair(
                    x,
                    y,
                    on_target,
                    locked,
                    time,
                    tr + rest,
                );
                drawn(*list) == drawn(*old(list)) + shapes && after == rest
            } by {
            let shapes = crosshair(x, y, on_target, locked, time, tr + rest).0;
            assert(drawn(*list) =~= drawn(*old(list)) + shapes);
        }
    }
}

/// The border of the world.
pub open spec fn border_shape() -> Drawn {
    fig(
        Figure::Border {
            x: zero(),
            y: zero(),
            w: world_side(),
            h: world_side(),
            thickness: from_whole(4),
            ink: Ink::Named(Named::DarkBlue),
        },
    )
}

/// Draws the border of the world.
pub fn draw_world_border(list: &mut Vec<Shape>)
    ensures
        drawn(*final(list)) == drawn(*old(list)).push(border_shape()),
{
    figure(
        list,
        Figure::Border {
            x: Single::nought(),
            y: Single::nought(),
            w: world_width(),
            h: world_width(),
            thickness: Single::whole(4),
            ink: Ink::Named(Named::DarkBlue),
        },
    );
}

/// Where the camera points while the screen shakes.
pub open spec fn shaken(x: Single, y: Single, shake: Single, time: Single, t: Trace) -> (
    Single,
    Single,
    Trace,
) {
    let s = Ask::Sin(product(time, from_whole(97)));
    let c = Ask::Cos(product(time, from_whole(83)));
    (
        sum(x, product(told(t, 0, s), shake)),
        sum(y, product(told(t, 1, c), shake)),
        past(t, seq![s, c]),
    )
}

/// Where the camera points while the screen shakes.
pub fn shake_camera<F: Fn(Ask) -> Single>(
    x: Single,
    y: Single,
    shake: Single,
    time: Single,
    oracle: &mut Oracle<F>,
) -> (r: (Single, Single))
    ensures
        final(oracle).follows(*old(oracle)),
        forall|rest: Trace| #[trigger]
            shaken(x, y, shake, time, final(oracle).since(*old(oracle)) + rest) == (
                r.0,
                r.1,
                rest,
            ),
{
    let s: Single = oracle.ask(Ask::Sin(time.times(Single::whole(97))));
    let c: Single = oracle.ask(Ask::Cos(time.times(Single::whole(83))));
    proof {
        let tr = oracle.since(*old(oracle));
        lemma_past(tr);
    }
    (x.plus(s.times(shake)), y.plus(c.times(shake)))
}

} // verus!
