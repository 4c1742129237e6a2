//! What a client draws, as a list of figures and texts in the order in which they are drawn.
use vstd::prelude::*;
use vstd::string::*;

use crate::game::ShipClass;
use crate::single::{from_fraction, Single};

verus! {

/// A colour; each part runs from zero to one.
#[derive(Debug, Clone, Copy)]
pub struct Color {
    pub r: Single,
    pub g: Single,
    pub b: Single,
    pub a: Single,
}

/// Colours that have a name.
#[derive(Debug, Clone, Copy, PartialEq, Eq, Structural)]
pub enum Named {
    White,
    LightGray,
    Gray,
    DarkGray,
    Gold,
    Red,
    Orange,
    Yellow,
    Green,
    Lime,
    Blue,
    SkyBlue,
    DarkBlue,
    Purple,
}

/// The colour of a figure or a text.
#[derive(Debug, Clone, Copy)]
pub enum Ink {
    Named(Named),
    /// A named colour with another opacity.
    Faded(Named, Single),
    Mixed(Color),
}

/// A texture that can be drawn where it was found.
#[derive(Debug, Clone, Copy, PartialEq, Eq, Structural)]
pub enum Sprite {
    Scout,
    Destroyer,
    Cruiser,
    Battleship,
    Carrier,
    Rocky,
    GasGiant,
    Ocean,
    Lava,
    Ice,
    Asteroid,
}

/// Which textures were found.
#[derive(Debug, Clone, Copy)]
pub struct Loaded {
    pub scout: bool,
    pub destroyer: bool,
    pub cruiser: bool,
    pub battleship: bool,
    pub carrier: bool,
    pub rocky: bool,
    pub gas_giant: bool,
    pub ocean: bool,
    pub lava: bool,
    pub ice: bool,
    pub asteroid: bool,
}

/// A figure.
#[derive(Debug, Clone, Copy)]
pub enum Figure {
    Disc { x: Single, y: Single, r: Single, ink: Ink },
    Ring { x: Single, y: Single, r: Single, thickness: Single, ink: Ink },
    Line { x1: Single, y1: Single, x2: Single, y2: Single, thickness: Single, ink: Ink },
    Block { x: Single, y: Single, w: Single, h: Single, ink: Ink },
    Border { x: Single, y: Single, w: Single, h: Single, thickness: Single, ink: Ink },
    Triangle {
        x1: Single,
        y1: Single,
        x2: Single,
        y2: Single,
        x3: Single,
        y3: Single,
        ink: Ink,
    },
    /// A regular hexagon in outline.
    Hexagon { x: Single, y: Single, r: Single, turn: Single, thickness: Single, ink: Ink },
    /// A texture that covers a square around its middle.
    Picture { sprite: Sprite, x: Single, y: Single, side: Single, turn: Single, ink: Ink },
}

/// How a text stands to its place.
#[derive(Debug, Clone, Copy, PartialEq, Eq, Structural)]
pub enum Anchor {
    /// It starts there.
    Start,
    /// Its middle is there.
    Middle,
    /// It ends there.
    End,
    /// Its middle is there, and so is half its height.
    Centre,
}

/// A number of seconds that follows a text with one decimal.
#[derive(Debug, Clone, Copy)]
pub struct Seconds {
    pub value: Single,
    /// Whether a space stands before the unit.
    pub spaced: bool,
}

/// A text at its place.
#[derive(Debug)]
pub struct Text {
    pub text: String,
    /// Seconds that are written behind the text.
    pub seconds: Option<Seconds>,
    pub x: Single,
    pub y: Single,
    pub size: Single,
    pub anchor: Anchor,
    pub ink: Ink,
    /// The ink of a box behind the text, which reaches ten units beyond it on both sides, and from
    /// twenty units above its line to eight below.
    pub plate: Option<Ink>,
}

/// One thing to draw.
#[derive(Debug)]
pub enum Shape {
    Figure(Figure),
    Text(Text),
}

/// One thing to draw, with its text as characters.
pub enum Drawn {
    Figure(Figure),
    Text {
        text: Seq<char>,
        seconds: Option<Seconds>,
        x: Single,
        y: Single,
        size: Single,
        anchor: Anchor,
        ink: Ink,
        plate: Option<Ink>,
    },
}

impl View for Shape {
    type V = Drawn;

    open spec fn view(&self) -> Drawn {
        match *self {
            Shape::Figure(f) => Drawn::Figure(f),
            Shape::Text(t) => Drawn::Text {
                text: t.text@,
                seconds: t.seconds,
                x: t.x,
                y: t.y,
                size: t.size,
                anchor: t.anchor,
                ink: t.ink,
                plate: t.plate,
            },
        }
    }
}

/// A list of things to draw, with their texts as characters.
pub open spec fn drawn(v: Vec<Shape>) -> Seq<Drawn> {
    v@.map_values(|s: Shape| s@)
}

/// A colour from hundredths.
pub open spec fn mixed(r: int, g: int, b: int, a: int) -> Color {
    Color {
        r: from_fraction(r, 100),
        g: from_fraction(g, 100),
        b: from_fraction(b, 100),
        a: from_fraction(a, 100),
    }
}

/// The ink of a colour from hundredths.
pub open spec fn ink(r: int, g: int, b: int, a: int) -> Ink {
    Ink::Mixed(mixed(r, g, b, a))
}

/// The ink of a colour from hundredths, with an opacity that was computed.
pub open spec fn veil(r: int, g: int, b: int, a: Single) -> Ink {
    Ink::Mixed(Color { a, ..mixed(r, g, b, 100) })
}

/// A text without seconds.
pub open spec fn text_at(
    text: Seq<char>,
    x: Single,
    y: Single,
    size: Single,
    anchor: Anchor,
    ink: Ink,
) -> Drawn {
    Drawn::Text { text, seconds: None, x, y, size, anchor, ink, plate: None }
}

/// The texture of a class.
pub open spec fn ship_sprite(class: ShipClass) -> Sprite {
    match class {
        ShipClass::Scout => Sprite::Scout,
        ShipClass::Destroyer => Sprite::Destroyer,
        ShipClass::Cruiser => Sprite::Cruiser,
        ShipClass::Battleship => Sprite::Battleship,
        ShipClass::Carrier => Sprite::Carrier,
    }
}

/// The texture of a type of planet.
pub open spec fn planet_sprite(kind: u32) -> Sprite {
    match kind {
        0 => Sprite::Rocky,
        1 => Sprite::GasGiant,
        2 => Sprite::Ocean,
        3 => Sprite::Lava,
        _ => Sprite::Ice,
    }
}

/// Whether a texture was found.
pub open spec fn is_loaded(l: Loaded, s: Sprite) -> bool {
    match s {
        Sprite::Scout => l.scout,
        Sprite::Destroyer => l.destroyer,
        Sprite::Cruiser => l.cruiser,
        Sprite::Battleship => l.battleship,
        Sprite::Carrier => l.carrier,
        Sprite::Rocky => l.rocky,
        Sprite::GasGiant => l.gas_giant,
        Sprite::Ocean => l.ocean,
        Sprite::Lava => l.lava,
        Sprite::Ice => l.ice,
        Sprite::Asteroid => l.asteroid,
    }
}

impl Color {
    /// A colour from hundredths.
    pub fn mix(r: i32, g: i32, b: i32, a: i32) -> (c: Color)
        ensures
            c == mixed(r as int, g as int, b as int, a as int),
    {
        Color {
            r: Single::fraction(r, 100),
            g: Single::fraction(g, 100),
            b: Single::fraction(b, 100),
            a: Single::fraction(a, 100),
        }
    }
}

impl Ink {
    /// The ink of a colour from hundredths.
    pub fn mix(r: i32, g: i32, b: i32, a: i32) -> (c: Ink)
        ensures
            c == ink(r as int, g as int, b as int, a as int),
    {
        Ink::Mixed(Color::mix(r, g, b, a))
    }

    /// The ink of a colour from hundredths, with an opacity that was computed.
    pub fn veil(r: i32, g: i32, b: i32, a: Single) -> (c: Ink)
        ensures
            c == veil(r as int, g as int, b as int, a),
    {
        let mut c: Color = Color::mix(r, g, b, 100);
        c.a = a;
        Ink::Mixed(c)
    }
}

impl Sprite {
    /// The texture of a class.
    pub fn of_ship(class: ShipClass) -> (r: Sprite)
        ensures
            r == ship_sprite(class),
    {
        match class {
            ShipClass::Scout => Sprite::Scout,
            ShipClass::Destroyer => Sprite::Destroyer,
            ShipClass::Cruiser => Sprite::Cruiser,
            ShipClass::Battleship => Sprite::Battleship,
            ShipClass::Carrier => Sprite::Carrier,
        }
    }

    /// The texture of a type of planet.
    pub fn of_planet(kind: u32) -> (r: Sprite)
        ensures
            r == planet_sprite(kind),
    {
        match kind {
            0 => Sprite::Rocky,
            1 => Sprite::GasGiant,
            2 => Sprite::Ocean,
            3 => Sprite::Lava,
            _ => Sprite::Ice,
        }
    }
}

impl Loaded {
    /// Whether a texture was found.
    pub fn has(&self, s: Sprite) -> (r: bool)
        ensures
            r == is_loaded(*self, s),
    {
        match s {
            Sprite::Scout => self.scout,
            Sprite::Destroyer => self.destroyer,
            Sprite::Cruiser => self.cruiser,
            Sprite::Battleship => self.battleship,
            Sprite::Carrier => self.carrier,
            Sprite::Rocky => self.rocky,
            Sprite::GasGiant => self.gas_giant,
            Sprite::Ocean => self.ocean,
            Sprite::Lava => self.lava,
            Sprite::Ice => self.ice,
            Sprite::Asteroid => self.asteroid,
        }
    }
}

/// Draws a figure.
pub fn figure(list: &mut Vec<Shape>, f: Figure)
    ensures
        drawn(*final(list)) == drawn(*old(list)).push(Drawn::Figure(f)),
{
    list.push(Shape::Figure(f));
    assert(drawn(*list) =~= drawn(*old(list)).push(Drawn::Figure(f)));
}

/// Writes a text.
pub fn print_owned(
    list: &mut Vec<Shape>,
    text: String,
    x: Single,
    y: Single,
    size: Single,
    anchor: Anchor,
    ink: Ink,
)
    ensures
        drawn(*final(list)) == drawn(*old(list)).push(text_at(text@, x, y, size, anchor, ink)),
{
    list.push(Shape::Text(Text { text, seconds: None, x, y, size, anchor, ink, plate: None }));
    assert(drawn(*list) =~= drawn(*old(list)).push(text_at(text@, x, y, size, anchor, ink)));
}

/// Writes a text.
pub fn print(
    list: &mut Vec<Shape>,
    text: &str,
    x: Single,
    y: Single,
    size: Single,
    anchor: Anchor,
    ink: Ink,
)
    ensures
        drawn(*final(list)) == drawn(*old(list)).push(text_at(text@, x, y, size, anchor, ink)),
{
    print_owned(list, String::from_str(text), x, y, size, anchor, ink);
}

/// A text with seconds behind it.
pub open spec fn timed_at(
    text: Seq<char>,
    seconds: Seconds,
    x: Single,
    y: Single,
    size: Single,
    anchor: Anchor,
    ink: Ink,
    plate: Option<Ink>,
) -> Drawn {
    Drawn::Text { text, seconds: Some(seconds), x, y, size, anchor, ink, plate }
}

/// Writes a text with seconds behind it.
pub fn print_seconds(
    list: &mut Vec<Shape>,
    text: String,
    seconds: Seconds,
    x: Single,
    y: Single,
    size: Single,
    anchor: Anchor,
    ink: Ink,
    plate: Option<Ink>,
)
    ensures
        drawn(*final(list)) == drawn(*old(list)).push(
            timed_at(text@, seconds, x, y, size, anchor, ink, plate),
        ),
{
    list.push(Shape::Text(Text { text, seconds: Some(seconds), x, y, size, anchor, ink, plate }));
    assert(drawn(*list) =~= drawn(*old(list)).push(
        timed_at(text@, seconds, x, y, size, anchor, ink, plate),
    ));
}

} // verus!
