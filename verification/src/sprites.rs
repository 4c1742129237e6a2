//! The sprites of ships, planets and asteroids.
use vstd::prelude::*;

use crate::bounds::lemma_whole_amount;
use crate::canvas::{
    byte_of, circle_dotted, dots_of, is_full, lemma_dots, painted, plain, poly_painted, Canvas,
    Corner, Raster, Region, Rgba,
};
use crate::oracle::{lemma_follows, Ask, Oracle, Trace};
use crate::single::{difference, from_fraction, from_whole, product, quotient, sum, Single};

verus! {

broadcast use lemma_follows;

/// The side of a ship's sprite.
pub const SIZE: u32 = 64;

/// The side of a planet's sprite.
pub const PLANET_SIZE: u32 = 256;

/// A transparent sprite of a ship.
pub open spec fn blank_ship() -> Raster {
    plain(64, 64, (0, 0, 0, 0))
}

/// A coordinate of a ship's sprite, counted from its middle.
pub open spec fn at(d: int) -> Single {
    from_whole(32 + d)
}

/// Corners counted from the middle of a ship's sprite.
pub open spec fn corners(ds: Seq<(int, int)>) -> Seq<Corner> {
    ds.map_values(|d: (int, int)| (at(d.0), at(d.1)))
}

/// Pairs of numbers of any size.
pub open spec fn wide(ds: Seq<(i32, i32)>) -> Seq<(int, int)> {
    ds.map_values(|d: (i32, i32)| (d.0 as int, d.1 as int))
}

/// The hull of the scout.
pub open spec fn scout_body() -> Seq<(int, int)> {
    seq![(22int, 0int), (-14int, -6int), (-14int, 6int)]
}

/// One wing of the scout.
pub open spec fn scout_wing_up() -> Seq<(int, int)> {
    seq![(2int, -2int), (-12int, -14int), (-16int, -10int), (-10int, -2int)]
}

/// The other wing of the scout.
pub open spec fn scout_wing_down() -> Seq<(int, int)> {
    seq![(2int, 2int), (-12int, 14int), (-16int, 10int), (-10int, 2int)]
}

/// The hull of the destroyer.
pub open spec fn destroyer_body() -> Seq<(int, int)> {
    seq![(24int, 0int), (-8int, -9int), (-16int, -6int), (-16int, 6int), (-8int, 9int)]
}

/// The hull of the cruiser.
pub open spec fn cruiser_body() -> Seq<(int, int)> {
    seq![
        (26int, 0int),
        (0int, -12int),
        (-18int, -10int),
        (-20int, 0int),
        (-18int, 10int),
        (0int, 12int),
    ]
}

/// One wing of the cruiser.
pub open spec fn cruiser_wing_up() -> Seq<(int, int)> {
    seq![(4int, -10int), (-10int, -22int), (-20int, -18int), (-16int, -10int)]
}

/// The other wing of the cruiser.
pub open spec fn cruiser_wing_down() -> Seq<(int, int)> {
    seq![(4int, 10int), (-10int, 22int), (-20int, 18int), (-16int, 10int)]
}

/// The hull of the battleship.
pub open spec fn battleship_body() -> Seq<(int, int)> {
    seq![
        (28int, 0int),
        (10int, -14int),
        (-20int, -16int),
        (-28int, -8int),
        (-28int, 8int),
        (-20int, 16int),
        (10int, 14int),
    ]
}

/// One plate of the battleship.
pub open spec fn battleship_plate_up() -> Seq<(int, int)> {
    seq![(0int, -14int), (-18int, -26int), (-28int, -22int), (-26int, -16int)]
}

/// The other plate of the battleship.
pub open spec fn battleship_plate_down() -> Seq<(int, int)> {
    seq![(0int, 14int), (-18int, 26int), (-28int, 22int), (-26int, 16int)]
}

/// The hull of the carrier.
pub open spec fn carrier_body() -> Seq<(int, int)> {
    seq![
        (22int, 0int),
        (8int, -10int),
        (-18int, -12int),
        (-26int, -6int),
        (-26int, 6int),
        (-18int, 12int),
        (8int, 10int),
    ]
}

/// The outline of the asteroid.
pub open spec fn rock_body() -> Seq<(int, int)> {
    seq![
        (19int, -3int),
        (14int, -16int),
        (2int, -21int),
        (-10int, -18int),
        (-20int, -8int),
        (-21int, 5int),
        (-13int, 18int),
        (3int, 20int),
        (16int, 12int),
        (20int, 2int),
    ]
}

/// A ship's sprite with a polygon.
pub open spec fn with_poly(r: Raster, ds: Seq<(int, int)>, color: Rgba) -> Raster {
    poly_painted(r, corners(ds), color)
}

/// A ship's sprite with a disc whose radius is in tenths.
pub open spec fn with_disc(r: Raster, dx: int, dy: int, tenths: int, color: Rgba) -> Raster {
    painted(
        r,
        Region::Disc { cx: at(dx), cy: at(dy), r: from_fraction(tenths, 10) },
        color,
        false,
    )
}

/// A ship's sprite with a disc blended in.
pub open spec fn with_haze(r: Raster, dx: int, dy: int, radius: int, color: Rgba) -> Raster {
    painted(
        r,
        Region::Disc { cx: at(dx), cy: at(dy), r: from_fraction(radius * 10, 10) },
        color,
        true,
    )
}

/// A ship's sprite with a rectangle.
pub open spec fn with_rect(r: Raster, dx: int, dy: int, w: int, h: int, color: Rgba) -> Raster {
    painted(
        r,
        Region::Rect { x: at(dx), y: at(dy), w: from_whole(w), h: from_whole(h) },
        color,
        false,
    )
}

/// The scout: a slim interceptor with swept-back wings and a glowing nose.
pub open spec fn scout() -> Raster {
    let r1 = with_poly(
        blank_ship(),
        scout_body(),
        (64, 220, 64, 255),
    );
    let r2 = with_poly(
        r1,
        scout_wing_up(),
        (32, 140, 32, 255),
    );
    let r3 = with_poly(
        r2,
        scout_wing_down(),
        (32, 140, 32, 255),
    );
    with_disc(r3, 21, 0, 20, (160, 255, 160, 255))
}

/// The destroyer: a wedge with two engine pods.
pub open spec fn destroyer() -> Raster {
    let pod: Rgba = (50, 80, 160, 255);
    let glow: Rgba = (140, 180, 255, 255);
    let r1 = with_poly(
        blank_ship(),
        destroyer_body(),
        (80, 120, 220, 255),
    );
    let r2 = with_rect(r1, -16, -18, 14, 6, pod);
    let r3 = with_rect(r2, -16, 12, 14, 6, pod);
    let r4 = with_disc(r3, -17, -15, 35, glow);
    let r5 = with_disc(r4, -17, 15, 35, glow);
    with_disc(r5, 23, 0, 20, glow)
}

/// The cruiser: a wide hull with two weapon wings.
pub open spec fn cruiser() -> Raster {
    let wing: Rgba = (110, 40, 150, 255);
    let glow: Rgba = (220, 160, 255, 255);
    let r1 = with_poly(
        blank_ship(),
        cruiser_body(),
        (160, 60, 200, 255),
    );
    let r2 = with_poly(r1, cruiser_wing_up(), wing);
    let r3 = with_poly(r2, cruiser_wing_down(), wing);
    let r4 = with_disc(r3, 25, 0, 30, glow);
    with_disc(r4, -20, 0, 40, glow)
}

/// The battleship: a thick body with armour plates and four engines.
pub open spec fn battleship() -> Raster {
    let armor: Rgba = (140, 20, 20, 255);
    let glow: Rgba = (255, 160, 100, 255);
    let r1 = with_poly(
        blank_ship(),
        battleship_body(),
        (200, 40, 40, 255),
    );
    let r2 = with_poly(r1, battleship_plate_up(), armor);
    let r3 = with_poly(r2, battleship_plate_down(), armor);
    let r4 = with_disc(r3, -27, -12, 35, glow);
    let r5 = with_disc(r4, -27, -4, 35, glow);
    let r6 = with_disc(r5, -27, 4, 35, glow);
    let r7 = with_disc(r6, -27, 12, 35, glow);
    with_disc(r7, 27, 0, 35, glow)
}

/// The carrier without its lights: a flat body with a flight deck.
pub open spec fn carrier_hull() -> Raster {
    let glow: Rgba = (255, 230, 100, 255);
    let r1 = with_poly(
        blank_ship(),
        carrier_body(),
        (200, 160, 30, 255),
    );
    let r2 = with_rect(r1, -14, -24, 22, 12, (140, 110, 20, 255));
    let r3 = with_rect(r2, -12, -22, 18, 3, glow);
    let r4 = with_disc(r3, -25, -8, 40, glow);
    with_disc(r4, -25, 8, 40, glow)
}

/// The carrier with the lights around its flight deck.
pub open spec fn carrier(t: Trace) -> (Raster, Trace) {
    circle_dotted(
        carrier_hull(),
        at(-3),
        at(-24),
        from_whole(3),
        (255, 80, 80, 200),
        dots_of(from_whole(3)) as nat,
        t,
    )
}

/// The asteroid: an irregular rock with shading and craters.
pub open spec fn asteroid() -> Raster {
    let dark: Rgba = (60, 55, 50, 255);
    let r1 = with_poly(
        blank_ship(),
        rock_body(),
        (110, 105, 100, 255),
    );
    let r2 = with_haze(r1, 7, 7, 15, (60, 55, 50, 90));
    let r3 = with_haze(r2, -7, -7, 11, (160, 155, 150, 80));
    let r4 = with_disc(r3, -6, 4, 50, dark);
    let r5 = with_disc(r4, 7, -5, 40, dark);
    with_disc(r5, -12, -3, 30, dark)
}

/// The colours of a type of planet: the base, the features, the highlight and the atmosphere.
pub open spec fn colors_of(kind: u8) -> (Rgba, Rgba, Rgba, Rgba) {
    match kind {
        0 => (
            (135, 92, 51, 255),
            (97, 66, 36, 255),
            (200, 153, 102, 255),
            (200, 180, 120, 45),
        ),
        1 => (
            (200, 133, 46, 255),
            (143, 82, 20, 255),
            (245, 210, 128, 255),
            (220, 180, 100, 55),
        ),
        2 => (
            (26, 61, 179, 255),
            (13, 122, 71, 255),
            (90, 166, 255, 255),
            (100, 160, 255, 56),
        ),
        3 => ((133, 20, 5, 255), (230, 51, 5, 255), (255, 115, 13, 255), (255, 80, 10, 75)),
        _ => (
            (184, 220, 255, 255),
            (148, 194, 240, 255),
            (245, 250, 255, 255),
            (200, 230, 255, 51),
        ),
    }
}

/// A colour with another opacity.
pub open spec fn thinned(c: Rgba, a: u8) -> Rgba {
    (c.0, c.1, c.2, a)
}

/// The middle of a planet's sprite.
pub open spec fn centre() -> Single {
    from_whole(128)
}

/// The radius of the planet in its sprite.
pub open spec fn body_radius() -> Single {
    product(centre(), from_fraction(67, 100))
}

/// A planet's sprite with a disc blended in, whose place and radius are hundredths of the
/// planet's radius.
pub open spec fn with_blot(r: Raster, dx: int, dy: int, size: int, color: Rgba) -> Raster {
    painted(
        r,
        Region::Disc {
            cx: sum(centre(), product(body_radius(), from_fraction(dx, 100))),
            cy: sum(centre(), product(body_radius(), from_fraction(dy, 100))),
            r: product(body_radius(), from_fraction(size, 100)),
        },
        color,
        true,
    )
}

/// A planet's sprite with a ring blended in, whose width is in tenths.
pub open spec fn with_ring(r: Raster, radius: Single, tenths: int, color: Rgba) -> Raster {
    painted(
        r,
        Region::Ring { cx: centre(), cy: centre(), r: radius, width: from_fraction(tenths, 10) },
        color,
        true,
    )
}

/// One layer of the glow of the atmosphere.
pub open spec fn glow_layer(r: Raster, air: Rgba, i: int) -> Raster {
    let t = quotient(from_whole(i), from_whole(20));
    let radius = sum(
        body_radius(),
        product(
            product(t, difference(centre(), body_radius())),
            from_fraction(92, 100),
        ),
    );
    let alpha = byte_of(
        product(
            product(difference(from_whole(1), t), from_whole(air.3 as int)),
            from_fraction(55, 100),
        ),
    );
    painted(
        r,
        Region::Disc { cx: centre(), cy: centre(), r: radius },
        thinned(air, alpha),
        true,
    )
}

/// The first `n` layers of the glow, the outermost first.
pub open spec fn glow(r: Raster, air: Rgba, n: nat) -> Raster
    decreases n,
{
    if n == 0 {
        r
    } else {
        glow_layer(glow(r, air, (n - 1) as nat), air, 20 - n)
    }
}

/// The first `n` rings that darken the edge.
pub open spec fn edge(r: Raster, base: Rgba, n: nat) -> Raster
    decreases n,
{
    if n == 0 {
        r
    } else {
        let t = quotient(from_whole(n - 1), from_whole(8));
        with_ring(
            edge(r, base, (n - 1) as nat),
            difference(body_radius(), product(t, from_whole(6))),
            30,
            (
                base.0 / 3,
                base.1 / 3,
                base.2 / 3,
                byte_of(product(difference(from_whole(1), t), from_whole(150))),
            ),
        )
    }
}

/// The ground of a planet: the glow, the body, the features, the highlight and the edge.
pub open spec fn planet_ground(kind: u8) -> Raster {
    let (base, feature, highlight, air) = colors_of(kind);
    let r1 = glow(plain(256, 256, (0, 0, 0, 0)), air, 20);
    let r2 = painted(
        r1,
        Region::Disc { cx: centre(), cy: centre(), r: body_radius() },
        base,
        false,
    );
    let r3 = with_blot(r2, 22, 18, 40, thinned(feature, 200));
    let r4 = with_blot(r3, -30, -22, 28, thinned(feature, 180));
    let r5 = with_blot(r4, 5, -38, 20, thinned(feature, 160));
    let r6 = with_blot(r5, -28, -28, 52, thinned(highlight, 76));
    edge(r6, base, 8)
}

/// A radius in hundredths of the planet's.
pub open spec fn radius_share(size: int) -> Single {
    product(body_radius(), from_fraction(size, 100))
}

/// The sprite of a type of planet.
pub open spec fn planet(kind: u8) -> Raster {
    let (_, feature, highlight, air) = colors_of(kind);
    let r0 = planet_ground(kind);
    if kind == 1 {
        let r1 = with_blot(r0, 0, 0, 75, thinned(feature, 64));
        let r2 = with_blot(r1, 0, 0, 45, thinned(highlight, 46));
        let r3 = with_ring(r2, radius_share(135), 50, thinned(air, 130));
        let r4 = with_ring(r3, radius_share(152), 35, thinned(air, 97));
        with_ring(r4, radius_share(168), 25, thinned(air, 64))
    } else if kind == 3 {
        let r1 = with_ring(r0, radius_share(80), 30, (255, 140, 13, 115));
        let r2 = with_ring(r1, radius_share(55), 20, (255, 166, 26, 90));
        with_ring(r2, sum(body_radius(), from_whole(3)), 35, (255, 90, 5, 90))
    } else if kind == 4 {
        with_blot(r0, 0, -40, 40, (245, 250, 255, 115))
    } else {
        r0
    }
}

/// Whether a picture can be painted on.
pub open spec fn is_ready(r: Raster) -> bool {
    is_full(r) && r.width <= 256 && r.height <= 256
}

fn place(d: i32) -> (r: Single)
    requires
        -100 <= d <= 100,
    ensures
        r == at(d as int),
{
    Single::whole(32 + d)
}

fn outline(ds: &Vec<(i32, i32)>) -> (r: Vec<Corner>)
    requires
        forall|i: int|
            0 <= i < ds@.len() ==> -100 <= (#[trigger] ds@[i]).0 <= 100 && -100 <= ds@[i].1 <= 100,
    ensures
        r@ == corners(wide(ds@)),
{
    let mut r: Vec<Corner> = Vec::new();
    let mut i: usize = 0;
    while i < ds.len()
        invariant
            i <= ds.len(),
            forall|i: int|
                0 <= i < ds@.len() ==> -100 <= (#[trigger] ds@[i]).0 <= 100 && -100 <= ds@[i].1
                    <= 100,
            r@ == corners(wide(ds@.take(i as int))),
        decreases ds.len() - i,
    {
        let d: (i32, i32) = ds[i];
        r.push((place(d.0), place(d.1)));
        i = i + 1;
        proof {
            assert(r@ =~= corners(wide(ds@.take(i as int))));
        }
    }
    proof {
        assert(ds@.take(i as int) =~= ds@);
    }
    r
}

impl Canvas {
    fn poly(&mut self, ds: Vec<(i32, i32)>, color: Rgba)
        requires
            is_ready(old(self)@),
            forall|i: int|
                0 <= i < ds@.len() ==> -100 <= (#[trigger] ds@[i]).0 <= 100 && -100 <= ds@[i].1
                    <= 100,
        ensures
            final(self)@ == with_poly(old(self)@, wide(ds@), color),
            is_ready(final(self)@),
    {
        let vs: Vec<Corner> = outline(&ds);
        self.fill_poly(&vs, color);
    }

    fn disc(&mut self, dx: i32, dy: i32, tenths: i32, color: Rgba)
        requires
            is_ready(old(self)@),
            -100 <= dx <= 100,
            -100 <= dy <= 100,
        ensures
            final(self)@ == with_disc(old(self)@, dx as int, dy as int, tenths as int, color),
            is_ready(final(self)@),
    {
        self.fill_circle(place(dx), place(dy), Single::fraction(tenths, 10), color);
    }

    fn haze(&mut self, dx: i32, dy: i32, radius: i32, color: Rgba)
        requires
            is_ready(old(self)@),
            -100 <= dx <= 100,
            -100 <= dy <= 100,
            0 <= radius <= 100,
        ensures
            final(self)@ == with_haze(old(self)@, dx as int, dy as int, radius as int, color),
            is_ready(final(self)@),
    {
        self.fill_circle_alpha(place(dx), place(dy), Single::fraction(radius * 10, 10), color);
    }

    fn rect(&mut self, dx: i32, dy: i32, w: i32, h: i32, color: Rgba)
        requires
            is_ready(old(self)@),
            -100 <= dx <= 100,
            -100 <= dy <= 100,
        ensures
            final(self)@ == with_rect(
                old(self)@,
                dx as int,
                dy as int,
                w as int,
                h as int,
                color,
            ),
            is_ready(final(self)@),
    {
        self.fill_rect(place(dx), place(dy), Single::whole(w), Single::whole(h), color);
    }

    fn blot(&mut self, dx: i32, dy: i32, size: i32, color: Rgba)
        requires
            is_ready(old(self)@),
        ensures
            final(self)@ == with_blot(old(self)@, dx as int, dy as int, size as int, color),
            is_ready(final(self)@),
    {
        let body: Single = planet_body_radius();
        let mid: Single = Single::whole(128);
        self.fill_circle_alpha(
            mid.plus(body.times(Single::fraction(dx, 100))),
            mid.plus(body.times(Single::fraction(dy, 100))),
            body.times(Single::fraction(size, 100)),
            color,
        );
    }

    fn ring(&mut self, radius: Single, tenths: i32, color: Rgba)
        requires
            is_ready(old(self)@),
        ensures
            final(self)@ == with_ring(old(self)@, radius, tenths as int, color),
            is_ready(final(self)@),
    {
        let mid: Single = Single::whole(128);
        self.stroke_circle_alpha(mid, mid, radius, Single::fraction(tenths, 10), color);
    }

    fn glow_all(&mut self, air: Rgba)
        requires
            is_ready(old(self)@),
        ensures
            final(self)@ == glow(old(self)@, air, 20),
            is_ready(final(self)@),
    {
        let body: Single = planet_body_radius();
        let mid: Single = Single::whole(128);
        let mut n: i32 = 0;
        while n < 20
            invariant
                0 <= n <= 20,
                body == body_radius(),
                mid == centre(),
                is_ready(self@),
                self@ == glow(old(self)@, air, n as nat),
            decreases 20 - n,
        {
            n = n + 1;
            let t: Single = Single::whole(20 - n).over(Single::whole(20));
            let radius: Single = body.plus(
                t.times(mid.minus(body)).times(Single::fraction(92, 100)),
            );
            let alpha: u8 = Single::whole(1).minus(t).times(Single::whole(air.3 as i32)).times(
                Single::fraction(55, 100),
            ).to_byte();
            self.fill_circle_alpha(mid, mid, radius, (air.0, air.1, air.2, alpha));
        }
    }

    fn darken_edge(&mut self, base: Rgba)
        requires
            is_ready(old(self)@),
        ensures
            final(self)@ == edge(old(self)@, base, 8),
            is_ready(final(self)@),
    {
        let body: Single = planet_body_radius();
        let mut n: i32 = 0;
        while n < 8
            invariant
                0 <= n <= 8,
                body == body_radius(),
                is_ready(self@),
                self@ == edge(old(self)@, base, n as nat),
            decreases 8 - n,
        {
            let t: Single = Single::whole(n).over(Single::whole(8));
            let alpha: u8 = Single::whole(1).minus(t).times(Single::whole(150)).to_byte();
            self.ring(
                body.minus(t.times(Single::whole(6))),
                30,
                (base.0 / 3, base.1 / 3, base.2 / 3, alpha),
            );
            n = n + 1;
        }
    }
}

fn planet_body_radius() -> (r: Single)
    ensures
        r == body_radius(),
{
    Single::whole(128).times(Single::fraction(67, 100))
}

/// A transparent sprite of a ship.
pub fn new_img() -> (r: Canvas)
    ensures
        r@ == blank_ship(),
        is_ready(r@),
{
    Canvas::blank(SIZE)
}

/// The sprite of the scout.
pub fn draw_scout() -> (r: Canvas)
    ensures
        r@ == scout(),
{
    let mut img: Canvas = new_img();
    let wing: Rgba = (32, 140, 32, 255);
    let scout_body_points: Vec<(i32, i32)> = vec![(22, 0), (-14, -6), (-14, 6)];
    assert(wide(scout_body_points@) =~= scout_body());
    img.poly(scout_body_points, (64, 220, 64, 255));
    let scout_wing_up_points: Vec<(i32, i32)> = vec![(2, -2), (-12, -14), (-16, -10), (-10, -2)];
    assert(wide(scout_wing_up_points@) =~= scout_wing_up());
    img.poly(scout_wing_up_points, wing);
    let scout_wing_down_points: Vec<(i32, i32)> = vec![(2, 2), (-12, 14), (-16, 10), (-10, 2)];
    assert(wide(scout_wing_down_points@) =~= scout_wing_down());
    img.poly(scout_wing_down_points, wing);
    img.disc(21, 0, 20, (160, 255, 160, 255));
    img
}

/// The sprite of the destroyer.
pub fn draw_destroyer() -> (r: Canvas)
    ensures
        r@ == destroyer(),
{
    let mut img: Canvas = new_img();
    let pod: Rgba = (50, 80, 160, 255);
    let glow: Rgba = (140, 180, 255, 255);
    let destroyer_body_points: Vec<(i32, i32)> = vec![
        (24, 0),
        (-8, -9),
        (-16, -6),
        (-16, 6),
        (-8, 9),
    ];
    assert(wide(destroyer_body_points@) =~= destroyer_body());
    img.poly(destroyer_body_points, (80, 120, 220, 255));
    img.rect(-16, -18, 14, 6, pod);
    img.rect(-16, 12, 14, 6, pod);
    img.disc(-17, -15, 35, glow);
    img.disc(-17, 15, 35, glow);
    img.disc(23, 0, 20, glow);
    img
}

/// The sprite of the cruiser.
pub fn draw_cruiser() -> (r: Canvas)
    ensures
        r@ == cruiser(),
{
    let mut img: Canvas = new_img();
    let wing: Rgba = (110, 40, 150, 255);
    let glow: Rgba = (220, 160, 255, 255);
    let cruiser_body_points: Vec<(i32, i32)> = vec![
        (26, 0),
        (0, -12),
        (-18, -10),
        (-20, 0),
        (-18, 10),
        (0, 12),
    ];
    assert(wide(cruiser_body_points@) =~= cruiser_body());
    img.poly(cruiser_body_points, (160, 60, 200, 255));
    let cruiser_wing_up_points: Vec<(i32, i32)> = vec![
        (4, -10),
        (-10, -22),
        (-20, -18),
        (-16, -10),
    ];
    assert(wide(cruiser_wing_up_points@) =~= cruiser_wing_up());
    img.poly(cruiser_wing_up_points, wing);
    let cruiser_wing_down_points: Vec<(i32, i32)> = vec![(4, 10), (-10, 22), (-20, 18), (-16, 10)];
    assert(wide(cruiser_wing_down_points@) =~= cruiser_wing_down());
    img.poly(cruiser_wing_down_points, wing);
    img.disc(25, 0, 30, glow);
    img.disc(-20, 0, 40, glow);
    img
}

/// The sprite of the battleship.
pub fn draw_battleship() -> (r: Canvas)
    ensures
        r@ == battleship(),
{
    let mut img: Canvas = new_img();
    let armor: Rgba = (140, 20, 20, 255);
    let glow: Rgba = (255, 160, 100, 255);
    let battleship_body_points: Vec<(i32, i32)> = vec![
        (28, 0),
        (10, -14),
        (-20, -16),
        (-28, -8),
        (-28, 8),
        (-20, 16),
        (10, 14),
    ];
    assert(wide(battleship_body_points@) =~= battleship_body());
    img.poly(battleship_body_points, (200, 40, 40, 255));
    let battleship_plate_up_points: Vec<(i32, i32)> = vec![
        (0, -14),
        (-18, -26),
        (-28, -22),
        (-26, -16),
    ];
    assert(wide(battleship_plate_up_points@) =~= battleship_plate_up());
    img.poly(battleship_plate_up_points, armor);
    let battleship_plate_down_points: Vec<(i32, i32)> = vec![
        (0, 14),
        (-18, 26),
        (-28, 22),
        (-26, 16),
    ];
    assert(wide(battleship_plate_down_points@) =~= battleship_plate_down());
    img.poly(battleship_plate_down_points, armor);
    img.disc(-27, -12, 35, glow);
    img.disc(-27, -4, 35, glow);
    img.disc(-27, 4, 35, glow);
    img.disc(-27, 12, 35, glow);
    img.disc(27, 0, 35, glow);
    img
}

fn draw_carrier_hull() -> (r: Canvas)
    ensures
        r@ == carrier_hull(),
{
    let mut img: Canvas = new_img();
    let glow: Rgba = (255, 230, 100, 255);
    let carrier_body_points: Vec<(i32, i32)> = vec![
        (22, 0),
        (8, -10),
        (-18, -12),
        (-26, -6),
        (-26, 6),
        (-18, 12),
        (8, 10),
    ];
    assert(wide(carrier_body_points@) =~= carrier_body());
    img.poly(carrier_body_points, (200, 160, 30, 255));
    img.rect(-14, -24, 22, 12, (140, 110, 20, 255));
    img.rect(-12, -22, 18, 3, glow);
    img.disc(-25, -8, 40, glow);
    img.disc(-25, 8, 40, glow);
    img
}

/// The sprite of the carrier.
pub fn draw_carrier<F: Fn(Ask) -> Single>(oracle: &mut Oracle<F>) -> (r: Canvas)
    ensures
        final(oracle).follows(*old(oracle)),
        forall|rest: Trace| #[trigger]
            carrier(final(oracle).since(*old(oracle)) + rest) == (r@, rest),
{
    let mut img: Canvas = draw_carrier_hull();
    let radius: Single = Single::whole(3);
    proof {
        lemma_whole_amount(3, 3);
        lemma_dots(radius, 3);
    }
    img.stroke_circle(place(-3), place(-24), radius, (255, 80, 80, 200), oracle);
    img
}

/// The sprite of the asteroid.
pub fn draw_asteroid_sprite() -> (r: Canvas)
    ensures
        r@ == asteroid(),
{
    let mut img: Canvas = new_img();
    let dark: Rgba = (60, 55, 50, 255);
    let rock_body_points: Vec<(i32, i32)> = vec![
        (19, -3),
        (14, -16),
        (2, -21),
        (-10, -18),
        (-20, -8),
        (-21, 5),
        (-13, 18),
        (3, 20),
        (16, 12),
        (20, 2),
    ];
    assert(wide(rock_body_points@) =~= rock_body());
    img.poly(rock_body_points, (110, 105, 100, 255));
    img.haze(7, 7, 15, (60, 55, 50, 90));
    img.haze(-7, -7, 11, (160, 155, 150, 80));
    img.disc(-6, 4, 50, dark);
    img.disc(7, -5, 40, dark);
    img.disc(-12, -3, 30, dark);
    img
}

/// The colours of a type of planet.
pub fn planet_colors(planet_type: u8) -> (r: (Rgba, Rgba, Rgba, Rgba))
    ensures
        r == colors_of(planet_type),
{
    match planet_type {
        0 => (
            (135, 92, 51, 255),
            (97, 66, 36, 255),
            (200, 153, 102, 255),
            (200, 180, 120, 45),
        ),
        1 => (
            (200, 133, 46, 255),
            (143, 82, 20, 255),
            (245, 210, 128, 255),
            (220, 180, 100, 55),
        ),
        2 => (
            (26, 61, 179, 255),
            (13, 122, 71, 255),
            (90, 166, 255, 255),
            (100, 160, 255, 56),
        ),
        3 => ((133, 20, 5, 255), (230, 51, 5, 255), (255, 115, 13, 255), (255, 80, 10, 75)),
        _ => (
            (184, 220, 255, 255),
            (148, 194, 240, 255),
            (245, 250, 255, 255),
            (200, 230, 255, 51),
        ),
    }
}

fn thin(c: Rgba, a: u8) -> (r: Rgba)
    ensures
        r == thinned(c, a),
{
    (c.0, c.1, c.2, a)
}

fn draw_planet_ground(kind: u8) -> (r: Canvas)
    ensures
        r@ == planet_ground(kind),
        is_ready(r@),
{
    let (base, feature, highlight, air) = planet_colors(kind);
    let mut img: Canvas = Canvas::blank(PLANET_SIZE);
    let mid: Single = Single::whole(128);
    img.glow_all(air);
    img.fill_circle(mid, mid, planet_body_radius(), base);
    img.blot(22, 18, 40, thin(feature, 200));
    img.blot(-30, -22, 28, thin(feature, 180));
    img.blot(5, -38, 20, thin(feature, 160));
    img.blot(-28, -28, 52, thin(highlight, 76));
    img.darken_edge(base);
    img
}

/// The sprite of a type of planet.
pub fn draw_planet_sprite(planet_type: u8) -> (r: Canvas)
    ensures
        r@ == planet(planet_type),
{
    let (_base, feature, highlight, air) = planet_colors(planet_type);
    let body: Single = planet_body_radius();
    let mut img: Canvas = draw_planet_ground(planet_type);
    if planet_type == 1 {
        img.blot(0, 0, 75, thin(feature, 64));
        img.blot(0, 0, 45, thin(highlight, 46));
        img.ring(body.times(Single::fraction(135, 100)), 50, thin(air, 130));
        img.ring(body.times(Single::fraction(152, 100)), 35, thin(air, 97));
        img.ring(body.times(Single::fraction(168, 100)), 25, thin(air, 64));
    } else if planet_type == 3 {
        img.ring(body.times(Single::fraction(80, 100)), 30, (255, 140, 13, 115));
        img.ring(body.times(Single::fraction(55, 100)), 20, (255, 166, 26, 90));
        img.ring(body.plus(Single::whole(3)), 35, (255, 90, 5, 90));
    } else if planet_type == 4 {
        img.blot(0, -40, 40, (245, 250, 255, 115));
    }
    img
}

} // verus!
