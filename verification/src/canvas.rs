//! Pictures made of pixels, and how figures are painted into them.
use vstd::arithmetic::div_mod::{lemma_mod_self_0, lemma_small_mod};
use vstd::arithmetic::power2::{lemma2_to64, lemma_pow2_adds, lemma_pow2_pos, pow2};
use vstd::prelude::*;

use crate::bounds::{is_amount, lemma_product_amount};
use crate::game::{full_turn, tau};
use crate::oracle::{
    lemma_follows, lemma_since_chain, lemma_since_now, lemma_past, past, told, Ask, Oracle, Trace,
};
use crate::order::{law_order_is_order_of_values, law_small_wholes_are_exact};
use crate::single::{
    difference, from_fraction, from_whole, greater, le, lesser, lt, product, quotient, sum, zero,
    Single,
};
use crate::whole::{ceiling_of, converted, floor_of, one_whole, truncation_of};

verus! {

broadcast use lemma_follows;

/// A colour: red, green, blue and opacity.
pub type Rgba = (u8, u8, u8, u8);

/// A picture, held by an `image::RgbaImage`.
#[verifier::external_body]
#[derive(Debug)]
pub struct Canvas {
    img: image::RgbaImage,
}

/// The pixels of a picture by their places.
pub uninterp spec fn pixels_of(c: Canvas) -> Map<(int, int), Rgba>;

/// The width and the height of a picture.
pub uninterp spec fn extent_of(c: Canvas) -> (u32, u32);

/// A picture as its extent and its pixels.
#[verifier::ext_equal]
pub struct Raster {
    pub width: int,
    pub height: int,
    pub pixels: Map<(int, int), Rgba>,
}

impl View for Canvas {
    type V = Raster;

    open spec fn view(&self) -> Raster {
        Raster {
            width: extent_of(*self).0 as int,
            height: extent_of(*self).1 as int,
            pixels: pixels_of(*self),
        }
    }
}

/// A place within a picture.
pub open spec fn inside(r: Raster, k: (int, int)) -> bool {
    0 <= k.0 < r.width && 0 <= k.1 < r.height
}

/// Whether a picture has a pixel at each of its places, and nowhere else.
pub open spec fn is_full(r: Raster) -> bool {
    forall|k: (int, int)| #[trigger] r.pixels.dom().contains(k) <==> inside(r, k)
}

/// A picture of one colour.
pub open spec fn plain(width: int, height: int, color: Rgba) -> Raster {
    Raster {
        width,
        height,
        pixels: Map::new(
            |k: (int, int)| 0 <= k.0 < width && 0 <= k.1 < height,
            |k: (int, int)| color,
        ),
    }
}

impl Canvas {
    /// Calls `image::ImageBuffer::from_pixel`: the buffer has the given extent, and every pixel is
    /// the given one.
    #[verifier::external_body]
    fn from_pixel(width: u32, height: u32, color: Rgba) -> (r: Canvas)
        requires
            width * height * 4 <= 0x7fff_ffff,
        ensures
            r@ == plain(width as int, height as int, color),
    {
        let pixel = image::Rgba([color.0, color.1, color.2, color.3]);
        Canvas { img: image::ImageBuffer::from_pixel(width, height, pixel) }
    }

    /// Calls `image::ImageBuffer::dimensions`: the extent that the buffer was made with.
    #[verifier::external_body]
    pub(crate) fn dimensions(&self) -> (r: (u32, u32))
        ensures
            r == extent_of(*self),
    {
        self.img.dimensions()
    }

    /// Calls `image::ImageBuffer::get_pixel`: the pixel at a place, which has to be within the
    /// extent.
    #[verifier::external_body]
    fn get_pixel(&self, x: u32, y: u32) -> (r: Rgba)
        requires
            x < extent_of(*self).0,
            y < extent_of(*self).1,
        ensures
            r == pixels_of(*self)[(x as int, y as int)],
    {
        let p = self.img.get_pixel(x, y);
        (p.0[0], p.0[1], p.0[2], p.0[3])
    }

    /// Calls `image::ImageBuffer::put_pixel`: the pixel at a place, which has to be within the
    /// extent, becomes the given one, and all others stay.
    #[verifier::external_body]
    fn put_pixel(&mut self, x: u32, y: u32, color: Rgba)
        requires
            x < extent_of(*old(self)).0,
            y < extent_of(*old(self)).1,
        ensures
            extent_of(*final(self)) == extent_of(*old(self)),
            pixels_of(*final(self)) == pixels_of(*old(self)).insert((x as int, y as int), color),
    {
        self.img.put_pixel(x, y, image::Rgba([color.0, color.1, color.2, color.3]));
    }

    /// Calls `image::ImageBuffer::into_raw`: the bytes of the pixels, row by row from the top, four
    /// for each.
    #[verifier::external_body]
    pub(crate) fn into_raw(self) -> (r: Vec<u8>)
        ensures
            r@.len() == 4 * extent_of(self).0 * extent_of(self).1,
            forall|x: int, y: int|
                0 <= x < extent_of(self).0 && 0 <= y < extent_of(self).1 ==> {
                    let at = 4 * (y * extent_of(self).0 + x);
                    #[trigger] pixels_of(self)[(x, y)] == (
                        r@[at],
                        r@[at + 1],
                        r@[at + 2],
                        r@[at + 3],
                    )
                },
    {
        self.img.into_raw()
    }

    /// A transparent square.
    pub fn blank(side: u32) -> (r: Canvas)
        requires
            side <= 0x4000,
        ensures
            r@ == plain(side as int, side as int, (0, 0, 0, 0)),
    {
        assert(side * side * 4 <= 0x7fff_ffff) by (nonlinear_arith)
            requires
                side <= 0x4000,
        ;
        Canvas::from_pixel(side, side, (0, 0, 0, 0))
    }
}

/// A pixel after a colour was laid over it in proportion to its opacity; nothing is laid where
/// both are all but transparent.
pub open spec fn blended(p: Rgba, c: Rgba) -> Rgba {
    let one = from_whole(1);
    let sa = quotient(from_whole(c.3 as int), from_whole(255));
    let da = quotient(from_whole(p.3 as int), from_whole(255));
    let oa = sum(sa, product(da, difference(one, sa)));
    if lt(from_fraction(1, 1000), oa) {
        (
            mixed_part(c.0, p.0, sa, da, oa),
            mixed_part(c.1, p.1, sa, da, oa),
            mixed_part(c.2, p.2, sa, da, oa),
            byte_of(product(oa, from_whole(255))),
        )
    } else {
        p
    }
}

/// One part of a colour laid over another.
pub open spec fn mixed_part(c: u8, p: u8, sa: Single, da: Single, oa: Single) -> u8 {
    byte_of(
        quotient(
            sum(
                product(from_whole(c as int), sa),
                product(product(from_whole(p as int), da), difference(from_whole(1), sa)),
            ),
            oa,
        ),
    )
}

/// A number cut to a byte.
pub open spec fn byte_of(a: Single) -> u8 {
    converted(a, truncation_of(a), 0, 255) as u8
}

/// The places that a figure covers.
#[derive(Debug, Clone, Copy)]
pub enum Region {
    Disc { cx: Single, cy: Single, r: Single },
    Ring { cx: Single, cy: Single, r: Single, width: Single },
    Rect { x: Single, y: Single, w: Single, h: Single },
}

/// The whole number at or below a number.
pub open spec fn down(a: Single) -> int {
    converted(a, floor_of(a), i32::MIN as int, i32::MAX as int)
}

/// The whole number at or above a number.
pub open spec fn up(a: Single) -> int {
    converted(a, ceiling_of(a), i32::MIN as int, i32::MAX as int)
}

/// The square of the distance from the middle of a pixel to a place.
pub open spec fn offset(x: int, y: int, cx: Single, cy: Single) -> Single {
    let half = from_fraction(1, 2);
    let dx = difference(sum(from_whole(x), half), cx);
    let dy = difference(sum(from_whole(y), half), cy);
    sum(product(dx, dx), product(dy, dy))
}

pub open spec fn square(a: Single) -> Single {
    product(a, a)
}

/// Whether a figure covers a place: its middle has to be in a disc or a ring, and a rectangle
/// covers what it touches.
pub open spec fn covers(f: Region, x: int, y: int) -> bool {
    match f {
        Region::Disc { cx, cy, r } => {
            &&& down(difference(cx, r)) <= x <= up(sum(cx, r))
            &&& down(difference(cy, r)) <= y <= up(sum(cy, r))
            &&& le(offset(x, y, cx, cy), square(r))
        },
        Region::Ring { cx, cy, r, width } => {
            let half = quotient(width, from_whole(2));
            let hole = greater(difference(r, half), zero());
            &&& down(difference(difference(cx, r), half)) <= x <= up(sum(sum(cx, r), half))
            &&& down(difference(difference(cy, r), half)) <= y <= up(sum(sum(cy, r), half))
            &&& le(offset(x, y, cx, cy), square(sum(r, half)))
            &&& le(square(hole), offset(x, y, cx, cy))
        },
        Region::Rect { x: left, y: top, w, h } => {
            &&& down(left) <= x < up(sum(left, w))
            &&& down(top) <= y < up(sum(top, h))
        },
    }
}

/// A pixel after a colour was put on it, or blended into it.
pub open spec fn touched(p: Rgba, color: Rgba, blend: bool) -> Rgba {
    if blend {
        blended(p, color)
    } else {
        color
    }
}

/// A picture after a figure was painted.
pub open spec fn painted(r: Raster, f: Region, color: Rgba, blend: bool) -> Raster {
    Raster {
        pixels: r.pixels.map_entries(
            |k: (int, int), p: Rgba| if covers(f, k.0, k.1) {
                touched(p, color, blend)
            } else {
                p
            },
        ),
        ..r
    }
}

/// A picture after one pixel was painted, if it is within the picture.
pub open spec fn dotted(r: Raster, x: int, y: int, color: Rgba) -> Raster {
    if inside(r, (x, y)) {
        Raster { pixels: r.pixels.insert((x, y), color), ..r }
    } else {
        r
    }
}

/// A corner of a polygon.
pub type Corner = (Single, Single);

/// Whether the edge from one corner to the next crosses a line.
pub open spec fn crosses(a: Corner, b: Corner, y: Single) -> bool {
    le(a.1, y) && lt(y, b.1) || le(b.1, y) && lt(y, a.1)
}

/// Where an edge crosses a line.
pub open spec fn crossing(a: Corner, b: Corner, y: Single) -> Single {
    sum(
        a.0,
        product(quotient(difference(y, a.1), difference(b.1, a.1)), difference(b.0, a.0)),
    )
}

/// A number put into its place among others: behind those that it is not less than.
pub open spec fn sorted_in(xs: Seq<Single>, x: Single) -> Seq<Single>
    decreases xs.len(),
{
    if xs.len() == 0 {
        seq![x]
    } else if lt(x, xs.last()) {
        sorted_in(xs.drop_last(), x).push(xs.last())
    } else {
        xs.push(x)
    }
}

/// Where the first `n` edges of a polygon cross a line, from left to right.
pub open spec fn crossings(vs: Seq<Corner>, y: Single, n: nat) -> Seq<Single>
    decreases n,
{
    if n == 0 {
        Seq::empty()
    } else {
        let front = crossings(vs, y, (n - 1) as nat);
        let a = vs[n - 1];
        let b = vs[n as int % vs.len() as int];
        if crosses(a, b, y) {
            sorted_in(front, crossing(a, b, y))
        } else {
            front
        }
    }
}

/// The least height of the corners.
pub open spec fn lowest(vs: Seq<Corner>) -> Single
    decreases vs.len(),
{
    if vs.len() == 0 {
        Single { bits: 0x7f80_0000 }
    } else {
        lesser(lowest(vs.drop_last()), vs.last().1)
    }
}

/// The greatest height of the corners.
pub open spec fn highest(vs: Seq<Corner>) -> Single
    decreases vs.len(),
{
    if vs.len() == 0 {
        Single { bits: 0xff80_0000 }
    } else {
        greater(highest(vs.drop_last()), vs.last().1)
    }
}

/// Whether a place lies between the first and the second, the third and the fourth, and so on, of
/// some numbers.
pub open spec fn between(xs: Seq<Single>, x: int) -> bool {
    exists|i: int|
        0 <= i < xs.len() - 1 && i % 2 == 0 && #[trigger] down(xs[i]) <= x <= up(xs[i + 1])
}

/// Whether a polygon covers a place.
pub open spec fn poly_covers(vs: Seq<Corner>, x: int, y: int) -> bool {
    let line = sum(from_whole(y), from_fraction(1, 2));
    &&& vs.len() > 0
    &&& down(lowest(vs)) <= y <= up(highest(vs))
    &&& between(crossings(vs, line, vs.len()), x)
}

/// A picture after a polygon was painted.
pub open spec fn poly_painted(r: Raster, vs: Seq<Corner>, color: Rgba) -> Raster {
    Raster {
        pixels: r.pixels.map_entries(
            |k: (int, int), p: Rgba| if poly_covers(vs, k.0, k.1) {
                color
            } else {
                p
            },
        ),
        ..r
    }
}

/// How many dots make the outline of a circle.
pub open spec fn dots_of(r: Single) -> int {
    let around = product(r, full_turn());
    2 * converted(around, ceiling_of(around), 0, u64::MAX as int)
}

/// The outline of a circle needs at most fourteen dots for each unit of its radius.
pub proof fn lemma_dots(r: Single, n: int)
    requires
        is_amount(r, n),
        0 <= n <= 1_000_000,
    ensures
        0 <= dots_of(r) <= 14 * n,
{
    let around = product(r, full_turn());
    assert(is_amount(full_turn(), 7)) by {
        law_small_wholes_are_exact(7);
        lemma2_to64();
        lemma_pow2_adds(21, 128);
        assert(full_turn().exponent() == 128);
        assert(full_turn().units() == 0xc9_0fdb * pow2(128));
        law_order_is_order_of_values(full_turn(), from_whole(7));
    }
    lemma_product_amount(r, full_turn(), n, 7);
    law_small_wholes_are_exact(n * 7);
    law_order_is_order_of_values(around, from_whole(n * 7));
    reveal(ceiling_of);
    lemma_pow2_pos(149);
    let w = one_whole() as int;
    let u = around.value();
    assert(0 <= -((-u) / w) <= 7 * n) by (nonlinear_arith)
        requires
            0 <= u <= (n * 7) * w,
            w > 0,
    ;
}

/// A number cut to a whole number.
pub open spec fn cut(a: Single) -> int {
    converted(a, truncation_of(a), i32::MIN as int, i32::MAX as int)
}

/// A picture after the first `n` dots of the outline of a circle.
pub open spec fn circle_dotted(
    p: Raster,
    cx: Single,
    cy: Single,
    r: Single,
    color: Rgba,
    n: nat,
    t: Trace,
) -> (Raster, Trace)
    decreases n,
{
    if n == 0 {
        (p, t)
    } else {
        let (q, t1) = circle_dotted(p, cx, cy, r, color, (n - 1) as nat, t);
        let angle = product(
            quotient(from_whole(n - 1), from_whole(dots_of(r))),
            full_turn(),
        );
        let x = cut(sum(cx, product(told(t1, 0, Ask::Cos(angle)), r)));
        let y = cut(sum(cy, product(told(t1, 1, Ask::Sin(angle)), r)));
        (dotted(q, x, y, color), past(t1, seq![Ask::Cos(angle), Ask::Sin(angle)]))
    }
}

fn part(c: u8, p: u8, sa: Single, da: Single, oa: Single) -> (r: u8)
    ensures
        r == mixed_part(c, p, sa, da, oa),
{
    Single::whole(c as i32).times(sa).plus(
        Single::whole(p as i32).times(da).times(Single::whole(1).minus(sa)),
    ).over(oa).to_byte()
}

/// Lays a colour over a pixel in proportion to its opacity.
pub fn blend_pixel(p: Rgba, c: Rgba) -> (r: Rgba)
    ensures
        r == blended(p, c),
{
    let full: Single = Single::whole(255);
    let sa: Single = Single::whole(c.3 as i32).over(full);
    let da: Single = Single::whole(p.3 as i32).over(full);
    let oa: Single = sa.plus(da.times(Single::whole(1).minus(sa)));
    if Single::fraction(1, 1000).is_less(oa) {
        (
            part(c.0, p.0, sa, da, oa),
            part(c.1, p.1, sa, da, oa),
            part(c.2, p.2, sa, da, oa),
            oa.times(full).to_byte(),
        )
    } else {
        p
    }
}

fn offset_from(x: i32, y: i32, cx: Single, cy: Single) -> (r: Single)
    ensures
        r == offset(x as int, y as int, cx, cy),
{
    let half: Single = Single::fraction(1, 2);
    let dx: Single = Single::whole(x).plus(half).minus(cx);
    let dy: Single = Single::whole(y).plus(half).minus(cy);
    dx.times(dx).plus(dy.times(dy))
}

/// The least and the greatest whole numbers around a stretch.
fn stretch(low: Single, high: Single) -> (r: (i32, i32))
    ensures
        r.0 == down(low),
        r.1 == up(high),
{
    (low.floor_to_whole(), high.ceil_to_whole())
}

impl Region {
    /// Whether a figure covers a place.
    pub fn contains(&self, x: i32, y: i32) -> (r: bool)
        ensures
            r == covers(*self, x as int, y as int),
    {
        match *self {
            Region::Disc { cx, cy, r } => {
                let (x0, x1) = stretch(cx.minus(r), cx.plus(r));
                let (y0, y1) = stretch(cy.minus(r), cy.plus(r));
                x0 <= x && x <= x1 && y0 <= y && y <= y1 && offset_from(x, y, cx, cy).is_at_most(
                    r.times(r),
                )
            },
            Region::Ring { cx, cy, r, width } => {
                let half: Single = width.over(Single::whole(2));
                let hole: Single = r.minus(half).max(Single::nought());
                let outer: Single = r.plus(half);
                let (x0, x1) = stretch(cx.minus(r).minus(half), cx.plus(r).plus(half));
                let (y0, y1) = stretch(cy.minus(r).minus(half), cy.plus(r).plus(half));
                let d: Single = offset_from(x, y, cx, cy);
                x0 <= x && x <= x1 && y0 <= y && y <= y1 && d.is_at_most(outer.times(outer))
                    && hole.times(hole).is_at_most(d)
            },
            Region::Rect { x: left, y: top, w, h } => {
                let (x0, x1) = stretch(left, left.plus(w));
                let (y0, y1) = stretch(top, top.plus(h));
                x0 <= x && x < x1 && y0 <= y && y < y1
            },
        }
    }
}

/// Puts a number into its place among others.
fn insert_sorted(xs: &mut Vec<Single>, x: Single)
    ensures
        final(xs)@ == sorted_in(old(xs)@, x),
{
    let ghost start = xs@;
    let mut i: usize = xs.len();
    proof {
        assert(start.take(i as int) =~= start);
        assert(start.skip(i as int) =~= Seq::empty());
        assert(sorted_in(start, x) =~= sorted_in(start.take(i as int), x) + start.skip(i as int));
    }
    while i > 0 && x.is_less(xs[i - 1])
        invariant
            i <= xs.len(),
            xs@ == start,
            sorted_in(start, x) == sorted_in(start.take(i as int), x) + start.skip(i as int),
        decreases i,
    {
        i = i - 1;
        proof {
            assert(start.take(i + 1).drop_last() =~= start.take(i as int));
            assert(start.skip(i as int) =~= seq![start[i as int]] + start.skip(i + 1));
            assert(sorted_in(start.take(i as int), x).push(start[i as int]) + start.skip(i + 1)
                =~= sorted_in(start.take(i as int), x) + start.skip(i as int));
        }
    }
    xs.insert(i, x);
    proof {
        if i > 0 {
            assert(start.take(i as int).last() == start[i - 1]);
        }
        assert(xs@ =~= sorted_in(start.take(i as int), x) + start.skip(i as int));
    }
}

/// Where the edges of a polygon cross a line.
fn find_crossings(vs: &Vec<Corner>, y: Single) -> (r: Vec<Single>)
    ensures
        r@ == crossings(vs@, y, vs@.len()),
{
    let mut xs: Vec<Single> = Vec::new();
    let mut i: usize = 0;
    while i < vs.len()
        invariant
            i <= vs.len(),
            xs@ == crossings(vs@, y, i as nat),
        decreases vs.len() - i,
    {
        let a: Corner = vs[i];
        let next: usize = if i + 1 < vs.len() {
            i + 1
        } else {
            0
        };
        let b: Corner = vs[next];
        proof {
            if i + 1 == vs.len() {
                lemma_mod_self_0(vs@.len() as int);
            } else {
                lemma_small_mod((i + 1) as nat, vs@.len());
            }
        }
        if a.1.is_at_most(y) && y.is_less(b.1) || b.1.is_at_most(y) && y.is_less(a.1) {
            let t: Single = y.minus(a.1).over(b.1.minus(a.1));
            insert_sorted(&mut xs, a.0.plus(t.times(b.0.minus(a.0))));
        }
        i = i + 1;
    }
    xs
}

/// Whether a place lies between a pair of numbers.
fn is_between(xs: &Vec<Single>, x: i32) -> (r: bool)
    ensures
        r == between(xs@, x as int),
{
    let mut i: usize = 0;
    while i < xs.len() && i + 1 < xs.len()
        invariant
            i <= xs.len(),
            i % 2 == 0,
            forall|j: int|
                0 <= j < i && j < xs@.len() - 1 && j % 2 == 0 ==> !(#[trigger] down(xs@[j]) <= x
                    <= up(xs@[j + 1])),
        decreases xs.len() - i,
    {
        if xs[i].floor_to_whole() <= x && x <= xs[i + 1].ceil_to_whole() {
            assert(down(xs@[i as int]) <= x <= up(xs@[i + 1]));
            return true;
        }
        i = i + 2;
    }
    false
}

impl Canvas {
    /// Puts a colour on a pixel, or blends it into it.
    fn touch(&mut self, x: u32, y: u32, color: Rgba, blend: bool)
        requires
            is_full(old(self)@),
            inside(old(self)@, (x as int, y as int)),
        ensures
            final(self)@ == (Raster {
                pixels: old(self)@.pixels.insert(
                    (x as int, y as int),
                    touched(old(self)@.pixels[(x as int, y as int)], color, blend),
                ),
                ..old(self)@
            }),
    {
        if blend {
            let p: Rgba = self.get_pixel(x, y);
            self.put_pixel(x, y, blend_pixel(p, color));
        } else {
            self.put_pixel(x, y, color);
        }
    }

    /// Puts a colour on a pixel, if it is within the picture.
    pub fn put(&mut self, x: i32, y: i32, color: Rgba)
        ensures
            final(self)@ == dotted(old(self)@, x as int, y as int, color),
    {
        let (w, h) = self.dimensions();
        if x >= 0 && y >= 0 && (x as u32) < w && (y as u32) < h {
            self.put_pixel(x as u32, y as u32, color);
        }
    }

    /// Paints a figure.
    pub fn fill(&mut self, f: &Region, color: Rgba, blend: bool)
        requires
            is_full(old(self)@),
            old(self)@.width <= i32::MAX,
            old(self)@.height <= i32::MAX,
        ensures
            final(self)@ == painted(old(self)@, *f, color, blend),
            is_full(final(self)@),
    {
        let (w, h) = self.dimensions();
        let ghost start = self@;
        let ghost goal = painted(start, *f, color, blend);
        let mut y: u32 = 0;
        while y < h
            invariant
                y <= h <= i32::MAX,
                w <= i32::MAX,
                start == old(self)@,
                w == start.width,
                h == start.height,
                is_full(start),
                goal == painted(start, *f, color, blend),
                self@.width == start.width,
                self@.height == start.height,
                self@.pixels.dom() == start.pixels.dom(),
                forall|k: (int, int)|
                    inside(start, k) ==> #[trigger] self@.pixels[k] == if k.1 < y {
                        goal.pixels[k]
                    } else {
                        start.pixels[k]
                    },
            decreases h - y,
        {
            let mut x: u32 = 0;
            while x < w
                invariant
                    x <= w <= i32::MAX,
                    y < h <= i32::MAX,
                    start == old(self)@,
                    w == start.width,
                    h == start.height,
                    is_full(start),
                    goal == painted(start, *f, color, blend),
                    self@.width == start.width,
                    self@.height == start.height,
                    self@.pixels.dom() == start.pixels.dom(),
                    forall|k: (int, int)|
                        inside(start, k) ==> #[trigger] self@.pixels[k] == if k.1 < y || k.1 == y
                            && k.0 < x {
                            goal.pixels[k]
                        } else {
                            start.pixels[k]
                        },
                decreases w - x,
            {
                let ghost before = self@;
                let ghost k0 = (x as int, y as int);
                proof {
                    assert(inside(start, k0));
                    assert(start.pixels.dom().contains(k0));
                }
                if f.contains(x as i32, y as i32) {
                    self.touch(x, y, color, blend);
                    assert(self@.pixels.dom() =~= start.pixels.dom());
                }
                x = x + 1;
                proof {
                    assert(before.pixels[k0] == start.pixels[k0]);
                    assert(goal.pixels[k0] == self@.pixels[k0]);
                    assert forall|k: (int, int)| inside(start, k) implies #[trigger] self@.pixels[k]
                        == if k.1 < y || k.1 == y && k.0 < x {
                        goal.pixels[k]
                    } else {
                        start.pixels[k]
                    } by {
                        if k != k0 {
                            assert(self@.pixels[k] == before.pixels[k]);
                        }
                    }
                }
            }
            y = y + 1;
        }
        proof {
            assert(goal.pixels.dom() =~= start.pixels.dom());
            assert forall|k: (int, int)|
                goal.pixels.dom().contains(k) implies #[trigger] self@.pixels[k]
                == goal.pixels[k] by {
                assert(start.pixels.dom().contains(k));
                assert(inside(start, k));
            }
            assert(self@.pixels =~= goal.pixels);
        }
    }

    /// Paints a disc.
    pub fn fill_circle(&mut self, cx: Single, cy: Single, r: Single, color: Rgba)
        requires
            is_full(old(self)@),
            old(self)@.width <= i32::MAX,
            old(self)@.height <= i32::MAX,
        ensures
            final(self)@ == painted(old(self)@, Region::Disc { cx, cy, r }, color, false),
            is_full(final(self)@),
    {
        self.fill(&Region::Disc { cx, cy, r }, color, false);
    }

    /// Blends a disc into the picture.
    pub fn fill_circle_alpha(&mut self, cx: Single, cy: Single, r: Single, color: Rgba)
        requires
            is_full(old(self)@),
            old(self)@.width <= i32::MAX,
            old(self)@.height <= i32::MAX,
        ensures
            final(self)@ == painted(old(self)@, Region::Disc { cx, cy, r }, color, true),
            is_full(final(self)@),
    {
        self.fill(&Region::Disc { cx, cy, r }, color, true);
    }

    /// Blends a ring into the picture.
    pub fn stroke_circle_alpha(
        &mut self,
        cx: Single,
        cy: Single,
        r: Single,
        width: Single,
        color: Rgba,
    )
        requires
            is_full(old(self)@),
            old(self)@.width <= i32::MAX,
            old(self)@.height <= i32::MAX,
        ensures
            final(self)@ == painted(old(self)@, Region::Ring { cx, cy, r, width }, color, true),
            is_full(final(self)@),
    {
        self.fill(&Region::Ring { cx, cy, r, width }, color, true);
    }

    /// Paints a rectangle.
    pub fn fill_rect(&mut self, x: Single, y: Single, w: Single, h: Single, color: Rgba)
        requires
            is_full(old(self)@),
            old(self)@.width <= i32::MAX,
            old(self)@.height <= i32::MAX,
        ensures
            final(self)@ == painted(old(self)@, Region::Rect { x, y, w, h }, color, false),
            is_full(final(self)@),
    {
        self.fill(&Region::Rect { x, y, w, h }, color, false);
    }

    /// Paints a polygon.
    pub fn fill_poly(&mut self, vs: &Vec<Corner>, color: Rgba)
        requires
            is_full(old(self)@),
            old(self)@.width <= i32::MAX,
            old(self)@.height <= i32::MAX,
        ensures
            final(self)@ == poly_painted(old(self)@, vs@, color),
            is_full(final(self)@),
    {
        let (w, h) = self.dimensions();
        let ghost start = self@;
        let ghost goal = poly_painted(start, vs@, color);
        let (low, high) = bounds(vs);
        let mut y: u32 = 0;
        while y < h
            invariant
                y <= h <= i32::MAX,
                w <= i32::MAX,
                low == down(lowest(vs@)),
                high == up(highest(vs@)),
                start == old(self)@,
                w == start.width,
                h == start.height,
                is_full(start),
                goal == poly_painted(start, vs@, color),
                self@.width == start.width,
                self@.height == start.height,
                self@.pixels.dom() == start.pixels.dom(),
                forall|k: (int, int)|
                    inside(start, k) ==> #[trigger] self@.pixels[k] == if k.1 < y {
                        goal.pixels[k]
                    } else {
                        start.pixels[k]
                    },
            decreases h - y,
        {
            let line: Single = Single::whole(y as i32).plus(Single::fraction(1, 2));
            let xs: Vec<Single> = find_crossings(vs, line);
            let on: bool = vs.len() > 0 && low <= y as i32 && y as i32 <= high;
            let mut x: u32 = 0;
            while x < w
                invariant
                    x <= w <= i32::MAX,
                    y < h <= i32::MAX,
                    line == sum(from_whole(y as int), from_fraction(1, 2)),
                    xs@ == crossings(vs@, line, vs@.len()),
                    on == (vs@.len() > 0 && down(lowest(vs@)) <= y <= up(highest(vs@))),
                    start == old(self)@,
                    w == start.width,
                    h == start.height,
                    is_full(start),
                    goal == poly_painted(start, vs@, color),
                    self@.width == start.width,
                    self@.height == start.height,
                    self@.pixels.dom() == start.pixels.dom(),
                    forall|k: (int, int)|
                        inside(start, k) ==> #[trigger] self@.pixels[k] == if k.1 < y || k.1 == y
                            && k.0 < x {
                            goal.pixels[k]
                        } else {
                            start.pixels[k]
                        },
                decreases w - x,
            {
                let ghost before = self@;
                let ghost k0 = (x as int, y as int);
                proof {
                    assert(inside(start, k0));
                    assert(start.pixels.dom().contains(k0));
                }
                let covered: bool = on && is_between(&xs, x as i32);
                assert(covered == poly_covers(vs@, x as int, y as int));
                if covered {
                    self.touch(x, y, color, false);
                    assert(self@.pixels.dom() =~= start.pixels.dom());
                }
                x = x + 1;
                proof {
                    assert(before.pixels[k0] == start.pixels[k0]);
                    assert(goal.pixels[k0] == self@.pixels[k0]);
                    assert forall|k: (int, int)| inside(start, k) implies #[trigger] self@.pixels[k]
                        == if k.1 < y || k.1 == y && k.0 < x {
                        goal.pixels[k]
                    } else {
                        start.pixels[k]
                    } by {
                        if k != k0 {
                            assert(self@.pixels[k] == before.pixels[k]);
                        }
                    }
                }
            }
            y = y + 1;
        }
        proof {
            assert(goal.pixels.dom() =~= start.pixels.dom());
            assert forall|k: (int, int)|
                goal.pixels.dom().contains(k) implies #[trigger] self@.pixels[k]
                == goal.pixels[k] by {
                assert(start.pixels.dom().contains(k));
                assert(inside(start, k));
            }
            assert(self@.pixels =~= goal.pixels);
        }
    }

    /// Paints the outline of a circle.
    pub fn stroke_circle<F: Fn(Ask) -> Single>(
        &mut self,
        cx: Single,
        cy: Single,
        r: Single,
        color: Rgba,
        oracle: &mut Oracle<F>,
    )
        requires
            dots_of(r) <= u64::MAX,
        ensures
            final(oracle).follows(*old(oracle)),
            forall|rest: Trace| #[trigger]
                circle_dotted(
                    old(self)@,
                    cx,
                    cy,
                    r,
                    color,
                    dots_of(r) as nat,
                    final(oracle).since(*old(oracle)) + rest,
                ) == (final(self)@, rest),
    {
        proof {
            lemma_since_now(*oracle);
        }
        let steps: u64 = r.times(tau()).ceil_to_size() * 2;
        let mut i: u64 = 0;
        while i < steps
            invariant
                0 <= i <= steps,
                steps == dots_of(r),
                oracle.follows(*old(oracle)),
                forall|rest: Trace| #[trigger]
                    circle_dotted(
                        old(self)@,
                        cx,
                        cy,
                        r,
                        color,
                        i as nat,
                        oracle.since(*old(oracle)) + rest,
                    ) == (self@, rest),
            decreases steps - i,
        {
            let ghost before = *oracle;
            let ghost so_far = self@;
            let angle: Single = Single::count(i).over(Single::count(steps)).times(tau());
            let c: Single = oracle.ask(Ask::Cos(angle));
            let s: Single = oracle.ask(Ask::Sin(angle));
            let x: i32 = cx.plus(c.times(r)).to_whole();
            let y: i32 = cy.plus(s.times(r)).to_whole();
            self.put(x, y, color);
            i = i + 1;
            proof {
                let tr = oracle.since(before);
                lemma_past(tr);
                lemma_since_chain(*old(oracle), before, *oracle);
                assert forall|rest: Trace| #[trigger]
                    circle_dotted(
                        old(self)@,
                        cx,
                        cy,
                        r,
                        color,
                        i as nat,
                        oracle.since(*old(oracle)) + rest,
                    ) == (self@, rest) by {
                    let next = oracle.since(before) + rest;
                    assert(circle_dotted(
                        old(self)@,
                        cx,
                        cy,
                        r,
                        color,
                        (i - 1) as nat,
                        before.since(*old(oracle)) + next,
                    ) == (so_far, next));
                }
            }
        }
    }

    /// The bytes of the picture with its width and its height: the pixels row by row from the top,
    /// each as red, green, blue and opacity.
    pub fn export(self) -> (r: (u32, u32, Vec<u8>))
        ensures
            r.0 == self@.width,
            r.1 == self@.height,
            r.2@.len() == 4 * self@.width * self@.height,
            forall|x: int, y: int|
                inside(self@, (x, y)) ==> #[trigger] self@.pixels[(x, y)] == (
                    r.2@[4 * (y * self@.width + x)],
                    r.2@[4 * (y * self@.width + x) + 1],
                    r.2@[4 * (y * self@.width + x) + 2],
                    r.2@[4 * (y * self@.width + x) + 3],
                ),
    {
        let (w, h) = self.dimensions();
        (w, h, self.into_raw())
    }
}

/// The lines between which the corners of a polygon lie.
fn bounds(vs: &Vec<Corner>) -> (r: (i32, i32))
    ensures
        r.0 == down(lowest(vs@)),
        r.1 == up(highest(vs@)),
{
    let mut low: Single = Single { bits: 0x7f80_0000 };
    let mut high: Single = Single { bits: 0xff80_0000 };
    let mut i: usize = 0;
    while i < vs.len()
        invariant
            i <= vs.len(),
            low == lowest(vs@.take(i as int)),
            high == highest(vs@.take(i as int)),
        decreases vs.len() - i,
    {
        proof {
            assert(vs@.take(i + 1).drop_last() =~= vs@.take(i as int));
        }
        low = low.min(vs[i].1);
        high = high.max(vs[i].1);
        i = i + 1;
    }
    proof {
        assert(vs@.take(i as int) =~= vs@);
    }
    (low.floor_to_whole(), high.ceil_to_whole())
}

} // verus!
