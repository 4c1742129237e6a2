//! The stars behind the world: the same at every visit to a place.
use vstd::arithmetic::div_mod::*;
use vstd::prelude::*;

use crate::paint::{drawn, figure, Color, Drawn, Figure, Ink, Shape};
use crate::single::{from_fraction, from_whole, product, quotient, sum, Single};
use crate::whole::{converted, floor_of};

verus! {

/// The tile of the sky that a coordinate is in.
pub open spec fn tile_of(cam: Single) -> i32 {
    let q = quotient(cam, from_whole(400));
    converted(q, floor_of(q), i32::MIN as int, i32::MAX as int) as i32
}

/// A tile further on; the numbers of the tiles start again at the other end.
pub open spec fn tile_beside(t: i32, d: int) -> i32 {
    if t + d > i32::MAX {
        (t + d - 0x1_0000_0000) as i32
    } else if t + d < i32::MIN {
        (t + d + 0x1_0000_0000) as i32
    } else {
        (t + d) as i32
    }
}

/// The low thirty-two bits of a product.
pub open spec fn low_bits(n: int, k: int) -> u32 {
    ((n * k) % 0x1_0000_0000) as u32
}

/// The seed of the stars of a tile.
pub open spec fn tile_seed(x: i32, y: i32) -> u32 {
    low_bits(x as int, 73856093) ^ low_bits(y as int, 19349663)
}

/// The next number of the sequence that places the stars.
pub open spec fn next_seed(s: u32) -> u32 {
    ((s * 1664525 + 1013904223) % 0x1_0000_0000) as u32
}

/// The seed after `n` stars.
pub open spec fn seed_after(seed: u32, n: nat) -> u32
    decreases n,
{
    if n == 0 {
        seed
    } else {
        next_seed(next_seed(seed_after(seed, (n - 1) as nat)))
    }
}

/// A place within a tile.
pub open spec fn star_place(origin: Single, seed: u32) -> Single {
    sum(origin, product(from_whole((seed % 512) as int), from_fraction(400, 512)))
}

/// A star of the tile with the given corner, from the seed before it.
pub open spec fn star(ox: Single, oy: Single, seed: u32) -> Drawn {
    let first = next_seed(seed);
    let second = next_seed(first);
    let light = sum(
        from_fraction(2, 5),
        quotient(from_whole((second % 64) as int), from_whole(200)),
    );
    Drawn::Figure(
        Figure::Disc {
            x: star_place(ox, first),
            y: star_place(oy, second),
            r: from_whole(1),
            ink: Ink::Mixed(Color { r: light, g: light, b: light, a: from_whole(1) }),
        },
    )
}

/// The first `n` stars of a tile.
pub open spec fn tile_stars(x: i32, y: i32, n: nat) -> Seq<Drawn>
    decreases n,
{
    if n == 0 {
        Seq::empty()
    } else {
        let ox = product(from_whole(x as int), from_whole(400));
        let oy = product(from_whole(y as int), from_whole(400));
        tile_stars(x, y, (n - 1) as nat).push(
            star(ox, oy, seed_after(tile_seed(x, y), (n - 1) as nat)),
        )
    }
}

/// The stars of the first `n` of the twenty-five tiles around a tile, row by row.
pub open spec fn sky(tx: i32, ty: i32, n: nat) -> Seq<Drawn>
    decreases n,
{
    if n == 0 {
        Seq::empty()
    } else {
        let k = (n - 1) as nat;
        sky(tx, ty, k) + tile_stars(
            tile_beside(tx, k % 5 - 2),
            tile_beside(ty, k / 5 - 2),
            8,
        )
    }
}

fn beside(t: i32, d: i32) -> (r: i32)
    requires
        -2 <= d <= 2,
    ensures
        r == tile_beside(t, d as int),
{
    let n: i64 = t as i64 + d as i64;
    if n > i32::MAX as i64 {
        (n - 0x1_0000_0000) as i32
    } else if n < i32::MIN as i64 {
        (n + 0x1_0000_0000) as i32
    } else {
        n as i32
    }
}

fn low(n: i32, k: u32) -> (r: u32)
    requires
        k < 0x1000_0000,
    ensures
        r == low_bits(n as int, k as int),
{
    let m: u64 = if n >= 0 {
        n as u64
    } else {
        (n as i64 + 0x1_0000_0000) as u64
    };
    assert(m < 0x1_0000_0000);
    assert(m * k < 0x1_0000_0000 * 0x1000_0000) by (nonlinear_arith)
        requires
            m < 0x1_0000_0000,
            k < 0x1000_0000,
    ;
    proof {
        let modulus: int = 0x1_0000_0000;
        if n < 0 {
            assert((n + modulus) * k == n * k + k * modulus) by (nonlinear_arith);
            lemma_mod_multiples_vanish(k as int, n * k, modulus);
            assert(k * modulus == modulus * k) by (nonlinear_arith);
        }
    }
    ((m * k as u64) % 0x1_0000_0000) as u32
}

fn step_seed(s: u32) -> (r: u32)
    ensures
        r == next_seed(s),
{
    ((s as u64 * 1664525 + 1013904223) % 0x1_0000_0000) as u32
}

fn place_star(origin: Single, seed: u32) -> (r: Single)
    ensures
        r == star_place(origin, seed),
{
    origin.plus(Single::whole((seed % 512) as i32).times(Single::fraction(400, 512)))
}

fn draw_tile(list: &mut Vec<Shape>, x: i32, y: i32)
    ensures
        drawn(*final(list)) == drawn(*old(list)) + tile_stars(x, y, 8),
{
    let ox: Single = Single::whole(x).times(Single::whole(400));
    let oy: Single = Single::whole(y).times(Single::whole(400));
    let mut seed: u32 = low(x, 73856093) ^ low(y, 19349663);
    let mut i: u32 = 0;
    proof {
        assert(drawn(*list) =~= drawn(*old(list)) + tile_stars(x, y, 0));
    }
    while i < 8
        invariant
            i <= 8,
            ox == product(from_whole(x as int), from_whole(400)),
            oy == product(from_whole(y as int), from_whole(400)),
            seed == seed_after(tile_seed(x, y), i as nat),
            drawn(*list) == drawn(*old(list)) + tile_stars(x, y, i as nat),
        decreases 8 - i,
    {
        let ghost before = drawn(*list);
        let first: u32 = step_seed(seed);
        let second: u32 = step_seed(first);
        let light: Single = Single::fraction(2, 5).plus(
            Single::whole((second % 64) as i32).over(Single::whole(200)),
        );
        figure(
            list,
            Figure::Disc {
                x: place_star(ox, first),
                y: place_star(oy, second),
                r: Single::whole(1),
                ink: Ink::Mixed(Color { r: light, g: light, b: light, a: Single::whole(1) }),
            },
        );
        i = i + 1;
        proof {
            assert(drawn(*list) =~= drawn(*old(list)) + tile_stars(x, y, i as nat));
        }
        seed = second;
    }
}

/// Draws the stars around the place that the camera looks at.
pub fn draw_starfield(list: &mut Vec<Shape>, cam_x: Single, cam_y: Single)
    ensures
        drawn(*final(list)) == drawn(*old(list)) + sky(tile_of(cam_x), tile_of(cam_y), 25),
{
    let tx: i32 = cam_x.over(Single::whole(400)).floor_to_whole();
    let ty: i32 = cam_y.over(Single::whole(400)).floor_to_whole();
    let mut k: i32 = 0;
    proof {
        assert(drawn(*list) =~= drawn(*old(list)) + sky(tx, ty, 0));
    }
    while k < 25
        invariant
            0 <= k <= 25,
            drawn(*list) == drawn(*old(list)) + sky(tx, ty, k as nat),
        decreases 25 - k,
    {
        let x: i32 = beside(tx, k % 5 - 2);
        let y: i32 = beside(ty, k / 5 - 2);
        draw_tile(list, x, y);
        k = k + 1;
        proof {
            assert(drawn(*list) =~= drawn(*old(list)) + sky(tx, ty, k as nat));
        }
    }
}

} // verus!
