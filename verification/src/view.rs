//! What players see and hear of places, in real numbers, up to rounding, and what their keys do.
use vstd::prelude::*;

use crate::client::camera_target;
use crate::collisions::gap_squared;
use crate::contact::{are_around, distance_squared, lemma_gap, lemma_within_reach};
use crate::controls::{halved, input_of, switched, Controls, Keys, Pointer};
use crate::exact::{
    dust, law_absolute_values_are_sizes, law_differences_are_differences,
    law_fractions_are_fractions, law_order_is_order_of_reals, law_products_are_products,
    law_quotients_are_quotients, law_sums_are_sums, law_wholes_are_wholes, lemma_bound_product,
    lemma_finite_difference, lemma_finite_product, lemma_finite_quotient, lemma_finite_sum,
    lemma_size_product, lemma_sum_parts, lemma_times_one, lemma_times_order, lemma_times_sum,
    lemma_times_swap, lemma_unit, real_of, size,
};
use crate::frame::cursor_place;
use crate::game::{class_stats, world_side, EntityKind, EntityState, PlayerId, ShipClass, ShipInfo};
use crate::gauges::{least, most};
use crate::hud::{chart_of, charted, on_chart, pips, row_text, ship_panel, short_way, Chart};
use crate::oracle::{answers, past, Ask, Event, Trace};
use crate::order::lemma_zero;
use crate::paint::{Drawn, Figure, Ink, Named};
use crate::phase::{counted_down, play_frame, reselected};
use crate::physics::{asks_direction, is_in_the_world, lemma_direction, lemma_real_zero, reply};
use crate::protocol::{ClientMessage, PlayerScore};
use crate::scene::{
    class_size, explosion_age, hull_triangle, offset_squared, on_target, phaser_shapes, shaken,
    share, ship_bars,
};
use crate::single::{
    absolute, difference, from_fraction, from_whole, lesser, lt, product, quotient, sum, zero,
    Single,
};
use crate::sounds::{around, attenuated, own_ship, volume_at};
use crate::text::digits;
use crate::world::ServerEntity;

verus! {

/// Whether a number is a length on a screen: from zero to ten thousand.
pub open spec fn is_length(a: Single) -> bool {
    a.is_finite() && 0 as real <= real_of(a) <= 10_000 as real
}

/// The way from one coordinate to another, the short way round the world.
pub open spec fn way(from: real, to: real) -> real {
    let d = to - from;
    if d > 5000 as real {
        d - 10_000 as real
    } else if d < -5000 as real {
        d + 10_000 as real
    } else {
        d
    }
}

/// The short way, rounded, where it is not half round the world.
proof fn lemma_short_way(from: Single, to: Single)
    requires
        is_in_the_world(from),
        is_in_the_world(to),
    ensures
        short_way(from, to).is_finite(),
        size(real_of(short_way(from, to))) <= 5001 as real,
        size(way(real_of(from), real_of(to))) <= 4999 as real ==> size(
            real_of(short_way(from, to)) - way(real_of(from), real_of(to)),
        ) * (500 as real) <= 1 as real,
        size(way(real_of(from), real_of(to))) > 4999 as real ==> size(
            real_of(short_way(from, to)),
        ) > 4998 as real,
{
    lemma_unit();
    law_wholes_are_wholes(5000);
    law_wholes_are_wholes(-5000);
    law_wholes_are_wholes(10_000);
    lemma_finite_difference(to, from, 10_000);
    law_differences_are_differences(to, from);
    let d = difference(to, from);
    law_order_is_order_of_reals(from_whole(5000), d);
    lemma_finite_difference(d, world_side(), 20_001);
    law_differences_are_differences(d, world_side());
    let e = if lt(from_whole(5000), d) {
        difference(d, world_side())
    } else {
        d
    };
    law_order_is_order_of_reals(e, from_whole(-5000));
    lemma_finite_sum(e, world_side(), 20_001);
    law_sums_are_sums(e, world_side());
}

/// A way on one side of the map: times the width of the map, the place is as far along the side as
/// the way is along it.
proof fn lemma_charted(start: Single, side: Single, d: Single)
    requires
        is_length(start),
        is_length(side),
        d.is_finite(),
        size(real_of(d)) <= 2501 as real,
    ensures
        charted(start, side, d).is_finite(),
        size(
            (real_of(charted(start, side, d)) - real_of(start)) * (5000 as real) - (real_of(d)
                + 2500 as real) * real_of(side),
        ) <= 100 as real,
{
    lemma_unit();
    let k = 0x100_0000 as real;
    law_wholes_are_wholes(5000);
    law_fractions_are_fractions(1, 2);
    let half = from_fraction(1, 2);
    let hf = real_of(half);
    assert(size(hf * (2 as real) - 1 as real) * k <= (1 as real) + dust() * (2 as real));
    lemma_finite_quotient(d, from_whole(5000), 1);
    law_quotients_are_quotients(d, from_whole(5000));
    let q = quotient(d, from_whole(5000));
    let x = real_of(q);
    assert(size(x * (5000 as real) - real_of(d)) * k <= size(real_of(d)) + dust() * (5000 as real));
    lemma_finite_sum(q, half, 3);
    law_sums_are_sums(q, half);
    let h = sum(q, half);
    let y = real_of(h);
    let z = (real_of(d) + 2500 as real);
    let off = y * (5000 as real) - z;
    assert(size(off) * k <= 30_000 as real);
    let s = real_of(side);
    lemma_size_product(y, s);
    lemma_bound_product(size(y), 2 as real, s, 10_000 as real);
    lemma_finite_product(h, side, 20_000);
    law_products_are_products(h, side);
    let p = product(h, side);
    lemma_finite_sum(start, p, 40_000);
    law_sums_are_sums(start, p);
    // How far that is off.
    lemma_size_product(off, s);
    lemma_bound_product(size(off) * k, 30_000 as real, s, 10_000 as real);
    lemma_times_swap(size(off), k, s);
    lemma_times_sum(y * (5000 as real), z, s);
    lemma_times_swap(y, 5000 as real, s);
    assert(size(off * s) * k <= 300_000_000 as real);
    let ys = y * s;
    assert((y * (5000 as real)) * s == ys * (5000 as real));
    assert(off * s == ys * (5000 as real) - z * s);
    let r = real_of(charted(start, side, d)) - real_of(start);
    let g = r - ys;
    assert(size(g) * k <= 100_000 as real);
    assert(r * (5000 as real) - z * s == g * (5000 as real) + off * s);
}

/// The map shows what is within a quarter of the world, the short way round, to the side on which
/// it is, and in proportion: what is at the middle of the map is shown there, and 2500 units make
/// half of its side.  It shows nothing that is farther.
pub proof fn law_the_map_is_to_scale(c: Chart, x: Single, y: Single)
    requires
        is_length(c.x),
        is_length(c.y),
        is_length(c.side),
        is_in_the_world(c.cx),
        is_in_the_world(c.cy),
        is_in_the_world(x),
        is_in_the_world(y),
    ensures
        ({
            let (wx, wy) = (way(real_of(c.cx), real_of(x)), way(real_of(c.cy), real_of(y)));
            let side = real_of(c.side);
            &&& size(wx) <= 2499 as real && size(wy) <= 2499 as real ==> (on_chart(
                c,
                x,
                y,
            ) matches Some((px, py)) && {
                &&& px.is_finite() && py.is_finite()
                &&& size(
                    (real_of(px) - real_of(c.x)) * (5000 as real) - (wx + 2500 as real) * side,
                ) <= 200 as real
                &&& size(
                    (real_of(py) - real_of(c.y)) * (5000 as real) - (wy + 2500 as real) * side,
                ) <= 200 as real
            })
            &&& size(wx) > 2501 as real || size(wy) > 2501 as real ==> on_chart(c, x, y) is None
        }),
{
    lemma_short_way(c.cx, x);
    lemma_short_way(c.cy, y);
    let (wx, wy) = (way(real_of(c.cx), real_of(x)), way(real_of(c.cy), real_of(y)));
    let (dx, dy) = (short_way(c.cx, x), short_way(c.cy, y));
    law_absolute_values_are_sizes(dx);
    law_absolute_values_are_sizes(dy);
    law_wholes_are_wholes(2500);
    law_order_is_order_of_reals(from_whole(2500), absolute(dx));
    law_order_is_order_of_reals(from_whole(2500), absolute(dy));
    if size(wx) <= 2499 as real && size(wy) <= 2499 as real {
        lemma_charted(c.x, c.side, dx);
        lemma_charted(c.y, c.side, dy);
        lemma_scaled(real_of(dx), wx, real_of(c.side));
        lemma_scaled(real_of(dy), wy, real_of(c.side));
    }
}

/// Two ways that are near make nearly the same place.
proof fn lemma_scaled(d: real, w: real, s: real)
    requires
        size(d - w) * (500 as real) <= 1 as real,
        0 as real <= s <= 10_000 as real,
    ensures
        size((d + 2500 as real) * s - (w + 2500 as real) * s) <= 20 as real,
{
    lemma_times_sum(d + 2500 as real, w + 2500 as real, s);
    let e = d - w;
    lemma_size_product(e, s);
    lemma_bound_product(size(e) * (500 as real), 1 as real, s, 10_000 as real);
    lemma_times_swap(size(e), 500 as real, s);
    lemma_times_one(10_000 as real, 1 as real);
}

/// The cursor points at the place of the world that is drawn under it: the middle of the window is
/// where the camera looks, and a pixel is a unit.
pub proof fn law_the_cursor_points_at_what_is_under_it(at: Single, extent: Single, cam: Single)
    requires
        is_length(at),
        is_length(extent),
        cam.is_finite(),
        size(real_of(cam)) <= 20_000 as real,
    ensures
        cursor_place(at, extent, cam).is_finite(),
        size(
            (real_of(cursor_place(at, extent, cam)) - real_of(cam)) * (2 as real) - (real_of(at) * (
            2 as real) - real_of(extent)),
        ) * (50 as real) <= 1 as real,
{
    lemma_halved(extent);
    let half = quotient(extent, from_whole(2));
    lemma_finite_difference(at, half, 20_000);
    law_differences_are_differences(at, half);
    let d = difference(at, half);
    lemma_finite_sum(d, cam, 60_000);
    law_sums_are_sums(d, cam);
}

/// Half of a length.
proof fn lemma_halved(a: Single)
    requires
        is_length(a),
    ensures
        quotient(a, from_whole(2)).is_finite(),
        size(real_of(quotient(a, from_whole(2))) * (2 as real) - real_of(a)) * (1000 as real)
            <= 1 as real,
{
    lemma_unit();
    law_wholes_are_wholes(2);
    lemma_finite_quotient(a, from_whole(2), 10_000);
    law_quotients_are_quotients(a, from_whole(2));
    let h = real_of(quotient(a, from_whole(2)));
    assert(size(h * (2 as real) - real_of(a)) * (0x100_0000 as real) <= size(real_of(a)) + dust()
        * (2 as real));
}

/// Sounds are at full volume within 200 units, silent from 3000 units on, and in between lose
/// volume evenly with the distance.
pub proof fn law_sounds_fade_with_distance(dist: Single)
    requires
        dist.is_finite(),
        0 as real <= real_of(dist) <= 20_000 as real,
    ensures
        attenuated(dist).is_finite(),
        real_of(dist) <= 200 as real ==> real_of(attenuated(dist)) == 1 as real,
        real_of(dist) > 200 as real ==> size(
            real_of(attenuated(dist)) * (2800 as real) - most(
                3000 as real - real_of(dist),
                0 as real,
            ),
        ) * (50 as real) <= 1 as real,
{
    lemma_unit();
    lemma_zero();
    lemma_real_zero();
    law_wholes_are_wholes(200);
    law_wholes_are_wholes(1);
    law_wholes_are_wholes(2800);
    law_order_is_order_of_reals(dist, from_whole(200));
    lemma_finite_difference(dist, from_whole(200), 20_000);
    law_differences_are_differences(dist, from_whole(200));
    let d = difference(dist, from_whole(200));
    lemma_finite_quotient(d, from_whole(2800), 10);
    law_quotients_are_quotients(d, from_whole(2800));
    let q = quotient(d, from_whole(2800));
    let x = real_of(q);
    assert(size(x * (2800 as real) - real_of(d)) * (0x100_0000 as real) <= size(real_of(d))
        + dust() * (2800 as real));
    lemma_finite_difference(from_whole(1), q, 20);
    law_differences_are_differences(from_whole(1), q);
    law_order_is_order_of_reals(difference(from_whole(1), q), zero());
}

/// The distance that a sound fades with is that from the camera to the place of the sound.
pub proof fn law_sounds_are_heard_from_the_camera(
    cam_x: Single,
    cam_y: Single,
    x: Single,
    y: Single,
    t: Trace,
)
    requires
        is_in_the_world(cam_x),
        is_in_the_world(cam_y),
        is_in_the_world(x),
        is_in_the_world(y),
        volume_at(cam_x, cam_y, x, y, t).1.len() > 0,
    ensures
        t[0] matches Event::Number(Ask::Hypot(dx, dy), dist) && {
            &&& volume_at(cam_x, cam_y, x, y, t).0 == attenuated(dist)
            &&& size(size(real_of(dx)) - size(real_of(x) - real_of(cam_x))) * (100 as real) <= (
            1 as real)
            &&& size(size(real_of(dy)) - size(real_of(y) - real_of(cam_y))) * (100 as real) <= (
            1 as real)
        },
{
    lemma_finite_difference(x, cam_x, 10_000);
    law_differences_are_differences(x, cam_x);
    lemma_finite_difference(y, cam_y, 10_000);
    law_differences_are_differences(y, cam_y);
    let qs = seq![Ask::Hypot(difference(x, cam_x), difference(y, cam_y))];
    assert(past(t, qs).len() > 0);
    assert(answers(t, qs));
    assert(t[0] == Event::Number(qs[0], reply(t, 0)));
}

/// A gauge shows the share that is left of the maximum, from nothing to all of it.
pub proof fn law_gauges_show_what_is_left(value: Single, max: Single)
    requires
        value.is_finite(),
        max.is_finite(),
        size(real_of(value)) <= 10_000 as real,
        1 as real <= real_of(max) <= 10_000 as real,
    ensures
        share(value, max).is_finite(),
        0 as real <= real_of(share(value, max)) <= 1 as real,
        size(
            real_of(share(value, max)) * real_of(max) - least(
                most(real_of(value), 0 as real),
                real_of(max),
            ),
        ) * (50 as real) <= 1 as real,
{
    lemma_unit();
    lemma_zero();
    lemma_real_zero();
    law_wholes_are_wholes(1);
    let (v, m) = (real_of(value), real_of(max));
    lemma_times_order(1 as real, m, 10_000 as real);
    lemma_finite_quotient(value, max, 10_000);
    law_quotients_are_quotients(value, max);
    let q = quotient(value, max);
    let x = real_of(q);
    law_order_is_order_of_reals(q, zero());
    law_order_is_order_of_reals(from_whole(1), q);
    lemma_times_order(m, 10_000 as real, dust());
    lemma_times_one(m, 1 as real);
    lemma_times_sum(0 as real, 0 as real, m);
    if x < 0 as real {
        lemma_times_order(x, 0 as real, m);
    } else if x > 1 as real {
        lemma_times_order(1 as real, x, m);
    } else {
        lemma_times_order(0 as real, x, m);
        lemma_times_order(x, 1 as real, m);
    }
}

/// The keys steer: ahead by the arrow up or W, astern by the arrow down or S, to the left by the
/// left arrow or A, to the right by the right arrow or D.  A torpedo leaves on a click, on the
/// space bar or on T.  The pointer aims, from the middle of the window, where the ship is, once it
/// has moved; the beam is held with shift or the right button, within its range.
pub proof fn law_keys_and_pointer_steer(c: Controls, k: Keys, p: Pointer, t: Trace)
    requires
        is_length(p.x),
        is_length(p.y),
        is_length(p.screen_width),
        is_length(p.screen_height),
        input_of(c, k, p, t).1.len() > 0,
    ensures
        ({
            let i = input_of(c, k, p, t).0;
            &&& i.thrust <==> k.up_down || k.w_down
            &&& i.reverse_thrust <==> k.down_down || k.s_down
            &&& i.turn_left <==> k.left_down || k.a_down
            &&& i.turn_right <==> k.right_down || k.d_down
            &&& i.fire_primary <==> k.left_button || k.space || k.t
            &&& i.fire_phaser ==> k.left_shift_down || k.right_button_down
            &&& i.aim_angle == if p.moved {
                Some(i.mouse_angle)
            } else {
                None
            }
            &&& i.shields_active == c.shields_on && i.cloak_active == c.cloak_on
            &&& t[0] matches Event::Number(Ask::Atan2(dy, dx), a) && {
                &&& a == i.mouse_angle
                &&& t[1] == Event::Number(Ask::Hypot(dx, dy), i.mouse_distance)
                &&& size(
                    real_of(dx) * (2 as real) - (real_of(p.x) * (2 as real) - real_of(
                        p.screen_width,
                    )),
                ) * (100 as real) <= 1 as real
                &&& size(
                    real_of(dy) * (2 as real) - (real_of(p.y) * (2 as real) - real_of(
                        p.screen_height,
                    )),
                ) * (100 as real) <= 1 as real
            }
        }),
{
    lemma_halved(p.screen_width);
    lemma_halved(p.screen_height);
    let (hx, hy) = (halved(p.screen_width), halved(p.screen_height));
    lemma_finite_difference(p.x, hx, 20_000);
    law_differences_are_differences(p.x, hx);
    lemma_finite_difference(p.y, hy, 20_000);
    law_differences_are_differences(p.y, hy);
    let (dx, dy) = (difference(p.x, hx), difference(p.y, hy));
    let qs = seq![Ask::Atan2(dy, dx), Ask::Hypot(dx, dy)];
    assert(past(t, qs).len() > 0);
    assert(answers(t, qs));
    assert(t[0] == Event::Number(qs[0], reply(t, 0)));
    assert(t[1] == Event::Number(qs[1], reply(t, 1)));
}

/// The keys for the shields, the help and the map each turn their own thing round, twice in a row
/// back to where it was, and leave the others alone.
pub proof fn law_keys_switch_their_own_thing(c: Controls, k: Keys)
    ensures
        switched(c, k).shields_on == (c.shields_on != k.f),
        switched(c, k).show_help == (c.show_help != k.h),
        switched(c, k).show_minimap == (c.show_minimap != k.m),
        switched(switched(c, k), k).shields_on == c.shields_on,
        switched(switched(c, k), k).show_help == c.show_help,
        switched(switched(c, k), k).show_minimap == c.show_minimap,
        switched(c, k).current_class == c.current_class,
{
}

/// A sum with a product on top, up to rounding.
pub open spec fn is_off_by(a: Single, from: real, x: real, y: real) -> bool {
    size(real_of(a) - (from + x * y)) * (100 as real) <= size(x * y) + 1 as real
}

/// A coordinate with a product on top.
proof fn lemma_off_by(u: Single, c: Single, v: Single)
    requires
        sum(u, product(c, v)).is_finite(),
        size(real_of(u)) <= 20_000 as real,
    ensures
        is_off_by(sum(u, product(c, v)), real_of(u), real_of(c), real_of(v)),
{
    lemma_unit();
    lemma_sum_parts(u, product(c, v));
    law_sums_are_sums(u, product(c, v));
    law_products_are_products(c, v);
}

/// A beam is drawn from where it starts along its angle, as far as it is long.
pub proof fn law_beams_are_drawn_along_their_angle(e: EntityState, t: Trace)
    requires
        is_in_the_world(e.x),
        is_in_the_world(e.y),
        phaser_shapes(e, t).1.len() > 0,
    ensures
        asks_direction(t, 0, e.angle),
        phaser_shapes(e, t).0.len() == 2,
        forall|i: int|
            0 <= i < 2 ==> (#[trigger] phaser_shapes(e, t).0[i] matches Drawn::Figure(
                Figure::Line { x1, y1, x2, y2, .. },
            ) && {
                &&& x1 == e.x && y1 == e.y
                &&& x2.is_finite() ==> is_off_by(
                    x2,
                    real_of(e.x),
                    real_of(reply(t, 0)),
                    real_of(e.vx),
                )
                &&& y2.is_finite() ==> is_off_by(
                    y2,
                    real_of(e.y),
                    real_of(reply(t, 1)),
                    real_of(e.vx),
                )
            }),
{
    lemma_direction(t, e.angle);
    let (c, s) = (reply(t, 0), reply(t, 1));
    if sum(e.x, product(c, e.vx)).is_finite() {
        lemma_off_by(e.x, c, e.vx);
    }
    if sum(e.y, product(s, e.vx)).is_finite() {
        lemma_off_by(e.y, s, e.vx);
    }
}

/// The selection moves up by the keys for up, down by those for down, by one place, and stops at
/// the ends; both together leave it, but at the top.
pub proof fn law_selections_follow_the_keys(i: int, k: Keys)
    requires
        0 <= i < 5,
    ensures
        ({
            let (up, down) = (k.up || k.w, k.down || k.s);
            let r = reselected(i, k);
            &&& 0 <= r < 5
            &&& up && !down ==> r == i - 1 || i == 0 && r == 0
            &&& down && !up ==> r == i + 1 || i == 4 && r == 4
            &&& up == down && i > 0 ==> r == i
            &&& !up && !down ==> r == i
        }),
{
}

/// The countdown to self-destruction loses the time of the frame, and has run out when nothing of
/// it is left.
pub proof fn law_the_countdown_runs(left: Single, dt: Single)
    requires
        left.is_finite(),
        dt.is_finite(),
        0 as real <= real_of(left) <= 1000 as real,
        0 as real <= real_of(dt) <= 1000 as real,
    ensures
        ({
            let (r, over) = counted_down(Some(left), dt);
            let rest = real_of(left) - real_of(dt);
            &&& over == (r is None)
            &&& rest * (1000 as real) > 1 as real ==> (r matches Some(a) && size(real_of(a) - rest)
                * (1000 as real) <= 1 as real)
            &&& rest * (1000 as real) < -1 as real ==> over
        }),
        counted_down(None, dt) == (None::<Single>, false),
{
    lemma_zero();
    lemma_real_zero();
    lemma_finite_difference(left, dt, 1000);
    law_differences_are_differences(left, dt);
    law_order_is_order_of_reals(difference(left, dt), zero());
}

/// A row of the scoreboard names the player first, and then gives kills, deaths and points in that
/// order.
pub proof fn law_rows_tell_kills_before_deaths(s: PlayerScore)
    ensures
        ({
            let text = row_text(s);
            let (n, k) = (s.username@.len() as int, digits(s.kills as nat).len() as int);
            let (d, p) = (
                digits(s.deaths as nat).len() as int,
                digits(s.score as nat).len() as int,
            );
            &&& text.len() >= n + k + d + p + 7
            &&& text.subrange(0, n) == s.username@
            &&& text[n] == ' '
            &&& text.subrange(n + 1, n + 1 + k) == digits(s.kills as nat)
            &&& text[n + 1 + k] == '/'
            &&& text.subrange(n + k + 2, n + k + 2 + d) == digits(s.deaths as nat)
            &&& text.subrange(n + k + d + 7, n + k + d + 7 + p) == digits(s.score as nat)
            &&& s.alive <==> text.len() == n + k + d + p + 7
        }),
{
    reveal_strlit(" ");
    reveal_strlit("/");
    reveal_strlit(" pts:");
    reveal_strlit(" (dead)");
    reveal_strlit("");
    let text = row_text(s);
    let (n, k) = (s.username@.len() as int, digits(s.kills as nat).len() as int);
    let d = digits(s.deaths as nat).len() as int;
    let p = digits(s.score as nat).len() as int;
    assert(text.subrange(0, n) =~= s.username@);
    assert(text.subrange(n + 1, n + 1 + k) =~= digits(s.kills as nat));
    assert(text.subrange(n + k + 2, n + k + 2 + d) =~= digits(s.deaths as nat));
    assert(text.subrange(n + k + d + 7, n + k + d + 7 + p) =~= digits(s.score as nat));
}

/// The distance of two coordinates is the shorter of the two ways between them round the world, the
/// same from either end.
pub proof fn law_distances_go_the_short_way(a: Single, b: Single)
    requires
        is_in_the_world(a),
        is_in_the_world(b),
    ensures
        around(a, b).is_finite(),
        ({
            let d = size(real_of(a) - real_of(b));
            size(real_of(around(a, b)) - least(d, 10_000 as real - d)) * (100 as real) <= 1 as real
        }),
{
    lemma_finite_difference(a, b, 10_000);
    law_differences_are_differences(a, b);
    let d = absolute(difference(a, b));
    law_absolute_values_are_sizes(difference(a, b));
    law_wholes_are_wholes(10_000);
    lemma_finite_difference(world_side(), d, 20_000);
    law_differences_are_differences(world_side(), d);
    law_order_is_order_of_reals(difference(world_side(), d), d);
}

/// A ship without a texture points ahead: the first corner of its triangle lies off its place in
/// the direction of its heading, as far as the ship is large.
pub proof fn law_hulls_point_ahead(e: EntityState, large: Single, tint: Ink, t: Trace)
    requires
        is_in_the_world(e.x),
        is_in_the_world(e.y),
        hull_triangle(e, large, tint, t).1.len() > 0,
    ensures
        asks_direction(t, 0, e.angle),
        hull_triangle(e, large, tint, t).0 matches Figure::Triangle { x1, y1, ink, .. } && {
            &&& ink == tint
            &&& x1.is_finite() ==> is_off_by(
                x1,
                real_of(e.x),
                real_of(reply(t, 0)),
                real_of(large),
            )
            &&& y1.is_finite() ==> is_off_by(
                y1,
                real_of(e.y),
                real_of(reply(t, 1)),
                real_of(large),
            )
        },
{
    let a = e.angle;
    let lean = from_fraction(5, 2);
    let (l, r) = (sum(a, lean), difference(a, lean));
    let qs = seq![
        Ask::Cos(a),
        Ask::Sin(a),
        Ask::Cos(l),
        Ask::Sin(l),
        Ask::Cos(r),
        Ask::Sin(r),
    ];
    assert(past(t, qs).len() > 0);
    assert(answers(t, qs));
    assert(qs[0] == Ask::Cos(a) && qs[1] == Ask::Sin(a));
    assert(t[0] == Event::Number(qs[0], reply(t, 0)));
    assert(t[1] == Event::Number(qs[1], reply(t, 1)));
    let (c, s) = (reply(t, 0), reply(t, 1));
    if sum(e.x, product(c, large)).is_finite() {
        lemma_off_by(e.x, c, large);
    }
    if sum(e.y, product(s, large)).is_finite() {
        lemma_off_by(e.y, s, large);
    }
}

/// The width of a gauge bar.
proof fn lemma_bar(value: Single, max: Single)
    requires
        is_length(value),
        max.is_finite(),
        1 as real <= real_of(max) <= 10_000 as real,
    ensures
        product(from_whole(150), share(value, max)).is_finite(),
        size(
            real_of(product(from_whole(150), share(value, max))) * real_of(max) - (150 as real)
                * least(real_of(value), real_of(max)),
        ) <= 10 as real,
{
    law_gauges_show_what_is_left(value, max);
    law_wholes_are_wholes(150);
    lemma_unit();
    let (h, m) = (real_of(share(value, max)), real_of(max));
    lemma_finite_product(from_whole(150), share(value, max), 150);
    law_products_are_products(from_whole(150), share(value, max));
    let w = real_of(product(from_whole(150), share(value, max)));
    let e = w - (150 as real) * h;
    lemma_size_product(e, m);
    lemma_bound_product(size(e) * (0x10_0000 as real), 10 as real, m, 10_000 as real);
    lemma_times_swap(size(e), 0x10_0000 as real, m);
    lemma_times_sum(w, (150 as real) * h, m);
    lemma_times_swap(150 as real, h, m);
}

/// The panel shows the ship: the bar beside the word for the hull is as long as the share of the
/// hull that is left, and likewise for the shields and for the fuel, of a full bar of 150.
pub proof fn law_the_panel_shows_the_ship(info: ShipInfo)
    requires
        is_length(info.hull),
        is_length(info.shields),
        is_length(info.fuel),
    ensures
        ({
            let s = ship_panel(info);
            let stats = class_stats(info.class);
            &&& s.len() >= 9
            &&& s[0] matches Drawn::Text { text, .. } && text == "HULL"@
            &&& s[3] matches Drawn::Text { text, .. } && text == "SHLD"@
            &&& s[6] matches Drawn::Text { text, .. } && text == "FUEL"@
            &&& shows(s[1], info.hull, stats.max_hull)
            &&& shows(s[4], info.shields, stats.max_shields)
            &&& shows(s[7], info.fuel, stats.fuel_capacity)
        }),
{
    let stats = class_stats(info.class);
    lemma_capacities(info.class);
    lemma_bar(info.hull, stats.max_hull);
    lemma_bar(info.shields, stats.max_shields);
    lemma_bar(info.fuel, stats.fuel_capacity);
}

/// Whether a thing to draw is a bar that shows a value of a maximum.
pub open spec fn shows(d: Drawn, value: Single, max: Single) -> bool {
    d matches Drawn::Figure(Figure::Block { w, .. }) && w.is_finite() && size(
        real_of(w) * real_of(max) - (150 as real) * least(real_of(value), real_of(max)),
    ) <= 10 as real
}

/// The gauges of every class have room.
proof fn lemma_capacities(class: ShipClass)
    ensures
        ({
            let stats = class_stats(class);
            &&& stats.max_hull.is_finite() && 1 as real <= real_of(stats.max_hull) <= 1000 as real
            &&& stats.max_shields.is_finite() && 1 as real <= real_of(stats.max_shields) <= (
            1000 as real)
            &&& stats.fuel_capacity.is_finite() && 1 as real <= real_of(stats.fuel_capacity) <= (
            1000 as real)
        }),
{
    assert forall|n: int| 1 <= n <= 1000 implies (#[trigger] from_whole(n)).is_finite() && real_of(
        from_whole(n),
    ) == n as real by {
        law_wholes_are_wholes(n);
    }
}

/// An explosion ages as its time runs out: its age times its lifetime is the time that is gone,
/// from nothing to all of it.
pub proof fn law_explosions_age(e: EntityState)
    requires
        is_length(e.vy),
        e.vx.is_finite(),
        real_of(e.vx) * (10 as real) >= 1 as real,
        real_of(e.vx) <= 100 as real,
        real_of(e.vy) <= 100 as real,
    ensures
        explosion_age(e).is_finite(),
        0 as real <= real_of(explosion_age(e)) <= 1 as real,
        size(
            real_of(explosion_age(e)) * real_of(e.vx) - most(
                real_of(e.vx) - real_of(e.vy),
                0 as real,
            ),
        ) * (10 as real) <= 1 as real,
{
    lemma_unit();
    lemma_zero();
    lemma_real_zero();
    law_wholes_are_wholes(1);
    let (l, m) = (real_of(e.vy), real_of(e.vx));
    law_order_is_order_of_reals(zero(), e.vx);
    lemma_times_order(1 as real, m * (10 as real), 100 as real);
    lemma_finite_quotient(e.vy, e.vx, 1000);
    law_quotients_are_quotients(e.vy, e.vx);
    let q = quotient(e.vy, e.vx);
    let x = real_of(q);
    lemma_times_order(m, 100 as real, dust());
    assert(size(x * m - l) * (100 as real) <= 1 as real);
    assert(-1 as real <= x <= 1001 as real) by {
        if x > 1001 as real {
            lemma_times_order(1001 as real, x, m);
        }
        if x < -1 as real {
            lemma_times_order(x, -1 as real, m);
        }
    }
    lemma_finite_difference(from_whole(1), q, 2000);
    law_differences_are_differences(from_whole(1), q);
    let y = real_of(difference(from_whole(1), q));
    law_order_is_order_of_reals(difference(from_whole(1), q), zero());
    law_order_is_order_of_reals(from_whole(1), difference(from_whole(1), q));
    lemma_times_sum(1 as real, x, m);
    lemma_times_one(m, 1 as real);
    let off = y - (1 as real - x);
    lemma_size_product(off, m);
    lemma_bound_product(size(off) * (10_000 as real), 1 as real, m, 100 as real);
    lemma_times_swap(size(off), 10_000 as real, m);
    assert(size(off * m) * (100 as real) <= 1 as real);
    lemma_times_sum(y, 1 as real - x, m);
    lemma_times_one(100 as real, 1 as real);
    lemma_times_sum(0 as real, 0 as real, m);
    if y < 0 as real {
        lemma_times_order(y, 0 as real, m);
    } else {
        lemma_times_order(0 as real, y, m);
        if y > 1 as real {
            lemma_times_order(1 as real, y, m);
        } else {
            lemma_times_order(y, 1 as real, m);
        }
    }
}

/// Of the marks for torpedoes as many are lit as there are torpedoes, from the left.
pub proof fn law_marks_count_torpedoes(count: u8, n: nat, i: int)
    requires
        0 <= i < n,
    ensures
        pips(count, n).len() == n,
        pips(count, n)[i] matches Drawn::Figure(Figure::Block { ink, .. }) && ink == Ink::Named(
            if i < count {
                Named::Yellow
            } else {
                Named::DarkGray
            },
        ),
    decreases n,
{
    if n > 1 {
        law_marks_count_torpedoes(count, (n - 1) as nat, if i < n - 1 {
            i
        } else {
            0
        });
    }
    if n == 1 {
        assert(pips(count, 0).len() == 0);
    }
}

/// The ship that is found is one of the entities, and the player's.
proof fn lemma_own_ship(es: Seq<EntityState>, id: PlayerId)
    ensures
        own_ship(es, Some(id)) matches Some(e) ==> es.contains(e) && (e.ship_info matches Some(info)
            && info.player_id == id),
    decreases es.len(),
{
    if es.len() > 0 {
        let front = es.drop_last();
        lemma_own_ship(front, id);
        if own_ship(front, Some(id)) is Some {
            let e = own_ship(front, Some(id))->0;
            let k = choose|k: int| 0 <= k < front.len() && front[k] == e;
            assert(es[k] == e);
        } else {
            assert(es[es.len() - 1] == es.last());
        }
    }
}

/// The camera looks at the player's own ship, wherever it is.
pub proof fn law_the_camera_follows_the_ship(
    es: Seq<EntityState>,
    id: PlayerId,
    cam_x: Single,
    cam_y: Single,
)
    requires
        own_ship(es, Some(id)) is Some,
    ensures
        ({
            let e = own_ship(es, Some(id))->0;
            &&& camera_target(es, Some(id), cam_x, cam_y) == (e.x, e.y)
            &&& es.contains(e) && (e.ship_info matches Some(info) && info.player_id == id)
        }),
{
    lemma_own_ship(es, id);
}

/// Every frame of play sends the input of that frame once, and the order to self-destruct after it
/// when the countdown has run out, and only then.
pub proof fn law_play_sends_the_input(c: Controls, k: Keys, p: Pointer, dt: Single, t: Trace)
    ensures
        ({
            let f = play_frame(c, k, p, dt, t).0;
            let over = counted_down(switched(c, k).self_destruct_countdown, dt).1;
            &&& f.messages.len() == if over {
                2int
            } else {
                1
            }
            &&& f.messages[0] == ClientMessage::Input(input_of(switched(c, k), k, p, t).0)
            &&& over ==> f.messages[1] == ClientMessage::SelfDestruct
            &&& !f.quit && f.login is None && f.screen is Playing
        }),
{
}

/// A bar above a ship shows a value of a maximum: its width over the full width is the share.
pub open spec fn is_bar(d: Drawn, full: real, value: Single, max: Single) -> bool {
    d matches Drawn::Figure(Figure::Block { w, .. }) && w.is_finite() && size(
        real_of(w) * real_of(max) - full * least(real_of(value), real_of(max)),
    ) <= 10 as real
}

/// A share of a full width.
proof fn lemma_part_of(width: Single, full: real, value: Single, max: Single)
    requires
        width.is_finite(),
        0 as real <= real_of(width) <= 100 as real,
        0 as real <= full <= 100 as real,
        size(real_of(width) - full) * (0x1_0000 as real) <= 1 as real,
        is_length(value),
        max.is_finite(),
        1 as real <= real_of(max) <= 1000 as real,
    ensures
        product(width, share(value, max)).is_finite(),
        size(
            real_of(product(width, share(value, max))) * real_of(max) - full * least(
                real_of(value),
                real_of(max),
            ),
        ) <= 10 as real,
{
    law_gauges_show_what_is_left(value, max);
    lemma_unit();
    let (f, h, m) = (real_of(width), real_of(share(value, max)), real_of(max));
    let l = least(real_of(value), m);
    lemma_bound_product(f, 100 as real, h, 1 as real);
    lemma_times_one(100 as real, 1 as real);
    lemma_finite_product(width, share(value, max), 100);
    law_products_are_products(width, share(value, max));
    let w = real_of(product(width, share(value, max)));
    let e = w - f * h;
    lemma_size_product(e, m);
    lemma_bound_product(size(e) * (0x1_0000 as real), 1 as real, m, 1000 as real);
    lemma_times_swap(size(e), 0x1_0000 as real, m);
    lemma_times_one(1000 as real, 1 as real);
    lemma_times_sum(w, f * h, m);
    lemma_times_swap(f, h, m);
    // The share of the full width.
    let g = h * m - l;
    lemma_size_product(f, g);
    lemma_bound_product(f, 100 as real, size(g) * (50 as real), 1 as real);
    lemma_times_swap(f, size(g), 50 as real);
    lemma_times_sum(h * m, l, f);
    let o = f - full;
    lemma_size_product(o, l);
    lemma_bound_product(size(o) * (0x1_0000 as real), 1 as real, l, 1000 as real);
    lemma_times_swap(size(o), 0x1_0000 as real, l);
    lemma_times_sum(f, full, l);
    assert(w * m - full * l == e * m + f * g + o * l);
}

/// The bars above a ship show its hull, and above that its shields while they are up, each over a
/// full width of eleven fifths of the ship's size.
pub proof fn law_bars_show_hull_and_shields(e: EntityState, info: ShipInfo, alpha: Single)
    requires
        is_length(info.hull),
        is_length(info.shields),
    ensures
        ({
            let s = ship_bars(e, info, alpha);
            let stats = class_stats(info.class);
            let full = real_of(class_size(info.class)) * (11 as real) / (5 as real);
            &&& s.len() == if info.shields_on {
                2int
            } else {
                1
            }
            &&& is_bar(s[0], full, info.hull, stats.max_hull)
            &&& info.shields_on ==> is_bar(s[1], full, info.shields, stats.max_shields)
        }),
{
    let stats = class_stats(info.class);
    lemma_capacities(info.class);
    lemma_unit();
    assert forall|n: int| 1 <= n <= 1000 implies (#[trigger] from_whole(n)).is_finite() && real_of(
        from_whole(n),
    ) == n as real by {
        law_wholes_are_wholes(n);
    }
    let large = class_size(info.class);
    let b = real_of(large);
    assert(10 as real <= b <= 24 as real);
    law_fractions_are_fractions(11, 5);
    let q = real_of(from_fraction(11, 5));
    assert(size(q * (5 as real) - 11 as real) * (0x100_0000 as real) <= (11 as real) + dust() * (
    5 as real));
    lemma_bound_product(b, 24 as real, q, 3 as real);
    lemma_finite_product(large, from_fraction(11, 5), 72);
    law_products_are_products(large, from_fraction(11, 5));
    let full = b * (11 as real) / (5 as real);
    let o = q * (5 as real) - 11 as real;
    lemma_size_product(b, o);
    lemma_bound_product(b, 24 as real, size(o) * (0x10_0000 as real), 1 as real);
    lemma_times_swap(b, size(o), 0x10_0000 as real);
    lemma_times_one(24 as real, 1 as real);
    lemma_times_sum(q * (5 as real), 11 as real, b);
    lemma_times_swap(b, q, 5 as real);
    let width = product(large, from_fraction(11, 5));
    lemma_part_of(width, full, info.hull, stats.max_hull);
    lemma_part_of(width, full, info.shields, stats.max_shields);
}

/// The cursor is on another ship within twenty units of it, on an asteroid within five units of its
/// edge, and never on the player's own ship.
pub proof fn law_the_cursor_finds_its_targets(
    e: EntityState,
    id: PlayerId,
    x: Single,
    y: Single,
    a: ServerEntity,
    b: ServerEntity,
)
    requires
        a.x == e.x,
        a.y == e.y,
        b.x == x,
        b.y == y,
        are_around(a, b),
        e.kind == EntityKind::Asteroid ==> e.vx.is_finite() && 1 as real <= real_of(e.vx) <= (
        400 as real),
    ensures
        ({
            let own = e.ship_info matches Some(info) && info.player_id == id;
            let z = distance_squared(a, b);
            let reach = real_of(e.vx) + 5 as real;
            &&& e.kind == EntityKind::Ship && own ==> !on_target(e, Some(id), x, y)
            &&& e.kind == EntityKind::Ship && !own && z < 399 as real ==> on_target(
                e,
                Some(id),
                x,
                y,
            )
            &&& e.kind == EntityKind::Ship && z > 401 as real ==> !on_target(e, Some(id), x, y)
            &&& e.kind == EntityKind::Asteroid && z * (1000 as real) < (reach * reach) * (
            999 as real) ==> on_target(e, Some(id), x, y)
            &&& e.kind == EntityKind::Asteroid && z * (1000 as real) > (reach * reach) * (
            1001 as real) ==> !on_target(e, Some(id), x, y)
            &&& e.kind != EntityKind::Ship && e.kind != EntityKind::Asteroid ==> !on_target(
                e,
                Some(id),
                x,
                y,
            )
        }),
{
    lemma_unit();
    lemma_gap(a, b);
    law_wholes_are_wholes(400);
    law_wholes_are_wholes(5);
    let gap = gap_squared(a, b);
    assert(offset_squared(e, x, y) == gap);
    law_order_is_order_of_reals(gap, from_whole(400));
    if e.kind == EntityKind::Asteroid {
        lemma_finite_sum(e.vx, from_whole(5), 500);
        law_sums_are_sums(e.vx, from_whole(5));
        let reach = sum(e.vx, from_whole(5));
        lemma_within_reach(a, b, reach, real_of(e.vx) + 5 as real);
    }
}

/// A screen that shakes moves both ways off the camera, by no more than the shake times the sine
/// and the cosine that were asked for.
pub proof fn law_shakes_are_about_the_camera(
    x: Single,
    y: Single,
    shake: Single,
    time: Single,
    t: Trace,
)
    requires
        size(real_of(x)) <= 20_000 as real,
        size(real_of(y)) <= 20_000 as real,
        shaken(x, y, shake, time, t).2.len() > 0,
        shaken(x, y, shake, time, t).0.is_finite(),
        shaken(x, y, shake, time, t).1.is_finite(),
    ensures
        t[0] matches Event::Number(Ask::Sin(_), s) && s == reply(t, 0),
        t[1] matches Event::Number(Ask::Cos(_), c) && c == reply(t, 1),
        is_off_by(
            shaken(x, y, shake, time, t).0,
            real_of(x),
            real_of(reply(t, 0)),
            real_of(shake),
        ),
        is_off_by(
            shaken(x, y, shake, time, t).1,
            real_of(y),
            real_of(reply(t, 1)),
            real_of(shake),
        ),
{
    let (s, c) = (
        Ask::Sin(product(time, from_whole(97))),
        Ask::Cos(product(time, from_whole(83))),
    );
    let qs = seq![s, c];
    assert(past(t, qs).len() > 0);
    assert(answers(t, qs));
    assert(qs[0] == s && qs[1] == c);
    assert(t[0] == Event::Number(qs[0], reply(t, 0)));
    assert(t[1] == Event::Number(qs[1], reply(t, 1)));
    lemma_off_by(x, reply(t, 0), shake);
    lemma_off_by(y, reply(t, 1), shake);
}

/// The map is a square in the lower right corner of the window, ten units off its edges, a sixth of
/// its width or half its height, whichever is less, and the player's ship is in its middle.
pub proof fn law_the_map_is_in_the_corner(
    es: Seq<EntityState>,
    id: Option<PlayerId>,
    width: Single,
    height: Single,
)
    requires
        is_length(width),
        is_length(height),
    ensures
        ({
            let c = chart_of(es, id, width, height);
            let (w, h) = (real_of(width), real_of(height));
            &&& c.side.is_finite() && c.x.is_finite() && c.y.is_finite()
            &&& size(real_of(c.side) * (6 as real) - least(w, h * (3 as real))) * (50 as real) <= (
            1 as real)
            &&& size(real_of(c.x) + real_of(c.side) + 10 as real - w) * (50 as real) <= 1 as real
            &&& size(real_of(c.y) + real_of(c.side) + 10 as real - h) * (50 as real) <= 1 as real
            &&& own_ship(es, id) matches Some(e) ==> c.cx == e.x && c.cy == e.y
        }),
{
    lemma_unit();
    law_wholes_are_wholes(6);
    law_wholes_are_wholes(2);
    law_wholes_are_wholes(10);
    lemma_halved(height);
    lemma_finite_quotient(width, from_whole(6), 10_000);
    law_quotients_are_quotients(width, from_whole(6));
    let (a, b) = (quotient(width, from_whole(6)), quotient(height, from_whole(2)));
    let x = real_of(a);
    assert(size(x * (6 as real) - real_of(width)) * (0x100_0000 as real) <= size(real_of(width))
        + dust() * (6 as real));
    law_order_is_order_of_reals(b, a);
    let side = lesser(a, b);
    lemma_finite_difference(width, side, 20_000);
    law_differences_are_differences(width, side);
    lemma_finite_difference(height, side, 20_000);
    law_differences_are_differences(height, side);
    let (p, q) = (difference(width, side), difference(height, side));
    lemma_finite_difference(p, from_whole(10), 30_000);
    law_differences_are_differences(p, from_whole(10));
    lemma_finite_difference(q, from_whole(10), 30_000);
    law_differences_are_differences(q, from_whole(10));
}

} // verus!
