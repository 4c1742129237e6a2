//! What ticks and blows do to the gauges of a ship, in real numbers, up to rounding.
use vstd::prelude::*;

use crate::bounds::{is_amount, lemma_class_amounts};
use crate::damage::{absorbed, struck};
use crate::exact::{
    dust, law_differences_are_differences, law_fractions_are_fractions, law_order_is_order_of_reals,
    law_products_are_products, law_quotients_are_quotients, law_sums_are_sums,
    law_wholes_are_wholes, lemma_bound_product, lemma_finite_difference, lemma_finite_product,
    lemma_finite_quotient, lemma_finite_sum, lemma_size_of, lemma_times_one, lemma_times_order,
    lemma_times_sum, lemma_unit, real_of, size, unit,
};
use crate::game::{class_stats, ShipClass};
use crate::motion::is_a_moment;
use crate::order::lemma_zero;
use crate::physics::lemma_real_zero;
use crate::pilot::{beam_held, fired, may_cloak, reloaded, shot, ticked, tuned};
use crate::single::{
    difference, from_fraction, from_whole, greater, le, lesser, lt, product, quotient, sum, zero,
    Single,
};
use crate::world::{PhaserHit, ServerPlayer};

verus! {

/// The greater of two real numbers.
pub open spec fn most(a: real, b: real) -> real {
    if a < b {
        b
    } else {
        a
    }
}

/// The lesser of two real numbers.
pub open spec fn least(a: real, b: real) -> real {
    if b < a {
        b
    } else {
        a
    }
}

/// Whether a number is a gauge reading: no less than zero, and no more than ten thousand.
pub open spec fn is_gauge(a: Single) -> bool {
    a.is_finite() && 0 as real <= real_of(a) <= 10_000 as real
}

/// An amount, in real numbers.
proof fn lemma_amount_real(a: Single, n: int)
    requires
        is_amount(a, n),
        0 <= n < 0x100_0000,
    ensures
        0 as real <= real_of(a) <= n as real,
{
    law_wholes_are_wholes(n);
    law_order_is_order_of_reals(a, from_whole(n));
    lemma_size_of(a);
    lemma_unit();
    let u = a.units() as real;
    lemma_bound_product(u, u, unit(), unit());
}

/// A rate over the time of a tick.
proof fn lemma_over_time(a: Single, dt: Single)
    requires
        a.is_finite(),
        0 as real <= real_of(a) <= 1000 as real,
        is_a_moment(dt),
    ensures
        product(a, dt).is_finite(),
        0 as real <= real_of(a) * real_of(dt) <= 1000 as real,
        size(real_of(product(a, dt)) - real_of(a) * real_of(dt)) * (10_000 as real) <= 1 as real,
{
    lemma_unit();
    lemma_bound_product(real_of(a), 1000 as real, real_of(dt), 1 as real);
    lemma_times_one(1000 as real, 1 as real);
    lemma_finite_product(a, dt, 1000);
    law_products_are_products(a, dt);
}

/// Fuel is accounted for: what the engines burnt is gone, a cloak drains its rate, a beam that is
/// held or lingers drains its own, and unless the ship hides, the reactor gives back what it
/// regenerates; the tank is never less than empty, nor, after regeneration, more than full.
pub proof fn law_fuel_is_accounted_for(p: ServerPlayer, burnt: Single, dt: Single)
    requires
        is_gauge(p.fuel),
        is_gauge(burnt),
        is_a_moment(dt),
    ensures
        ({
            let stats = class_stats(p.ship_class);
            let r = tuned(p, burnt, dt).fuel;
            let (f, b, d) = (real_of(p.fuel), real_of(burnt), real_of(dt));
            let beam = if beam_held(p) || lt(zero(), p.phaser_min_remaining) {
                real_of(stats.phaser_fuel_drain) * d
            } else {
                0 as real
            };
            &&& r.is_finite()
            &&& may_cloak(p) ==> size(
                real_of(r) - most(f - b - real_of(stats.cloak_fuel_drain) * d, 0 as real),
            ) * (100 as real) <= 1 as real
            &&& !may_cloak(p) ==> size(
                real_of(r) - least(
                    most(f - b - beam + real_of(stats.fuel_regen) * d, 0 as real),
                    real_of(stats.fuel_capacity),
                ),
            ) * (100 as real) <= 1 as real
        }),
{
    let stats = class_stats(p.ship_class);
    lemma_class_amounts(p.ship_class);
    lemma_amount_real(stats.cloak_fuel_drain, 1000);
    lemma_amount_real(stats.phaser_fuel_drain, 1000);
    lemma_amount_real(stats.fuel_regen, 1000);
    lemma_amount_real(stats.fuel_capacity, 1000);
    lemma_over_time(stats.cloak_fuel_drain, dt);
    lemma_over_time(stats.phaser_fuel_drain, dt);
    lemma_over_time(stats.fuel_regen, dt);
    lemma_zero();
    lemma_real_zero();
    if may_cloak(p) {
        let drain = product(stats.cloak_fuel_drain, dt);
        lemma_finite_difference(p.fuel, drain, 20_000);
        law_differences_are_differences(p.fuel, drain);
        let x = difference(p.fuel, drain);
        lemma_finite_difference(x, burnt, 40_000);
        law_differences_are_differences(x, burnt);
        let y = difference(x, burnt);
        law_order_is_order_of_reals(y, zero());
    } else {
        let cost = if beam_held(p) || lt(zero(), p.phaser_min_remaining) {
            product(stats.phaser_fuel_drain, dt)
        } else {
            zero()
        };
        lemma_finite_difference(p.fuel, burnt, 20_000);
        law_differences_are_differences(p.fuel, burnt);
        let x = difference(p.fuel, burnt);
        lemma_finite_difference(x, cost, 40_000);
        law_differences_are_differences(x, cost);
        let y = difference(x, cost);
        let gain = product(stats.fuel_regen, dt);
        lemma_finite_sum(y, gain, 60_000);
        law_sums_are_sums(y, gain);
        let z = sum(y, gain);
        law_order_is_order_of_reals(z, zero());
        law_order_is_order_of_reals(stats.fuel_capacity, z);
    }
}

/// A countdown that runs loses the time of the tick.
proof fn lemma_ticked(timer: Single, dt: Single)
    requires
        timer.is_finite(),
        size(real_of(timer)) <= 1000 as real,
        is_a_moment(dt),
    ensures
        ticked(timer, dt).is_finite(),
        real_of(timer) > 0 as real ==> size(
            real_of(ticked(timer, dt)) - (real_of(timer) - real_of(dt)),
        ) * (1000 as real) <= 1 as real,
        real_of(timer) <= 0 as real ==> ticked(timer, dt) == timer,
{
    lemma_zero();
    lemma_real_zero();
    law_order_is_order_of_reals(zero(), timer);
    lemma_finite_difference(timer, dt, 2000);
    law_differences_are_differences(timer, dt);
}

/// Countdowns run by the time of the tick: those of the guns and of the shields until they are
/// through, and that of a lingering beam down to zero.
pub proof fn law_countdowns_run(p: ServerPlayer, burnt: Single, dt: Single)
    requires
        is_a_moment(dt),
        p.fire_cooldown.is_finite(),
        p.phaser_cooldown.is_finite(),
        p.shield_regen_cooldown.is_finite(),
        p.phaser_min_remaining.is_finite(),
        size(real_of(p.fire_cooldown)) <= 1000 as real,
        size(real_of(p.phaser_cooldown)) <= 1000 as real,
        size(real_of(p.shield_regen_cooldown)) <= 1000 as real,
        size(real_of(p.phaser_min_remaining)) <= 1000 as real,
    ensures
        ({
            let r = tuned(p, burnt, dt);
            let d = real_of(dt);
            &&& real_of(p.fire_cooldown) > 0 as real ==> size(
                real_of(r.fire_cooldown) - (real_of(p.fire_cooldown) - d),
            ) * (1000 as real) <= 1 as real
            &&& real_of(p.phaser_cooldown) > 0 as real ==> size(
                real_of(r.phaser_cooldown) - (real_of(p.phaser_cooldown) - d),
            ) * (1000 as real) <= 1 as real
            &&& real_of(p.shield_regen_cooldown) > 0 as real ==> size(
                real_of(r.shield_regen_cooldown) - (real_of(p.shield_regen_cooldown) - d),
            ) * (1000 as real) <= 1 as real
            &&& size(
                real_of(r.phaser_min_remaining) - most(
                    real_of(p.phaser_min_remaining) - d,
                    0 as real,
                ),
            ) * (1000 as real) <= 1 as real
        }),
{
    lemma_ticked(p.fire_cooldown, dt);
    lemma_ticked(p.phaser_cooldown, dt);
    lemma_ticked(p.shield_regen_cooldown, dt);
    lemma_zero();
    lemma_real_zero();
    let left = difference(p.phaser_min_remaining, dt);
    lemma_finite_difference(p.phaser_min_remaining, dt, 2000);
    law_differences_are_differences(p.phaser_min_remaining, dt);
    law_order_is_order_of_reals(left, zero());
}

/// Shields that are up and have not been hit for long enough gain ten units a second, up to the
/// greatest of the class.
pub proof fn law_shields_regenerate(p: ServerPlayer, burnt: Single, dt: Single)
    requires
        is_a_moment(dt),
        is_gauge(p.shields),
        !lt(zero(), p.shield_regen_cooldown),
        tuned(p, burnt, dt).shields_on,
    ensures
        tuned(p, burnt, dt).shields.is_finite(),
        size(
            real_of(tuned(p, burnt, dt).shields) - least(
                real_of(p.shields) + (10 as real) * real_of(dt),
                real_of(class_stats(p.ship_class).max_shields),
            ),
        ) * (100 as real) <= 1 as real,
{
    let top = class_stats(p.ship_class).max_shields;
    lemma_class_amounts(p.ship_class);
    lemma_amount_real(top, 1000);
    law_wholes_are_wholes(10);
    lemma_over_time(from_whole(10), dt);
    let gain = product(from_whole(10), dt);
    lemma_finite_sum(p.shields, gain, 20_000);
    law_sums_are_sums(p.shields, gain);
    law_order_is_order_of_reals(top, sum(p.shields, gain));
}

/// A torpedo comes back for every half second: while less than that is on the clock with the tick,
/// the count stays and the clock runs on; where it is a half second or more, but less than a whole
/// one, there is one torpedo more, and the clock loses the half second.  A full magazine stays.
pub proof fn law_torpedoes_come_back(p: ServerPlayer, burnt: Single, dt: Single)
    requires
        is_a_moment(dt),
        p.torpedo_regen_timer.is_finite(),
        0 as real <= real_of(p.torpedo_regen_timer) <= 1 as real,
        real_of(p.torpedo_regen_timer) + real_of(dt) < (9 as real) / (10 as real),
    ensures
        ({
            let max = class_stats(p.ship_class).max_torpedoes;
            let r = tuned(p, burnt, dt);
            let clock = real_of(p.torpedo_regen_timer) + real_of(dt);
            &&& p.torpedo_count >= max ==> r.torpedo_count == p.torpedo_count
                && r.torpedo_regen_timer == p.torpedo_regen_timer
            &&& p.torpedo_count < max && clock * (100 as real) < 49 as real ==> r.torpedo_count
                == p.torpedo_count && size(real_of(r.torpedo_regen_timer) - clock) * (1000 as real)
                <= 1 as real
            &&& p.torpedo_count < max && clock * (100 as real) > 51 as real ==> r.torpedo_count
                == p.torpedo_count + 1 && size(
                real_of(r.torpedo_regen_timer) - (clock - (1 as real) / (2 as real)),
            ) * (1000 as real) <= 1 as real
        }),
{
    let max = class_stats(p.ship_class).max_torpedoes;
    lemma_unit();
    law_fractions_are_fractions(1, 2);
    let half = from_fraction(1, 2);
    let h = real_of(half);
    assert(size(h * (2 as real) - 1 as real) * (0x100_0000 as real) <= (1 as real) + dust() * (
    2 as real));
    lemma_finite_sum(p.torpedo_regen_timer, dt, 2);
    law_sums_are_sums(p.torpedo_regen_timer, dt);
    let c = sum(p.torpedo_regen_timer, dt);
    lemma_finite_difference(c, half, 2);
    law_differences_are_differences(c, half);
    let less = difference(c, half);
    law_order_is_order_of_reals(half, c);
    law_order_is_order_of_reals(less, c);
    law_order_is_order_of_reals(half, less);
    if p.torpedo_count < max {
        assert(reloaded(c, p.torpedo_count, max) == if le(half, c) && lt(less, c) {
            reloaded(less, (p.torpedo_count + 1) as u8, max)
        } else {
            (c, p.torpedo_count)
        });
        assert(!le(half, less));
        assert(reloaded(less, (p.torpedo_count + 1) as u8, max) == (
            less,
            (p.torpedo_count + 1) as u8,
        ));
    }
}

/// The rates of fire of every class are between one and eight a second.
proof fn lemma_rates(class: ShipClass)
    ensures
        class_stats(class).primary_fire_rate_hz.is_finite(),
        class_stats(class).phaser_fire_rate_hz.is_finite(),
        (9 as real) <= real_of(class_stats(class).primary_fire_rate_hz) * (10 as real) <= (
        100 as real),
        (9 as real) <= real_of(class_stats(class).phaser_fire_rate_hz) * (10 as real) <= (
        100 as real),
{
    lemma_unit();
    law_wholes_are_wholes(8);
    law_wholes_are_wholes(4);
    law_wholes_are_wholes(3);
    law_wholes_are_wholes(2);
    law_wholes_are_wholes(1);
    law_fractions_are_fractions(3, 2);
    law_fractions_are_fractions(8, 5);
    law_fractions_are_fractions(9, 5);
    let (a, b, c) = (
        real_of(from_fraction(3, 2)),
        real_of(from_fraction(8, 5)),
        real_of(from_fraction(9, 5)),
    );
    assert(size(a * (2 as real) - 3 as real) * (0x100_0000 as real) <= (3 as real) + dust() * (
    2 as real));
    assert(size(b * (5 as real) - 8 as real) * (0x100_0000 as real) <= (8 as real) + dust() * (
    5 as real));
    assert(size(c * (5 as real) - 9 as real) * (0x100_0000 as real) <= (9 as real) + dust() * (
    5 as real));
}

/// One over a rate of fire.
proof fn lemma_one_over(rate: Single)
    requires
        rate.is_finite(),
        (9 as real) <= real_of(rate) * (10 as real) <= 100 as real,
    ensures
        quotient(from_whole(1), rate).is_finite(),
        size(real_of(quotient(from_whole(1), rate)) * real_of(rate) - 1 as real) * (1000 as real)
            <= 1 as real,
{
    lemma_unit();
    law_wholes_are_wholes(1);
    lemma_finite_quotient(from_whole(1), rate, 2);
    law_quotients_are_quotients(from_whole(1), rate);
    lemma_times_order(real_of(rate), 10 as real, dust());
}

/// A gun that has fired cools down for one over its rate of fire: the wait times the rate is one
/// second.  A torpedo that was fired is gone, and the request for it is done with.
pub proof fn law_guns_fire_at_their_rate(p: ServerPlayer, hit: Option<(PhaserHit, Single)>)
    ensures
        ({
            let stats = class_stats(p.ship_class);
            let (f, s) = (fired(p), shot(p, hit));
            &&& size(
                real_of(f.fire_cooldown) * real_of(stats.primary_fire_rate_hz) - 1 as real,
            ) * (1000 as real) <= 1 as real
            &&& size(
                real_of(s.phaser_cooldown) * real_of(stats.phaser_fire_rate_hz) - 1 as real,
            ) * (1000 as real) <= 1 as real
            &&& p.torpedo_count > 0 ==> f.torpedo_count == p.torpedo_count - 1
            &&& !f.pending_torpedo_fire
            &&& f.phaser_cooldown == p.phaser_cooldown && s.fire_cooldown == p.fire_cooldown
            &&& s.torpedo_count == p.torpedo_count
            &&& p.phaser_lock_target is Some ==> s.phaser_lock_target == p.phaser_lock_target
            &&& p.phaser_lock_target is None ==> (hit matches Some((h, _)) ==> s.phaser_lock_target
                == Some(h))
        }),
{
    lemma_rates(p.ship_class);
    lemma_one_over(class_stats(p.ship_class).primary_fire_rate_hz);
    lemma_one_over(class_stats(p.ship_class).phaser_fire_rate_hz);
}

/// A blow takes its damage from shields and hull together, no more and no less: shields that are up
/// come first, and only what they cannot take goes to the hull.  What they take costs fuel, as much
/// for each unit of damage as the class says, as long as there is any.
pub proof fn law_blows_take_their_damage(p: ServerPlayer, dmg: Single)
    requires
        is_gauge(p.hull),
        is_gauge(p.shields),
        is_gauge(p.fuel),
        dmg.is_finite(),
        0 as real <= real_of(dmg) <= 1000 as real,
    ensures
        ({
            let r = struck(p, dmg);
            let lost = real_of(p.shields) - real_of(r.shields);
            let energy = real_of(class_stats(p.ship_class).shield_energy_per_damage);
            let up = p.shields_on && !p.cloaked;
            &&& r.hull.is_finite() && r.shields.is_finite() && r.fuel.is_finite()
            &&& size(
                (real_of(p.hull) + real_of(p.shields)) - (real_of(r.hull) + real_of(r.shields))
                    - real_of(dmg),
            ) * (100 as real) <= 1 as real
            &&& up ==> size(lost - least(real_of(dmg), real_of(p.shields))) * (100 as real) <= (
            1 as real)
            &&& !up ==> r.shields == p.shields && r.fuel == p.fuel
            &&& size(
                real_of(r.fuel) - most(
                    real_of(p.fuel) - (if up {
                        least(real_of(dmg), real_of(p.shields))
                    } else {
                        0 as real
                    }) * energy,
                    0 as real,
                ),
            ) * (5 as real) <= 1 as real
        }),
{
    lemma_unit();
    let stats = class_stats(p.ship_class);
    lemma_class_amounts(p.ship_class);
    lemma_amount_real(stats.shield_energy_per_damage, 1000);
    lemma_zero();
    lemma_real_zero();
    law_order_is_order_of_reals(zero(), p.shields);
    law_order_is_order_of_reals(p.shields, dmg);
    let a = absorbed(p, dmg);
    let x = real_of(a);
    let up = p.shields_on && !p.cloaked;
    assert(a.is_finite() && 0 as real <= x <= 1000 as real);
    assert(x == if up {
        least(real_of(dmg), real_of(p.shields))
    } else {
        0 as real
    });
    law_order_is_order_of_reals(zero(), a);
    lemma_finite_difference(dmg, a, 2000);
    law_differences_are_differences(dmg, a);
    let rest = difference(dmg, a);
    lemma_finite_difference(p.hull, rest, 20_000);
    law_differences_are_differences(p.hull, rest);
    lemma_finite_difference(p.shields, a, 20_000);
    law_differences_are_differences(p.shields, a);
    let per = stats.shield_energy_per_damage;
    let energy = real_of(per);
    lemma_bound_product(x, 1000 as real, energy, 1000 as real);
    lemma_finite_product(a, per, 1_000_000);
    law_products_are_products(a, per);
    let cost = product(a, per);
    lemma_finite_difference(p.fuel, cost, 2_000_000);
    law_differences_are_differences(p.fuel, cost);
    let left = difference(p.fuel, cost);
    law_order_is_order_of_reals(left, zero());
    if x <= 0 as real {
        lemma_times_sum(0 as real, 0 as real, energy);
        assert(x * energy == 0 as real);
    }
}

} // verus!
