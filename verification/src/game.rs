//! Ship classes, world constants and the entity state that is sent over the network.
use vstd::prelude::*;

use crate::single::{from_fraction, from_whole, Single};

verus! {

pub type PlayerId = u32;

pub type EntityId = u32;

/// Server ticks per second.
pub const TICK_RATE_HZ: u64 = 20;

/// Milliseconds from one tick to the next.
pub const TICK_DURATION_MS: u64 = 1000 / TICK_RATE_HZ;

/// The bits of a full turn in radians.
pub const TAU_BITS: u32 = 0x40c9_0fdb;

/// The bits of half a turn in radians.
pub const PI_BITS: u32 = 0x4049_0fdb;

/// A full turn in radians.
pub open spec fn full_turn() -> Single {
    Single { bits: TAU_BITS }
}

/// Half a turn in radians.
pub open spec fn half_turn() -> Single {
    Single { bits: PI_BITS }
}

/// How long the explosion of a ship is shown, in seconds.
pub open spec fn explosion_seconds() -> Single {
    from_fraction(3, 4)
}

/// The side of the square world; its edges meet, as on a torus.
pub open spec fn world_side() -> Single {
    from_whole(10_000)
}

pub fn tau() -> (r: Single)
    ensures
        r == full_turn(),
{
    Single { bits: TAU_BITS }
}

pub fn pi() -> (r: Single)
    ensures
        r == half_turn(),
{
    Single { bits: PI_BITS }
}

pub fn explosion_lifetime() -> (r: Single)
    ensures
        r == explosion_seconds(),
{
    Single::fraction(3, 4)
}

pub fn world_width() -> (r: Single)
    ensures
        r == world_side(),
{
    Single::whole(10_000)
}

pub fn world_height() -> (r: Single)
    ensures
        r == world_side(),
{
    Single::whole(10_000)
}

/// The five playable ship classes, each with a distinct combat role.
#[derive(Debug, Clone, Copy, PartialEq, Eq, Hash, Structural)]
pub enum ShipClass {
    /// Fast interceptor: high speed, low armour, light weapons.
    Scout,
    /// All-round warship, balanced in every category.
    Destroyer,
    /// Heavy assault platform, slow but very durable with hard-hitting weapons.
    Cruiser,
    /// Lumbering juggernaut: maximum armour and firepower, minimal manoeuvrability.
    Battleship,
    /// Fleet support vessel with strong fuel reserves.
    Carrier,
}

/// Per-class numerical statistics used by the server simulation.
#[derive(Debug, Clone, Copy)]
pub struct ShipStats {
    pub max_hull: Single,
    pub max_shields: Single,
    /// Units per second at full throttle.
    pub max_speed: Single,
    /// Acceleration in units per second squared.
    pub thrust_force: Single,
    /// Rotation speed in radians per second.
    pub turn_rate: Single,
    pub primary_damage: Single,
    /// How many torpedoes can be fired per second.
    pub primary_fire_rate_hz: Single,
    /// Muzzle speed of a torpedo in units per second.
    pub primary_projectile_speed: Single,
    /// Maximum torpedo capacity, also the count on spawn.
    pub max_torpedoes: u8,
    pub phaser_damage: Single,
    /// Maximum beam range in world units.
    pub phaser_range: Single,
    /// How many phaser shots can be fired per second.
    pub phaser_fire_rate_hz: Single,
    /// Fuel drained per second while the phaser button is held.
    pub phaser_fuel_drain: Single,
    /// Fuel drained per second while cloaking; zero for ships that cannot cloak.
    pub cloak_fuel_drain: Single,
    /// Fuel cost per unit of damage absorbed by shields.
    pub shield_energy_per_damage: Single,
    pub fuel_capacity: Single,
    /// Fuel units regenerated per second at idle.
    pub fuel_regen: Single,
}

/// The statistics of each class.
pub open spec fn class_stats(class: ShipClass) -> ShipStats {
    match class {
        ShipClass::Scout => ShipStats {
            max_hull: from_whole(50),
            max_shields: from_whole(30),
            max_speed: from_whole(300),
            thrust_force: from_whole(200),
            turn_rate: from_whole(3),
            primary_damage: from_whole(15),
            primary_fire_rate_hz: from_whole(8),
            primary_projectile_speed: from_whole(333),
            max_torpedoes: 6,
            phaser_damage: from_whole(20),
            phaser_range: from_whole(200),
            phaser_fire_rate_hz: from_whole(3),
            phaser_fuel_drain: from_whole(55),
            cloak_fuel_drain: from_whole(25),
            shield_energy_per_damage: from_fraction(3, 2),
            fuel_capacity: from_whole(200),
            fuel_regen: from_whole(5),
        },
        ShipClass::Destroyer => ShipStats {
            max_hull: from_whole(100),
            max_shields: from_whole(60),
            max_speed: from_whole(220),
            thrust_force: from_whole(150),
            turn_rate: from_fraction(11, 5),
            primary_damage: from_whole(25),
            primary_fire_rate_hz: from_whole(4),
            primary_projectile_speed: from_whole(300),
            max_torpedoes: 6,
            phaser_damage: from_whole(30),
            phaser_range: from_whole(250),
            phaser_fire_rate_hz: from_whole(2),
            phaser_fuel_drain: from_whole(68),
            cloak_fuel_drain: from_whole(20),
            shield_energy_per_damage: from_whole(1),
            fuel_capacity: from_whole(300),
            fuel_regen: from_whole(8),
        },
        ShipClass::Cruiser => ShipStats {
            max_hull: from_whole(200),
            max_shields: from_whole(120),
            max_speed: from_whole(160),
            thrust_force: from_whole(110),
            turn_rate: from_fraction(3, 2),
            primary_damage: from_whole(40),
            primary_fire_rate_hz: from_whole(3),
            primary_projectile_speed: from_whole(267),
            max_torpedoes: 6,
            phaser_damage: from_whole(50),
            phaser_range: from_whole(280),
            phaser_fire_rate_hz: from_fraction(3, 2),
            phaser_fuel_drain: from_whole(77),
            cloak_fuel_drain: from_whole(28),
            shield_energy_per_damage: from_fraction(4, 5),
            fuel_capacity: from_whole(400),
            fuel_regen: from_whole(10),
        },
        ShipClass::Battleship => ShipStats {
            max_hull: from_whole(400),
            max_shields: from_whole(250),
            max_speed: from_whole(100),
            thrust_force: from_whole(80),
            turn_rate: from_fraction(4, 5),
            primary_damage: from_whole(80),
            primary_fire_rate_hz: from_fraction(8, 5),
            primary_projectile_speed: from_whole(233),
            max_torpedoes: 6,
            phaser_damage: from_whole(90),
            phaser_range: from_whole(260),
            phaser_fire_rate_hz: from_whole(1),
            phaser_fuel_drain: from_fraction(149, 2),
            cloak_fuel_drain: from_whole(0),
            shield_energy_per_damage: from_fraction(3, 5),
            fuel_capacity: from_whole(500),
            fuel_regen: from_whole(12),
        },
        ShipClass::Carrier => ShipStats {
            max_hull: from_whole(300),
            max_shields: from_whole(150),
            max_speed: from_whole(120),
            thrust_force: from_whole(90),
            turn_rate: from_whole(1),
            primary_damage: from_whole(20),
            primary_fire_rate_hz: from_whole(2),
            primary_projectile_speed: from_whole(253),
            max_torpedoes: 6,
            phaser_damage: from_whole(25),
            phaser_range: from_whole(240),
            phaser_fire_rate_hz: from_fraction(9, 5),
            phaser_fuel_drain: from_whole(101),
            cloak_fuel_drain: from_whole(0),
            shield_energy_per_damage: from_fraction(7, 10),
            fuel_capacity: from_whole(600),
            fuel_regen: from_whole(15),
        },
    }
}

/// The classes with a cloaking device.
pub open spec fn cloaks(class: ShipClass) -> bool {
    class is Scout || class is Destroyer || class is Cruiser
}

/// The display name of each class.
pub open spec fn name_of(class: ShipClass) -> Seq<char> {
    match class {
        ShipClass::Scout => "Interceptor"@,
        ShipClass::Destroyer => "Corsair"@,
        ShipClass::Cruiser => "Warlord"@,
        ShipClass::Battleship => "Dreadnought"@,
        ShipClass::Carrier => "Dominion"@,
    }
}

impl ShipClass {
    pub fn stats(self) -> (r: ShipStats)
        ensures
            r == class_stats(self),
    {
        match self {
            ShipClass::Scout => ShipStats {
                max_hull: Single::whole(50),
                max_shields: Single::whole(30),
                max_speed: Single::whole(300),
                thrust_force: Single::whole(200),
                turn_rate: Single::whole(3),
                primary_damage: Single::whole(15),
                primary_fire_rate_hz: Single::whole(8),
                primary_projectile_speed: Single::whole(333),
                max_torpedoes: 6,
                phaser_damage: Single::whole(20),
                phaser_range: Single::whole(200),
                phaser_fire_rate_hz: Single::whole(3),
                phaser_fuel_drain: Single::whole(55),
                cloak_fuel_drain: Single::whole(25),
                shield_energy_per_damage: Single::fraction(3, 2),
                fuel_capacity: Single::whole(200),
                fuel_regen: Single::whole(5),
            },
            ShipClass::Destroyer => ShipStats {
                max_hull: Single::whole(100),
                max_shields: Single::whole(60),
                max_speed: Single::whole(220),
                thrust_force: Single::whole(150),
                turn_rate: Single::fraction(11, 5),
                primary_damage: Single::whole(25),
                primary_fire_rate_hz: Single::whole(4),
                primary_projectile_speed: Single::whole(300),
                max_torpedoes: 6,
                phaser_damage: Single::whole(30),
                phaser_range: Single::whole(250),
                phaser_fire_rate_hz: Single::whole(2),
                phaser_fuel_drain: Single::whole(68),
                cloak_fuel_drain: Single::whole(20),
                shield_energy_per_damage: Single::whole(1),
                fuel_capacity: Single::whole(300),
                fuel_regen: Single::whole(8),
            },
            ShipClass::Cruiser => ShipStats {
                max_hull: Single::whole(200),
                max_shields: Single::whole(120),
                max_speed: Single::whole(160),
                thrust_force: Single::whole(110),
                turn_rate: Single::fraction(3, 2),
                primary_damage: Single::whole(40),
                primary_fire_rate_hz: Single::whole(3),
                primary_projectile_speed: Single::whole(267),
                max_torpedoes: 6,
                phaser_damage: Single::whole(50),
                phaser_range: Single::whole(280),
                phaser_fire_rate_hz: Single::fraction(3, 2),
                phaser_fuel_drain: Single::whole(77),
                cloak_fuel_drain: Single::whole(28),
                shield_energy_per_damage: Single::fraction(4, 5),
                fuel_capacity: Single::whole(400),
                fuel_regen: Single::whole(10),
            },
            ShipClass::Battleship => ShipStats {
                max_hull: Single::whole(400),
                max_shields: Single::whole(250),
                max_speed: Single::whole(100),
                thrust_force: Single::whole(80),
                turn_rate: Single::fraction(4, 5),
                primary_damage: Single::whole(80),
                primary_fire_rate_hz: Single::fraction(8, 5),
                primary_projectile_speed: Single::whole(233),
                max_torpedoes: 6,
                phaser_damage: Single::whole(90),
                phaser_range: Single::whole(260),
                phaser_fire_rate_hz: Single::whole(1),
                phaser_fuel_drain: Single::fraction(149, 2),
                cloak_fuel_drain: Single::whole(0),
                shield_energy_per_damage: Single::fraction(3, 5),
                fuel_capacity: Single::whole(500),
                fuel_regen: Single::whole(12),
            },
            ShipClass::Carrier => ShipStats {
                max_hull: Single::whole(300),
                max_shields: Single::whole(150),
                max_speed: Single::whole(120),
                thrust_force: Single::whole(90),
                turn_rate: Single::whole(1),
                primary_damage: Single::whole(20),
                primary_fire_rate_hz: Single::whole(2),
                primary_projectile_speed: Single::whole(253),
                max_torpedoes: 6,
                phaser_damage: Single::whole(25),
                phaser_range: Single::whole(240),
                phaser_fire_rate_hz: Single::fraction(9, 5),
                phaser_fuel_drain: Single::whole(101),
                cloak_fuel_drain: Single::whole(0),
                shield_energy_per_damage: Single::fraction(7, 10),
                fuel_capacity: Single::whole(600),
                fuel_regen: Single::whole(15),
            },
        }
    }

    /// Whether this class has a cloaking device.
    pub fn can_cloak(self) -> (r: bool)
        ensures
            r == cloaks(self),
    {
        matches!(self, ShipClass::Scout | ShipClass::Destroyer | ShipClass::Cruiser)
    }

    /// Human-readable display name for the class.
    pub fn display_name(self) -> (r: &'static str)
        ensures
            r@ == name_of(self),
    {
        match self {
            ShipClass::Scout => "Interceptor",
            ShipClass::Destroyer => "Corsair",
            ShipClass::Cruiser => "Warlord",
            ShipClass::Battleship => "Dreadnought",
            ShipClass::Carrier => "Dominion",
        }
    }
}

/// Discriminates the kind of object represented by an [`EntityState`].
#[derive(Debug, Clone, Copy, PartialEq, Eq, Structural)]
pub enum EntityKind {
    Ship,
    Torpedo,
    /// Instant-hit beam weapon; `vx` carries the beam length.
    Phaser,
    Drone,
    Explosion,
    /// Short-lived tumbling wreckage; `damage` carries its angular velocity.
    Debris,
    Asteroid,
    /// `vx` carries the radius and `vy` the visual type.
    Planet,
}

/// Complete state of one world object, broadcast to all clients every tick.
#[derive(Debug, Clone, Copy)]
pub struct EntityState {
    pub id: EntityId,
    pub kind: EntityKind,
    pub x: Single,
    pub y: Single,
    pub vx: Single,
    pub vy: Single,
    /// Heading in radians.
    pub angle: Single,
    /// Present only for ships; carries per-player combat stats.
    pub ship_info: Option<ShipInfo>,
}

/// Per-ship combat stats embedded in [`EntityState`].
#[derive(Debug, Clone, Copy)]
pub struct ShipInfo {
    pub player_id: PlayerId,
    pub class: ShipClass,
    pub hull: Single,
    pub shields: Single,
    pub fuel: Single,
    /// Whether the ship is cloaked; true only in the owner's own snapshot.
    pub cloaked: bool,
    /// Whether the shields are switched on.
    pub shields_on: bool,
    /// Torpedoes available to fire.
    pub torpedo_count: u8,
    /// Whether the phaser beam is locked onto a target.
    pub phaser_locked: bool,
}

} // verus!
