//! Which sounds a client plays, and how loud.
use vstd::prelude::*;

use crate::game::{
    class_stats, world_side, world_width, EntityId, EntityKind, EntityState, PlayerId, ShipInfo,
    ShipStats,
};
use crate::oracle::{
    lemma_follows, lemma_since_chain, lemma_since_now, lemma_past, past, told, Ask, Oracle, Trace,
};
use crate::single::{
    absolute, clamped, difference, from_fraction, from_whole, greater, le, lesser, lt, quotient,
    zero, Single,
};

verus! {

broadcast use lemma_follows;

/// The sounds of the game.
#[derive(Debug, Clone, Copy, PartialEq, Eq, Structural)]
pub enum Sound {
    TorpedoFire,
    PhaserFire,
    Explosion,
    Debris,
    ShipAsteroidHit,
    ShipPlanetHit,
    TorpedoDetonation,
    CloakOn,
    CloakOff,
    EnterGame,
    ShieldsLow,
    FuelLow,
}

/// A sound to be played.
#[derive(Debug, Clone, Copy)]
pub struct Cue {
    pub sound: Sound,
    /// From zero to one.
    pub volume: Single,
}

/// What was last seen of the player's own ship.
#[derive(Debug, Clone, Copy)]
pub struct Gauges {
    pub cloaked: bool,
    pub hull: Single,
    /// The warning of low shields has been given; cleared on recovery.
    pub shields_low: bool,
    /// The warning of low fuel has been given; cleared on recovery.
    pub fuel_low: bool,
}

/// Where a torpedo was last seen.
#[derive(Debug, Clone, Copy)]
pub struct Track {
    pub id: EntityId,
    pub x: Single,
    pub y: Single,
}

/// What was there in the previous snapshot.
#[derive(Debug)]
pub struct Ears {
    pub entity_ids: Vec<EntityId>,
    pub torpedoes: Vec<Track>,
    pub gauges: Gauges,
}

/// The gauges while there is no ship.
pub open spec fn no_gauges() -> Gauges {
    Gauges { cloaked: false, hull: zero(), shields_low: false, fuel_low: false }
}

/// The ids of the entities.
pub open spec fn entity_ids(es: Seq<EntityState>) -> Seq<EntityId> {
    es.map_values(|e: EntityState| e.id)
}

/// The torpedoes among the entities.
pub open spec fn tracks(es: Seq<EntityState>) -> Seq<Track>
    decreases es.len(),
{
    if es.len() == 0 {
        Seq::empty()
    } else if es.last().kind == EntityKind::Torpedo {
        let e = es.last();
        tracks(es.drop_last()).push(Track { id: e.id, x: e.x, y: e.y })
    } else {
        tracks(es.drop_last())
    }
}

/// Whether an entity is the ship of a player.
pub open spec fn is_own(e: EntityState, id: PlayerId) -> bool {
    e.ship_info matches Some(info) && info.player_id == id
}

/// The ship of a player among the entities.
pub open spec fn own_ship(es: Seq<EntityState>, id: Option<PlayerId>) -> Option<EntityState>
    decreases es.len(),
{
    match id {
        Some(pid) => if es.len() == 0 {
            None
        } else {
            match own_ship(es.drop_last(), id) {
                Some(e) => Some(e),
                None => if is_own(es.last(), pid) {
                    Some(es.last())
                } else {
                    None
                },
            }
        },
        None => None,
    }
}

/// The volume of a sound at a distance: full within two hundred units, silent at three thousand.
pub open spec fn attenuated(dist: Single) -> Single {
    if le(dist, from_whole(200)) {
        from_whole(1)
    } else {
        greater(
            difference(
                from_whole(1),
                quotient(difference(dist, from_whole(200)), from_whole(2800)),
            ),
            zero(),
        )
    }
}

/// The volume of a sound at a place.
pub open spec fn volume_at(cam_x: Single, cam_y: Single, x: Single, y: Single, t: Trace) -> (
    Single,
    Trace,
) {
    let q = Ask::Hypot(difference(x, cam_x), difference(y, cam_y));
    (attenuated(told(t, 0, q)), past(t, seq![q]))
}

/// A sound at a volume.
pub open spec fn cue(sound: Sound, volume: Single) -> Cue {
    Cue { sound, volume: clamped(volume, zero(), from_whole(1)) }
}

/// A sound at full volume.
pub open spec fn loud(sound: Sound) -> Cue {
    cue(sound, from_whole(1))
}

/// What has been heard so far of the new entities: the cues, and whether debris was among them.
#[verifier::ext_equal]
pub struct Heard {
    pub cues: Seq<Cue>,
    pub debris: bool,
}

/// A sound with the volume of its place is heard.
pub open spec fn heard_at(
    h: Heard,
    sound: Sound,
    cam_x: Single,
    cam_y: Single,
    e: EntityState,
    t: Trace,
) -> (Heard, Trace) {
    let (v, t1) = volume_at(cam_x, cam_y, e.x, e.y, t);
    (Heard { cues: h.cues.push(cue(sound, v)), debris: h.debris || sound == Sound::Debris }, t1)
}

/// What a new entity lets be heard: torpedoes, explosions, the player's own phaser, and debris
/// once.
pub open spec fn heard_new(
    h: Heard,
    e: EntityState,
    me: Option<EntityState>,
    cam_x: Single,
    cam_y: Single,
    t: Trace,
) -> (Heard, Trace) {
    match e.kind {
        EntityKind::Torpedo => heard_at(h, Sound::TorpedoFire, cam_x, cam_y, e, t),
        EntityKind::Explosion => heard_at(h, Sound::Explosion, cam_x, cam_y, e, t),
        EntityKind::Debris => if h.debris {
            (h, t)
        } else {
            heard_at(h, Sound::Debris, cam_x, cam_y, e, t)
        },
        EntityKind::Phaser => match me {
            Some(ship) => {
                let q = Ask::Hypot(difference(ship.x, e.x), difference(ship.y, e.y));
                (
                    if lt(told(t, 0, q), from_whole(150)) {
                        Heard { cues: h.cues.push(loud(Sound::PhaserFire)), ..h }
                    } else {
                        h
                    },
                    past(t, seq![q]),
                )
            },
            None => (h, t),
        },
        _ => (h, t),
    }
}

/// What the new entities let be heard.
pub open spec fn heard_all(
    es: Seq<EntityState>,
    known: Seq<EntityId>,
    me: Option<EntityState>,
    cam_x: Single,
    cam_y: Single,
    t: Trace,
) -> (Heard, Trace)
    decreases es.len(),
{
    if es.len() == 0 {
        (Heard { cues: Seq::empty(), debris: false }, t)
    } else {
        let (h, t1) = heard_all(es.drop_last(), known, me, cam_x, cam_y, t);
        if known.contains(es.last().id) {
            (h, t1)
        } else {
            heard_new(h, es.last(), me, cam_x, cam_y, t1)
        }
    }
}

/// Whether a new explosion is near a place.
pub open spec fn burst_near(
    es: Seq<EntityState>,
    known: Seq<EntityId>,
    x: Single,
    y: Single,
    t: Trace,
) -> (bool, Trace)
    decreases es.len(),
{
    if es.len() == 0 {
        (false, t)
    } else {
        let (near, t1) = burst_near(es.drop_last(), known, x, y, t);
        let e = es.last();
        if e.kind == EntityKind::Explosion && !known.contains(e.id) {
            let q = Ask::Hypot(difference(e.x, x), difference(e.y, y));
            (near || lt(told(t1, 0, q), from_whole(300)), past(t1, seq![q]))
        } else {
            (near, t1)
        }
    }
}

/// The detonations of the torpedoes that are gone with a new explosion near their last place.
pub open spec fn detonations(
    tracks: Seq<Track>,
    es: Seq<EntityState>,
    known: Seq<EntityId>,
    cam_x: Single,
    cam_y: Single,
    t: Trace,
) -> (Seq<Cue>, Trace)
    decreases tracks.len(),
{
    if tracks.len() == 0 {
        (Seq::empty(), t)
    } else {
        let (cues, t1) = detonations(tracks.drop_last(), es, known, cam_x, cam_y, t);
        let k = tracks.last();
        if entity_ids(es).contains(k.id) {
            (cues, t1)
        } else {
            let (near, t2) = burst_near(es, known, k.x, k.y, t1);
            if near {
                let (v, t3) = volume_at(cam_x, cam_y, k.x, k.y, t2);
                (cues.push(cue(Sound::TorpedoDetonation, v)), t3)
            } else {
                (cues, t2)
            }
        }
    }
}

/// The distance of two coordinates on the torus.
pub open spec fn around(a: Single, b: Single) -> Single {
    let d = absolute(difference(a, b));
    lesser(d, difference(world_side(), d))
}

/// The greatest number that is not infinite.
pub open spec fn far() -> Single {
    Single { bits: 0x7f7f_ffff }
}

/// The distance from a ship to the nearest entity of a kind.
pub open spec fn nearest_of(es: Seq<EntityState>, kind: EntityKind, me: EntityState, t: Trace) -> (
    Single,
    Trace,
)
    decreases es.len(),
{
    if es.len() == 0 {
        (far(), t)
    } else {
        let (d, t1) = nearest_of(es.drop_last(), kind, me, t);
        let e = es.last();
        if e.kind == kind {
            let q = Ask::Hypot(around(e.x, me.x), around(e.y, me.y));
            (lesser(d, told(t1, 0, q)), past(t1, seq![q]))
        } else {
            (d, t1)
        }
    }
}

/// What is heard when the hull has lost: the planet or the asteroid that is nearest.
pub open spec fn bump_cues(
    es: Seq<EntityState>,
    me: EntityState,
    before: Single,
    now: Single,
    t: Trace,
) -> (Seq<Cue>, Trace) {
    if lt(now, before) && lt(zero(), before) {
        let (rock, t1) = nearest_of(es, EntityKind::Asteroid, me, t);
        let (planet, t2) = nearest_of(es, EntityKind::Planet, me, t1);
        (
            if lt(planet, from_whole(200)) && le(planet, rock) {
                seq![loud(Sound::ShipPlanetHit)]
            } else if lt(rock, from_whole(500)) {
                seq![loud(Sound::ShipAsteroidHit)]
            } else {
                Seq::empty()
            },
            t2,
        )
    } else {
        (Seq::empty(), t)
    }
}

/// What is heard of the cloak.
pub open spec fn cloak_cues(before: bool, now: bool) -> Seq<Cue> {
    if now && !before {
        seq![loud(Sound::CloakOn)]
    } else if !now && before {
        seq![loud(Sound::CloakOff)]
    } else {
        Seq::empty()
    }
}

/// Whether a warning stands after a reading: it is given below one mark, and taken back from
/// another on.
pub open spec fn warned(before: bool, level: Single, low: Single, high: Single) -> bool {
    if lt(level, low) && !before {
        true
    } else if le(high, level) {
        false
    } else {
        before
    }
}

/// The warning itself, when it is given.
pub open spec fn warning_cues(before: bool, level: Single, low: Single, sound: Sound) -> Seq<Cue> {
    if lt(level, low) && !before {
        seq![loud(sound)]
    } else {
        Seq::empty()
    }
}

/// What is left of the shields, as a share of the maximum.
pub open spec fn shield_level(info: ShipInfo) -> Single {
    quotient(info.shields, class_stats(info.class).max_shields)
}

/// What is left of the fuel, as a share of the maximum.
pub open spec fn fuel_level(info: ShipInfo) -> Single {
    quotient(info.fuel, class_stats(info.class).fuel_capacity)
}

/// What is heard of the player's own ship, and what is remembered of it.
pub open spec fn own_cues(
    es: Seq<EntityState>,
    me: Option<EntityState>,
    g: Gauges,
    t: Trace,
) -> (Seq<Cue>, Gauges, Trace) {
    match me {
        Some(ship) => match ship.ship_info {
            Some(info) => {
                let (bumps, t1) = bump_cues(es, ship, g.hull, info.hull, t);
                let tenth = from_fraction(1, 10);
                let shields = shield_level(info);
                let fuel = fuel_level(info);
                let twentieth = from_fraction(1, 20);
                (
                    cloak_cues(g.cloaked, info.cloaked) + bumps + warning_cues(
                        g.shields_low,
                        shields,
                        tenth,
                        Sound::ShieldsLow,
                    ) + warning_cues(g.fuel_low, fuel, twentieth, Sound::FuelLow),
                    Gauges {
                        cloaked: info.cloaked,
                        hull: info.hull,
                        shields_low: warned(g.shields_low, shields, tenth, from_fraction(1, 5)),
                        fuel_low: warned(g.fuel_low, fuel, twentieth, tenth),
                    },
                    t1,
                )
            },
            None => (Seq::empty(), no_gauges(), t),
        },
        None => (Seq::empty(), no_gauges(), t),
    }
}

/// Everything that is heard of a snapshot, and what is remembered of the ship.
pub open spec fn all_cues(
    es: Seq<EntityState>,
    id: Option<PlayerId>,
    cam_x: Single,
    cam_y: Single,
    ears: Ears,
    entered: bool,
    t: Trace,
) -> (Seq<Cue>, Gauges, Trace) {
    let me = own_ship(es, id);
    let (h, t1) = heard_all(es, ears.entity_ids@, me, cam_x, cam_y, t);
    let (dets, t2) = detonations(ears.torpedoes@, es, ears.entity_ids@, cam_x, cam_y, t1);
    let (own, g, t3) = own_cues(es, me, ears.gauges, t2);
    let entry = if entered {
        seq![loud(Sound::EnterGame)]
    } else {
        Seq::empty()
    };
    (h.cues + dets + own + entry, g, t3)
}

/// A warning is given once: when it stands it is not given again before the level has recovered.
pub proof fn law_warnings_are_given_once(before: bool, level: Single, low: Single, high: Single)
    requires
        lt(low, high),
    ensures
        before ==> warning_cues(before, level, low, Sound::FuelLow).len() == 0,
        before && !warned(before, level, low, high) ==> le(high, level),
        warning_cues(before, level, low, Sound::FuelLow).len() > 0 ==> warned(
            before,
            level,
            low,
            high,
        ),
{
}

fn has_id(ids: &Vec<EntityId>, id: EntityId) -> (r: bool)
    ensures
        r == ids@.contains(id),
{
    let mut i: usize = 0;
    while i < ids.len()
        invariant
            i <= ids.len(),
            forall|j: int| 0 <= j < i ==> ids@[j] != id,
        decreases ids.len() - i,
    {
        if ids[i] == id {
            return true;
        }
        i = i + 1;
    }
    false
}

/// The ship of a player among the entities.
pub fn find_own_ship(es: &Vec<EntityState>, id: Option<PlayerId>) -> (r: Option<EntityState>)
    ensures
        r == own_ship(es@, id),
{
    let pid: PlayerId = match id {
        Some(pid) => pid,
        None => {
            return None;
        },
    };
    let mut r: Option<EntityState> = None;
    let mut i: usize = 0;
    while i < es.len()
        invariant
            i <= es.len(),
            id == Some(pid),
            r == own_ship(es@.take(i as int), id),
        decreases es.len() - i,
    {
        let e: EntityState = es[i];
        let own: bool = match e.ship_info {
            Some(info) => info.player_id == pid,
            None => false,
        };
        proof {
            assert(es@.take(i + 1).drop_last() =~= es@.take(i as int));
        }
        if r.is_none() && own {
            r = Some(e);
        }
        i = i + 1;
    }
    proof {
        assert(es@.take(i as int) =~= es@);
    }
    r
}

/// The volume of a sound at a place.
pub fn spatial_volume<F: Fn(Ask) -> Single>(
    cam_x: Single,
    cam_y: Single,
    ex: Single,
    ey: Single,
    oracle: &mut Oracle<F>,
) -> (r: Single)
    ensures
        final(oracle).follows(*old(oracle)),
        forall|rest: Trace| #[trigger]
            volume_at(cam_x, cam_y, ex, ey, final(oracle).since(*old(oracle)) + rest) == (r, rest),
{
    let dist: Single = oracle.ask(Ask::Hypot(ex.minus(cam_x), ey.minus(cam_y)));
    proof {
        let tr = oracle.since(*old(oracle));
        lemma_past(tr);
    }
    let full: Single = Single::whole(200);
    if dist.is_at_most(full) {
        Single::whole(1)
    } else {
        Single::whole(1).minus(dist.minus(full).over(Single::whole(2800))).max(Single::nought())
    }
}

impl Cue {
    /// A sound at a volume.
    pub fn new(sound: Sound, volume: Single) -> (r: Cue)
        ensures
            r == cue(sound, volume),
    {
        Cue { sound, volume: volume.clamp(Single::nought(), Single::whole(1)) }
    }

    /// A sound at full volume.
    pub fn loud(sound: Sound) -> (r: Cue)
        ensures
            r == loud(sound),
    {
        Cue::new(sound, Single::whole(1))
    }
}

fn hear_new<F: Fn(Ask) -> Single>(
    cues: &mut Vec<Cue>,
    debris: bool,
    e: &EntityState,
    me: &Option<EntityState>,
    cam_x: Single,
    cam_y: Single,
    oracle: &mut Oracle<F>,
) -> (r: bool)
    ensures
        final(oracle).follows(*old(oracle)),
        forall|rest: Trace| #[trigger]
            heard_new(
                Heard { cues: old(cues)@, debris },
                *e,
                *me,
                cam_x,
                cam_y,
                final(oracle).since(*old(oracle)) + rest,
            ) == (Heard { cues: final(cues)@, debris: r }, rest),
{
    proof {
        lemma_since_now(*oracle);
    }
    let sound: Option<Sound> = match e.kind {
        EntityKind::Torpedo => Some(Sound::TorpedoFire),
        EntityKind::Explosion => Some(Sound::Explosion),
        EntityKind::Debris => if debris {
            None
        } else {
            Some(Sound::Debris)
        },
        _ => None,
    };
    if let Some(s) = sound {
        let v: Single = spatial_volume(cam_x, cam_y, e.x, e.y, oracle);
        cues.push(Cue::new(s, v));
        return debris || s == Sound::Debris;
    }
    if e.kind == EntityKind::Phaser {
        if let Some(ship) = me {
            let dist: Single = oracle.ask(Ask::Hypot(ship.x.minus(e.x), ship.y.minus(e.y)));
            proof {
                let tr = oracle.since(*old(oracle));
                lemma_past(tr);
            }
            if dist.is_less(Single::whole(150)) {
                cues.push(Cue::loud(Sound::PhaserFire));
            }
        }
    }
    debris
}

fn hear_all<F: Fn(Ask) -> Single>(
    es: &Vec<EntityState>,
    known: &Vec<EntityId>,
    me: &Option<EntityState>,
    cam_x: Single,
    cam_y: Single,
    oracle: &mut Oracle<F>,
) -> (r: (Vec<Cue>, bool))
    ensures
        final(oracle).follows(*old(oracle)),
        forall|rest: Trace| #[trigger]
            heard_all(
                es@,
                known@,
                *me,
                cam_x,
                cam_y,
                final(oracle).since(*old(oracle)) + rest,
            ) == (Heard { cues: r.0@, debris: r.1 }, rest),
{
    proof {
        lemma_since_now(*oracle);
    }
    let mut cues: Vec<Cue> = Vec::new();
    let mut debris: bool = false;
    let mut i: usize = 0;
    while i < es.len()
        invariant
            i <= es.len(),
            oracle.follows(*old(oracle)),
            forall|rest: Trace| #[trigger]
                heard_all(
                    es@.take(i as int),
                    known@,
                    *me,
                    cam_x,
                    cam_y,
                    oracle.since(*old(oracle)) + rest,
                ) == (Heard { cues: cues@, debris }, rest),
        decreases es.len() - i,
    {
        let ghost before = *oracle;
        let ghost h = Heard { cues: cues@, debris };
        proof {
            lemma_since_now(*oracle);
        }
        let e: EntityState = es[i];
        if !has_id(known, e.id) {
            debris = hear_new(&mut cues, debris, &e, me, cam_x, cam_y, oracle);
        }
        i = i + 1;
        proof {
            lemma_since_chain(*old(oracle), before, *oracle);
            assert(es@.take(i as int).drop_last() =~= es@.take(i - 1));
            assert forall|rest: Trace| #[trigger]
                heard_all(
                    es@.take(i as int),
                    known@,
                    *me,
                    cam_x,
                    cam_y,
                    oracle.since(*old(oracle)) + rest,
                ) == (Heard { cues: cues@, debris }, rest) by {
                let next = oracle.since(before) + rest;
                assert(heard_all(
                    es@.take(i - 1),
                    known@,
                    *me,
                    cam_x,
                    cam_y,
                    before.since(*old(oracle)) + next,
                ) == (h, next));
            }
        }
    }
    proof {
        assert(es@.take(i as int) =~= es@);
    }
    (cues, debris)
}

fn is_burst_near<F: Fn(Ask) -> Single>(
    es: &Vec<EntityState>,
    known: &Vec<EntityId>,
    x: Single,
    y: Single,
    oracle: &mut Oracle<F>,
) -> (r: bool)
    ensures
        final(oracle).follows(*old(oracle)),
        forall|rest: Trace| #[trigger]
            burst_near(es@, known@, x, y, final(oracle).since(*old(oracle)) + rest) == (r, rest),
{
    proof {
        lemma_since_now(*oracle);
    }
    let mut near: bool = false;
    let mut i: usize = 0;
    while i < es.len()
        invariant
            i <= es.len(),
            oracle.follows(*old(oracle)),
            forall|rest: Trace| #[trigger]
                burst_near(
                    es@.take(i as int),
                    known@,
                    x,
                    y,
                    oracle.since(*old(oracle)) + rest,
                ) == (near, rest),
        decreases es.len() - i,
    {
        let ghost before = *oracle;
        let ghost so_far = near;
        proof {
            lemma_since_now(*oracle);
        }
        let e: EntityState = es[i];
        if e.kind == EntityKind::Explosion && !has_id(known, e.id) {
            let dist: Single = oracle.ask(Ask::Hypot(e.x.minus(x), e.y.minus(y)));
            proof {
                let tr = oracle.since(before);
                lemma_past(tr);
            }
            near = near || dist.is_less(Single::whole(300));
        }
        i = i + 1;
        proof {
            lemma_since_chain(*old(oracle), before, *oracle);
            assert(es@.take(i as int).drop_last() =~= es@.take(i - 1));
            assert forall|rest: Trace| #[trigger]
                burst_near(
                    es@.take(i as int),
                    known@,
                    x,
                    y,
                    oracle.since(*old(oracle)) + rest,
                ) == (near, rest) by {
                let next = oracle.since(before) + rest;
                assert(burst_near(
                    es@.take(i - 1),
                    known@,
                    x,
                    y,
                    before.since(*old(oracle)) + next,
                ) == (so_far, next));
            }
        }
    }
    proof {
        assert(es@.take(i as int) =~= es@);
    }
    near
}

/// The ids of the entities.
fn list_ids(es: &Vec<EntityState>) -> (r: Vec<EntityId>)
    ensures
        r@ == entity_ids(es@),
{
    let mut r: Vec<EntityId> = Vec::new();
    let mut i: usize = 0;
    while i < es.len()
        invariant
            i <= es.len(),
            r@ == entity_ids(es@.take(i as int)),
        decreases es.len() - i,
    {
        r.push(es[i].id);
        i = i + 1;
        proof {
            assert(r@ =~= entity_ids(es@.take(i as int)));
        }
    }
    proof {
        assert(es@.take(i as int) =~= es@);
    }
    r
}

/// The torpedoes among the entities.
fn list_torpedoes(es: &Vec<EntityState>) -> (r: Vec<Track>)
    ensures
        r@ == tracks(es@),
{
    let mut r: Vec<Track> = Vec::new();
    let mut i: usize = 0;
    while i < es.len()
        invariant
            i <= es.len(),
            r@ == tracks(es@.take(i as int)),
        decreases es.len() - i,
    {
        let e: EntityState = es[i];
        proof {
            assert(es@.take(i + 1).drop_last() =~= es@.take(i as int));
        }
        if e.kind == EntityKind::Torpedo {
            r.push(Track { id: e.id, x: e.x, y: e.y });
        }
        i = i + 1;
    }
    proof {
        assert(es@.take(i as int) =~= es@);
    }
    r
}

fn hear_detonations<F: Fn(Ask) -> Single>(
    ks: &Vec<Track>,
    es: &Vec<EntityState>,
    ids: &Vec<EntityId>,
    known: &Vec<EntityId>,
    cam_x: Single,
    cam_y: Single,
    oracle: &mut Oracle<F>,
) -> (r: Vec<Cue>)
    requires
        ids@ == entity_ids(es@),
    ensures
        final(oracle).follows(*old(oracle)),
        forall|rest: Trace| #[trigger]
            detonations(
                ks@,
                es@,
                known@,
                cam_x,
                cam_y,
                final(oracle).since(*old(oracle)) + rest,
            ) == (r@, rest),
{
    proof {
        lemma_since_now(*oracle);
    }
    let mut cues: Vec<Cue> = Vec::new();
    let mut i: usize = 0;
    while i < ks.len()
        invariant
            i <= ks.len(),
            ids@ == entity_ids(es@),
            oracle.follows(*old(oracle)),
            forall|rest: Trace| #[trigger]
                detonations(
                    ks@.take(i as int),
                    es@,
                    known@,
                    cam_x,
                    cam_y,
                    oracle.since(*old(oracle)) + rest,
                ) == (cues@, rest),
        decreases ks.len() - i,
    {
        let ghost before = *oracle;
        let ghost so_far = cues@;
        proof {
            lemma_since_now(*oracle);
        }
        let k: Track = ks[i];
        if !has_id(ids, k.id) {
            let near: bool = is_burst_near(es, known, k.x, k.y, oracle);
            let ghost middle = *oracle;
            if near {
                let v: Single = spatial_volume(cam_x, cam_y, k.x, k.y, oracle);
                cues.push(Cue::new(Sound::TorpedoDetonation, v));
            } else {
                proof {
                    lemma_since_now(*oracle);
                }
            }
            proof {
                lemma_since_chain(before, middle, *oracle);
            }
        }
        i = i + 1;
        proof {
            lemma_since_chain(*old(oracle), before, *oracle);
            assert(ks@.take(i as int).drop_last() =~= ks@.take(i - 1));
            assert forall|rest: Trace| #[trigger]
                detonations(
                    ks@.take(i as int),
                    es@,
                    known@,
                    cam_x,
                    cam_y,
                    oracle.since(*old(oracle)) + rest,
                ) == (cues@, rest) by {
                let next = oracle.since(before) + rest;
                assert(detonations(
                    ks@.take(i - 1),
                    es@,
                    known@,
                    cam_x,
                    cam_y,
                    before.since(*old(oracle)) + next,
                ) == (so_far, next));
            }
        }
    }
    proof {
        assert(ks@.take(i as int) =~= ks@);
    }
    cues
}

fn torus_gap(a: Single, b: Single) -> (r: Single)
    ensures
        r == around(a, b),
{
    let d: Single = a.minus(b).abs();
    d.min(world_width().minus(d))
}

fn find_nearest_of<F: Fn(Ask) -> Single>(
    es: &Vec<EntityState>,
    kind: EntityKind,
    me: &EntityState,
    oracle: &mut Oracle<F>,
) -> (r: Single)
    ensures
        final(oracle).follows(*old(oracle)),
        forall|rest: Trace| #[trigger]
            nearest_of(es@, kind, *me, final(oracle).since(*old(oracle)) + rest) == (r, rest),
{
    proof {
        lemma_since_now(*oracle);
    }
    let mut best: Single = Single { bits: 0x7f7f_ffff };
    let mut i: usize = 0;
    while i < es.len()
        invariant
            i <= es.len(),
            oracle.follows(*old(oracle)),
            forall|rest: Trace| #[trigger]
                nearest_of(es@.take(i as int), kind, *me, oracle.since(*old(oracle)) + rest) == (
                    best,
                    rest,
                ),
        decreases es.len() - i,
    {
        let ghost before = *oracle;
        let ghost so_far = best;
        proof {
            lemma_since_now(*oracle);
        }
        let e: EntityState = es[i];
        if e.kind == kind {
            let dist: Single = oracle.ask(
                Ask::Hypot(torus_gap(e.x, me.x), torus_gap(e.y, me.y)),
            );
            proof {
                let tr = oracle.since(before);
                lemma_past(tr);
            }
            best = best.min(dist);
        }
        i = i + 1;
        proof {
            lemma_since_chain(*old(oracle), before, *oracle);
            assert(es@.take(i as int).drop_last() =~= es@.take(i - 1));
            assert forall|rest: Trace| #[trigger]
                nearest_of(es@.take(i as int), kind, *me, oracle.since(*old(oracle)) + rest) == (
                    best,
                    rest,
                ) by {
                let next = oracle.since(before) + rest;
                assert(nearest_of(
                    es@.take(i - 1),
                    kind,
                    *me,
                    before.since(*old(oracle)) + next,
                ) == (so_far, next));
            }
        }
    }
    proof {
        assert(es@.take(i as int) =~= es@);
    }
    best
}

fn hear_bump<F: Fn(Ask) -> Single>(
    cues: &mut Vec<Cue>,
    es: &Vec<EntityState>,
    me: &EntityState,
    before: Single,
    now: Single,
    oracle: &mut Oracle<F>,
)
    ensures
        final(oracle).follows(*old(oracle)),
        exists|more: Seq<Cue>|
            final(cues)@ == old(cues)@ + more && forall|rest: Trace| #[trigger]
                bump_cues(es@, *me, before, now, final(oracle).since(*old(oracle)) + rest) == (
                    more,
                    rest,
                ),
{
    let ghost mut more: Seq<Cue> = Seq::empty();
    if now.is_less(before) && Single::nought().is_less(before) {
        let rock: Single = find_nearest_of(es, EntityKind::Asteroid, me, oracle);
        let ghost middle = *oracle;
        let planet: Single = find_nearest_of(es, EntityKind::Planet, me, oracle);
        proof {
            lemma_since_chain(*old(oracle), middle, *oracle);
        }
        if planet.is_less(Single::whole(200)) && planet.is_at_most(rock) {
            cues.push(Cue::loud(Sound::ShipPlanetHit));
            proof {
                more = seq![loud(Sound::ShipPlanetHit)];
            }
        } else if rock.is_less(Single::whole(500)) {
            cues.push(Cue::loud(Sound::ShipAsteroidHit));
            proof {
                more = seq![loud(Sound::ShipAsteroidHit)];
            }
        }
    } else {
        proof {
            lemma_since_now(*oracle);
        }
    }
    proof {
        assert(cues@ =~= old(cues)@ + more);
        assert forall|rest: Trace| #[trigger]
            bump_cues(es@, *me, before, now, oracle.since(*old(oracle)) + rest) == (more, rest) by {
        }
    }
}

/// Gives a warning when a level has fallen below a mark; tells whether the warning stands.
fn warn(
    cues: &mut Vec<Cue>,
    before: bool,
    level: Single,
    low: Single,
    high: Single,
    sound: Sound,
) -> (r: bool)
    ensures
        r == warned(before, level, low, high),
        final(cues)@ == old(cues)@ + warning_cues(before, level, low, sound),
{
    if level.is_less(low) && !before {
        cues.push(Cue::loud(sound));
        assert(cues@ =~= old(cues)@ + warning_cues(before, level, low, sound));
        true
    } else {
        assert(cues@ =~= old(cues)@ + warning_cues(before, level, low, sound));
        if high.is_at_most(level) {
            false
        } else {
            before
        }
    }
}

fn hear_own<F: Fn(Ask) -> Single>(
    es: &Vec<EntityState>,
    me: &Option<EntityState>,
    g: &Gauges,
    oracle: &mut Oracle<F>,
) -> (r: (Vec<Cue>, Gauges))
    ensures
        final(oracle).follows(*old(oracle)),
        forall|rest: Trace| #[trigger]
            own_cues(es@, *me, *g, final(oracle).since(*old(oracle)) + rest) == (
                r.0@,
                r.1,
                rest,
            ),
{
    let mut cues: Vec<Cue> = Vec::new();
    if let Some(ship) = me {
        if let Some(info) = ship.ship_info {
            let stats: ShipStats = info.class.stats();
            if info.cloaked && !g.cloaked {
                cues.push(Cue::loud(Sound::CloakOn));
            } else if !info.cloaked && g.cloaked {
                cues.push(Cue::loud(Sound::CloakOff));
            }
            assert(cues@ =~= cloak_cues(g.cloaked, info.cloaked));
            hear_bump(&mut cues, es, ship, g.hull, info.hull, oracle);
            let tenth: Single = Single::fraction(1, 10);
            let shields_low: bool = warn(
                &mut cues,
                g.shields_low,
                info.shields.over(stats.max_shields),
                tenth,
                Single::fraction(1, 5),
                Sound::ShieldsLow,
            );
            let fuel_low: bool = warn(
                &mut cues,
                g.fuel_low,
                info.fuel.over(stats.fuel_capacity),
                Single::fraction(1, 20),
                tenth,
                Sound::FuelLow,
            );
            return (
                cues,
                Gauges { cloaked: info.cloaked, hull: info.hull, shields_low, fuel_low },
            );
        }
    }
    proof {
        lemma_since_now(*oracle);
    }
    (
        cues,
        Gauges { cloaked: false, hull: Single::nought(), shields_low: false, fuel_low: false },
    )
}

impl Ears {
    pub fn new() -> (r: Ears)
        ensures
            r.entity_ids@.len() == 0,
            r.torpedoes@.len() == 0,
            r.gauges == no_gauges(),
    {
        Ears {
            entity_ids: Vec::new(),
            torpedoes: Vec::new(),
            gauges: Gauges {
                cloaked: false,
                hull: Single::nought(),
                shields_low: false,
                fuel_low: false,
            },
        }
    }

    /// Finds the sounds of a snapshot, and remembers what the next one is held against.
    pub fn process_sound_events<F: Fn(Ask) -> Single>(
        &mut self,
        es: &Vec<EntityState>,
        my_id: Option<PlayerId>,
        cam_x: Single,
        cam_y: Single,
        entered: bool,
        oracle: &mut Oracle<F>,
    ) -> (r: Vec<Cue>)
        ensures
            final(oracle).follows(*old(oracle)),
            forall|rest: Trace| #[trigger]
                all_cues(
                    es@,
                    my_id,
                    cam_x,
                    cam_y,
                    *old(self),
                    entered,
                    final(oracle).since(*old(oracle)) + rest,
                ) == (r@, final(self).gauges, rest),
            final(self).entity_ids@ == entity_ids(es@),
            final(self).torpedoes@ == tracks(es@),
    {
        let ids: Vec<EntityId> = list_ids(es);
        let me: Option<EntityState> = find_own_ship(es, my_id);
        let (heard, _debris) = hear_all(es, &self.entity_ids, &me, cam_x, cam_y, oracle);
        let ghost h = heard@;
        let ghost o1 = *oracle;
        let mut dets: Vec<Cue> = hear_detonations(
            &self.torpedoes,
            es,
            &ids,
            &self.entity_ids,
            cam_x,
            cam_y,
            oracle,
        );
        let ghost d = dets@;
        let ghost o2 = *oracle;
        let (mut own, gauges) = hear_own(es, &me, &self.gauges, oracle);
        let ghost w = own@;
        proof {
            lemma_since_chain(o1, o2, *oracle);
            lemma_since_chain(*old(oracle), o1, *oracle);
        }
        let mut cues: Vec<Cue> = heard;
        cues.append(&mut dets);
        cues.append(&mut own);
        if entered {
            cues.push(Cue::loud(Sound::EnterGame));
        }
        proof {
            let entry = if entered {
                seq![loud(Sound::EnterGame)]
            } else {
                Seq::empty()
            };
            assert(cues@ =~= h + d + w + entry);
        }
        self.entity_ids = ids;
        self.torpedoes = list_torpedoes(es);
        self.gauges = gauges;
        cues
    }
}

} // verus!
