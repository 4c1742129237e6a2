//! The state of a client, and how messages and frames change it.
use vstd::prelude::*;
use vstd::string::*;

use crate::controls::{first_controls, switched, Controls, Keys, Pointer, SETTLING_REPORTS};
use crate::damage::struck;
use crate::game::{world_side, EntityState, PlayerId, ShipInfo};
use crate::oracle::{lemma_follows, lemma_since_now, Ask, Oracle, Trace};
use crate::phase::{frame_of, shows, update_phase, AppPhase, Outcome, Screen};
use crate::pilot::tuned;
use crate::protocol::{copy_scores, GameStateSnapshot, PlayerScore, ServerMessage};
use crate::single::{difference, from_whole, greater, product, quotient, same, zero, Single};
use crate::sounds::{all_cues, entity_ids, find_own_ship, no_gauges, own_ship, tracks, Cue, Ears};
use crate::tick::info_of;
use crate::world::ServerPlayer;

verus! {

broadcast use lemma_follows;

/// Everything that a client remembers from frame to frame.
#[derive(Debug)]
pub struct RenderState {
    pub phase: AppPhase,
    pub my_player_id: Option<PlayerId>,
    pub controls: Controls,
    pub snapshot: Option<GameStateSnapshot>,
    pub scores: Vec<PlayerScore>,
    pub cam_x: Single,
    pub cam_y: Single,
    /// What is left of the shaking of the screen.
    pub screen_shake: Single,
    pub server_name: String,
    pub ears: Ears,
}

/// Whether a report tells that shields which are switched on have collapsed: they are down, not for
/// a cloak, and the report is not one that may be older than the last press of their key.
pub open spec fn tells_collapse(c: Controls, info: ShipInfo) -> bool {
    !info.shields_on && !info.cloaked && c.shields_settling == 0
}

/// The controls after a report of the player's own ship: the class is the server's; a cloak that
/// the server dropped for want of fuel, and shields that collapsed under fire, are off.
pub open spec fn synced_one(c: Controls, info: ShipInfo, was_cloaked: bool) -> Controls {
    Controls {
        current_class: info.class,
        cloak_on: c.cloak_on && !(same(info.fuel, zero()) && was_cloaked),
        shields_on: c.shields_on && !tells_collapse(c, info),
        shields_settling: if c.shields_settling > 0 {
            (c.shields_settling - 1) as u32
        } else {
            0
        },
        ..c
    }
}

/// The controls after the reports in a snapshot.
pub open spec fn synced(
    c: Controls,
    es: Seq<EntityState>,
    id: PlayerId,
    was_cloaked: bool,
) -> Controls
    decreases es.len(),
{
    if es.len() == 0 {
        c
    } else {
        let front = synced(c, es.drop_last(), id, was_cloaked);
        match es.last().ship_info {
            Some(info) => if info.player_id == id {
                synced_one(front, info, was_cloaked)
            } else {
                front
            },
            None => front,
        }
    }
}

/// The controls after a snapshot.
pub open spec fn informed(
    c: Controls,
    es: Seq<EntityState>,
    id: Option<PlayerId>,
    was_cloaked: bool,
) -> Controls {
    match id {
        Some(pid) => synced(c, es, pid, was_cloaked),
        None => c,
    }
}

/// The place that the camera looks at: the player's ship, or else where it looked before, or else
/// the middle of the world.
pub open spec fn camera_target(
    es: Seq<EntityState>,
    id: Option<PlayerId>,
    cam_x: Single,
    cam_y: Single,
) -> (Single, Single) {
    match own_ship(es, id) {
        Some(e) => (e.x, e.y),
        None => if !same(cam_x, zero()) || !same(cam_y, zero()) {
            (cam_x, cam_y)
        } else {
            (quotient(world_side(), from_whole(2)), quotient(world_side(), from_whole(2)))
        },
    }
}

/// Whether the player is in the game, alive or dead.
pub open spec fn in_game(screen: Screen) -> bool {
    match screen {
        Screen::LoginName { buf, error } => false,
        Screen::LoginShip { username, selected_idx } => false,
        _ => true,
    }
}

/// Follows the reports in a snapshot.
fn sync(c: &mut Controls, es: &Vec<EntityState>, id: PlayerId, was_cloaked: bool)
    ensures
        *final(c) == synced(*old(c), es@, id, was_cloaked),
{
    let mut i: usize = 0;
    while i < es.len()
        invariant
            i <= es.len(),
            *c == synced(*old(c), es@.take(i as int), id, was_cloaked),
        decreases es.len() - i,
    {
        proof {
            assert(es@.take(i + 1).drop_last() =~= es@.take(i as int));
        }
        if let Some(info) = es[i].ship_info {
            if info.player_id == id {
                c.current_class = info.class;
                if info.fuel.is_same(Single::nought()) && was_cloaked {
                    c.cloak_on = false;
                }
                if c.shields_settling > 0 {
                    c.shields_settling = c.shields_settling - 1;
                } else if !info.shields_on && !info.cloaked {
                    c.shields_on = false;
                }
            }
        }
        i = i + 1;
    }
    proof {
        assert(es@.take(i as int) =~= es@);
    }
}

/// The place that the camera looks at.
pub fn find_camera_target(
    es: &Vec<EntityState>,
    id: Option<PlayerId>,
    cam_x: Single,
    cam_y: Single,
) -> (r: (Single, Single))
    ensures
        r == camera_target(es@, id, cam_x, cam_y),
{
    match find_own_ship(es, id) {
        Some(e) => (e.x, e.y),
        None => {
            let zero: Single = Single::nought();
            if !cam_x.is_same(zero) || !cam_y.is_same(zero) {
                (cam_x, cam_y)
            } else {
                let half: Single = Single::whole(10_000).over(Single::whole(2));
                (half, half)
            }
        },
    }
}

impl RenderState {
    pub fn new() -> (r: RenderState)
        ensures
            r.phase@ == (Screen::LoginName { buf: Seq::empty(), error: false }),
            r.my_player_id is None,
            r.controls == first_controls(),
            r.snapshot is None,
            r.scores@.len() == 0,
            r.cam_x == zero(),
            r.cam_y == zero(),
            r.screen_shake == zero(),
            r.server_name@ == "test server"@,
            r.ears.entity_ids@.len() == 0,
            r.ears.torpedoes@.len() == 0,
            r.ears.gauges == no_gauges(),
    {
        let r: RenderState = RenderState {
            phase: AppPhase::LoginName { buf: String::new(), error: false },
            my_player_id: None,
            controls: Controls::new(),
            snapshot: None,
            scores: Vec::new(),
            cam_x: Single::nought(),
            cam_y: Single::nought(),
            screen_shake: Single::nought(),
            server_name: String::from_str("test server"),
            ears: Ears::new(),
        };
        assert(r.phase@->buf =~= Seq::<char>::empty());
        r
    }

    /// Takes a message of the server.
    pub fn handle_server_message(&mut self, msg: ServerMessage)
        ensures
            match msg {
                ServerMessage::Welcome { version, player_id, server_name } => *final(self) == (
                RenderState { my_player_id: Some(player_id), ..*old(self) }),
                ServerMessage::GameState(snapshot) => final(self).scores@ == snapshot.scores@
                    && *final(self) == (RenderState {
                    controls: informed(
                        old(self).controls,
                        snapshot.entities@,
                        old(self).my_player_id,
                        old(self).ears.gauges.cloaked,
                    ),
                    snapshot: Some(snapshot),
                    scores: final(self).scores,
                    ..*old(self)
                }),
                ServerMessage::PlayerDied { victim, killer, self_destruct } => *final(self)
                    == if old(self).my_player_id == Some(victim) {
                    RenderState {
                        phase: AppPhase::DeadWatching {
                            previous_class: old(self).controls.current_class,
                            timer: from_whole(5),
                            self_destruct,
                        },
                        controls: Controls {
                            self_destruct_countdown: None,
                            ..old(self).controls
                        },
                        screen_shake: if self_destruct {
                            old(self).screen_shake
                        } else {
                            from_whole(18)
                        },
                        ..*old(self)
                    }
                } else {
                    *old(self)
                },
                ServerMessage::ServerInfo { server_name } => *final(self) == (RenderState {
                    server_name,
                    ..*old(self)
                }),
                _ => *final(self) == *old(self),
            },
    {
        match msg {
            ServerMessage::Welcome { version: _, player_id, server_name: _ } => {
                self.my_player_id = Some(player_id);
            },
            ServerMessage::GameState(snapshot) => {
                if let Some(pid) = self.my_player_id {
                    let was_cloaked: bool = self.ears.gauges.cloaked;
                    sync(&mut self.controls, &snapshot.entities, pid, was_cloaked);
                }
                self.scores = copy_scores(&snapshot.scores);
                self.snapshot = Some(snapshot);
            },
            ServerMessage::PlayerDied { victim, killer: _, self_destruct } => {
                let mine: bool = match self.my_player_id {
                    Some(id) => id == victim,
                    None => false,
                };
                if mine {
                    self.controls.self_destruct_countdown = None;
                    if !self_destruct {
                        self.screen_shake = Single::whole(18);
                    }
                    self.phase =
                    AppPhase::DeadWatching {
                        previous_class: self.controls.current_class,
                        timer: Single::whole(5),
                        self_destruct,
                    };
                }
            },
            ServerMessage::ServerInfo { server_name } => {
                self.server_name = server_name;
            },
            _ => {},
        }
    }

    /// Lets the shaking of the screen die down.
    pub fn settle(&mut self, dt: Single)
        ensures
            *final(self) == (RenderState {
                screen_shake: greater(
                    difference(old(self).screen_shake, product(from_whole(30), dt)),
                    zero(),
                ),
                ..*old(self)
            }),
    {
        self.screen_shake = self.screen_shake.minus(Single::whole(30).times(dt)).max(
            Single::nought(),
        );
    }

    /// Points the camera, once the player is in the game and there is something to look at.
    pub fn follow(&mut self)
        ensures
            *final(self) == match old(self).snapshot {
                Some(snap) => if in_game(old(self).phase@) {
                    let (x, y) = camera_target(
                        snap.entities@,
                        old(self).my_player_id,
                        old(self).cam_x,
                        old(self).cam_y,
                    );
                    RenderState { cam_x: x, cam_y: y, ..*old(self) }
                } else {
                    *old(self)
                },
                None => *old(self),
            },
    {
        let playing: bool = match &self.phase {
            AppPhase::LoginName { buf: _, error: _ } => false,
            AppPhase::LoginShip { username: _, selected_idx: _ } => false,
            _ => true,
        };
        if playing {
            let target: Option<(Single, Single)> = match &self.snapshot {
                Some(snap) => Some(
                    find_camera_target(
                        &snap.entities,
                        self.my_player_id,
                        self.cam_x,
                        self.cam_y,
                    ),
                ),
                None => None,
            };
            if let Some((x, y)) = target {
                self.cam_x = x;
                self.cam_y = y;
            }
        }
    }

    /// Goes through one frame of the phases.
    pub fn advance<F: Fn(Ask) -> Single>(
        &mut self,
        k: &Keys,
        p: &Pointer,
        dt: Single,
        oracle: &mut Oracle<F>,
    ) -> (o: Outcome)
        ensures
            final(oracle).follows(*old(oracle)),
            forall|rest: Trace|
                {
                    let (f, after) = #[trigger] frame_of(
                        old(self).phase@,
                        old(self).controls,
                        *k,
                        *p,
                        dt,
                        final(oracle).since(*old(oracle)) + rest,
                    );
                    shows(f, final(self).phase, final(self).controls, o) && after == rest
                },
            *final(self) == (RenderState {
                phase: final(self).phase,
                controls: final(self).controls,
                ..*old(self)
            }),
    {
        let mut phase: AppPhase = AppPhase::Playing;
        std::mem::swap(&mut phase, &mut self.phase);
        let (next, o) = update_phase(phase, &mut self.controls, k, p, dt, oracle);
        self.phase = next;
        o
    }

    /// Finds the sounds of the present snapshot.
    pub fn listen<F: Fn(Ask) -> Single>(&mut self, oracle: &mut Oracle<F>) -> (r: Vec<Cue>)
        ensures
            final(oracle).follows(*old(oracle)),
            match old(self).snapshot {
                Some(snap) => {
                    &&& forall|rest: Trace| #[trigger]
                        all_cues(
                            snap.entities@,
                            old(self).my_player_id,
                            old(self).cam_x,
                            old(self).cam_y,
                            old(self).ears,
                            old(self).controls.just_entered_game,
                            final(oracle).since(*old(oracle)) + rest,
                        ) == (r@, final(self).ears.gauges, rest)
                    &&& final(self).ears.entity_ids@ == entity_ids(snap.entities@)
                    &&& final(self).ears.torpedoes@ == tracks(snap.entities@)
                    &&& *final(self) == (RenderState {
                        controls: Controls { just_entered_game: false, ..old(self).controls },
                        ears: final(self).ears,
                        ..*old(self)
                    })
                },
                None => r@.len() == 0 && *final(self) == *old(self) && *final(oracle) == *old(
                    oracle,
                ),
            },
    {
        proof {
            lemma_since_now(*oracle);
        }
        match &self.snapshot {
            Some(snap) => {
                let cues: Vec<Cue> = self.ears.process_sound_events(
                    &snap.entities,
                    self.my_player_id,
                    self.cam_x,
                    self.cam_y,
                    self.controls.just_entered_game,
                    oracle,
                );
                self.controls.just_entered_game = false;
                cues
            },
            None => Vec::new(),
        }
    }
}

/// A cloak that runs out of fuel does not come back by itself: after the server's report it is off
/// until its key goes down again.
pub proof fn law_exhausted_cloak_stays_off(c: Controls, info: ShipInfo, k: Keys)
    requires
        same(info.fuel, zero()),
        !k.c,
    ensures
        !switched(synced_one(c, info, true), k).cloak_on,
{
}

/// Shields that collapsed under fire stay down: after the server's report they are off until their
/// key goes down.
pub proof fn law_collapsed_shields_need_the_key(c: Controls, info: ShipInfo, k: Keys)
    requires
        tells_collapse(c, info),
        !k.f,
    ensures
        !switched(synced_one(c, info, false), k).shields_on,
        !switched(synced_one(c, info, true), k).shields_on,
{
}

/// A report that may be older than the last press of the key leaves the shields as the pilot
/// switched them; there are only so many such reports after a press.
pub proof fn law_older_reports_leave_the_switch(
    c: Controls,
    info: ShipInfo,
    was_cloaked: bool,
    k: Keys,
)
    ensures
        c.shields_settling > 0 ==> synced_one(c, info, was_cloaked).shields_on == c.shields_on
            && synced_one(c, info, was_cloaked).shields_settling == c.shields_settling - 1,
        c.shields_settling == 0 ==> synced_one(c, info, was_cloaked).shields_settling == 0,
        k.f ==> switched(c, k).shields_settling == SETTLING_REPORTS,
        !k.f ==> switched(c, k).shields_settling == c.shields_settling,
{
}

/// A report tells of a collapse only where there was one: of a ship whose pilot has the shields
/// switched on, after a tick and after blows that follow it.
pub proof fn law_only_collapsed_shields_are_switched_off(
    c: Controls,
    p: ServerPlayer,
    id: PlayerId,
    burnt: Single,
    dt: Single,
    dmg: Single,
)
    requires
        p.input.shields_active,
    ensures
        tells_collapse(c, info_of(tuned(p, burnt, dt), id)) ==> tuned(
            p,
            burnt,
            dt,
        ).shields_collapsed,
        (p.shields_on || p.cloaked || p.shields_collapsed) && tells_collapse(
            c,
            info_of(struck(p, dmg), id),
        ) ==> struck(p, dmg).shields_collapsed,
{
}

} // verus!
