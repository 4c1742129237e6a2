//! Everything that a client draws in one frame.
use vstd::prelude::*;
use vstd::string::*;

use crate::client::{camera_target, find_camera_target, RenderState};
use crate::controls::Pointer;
use crate::game::EntityState;
use crate::hud::{
    draw_hud, draw_minimap, draw_scoreboard, hud_shapes, minimap_shapes, scoreboard_shapes,
};
use crate::oracle::{lemma_follows, lemma_since_chain, lemma_since_now, Ask, Oracle, Trace};
use crate::paint::{drawn, Drawn, Loaded, Shape};
use crate::phase::{AppPhase, Screen};
use crate::protocol::GameStateSnapshot;
use crate::scene::{
    border_shape, crosshair, cursor_on_target, draw_entities, draw_mouse_crosshair,
    draw_world_border, entities_shapes, is_locked, on_target, phaser_locked, shake_camera, shaken,
    Sight,
};
use crate::screens::{
    choosing_shapes, connecting_shape, draw_connecting_screen, draw_dead_overlay,
    draw_dead_watching_overlay, draw_help_overlay, draw_login_name, draw_login_ship,
    draw_self_destructed_overlay, help_shapes, login_name_shapes, login_ship_shapes,
    self_destructed_shapes, watching_shapes, Window,
};
use crate::single::{difference, from_whole, quotient, sum, Single};
use crate::stars::{draw_starfield, sky, tile_of};

verus! {

broadcast use lemma_follows;

/// What is drawn in one frame: the world as the camera sees it, and what lies over it.
#[derive(Debug)]
pub struct Picture {
    /// Where the camera points; `None` when there is no world to look at.
    pub camera: Option<(Single, Single)>,
    pub world: Vec<Shape>,
    pub overlay: Vec<Shape>,
}

/// What is drawn in one frame, with the texts as characters.
#[verifier::ext_equal]
pub struct Image {
    pub camera: Option<(Single, Single)>,
    pub world: Seq<Drawn>,
    pub overlay: Seq<Drawn>,
}

impl View for Picture {
    type V = Image;

    open spec fn view(&self) -> Image {
        Image { camera: self.camera, world: drawn(self.world), overlay: drawn(self.overlay) }
    }
}

/// The frame's surroundings: the pointer, the time and the textures.
#[derive(Debug, Clone, Copy)]
pub struct Moment {
    pub pointer: Pointer,
    /// Seconds since the start.
    pub time: Single,
    pub loaded: Loaded,
    /// Whether the cursor of the callsign is lit.
    pub cursor: bool,
}

pub open spec fn window_of(p: Pointer) -> Window {
    Window { width: p.screen_width, height: p.screen_height }
}

/// The place of a coordinate of the cursor in the world.
pub open spec fn cursor_place(at: Single, extent: Single, cam: Single) -> Single {
    sum(difference(at, quotient(extent, from_whole(2))), cam)
}

/// The crosshair over the entities of a snapshot.
pub open spec fn aim_shapes(s: RenderState, es: Seq<EntityState>, m: Moment, t: Trace) -> (
    Seq<Drawn>,
    Trace,
) {
    let x = cursor_place(m.pointer.x, m.pointer.screen_width, s.cam_x);
    let y = cursor_place(m.pointer.y, m.pointer.screen_height, s.cam_y);
    crosshair(
        x,
        y,
        exists|i: int| 0 <= i < es.len() && on_target(#[trigger] es[i], s.my_player_id, x, y),
        exists|i: int| 0 <= i < es.len() && is_locked(#[trigger] es[i], s.my_player_id),
        m.time,
        t,
    )
}

/// The world: stars, border, entities and crosshair.
pub open spec fn world_shapes(
    s: RenderState,
    es: Seq<EntityState>,
    m: Moment,
    x: Single,
    y: Single,
    t: Trace,
) -> (Seq<Drawn>, Trace) {
    let sight = Sight { my_id: s.my_player_id, time: m.time, loaded: m.loaded };
    let (things, t1) = entities_shapes(es, sight, s.scores@, t);
    let (cross, t2) = aim_shapes(s, es, m, t1);
    (sky(tile_of(x), tile_of(y), 25).push(border_shape()) + things + cross, t2)
}

/// What lies over the world: the gauges, the scoreboard and the map.
pub open spec fn overlay_shapes(s: RenderState, snap: GameStateSnapshot, p: Pointer) -> Seq<Drawn> {
    let es = snap.entities@;
    let w = p.screen_width;
    let h = p.screen_height;
    hud_shapes(snap.tick, es, s.my_player_id, s.controls.self_destruct_countdown, w, h)
        + scoreboard_shapes(s.scores@, s.my_player_id, w) + if s.controls.show_minimap {
        minimap_shapes(es, s.my_player_id, w, h)
    } else {
        Seq::empty()
    }
}

/// The game, or the wait for it.
pub open spec fn game_image(s: RenderState, m: Moment, t: Trace) -> (Image, Trace) {
    match s.snapshot {
        Some(snap) => {
            let (x, y) = camera_target(snap.entities@, s.my_player_id, s.cam_x, s.cam_y);
            let (cx, cy, t1) = shaken(x, y, s.screen_shake, m.time, t);
            let (world, t2) = world_shapes(s, snap.entities@, m, x, y, t1);
            (
                Image {
                    camera: Some((cx, cy)),
                    world,
                    overlay: overlay_shapes(s, snap, m.pointer),
                },
                t2,
            )
        },
        None => (
            Image {
                camera: None,
                world: Seq::empty(),
                overlay: seq![connecting_shape(window_of(m.pointer))],
            },
            t,
        ),
    }
}

/// What lies over the game in a phase.
pub open spec fn phase_shapes(s: RenderState, p: Pointer) -> Seq<Drawn> {
    let w = window_of(p);
    match s.phase@ {
        Screen::DeadWatching { previous_class, timer, self_destruct } => watching_shapes(w, timer),
        Screen::DeadChoosing { previous_class, selected_idx, countdown } => choosing_shapes(
            w,
            previous_class,
            selected_idx,
            countdown,
        ),
        Screen::SelfDestructed => self_destructed_shapes(w),
        _ => if s.controls.show_help {
            help_shapes(w)
        } else {
            Seq::empty()
        },
    }
}

/// Everything that is drawn in a frame.
pub open spec fn frame_image(s: RenderState, m: Moment, t: Trace) -> (Image, Trace) {
    let w = window_of(m.pointer);
    match s.phase@ {
        Screen::LoginName { buf, error } => (
            Image {
                camera: None,
                world: Seq::empty(),
                overlay: login_name_shapes(w, buf, error, s.server_name@, m.cursor),
            },
            t,
        ),
        Screen::LoginShip { username, selected_idx } => (
            Image {
                camera: None,
                world: Seq::empty(),
                overlay: login_ship_shapes(w, selected_idx, s.server_name@),
            },
            t,
        ),
        _ => {
            let (image, t1) = game_image(s, m, t);
            (Image { overlay: image.overlay + phase_shapes(s, m.pointer), ..image }, t1)
        },
    }
}

fn window(p: &Pointer) -> (r: Window)
    ensures
        r == window_of(*p),
{
    Window { width: p.screen_width, height: p.screen_height }
}

impl RenderState {
    fn draw_aim<F: Fn(Ask) -> Single>(
        &self,
        list: &mut Vec<Shape>,
        es: &Vec<EntityState>,
        m: &Moment,
        oracle: &mut Oracle<F>,
    )
        ensures
            final(oracle).follows(*old(oracle)),
            forall|rest: Trace|
                {
                    let (shapes, after) = #[trigger] aim_shapes(
                        *self,
                        es@,
                        *m,
                        final(oracle).since(*old(oracle)) + rest,
                    );
                    drawn(*final(list)) == drawn(*old(list)) + shapes && after == rest
                },
    {
        let two: Single = Single::whole(2);
        let x: Single = m.pointer.x.minus(m.pointer.screen_width.over(two)).plus(self.cam_x);
        let y: Single = m.pointer.y.minus(m.pointer.screen_height.over(two)).plus(self.cam_y);
        let hot: bool = cursor_on_target(es, self.my_player_id, x, y);
        let locked: bool = phaser_locked(es, self.my_player_id);
        draw_mouse_crosshair(list, x, y, hot, locked, m.time, oracle);
        proof {
            let tr = oracle.since(*old(oracle));
            assert forall|rest: Trace|
                {
                    let (shapes, after) = #[trigger] aim_shapes(*self, es@, *m, tr + rest);
                    drawn(*list) == drawn(*old(list)) + shapes && after == rest
                } by {
                let c = crosshair(x, y, hot, locked, m.time, tr + rest);
                assert(drawn(*list) == drawn(*old(list)) + c.0 && c.1 == rest);
            }
        }
    }

    fn draw_world<F: Fn(Ask) -> Single>(
        &self,
        es: &Vec<EntityState>,
        m: &Moment,
        x: Single,
        y: Single,
        oracle: &mut Oracle<F>,
    ) -> (r: Vec<Shape>)
        ensures
            final(oracle).follows(*old(oracle)),
            forall|rest: Trace| #[trigger]
                world_shapes(
                    *self,
                    es@,
                    *m,
                    x,
                    y,
                    final(oracle).since(*old(oracle)) + rest,
                ) == (drawn(r), rest),
    {
        let mut list: Vec<Shape> = Vec::new();
        let ghost blank = drawn(list);
        draw_starfield(&mut list, x, y);
        draw_world_border(&mut list);
        let ghost back = drawn(list);
        let sight: Sight = Sight { my_id: self.my_player_id, time: m.time, loaded: m.loaded };
        draw_entities(&mut list, es, &sight, &self.scores, oracle);
        let ghost o1 = *oracle;
        let ghost full = drawn(list);
        self.draw_aim(&mut list, es, m, oracle);
        proof {
            lemma_since_chain(*old(oracle), o1, *oracle);
            let stars = sky(tile_of(x), tile_of(y), 25);
            assert(blank =~= Seq::empty());
            assert(back =~= stars.push(border_shape()));
            assert forall|rest: Trace| #[trigger]
                world_shapes(*self, es@, *m, x, y, oracle.since(*old(oracle)) + rest) == (
                    drawn(list),
                    rest,
                ) by {
                let next = oracle.since(o1) + rest;
                let (things, t1) = entities_shapes(
                    es@,
                    sight,
                    self.scores@,
                    o1.since(*old(oracle)) + next,
                );
                assert(full == back + things && t1 == next);
                let (cross, t2) = aim_shapes(*self, es@, *m, next);
                assert(drawn(list) == full + cross && t2 == rest);
            }
        }
        list
    }

    fn draw_overlay(&self, snap: &GameStateSnapshot, p: &Pointer) -> (r: Vec<Shape>)
        ensures
            drawn(r) == overlay_shapes(*self, *snap, *p),
    {
        let mut list: Vec<Shape> = Vec::new();
        let ghost blank = drawn(list);
        draw_hud(
            &mut list,
            snap.tick,
            &snap.entities,
            self.my_player_id,
            self.controls.self_destruct_countdown,
            p.screen_width,
            p.screen_height,
        );
        draw_scoreboard(&mut list, &self.scores, self.my_player_id, p.screen_width);
        if self.controls.show_minimap {
            draw_minimap(
                &mut list,
                &snap.entities,
                self.my_player_id,
                p.screen_width,
                p.screen_height,
            );
        }
        proof {
            assert(blank =~= Seq::empty());
            assert(drawn(list) =~= overlay_shapes(*self, *snap, *p));
        }
        list
    }

    /// Draws the game, or the wait for it.
    pub fn draw_game<F: Fn(Ask) -> Single>(&self, m: &Moment, oracle: &mut Oracle<F>) -> (r:
        Picture)
        ensures
            final(oracle).follows(*old(oracle)),
            forall|rest: Trace| #[trigger]
                game_image(*self, *m, final(oracle).since(*old(oracle)) + rest) == (r@, rest),
    {
        match &self.snapshot {
            Some(snap) => {
                let (x, y) = find_camera_target(
                    &snap.entities,
                    self.my_player_id,
                    self.cam_x,
                    self.cam_y,
                );
                let camera: (Single, Single) = shake_camera(
                    x,
                    y,
                    self.screen_shake,
                    m.time,
                    oracle,
                );
                let ghost o1 = *oracle;
                let world: Vec<Shape> = self.draw_world(&snap.entities, m, x, y, oracle);
                proof {
                    lemma_since_chain(*old(oracle), o1, *oracle);
                }
                let overlay: Vec<Shape> = self.draw_overlay(snap, &m.pointer);
                Picture { camera: Some(camera), world, overlay }
            },
            None => {
                let mut overlay: Vec<Shape> = Vec::new();
                let world: Vec<Shape> = Vec::new();
                let ghost blank = drawn(overlay);
                draw_connecting_screen(&mut overlay, &window(&m.pointer));
                proof {
                    lemma_since_now(*oracle);
                    assert(blank =~= Seq::empty());
                    assert(drawn(world) =~= Seq::empty());
                    assert(drawn(overlay) =~= seq![connecting_shape(window_of(m.pointer))]);
                }
                Picture { camera: None, world, overlay }
            },
        }
    }

    /// Draws what lies over the game in a phase.
    fn draw_phase(&self, list: &mut Vec<Shape>, p: &Pointer)
        ensures
            drawn(*final(list)) == drawn(*old(list)) + phase_shapes(*self, *p),
    {
        let w: Window = window(p);
        match &self.phase {
            AppPhase::DeadWatching { previous_class: _, timer, self_destruct: _ } => {
                draw_dead_watching_overlay(list, &w, *timer);
            },
            AppPhase::DeadChoosing { previous_class, selected_idx, countdown } => {
                draw_dead_overlay(list, &w, *previous_class, *selected_idx, *countdown);
            },
            AppPhase::SelfDestructed => {
                draw_self_destructed_overlay(list, &w);
            },
            _ => {
                if self.controls.show_help {
                    draw_help_overlay(list, &w);
                } else {
                    assert(drawn(*list) =~= drawn(*old(list)) + Seq::empty());
                }
            },
        }
    }

    /// Draws a frame.
    pub fn draw<F: Fn(Ask) -> Single>(&self, m: &Moment, oracle: &mut Oracle<F>) -> (r: Picture)
        ensures
            final(oracle).follows(*old(oracle)),
            forall|rest: Trace| #[trigger]
                frame_image(*self, *m, final(oracle).since(*old(oracle)) + rest) == (r@, rest),
    {
        let w: Window = window(&m.pointer);
        match &self.phase {
            AppPhase::LoginName { buf, error } => {
                let mut overlay: Vec<Shape> = Vec::new();
                let world: Vec<Shape> = Vec::new();
                let ghost blank = drawn(overlay);
                draw_login_name(
                    &mut overlay,
                    &w,
                    buf.as_str(),
                    *error,
                    self.server_name.as_str(),
                    m.cursor,
                );
                proof {
                    lemma_since_now(*oracle);
                    assert(blank =~= Seq::empty());
                    assert(drawn(world) =~= Seq::empty());
                    assert(drawn(overlay) =~= login_name_shapes(
                        w,
                        buf@,
                        *error,
                        self.server_name@,
                        m.cursor,
                    ));
                }
                Picture { camera: None, world, overlay }
            },
            AppPhase::LoginShip { username: _, selected_idx } => {
                let mut overlay: Vec<Shape> = Vec::new();
                let world: Vec<Shape> = Vec::new();
                let ghost blank = drawn(overlay);
                draw_login_ship(&mut overlay, &w, *selected_idx, self.server_name.as_str());
                proof {
                    lemma_since_now(*oracle);
                    assert(blank =~= Seq::empty());
                    assert(drawn(world) =~= Seq::empty());
                    assert(drawn(overlay) =~= login_ship_shapes(
                        w,
                        *selected_idx as int,
                        self.server_name@,
                    ));
                }
                Picture { camera: None, world, overlay }
            },
            _ => {
                let mut picture: Picture = self.draw_game(m, oracle);
                self.draw_phase(&mut picture.overlay, &m.pointer);
                picture
            },
        }
    }
}

} // verus!
