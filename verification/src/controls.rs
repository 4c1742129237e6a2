//! The keyboard and the mouse of a pilot, and the input that is made of them.
use vstd::prelude::*;

use crate::game::{class_stats, cloaks, ShipClass};
use crate::oracle::{lemma_follows, lemma_past, past, told, Ask, Oracle, Trace};
use crate::protocol::PlayerInput;
use crate::single::{difference, from_whole, le, quotient, Single};
use crate::world::{counted, next_id};

verus! {

broadcast use lemma_follows;

/// The keys and buttons in one frame.  A name that ends in `_down` tells whether a key is held;
/// the others tell whether it went down in this frame.
#[derive(Debug)]
pub struct Keys {
    /// The characters that were typed.
    pub typed: Vec<char>,
    pub backspace: bool,
    pub enter: bool,
    pub keypad_enter: bool,
    pub up: bool,
    pub down: bool,
    pub left: bool,
    pub right: bool,
    pub a: bool,
    pub c: bool,
    pub d: bool,
    pub f: bool,
    pub h: bool,
    pub m: bool,
    pub q: bool,
    pub r: bool,
    pub s: bool,
    pub t: bool,
    pub w: bool,
    pub space: bool,
    pub left_button: bool,
    pub up_down: bool,
    pub down_down: bool,
    pub left_down: bool,
    pub right_down: bool,
    pub a_down: bool,
    pub c_down: bool,
    pub d_down: bool,
    pub s_down: bool,
    pub w_down: bool,
    pub left_shift_down: bool,
    pub left_control_down: bool,
    pub right_control_down: bool,
    pub right_button_down: bool,
}

/// The mouse cursor and the window in one frame.
#[derive(Debug, Clone, Copy)]
pub struct Pointer {
    pub x: Single,
    pub y: Single,
    /// Whether the cursor moved since the last frame.
    pub moved: bool,
    pub screen_width: Single,
    pub screen_height: Single,
}

/// What a pilot has switched, and what the server last told of the ship.
#[derive(Debug, Clone, Copy)]
pub struct Controls {
    /// The class of the pilot's ship, as last seen.
    pub current_class: ShipClass,
    /// The number of the last input.
    pub input_seq: u32,
    pub shields_on: bool,
    /// How many more reports of the ship may be older than the last press of the shield key.
    pub shields_settling: u32,
    /// The cloak is engaged: its key went down and has not been released, and the fuel lasts.
    pub cloak_on: bool,
    pub show_help: bool,
    pub show_minimap: bool,
    /// Seconds until the ship destroys itself; `None` when that is not armed.
    pub self_destruct_countdown: Option<Single>,
    /// The player has just entered the game.
    pub just_entered_game: bool,
}

/// The reports of a ship, twenty a second, that may still be older than a press of the shield key:
/// what comes two seconds after a press is taken to be newer.
pub const SETTLING_REPORTS: u32 = 40;

/// The controls at the start.
pub open spec fn first_controls() -> Controls {
    Controls {
        current_class: ShipClass::Destroyer,
        input_seq: 0,
        shields_on: true,
        shields_settling: SETTLING_REPORTS,
        cloak_on: false,
        show_help: false,
        show_minimap: true,
        self_destruct_countdown: None,
        just_entered_game: false,
    }
}

/// Half of a length.
pub open spec fn halved(a: Single) -> Single {
    quotient(a, from_whole(2))
}

/// Whether a key that steers, or the left button, went down.
pub open spec fn moves_or_clicks(k: Keys) -> bool {
    k.up || k.down || k.left || k.right || k.w || k.s || k.a || k.d || k.left_button
}

/// The countdown to self-destruction after the keys of a frame: control and Q arm it, and any move
/// or click cancels it.
pub open spec fn armed(countdown: Option<Single>, k: Keys) -> Option<Single> {
    let set = if k.q && (k.left_control_down || k.right_control_down) && countdown is None {
        Some(from_whole(5))
    } else {
        countdown
    };
    if set is Some && moves_or_clicks(k) {
        None
    } else {
        set
    }
}

/// The controls after the keys of a frame.
pub open spec fn switched(c: Controls, k: Keys) -> Controls {
    Controls {
        input_seq: next_id(c.input_seq),
        shields_on: c.shields_on != k.f,
        shields_settling: if k.f {
            SETTLING_REPORTS
        } else {
            c.shields_settling
        },
        show_help: c.show_help != k.h,
        show_minimap: c.show_minimap != k.m,
        cloak_on: k.c_down && (c.cloak_on || k.c && cloaks(c.current_class)),
        self_destruct_countdown: armed(c.self_destruct_countdown, k),
        ..c
    }
}

/// The input of a frame, from controls that have followed the keys; the ship is in the middle of
/// the window.
pub open spec fn input_of(c: Controls, k: Keys, p: Pointer, t: Trace) -> (PlayerInput, Trace) {
    let dx = difference(p.x, halved(p.screen_width));
    let dy = difference(p.y, halved(p.screen_height));
    let mouse_angle = told(t, 0, Ask::Atan2(dy, dx));
    let mouse_distance = told(t, 1, Ask::Hypot(dx, dy));
    (
        PlayerInput {
            thrust: k.up_down || k.w_down,
            reverse_thrust: k.down_down || k.s_down,
            turn_left: k.left_down || k.a_down,
            turn_right: k.right_down || k.d_down,
            fire_primary: k.left_button || k.space || k.t,
            fire_phaser: (k.left_shift_down || k.right_button_down) && le(
                mouse_distance,
                class_stats(c.current_class).phaser_range,
            ),
            cloak_active: c.cloak_on,
            shields_active: c.shields_on,
            aim_angle: if p.moved {
                Some(mouse_angle)
            } else {
                None
            },
            mouse_angle,
            mouse_distance,
            sequence: c.input_seq,
        },
        past(t, seq![Ask::Atan2(dy, dx), Ask::Hypot(dx, dy)]),
    )
}

/// The cloak is engaged only by its key, on a class that has one, and only while the key is held.
pub proof fn law_cloak_is_held(c: Controls, k: Keys)
    ensures
        switched(c, k).cloak_on ==> k.c_down,
        switched(c, k).cloak_on && !c.cloak_on ==> k.c && cloaks(c.current_class),
{
}

/// Every frame raises the number of the input, until the counter starts again.
pub proof fn law_inputs_are_numbered(c: Controls, k: Keys, p: Pointer, t: Trace)
    requires
        c.input_seq < u32::MAX,
    ensures
        input_of(switched(c, k), k, p, t).0.sequence == c.input_seq + 1,
{
}

impl Controls {
    pub fn new() -> (r: Controls)
        ensures
            r == first_controls(),
    {
        Controls {
            current_class: ShipClass::Destroyer,
            input_seq: 0,
            shields_on: true,
            shields_settling: SETTLING_REPORTS,
            cloak_on: false,
            show_help: false,
            show_minimap: true,
            self_destruct_countdown: None,
            just_entered_game: false,
        }
    }

    /// Arms or cancels the self-destruction.
    fn arm(&mut self, k: &Keys)
        ensures
            *final(self) == (Controls {
                self_destruct_countdown: armed(old(self).self_destruct_countdown, *k),
                ..*old(self)
            }),
    {
        if k.q && (k.left_control_down || k.right_control_down)
            && self.self_destruct_countdown.is_none() {
            self.self_destruct_countdown = Some(Single::whole(5));
        }
        if self.self_destruct_countdown.is_some() {
            let cancel: bool = k.up || k.down || k.left || k.right || k.w || k.s || k.a || k.d
                || k.left_button;
            if cancel {
                self.self_destruct_countdown = None;
            }
        }
    }

    /// Follows the keys of a frame.
    fn switch(&mut self, k: &Keys)
        ensures
            *final(self) == switched(*old(self), *k),
    {
        self.input_seq = counted(self.input_seq);
        self.shields_on = self.shields_on != k.f;
        if k.f {
            self.shields_settling = SETTLING_REPORTS;
        }
        self.show_help = self.show_help != k.h;
        self.show_minimap = self.show_minimap != k.m;
        self.cloak_on = k.c_down && (self.cloak_on || k.c && self.current_class.can_cloak());
        self.arm(k);
    }

    /// Follows the keys of a frame, and makes the input for the server of them.
    pub fn collect_input<F: Fn(Ask) -> Single>(
        &mut self,
        k: &Keys,
        p: &Pointer,
        oracle: &mut Oracle<F>,
    ) -> (r: PlayerInput)
        ensures
            *final(self) == switched(*old(self), *k),
            final(oracle).follows(*old(oracle)),
            forall|rest: Trace| #[trigger]
                input_of(*final(self), *k, *p, final(oracle).since(*old(oracle)) + rest) == (
                    r,
                    rest,
                ),
    {
        self.switch(k);
        let dx: Single = p.x.minus(p.screen_width.over(Single::whole(2)));
        let dy: Single = p.y.minus(p.screen_height.over(Single::whole(2)));
        let mouse_angle: Single = oracle.ask(Ask::Atan2(dy, dx));
        let mouse_distance: Single = oracle.ask(Ask::Hypot(dx, dy));
        let in_range: bool = mouse_distance.is_at_most(self.current_class.stats().phaser_range);
        proof {
            let tr = oracle.since(*old(oracle));
            lemma_past(tr);
        }
        PlayerInput {
            thrust: k.up_down || k.w_down,
            reverse_thrust: k.down_down || k.s_down,
            turn_left: k.left_down || k.a_down,
            turn_right: k.right_down || k.d_down,
            fire_primary: k.left_button || k.space || k.t,
            fire_phaser: (k.left_shift_down || k.right_button_down) && in_range,
            cloak_active: self.cloak_on,
            shields_active: self.shields_on,
            aim_angle: if p.moved {
                Some(mouse_angle)
            } else {
                None
            },
            mouse_angle,
            mouse_distance,
            sequence: self.input_seq,
        }
    }
}

} // verus!
