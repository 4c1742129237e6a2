//! The phases that a client goes through: login, play, death and return.
use vstd::prelude::*;
use vstd::string::*;

use crate::controls::{input_of, switched, Controls, Keys, Pointer, SETTLING_REPORTS};
use crate::game::ShipClass;
use crate::oracle::{lemma_follows, lemma_since_now, Ask, Oracle, Trace};
use crate::protocol::{ClientMessage, PlayerInput};
use crate::single::{difference, from_whole, le, zero, Single};

verus! {

broadcast use lemma_follows;

/// The callsign and the ship class that a player logs in with.
#[derive(Debug)]
pub struct LoginInfo {
    pub username: String,
    pub ship_class: ShipClass,
}

/// What a client shows and waits for.
#[derive(Debug)]
pub enum AppPhase {
    /// The player is typing their callsign; `error` is set when it was too short to confirm.
    LoginName { buf: String, error: bool },
    /// The player is choosing their first ship class.
    LoginShip { username: String, selected_idx: usize },
    /// Connected and playing.
    Playing,
    /// The ship was just destroyed, and the player watches the debris.
    DeadWatching { previous_class: ShipClass, timer: Single, self_destruct: bool },
    /// The player chooses a ship before the countdown returns them in the previous one.
    DeadChoosing { previous_class: ShipClass, selected_idx: usize, countdown: Single },
    /// The player destroyed their own ship and may come back or quit.
    SelfDestructed,
}

/// A phase with its text as characters.
pub enum Screen {
    LoginName { buf: Seq<char>, error: bool },
    LoginShip { username: Seq<char>, selected_idx: int },
    Playing,
    DeadWatching { previous_class: ShipClass, timer: Single, self_destruct: bool },
    DeadChoosing { previous_class: ShipClass, selected_idx: int, countdown: Single },
    SelfDestructed,
}

impl View for AppPhase {
    type V = Screen;

    open spec fn view(&self) -> Screen {
        match *self {
            AppPhase::LoginName { buf, error } => Screen::LoginName { buf: buf@, error },
            AppPhase::LoginShip { username, selected_idx } => Screen::LoginShip {
                username: username@,
                selected_idx: selected_idx as int,
            },
            AppPhase::Playing => Screen::Playing,
            AppPhase::DeadWatching { previous_class, timer, self_destruct } => {
                Screen::DeadWatching { previous_class, timer, self_destruct }
            },
            AppPhase::DeadChoosing { previous_class, selected_idx, countdown } => {
                Screen::DeadChoosing {
                    previous_class,
                    selected_idx: selected_idx as int,
                    countdown,
                }
            },
            AppPhase::SelfDestructed => Screen::SelfDestructed,
        }
    }
}

/// The classes in the order of the list.
pub open spec fn class_at(i: int) -> ShipClass {
    if i == 0 {
        ShipClass::Scout
    } else if i == 1 {
        ShipClass::Destroyer
    } else if i == 2 {
        ShipClass::Cruiser
    } else if i == 3 {
        ShipClass::Battleship
    } else {
        ShipClass::Carrier
    }
}

/// The place of a class in the list.
pub open spec fn index_of(class: ShipClass) -> int {
    match class {
        ShipClass::Scout => 0,
        ShipClass::Destroyer => 1,
        ShipClass::Cruiser => 2,
        ShipClass::Battleship => 3,
        ShipClass::Carrier => 4,
    }
}

/// The class at a place of the list.
pub fn class_of_index(i: usize) -> (r: ShipClass)
    ensures
        r == class_at(i as int),
{
    if i == 0 {
        ShipClass::Scout
    } else if i == 1 {
        ShipClass::Destroyer
    } else if i == 2 {
        ShipClass::Cruiser
    } else if i == 3 {
        ShipClass::Battleship
    } else {
        ShipClass::Carrier
    }
}

/// The place of a class in the list.
pub fn index_of_class(class: ShipClass) -> (r: usize)
    ensures
        r == index_of(class),
{
    match class {
        ShipClass::Scout => 0,
        ShipClass::Destroyer => 1,
        ShipClass::Cruiser => 2,
        ShipClass::Battleship => 3,
        ShipClass::Carrier => 4,
    }
}

/// Each class stands at its place of the list, and nowhere else among the five.
pub proof fn law_classes_and_places_match(class: ShipClass, i: int)
    requires
        0 <= i < 5,
    ensures
        class_at(index_of(class)) == class,
        index_of(class_at(i)) == i,
{
}

/// The greatest length of a callsign.
pub const MAX_CALLSIGN: usize = 12;

/// The least length of a callsign.
pub const MIN_CALLSIGN: usize = 4;

/// A letter as a capital; everything else as it is.
pub open spec fn capital(c: char) -> char {
    if 'a' <= c <= 'z' {
        ((c as int) - 32) as char
    } else {
        c
    }
}

/// Whether a callsign may hold a character.
pub open spec fn is_callsign_char(c: char) -> bool {
    'A' <= c <= 'Z' || '0' <= c <= '9' || c == '_'
}

/// A callsign after a key: letters become capitals, and what does not belong or does not fit is
/// discarded.
pub open spec fn typed_one(buf: Seq<char>, c: char) -> Seq<char> {
    if is_callsign_char(capital(c)) && buf.len() < MAX_CALLSIGN {
        buf.push(capital(c))
    } else {
        buf
    }
}

/// A callsign after several keys.
pub open spec fn typed(buf: Seq<char>, cs: Seq<char>) -> Seq<char>
    decreases cs.len(),
{
    if cs.len() == 0 {
        buf
    } else {
        typed_one(typed(buf, cs.drop_last()), cs.last())
    }
}

/// Whether one of the keys adds to a callsign.
pub open spec fn adds(buf: Seq<char>, cs: Seq<char>) -> bool {
    typed(buf, cs).len() > buf.len()
}

/// A callsign without its last character.
pub open spec fn shortened(buf: Seq<char>, on: bool) -> Seq<char> {
    if on && buf.len() > 0 {
        buf.drop_last()
    } else {
        buf
    }
}

/// Whether a callsign, as far as it goes, is one.
pub open spec fn is_callsign_start(buf: Seq<char>) -> bool {
    buf.len() <= MAX_CALLSIGN && forall|i: int|
        0 <= i < buf.len() ==> is_callsign_char(#[trigger] buf[i])
}

/// Whether a text is a callsign: four to twelve capitals, digits and underscores.
pub open spec fn is_callsign(buf: Seq<char>) -> bool {
    is_callsign_start(buf) && MIN_CALLSIGN <= buf.len()
}

/// Typing keeps a callsign within its length and its characters.
pub proof fn lemma_typed(buf: Seq<char>, cs: Seq<char>)
    requires
        is_callsign_start(buf),
    ensures
        is_callsign_start(typed(buf, cs)),
        typed(buf, cs).len() >= buf.len(),
    decreases cs.len(),
{
    if cs.len() > 0 {
        lemma_typed(buf, cs.drop_last());
    }
}

/// Whether one of the enter keys went down.
pub open spec fn enters(k: Keys) -> bool {
    k.enter || k.keypad_enter
}

/// The selected place after the keys of a frame: up and down move it, and it stops at the ends.
pub open spec fn reselected(i: int, k: Keys) -> int {
    let up = if (k.up || k.w) && i > 0 {
        i - 1
    } else {
        i
    };
    if (k.down || k.s) && up + 1 < 5 {
        up + 1
    } else {
        up
    }
}

/// What comes of one frame.
#[verifier::ext_equal]
pub struct Frame {
    pub screen: Screen,
    pub controls: Controls,
    /// The messages to the server, in order.
    pub messages: Seq<ClientMessage>,
    /// The login, once it is complete.
    pub login: Option<(Seq<char>, ShipClass)>,
    pub quit: bool,
}

/// A frame in which nothing happens but that the screen changes.
pub open spec fn quiet(screen: Screen, c: Controls) -> Frame {
    Frame { screen, controls: c, messages: Seq::empty(), login: None, quit: false }
}

/// A frame of typing the callsign.
pub open spec fn name_frame(buf: Seq<char>, error: bool, c: Controls, k: Keys) -> Frame {
    let short = shortened(buf, k.backspace);
    let full = typed(short, k.typed@);
    let after = error && !k.backspace && !adds(short, k.typed@);
    if enters(k) {
        if full.len() < MIN_CALLSIGN {
            quiet(Screen::LoginName { buf: full, error: true }, c)
        } else {
            quiet(Screen::LoginShip { username: full, selected_idx: 1 }, c)
        }
    } else {
        quiet(Screen::LoginName { buf: full, error: after }, c)
    }
}

/// A frame of choosing the first ship.
pub open spec fn ship_frame(username: Seq<char>, i: int, c: Controls, k: Keys) -> Frame {
    let j = reselected(i, k);
    if enters(k) {
        Frame {
            screen: Screen::Playing,
            controls: Controls { current_class: class_at(j), just_entered_game: true, ..c },
            messages: Seq::empty(),
            login: Some((username, class_at(j))),
            quit: false,
        }
    } else {
        quiet(Screen::LoginShip { username, selected_idx: j }, c)
    }
}

/// The countdown to self-destruction after a frame, and whether it has run out.
pub open spec fn counted_down(countdown: Option<Single>, dt: Single) -> (Option<Single>, bool) {
    match countdown {
        Some(left) => if le(difference(left, dt), zero()) {
            (None, true)
        } else {
            (Some(difference(left, dt)), false)
        },
        None => (None, false),
    }
}

/// A frame of play: the input goes to the server, and the self-destruction when its countdown has
/// run out.
pub open spec fn play_frame(c: Controls, k: Keys, p: Pointer, dt: Single, t: Trace) -> (
    Frame,
    Trace,
) {
    let c1 = switched(c, k);
    let (input, t1) = input_of(c1, k, p, t);
    let (countdown, over) = counted_down(c1.self_destruct_countdown, dt);
    (
        Frame {
            screen: Screen::Playing,
            controls: Controls { self_destruct_countdown: countdown, ..c1 },
            messages: if over {
                seq![ClientMessage::Input(input), ClientMessage::SelfDestruct]
            } else {
                seq![ClientMessage::Input(input)]
            },
            login: None,
            quit: false,
        },
        t1,
    )
}

/// The choice of a ship after a death, with the previous one selected.
pub open spec fn choosing(class: ShipClass) -> Screen {
    Screen::DeadChoosing {
        previous_class: class,
        selected_idx: index_of(class),
        countdown: from_whole(10),
    }
}

/// A frame of watching the debris.
pub open spec fn watch_frame(
    class: ShipClass,
    timer: Single,
    self_destruct: bool,
    c: Controls,
    dt: Single,
) -> Frame {
    let left = difference(timer, dt);
    if le(left, zero()) {
        quiet(
            if self_destruct {
                Screen::SelfDestructed
            } else {
                choosing(class)
            },
            c,
        )
    } else {
        quiet(Screen::DeadWatching { previous_class: class, timer: left, self_destruct }, c)
    }
}

/// A frame after the player destroyed their own ship.
pub open spec fn rejoin_frame(c: Controls, k: Keys) -> Frame {
    if k.r {
        quiet(choosing(c.current_class), c)
    } else {
        Frame { quit: k.q, ..quiet(Screen::SelfDestructed, c) }
    }
}

/// A frame of choosing a ship after a death: confirmed, the selected class returns; when the
/// countdown has run out, the previous one does.
pub open spec fn choice_frame(
    class: ShipClass,
    i: int,
    countdown: Single,
    c: Controls,
    k: Keys,
    dt: Single,
) -> Frame {
    let j = reselected(i, k);
    let left = difference(countdown, dt);
    let c1 = Controls { show_minimap: c.show_minimap != k.m, ..c };
    let confirmed = enters(k) || k.r;
    if confirmed || le(left, zero()) {
        let chosen = if confirmed {
            class_at(j)
        } else {
            class
        };
        Frame {
            screen: Screen::Playing,
            controls: Controls {
                current_class: chosen,
                shields_on: true,
                shields_settling: SETTLING_REPORTS,
                cloak_on: false,
                just_entered_game: true,
                ..c1
            },
            messages: seq![
                ClientMessage::SelectShip { class: chosen },
                ClientMessage::RequestRespawn,
            ],
            login: None,
            quit: false,
        }
    } else {
        quiet(
            Screen::DeadChoosing { previous_class: class, selected_idx: j, countdown: left },
            c1,
        )
    }
}

/// One frame of the client's phases.
pub open spec fn frame_of(
    screen: Screen,
    c: Controls,
    k: Keys,
    p: Pointer,
    dt: Single,
    t: Trace,
) -> (Frame, Trace) {
    match screen {
        Screen::LoginName { buf, error } => (name_frame(buf, error, c, k), t),
        Screen::LoginShip { username, selected_idx } => (
            ship_frame(username, selected_idx, c, k),
            t,
        ),
        Screen::Playing => play_frame(c, k, p, dt, t),
        Screen::DeadWatching { previous_class, timer, self_destruct } => (
            watch_frame(previous_class, timer, self_destruct, c, dt),
            t,
        ),
        Screen::DeadChoosing { previous_class, selected_idx, countdown } => (
            choice_frame(previous_class, selected_idx, countdown, c, k, dt),
            t,
        ),
        Screen::SelfDestructed => (rejoin_frame(c, k), t),
    }
}

/// Whether a screen holds a callsign that is one and a selection that is in the list.
pub open spec fn is_sound(screen: Screen) -> bool {
    match screen {
        Screen::LoginName { buf, error } => is_callsign_start(buf),
        Screen::LoginShip { username, selected_idx } => is_callsign(username) && 0 <= selected_idx
            < 5,
        Screen::DeadChoosing { previous_class, selected_idx, countdown } => 0 <= selected_idx < 5,
        _ => true,
    }
}

/// Whatever keys are pressed, the selection stays in the list, what is typed stays within the
/// rules for callsigns, and a player logs in only with a callsign that follows them.
pub proof fn law_screens_stay_sound(
    screen: Screen,
    c: Controls,
    k: Keys,
    p: Pointer,
    dt: Single,
    t: Trace,
)
    requires
        is_sound(screen),
    ensures
        is_sound(frame_of(screen, c, k, p, dt, t).0.screen),
        frame_of(screen, c, k, p, dt, t).0.login matches Some(login) ==> is_callsign(login.0),
{
    if let Screen::LoginName { buf, error } = screen {
        lemma_typed(shortened(buf, k.backspace), k.typed@);
    }
}

/// When the countdown after a death runs out without a choice, the player returns in the ship they
/// had before.
pub proof fn law_timeout_keeps_the_ship(
    class: ShipClass,
    i: int,
    countdown: Single,
    c: Controls,
    k: Keys,
    dt: Single,
)
    requires
        !enters(k),
        !k.r,
        le(difference(countdown, dt), zero()),
    ensures
        choice_frame(class, i, countdown, c, k, dt).messages == seq![
            ClientMessage::SelectShip { class },
            ClientMessage::RequestRespawn,
        ],
        choice_frame(class, i, countdown, c, k, dt).controls.current_class == class,
        choice_frame(class, i, countdown, c, k, dt).controls.shields_on,
{
}

/// What a frame did, beside changing the phase and the controls.
#[derive(Debug)]
pub struct Outcome {
    /// The messages to the server, in order.
    pub messages: Vec<ClientMessage>,
    /// The login, once it is complete.
    pub login: Option<LoginInfo>,
    pub quit: bool,
}

/// Whether a phase, the controls and an outcome are those of a frame.
pub open spec fn shows(f: Frame, phase: AppPhase, c: Controls, o: Outcome) -> bool {
    &&& phase@ == f.screen
    &&& c == f.controls
    &&& o.messages@ == f.messages
    &&& o.quit == f.quit
    &&& match o.login {
        Some(info) => f.login == Some((info.username@, info.ship_class)),
        None => f.login is None,
    }
}

/// The capital of a letter.
pub fn capitalise(c: char) -> (r: char)
    ensures
        r == capital(c),
{
    if 'a' <= c && c <= 'z' {
        ((c as u8) - 32) as char
    } else {
        c
    }
}

/// Takes what was typed into a callsign; tells whether it added anything.
fn type_all(buf: &mut String, cs: &Vec<char>) -> (r: bool)
    ensures
        final(buf)@ == typed(old(buf)@, cs@),
        r == adds(old(buf)@, cs@),
{
    let mut added: bool = false;
    let mut i: usize = 0;
    while i < cs.len()
        invariant
            i <= cs.len(),
            buf@ == typed(old(buf)@, cs@.take(i as int)),
            buf@.len() >= old(buf)@.len(),
            added == (buf@.len() > old(buf)@.len()),
        decreases cs.len() - i,
    {
        let c: char = capitalise(cs[i]);
        proof {
            assert(cs@.take(i + 1).drop_last() =~= cs@.take(i as int));
        }
        let belongs: bool = 'A' <= c && c <= 'Z' || '0' <= c && c <= '9' || c == '_';
        if belongs && buf.as_str().unicode_len() < MAX_CALLSIGN {
            buf.push(c);
            added = true;
        }
        i = i + 1;
    }
    proof {
        assert(cs@.take(i as int) =~= cs@);
    }
    added
}

fn reselect(i: usize, k: &Keys) -> (r: usize)
    ensures
        r == reselected(i as int, *k),
{
    let mut j: usize = i;
    if (k.up || k.w) && j > 0 {
        j = j - 1;
    }
    if (k.down || k.s) && j < 4 {
        j = j + 1;
    }
    j
}

fn idle() -> (r: Outcome)
    ensures
        r.messages@ == Seq::<ClientMessage>::empty(),
        r.login is None,
        !r.quit,
{
    Outcome { messages: Vec::new(), login: None, quit: false }
}

fn choose_ship(class: ShipClass) -> (r: AppPhase)
    ensures
        r@ == choosing(class),
{
    AppPhase::DeadChoosing {
        previous_class: class,
        selected_idx: index_of_class(class),
        countdown: Single::whole(10),
    }
}

fn name_step(buf: String, error: bool, k: &Keys) -> (r: AppPhase)
    ensures
        forall|c: Controls| #[trigger] name_frame(buf@, error, c, *k) == quiet(r@, c),
{
    let mut buf: String = buf;
    let mut error: bool = error;
    let ghost b0 = buf@;
    if k.backspace {
        let _c: Option<char> = buf.pop();
        error = false;
    }
    assert(buf@ == shortened(b0, k.backspace));
    let added: bool = type_all(&mut buf, &k.typed);
    if added {
        error = false;
    }
    if k.enter || k.keypad_enter {
        if buf.as_str().unicode_len() < MIN_CALLSIGN {
            AppPhase::LoginName { buf, error: true }
        } else {
            AppPhase::LoginShip { username: buf, selected_idx: 1 }
        }
    } else {
        AppPhase::LoginName { buf, error }
    }
}

fn ship_step(username: String, selected_idx: usize, c: &mut Controls, k: &Keys) -> (r: (
    AppPhase,
    Outcome,
))
    ensures
        shows(
            ship_frame(username@, selected_idx as int, *old(c), *k),
            r.0,
            *final(c),
            r.1,
        ),
{
    let j: usize = reselect(selected_idx, k);
    if k.enter || k.keypad_enter {
        let class: ShipClass = class_of_index(j);
        c.current_class = class;
        c.just_entered_game = true;
        let mut o: Outcome = idle();
        o.login = Some(LoginInfo { username, ship_class: class });
        (AppPhase::Playing, o)
    } else {
        (AppPhase::LoginShip { username, selected_idx: j }, idle())
    }
}

fn play_step<F: Fn(Ask) -> Single>(
    c: &mut Controls,
    k: &Keys,
    p: &Pointer,
    dt: Single,
    oracle: &mut Oracle<F>,
) -> (o: Outcome)
    ensures
        final(oracle).follows(*old(oracle)),
        forall|rest: Trace|
            {
                let (f, after) = #[trigger] play_frame(
                    *old(c),
                    *k,
                    *p,
                    dt,
                    final(oracle).since(*old(oracle)) + rest,
                );
                shows(f, AppPhase::Playing, *final(c), o) && after == rest
            },
{
    let input: PlayerInput = c.collect_input(k, p, oracle);
    let mut messages: Vec<ClientMessage> = Vec::new();
    messages.push(ClientMessage::Input(input));
    assert(messages@ =~= seq![ClientMessage::Input(input)]);
    if let Some(left) = c.self_destruct_countdown {
        let rest: Single = left.minus(dt);
        if rest.is_at_most(Single::nought()) {
            c.self_destruct_countdown = None;
            messages.push(ClientMessage::SelfDestruct);
            assert(messages@ =~= seq![ClientMessage::Input(input), ClientMessage::SelfDestruct]);
        } else {
            c.self_destruct_countdown = Some(rest);
        }
    }
    Outcome { messages, login: None, quit: false }
}

fn choice_step(
    class: ShipClass,
    selected_idx: usize,
    countdown: Single,
    c: &mut Controls,
    k: &Keys,
    dt: Single,
) -> (r: (AppPhase, Outcome))
    ensures
        shows(
            choice_frame(class, selected_idx as int, countdown, *old(c), *k, dt),
            r.0,
            *final(c),
            r.1,
        ),
{
    c.show_minimap = c.show_minimap != k.m;
    let j: usize = reselect(selected_idx, k);
    let confirmed: bool = k.enter || k.keypad_enter || k.r;
    let left: Single = countdown.minus(dt);
    if confirmed || left.is_at_most(Single::nought()) {
        let chosen: ShipClass = if confirmed {
            class_of_index(j)
        } else {
            class
        };
        c.current_class = chosen;
        c.shields_on = true;
        c.shields_settling = SETTLING_REPORTS;
        c.cloak_on = false;
        c.just_entered_game = true;
        let mut o: Outcome = idle();
        o.messages.push(ClientMessage::SelectShip { class: chosen });
        o.messages.push(ClientMessage::RequestRespawn);
        assert(o.messages@ =~= seq![
            ClientMessage::SelectShip { class: chosen },
            ClientMessage::RequestRespawn,
        ]);
        (AppPhase::Playing, o)
    } else {
        (
            AppPhase::DeadChoosing { previous_class: class, selected_idx: j, countdown: left },
            idle(),
        )
    }
}

/// One frame of the client's phases.
pub fn update_phase<F: Fn(Ask) -> Single>(
    phase: AppPhase,
    c: &mut Controls,
    k: &Keys,
    p: &Pointer,
    dt: Single,
    oracle: &mut Oracle<F>,
) -> (r: (AppPhase, Outcome))
    ensures
        final(oracle).follows(*old(oracle)),
        forall|rest: Trace|
            {
                let (f, after) = #[trigger] frame_of(
                    phase@,
                    *old(c),
                    *k,
                    *p,
                    dt,
                    final(oracle).since(*old(oracle)) + rest,
                );
                shows(f, r.0, *final(c), r.1) && after == rest
            },
{
    proof {
        lemma_since_now(*oracle);
    }
    match phase {
        AppPhase::LoginName { buf, error } => (name_step(buf, error, k), idle()),
        AppPhase::LoginShip { username, selected_idx } => ship_step(username, selected_idx, c, k),
        AppPhase::Playing => (AppPhase::Playing, play_step(c, k, p, dt, oracle)),
        AppPhase::DeadWatching { previous_class, timer, self_destruct } => {
            let left: Single = timer.minus(dt);
            let next: AppPhase = if left.is_at_most(Single::nought()) {
                if self_destruct {
                    AppPhase::SelfDestructed
                } else {
                    choose_ship(previous_class)
                }
            } else {
                AppPhase::DeadWatching { previous_class, timer: left, self_destruct }
            };
            (next, idle())
        },
        AppPhase::DeadChoosing { previous_class, selected_idx, countdown } => {
            choice_step(previous_class, selected_idx, countdown, c, k, dt)
        },
        AppPhase::SelfDestructed => {
            if k.r {
                (choose_ship(c.current_class), idle())
            } else {
                let mut o: Outcome = idle();
                o.quit = k.q;
                (AppPhase::SelfDestructed, o)
            }
        },
    }
}

} // verus!
