//! The screens and overlays around the game: login, death, help.
use vstd::prelude::*;
use vstd::string::*;

use crate::game::{class_stats, cloaks, name_of, ShipClass, ShipStats};
use crate::hud::named;
use crate::paint::{
    drawn, figure, ink, print, print_owned, print_seconds, text_at, timed_at, Anchor, Drawn, Figure,
    Ink, Named, Seconds, Shape,
};
use crate::phase::{class_at, class_of_index};
use crate::scene::{fig, gauge, share, stroke};
use crate::single::{
    difference, from_fraction, from_whole, greater, product, quotient, sum, zero, Single,
};
use crate::text::{digits, push_number};

verus! {

/// The size of the window.
#[derive(Debug, Clone, Copy)]
pub struct Window {
    pub width: Single,
    pub height: Single,
}

/// The middle of the window from left to right.
pub open spec fn middle_x(w: Window) -> Single {
    quotient(w.width, from_whole(2))
}

/// A line that is some units below the middle of the window.
pub open spec fn middle_y(w: Window, dy: int) -> Single {
    if dy < 0 {
        difference(quotient(w.height, from_whole(2)), from_whole(-dy))
    } else {
        sum(quotient(w.height, from_whole(2)), from_whole(dy))
    }
}

/// A centred text.
pub open spec fn centred(text: Seq<char>, x: Single, y: Single, size: int, ink: Ink) -> Drawn {
    text_at(text, x, y, from_whole(size), Anchor::Middle, ink)
}

/// A centred text in the middle of the window, some units below the middle.
pub open spec fn caption(w: Window, text: Seq<char>, dy: int, size: int, ink: Ink) -> Drawn {
    centred(text, middle_x(w), middle_y(w, dy), size, ink)
}

/// A dark sheet over the whole window.
pub open spec fn sheet(w: Window, ink: Ink) -> Drawn {
    fig(Figure::Block { x: zero(), y: zero(), w: w.width, h: w.height, ink })
}

/// The name of a class in capitals.
pub open spec fn class_title(class: ShipClass) -> Seq<char> {
    match class {
        ShipClass::Scout => "SCOUT"@,
        ShipClass::Destroyer => "DESTROYER"@,
        ShipClass::Cruiser => "CRUISER"@,
        ShipClass::Battleship => "BATTLESHIP"@,
        ShipClass::Carrier => "CARRIER"@,
    }
}

/// The name of a class in capitals.
pub fn class_label(class: ShipClass) -> (r: &'static str)
    ensures
        r@ == class_title(class),
{
    match class {
        ShipClass::Scout => "SCOUT",
        ShipClass::Destroyer => "DESTROYER",
        ShipClass::Cruiser => "CRUISER",
        ShipClass::Battleship => "BATTLESHIP",
        ShipClass::Carrier => "CARRIER",
    }
}

impl Window {
    fn middle(&self) -> (r: Single)
        ensures
            r == middle_x(*self),
    {
        self.width.over(Single::whole(2))
    }

    fn line(&self, dy: i32) -> (r: Single)
        requires
            -1000 <= dy <= 1000,
        ensures
            r == middle_y(*self, dy as int),
    {
        if dy < 0 {
            self.height.over(Single::whole(2)).minus(Single::whole(-dy))
        } else {
            self.height.over(Single::whole(2)).plus(Single::whole(dy))
        }
    }
}

/// Writes a centred text.
pub fn centered_text(list: &mut Vec<Shape>, text: &str, cx: Single, y: Single, size: i32, ink: Ink)
    ensures
        drawn(*final(list)) == drawn(*old(list)).push(centred(text@, cx, y, size as int, ink)),
{
    print(list, text, cx, y, Single::whole(size), Anchor::Middle, ink);
}

fn write_caption(list: &mut Vec<Shape>, w: &Window, text: &str, dy: i32, size: i32, ink: Ink)
    requires
        -1000 <= dy <= 1000,
    ensures
        drawn(*final(list)) == drawn(*old(list)).push(
            caption(*w, text@, dy as int, size as int, ink),
        ),
{
    centered_text(list, text, w.middle(), w.line(dy), size, ink);
}

fn draw_sheet(list: &mut Vec<Shape>, w: &Window, ink: Ink)
    ensures
        drawn(*final(list)) == drawn(*old(list)).push(sheet(*w, ink)),
{
    figure(
        list,
        Figure::Block {
            x: Single::nought(),
            y: Single::nought(),
            w: w.width,
            h: w.height,
            ink,
        },
    );
}

/// The headings above the callsign.
pub open spec fn name_heading(w: Window, server_name: Seq<char>) -> Seq<Drawn> {
    seq![
        caption(w, "FLEET COMMANDER"@, -138, 40, named(Named::Gold)),
        caption(w, server_name, -104, 15, ink(55, 55, 65, 100)),
        caption(w, "Enter pilot callsign"@, -72, 20, named(Named::LightGray)),
        caption(w, "4 – 12 characters   A-Z 0-9 _"@, -48, 14, named(Named::DarkGray)),
    ]
}

/// The box with the callsign and the cursor.
pub open spec fn name_box(w: Window, buf: Seq<char>, error: bool, cursor: bool) -> Seq<Drawn> {
    let x = difference(middle_x(w), from_whole(160));
    let y = middle_y(w, -19);
    seq![
        fig(
            Figure::Block {
                x,
                y,
                w: from_whole(320),
                h: from_whole(38),
                ink: ink(8, 8, 12, 100),
            },
        ),
        fig(
            Figure::Border {
                x,
                y,
                w: from_whole(320),
                h: from_whole(38),
                thickness: from_whole(2),
                ink: named(
                    if error {
                        Named::Red
                    } else {
                        Named::DarkGray
                    },
                ),
            },
        ),
        caption(
            w,
            buf + if cursor {
                "█"@
            } else {
                " "@
            },
            8,
            22,
            named(Named::White),
        ),
        caption(
            w,
            digits(buf.len()) + " / 12"@,
            36,
            13,
            if buf.len() < 4 {
                ink(70, 30, 30, 100)
            } else {
                ink(30, 70, 30, 100)
            },
        ),
    ]
}

/// The message about a callsign that is too short.
pub open spec fn name_error(w: Window, error: bool) -> Seq<Drawn> {
    if error {
        seq![
            caption(w, "Callsign must be at least 4 characters"@, 56, 14, named(Named::Red)),
        ]
    } else {
        Seq::empty()
    }
}

/// The screen for the callsign.
pub open spec fn login_name_shapes(
    w: Window,
    buf: Seq<char>,
    error: bool,
    server_name: Seq<char>,
    cursor: bool,
) -> Seq<Drawn> {
    name_heading(w, server_name) + name_box(w, buf, error, cursor) + name_error(w, error) + seq![
        caption(w, "ENTER  to confirm"@, 90, 14, named(Named::DarkGray)),
    ]
}

/// Draws the screen for the callsign; `cursor` tells whether the cursor is lit.
pub fn draw_login_name(
    list: &mut Vec<Shape>,
    w: &Window,
    buf: &str,
    error: bool,
    server_name: &str,
    cursor: bool,
)
    ensures
        drawn(*final(list)) == drawn(*old(list)) + login_name_shapes(
            *w,
            buf@,
            error,
            server_name@,
            cursor,
        ),
{
    write_caption(list, w, "FLEET COMMANDER", -138, 40, Ink::Named(Named::Gold));
    write_caption(list, w, server_name, -104, 15, Ink::mix(55, 55, 65, 100));
    write_caption(list, w, "Enter pilot callsign", -72, 20, Ink::Named(Named::LightGray));
    write_caption(
        list,
        w,
        "4 – 12 characters   A-Z 0-9 _",
        -48,
        14,
        Ink::Named(Named::DarkGray),
    );
    assert(drawn(*list) =~= drawn(*old(list)) + name_heading(*w, server_name@));
    let x: Single = w.middle().minus(Single::whole(160));
    let y: Single = w.line(-19);
    figure(
        list,
        Figure::Block {
            x,
            y,
            w: Single::whole(320),
            h: Single::whole(38),
            ink: Ink::mix(8, 8, 12, 100),
        },
    );
    let border: Named = if error {
        Named::Red
    } else {
        Named::DarkGray
    };
    figure(
        list,
        Figure::Border {
            x,
            y,
            w: Single::whole(320),
            h: Single::whole(38),
            thickness: Single::whole(2),
            ink: Ink::Named(border),
        },
    );
    let mut display: String = String::from_str(buf);
    if cursor {
        display.append("█");
    } else {
        display.append(" ");
    }
    write_caption(list, w, display.as_str(), 8, 22, Ink::Named(Named::White));
    let len: usize = buf.unicode_len();
    let color: Ink = if len < 4 {
        Ink::mix(70, 30, 30, 100)
    } else {
        Ink::mix(30, 70, 30, 100)
    };
    let mut count: String = String::new();
    push_number(&mut count, len as u64);
    count.append(" / 12");
    proof {
        assert(count@ =~= digits(buf@.len()) + " / 12"@);
    }
    write_caption(list, w, count.as_str(), 36, 13, color);
    if error {
        write_caption(
            list,
            w,
            "Callsign must be at least 4 characters",
            56,
            14,
            Ink::Named(Named::Red),
        );
    }
    write_caption(list, w, "ENTER  to confirm", 90, 14, Ink::Named(Named::DarkGray));
    assert(drawn(*list) =~= drawn(*old(list)) + login_name_shapes(
        *w,
        buf@,
        error,
        server_name@,
        cursor,
    ));
}

/// A bar of a ship's statistics.
pub open spec fn stat_bar(
    x: Single,
    y: Single,
    level: Single,
    color: Ink,
    name: Seq<char>,
    active: bool,
) -> Seq<Drawn> {
    seq![
        fig(
            Figure::Block {
                x,
                y,
                w: from_whole(130),
                h: from_whole(5),
                ink: ink(15, 15, 15, 100),
            },
        ),
        fig(
            Figure::Block {
                x,
                y,
                w: product(from_whole(130), level),
                h: from_whole(5),
                ink: color,
            },
        ),
        text_at(
            name,
            x,
            difference(y, from_whole(2)),
            from_whole(10),
            Anchor::Start,
            named(
                if active {
                    Named::LightGray
                } else {
                    Named::DarkGray
                },
            ),
        ),
    ]
}

/// The ground of the row that is selected.
pub open spec fn row_ground(cx: Single, y: Single, selected: bool) -> Seq<Drawn> {
    if selected {
        let x = difference(cx, from_whole(310));
        let top = difference(y, from_whole(2));
        seq![
            fig(
                Figure::Block {
                    x,
                    y: top,
                    w: from_whole(620),
                    h: from_whole(42),
                    ink: ink(12, 18, 28, 100),
                },
            ),
            fig(
                Figure::Border {
                    x,
                    y: top,
                    w: from_whole(620),
                    h: from_whole(42),
                    thickness: from_fraction(3, 2),
                    ink: ink(30, 60, 100, 80),
                },
            ),
        ]
    } else {
        Seq::empty()
    }
}

/// The name of a class in the list.
pub open spec fn row_title(class: ShipClass, selected: bool) -> Seq<char> {
    (if selected {
        "▶"@
    } else {
        " "@
    }) + "  "@ + class_title(class) + "  —  "@ + name_of(class)
}

/// The badge of a class that can cloak.
pub open spec fn cloak_badge(cx: Single, y: Single, class: ShipClass) -> Seq<Drawn> {
    if cloaks(class) {
        let x = sum(cx, from_whole(240));
        let top = sum(y, from_whole(5));
        seq![
            fig(
                Figure::Block {
                    x,
                    y: top,
                    w: from_whole(50),
                    h: from_whole(14),
                    ink: ink(10, 30, 40, 90),
                },
            ),
            centred(
                "CLOAK"@,
                sum(x, from_whole(25)),
                sum(top, from_whole(10)),
                11,
                ink(40, 90, 100, 100),
            ),
        ]
    } else {
        Seq::empty()
    }
}

/// One row of the list of ships.
pub open spec fn ship_row(cx: Single, y: Single, class: ShipClass, selected: bool) -> Seq<Drawn> {
    let stats = class_stats(class);
    let x = difference(cx, from_whole(207));
    let bar = sum(y, from_whole(24));
    row_ground(cx, y, selected) + seq![
        centred(
            row_title(class, selected),
            cx,
            sum(y, from_whole(16)),
            18,
            if selected {
                named(Named::White)
            } else {
                ink(55, 55, 55, 100)
            },
        ),
    ] + stat_bar(
        x,
        bar,
        share(stats.max_hull, from_whole(400)),
        ink(85, 20, 20, 90),
        "HULL"@,
        selected,
    ) + stat_bar(
        sum(sum(x, from_whole(130)), from_whole(12)),
        bar,
        share(stats.max_shields, from_whole(250)),
        ink(20, 55, 100, 90),
        "SHLD"@,
        selected,
    ) + stat_bar(
        sum(x, from_whole(284)),
        bar,
        share(stats.max_speed, from_whole(300)),
        ink(20, 85, 45, 90),
        "SPD"@,
        selected,
    ) + cloak_badge(cx, y, class)
}

/// The first `n` rows of the list of ships.
pub open spec fn ship_rows(cx: Single, top: Single, selected: int, n: nat) -> Seq<Drawn>
    decreases n,
{
    if n == 0 {
        Seq::empty()
    } else {
        let i = n - 1;
        ship_rows(cx, top, selected, i as nat) + ship_row(
            cx,
            sum(top, product(from_whole(i), from_whole(46))),
            class_at(i),
            i == selected,
        )
    }
}

fn draw_stat_bar(
    list: &mut Vec<Shape>,
    x: Single,
    y: Single,
    level: Single,
    color: Ink,
    name: &str,
    active: bool,
)
    ensures
        drawn(*final(list)) == drawn(*old(list)) + stat_bar(x, y, level, color, name@, active),
{
    let w: Single = Single::whole(130);
    let h: Single = Single::whole(5);
    figure(list, Figure::Block { x, y, w, h, ink: Ink::mix(15, 15, 15, 100) });
    figure(list, Figure::Block { x, y, w: w.times(level), h, ink: color });
    let gray: Named = if active {
        Named::LightGray
    } else {
        Named::DarkGray
    };
    print(
        list,
        name,
        x,
        y.minus(Single::whole(2)),
        Single::whole(10),
        Anchor::Start,
        Ink::Named(gray),
    );
    assert(drawn(*list) =~= drawn(*old(list)) + stat_bar(x, y, level, color, name@, active));
}

fn draw_row_ground(list: &mut Vec<Shape>, cx: Single, y: Single, selected: bool)
    ensures
        drawn(*final(list)) == drawn(*old(list)) + row_ground(cx, y, selected),
{
    if selected {
        let x: Single = cx.minus(Single::whole(310));
        let top: Single = y.minus(Single::whole(2));
        let w: Single = Single::whole(620);
        let h: Single = Single::whole(42);
        figure(list, Figure::Block { x, y: top, w, h, ink: Ink::mix(12, 18, 28, 100) });
        figure(
            list,
            Figure::Border {
                x,
                y: top,
                w,
                h,
                thickness: Single::fraction(3, 2),
                ink: Ink::mix(30, 60, 100, 80),
            },
        );
    }
    assert(drawn(*list) =~= drawn(*old(list)) + row_ground(cx, y, selected));
}

fn draw_badge(list: &mut Vec<Shape>, cx: Single, y: Single, class: ShipClass)
    ensures
        drawn(*final(list)) == drawn(*old(list)) + cloak_badge(cx, y, class),
{
    if class.can_cloak() {
        let x: Single = cx.plus(Single::whole(240));
        let top: Single = y.plus(Single::whole(5));
        figure(
            list,
            Figure::Block {
                x,
                y: top,
                w: Single::whole(50),
                h: Single::whole(14),
                ink: Ink::mix(10, 30, 40, 90),
            },
        );
        centered_text(
            list,
            "CLOAK",
            x.plus(Single::whole(25)),
            top.plus(Single::whole(10)),
            11,
            Ink::mix(40, 90, 100, 100),
        );
    }
    assert(drawn(*list) =~= drawn(*old(list)) + cloak_badge(cx, y, class));
}

fn title_row(class: ShipClass, selected: bool) -> (r: String)
    ensures
        r@ == row_title(class, selected),
{
    let mut s: String = if selected {
        String::from_str("▶")
    } else {
        String::from_str(" ")
    };
    s.append("  ");
    s.append(class_label(class));
    s.append("  —  ");
    s.append(class.display_name());
    s
}

fn draw_ship_row(list: &mut Vec<Shape>, cx: Single, y: Single, class: ShipClass, selected: bool)
    ensures
        drawn(*final(list)) == drawn(*old(list)) + ship_row(cx, y, class, selected),
{
    let stats: ShipStats = class.stats();
    let x: Single = cx.minus(Single::whole(207));
    let bar: Single = y.plus(Single::whole(24));
    draw_row_ground(list, cx, y, selected);
    let color: Ink = if selected {
        Ink::Named(Named::White)
    } else {
        Ink::mix(55, 55, 55, 100)
    };
    print_owned(
        list,
        title_row(class, selected),
        cx,
        y.plus(Single::whole(16)),
        Single::whole(18),
        Anchor::Middle,
        color,
    );
    draw_stat_bar(
        list,
        x,
        bar,
        gauge(stats.max_hull, Single::whole(400)),
        Ink::mix(85, 20, 20, 90),
        "HULL",
        selected,
    );
    draw_stat_bar(
        list,
        x.plus(Single::whole(130)).plus(Single::whole(12)),
        bar,
        gauge(stats.max_shields, Single::whole(250)),
        Ink::mix(20, 55, 100, 90),
        "SHLD",
        selected,
    );
    draw_stat_bar(
        list,
        x.plus(Single::whole(284)),
        bar,
        gauge(stats.max_speed, Single::whole(300)),
        Ink::mix(20, 85, 45, 90),
        "SPD",
        selected,
    );
    draw_badge(list, cx, y, class);
    assert(drawn(*list) =~= drawn(*old(list)) + ship_row(cx, y, class, selected));
}

/// Draws the list of ships with the selected one highlighted.
pub fn draw_ship_list(list: &mut Vec<Shape>, cx: Single, top_y: Single, selected_idx: usize)
    ensures
        drawn(*final(list)) == drawn(*old(list)) + ship_rows(cx, top_y, selected_idx as int, 5),
{
    let mut i: usize = 0;
    proof {
        assert(drawn(*list) =~= drawn(*old(list)) + ship_rows(cx, top_y, selected_idx as int, 0));
    }
    while i < 5
        invariant
            i <= 5,
            drawn(*list) == drawn(*old(list)) + ship_rows(
                cx,
                top_y,
                selected_idx as int,
                i as nat,
            ),
        decreases 5 - i,
    {
        let y: Single = top_y.plus(Single::whole(i as i32).times(Single::whole(46)));
        draw_ship_row(list, cx, y, class_of_index(i), i == selected_idx);
        i = i + 1;
        proof {
            assert(drawn(*list) =~= drawn(*old(list)) + ship_rows(
                cx,
                top_y,
                selected_idx as int,
                i as nat,
            ));
        }
    }
}

/// The screen for the first ship.
pub open spec fn login_ship_shapes(w: Window, selected: int, server_name: Seq<char>) -> Seq<Drawn> {
    seq![
        caption(w, "FLEET COMMANDER"@, -165, 40, named(Named::Gold)),
        caption(w, server_name, -131, 15, ink(55, 55, 65, 100)),
        caption(w, "SELECT YOUR SHIP"@, -103, 22, named(Named::LightGray)),
    ] + ship_rows(middle_x(w), middle_y(w, -90), selected, 5) + seq![
        caption(
            w,
            "↑ / ↓  to navigate    ENTER  to launch"@,
            165,
            14,
            named(Named::DarkGray),
        ),
    ]
}

/// Draws the screen for the first ship.
pub fn draw_login_ship(list: &mut Vec<Shape>, w: &Window, selected_idx: usize, server_name: &str)
    ensures
        drawn(*final(list)) == drawn(*old(list)) + login_ship_shapes(
            *w,
            selected_idx as int,
            server_name@,
        ),
{
    write_caption(list, w, "FLEET COMMANDER", -165, 40, Ink::Named(Named::Gold));
    write_caption(list, w, server_name, -131, 15, Ink::mix(55, 55, 65, 100));
    write_caption(list, w, "SELECT YOUR SHIP", -103, 22, Ink::Named(Named::LightGray));
    draw_ship_list(list, w.middle(), w.line(-90), selected_idx);
    write_caption(
        list,
        w,
        "↑ / ↓  to navigate    ENTER  to launch",
        165,
        14,
        Ink::Named(Named::DarkGray),
    );
    assert(drawn(*list) =~= drawn(*old(list)) + login_ship_shapes(
        *w,
        selected_idx as int,
        server_name@,
    ));
}

/// The band above the debris of the player's ship.
pub open spec fn watching_shapes(w: Window, timer: Single) -> Seq<Drawn> {
    seq![
        fig(
            Figure::Block {
                x: zero(),
                y: zero(),
                w: w.width,
                h: from_whole(52),
                ink: ink(0, 0, 0, 65),
            },
        ),
        centred("SHIP DESTROYED"@, middle_x(w), from_whole(22), 26, named(Named::Red)),
        timed_at(
            "Selection screen in "@,
            Seconds { value: greater(timer, zero()), spaced: false },
            middle_x(w),
            from_whole(42),
            from_whole(14),
            Anchor::Middle,
            ink(75, 35, 35, 100),
            None,
        ),
    ]
}

/// Draws the band above the debris of the player's ship.
pub fn draw_dead_watching_overlay(list: &mut Vec<Shape>, w: &Window, timer: Single)
    ensures
        drawn(*final(list)) == drawn(*old(list)) + watching_shapes(*w, timer),
{
    figure(
        list,
        Figure::Block {
            x: Single::nought(),
            y: Single::nought(),
            w: w.width,
            h: Single::whole(52),
            ink: Ink::mix(0, 0, 0, 65),
        },
    );
    centered_text(
        list,
        "SHIP DESTROYED",
        w.middle(),
        Single::whole(22),
        26,
        Ink::Named(Named::Red),
    );
    print_seconds(
        list,
        String::from_str("Selection screen in "),
        Seconds { value: timer.max(Single::nought()), spaced: false },
        w.middle(),
        Single::whole(42),
        Single::whole(14),
        Anchor::Middle,
        Ink::mix(75, 35, 35, 100),
        None,
    );
    assert(drawn(*list) =~= drawn(*old(list)) + watching_shapes(*w, timer));
}

/// The choice of a ship after a death.
pub open spec fn choosing_shapes(
    w: Window,
    class: ShipClass,
    selected: int,
    countdown: Single,
) -> Seq<Drawn> {
    let x = difference(middle_x(w), from_whole(130));
    let y = middle_y(w, -140);
    let level = share(countdown, from_whole(10));
    seq![
        sheet(w, ink(0, 0, 0, 72)),
        caption(w, "SHIP DESTROYED"@, -165, 32, named(Named::Red)),
        fig(
            Figure::Block {
                x,
                y,
                w: from_whole(260),
                h: from_whole(8),
                ink: ink(20, 20, 20, 100),
            },
        ),
        fig(
            Figure::Block {
                x,
                y,
                w: product(from_whole(260), level),
                h: from_whole(8),
                ink: ink(80, 40, 10, 100),
            },
        ),
        timed_at(
            "Auto-selecting "@ + class_title(class) + " in "@,
            Seconds { value: greater(countdown, zero()), spaced: false },
            middle_x(w),
            middle_y(w, -120),
            from_whole(14),
            Anchor::Middle,
            ink(70, 50, 20, 100),
            None,
        ),
    ] + ship_rows(middle_x(w), middle_y(w, -60), selected, 5) + seq![
        caption(
            w,
            "↑ / ↓  to change   ENTER / R  to confirm"@,
            165,
            14,
            named(Named::DarkGray),
        ),
    ]
}

/// Draws the choice of a ship after a death.
pub fn draw_dead_overlay(
    list: &mut Vec<Shape>,
    w: &Window,
    previous_class: ShipClass,
    selected_idx: usize,
    countdown: Single,
)
    ensures
        drawn(*final(list)) == drawn(*old(list)) + choosing_shapes(
            *w,
            previous_class,
            selected_idx as int,
            countdown,
        ),
{
    draw_sheet(list, w, Ink::mix(0, 0, 0, 72));
    write_caption(list, w, "SHIP DESTROYED", -165, 32, Ink::Named(Named::Red));
    let x: Single = w.middle().minus(Single::whole(130));
    let y: Single = w.line(-140);
    let h: Single = Single::whole(8);
    let full: Single = Single::whole(260);
    let level: Single = gauge(countdown, Single::whole(10));
    figure(list, Figure::Block { x, y, w: full, h, ink: Ink::mix(20, 20, 20, 100) });
    figure(list, Figure::Block { x, y, w: full.times(level), h, ink: Ink::mix(80, 40, 10, 100) });
    let mut text: String = String::from_str("Auto-selecting ");
    text.append(class_label(previous_class));
    text.append(" in ");
    print_seconds(
        list,
        text,
        Seconds { value: countdown.max(Single::nought()), spaced: false },
        w.middle(),
        w.line(-120),
        Single::whole(14),
        Anchor::Middle,
        Ink::mix(70, 50, 20, 100),
        None,
    );
    draw_ship_list(list, w.middle(), w.line(-60), selected_idx);
    write_caption(
        list,
        w,
        "↑ / ↓  to change   ENTER / R  to confirm",
        165,
        14,
        Ink::Named(Named::DarkGray),
    );
    assert(drawn(*list) =~= drawn(*old(list)) + choosing_shapes(
        *w,
        previous_class,
        selected_idx as int,
        countdown,
    ));
}

/// The overlay after the player destroyed their own ship.
pub open spec fn self_destructed_shapes(w: Window) -> Seq<Drawn> {
    seq![
        sheet(w, ink(0, 0, 0, 78)),
        caption(w, "SELF DESTRUCT COMPLETE"@, -50, 32, named(Named::Red)),
        caption(w, "[R]  Rejoin battle"@, 14, 20, ink(70, 90, 70, 100)),
        caption(w, "[Q]  Quit game"@, 44, 20, ink(75, 75, 75, 100)),
    ]
}

/// Draws the overlay after the player destroyed their own ship.
pub fn draw_self_destructed_overlay(list: &mut Vec<Shape>, w: &Window)
    ensures
        drawn(*final(list)) == drawn(*old(list)) + self_destructed_shapes(*w),
{
    draw_sheet(list, w, Ink::mix(0, 0, 0, 78));
    write_caption(list, w, "SELF DESTRUCT COMPLETE", -50, 32, Ink::Named(Named::Red));
    write_caption(list, w, "[R]  Rejoin battle", 14, 20, Ink::mix(70, 90, 70, 100));
    write_caption(list, w, "[Q]  Quit game", 44, 20, Ink::mix(75, 75, 75, 100));
    assert(drawn(*list) =~= drawn(*old(list)) + self_destructed_shapes(*w));
}

/// The screen before the first snapshot.
pub open spec fn connecting_shape(w: Window) -> Drawn {
    caption(w, "Connecting to server…"@, 0, 24, named(Named::White))
}

/// Draws the screen before the first snapshot.
pub fn draw_connecting_screen(list: &mut Vec<Shape>, w: &Window)
    ensures
        drawn(*final(list)) == drawn(*old(list)).push(connecting_shape(*w)),
{
    write_caption(list, w, "Connecting to server…", 0, 24, Ink::Named(Named::White));
}

/// A heading of the help.
pub open spec fn help_head(x: Single, y: int, text: Seq<char>) -> Drawn {
    text_at(text, x, from_whole(y), from_whole(13), Anchor::Start, ink(45, 75, 100, 100))
}

/// A line of the help: the key, and what it does.
pub open spec fn help_line(x: Single, y: int, key: Seq<char>, text: Seq<char>) -> Seq<Drawn> {
    seq![
        text_at(key, x, from_whole(y), from_whole(15), Anchor::Start, ink(90, 85, 40, 100)),
        text_at(
            text,
            sum(x, from_whole(160)),
            from_whole(y),
            from_whole(15),
            Anchor::Start,
            ink(80, 80, 80, 100),
        ),
    ]
}

/// The left column of the help.
pub open spec fn help_left(x: Single) -> Seq<Drawn> {
    seq![help_head(x, 102, "MOVEMENT"@)] + help_line(x, 120, "W / ↑"@, "Thrust forward"@)
        + help_line(x, 142, "S / ↓"@, "Reverse thrust"@) + help_line(
        x,
        164,
        "A / ←"@,
        "Turn left"@,
    ) + help_line(x, 186, "D / →"@, "Turn right"@) + help_line(
        x,
        208,
        "Mouse"@,
        "Aim at cursor"@,
    ) + seq![help_head(x, 236, "WEAPONS"@)] + help_line(x, 254, "LMB / Space"@, "Fire torpedo"@)
        + help_line(x, 276, "RMB / L-Shift"@, "Fire phaser beam"@) + seq![
        help_head(x, 304, "SHIP SYSTEMS"@),
    ] + help_line(x, 322, "F"@, "Toggle shields on / off"@) + help_line(
        x,
        344,
        "C (hold)"@,
        "Cloak"@,
    ) + help_line(x, 366, "Ctrl+Q"@, "Self-destruct (5 s countdown)"@)
}

/// The right column of the help.
pub open spec fn help_right(x: Single) -> Seq<Drawn> {
    seq![help_head(x, 102, "INTERFACE"@)] + help_line(
        x,
        120,
        "H"@,
        "Show / hide this help screen"@,
    ) + help_line(x, 142, "M"@, "Show / hide the map"@) + seq![help_head(x, 170, "AFTER DEATH"@)]
        + help_line(x, 188, "W / S  ↑ / ↓"@, "Choose a ship"@) + help_line(
        x,
        210,
        "R / Enter"@,
        "Confirm and respawn"@,
    ) + seq![help_head(x, 238, "CLOAKING RULES"@)] + help_line(
        x,
        256,
        "While cloaked:"@,
        "Invisible to all other players"@,
    ) + help_line(x, 278, ""@, "Cannot fire weapons"@) + help_line(
        x,
        300,
        ""@,
        "Shields inactive"@,
    ) + help_line(x, 322, ""@, "Fuel drains continuously"@) + help_line(
        x,
        344,
        ""@,
        "Uncloak = fuel exhausted"@,
    ) + seq![help_head(x, 372, "SHIELD RULES"@)] + help_line(
        x,
        390,
        "While on:"@,
        "Take damage before the hull"@,
    ) + help_line(x, 412, ""@, "Each hit costs fuel"@) + help_line(
        x,
        434,
        ""@,
        "Collapse when fuel runs out"@,
    )
}

/// The help.
pub open spec fn help_shapes(w: Window) -> Seq<Drawn> {
    let cx = middle_x(w);
    seq![
        sheet(w, ink(0, 0, 8, 82)),
        centred("FLEET COMMANDER  —  CONTROLS"@, cx, from_whole(60), 24, named(Named::Gold)),
        stroke(
            difference(cx, from_whole(220)),
            from_whole(68),
            sum(cx, from_whole(220)),
            from_whole(68),
            from_whole(1),
            ink(40, 40, 40, 80),
        ),
    ] + help_left(difference(cx, from_whole(280))) + help_right(sum(cx, from_whole(30))) + seq![
        centred(
            "H  to close"@,
            cx,
            difference(w.height, from_whole(30)),
            13,
            ink(45, 45, 45, 100),
        ),
    ]
}

fn write_head(list: &mut Vec<Shape>, x: Single, y: i32, text: &str)
    ensures
        drawn(*final(list)) == drawn(*old(list)).push(help_head(x, y as int, text@)),
{
    print(
        list,
        text,
        x,
        Single::whole(y),
        Single::whole(13),
        Anchor::Start,
        Ink::mix(45, 75, 100, 100),
    );
}

fn write_line(list: &mut Vec<Shape>, x: Single, y: i32, key: &str, text: &str)
    ensures
        drawn(*final(list)) == drawn(*old(list)) + help_line(x, y as int, key@, text@),
{
    print(
        list,
        key,
        x,
        Single::whole(y),
        Single::whole(15),
        Anchor::Start,
        Ink::mix(90, 85, 40, 100),
    );
    print(
        list,
        text,
        x.plus(Single::whole(160)),
        Single::whole(y),
        Single::whole(15),
        Anchor::Start,
        Ink::mix(80, 80, 80, 100),
    );
    assert(drawn(*list) =~= drawn(*old(list)) + help_line(x, y as int, key@, text@));
}

fn draw_help_left(list: &mut Vec<Shape>, x: Single)
    ensures
        drawn(*final(list)) == drawn(*old(list)) + help_left(x),
{
    write_head(list, x, 102, "MOVEMENT");
    write_line(list, x, 120, "W / ↑", "Thrust forward");
    write_line(list, x, 142, "S / ↓", "Reverse thrust");
    write_line(list, x, 164, "A / ←", "Turn left");
    write_line(list, x, 186, "D / →", "Turn right");
    write_line(list, x, 208, "Mouse", "Aim at cursor");
    write_head(list, x, 236, "WEAPONS");
    write_line(list, x, 254, "LMB / Space", "Fire torpedo");
    write_line(list, x, 276, "RMB / L-Shift", "Fire phaser beam");
    write_head(list, x, 304, "SHIP SYSTEMS");
    write_line(list, x, 322, "F", "Toggle shields on / off");
    write_line(list, x, 344, "C (hold)", "Cloak");
    write_line(list, x, 366, "Ctrl+Q", "Self-destruct (5 s countdown)");
    assert(drawn(*list) =~= drawn(*old(list)) + help_left(x));
}

fn draw_help_right(list: &mut Vec<Shape>, x: Single)
    ensures
        drawn(*final(list)) == drawn(*old(list)) + help_right(x),
{
    write_head(list, x, 102, "INTERFACE");
    write_line(list, x, 120, "H", "Show / hide this help screen");
    write_line(list, x, 142, "M", "Show / hide the map");
    write_head(list, x, 170, "AFTER DEATH");
    write_line(list, x, 188, "W / S  ↑ / ↓", "Choose a ship");
    write_line(list, x, 210, "R / Enter", "Confirm and respawn");
    write_head(list, x, 238, "CLOAKING RULES");
    write_line(list, x, 256, "While cloaked:", "Invisible to all other players");
    write_line(list, x, 278, "", "Cannot fire weapons");
    write_line(list, x, 300, "", "Shields inactive");
    write_line(list, x, 322, "", "Fuel drains continuously");
    write_line(list, x, 344, "", "Uncloak = fuel exhausted");
    write_head(list, x, 372, "SHIELD RULES");
    write_line(list, x, 390, "While on:", "Take damage before the hull");
    write_line(list, x, 412, "", "Each hit costs fuel");
    write_line(list, x, 434, "", "Collapse when fuel runs out");
    assert(drawn(*list) =~= drawn(*old(list)) + help_right(x));
}

/// Draws the help.
pub fn draw_help_overlay(list: &mut Vec<Shape>, w: &Window)
    ensures
        drawn(*final(list)) == drawn(*old(list)) + help_shapes(*w),
{
    let cx: Single = w.middle();
    draw_sheet(list, w, Ink::mix(0, 0, 8, 82));
    centered_text(
        list,
        "FLEET COMMANDER  —  CONTROLS",
        cx,
        Single::whole(60),
        24,
        Ink::Named(Named::Gold),
    );
    figure(
        list,
        Figure::Line {
            x1: cx.minus(Single::whole(220)),
            y1: Single::whole(68),
            x2: cx.plus(Single::whole(220)),
            y2: Single::whole(68),
            thickness: Single::whole(1),
            ink: Ink::mix(40, 40, 40, 80),
        },
    );
    draw_help_left(list, cx.minus(Single::whole(280)));
    draw_help_right(list, cx.plus(Single::whole(30)));
    centered_text(
        list,
        "H  to close",
        cx,
        w.height.minus(Single::whole(30)),
        13,
        Ink::mix(45, 45, 45, 100),
    );
    assert(drawn(*list) =~= drawn(*old(list)) + help_shapes(*w));
}

} // verus!
