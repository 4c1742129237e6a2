use fleet_commander::canvas::{blend_pixel, Canvas};
use fleet_commander::oracle::{Ask, Oracle};
use fleet_commander::single::Single;
use fleet_commander::sprites::{
    draw_asteroid_sprite, draw_battleship, draw_carrier, draw_cruiser, draw_destroyer,
    draw_planet_sprite, draw_scout, new_img, planet_colors,
};

type Rgba = (u8, u8, u8, u8);

fn s(x: f32) -> Single {
    Single::from_bits(x.to_bits())
}

fn f(x: Single) -> f32 {
    f32::from_bits(x.to_bits())
}

fn source() -> impl Fn(Ask) -> Single {
    |q: Ask| match q {
        Ask::Cos(a) => s(f(a).cos()),
        Ask::Sin(a) => s(f(a).sin()),
        _ => s(0.0),
    }
}

/// A picture painted with the platform's own numbers.
struct Plain {
    side: i32,
    pixels: Vec<Rgba>,
}

impl Plain {
    fn new(side: i32) -> Plain {
        Plain { side, pixels: vec![(0, 0, 0, 0); (side * side) as usize] }
    }

    fn at(&mut self, x: i32, y: i32) -> Option<&mut Rgba> {
        if x >= 0 && y >= 0 && x < self.side && y < self.side {
            self.pixels.get_mut((y * self.side + x) as usize)
        } else {
            None
        }
    }

    fn put(&mut self, x: i32, y: i32, c: Rgba) {
        if let Some(p) = self.at(x, y) {
            *p = c;
        }
    }

    fn blend(&mut self, x: i32, y: i32, c: Rgba) {
        if let Some(p) = self.at(x, y) {
            let sa = c.3 as f32 / 255.0;
            let da = p.3 as f32 / 255.0;
            let oa = sa + da * (1.0 - sa);
            if oa > 0.001 {
                let mix = |new: u8, old: u8| {
                    ((new as f32 * sa + old as f32 * da * (1.0 - sa)) / oa) as u8
                };
                *p = (mix(c.0, p.0), mix(c.1, p.1), mix(c.2, p.2), (oa * 255.0) as u8);
            }
        }
    }

    fn circle(&mut self, cx: f32, cy: f32, r: f32, c: Rgba, blended: bool) {
        for py in (cy - r).floor() as i32..=(cy + r).ceil() as i32 {
            for px in (cx - r).floor() as i32..=(cx + r).ceil() as i32 {
                let dx = px as f32 + 0.5 - cx;
                let dy = py as f32 + 0.5 - cy;
                if dx * dx + dy * dy <= r * r {
                    if blended {
                        self.blend(px, py, c);
                    } else {
                        self.put(px, py, c);
                    }
                }
            }
        }
    }

    fn ring(&mut self, cx: f32, cy: f32, r: f32, width: f32, c: Rgba) {
        let half = width / 2.0;
        let outer = (r + half) * (r + half);
        let inner = (r - half).max(0.0) * (r - half).max(0.0);
        for py in (cy - r - half).floor() as i32..=(cy + r + half).ceil() as i32 {
            for px in (cx - r - half).floor() as i32..=(cx + r + half).ceil() as i32 {
                let dx = px as f32 + 0.5 - cx;
                let dy = py as f32 + 0.5 - cy;
                let d = dx * dx + dy * dy;
                if d <= outer && d >= inner {
                    self.blend(px, py, c);
                }
            }
        }
    }

    fn rect(&mut self, x: f32, y: f32, w: f32, h: f32, c: Rgba) {
        for py in y.floor() as i32..(y + h).ceil() as i32 {
            for px in x.floor() as i32..(x + w).ceil() as i32 {
                self.put(px, py, c);
            }
        }
    }

    fn poly(&mut self, vs: &[(f32, f32)], c: Rgba) {
        let low = vs.iter().map(|v| v.1).fold(f32::INFINITY, f32::min).floor() as i32;
        let high = vs.iter().map(|v| v.1).fold(f32::NEG_INFINITY, f32::max).ceil() as i32;
        for py in low..=high {
            let yf = py as f32 + 0.5;
            let mut xs: Vec<f32> = Vec::new();
            for i in 0..vs.len() {
                let (ax, ay) = vs[i];
                let (bx, by) = vs[(i + 1) % vs.len()];
                if (ay <= yf && by > yf) || (by <= yf && ay > yf) {
                    xs.push(ax + (yf - ay) / (by - ay) * (bx - ax));
                }
            }
            xs.sort_by(|a, b| a.partial_cmp(b).unwrap());
            for pair in xs.chunks_exact(2) {
                for px in pair[0].floor() as i32..=pair[1].ceil() as i32 {
                    self.put(px, py, c);
                }
            }
        }
    }

    fn bytes(&self) -> Vec<u8> {
        self.pixels.iter().flat_map(|p| [p.0, p.1, p.2, p.3]).collect()
    }
}

fn check(canvas: Canvas, plain: &Plain) {
    let (w, h, bytes) = canvas.export();
    assert_eq!((w, h), (plain.side as u32, plain.side as u32));
    assert_eq!(bytes, plain.bytes());
}

fn corners(vs: &[(f32, f32)]) -> Vec<(Single, Single)> {
    vs.iter().map(|v| (s(v.0), s(v.1))).collect()
}

#[test]
fn a_new_image_is_clear() {
    check(new_img(), &Plain::new(64));
    let (w, h, bytes) = Canvas::blank(3).export();
    assert_eq!((w, h, bytes), (3, 3, vec![0; 36]));
}

#[test]
fn pixels_outside_are_left_out() {
    let mut canvas = Canvas::blank(2);
    canvas.put(1, 0, (1, 2, 3, 4));
    canvas.put(-1, 0, (9, 9, 9, 9));
    canvas.put(0, -1, (9, 9, 9, 9));
    canvas.put(2, 0, (9, 9, 9, 9));
    canvas.put(0, 2, (9, 9, 9, 9));
    let (_, _, bytes) = canvas.export();
    assert_eq!(bytes, vec![0, 0, 0, 0, 1, 2, 3, 4, 0, 0, 0, 0, 0, 0, 0, 0]);
}

#[test]
fn pixels_are_blended() {
    assert_eq!(blend_pixel((10, 20, 30, 40), (200, 100, 50, 255)), (200, 100, 50, 255));
    assert_eq!(blend_pixel((10, 20, 30, 255), (200, 100, 50, 0)), (10, 20, 30, 255));
    assert_eq!(blend_pixel((0, 0, 0, 0), (200, 100, 50, 0)), (0, 0, 0, 0));
    let mut plain = Plain::new(1);
    for a in [1u8, 64, 128, 200, 254] {
        for b in [0u8, 3, 77, 255] {
            plain.pixels[0] = (17, 200, 90, b);
            plain.blend(0, 0, (230, 51, 5, a));
            assert_eq!(blend_pixel((17, 200, 90, b), (230, 51, 5, a)), plain.pixels[0]);
        }
    }
}

#[test]
fn circles_and_rings_are_filled() {
    let mut canvas = Canvas::blank(64);
    let mut plain = Plain::new(64);
    canvas.fill_circle(s(30.3), s(33.0), s(12.5), (200, 10, 20, 255));
    plain.circle(30.3, 33.0, 12.5, (200, 10, 20, 255), false);
    canvas.fill_circle_alpha(s(60.0), s(2.0), s(9.0), (0, 200, 100, 99));
    plain.circle(60.0, 2.0, 9.0, (0, 200, 100, 99), true);
    canvas.stroke_circle_alpha(s(32.0), s(32.0), s(20.0), s(3.5), (9, 80, 250, 130));
    plain.ring(32.0, 32.0, 20.0, 3.5, (9, 80, 250, 130));
    canvas.fill_rect(s(5.5), s(50.0), s(20.0), s(6.0), (1, 2, 3, 255));
    plain.rect(5.5, 50.0, 20.0, 6.0, (1, 2, 3, 255));
    check(canvas, &plain);
}

#[test]
fn polygons_are_filled() {
    let mut canvas = Canvas::blank(64);
    let mut plain = Plain::new(64);
    let shape = [(54.0, 32.0), (18.0, 26.0), (2.5, -7.0), (18.0, 38.0)];
    canvas.fill_poly(&corners(&shape), (64, 220, 64, 255));
    plain.poly(&shape, (64, 220, 64, 255));
    check(canvas, &plain);
    let mut empty = Canvas::blank(2);
    empty.fill_poly(&Vec::new(), (1, 1, 1, 1));
    check(empty, &Plain::new(2));
}

#[test]
fn circles_are_outlined() {
    let mut oracle = Oracle::new(source());
    let mut canvas = Canvas::blank(32);
    canvas.stroke_circle(s(16.0), s(16.0), s(9.0), (7, 8, 9, 255), &mut oracle);
    let mut plain = Plain::new(32);
    let tau = std::f32::consts::TAU;
    let steps = (9.0 * tau).ceil() as usize * 2;
    for i in 0..steps {
        let angle = i as f32 / steps as f32 * tau;
        plain.put(
            (16.0 + angle.cos() * 9.0) as i32,
            (16.0 + angle.sin() * 9.0) as i32,
            (7, 8, 9, 255),
        );
    }
    check(canvas, &plain);
}

#[test]
fn the_scout_is_drawn() {
    let mut plain = Plain::new(64);
    let h = 32.0;
    plain.poly(&[(h + 22.0, h), (h - 14.0, h - 6.0), (h - 14.0, h + 6.0)], (64, 220, 64, 255));
    for up in [-1.0, 1.0] {
        plain.poly(
            &[
                (h + 2.0, h + up * 2.0),
                (h - 12.0, h + up * 14.0),
                (h - 16.0, h + up * 10.0),
                (h - 10.0, h + up * 2.0),
            ],
            (32, 140, 32, 255),
        );
    }
    plain.circle(h + 21.0, h, 2.0, (160, 255, 160, 255), false);
    check(draw_scout(), &plain);
}

#[test]
fn the_destroyer_is_drawn() {
    let mut plain = Plain::new(64);
    let h = 32.0;
    plain.poly(
        &[
            (h + 24.0, h),
            (h - 8.0, h - 9.0),
            (h - 16.0, h - 6.0),
            (h - 16.0, h + 6.0),
            (h - 8.0, h + 9.0),
        ],
        (80, 120, 220, 255),
    );
    plain.rect(h - 16.0, h - 18.0, 14.0, 6.0, (50, 80, 160, 255));
    plain.rect(h - 16.0, h + 12.0, 14.0, 6.0, (50, 80, 160, 255));
    let glow = (140, 180, 255, 255);
    plain.circle(h - 17.0, h - 15.0, 3.5, glow, false);
    plain.circle(h - 17.0, h + 15.0, 3.5, glow, false);
    plain.circle(h + 23.0, h, 2.0, glow, false);
    check(draw_destroyer(), &plain);
}

#[test]
fn ships_are_sixty_four_pixels_wide() {
    let mut oracle = Oracle::new(source());
    let all = [draw_cruiser(), draw_battleship(), draw_carrier(&mut oracle)];
    for canvas in all {
        let (w, h, bytes) = canvas.export();
        assert_eq!((w, h, bytes.len()), (64, 64, 64 * 64 * 4));
        // The middle is covered and the corner is clear.
        let middle = (32 * 64 + 32) * 4;
        assert_eq!(bytes[middle + 3], 255);
        assert_eq!(bytes[3], 0);
    }
}

#[test]
fn planets_have_colours() {
    assert_eq!(
        planet_colors(0),
        ((135, 92, 51, 255), (97, 66, 36, 255), (200, 153, 102, 255), (200, 180, 120, 45))
    );
    assert_eq!(planet_colors(4), planet_colors(9));
    assert_ne!(planet_colors(2), planet_colors(3));
}

#[test]
fn planets_are_drawn() {
    let (w, h, bytes) = draw_planet_sprite(2).export();
    assert_eq!((w, h, bytes.len()), (256, 256, 256 * 256 * 4));
    assert_eq!(&bytes[0..4], &[0, 0, 0, 0]);
    let middle = (128 * 256 + 128) * 4;
    assert_eq!(bytes[middle + 3], 255);
}

#[test]
fn asteroids_are_drawn() {
    let (w, h, bytes) = draw_asteroid_sprite().export();
    assert_eq!((w, h), (64, 64));
    assert_eq!(bytes[(32 * 64 + 32) * 4 + 3], 255);
    assert_eq!(bytes[3], 0);
}
