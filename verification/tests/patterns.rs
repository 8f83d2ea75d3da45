use wl_harmonograph::curve::{Fraction, Point, Scale, Vertex};
use wl_harmonograph::harmonograph::{position, Harmonograph, MAX_T, STEP};
use wl_harmonograph::pendulum::{
    draw_parameters, make_pendulum, Draws, Pendulum, Swing, Tuning, DRAW_STEPS,
};

fn tuning(ratio: u64, detune: u64) -> Tuning {
    Tuning { ratio, detune }
}

fn swing(amplitude: u64, phase: u64, damping: u64) -> Swing {
    Swing {
        amplitude,
        phase,
        damping,
    }
}

fn draws() -> Draws {
    let half = DRAW_STEPS / 2;
    Draws {
        base: half,
        f_x: tuning(0, half),
        f_y: tuning(1, half),
        f_x2: tuning(2, half),
        f_y2: tuning(3, half),
        x1: swing(half, 0, half),
        x2: swing(half, half, half),
        y1: swing(0, 1, 0),
        y2: swing(DRAW_STEPS - 1, DRAW_STEPS - 1, DRAW_STEPS - 1),
    }
}

fn point(k: i64) -> Point {
    Point { x: k, y: -k }
}

#[test]
fn parameters_of_a_pattern() {
    let (x1, x2, y1, y2) = Harmonograph::with_draws(&draws()).pendulums();
    // The base frequency is 1.5 and nothing is detuned.
    assert_eq!(
        x1,
        Pendulum {
            amplitude: 800 * DRAW_STEPS,
            frequency: 150 * DRAW_STEPS,
            phase: 0,
            damping: 4 * DRAW_STEPS
        }
    );
    assert_eq!(
        x2,
        Pendulum {
            amplitude: 225 * DRAW_STEPS,
            frequency: 450 * DRAW_STEPS,
            phase: DRAW_STEPS / 2,
            damping: 4 * DRAW_STEPS
        }
    );
    assert_eq!(
        y1,
        Pendulum {
            amplitude: 600 * DRAW_STEPS,
            frequency: 300 * DRAW_STEPS,
            phase: 1,
            damping: 2 * DRAW_STEPS
        }
    );
    assert_eq!(
        y2,
        Pendulum {
            amplitude: 350 * DRAW_STEPS - 250,
            frequency: 600 * DRAW_STEPS,
            phase: DRAW_STEPS - 1,
            damping: 6 * DRAW_STEPS - 4
        }
    );
}

#[test]
fn detuning_at_its_ends() {
    let flat = make_pendulum(0, &tuning(0, 0), &swing(0, 0, 0), true);
    assert_eq!(flat.frequency, 97 * DRAW_STEPS);
    let sharp = make_pendulum(
        DRAW_STEPS - 1,
        &tuning(3, DRAW_STEPS - 1),
        &swing(0, 0, 0),
        false,
    );
    assert_eq!(sharp.frequency, 803 * DRAW_STEPS - 406);
    assert_eq!(sharp.amplitude, 100 * DRAW_STEPS);
}

fn in_range(p: &Pendulum, primary: bool) -> bool {
    let (low, high) = if primary { (600, 1000) } else { (100, 350) };
    low * DRAW_STEPS <= p.amplitude
        && p.amplitude < high * DRAW_STEPS
        && 97 * DRAW_STEPS <= p.frequency
        && p.frequency < 803 * DRAW_STEPS
        && p.phase < DRAW_STEPS
        && 2 * DRAW_STEPS <= p.damping
        && p.damping < 6 * DRAW_STEPS
}

#[test]
fn random_parameters_stay_in_range() {
    let mut h = Harmonograph::new();
    for _ in 0..500 {
        let (x1, x2, y1, y2) = h.pendulums();
        assert!(in_range(&x1, true) && in_range(&x2, false));
        assert!(in_range(&y1, true) && in_range(&y2, false));
        h.randomize();
    }
}

#[test]
fn random_draws_vary_within_their_bounds() {
    let mut ratios = [false; 4];
    let (mut low, mut high) = (false, false);
    for _ in 0..500 {
        let d = draw_parameters();
        for t in [d.f_x, d.f_y, d.f_x2, d.f_y2] {
            ratios[t.ratio as usize] = true;
            assert!(t.detune < DRAW_STEPS);
        }
        assert!(d.base < DRAW_STEPS);
        low = low || d.base < DRAW_STEPS / 2;
        high = high || d.base >= DRAW_STEPS / 2;
    }
    assert_eq!(ratios, [true; 4]);
    assert!(low && high);
}

#[test]
fn the_window_holds_the_last_four_points() {
    let mut h = Harmonograph::with_draws(&draws());
    for k in 0..3 {
        assert!(h.advance(point(k)));
        assert!(h.catmull_rom_points().is_none());
    }
    assert!(h.advance(point(3)));
    assert_eq!(
        h.catmull_rom_points(),
        Some(&[point(0), point(1), point(2), point(3)])
    );
    assert!(h.advance(point(4)));
    assert!(h.advance(point(5)));
    assert_eq!(
        h.catmull_rom_points(),
        Some(&[point(2), point(3), point(4), point(5)])
    );
}

#[test]
fn a_pattern_has_its_length() {
    let mut h = Harmonograph::with_draws(&draws());
    let mut count = 0u32;
    while h.advance(point(count as i64)) {
        count += 1;
    }
    assert_eq!(count, 40_001);
    assert_eq!(count, MAX_T / STEP + 1);
    assert_eq!(h.time(), 40_001);
    assert!(!h.advance(point(-1)));
    assert_eq!(
        h.catmull_rom_points(),
        Some(&[point(39_997), point(39_998), point(39_999), point(40_000)])
    );
    h.retune(&draws());
    assert_eq!(h.time(), 0);
    assert!(h.catmull_rom_points().is_none());
    assert!(h.advance(point(7)));
}

#[test]
fn the_clock_agrees_with_repeated_addition() {
    let (mut t, mut count) = (0.0f64, 0u32);
    while !(t > 400.0) {
        t += 0.01;
        count += 1;
    }
    assert_eq!(count, MAX_T / STEP + 1);
}

#[test]
fn a_strip_accumulates_without_gaps() {
    let scale = Scale { num: 2, den: 5 };
    let width = Fraction { num: 2, den: 1000 };
    let mut h = Harmonograph::with_draws(&draws());
    let mut whole: Vec<Vertex> = Vec::new();
    let mut pieces: Vec<Vec<Vertex>> = Vec::new();
    for k in 0..10 {
        h.advance(point(k * k));
        let mut piece: Vec<Vertex> = Vec::new();
        let appended = h.append_catmull_rom_strip(scale, scale, width, 16, &mut whole);
        assert_eq!(
            h.append_catmull_rom_strip(scale, scale, width, 16, &mut piece),
            appended
        );
        assert_eq!(appended, k >= 3);
        assert_eq!(piece.is_empty(), !appended);
        if appended {
            pieces.push(piece);
        }
    }
    assert_eq!(pieces.len(), 7);
    assert_eq!(whole.len(), 2 * 16 * 7 + 2);
    for (k, piece) in pieces.iter().enumerate() {
        assert_eq!(whole[32 * k..32 * k + 34], piece[..]);
    }
}

#[test]
fn two_pendulums_move_the_pen_along_each_axis() {
    assert_eq!(position(1, 20, 300, -4000), Point { x: 21, y: -3700 });
    assert_eq!(
        position(i64::MAX, i64::MIN, -1, i64::MAX),
        Point {
            x: -1,
            y: i64::MAX - 1
        }
    );
}
