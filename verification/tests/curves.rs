use wl_harmonograph::curve::{append_segment, Fraction, Point, Scale, Stroke, Vertex, POINT_UNIT};

const UNIT: i128 = POINT_UNIT as i128;

fn value(f: Fraction) -> f64 {
    f.num as f64 / (f.den / UNIT) as f64
}

fn stroke(n: usize) -> Stroke {
    Stroke {
        scale_x: Scale { num: 4, den: 5 },
        scale_y: Scale { num: 9, den: 20 },
        line_width: Fraction { num: 2, den: 1000 },
        n_subdivisions: n,
    }
}

fn window() -> [Point; 4] {
    [
        Point { x: -70, y: 20 },
        Point { x: 10, y: 35 },
        Point { x: 90, y: -40 },
        Point { x: 120, y: -55 },
    ]
}

#[test]
fn a_segment_has_two_vertices_at_each_parameter() {
    let mut verts: Vec<Vertex> = Vec::new();
    append_segment(&window(), &stroke(16), &mut verts);
    assert_eq!(verts.len(), 34);
    for (j, v) in verts.iter().enumerate() {
        assert_eq!(v.cross, if j % 2 == 0 { 1 } else { -1 });
        assert_eq!(v.line_width, Fraction { num: 2, den: 1000 });
    }
    for pair in verts.chunks(2) {
        assert_eq!(pair[0].x, pair[1].x);
        assert_eq!(pair[0].y, pair[1].y);
        assert_eq!(pair[0].dx, pair[1].dx);
        assert_eq!(pair[0].dy, pair[1].dy);
    }
}

#[test]
fn exact_numbers_of_the_ends_and_the_middle() {
    let mut verts: Vec<Vertex> = Vec::new();
    append_segment(&window(), &stroke(2), &mut verts);
    // Start: the second point, with half the chord from the first to the third.
    assert_eq!(
        verts[0].x,
        Fraction {
            num: 4 * 10 * 16,
            den: 5 * 16 * UNIT
        }
    );
    assert_eq!(
        verts[0].dx,
        Fraction {
            num: 4 * 160 * 4,
            den: 5 * 8 * UNIT
        }
    );
    // Middle: (-p0 + 9 p1 + 9 p2 - p3) / 16.
    assert_eq!(value(verts[2].x), 0.8 * (70.0 + 90.0 + 810.0 - 120.0) / 16.0);
    assert_eq!(
        value(verts[2].y),
        0.45 * (-20.0 + 315.0 - 360.0 + 55.0) / 16.0
    );
    // End: the third point, with half the chord from the second to the fourth.
    assert_eq!(
        verts[4].y,
        Fraction {
            num: 9 * -40 * 16,
            den: 20 * 16 * UNIT
        }
    );
    assert_eq!(
        verts[4].dy,
        Fraction {
            num: 9 * -90 * 4,
            den: 20 * 8 * UNIT
        }
    );
}

#[test]
fn agrees_with_the_bezier_formula() {
    let pts = window();
    let (sx, sy) = (0.8, 0.45);
    let p: Vec<(f64, f64)> = pts
        .iter()
        .map(|q| (q.x as f64 * sx, q.y as f64 * sy))
        .collect();
    let c1 = (
        p[1].0 + (p[2].0 - p[0].0) / 6.0,
        p[1].1 + (p[2].1 - p[0].1) / 6.0,
    );
    let c2 = (
        p[2].0 - (p[3].0 - p[1].0) / 6.0,
        p[2].1 - (p[3].1 - p[1].1) / 6.0,
    );
    let mut verts: Vec<Vertex> = Vec::new();
    append_segment(&pts, &stroke(16), &mut verts);
    for i in 0..=16 {
        let t = i as f64 / 16.0;
        let mt = 1.0 - t;
        let x = mt * mt * mt * p[1].0
            + 3.0 * mt * mt * t * c1.0
            + 3.0 * mt * t * t * c2.0
            + t * t * t * p[2].0;
        let dy = -3.0 * mt * mt * p[1].1
            + 3.0 * (mt * mt - 2.0 * mt * t) * c1.1
            + 3.0 * (2.0 * mt * t - t * t) * c2.1
            + 3.0 * t * t * p[2].1;
        assert!((value(verts[2 * i].x) - x).abs() < 1e-9);
        assert!((value(verts[2 * i].dy) - dy).abs() < 1e-9);
    }
}

#[test]
fn a_second_segment_goes_on_where_the_first_ends() {
    let first = window();
    let second = [first[1], first[2], first[3], Point { x: 60, y: -10 }];
    let mut alone: Vec<Vertex> = Vec::new();
    append_segment(&second, &stroke(16), &mut alone);
    let mut strip: Vec<Vertex> = Vec::new();
    append_segment(&first, &stroke(16), &mut strip);
    assert_eq!(strip[32..34], alone[0..2]);
    append_segment(&second, &stroke(16), &mut strip);
    assert_eq!(strip.len(), 66);
    assert_eq!(strip[32..66], alone[..]);
}

#[test]
fn no_subdivisions() {
    let mut verts: Vec<Vertex> = Vec::new();
    append_segment(&window(), &stroke(0), &mut verts);
    assert_eq!(verts.len(), 2);
    assert_eq!(verts[0].x, Fraction { num: 0, den: 0 });
    assert!((verts[0].x.num as f64 / verts[0].x.den as f64).is_nan());
    append_segment(&window(), &stroke(0), &mut verts);
    assert_eq!(verts.len(), 2);
}

#[test]
fn coordinates_of_any_size() {
    let pts = [
        Point { x: i64::MAX, y: i64::MIN },
        Point { x: i64::MIN, y: i64::MAX },
        Point { x: i64::MAX, y: i64::MIN },
        Point { x: i64::MIN, y: i64::MAX },
    ];
    let mut verts: Vec<Vertex> = Vec::new();
    append_segment(&pts, &stroke(16), &mut verts);
    assert_eq!(verts.len(), 34);
    assert_eq!(verts[0].x.num, 4 * (i64::MIN as i128) * 2 * 4096);
    assert_eq!(verts[33].y.num, 9 * (i64::MIN as i128) * 2 * 4096);
}

#[test]
fn reversed_points_are_drawn_backwards() {
    let pts = window();
    let back = [pts[3], pts[2], pts[1], pts[0]];
    let mut there: Vec<Vertex> = Vec::new();
    let mut again: Vec<Vertex> = Vec::new();
    append_segment(&pts, &stroke(8), &mut there);
    append_segment(&back, &stroke(8), &mut again);
    for i in 0..=8 {
        assert_eq!(there[2 * i].x, again[2 * (8 - i)].x);
        assert_eq!(there[2 * i].y, again[2 * (8 - i)].y);
        assert_eq!(there[2 * i].dx.num, -again[2 * (8 - i)].dx.num);
        assert_eq!(there[2 * i].dy.num, -again[2 * (8 - i)].dy.num);
    }
}
