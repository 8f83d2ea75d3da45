//! Catmull-Rom segments, evaluated exactly and thickened into triangle strips.

use vstd::prelude::*;

verus! {

/// A position on the drawing plane of the pendulums.
///
/// Coordinates are fixed-point numbers: a coordinate `c` stands for
/// `c / POINT_UNIT` pendulum units.
#[derive(Clone, Copy, Debug, PartialEq, Eq, Structural)]
pub struct Point {
    pub x: i64,
    pub y: i64,
}

/// The coordinate that stands for one pendulum unit, two to the sixtieth.
pub const POINT_UNIT: i64 = 0x1000_0000_0000_0000;

/// An exact quotient `num / den`.
#[derive(Clone, Copy, Debug, PartialEq, Eq, Structural)]
pub struct Fraction {
    pub num: i128,
    pub den: i128,
}

/// The factor `num / den` from pendulum units to normalized device
/// coordinates along one axis.
#[derive(Clone, Copy, Debug, PartialEq, Eq, Structural)]
pub struct Scale {
    pub num: u64,
    pub den: u64,
}

impl Scale {
    /// Whether a segment cut into `n` pieces keeps its coordinates, scaled by
    /// this factor, within 128 bits.
    pub open spec fn admits(self, n: int) -> bool {
        &&& self.den > 0
        &&& 32 * (n * n * n) * self.num < 0x1_0000_0000_0000_0000
        &&& 32 * (n * n * n) * self.den < 0x1_0000_0000_0000_0000
    }
}

/// How a segment is drawn: its scale along each axis, the width of the line in
/// normalized device coordinates, and the number of pieces it is cut into.
#[derive(Clone, Copy, Debug, PartialEq, Eq, Structural)]
pub struct Stroke {
    pub scale_x: Scale,
    pub scale_y: Scale,
    pub line_width: Fraction,
    pub n_subdivisions: usize,
}

impl Stroke {
    /// Whether both scales admit the number of pieces.
    pub open spec fn valid(self) -> bool {
        &&& self.scale_x.admits(self.n_subdivisions as int)
        &&& self.scale_y.admits(self.n_subdivisions as int)
    }
}

/// One vertex of a triangle strip, described by the center line it belongs to.
///
/// The vertex lies beside the point (`x`, `y`) of the curve, half of
/// `line_width` away along the normal of the tangent (`dx`, `dy`): on the side
/// of the normal (`-dy`, `dx`) where `cross` is 1, on the opposite side where it
/// is -1. All numbers are in normalized device coordinates.
#[derive(Clone, Copy, Debug, PartialEq, Eq, Structural)]
pub struct Vertex {
    pub x: Fraction,
    pub y: Fraction,
    pub dx: Fraction,
    pub dy: Fraction,
    pub line_width: Fraction,
    pub cross: i8,
}

/// The Catmull-Rom curve through `a1` and `a2` at parameter `i / n`,
/// multiplied by `2 * n * n * n`.
pub open spec fn curve_at(a0: int, a1: int, a2: int, a3: int, n: int, i: int) -> int {
    2 * a1 * (n * n * n) + (a2 - a0) * (i * n * n) + (2 * a0 - 5 * a1 + 4 * a2 - a3) * (i * i * n)
        + (3 * a1 - a0 - 3 * a2 + a3) * (i * i * i)
}

/// The derivative of that curve at parameter `i / n`, multiplied by `2 * n * n`.
pub open spec fn tangent_at(a0: int, a1: int, a2: int, a3: int, n: int, i: int) -> int {
    (a2 - a0) * (n * n) + 2 * (2 * a0 - 5 * a1 + 4 * a2 - a3) * (i * n) + 3 * (3 * a1 - a0 - 3 * a2
        + a3) * (i * i)
}

/// The coordinate `value / whole` of a point, scaled.
pub open spec fn scaled(scale: Scale, value: int, whole: int) -> Fraction {
    Fraction {
        num: (scale.num * value) as i128,
        den: (scale.den * whole * POINT_UNIT) as i128,
    }
}

/// The strip vertex on side `cross` at parameter `i / n` of the segment over
/// the four points of `window`, where `n` is the stroke's number of pieces.
pub open spec fn vertex_at(window: Seq<Point>, stroke: Stroke, i: int, cross: int) -> Vertex {
    let n = stroke.n_subdivisions as int;
    let (p0, p1, p2, p3) = (window[0], window[1], window[2], window[3]);
    Vertex {
        x: scaled(
            stroke.scale_x,
            curve_at(p0.x as int, p1.x as int, p2.x as int, p3.x as int, n, i),
            2 * (n * n * n),
        ),
        y: scaled(
            stroke.scale_y,
            curve_at(p0.y as int, p1.y as int, p2.y as int, p3.y as int, n, i),
            2 * (n * n * n),
        ),
        dx: scaled(
            stroke.scale_x,
            tangent_at(p0.x as int, p1.x as int, p2.x as int, p3.x as int, n, i),
            2 * (n * n),
        ),
        dy: scaled(
            stroke.scale_y,
            tangent_at(p0.y as int, p1.y as int, p2.y as int, p3.y as int, n, i),
            2 * (n * n),
        ),
        line_width: stroke.line_width,
        cross: cross as i8,
    }
}

/// The strip of one whole segment: both sides at each of the parameters
/// `0 / n` to `n / n`.
pub open spec fn segment_strip(window: Seq<Point>, stroke: Stroke) -> Seq<Vertex> {
    Seq::new(
        (2 * (stroke.n_subdivisions + 1)) as nat,
        |j: int|
            vertex_at(
                window,
                stroke,
                j / 2,
                if j % 2 == 0 {
                    1
                } else {
                    -1
                },
            ),
    )
}

/// What appending a segment makes of a strip. A strip that is not empty ends
/// where the segment begins, so the segment's first parameter is left out.
pub open spec fn extended_strip(
    strip: Seq<Vertex>,
    window: Seq<Point>,
    stroke: Stroke,
) -> Seq<Vertex> {
    let segment = segment_strip(window, stroke);
    if strip.len() == 0 {
        segment
    } else {
        strip + segment.skip(2)
    }
}

proof fn lemma_powers(n: int, i: int)
    requires
        0 <= i <= n,
    ensures
        ({
            let m = n - i;
            &&& 0 <= m * m * m <= n * n * n
            &&& 0 <= m * m * i <= n * n * n
            &&& 0 <= m * i * i <= n * n * n
            &&& 0 <= i * i * i <= n * n * n
            &&& 0 <= m * m <= n * n
            &&& 0 <= 2 * (m * i) <= n * n
            &&& 0 <= i * i <= n * n
            &&& n * n <= n * n * n
        }),
{
    let m = n - i;
    assert(0 <= m * m && 0 <= i * i && 0 <= m * i) by (nonlinear_arith)
        requires
            0 <= m,
            0 <= i,
    ;
    assert(n * n == m * m + 2 * (m * i) + i * i) by (nonlinear_arith)
        requires
            n == m + i,
    ;
    assert(0 <= m * m * m && 0 <= m * m * i && 0 <= m * i * i && 0 <= i * i * i)
        by (nonlinear_arith)
        requires
            0 <= m,
            0 <= i,
    ;
    assert(n * n * n == m * m * m + 3 * (m * m * i) + 3 * (m * i * i) + i * i * i)
        by (nonlinear_arith)
        requires
            n == m + i,
    ;
    assert(n * n <= n * n * n) by (nonlinear_arith)
        requires
            0 <= n,
    ;
}

proof fn lemma_expand(k: (int, int, int, int), a: (int, int, int, int), z: int)
    ensures
        (k.0 * a.0 + k.1 * a.1 + k.2 * a.2 + k.3 * a.3) * z == k.0 * (a.0 * z) + k.1 * (a.1 * z)
            + k.2 * (a.2 * z) + k.3 * (a.3 * z),
{
    let (t0, t1, t2, t3) = (k.0 * a.0, k.1 * a.1, k.2 * a.2, k.3 * a.3);
    assert((t0 + t1 + t2 + t3) * z == t0 * z + t1 * z + t2 * z + t3 * z) by (nonlinear_arith);
    vstd::arithmetic::mul::lemma_mul_is_associative(k.0, a.0, z);
    vstd::arithmetic::mul::lemma_mul_is_associative(k.1, a.1, z);
    vstd::arithmetic::mul::lemma_mul_is_associative(k.2, a.2, z);
    vstd::arithmetic::mul::lemma_mul_is_associative(k.3, a.3, z);
}

proof fn lemma_control_points(a: (int, int, int, int), z: int)
    ensures
        ({
            let c1 = 6 * a.1 + a.2 - a.0;
            let c2 = 6 * a.2 - a.3 + a.1;
            &&& z * c1 == 6 * (a.1 * z) + a.2 * z - a.0 * z
            &&& z * c2 == 6 * (a.2 * z) - a.3 * z + a.1 * z
            &&& z * a.1 == a.1 * z
            &&& z * a.2 == a.2 * z
        }),
{
    lemma_expand((-1, 6, 1, 0), a, z);
    lemma_expand((0, 1, 6, -1), a, z);
    vstd::arithmetic::mul::lemma_mul_is_commutative(z, 6 * a.1 + a.2 - a.0);
    vstd::arithmetic::mul::lemma_mul_is_commutative(z, 6 * a.2 - a.3 + a.1);
    vstd::arithmetic::mul::lemma_mul_is_commutative(z, a.1);
    vstd::arithmetic::mul::lemma_mul_is_commutative(z, a.2);
}

/// The curve is the cubic Bezier segment from `a1` to `a2` with the control points
/// `a1 + (a2 - a0) / 6` and `a2 - (a3 - a1) / 6`, here `c1 / 6` and `c2 / 6`, and the
/// derivative is the derivative of that segment.
pub proof fn lemma_bezier_form(a0: int, a1: int, a2: int, a3: int, n: int, i: int)
    ensures
        ({
            let m = n - i;
            let c1 = 6 * a1 + a2 - a0;
            let c2 = 6 * a2 - a3 + a1;
            &&& curve_at(a0, a1, a2, a3, n, i) == 2 * ((m * m * m) * a1) + (m * m * i) * c1 + (m * i
                * i) * c2 + 2 * ((i * i * i) * a2)
            &&& tangent_at(a0, a1, a2, a3, n, i) == (m * m - 2 * (m * i)) * c1 + (2 * (m * i) - i
                * i) * c2 + 6 * ((i * i) * a2) - 6 * ((m * m) * a1)
        }),
{
    let m = n - i;
    let c1 = 6 * a1 + a2 - a0;
    let c2 = 6 * a2 - a3 + a1;
    let a = (a0, a1, a2, a3);
    let (p, q, r, s) = (n * n * n, i * n * n, i * i * n, i * i * i);
    assert(m * m * m == p - 3 * q + 3 * r - s && m * m * i == q - 2 * r + s && m * i * i == r - s)
        by (nonlinear_arith)
        requires
            m == n - i,
            p == n * n * n,
            q == i * n * n,
            r == i * i * n,
            s == i * i * i,
    ;
    let cubes = (p, q, r, s);
    assert(curve_at(a0, a1, a2, a3, n, i) == 2 * ((m * m * m) * a1) + (m * m * i) * c1 + (m * i * i)
        * c2 + 2 * ((i * i * i) * a2)) by {
        lemma_expand((0, 2, 0, 0), a, p);
        lemma_expand((-1, 0, 1, 0), a, q);
        lemma_expand((2, -5, 4, -1), a, r);
        lemma_expand((-1, 3, -3, 1), a, s);
        lemma_expand((1, -3, 3, -1), cubes, a1);
        lemma_expand((0, 1, -2, 1), cubes, c1);
        lemma_expand((0, 0, 1, -1), cubes, c2);
        lemma_control_points(a, p);
        lemma_control_points(a, q);
        lemma_control_points(a, r);
        lemma_control_points(a, s);
    }
    let (u, v, w) = (n * n, i * n, i * i);
    assert(m * m == u - 2 * v + w && m * i == v - w) by (nonlinear_arith)
        requires
            m == n - i,
            u == n * n,
            v == i * n,
            w == i * i,
    ;
    let squares = (u, v, w, 0int);
    assert(tangent_at(a0, a1, a2, a3, n, i) == (m * m - 2 * (m * i)) * c1 + (2 * (m * i) - i * i)
        * c2 + 6 * ((i * i) * a2) - 6 * ((m * m) * a1)) by {
        lemma_expand((-1, 0, 1, 0), a, u);
        lemma_expand((4, -10, 8, -2), a, v);
        lemma_expand((-3, 9, -9, 3), a, w);
        lemma_expand((1, -4, 3, 0), squares, c1);
        lemma_expand((0, 2, -3, 0), squares, c2);
        lemma_expand((1, -2, 1, 0), squares, a1);
        lemma_control_points(a, u);
        lemma_control_points(a, v);
        lemma_control_points(a, w);
    }
}

proof fn lemma_product_bound(w: int, wide: int, a: int, most: int)
    requires
        -wide <= w <= wide,
        -most <= a <= most,
    ensures
        -(wide * most) <= w * a <= wide * most,
{
    assert(-(wide * most) <= w * a && w * a <= wide * most) by (nonlinear_arith)
        requires
            -wide <= w,
            w <= wide,
            -most <= a,
            a <= most,
    ;
}

spec fn is_coordinate(a: int) -> bool {
    -0x8000_0000_0000_0000 <= a <= 0x8000_0000_0000_0000
}

proof fn lemma_blend_bound(a0: int, a1: int, a2: int, a3: int, n: int, i: int)
    requires
        0 <= i <= n,
        is_coordinate(a0),
        is_coordinate(a1),
        is_coordinate(a2),
        is_coordinate(a3),
    ensures
        ({
            let m = n - i;
            let c1 = 6 * a1 + a2 - a0;
            let c2 = 6 * a2 - a3 + a1;
            let cube = n * n * n;
            let small = 0x8000_0000_0000_0000 * cube;
            let large = 0x4_0000_0000_0000_0000 * cube;
            &&& -small <= (m * m * m) * a1 <= small
            &&& -large <= (m * m * i) * c1 <= large
            &&& -large <= (m * i * i) * c2 <= large
            &&& -small <= (i * i * i) * a2 <= small
            &&& -large <= (m * m - 2 * (m * i)) * c1 <= large
            &&& -large <= (2 * (m * i) - i * i) * c2 <= large
            &&& -small <= (i * i) * a2 <= small
            &&& -small <= (m * m) * a1 <= small
            &&& -(32 * cube * 0x8000_0000_0000_0000) <= curve_at(a0, a1, a2, a3, n, i) <= 32 * cube * 0x8000_0000_0000_0000
            &&& -(32 * cube * 0x8000_0000_0000_0000) <= tangent_at(a0, a1, a2, a3, n, i) <= 32 * cube * 0x8000_0000_0000_0000
        }),
{
    let m = n - i;
    let c1 = 6 * a1 + a2 - a0;
    let c2 = 6 * a2 - a3 + a1;
    let cube = n * n * n;
    let most = 0x8000_0000_0000_0000int;
    lemma_powers(n, i);
    lemma_bezier_form(a0, a1, a2, a3, n, i);
    lemma_product_bound(m * m * m, cube, a1, most);
    lemma_product_bound(m * m * i, cube, c1, 8 * most);
    lemma_product_bound(m * i * i, cube, c2, 8 * most);
    lemma_product_bound(i * i * i, cube, a2, most);
    lemma_product_bound(m * m - 2 * (m * i), cube, c1, 8 * most);
    lemma_product_bound(2 * (m * i) - i * i, cube, c2, 8 * most);
    lemma_product_bound(i * i, cube, a2, most);
    lemma_product_bound(m * m, cube, a1, most);
}

/// The curve value and the derivative along one axis.
fn blend(a0: i64, a1: i64, a2: i64, a3: i64, n: i128, i: i128) -> (r: (i128, i128))
    requires
        0 <= i <= n,
        32 * (n * n * n) < 0x1_0000_0000_0000_0000,
    ensures
        r.0 == curve_at(a0 as int, a1 as int, a2 as int, a3 as int, n as int, i as int),
        r.1 == tangent_at(a0 as int, a1 as int, a2 as int, a3 as int, n as int, i as int),
        -(32 * (n * n * n) * 0x8000_0000_0000_0000) <= r.0 <= 32 * (n * n * n)
            * 0x8000_0000_0000_0000,
        -(32 * (n * n * n) * 0x8000_0000_0000_0000) <= r.1 <= 32 * (n * n * n)
            * 0x8000_0000_0000_0000,
{
    proof {
        lemma_powers(n as int, i as int);
        lemma_bezier_form(a0 as int, a1 as int, a2 as int, a3 as int, n as int, i as int);
    }
    let m: i128 = n - i;
    let c1: i128 = 6 * (a1 as i128) + a2 as i128 - a0 as i128;
    let c2: i128 = 6 * (a2 as i128) - a3 as i128 + a1 as i128;
    let mm: i128 = m * m;
    let mi: i128 = m * i;
    let ii: i128 = i * i;
    let w1: i128 = mm * m;
    let w2: i128 = mm * i;
    let w3: i128 = mi * i;
    let w4: i128 = ii * i;
    let d1: i128 = mm - 2 * mi;
    let d2: i128 = 2 * mi - ii;
    proof {
        lemma_blend_bound(a0 as int, a1 as int, a2 as int, a3 as int, n as int, i as int);
        let bound = 0x4_0000_0000_0000_0000 * (n * n * n);
        assert(4 * bound <= i128::MAX);
        assert(-bound <= w2 * c1 <= bound);
        assert(-bound <= w3 * c2 <= bound);
        assert(-bound <= d1 * c1 <= bound);
        assert(-bound <= d2 * c2 <= bound);
    }
    let value: i128 = 2 * (w1 * (a1 as i128)) + w2 * c1 + w3 * c2 + 2 * (w4 * (a2 as i128));
    let slope: i128 = d1 * c1 + d2 * c2 + 6 * (ii * (a2 as i128)) - 6 * (mm * (a1 as i128));
    (value, slope)
}

proof fn lemma_scaled_fits(scale: Scale, n: int, value: int)
    requires
        0 <= n,
        scale.admits(n),
        -(32 * (n * n * n) * 0x8000_0000_0000_0000) <= value <= 32 * (n * n * n)
            * 0x8000_0000_0000_0000,
    ensures
        i128::MIN <= scale.num * value <= i128::MAX,
        0 <= scale.den * (2 * (n * n * n)) < 0x1000_0000_0000_0000,
        0 <= scale.den * (2 * (n * n)) < 0x1000_0000_0000_0000,
        32 * (n * n * n) < 0x1_0000_0000_0000_0000,
        0 <= n * n <= n * n * n,
        n < 0x10_0000,
{
    let cube = n * n * n;
    let square = n * n;
    lemma_powers(n, 0);
    let num = scale.num as int;
    let den = scale.den as int;
    let wide = 32 * cube * 0x8000_0000_0000_0000;
    lemma_product_bound(num, num, value, wide);
    assert(num * wide == (32 * cube * num) * 0x8000_0000_0000_0000) by (nonlinear_arith)
        requires
            wide == 32 * cube * 0x8000_0000_0000_0000,
    ;
    assert(0 <= den * (2 * square) && den * (2 * square) <= den * (2 * cube) && 16 * (den * (2
        * cube)) == 32 * cube * den) by (nonlinear_arith)
        requires
            0 <= square <= cube,
            0 < den,
    ;
    assert(32 * cube <= 32 * cube * den) by (nonlinear_arith)
        requires
            0 <= cube,
            1 <= den,
    ;
    assert(n >= 0x10_0000 ==> n * n * n >= 0x1000_0000_0000_0000) by (nonlinear_arith);
}

/// The coordinate `value / whole` of a point, scaled.
fn scale_up(scale: Scale, value: i128, whole: i128) -> (r: Fraction)
    requires
        i128::MIN <= scale.num * value <= i128::MAX,
        0 <= scale.den * whole < 0x1000_0000_0000_0000,
    ensures
        r == scaled(scale, value as int, whole as int),
{
    let den: i128 = (scale.den as i128) * whole;
    assert(0 <= den * POINT_UNIT <= i128::MAX) by (nonlinear_arith)
        requires
            0 <= den < 0x1000_0000_0000_0000,
    ;
    Fraction { num: (scale.num as i128) * value, den: den * (POINT_UNIT as i128) }
}

/// Appends the strip of the segment over `window` to `verts`. Where `verts`
/// already holds vertices, those of the first parameter are left out: the
/// previous segment ended on them.
pub fn append_segment(window: &[Point; 4], stroke: &Stroke, verts: &mut Vec<Vertex>)
    requires
        stroke.valid(),
    ensures
        final(verts)@ == extended_strip(old(verts)@, window@, *stroke),
{
    let ghost before = verts@;
    let ghost segment = segment_strip(window@, *stroke);
    let n: usize = stroke.n_subdivisions;
    let scale_x: Scale = stroke.scale_x;
    let scale_y: Scale = stroke.scale_y;
    proof {
        lemma_scaled_fits(scale_x, n as int, 0);
        lemma_scaled_fits(scale_y, n as int, 0);
    }
    let wide: i128 = n as i128;
    let square: i128 = wide * wide;
    let cube: i128 = square * wide;
    let mut i: usize = if verts.len() == 0 {
        0
    } else {
        1
    };
    let ghost first = i as int;
    assert(verts@ =~= before + segment.subrange(2 * first, 2 * i));
    while i <= n
        invariant
            scale_x == stroke.scale_x,
            scale_y == stroke.scale_y,
            n == stroke.n_subdivisions,
            stroke.valid(),
            wide == n,
            n < 0x10_0000,
            square == n * n,
            cube == n * n * n,
            0 <= square <= cube,
            32 * cube < 0x1_0000_0000_0000_0000,
            0 <= first <= i <= n + 1,
            first <= 1,
            segment == segment_strip(window@, *stroke),
            verts@ == before + segment.subrange(2 * first, 2 * i),
        decreases n + 1 - i,
    {
        let at: i128 = i as i128;
        let (x, dx): (i128, i128) = blend(
            window[0].x,
            window[1].x,
            window[2].x,
            window[3].x,
            wide,
            at,
        );
        let (y, dy): (i128, i128) = blend(
            window[0].y,
            window[1].y,
            window[2].y,
            window[3].y,
            wide,
            at,
        );
        proof {
            lemma_scaled_fits(scale_x, n as int, x as int);
            lemma_scaled_fits(scale_x, n as int, dx as int);
            lemma_scaled_fits(scale_y, n as int, y as int);
            lemma_scaled_fits(scale_y, n as int, dy as int);
        }
        let left: Vertex = Vertex {
            x: scale_up(scale_x, x, 2 * cube),
            y: scale_up(scale_y, y, 2 * cube),
            dx: scale_up(scale_x, dx, 2 * square),
            dy: scale_up(scale_y, dy, 2 * square),
            line_width: stroke.line_width,
            cross: 1,
        };
        let right: Vertex = Vertex { cross: -1, ..left };
        verts.push(left);
        verts.push(right);
        assert(left == segment[2 * i]);
        assert(right == segment[2 * i + 1]);
        assert(verts@ =~= before + segment.subrange(2 * first, 2 * (i + 1)));
        i = i + 1;
    }
    assert(verts@ =~= extended_strip(before, window@, *stroke));
}

/// A segment runs from the second point of its window to the third, and its
/// tangents there are half the chords over the neighboring points: the curve
/// interpolates the points it is drawn through.
pub proof fn lemma_curve_interpolates(a0: int, a1: int, a2: int, a3: int, n: int)
    ensures
        curve_at(a0, a1, a2, a3, n, 0) == a1 * (2 * (n * n * n)),
        curve_at(a0, a1, a2, a3, n, n) == a2 * (2 * (n * n * n)),
        tangent_at(a0, a1, a2, a3, n, 0) == (a2 - a0) * (n * n),
        tangent_at(a0, a1, a2, a3, n, n) == (a3 - a1) * (n * n),
{
    let cube = n * n * n;
    let square = n * n;
    lemma_bezier_form(a0, a1, a2, a3, n, 0);
    lemma_bezier_form(a0, a1, a2, a3, n, n);
    let zero = n - n;
    assert(zero * zero * zero * a1 == 0 && zero * zero * n == 0 && zero * n * n == 0 && zero * zero
        == 0 && zero * n == 0) by (nonlinear_arith)
        requires
            zero == 0,
    ;
    assert(2 * (cube * a1) == a1 * (2 * cube) && 2 * (cube * a2) == a2 * (2 * cube))
        by (nonlinear_arith);
    assert(square * (6 * a1 + a2 - a0) - 6 * (square * a1) == (a2 - a0) * square)
        by (nonlinear_arith);
    assert(-square * (6 * a2 - a3 + a1) + 6 * (square * a2) == (a3 - a1) * square)
        by (nonlinear_arith);
}

/// Drawn over the reversed points, the curve is traversed backwards.
pub proof fn lemma_curve_reverses(a0: int, a1: int, a2: int, a3: int, n: int, i: int)
    ensures
        curve_at(a3, a2, a1, a0, n, n - i) == curve_at(a0, a1, a2, a3, n, i),
        tangent_at(a3, a2, a1, a0, n, n - i) == -tangent_at(a0, a1, a2, a3, n, i),
{
    let m = n - i;
    lemma_bezier_form(a0, a1, a2, a3, n, i);
    lemma_bezier_form(a3, a2, a1, a0, n, m);
    let c1 = 6 * a1 + a2 - a0;
    let c2 = 6 * a2 - a3 + a1;
    assert(i * i * m == m * i * i && i * m * m == m * m * i && i * m == m * i) by (nonlinear_arith);
    assert((i * i - 2 * (m * i)) * c2 == -((2 * (m * i) - i * i) * c2)) by (nonlinear_arith);
    assert((2 * (m * i) - m * m) * c1 == -((m * m - 2 * (m * i)) * c1)) by (nonlinear_arith);
}

/// Where one window follows another by one point, the first segment ends on the
/// very vertices that the second begins with. Leaving these out when the second
/// is appended drops nothing and opens no gap.
pub proof fn lemma_segments_join(first: Seq<Point>, second: Seq<Point>, stroke: Stroke)
    requires
        first.len() == 4,
        second.len() == 4,
        second.take(3) == first.skip(1),
    ensures
        segment_strip(first, stroke).skip(2 * stroke.n_subdivisions) == segment_strip(
            second,
            stroke,
        ).take(2),
{
    let n = stroke.n_subdivisions as int;
    assert(second[0] == second.take(3)[0] && first[1] == first.skip(1)[0]);
    assert(second[1] == second.take(3)[1] && first[2] == first.skip(1)[1]);
    assert(second[2] == second.take(3)[2] && first[3] == first.skip(1)[2]);
    lemma_window_interpolates(first, n);
    lemma_window_interpolates(second, n);
    let ending = segment_strip(first, stroke).skip(2 * n);
    let beginning = segment_strip(second, stroke).take(2);
    assert((2 * n) / 2 == n && (2 * n) % 2 == 0 && (2 * n + 1) / 2 == n && (2 * n + 1) % 2 == 1);
    assert(ending[0] == beginning[0]);
    assert(ending[1] == beginning[1]);
    assert(ending =~= beginning);
}

proof fn lemma_window_interpolates(w: Seq<Point>, n: int)
    ensures
        curve_at(w[0].x as int, w[1].x as int, w[2].x as int, w[3].x as int, n, 0) == w[1].x * (2
            * (n * n * n)),
        curve_at(w[0].x as int, w[1].x as int, w[2].x as int, w[3].x as int, n, n) == w[2].x * (2
            * (n * n * n)),
        curve_at(w[0].y as int, w[1].y as int, w[2].y as int, w[3].y as int, n, 0) == w[1].y * (2
            * (n * n * n)),
        curve_at(w[0].y as int, w[1].y as int, w[2].y as int, w[3].y as int, n, n) == w[2].y * (2
            * (n * n * n)),
        tangent_at(w[0].x as int, w[1].x as int, w[2].x as int, w[3].x as int, n, 0) == (w[2].x
            - w[0].x) * (n * n),
        tangent_at(w[0].x as int, w[1].x as int, w[2].x as int, w[3].x as int, n, n) == (w[3].x
            - w[1].x) * (n * n),
        tangent_at(w[0].y as int, w[1].y as int, w[2].y as int, w[3].y as int, n, 0) == (w[2].y
            - w[0].y) * (n * n),
        tangent_at(w[0].y as int, w[1].y as int, w[2].y as int, w[3].y as int, n, n) == (w[3].y
            - w[1].y) * (n * n),
{
    lemma_curve_interpolates(w[0].x as int, w[1].x as int, w[2].x as int, w[3].x as int, n);
    lemma_curve_interpolates(w[0].y as int, w[1].y as int, w[2].y as int, w[3].y as int, n);
}

/// Within the limits of a valid stroke, the numbers of a vertex are the exact
/// scaled values of the curve and of its derivative.
pub proof fn lemma_vertex_exact(window: Seq<Point>, stroke: Stroke, i: int, cross: int)
    requires
        0 <= i <= stroke.n_subdivisions,
        stroke.valid(),
        cross == 1 || cross == -1,
    ensures
        ({
            let v = vertex_at(window, stroke, i, cross);
            let n = stroke.n_subdivisions as int;
            let (x0, x1, x2, x3) = (
                window[0].x as int,
                window[1].x as int,
                window[2].x as int,
                window[3].x as int,
            );
            let (y0, y1, y2, y3) = (
                window[0].y as int,
                window[1].y as int,
                window[2].y as int,
                window[3].y as int,
            );
            &&& v.x.num == stroke.scale_x.num * curve_at(x0, x1, x2, x3, n, i)
            &&& v.y.num == stroke.scale_y.num * curve_at(y0, y1, y2, y3, n, i)
            &&& v.dx.num == stroke.scale_x.num * tangent_at(x0, x1, x2, x3, n, i)
            &&& v.dy.num == stroke.scale_y.num * tangent_at(y0, y1, y2, y3, n, i)
            &&& v.x.den == stroke.scale_x.den * (2 * (n * n * n)) * POINT_UNIT
            &&& v.y.den == stroke.scale_y.den * (2 * (n * n * n)) * POINT_UNIT
            &&& v.dx.den == stroke.scale_x.den * (2 * (n * n)) * POINT_UNIT
            &&& v.dy.den == stroke.scale_y.den * (2 * (n * n)) * POINT_UNIT
            &&& v.cross == cross
        }),
{
    let n = stroke.n_subdivisions as int;
    let (p0, p1, p2, p3) = (window[0], window[1], window[2], window[3]);
    let (x0, x1, x2, x3) = (p0.x as int, p1.x as int, p2.x as int, p3.x as int);
    let (y0, y1, y2, y3) = (p0.y as int, p1.y as int, p2.y as int, p3.y as int);
    lemma_blend_bound(x0, x1, x2, x3, n, i);
    lemma_blend_bound(y0, y1, y2, y3, n, i);
    lemma_scaled_fits(stroke.scale_x, n, curve_at(x0, x1, x2, x3, n, i));
    lemma_scaled_fits(stroke.scale_x, n, tangent_at(x0, x1, x2, x3, n, i));
    lemma_scaled_fits(stroke.scale_y, n, curve_at(y0, y1, y2, y3, n, i));
    lemma_scaled_fits(stroke.scale_y, n, tangent_at(y0, y1, y2, y3, n, i));
}

/// The strip of a segment holds two vertices for each parameter `i / n`. Both lie
/// beside the same point of the curve, with the same tangent there and the line
/// width of the stroke, the first on the side of the normal and the second on the
/// opposite side. Along each axis, point and tangent are those of the Bezier segment
/// over the four points, multiplied by the scale of that axis.
pub proof fn lemma_strip_pairs(window: Seq<Point>, stroke: Stroke, i: int)
    requires
        window.len() == 4,
        stroke.valid(),
        0 <= i <= stroke.n_subdivisions,
    ensures
        ({
            let strip = segment_strip(window, stroke);
            let (v, w) = (strip[2 * i], strip[2 * i + 1]);
            let n = stroke.n_subdivisions as int;
            let m = n - i;
            let (x1, y1) = (window[1].x as int, window[1].y as int);
            let (x2, y2) = (window[2].x as int, window[2].y as int);
            let cx1 = 6 * x1 + x2 - window[0].x;
            let cy1 = 6 * y1 + y2 - window[0].y;
            let cx2 = 6 * x2 - window[3].x + x1;
            let cy2 = 6 * y2 - window[3].y + y1;
            &&& strip.len() == 2 * n + 2
            &&& v.cross == 1
            &&& w.cross == -1
            &&& v.line_width == stroke.line_width
            &&& w.line_width == stroke.line_width
            &&& w.x == v.x
            &&& w.y == v.y
            &&& w.dx == v.dx
            &&& w.dy == v.dy
            &&& v.x.num == stroke.scale_x.num * (2 * ((m * m * m) * x1) + (m * m * i) * cx1 + (m * i
                * i) * cx2 + 2 * ((i * i * i) * x2))
            &&& v.y.num == stroke.scale_y.num * (2 * ((m * m * m) * y1) + (m * m * i) * cy1 + (m * i
                * i) * cy2 + 2 * ((i * i * i) * y2))
            &&& v.dx.num == stroke.scale_x.num * ((m * m - 2 * (m * i)) * cx1 + (2 * (m * i) - i * i)
                * cx2 + 6 * ((i * i) * x2) - 6 * ((m * m) * x1))
            &&& v.dy.num == stroke.scale_y.num * ((m * m - 2 * (m * i)) * cy1 + (2 * (m * i) - i * i)
                * cy2 + 6 * ((i * i) * y2) - 6 * ((m * m) * y1))
            &&& v.x.den == stroke.scale_x.den * (2 * (n * n * n)) * POINT_UNIT
            &&& v.y.den == stroke.scale_y.den * (2 * (n * n * n)) * POINT_UNIT
            &&& v.dx.den == stroke.scale_x.den * (2 * (n * n)) * POINT_UNIT
            &&& v.dy.den == stroke.scale_y.den * (2 * (n * n)) * POINT_UNIT
        }),
{
    let n = stroke.n_subdivisions as int;
    let (p0, p1, p2, p3) = (window[0], window[1], window[2], window[3]);
    assert((2 * i) / 2 == i && (2 * i) % 2 == 0 && (2 * i + 1) / 2 == i && (2 * i + 1) % 2 == 1);
    lemma_vertex_exact(window, stroke, i, 1);
    lemma_vertex_exact(window, stroke, i, -1);
    lemma_bezier_form(p0.x as int, p1.x as int, p2.x as int, p3.x as int, n, i);
    lemma_bezier_form(p0.y as int, p1.y as int, p2.y as int, p3.y as int, n, i);
}

/// Appending a segment leaves a strip as it is and adds the segment's vertices at
/// its end, all of them where the strip was empty, else all but the first two.
pub proof fn lemma_strip_grows(strip: Seq<Vertex>, window: Seq<Point>, stroke: Stroke)
    ensures
        ({
            let after = extended_strip(strip, window, stroke);
            let segment = segment_strip(window, stroke);
            let skipped = if strip.len() == 0 {
                0int
            } else {
                2int
            };
            &&& after.len() == strip.len() + 2 * stroke.n_subdivisions + 2 - skipped
            &&& forall|j: int| 0 <= j < strip.len() ==> #[trigger] after[j] == strip[j]
            &&& forall|j: int|
                skipped <= j < 2 * stroke.n_subdivisions + 2 ==> after[strip.len() + j - skipped]
                    == #[trigger] segment[j]
        }),
{
}

/// A coordinate tells two to the sixtieth positions within a pendulum unit apart.
pub proof fn lemma_point_unit()
    ensures
        POINT_UNIT == 0x8000 * 0x8000 * 0x8000 * 0x8000,
{
}

} // verus!
