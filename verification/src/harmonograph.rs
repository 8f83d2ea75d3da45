//! The harmonograph: four pendulums, a clock, and the last points drawn.

use crate::curve::{
    append_segment, extended_strip, lemma_segments_join, lemma_strip_grows, segment_strip, Fraction, Point, Scale,
    Stroke, Vertex,
};
use crate::pendulum::{
    draw_parameters, lemma_pendulum_in_range, lemma_pendulum_numbers, make_pendulum, pendulum,
    Draws, Pendulum, DRAW_STEPS,
};
use vstd::prelude::*;

verus! {

/// The time after which a pattern is finished, in hundredths of a unit.
pub const MAX_T: u32 = 40_000;

/// The time between two points of a pattern, in hundredths of a unit.
pub const STEP: u32 = 1;

/// Two pendulums that move the pen along each axis, the time, and the points
/// most recently drawn.
pub struct Harmonograph {
    x1: Pendulum,
    x2: Pendulum,
    y1: Pendulum,
    y2: Pendulum,
    t: u32,
    ring: [Point; 4],
    ring_count: u32,
}

/// A harmonograph as a value: its pendulums, the time in hundredths of a unit,
/// and the last points drawn, at most four, the oldest first.
#[verifier::ext_equal]
pub struct HarmonographState {
    pub x1: Pendulum,
    pub x2: Pendulum,
    pub y1: Pendulum,
    pub y2: Pendulum,
    pub t: int,
    pub window: Seq<Point>,
}

/// The last points, at most four, after one more.
pub open spec fn slide(window: Seq<Point>, point: Point) -> Seq<Point> {
    if window.len() < 4 {
        window.push(point)
    } else {
        window.skip(1).push(point)
    }
}

/// The position of the pen for the deflections of the four pendulums. Two of them
/// add up along each axis.
pub fn position(x1: i64, x2: i64, y1: i64, y2: i64) -> (p: Point)
    requires
        i64::MIN <= x1 + x2 <= i64::MAX,
        i64::MIN <= y1 + y2 <= i64::MAX,
    ensures
        p.x == x1 + x2,
        p.y == y1 + y2,
{
    Point { x: x1 + x2, y: y1 + y2 }
}

impl HarmonographState {
    /// The state at the start of the pattern that `draws` set.
    pub open spec fn fresh(draws: Draws) -> HarmonographState {
        HarmonographState {
            x1: pendulum(draws.base, draws.f_x, draws.x1, true),
            x2: pendulum(draws.base, draws.f_x2, draws.x2, false),
            y1: pendulum(draws.base, draws.f_y, draws.y1, true),
            y2: pendulum(draws.base, draws.f_y2, draws.y2, false),
            t: 0,
            window: Seq::empty(),
        }
    }

    /// Whether a harmonograph can be in this state: the pendulums are in range,
    /// and the clock has counted the points drawn.
    pub open spec fn valid(self) -> bool {
        &&& self.x1.in_range(true)
        &&& self.x2.in_range(false)
        &&& self.y1.in_range(true)
        &&& self.y2.in_range(false)
        &&& 0 <= self.t <= MAX_T + STEP
        &&& self.t % (STEP as int) == 0
        &&& self.window.len() == if self.t / (STEP as int) < 4 {
            self.t / (STEP as int)
        } else {
            4
        }
    }

    /// Whether the pattern is complete.
    pub open spec fn finished(self) -> bool {
        self.t > MAX_T
    }

    /// The state after one more point.
    pub open spec fn advanced(self, point: Point) -> HarmonographState {
        HarmonographState { t: self.t + STEP, window: slide(self.window, point), ..self }
    }

    /// The state after all of `points`.
    pub open spec fn run(self, points: Seq<Point>) -> HarmonographState
        decreases points.len(),
    {
        if points.len() == 0 {
            self
        } else {
            self.run(points.drop_last()).advanced(points.last())
        }
    }

    /// The strip that accumulates, from an empty one, while `points` are drawn.
    pub open spec fn run_strip(self, points: Seq<Point>, stroke: Stroke) -> Seq<Vertex>
        decreases points.len(),
    {
        if points.len() == 0 {
            Seq::empty()
        } else {
            self.run(points).strip_extended(self.run_strip(points.drop_last(), stroke), stroke)
        }
    }

    /// The strip after the current segment, where there is one, is appended.
    pub open spec fn strip_extended(self, strip: Seq<Vertex>, stroke: Stroke) -> Seq<Vertex> {
        if self.window.len() == 4 {
            extended_strip(strip, self.window, stroke)
        } else {
            strip
        }
    }
}

impl View for Harmonograph {
    type V = HarmonographState;

    closed spec fn view(&self) -> HarmonographState {
        HarmonographState {
            x1: self.x1,
            x2: self.x2,
            y1: self.y1,
            y2: self.y2,
            t: self.t as int,
            window: self.ring@.take(
                if self.ring_count < 4 {
                    self.ring_count as int
                } else {
                    4
                },
            ),
        }
    }
}

impl Harmonograph {
    /// The state is valid, and the clock counts the points drawn.
    pub closed spec fn wf(&self) -> bool {
        &&& self@.valid()
        &&& self.t == self.ring_count * STEP
    }

    /// A well-formed harmonograph is in a valid state.
    pub proof fn lemma_wf_valid(&self)
        requires
            self.wf(),
        ensures
            self@.valid(),
    {
    }

    /// The pendulums: two along the X axis, then two along the Y axis.
    pub fn pendulums(&self) -> (p: (Pendulum, Pendulum, Pendulum, Pendulum))
        ensures
            p == (self@.x1, self@.x2, self@.y1, self@.y2),
    {
        (self.x1, self.x2, self.y1, self.y2)
    }

    /// The time, in hundredths of a unit.
    pub fn time(&self) -> (t: u32)
        ensures
            t == self@.t,
    {
        self.t
    }

    /// Starts a pattern with random parameters.
    pub fn new() -> (h: Self)
        ensures
            h.wf(),
            exists|draws: Draws| draws.valid() && h@ == HarmonographState::fresh(draws),
    {
        let draws: Draws = draw_parameters();
        Self::with_draws(&draws)
    }

    /// Starts the pattern that `draws` set.
    pub fn with_draws(draws: &Draws) -> (h: Self)
        requires
            draws.valid(),
        ensures
            h.wf(),
            h@ == HarmonographState::fresh(*draws),
    {
        let still: Pendulum = Pendulum { amplitude: 0, frequency: 0, phase: 0, damping: 0 };
        let mut h: Self = Self {
            x1: still,
            x2: still,
            y1: still,
            y2: still,
            t: 0,
            ring: [Point { x: 0, y: 0 };4],
            ring_count: 0,
        };
        h.retune(draws);
        h
    }

    /// Replaces the pattern by a new one with random parameters.
    pub fn randomize(&mut self)
        ensures
            final(self).wf(),
            exists|draws: Draws| draws.valid() && final(self)@ == HarmonographState::fresh(draws),
    {
        let draws: Draws = draw_parameters();
        self.retune(&draws);
    }

    /// Replaces the pattern by the one that `draws` set.
    pub fn retune(&mut self, draws: &Draws)
        requires
            draws.valid(),
        ensures
            final(self).wf(),
            final(self)@ == HarmonographState::fresh(*draws),
    {
        self.x1 = make_pendulum(draws.base, &draws.f_x, &draws.x1, true);
        self.x2 = make_pendulum(draws.base, &draws.f_x2, &draws.x2, false);
        self.y1 = make_pendulum(draws.base, &draws.f_y, &draws.y1, true);
        self.y2 = make_pendulum(draws.base, &draws.f_y2, &draws.y2, false);
        self.t = 0;
        self.ring_count = 0;
        proof {
            lemma_pendulum_in_range(draws.base, draws.f_x, draws.x1, true);
            lemma_pendulum_in_range(draws.base, draws.f_x2, draws.x2, false);
            lemma_pendulum_in_range(draws.base, draws.f_y, draws.y1, true);
            lemma_pendulum_in_range(draws.base, draws.f_y2, draws.y2, false);
            assert(self.ring@.take(0) =~= Seq::<Point>::empty());
        }
    }

    /// Takes the pen to `point`, the position of the pendulums at the current
    /// time, and the clock one step on. A finished pattern stays as it is, and
    /// the answer is `false`.
    pub fn advance(&mut self, point: Point) -> (moved: bool)
        requires
            old(self).wf(),
        ensures
            final(self).wf(),
            moved == !old(self)@.finished(),
            moved ==> final(self)@ == old(self)@.advanced(point),
            !moved ==> *final(self) == *old(self),
    {
        if self.t > MAX_T {
            return false;
        }
        let ghost before = self@;
        self.t = self.t + STEP;
        if self.ring_count >= 4 {
            self.ring[0] = self.ring[1];
            self.ring[1] = self.ring[2];
            self.ring[2] = self.ring[3];
            self.ring[3] = point;
        } else {
            self.ring[self.ring_count as usize] = point;
        }
        self.ring_count = self.ring_count + 1;
        assert(self@.window =~= slide(before.window, point));
        true
    }

    /// The four points around the current curve segment, once there are four.
    pub fn catmull_rom_points(&self) -> (points: Option<&[Point; 4]>)
        ensures
            points is Some <==> self@.window.len() == 4,
            points is Some ==> points->0@ == self@.window,
    {
        if self.ring_count >= 4 {
            assert(self.ring@.take(4) =~= self.ring@);
            Some(&self.ring)
        } else {
            None
        }
    }

    /// Appends the triangle strip of the current curve segment to `verts`, and
    /// says whether there is such a segment yet.
    pub fn append_catmull_rom_strip(
        &self,
        scale_x: Scale,
        scale_y: Scale,
        line_width: Fraction,
        n_subdivisions: usize,
        verts: &mut Vec<Vertex>,
    ) -> (appended: bool)
        requires
            scale_x.admits(n_subdivisions as int),
            scale_y.admits(n_subdivisions as int),
        ensures
            appended == (self@.window.len() == 4),
            final(verts)@ == self@.strip_extended(
                old(verts)@,
                (Stroke { scale_x, scale_y, line_width, n_subdivisions }),
            ),
    {
        match self.catmull_rom_points() {
            Some(window) => {
                let stroke: Stroke = Stroke { scale_x, scale_y, line_width, n_subdivisions };
                append_segment(window, &stroke, verts);
                true
            },
            None => false,
        }
    }
}

/// The last `count` elements of `points`, or all of them where there are fewer.
pub open spec fn recent(points: Seq<Point>, count: int) -> Seq<Point> {
    if points.len() < count {
        points
    } else {
        points.skip(points.len() - count)
    }
}

/// The window always holds the last four points drawn, in the order in which
/// they were drawn; the clock counts the points, and the pendulums stay as they
/// are.
pub proof fn lemma_run_window(state: HarmonographState, points: Seq<Point>)
    requires
        state.window.len() <= 4,
    ensures
        state.run(points) == (HarmonographState {
            t: state.t + points.len() * STEP,
            window: recent(state.window + points, 4),
            ..state
        }),
    decreases points.len(),
{
    if points.len() == 0 {
        assert(recent(state.window + points, 4) =~= state.window);
    } else {
        let rest = points.drop_last();
        lemma_run_window(state, rest);
        assert(state.window + points =~= (state.window + rest).push(points.last()));
        assert(slide(recent(state.window + rest, 4), points.last()) =~= recent(
            state.window + points,
            4,
        ));
    }
}

/// A pattern is finished once its clock has passed [`MAX_T`], that is after
/// `MAX_T / STEP + 1` points, never earlier.
pub proof fn lemma_pattern_length(draws: Draws, points: Seq<Point>)
    ensures
        HarmonographState::fresh(draws).run(points).finished() <==> points.len() > MAX_T / STEP,
{
    lemma_run_window(HarmonographState::fresh(draws), points);
}

/// The number of points after which a run from `state` draws its first segment.
pub open spec fn first_segment(state: HarmonographState) -> int {
    if state.window.len() < 4 {
        4 - state.window.len()
    } else {
        1
    }
}

proof fn lemma_run_windows_follow(state: HarmonographState, points: Seq<Point>)
    requires
        state.window.len() <= 4,
        points.len() > first_segment(state),
    ensures
        state.run(points).window.len() == 4,
        state.run(points.drop_last()).window.len() == 4,
        state.run(points).window.take(3) == state.run(points.drop_last()).window.skip(1),
{
    lemma_run_window(state, points);
    lemma_run_window(state, points.drop_last());
    assert(state.run(points).window.take(3) =~= state.run(points.drop_last()).window.skip(1));
}

/// Whether `strip` holds the complete strip of the segment that a run from
/// `state` draws at the `k`-th of `points`, right where a continuous strip has it.
pub open spec fn segment_in_place(
    strip: Seq<Vertex>,
    state: HarmonographState,
    points: Seq<Point>,
    stroke: Stroke,
    k: int,
) -> bool {
    let at = 2 * stroke.n_subdivisions * (k - first_segment(state));
    &&& 0 <= at
    &&& at + 2 * stroke.n_subdivisions + 2 <= strip.len()
    &&& strip.subrange(at, at + 2 * stroke.n_subdivisions + 2) == segment_strip(
        state.run(points.take(k)).window,
        stroke,
    )
}

/// The accumulated strip is one continuous strip without gaps: as long as one
/// segment and as many pieces again for each further one, with the complete
/// strip of each segment in its place.
pub proof fn lemma_strip_continuous(state: HarmonographState, points: Seq<Point>, stroke: Stroke)
    requires
        state.window.len() <= 4,
    ensures
        ({
            let strip = state.run_strip(points, stroke);
            let n = stroke.n_subdivisions as int;
            let first = first_segment(state);
            &&& points.len() < first ==> strip.len() == 0
            &&& points.len() >= first ==> strip.len() == 2 * n * (points.len() - first + 1) + 2
            &&& forall|k: int|
                first <= k <= points.len() ==> #[trigger] segment_in_place(
                    strip,
                    state,
                    points,
                    stroke,
                    k,
                )
        }),
    decreases points.len(),
{
    let strip = state.run_strip(points, stroke);
    let n = stroke.n_subdivisions as int;
    let first = first_segment(state);
    let count = points.len() as int;
    lemma_run_window(state, points);
    if count > 0 {
        let rest = points.drop_last();
        let before = state.run_strip(rest, stroke);
        lemma_strip_continuous(state, rest, stroke);
        let window = state.run(points).window;
        let segment = segment_strip(window, stroke);
        assert(points.take(count) =~= points);
        if count == first {
            assert(2 * n * (count - first + 1) == 2 * n && 2 * n * (count - first) == 0)
                by (nonlinear_arith)
                requires
                    count == first,
            ;
            assert(strip.subrange(0, 2 * n + 2) =~= segment);
            assert(segment_in_place(strip, state, points, stroke, count));
        } else if count > first {
            let previous = segment_strip(state.run(rest).window, stroke);
            let at = 2 * n * (count - first);
            assert(2 * n * (count - first + 1) == at + 2 * n && 2 * n * (count - 1 - first) == at
                - 2 * n && 0 <= at) by (nonlinear_arith)
                requires
                    at == 2 * n * (count - first),
                    0 <= n,
                    first < count,
            ;
            assert(rest.take(count - 1) =~= rest);
            assert(segment_in_place(before, state, rest, stroke, count - 1));
            lemma_run_windows_follow(state, points);
            lemma_segments_join(state.run(rest).window, window, stroke);
            assert(before.skip(at) =~= previous.skip(2 * n)) by {
                assert(before.subrange(at - 2 * n, at + 2) == previous);
            }
            assert(strip =~= before + segment.skip(2));
            assert(segment =~= segment.take(2) + segment.skip(2));
            assert(strip.subrange(at, at + 2 * n + 2) =~= before.skip(at) + segment.skip(2));
            assert forall|k: int| first <= k <= count implies #[trigger] segment_in_place(
                strip,
                state,
                points,
                stroke,
                k,
            ) by {
                if k < count {
                    assert(segment_in_place(before, state, rest, stroke, k));
                    assert(points.take(k) =~= rest.take(k));
                    let lo = 2 * n * (k - first);
                    assert(strip.subrange(lo, lo + 2 * n + 2) =~= before.subrange(
                        lo,
                        lo + 2 * n + 2,
                    ));
                }
            }
        }
    }
}

/// Points drawn in two lots leave the state that they leave in one.
pub proof fn lemma_run_concatenates(state: HarmonographState, a: Seq<Point>, b: Seq<Point>)
    ensures
        state.run(a + b) == state.run(a).run(b),
    decreases b.len(),
{
    if b.len() == 0 {
        assert(a + b =~= a);
    } else {
        lemma_run_concatenates(state, a, b.drop_last());
        assert((a + b).drop_last() =~= a + b.drop_last());
    }
}

/// Points drawn in two lots draw the strip that they draw in one: the second
/// strip begins on the two vertices that the first ends on, and adds the rest.
pub proof fn lemma_strips_join(
    state: HarmonographState,
    a: Seq<Point>,
    b: Seq<Point>,
    stroke: Stroke,
)
    requires
        state.window.len() <= 4,
        state.run_strip(a, stroke).len() > 0,
        b.len() > 0,
    ensures
        ({
            let first = state.run_strip(a, stroke);
            let second = state.run(a).run_strip(b, stroke);
            &&& first.len() >= 2
            &&& second.len() >= 2
            &&& first.skip(first.len() - 2) == second.take(2)
            &&& state.run_strip(a + b, stroke) == first + second.skip(2)
        }),
    decreases b.len(),
{
    let first = state.run_strip(a, stroke);
    let middle = state.run(a);
    let second = middle.run_strip(b, stroke);
    let n = stroke.n_subdivisions as int;
    lemma_strip_continuous(state, a, stroke);
    lemma_run_window(state, a);
    lemma_run_concatenates(state, a, b);
    lemma_run_window(middle, b);
    assert(middle.window.len() == 4);
    lemma_strip_continuous(middle, b, stroke);
    assert((a + b).drop_last() =~= a + b.drop_last());
    assert((a + b).len() > 0);
    let segment = segment_strip(middle.run(b).window, stroke);
    assert(2 * n * b.len() >= 0) by (nonlinear_arith)
        requires
            n >= 0,
    ;
    if b.len() == 1 {
        assert(b.drop_last() =~= Seq::<Point>::empty());
        assert(a + b.drop_last() =~= a);
        assert(middle.run_strip(b.drop_last(), stroke) =~= Seq::<Vertex>::empty());
        assert(second =~= segment);
        let last = a.len() as int;
        assert(a.take(last) =~= a);
        assert(segment_in_place(first, state, a, stroke, last));
        let at = 2 * n * (last - first_segment(state));
        let ending = segment_strip(middle.window, stroke);
        assert(2 * n * (last - first_segment(state) + 1) == at + 2 * n) by (nonlinear_arith)
            requires
                at == 2 * n * (last - first_segment(state)),
        ;
        assert(first.subrange(at, at + 2 * n + 2) == ending);
        assert(middle.run(b).window.take(3) =~= middle.window.skip(1)) by {
            assert(b =~= seq![b[0]]);
        }
        lemma_segments_join(middle.window, middle.run(b).window, stroke);
        assert(first.skip(first.len() - 2) =~= ending.skip(2 * n));
    } else {
        let rest = b.drop_last();
        lemma_strips_join(state, a, rest, stroke);
        let shorter = middle.run_strip(rest, stroke);
        assert(second =~= shorter + segment.skip(2));
        assert(second.take(2) =~= shorter.take(2));
        assert(state.run_strip(a + b, stroke) =~= (first + shorter.skip(2)) + segment.skip(2));
        assert(second.skip(2) =~= shorter.skip(2) + segment.skip(2));
    }
}

/// A pattern starts at time 0 with no point drawn. Its pendulums share one base
/// frequency, and each has the ratio, detuning, amplitude, phase and damping that
/// were drawn for it. The first along each axis is the primary one.
pub proof fn lemma_fresh_pendulums(d: Draws)
    requires
        d.valid(),
    ensures
        ({
            let h = HarmonographState::fresh(d);
            let base = 100 * DRAW_STEPS + 100 * d.base;
            &&& h.t == 0
            &&& h.window.len() == 0
            &&& h.x1.frequency == (d.f_x.ratio + 1) * base + 6 * d.f_x.detune - 3 * DRAW_STEPS
            &&& h.x2.frequency == (d.f_x2.ratio + 1) * base + 6 * d.f_x2.detune - 3 * DRAW_STEPS
            &&& h.y1.frequency == (d.f_y.ratio + 1) * base + 6 * d.f_y.detune - 3 * DRAW_STEPS
            &&& h.y2.frequency == (d.f_y2.ratio + 1) * base + 6 * d.f_y2.detune - 3 * DRAW_STEPS
            &&& h.x1.amplitude == 600 * DRAW_STEPS + 400 * d.x1.amplitude
            &&& h.y1.amplitude == 600 * DRAW_STEPS + 400 * d.y1.amplitude
            &&& h.x2.amplitude == 100 * DRAW_STEPS + 250 * d.x2.amplitude
            &&& h.y2.amplitude == 100 * DRAW_STEPS + 250 * d.y2.amplitude
            &&& h.x1.phase == d.x1.phase && h.x2.phase == d.x2.phase
            &&& h.y1.phase == d.y1.phase && h.y2.phase == d.y2.phase
            &&& h.x1.damping == 2 * DRAW_STEPS + 4 * d.x1.damping
            &&& h.x2.damping == 2 * DRAW_STEPS + 4 * d.x2.damping
            &&& h.y1.damping == 2 * DRAW_STEPS + 4 * d.y1.damping
            &&& h.y2.damping == 2 * DRAW_STEPS + 4 * d.y2.damping
        }),
{
    lemma_pendulum_numbers(d.base, d.f_x, d.x1, true);
    lemma_pendulum_numbers(d.base, d.f_x2, d.x2, false);
    lemma_pendulum_numbers(d.base, d.f_y, d.y1, true);
    lemma_pendulum_numbers(d.base, d.f_y2, d.y2, false);
}

/// One more point goes to the end of the window and pushes out the oldest of four.
/// The clock moves on by a hundredth of a unit, and the pendulums stay as they are.
pub proof fn lemma_point_taken(state: HarmonographState, point: Point)
    requires
        state.window.len() <= 4,
    ensures
        ({
            let after = state.advanced(point);
            let (n, m) = (state.window.len() as int, after.window.len() as int);
            &&& m == if n < 4 {
                n + 1
            } else {
                4
            }
            &&& after.window[m - 1] == point
            &&& forall|j: int|
                0 <= j < m - 1 ==> #[trigger] after.window[j] == state.window[n - m + 1 + j]
            &&& after.t == state.t + 1
            &&& after.x1 == state.x1 && after.x2 == state.x2
            &&& after.y1 == state.y1 && after.y2 == state.y2
        }),
{
}

/// A pattern runs for 400 units of time, in steps of a hundredth: it is finished
/// once its clock is past 40000 hundredths, which takes 40001 points.
pub proof fn lemma_pattern_duration(state: HarmonographState, points: Seq<Point>)
    requires
        state.window.len() <= 4,
    ensures
        state.finished() <==> state.t > 40_000,
        state.run(points).t == state.t + points.len(),
        state.run(points).finished() <==> state.t + points.len() > 40_000,
{
    lemma_run_window(state, points);
}

/// After a run, the window holds the last points of all that were drawn, up to
/// four, in the order in which they were drawn.
pub proof fn lemma_window_holds_last(state: HarmonographState, points: Seq<Point>)
    requires
        state.window.len() <= 4,
    ensures
        ({
            let all = state.window + points;
            let window = state.run(points).window;
            &&& window.len() == if all.len() < 4 {
                all.len() as int
            } else {
                4
            }
            &&& forall|j: int|
                0 <= j < window.len() ==> #[trigger] window[j] == all[all.len() - window.len() + j]
        }),
{
    lemma_run_window(state, points);
}

/// The strip of a run holds, for every four successive points of all that were
/// drawn, the whole strip of their segment. The segments follow each other in order,
/// each beginning on the two vertices that the one before ends on, and nothing else
/// is in the strip. No segment ends on a point from before the run.
pub proof fn lemma_run_strip_segments(
    state: HarmonographState,
    points: Seq<Point>,
    stroke: Stroke,
    k: int,
    j: int,
)
    requires
        state.window.len() <= 4,
        0 <= k < points.len(),
        state.window.len() + k >= 3,
        0 <= j < 2 * stroke.n_subdivisions + 2,
    ensures
        ({
            let all = state.window + points;
            let end = state.window.len() + k + 1;
            let strip = state.run_strip(points, stroke);
            let n = stroke.n_subdivisions as int;
            let before = if state.window.len() < 4 {
                k - (3 - state.window.len())
            } else {
                k
            };
            let count = if state.window.len() < 4 {
                points.len() - (3 - state.window.len())
            } else {
                points.len() as int
            };
            &&& strip.len() == 2 * n * count + 2
            &&& 0 <= 2 * n * before + j < strip.len()
            &&& strip[2 * n * before + j] == segment_strip(all.subrange(end - 4, end), stroke)[j]
        }),
{
    let all = state.window + points;
    let end = state.window.len() + k + 1;
    let n = stroke.n_subdivisions as int;
    let strip = state.run_strip(points, stroke);
    lemma_strip_continuous(state, points, stroke);
    assert(segment_in_place(strip, state, points, stroke, k + 1));
    lemma_run_window(state, points.take(k + 1));
    assert(state.window + points.take(k + 1) =~= all.take(end as int));
    assert(recent(all.take(end as int), 4) =~= all.subrange(end - 4, end as int));
    let at = 2 * n * (k + 1 - first_segment(state));
    assert(strip.subrange(at, at + 2 * n + 2)[j] == strip[at + j]);
}

/// As long as fewer than four points have been drawn in all, there is no strip.
pub proof fn lemma_run_strip_empty(state: HarmonographState, points: Seq<Point>, stroke: Stroke)
    requires
        state.window.len() <= 4,
        points.len() == 0 || state.window.len() + points.len() < 4,
    ensures
        state.run_strip(points, stroke).len() == 0,
{
    lemma_strip_continuous(state, points, stroke);
}

/// The current segment, once there are four points, goes to the end of a strip:
/// all of its vertices where the strip is empty, else all but the first two.
/// Before that a strip stays as it is.
pub proof fn lemma_current_segment(state: HarmonographState, strip: Seq<Vertex>, stroke: Stroke)
    requires
        state.window.len() <= 4,
    ensures
        state.window.len() < 4 ==> state.strip_extended(strip, stroke) == strip,
        state.window.len() == 4 ==> {
            let after = state.strip_extended(strip, stroke);
            let segment = segment_strip(state.window, stroke);
            let skipped = if strip.len() == 0 {
                0int
            } else {
                2int
            };
            &&& after.len() == strip.len() + 2 * stroke.n_subdivisions + 2 - skipped
            &&& forall|j: int| 0 <= j < strip.len() ==> #[trigger] after[j] == strip[j]
            &&& forall|j: int|
                skipped <= j < 2 * stroke.n_subdivisions + 2 ==> after[strip.len() + j - skipped]
                    == #[trigger] segment[j]
        },
{
    lemma_strip_grows(strip, state.window, stroke);
}

} // verus!
