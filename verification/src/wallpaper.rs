//! The wallpaper: what each event does to it, and what each frame shows.

use crate::color::Color;
use crate::curve::{lemma_strip_pairs, Fraction, Point, Scale, Stroke, Vertex, POINT_UNIT};
use crate::harmonograph::{
    lemma_run_strip_segments, Harmonograph, HarmonographState, MAX_T, STEP,
};
use crate::output::{
    drawn, lemma_scales_found, lemma_scales_of_largest, lemma_slots_where, output_scales, rendered,
    renderer_made, renderers_fit, settled, side, slot_with_surface, slots_where, surface_resized,
    Outputs, Slot,
};
use crate::palette::{following, next_color};
use crate::pendulum::{draw_parameters, Draws};
use crate::random::random_below;
use vstd::prelude::*;

verus! {

/// The number of pieces that a curve segment is cut into.
pub const N_SUBDIVISIONS: usize = 16;

/// The width of the line, in thousandths of a normalized device coordinate.
pub const LINE_WIDTH_THOUSANDTHS: i128 = 2;

/// The opacity of the line, in hundredths.
pub const LINE_ALPHA_HUNDREDTHS: u32 = 85;

/// How much opacity a picture loses in each frame, in thousandths.
pub const FADE_THOUSANDTHS: u32 = 5;

/// The time between two frames, in milliseconds.
pub const FRAME_MILLIS: u64 = 33;

/// Everything that determines what the wallpaper shows.
pub struct Wallpaper {
    pub outputs: Outputs,
    pub harmonograph: Harmonograph,
    pub fg_colors: Vec<Color>,
    pub bg_color: Color,
    pub current_color: Color,
    pub steps_per_tick: u32,
    /// Per-axis scale factors that keep the pattern square.
    pub scale_x: Scale,
    pub scale_y: Scale,
}

/// What one tick shows: a strip in a color, drawn where it is not empty; whether
/// the picture is cleared after that, and whether it is presented.
pub struct Frame {
    pub strip: Vec<Vertex>,
    pub color: Color,
    pub clear: bool,
    pub present: bool,
}

/// What can be done on an output.
#[derive(Clone, Copy, Debug, PartialEq, Eq, Structural)]
pub enum Action {
    /// Take some opacity from what has been drawn.
    Fade,
    /// Draw the strip of the frame.
    Draw,
    /// Make what has been drawn transparent.
    Clear,
    /// Show what has been drawn, over the background.
    Present,
}

/// One thing to do on the output of a slot.
#[derive(Clone, Copy, Debug, PartialEq, Eq, Structural)]
pub struct Command {
    pub action: Action,
    pub slot: usize,
}

/// The commands that do one thing on each of some slots.
pub open spec fn on_each(action: Action, slots: Seq<usize>) -> Seq<Command> {
    Seq::new(slots.len(), |i: int| Command { action, slot: slots[i] })
}

/// What a frame does on the outputs, in order: it fades what all of them show,
/// draws on them, clears them and presents them.
pub open spec fn frame_commands(slots: Seq<Slot>, frame: Frame) -> Seq<Command> {
    on_each(Action::Fade, drawn(slots)) + (if frame.strip@.len() > 0 {
        on_each(Action::Draw, drawn(slots))
    } else {
        Seq::empty()
    }) + (if frame.clear {
        on_each(Action::Clear, rendered(slots))
    } else {
        Seq::empty()
    }) + (if frame.present {
        on_each(Action::Present, drawn(slots))
    } else {
        Seq::empty()
    })
}

/// Adds the commands that do one thing on each of some slots.
fn append_commands(commands: &mut Vec<Command>, action: Action, slots: &Vec<usize>)
    ensures
        final(commands)@ == old(commands)@ + on_each(action, slots@),
{
    let mut i: usize = 0;
    while i < slots.len()
        invariant
            i <= slots@.len(),
            commands@ == old(commands)@ + on_each(action, slots@.take(i as int)),
        decreases slots@.len() - i,
    {
        commands.push(Command { action, slot: slots[i] });
        i = i + 1;
    }
    assert(slots@.take(i as int) =~= slots@);
}

/// The slot of a surface that the compositor has given a size, that size, and
/// whether a renderer of that size is to be made for it.
#[derive(Clone, Copy, Debug, PartialEq, Eq, Structural)]
pub struct Configured {
    pub slot: usize,
    pub width: u32,
    pub height: u32,
    pub make_renderer: bool,
}

/// How many of `steps` steps a pattern can still take before it is finished.
pub open spec fn steps_left(state: HarmonographState, steps: int) -> int {
    let left = if state.finished() {
        0
    } else {
        (MAX_T - state.t) / (STEP as int) + 1
    };
    if left < steps {
        left
    } else {
        steps
    }
}

/// Whether a scale is one that the size of a screen can give.
pub open spec fn is_screen_scale(scale: Scale) -> bool {
    scale.num < 0x4_0000_0000 && 0 < scale.den < 0x5_0000_0000
}

proof fn lemma_screen_scale_admits(scale: Scale)
    requires
        is_screen_scale(scale),
    ensures
        scale.admits(N_SUBDIVISIONS as int),
{
    let n = N_SUBDIVISIONS as int;
    assert(n * n * n == 4096) by (nonlinear_arith)
        requires
            n == 16,
    ;
    let (num, den) = (scale.num as int, scale.den as int);
    assert(32 * (n * n * n) * num == 131072 * num && 32 * (n * n * n) * den == 131072 * den)
        by (nonlinear_arith)
        requires
            n * n * n == 4096,
    ;
}

impl Wallpaper {
    /// The pattern is well-formed, there are colors to draw it in, the scales are
    /// those of a screen, every renderer has the size of its surface, and every
    /// configured output has a renderer and no side of length 0.
    pub open spec fn wf(&self) -> bool {
        &&& self.harmonograph.wf()
        &&& self.fg_colors@.len() > 0
        &&& is_screen_scale(self.scale_x)
        &&& is_screen_scale(self.scale_y)
        &&& renderers_fit(self.outputs@)
        &&& settled(self.outputs@)
    }

    /// How curve segments are drawn.
    pub open spec fn stroke(&self) -> Stroke {
        Stroke {
            scale_x: self.scale_x,
            scale_y: self.scale_y,
            line_width: Fraction { num: LINE_WIDTH_THOUSANDTHS, den: 1000 },
            n_subdivisions: N_SUBDIVISIONS,
        }
    }

    /// Whether the next tick finishes the pattern and begins a new one.
    pub open spec fn ends_pattern(&self) -> bool {
        steps_left(self.harmonograph@, self.steps_per_tick as int) < self.steps_per_tick
    }

    /// A wallpaper without outputs, with a random pattern in a random one of the
    /// foreground colors.
    pub fn new(fg_colors: Vec<Color>, bg_color: Color) -> (w: Self)
        requires
            fg_colors@.len() > 0,
        ensures
            w.wf(),
            exists|draws: Draws|
                draws.valid() && w.harmonograph@ == HarmonographState::fresh(draws),
            fg_colors@.contains(w.current_color),
            w.outputs@ == Seq::<Slot>::empty(),
            w.fg_colors@ == fg_colors@,
            w.bg_color == bg_color,
            w.steps_per_tick == 1,
            w.scale_x == (Scale { num: 2, den: 5 }),
            w.scale_y == (Scale { num: 2, den: 5 }),
    {
        let first: u64 = random_below(fg_colors.len() as u64);
        let draws: Draws = draw_parameters();
        Self::with_draws(fg_colors, bg_color, first as usize, &draws)
    }

    /// A wallpaper without outputs, with the pattern that `draws` set, in the
    /// foreground color with index `first`.
    pub fn with_draws(
        fg_colors: Vec<Color>,
        bg_color: Color,
        first: usize,
        draws: &Draws,
    ) -> (w: Self)
        requires
            first < fg_colors@.len(),
            draws.valid(),
        ensures
            w.wf(),
            w.harmonograph@ == HarmonographState::fresh(*draws),
            w.current_color == fg_colors@[first as int],
            w.outputs@ == Seq::<Slot>::empty(),
            w.fg_colors@ == fg_colors@,
            w.bg_color == bg_color,
            w.steps_per_tick == 1,
            w.scale_x == (Scale { num: 2, den: 5 }),
            w.scale_y == (Scale { num: 2, den: 5 }),
    {
        let current_color: Color = fg_colors[first];
        Wallpaper {
            outputs: Outputs::new(),
            harmonograph: Harmonograph::with_draws(draws),
            fg_colors,
            bg_color,
            current_color,
            steps_per_tick: 1,
            scale_x: Scale { num: 2, den: 5 },
            scale_y: Scale { num: 2, den: 5 },
        }
    }

    /// Makes the next of the different foreground colors the current one. Each
    /// comes once before any comes again.
    pub fn pick_new_color(&mut self)
        requires
            old(self).fg_colors@.len() > 0,
        ensures
            *final(self) == (Wallpaper {
                current_color: next_color(old(self).fg_colors@, old(self).current_color),
                ..*old(self)
            }),
    {
        self.current_color = following(&self.fg_colors, self.current_color);
    }

    /// Begins a new pattern, with random parameters and in the next color.
    pub fn restart(&mut self)
        requires
            old(self).fg_colors@.len() > 0,
        ensures
            final(self).harmonograph.wf(),
            exists|draws: Draws|
                draws.valid() && final(self).harmonograph@ == HarmonographState::fresh(draws),
            *final(self) == (Wallpaper {
                harmonograph: final(self).harmonograph,
                current_color: next_color(old(self).fg_colors@, old(self).current_color),
                ..*old(self)
            }),
    {
        self.harmonograph.randomize();
        self.pick_new_color();
    }

    /// The times, in hundredths of a unit, at which the next tick wants the
    /// position of the pendulums.
    pub fn tick_times(&self) -> (times: Vec<u64>)
        requires
            self.wf(),
        ensures
            times@.len() == self.steps_per_tick,
            forall|k: int|
                0 <= k < times@.len() ==> #[trigger] times@[k] == self.harmonograph@.t + k * STEP,
    {
        proof {
            self.harmonograph.lemma_wf_valid();
        }
        let mut times: Vec<u64> = Vec::new();
        let mut at: u64 = self.harmonograph.time() as u64;
        let mut k: u32 = 0;
        while k < self.steps_per_tick
            invariant
                k <= self.steps_per_tick,
                at == self.harmonograph@.t + k * STEP,
                self.harmonograph@.t <= MAX_T + STEP,
                times@.len() == k,
                forall|j: int|
                    0 <= j < k ==> #[trigger] times@[j] == self.harmonograph@.t + j * STEP,
            decreases self.steps_per_tick - k,
        {
            times.push(at);
            at = at + STEP as u64;
            k = k + 1;
        }
        times
    }

    /// One frame. `points` are the positions of the pendulums at the times that
    /// [`Wallpaper::tick_times`] tells. The pattern takes a step for each; where
    /// it is finished before the last, a new pattern begins in the next color.
    pub fn tick(&mut self, points: &Vec<Point>) -> (frame: Frame)
        requires
            old(self).wf(),
            points@.len() == old(self).steps_per_tick,
        ensures
            final(self).wf(),
            ({
                let state = old(self).harmonograph@;
                let drawn = points@.take(steps_left(state, points@.len() as int));
                &&& frame.strip@ == state.run_strip(drawn, old(self).stroke())
                &&& frame.color == old(self).current_color
                &&& frame.clear == old(self).ends_pattern()
                &&& frame.present == (frame.clear || frame.strip@.len() > 0)
            }),
            !frame.clear ==> final(self).harmonograph@ == old(self).harmonograph@.run(points@),
            frame.clear ==> exists|draws: Draws|
                draws.valid() && final(self).harmonograph@ == HarmonographState::fresh(draws),
            *final(self) == (Wallpaper {
                harmonograph: final(self).harmonograph,
                current_color: if frame.clear {
                    next_color(old(self).fg_colors@, old(self).current_color)
                } else {
                    old(self).current_color
                },
                ..*old(self)
            }),
    {
        let ghost state = self.harmonograph@;
        let ghost stroke = self.stroke();
        let color: Color = self.current_color;
        let scale_x: Scale = self.scale_x;
        let scale_y: Scale = self.scale_y;
        let line_width: Fraction = Fraction { num: LINE_WIDTH_THOUSANDTHS, den: 1000 };
        let mut strip: Vec<Vertex> = Vec::new();
        let steps: usize = points.len();
        let mut i: usize = 0;
        proof {
            self.harmonograph.lemma_wf_valid();
            assert(points@.take(0) =~= Seq::<Point>::empty());
        }
        while i < steps
            invariant
                steps == points@.len(),
                steps == old(self).steps_per_tick,
                i <= steps,
                self.harmonograph.wf(),
                old(self).wf(),
                *self == (Wallpaper { harmonograph: self.harmonograph, ..*old(self) }),
                state == old(self).harmonograph@,
                state.valid(),
                stroke == old(self).stroke(),
                color == old(self).current_color,
                scale_x == stroke.scale_x,
                scale_y == stroke.scale_y,
                line_width == stroke.line_width,
                self.harmonograph@ == state.run(points@.take(i as int)),
                self.harmonograph@.t == state.t + i * STEP,
                strip@ == state.run_strip(points@.take(i as int), stroke),
                i <= steps_left(state, steps as int),
            decreases steps - i,
        {
            if !self.harmonograph.advance(points[i]) {
                self.restart();
                return Frame { strip, color, clear: true, present: true };
            }
            proof {
                assert(points@.take(i + 1).drop_last() =~= points@.take(i as int));
                assert(points@.take(i + 1).last() == points@[i as int]);
                lemma_screen_scale_admits(scale_x);
                lemma_screen_scale_admits(scale_y);
            }
            self.harmonograph.append_catmull_rom_strip(
                scale_x,
                scale_y,
                line_width,
                N_SUBDIVISIONS,
                &mut strip,
            );
            i = i + 1;
        }
        assert(points@.take(steps as int) =~= points@);
        let present: bool = strip.len() > 0;
        Frame { strip, color, clear: false, present }
    }

    /// What a frame does on the outputs, in order.
    pub fn commands(&self, frame: &Frame) -> (r: Vec<Command>)
        ensures
            r@ == frame_commands(self.outputs@, *frame),
    {
        let shown: Vec<usize> = self.outputs.drawn_slots();
        let ready: Vec<usize> = self.outputs.rendered_slots();
        let mut r: Vec<Command> = Vec::new();
        append_commands(&mut r, Action::Fade, &shown);
        if frame.strip.len() > 0 {
            append_commands(&mut r, Action::Draw, &shown);
        }
        if frame.clear {
            append_commands(&mut r, Action::Clear, &ready);
        }
        if frame.present {
            append_commands(&mut r, Action::Present, &shown);
        }
        assert(r@ =~= frame_commands(self.outputs@, *frame));
        r
    }

    /// Recomputes the scales from the size of the largest configured output.
    pub fn update_scales(&mut self)
        ensures
            *final(self) == match output_scales(old(self).outputs@) {
                Some((scale_x, scale_y)) => (Wallpaper { scale_x, scale_y, ..*old(self) }),
                None => *old(self),
            },
            old(self).wf() ==> final(self).wf(),
    {
        if let Some((x, y)) = self.outputs.scales() {
            self.scale_x = x;
            self.scale_y = y;
        }
    }

    /// Takes in the size that the compositor has given to a surface. Where the
    /// surface is known, it has a renderer of that size from then on, and the
    /// scales are recomputed. A renderer is to be made exactly where there was none
    /// of that size.
    pub fn configure(&mut self, id: u32, width: u32, height: u32) -> (r: Option<Configured>)
        requires
            old(self).wf(),
        ensures
            final(self).wf(),
            ({
                let before = old(self).outputs@;
                let k = slot_with_surface(before, id);
                let resized = surface_resized(before, id, width, height);
                if k < before.len() {
                    let surface = resized[k].surface->0;
                    let after = renderer_made(resized, k);
                    let size = Some((surface.width, surface.height));
                    &&& r == Some(
                        Configured {
                            slot: k as usize,
                            width: surface.width,
                            height: surface.height,
                            make_renderer: before[k].surface->0.renderer != size,
                        },
                    )
                    &&& r->0.slot == k
                    &&& width >= 1 ==> r->0.width == width
                    &&& width == 0 ==> r->0.width == 1
                    &&& height >= 1 ==> r->0.height == height
                    &&& height == 0 ==> r->0.height == 1
                    &&& after[k].surface->0.width == r->0.width
                    &&& after[k].surface->0.height == r->0.height
                    &&& final(self).outputs@ == after
                    &&& after[k].drawn()
                    &&& after[k].surface->0.renderer == size
                    &&& Some((final(self).scale_x, final(self).scale_y)) == output_scales(after)
                } else {
                    &&& r is None
                    &&& final(self).outputs@ == before
                    &&& final(self).scale_x == old(self).scale_x
                    &&& final(self).scale_y == old(self).scale_y
                }
            }),
            *final(self) == (Wallpaper {
                outputs: final(self).outputs,
                scale_x: final(self).scale_x,
                scale_y: final(self).scale_y,
                ..*old(self)
            }),
    {
        match self.outputs.configure(id, width, height) {
            Some(slot) => {
                let ghost resized = self.outputs@;
                let size: Option<(u32, u32)> = self.outputs.init_renderer(slot);
                proof {
                    let after = renderer_made(resized, slot as int);
                    assert(self.outputs@ =~= after);
                    lemma_scales_found(after, slot as int);
                }
                self.update_scales();
                Some(
                    Configured {
                        slot,
                        width: side(width),
                        height: side(height),
                        make_renderer: size.is_some(),
                    },
                )
            },
            None => None,
        }
    }
}

/// Whether a frame does something on an output.
pub open spec fn acts_on(action: Action, slot: Slot, frame: Frame) -> bool {
    match action {
        Action::Fade => slot.drawn(),
        Action::Draw => slot.drawn() && frame.strip@.len() > 0,
        Action::Clear => slot.rendered() && frame.clear,
        Action::Present => slot.drawn() && frame.present,
    }
}

proof fn lemma_on_each(action: Action, slots: Seq<Slot>, f: spec_fn(Slot) -> bool)
    requires
        slots.len() <= usize::MAX,
    ensures
        on_each(action, slots_where(slots, f)).no_duplicates(),
        forall|c: Command| #[trigger]
            on_each(action, slots_where(slots, f)).contains(c) <==> c.action == action && c.slot
                < slots.len() && f(slots[c.slot as int]),
{
    lemma_slots_where(slots, f);
    let found = slots_where(slots, f);
    let commands = on_each(action, found);
    assert forall|c: Command| c.action == action && c.slot < slots.len() && f(
        slots[c.slot as int],
    ) implies #[trigger] commands.contains(c) by {
        let j = choose|j: int| 0 <= j < found.len() && found[j] == c.slot;
        assert(commands[j] == c);
    }
    assert forall|i: int, j: int|
        0 <= i < commands.len() && 0 <= j < commands.len() && i != j implies commands[i]
        != commands[j] by {
        if i < j {
            assert(found[i] < found[j]);
        } else {
            assert(found[j] < found[i]);
        }
    }
}

/// A frame gives no command twice: it fades and, where there is something to
/// draw or to show, draws on and presents every output that is drawn on once, and
/// clears every output with a renderer once where it ends a pattern.
pub proof fn lemma_each_output_once(slots: Seq<Slot>, frame: Frame)
    requires
        slots.len() <= usize::MAX,
    ensures
        frame_commands(slots, frame).no_duplicates(),
        forall|c: Command| #[trigger]
            frame_commands(slots, frame).contains(c) <==> c.slot < slots.len() && acts_on(
                c.action,
                slots[c.slot as int],
                frame,
            ),
{
    lemma_on_each(Action::Fade, slots, |slot: Slot| slot.drawn());
    lemma_on_each(Action::Draw, slots, |slot: Slot| slot.drawn());
    lemma_on_each(Action::Clear, slots, |slot: Slot| slot.rendered());
    lemma_on_each(Action::Present, slots, |slot: Slot| slot.drawn());
    let none = Seq::<Command>::empty();
    let fade = on_each(Action::Fade, drawn(slots));
    let draw = if frame.strip@.len() > 0 {
        on_each(Action::Draw, drawn(slots))
    } else {
        none
    };
    let clear = if frame.clear {
        on_each(Action::Clear, rendered(slots))
    } else {
        none
    };
    let present = if frame.present {
        on_each(Action::Present, drawn(slots))
    } else {
        none
    };
    lemma_joined(fade, draw);
    lemma_joined(fade + draw, clear);
    lemma_joined(fade + draw + clear, present);
}

/// Commands that no command is common to can be given one after the other.
proof fn lemma_joined(a: Seq<Command>, b: Seq<Command>)
    ensures
        forall|c: Command| #[trigger] (a + b).contains(c) <==> a.contains(c) || b.contains(c),
        a.no_duplicates() && b.no_duplicates() && (forall|c: Command|
            !(#[trigger] a.contains(c) && b.contains(c))) ==> (a + b).no_duplicates(),
{
    let whole = a + b;
    assert forall|c: Command| #[trigger] whole.contains(c) <==> a.contains(c) || b.contains(c) by {
        if a.contains(c) {
            let i = choose|i: int| 0 <= i < a.len() && a[i] == c;
            assert(whole[i] == c);
        }
        if b.contains(c) {
            let i = choose|i: int| 0 <= i < b.len() && b[i] == c;
            assert(whole[a.len() + i] == c);
        }
        if whole.contains(c) {
            let i = choose|i: int| 0 <= i < whole.len() && whole[i] == c;
            if i < a.len() {
                assert(a[i] == c);
            } else {
                assert(b[i - a.len()] == c);
            }
        }
    }
    if a.no_duplicates() && b.no_duplicates() && (forall|c: Command|
        !(#[trigger] a.contains(c) && b.contains(c))) {
        assert forall|i: int, j: int|
            0 <= i < whole.len() && 0 <= j < whole.len() && i != j implies whole[i] != whole[j] by {
            if i < a.len() && j >= a.len() {
                assert(a.contains(a[i]) && b.contains(b[j - a.len()]));
            } else if j < a.len() && i >= a.len() {
                assert(a.contains(a[j]) && b.contains(b[i - a.len()]));
            }
        }
    }
}

/// A tick ends the pattern exactly when its last step would come after the end.
pub proof fn lemma_pattern_ends(state: HarmonographState, steps: int)
    requires
        state.valid(),
        0 < steps,
    ensures
        steps_left(state, steps) < steps <==> state.t + (steps - 1) * STEP > MAX_T,
{
}

/// A tick takes exactly the steps that begin no later than 40000 hundredths, the
/// end of a pattern: step `k` of a tick is taken exactly where it does.
pub proof fn lemma_steps_taken(state: HarmonographState, steps: int, k: int)
    requires
        0 <= state.t,
        0 <= k < steps,
    ensures
        0 <= steps_left(state, steps) <= steps,
        k < steps_left(state, steps) <==> state.t + k <= 40_000,
{
}

/// A tick ends the pattern exactly where it has a step that would begin after 40000
/// hundredths.
pub proof fn lemma_tick_ends(w: Wallpaper)
    requires
        w.harmonograph.wf(),
    ensures
        w.ends_pattern() <==> w.steps_per_tick > 0 && w.harmonograph@.t + w.steps_per_tick - 1
            > 40_000,
{
    w.harmonograph.lemma_wf_valid();
}

/// A wallpaper draws with its own scales, that along X and that along Y, in lines
/// two thousandths wide and in sixteen pieces for each segment.
pub proof fn lemma_stroke_of_wallpaper(w: Wallpaper)
    ensures
        w.stroke().scale_x == w.scale_x,
        w.stroke().scale_y == w.scale_y,
        w.stroke().line_width.num * 500 == w.stroke().line_width.den,
        w.stroke().line_width.den > 0,
        w.stroke().n_subdivisions == 16,
{
}

/// A frame takes 33 milliseconds, so about thirty fit in a second. In each a picture
/// loses five thousandths of its opacity, all of it in two hundred, and new lines
/// are drawn at 85 hundredths.
pub proof fn lemma_frame_numbers()
    ensures
        30 * FRAME_MILLIS <= 1000 < 31 * FRAME_MILLIS,
        200 * FADE_THOUSANDTHS == 1000,
        20 * LINE_ALPHA_HUNDREDTHS == 1700,
        500 * LINE_WIDTH_THOUSANDTHS == 1000,
        N_SUBDIVISIONS == 16,
{
}

/// The strip that a tick shows lies on the curve through the points, multiplied
/// along X by the wallpaper's scale for X and along Y by its scale for Y. For the
/// segment that ends at point `k`, and its parameter `i / 16`: the first vertex of
/// the pair is on the side of the normal and the second on the other, and both
/// carry the point and the tangent of the Bezier segment over the last four points.
pub proof fn lemma_tick_strip(w: Wallpaper, points: Seq<Point>, k: int, i: int)
    requires
        w.wf(),
        0 <= k < points.len(),
        w.harmonograph@.window.len() + k >= 3,
        0 <= i <= 16,
    ensures
        ({
            let state = w.harmonograph@;
            let strip = state.run_strip(points, w.stroke());
            let all = state.window + points;
            let end = state.window.len() + k;
            let (p0, p1, p2, p3) = (all[end - 3], all[end - 2], all[end - 1], all[end as int]);
            let before = if state.window.len() < 4 {
                k - (3 - state.window.len())
            } else {
                k
            };
            let (a, b) = (strip[32 * before + 2 * i], strip[32 * before + 2 * i + 1]);
            let m = 16 - i;
            let cx1 = 6 * p1.x + p2.x - p0.x;
            let cy1 = 6 * p1.y + p2.y - p0.y;
            let cx2 = 6 * p2.x - p3.x + p1.x;
            let cy2 = 6 * p2.y - p3.y + p1.y;
            &&& 0 <= 32 * before + 2 * i
            &&& 32 * before + 2 * i + 1 < strip.len()
            &&& a.cross == 1
            &&& b.cross == -1
            &&& a.line_width.num * 500 == a.line_width.den
            &&& a.line_width.den > 0
            &&& b.line_width == a.line_width
            &&& b.x == a.x && b.y == a.y && b.dx == a.dx && b.dy == a.dy
            &&& a.x.num == w.scale_x.num * (2 * ((m * m * m) * p1.x) + (m * m * i) * cx1 + (m * i * i)
                * cx2 + 2 * ((i * i * i) * p2.x))
            &&& a.y.num == w.scale_y.num * (2 * ((m * m * m) * p1.y) + (m * m * i) * cy1 + (m * i * i)
                * cy2 + 2 * ((i * i * i) * p2.y))
            &&& a.dx.num == w.scale_x.num * ((m * m - 2 * (m * i)) * cx1 + (2 * (m * i) - i * i) * cx2
                + 6 * ((i * i) * p2.x) - 6 * ((m * m) * p1.x))
            &&& a.dy.num == w.scale_y.num * ((m * m - 2 * (m * i)) * cy1 + (2 * (m * i) - i * i) * cy2
                + 6 * ((i * i) * p2.y) - 6 * ((m * m) * p1.y))
            &&& a.x.den == 8192 * w.scale_x.den * POINT_UNIT
            &&& a.y.den == 8192 * w.scale_y.den * POINT_UNIT
            &&& a.dx.den == 512 * w.scale_x.den * POINT_UNIT
            &&& a.dy.den == 512 * w.scale_y.den * POINT_UNIT
        }),
{
    let state = w.harmonograph@;
    let stroke = w.stroke();
    let all = state.window + points;
    let end = state.window.len() + k + 1;
    let window = all.subrange(end - 4, end as int);
    w.harmonograph.lemma_wf_valid();
    lemma_screen_scale_admits(w.scale_x);
    lemma_screen_scale_admits(w.scale_y);
    lemma_run_strip_segments(state, points, stroke, k, 2 * i);
    lemma_run_strip_segments(state, points, stroke, k, 2 * i + 1);
    lemma_strip_pairs(window, stroke, i);
    let n = stroke.n_subdivisions as int;
    assert(n * n * n == 4096 && n * n == 256) by (nonlinear_arith)
        requires
            n == 16,
    ;
}

/// Where the scales are those of the outputs, a pendulum unit comes to the same
/// number of pixels along both axes of the largest configured output, four fifths of
/// half its shorter side. So for each vertex of the strip of a tick, the distance of
/// its point from the center in pixels is that many times its distance in pendulum
/// units: the pattern is square.
pub proof fn lemma_tick_square(w: Wallpaper, points: Seq<Point>, k: int, i: int, largest: int)
    requires
        w.wf(),
        output_scales(w.outputs@) == Some((w.scale_x, w.scale_y)),
        0 <= k < points.len(),
        w.harmonograph@.window.len() + k >= 3,
        0 <= i <= 16,
        0 <= largest < w.outputs@.len(),
        w.outputs@[largest].surface is Some,
        w.outputs@[largest].surface->0.configured,
        forall|j: int|
            0 <= j < w.outputs@.len() && (#[trigger] w.outputs@[j]).surface is Some
                && w.outputs@[j].surface->0.configured ==> {
                let (area, most) = (
                    w.outputs@[j].surface->0.width * w.outputs@[j].surface->0.height,
                    w.outputs@[largest].surface->0.width * w.outputs@[largest].surface->0.height,
                );
                area < most || area == most && w.outputs@[j].surface->0.width
                    <= w.outputs@[largest].surface->0.width
            },
    ensures
        ({
            let state = w.harmonograph@;
            let strip = state.run_strip(points, w.stroke());
            let all = state.window + points;
            let end = state.window.len() + k;
            let (p0, p1, p2, p3) = (all[end - 3], all[end - 2], all[end - 1], all[end as int]);
            let before = if state.window.len() < 4 {
                k - (3 - state.window.len())
            } else {
                k
            };
            let v = strip[32 * before + 2 * i];
            let m = 16 - i;
            let x = 2 * ((m * m * m) * p1.x) + (m * m * i) * (6 * p1.x + p2.x - p0.x) + (m * i * i)
                * (6 * p2.x - p3.x + p1.x) + 2 * ((i * i * i) * p2.x);
            let y = 2 * ((m * m * m) * p1.y) + (m * m * i) * (6 * p1.y + p2.y - p0.y) + (m * i * i)
                * (6 * p2.y - p3.y + p1.y) + 2 * ((i * i * i) * p2.y);
            let (width, height) = (
                w.outputs@[largest].surface->0.width,
                w.outputs@[largest].surface->0.height,
            );
            let least = if width < height {
                width
            } else {
                height
            };
            let unit = 8192 * POINT_UNIT;
            &&& v.x.den > 0
            &&& v.y.den > 0
            &&& 5 * (v.x.num * width) * unit == 4 * (x * least) * v.x.den
            &&& 5 * (v.y.num * height) * unit == 4 * (y * least) * v.y.den
        }),
{
    let slots = w.outputs@;
    let surface = slots[largest].surface->0;
    assert(slots[largest].settled());
    lemma_tick_strip(w, points, k, i);
    lemma_scales_of_largest(slots, largest);
    let state = w.harmonograph@;
    let all = state.window + points;
    let end = state.window.len() + k;
    let (p0, p1, p2, p3) = (all[end - 3], all[end - 2], all[end - 1], all[end as int]);
    let m = 16 - i;
    let x = 2 * ((m * m * m) * p1.x) + (m * m * i) * (6 * p1.x + p2.x - p0.x) + (m * i * i) * (6
        * p2.x - p3.x + p1.x) + 2 * ((i * i * i) * p2.x);
    let y = 2 * ((m * m * m) * p1.y) + (m * m * i) * (6 * p1.y + p2.y - p0.y) + (m * i * i) * (6
        * p2.y - p3.y + p1.y) + 2 * ((i * i * i) * p2.y);
    let least = if surface.width < surface.height {
        surface.width
    } else {
        surface.height
    };
    lemma_in_pixels(w.scale_x, x, surface.width as int, least as int);
    lemma_in_pixels(w.scale_y, y, surface.height as int, least as int);
}

proof fn lemma_in_pixels(scale: Scale, value: int, side: int, least: int)
    requires
        scale.den > 0,
        5 * (scale.num * side) == 4 * (least * scale.den),
    ensures
        8192 * scale.den * POINT_UNIT > 0,
        5 * ((scale.num * value) * side) * (8192 * POINT_UNIT) == 4 * (value * least) * (8192
            * scale.den * POINT_UNIT),
{
    let (num, den, unit) = (scale.num as int, scale.den as int, 8192 * POINT_UNIT);
    let (a, b) = (num * side, least * den);
    assert(5 * ((num * value) * side) == value * (5 * a)) by (nonlinear_arith)
        requires
            a == num * side,
    ;
    assert(value * (4 * b) == 4 * (value * least) * den) by (nonlinear_arith)
        requires
            b == least * den,
    ;
    let left = 5 * ((num * value) * side);
    let right = 4 * (value * least);
    assert(left == right * den);
    assert(right * den * unit == right * (den * unit)) by (nonlinear_arith);
    assert(8192 * den * POINT_UNIT == den * unit) by (nonlinear_arith)
        requires
            unit == 8192 * POINT_UNIT,
    ;
}

/// What a frame does, and in which order. Every output with a sized surface and a
/// renderer is faded; it is drawn on where there is a strip, and presented where the
/// frame is. Every output with a renderer is cleared where the pattern has ended.
/// All fading comes first, then drawing, then clearing, then presenting, and within
/// each the outputs come in order.
pub proof fn lemma_commands_in_order(slots: Seq<Slot>, frame: Frame)
    requires
        slots.len() <= usize::MAX,
    ensures
        ({
            let commands = frame_commands(slots, frame);
            &&& forall|k: usize| #[trigger]
                commands.contains((Command { action: Action::Fade, slot: k })) <==> k
                    < slots.len() && slots[k as int].surface is Some
                    && slots[k as int].surface->0.configured
                    && slots[k as int].surface->0.renderer is Some
            &&& forall|k: usize| #[trigger]
                commands.contains((Command { action: Action::Draw, slot: k })) <==> k
                    < slots.len() && slots[k as int].surface is Some
                    && slots[k as int].surface->0.configured
                    && slots[k as int].surface->0.renderer is Some && frame.strip@.len() > 0
            &&& forall|k: usize| #[trigger]
                commands.contains((Command { action: Action::Clear, slot: k })) <==> k
                    < slots.len() && slots[k as int].surface is Some
                    && slots[k as int].surface->0.renderer is Some && frame.clear
            &&& forall|k: usize| #[trigger]
                commands.contains((Command { action: Action::Present, slot: k })) <==> k
                    < slots.len() && slots[k as int].surface is Some
                    && slots[k as int].surface->0.configured
                    && slots[k as int].surface->0.renderer is Some && frame.present
            &&& forall|i: int, j: int|
                0 <= i < j < commands.len() ==> {
                    let (a, b) = (#[trigger] commands[i], #[trigger] commands[j]);
                    &&& a.action == b.action ==> a.slot < b.slot
                    &&& b.action is Fade ==> a.action is Fade
                    &&& b.action is Draw ==> a.action is Fade || a.action is Draw
                    &&& b.action is Clear ==> !(a.action is Present)
                }
        }),
{
    let commands = frame_commands(slots, frame);
    lemma_each_output_once(slots, frame);
    lemma_slots_where(slots, |slot: Slot| slot.drawn());
    lemma_slots_where(slots, |slot: Slot| slot.rendered());
    let fade = on_each(Action::Fade, drawn(slots));
    let draw = if frame.strip@.len() > 0 {
        on_each(Action::Draw, drawn(slots))
    } else {
        Seq::empty()
    };
    let clear = if frame.clear {
        on_each(Action::Clear, rendered(slots))
    } else {
        Seq::empty()
    };
    let present = if frame.present {
        on_each(Action::Present, drawn(slots))
    } else {
        Seq::empty()
    };
    assert(commands =~= fade + draw + clear + present);
}

/// In a well-formed wallpaper every output whose surface has its size has a renderer
/// of exactly that size, at least one pixel each way.
pub proof fn lemma_outputs_at_full_size(w: Wallpaper, k: int)
    requires
        w.wf(),
        0 <= k < w.outputs@.len(),
        w.outputs@[k].surface is Some,
        w.outputs@[k].surface->0.configured,
    ensures
        ({
            let surface = w.outputs@[k].surface->0;
            &&& surface.renderer == Some((surface.width, surface.height))
            &&& surface.width >= 1
            &&& surface.height >= 1
        }),
{
    assert(w.outputs@[k].settled());
    assert(w.outputs@[k].renderer_fits());
}

} // verus!
