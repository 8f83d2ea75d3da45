//! The four pendulums and the random draws that set them.

use crate::random::random_below;
use vstd::prelude::*;

verus! {

/// The number of equally likely positions of a draw within its range, two to
/// the fifty-second.
pub const DRAW_STEPS: u64 = 0x10_0000_0000_0000;

/// One damped pendulum, in exact fixed-point numbers:
/// `amplitude * sin(t * frequency + phase) * exp(-damping * t)`.
#[derive(Clone, Copy, Debug, PartialEq, Eq, Structural)]
pub struct Pendulum {
    /// In thousandths of `1 / DRAW_STEPS`.
    pub amplitude: u64,
    /// In hundredths of `1 / DRAW_STEPS`, radians per unit of time.
    pub frequency: u64,
    /// In turns of `1 / DRAW_STEPS`.
    pub phase: u64,
    /// In thousandths of `1 / DRAW_STEPS`, per unit of time.
    pub damping: u64,
}

/// The draws that set the frequency of one pendulum: which of the ratios 1, 2,
/// 3 and 4 to the base frequency it takes, counted from zero, and how far it is
/// detuned.
#[derive(Clone, Copy, Debug, PartialEq, Eq, Structural)]
pub struct Tuning {
    pub ratio: u64,
    pub detune: u64,
}

/// The draws that set everything else about one pendulum.
#[derive(Clone, Copy, Debug, PartialEq, Eq, Structural)]
pub struct Swing {
    pub amplitude: u64,
    pub phase: u64,
    pub damping: u64,
}

/// All random draws behind one pattern.
#[derive(Clone, Copy, Debug, PartialEq, Eq, Structural)]
pub struct Draws {
    pub base: u64,
    pub f_x: Tuning,
    pub f_y: Tuning,
    pub f_x2: Tuning,
    pub f_y2: Tuning,
    pub x1: Swing,
    pub x2: Swing,
    pub y1: Swing,
    pub y2: Swing,
}

impl Tuning {
    pub open spec fn valid(self) -> bool {
        self.ratio < 4 && self.detune < DRAW_STEPS
    }
}

impl Swing {
    pub open spec fn valid(self) -> bool {
        self.amplitude < DRAW_STEPS && self.phase < DRAW_STEPS && self.damping < DRAW_STEPS
    }
}

impl Draws {
    /// Whether every draw lies in its range.
    pub open spec fn valid(self) -> bool {
        &&& self.base < DRAW_STEPS
        &&& self.f_x.valid()
        &&& self.f_y.valid()
        &&& self.f_x2.valid()
        &&& self.f_y2.valid()
        &&& self.x1.valid()
        &&& self.x2.valid()
        &&& self.y1.valid()
        &&& self.y2.valid()
    }
}

/// The number at position `draw` of the range from `low` to `high`, multiplied
/// by [`DRAW_STEPS`].
pub open spec fn between(low: int, high: int, draw: int) -> int {
    low * DRAW_STEPS + (high - low) * draw
}

/// The frequency at one of the ratios to a base frequency between 1 and 2,
/// detuned by at most three hundredths either way.
pub open spec fn frequency(base: u64, tuning: Tuning) -> int {
    (tuning.ratio + 1) * between(100, 200, base as int) + between(-3, 3, tuning.detune as int)
}

/// A pendulum set by draws. A primary pendulum swings by 0.6 to 1, a secondary
/// one by 0.1 to 0.35; both start at any phase and are damped by 0.002 to 0.006.
pub open spec fn pendulum(base: u64, tuning: Tuning, swing: Swing, primary: bool) -> Pendulum {
    Pendulum {
        amplitude: if primary {
            between(600, 1000, swing.amplitude as int) as u64
        } else {
            between(100, 350, swing.amplitude as int) as u64
        },
        frequency: frequency(base, tuning) as u64,
        phase: between(0, 1, swing.phase as int) as u64,
        damping: between(2, 6, swing.damping as int) as u64,
    }
}

impl Pendulum {
    /// Whether the pendulum is one that draws can set.
    pub open spec fn in_range(self, primary: bool) -> bool {
        &&& if primary {
            600 * DRAW_STEPS <= self.amplitude < 1000 * DRAW_STEPS
        } else {
            100 * DRAW_STEPS <= self.amplitude < 350 * DRAW_STEPS
        }
        &&& 97 * DRAW_STEPS <= self.frequency < 803 * DRAW_STEPS
        &&& self.phase < DRAW_STEPS
        &&& 2 * DRAW_STEPS <= self.damping < 6 * DRAW_STEPS
    }
}

/// Every pendulum that valid draws set has exactly the drawn amplitude,
/// frequency, phase and damping, each in its range. In particular each
/// oscillates, and each decays.
pub proof fn lemma_pendulum_in_range(base: u64, tuning: Tuning, swing: Swing, primary: bool)
    requires
        base < DRAW_STEPS,
        tuning.valid(),
        swing.valid(),
    ensures
        pendulum(base, tuning, swing, primary).in_range(primary),
        ({
            let p = pendulum(base, tuning, swing, primary);
            &&& p.amplitude == if primary {
                between(600, 1000, swing.amplitude as int)
            } else {
                between(100, 350, swing.amplitude as int)
            }
            &&& p.frequency == frequency(base, tuning)
            &&& p.phase == between(0, 1, swing.phase as int)
            &&& p.damping == between(2, 6, swing.damping as int)
        }),
{
    let b = between(100, 200, base as int);
    let r = tuning.ratio + 1;
    assert(b <= r * b <= 4 * b) by (nonlinear_arith)
        requires
            1 <= r <= 4,
            0 <= b,
    ;
}

/// Sets one pendulum.
pub fn make_pendulum(base: u64, tuning: &Tuning, swing: &Swing, primary: bool) -> (p: Pendulum)
    requires
        base < DRAW_STEPS,
        tuning.valid(),
        swing.valid(),
    ensures
        p == pendulum(base, *tuning, *swing, primary),
        p.amplitude == if primary {
            600 * DRAW_STEPS + 400 * swing.amplitude
        } else {
            100 * DRAW_STEPS + 250 * swing.amplitude
        },
        p.frequency == (tuning.ratio + 1) * (100 * DRAW_STEPS + 100 * base) + 6 * tuning.detune - 3
            * DRAW_STEPS,
        p.phase == swing.phase,
        p.damping == 2 * DRAW_STEPS + 4 * swing.damping,
{
    let base_frequency: u64 = 100 * DRAW_STEPS + 100 * base;
    let ratio: u64 = tuning.ratio + 1;
    proof {
        let b = base_frequency as int;
        let r = ratio as int;
        assert(b <= r * b <= 4 * b) by (nonlinear_arith)
            requires
                1 <= r <= 4,
                0 <= b,
        ;
        lemma_pendulum_in_range(base, *tuning, *swing, primary);
    }
    Pendulum {
        amplitude: if primary {
            600 * DRAW_STEPS + 400 * swing.amplitude
        } else {
            100 * DRAW_STEPS + 250 * swing.amplitude
        },
        frequency: ratio * base_frequency + 6 * tuning.detune - 3 * DRAW_STEPS,
        phase: swing.phase,
        damping: 2 * DRAW_STEPS + 4 * swing.damping,
    }
}

fn draw_tuning() -> (t: Tuning)
    ensures
        t.valid(),
{
    let ratio: u64 = random_below(4);
    let detune: u64 = random_below(DRAW_STEPS);
    Tuning { ratio, detune }
}

fn draw_swing() -> (s: Swing)
    ensures
        s.valid(),
{
    let amplitude: u64 = random_below(DRAW_STEPS);
    let phase: u64 = random_below(DRAW_STEPS);
    let damping: u64 = random_below(DRAW_STEPS);
    Swing { amplitude, phase, damping }
}

/// Draws the parameters of a pattern at random.
pub fn draw_parameters() -> (d: Draws)
    ensures
        d.valid(),
{
    let base: u64 = random_below(DRAW_STEPS);
    let f_x: Tuning = draw_tuning();
    let f_y: Tuning = draw_tuning();
    let f_x2: Tuning = draw_tuning();
    let f_y2: Tuning = draw_tuning();
    let x1: Swing = draw_swing();
    let x2: Swing = draw_swing();
    let y1: Swing = draw_swing();
    let y2: Swing = draw_swing();
    Draws { base, f_x, f_y, f_x2, f_y2, x1, x2, y1, y2 }
}

/// The numbers of a pendulum that valid draws set. Its frequency is one to four
/// times the base frequency, 1 plus the base draw, and up to three hundredths
/// away from that. Its amplitude lies between 0.6 and 1 or between 0.1 and 0.35, its
/// phase anywhere on the circle, and its damping between 0.002 and 0.006, each as far
/// along as its own draw.
pub proof fn lemma_pendulum_numbers(base: u64, tuning: Tuning, swing: Swing, primary: bool)
    requires
        base < DRAW_STEPS,
        tuning.ratio < 4,
        tuning.detune < DRAW_STEPS,
        swing.amplitude < DRAW_STEPS,
        swing.phase < DRAW_STEPS,
        swing.damping < DRAW_STEPS,
    ensures
        ({
            let p = pendulum(base, tuning, swing, primary);
            &&& p.frequency == (tuning.ratio + 1) * (100 * DRAW_STEPS + 100 * base) + 6
                * tuning.detune - 3 * DRAW_STEPS
            &&& primary ==> p.amplitude == 600 * DRAW_STEPS + 400 * swing.amplitude
            &&& !primary ==> p.amplitude == 100 * DRAW_STEPS + 250 * swing.amplitude
            &&& p.phase == swing.phase
            &&& p.damping == 2 * DRAW_STEPS + 4 * swing.damping
        }),
{
    lemma_pendulum_in_range(base, tuning, swing, primary);
}

/// With everything else as it is, the next higher ratio raises the frequency by
/// exactly the base frequency, and nothing else changes.
pub proof fn lemma_ratio_raises_frequency(
    base: u64,
    low: Tuning,
    high: Tuning,
    swing: Swing,
    primary: bool,
)
    requires
        base < DRAW_STEPS,
        low.detune < DRAW_STEPS,
        high.ratio == low.ratio + 1,
        high.ratio < 4,
        high.detune == low.detune,
        swing.valid(),
    ensures
        ({
            let (p, q) = (
                pendulum(base, low, swing, primary),
                pendulum(base, high, swing, primary),
            );
            &&& q.frequency - p.frequency == 100 * DRAW_STEPS + 100 * base
            &&& q.amplitude == p.amplitude
            &&& q.phase == p.phase
            &&& q.damping == p.damping
        }),
{
    lemma_pendulum_in_range(base, low, swing, primary);
    lemma_pendulum_in_range(base, high, swing, primary);
    let b = 100 * DRAW_STEPS + 100 * base;
    let r = low.ratio + 1;
    assert((r + 1) * b == r * b + b) by (nonlinear_arith);
}

/// The draws that can set a pattern are exactly these: four ratios, and any
/// position in every other range.
pub proof fn lemma_valid_draws(d: Draws)
    ensures
        d.valid() <==> {
            &&& d.base < DRAW_STEPS
            &&& d.f_x.ratio <= 3 && d.f_y.ratio <= 3 && d.f_x2.ratio <= 3 && d.f_y2.ratio <= 3
            &&& d.f_x.detune < DRAW_STEPS && d.f_y.detune < DRAW_STEPS
            &&& d.f_x2.detune < DRAW_STEPS && d.f_y2.detune < DRAW_STEPS
            &&& d.x1.amplitude < DRAW_STEPS && d.x1.phase < DRAW_STEPS && d.x1.damping < DRAW_STEPS
            &&& d.x2.amplitude < DRAW_STEPS && d.x2.phase < DRAW_STEPS && d.x2.damping < DRAW_STEPS
            &&& d.y1.amplitude < DRAW_STEPS && d.y1.phase < DRAW_STEPS && d.y1.damping < DRAW_STEPS
            &&& d.y2.amplitude < DRAW_STEPS && d.y2.phase < DRAW_STEPS && d.y2.damping < DRAW_STEPS
        },
{
}

/// A draw tells two to the fifty-second positions of its range apart.
pub proof fn lemma_draw_steps()
    ensures
        DRAW_STEPS == 0x4000 * 0x4000 * 0x4000 * 0x400,
{
}

} // verus!
