//! Shapes of animated values.

use vstd::prelude::*;

verus! {

/// The shape of an oscillator.
/// LFO and random shapes swing both ways (-1..1). The fades run 0..1 once
/// per cycle, so with "×/loop" = beats per loop they fire on every beat.
#[derive(Clone, Copy, Debug, PartialEq, Eq, Structural)]
pub enum Wave {
    Sine,
    Triangle,
    /// Ramp up, then jump down.
    Saw,
    /// Ramp down, then jump up.
    RampDown,
    Square,
    /// Sharp attack, exponential decay: good for beat hits.
    Pulse,
    /// Slow start, fast finish (0 → 1).
    ExpIn,
    /// Fast drop, slow tail (1 → 0).
    ExpOut,
    /// Straight fade 0 → 1.
    LinearIn,
    /// Straight fade 1 → 0.
    LinearOut,
    /// Smooth swell 0 → 1 → 0.
    Swell,
    /// A new random value every cycle (sample & hold).
    Random,
    /// Random values joined by smooth glides.
    SmoothRandom,
    /// Random walk that wanders and comes back by the end of the loop.
    Drunk,
}

impl Wave {
    /// Every variant, in menu order.
    pub const ALL: [Wave; 14] = [
        Wave::Sine,
        Wave::Triangle,
        Wave::Saw,
        Wave::RampDown,
        Wave::Square,
        Wave::Pulse,
        Wave::ExpIn,
        Wave::ExpOut,
        Wave::LinearIn,
        Wave::LinearOut,
        Wave::Swell,
        Wave::Random,
        Wave::SmoothRandom,
        Wave::Drunk,
    ];

    /// Name shown in menus.
    pub fn label(self) -> (s: &'static str)
        ensures
            s@ == (match self {
                Wave::Sine => "Sine"@,
                Wave::Triangle => "Triangle"@,
                Wave::Saw => "Saw up"@,
                Wave::RampDown => "Saw down"@,
                Wave::Square => "Square"@,
                Wave::Pulse => "Pulse (hit)"@,
                Wave::ExpIn => "Exp fade in"@,
                Wave::ExpOut => "Exp fade out"@,
                Wave::LinearIn => "Linear fade in"@,
                Wave::LinearOut => "Linear fade out"@,
                Wave::Swell => "Swell in & out"@,
                Wave::Random => "Sample & hold"@,
                Wave::SmoothRandom => "Smooth random"@,
                Wave::Drunk => "Drunken walk"@,
            }),
    {
        match self {
            Wave::Sine => "Sine",
            Wave::Triangle => "Triangle",
            Wave::Saw => "Saw up",
            Wave::RampDown => "Saw down",
            Wave::Square => "Square",
            Wave::Pulse => "Pulse (hit)",
            Wave::ExpIn => "Exp fade in",
            Wave::ExpOut => "Exp fade out",
            Wave::LinearIn => "Linear fade in",
            Wave::LinearOut => "Linear fade out",
            Wave::Swell => "Swell in & out",
            Wave::Random => "Sample & hold",
            Wave::SmoothRandom => "Smooth random",
            Wave::Drunk => "Drunken walk",
        }
    }

    /// One-line explanation shown as a tooltip.
    pub fn description(self) -> (s: &'static str)
        ensures
            s@ == (match self {
                Wave::Sine => "Smooth up and down"@,
                Wave::Triangle => "Straight up and down"@,
                Wave::Saw => "Ramps up, then jumps back"@,
                Wave::RampDown => "Ramps down, then jumps back"@,
                Wave::Square => "Jumps between two values"@,
                Wave::Pulse => "Sharp hit that dies away quickly"@,
                Wave::ExpIn => "Builds up slowly, then rushes to the top"@,
                Wave::ExpOut => "Drops fast, then settles slowly"@,
                Wave::LinearIn => "Even fade from 0 to the full amount"@,
                Wave::LinearOut => "Even fade from the full amount to 0"@,
                Wave::Swell => "Smoothly rises and falls back"@,
                Wave::Random => "A new random value each cycle, held until the next"@,
                Wave::SmoothRandom => "Random values with smooth glides in between"@,
                Wave::Drunk => "Wanders randomly and finds its way back by the loop's end"@,
            }),
    {
        match self {
            Wave::Sine => "Smooth up and down",
            Wave::Triangle => "Straight up and down",
            Wave::Saw => "Ramps up, then jumps back",
            Wave::RampDown => "Ramps down, then jumps back",
            Wave::Square => "Jumps between two values",
            Wave::Pulse => "Sharp hit that dies away quickly",
            Wave::ExpIn => "Builds up slowly, then rushes to the top",
            Wave::ExpOut => "Drops fast, then settles slowly",
            Wave::LinearIn => "Even fade from 0 to the full amount",
            Wave::LinearOut => "Even fade from the full amount to 0",
            Wave::Swell => "Smoothly rises and falls back",
            Wave::Random => "A new random value each cycle, held until the next",
            Wave::SmoothRandom => "Random values with smooth glides in between",
            Wave::Drunk => "Wanders randomly and finds its way back by the loop's end",
        }
    }

    /// True for shapes that run 0..1 (the fades); the others swing -1..1.
    pub fn is_unipolar(self) -> (b: bool)
        ensures
            b == (self == Wave::Pulse || self == Wave::ExpIn || self == Wave::ExpOut
                || self == Wave::LinearIn || self == Wave::LinearOut || self == Wave::Swell),
    {
        match self {
            Wave::Pulse | Wave::ExpIn | Wave::ExpOut | Wave::LinearIn | Wave::LinearOut | Wave::Swell => true,
            _ => false,
        }
    }
}

impl Default for Wave {
    fn default() -> (r: Self)
        ensures
            r == Wave::Sine,
    {
        Wave::Sine
    }
}

} // verus!
