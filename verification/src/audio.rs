//! Kinds of curves and hits found in analysed music.

use vstd::prelude::*;

verus! {

/// Continuous curves, 100 samples per second.
#[derive(Clone, Copy, Debug, PartialEq, Eq, Structural)]
pub enum Curve {
    /// Overall loudness.
    Level,
    /// 40–120 Hz: the kick drum.
    Kick,
    /// 60–250 Hz.
    Bass,
    /// 250 Hz – 2 kHz: voices, chords, leads.
    Mids,
    /// 6–16 kHz: hats, cymbals, air.
    Highs,
    /// Spectral centroid: dull (0) … bright (1).
    Brightness,
    /// Strongest pitch class / 12 (C = 0, C♯ = 1/12 …), held while unclear.
    Pitch,
}

impl Curve {
}

/// Number of curves.
pub const CURVES: usize = 7;

/// Detected (or MIDI) hits.
#[derive(Clone, Copy, Debug, PartialEq, Eq, Structural)]
pub enum HitKind {
    Kick,
    Snare,
    Hats,
    /// Any onset.
    Any,
    /// New notes (melody).
    Note,
}

impl HitKind {
}

impl Default for HitKind {
    fn default() -> (r: Self)
        ensures
            r == HitKind::Kick,
    {
        HitKind::Kick
    }
}

/// Number of hit kinds.
pub const HITS: usize = 5;

/// Log-spaced bands from 40 Hz to 16 kHz.
pub const SPECTRUM_BANDS: usize = 16;

} // verus!
