//! How music drives values: the modes and the sources a value can follow.

use vstd::prelude::*;
use crate::audio::{Curve, HitKind};

verus! {

/// Which part of the song plays.
#[derive(Clone, Copy, Debug, PartialEq, Eq, Structural)]
pub enum MusicMode {
    /// A loop-length window of the song, played as a seamless loop.
    LoopWindow,
    /// The whole song; exports last as long as the song.
    FullTrack,
}

impl MusicMode {
    /// Every variant, in menu order.
    pub const ALL: [MusicMode; 2] = [MusicMode::LoopWindow, MusicMode::FullTrack];

    /// Name shown in menus.
    pub fn label(self) -> (s: &'static str)
        ensures
            s@ == (match self {
                MusicMode::LoopWindow => "Loop a part of the song"@,
                MusicMode::FullTrack => "Whole song"@,
            }),
    {
        match self {
            MusicMode::LoopWindow => "Loop a part of the song",
            MusicMode::FullTrack => "Whole song",
        }
    }
}

impl Default for MusicMode {
    fn default() -> (r: Self)
        ensures
            r == MusicMode::LoopWindow,
    {
        MusicMode::LoopWindow
    }
}

/// Something in the music a value can react to.
#[derive(Clone, Copy, Debug, PartialEq, Eq, Structural)]
pub enum AudioSource {
    Level,
    Kick,
    Bass,
    Mids,
    Highs,
    Brightness,
    Pitch,
    KickHit,
    SnareHit,
    HatHit,
    AnyHit,
    NoteHit,
}

impl AudioSource {
    /// Sources that follow a curve.
    pub const FOLLOW: [AudioSource; 7] = [
        AudioSource::Level,
        AudioSource::Kick,
        AudioSource::Bass,
        AudioSource::Mids,
        AudioSource::Highs,
        AudioSource::Brightness,
        AudioSource::Pitch,
    ];
    /// Sources that fire on hits.
    pub const HITS: [AudioSource; 5] = [
        AudioSource::KickHit,
        AudioSource::SnareHit,
        AudioSource::HatHit,
        AudioSource::AnyHit,
        AudioSource::NoteHit,
    ];

    /// Name shown in menus.
    pub fn label(self) -> (s: &'static str)
        ensures
            s@ == (match self {
                AudioSource::Level => "Loudness"@,
                AudioSource::Kick => "Kick (40–120 Hz)"@,
                AudioSource::Bass => "Bass (60–250 Hz)"@,
                AudioSource::Mids => "Mids (voices, leads)"@,
                AudioSource::Highs => "Highs (hats, air)"@,
                AudioSource::Brightness => "Brightness"@,
                AudioSource::Pitch => "Melody pitch"@,
                AudioSource::KickHit => "Each kick"@,
                AudioSource::SnareHit => "Each snare / clap"@,
                AudioSource::HatHit => "Each hi-hat"@,
                AudioSource::AnyHit => "Each hit (any)"@,
                AudioSource::NoteHit => "Each new note"@,
            }),
    {
        match self {
            AudioSource::Level => "Loudness",
            AudioSource::Kick => "Kick (40–120 Hz)",
            AudioSource::Bass => "Bass (60–250 Hz)",
            AudioSource::Mids => "Mids (voices, leads)",
            AudioSource::Highs => "Highs (hats, air)",
            AudioSource::Brightness => "Brightness",
            AudioSource::Pitch => "Melody pitch",
            AudioSource::KickHit => "Each kick",
            AudioSource::SnareHit => "Each snare / clap",
            AudioSource::HatHit => "Each hi-hat",
            AudioSource::AnyHit => "Each hit (any)",
            AudioSource::NoteHit => "Each new note",
        }
    }

    /// One-line explanation shown as a tooltip.
    pub fn description(self) -> (s: &'static str)
        ensures
            s@ == (match self {
                AudioSource::Level => "Follows the overall loudness"@,
                AudioSource::Kick => "Follows the kick drum's energy"@,
                AudioSource::Bass => "Follows the bass line's energy"@,
                AudioSource::Mids => "Follows voices, chords and leads"@,
                AudioSource::Highs => "Follows hi-hats, cymbals and air"@,
                AudioSource::Brightness => "Dull sounds 0, bright sounds 1"@,
                AudioSource::Pitch => "The melody's note: C = 0 … B = 11/12 (one turn of hue per octave)"@,
                AudioSource::KickHit => "Plays the shape on every detected kick"@,
                AudioSource::SnareHit => "Plays the shape on every snare or clap"@,
                AudioSource::HatHit => "Plays the shape on every hi-hat"@,
                AudioSource::AnyHit => "Plays the shape on every onset"@,
                AudioSource::NoteHit => "Plays the shape on every new note"@,
            }),
    {
        match self {
            AudioSource::Level => "Follows the overall loudness",
            AudioSource::Kick => "Follows the kick drum's energy",
            AudioSource::Bass => "Follows the bass line's energy",
            AudioSource::Mids => "Follows voices, chords and leads",
            AudioSource::Highs => "Follows hi-hats, cymbals and air",
            AudioSource::Brightness => "Dull sounds 0, bright sounds 1",
            AudioSource::Pitch => "The melody's note: C = 0 … B = 11/12 (one turn of hue per octave)",
            AudioSource::KickHit => "Plays the shape on every detected kick",
            AudioSource::SnareHit => "Plays the shape on every snare or clap",
            AudioSource::HatHit => "Plays the shape on every hi-hat",
            AudioSource::AnyHit => "Plays the shape on every onset",
            AudioSource::NoteHit => "Plays the shape on every new note",
        }
    }

    /// The curve a following source reads, `None` for hit sources.
    pub fn curve(self) -> (c: Option<Curve>)
        ensures
            c == (match self {
                AudioSource::Level => Some(Curve::Level),
                AudioSource::Kick => Some(Curve::Kick),
                AudioSource::Bass => Some(Curve::Bass),
                AudioSource::Mids => Some(Curve::Mids),
                AudioSource::Highs => Some(Curve::Highs),
                AudioSource::Brightness => Some(Curve::Brightness),
                AudioSource::Pitch => Some(Curve::Pitch),
                _ => None,
            }),
    {
        match self {
            AudioSource::Level => Some(Curve::Level),
            AudioSource::Kick => Some(Curve::Kick),
            AudioSource::Bass => Some(Curve::Bass),
            AudioSource::Mids => Some(Curve::Mids),
            AudioSource::Highs => Some(Curve::Highs),
            AudioSource::Brightness => Some(Curve::Brightness),
            AudioSource::Pitch => Some(Curve::Pitch),
            _ => None,
        }
    }

    /// The hits a hit source fires on, `None` for following sources.
    pub fn hit(self) -> (h: Option<HitKind>)
        ensures
            h == (match self {
                AudioSource::KickHit => Some(HitKind::Kick),
                AudioSource::SnareHit => Some(HitKind::Snare),
                AudioSource::HatHit => Some(HitKind::Hats),
                AudioSource::AnyHit => Some(HitKind::Any),
                AudioSource::NoteHit => Some(HitKind::Note),
                _ => None,
            }),
    {
        match self {
            AudioSource::KickHit => Some(HitKind::Kick),
            AudioSource::SnareHit => Some(HitKind::Snare),
            AudioSource::HatHit => Some(HitKind::Hats),
            AudioSource::AnyHit => Some(HitKind::Any),
            AudioSource::NoteHit => Some(HitKind::Note),
            _ => None,
        }
    }

    /// True for the sources that fire on hits.
    pub fn is_hit(self) -> (b: bool)
        ensures
            b == self.hit_kind_of() is Some,
    {
        self.hit().is_some()
    }

    /// What [`AudioSource::hit`] returns.
    pub open spec fn hit_kind_of(self) -> Option<HitKind> {
        match self {
            AudioSource::KickHit => Some(HitKind::Kick),
            AudioSource::SnareHit => Some(HitKind::Snare),
            AudioSource::HatHit => Some(HitKind::Hats),
            AudioSource::AnyHit => Some(HitKind::Any),
            AudioSource::NoteHit => Some(HitKind::Note),
            _ => None,
        }
    }

}

impl Default for AudioSource {
    fn default() -> (r: Self)
        ensures
            r == AudioSource::Kick,
    {
        AudioSource::Kick
    }
}

/// Every source either follows a curve or fires on hits, never both.
pub proof fn law_source_follows_or_hits(s: AudioSource)
    ensures
        (s.hit_kind_of() is Some) != (AudioSource::FOLLOW@.contains(s)),
        (s.hit_kind_of() is Some) == AudioSource::HITS@.contains(s),
{
    assert(AudioSource::FOLLOW@[0] == AudioSource::Level);
    assert(AudioSource::HITS@[0] == AudioSource::KickHit);
    match s {
        AudioSource::Level => assert(AudioSource::FOLLOW@[0] == s),
        AudioSource::Kick => assert(AudioSource::FOLLOW@[1] == s),
        AudioSource::Bass => assert(AudioSource::FOLLOW@[2] == s),
        AudioSource::Mids => assert(AudioSource::FOLLOW@[3] == s),
        AudioSource::Highs => assert(AudioSource::FOLLOW@[4] == s),
        AudioSource::Brightness => assert(AudioSource::FOLLOW@[5] == s),
        AudioSource::Pitch => assert(AudioSource::FOLLOW@[6] == s),
        AudioSource::KickHit => assert(AudioSource::HITS@[0] == s),
        AudioSource::SnareHit => assert(AudioSource::HITS@[1] == s),
        AudioSource::HatHit => assert(AudioSource::HITS@[2] == s),
        AudioSource::AnyHit => assert(AudioSource::HITS@[3] == s),
        AudioSource::NoteHit => assert(AudioSource::HITS@[4] == s),
    }
}

} // verus!
