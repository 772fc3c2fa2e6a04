use ez_core::audio::{Curve, HitKind, CURVES, HITS};
use ez_core::music::{AudioSource, MusicMode};
use ez_core::palette::PaletteId;
use ez_core::param::Wave;
use ez_core::scene::{
    BackdropKind, BlinkMode, CameraMode, Emitter, EmissiveMode, GlitchStyle, LaserPattern,
    MirrorSplit, MirrorSplitMode, RibbonCurve, Sprite, Symmetry, TerrainStyle,
};
use ez_core::sequence::TransitionKind;
use ez_core::signal::{DriveMode, MathOp};

#[test]
fn indices_follow_the_lists() {
    for (i, k) in TransitionKind::ALL.iter().enumerate() {
        assert_eq!(k.index() as usize, i);
    }
    for (i, k) in GlitchStyle::ALL.iter().enumerate() {
        assert_eq!(k.index() as usize, i);
    }
    for (i, k) in Emitter::ALL.iter().enumerate() {
        assert_eq!(k.index() as usize, i);
    }
    for (i, k) in Sprite::ALL.iter().enumerate() {
        assert_eq!(k.index() as usize, i);
    }
    for (i, k) in BackdropKind::ALL.iter().enumerate() {
        assert_eq!(k.index() as usize, i);
    }
    for (i, k) in TerrainStyle::ALL.iter().enumerate() {
        assert_eq!(k.index() as usize, i);
    }
    for (i, k) in LaserPattern::ALL.iter().enumerate() {
        assert_eq!(k.index() as usize, i);
    }
    assert_eq!(TransitionKind::CutOnKick.index(), 6);
    assert_eq!(BackdropKind::SynthGrid.index(), 6);
}

#[test]
fn labels() {
    assert_eq!(CameraMode::Pendulum.label(), "Pendulum");
    assert_eq!(BlinkMode::Random.label(), "Random blink");
    assert_eq!(Symmetry::Radial { count: 6 }.label(), "Radial");
    assert_eq!(Symmetry::Off.label(), "None");
    assert_eq!(EmissiveMode::Edges.label(), "Edges");
    assert_eq!(GlitchStyle::Slices.label(), "Slices (VHS)");
    assert_eq!(Emitter::Snow.label(), "Snow / glitter");
    assert_eq!(Sprite::Glow.label(), "Soft glow");
    assert_eq!(BackdropKind::SynthGrid.label(), "Synthwave sun & grid");
    assert_eq!(MirrorSplitMode::LeftToRight.label(), "Left → right");
    assert_eq!(TerrainStyle::Both.label(), "Solid + lines");
    assert_eq!(LaserPattern::Cone.label(), "Rotating cone");
    assert_eq!(RibbonCurve::Infinity.label(), "Figure eight");
    assert_eq!(TransitionKind::CutOnKick.label(), "Cut on kick");
    assert_eq!(MathOp::Subtract.label(), "A − B");
    assert_eq!(DriveMode::Multiply.label(), "multiply by");
    assert_eq!(MusicMode::FullTrack.label(), "Whole song");
    assert_eq!(PaletteId::Vga.label(), "VGA cube (216)");
    assert_eq!(Wave::Drunk.label(), "Drunken walk");
    assert_eq!(Wave::Pulse.description(), "Sharp hit that dies away quickly");
}

#[test]
fn defaults() {
    assert_eq!(CameraMode::default(), CameraMode::Orbit);
    assert_eq!(Symmetry::default(), Symmetry::Off);
    assert_eq!(TransitionKind::default(), TransitionKind::Cut);
    assert_eq!(HitKind::default(), HitKind::Kick);
    assert_eq!(AudioSource::default(), AudioSource::Kick);
    assert_eq!(
        MirrorSplit::default(),
        MirrorSplit { enabled: false, mode: MirrorSplitMode::LeftToRight }
    );
    assert_eq!(Wave::default(), Wave::Sine);
    assert_eq!(PaletteId::default(), PaletteId::Ega);
}

#[test]
fn audio_sources_follow_or_hit() {
    assert_eq!(AudioSource::FOLLOW.len(), CURVES);
    assert_eq!(AudioSource::HITS.len(), HITS);
    for s in AudioSource::FOLLOW {
        assert!(s.curve().is_some() && !s.is_hit());
    }
    for s in AudioSource::HITS {
        assert!(s.curve().is_none() && s.is_hit());
    }
    assert_eq!(AudioSource::Pitch.curve(), Some(Curve::Pitch));
    assert_eq!(AudioSource::HatHit.hit(), Some(HitKind::Hats));
    assert_eq!(
        AudioSource::Kick.description(),
        "Follows the kick drum's energy"
    );
}

#[test]
fn palettes() {
    assert_eq!(PaletteId::Ega.colors().len(), 16);
    assert_eq!(PaletteId::Cga.colors(), &[0x000000, 0x55ffff, 0xff55ff, 0xffffff]);
    assert!(PaletteId::Vga.colors().is_empty());
    assert_eq!(PaletteId::GameBoy.colors()[0], 0x0f380f);
    for p in PaletteId::ALL {
        assert!(p.colors().iter().all(|c| *c <= 0xff_ffff));
    }
}

#[test]
fn fades_are_unipolar() {
    let uni: Vec<Wave> = Wave::ALL.iter().copied().filter(|w| w.is_unipolar()).collect();
    assert_eq!(
        uni,
        vec![Wave::Pulse, Wave::ExpIn, Wave::ExpOut, Wave::LinearIn, Wave::LinearOut, Wave::Swell]
    );
}
