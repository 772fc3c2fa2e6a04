//! Settings of a scene that are plain choices.

use vstd::prelude::*;

verus! {

/// How the camera moves over the loop.
#[derive(Clone, Copy, Debug, PartialEq, Eq, Structural)]
pub enum CameraMode {
    /// Circles the target `orbit_turns` times per loop.
    Orbit,
    /// Swings back and forth by `swing` degrees.
    Pendulum,
    /// Fixed position; distance/height params can still breathe.
    Static,
}

impl CameraMode {
    /// Every variant, in menu order.
    pub const ALL: [CameraMode; 3] = [CameraMode::Orbit, CameraMode::Pendulum, CameraMode::Static];

    /// Name shown in menus.
    pub fn label(self) -> (s: &'static str)
        ensures
            s@ == (match self {
                CameraMode::Orbit => "Orbit"@,
                CameraMode::Pendulum => "Pendulum"@,
                CameraMode::Static => "Static"@,
            }),
    {
        match self {
            CameraMode::Orbit => "Orbit",
            CameraMode::Pendulum => "Pendulum",
            CameraMode::Static => "Static",
        }
    }
}

impl Default for CameraMode {
    fn default() -> (r: Self)
        ensures
            r == CameraMode::Orbit,
    {
        CameraMode::Orbit
    }
}

/// How a layer blinks.
#[derive(Clone, Copy, Debug, PartialEq, Eq, Structural)]
pub enum BlinkMode {
    /// Always visible.
    Off,
    /// On/off in a regular rhythm.
    Blink,
    /// On/off at random moments.
    Random,
    /// Glow flashes and fades (the layer stays visible).
    Flash,
}

impl BlinkMode {
    /// Every variant, in menu order.
    pub const ALL: [BlinkMode; 4] = [
        BlinkMode::Off,
        BlinkMode::Blink,
        BlinkMode::Random,
        BlinkMode::Flash,
    ];

    /// Name shown in menus.
    pub fn label(self) -> (s: &'static str)
        ensures
            s@ == (match self {
                BlinkMode::Off => "Off"@,
                BlinkMode::Blink => "Blink"@,
                BlinkMode::Random => "Random blink"@,
                BlinkMode::Flash => "Flash"@,
            }),
    {
        match self {
            BlinkMode::Off => "Off",
            BlinkMode::Blink => "Blink",
            BlinkMode::Random => "Random blink",
            BlinkMode::Flash => "Flash",
        }
    }
}

impl Default for BlinkMode {
    fn default() -> (r: Self)
        ensures
            r == BlinkMode::Off,
    {
        BlinkMode::Off
    }
}

/// World-space duplication of a whole layer around the origin.
#[derive(Clone, Copy, Debug, PartialEq, Eq, Structural)]
pub enum Symmetry {
    /// A single copy.
    Off,
    /// Mirror across the YZ plane (left/right).
    MirrorX,
    /// Mirror across the XY plane (front/back).
    MirrorZ,
    /// Mirror across both: four copies.
    MirrorXZ,
    /// `count` copies rotated around the Y axis.
    Radial { count: u32 },
    /// `count` rotated copies, every other one mirrored (kaleidoscope-like).
    Kaleido { count: u32 },
}

impl Symmetry {
    /// Name shown in menus.
    pub fn label(&self) -> (s: &'static str)
        ensures
            s@ == (match *self {
                Symmetry::Off => "None"@,
                Symmetry::MirrorX => "Mirror X"@,
                Symmetry::MirrorZ => "Mirror Z"@,
                Symmetry::MirrorXZ => "Mirror XZ"@,
                Symmetry::Radial { .. } => "Radial"@,
                Symmetry::Kaleido { .. } => "Kaleido"@,
            }),
    {
        match self {
            Symmetry::Off => "None",
            Symmetry::MirrorX => "Mirror X",
            Symmetry::MirrorZ => "Mirror Z",
            Symmetry::MirrorXZ => "Mirror XZ",
            Symmetry::Radial { .. } => "Radial",
            Symmetry::Kaleido { .. } => "Kaleido",
        }
    }
}

impl Default for Symmetry {
    fn default() -> (r: Self)
        ensures
            r == Symmetry::Off,
    {
        Symmetry::Off
    }
}

/// Where a surface glows.
#[derive(Clone, Copy, Debug, PartialEq, Eq, Structural)]
pub enum EmissiveMode {
    /// Whole surface glows.
    Full,
    /// Glowing outlines along UV borders (Tron look).
    Edges,
    /// Glowing stripes across the surface.
    Stripes,
    /// Glow where the texture is bright.
    Texture,
}

impl EmissiveMode {
    /// Every variant, in menu order.
    pub const ALL: [EmissiveMode; 4] = [
        EmissiveMode::Full,
        EmissiveMode::Edges,
        EmissiveMode::Stripes,
        EmissiveMode::Texture,
    ];

    /// Name shown in menus.
    pub fn label(self) -> (s: &'static str)
        ensures
            s@ == (match self {
                EmissiveMode::Full => "Full"@,
                EmissiveMode::Edges => "Edges"@,
                EmissiveMode::Stripes => "Stripes"@,
                EmissiveMode::Texture => "Texture"@,
            }),
    {
        match self {
            EmissiveMode::Full => "Full",
            EmissiveMode::Edges => "Edges",
            EmissiveMode::Stripes => "Stripes",
            EmissiveMode::Texture => "Texture",
        }
    }
}

impl Default for EmissiveMode {
    fn default() -> (r: Self)
        ensures
            r == EmissiveMode::Full,
    {
        EmissiveMode::Full
    }
}

/// How a glitched mesh is corrupted.
#[derive(Clone, Copy, Debug, PartialEq, Eq, Structural)]
pub enum GlitchStyle {
    /// Vertices shake to random positions.
    Jitter,
    /// Horizontal bands shift sideways (VHS tearing).
    Slices,
    /// Faces fly apart along their normals.
    Shatter,
}

impl GlitchStyle {
    /// Every variant, in menu order.
    pub const ALL: [GlitchStyle; 3] = [
        GlitchStyle::Jitter,
        GlitchStyle::Slices,
        GlitchStyle::Shatter,
    ];

    /// Name shown in menus.
    pub fn label(self) -> (s: &'static str)
        ensures
            s@ == (match self {
                GlitchStyle::Jitter => "Jitter"@,
                GlitchStyle::Slices => "Slices (VHS)"@,
                GlitchStyle::Shatter => "Shatter"@,
            }),
    {
        match self {
            GlitchStyle::Jitter => "Jitter",
            GlitchStyle::Slices => "Slices (VHS)",
            GlitchStyle::Shatter => "Shatter",
        }
    }

    /// Position in [`GlitchStyle::ALL`] (used by the shaders).
    pub fn index(self) -> (i: u32)
        ensures
            i < 3,
            Self::ALL@[i as int] == self,
    {
        match self {
            GlitchStyle::Jitter => 0,
            GlitchStyle::Slices => 1,
            GlitchStyle::Shatter => 2,
        }
    }
}

impl Default for GlitchStyle {
    fn default() -> (r: Self)
        ensures
            r == GlitchStyle::Jitter,
    {
        GlitchStyle::Jitter
    }
}

/// How particles move.
#[derive(Clone, Copy, Debug, PartialEq, Eq, Structural)]
pub enum Emitter {
    /// Explodes outward from the centre.
    Burst,
    /// Drifts inside a sphere.
    Sphere,
    /// Circles in a flat ring.
    Ring,
    /// Shoots up and falls down.
    Fountain,
    /// Streams towards the camera (hyperspace).
    Warp,
    /// Spirals upward in a vortex.
    Vortex,
    /// Falls slowly like snow / glitter.
    Snow,
}

impl Emitter {
    /// Every variant, in menu order.
    pub const ALL: [Emitter; 7] = [
        Emitter::Burst,
        Emitter::Sphere,
        Emitter::Ring,
        Emitter::Fountain,
        Emitter::Warp,
        Emitter::Vortex,
        Emitter::Snow,
    ];

    /// Name shown in menus.
    pub fn label(self) -> (s: &'static str)
        ensures
            s@ == (match self {
                Emitter::Burst => "Burst"@,
                Emitter::Sphere => "Sphere drift"@,
                Emitter::Ring => "Ring orbit"@,
                Emitter::Fountain => "Fountain"@,
                Emitter::Warp => "Warp stars"@,
                Emitter::Vortex => "Vortex"@,
                Emitter::Snow => "Snow / glitter"@,
            }),
    {
        match self {
            Emitter::Burst => "Burst",
            Emitter::Sphere => "Sphere drift",
            Emitter::Ring => "Ring orbit",
            Emitter::Fountain => "Fountain",
            Emitter::Warp => "Warp stars",
            Emitter::Vortex => "Vortex",
            Emitter::Snow => "Snow / glitter",
        }
    }

    /// Position in [`Emitter::ALL`] (used by the shaders).
    pub fn index(self) -> (i: u32)
        ensures
            i < 7,
            Self::ALL@[i as int] == self,
    {
        match self {
            Emitter::Burst => 0,
            Emitter::Sphere => 1,
            Emitter::Ring => 2,
            Emitter::Fountain => 3,
            Emitter::Warp => 4,
            Emitter::Vortex => 5,
            Emitter::Snow => 6,
        }
    }
}

impl Default for Emitter {
    fn default() -> (r: Self)
        ensures
            r == Emitter::Burst,
    {
        Emitter::Burst
    }
}

/// What one particle looks like.
#[derive(Clone, Copy, Debug, PartialEq, Eq, Structural)]
pub enum Sprite {
    Glow,
    Square,
    Star,
    Ring,
}

impl Sprite {
    /// Every variant, in menu order.
    pub const ALL: [Sprite; 4] = [Sprite::Glow, Sprite::Square, Sprite::Star, Sprite::Ring];

    /// Name shown in menus.
    pub fn label(self) -> (s: &'static str)
        ensures
            s@ == (match self {
                Sprite::Glow => "Soft glow"@,
                Sprite::Square => "Pixel square"@,
                Sprite::Star => "Star"@,
                Sprite::Ring => "Ring"@,
            }),
    {
        match self {
            Sprite::Glow => "Soft glow",
            Sprite::Square => "Pixel square",
            Sprite::Star => "Star",
            Sprite::Ring => "Ring",
        }
    }

    /// Position in [`Sprite::ALL`] (used by the shaders).
    pub fn index(self) -> (i: u32)
        ensures
            i < 4,
            Self::ALL@[i as int] == self,
    {
        match self {
            Sprite::Glow => 0,
            Sprite::Square => 1,
            Sprite::Star => 2,
            Sprite::Ring => 3,
        }
    }
}

impl Default for Sprite {
    fn default() -> (r: Self)
        ensures
            r == Sprite::Glow,
    {
        Sprite::Glow
    }
}

/// Fullscreen raymarched / procedural background.
#[derive(Clone, Copy, Debug, PartialEq, Eq, Structural)]
pub enum BackdropKind {
    Gradient,
    Nebula,
    Starfield,
    Tunnel,
    Fractal,
    Plasma,
    SynthGrid,
}

impl BackdropKind {
    /// Every variant, in menu order.
    pub const ALL: [BackdropKind; 7] = [
        BackdropKind::Gradient,
        BackdropKind::Nebula,
        BackdropKind::Starfield,
        BackdropKind::Tunnel,
        BackdropKind::Fractal,
        BackdropKind::Plasma,
        BackdropKind::SynthGrid,
    ];

    /// Name shown in menus.
    pub fn label(self) -> (s: &'static str)
        ensures
            s@ == (match self {
                BackdropKind::Gradient => "Gradient sky"@,
                BackdropKind::Nebula => "Nebula clouds"@,
                BackdropKind::Starfield => "Starfield"@,
                BackdropKind::Tunnel => "Raymarched tunnel"@,
                BackdropKind::Fractal => "Raymarched fractal"@,
                BackdropKind::Plasma => "Oldschool plasma"@,
                BackdropKind::SynthGrid => "Synthwave sun & grid"@,
            }),
    {
        match self {
            BackdropKind::Gradient => "Gradient sky",
            BackdropKind::Nebula => "Nebula clouds",
            BackdropKind::Starfield => "Starfield",
            BackdropKind::Tunnel => "Raymarched tunnel",
            BackdropKind::Fractal => "Raymarched fractal",
            BackdropKind::Plasma => "Oldschool plasma",
            BackdropKind::SynthGrid => "Synthwave sun & grid",
        }
    }

    /// Position in [`BackdropKind::ALL`] (used by the shaders).
    pub fn index(self) -> (i: u32)
        ensures
            i < 7,
            Self::ALL@[i as int] == self,
    {
        match self {
            BackdropKind::Gradient => 0,
            BackdropKind::Nebula => 1,
            BackdropKind::Starfield => 2,
            BackdropKind::Tunnel => 3,
            BackdropKind::Fractal => 4,
            BackdropKind::Plasma => 5,
            BackdropKind::SynthGrid => 6,
        }
    }
}

impl Default for BackdropKind {
    fn default() -> (r: Self)
        ensures
            r == BackdropKind::Gradient,
    {
        BackdropKind::Gradient
    }
}

/// How the picture is mirrored.
#[derive(Clone, Copy, Debug, PartialEq, Eq, Structural)]
pub enum MirrorSplitMode {
    LeftToRight,
    TopToBottom,
    Quad,
}

impl MirrorSplitMode {
    /// Every variant, in menu order.
    pub const ALL: [MirrorSplitMode; 3] = [
        MirrorSplitMode::LeftToRight,
        MirrorSplitMode::TopToBottom,
        MirrorSplitMode::Quad,
    ];

    /// Name shown in menus.
    pub fn label(self) -> (s: &'static str)
        ensures
            s@ == (match self {
                MirrorSplitMode::LeftToRight => "Left → right"@,
                MirrorSplitMode::TopToBottom => "Top → bottom"@,
                MirrorSplitMode::Quad => "Quad"@,
            }),
    {
        match self {
            MirrorSplitMode::LeftToRight => "Left → right",
            MirrorSplitMode::TopToBottom => "Top → bottom",
            MirrorSplitMode::Quad => "Quad",
        }
    }
}

impl Default for MirrorSplitMode {
    fn default() -> (r: Self)
        ensures
            r == MirrorSplitMode::LeftToRight,
    {
        MirrorSplitMode::LeftToRight
    }
}

/// Mirror-split post effect.
#[derive(Clone, Copy, Debug, PartialEq, Eq, Structural)]
pub struct MirrorSplit {
    pub enabled: bool,
    pub mode: MirrorSplitMode,
}

impl Default for MirrorSplit {
    fn default() -> (r: Self)
        ensures
            r == (MirrorSplit { enabled: false, mode: MirrorSplitMode::LeftToRight }),
    {
        MirrorSplit { enabled: false, mode: MirrorSplitMode::default() }
    }
}

/// How a scrolling landscape is drawn.
#[derive(Clone, Copy, Debug, PartialEq, Eq, Structural)]
pub enum TerrainStyle {
    /// Glowing grid lines only.
    Wireframe,
    /// Lit solid ground.
    Solid,
    /// Solid ground with glowing grid lines.
    Both,
}

impl TerrainStyle {
    /// Every variant, in menu order.
    pub const ALL: [TerrainStyle; 3] = [
        TerrainStyle::Wireframe,
        TerrainStyle::Solid,
        TerrainStyle::Both,
    ];

    /// Name shown in menus.
    pub fn label(self) -> (s: &'static str)
        ensures
            s@ == (match self {
                TerrainStyle::Wireframe => "Wireframe"@,
                TerrainStyle::Solid => "Solid"@,
                TerrainStyle::Both => "Solid + lines"@,
            }),
    {
        match self {
            TerrainStyle::Wireframe => "Wireframe",
            TerrainStyle::Solid => "Solid",
            TerrainStyle::Both => "Solid + lines",
        }
    }

    /// Position in [`TerrainStyle::ALL`] (used by the shaders).
    pub fn index(self) -> (i: u32)
        ensures
            i < 3,
            Self::ALL@[i as int] == self,
    {
        match self {
            TerrainStyle::Wireframe => 0,
            TerrainStyle::Solid => 1,
            TerrainStyle::Both => 2,
        }
    }
}

impl Default for TerrainStyle {
    fn default() -> (r: Self)
        ensures
            r == TerrainStyle::Wireframe,
    {
        TerrainStyle::Wireframe
    }
}

/// How laser beams are laid out.
#[derive(Clone, Copy, Debug, PartialEq, Eq, Structural)]
pub enum LaserPattern {
    /// Flat fan of beams.
    Fan,
    /// Beams on a rotating cone.
    Cone,
    /// Random directions that wobble.
    Scatter,
}

impl LaserPattern {
    /// Every variant, in menu order.
    pub const ALL: [LaserPattern; 3] = [
        LaserPattern::Fan,
        LaserPattern::Cone,
        LaserPattern::Scatter,
    ];

    /// Name shown in menus.
    pub fn label(self) -> (s: &'static str)
        ensures
            s@ == (match self {
                LaserPattern::Fan => "Fan"@,
                LaserPattern::Cone => "Rotating cone"@,
                LaserPattern::Scatter => "Scatter"@,
            }),
    {
        match self {
            LaserPattern::Fan => "Fan",
            LaserPattern::Cone => "Rotating cone",
            LaserPattern::Scatter => "Scatter",
        }
    }

    /// Position in [`LaserPattern::ALL`] (used by the shaders).
    pub fn index(self) -> (i: u32)
        ensures
            i < 3,
            Self::ALL@[i as int] == self,
    {
        match self {
            LaserPattern::Fan => 0,
            LaserPattern::Cone => 1,
            LaserPattern::Scatter => 2,
        }
    }
}

impl Default for LaserPattern {
    fn default() -> (r: Self)
        ensures
            r == LaserPattern::Fan,
    {
        LaserPattern::Fan
    }
}

/// The closed curve a neon ribbon follows.
#[derive(Clone, Copy, Debug, PartialEq, Eq, Structural)]
pub enum RibbonCurve {
    /// 3D Lissajous figure (uses the three frequencies).
    Lissajous,
    /// Torus knot (uses the first two frequencies).
    Knot,
    /// Figure eight.
    Infinity,
    /// Circle that waves up and down (first frequency = waves).
    Wave,
    /// Flower / rose curve (first frequency = petals).
    Rose,
}

impl RibbonCurve {
    /// Every variant, in menu order.
    pub const ALL: [RibbonCurve; 5] = [
        RibbonCurve::Lissajous,
        RibbonCurve::Knot,
        RibbonCurve::Infinity,
        RibbonCurve::Wave,
        RibbonCurve::Rose,
    ];

    /// Name shown in menus.
    pub fn label(self) -> (s: &'static str)
        ensures
            s@ == (match self {
                RibbonCurve::Lissajous => "Lissajous"@,
                RibbonCurve::Knot => "Knot"@,
                RibbonCurve::Infinity => "Figure eight"@,
                RibbonCurve::Wave => "Wavy ring"@,
                RibbonCurve::Rose => "Rose"@,
            }),
    {
        match self {
            RibbonCurve::Lissajous => "Lissajous",
            RibbonCurve::Knot => "Knot",
            RibbonCurve::Infinity => "Figure eight",
            RibbonCurve::Wave => "Wavy ring",
            RibbonCurve::Rose => "Rose",
        }
    }
}

impl Default for RibbonCurve {
    fn default() -> (r: Self)
        ensures
            r == RibbonCurve::Lissajous,
    {
        RibbonCurve::Lissajous
    }
}

} // verus!
