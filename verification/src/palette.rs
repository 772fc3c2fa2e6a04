//! Retro palettes.

use vstd::prelude::*;

verus! {

/// A retro palette.
#[derive(Clone, Copy, Debug, PartialEq, Eq, Hash, Structural)]
pub enum PaletteId {
    /// IBM EGA 16 colours.
    Ega,
    /// CGA mode 4, palette 1 high intensity.
    Cga,
    /// Commodore 64 (Pepto).
    C64,
    /// Classic Game Boy greens.
    GameBoy,
    /// PICO-8 fantasy console.
    Pico8,
    /// Amiga-style copper gradient (16 warm-to-cool steps).
    AmigaCopper,
    /// ZX Spectrum bright colours.
    Spectrum,
    /// VGA-like 6x6x6 colour cube (216 colours), handled as a quantiser.
    Vga,
    /// Monochrome green phosphor terminal.
    Phosphor,
}

impl PaletteId {
    /// Every variant, in menu order.
    pub const ALL: [PaletteId; 9] = [
        PaletteId::Ega,
        PaletteId::Cga,
        PaletteId::C64,
        PaletteId::GameBoy,
        PaletteId::Pico8,
        PaletteId::AmigaCopper,
        PaletteId::Spectrum,
        PaletteId::Vga,
        PaletteId::Phosphor,
    ];

    /// Name shown in menus.
    pub fn label(self) -> (s: &'static str)
        ensures
            s@ == (match self {
                PaletteId::Ega => "EGA (16)"@,
                PaletteId::Cga => "CGA (4)"@,
                PaletteId::C64 => "Commodore 64 (16)"@,
                PaletteId::GameBoy => "Game Boy (4)"@,
                PaletteId::Pico8 => "PICO-8 (16)"@,
                PaletteId::AmigaCopper => "Amiga copper (16)"@,
                PaletteId::Spectrum => "ZX Spectrum (8)"@,
                PaletteId::Vga => "VGA cube (216)"@,
                PaletteId::Phosphor => "Green phosphor (4)"@,
            }),
    {
        match self {
            PaletteId::Ega => "EGA (16)",
            PaletteId::Cga => "CGA (4)",
            PaletteId::C64 => "Commodore 64 (16)",
            PaletteId::GameBoy => "Game Boy (4)",
            PaletteId::Pico8 => "PICO-8 (16)",
            PaletteId::AmigaCopper => "Amiga copper (16)",
            PaletteId::Spectrum => "ZX Spectrum (8)",
            PaletteId::Vga => "VGA cube (216)",
            PaletteId::Phosphor => "Green phosphor (4)",
        }
    }

    /// Colours of the palette. Empty for the VGA cube (use a quantiser).
    pub fn colors(self) -> (c: &'static [u32])
        ensures
            c@ == palette_colors(self),
    {
        match self {
            PaletteId::Ega => {
                let c: &'static [u32] = &[
                    0x000000, 0x0000aa, 0x00aa00, 0x00aaaa, 0xaa0000, 0xaa00aa, 0xaa5500, 0xaaaaaa,
                    0x555555, 0x5555ff, 0x55ff55, 0x55ffff, 0xff5555, 0xff55ff, 0xffff55, 0xffffff,
                ];
                assert(c@ =~= palette_colors(self));
                c
            },
            PaletteId::Cga => {
                let c: &'static [u32] = &[
                    0x000000, 0x55ffff, 0xff55ff, 0xffffff,
                ];
                assert(c@ =~= palette_colors(self));
                c
            },
            PaletteId::C64 => {
                let c: &'static [u32] = &[
                    0x000000, 0xffffff, 0x68372b, 0x70a4b2, 0x6f3d86, 0x588d43, 0x352879, 0xb8c76f,
                    0x6f4f25, 0x433900, 0x9a6759, 0x444444, 0x6c6c6c, 0x9ad284, 0x6c5eb5, 0x959595,
                ];
                assert(c@ =~= palette_colors(self));
                c
            },
            PaletteId::GameBoy => {
                let c: &'static [u32] = &[
                    0x0f380f, 0x306230, 0x8bac0f, 0x9bbc0f,
                ];
                assert(c@ =~= palette_colors(self));
                c
            },
            PaletteId::Pico8 => {
                let c: &'static [u32] = &[
                    0x000000, 0x1d2b53, 0x7e2553, 0x008751, 0xab5236, 0x5f574f, 0xc2c3c7, 0xfff1e8,
                    0xff004d, 0xffa300, 0xffec27, 0x00e436, 0x29adff, 0x83769c, 0xff77a8, 0xffccaa,
                ];
                assert(c@ =~= palette_colors(self));
                c
            },
            PaletteId::AmigaCopper => {
                let c: &'static [u32] = &[
                    0x000000, 0x110022, 0x220044, 0x440066, 0x660077, 0x880066, 0xaa1144, 0xcc3322,
                    0xee6600, 0xff9900, 0xffcc33, 0xffee88, 0xffffff, 0x88ccff, 0x3388dd, 0x114488,
                ];
                assert(c@ =~= palette_colors(self));
                c
            },
            PaletteId::Spectrum => {
                let c: &'static [u32] = &[
                    0x000000, 0x0000ff, 0xff0000, 0xff00ff, 0x00ff00, 0x00ffff, 0xffff00, 0xffffff,
                ];
                assert(c@ =~= palette_colors(self));
                c
            },
            PaletteId::Vga => {
                let c: &'static [u32] = &[];
                assert(c@ =~= palette_colors(self));
                c
            },
            PaletteId::Phosphor => {
                let c: &'static [u32] = &[
                    0x001a00, 0x006600, 0x22cc22, 0x99ff99,
                ];
                assert(c@ =~= palette_colors(self));
                c
            },
        }
    }
}

impl Default for PaletteId {
    fn default() -> (r: Self)
        ensures
            r == PaletteId::Ega,
    {
        PaletteId::Ega
    }
}

/// The colours of each palette, as `0xRRGGBB`.
pub open spec fn palette_colors(p: PaletteId) -> Seq<u32> {
    match p {
        PaletteId::Ega => seq![
            0x000000, 0x0000aa, 0x00aa00, 0x00aaaa, 0xaa0000, 0xaa00aa, 0xaa5500, 0xaaaaaa,
            0x555555, 0x5555ff, 0x55ff55, 0x55ffff, 0xff5555, 0xff55ff, 0xffff55, 0xffffff,
        ],
        PaletteId::Cga => seq![
            0x000000, 0x55ffff, 0xff55ff, 0xffffff,
        ],
        PaletteId::C64 => seq![
            0x000000, 0xffffff, 0x68372b, 0x70a4b2, 0x6f3d86, 0x588d43, 0x352879, 0xb8c76f,
            0x6f4f25, 0x433900, 0x9a6759, 0x444444, 0x6c6c6c, 0x9ad284, 0x6c5eb5, 0x959595,
        ],
        PaletteId::GameBoy => seq![
            0x0f380f, 0x306230, 0x8bac0f, 0x9bbc0f,
        ],
        PaletteId::Pico8 => seq![
            0x000000, 0x1d2b53, 0x7e2553, 0x008751, 0xab5236, 0x5f574f, 0xc2c3c7, 0xfff1e8,
            0xff004d, 0xffa300, 0xffec27, 0x00e436, 0x29adff, 0x83769c, 0xff77a8, 0xffccaa,
        ],
        PaletteId::AmigaCopper => seq![
            0x000000, 0x110022, 0x220044, 0x440066, 0x660077, 0x880066, 0xaa1144, 0xcc3322,
            0xee6600, 0xff9900, 0xffcc33, 0xffee88, 0xffffff, 0x88ccff, 0x3388dd, 0x114488,
        ],
        PaletteId::Spectrum => seq![
            0x000000, 0x0000ff, 0xff0000, 0xff00ff, 0x00ff00, 0x00ffff, 0xffff00, 0xffffff,
        ],
        PaletteId::Vga => Seq::empty(),
        PaletteId::Phosphor => seq![
            0x001a00, 0x006600, 0x22cc22, 0x99ff99,
        ],
    }
}

/// Every colour of every palette is a 24-bit `0xRRGGBB` value.
pub proof fn law_palette_colors_are_rgb(p: PaletteId, i: int)
    requires
        0 <= i < palette_colors(p).len(),
    ensures
        palette_colors(p)[i] <= 0xffffff,
{
}

} // verus!
