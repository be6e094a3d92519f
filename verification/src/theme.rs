//! Paper-and-ink palette. The accent changes between themes because the green
//! that keeps contrast on black loses strength on the light background.
use vstd::prelude::*;

verus! {

pub type Rgb = (u8, u8, u8);

#[derive(Clone, Copy, Debug, PartialEq, Eq)]
pub struct Palette {
    pub bg: Rgb,
    /// Document base, set apart from the window background without shadows.
    pub surface: Rgb,
    /// Blocks and chrome that need presence without competing with reading.
    pub elevated: Rgb,
    /// Menus, panels and notices that float over the document.
    pub floating: Rgb,
    pub border: Rgb,
    pub text: Rgb,
    pub dim: Rgb,
    pub accent: Rgb,
    /// Conventional blue for destinations that leave the application, apart
    /// from the green kept for internal navigation.
    pub external_link: Rgb,
    pub mark: Rgb,
    pub kbd: Rgb,
}

/// The dark theme.
pub fn night() -> (p: Palette)
    ensures
        p == night_palette(),
{
    Palette {
        bg: (0x08, 0x10, 0x0C),
        surface: (0x0D, 0x17, 0x12),
        elevated: (0x14, 0x21, 0x19),
        floating: (0x1B, 0x2B, 0x21),
        border: (0x24, 0x37, 0x2C),
        text: (0xEC, 0xE8, 0xDE),
        dim: (0x9B, 0xA3, 0x99),
        accent: (0x62, 0xC9, 0x8A),
        external_link: (0x7D, 0xB3, 0xFF),
        mark: (0x2C, 0x4B, 0x35),
        kbd: (0x18, 0x27, 0x1E),
    }
}

pub open spec fn night_palette() -> Palette {
    Palette {
        bg: (0x08, 0x10, 0x0C),
        surface: (0x0D, 0x17, 0x12),
        elevated: (0x14, 0x21, 0x19),
        floating: (0x1B, 0x2B, 0x21),
        border: (0x24, 0x37, 0x2C),
        text: (0xEC, 0xE8, 0xDE),
        dim: (0x9B, 0xA3, 0x99),
        accent: (0x62, 0xC9, 0x8A),
        external_link: (0x7D, 0xB3, 0xFF),
        mark: (0x2C, 0x4B, 0x35),
        kbd: (0x18, 0x27, 0x1E),
    }
}

/// The light theme.
pub fn day() -> (p: Palette)
    ensures
        p == day_palette(),
{
    Palette {
        bg: (0xE8, 0xDD, 0xC7),
        surface: (0xF5, 0xEE, 0xDC),
        elevated: (0xED, 0xE2, 0xCC),
        floating: (0xFA, 0xF4, 0xE7),
        border: (0xD3, 0xC4, 0xA7),
        text: (0x2B, 0x25, 0x1C),
        dim: (0x6C, 0x61, 0x51),
        accent: (0x2F, 0x6B, 0x45),
        external_link: (0x1E, 0x68, 0xC4),
        mark: (0xD9, 0xE4, 0xC9),
        kbd: (0xE5, 0xDA, 0xC3),
    }
}

pub open spec fn day_palette() -> Palette {
    Palette {
        bg: (0xE8, 0xDD, 0xC7),
        surface: (0xF5, 0xEE, 0xDC),
        elevated: (0xED, 0xE2, 0xCC),
        floating: (0xFA, 0xF4, 0xE7),
        border: (0xD3, 0xC4, 0xA7),
        text: (0x2B, 0x25, 0x1C),
        dim: (0x6C, 0x61, 0x51),
        accent: (0x2F, 0x6B, 0x45),
        external_link: (0x1E, 0x68, 0xC4),
        mark: (0xD9, 0xE4, 0xC9),
        kbd: (0xE5, 0xDA, 0xC3),
    }
}

#[derive(Clone, Copy, Debug, PartialEq, Eq, Structural)]
pub enum Role {
    Text,
    Dim,
    Accent,
}

impl Palette {
    pub fn resolve(self, role: Role) -> (r: Rgb)
        ensures
            r == match role {
                Role::Text => self.text,
                Role::Dim => self.dim,
                Role::Accent => self.accent,
            },
    {
        match role {
            Role::Text => self.text,
            Role::Dim => self.dim,
            Role::Accent => self.accent,
        }
    }
}

/// One channel of `color` laid with coverage `alpha` over an opaque `under`.
pub open spec fn mix_channel(color: u8, under: u8, alpha: u8) -> int {
    (color * alpha + under * (255 - alpha)) / 255
}

fn mix(color: u8, under: u8, alpha: u8) -> (c: u8)
    ensures
        c == mix_channel(color, under, alpha),
{
    let a = alpha as u32;
    let inv: u32 = 255 - a;
    assert(color as u32 * a <= 255 * 255) by (nonlinear_arith)
        requires
            color <= 255,
            a <= 255,
    ;
    assert(under as u32 * inv <= 255 * (255 - a)) by (nonlinear_arith)
        requires
            under <= 255,
            inv == 255 - a,
            a <= 255,
    ;
    assert(color as u32 * a + under as u32 * inv <= 255 * 255) by (nonlinear_arith)
        requires
            color <= 255,
            under <= 255,
            inv == 255 - a,
            a <= 255,
    ;
    let total: u32 = color as u32 * a + under as u32 * inv;
    (total / 255) as u8
}

proof fn lemma_full_coverage(color: u8, under: u8)
    ensures
        mix_channel(color, under, 255) == color,
{
    assert((color * 255 + under * 0) / 255 == color) by (nonlinear_arith);
}

/// An opaque pixel after `color` is laid over it with coverage `alpha`;
/// no coverage leaves the pixel as it was, full coverage gives the color.
pub fn blend(pixel: Rgb, color: Rgb, alpha: u8) -> (out: Rgb)
    ensures
        out.0 == mix_channel(color.0, pixel.0, alpha),
        out.1 == mix_channel(color.1, pixel.1, alpha),
        out.2 == mix_channel(color.2, pixel.2, alpha),
        alpha == 0 ==> out == pixel,
        alpha == 255 ==> out == color,
{
    if alpha == 0 {
        return pixel;
    }
    proof {
        if alpha == 255 {
            lemma_full_coverage(color.0, pixel.0);
            lemma_full_coverage(color.1, pixel.1);
            lemma_full_coverage(color.2, pixel.2);
        }
    }
    (mix(color.0, pixel.0, alpha), mix(color.1, pixel.1, alpha), mix(color.2, pixel.2, alpha))
}

} // verus!
