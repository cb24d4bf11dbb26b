use vstd::prelude::*;

verus! {

/// Number of inverted-alpha relief units represented by one model-space pixel.
pub const RELIEF_UNITS_PER_PIXEL: i64 = 8;

/// A decoded chart texel: empty background, or color plus inward relief in
/// eighth-pixel units.
#[derive(Clone, Copy, Debug, PartialEq, Eq)]
pub enum DecodedTexel {
    Background,
    Relief { rgb: [u8; 3], eighths: u8 },
}

/// What an RGBA texel means: alpha zero is background; any other alpha is
/// relief `255 - alpha` with the texel's RGB.
pub open spec fn spec_decode(rgba: [u8; 4]) -> DecodedTexel {
    if rgba[3] == 0 {
        DecodedTexel::Background
    } else {
        DecodedTexel::Relief { rgb: [rgba[0], rgba[1], rgba[2]], eighths: (255 - rgba[3]) as u8 }
    }
}

pub fn decode_rgba(rgba: [u8; 4]) -> (texel: DecodedTexel)
    ensures
        texel == spec_decode(rgba),
{
    let r = rgba[0];
    let g = rgba[1];
    let b = rgba[2];
    let a = rgba[3];
    if a == 0 {
        DecodedTexel::Background
    } else {
        DecodedTexel::Relief { rgb: [r, g, b], eighths: 255 - a }
    }
}

} // verus!
