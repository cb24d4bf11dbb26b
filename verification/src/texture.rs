//! Material textures: integer pixel formats expanded to RGBA8.

use vstd::prelude::*;

verus! {

/// The integer pixel layouts an imported image may use: one to four 8-bit
/// or 16-bit little-endian channels per texel.
#[derive(Clone, Copy, Debug, PartialEq, Eq)]
pub enum PixelFormat {
    R8,
    R8G8,
    R8G8B8,
    R8G8B8A8,
    R16,
    R16G16,
    R16G16B16,
    R16G16B16A16,
}

/// A decoded RGBA8 texture.
#[derive(Clone, Debug)]
pub struct Texture {
    pub width: u32,
    pub height: u32,
    pub rgba: Vec<[u8; 4]>,
}

/// Number of channels of a format.
pub open spec fn spec_channels(format: PixelFormat) -> int {
    match format {
        PixelFormat::R8 | PixelFormat::R16 => 1,
        PixelFormat::R8G8 | PixelFormat::R16G16 => 2,
        PixelFormat::R8G8B8 | PixelFormat::R16G16B16 => 3,
        PixelFormat::R8G8B8A8 | PixelFormat::R16G16B16A16 => 4,
    }
}

/// Whether a format stores 16-bit channels.
pub open spec fn is_wide(format: PixelFormat) -> bool {
    match format {
        PixelFormat::R16 | PixelFormat::R16G16 | PixelFormat::R16G16B16 | PixelFormat::R16G16B16A16 => true,
        _ => false,
    }
}

/// Bytes per texel of a format.
pub open spec fn spec_texel_size(format: PixelFormat) -> int {
    if is_wide(format) {
        2 * spec_channels(format)
    } else {
        spec_channels(format)
    }
}

/// Channel `channel` of the texel starting at byte `start`, scaled to 8 bits:
/// a 16-bit little-endian channel divides by 257, the exact 65535 to 255
/// ratio.
pub open spec fn channel_value(format: PixelFormat, pixels: Seq<u8>, start: int, channel: int) -> u8 {
    if is_wide(format) {
        ((pixels[start + 2 * channel] + 256 * pixels[start + 2 * channel + 1]) / 257) as u8
    } else {
        pixels[start + channel]
    }
}

/// The RGBA8 texel starting at byte `start`: a single channel is gray, a
/// missing blue is zero, a missing alpha opaque.
pub open spec fn spec_texel(format: PixelFormat, pixels: Seq<u8>, start: int) -> [u8; 4] {
    let red = channel_value(format, pixels, start, 0);
    let channels = spec_channels(format);
    if channels == 1 {
        [red, red, red, 255]
    } else {
        let green = channel_value(format, pixels, start, 1);
        let blue = if channels >= 3 {
            channel_value(format, pixels, start, 2)
        } else {
            0
        };
        let alpha = if channels == 4 {
            channel_value(format, pixels, start, 3)
        } else {
            255
        };
        [red, green, blue, alpha]
    }
}

/// The texels of `pixels` in order, one per whole texel-sized chunk; a
/// trailing partial chunk is ignored.
pub open spec fn decoded(format: PixelFormat, pixels: Seq<u8>) -> Seq<[u8; 4]> {
    let size = spec_texel_size(format);
    Seq::new((pixels.len() as int / size) as nat, |k: int| spec_texel(format, pixels, k * size))
}

fn texel_size(format: PixelFormat) -> (size: usize)
    ensures
        size == spec_texel_size(format),
        1 <= size <= 8,
{
    match format {
        PixelFormat::R8 => 1,
        PixelFormat::R8G8 => 2,
        PixelFormat::R8G8B8 => 3,
        PixelFormat::R8G8B8A8 => 4,
        PixelFormat::R16 => 2,
        PixelFormat::R16G16 => 4,
        PixelFormat::R16G16B16 => 6,
        PixelFormat::R16G16B16A16 => 8,
    }
}

fn channel(format: PixelFormat, pixels: &[u8], start: usize, index: usize) -> (value: u8)
    requires
        0 <= index < spec_channels(format),
        start + spec_texel_size(format) <= pixels@.len(),
    ensures
        value == channel_value(format, pixels@, start as int, index as int),
{
    let length = pixels.len();
    match format {
        PixelFormat::R16 | PixelFormat::R16G16 | PixelFormat::R16G16B16 | PixelFormat::R16G16B16A16 => {
            let low = pixels[start + 2 * index] as u32;
            let high = pixels[start + 2 * index + 1] as u32;
            ((low + 256 * high) / 257) as u8
        },
        _ => pixels[start + index],
    }
}

fn texel(format: PixelFormat, pixels: &[u8], start: usize) -> (value: [u8; 4])
    requires
        start + spec_texel_size(format) <= pixels@.len(),
    ensures
        value == spec_texel(format, pixels@, start as int),
{
    let red = channel(format, pixels, start, 0);
    match format {
        PixelFormat::R8 | PixelFormat::R16 => [red, red, red, 255],
        PixelFormat::R8G8 | PixelFormat::R16G16 => [red, channel(format, pixels, start, 1), 0, 255],
        PixelFormat::R8G8B8 | PixelFormat::R16G16B16 => [
            red,
            channel(format, pixels, start, 1),
            channel(format, pixels, start, 2),
            255,
        ],
        _ => [
            red,
            channel(format, pixels, start, 1),
            channel(format, pixels, start, 2),
            channel(format, pixels, start, 3),
        ],
    }
}

/// Every texel of a decoded image is read from its own chunk of bytes, in
/// order. An 8-bit channel is its byte. A 16-bit channel is stored little
/// endian, its first byte low, and scales to the 8-bit value `v` with
/// `257 * v <= sample < 257 * (v + 1)`. A single channel is repeated as
/// gray, a missing blue is zero and a missing alpha is opaque.
pub proof fn lemma_decoded_channels(format: PixelFormat, pixels: Seq<u8>, k: int)
    requires
        0 <= k < decoded(format, pixels).len(),
    ensures
        decoded(format, pixels).len() * spec_texel_size(format) <= pixels.len() < (decoded(format, pixels).len() + 1)
            * spec_texel_size(format),
        ({
            let size = spec_texel_size(format);
            let texel = decoded(format, pixels)[k];
            let channels = spec_channels(format);
            &&& (k + 1) * size <= pixels.len()
            &&& forall|channel: int|
                0 <= channel < channels ==> {
                    let value = #[trigger] texel[channel] as int;
                    if is_wide(format) {
                        let sample = pixels[k * size + 2 * channel] as int + 256 * pixels[k * size + 2 * channel
                            + 1] as int;
                        257 * value <= sample < 257 * (value + 1)
                    } else {
                        value == pixels[k * size + channel] as int
                    }
                }
            &&& channels == 1 ==> texel[1] == texel[0] && texel[2] == texel[0]
            &&& channels == 2 ==> texel[2] == 0
            &&& channels < 4 ==> texel[3] == 255
        }),
{
    let size = spec_texel_size(format);
    let count = decoded(format, pixels).len() as int;
    assert(size >= 1);
    vstd::arithmetic::div_mod::lemma_fundamental_div_mod(pixels.len() as int, size);
    vstd::arithmetic::div_mod::lemma_mod_pos_bound(pixels.len() as int, size);
    assert(count == pixels.len() as int / size);
    assert(count * size <= pixels.len() < (count + 1) * size) by (nonlinear_arith)
        requires
            pixels.len() as int == size * count + pixels.len() as int % size,
            0 <= pixels.len() as int % size < size,
    ;
    assert((k + 1) * size <= pixels.len()) by (nonlinear_arith)
        requires
            k + 1 <= count,
            count * size <= pixels.len(),
            size >= 1,
    ;
    let start = k * size;
    assert forall|channel: int| 0 <= channel < spec_channels(format) implies {
        let value = #[trigger] decoded(format, pixels)[k][channel] as int;
        if is_wide(format) {
            let sample = pixels[start + 2 * channel] as int + 256 * pixels[start + 2 * channel + 1] as int;
            257 * value <= sample < 257 * (value + 1)
        } else {
            value == pixels[start + channel] as int
        }
    } by {
        if is_wide(format) {
            let sample = pixels[start + 2 * channel] as int + 256 * pixels[start + 2 * channel + 1] as int;
            assert(0 <= sample < 65536);
            assert(channel_value(format, pixels, start, channel) as int == sample / 257);
        }
    }
}

/// Expands an image of an integer pixel format to RGBA8: 8-bit channels are
/// kept, 16-bit channels divide by 257.
pub fn decode_image(format: PixelFormat, width: u32, height: u32, pixels: &[u8]) -> (texture: Texture)
    ensures
        texture.width == width,
        texture.height == height,
        texture.rgba@ == decoded(format, pixels@),
{
    let size = texel_size(format);
    let count = pixels.len() / size;
    let mut rgba: Vec<[u8; 4]> = Vec::new();
    let mut k: usize = 0;
    while k < count
        invariant
            size == spec_texel_size(format),
            1 <= size <= 8,
            count == pixels@.len() as int / (size as int),
            k <= count,
            rgba@ =~= decoded(format, pixels@).take(k as int),
            pixels@.len() <= usize::MAX,
        decreases count - k,
    {
        assert((k + 1) * size <= pixels@.len()) by (nonlinear_arith)
            requires
                k + 1 <= count,
                count == pixels@.len() as int / (size as int),
                1 <= size,
        ;
        assert(k * size + size == (k + 1) * size) by (nonlinear_arith);
        let start = k * size;
        rgba.push(texel(format, pixels, start));
        k += 1;
    }
    Texture { width, height, rgba }
}

} // verus!
