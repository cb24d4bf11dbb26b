//! PNG encoding of rendered frames: the frame's bytes in storage order, and
//! the `png` crate's encoder applied to them.

use vstd::prelude::*;

use crate::framebuffer::FrameBuffer;

verus! {

#[verifier::external_type_specification]
#[verifier::external_body]
pub struct ExEncodingError(png::EncodingError);

/// Why encoding a frame failed.
#[derive(Debug)]
pub enum EncodeError {
    Png(png::EncodingError),
}

/// The bytes of an image's texels in storage order, four per texel: red,
/// green, blue, alpha.
pub open spec fn rgba_bytes(rgba: Seq<[u8; 4]>) -> Seq<u8> {
    Seq::new(rgba.len() * 4, |k: int| rgba[k / 4][k % 4])
}

/// The file `png`'s encoder writes for an 8-bit RGBA image of `width` by
/// `height` texels holding `rgba`, with high compression and no filtering.
pub uninterp spec fn png_rgba8(width: u32, height: u32, rgba: Seq<u8>) -> Seq<u8>;

/// Runs `png::Encoder` on an in-memory buffer in its documented sequence:
/// configure color, depth, compression and filter, write the header, the
/// image data, and finish. The encoder is deterministic, so its output is a
/// function of the dimensions and the data; when it fails (as for a zero
/// dimension) nothing is stated of the error.
#[verifier::external_body]
fn png_encode_rgba8(width: u32, height: u32, rgba: &Vec<u8>) -> (encoded: Result<Vec<u8>, png::EncodingError>)
    ensures
        encoded matches Ok(bytes) ==> bytes@ == png_rgba8(width, height, rgba@),
{
    let mut bytes = Vec::new();
    let mut encoder = png::Encoder::new(&mut bytes, width, height);
    encoder.set_color(png::ColorType::Rgba);
    encoder.set_depth(png::BitDepth::Eight);
    encoder.set_compression(png::Compression::High);
    encoder.set_filter(png::Filter::NoFilter);
    let mut writer = encoder.write_header()?;
    writer.write_image_data(rgba)?;
    writer.finish()?;
    Ok(bytes)
}

/// The frame's texels as bytes, row by row, four per texel.
pub fn frame_bytes(frame: &FrameBuffer) -> (bytes: Vec<u8>)
    requires
        frame.model().rgba.len() * 4 <= usize::MAX,
    ensures
        bytes@ == rgba_bytes(frame.model().rgba),
{
    let pixels = frame.pixels();
    let mut bytes: Vec<u8> = Vec::new();
    let mut index: usize = 0;
    while index < pixels.len()
        invariant
            pixels@ == frame.model().rgba,
            pixels@.len() * 4 <= usize::MAX,
            index <= pixels@.len(),
            bytes@.len() == index * 4,
            forall|k: int| 0 <= k < bytes@.len() ==> #[trigger] bytes@[k] == pixels@[k / 4][k % 4],
        decreases pixels@.len() - index,
    {
        let pixel = pixels[index];
        let ghost before = bytes@;
        bytes.push(pixel[0]);
        bytes.push(pixel[1]);
        bytes.push(pixel[2]);
        bytes.push(pixel[3]);
        proof {
            assert forall|k: int| 0 <= k < bytes@.len() implies #[trigger] bytes@[k] == pixels@[k / 4][k % 4] by {
                if k < index * 4 {
                    assert(bytes@[k] == before[k]);
                } else {
                    assert(k / 4 == index as int);
                }
            }
        }
        index += 1;
    }
    assert(bytes@ =~= rgba_bytes(frame.model().rgba));
    bytes
}

/// Encodes `frame` as an 8-bit RGBA PNG file of its own size.
pub fn encode_png(frame: &FrameBuffer) -> (encoded: Result<Vec<u8>, EncodeError>)
    requires
        frame.model().rgba.len() * 4 <= usize::MAX,
    ensures
        encoded matches Ok(bytes) ==> bytes@ == png_rgba8(
            frame.model().width,
            frame.model().height,
            rgba_bytes(frame.model().rgba),
        ),
{
    let bytes = frame_bytes(frame);
    match png_encode_rgba8(frame.width(), frame.height(), &bytes) {
        Ok(encoded) => Ok(encoded),
        Err(error) => Err(EncodeError::Png(error)),
    }
}

} // verus!
