use depthsprite::{decode_image, faces, PixelFormat, PrimitiveMode};

#[test]
fn eight_bit_formats_fill_missing_channels() {
    let gray = decode_image(PixelFormat::R8, 2, 1, &[7, 200]);
    assert_eq!(gray.rgba, vec![[7, 7, 7, 255], [200, 200, 200, 255]]);
    let pair = decode_image(PixelFormat::R8G8, 1, 1, &[1, 2]);
    assert_eq!(pair.rgba, vec![[1, 2, 0, 255]]);
    let rgb = decode_image(PixelFormat::R8G8B8, 1, 1, &[1, 2, 3]);
    assert_eq!(rgb.rgba, vec![[1, 2, 3, 255]]);
    let rgba = decode_image(PixelFormat::R8G8B8A8, 1, 1, &[1, 2, 3, 4]);
    assert_eq!((rgba.width, rgba.height), (1, 1));
    assert_eq!(rgba.rgba, vec![[1, 2, 3, 4]]);
}

#[test]
fn sixteen_bit_channels_divide_by_257() {
    // 0xFFFF is 255, 0x0101 is 1, 0x0100 (256) rounds down to 0.
    let gray = decode_image(PixelFormat::R16, 3, 1, &[0xff, 0xff, 0x01, 0x01, 0x00, 0x01]);
    assert_eq!(gray.rgba, vec![[255, 255, 255, 255], [1, 1, 1, 255], [0, 0, 0, 255]]);
    let full = decode_image(
        PixelFormat::R16G16B16A16,
        1,
        1,
        &[0x02, 0x02, 0x03, 0x03, 0x04, 0x04, 0x80, 0x80],
    );
    assert_eq!(full.rgba, vec![[2, 3, 4, 128]]);
}

#[test]
fn a_trailing_partial_texel_is_ignored() {
    let rgb = decode_image(PixelFormat::R8G8B8, 2, 1, &[9, 8, 7, 6, 5]);
    assert_eq!(rgb.rgba, vec![[9, 8, 7, 255]]);
}

#[test]
fn strips_keep_their_winding_and_fans_share_the_first_vertex() {
    let indices = vec![10, 11, 12, 13, 14];
    assert_eq!(faces(PrimitiveMode::Triangles, &indices), vec![[10, 11, 12]]);
    assert_eq!(
        faces(PrimitiveMode::TriangleStrip, &indices),
        vec![[10, 11, 12], [12, 11, 13], [12, 13, 14]]
    );
    assert_eq!(
        faces(PrimitiveMode::TriangleFan, &indices),
        vec![[10, 11, 12], [10, 12, 13], [10, 13, 14]]
    );
    assert!(faces(PrimitiveMode::Other, &indices).is_empty());
    assert!(faces(PrimitiveMode::TriangleStrip, &vec![1, 2]).is_empty());
}
