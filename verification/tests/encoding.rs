use depthsprite::{encode_png, frame_bytes, new_frame, EncodeError};

#[test]
fn frames_flatten_row_by_row_four_bytes_per_texel() {
    let frame = new_frame(2, 1).unwrap();
    assert_eq!(frame_bytes(&frame), vec![0; 8]);
}

#[test]
fn encoded_frames_decode_to_their_texels() {
    let frame = new_frame(2, 3).unwrap();
    let encoded = encode_png(&frame).unwrap();
    assert_eq!(&encoded[..8], &[137, 80, 78, 71, 13, 10, 26, 10]);
    assert_ne!(encoded, frame_bytes(&frame));

    let mut reader = png::Decoder::new(std::io::Cursor::new(encoded)).read_info().unwrap();
    let mut decoded = vec![0; reader.output_buffer_size().unwrap()];
    let info = reader.next_frame(&mut decoded).unwrap();
    assert_eq!((info.width, info.height), (2, 3));
    assert_eq!(info.color_type, png::ColorType::Rgba);
    assert_eq!(&decoded[..info.buffer_size()], &frame_bytes(&frame)[..]);
}

#[test]
fn empty_frames_are_refused_by_the_encoder() {
    let frame = new_frame(0, 3).unwrap();
    assert!(matches!(encode_png(&frame), Err(EncodeError::Png(_))));
}
