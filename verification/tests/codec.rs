use rustqoi::{qoi_color_hash, qoi_decode, qoi_encode, Channels, Colorspace, QoiError, QoiHeader, QoiPixel};

fn header_bytes(width: u32, height: u32, channels: u8, colorspace: u8) -> Vec<u8> {
    let mut v: Vec<u8> = vec![113, 111, 105, 102];
    v.extend_from_slice(&width.to_be_bytes());
    v.extend_from_slice(&height.to_be_bytes());
    v.push(channels);
    v.push(colorspace);
    v
}

fn footer_bytes() -> Vec<u8> {
    vec![0, 0, 0, 0, 0, 0, 0, 1]
}

#[test]
fn encode_two_equal_rgb_pixels() {
    // A 2x1 RGB image of two (10,10,10) pixels: the first differs from
    // the initial previous pixel (0,0,0,255) and becomes a LUMA chunk;
    // the second extends into a RUN chunk of length 1, encoded as the
    // single byte 0b1100_0000.
    let pixels: Vec<u8> = vec![10, 10, 10, 10, 10, 10];
    let header = QoiHeader::new(2, 1, Channels::RGB, Colorspace::Linear);
    let encoded = qoi_encode(&pixels, &header);
    let mut expected = header_bytes(2, 1, 3, 0);
    expected.extend_from_slice(&[0xAA, 0x88, 0b1100_0000]);
    expected.extend_from_slice(&footer_bytes());
    assert_eq!(encoded, expected);

    let (decoded, desc) = qoi_decode(&encoded).unwrap();
    assert_eq!(decoded, pixels);
    assert_eq!(desc, header);
}

#[test]
fn encode_rgba_pixel_with_changed_alpha() {
    // A single (1,2,3,4) pixel after the initial previous pixel
    // (0,0,0,255): alpha changed, so it must be a raw RGBA chunk,
    // never DIFF or LUMA.
    let pixels: Vec<u8> = vec![1, 2, 3, 4];
    let header = QoiHeader::new(1, 1, Channels::RGBA, Colorspace::Linear);
    let encoded = qoi_encode(&pixels, &header);
    let mut expected = header_bytes(1, 1, 4, 0);
    expected.extend_from_slice(&[0xFF, 1, 2, 3, 4]);
    expected.extend_from_slice(&footer_bytes());
    assert_eq!(encoded, expected);

    let (decoded, desc) = qoi_decode(&encoded).unwrap();
    assert_eq!(decoded, pixels);
    assert_eq!(desc.channels, Channels::RGBA);
}

#[test]
fn run_of_63_pixels_emits_two_run_chunks() {
    // 63 black pixels all equal the initial previous pixel: the run is
    // flushed at length 62 and a second RUN chunk of length 1 follows.
    let pixels: Vec<u8> = vec![0; 63 * 3];
    let header = QoiHeader::new(63, 1, Channels::RGB, Colorspace::SRGB);
    let encoded = qoi_encode(&pixels, &header);
    let mut expected = header_bytes(63, 1, 3, 1);
    expected.extend_from_slice(&[0b1100_0000 | 61, 0b1100_0000]);
    expected.extend_from_slice(&footer_bytes());
    assert_eq!(encoded, expected);

    let (decoded, _) = qoi_decode(&encoded).unwrap();
    assert_eq!(decoded, pixels);
}

#[test]
fn run_of_62_pixels_emits_one_run_chunk() {
    let pixels: Vec<u8> = vec![0; 62 * 3];
    let header = QoiHeader::new(62, 1, Channels::RGB, Colorspace::Linear);
    let encoded = qoi_encode(&pixels, &header);
    let mut expected = header_bytes(62, 1, 3, 0);
    expected.extend_from_slice(&[0b1100_0000 | 61]);
    expected.extend_from_slice(&footer_bytes());
    assert_eq!(encoded, expected);
}

#[test]
fn decode_rejects_invalid_channel_counts() {
    for bad in [0u8, 1, 2, 5, 255] {
        let mut data = header_bytes(0, 0, bad, 0);
        data.extend_from_slice(&footer_bytes());
        assert_eq!(qoi_decode(&data), Err(QoiError::InvalidChannelCount));
    }
}

#[test]
fn decode_rejects_invalid_colorspace() {
    for bad in [2u8, 7, 255] {
        let mut data = header_bytes(0, 0, 3, bad);
        data.extend_from_slice(&footer_bytes());
        assert_eq!(qoi_decode(&data), Err(QoiError::InvalidColorspace));
    }
}

#[test]
fn decode_rejects_short_input() {
    assert_eq!(qoi_decode(&[]), Err(QoiError::TruncatedStream));
    assert_eq!(qoi_decode(&[0; 10]), Err(QoiError::TruncatedStream));
    assert_eq!(qoi_decode(&[0; 13]), Err(QoiError::TruncatedStream));
    // A valid 14-byte header with no room for the footer.
    let mut data = header_bytes(0, 0, 3, 0);
    data.extend_from_slice(&[0; 7]);
    assert_eq!(qoi_decode(&data), Err(QoiError::TruncatedStream));
}

#[test]
fn header_errors_precede_missing_footer() {
    // On a bare 14-byte header the out-of-range field is reported, not
    // the missing footer.
    assert_eq!(
        qoi_decode(&header_bytes(0, 0, 5, 0)),
        Err(QoiError::InvalidChannelCount)
    );
    assert_eq!(
        qoi_decode(&header_bytes(0, 0, 4, 9)),
        Err(QoiError::InvalidColorspace)
    );
}

#[test]
fn decode_rejects_truncated_chunk() {
    // An RGB tag promising three more bytes, with only one present.
    let mut data = header_bytes(1, 1, 3, 0);
    data.extend_from_slice(&[0xFE, 9]);
    data.extend_from_slice(&footer_bytes());
    assert_eq!(qoi_decode(&data), Err(QoiError::TruncatedStream));
}

#[test]
fn byte_254_is_rgb_not_run() {
    // 0xFE has the RUN tag in its top two bits, but must be parsed as a
    // raw RGB chunk of one pixel, never as a run of 63 previous pixels.
    let mut data = header_bytes(1, 1, 3, 0);
    data.extend_from_slice(&[0xFE, 9, 8, 7]);
    data.extend_from_slice(&footer_bytes());
    let (decoded, _) = qoi_decode(&data).unwrap();
    assert_eq!(decoded, vec![9, 8, 7]);
}

#[test]
fn diff_chunk_exact_byte() {
    // (1,0,0) after (0,0,0,255): deltas (1,0,0) fit DIFF, so one byte:
    // tag 01, fields (1+2, 0+2, 0+2).
    let pixels: Vec<u8> = vec![1, 0, 0];
    let header = QoiHeader::new(1, 1, Channels::RGB, Colorspace::Linear);
    let encoded = qoi_encode(&pixels, &header);
    let mut expected = header_bytes(1, 1, 3, 0);
    expected.push(0b0100_0000 | (3 << 4) | (2 << 2) | 2);
    expected.extend_from_slice(&footer_bytes());
    assert_eq!(encoded, expected);
}

#[test]
fn index_chunk_reuses_cached_pixel() {
    // (1,0,0) is cached by its DIFF chunk; after an intervening pixel
    // its reappearance is an INDEX chunk naming slot hash((1,0,0,255)).
    let pixels: Vec<u8> = vec![1, 0, 0, 0, 0, 0, 1, 0, 0];
    let header = QoiHeader::new(3, 1, Channels::RGB, Colorspace::Linear);
    let encoded = qoi_encode(&pixels, &header);
    let mut expected = header_bytes(3, 1, 3, 0);
    expected.push(0b0100_0000 | (3 << 4) | (2 << 2) | 2); // DIFF +1,0,0
    expected.push(0b0100_0000 | (1 << 4) | (2 << 2) | 2); // DIFF -1,0,0
    expected.push(56); // INDEX, hash = (3*1 + 11*255) % 64
    expected.extend_from_slice(&footer_bytes());
    assert_eq!(encoded, expected);

    let (decoded, _) = qoi_decode(&encoded).unwrap();
    assert_eq!(decoded, pixels);
}

#[test]
fn rgb_chunk_for_large_deltas() {
    // (200,50,120) after (0,0,0,255): too far for DIFF or LUMA, so a
    // raw RGB chunk.
    let pixels: Vec<u8> = vec![200, 50, 120];
    let header = QoiHeader::new(1, 1, Channels::RGB, Colorspace::Linear);
    let encoded = qoi_encode(&pixels, &header);
    let mut expected = header_bytes(1, 1, 3, 0);
    expected.extend_from_slice(&[0xFE, 200, 50, 120]);
    expected.extend_from_slice(&footer_bytes());
    assert_eq!(encoded, expected);
}

#[test]
fn luma_chunk_round_trip() {
    // (20,16,10) after (0,0,0,255): dg=16, dr-dg=4, db-dg=-6 fit LUMA.
    let pixels: Vec<u8> = vec![20, 16, 10];
    let header = QoiHeader::new(1, 1, Channels::RGB, Colorspace::Linear);
    let encoded = qoi_encode(&pixels, &header);
    let mut expected = header_bytes(1, 1, 3, 0);
    expected.push(0b1000_0000 | (16 + 32));
    expected.push(((4 + 8) << 4) | (-6i32 + 8) as u8);
    expected.extend_from_slice(&footer_bytes());
    assert_eq!(encoded, expected);

    let (decoded, _) = qoi_decode(&encoded).unwrap();
    assert_eq!(decoded, pixels);
}

#[test]
fn round_trip_mixed_rgba_image() {
    // Runs, cache hits, DIFF, LUMA, RGB and RGBA chunks all mixed, with
    // varying alpha.
    let mut pixels: Vec<u8> = Vec::new();
    let samples: [[u8; 4]; 12] = [
        [0, 0, 0, 255],
        [0, 0, 0, 255],
        [1, 2, 1, 255],
        [250, 120, 3, 255],
        [250, 120, 3, 7],
        [1, 2, 1, 7],
        [1, 2, 1, 7],
        [30, 28, 25, 7],
        [30, 28, 25, 7],
        [0, 0, 0, 0],
        [255, 255, 255, 255],
        [0, 0, 0, 0],
    ];
    for s in samples {
        pixels.extend_from_slice(&s);
    }
    let header = QoiHeader::new(4, 3, Channels::RGBA, Colorspace::SRGB);
    let encoded = qoi_encode(&pixels, &header);
    let (decoded, desc) = qoi_decode(&encoded).unwrap();
    assert_eq!(decoded, pixels);
    assert_eq!(desc, header);
}

#[test]
fn round_trip_gradient_rgb_image() {
    let mut pixels: Vec<u8> = Vec::new();
    for i in 0..64u32 {
        let v = (i * 4) as u8;
        pixels.extend_from_slice(&[v, v.wrapping_add(3), v.wrapping_mul(7)]);
    }
    let header = QoiHeader::new(8, 8, Channels::RGB, Colorspace::Linear);
    let encoded = qoi_encode(&pixels, &header);
    let (decoded, desc) = qoi_decode(&encoded).unwrap();
    assert_eq!(decoded, pixels);
    assert_eq!(desc.width, 8);
    assert_eq!(desc.height, 8);
    assert_eq!(desc.channels, Channels::RGB);
}

#[test]
fn encoding_is_deterministic() {
    let mut pixels: Vec<u8> = Vec::new();
    for i in 0..300u32 {
        pixels.push((i % 251) as u8);
    }
    let header = QoiHeader::new(10, 10, Channels::RGB, Colorspace::SRGB);
    let first = qoi_encode(&pixels, &header);
    let second = qoi_encode(&pixels, &header);
    assert_eq!(first, second);
}

#[test]
fn empty_image_is_header_and_footer() {
    let header = QoiHeader::new(0, 0, Channels::RGB, Colorspace::Linear);
    let encoded = qoi_encode(&[], &header);
    let mut expected = header_bytes(0, 0, 3, 0);
    expected.extend_from_slice(&footer_bytes());
    assert_eq!(encoded, expected);
    let (decoded, desc) = qoi_decode(&encoded).unwrap();
    assert_eq!(decoded, Vec::<u8>::new());
    assert_eq!(desc, header);
}

#[test]
fn pixel_hash_formula() {
    // hash = (3r + 5g + 7b + 11a) mod 64
    assert_eq!(qoi_color_hash(QoiPixel::new(0, 0, 0, 0)), 0);
    assert_eq!(qoi_color_hash(QoiPixel::new(0, 0, 0, 255)), (11 * 255 % 64) as u8);
    assert_eq!(qoi_color_hash(QoiPixel::new(1, 0, 0, 255)), ((3 + 11 * 255) % 64) as u8);
    assert_eq!(qoi_color_hash(QoiPixel::new(10, 20, 30, 40)), ((30 + 100 + 210 + 440) % 64) as u8);
}

#[test]
fn header_fields_round_trip() {
    let pixels: Vec<u8> = vec![5, 5, 5];
    let header = QoiHeader::new(1, 1, Channels::RGB, Colorspace::SRGB);
    let encoded = qoi_encode(&pixels, &header);
    assert_eq!(&encoded[0..4], b"qoif");
    assert_eq!(encoded[13], 1);
    let (_, desc) = qoi_decode(&encoded).unwrap();
    assert_eq!(desc.colorspace, Colorspace::SRGB);
    assert_eq!(desc.channels, Channels::RGB);
}
