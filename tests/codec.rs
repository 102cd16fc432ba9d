use rustqoi::header::{encode_header, try_decode_header};
use rustqoi::pixel::{Pixel, QOI_OP_RUN};
use rustqoi::runner::Runner;
use rustqoi::{decode, encode, DecodeError};

#[test]
fn test_encode_2x2() {
    let black: [u8; 4] = [0, 0, 0, 255];
    let white: [u8; 4] = [255, 255, 255, 255];
    let image = [[white, black], [black, white]].concat().concat();

    let expected = vec![
        113, 111, 105, 102, 0, 0, 0, 2, 0, 0, 0, 2, 4, 1, 85, 127, 192, 38, 0, 0, 0, 0, 0, 0, 0,
        1,
    ];

    let encoded = encode(&image, 2, 2, true, true);
    assert_eq!(encoded, Ok(expected));
}

#[test]
fn test_encode_162_run() {
    let black: [u8; 4] = [0, 0, 0, 255];
    let len = 162;
    let image = black.repeat(len);

    let expected = vec![
        113,
        111,
        105,
        102,
        0,
        0,
        0,
        len as u8,
        0,
        0,
        0,
        1,
        4,
        1,
        QOI_OP_RUN | 61,
        QOI_OP_RUN | 61,
        QOI_OP_RUN | 37,
        0,
        0,
        0,
        0,
        0,
        0,
        0,
        1,
    ];

    let encoded = encode(&image, len, 1, true, true);
    assert_eq!(encoded, Ok(expected));
}

#[test]
fn test_decode_162_run() {
    let black: [u8; 4] = [0, 0, 0, 255];
    let len = 162;
    let image = black.repeat(len);

    let encoded = vec![
        113,
        111,
        105,
        102,
        0,
        0,
        0,
        len as u8,
        0,
        0,
        0,
        1,
        4,
        1,
        QOI_OP_RUN | 61,
        QOI_OP_RUN | 61,
        QOI_OP_RUN | 37,
        0,
        0,
        0,
        0,
        0,
        0,
        0,
        1,
    ];
    let decoded = decode(&encoded);
    assert_eq!(decoded, Ok((image, len as u32, 1, true, true)));
}

#[test]
fn test_encode_empty() {
    let empty_image_encoded = vec![
        113, 111, 105, 102, 0, 0, 0, 0, 0, 0, 0, 0, 4, 1, 0, 0, 0, 0, 0, 0, 0, 1,
    ];
    let encoded = encode(&[], 0, 0, true, true);
    assert_eq!(encoded, Ok(empty_image_encoded));
}

#[test]
fn test_decode_empty() {
    let data = vec![
        113, 111, 105, 102, 0, 0, 0, 0, 0, 0, 0, 0, 4, 1, 0, 0, 0, 0, 0, 0, 0, 1,
    ];

    let decoded = decode(&data);
    assert_eq!(decoded, Ok((vec![], 0, 0, true, true)));
}

#[test]
fn test_decode_2x2() {
    let data = vec![
        113, 111, 105, 102, 0, 0, 0, 2, 0, 0, 0, 2, 4, 1, 85, 127, 192, 38, 0, 0, 0, 0, 0, 0, 0,
        1,
    ];

    let black: [u8; 4] = [0, 0, 0, 255];
    let white: [u8; 4] = [255, 255, 255, 255];
    let expected = [[white, black], [black, white]].concat().concat();

    let decoded = decode(&data);
    assert_eq!(decoded, Ok((expected, 2, 2, true, true)));
}

#[test]
fn test_encode_decode_empty() {
    let encoded = encode(&[], 0, 0, true, true);
    let decoded = decode(&encoded.unwrap());
    assert_eq!(decoded.unwrap().0, vec![]);
}

#[test]
fn test_encode_decode_2x2() {
    let encoded = encode(&[], 0, 0, true, true);
    let decoded = decode(&encoded.unwrap());
    assert_eq!(decoded.unwrap().0, vec![]);
}

#[test]
fn test_encode_decode_2x2_luma() {
    let black: [u8; 4] = [0, 0, 0, 255];
    let white: [u8; 4] = [255, 255, 255, 255];
    let grey: [u8; 4] = [9, 10, 11, 255];
    let image = [[white, black], [grey, white]].concat().concat();

    let encoded = encode(&image, 2, 2, true, true);
    let decoded = decode(&encoded.unwrap());
    assert_eq!(decoded.unwrap().0, image);
}

#[test]
fn test_encode_decode_2x2_rgb() {
    let black: [u8; 4] = [0, 0, 0, 255];
    let red: [u8; 4] = [155, 0, 0, 255];
    let white: [u8; 4] = [255, 255, 255, 255];
    let grey: [u8; 4] = [10, 10, 10, 255];
    let image = [[red, black], [grey, white]].concat().concat();

    let encoded = encode(&image, 2, 2, true, true);
    let decoded = decode(&encoded.unwrap());
    assert_eq!(decoded.unwrap().0, image);
}

#[test]
fn test_encode_decode_2x2_run() {
    let black: [u8; 4] = [0, 0, 0, 255];
    let white: [u8; 4] = [255, 255, 255, 255];
    let image = [[black, black], [white, white]].concat().concat();

    let encoded = encode(&image, 2, 2, true, true);
    let decoded = decode(&encoded.unwrap());
    assert_eq!(decoded.unwrap().0, image);
}

#[test]
fn test_encode_decode_2x2_alpha() {
    let black: [u8; 4] = [0, 0, 0, 255];
    let white: [u8; 4] = [255, 255, 255, 255];
    let transparent: [u8; 4] = [0, 0, 0, 0];
    let image = [[white, black], [transparent, white]].concat().concat();

    let encoded = encode(&image, 2, 2, true, true);
    let decoded = decode(&encoded.unwrap());
    assert_eq!(decoded.unwrap().0, image);
}

const HEADER_2X1_RGBA: [u8; 14] = [113, 111, 105, 102, 0, 0, 0, 2, 0, 0, 0, 1, 4, 0];
const FOOTER: [u8; 8] = [0, 0, 0, 0, 0, 0, 0, 1];

fn stream(header: &[u8], ops: &[u8]) -> Vec<u8> {
    [header, ops, &FOOTER].concat()
}

#[test]
fn round_trip_rgb_image() {
    let image: Vec<u8> = vec![
        10, 20, 30, 10, 20, 30, 200, 100, 50, 201, 101, 51, 0, 0, 0, 10, 20, 30,
    ];
    let encoded = encode(&image, 3, 2, false, false).unwrap();
    assert_eq!(encoded[12], 3);
    assert_eq!(encoded[13], 0);
    let decoded = decode(&encoded).unwrap();
    assert_eq!(decoded, (image, 3, 2, false, false));
}

#[test]
fn round_trip_rgba_with_every_opcode() {
    let mut image: Vec<u8> = Vec::new();
    let pixels: [[u8; 4]; 9] = [
        [10, 20, 30, 255],
        [10, 20, 30, 255],
        [9, 21, 29, 255],
        [30, 40, 45, 255],
        [250, 1, 128, 255],
        [250, 1, 128, 7],
        [10, 20, 30, 255],
        [10, 20, 30, 255],
        [0, 0, 0, 0],
    ];
    for p in pixels.iter() {
        image.extend_from_slice(p);
    }
    let encoded = encode(&image, 9, 1, true, true).unwrap();
    let decoded = decode(&encoded).unwrap();
    assert_eq!(decoded, (image, 9, 1, true, true));
}

#[test]
fn reencoding_a_decoded_image_gives_the_same_stream() {
    let image: Vec<u8> = vec![
        1, 2, 3, 4, 1, 2, 3, 4, 90, 80, 70, 4, 89, 81, 71, 4, 255, 255, 255, 255, 1, 2, 3, 4,
    ];
    let encoded = encode(&image, 2, 3, true, false).unwrap();
    let (pixels, w, h, alpha, s_rgb) = decode(&encoded).unwrap();
    let again = encode(&pixels, w as usize, h as usize, alpha, s_rgb).unwrap();
    assert_eq!(again, encoded);
}

#[test]
fn header_round_trip() {
    let header = encode_header(70000, 3, false, true);
    assert_eq!(
        header,
        [113, 111, 105, 102, 0, 1, 0x11, 0x70, 0, 0, 0, 3, 3, 1]
    );
    assert_eq!(try_decode_header(&header), Ok((70000, 3, false, true)));
    let header = encode_header(0xffff_ffff, 0x0102_0304, true, false);
    assert_eq!(try_decode_header(&header), Ok((0xffff_ffff, 0x0102_0304, true, false)));
}

#[test]
fn short_stream_is_truncated_input() {
    let data = vec![113, 111, 105, 102, 0, 0, 0, 0, 0, 0, 0, 0, 4, 1, 0, 0, 0, 0, 0, 0, 1];
    assert_eq!(decode(&data), Err(DecodeError::TruncatedInput));
    assert_eq!(decode(&[]), Err(DecodeError::TruncatedInput));
}

#[test]
fn wrong_tag_is_missing_magic() {
    let data = vec![
        113, 111, 105, 103, 0, 0, 0, 0, 0, 0, 0, 0, 4, 1, 0, 0, 0, 0, 0, 0, 0, 1,
    ];
    assert_eq!(decode(&data), Err(DecodeError::MissingMagic));
    assert_eq!(try_decode_header(&data), Err(DecodeError::MissingMagic));
}

#[test]
fn opcode_cut_short_at_the_end_is_dropped() {
    let data = stream(&HEADER_2X1_RGBA, &[85, 0xfe, 1, 2]);
    let decoded = decode(&data).unwrap();
    assert_eq!(decoded.0, vec![255, 255, 255, 255]);
}

#[test]
fn empty_image_is_header_and_footer() {
    let encoded = encode(&[], 0, 0, false, false).unwrap();
    assert_eq!(encoded.len(), 22);
    assert_eq!(
        encoded,
        vec![113, 111, 105, 102, 0, 0, 0, 0, 0, 0, 0, 0, 3, 0, 0, 0, 0, 0, 0, 0, 0, 1]
    );
    assert_eq!(decode(&encoded), Ok((vec![], 0, 0, false, false)));
}

#[test]
fn run_longer_than_62_is_split() {
    let image = [7u8, 7, 7, 255].repeat(126);
    let encoded = encode(&image, 126, 1, true, false).unwrap();
    let ops = &encoded[14..encoded.len() - 8];
    assert_eq!(ops, [0x80 | 39, 8 << 4 | 8, QOI_OP_RUN | 61, QOI_OP_RUN | 61, QOI_OP_RUN]);
    assert_eq!(decode(&encoded).unwrap().0, image);
}

#[test]
fn change_of_minus_two_takes_small_diff() {
    let image: Vec<u8> = vec![10, 10, 10, 255, 8, 8, 8, 255];
    let encoded = encode(&image, 2, 1, true, false).unwrap();
    assert_eq!(encoded, stream(&HEADER_2X1_RGBA, &[170, 136, 0x40]));
}

#[test]
fn change_of_plus_two_does_not_fit_small_diff() {
    let image: Vec<u8> = vec![10, 10, 10, 255, 12, 12, 12, 255];
    let encoded = encode(&image, 2, 1, true, false).unwrap();
    assert_eq!(encoded, stream(&HEADER_2X1_RGBA, &[170, 136, 162, 136]));
}

#[test]
fn returning_pixel_takes_cache_index() {
    let a: [u8; 4] = [10, 20, 30, 255];
    let b: [u8; 4] = [200, 100, 50, 255];
    let image = [a, b, a].concat();
    let encoded = encode(&image, 3, 1, true, false).unwrap();
    let ops = &encoded[14..encoded.len() - 8];
    assert_eq!(ops[ops.len() - 1], 9);
    assert_eq!(decode(&encoded).unwrap().0, image);
}

#[test]
fn alpha_change_takes_rgba() {
    let white: [u8; 4] = [255, 255, 255, 255];
    let clear_white: [u8; 4] = [255, 255, 255, 0];
    let image = [white, clear_white].concat();
    let encoded = encode(&image, 2, 1, true, false).unwrap();
    assert_eq!(encoded, stream(&HEADER_2X1_RGBA, &[85, 0xff, 255, 255, 255, 0]));
}

#[test]
fn transparent_black_is_already_in_the_cache() {
    let white: [u8; 4] = [255, 255, 255, 255];
    let transparent: [u8; 4] = [0, 0, 0, 0];
    let image = [white, transparent].concat();
    let encoded = encode(&image, 2, 1, true, false).unwrap();
    assert_eq!(encoded, stream(&HEADER_2X1_RGBA, &[85, 0]));
}

#[test]
fn pixel_arithmetic_wraps() {
    let p = Pixel { r: 1, g: 200, b: 0, a: 255 };
    let q = Pixel { r: 2, g: 100, b: 255, a: 1 };
    assert_eq!(p - q, Pixel { r: 255, g: 100, b: 1, a: 254 });
    assert_eq!(p + q, Pixel { r: 3, g: 44, b: 255, a: 0 });
    assert_eq!(Pixel::default(), Pixel { r: 0, g: 0, b: 0, a: 255 });
}

#[test]
fn delta_classification() {
    let d = Pixel { r: 254, g: 1, b: 0, a: 0 };
    assert_eq!(d.diff_offset(), Some(0x40 | 0 << 4 | 3 << 2 | 2));
    assert_eq!(Pixel { r: 0, g: 0, b: 0, a: 1 }.diff_offset(), None);
    let d = Pixel { r: 20, g: 15, b: 8, a: 0 };
    assert_eq!(d.diff_offset(), None);
    assert_eq!(d.luma_diff_offset(), Some((0x80 | 47, 13 << 4 | 1)));
    assert_eq!(Pixel { r: 20, g: 15, b: 8, a: 3 }.luma_diff_offset(), None);
    assert_eq!(Pixel { r: 0, g: 40, b: 0, a: 0 }.luma_diff_offset(), None);
}

#[test]
fn delta_decoding_inverts_classification() {
    let prev = Pixel { r: 100, g: 50, b: 3, a: 9 };
    assert_eq!(
        prev.decode_diff(0 << 4 | 3 << 2 | 2),
        Pixel { r: 98, g: 51, b: 3, a: 9 }
    );
    assert_eq!(
        prev.decode_luma_diff(47, 13 << 4 | 1),
        Pixel { r: 120, g: 65, b: 11, a: 9 }
    );
    assert_eq!(Pixel::from_diff(0b111001), Pixel { r: 3, g: 2, b: 1, a: 0 });
}

#[test]
fn cache_hash_and_slots() {
    let white = Pixel { r: 255, g: 255, b: 255, a: 255 };
    assert_eq!(Runner::hash(&white), 38);
    assert_eq!(Runner::hash(&Pixel { r: 0, g: 0, b: 0, a: 255 }), 53);
    let mut runner = Runner::new();
    assert_eq!(runner.match_or_update(&Pixel::zero()), Some(0));
    assert_eq!(runner.match_or_update(&white), None);
    assert_eq!(runner.match_or_update(&white), Some(38));
    runner.update(Pixel { r: 1, g: 0, b: 0, a: 0 });
    assert_eq!(runner.memory[3], Pixel { r: 1, g: 0, b: 0, a: 0 });
}

#[test]
fn pixel_bytes_and_buffers() {
    let p = Pixel { r: 1, g: 2, b: 3, a: 4 };
    let mut v = vec![9];
    p.copy_to_vec(&mut v);
    p.copy_rgb_to_vec(&mut v);
    assert_eq!(v, vec![9, 1, 2, 3, 4, 1, 2, 3]);
    assert_eq!(Pixel::read_at(&[0, 5, 6, 7, 8], 1, true), Pixel { r: 5, g: 6, b: 7, a: 8 });
    assert_eq!(Pixel::read_at(&[0, 5, 6, 7, 8], 1, false), Pixel { r: 5, g: 6, b: 7, a: 0 });
    assert_eq!(p.update_rgb(7, 8, 9), Pixel { r: 7, g: 8, b: 9, a: 4 });
    assert_eq!(p.update_rgba(7, 8, 9, 10), Pixel { r: 7, g: 8, b: 9, a: 10 });
}
