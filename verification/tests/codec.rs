use motologo::error::Error;
use motologo::pixel::{Pixel, PixelGrid};
use motologo::rle::{decode_image, encode_image, tokenize, Token};

fn px(r: u8, g: u8, b: u8) -> Pixel {
    Pixel { r, g, b }
}

fn uniform_grid(width: u32, height: u32, p: Pixel) -> PixelGrid {
    PixelGrid::filled(width, height, p)
}

#[test]
fn one_by_one_encodes_to_single_raw_token() {
    let g = PixelGrid { width: 1, height: 1, pixels: vec![px(10, 20, 30)] };
    let tokens = tokenize(&g.pixels);
    assert_eq!(tokens.len(), 1);
    match &tokens[0] {
        Token::Raw(v) => assert_eq!(v.len(), 1),
        Token::Repeat(_, _) => panic!("expected a raw token"),
    }
    let bytes = encode_image(&g).unwrap();
    // magic, dims 1x1 big-endian, raw token of length 1, pixel as B,G,R
    let expected = [
        0x4D, 0x6F, 0x74, 0x6F, 0x52, 0x75, 0x6E, 0x00, 0, 1, 0, 1, 0x00, 0x01, 30, 20, 10,
    ];
    assert_eq!(bytes, expected);
    let back = decode_image(&bytes).unwrap();
    assert_eq!(back, g);
}

#[test]
fn long_uniform_run_chunks_into_repeat_tokens() {
    let c = px(7, 8, 9);
    let g = uniform_grid(10000, 1, c);
    let tokens = tokenize(&g.pixels);
    assert_eq!(tokens.len(), 3);
    let lens: Vec<u16> = tokens
        .iter()
        .map(|t| match t {
            Token::Repeat(p, n) => {
                assert_eq!(*p, c);
                *n
            }
            Token::Raw(_) => panic!("expected repeat tokens"),
        })
        .collect();
    assert_eq!(lens, vec![4095, 4095, 1810]);
    let bytes = encode_image(&g).unwrap();
    let back = decode_image(&bytes).unwrap();
    assert_eq!(back.width, 10000);
    assert_eq!(back.height, 1);
    assert!(back.pixels.iter().all(|p| *p == c));
}

#[test]
fn long_distinct_run_chunks_into_raw_tokens() {
    let mut pixels = Vec::new();
    for i in 0..5000usize {
        pixels.push(px((i % 256) as u8, ((i / 256) % 256) as u8, 37));
    }
    let g = PixelGrid { width: 5000, height: 1, pixels };
    let tokens = tokenize(&g.pixels);
    assert_eq!(tokens.len(), 2);
    match (&tokens[0], &tokens[1]) {
        (Token::Raw(a), Token::Raw(b)) => {
            assert_eq!(a.len(), 4095);
            assert_eq!(b.len(), 905);
        }
        _ => panic!("expected raw tokens"),
    }
    let bytes = encode_image(&g).unwrap();
    let back = decode_image(&bytes).unwrap();
    assert_eq!(back, g);
}

#[test]
fn every_token_length_is_in_range() {
    // mixed runs: alternating stretches of repeats and distinct pixels
    let mut pixels = Vec::new();
    for block in 0..6usize {
        if block % 2 == 0 {
            for _ in 0..5000 {
                pixels.push(px(block as u8, 0, 0));
            }
        } else {
            for i in 0..4200usize {
                pixels.push(px((i % 251) as u8, (i % 7) as u8, block as u8));
            }
        }
    }
    let total = pixels.len();
    let g = PixelGrid { width: total as u32, height: 1, pixels };
    let tokens = tokenize(&g.pixels);
    let mut covered = 0usize;
    for t in &tokens {
        let l = match t {
            Token::Raw(v) => v.len(),
            Token::Repeat(_, n) => *n as usize,
        };
        assert!(1 <= l && l <= 4095);
        covered += l;
    }
    assert_eq!(covered, total);
    let bytes = encode_image(&g).unwrap();
    let back = decode_image(&bytes).unwrap();
    assert_eq!(back, g);
}

#[test]
fn runs_span_row_boundaries() {
    // a 2x2 single-color image is one repeat run of 4, across both rows
    let c = px(1, 2, 3);
    let g = uniform_grid(2, 2, c);
    let tokens = tokenize(&g.pixels);
    assert_eq!(tokens.len(), 1);
    match &tokens[0] {
        Token::Repeat(p, n) => {
            assert_eq!(*p, c);
            assert_eq!(*n, 4);
        }
        Token::Raw(_) => panic!("expected a repeat token"),
    }
    let bytes = encode_image(&g).unwrap();
    let back = decode_image(&bytes).unwrap();
    assert_eq!(back, g);
}

#[test]
fn mixed_image_round_trips_exactly() {
    let pixels = vec![
        px(1, 1, 1),
        px(2, 2, 2),
        px(3, 3, 3),
        px(3, 3, 3),
        px(3, 3, 3),
        px(9, 0, 0),
    ];
    let g = PixelGrid { width: 3, height: 2, pixels };
    let bytes = encode_image(&g).unwrap();
    let back = decode_image(&bytes).unwrap();
    assert_eq!(back, g);
}

#[test]
fn repeat_token_header_formula() {
    // 300 = 0x12C: byte0 = (8 << 4) | 0x1, byte1 = 0x2C
    let c = px(5, 6, 7);
    let g = uniform_grid(300, 1, c);
    let bytes = encode_image(&g).unwrap();
    assert_eq!(bytes[12], 0x81);
    assert_eq!(bytes[13], 0x2C);
    // pixel stored B, G, R
    assert_eq!(&bytes[14..17], &[7, 6, 5]);
    assert_eq!(bytes.len(), 17);
}

#[test]
fn dimension_overflow_is_reported() {
    let g = uniform_grid(70000, 1, px(0, 0, 0));
    assert_eq!(encode_image(&g), Err(Error::DimensionOverflow));
}

#[test]
fn image_bad_magic_is_reported() {
    let mut bytes = vec![0u8; 17];
    bytes[0] = b'X';
    assert_eq!(decode_image(&bytes), Err(Error::BadMagic));
}

#[test]
fn image_unknown_token_mode_is_reported() {
    let bytes = vec![
        0x4D, 0x6F, 0x74, 0x6F, 0x52, 0x75, 0x6E, 0x00, 0, 1, 0, 1, 0x20, 0x01, 1, 2, 3,
    ];
    assert_eq!(decode_image(&bytes), Err(Error::UnknownTokenMode));
}

#[test]
fn image_token_overrun_is_reported() {
    // 1x1 image but the raw token claims 2 pixels
    let bytes = vec![
        0x4D, 0x6F, 0x74, 0x6F, 0x52, 0x75, 0x6E, 0x00, 0, 1, 0, 1, 0x00, 0x02, 1, 2, 3, 4, 5, 6,
    ];
    assert_eq!(decode_image(&bytes), Err(Error::TokenOverrun));
}

#[test]
fn image_cut_payload_is_reported() {
    // 2x1 image, raw token of 2 pixels, but only one pixel present
    let bytes = vec![
        0x4D, 0x6F, 0x74, 0x6F, 0x52, 0x75, 0x6E, 0x00, 0, 2, 0, 1, 0x00, 0x02, 1, 2, 3,
    ];
    assert_eq!(decode_image(&bytes), Err(Error::TruncatedArchive));
    let short = vec![0x4D, 0x6F, 0x74];
    assert_eq!(decode_image(&short), Err(Error::TruncatedArchive));
}

#[test]
fn empty_grid_round_trips() {
    let g = PixelGrid { width: 0, height: 0, pixels: Vec::new() };
    let bytes = encode_image(&g).unwrap();
    assert_eq!(bytes.len(), 12);
    let back = decode_image(&bytes).unwrap();
    assert_eq!(back, g);
}
