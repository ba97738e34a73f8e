use discrete_transforms::dct_2d::Dct2D;
use rsteglib::{
    capacity, decode_message, dequantize, embed_bit, encode_message, extract_bit, tile, StegError,
    BLOCK_LEN, QUANT_TABLE,
};

fn flat_grid(width: usize, height: usize, value: u8) -> Vec<u8> {
    vec![value; width * height * 3]
}

fn gradient_grid(width: usize, height: usize) -> Vec<u8> {
    let mut pixels = Vec::with_capacity(width * height * 3);
    for y in 0..height {
        for x in 0..width {
            pixels.push((60 + (x * 3 + y) % 120) as u8);
            pixels.push((80 + (x + 2 * y) % 100) as u8);
            pixels.push((70 + (x * 5 + y * 3) % 110) as u8);
        }
    }
    pixels
}

/// A requantized queue equal to the queue itself: a lossless round trip.
fn lossless(pixels: &Vec<u8>, width: usize, height: usize) -> Vec<i32> {
    match tile(pixels, width, height) {
        Ok(queue) => queue.iter().map(|&s| s as i32).collect(),
        Err(_) => Vec::new(),
    }
}

/// The requantized queue computed with the floating-point transform.
fn lossy(pixels: &Vec<u8>, width: usize, height: usize) -> Vec<i32> {
    let queue = tile(pixels, width, height).unwrap();
    let mut out = Vec::with_capacity(queue.len());
    let mut dct = Dct2D::new();
    for block in queue.chunks(BLOCK_LEN) {
        dct.set_input(block.iter().map(|&s| s as f64).collect());
        let quantized: Vec<i32> = dct
            .forward()
            .iter()
            .enumerate()
            .map(|(i, c)| (c / QUANT_TABLE[i] as f64).round() as i32)
            .collect();
        let dequantized = dequantize(&quantized);
        dct.set_input(dequantized.iter().map(|&c| c as f64).collect());
        out.extend(dct.inverse().iter().map(|s| s.round() as i32));
    }
    out
}

fn sample(pixels: &[u8], width: usize, x: usize, y: usize, channel: usize) -> u8 {
    pixels[(y * width + x) * 3 + channel]
}

#[test]
fn embed_sets_parity() {
    assert_eq!(embed_bit(5, 0), 4);
    assert_eq!(embed_bit(4, 1), 5);
    assert_eq!(embed_bit(4, 0), 4);
    assert_eq!(embed_bit(5, 1), 5);
    assert_eq!(embed_bit(-3, 0), -4);
    assert_eq!(embed_bit(-4, 1), -3);
}

#[test]
fn embed_is_idempotent() {
    for c in -20i64..20 {
        for bit in 0u8..2 {
            let once = embed_bit(c, bit);
            assert_eq!(embed_bit(once, bit), once);
            assert_eq!(extract_bit(once), bit);
        }
    }
}

#[test]
fn extract_reads_parity() {
    assert_eq!(extract_bit(64), 0);
    assert_eq!(extract_bit(65), 1);
    assert_eq!(extract_bit(-3), 1);
    assert_eq!(extract_bit(-4), 0);
}

#[test]
fn dequantize_scales_by_table() {
    let quantized: Vec<i32> = (0..130).map(|i| i - 65).collect();
    let out = dequantize(&quantized);

    assert_eq!(out.len(), 130);
    assert_eq!(out[0], -65 * 16);
    assert_eq!(out[1], -64 * 11);
    assert_eq!(out[63], -2 * 99);
    assert_eq!(out[64], -1 * 16);
    assert_eq!(out[70], 5 * 51);
    assert_eq!(out[129], 64 * 11);
}

#[test]
fn encode_decode_letter_h() {
    let (width, height) = (16, 16);
    let pixels = flat_grid(width, height, 128);
    let requantized = lossless(&pixels, width, height);

    let encoded = encode_message(&pixels, width, height, b"h", &requantized).unwrap();
    assert!(!encoded.clamped);

    let decoded = decode_message(&encoded.pixels, width, height, 8).unwrap();
    assert_eq!(decoded, vec![0x68]);
}

#[test]
fn encode_shifts_blocks_by_dc_step() {
    let (width, height) = (16, 16);
    let pixels = flat_grid(width, height, 128);
    let requantized = lossless(&pixels, width, height);

    // quantized DC of a flat 128 block: 128 * 64 / 8 / 16 = 64, even.
    // bits of 'h': 0 1 1 | 0 1 0 | 0 0 into blocks R G B of tiles (0,0), (0,1), (1,0)
    let out = encode_message(&pixels, width, height, b"h", &requantized).unwrap().pixels;

    assert_eq!([0, 1, 2].map(|c| sample(&out, width, 0, 0, c)), [128, 130, 130]);
    assert_eq!([0, 1, 2].map(|c| sample(&out, width, 7, 7, c)), [128, 130, 130]);
    assert_eq!([0, 1, 2].map(|c| sample(&out, width, 8, 0, c)), [128, 130, 128]);
    assert_eq!([0, 1, 2].map(|c| sample(&out, width, 0, 8, c)), [128, 128, 128]);
    assert_eq!([0, 1, 2].map(|c| sample(&out, width, 15, 15, c)), [128, 128, 128]);
}

#[test]
fn encode_lowers_odd_coefficient_for_zero_bit() {
    let (width, height) = (16, 16);
    let pixels = flat_grid(width, height, 130);
    let requantized = lossless(&pixels, width, height);

    // quantized DC of a flat 130 block is 65, odd: each 0 bit moves it to 64.
    assert_eq!(decode_message(&pixels, width, height, 3).unwrap(), vec![0b111]);

    let out = encode_message(&pixels, width, height, &[0], &requantized).unwrap().pixels;
    assert_eq!([0, 1, 2].map(|c| sample(&out, width, 0, 0, c)), [128, 128, 128]);
    assert_eq!([0, 1, 2].map(|c| sample(&out, width, 0, 8, c)), [128, 128, 130]);
    assert_eq!([0, 1, 2].map(|c| sample(&out, width, 15, 15, c)), [130, 130, 130]);
    assert_eq!(decode_message(&out, width, height, 8).unwrap(), vec![0]);
}

#[test]
fn decode_of_encode_with_transform() {
    let (width, height) = (32, 32);
    let pixels = gradient_grid(width, height);
    let requantized = lossy(&pixels, width, height);
    let message = b"hi!".to_vec();

    let encoded = encode_message(&pixels, width, height, &message, &requantized).unwrap();
    assert!(!encoded.clamped);
    assert_ne!(encoded.pixels, pixels);

    let decoded = decode_message(&encoded.pixels, width, height, message.len() * 8).unwrap();
    assert_eq!(decoded, message);
}

#[test]
fn decode_of_encode_lossless() {
    let (width, height) = (64, 64);
    let pixels = gradient_grid(width, height);
    let requantized = lossless(&pixels, width, height);
    let message = b"a longer hidden message".to_vec();
    assert!(message.len() * 8 <= capacity(width, height));

    let encoded = encode_message(&pixels, width, height, &message, &requantized).unwrap();
    assert!(!encoded.clamped);

    let decoded = decode_message(&encoded.pixels, width, height, message.len() * 8).unwrap();
    assert_eq!(decoded, message);
}

#[test]
fn empty_message_leaves_pixels() {
    let (width, height) = (24, 16);
    let pixels = gradient_grid(width, height);
    let requantized = lossy(&pixels, width, height);

    let encoded = encode_message(&pixels, width, height, &[], &requantized).unwrap();
    assert_eq!(encoded.pixels, pixels);
    assert!(!encoded.clamped);
}

#[test]
fn capacity_boundary() {
    // 8 tiles × 1 tile × 3 channels = 24 bits = 3 bytes
    let (width, height) = (64, 8);
    let pixels = gradient_grid(width, height);
    let requantized = lossless(&pixels, width, height);
    assert_eq!(capacity(width, height), 24);

    let encoded = encode_message(&pixels, width, height, b"abc", &requantized).unwrap();
    assert_eq!(decode_message(&encoded.pixels, width, height, 24).unwrap(), b"abc".to_vec());

    let refused = encode_message(&pixels, width, height, b"abcd", &requantized);
    assert_eq!(refused.err(), Some(StegError::CapacityExceeded));
}

#[test]
fn encode_rejects_small_image() {
    let pixels = flat_grid(8, 7, 100);
    let result = encode_message(&pixels, 8, 7, b"", &Vec::new());

    assert_eq!(result.err(), Some(StegError::ImageTooSmall));
}

#[test]
fn decode_rejects_small_image() {
    let pixels = flat_grid(5, 40, 100);

    assert_eq!(decode_message(&pixels, 5, 40, 0), Err(StegError::ImageTooSmall));
}

#[test]
fn truncated_decode() {
    let (width, height) = (17, 23);
    let pixels = gradient_grid(width, height);
    assert_eq!(capacity(width, height), 12);

    assert_eq!(decode_message(&pixels, width, height, 13), Err(StegError::TruncatedPayload));
    assert_eq!(decode_message(&pixels, width, height, 12).map(|m| m.len()), Ok(2));
}

#[test]
fn clamping_is_reported() {
    // a white block has quantized DC 128; writing a 1 would lift every sample to 257
    let (width, height) = (24, 8);
    let pixels = flat_grid(width, height, 255);
    let requantized = lossless(&pixels, width, height);

    let encoded = encode_message(&pixels, width, height, &[0xff], &requantized).unwrap();
    assert!(encoded.clamped);
    assert_eq!(encoded.pixels, pixels);
    assert_eq!(decode_message(&encoded.pixels, width, height, 8).unwrap(), vec![0]);
}
