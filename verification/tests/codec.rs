use sfarctool::lzss::{compress_arr, compress_nlz10, EncodeError};
use sfarctool::nlz::{check_magic, decompress, DecodeError, InvalidMagicNumberError};

#[test]
fn round_trip_empty() {
    let out = compress_arr(b"").unwrap();
    assert_eq!(out, vec![0x10, 0, 0, 0]);
    assert_eq!(decompress(&out).unwrap(), Vec::<u8>::new());
}

#[test]
fn round_trip_single_byte() {
    let out = compress_arr(b"Q").unwrap();
    assert_eq!(out, vec![0x10, 1, 0, 0, 0x00, 0x51, 0xFF, 0xFF]);
    assert_eq!(decompress(&out).unwrap(), b"Q".to_vec());
}

#[test]
fn round_trip_repetitive() {
    // Twelve 'A's: two literals (the first candidate is closer than the
    // minimum displacement), then one self-overlapping match of length 10 at
    // displacement 2.
    let input = b"AAAAAAAAAAAA";
    let out = compress_arr(input).unwrap();
    assert_eq!(
        out,
        vec![0x10, 12, 0, 0, 0b00100000, 65, 65, 0x70, 0x01, 0xFF, 0xFF, 0xFF]
    );
    assert_eq!(decompress(&out).unwrap(), input.to_vec());
}

#[test]
fn round_trip_incompressible() {
    let input: Vec<u8> = (0u16..256).map(|b| b as u8).collect();
    let out = compress_arr(&input).unwrap();
    assert_eq!(decompress(&out).unwrap(), input);
}

#[test]
fn round_trip_mixed() {
    let mut input: Vec<u8> = Vec::new();
    for i in 0..2000u32 {
        input.push(((i * 7 + 3) % 251) as u8);
    }
    input.extend_from_slice(&[9; 300]);
    for i in 0..500u32 {
        input.push(((i * 13 + 1) % 17) as u8);
    }
    let out = compress_arr(&input).unwrap();
    assert_eq!(decompress(&out).unwrap(), input);
}

#[test]
fn no_repeats_gives_only_literals() {
    // No qualifying candidate anywhere, so the stream is one cleared flag
    // bit plus the raw byte per input byte.
    let out = compress_arr(b"abcdefgh").unwrap();
    assert_eq!(
        out,
        vec![0x10, 8, 0, 0, 0x00, 97, 98, 99, 100, 101, 102, 103, 104, 0xFF, 0xFF, 0xFF]
    );
}

#[test]
fn emitted_match_codes_stay_in_range() {
    // Walk the emitted stream of a long run: every match code must carry
    // 3 <= length <= 18 and 1 <= displacement <= 4096.
    let input = vec![66u8; 300];
    let out = compress_arr(&input).unwrap();
    let expected_len = 300usize;
    let mut produced = 0usize;
    let mut pos = 4usize;
    let mut saw_match = false;
    while produced < expected_len {
        let flag = out[pos];
        pos += 1;
        for bit in (0..8).rev() {
            if produced >= expected_len {
                break;
            }
            if (flag >> bit) & 1 == 1 {
                let b0 = out[pos] as usize;
                let b1 = out[pos + 1] as usize;
                pos += 2;
                let length = (b0 >> 4) + 3;
                let displacement = ((b0 & 0xF) << 8 | b1) + 1;
                assert!((3..=18).contains(&length));
                assert!((1..=4096).contains(&displacement));
                produced += length;
                saw_match = true;
            } else {
                pos += 1;
                produced += 1;
            }
        }
    }
    assert!(saw_match);
    assert_eq!(decompress(&out).unwrap(), input);
}

#[test]
fn self_overlap_copy() {
    // One literal 'A', then a match of length 9 whose stored displacement 0
    // reads back one byte: a periodic run of ten 'A's.
    let stream = vec![0x10, 10, 0, 0, 0b01000000, 65, 0x60, 0x00];
    assert_eq!(decompress(&stream).unwrap(), vec![65u8; 10]);
}

#[test]
fn tie_break_prefers_larger_displacement() {
    // At the third "abc" both earlier copies match with equal length 3; the
    // compressor keeps the candidate discovered first in the oldest-first
    // walk, the one at displacement 8 (stored as 7), not 4.
    let input = b"abc1abc2abc";
    let out = compress_arr(input).unwrap();
    assert_eq!(
        out,
        vec![
            0x10, 11, 0, 0, 0b00001010, 97, 98, 99, 49, 0x00, 0x03, 50, 0x00, 0x07, 0xFF, 0xFF
        ]
    );
    assert_eq!(decompress(&out).unwrap(), input.to_vec());
}

#[test]
fn tiered_header_embedded_size() {
    let stream = vec![0x11, 3, 0, 0, 0x00, 97, 98, 99];
    assert_eq!(decompress(&stream).unwrap(), b"abc".to_vec());
}

#[test]
fn tiered_header_zero_size_reads_extended_length() {
    // Size field zero in a tiered header: a second 4-byte little-endian
    // length follows before any flag byte.
    let stream = vec![0x11, 0, 0, 0, 3, 0, 0, 0, 0x00, 97, 98, 99];
    assert_eq!(decompress(&stream).unwrap(), b"abc".to_vec());
}

#[test]
fn tiered_header_zero_size_truncated() {
    let stream = vec![0x11, 0, 0, 0];
    assert_eq!(decompress(&stream), Err(DecodeError::TruncatedStream));
}

#[test]
fn tiered_three_byte_code() {
    // Leading nibble 0 selects the 3-byte code: length 0x11, displacement
    // stored 0, self-overlapping over a single 'Z'.
    let stream = vec![0x11, 18, 0, 0, 0b01000000, 90, 0x00, 0x00, 0x00];
    assert_eq!(decompress(&stream).unwrap(), vec![90u8; 18]);
}

#[test]
fn tiered_four_byte_code() {
    // Leading nibble 1 selects the 4-byte code: length 0x111, displacement
    // stored 0, self-overlapping over a single 'W'.
    let stream = vec![0x11, 0x12, 0x01, 0x00, 0b01000000, 87, 0x10, 0x00, 0x00, 0x00];
    assert_eq!(decompress(&stream).unwrap(), vec![87u8; 274]);
}

#[test]
fn tiered_two_byte_code() {
    // Leading nibble above 1 keeps the 2-byte code with length nibble + 1.
    let stream = vec![0x11, 10, 0, 0, 0b01000000, 88, 0x80, 0x00];
    assert_eq!(decompress(&stream).unwrap(), vec![88u8; 10]);
}

#[test]
fn invalid_magic_tag() {
    let stream = vec![0x12, 5, 0, 0, 0x00, 1, 2, 3, 4, 5];
    assert_eq!(decompress(&stream), Err(DecodeError::InvalidMagic));
}

#[test]
fn magic_tag_check() {
    assert_eq!(check_magic(0x10), Ok(false));
    assert_eq!(check_magic(0x11), Ok(true));
    assert_eq!(check_magic(0x12), Err(InvalidMagicNumberError));
    assert_eq!(check_magic(0x00), Err(InvalidMagicNumberError));
}

#[test]
fn truncated_header() {
    let stream = vec![0x10, 0];
    assert_eq!(decompress(&stream), Err(DecodeError::TruncatedStream));
}

#[test]
fn truncated_mid_match_code() {
    let stream = vec![0x10, 10, 0, 0, 0b10000000, 0x00];
    assert_eq!(decompress(&stream), Err(DecodeError::TruncatedStream));
}

#[test]
fn truncated_after_literal() {
    let stream = vec![0x10, 2, 0, 0, 0x00, 65];
    assert_eq!(decompress(&stream), Err(DecodeError::TruncatedStream));
}

#[test]
fn back_reference_before_start() {
    // The very first token claims a match: there is no output to copy from.
    let stream = vec![0x10, 5, 0, 0, 0b10000000, 0x00, 0x00];
    assert_eq!(decompress(&stream), Err(DecodeError::InvalidBackReference));
}

#[test]
fn input_too_large_for_header() {
    let input = vec![0u8; 0x1000000];
    assert_eq!(compress_arr(&input), Err(EncodeError::InputTooLarge));
    assert_eq!(compress_nlz10(&input), Err(EncodeError::InputTooLarge));
}

#[test]
fn largest_header_size_round_trips() {
    let input = vec![7u8; 0xFFFFFF & 0x3FFF];
    let out = compress_nlz10(&input).unwrap();
    assert_eq!(out[0], 0x10);
    assert_eq!(
        out[1] as usize + out[2] as usize * 256 + out[3] as usize * 65536,
        input.len()
    );
    assert_eq!(decompress(&out).unwrap(), input);
}

#[test]
fn padding_aligns_stream_to_four_bytes() {
    for n in 0..20usize {
        let input: Vec<u8> = (0..n).map(|i| (i * 37 + 11) as u8).collect();
        let out = compress_arr(&input).unwrap();
        assert_eq!((out.len() - 4) % 4, 0);
        assert_eq!(decompress(&out).unwrap(), input);
    }
}
