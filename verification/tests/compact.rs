use generic_block::compact::{decode_compact, encode_compact_to};
use parity_scale_codec::{Decode as ScaleDecode, Encode as ScaleEncode};

fn compact_bytes(n: u32) -> Vec<u8> {
    let mut out = Vec::new();
    encode_compact_to(n, &mut out);
    out
}

#[test]
fn compact_one_byte_form() {
    assert_eq!(compact_bytes(0), vec![0x00]);
    assert_eq!(compact_bytes(1), vec![0x04]);
    assert_eq!(compact_bytes(42), vec![0xa8]);
    assert_eq!(compact_bytes(63), vec![0xfc]);
}

#[test]
fn compact_two_byte_form() {
    assert_eq!(compact_bytes(64), vec![0x01, 0x01]);
    assert_eq!(compact_bytes(69), vec![0x15, 0x01]);
    assert_eq!(compact_bytes(16383), vec![0xfd, 0xff]);
}

#[test]
fn compact_four_byte_form() {
    assert_eq!(compact_bytes(16384), vec![0x02, 0x00, 0x01, 0x00]);
    assert_eq!(compact_bytes(65535), vec![0xfe, 0xff, 0x03, 0x00]);
    assert_eq!(compact_bytes((1 << 30) - 1), vec![0xfe, 0xff, 0xff, 0xff]);
}

#[test]
fn compact_five_byte_form() {
    assert_eq!(compact_bytes(1 << 30), vec![0x03, 0x00, 0x00, 0x00, 0x40]);
    assert_eq!(compact_bytes(u32::MAX), vec![0x03, 0xff, 0xff, 0xff, 0xff]);
}

#[test]
fn compact_appends_to_what_is_there() {
    let mut out = vec![9, 9];
    encode_compact_to(64, &mut out);
    assert_eq!(out, vec![9, 9, 0x01, 0x01]);
}

#[test]
fn compact_round_trip_at_the_borders() {
    let borders = [
        0u32,
        1,
        62,
        63,
        64,
        65,
        255,
        256,
        16382,
        16383,
        16384,
        16385,
        65535,
        65536,
        (1 << 30) - 1,
        1 << 30,
        (1 << 30) + 1,
        u32::MAX - 1,
        u32::MAX,
    ];
    for n in borders {
        let mut bytes = compact_bytes(n);
        let len = bytes.len();
        assert_eq!(decode_compact(&bytes), Some((n, len)));
        bytes.extend_from_slice(&[0xde, 0xad]);
        assert_eq!(decode_compact(&bytes), Some((n, len)));
    }
}

#[test]
fn compact_refuses_empty_and_cut_input() {
    assert_eq!(decode_compact(&[]), None);
    assert_eq!(decode_compact(&[0x01]), None);
    assert_eq!(decode_compact(&[0x02, 0x00, 0x01]), None);
    assert_eq!(decode_compact(&[0x03, 0x00, 0x00, 0x00]), None);
}

#[test]
fn compact_refuses_longer_forms_of_small_numbers() {
    // 1 in two bytes, 63 in two bytes
    assert_eq!(decode_compact(&[0x05, 0x00]), None);
    assert_eq!(decode_compact(&[0xfd, 0x00]), None);
    // 64 in four bytes, 16383 in four bytes
    assert_eq!(decode_compact(&[0x02, 0x01, 0x00, 0x00]), None);
    assert_eq!(decode_compact(&[0xfe, 0xff, 0x00, 0x00]), None);
    // 5 in five bytes, 2^30 - 1 in five bytes
    assert_eq!(decode_compact(&[0x03, 0x05, 0x00, 0x00, 0x00]), None);
    assert_eq!(decode_compact(&[0x03, 0xff, 0xff, 0xff, 0x3f]), None);
}

#[test]
fn compact_refuses_numbers_wider_than_four_bytes() {
    assert_eq!(decode_compact(&[0x07, 0, 0, 0, 0, 1]), None);
    assert_eq!(decode_compact(&[0x0b, 0, 0, 0, 0, 0, 1]), None);
    assert_eq!(decode_compact(&[0xff, 0xff, 0xff, 0xff, 0xff]), None);
}

#[test]
fn compact_agrees_with_scale_codec() {
    let mut n: u64 = 0;
    while n <= u32::MAX as u64 {
        let value = n as u32;
        let theirs = parity_scale_codec::Compact(value).encode();
        assert_eq!(compact_bytes(value), theirs, "bytes of {}", value);
        let back = parity_scale_codec::Compact::<u32>::decode(&mut &theirs[..]).map(|c| c.0).ok();
        assert_eq!(decode_compact(&theirs).map(|p| p.0), back);
        n = n * 3 + 1;
    }
}

#[test]
fn compact_refuses_what_scale_codec_refuses() {
    for first in 0..=255u8 {
        for second in [0u8, 1, 0x3f, 0x40, 0xff] {
            let input = [first, second, 0, 0, second];
            let theirs = parity_scale_codec::Compact::<u32>::decode(&mut &input[..])
                .map(|c| c.0)
                .ok();
            assert_eq!(decode_compact(&input).map(|p| p.0), theirs, "input {:?}", input);
        }
    }
}
