use package_parser::little_endian::{bytes, i32_from_le_bytes, i32_to_le_bytes, read_i32};
use package_parser::markers::{ends_with, starts_with};

const SAMPLES: [i32; 14] = [
    0,
    1,
    -1,
    42,
    255,
    256,
    -256,
    65535,
    65536,
    0x0102_0304,
    -0x0102_0304,
    0x7FFF_FFFF,
    i32::MIN,
    i32::MIN + 1,
];

#[test]
fn integers_are_written_least_byte_first() {
    assert_eq!(i32_to_le_bytes(0), [0, 0, 0, 0]);
    assert_eq!(i32_to_le_bytes(1), [1, 0, 0, 0]);
    assert_eq!(i32_to_le_bytes(12), [12, 0, 0, 0]);
    assert_eq!(i32_to_le_bytes(0x0102_0304), [4, 3, 2, 1]);
    assert_eq!(i32_to_le_bytes(-1), [255, 255, 255, 255]);
    assert_eq!(i32_to_le_bytes(-2), [254, 255, 255, 255]);
    assert_eq!(i32_to_le_bytes(i32::MAX), [255, 255, 255, 127]);
    assert_eq!(i32_to_le_bytes(i32::MIN), [0, 0, 0, 128]);
}

#[test]
fn integers_are_read_least_byte_first() {
    assert_eq!(i32_from_le_bytes([0, 0, 0, 0]), 0);
    assert_eq!(i32_from_le_bytes([42, 0, 0, 0]), 42);
    assert_eq!(i32_from_le_bytes([0, 1, 0, 0]), 256);
    assert_eq!(i32_from_le_bytes([4, 3, 2, 1]), 0x0102_0304);
    assert_eq!(i32_from_le_bytes([255, 255, 255, 255]), -1);
    assert_eq!(i32_from_le_bytes([255, 255, 255, 127]), i32::MAX);
    assert_eq!(i32_from_le_bytes([0, 0, 0, 128]), i32::MIN);
}

#[test]
fn writing_and_reading_agree_with_the_standard_library() {
    for value in SAMPLES {
        assert_eq!(i32_to_le_bytes(value), value.to_le_bytes());
        assert_eq!(i32_from_le_bytes(value.to_le_bytes()), value);
        assert_eq!(i32_from_le_bytes(i32_to_le_bytes(value)), value);
    }
    let mut seed: u32 = 7;
    for _ in 0..10_000 {
        seed = seed.wrapping_mul(1664525).wrapping_add(1013904223);
        let raw = seed.to_le_bytes();
        assert_eq!(i32_from_le_bytes(raw), i32::from_le_bytes(raw));
        assert_eq!(i32_to_le_bytes(i32_from_le_bytes(raw)), raw);
    }
}

#[test]
fn read_i32_reads_the_leading_four_bytes() {
    assert_eq!(read_i32(&[42, 0, 0, 0]), Some(42));
    assert_eq!(read_i32(&[42, 0, 0, 0, 9, 9, 9]), Some(42));
    assert_eq!(read_i32(&[255, 255, 255, 255, 1]), Some(-1));
}

#[test]
fn read_i32_needs_four_bytes() {
    assert_eq!(read_i32(&[]), None);
    assert_eq!(read_i32(&[1]), None);
    assert_eq!(read_i32(&[1, 2, 3]), None);
}

#[test]
fn bytes_hands_the_leading_bytes_over() {
    assert_eq!(bytes::<i32, 4>(&[1, 0, 0, 0, 7], i32::from_le_bytes), Some(1));
    assert_eq!(bytes::<[u8; 2], 2>(&[5, 6, 7], |head| head), Some([5, 6]));
    assert_eq!(bytes::<u32, 3>(&[1, 2, 3], |head| head.iter().map(|b| *b as u32).sum()), Some(6));
    assert_eq!(bytes::<usize, 0>(&[], |head| head.len()), Some(0));
}

#[test]
fn bytes_gives_none_for_too_few_bytes() {
    assert_eq!(bytes::<i32, 4>(&[1, 0, 0], i32::from_le_bytes), None);
    assert_eq!(bytes::<[u8; 2], 2>(&[], |head| head), None);
}

#[test]
fn starts_with_looks_at_the_leading_bytes() {
    assert!(starts_with(&[1, 2, 3, 4], &[1, 2]));
    assert!(starts_with(&[1, 2], &[1, 2]));
    assert!(starts_with(&[1, 2], &[]));
    assert!(starts_with(&[], &[]));
    assert!(!starts_with(&[1, 2, 3, 4], &[2, 3]));
    assert!(!starts_with(&[1, 2, 3, 4], &[1, 3]));
    assert!(!starts_with(&[1], &[1, 2]));
    assert!(!starts_with(&[], &[1]));
}

#[test]
fn ends_with_looks_at_the_last_bytes() {
    assert!(ends_with(&[1, 2, 3, 4], &[3, 4]));
    assert!(ends_with(&[3, 4], &[3, 4]));
    assert!(ends_with(&[3, 4], &[]));
    assert!(ends_with(&[], &[]));
    assert!(!ends_with(&[1, 2, 3, 4], &[2, 3]));
    assert!(!ends_with(&[1, 2, 3, 4], &[2, 4]));
    assert!(!ends_with(&[4], &[3, 4]));
    assert!(!ends_with(&[], &[4]));
}
