//! Key codec: round trips, error cases, and byte-lexicographic order.

use scann::serialize::float_bits_to_key;
use scann::serialize::int32_to_key;
use scann::serialize::key_to_float_bits;
use scann::serialize::key_to_int32;
use scann::serialize::key_to_uint32;
use scann::serialize::key_to_uint64;
use scann::serialize::uint32_to_key;
use scann::serialize::uint64_to_key;
use scann::ErrorKind;

#[test]
fn uint32_round_trip() {
    for &x in &[0u32, 1, 255, 256, 65535, 0x1234_5678, u32::MAX] {
        let key = uint32_to_key(x);
        assert_eq!(key.len(), 4);
        assert_eq!(key_to_uint32(&key).unwrap(), x);
    }
}

#[test]
fn uint64_round_trip() {
    for &x in &[0u64, 1, 0xdead_beef, u64::MAX, 1 << 63] {
        let key = uint64_to_key(x);
        assert_eq!(key.len(), 8);
        assert_eq!(key_to_uint64(&key).unwrap(), x);
    }
}

#[test]
fn int32_round_trip() {
    for &x in &[i32::MIN, -1, 0, 1, 42, i32::MAX] {
        let key = int32_to_key(x);
        assert_eq!(key.len(), 4);
        assert_eq!(key_to_int32(&key).unwrap(), x);
    }
}

#[test]
fn key_to_uint32_rejects_three_bytes() {
    let err = key_to_uint32(&[1u8, 2, 3]).unwrap_err();
    assert_eq!(err.kind(), ErrorKind::InvalidArgument);
}

#[test]
fn key_to_uint64_rejects_wrong_length() {
    let err = key_to_uint64(&[0u8; 4]).unwrap_err();
    assert_eq!(err.kind(), ErrorKind::InvalidArgument);
}

#[test]
fn uint32_keys_sort_numerically() {
    let values = [0u32, 1, 255, 256, 1000, 65536, u32::MAX - 1, u32::MAX];
    for w in values.windows(2) {
        assert!(uint32_to_key(w[0]) < uint32_to_key(w[1]));
    }
}

#[test]
fn int32_keys_sort_across_sign_boundary() {
    let values = [i32::MIN, -1000, -1, 0, 1, 1000, i32::MAX];
    for w in values.windows(2) {
        assert!(int32_to_key(w[0]) < int32_to_key(w[1]));
    }
}

#[test]
fn float_round_trip_finite() {
    for &x in &[
        -3.5f32,
        -1.0,
        -f32::MIN_POSITIVE,
        0.0,
        f32::MIN_POSITIVE,
        1.0,
        1.5,
        f32::MAX,
        f32::MIN,
    ] {
        let key = float_bits_to_key(x.to_bits());
        let back = f32::from_bits(key_to_float_bits(&key).unwrap());
        assert_eq!(back, x);
        assert_eq!(back.to_bits(), x.to_bits());
    }
}

#[test]
fn float_negative_zero_decodes_as_positive_zero() {
    let key = float_bits_to_key((-0.0f32).to_bits());
    let back = f32::from_bits(key_to_float_bits(&key).unwrap());
    assert_eq!(back.to_bits(), 0.0f32.to_bits());
}

#[test]
fn float_keys_sort_numerically() {
    let values = [
        f32::MIN,
        -100.0f32,
        -1.0,
        -0.5,
        -f32::MIN_POSITIVE,
        0.0,
        f32::MIN_POSITIVE,
        0.5,
        1.0,
        100.0,
        f32::MAX,
    ];
    for w in values.windows(2) {
        assert!(float_bits_to_key(w[0].to_bits()) < float_bits_to_key(w[1].to_bits()));
    }
}

#[test]
fn minus_one_sorts_before_plus_one() {
    assert!(float_bits_to_key((-1.0f32).to_bits()) < float_bits_to_key(1.0f32.to_bits()));
}

#[test]
fn key_to_float_rejects_wrong_length() {
    let err = key_to_float_bits(&[1u8, 2, 3]).unwrap_err();
    assert_eq!(err.kind(), ErrorKind::InvalidArgument);
}

#[test]
fn uint64_keys_sort_numerically() {
    let values = [0u64, 1, 255, 65536, 1 << 32, (1 << 32) + 1, u64::MAX];
    for w in values.windows(2) {
        assert!(uint64_to_key(w[0]) < uint64_to_key(w[1]));
    }
}
