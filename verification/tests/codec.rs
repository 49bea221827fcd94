use num::bigint::BigUint;
use numcoder::codec::{decode, decode_trace, encode, encode_trace, get_length, CodecError};

fn big(n: u64) -> BigUint {
    BigUint::from(n)
}

#[test]
fn radix_validation_succeeds() {
    assert_eq!(get_length(2), Ok(1));
    assert_eq!(get_length(4), Ok(2));
    assert_eq!(get_length(8), Ok(3));
    assert_eq!(get_length(16), Ok(4));
    assert_eq!(get_length(256), Ok(8));
}

#[test]
fn radix_validation_fails() {
    for bad in [0usize, 1, 3, 6, 10, 12, 100] {
        assert_eq!(get_length(bad), Err(CodecError::InvalidRadix));
    }
}

#[test]
fn radix_validation_is_idempotent() {
    let first = get_length(16);
    let second = get_length(16);
    assert_eq!(first, second);
    assert_eq!(first, Ok(4));
    let first_bad = get_length(6);
    let second_bad = get_length(6);
    assert_eq!(first_bad, second_bad);
}

#[test]
fn digit_bound() {
    assert_eq!(
        encode(&vec![5], 4, 2),
        Err(CodecError::DigitOutOfRange { index: 0, digit: 5 })
    );
}

#[test]
fn digit_bound_reports_last_offender() {
    // Traversal runs from the last digit toward the first, so the out-of-range
    // digit at the highest position is the one reported.
    assert_eq!(
        encode(&vec![1, 9, 2, 9, 3], 8, 3),
        Err(CodecError::DigitOutOfRange { index: 3, digit: 9 })
    );
}

#[test]
fn text_mode_byte() {
    assert_eq!(encode(&vec![65], 256, 8), Ok(big(65)));
    assert_eq!(decode(big(65), 256, 8), vec![65]);
}

#[test]
fn multi_digit_example() {
    // 1 + 2*16 + 3*256 = 801
    assert_eq!(encode(&vec![1, 2, 3], 16, 4), Ok(big(801)));
    assert_eq!(decode(big(801), 16, 4), vec![1, 2, 3]);
}

#[test]
fn zero_case() {
    assert_eq!(encode(&vec![], 4, 2), Ok(big(0)));
    assert_eq!(encode(&vec![], 256, 8), Ok(big(0)));
    assert_eq!(decode(big(0), 4, 2), Vec::<u32>::new());
    assert_eq!(decode(big(0), 256, 8), Vec::<u32>::new());
}

#[test]
fn round_trip_examples() {
    let ds = vec![3, 0, 2, 1];
    let packed = encode(&ds, 4, 2).unwrap();
    assert_eq!(decode(packed, 4, 2), ds);

    let bytes = vec![72, 101, 108, 108, 111];
    let packed = encode(&bytes, 256, 8).unwrap();
    assert_eq!(decode(packed, 256, 8), bytes);
}

#[test]
fn round_trip_drops_trailing_zeros() {
    // A most-significant zero digit adds nothing to the value, so decoding
    // yields the minimal representation.
    let packed = encode(&vec![1, 0], 16, 4).unwrap();
    assert_eq!(packed, big(1));
    assert_eq!(decode(packed, 16, 4), vec![1]);

    let packed = encode(&vec![0, 0, 0], 16, 4).unwrap();
    assert_eq!(packed, big(0));
    assert_eq!(decode(packed, 16, 4), Vec::<u32>::new());
}

#[test]
fn large_values_do_not_overflow() {
    // 40 digits of 255 under radix 256: a 320-bit value.
    let ds = vec![255u32; 40];
    let packed = encode(&ds, 256, 8).unwrap();
    assert_eq!(decode(packed, 256, 8), ds);
}

#[test]
fn encode_trace_records_each_step() {
    let (value, steps) = encode_trace(&vec![1, 2, 3], 16, 4).unwrap();
    assert_eq!(value, big(801));
    assert_eq!(steps.len(), 3);
    // Digits are consumed from the last toward the first.
    assert_eq!(steps[0].digit, 3);
    assert_eq!(steps[0].before_shift, big(0));
    assert_eq!(steps[0].after_shift, big(0));
    assert_eq!(steps[0].after_add, big(3));
    assert_eq!(steps[1].digit, 2);
    assert_eq!(steps[1].before_shift, big(3));
    assert_eq!(steps[1].after_shift, big(48));
    assert_eq!(steps[1].after_add, big(50));
    assert_eq!(steps[2].digit, 1);
    assert_eq!(steps[2].before_shift, big(50));
    assert_eq!(steps[2].after_shift, big(800));
    assert_eq!(steps[2].after_add, big(801));
}

#[test]
fn encode_trace_rejects_like_encode() {
    match encode_trace(&vec![5], 4, 2) {
        Err(CodecError::DigitOutOfRange { index, digit }) => {
            assert_eq!(index, 0);
            assert_eq!(digit, 5);
        }
        other => panic!("expected DigitOutOfRange, got {:?}", other.map(|p| p.0)),
    }
}

#[test]
fn decode_trace_records_each_step() {
    let (digits, steps) = decode_trace(big(801), 16, 4);
    assert_eq!(digits, vec![1, 2, 3]);
    assert_eq!(steps.len(), 3);
    assert_eq!(steps[0].value, big(801));
    assert_eq!(steps[0].digit, 1);
    assert_eq!(steps[0].shifted, big(50));
    assert_eq!(steps[1].value, big(50));
    assert_eq!(steps[1].digit, 2);
    assert_eq!(steps[1].shifted, big(3));
    assert_eq!(steps[2].value, big(3));
    assert_eq!(steps[2].digit, 3);
    assert_eq!(steps[2].shifted, big(0));
}

#[test]
fn decode_trace_of_zero_is_empty() {
    let (digits, steps) = decode_trace(big(0), 256, 8);
    assert!(digits.is_empty());
    assert!(steps.is_empty());
}
