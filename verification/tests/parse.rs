use numcoder::codec::CodecError;
use numcoder::parse::parse_numbers;

#[test]
fn plain_list() {
    assert_eq!(parse_numbers("1,2,3".to_string()), Ok(vec![1, 2, 3]));
}

#[test]
fn bracketed_list_with_spaces() {
    assert_eq!(parse_numbers("[1, 2, 3]".to_string()), Ok(vec![1, 2, 3]));
}

#[test]
fn single_number() {
    assert_eq!(parse_numbers("42".to_string()), Ok(vec![42]));
    assert_eq!(parse_numbers(" [7] ".to_string()), Ok(vec![7]));
}

#[test]
fn whitespace_is_removed_everywhere() {
    // Whitespace is stripped, not treated as a separator.
    assert_eq!(parse_numbers("1 2".to_string()), Ok(vec![12]));
    assert_eq!(parse_numbers("\t[ 3 ,\n4 ]\r".to_string()), Ok(vec![3, 4]));
}

#[test]
fn unicode_whitespace_is_removed_too() {
    assert_eq!(parse_numbers("1\u{000C}2".to_string()), Ok(vec![12]));
    assert_eq!(parse_numbers("\u{000B}5,6\u{0085}".to_string()), Ok(vec![5, 6]));
    assert_eq!(
        parse_numbers("\u{00A0}[\u{2009}7\u{202F},\u{3000}8 ]\u{2028}".to_string()),
        Ok(vec![7, 8])
    );
}

#[test]
fn leading_plus_sign_is_accepted() {
    assert_eq!(parse_numbers("+5".to_string()), Ok(vec![5]));
    assert_eq!(parse_numbers("[+1, +2, 3]".to_string()), Ok(vec![1, 2, 3]));
    assert_eq!(parse_numbers("+0".to_string()), Ok(vec![0]));
    assert_eq!(parse_numbers("+4294967295".to_string()), Ok(vec![4294967295]));
}

#[test]
fn misplaced_plus_sign_is_rejected() {
    assert_eq!(parse_numbers("+".to_string()), Err(CodecError::MalformedInput));
    assert_eq!(parse_numbers("++5".to_string()), Err(CodecError::MalformedInput));
    assert_eq!(parse_numbers("5+".to_string()), Err(CodecError::MalformedInput));
    assert_eq!(parse_numbers("1+2".to_string()), Err(CodecError::MalformedInput));
    assert_eq!(parse_numbers("1,+".to_string()), Err(CodecError::MalformedInput));
}

#[test]
fn unmatched_brackets_are_tolerated() {
    assert_eq!(parse_numbers("[1,2".to_string()), Ok(vec![1, 2]));
    assert_eq!(parse_numbers("1]".to_string()), Ok(vec![1]));
}

#[test]
fn empty_input_is_rejected() {
    assert_eq!(parse_numbers("".to_string()), Err(CodecError::MalformedInput));
    assert_eq!(parse_numbers("[]".to_string()), Err(CodecError::MalformedInput));
    assert_eq!(parse_numbers("   ".to_string()), Err(CodecError::MalformedInput));
}

#[test]
fn empty_token_is_rejected() {
    assert_eq!(parse_numbers("1,,2".to_string()), Err(CodecError::MalformedInput));
    assert_eq!(parse_numbers("1,2,".to_string()), Err(CodecError::MalformedInput));
    assert_eq!(parse_numbers(",1".to_string()), Err(CodecError::MalformedInput));
}

#[test]
fn non_digit_is_rejected() {
    assert_eq!(parse_numbers("a,1".to_string()), Err(CodecError::MalformedInput));
    assert_eq!(parse_numbers("1,-2".to_string()), Err(CodecError::MalformedInput));
    assert_eq!(parse_numbers("1.5".to_string()), Err(CodecError::MalformedInput));
}

#[test]
fn thirty_two_bit_bound() {
    assert_eq!(parse_numbers("4294967295".to_string()), Ok(vec![4294967295]));
    assert_eq!(
        parse_numbers("4294967296".to_string()),
        Err(CodecError::MalformedInput)
    );
}

#[test]
fn leading_zeros_are_digits() {
    assert_eq!(parse_numbers("007,0".to_string()), Ok(vec![7, 0]));
}
