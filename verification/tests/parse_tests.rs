use quests::parse::numbers;
use quests::parse::parse_usize;

#[test]
fn lib_leading_zeros() {
    let nums: Vec<usize> = numbers(b"007 0042").unwrap();
    assert_eq!(nums, vec![7, 42]);
}

#[test]
fn lib_trailing_zeros() {
    let nums: Vec<usize> = numbers(b"700 4200").unwrap();
    assert_eq!(nums, vec![700, 4200]);
}

#[test]
fn lib_newlines() {
    let nums: Vec<usize> = numbers(b"12\n34\r\n56").unwrap();
    assert_eq!(nums, vec![12, 34, 56]);
}

#[test]
fn lib_mixed_content() {
    let nums: Vec<usize> = numbers(b"12ab34cd56").unwrap();
    assert_eq!(nums, vec![12, 34, 56]);
}

#[test]
fn lib_empty_string() {
    let nums: Vec<usize> = numbers(b"").unwrap();
    assert!(nums.is_empty());
}

#[test]
fn lib_no_numbers() {
    let nums: Vec<usize> = numbers(b"abc def").unwrap();
    assert!(nums.is_empty());
}

#[test]
fn parse_leading_zeros() {
    let nums: Vec<usize> = numbers("007 0042".as_bytes()).unwrap();
    assert_eq!(nums, vec![7, 42]);
}

#[test]
fn parse_trailing_zeros() {
    let nums: Vec<usize> = numbers("700 4200".as_bytes()).unwrap();
    assert_eq!(nums, vec![700, 4200]);
}

#[test]
fn parse_newlines() {
    let nums: Vec<usize> = numbers("12\n34\r\n56".as_bytes()).unwrap();
    assert_eq!(nums, vec![12, 34, 56]);
}

#[test]
fn parse_mixed_content() {
    let nums: Vec<usize> = numbers("12ab34cd56".as_bytes()).unwrap();
    assert_eq!(nums, vec![12, 34, 56]);
}

#[test]
fn parse_empty_string() {
    let nums: Vec<usize> = numbers("".as_bytes()).unwrap();
    assert!(nums.is_empty());
}

#[test]
fn parse_no_numbers() {
    let nums: Vec<usize> = numbers("abc def".as_bytes()).unwrap();
    assert!(nums.is_empty());
}

#[test]
fn numbers_overflow_is_refused() {
    assert!(numbers(b"99999999999999999999999999").is_none());
}

#[test]
fn parse_usize_whole_line() {
    assert_eq!(parse_usize(b"12345"), Some(12345));
    assert_eq!(parse_usize(b"007"), Some(7));
    assert_eq!(parse_usize(b""), None);
    assert_eq!(parse_usize(b"12a"), None);
    assert_eq!(parse_usize(b"99999999999999999999999999"), None);
}
