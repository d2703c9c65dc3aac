use serde_ton::error::{make_error, Category, Error, ErrorCode};

#[test]
fn test_error_categories() {
    let e = Error::new(ErrorCode::Syntax, 7);
    assert_eq!(e.pos(), 7);
    assert_eq!(e.classify(), Category::Syntax);
    assert!(e.is_syntax());
    assert!(!e.is_io());

    let e = Error::io("socket closed".to_string());
    assert_eq!(e.pos(), 0);
    assert!(e.is_io());

    let e = Error::new(ErrorCode::Eof, 1);
    assert!(e.is_eof());
    let e = Error::new(ErrorCode::UnknownFormat, 1);
    assert!(e.is_unknown_format());
    let e = Error::new(ErrorCode::InvalidType, 1);
    assert!(e.is_type());
}

#[test]
fn test_fix_position_fills_only_unknown() {
    let e = Error::new(ErrorCode::Syntax, 0).fix_position(9);
    assert_eq!(e.pos(), 9);
    let e = Error::new(ErrorCode::Syntax, 4).fix_position(9);
    assert_eq!(e.pos(), 4);
}

#[test]
fn test_make_error_parses_position_suffix() {
    let e = make_error("bad frame at pos 42".to_string());
    assert_eq!(e.pos(), 42);
    assert_eq!(e.classify(), Category::InvalidType);
}

#[test]
fn test_make_error_without_suffix() {
    let e = make_error("bad frame".to_string());
    assert_eq!(e.pos(), 0);
}

#[test]
fn test_make_error_takes_rightmost_suffix() {
    let e = make_error("x at pos 1 and then at pos 23".to_string());
    assert_eq!(e.pos(), 23);
}

#[test]
fn test_make_error_suffix_needs_digits() {
    let e = make_error("ends with at pos ".to_string());
    assert_eq!(e.pos(), 0);
}

#[test]
fn test_make_error_overflowing_position() {
    let e = make_error("at pos 99999999999999999999999999".to_string());
    assert_eq!(e.pos(), 0);
}
