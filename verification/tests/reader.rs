use cell_move_router::error::Error;
use cell_move_router::reader::{check_eq, parse_numeric, parse_string, Reader};
use cell_move_router::text::{parse_isize, parse_unsigned, parse_usize};

#[test]
fn tokens_are_the_runs_between_whitespace() {
    let mut reader = Reader::new(b"  alpha\tbeta\r\n\n gamma\x0cdelta ");
    assert_eq!(reader.take_token(), Ok(&b"alpha"[..]));
    assert_eq!(parse_string(&mut reader), Ok(&b"beta"[..]));
    assert_eq!(reader.take_token(), Ok(&b"gamma"[..]));
    assert_eq!(reader.take_token(), Ok(&b"delta"[..]));
    assert_eq!(reader.take_token(), Err(Error::TruncatedInput));
    assert_eq!(reader.take_token(), Err(Error::TruncatedInput));
    assert_eq!(reader.finish(), Ok(()));
}

#[test]
fn a_vertical_tab_is_no_whitespace() {
    let mut reader = Reader::new(b"a\x0bb c");
    assert_eq!(reader.take_token(), Ok(&b"a\x0bb"[..]));
    assert_eq!(reader.take_token(), Ok(&b"c"[..]));
}

#[test]
fn integers_are_read_token_by_token() {
    let mut reader = Reader::new(b"12 +7 -3 x 0 -0 18446744073709551615 18446744073709551616");
    assert_eq!(reader.take_usize(), Ok(12));
    assert_eq!(parse_numeric(&mut reader), Ok(7));
    assert_eq!(reader.take_isize(), Ok(-3));
    assert_eq!(reader.take_usize(), Err(Error::SyntaxError { expected: "integer" }));
    assert_eq!(reader.take_isize(), Ok(0));
    assert_eq!(reader.take_isize(), Ok(0));
    assert_eq!(reader.take_usize(), Ok(usize::MAX));
    assert_eq!(reader.take_usize(), Err(Error::SyntaxError { expected: "integer" }));
    assert_eq!(reader.take_usize(), Err(Error::TruncatedInput));
    assert_eq!(reader.take_isize(), Err(Error::TruncatedInput));
}

#[test]
fn expect_takes_the_keyword_or_fails_with_it() {
    let mut reader = Reader::new(b"NumLayer NumLayers Num");
    assert_eq!(reader.expect("NumLayer"), Ok(()));
    assert_eq!(reader.expect("NumLayer"), Err(Error::SyntaxError { expected: "NumLayer" }));
    assert_eq!(reader.expect("NumLayer"), Err(Error::SyntaxError { expected: "NumLayer" }));
    assert_eq!(reader.expect("NumLayer"), Err(Error::TruncatedInput));
    assert_eq!(check_eq(b"Lay", "Lay"), Ok(()));
    assert_eq!(check_eq(b"lay", "Lay"), Err(Error::SyntaxError { expected: "Lay" }));
    assert_eq!(check_eq(b"", "Lay"), Err(Error::SyntaxError { expected: "Lay" }));
}

#[test]
fn names_are_read_under_their_prefix() {
    let mut reader = Reader::new(b"MC12 M3 C");
    assert_eq!(reader.take_name("MC"), Ok(11));
    assert_eq!(reader.take_name("MC"), Err(Error::MalformedName));
    assert_eq!(reader.take_name("C"), Err(Error::MalformedName));
    assert_eq!(reader.take_name("C"), Err(Error::TruncatedInput));
}

#[test]
fn finish_refuses_what_is_left() {
    let mut reader = Reader::new(b"  \n x");
    assert_eq!(reader.finish(), Err(Error::SyntaxError { expected: "end of input" }));
    let mut reader = Reader::new(b"  \n ");
    assert_eq!(reader.finish(), Ok(()));
    let mut reader = Reader::new(b"");
    assert_eq!(reader.finish(), Ok(()));
}

#[test]
fn unsigned_numbers_are_digits_that_fit() {
    assert_eq!(parse_unsigned(b"0", 0, 1), Some(0));
    assert_eq!(parse_unsigned(b"00042", 0, 5), Some(42));
    assert_eq!(parse_unsigned(b"x123y", 1, 4), Some(123));
    assert_eq!(parse_unsigned(b"123", 1, 1), None);
    assert_eq!(parse_unsigned(b"12a", 0, 3), None);
    assert_eq!(parse_unsigned(b"+12", 0, 3), None);
    assert_eq!(parse_unsigned(b"18446744073709551615", 0, 20), Some(usize::MAX));
    assert_eq!(parse_unsigned(b"18446744073709551616", 0, 20), None);
    assert_eq!(parse_unsigned(b"000000000000000000000000000001", 0, 30), Some(1));
    assert_eq!(parse_usize(b"+12", 0, 3), Some(12));
    assert_eq!(parse_usize(b"+", 0, 1), None);
    assert_eq!(parse_usize(b"++1", 0, 3), None);
    assert_eq!(parse_usize(b"-1", 0, 2), None);
}

#[test]
fn signed_numbers_take_a_sign() {
    assert_eq!(parse_isize(b"-12", 0, 3), Some(-12));
    assert_eq!(parse_isize(b"+12", 0, 3), Some(12));
    assert_eq!(parse_isize(b"12", 0, 2), Some(12));
    assert_eq!(parse_isize(b"-", 0, 1), None);
    assert_eq!(parse_isize(b"--1", 0, 3), None);
    assert_eq!(parse_isize(b"-+1", 0, 3), None);
    assert_eq!(parse_isize(b"9223372036854775807", 0, 19), Some(isize::MAX));
    assert_eq!(parse_isize(b"9223372036854775808", 0, 19), None);
    assert_eq!(parse_isize(b"-9223372036854775808", 0, 20), Some(isize::MIN));
    assert_eq!(parse_isize(b"-9223372036854775809", 0, 20), None);
}
