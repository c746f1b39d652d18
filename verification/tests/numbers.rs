use lhef::float::parse_float;
use lhef::lexer;
use lhef::{Expected, Float, IntWidth, ParseError};

fn value(f: &Float) -> f64 {
    std::str::from_utf8(f.as_bytes()).unwrap().parse().unwrap()
}

fn float_and_rest(bytes: &[u8]) -> (f64, &[u8]) {
    let (f, end) = parse_float(bytes, 0).unwrap();
    (value(&f), &bytes[end..])
}

#[test]
fn parse_f64() {
    assert_eq!(float_and_rest(b"1 "), (1., b" " as &[u8]));
    assert_eq!(float_and_rest(b"+1 "), (1., b" " as &[u8]));
    assert_eq!(float_and_rest(b"-1 "), (-1., b" " as &[u8]));
    assert_eq!(float_and_rest(b"1. "), (1., b" " as &[u8]));
    assert_eq!(float_and_rest(b"+1. "), (1., b" " as &[u8]));
    assert_eq!(float_and_rest(b"-1. "), (-1., b" " as &[u8]));
    assert_eq!(float_and_rest(b"1e0 "), (1., b" " as &[u8]));
    assert_eq!(float_and_rest(b"+1e0 "), (1., b" " as &[u8]));
    assert_eq!(float_and_rest(b"-1e0 "), (-1., b" " as &[u8]));
    assert_eq!(float_and_rest(b"1e0 "), (1., b" " as &[u8]));
    assert_eq!(float_and_rest(b"+1e0 "), (1., b" " as &[u8]));
    assert_eq!(float_and_rest(b"-1e0 "), (-1., b" " as &[u8]));
    assert_eq!(float_and_rest(b"1e0 "), (1., b" " as &[u8]));
    assert_eq!(float_and_rest(b"+1e0 "), (1., b" " as &[u8]));
    assert_eq!(float_and_rest(b"-1e0 "), (-1., b" " as &[u8]));
    assert_eq!(float_and_rest(b"1.0e0 "), (1., b" " as &[u8]));
    assert_eq!(float_and_rest(b"1.0e+0 "), (1., b" " as &[u8]));
    assert_eq!(float_and_rest(b"1.0e-0 "), (1., b" " as &[u8]));
    assert_eq!(
        float_and_rest(b"4.705810011652687E+01"),
        (4.705810011652687E+01, b"" as &[u8])
    );
    assert_eq!(
        float_and_rest(b"-5.818122260105206E+00"),
        (-5.818122260105206E+00, b"" as &[u8])
    );
    assert_eq!(
        float_and_rest(b"2.228997274254760E-08"),
        (2.228997274254760E-08, b"" as &[u8])
    );
    assert_eq!(float_and_rest(b"-.20889051E+01"), (-0.20889051E+01, b"" as &[u8]));
    assert_eq!(float_and_rest(b".20889051E+01"), (0.20889051E+01, b"" as &[u8]));
}

#[test]
fn parse_f64_0() {
    assert_eq!(float_and_rest(b"0 "), (0., b" " as &[u8]));
    assert_eq!(float_and_rest(b"0. "), (0., b" " as &[u8]));
    assert_eq!(float_and_rest(b"0.0 "), (0., b" " as &[u8]));
    assert_eq!(float_and_rest(b"0.0E3 "), (0., b" " as &[u8]));
    assert_eq!(float_and_rest(b"0.0E3 "), (0., b" " as &[u8]));
    assert_eq!(float_and_rest(b"0.0000E+00"), (0., b"" as &[u8]));
    assert_eq!(float_and_rest(b"0.000000E+00"), (0., b"" as &[u8]));
    assert_eq!(float_and_rest(b"0.000000000000000E+00"), (0., b"" as &[u8]));
}

#[test]
fn parse_f64_special() {
    assert_eq!(float_and_rest(b"Infinity"), (f64::INFINITY, b"" as &[u8]));
    assert_eq!(float_and_rest(b"-Infinity"), (f64::NEG_INFINITY, b"" as &[u8]));
    match parse_float(b"NaN", 0) {
        Ok((v, end)) => {
            assert_eq!(end, 3);
            assert!(v.is_nan());
            assert!(value(&v).is_nan());
        }
        Err(err) => panic!("Failed to parse NaN, {:?}", err),
    }
}

#[test]
fn parse_i8_overflow() {
    assert!(lexer::parse_i8(b"128 ", 0).is_err());
    assert!(lexer::parse_i8(b"-129 ", 0).is_err());
    assert!(lexer::parse_i8(b"31290 ", 0).is_err());
    assert!(lexer::parse_i8(b"-9242 ", 0).is_err());
}

#[test]
fn parse_i64_overflow() {
    assert!(lexer::parse_i64(b"9223372036854775808 ", 0).is_err());
    assert!(lexer::parse_i64(b"-9223372036854775809 ", 0).is_err());
    assert!(lexer::parse_i64(b"3129058230958202589025 ", 0).is_err());
    assert!(lexer::parse_i64(b"-9242920589023509252992 ", 0).is_err());
}

#[test]
fn parse_u8_overflow() {
    assert!(lexer::parse_u8(b"256 ", 0).is_err());
    assert!(lexer::parse_u8(b"-129 ", 0).is_err());
    assert!(lexer::parse_u8(b"31290 ", 0).is_err());
    assert!(lexer::parse_u8(b"-9242 ", 0).is_err());
}

#[test]
fn range_and_syntax_errors_are_told_apart() {
    assert_eq!(
        lexer::parse_i8(b"128", 0),
        Err(ParseError::Range { width: IntWidth::I8, literal: b"128".to_vec() })
    );
    assert_eq!(
        lexer::parse_i8(b"-129", 0),
        Err(ParseError::Range { width: IntWidth::I8, literal: b"-129".to_vec() })
    );
    assert_eq!(
        lexer::parse_u8(b"-1", 0),
        Err(ParseError::Syntax { expected: Expected::Unsigned, position: 0 })
    );
    assert_eq!(lexer::parse_i8(b"", 0), Err(ParseError::Incomplete));
}

#[test]
fn parse_i8() {
    assert_eq!(lexer::parse_i8(b"8 ", 0), Ok((8, 1)));
    assert_eq!(lexer::parse_i8(b"+8 ", 0), Ok((8, 2)));
    assert_eq!(lexer::parse_i8(b"-8 ", 0), Ok((-8, 2)));
    assert_eq!(lexer::parse_i8(b"0 ", 0), Ok((0, 1)));
    assert_eq!(lexer::parse_i8(b"127 ", 0), Ok((127, 3)));
    assert_eq!(lexer::parse_i8(b"-128 ", 0), Ok((-128, 4)));
}

#[test]
fn parse_i64() {
    assert_eq!(lexer::parse_i64(b"8 ", 0), Ok((8, 1)));
    assert_eq!(lexer::parse_i64(b"+8 ", 0), Ok((8, 2)));
    assert_eq!(lexer::parse_i64(b"-8 ", 0), Ok((-8, 2)));
    assert_eq!(lexer::parse_i64(b"0 ", 0), Ok((0, 1)));
    assert_eq!(lexer::parse_i64(b"127 ", 0), Ok((127, 3)));
    assert_eq!(lexer::parse_i64(b"-128 ", 0), Ok((-128, 4)));
    assert_eq!(lexer::parse_i64(b"-9223372036854775808 ", 0), Ok((i64::MIN, 20)));
    assert_eq!(lexer::parse_i64(b"9223372036854775807 ", 0), Ok((i64::MAX, 19)));
}

#[test]
fn parse_u8() {
    assert_eq!(lexer::parse_u8(b"8 ", 0), Ok((8, 1)));
    assert_eq!(lexer::parse_u8(b"+8 ", 0), Ok((8, 2)));
    assert_eq!(lexer::parse_u8(b"0", 0), Ok((0, 1)));
    assert_eq!(lexer::parse_u8(b"127 ", 0), Ok((127, 3)));
    assert_eq!(lexer::parse_u8(b"255 ", 0), Ok((255, 3)));
}
