use rpn_calc::literal::{parse_decimal, ParseError};
use rpn_calc::num::Num;

#[test]
fn parses_integer() {
    assert_eq!(parse_decimal("3"), Ok(Num { mantissa: 3, scale: 0 }));
    assert_eq!(parse_decimal("42"), Ok(Num { mantissa: 42, scale: 0 }));
    assert_eq!(parse_decimal("0"), Ok(Num { mantissa: 0, scale: 0 }));
}

#[test]
fn parses_fraction_exactly() {
    assert_eq!(parse_decimal("3.14"), Ok(Num { mantissa: 314, scale: 2 }));
    assert_eq!(parse_decimal("0.1"), Ok(Num { mantissa: 1, scale: 1 }));
    assert_eq!(parse_decimal("1.50"), Ok(Num { mantissa: 150, scale: 2 }));
}

#[test]
fn parses_signs() {
    assert_eq!(parse_decimal("+5"), Ok(Num { mantissa: 5, scale: 0 }));
    assert_eq!(parse_decimal("-5"), Ok(Num { mantissa: -5, scale: 0 }));
    assert_eq!(parse_decimal("-0.5"), Ok(Num { mantissa: -5, scale: 1 }));
}

#[test]
fn parses_bare_point_forms() {
    assert_eq!(parse_decimal("5."), Ok(Num { mantissa: 5, scale: 0 }));
    assert_eq!(parse_decimal(".5"), Ok(Num { mantissa: 5, scale: 1 }));
}

#[test]
fn rejects_garbage() {
    assert_eq!(parse_decimal("abc"), Err(ParseError::Invalid));
    assert_eq!(parse_decimal(""), Err(ParseError::Invalid));
    assert_eq!(parse_decimal("."), Err(ParseError::Invalid));
    assert_eq!(parse_decimal("1.2.3"), Err(ParseError::Invalid));
    assert_eq!(parse_decimal("--1"), Err(ParseError::Invalid));
    assert_eq!(parse_decimal("1 2"), Err(ParseError::Invalid));
    assert_eq!(parse_decimal("1e5"), Err(ParseError::Invalid));
}

#[test]
fn rejects_excess_precision() {
    // 29 fractional digits: one more than the representation can carry.
    assert_eq!(
        parse_decimal("0.12345678901234567890123456789"),
        Err(ParseError::ExceedsPrecision)
    );
    // 28 fractional digits still fit.
    assert_eq!(
        parse_decimal("0.1234567890123456789012345678"),
        Ok(Num { mantissa: 1234567890123456789012345678, scale: 28 })
    );
}

#[test]
fn rejects_out_of_range() {
    // 2^96 - 1 is the largest mantissa.
    assert_eq!(
        parse_decimal("79228162514264337593543950335"),
        Ok(Num { mantissa: 79228162514264337593543950335, scale: 0 })
    );
    assert_eq!(
        parse_decimal("79228162514264337593543950336"),
        Err(ParseError::OutOfRange)
    );
}

#[test]
fn formats_literals() {
    assert_eq!(Num { mantissa: 7, scale: 0 }.to_literal(), "7");
    assert_eq!(Num { mantissa: -150, scale: 2 }.to_literal(), "-1.50");
    assert_eq!(Num { mantissa: 5, scale: 1 }.to_literal(), "0.5");
    assert_eq!(Num { mantissa: 0, scale: 2 }.to_literal(), "0.00");
    assert_eq!(Num { mantissa: 10001, scale: 3 }.to_literal(), "10.001");
}

#[test]
fn round_trips_parse_after_format() {
    let cases = vec![
        Num { mantissa: 0, scale: 0 },
        Num { mantissa: 7, scale: 0 },
        Num { mantissa: -150, scale: 2 },
        Num { mantissa: 5, scale: 28 },
        Num { mantissa: 79228162514264337593543950335, scale: 0 },
        Num { mantissa: -79228162514264337593543950335, scale: 28 },
    ];
    for n in cases {
        assert_eq!(parse_decimal(&n.to_literal()), Ok(n));
    }
}

#[test]
fn round_trips_format_after_parse() {
    for lit in vec!["3", "3.14", "-1.50", "0.00", "1000000", "0.1"] {
        let n = parse_decimal(lit).unwrap();
        assert_eq!(n.to_literal(), lit);
    }
}
