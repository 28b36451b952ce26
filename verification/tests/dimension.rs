use freecut::dim::{
    format_dimension, parse_dimension, parse_dimension_allowing_zero, DimensionError,
    MAX_DIMENSION_MILLI,
};

#[test]
fn parses_plain_integers() {
    assert_eq!(parse_dimension("100"), Ok(100_000));
    assert_eq!(parse_dimension("  42 "), Ok(42_000));
}

#[test]
fn parses_decimals_with_dot_and_comma() {
    assert_eq!(parse_dimension("12.5"), Ok(12_500));
    assert_eq!(parse_dimension("0.125"), Ok(125));
    assert_eq!(parse_dimension("100,5"), Ok(100_500));
}

#[test]
fn parses_proper_fractions() {
    assert_eq!(parse_dimension("1/2"), Ok(500));
    assert_eq!(parse_dimension("3/8"), Ok(375));
    assert_eq!(parse_dimension("1/16"), Ok(63)); // 0.0625 rounds away from zero to 0.063
}

#[test]
fn parses_mixed_numerals() {
    assert_eq!(parse_dimension("3 1/4"), Ok(3_250));
    assert_eq!(parse_dimension("3-1/4"), Ok(3_250));
    assert_eq!(parse_dimension("12 1/2"), Ok(12_500));
}

#[test]
fn rejects_invalid_input() {
    assert!(parse_dimension("").is_err());
    assert!(parse_dimension("abc").is_err());
    assert!(parse_dimension("-1").is_err());
    assert!(parse_dimension("0").is_err());
    assert!(parse_dimension("1/0").is_err());
    assert!(parse_dimension("nan").is_err());
}

#[test]
fn allowing_zero_accepts_zero_but_still_rejects_negative() {
    assert_eq!(parse_dimension_allowing_zero("0"), Ok(0));
    assert_eq!(parse_dimension_allowing_zero("0.0"), Ok(0));
    assert_eq!(parse_dimension_allowing_zero("12.5"), Ok(12_500));
    assert!(parse_dimension_allowing_zero("-1").is_err());
    assert!(parse_dimension_allowing_zero("abc").is_err());
}

#[test]
fn rejects_values_at_or_above_max() {
    assert!(parse_dimension("100000").is_err());
    assert!(parse_dimension("99999").is_ok());
}

#[test]
fn formats_milli_to_decimal_with_trimmed_zeros() {
    assert_eq!(format_dimension(12_500), "12.5");
    assert_eq!(format_dimension(12_000), "12");
    assert_eq!(format_dimension(125), "0.125");
    assert_eq!(format_dimension(0), "0");
    assert_eq!(format_dimension(1), "0.001");
}

const NOT_A_NUMBER: &str =
    "muss eine positive Zahl sein (Dezimal- oder Bruchwert, z. B. 12,5 oder 1/2)";

#[test]
fn each_refusal_has_its_message() {
    assert_eq!(parse_dimension("abc"), Err(NOT_A_NUMBER.to_string()));
    assert_eq!(parse_dimension("0"), Err("muss größer als 0 sein".to_string()));
    assert_eq!(
        parse_dimension("1/0"),
        Err("Bruch mit Nenner 0 ist ungültig".to_string())
    );
    assert_eq!(
        parse_dimension("100000"),
        Err("Wert ist zu groß (Maximum 100000 pro Einheit)".to_string())
    );
    assert_eq!(DimensionError::NotANumber.message(), NOT_A_NUMBER);
}

#[test]
fn rounds_to_nearest_milli_with_halves_up() {
    assert_eq!(parse_dimension("0.0005"), Ok(1));
    assert_eq!(parse_dimension("0.00049"), Err("muss größer als 0 sein".to_string()));
    assert_eq!(parse_dimension_allowing_zero("0.00049"), Ok(0));
    assert_eq!(parse_dimension("1.0005"), Ok(1_001));
    assert_eq!(parse_dimension("1/3"), Ok(333));
    assert_eq!(parse_dimension("2/3"), Ok(667));
    assert_eq!(parse_dimension("1/64"), Ok(16));
    assert_eq!(parse_dimension("99999.9994"), Ok(99_999_999));
    assert!(parse_dimension("99999.9995").is_err());
}

#[test]
fn accepts_signs_and_bare_points() {
    assert_eq!(parse_dimension("+5"), Ok(5_000));
    assert_eq!(parse_dimension(".5"), Ok(500));
    assert_eq!(parse_dimension("5."), Ok(5_000));
    assert_eq!(parse_dimension_allowing_zero("-0"), Ok(0));
    assert_eq!(parse_dimension("-1/-2"), Ok(500));
    assert_eq!(parse_dimension("1,5/2"), Ok(750));
    assert!(parse_dimension(".").is_err());
    assert!(parse_dimension("1.2.3").is_err());
    assert!(parse_dimension("1e3").is_err());
}

#[test]
fn mixed_numerals_follow_the_whole_part() {
    assert_eq!(parse_dimension("3  1/4"), Ok(3_250));
    assert_eq!(parse_dimension("1.5 1/2"), Ok(2_000));
    // a minus on the whole part makes the numeral negative, zero whole part too
    assert!(parse_dimension("-0 1/4").is_err());
    assert!(parse_dimension("-0 1/2").is_err());
    assert!(parse_dimension("-0-1/2").is_err());
    assert_eq!(parse_dimension_allowing_zero("-0 0/2"), Ok(0));
    assert!(parse_dimension("-3 1/4").is_err());
    assert!(parse_dimension("3 -1/4").is_err());
    assert!(parse_dimension("1,5 1/2").is_err());
    assert_eq!(
        parse_dimension("3 1/0"),
        Err("Bruch mit Nenner 0 ist ungültig".to_string())
    );
}

#[test]
fn trims_unicode_whitespace() {
    assert_eq!(parse_dimension("\t12\u{a0}"), Ok(12_000));
    assert_eq!(parse_dimension("\u{3000}1/ 4\n"), Ok(250));
    // a space before the slash makes "1" the whole part of a mixed numeral
    assert!(parse_dimension("1 / 4").is_err());
}

#[test]
fn long_digit_strings_are_exact() {
    assert_eq!(
        parse_dimension("0.1250000000000000000000000000000000000001"),
        Ok(125)
    );
    assert_eq!(
        parse_dimension("100000000000000000000000/1000000000000000000000000"),
        Ok(100)
    );
    assert!(parse_dimension("123456789012345678901234567890").is_err());
}

#[test]
fn formatted_dimensions_parse_back() {
    for m in [1_u32, 7, 10, 125, 999, 1_000, 12_500, 99_999_999, MAX_DIMENSION_MILLI - 1] {
        assert_eq!(parse_dimension(&format_dimension(m)), Ok(m));
    }
    assert_eq!(parse_dimension_allowing_zero(&format_dimension(0)), Ok(0));
}

#[test]
fn comma_and_point_read_alike_without_a_fraction() {
    for (comma, point) in [("12,25", "12.25"), (",5", ".5"), ("7,", "7."), ("1,2,3", "1.2.3")] {
        assert_eq!(parse_dimension(comma), parse_dimension(point));
    }
}

#[test]
fn surrounding_whitespace_is_ignored() {
    for text in ["3 1/4", "1/2", "0", "abc", "12,5"] {
        let padded = format!(" \t{text}\r\n\u{2003}");
        assert_eq!(parse_dimension(&padded), parse_dimension(text));
        assert_eq!(
            parse_dimension_allowing_zero(&padded),
            parse_dimension_allowing_zero(text)
        );
    }
}

const TOO_LARGE: &str = "Wert ist zu groß (Maximum 100000 pro Einheit)";

#[test]
fn formatted_dimensions_at_or_above_max_are_too_large() {
    for m in [MAX_DIMENSION_MILLI, MAX_DIMENSION_MILLI + 1, u32::MAX] {
        assert_eq!(
            parse_dimension_allowing_zero(&format_dimension(m)),
            Err(TOO_LARGE.to_string())
        );
    }
}

#[test]
fn space_or_dash_with_trailing_whitespace() {
    assert_eq!(parse_dimension("12 1/2 \t"), parse_dimension("12-1/2 \t"));
    assert_eq!(parse_dimension("12-1/2 \t"), Ok(12_500));
}

#[test]
fn parsing_keeps_order() {
    let texts = ["0.1", "0,25", "1/3", "0.3334", "1", "1.0004", "1.0005", "3 1/4", "12.5"];
    for pair in texts.windows(2) {
        let low = parse_dimension(pair[0]).expect("accepted");
        let high = parse_dimension(pair[1]).expect("accepted");
        assert!(low <= high, "{} then {}", pair[0], pair[1]);
    }
}
