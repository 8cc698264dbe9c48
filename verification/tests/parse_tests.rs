//! The textual readers: the grammar-driven pair of parsers, the direct
//! reader behind `try_from`, and the exponent reader.

use standard_form::parse::parse_exponent;
use standard_form::parse::parse_standard_form_with_optional_exponent;
use standard_form::parse::parse_standard_form_with_required_exponent;
use standard_form::Mantissa;
use standard_form::ParsingStandardFormError;
use standard_form::StandardForm;

#[test]
fn test_parse_standard_form_positive_exponent() {
    let input = "1.23e3"; // Example input: 1230.0
    match parse_standard_form_with_optional_exponent(input) {
        Ok((_, standard_form)) => {
            assert_eq!(standard_form.mantissa(), &Mantissa::new(123, 2));
            assert_eq!(standard_form.exponent(), &3);
        }
        Err(e) => panic!("Parsing error: {:?}", e),
    }
}

#[test]
fn test_parse_standard_form_negative_exponent() {
    let input = "2.5*10^-2"; // Example input: 0.025
    match parse_standard_form_with_optional_exponent(input) {
        Ok((_, standard_form)) => {
            assert_eq!(standard_form.mantissa(), &Mantissa::new(25, 1));
            assert_eq!(standard_form.exponent(), &-2);
        }
        Err(e) => panic!("Parsing error: {:?}", e),
    }
}

#[test]
fn test_parse_standard_form_no_exponent() {
    let input = "42"; // No exponent, read as 42.0 * 10^0
    match parse_standard_form_with_optional_exponent(input) {
        Ok((_, standard_form)) => {
            assert_eq!(standard_form.mantissa(), &Mantissa::new(42, 1));
            assert_eq!(standard_form.exponent(), &1);
        }
        Err(e) => panic!("Parsing error: {:?}", e),
    }
}

#[test]
fn test_parse_standard_form_star_exponent() {
    let input = "5*10^4"; // Example input: 50000.0
    match parse_standard_form_with_optional_exponent(input) {
        Ok((_, standard_form)) => {
            assert_eq!(standard_form.mantissa(), &Mantissa::new(5, 0));
            assert_eq!(standard_form.exponent(), &4);
        }
        Err(e) => panic!("Parsing error: {:?}", e),
    }
}

#[test]
fn test_parse_standard_form_invalid_input() {
    let input = "invalid"; // Invalid input, must end in an error
    match parse_standard_form_with_optional_exponent(input) {
        Ok(_) => panic!("Expected parsing error but got a result."),
        Err(_) => {} // Expected result
    }
}

#[test]
fn required_exponent_needs_a_marker() {
    // The whole of "1.23e3" reads as one number, leaving no exponent part
    // for the mandatory-exponent parser.
    assert!(parse_standard_form_with_required_exponent("1.23e3").is_err());
    // With the star marker the exponent part stands apart.
    let (rest, sf) = parse_standard_form_with_required_exponent("2.5*10^-2").unwrap();
    assert_eq!(rest, 9);
    assert_eq!(sf, StandardForm::new(Mantissa::new(25, 1), -2));
}

#[test]
fn parsers_agree_on_shared_inputs() {
    // The grammar-driven parser and the direct reader agree on every legal
    // shared input.
    for input in ["1.23e3", "2.5*10^-2", "5*10^4", "42", "-7.5e-3"] {
        let (_, a) = parse_standard_form_with_optional_exponent(input).unwrap();
        let b = StandardForm::try_from(input).unwrap();
        assert_eq!(a, b);
    }
}

#[test]
fn parse_exponent_reads_each_marker() {
    assert_eq!(parse_exponent("e12x"), Ok((3, 12)));
    assert_eq!(parse_exponent("E-7"), Ok((3, -7)));
    assert_eq!(parse_exponent("*10^4"), Ok((5, 4)));
    assert_eq!(
        parse_exponent("x4"),
        Err(ParsingStandardFormError::Exponent)
    );
}

#[test]
fn parse_exponent_narrows_like_a_cast() {
    // The written exponent is itself a general number: its value truncates
    // toward zero and saturates into the 8-bit range.
    assert_eq!(parse_exponent("e2.7"), Ok((4, 2)));
    assert_eq!(parse_exponent("e1000"), Ok((5, 127)));
    assert_eq!(parse_exponent("e-1000"), Ok((6, -128)));
    assert_eq!(parse_exponent("e1e3"), Ok((4, 127)));
}
