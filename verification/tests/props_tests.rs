//! Concrete cases pinning the documented behaviour: normalization results,
//! arithmetic identities, formatting, round trips, conversions, and every
//! error variant.

use core::cmp::Ordering;
use standard_form::Mantissa;
use standard_form::ParsingStandardFormError;
use standard_form::StandardForm;

#[test]
fn normalization_cases() {
    // 20.0 * 10^3 stores as 2.0 * 10^4.
    let a = StandardForm::new(Mantissa::new(20, 0), 3);
    assert_eq!(*a.mantissa(), Mantissa::new(2, 0));
    assert_eq!(*a.exponent(), 4);
    // -0.25 * 10^2 stores as -2.5 * 10^1.
    let b = StandardForm::new(Mantissa::new(-25, 2), 2);
    assert_eq!(*b.mantissa(), Mantissa::new(-25, 1));
    assert_eq!(*b.exponent(), 1);
}

#[test]
fn boundary_mantissa_ten_is_kept() {
    // The in-range check is inclusive at ten: a mantissa of exactly 10 (or
    // -10) stays written that way rather than moving to 1 at the next
    // exponent.
    let a = StandardForm::new(Mantissa::new(10, 0), 2);
    assert_eq!(*a.mantissa(), Mantissa::new(10, 0));
    assert_eq!(*a.exponent(), 2);
    // Approached from above, the boundary is where the shifting stops.
    let b = StandardForm::new(Mantissa::new(100, 0), 0);
    assert_eq!(*b.mantissa(), Mantissa::new(10, 0));
    assert_eq!(*b.exponent(), 1);
    // Approached from below, the shifting stops inside [1, 10).
    let c = StandardForm::new(Mantissa::new(1, 2), 0);
    assert_eq!(*c.mantissa(), Mantissa::new(1, 0));
    assert_eq!(*c.exponent(), -2);
}

#[test]
fn exponent_wraps_modulo_256() {
    // The stored exponent is 8-bit; renormalization past its end wraps, as
    // the narrow field forces.
    let a = StandardForm::new(Mantissa::new(50, 0), 127);
    assert_eq!(*a.mantissa(), Mantissa::new(5, 0));
    assert_eq!(*a.exponent(), -128);
}

#[test]
fn addition_case() {
    let r = StandardForm::new(Mantissa::new(12, 1), 3).add(StandardForm::new(
        Mantissa::new(34, 1),
        2,
    ));
    assert_eq!(r, StandardForm::new(Mantissa::new(154, 2), 3));
}

#[test]
fn subtraction_case() {
    let r = StandardForm::new(Mantissa::new(46, 1), 2).sub(StandardForm::new(
        Mantissa::new(34, 1),
        2,
    ));
    assert_eq!(r, StandardForm::new(Mantissa::new(12, 1), 2));
}

#[test]
fn multiplication_case() {
    let r = StandardForm::new(Mantissa::new(12, 1), 3).mul(StandardForm::new(
        Mantissa::new(3, 0),
        2,
    ));
    assert_eq!(*r.mantissa(), Mantissa::new(36, 1));
    assert_eq!(*r.exponent(), 5);
}

#[test]
fn try_from_star_notation() {
    let r = StandardForm::try_from("2.5*10^-2").unwrap();
    assert_eq!(*r.mantissa(), Mantissa::new(25, 1));
    assert_eq!(*r.exponent(), -2);
}

#[test]
fn try_from_invalid_is_invalid_format() {
    assert_eq!(
        StandardForm::try_from("invalid"),
        Err(ParsingStandardFormError::InvalidFormat)
    );
}

#[test]
fn try_from_error_variants() {
    // A mantissa that fails to read, in the `e` shape.
    assert_eq!(
        StandardForm::try_from("xye3"),
        Err(ParsingStandardFormError::Mantissa)
    );
    // An exponent that fails to read as a signed 8-bit integer.
    assert_eq!(
        StandardForm::try_from("1e2e3"),
        Err(ParsingStandardFormError::Exponent)
    );
    assert_eq!(
        StandardForm::try_from("2.5*10^999"),
        Err(ParsingStandardFormError::Exponent)
    );
    // A caret without the full star marker.
    assert_eq!(
        StandardForm::try_from("2.5^2"),
        Err(ParsingStandardFormError::InvalidFormat)
    );
}

#[test]
fn try_from_bytes_checks_encoding() {
    assert_eq!(
        StandardForm::try_from_bytes(&[0xff, 0xfe]),
        Err(ParsingStandardFormError::InvalidBytes)
    );
    let ok = StandardForm::try_from_bytes(b"2.5*10^-2").unwrap();
    assert_eq!(ok, StandardForm::new(Mantissa::new(25, 1), -2));
}

#[test]
fn from_str_radix_only_ten() {
    assert_eq!(
        StandardForm::from_str_radix("42", 16),
        Err(ParsingStandardFormError::InvalidRadix)
    );
    let ok = StandardForm::from_str_radix("42", 10).unwrap();
    assert_eq!(ok, StandardForm::new(Mantissa::new(42, 0), 0));
}

#[test]
fn new_from_string_reports_messages() {
    assert!(StandardForm::new_from_string("1.23e3").is_ok());
    assert_eq!(
        StandardForm::new_from_string("invalid"),
        Err(String::from("Invalid format"))
    );
}

#[test]
fn error_messages() {
    assert_eq!(
        ParsingStandardFormError::Mantissa.message(),
        "Failed parsing mantissa"
    );
    assert_eq!(
        ParsingStandardFormError::Exponent.message(),
        "Failed parsing exponent"
    );
    assert_eq!(ParsingStandardFormError::InvalidFormat.message(), "Invalid format");
    assert_eq!(
        ParsingStandardFormError::InvalidBytes.message(),
        "Given bytes are not formatted in UTF-8"
    );
    assert_eq!(
        ParsingStandardFormError::InvalidRadix.message(),
        "Invalid radix : Only radix 10 is supported"
    );
}

#[test]
fn scientific_notation_round_trip() {
    // parse(format_scientific(v)) gives back v, structurally.
    let values = [
        StandardForm::new(Mantissa::new(154, 2), 3),
        StandardForm::new(Mantissa::new(-75, 1), 6),
        StandardForm::new(Mantissa::new(1, 0), -128),
        StandardForm::new(Mantissa::new(10, 0), 2),
        StandardForm::new(Mantissa::new(0, 0), 0),
        StandardForm::new(Mantissa::new(9_999_999_999_999_999, 15), 127),
    ];
    for v in values {
        let text = v.to_scientific_notation();
        let back = StandardForm::try_from(text.as_str()).unwrap();
        assert_eq!(back, v);
    }
}

#[test]
fn formatting_notations() {
    let v = StandardForm::new(Mantissa::new(154, 2), 3);
    assert_eq!(v.to_scientific_notation(), String::from("1.54e3"));
    assert_eq!(v.to_engineering_notation(), String::from("1.54*10^3"));
    let w = StandardForm::new(Mantissa::new(-75, 1), -2);
    assert_eq!(w.to_scientific_notation(), String::from("-7.5e-2"));
    assert_eq!(w.to_engineering_notation(), String::from("-7.5*10^-2"));
}

#[test]
fn display_rule() {
    // Past exponent four the display is scientific; otherwise the plain
    // decimal worth.
    assert_eq!(
        StandardForm::new(Mantissa::new(154, 2), 5).to_display_string(),
        String::from("1.54e5")
    );
    assert_eq!(
        StandardForm::new(Mantissa::new(25, 1), 3).to_display_string(),
        String::from("2500")
    );
    assert_eq!(
        StandardForm::new(Mantissa::new(25, 1), -2).to_display_string(),
        String::from("0.025")
    );
    assert_eq!(
        StandardForm::new(Mantissa::new(0, 0), 0).to_display_string(),
        String::from("0")
    );
}

#[test]
fn additive_identity_and_commutativity() {
    let a = StandardForm::new(Mantissa::new(12, 1), 3);
    let b = StandardForm::new(Mantissa::new(-7, 0), 1);
    assert_eq!(a.add(b), b.add(a));
    assert_eq!(a.add(StandardForm::zero()), a);
    assert_eq!(b.add(StandardForm::zero()), b);
}

#[test]
fn multiplicative_identity() {
    let a = StandardForm::new(Mantissa::new(12, 1), 3);
    assert_eq!(a.mul(StandardForm::one()), a);
    let b = StandardForm::new(Mantissa::new(-987_654, 5), -4);
    assert_eq!(b.mul(StandardForm::one()), b);
}

#[test]
fn ordering_by_exponent_regardless_of_sign() {
    // A negative mantissa under a larger exponent still ranks higher.
    let lo = StandardForm::new(Mantissa::new(9, 0), 1);
    let hi = StandardForm::new(Mantissa::new(-1, 0), 2);
    assert_eq!(lo.partial_cmp(&hi), Some(Ordering::Less));
    assert_eq!(
        StandardForm::new(Mantissa::new(-1, 0), 2)
            .partial_cmp(&StandardForm::new(Mantissa::new(1, 0), 2)),
        Some(Ordering::Less)
    );
    assert_eq!(lo.cmp(&hi), Ordering::Less);
}

#[test]
fn division_assignment_subtracts_exponents() {
    // In-place division has the one sound division semantics: the
    // exponents subtract, exactly as in the non-assigning divide.
    let mut a = StandardForm::new(Mantissa::new(4, 0), 2);
    let b = StandardForm::new(Mantissa::new(2, 0), 1);
    a.div_assign(b);
    assert_eq!(a, StandardForm::new(Mantissa::new(4, 0), 2).div(b));
    assert_eq!(*a.exponent(), 1);
}

#[test]
fn division_rounds_to_seventeen_digits() {
    // 1 / 3 has no finite decimal writing: the quotient is computed to 17
    // significant digits and normalized.
    let a = StandardForm::new(Mantissa::new(1, 0), 0);
    let b = StandardForm::new(Mantissa::new(3, 0), 0);
    let r = a.div(b);
    assert_eq!(*r.mantissa(), Mantissa::new(3_333_333_333_333_333, 15));
    assert_eq!(*r.exponent(), -1);
}

#[test]
fn multiplication_rounds_to_six_fractional_digits() {
    // The product of the mantissas is rounded to six fractional digits, so
    // even multiplying by one rounds a finer mantissa.
    let a = StandardForm::new(Mantissa::new(12_345_678, 7), 0);
    let r = a.mul(StandardForm::one());
    assert_eq!(*r.mantissa(), Mantissa::new(1_234_568, 6));
    assert_eq!(*r.exponent(), 0);
}

#[test]
fn distant_addend_is_absorbed() {
    // An operand whose exponent sits 18 or more below the other's lies
    // entirely under the precision a result carries, and is absorbed.
    let a = StandardForm::new(Mantissa::new(15, 1), 20);
    let tiny = StandardForm::new(Mantissa::new(1, 0), 0);
    assert_eq!(a.add(tiny), a);
    assert_eq!(tiny.add(a), a);
    assert_eq!(a.sub(tiny), a);
}

#[test]
fn subtracting_zero_renormalizes_across_the_gap() {
    // Subtraction aligns to the smaller exponent; a mantissa of 1 shifted
    // across the gap renormalizes from above and lands on the inclusive
    // boundary writing 10, one exponent down.
    let a = StandardForm::new(Mantissa::new(1, 0), 50);
    let r = a.sub(StandardForm::zero());
    assert_eq!(*r.mantissa(), Mantissa::new(10, 0));
    assert_eq!(*r.exponent(), 49);
}

#[test]
fn remainder_case() {
    let a = StandardForm::new(Mantissa::new(7, 0), 0);
    let b = StandardForm::new(Mantissa::new(2, 0), 0);
    assert_eq!(a.rem(b), StandardForm::zero());
}

#[test]
fn sub_assign_and_mul_assign() {
    let mut a = StandardForm::new(Mantissa::new(46, 1), 2);
    a.sub_assign(StandardForm::new(Mantissa::new(34, 1), 2));
    assert_eq!(a, StandardForm::new(Mantissa::new(12, 1), 2));
    let mut m = StandardForm::new(Mantissa::new(12, 1), 3);
    m.mul_assign(StandardForm::new(Mantissa::new(3, 0), 2));
    assert_eq!(m, StandardForm::new(Mantissa::new(36, 1), 5));
}

#[test]
fn subtraction_rounds_to_six_fractional_digits() {
    // The difference is rounded to six decimal fractional digits before
    // renormalizing, ties away from zero.
    let a = StandardForm::new(Mantissa::new(150_000_055, 8), 0);
    let z = StandardForm::new(Mantissa::new(0, 0), 0);
    let r = a.sub(z);
    assert_eq!(*r.mantissa(), Mantissa::new(1_500_001, 6));
}

#[test]
fn signs_and_magnitudes() {
    let a = StandardForm::new(Mantissa::new(-25, 1), 2);
    assert!(a.is_negative());
    assert!(!a.is_positive());
    assert_eq!(a.abs(), StandardForm::new(Mantissa::new(25, 1), 2));
    assert_eq!(a.neg(), StandardForm::new(Mantissa::new(25, 1), 2));
    assert_eq!(a.signum(), StandardForm::new(Mantissa::new(-1, 0), 0));
    // A zero mantissa counts as positive, as the model has no negative zero.
    assert_eq!(StandardForm::zero().signum(), StandardForm::one());
    assert!(StandardForm::zero().is_positive());
}

#[test]
fn abs_sub_cases() {
    let a = StandardForm::new(Mantissa::new(46, 1), 2);
    let b = StandardForm::new(Mantissa::new(34, 1), 2);
    assert_eq!(a.abs_sub(&b), StandardForm::new(Mantissa::new(12, 1), 2));
    assert_eq!(b.abs_sub(&a), StandardForm::zero());
    assert_eq!(a.abs_sub(&a), StandardForm::zero());
}

#[test]
fn integer_conversions() {
    assert_eq!(
        StandardForm::from_i64(-12345),
        Some(StandardForm::new(Mantissa::new(-12345, 0), 0))
    );
    assert_eq!(
        StandardForm::from_u64(u64::MAX),
        Some(StandardForm::try_from("1.8446744073709552e19").unwrap())
    );
    let v = StandardForm::new(Mantissa::new(25, 1), 2);
    assert_eq!(v.to_i64(), Some(250));
    assert_eq!(v.to_u64(), Some(250));
    let w = StandardForm::new(Mantissa::new(25, 1), 0);
    assert_eq!(w.to_i64(), Some(2));
    let neg = StandardForm::new(Mantissa::new(-25, 1), 0);
    assert_eq!(neg.to_i64(), Some(-2));
    assert_eq!(neg.to_u64(), Some(0));
    // Saturation at the 64-bit ends.
    let big = StandardForm::new(Mantissa::new(1, 0), 30);
    assert_eq!(big.to_i64(), Some(i64::MAX));
    assert_eq!(big.neg().to_i64(), Some(i64::MIN));
    assert_eq!(big.to_u64(), Some(u64::MAX));
}

#[test]
fn is_zero_and_defaults() {
    assert!(StandardForm::zero().is_zero());
    assert!(!StandardForm::one().is_zero());
    assert_eq!(StandardForm::default(), StandardForm::one());
}

#[test]
fn parsing_rounds_to_seventeen_digits() {
    // A mantissa finer than 17 significant digits is rounded, half up.
    let v = StandardForm::try_from("123456789012345678").unwrap();
    assert_eq!(*v.mantissa(), Mantissa::new(1_234_567_890_123_457, 15));
    assert_eq!(*v.exponent(), 17);
}
