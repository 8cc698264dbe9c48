//! The value type's behaviour on concrete inputs: normalization,
//! arithmetic, and comparison.

use core::cmp::Ordering;
use standard_form::Mantissa;
use standard_form::StandardForm;

#[test]
fn assignment_issue() {
    let sf1 = StandardForm::new(Mantissa::new(1, 0), 5);
    assert_eq!(*sf1.mantissa(), Mantissa::new(1, 0));
    assert_eq!(*sf1.exponent(), 5);
}

#[test]
fn from_u8_standardform() {
    let n = 2u8;
    let r: StandardForm = n.into();

    assert_eq!(r, StandardForm::new(Mantissa::new(2, 0), 0));
}

#[test]
fn test_normalize_with_valid_range() {
    let mut sf = StandardForm::new(Mantissa::new(25, 1), 3);
    sf.adjust();
    assert_eq!(*sf.mantissa(), Mantissa::new(25, 1));
    assert_eq!(*sf.exponent(), 3);
}

#[test]
fn test_normalize_with_invalid_range() {
    let mut sf = StandardForm::new(Mantissa::new(20, 0), 3);
    sf.adjust();
    assert_eq!(*sf.mantissa(), Mantissa::new(2, 0));
    assert_eq!(*sf.exponent(), 4);
}

#[test]
fn test_normalize_with_small_mantissa() {
    let mut sf = StandardForm::new(Mantissa::new(-25, 2), 2);
    sf.adjust();
    assert_eq!(*sf.mantissa(), Mantissa::new(-25, 1));
    assert_eq!(*sf.exponent(), 1);
}

#[test]
fn test_normalize_with_large_negative_mantissa() {
    let mut sf = StandardForm::new(Mantissa::new(-750, 0), 4);
    sf.adjust();
    assert_eq!(*sf.mantissa(), Mantissa::new(-75, 1));
    assert_eq!(*sf.exponent(), 6);
}

#[test]
fn addition() {
    // Addition between two standard-form values.
    let a = StandardForm::new(Mantissa::new(12, 1), 3);
    let b = StandardForm::new(Mantissa::new(34, 1), 2);
    let result = a.add(b);
    assert_eq!(result, StandardForm::new(Mantissa::new(154, 2), 3));
}

#[test]
fn addition_u8() {
    // Addition with a converted u8.
    let a = StandardForm::new(Mantissa::new(1, 0), 1);
    let b = 2u8;
    let result = a.add(StandardForm::from(b));
    assert_eq!(result, StandardForm::new(Mantissa::new(12, 1), 1));
}

#[test]
fn test_subtraction() {
    // Subtraction between two standard-form values.
    let a = StandardForm::new(Mantissa::new(46, 1), 2);
    let b = StandardForm::new(Mantissa::new(34, 1), 2);
    let result = a.sub(b);
    assert_eq!(result, StandardForm::new(Mantissa::new(12, 1), 2));
}

#[test]
fn multiplication() {
    // Multiplication between two standard-form values.
    let a = StandardForm::new(Mantissa::new(12, 1), 3);
    let b = StandardForm::new(Mantissa::new(3, 0), 2);
    let result = a.mul(b);
    assert_eq!(*result.mantissa(), Mantissa::new(36, 1));
    assert_eq!(*result.exponent(), 5);
}

#[test]
fn multiplication_u8() {
    // Multiplication with a converted u8.
    let a = StandardForm::new(Mantissa::new(1, 0), 1);
    let b = 2u8;
    let result = a.mul(StandardForm::from(b));
    assert_eq!(*result.mantissa(), Mantissa::new(2, 0));
    assert_eq!(*result.exponent(), 1);
}

#[test]
fn division() {
    // Division between two standard-form values.
    let a = StandardForm::new(Mantissa::new(4, 0), 2);
    let b = StandardForm::new(Mantissa::new(2, 0), 1);
    let result = a.div(b);
    assert_eq!(*result.mantissa(), Mantissa::new(2, 0));
    assert_eq!(*result.exponent(), 1);
}

#[test]
fn division_u8() {
    // Division by a converted u8.
    let a = StandardForm::new(Mantissa::new(2, 0), 1);
    let b = 2u8;
    let result = a.div(StandardForm::from(b));
    assert_eq!(*result.mantissa(), Mantissa::new(1, 0));
    assert_eq!(*result.exponent(), 1);
}

#[test]
fn add_assign() {
    let mut a = StandardForm::new(Mantissa::new(1, 0), 1);
    let b = StandardForm::new(Mantissa::new(2, 0), 1);
    a.add_assign(b);
    assert_eq!(*a.mantissa(), Mantissa::new(3, 0));
    assert_eq!(*a.exponent(), 1);
}

#[test]
fn add_assign_u8() {
    // In-place addition with a converted u8.
    let mut a = StandardForm::new(Mantissa::new(1, 0), 1);

    let b = 2u8;

    a.add_assign(StandardForm::from(b));
    assert_eq!(*a.mantissa(), Mantissa::new(12, 1));
    assert_eq!(*a.exponent(), 1);
}

#[test]
fn test_partial_cmp_equal() {
    let sf1 = StandardForm::new(Mantissa::new(123, 2), 3);
    let sf2 = StandardForm::new(Mantissa::new(123, 2), 3);

    assert_eq!(sf1.partial_cmp(&sf2), Some(Ordering::Equal));
}

#[test]
fn test_partial_cmp_greater() {
    // 300
    let sf1 = StandardForm::new(Mantissa::new(3, 0), 2);
    // 250
    let sf2 = StandardForm::new(Mantissa::new(25, 1), 2);

    assert_eq!(sf1.partial_cmp(&sf2), Some(Ordering::Greater));
}

#[test]
fn test_partial_cmp_less() {
    let sf1 = StandardForm::new(Mantissa::new(25, 1), 2);
    let sf2 = StandardForm::new(Mantissa::new(3, 0), 2);

    assert_eq!(sf1.partial_cmp(&sf2), Some(Ordering::Less));
}

#[test]
fn test_partial_cmp_different_exponents() {
    let sf1 = StandardForm::new(Mantissa::new(15, 1), 2);
    let sf2 = StandardForm::new(Mantissa::new(15, 1), 3);

    // When exponents differ, the comparison goes by the exponents alone.
    assert_eq!(sf1.partial_cmp(&sf2), Some(Ordering::Less));
}

#[test]
fn test_partial_cmp_zero() {
    let sf1 = StandardForm::new(Mantissa::new(0, 0), 0);
    let sf2 = StandardForm::new(Mantissa::new(0, 0), 0);

    assert_eq!(sf1.partial_cmp(&sf2), Some(Ordering::Equal));
}

#[test]
fn test_partial_cmp_mixed_sign() {
    let sf1 = StandardForm::new(Mantissa::new(-1, 0), 2);
    let sf2 = StandardForm::new(Mantissa::new(1, 0), 2);

    // A negative number is less than a positive one of the same magnitude.
    assert_eq!(sf1.partial_cmp(&sf2), Some(Ordering::Less));
}
