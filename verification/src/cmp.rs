//! Ordering of standard-form numbers: by exponent first, and only between
//! equal exponents by mantissa worth.

use crate::arith::{iabs, lemma_pow10_16, lemma_pow10_increases, lemma_pow10_pos,
    lemma_pow10_unfold, pow10, pow10_u128};
use crate::sf::{Mantissa, StandardForm};
use core::cmp::Ordering;
use vstd::prelude::*;

verus! {

/// Compares two mantissas by worth: `d1 * 10^-s1` against `d2 * 10^-s2`,
/// cross-multiplied to clear the scales.
pub open spec fn mantissa_cmp_spec(a: Mantissa, b: Mantissa) -> Ordering {
    let x = (a.digits as int) * pow10(b.scale as nat);
    let y = (b.digits as int) * pow10(a.scale as nat);
    if x < y {
        Ordering::Less
    } else if x == y {
        Ordering::Equal
    } else {
        Ordering::Greater
    }
}

/// The order of this type: a larger exponent means a larger number whatever
/// the mantissas (their signs included); only equal exponents compare
/// mantissas.
pub open spec fn cmp_spec(a: StandardForm, b: StandardForm) -> Ordering {
    if a.exponent == b.exponent {
        mantissa_cmp_spec(a.mantissa, b.mantissa)
    } else if a.exponent < b.exponent {
        Ordering::Less
    } else {
        Ordering::Greater
    }
}

/// Two normalized mantissas of equal worth are the same mantissa: the
/// stored writing of each significand is unique.
proof fn lemma_mantissa_unique(x: Mantissa, y: Mantissa)
    requires
        crate::sf::mantissa_wf(x),
        crate::sf::mantissa_wf(y),
        (x.digits as int) * pow10(y.scale as nat) == (y.digits as int) * pow10(x.scale as nat),
        x.scale <= y.scale,
    ensures
        x == y,
{
    let dx = x.digits as int;
    let dy = y.digits as int;
    let k: nat = (y.scale - x.scale) as nat;
    lemma_pow10_pos(x.scale as nat);
    lemma_pow10_pos(k);
    crate::arith::lemma_pow10_adds(x.scale as nat, k);
    assert(dx * pow10(k) == dy) by (nonlinear_arith)
        requires
            dx * (pow10(x.scale as nat) * pow10(k)) == dy * pow10(x.scale as nat),
            pow10(x.scale as nat) >= 1,
    ;
    if k == 0 {
        assert(pow10(0) == 1) by {
            vstd::arithmetic::power::lemma_pow0(10);
        }
        assert(dx * 1 == dx) by (nonlinear_arith);
    } else {
        if dx == 0 {
            assert(dy == 0) by (nonlinear_arith)
                requires
                    dx * pow10(k) == dy,
                    dx == 0,
            ;
        } else {
            crate::arith::lemma_pow10_unfold(k);
            assert(dy == (dx * pow10((k - 1) as nat)) * 10) by (nonlinear_arith)
                requires
                    dx * pow10(k) == dy,
                    pow10(k) == 10 * pow10((k - 1) as nat),
            ;
            assert(dy % 10 == 0) by {
                vstd::arithmetic::div_mod::lemma_mod_multiples_basic(
                    dx * pow10((k - 1) as nat),
                    10,
                );
            }
            assert(dy != 0) by (nonlinear_arith)
                requires
                    dy == dx * pow10(k),
                    dx != 0,
                    pow10(k) >= 1,
            ;
        }
    }
}

/// On equal exponents, comparing `Equal` is exactly structural equality:
/// the normalized writing of each number under a fixed exponent is unique.
pub proof fn lemma_cmp_equal_is_equality(a: StandardForm, b: StandardForm)
    requires
        a.wf(),
        b.wf(),
        a.exp() == b.exp(),
    ensures
        (cmp_spec(a, b) == Ordering::Equal) == (a == b),
{
    if cmp_spec(a, b) == Ordering::Equal {
        if a.mantissa.scale <= b.mantissa.scale {
            lemma_mantissa_unique(a.mantissa, b.mantissa);
        } else {
            lemma_mantissa_unique(b.mantissa, a.mantissa);
        }
    }
}

impl StandardForm {
    /// Compares by exponent, then (on equal exponents) by mantissa worth.
    /// The model has no mantissa that fails to compare, so the answer is
    /// always `Some`.
    pub fn partial_cmp(&self, other: &Self) -> (r: Option<Ordering>)
        requires
            self.wf(),
            other.wf(),
        ensures
            r == Some(cmp_spec(*self, *other)),
    {
        if self.exponent == other.exponent {
            proof {
                lemma_pow10_16();
                lemma_pow10_unfold(16);
                lemma_pow10_pos(self.scale());
                lemma_pow10_pos(other.scale());
                lemma_pow10_increases(self.scale(), 15);
                lemma_pow10_increases(other.scale(), 15);
                lemma_pow10_increases(self.scale() + 1, 16);
                lemma_pow10_increases(other.scale() + 1, 16);
                assert((self.digits()) * pow10(other.scale()) <= pow10(16) * pow10(15)
                    && (self.digits()) * pow10(other.scale()) >= -(pow10(16) * pow10(15)))
                    by (nonlinear_arith)
                    requires
                        iabs(self.digits()) <= pow10(16),
                        0 <= pow10(other.scale()) <= pow10(15),
                ;
                assert((other.digits()) * pow10(self.scale()) <= pow10(16) * pow10(15)
                    && (other.digits()) * pow10(self.scale()) >= -(pow10(16) * pow10(15)))
                    by (nonlinear_arith)
                    requires
                        iabs(other.digits()) <= pow10(16),
                        0 <= pow10(self.scale()) <= pow10(15),
                ;
            }
            let x: i128 = (self.mantissa.digits as i128) * (pow10_u128(other.mantissa.scale)
                as i128);
            let y: i128 = (other.mantissa.digits as i128) * (pow10_u128(self.mantissa.scale)
                as i128);
            if x < y {
                Some(Ordering::Less)
            } else if x == y {
                Some(Ordering::Equal)
            } else {
                Some(Ordering::Greater)
            }
        } else if self.exponent < other.exponent {
            Some(Ordering::Less)
        } else {
            Some(Ordering::Greater)
        }
    }

    /// The same order as [`StandardForm::partial_cmp`], which never fails.
    pub fn cmp(&self, other: &Self) -> (r: Ordering)
        requires
            self.wf(),
            other.wf(),
        ensures
            r == cmp_spec(*self, *other),
    {
        match self.partial_cmp(other) {
            Some(o) => o,
            None => Ordering::Equal,
        }
    }
}

} // verus!
