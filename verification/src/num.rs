//! The generic-numeric capabilities of the type: zero and one, sign
//! handling, and conversions to and from the native integer widths.

use crate::arith::{
    iabs, lemma_pow10_16, lemma_pow10_19, lemma_pow10_38, lemma_pow10_increases, lemma_pow10_pos,
    mul_pow10_i128, pow10, pow10_u128,
};
use crate::cmp::cmp_spec;
use crate::ops::{norm_wrapped, pack, parts, sub_spec};
use crate::sf::{signed_mag, Mantissa, StandardForm};
use core::cmp::Ordering;
use vstd::prelude::*;

verus! {

/// Truncation of a stored value toward zero: the integer part of
/// `digits * 10^(exponent - scale)`.
pub open spec fn trunc_spec(v: StandardForm) -> int {
    let p = v.exp() - v.scale();
    if p >= 0 {
        v.digits() * pow10(p as nat)
    } else {
        signed_mag(v.digits() < 0, iabs(v.digits()) / pow10((-p) as nat))
    }
}

/// Saturation of a mathematical integer into the signed 64-bit range.
pub open spec fn clamp_i64(x: int) -> int {
    if x > i64::MAX {
        i64::MAX as int
    } else if x < i64::MIN {
        i64::MIN as int
    } else {
        x
    }
}

/// Saturation of a mathematical integer into the unsigned 64-bit range.
pub open spec fn clamp_u64(x: int) -> int {
    if x > u64::MAX {
        u64::MAX as int
    } else if x < 0 {
        0
    } else {
        x
    }
}

/// The stored value a native integer converts to.
pub open spec fn sf_from_int(n: int) -> StandardForm {
    pack(norm_wrapped(n, 0, 0))
}

impl StandardForm {
    /// The number zero: mantissa `0`, exponent `0`.
    pub fn zero() -> (r: Self)
        ensures
            r.mantissa.digits == 0,
            r.mantissa.scale == 0,
            r.exponent == 0,
            r.wf(),
    {
        StandardForm::new_unchecked(Mantissa::new(0, 0), 0)
    }

    /// Is the mantissa zero?
    pub fn is_zero(&self) -> (b: bool)
        ensures
            b == (self.digits() == 0),
    {
        self.mantissa.digits == 0
    }

    /// The number one: mantissa `1`, exponent `0`.
    pub fn one() -> (r: Self)
        ensures
            r.mantissa.digits == 1,
            r.mantissa.scale == 0,
            r.exponent == 0,
            r.wf(),
    {
        proof {
            assert(pow10(0) == 1) by {
                vstd::arithmetic::power::lemma_pow0(10);
            }
            crate::arith::lemma_pow10_unfold(1);
        }
        StandardForm::new_unchecked(Mantissa::new(1, 0), 0)
    }

    /// The absolute value: the mantissa's sign dropped, nothing else moved.
    pub fn abs(&self) -> (r: Self)
        requires
            self.wf(),
        ensures
            parts(r) == (iabs(self.digits()), self.scale(), self.exp()),
            r.wf(),
    {
        if self.mantissa.digits < 0 {
            (*self).neg()
        } else {
            *self
        }
    }

    /// `self - other` where that is positive, and zero otherwise.
    pub fn abs_sub(&self, other: &Self) -> (r: Self)
        requires
            self.wf(),
            other.wf(),
        ensures
            cmp_spec(*self, *other) != Ordering::Greater ==> parts(r) == (0int, 0nat, 0int),
            cmp_spec(*self, *other) == Ordering::Greater ==> parts(r) == sub_spec(*self, *other),
            r.wf(),
    {
        match self.cmp(other) {
            Ordering::Greater => (*self).sub(*other),
            _ => Self::zero(),
        }
    }

    /// The sign of the number as a value: one for a non-negative mantissa
    /// (a zero mantissa counts as positive, as the model holds no negative
    /// zero), minus one for a negative one.
    pub fn signum(&self) -> (r: Self)
        ensures
            self.digits() >= 0 ==> parts(r) == (1int, 0nat, 0int),
            self.digits() < 0 ==> parts(r) == (-1int, 0nat, 0int),
            r.wf(),
    {
        if self.mantissa.digits >= 0 {
            Self::one()
        } else {
            proof {
                assert(pow10(0) == 1) by {
                    vstd::arithmetic::power::lemma_pow0(10);
                }
                crate::arith::lemma_pow10_unfold(1);
            }
            StandardForm::new_unchecked(Mantissa::new(-1, 0), 0)
        }
    }

    /// Is the mantissa's sign positive?  A zero mantissa counts as positive.
    pub fn is_positive(&self) -> (b: bool)
        ensures
            b == (self.digits() >= 0),
    {
        self.mantissa.digits >= 0
    }

    /// Is the mantissa's sign negative?
    pub fn is_negative(&self) -> (b: bool)
        ensures
            b == (self.digits() < 0),
    {
        self.mantissa.digits < 0
    }

    /// The signed 64-bit integer `n`, exactly; conversion never fails.
    pub fn from_i64(n: i64) -> (r: Option<Self>)
        ensures
            r matches Some(v) && v == sf_from_int(n as int),
    {
        let v = StandardForm::new(Mantissa::from_int(n), 0);
        proof {
            crate::ops::lemma_pack_parts(v);
        }
        Some(v)
    }

    /// The unsigned 64-bit integer `n`, exactly; conversion never fails.
    pub fn from_u64(n: u64) -> (r: Option<Self>)
        ensures
            r matches Some(v) && v == sf_from_int(n as int),
    {
        proof {
            lemma_pow10_19();
            crate::arith::lemma_pow10_unfold(20);
            lemma_pow10_increases(20, 37);
        }
        let v = StandardForm::normalize_parts(n as i128, 0, 0);
        proof {
            crate::ops::lemma_pack_parts(v);
        }
        Some(v)
    }

    /// Computes the truncated value, saturated just beyond the 64-bit
    /// ranges: exact whenever the true truncation is, and on the same side
    /// of them otherwise.
    fn trunc_sat(&self) -> (t: i128)
        requires
            self.wf(),
        ensures
            t as int == trunc_spec(*self) || (t > pow10(20) && trunc_spec(*self) > pow10(20)) || (
            t < -pow10(20) && trunc_spec(*self) < -pow10(20)),
    {
        proof {
            lemma_pow10_16();
            lemma_pow10_38();
            lemma_pow10_increases(16, 37);
            lemma_pow10_increases(20, 21);
            lemma_pow10_increases(21, 38);
            if self.digits() != 0 {
                lemma_pow10_increases(self.scale() + 1, 16);
            }
        }
        if self.mantissa.digits == 0 {
            proof {
                assert(trunc_spec(*self) == 0) by {
                    let p = self.exp() - self.scale();
                    if p >= 0 {
                        assert(self.digits() * pow10(p as nat) == 0) by (nonlinear_arith)
                            requires
                                self.digits() == 0,
                        ;
                    } else {
                        lemma_pow10_pos((-p) as nat);
                        vstd::arithmetic::div_mod::lemma_basic_div(0, pow10((-p) as nat));
                    }
                }
            }
            return 0;
        }
        let p: i32 = self.exponent as i32 - self.mantissa.scale as i32;
        if p >= 21 {
            proof {
                lemma_pow10_increases(21, p as nat);
                lemma_pow10_pos(p as nat);
                crate::arith::lemma_iabs_mul(self.digits(), pow10(p as nat));
                assert(iabs(self.digits() * pow10(p as nat)) >= pow10(p as nat))
                    by (nonlinear_arith)
                    requires
                        iabs(self.digits()) >= 1,
                        pow10(p as nat) >= 1,
                        iabs(self.digits() * pow10(p as nat)) == iabs(self.digits()) * pow10(
                            p as nat,
                        ),
                ;
                crate::arith::lemma_pow10_strictly_increases(20, 21);
                if self.digits() > 0 {
                    assert(self.digits() * pow10(p as nat) > 0) by (nonlinear_arith)
                        requires
                            self.digits() > 0,
                            pow10(p as nat) >= 1,
                    ;
                } else {
                    assert(self.digits() * pow10(p as nat) < 0) by (nonlinear_arith)
                        requires
                            self.digits() < 0,
                            pow10(p as nat) >= 1,
                    ;
                }
            }
            if self.mantissa.digits > 0 {
                return pow10_u128(21) as i128;
            }
            return -(pow10_u128(21) as i128);
        }
        if p >= 0 {
            proof {
                lemma_pow10_increases(self.scale() + 1, (37 - p) as nat);
            }
            return mul_pow10_i128(self.mantissa.digits as i128, p as u32);
        }
        let k: u32 = (-p) as u32;
        let neg: bool = self.mantissa.digits < 0;
        let ud: u128 = if neg {
            (-(self.mantissa.digits as i128)) as u128
        } else {
            self.mantissa.digits as u128
        };
        if k >= 17 {
            proof {
                lemma_pow10_increases(17, k as nat);
                assert(pow10(17) == 10 * pow10(16)) by {
                    crate::arith::lemma_pow10_unfold(17);
                }
                lemma_pow10_increases(self.scale() + 1, 16);
                assert(iabs(self.digits()) < pow10(k as nat));
                vstd::arithmetic::div_mod::lemma_basic_div(
                    iabs(self.digits()),
                    pow10(k as nat),
                );
            }
            return 0;
        }
        proof {
            lemma_pow10_pos(k as nat);
        }
        let q: u128 = ud / pow10_u128(k);
        proof {
            lemma_pow10_pos(k as nat);
            vstd::arithmetic::div_mod::lemma_div_nonincreasing(ud as int, pow10(k as nat));
        }
        if neg {
            -(q as i128)
        } else {
            q as i128
        }
    }

    /// The value truncated toward zero and saturated into a signed 64-bit
    /// integer; never fails.
    pub fn to_i64(&self) -> (r: Option<i64>)
        requires
            self.wf(),
        ensures
            r matches Some(v) && v as int == clamp_i64(trunc_spec(*self)),
    {
        proof {
            lemma_pow10_19();
            lemma_pow10_increases(19, 20);
        }
        let t: i128 = self.trunc_sat();
        if t > i64::MAX as i128 {
            Some(i64::MAX)
        } else if t < i64::MIN as i128 {
            Some(i64::MIN)
        } else {
            Some(t as i64)
        }
    }

    /// The value truncated toward zero and saturated into an unsigned
    /// 64-bit integer; never fails.  Negative values give zero.
    pub fn to_u64(&self) -> (r: Option<u64>)
        requires
            self.wf(),
        ensures
            r matches Some(v) && v as int == clamp_u64(trunc_spec(*self)),
    {
        proof {
            lemma_pow10_19();
            crate::arith::lemma_pow10_unfold(20);
            lemma_pow10_increases(19, 20);
        }
        let t: i128 = self.trunc_sat();
        if t < 0 {
            Some(0)
        } else if t > u64::MAX as i128 {
            Some(u64::MAX)
        } else {
            Some(t as u64)
        }
    }
}

} // verus!
