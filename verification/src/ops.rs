//! Arithmetic on standard-form numbers.
//!
//! Addition aligns both operands to the larger exponent, sums the aligned
//! mantissas exactly and renormalizes.  Subtraction aligns to the smaller
//! exponent and rounds the raw difference to six decimal fractional digits
//! before renormalizing; multiplication rounds the product of the mantissas
//! the same way.  Division rounds the quotient of the mantissas to 17
//! significant digits.  When two operands' exponents differ by 18 or more,
//! the finer operand falls entirely below the precision a result can carry,
//! and the dominant operand is returned unchanged (the decimal counterpart of
//! a negligible addend being absorbed).  Exponent arithmetic wraps modulo the
//! signed 8-bit range, the behaviour the stored exponent width forces.

use crate::arith::{
    div_round_away, iabs, idiv_round_away, lemma_iabs_mul, lemma_mul_pow10_bound,
    lemma_neg_div_mod_10, lemma_neg_mod_10_nonzero, lemma_pow10_16, lemma_pow10_38,
    lemma_pow10_increases, lemma_pow10_pos, lemma_pow10_unfold, lemma_wrap_i8_id, mul_pow10_i128,
    pow10, pow10_u128, sdiv_round_away, wrap_i8,
};
use crate::sf::{norm_spec, Mantissa, StandardForm};
use vstd::prelude::*;

verus! {

/// The stored parts of a value: digits, scale, exponent.
pub open spec fn parts(r: StandardForm) -> (int, nat, int) {
    (r.digits(), r.scale(), r.exp())
}

/// The parts that normalizing `d * 10^-s * 10^e` stores, exponent wrapped.
pub open spec fn norm_wrapped(d: int, s: nat, e: int) -> (int, nat, int) {
    let n = norm_spec(d, s, e);
    (n.0, n.1, wrap_i8(n.2))
}

/// A parts triple written back as a value.  Faithful whenever the triple
/// came from a normalized value (see [`lemma_pack_parts`]).
pub open spec fn pack(t: (int, nat, int)) -> StandardForm {
    StandardForm { mantissa: Mantissa { digits: t.0 as i64, scale: t.1 as u32 }, exponent: t.2 as i8 }
}

/// Packing undoes taking parts on any well-formed value.
pub proof fn lemma_pack_parts(r: StandardForm)
    requires
        r.wf(),
    ensures
        pack(parts(r)) == r,
{
    lemma_pow10_16();
    if r.digits() != 0 {
        lemma_pow10_increases(r.scale() + 1, 16);
    }
}

/// The rounding pass shared by subtraction and multiplication: at most six
/// decimal fractional digits stay, ties away from zero.
pub open spec fn round6_spec(d: int, s: nat) -> (int, nat) {
    if s > 6 {
        (div_round_away(d, pow10((s - 6) as nat)), 6)
    } else {
        (d, s)
    }
}

/// What addition stores: operands aligned to the larger exponent, mantissas
/// summed exactly, then normalized.  A zero operand leaves the other
/// (realigned if the zero carried the larger exponent); when both exponents
/// differ by 18 or more the finer operand is absorbed.
pub open spec fn add_spec(a: StandardForm, b: StandardForm) -> (int, nat, int) {
    let ea = a.exp();
    let eb = b.exp();
    let mx: int = if ea >= eb {
        ea
    } else {
        eb
    };
    let diff: int = if ea >= eb {
        ea - eb
    } else {
        eb - ea
    };
    if a.digits() == 0 && b.digits() == 0 {
        (0, 0, wrap_i8(mx))
    } else if a.digits() == 0 {
        if ea > eb {
            norm_wrapped(b.digits(), (b.scale() + (ea - eb)) as nat, ea)
        } else {
            parts(b)
        }
    } else if b.digits() == 0 {
        if eb > ea {
            norm_wrapped(a.digits(), (a.scale() + (eb - ea)) as nat, eb)
        } else {
            parts(a)
        }
    } else if diff >= 18 {
        if ea >= eb {
            parts(a)
        } else {
            parts(b)
        }
    } else {
        let sa2: nat = (a.scale() + (mx - ea)) as nat;
        let sb2: nat = (b.scale() + (mx - eb)) as nat;
        let c: nat = if sa2 >= sb2 {
            sa2
        } else {
            sb2
        };
        let d = a.digits() * pow10((c - sa2) as nat) + b.digits() * pow10((c - sb2) as nat);
        norm_wrapped(d, c, mx)
    }
}

/// What subtraction stores: operands aligned to the smaller exponent, the
/// difference rounded to six fractional digits, then normalized.  A dominant
/// operand (exponent larger by 18 or more) absorbs a finer non-zero one;
/// against a zero the exact shifted writing is kept, which lands the
/// boundary mantissas `1` and `-1` on their `10`-writing one exponent down.
pub open spec fn sub_spec(a: StandardForm, b: StandardForm) -> (int, nat, int) {
    let ea = a.exp();
    let eb = b.exp();
    let mn: int = if ea <= eb {
        ea
    } else {
        eb
    };
    let diff: int = if ea >= eb {
        ea - eb
    } else {
        eb - ea
    };
    let big_zero: bool = if ea >= eb {
        a.digits() == 0
    } else {
        b.digits() == 0
    };
    if diff <= 17 || big_zero {
        let da2 = ea - mn;
        let db2 = eb - mn;
        let fa = a.scale() as int - da2;
        let fb = b.scale() as int - db2;
        let c: int = if fa >= fb && fa >= 0 {
            fa
        } else if fb >= fa && fb >= 0 {
            fb
        } else {
            0
        };
        let d = a.digits() * pow10((c + da2 - a.scale()) as nat) - b.digits() * pow10(
            (c + db2 - b.scale()) as nat,
        );
        let r6 = round6_spec(d, c as nat);
        norm_wrapped(r6.0, r6.1, mn)
    } else if ea > eb {
        if b.digits() == 0 {
            if a.digits() == 1 || a.digits() == -1 {
                (a.digits() * 10, 0, wrap_i8(ea - 1))
            } else {
                parts(a)
            }
        } else {
            parts(a)
        }
    } else {
        if a.digits() == 0 {
            if b.digits() == 1 || b.digits() == -1 {
                (-b.digits() * 10, 0, wrap_i8(eb - 1))
            } else {
                (-b.digits(), b.scale(), b.exp())
            }
        } else {
            (-b.digits(), b.scale(), b.exp())
        }
    }
}

/// What multiplication stores: exponents added (wrapping), mantissas
/// multiplied exactly, the product rounded to six fractional digits, then
/// normalized.
pub open spec fn mul_spec(a: StandardForm, b: StandardForm) -> (int, nat, int) {
    let d = a.digits() * b.digits();
    let s = a.scale() + b.scale();
    let r6 = round6_spec(d, s);
    norm_wrapped(r6.0, r6.1, a.exp() + b.exp())
}

/// What division stores: exponents subtracted (wrapping), the quotient of
/// the mantissas computed to 17 significant digits (ties away from zero),
/// then normalized.  Defined for a non-zero divisor mantissa.
pub open spec fn div_spec(a: StandardForm, b: StandardForm) -> (int, nat, int) {
    let e = a.exp() - b.exp();
    if a.digits() == 0 {
        (0, 0, wrap_i8(e))
    } else {
        let k: nat = (16 + b.scale() - a.scale()) as nat;
        let q = div_round_away(a.digits() * pow10(k), b.digits());
        norm_wrapped(q, 16, e)
    }
}

/// What the remainder stores: `a - (a / b) * b`, built from the three
/// operations above.
pub open spec fn rem_spec(a: StandardForm, b: StandardForm) -> (int, nat, int) {
    sub_spec(a, pack(mul_spec(pack(div_spec(a, b)), b)))
}

impl StandardForm {
    /// Flips the sign of the mantissa; the normalized band is symmetric, so
    /// no renormalization is needed.
    pub fn neg(self) -> (r: Self)
        requires
            self.wf(),
        ensures
            parts(r) == (-self.digits(), self.scale(), self.exp()),
            r.wf(),
    {
        proof {
            lemma_pow10_16();
            if self.digits() != 0 {
                lemma_pow10_increases(self.scale() + 1, 16);
                if self.mantissa.scale > 0 {
                    if self.digits() > 0 {
                        lemma_neg_mod_10_nonzero(self.digits());
                    } else {
                        if (-self.digits()) % 10 == 0 {
                            lemma_neg_div_mod_10(-self.digits());
                        }
                    }
                }
            }
        }
        StandardForm::new_unchecked(
            Mantissa::new(-self.mantissa.digits, self.mantissa.scale),
            self.exponent,
        )
    }

    /// Adds, keeping the stored form normalized: see [`add_spec`].
    pub fn add(self, other: Self) -> (r: Self)
        requires
            self.wf(),
            other.wf(),
        ensures
            parts(r) == add_spec(self, other),
            r.wf(),
    {
        proof {
            lemma_pow10_16();
            lemma_pow10_increases(16, 37);
        }
        let ea: i32 = self.exponent as i32;
        let eb: i32 = other.exponent as i32;
        let mx: i32 = if ea >= eb {
            ea
        } else {
            eb
        };
        let diff: i32 = if ea >= eb {
            ea - eb
        } else {
            eb - ea
        };
        if self.mantissa.digits == 0 && other.mantissa.digits == 0 {
            proof {
                lemma_wrap_i8_id(mx as int);
            }
            return StandardForm::new_unchecked(Mantissa::new(0, 0), mx as i8);
        }
        if self.mantissa.digits == 0 {
            if ea > eb {
                proof {
                    if other.digits() != 0 {
                        lemma_pow10_increases(other.scale() + 1, 16);
                    }
                }
                return StandardForm::normalize_parts(
                    other.mantissa.digits as i128,
                    other.mantissa.scale + (diff as u32),
                    ea as i64,
                );
            }
            return other;
        }
        if other.mantissa.digits == 0 {
            if eb > ea {
                proof {
                    lemma_pow10_increases(self.scale() + 1, 16);
                }
                return StandardForm::normalize_parts(
                    self.mantissa.digits as i128,
                    self.mantissa.scale + (diff as u32),
                    eb as i64,
                );
            }
            return self;
        }
        if diff >= 18 {
            if ea >= eb {
                return self;
            }
            return other;
        }
        let diff_a: u32 = (mx - ea) as u32;
        let diff_b: u32 = (mx - eb) as u32;
        let sa2: u32 = self.mantissa.scale + diff_a;
        let sb2: u32 = other.mantissa.scale + diff_b;
        let c: u32 = if sa2 >= sb2 {
            sa2
        } else {
            sb2
        };
        proof {
            lemma_pow10_increases(self.scale() + 1, (37 - (c - sa2)) as nat);
            lemma_pow10_increases(other.scale() + 1, (37 - (c - sb2)) as nat);
        }
        let xa: i128 = mul_pow10_i128(self.mantissa.digits as i128, c - sa2);
        let xb: i128 = mul_pow10_i128(other.mantissa.digits as i128, c - sb2);
        proof {
            lemma_mul_pow10_bound(self.digits(), (c - sa2) as nat, self.scale() + 1);
            lemma_mul_pow10_bound(other.digits(), (c - sb2) as nat, other.scale() + 1);
            lemma_pow10_increases(self.scale() + 1 + (c - sa2) as nat, 33);
            lemma_pow10_increases(other.scale() + 1 + (c - sb2) as nat, 33);
            lemma_pow10_38();
            lemma_pow10_unfold(38);
            lemma_pow10_unfold(37);
            lemma_pow10_unfold(36);
            lemma_pow10_unfold(35);
            lemma_pow10_unfold(34);
            lemma_pow10_increases(34, 37);
        }
        let d: i128 = xa + xb;
        StandardForm::normalize_parts(d, c, mx as i64)
    }

    /// Adds in place; the same algorithm as [`StandardForm::add`].
    pub fn add_assign(&mut self, other: Self)
        requires
            old(self).wf(),
            other.wf(),
        ensures
            parts(*final(self)) == add_spec(*old(self), other),
            final(self).wf(),
    {
        let r = (*self).add(other);
        *self = r;
    }

    /// Subtracts, keeping the stored form normalized: see [`sub_spec`].
    pub fn sub(self, other: Self) -> (r: Self)
        requires
            self.wf(),
            other.wf(),
        ensures
            parts(r) == sub_spec(self, other),
            r.wf(),
    {
        proof {
            lemma_pow10_16();
            lemma_pow10_increases(16, 37);
        }
        let ea: i32 = self.exponent as i32;
        let eb: i32 = other.exponent as i32;
        let mn: i32 = if ea <= eb {
            ea
        } else {
            eb
        };
        let diff: i32 = if ea >= eb {
            ea - eb
        } else {
            eb - ea
        };
        let big_zero: bool = if ea >= eb {
            self.mantissa.digits == 0
        } else {
            other.mantissa.digits == 0
        };
        if diff <= 17 || big_zero {
            let da2: u32 = (ea - mn) as u32;
            let db2: u32 = (eb - mn) as u32;
            let fa: i32 = self.mantissa.scale as i32 - da2 as i32;
            let fb: i32 = other.mantissa.scale as i32 - db2 as i32;
            let c: i32 = if fa >= fb && fa >= 0 {
                fa
            } else if fb >= fa && fb >= 0 {
                fb
            } else {
                0
            };
            let ka: u32 = (c + da2 as i32 - self.mantissa.scale as i32) as u32;
            let kb: u32 = (c + db2 as i32 - other.mantissa.scale as i32) as u32;
            let xa: i128 = if self.mantissa.digits == 0 {
                proof {
                    assert(self.digits() * pow10(ka as nat) == 0) by (nonlinear_arith)
                        requires
                            self.digits() == 0,
                    ;
                }
                0
            } else {
                proof {
                    lemma_pow10_increases(self.scale() + 1, (37 - ka) as nat);
                }
                mul_pow10_i128(self.mantissa.digits as i128, ka)
            };
            let xb: i128 = if other.mantissa.digits == 0 {
                proof {
                    assert(other.digits() * pow10(kb as nat) == 0) by (nonlinear_arith)
                        requires
                            other.digits() == 0,
                    ;
                }
                0
            } else {
                proof {
                    lemma_pow10_increases(other.scale() + 1, (37 - kb) as nat);
                }
                mul_pow10_i128(other.mantissa.digits as i128, kb)
            };
            proof {
                if self.digits() != 0 {
                    lemma_mul_pow10_bound(self.digits(), ka as nat, self.scale() + 1);
                    lemma_pow10_increases(self.scale() + 1 + ka as nat, 33);
                }
                if other.digits() != 0 {
                    lemma_mul_pow10_bound(other.digits(), kb as nat, other.scale() + 1);
                    lemma_pow10_increases(other.scale() + 1 + kb as nat, 33);
                }
                lemma_pow10_38();
                lemma_pow10_unfold(38);
                lemma_pow10_unfold(37);
                lemma_pow10_unfold(36);
                lemma_pow10_unfold(35);
                lemma_pow10_unfold(34);
                lemma_pow10_increases(34, 37);
                lemma_pow10_pos(0);
            }
            let d: i128 = xa - xb;
            let r6 = Self::round(d, c as u32);
            return StandardForm::normalize_parts(r6.0, r6.1, mn as i64);
        }
        if ea > eb {
            if other.mantissa.digits == 0 && (self.mantissa.digits == 1 || self.mantissa.digits
                == -1) {
                proof {
                    lemma_wrap_i8_id(ea - 1);
                    assert(pow10(0) == 1) by {
                        vstd::arithmetic::power::lemma_pow0(10);
                    }
                    lemma_pow10_unfold(1);
                }
                return StandardForm::new_unchecked(
                    Mantissa::new(self.mantissa.digits * 10, 0),
                    (ea - 1) as i8,
                );
            }
            return self;
        }
        if self.mantissa.digits == 0 && (other.mantissa.digits == 1 || other.mantissa.digits
            == -1) {
            proof {
                lemma_wrap_i8_id(eb - 1);
                assert(pow10(0) == 1) by {
                    vstd::arithmetic::power::lemma_pow0(10);
                }
                lemma_pow10_unfold(1);
            }
            return StandardForm::new_unchecked(
                Mantissa::new(-other.mantissa.digits * 10, 0),
                (eb - 1) as i8,
            );
        }
        other.neg()
    }

    /// Subtracts in place; the same algorithm as [`StandardForm::sub`].
    pub fn sub_assign(&mut self, other: Self)
        requires
            old(self).wf(),
            other.wf(),
        ensures
            parts(*final(self)) == sub_spec(*old(self), other),
            final(self).wf(),
    {
        let r = (*self).sub(other);
        *self = r;
    }

    /// Multiplies, keeping the stored form normalized: see [`mul_spec`].
    pub fn mul(self, other: Self) -> (r: Self)
        requires
            self.wf(),
            other.wf(),
        ensures
            parts(r) == mul_spec(self, other),
            r.wf(),
    {
        proof {
            lemma_pow10_16();
            lemma_pow10_increases(16, 37);
            lemma_pow10_increases(32, 34);
            lemma_pow10_increases(32, 37);
            lemma_pow10_increases(34, 37);
            lemma_pow10_38();
            if self.digits() != 0 {
                lemma_pow10_increases(self.scale() + 1, 16);
            }
            if other.digits() != 0 {
                lemma_pow10_increases(other.scale() + 1, 16);
            }
            lemma_iabs_mul(self.digits(), other.digits());
            assert(iabs(self.digits()) * iabs(other.digits()) <= pow10(16) * pow10(16))
                by (nonlinear_arith)
                requires
                    0 <= iabs(self.digits()) <= pow10(16),
                    0 <= iabs(other.digits()) <= pow10(16),
            ;
            crate::arith::lemma_pow10_adds(16, 16);
        }
        let d: i128 = (self.mantissa.digits as i128) * (other.mantissa.digits as i128);
        let s: u32 = self.mantissa.scale + other.mantissa.scale;
        let r6 = Self::round(d, s);
        let e: i32 = self.exponent as i32 + other.exponent as i32;
        StandardForm::normalize_parts(r6.0, r6.1, e as i64)
    }

    /// Multiplies in place; the same algorithm as [`StandardForm::mul`].
    pub fn mul_assign(&mut self, other: Self)
        requires
            old(self).wf(),
            other.wf(),
        ensures
            parts(*final(self)) == mul_spec(*old(self), other),
            final(self).wf(),
    {
        let r = (*self).mul(other);
        *self = r;
    }

    /// Divides, keeping the stored form normalized: see [`div_spec`].  The
    /// divisor's mantissa must not be zero: the model holds no infinity to
    /// divide into.
    pub fn div(self, other: Self) -> (r: Self)
        requires
            self.wf(),
            other.wf(),
            other.digits() != 0,
        ensures
            parts(r) == div_spec(self, other),
            r.wf(),
    {
        let e: i32 = self.exponent as i32 - other.exponent as i32;
        if self.mantissa.digits == 0 {
            proof {
                lemma_pow10_pos(37);
            }
            return StandardForm::normalize_parts(0, 0, e as i64);
        }
        proof {
            lemma_pow10_16();
            lemma_pow10_increases(self.scale() + 1, 16);
            lemma_pow10_increases(other.scale() + 1, 16);
            lemma_pow10_increases(16, 37);
            lemma_pow10_increases(self.scale() + 1 + (16 + other.scale() - self.scale()) as nat, 33);
            lemma_pow10_increases(33, 38);
            lemma_pow10_increases(33, 37);
        }
        let k: u32 = 16 + other.mantissa.scale - self.mantissa.scale;
        proof {
            lemma_pow10_increases(self.scale() + 1, (37 - k) as nat);
        }
        let n: i128 = mul_pow10_i128(self.mantissa.digits as i128, k);
        proof {
            lemma_mul_pow10_bound(self.digits(), k as nat, self.scale() + 1);
        }
        let q: i128 = sdiv_round_away(n, other.mantissa.digits as i128);
        proof {
            vstd::arithmetic::div_mod::lemma_div_is_ordered(
                iabs(n as int),
                pow10(33),
                iabs(other.digits()),
            );
            vstd::arithmetic::div_mod::lemma_div_nonincreasing(pow10(33), iabs(other.digits()));
            crate::arith::lemma_pow10_strictly_increases(33, 37);
            lemma_pow10_pos(33);
        }
        StandardForm::normalize_parts(q, 16, e as i64)
    }

    /// Divides in place.  The stored form subtracts the exponents, the one
    /// semantics division has; see [`StandardForm::div`].
    pub fn div_assign(&mut self, other: Self)
        requires
            old(self).wf(),
            other.wf(),
            other.digits() != 0,
        ensures
            parts(*final(self)) == div_spec(*old(self), other),
            final(self).wf(),
    {
        let r = (*self).div(other);
        *self = r;
    }

    /// The remainder `a - (a / b) * b`, built from the operations above.
    pub fn rem(self, other: Self) -> (r: Self)
        requires
            self.wf(),
            other.wf(),
            other.digits() != 0,
        ensures
            parts(r) == rem_spec(self, other),
            r.wf(),
    {
        let q = self.div(other);
        proof {
            lemma_pack_parts(q);
        }
        let m = q.mul(other);
        proof {
            lemma_pack_parts(m);
        }
        self.sub(m)
    }

    /// The remainder, in place.
    pub fn rem_assign(&mut self, other: Self)
        requires
            old(self).wf(),
            other.wf(),
            other.digits() != 0,
        ensures
            parts(*final(self)) == rem_spec(*old(self), other),
            final(self).wf(),
    {
        let r = (*self).rem(other);
        *self = r;
    }

    /// The rounding pass of subtraction and multiplication: keeps at most
    /// six decimal fractional digits, ties away from zero.
    pub(crate) fn round(d: i128, s: u32) -> (r: (i128, u32))
        requires
            iabs(d as int) <= pow10(34),
            s <= 34,
        ensures
            r.0 as int == round6_spec(d as int, s as nat).0,
            r.1 as nat == round6_spec(d as int, s as nat).1,
            iabs(r.0 as int) <= pow10(34),
    {
        if s > 6 {
            proof {
                lemma_pow10_38();
                lemma_pow10_increases((s - 6) as nat, 37);
                lemma_pow10_increases(34, 38);
                lemma_pow10_pos((s - 6) as nat);
            }
            let p: u128 = pow10_u128(s - 6);
            let q: i128 = idiv_round_away(d, p);
            proof {
                lemma_pow10_unfold((s - 6) as nat);
                assert(p as int >= 10);
                vstd::arithmetic::div_mod::lemma_div_is_ordered(
                    iabs(d as int),
                    pow10(34),
                    p as int,
                );
                vstd::arithmetic::div_mod::lemma_div_is_ordered_by_denominator(
                    pow10(34),
                    10,
                    p as int,
                );
                lemma_pow10_unfold(34);
                assert(pow10(34) / 10 == pow10(33)) by {
                    vstd::arithmetic::div_mod::lemma_div_multiples_vanish(pow10(33), 10);
                }
                lemma_pow10_increases(33, 34);
                lemma_pow10_pos(33);
            }
            (q, 6)
        } else {
            (d, s)
        }
    }
}

} // verus!
