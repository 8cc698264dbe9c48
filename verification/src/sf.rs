//! The standard-form value type and its normalizer.

use crate::arith::{
    div_round_away, iabs, lemma_neg_div_mod_10, lemma_neg_mod_10_nonzero, lemma_pow10_16,
    lemma_pow10_19, lemma_pow10_38, lemma_pow10_adds, lemma_pow10_increases, lemma_pow10_pos,
    lemma_pow10_strictly_increases, lemma_pow10_unfold, pow10, pow10_u128, udiv_round_away,
    wrap_i8, wrap_i8_exec,
};
use vstd::prelude::*;

verus! {

/// The largest number of fractional digits a stored mantissa keeps.  A
/// mantissa in the unit band then carries at most 16 significant digits;
/// anything finer is rounded, the decimal counterpart of the precision limit
/// of a machine significand.
pub const MAX_SCALE: u32 = 15;

/// The significand of a [`StandardForm`] number: the exact decimal
/// `digits * 10^-scale`.
///
/// A freshly built `Mantissa` may be arbitrary; the values stored inside a
/// [`StandardForm`] are kept normalized (see [`mantissa_wf`]): magnitude in
/// the unit band, at most [`MAX_SCALE`] fractional digits, and no trailing
/// zero digit in the fraction, which makes the representation of each value
/// unique, so derived structural equality is value equality.
#[derive(Clone, Copy, PartialEq, Eq, Structural, Hash, Debug)]
pub struct Mantissa {
    /// Decimal digits of the significand, with its sign.
    pub digits: i64,
    /// Number of those digits that sit after the decimal point.
    pub scale: u32,
}

/// A number in standard form: `mantissa * 10^exponent`.
///
/// Values built through [`StandardForm::new`] (or any operation of this
/// crate) always hold a normalized mantissa, so two values are structurally
/// equal exactly when they denote the same number in the same exponent
/// writing.
#[derive(Clone, Copy, PartialEq, Eq, Structural, Hash, Debug)]
pub struct StandardForm {
    /// The significand, kept normalized.
    pub mantissa: Mantissa,
    /// The power of ten multiplying the significand.
    pub exponent: i8,
}

impl Mantissa {
    /// Builds a raw mantissa worth `digits * 10^-scale`.
    pub fn new(digits: i64, scale: u32) -> (r: Mantissa)
        ensures
            r.digits == digits,
            r.scale == scale,
    {
        Mantissa { digits, scale }
    }

    /// The whole number `n`, as a mantissa.
    pub fn from_int(n: i64) -> (r: Mantissa)
        ensures
            r.digits == n,
            r.scale == 0,
    {
        Mantissa { digits: n, scale: 0 }
    }
}

/// The stored-mantissa invariant: zero, or digits in the unit band
/// `1 <= |digits * 10^-scale| <= 10` with at most [`MAX_SCALE`] fractional
/// digits and no trailing fractional zero.
pub open spec fn mantissa_wf(m: Mantissa) -> bool {
    ||| (m.digits == 0 && m.scale == 0)
    ||| {
        &&& m.scale <= MAX_SCALE
        &&& pow10(m.scale as nat) <= iabs(m.digits as int)
        &&& iabs(m.digits as int) <= pow10((m.scale + 1) as nat)
        &&& (m.scale == 0 || (m.digits as int) % 10 != 0)
    }
}

/// Both raw pairs denote the same number `d * 10^p`.
pub open spec fn same_value(d1: int, p1: int, d2: int, p2: int) -> bool {
    if p1 >= p2 {
        d1 * pow10((p1 - p2) as nat) == d2
    } else {
        d1 == d2 * pow10((p2 - p1) as nat)
    }
}

/// One step of the normalizer's first loop: while the mantissa
/// magnitude exceeds ten, shift a digit out of the integer part (divide the
/// mantissa by ten) and raise the exponent.
pub open spec fn band_up(d: int, s: nat, e: int) -> (int, nat, int)
    decreases iabs(d) - pow10(s),
    via band_up_decreases
{
    if iabs(d) > pow10(s + 1) {
        band_up(d, s + 1, e + 1)
    } else {
        (d, s, e)
    }
}

#[via_fn]
proof fn band_up_decreases(d: int, s: nat, e: int) {
    if iabs(d) > pow10(s + 1) {
        lemma_pow10_strictly_increases(s, s + 1);
        lemma_pow10_pos(s);
    }
}

/// One step of the normalizer's second loop: while a non-zero
/// mantissa magnitude is below one, shift a digit into the integer part
/// (multiply the mantissa by ten) and lower the exponent.
pub open spec fn band_down(d: int, s: nat, e: int) -> (int, nat, int)
    decreases s,
{
    if d != 0 && s > 0 && iabs(d) < pow10(s) {
        band_down(d, (s - 1) as nat, e - 1)
    } else {
        (d, s, e)
    }
}

/// Strips trailing zero digits out of the fraction, leaving the unique
/// lowest-scale writing of the same mantissa.
pub open spec fn reduce(d: int, s: nat) -> (int, nat)
    decreases s,
{
    if s > 0 && d % 10 == 0 {
        reduce(d / 10, (s - 1) as nat)
    } else {
        (d, s)
    }
}

/// The whole normalizer over mathematical integers: what
/// [`StandardForm::new`] stores for the raw value `d * 10^-s * 10^e`.  Band
/// the magnitude into `[1, 10]` by decimal shifts, round to at most
/// [`MAX_SCALE`] fractional digits (ties away from zero), and strip trailing
/// fractional zeros.  The returned exponent is not yet wrapped to 8 bits.
pub open spec fn norm_spec(d: int, s: nat, e: int) -> (int, nat, int) {
    if d == 0 {
        (0, 0, e)
    } else {
        let u = band_up(d, s, e);
        let w = band_down(u.0, u.1, u.2);
        let rd = if w.1 > MAX_SCALE {
            div_round_away(w.0, pow10((w.1 - MAX_SCALE) as nat))
        } else {
            w.0
        };
        let rs: nat = if w.1 > MAX_SCALE {
            MAX_SCALE as nat
        } else {
            w.1
        };
        let f = reduce(rd, rs);
        (f.0, f.1, w.2)
    }
}

/// Applies a sign flag to a magnitude.
pub open spec fn signed_mag(neg: bool, u: int) -> int {
    if neg {
        -u
    } else {
        u
    }
}

/// Is the mantissa magnitude above the unit band (beyond ten)?
fn mag_above(ud: u128, s: u32) -> (b: bool)
    requires
        ud <= pow10(37),
    ensures
        b == (ud as int > pow10((s + 1) as nat)),
{
    if s >= 37 {
        proof {
            lemma_pow10_strictly_increases(37, 38);
            lemma_pow10_increases(38, (s + 1) as nat);
        }
        false
    } else {
        ud > pow10_u128(s + 1)
    }
}

/// Is the non-zero mantissa magnitude below the unit band (under one)?
fn mag_below(ud: u128, s: u32) -> (b: bool)
    requires
        1 <= ud <= pow10(37),
    ensures
        b == ((ud as int) < pow10(s as nat)),
{
    if s >= 38 {
        proof {
            lemma_pow10_strictly_increases(37, 38);
            lemma_pow10_increases(38, s as nat);
        }
        true
    } else {
        ud < pow10_u128(s)
    }
}

impl StandardForm {
    /// The shared normalizer: stores `d0 * 10^-s0 * 10^e0` in standard form,
    /// exactly as [`norm_spec`] describes, wrapping the exponent into 8 bits.
    pub(crate) fn normalize_parts(d0: i128, s0: u32, e0: i64) -> (r: StandardForm)
        requires
            iabs(d0 as int) <= pow10(37),
            -0x2_0000_0000 <= e0 <= 0x2_0000_0000,
        ensures
            r.mantissa.digits as int == norm_spec(d0 as int, s0 as nat, e0 as int).0,
            r.mantissa.scale as nat == norm_spec(d0 as int, s0 as nat, e0 as int).1,
            r.exponent as int == wrap_i8(norm_spec(d0 as int, s0 as nat, e0 as int).2),
            mantissa_wf(r.mantissa),
    {
        proof {
            lemma_pow10_38();
            lemma_pow10_16();
        }
        if d0 == 0 {
            return StandardForm { mantissa: Mantissa { digits: 0, scale: 0 }, exponent: wrap_i8_exec(e0) };
        }
        let neg: bool = d0 < 0;
        proof {
            lemma_pow10_increases(37, 38);
        }
        let mut ud: u128 = if neg {
            (-d0) as u128
        } else {
            d0 as u128
        };
        let mut s: u32 = s0;
        let mut e: i64 = e0;
        let ghost di: int = d0 as int;
        while mag_above(ud, s)
            invariant
                1 <= ud <= pow10(37),
                ud == iabs(di),
                di == d0 as int,
                di != 0,
                band_up(di, s0 as nat, e0 as int) == band_up(di, s as nat, e as int),
                e == e0 + (s - s0),
                s0 <= s,
                s <= s0 + 38,
                -0x2_0000_0000 <= e0 <= 0x2_0000_0000,
            decreases 39 - s,
        {
            proof {
                if s >= 36 {
                    lemma_pow10_increases(37, (s + 1) as nat);
                }
                assert(s <= 35);
                assert(band_up(di, s as nat, e as int) == band_up(
                    di,
                    (s + 1) as nat,
                    (e + 1) as int,
                ));
            }
            s = s + 1;
            e = e + 1;
        }
        let ghost up = band_up(di, s0 as nat, e0 as int);
        proof {
            assert(up == (di, s as nat, e as int));
        }
        while mag_below(ud, s)
            invariant
                1 <= ud <= pow10(37),
                ud == iabs(di),
                di == d0 as int,
                di != 0,
                ud as int <= pow10((s + 1) as nat),
                band_down(up.0, up.1, up.2) == band_down(di, s as nat, e as int),
                up.0 == di,
                e == up.2 - (up.1 - s as nat),
                s <= up.1,
                up.2 - up.1 >= -0x5_0000_0000,
                up.2 <= 0x3_0000_0000,
            decreases s,
        {
            proof {
                lemma_pow10_pos(s as nat);
                assert(s > 0) by {
                    if s == 0 {
                        assert(pow10(0) == 1) by {
                            vstd::arithmetic::power::lemma_pow0(10);
                        }
                    }
                }
                assert(band_down(di, s as nat, e as int) == band_down(
                    di,
                    (s - 1) as nat,
                    (e - 1) as int,
                ));
            }
            s = s - 1;
            e = e - 1;
        }
        let ghost w = band_down(up.0, up.1, up.2);
        proof {
            assert(w == (di, s as nat, e as int));
            assert(pow10(s as nat) <= ud as int <= pow10((s + 1) as nat));
            assert(s <= 37) by {
                if s >= 38 {
                    lemma_pow10_increases(38, s as nat);
                    lemma_pow10_strictly_increases(37, 38);
                }
            }
        }
        if s > MAX_SCALE {
            let k: u32 = s - MAX_SCALE;
            let p: u128 = pow10_u128(k);
            proof {
                lemma_pow10_increases(k as nat, 37);
                lemma_pow10_increases((s + 1) as nat, 38);
                lemma_pow10_pos(k as nat);
            }
            let q: u128 = udiv_round_away(ud, p);
            proof {
                lemma_round_to_scale_bounds(ud as int, s as nat, k as nat);
                assert(div_round_away(di, pow10(k as nat)) == signed_mag(neg, q as int));
            }
            ud = q;
            s = MAX_SCALE;
        }
        let ghost rd: int = if w.1 > MAX_SCALE {
            div_round_away(w.0, pow10((w.1 - MAX_SCALE) as nat))
        } else {
            w.0
        };
        proof {
            assert(rd == signed_mag(neg, ud as int));
            assert(pow10(s as nat) <= ud as int <= pow10((s + 1) as nat));
            lemma_pow10_pos(s as nat);
            lemma_pow10_increases((s + 1) as nat, 16);
            assert(1 <= ud as int <= pow10(16));
        }
        let ghost rs: nat = s as nat;
        while s > 0 && divisible_by_10(ud)
            invariant
                1 <= ud <= pow10(16),
                pow10(s as nat) <= ud as int <= pow10((s + 1) as nat),
                s <= MAX_SCALE,
                reduce(rd, rs) == reduce(signed_mag(neg, ud as int), s as nat),
            decreases s,
        {
            proof {
                lemma_pow10_unfold(s as nat);
                lemma_pow10_unfold((s + 1) as nat);
                if neg {
                    lemma_neg_div_mod_10(ud as int);
                }
                assert(reduce(signed_mag(neg, ud as int), s as nat) == reduce(
                    signed_mag(neg, (ud / 10) as int),
                    (s - 1) as nat,
                ));
                assert(pow10((s - 1) as nat) <= (ud / 10) as int <= pow10(s as nat)) by {
                    assert(ud as int == 10 * ((ud / 10) as int));
                }
            }
            ud = ud / 10;
            s = s - 1;
        }
        proof {
            if neg && ud % 10 != 0 {
                lemma_neg_mod_10_nonzero(ud as int);
            }
            assert(reduce(rd, rs) == (signed_mag(neg, ud as int), s as nat));
        }
        let digits: i64 = if neg {
            -(ud as i64)
        } else {
            ud as i64
        };
        StandardForm { mantissa: Mantissa { digits, scale: s }, exponent: wrap_i8_exec(e) }
    }
}

/// [`norm_spec`] applied to a mantissa and an exponent.
pub open spec fn norm_of(m: Mantissa, e: int) -> (int, nat, int) {
    norm_spec(m.digits as int, m.scale as nat, e)
}

/// `r` is exactly what normalizing `m * 10^e` stores.
pub open spec fn is_norm(r: StandardForm, m: Mantissa, e: int) -> bool {
    &&& r.mantissa.digits as int == norm_of(m, e).0
    &&& r.mantissa.scale as nat == norm_of(m, e).1
    &&& r.exponent as int == wrap_i8(norm_of(m, e).2)
}

impl StandardForm {
    /// The stored digits, as a mathematical integer.
    pub open spec fn digits(self) -> int {
        self.mantissa.digits as int
    }

    /// The stored fractional-digit count.
    pub open spec fn scale(self) -> nat {
        self.mantissa.scale as nat
    }

    /// The stored exponent, as a mathematical integer.
    pub open spec fn exp(self) -> int {
        self.exponent as int
    }

    /// The whole invariant of a stored value.
    pub open spec fn wf(self) -> bool {
        mantissa_wf(self.mantissa)
    }

    /// Builds a value worth `mantissa * 10^exponent` and normalizes it, as
    /// the stored-mantissa invariant asks.  The stored parts are exactly
    /// [`norm_of`] of the inputs; for mantissas of at most 16 significant
    /// digits the worth is preserved exactly (see
    /// [`lemma_new_preserves_value`]).
    pub fn new(mantissa: Mantissa, exponent: i8) -> (r: Self)
        ensures
            is_norm(r, mantissa, exponent as int),
            r.wf(),
    {
        proof {
            lemma_pow10_19();
            lemma_pow10_increases(19, 37);
        }
        Self::normalize_parts(mantissa.digits as i128, mantissa.scale, exponent as i64)
    }

    /// Builds the pair without normalizing; for callers that already hold a
    /// normalized mantissa.
    pub(crate) fn new_unchecked(mantissa: Mantissa, exponent: i8) -> (r: Self)
        ensures
            r.mantissa == mantissa,
            r.exponent == exponent,
    {
        StandardForm { mantissa, exponent }
    }

    /// Is the mantissa magnitude inside the unit band `[1, 10]` (either
    /// sign, bounds inclusive)?
    fn in_range(&self) -> (b: bool)
        ensures
            b == (self.mantissa.digits != 0 && pow10(self.scale()) <= iabs(self.digits())
                <= pow10(self.scale() + 1)),
    {
        proof {
            lemma_pow10_19();
            lemma_pow10_increases(19, 37);
        }
        if self.mantissa.digits == 0 {
            false
        } else {
            let di: i128 = self.mantissa.digits as i128;
            let ud: u128 = if di < 0 {
                (-di) as u128
            } else {
                di as u128
            };
            !mag_above(ud, self.mantissa.scale) && !mag_below(ud, self.mantissa.scale)
        }
    }

    /// Renormalizes in place; a no-op on values already holding the
    /// invariant.
    pub fn adjust(&mut self)
        ensures
            is_norm(*final(self), old(self).mantissa, old(self).exponent as int),
            final(self).wf(),
    {
        proof {
            lemma_pow10_19();
            lemma_pow10_increases(19, 37);
        }
        let r = Self::normalize_parts(
            self.mantissa.digits as i128,
            self.mantissa.scale,
            self.exponent as i64,
        );
        *self = r;
    }

    /// The significand of the number.
    pub fn mantissa(&self) -> (r: &Mantissa)
        ensures
            *r == self.mantissa,
    {
        &self.mantissa
    }

    /// The power of ten by which the significand is multiplied.
    pub fn exponent(&self) -> (r: &i8)
        ensures
            *r == self.exponent,
    {
        &self.exponent
    }
}

impl Default for StandardForm {
    /// The number one: mantissa `1`, exponent `0`.
    fn default() -> (r: Self)
        ensures
            r.mantissa.digits == 1,
            r.mantissa.scale == 0,
            r.exponent == 0,
            r.wf(),
    {
        proof {
            assert(pow10(0) == 1) by {
                vstd::arithmetic::power::lemma_pow0(10);
            }
            assert(pow10(1) == 10) by {
                vstd::arithmetic::power::lemma_pow1(10);
            }
        }
        StandardForm { mantissa: Mantissa { digits: 1, scale: 0 }, exponent: 0 }
    }
}

/// What the first banding loop leaves behind: the digits and the worth are
/// untouched, and the magnitude no longer overshoots the band.
proof fn lemma_band_up_props(d: int, s: nat, e: int)
    requires
        d != 0,
    ensures
        ({
            let u = band_up(d, s, e);
            &&& u.0 == d
            &&& u.2 - u.1 == e - s
            &&& u.1 >= s
            &&& iabs(d) <= pow10(u.1 + 1)
            &&& (u.1 == s || iabs(d) > pow10(u.1))
        }),
    decreases iabs(d) - pow10(s),
{
    if iabs(d) > pow10(s + 1) {
        lemma_pow10_strictly_increases(s, s + 1);
        lemma_pow10_pos(s);
        lemma_band_up_props(d, s + 1, e + 1);
    }
}

/// What the second banding loop leaves behind.
proof fn lemma_band_down_props(d: int, s: nat, e: int)
    requires
        d != 0,
    ensures
        ({
            let w = band_down(d, s, e);
            &&& w.0 == d
            &&& w.2 - w.1 == e - s
            &&& w.1 <= s
            &&& iabs(d) >= pow10(w.1)
            &&& (w.1 == s || iabs(d) < pow10(w.1 + 1))
        }),
    decreases s,
{
    if s > 0 && iabs(d) < pow10(s) {
        lemma_band_down_props(d, (s - 1) as nat, e - 1);
    } else {
        assert(pow10(0) == 1) by {
            vstd::arithmetic::power::lemma_pow0(10);
        }
    }
}

/// Stripping trailing zeros keeps the digits' worth: the reduced digits put
/// back on the old scale give the old digits.
proof fn lemma_reduce_props(d: int, s: nat)
    ensures
        ({
            let f = reduce(d, s);
            &&& f.1 <= s
            &&& f.0 * pow10((s - f.1) as nat) == d
            &&& (f.1 == 0 || f.0 % 10 != 0)
        }),
    decreases s,
{
    assert(pow10(0) == 1) by {
        vstd::arithmetic::power::lemma_pow0(10);
    }
    if s > 0 && d % 10 == 0 {
        vstd::arithmetic::div_mod::lemma_fundamental_div_mod(d, 10);
        lemma_reduce_props(d / 10, (s - 1) as nat);
        let f = reduce(d, s);
        lemma_pow10_unfold((s - f.1) as nat);
        assert(f.0 * pow10((s - f.1) as nat) == d) by (nonlinear_arith)
            requires
                f.0 * pow10((s - 1 - f.1) as nat) == d / 10,
                d == 10 * (d / 10),
                pow10((s - f.1) as nat) == 10 * pow10((s - 1 - f.1) as nat),
        ;
    }
}

/// Normalization of a mantissa with at most 16 significant digits preserves
/// the worth of the number exactly.
pub proof fn lemma_norm_exact(d: int, s: nat, e: int)
    requires
        d != 0,
        iabs(d) < pow10(16),
        s <= MAX_SCALE,
    ensures
        norm_spec(d, s, e).0 != 0,
        same_value(
            norm_spec(d, s, e).0,
            norm_spec(d, s, e).2 - norm_spec(d, s, e).1,
            d,
            e - s,
        ),
{
    lemma_band_up_props(d, s, e);
    let u = band_up(d, s, e);
    lemma_band_down_props(u.0, u.1, u.2);
    let w = band_down(u.0, u.1, u.2);
    assert(w.1 <= MAX_SCALE) by {
        if u.1 != s {
            if u.1 > 15 {
                lemma_pow10_increases(16, u.1 as nat);
            }
        }
    }
    lemma_reduce_props(d, w.1);
    let f = reduce(d, w.1);
    assert(f.0 != 0) by {
        lemma_pow10_pos((w.1 - f.1) as nat);
        if f.0 == 0 {
            assert(f.0 * pow10((w.1 - f.1) as nat) == 0) by (nonlinear_arith)
                requires
                    f.0 == 0,
            ;
        }
    }
}

/// Banding ignores the exponent except to shift it.
proof fn lemma_band_up_shift(d: int, s: nat, e1: int, e2: int)
    ensures
        band_up(d, s, e1).0 == band_up(d, s, e2).0,
        band_up(d, s, e1).1 == band_up(d, s, e2).1,
        band_up(d, s, e1).2 - e1 == band_up(d, s, e2).2 - e2,
    decreases iabs(d) - pow10(s),
{
    if iabs(d) > pow10(s + 1) {
        lemma_pow10_strictly_increases(s, s + 1);
        lemma_pow10_pos(s);
        lemma_band_up_shift(d, s + 1, e1 + 1, e2 + 1);
    }
}

/// As [`lemma_band_up_shift`], for the second banding loop.
proof fn lemma_band_down_shift(d: int, s: nat, e1: int, e2: int)
    ensures
        band_down(d, s, e1).0 == band_down(d, s, e2).0,
        band_down(d, s, e1).1 == band_down(d, s, e2).1,
        band_down(d, s, e1).2 - e1 == band_down(d, s, e2).2 - e2,
    decreases s,
{
    if d != 0 && s > 0 && iabs(d) < pow10(s) {
        lemma_band_down_shift(d, (s - 1) as nat, e1 - 1, e2 - 1);
    }
}

/// Two starting exponents congruent modulo 256 store the same value: the
/// digits and scale agree, and the wrapped exponents agree.
pub proof fn lemma_norm_exp_congruent(d: int, s: nat, e1: int, e2: int)
    requires
        (e1 - e2) % 256 == 0,
    ensures
        norm_spec(d, s, e1).0 == norm_spec(d, s, e2).0,
        norm_spec(d, s, e1).1 == norm_spec(d, s, e2).1,
        wrap_i8(norm_spec(d, s, e1).2) == wrap_i8(norm_spec(d, s, e2).2),
{
    if d == 0 {
        crate::arith::lemma_wrap_congruent(e1, e2);
    } else {
        lemma_band_up_shift(d, s, e1, e2);
        let u1 = band_up(d, s, e1);
        let u2 = band_up(d, s, e2);
        lemma_band_down_shift(u1.0, u1.1, u1.2, u2.2);
        let w1 = band_down(u1.0, u1.1, u1.2);
        let w2 = band_down(u2.0, u2.1, u2.2);
        assert(w1.2 - w2.2 == e1 - e2);
        crate::arith::lemma_wrap_congruent(w1.2, w2.2);
    }
}

/// Normalization is the identity on values already holding the invariant,
/// whatever the exponent.
pub proof fn lemma_norm_idempotent(m: Mantissa, e: int)
    requires
        mantissa_wf(m),
    ensures
        norm_of(m, e) == (m.digits as int, m.scale as nat, e),
{
    let d = m.digits as int;
    let s = m.scale as nat;
    if m.digits == 0 {
        assert(norm_spec(d, s, e) == (0int, 0nat, e));
    } else {
        assert(band_up(d, s, e) == (d, s, e));
        assert(band_down(d, s, e) == (d, s, e));
        assert(reduce(d, s) == (d, s));
        assert(norm_spec(d, s, e) == (d, s, e));
    }
}

/// Rounding a banded magnitude down to [`MAX_SCALE`] fractional digits stays
/// in the band.
proof fn lemma_round_to_scale_bounds(u: int, s: nat, k: nat)
    requires
        k == s - MAX_SCALE,
        s > MAX_SCALE,
        pow10(s) <= u <= pow10(s + 1),
    ensures
        pow10(MAX_SCALE as nat) <= div_round_away(u, pow10(k)) <= pow10(MAX_SCALE as nat + 1),
        div_round_away(u, pow10(k)) == u / pow10(k) + (if 2 * (u % pow10(k)) >= pow10(k) {
            1int
        } else {
            0int
        }),
{
    let p = pow10(k);
    lemma_pow10_pos(k);
    lemma_pow10_pos(s);
    lemma_pow10_adds(MAX_SCALE as nat, k);
    lemma_pow10_adds(MAX_SCALE as nat + 1, k);
    vstd::arithmetic::div_mod::lemma_fundamental_div_mod(u, p);
    let q = u / p;
    let r = u % p;
    assert(0 <= r < p) by {
        vstd::arithmetic::div_mod::lemma_mod_division_less_than_divisor(u, p);
    }
    assert(iabs(u) == u);
    assert(iabs(p) == p);
    assert(div_round_away(u, p) == (if 2 * r >= p {
        q + 1int
    } else {
        q
    }));
    assert(pow10(MAX_SCALE as nat) * p <= u);
    assert(u <= pow10(MAX_SCALE as nat + 1) * p);
    assert(q >= pow10(MAX_SCALE as nat)) by (nonlinear_arith)
        requires
            u == q * p + r,
            0 <= r < p,
            pow10(MAX_SCALE as nat) * p <= u,
    ;
    assert(q <= pow10(MAX_SCALE as nat + 1)) by (nonlinear_arith)
        requires
            u == q * p + r,
            0 <= r < p,
            u <= pow10(MAX_SCALE as nat + 1) * p,
    ;
    if 2 * r >= p {
        assert(q < pow10(MAX_SCALE as nat + 1)) by (nonlinear_arith)
            requires
                u == q * p + r,
                0 < r < p,
                u <= pow10(MAX_SCALE as nat + 1) * p,
        ;
    }
}

/// Does ten divide this magnitude?
fn divisible_by_10(u: u128) -> (b: bool)
    ensures
        b == ((u as int) % 10 == 0),
{
    u % 10 == 0
}

} // verus!
