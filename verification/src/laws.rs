//! The general laws of the library, each stated over the same spec
//! functions the operations' own contracts use, and proved once and for
//! all inputs its statement covers.

use crate::arith::{iabs, lemma_pow10_16, lemma_pow10_increases, lemma_pow10_pos,
    lemma_pow10_unfold, lemma_wrap_i8_id, pow10};
use crate::cmp::cmp_spec;
use crate::fmt::{dec_digits, dec_digits_pad, decimal_seq, digit_char, int_seq, mantissa_seq,
    sci_seq};
use crate::parse::{digit_val, digits_end, digits_val, is_digit, parse_num_at};
use crate::ops::{add_spec, mul_spec, parts};
use crate::sf::{band_down, band_up, is_norm, lemma_norm_exact, lemma_norm_idempotent,
    mantissa_wf, norm_of, norm_spec, reduce, same_value, Mantissa, StandardForm, MAX_SCALE};
use core::cmp::Ordering;
use vstd::prelude::*;

verus! {

/// Normalization preserves the worth of the number exactly: for any
/// mantissa of at most 16 significant digits (the precision a stored value
/// carries) whose normalized exponent stays on the 8-bit range, the value
/// [`StandardForm::new`] stores denotes exactly `mantissa * 10^exponent`,
/// and holds the normalized-range invariant.
pub proof fn lemma_new_preserves_value(m: Mantissa, e: i8, r: StandardForm)
    requires
        is_norm(r, m, e as int),
        mantissa_wf(r.mantissa),
        m.digits != 0,
        iabs(m.digits as int) < pow10(16),
        m.scale <= MAX_SCALE,
        -128 <= norm_of(m, e as int).2 <= 127,
    ensures
        r.wf(),
        r.digits() != 0,
        same_value(r.digits(), r.exp() - r.scale(), m.digits as int, e - m.scale),
{
    lemma_norm_exact(m.digits as int, m.scale as nat, e as int);
    lemma_wrap_i8_id(norm_of(m, e as int).2);
}

/// Addition is commutative: the stored result of `a + b` is exactly the
/// stored result of `b + a`.
pub proof fn lemma_add_commutes(a: StandardForm, b: StandardForm)
    requires
        a.wf(),
        b.wf(),
    ensures
        add_spec(a, b) == add_spec(b, a),
{
}

/// The second banding loop walks any extra scale straight down to the
/// band, moving the exponent with it.
proof fn lemma_band_down_to(d: int, s: nat, k: nat, e: int)
    requires
        d != 0,
        iabs(d) < pow10(s + 1),
        pow10(s) <= iabs(d),
    ensures
        band_down(d, (s + k) as nat, e) == band_down(d, s, e - k),
        band_down(d, s, e - k) == (d, s, e - k),
    decreases k,
{
    lemma_pow10_pos(s);
    if k > 0 {
        lemma_pow10_increases(s + 1, s + k);
        lemma_band_down_to(d, s, (k - 1) as nat, e - 1);
    }
}

/// The downshift law behind the zero-operand branches of addition: what
/// normalizing `digits * 10^-(scale + k)` at exponent `e` stores.
pub proof fn lemma_norm_downshift(d: int, s: nat, k: nat, e: int)
    requires
        d != 0,
        pow10(s) <= iabs(d) <= pow10(s + 1),
        s <= MAX_SCALE,
        s == 0 || d % 10 != 0,
        k >= 1,
    ensures
        iabs(d) == pow10(s + 1) ==> norm_spec(d, (s + k) as nat, e) == (d / 10, 0nat, e - (k
            - 1)),
        iabs(d) != pow10(s + 1) ==> norm_spec(d, (s + k) as nat, e) == (d, s, e - k),
{
    lemma_pow10_pos(s);
    lemma_pow10_increases(s + 1, s + k + 1);
    assert(band_up(d, (s + k) as nat, e) == (d, (s + k) as nat, e));
    if iabs(d) == pow10(s + 1) {
        assert(s == 0) by {
            if s > 0 {
                lemma_pow10_unfold(s + 1);
                assert(pow10(s + 1) % 10 == 0) by {
                    vstd::arithmetic::div_mod::lemma_mod_multiples_basic(pow10(s), 10);
                }
                if d > 0 {
                } else {
                    crate::arith::lemma_neg_div_mod_10(iabs(d));
                }
            }
        }
        lemma_pow10_unfold(1);
        lemma_pow10_unfold(2);
        assert(pow10(0) == 1) by {
            vstd::arithmetic::power::lemma_pow0(10);
        }
        lemma_band_down_to(d, 1, (k - 1) as nat, e);
        assert(band_down(d, (1 + (k - 1)) as nat, e) == (d, 1nat, e - (k - 1)));
        assert(d % 10 == 0 && d / 10 == if d < 0 {
            -1int
        } else {
            1int
        }) by {
            vstd::arithmetic::div_mod::lemma_fundamental_div_mod_converse(10, 10, 1, 0);
            if d < 0 {
                crate::arith::lemma_neg_div_mod_10(10);
            }
        }
        assert(reduce(d / 10, 0nat) == (d / 10, 0nat));
        assert(reduce(d, 1) == reduce(d / 10, 0nat));
    } else {
        lemma_band_down_to(d, s, k, e);
        assert(norm_spec(d, (s + k) as nat, e) == (reduce(d, s).0, reduce(d, s).1, e - k));
    }
}

/// Adding zero is the identity, up to the two writings of the boundary:
/// for every stored value whose mantissa is not the boundary `10` or `-10`
/// under a negative exponent (those renormalize to the `1`-writing one
/// exponent up, as the shared normalizer always does) and which, if zero,
/// carries a non-negative exponent, `a + zero()` stores `a` itself.
pub proof fn lemma_add_zero_identity(a: StandardForm, z: StandardForm)
    requires
        a.wf(),
        z.digits() == 0,
        z.scale() == 0,
        z.exp() == 0,
        a.digits() == 0 ==> a.exp() >= 0,
        !((a.digits() == 10 || a.digits() == -10) && a.exp() < 0),
    ensures
        add_spec(a, z) == parts(a),
{
    lemma_wrap_i8_id(a.exp());
    if a.digits() == 0 {
    } else if a.exp() >= 0 {
    } else {
        let k = (0 - a.exp()) as nat;
        lemma_pow10_16();
        lemma_norm_downshift(a.digits(), a.scale(), k, 0);
        assert(iabs(a.digits()) != pow10(a.scale() + 1)) by {
            if iabs(a.digits()) == pow10(a.scale() + 1) {
                if a.scale() > 0 {
                    lemma_pow10_unfold(a.scale() + 1);
                    assert(pow10(a.scale() + 1) % 10 == 0) by {
                        vstd::arithmetic::div_mod::lemma_mod_multiples_basic(
                            pow10(a.scale()),
                            10,
                        );
                    }
                    if a.digits() < 0 {
                        crate::arith::lemma_neg_div_mod_10(iabs(a.digits()));
                    }
                } else {
                    lemma_pow10_unfold(1);
                    assert(pow10(0) == 1) by {
                        vstd::arithmetic::power::lemma_pow0(10);
                    }
                }
            }
        }
    }
}

/// Multiplying by one is the identity for every stored value whose
/// mantissa carries at most six fractional digits (finer mantissas go
/// through the six-digit rounding pass multiplication always applies).
pub proof fn lemma_mul_one_identity(a: StandardForm, o: StandardForm)
    requires
        a.wf(),
        o.digits() == 1,
        o.scale() == 0,
        o.exp() == 0,
        a.scale() <= 6,
    ensures
        mul_spec(a, o) == parts(a),
{
    lemma_wrap_i8_id(a.exp());
    assert(a.digits() * 1 == a.digits()) by (nonlinear_arith);
    if a.digits() == 0 {
    } else {
        lemma_norm_idempotent(a.mantissa, a.exp());
    }
}

/// A digit character carries its digit.
proof fn lemma_digit_char_val(d: nat)
    requires
        d < 10,
    ensures
        is_digit(digit_char(d)),
        digit_val(digit_char(d)) == d,
{
}

/// The decimal digits of a number are at least one digit character.
proof fn lemma_dec_digits_props(n: nat)
    ensures
        dec_digits(n).len() >= 1,
        forall|k: int| 0 <= k < dec_digits(n).len() ==> is_digit(#[trigger] dec_digits(n)[k]),
    decreases n,
{
    if n < 10 {
        lemma_digit_char_val(n);
    } else {
        lemma_dec_digits_props(n / 10);
        lemma_digit_char_val(n % 10);
    }
}

/// The padded digits of a number are exactly `w` digit characters.
proof fn lemma_pad_props(n: nat, w: nat)
    ensures
        dec_digits_pad(n, w).len() == w,
        forall|k: int|
            0 <= k < w ==> is_digit(#[trigger] dec_digits_pad(n, w)[k]),
    decreases w,
{
    if w > 0 {
        lemma_pad_props(n / 10, (w - 1) as nat);
        lemma_digit_char_val(n % 10);
    }
}

/// A digit run's value depends only on the characters in the window.
proof fn lemma_digits_val_congruent(s1: Seq<char>, i1: nat, s2: Seq<char>, i2: nat, len: nat)
    requires
        forall|k: int| 0 <= k < len ==> #[trigger] s1[i1 + k] == s2[i2 + k],
    ensures
        digits_val(s1, i1, (i1 + len) as nat) == digits_val(s2, i2, (i2 + len) as nat),
    decreases len,
{
    if len > 0 {
        lemma_digits_val_congruent(s1, i1, s2, i2, (len - 1) as nat);
        assert(s1[i1 + (len - 1)] == s2[i2 + (len - 1)]);
    }
}

/// Scanning the decimal digits of `n` reads back `n`.
proof fn lemma_dec_digits_val(n: nat)
    ensures
        digits_val(dec_digits(n), 0, dec_digits(n).len()) == n,
    decreases n,
{
    lemma_digit_char_val(n % 10);
    if n < 10 {
        lemma_digit_char_val(n);
        assert(digits_val(dec_digits(n), 0, 1) == digits_val(dec_digits(n), 0, 0) * 10
            + digit_val(dec_digits(n)[0]));
    } else {
        lemma_dec_digits_val(n / 10);
        let t = dec_digits(n / 10);
        let full = dec_digits(n);
        lemma_digits_val_congruent(full, 0, t, 0, t.len());
        assert(digits_val(full, 0, t.len()) == n / 10);
        assert(digits_val(full, 0, full.len()) == digits_val(full, 0, (full.len() - 1) as nat)
            * 10 + digit_val(full[full.len() - 1]));
        vstd::arithmetic::div_mod::lemma_fundamental_div_mod(n as int, 10);
    }
}

/// Scanning the `w`-padded digits of `n` reads back `n` modulo `10^w`.
proof fn lemma_pad_val(n: nat, w: nat)
    ensures
        digits_val(dec_digits_pad(n, w), 0, w) as int == (n as int) % pow10(w),
    decreases w,
{
    if w == 0 {
        assert(pow10(0) == 1) by {
            vstd::arithmetic::power::lemma_pow0(10);
        }
        vstd::arithmetic::div_mod::lemma_fundamental_div_mod_converse(n as int, 1, n as int, 0);
    } else {
        lemma_pad_val(n / 10, (w - 1) as nat);
        lemma_digit_char_val(n % 10);
        let t = dec_digits_pad(n / 10, (w - 1) as nat);
        let full = dec_digits_pad(n, w);
        lemma_pad_props(n / 10, (w - 1) as nat);
        lemma_pad_props(n, w);
        lemma_digits_val_congruent(full, 0, t, 0, t.len());
        lemma_pow10_pos((w - 1) as nat);
        lemma_pow10_unfold(w);
        assert(n as int % pow10(w) == 10 * ((n as int / 10) % pow10((w - 1) as nat)) + n as int
            % 10) by {
            vstd::arithmetic::div_mod::lemma_breakdown(n as int, 10, pow10((w - 1) as nat));
        }
    }
}

/// A run of digit characters ending at a non-digit (or at the end of the
/// text) scans exactly to there.
proof fn lemma_digits_end_stops(s: Seq<char>, i: nat, j: nat)
    requires
        i <= j <= s.len(),
        forall|k: int| i <= k < j ==> is_digit(s[k]),
        j == s.len() || !is_digit(s[j as int]),
    ensures
        digits_end(s, i) == j,
    decreases j - i,
{
    if i < j {
        lemma_digits_end_stops(s, i + 1, j);
    }
}

/// What the number scanner reads off a formatted scientific writing: the
/// sign, the mantissa digits, the scale, and the exponent it was built
/// from, consuming the whole text.
#[verifier::rlimit(100)]
#[verifier::spinoff_prover]
proof fn lemma_parse_of_sci(v: StandardForm)
    requires
        v.wf(),
    ensures
        parse_num_at(sci_seq(v), 0) == Some(
            (sci_seq(v).len(), v.digits() < 0, iabs(v.digits()) as nat, v.scale(), v.exp()),
        ),
{
    reveal(crate::parse::parse_num_at);
    let cs = sci_seq(v);
    let u: nat = iabs(v.digits()) as nat;
    let k: nat = v.scale();
    let e: int = v.exp();
    let neg: bool = v.digits() < 0;
    let sign: Seq<char> = if neg {
        seq!['-']
    } else {
        Seq::empty()
    };
    let sl: nat = sign.len();
    lemma_pow10_pos(k);
    let q: nat = if k == 0 {
        u
    } else {
        ((u as int) / pow10(k)) as nat
    };
    let rm: nat = if k == 0 {
        0
    } else {
        ((u as int) % pow10(k)) as nat
    };
    if k > 0 {
        vstd::arithmetic::div_mod::lemma_fundamental_div_mod(u as int, pow10(k));
        vstd::arithmetic::div_mod::lemma_mod_division_less_than_divisor(u as int, pow10(k));
        vstd::arithmetic::div_mod::lemma_div_pos_is_pos(u as int, pow10(k));
    }
    let a = dec_digits(q);
    lemma_dec_digits_props(q);
    lemma_dec_digits_val(q);
    let frac: Seq<char> = if k == 0 {
        Seq::empty()
    } else {
        seq!['.'] + dec_digits_pad(rm, k)
    };
    lemma_pad_props(rm, k);
    lemma_pad_val(rm, k);
    let ev: nat = if e < 0 {
        (-e) as nat
    } else {
        e as nat
    };
    let esign: Seq<char> = if e < 0 {
        seq!['-']
    } else {
        Seq::empty()
    };
    let eds = dec_digits(ev);
    lemma_dec_digits_props(ev);
    lemma_dec_digits_val(ev);
    assert(mantissa_seq(v.mantissa) == sign + a + frac) by {
        assert(decimal_seq(neg, u, k) == sign + a + frac);
    }
    assert(int_seq(e) == esign + eds);
    assert(cs =~= sign + a + frac + seq!['e'] + esign + eds);
    let i1: nat = sl;
    let p1: nat = sl + a.len();
    let i2: nat = if k == 0 {
        p1
    } else {
        p1 + 1
    };
    let p2: nat = i2 + k;
    let q1: nat = p2 + 1 + esign.len();
    let q2: nat = q1 + eds.len();
    assert(q2 == cs.len());
    // The characters of each region.
    assert(forall|j: int| 0 <= j < a.len() ==> cs[i1 + j] == a[j]);
    assert(forall|j: int| 0 <= j < k ==> cs[i2 + j] == dec_digits_pad(rm, k)[j]);
    assert(forall|j: int| 0 <= j < eds.len() ==> cs[q1 + j] == eds[j]);
    assert(cs[p2 as int] == 'e');
    if neg {
        assert(cs[0] == '-');
    } else {
        assert(is_digit(cs[0]));
    }
    if k > 0 {
        assert(cs[p1 as int] == '.');
    }
    if e < 0 {
        assert(cs[p2 as int + 1] == '-');
    } else {
        assert(is_digit(cs[p2 as int + 1]));
    }
    // The scans stop at the region ends.
    lemma_digits_end_stops(cs, i1, p1);
    lemma_digits_end_stops(cs, i2, p2);
    lemma_digits_end_stops(cs, q1, q2);
    // The scanned values are the formatted ones.
    lemma_digits_val_congruent(cs, i1, a, 0, a.len());
    lemma_digits_val_congruent(cs, i2, dec_digits_pad(rm, k), 0, k);
    lemma_digits_val_congruent(cs, q1, eds, 0, eds.len());
    assert(digits_val(cs, i1, p1) == q);
    if k > 0 {
        assert(digits_val(cs, i2, p2) == rm) by {
            vstd::arithmetic::div_mod::lemma_small_mod(rm, pow10(k) as nat);
        }
    } else {
        assert(digits_val(cs, i2, p2) == 0);
    }
    assert(digits_val(cs, q1, q2) == ev);
    // The mantissa digits reassemble to u.
    if k == 0 {
        assert(pow10(0) == 1) by {
            vstd::arithmetic::power::lemma_pow0(10);
        }
        assert(q * pow10(0) + 0 == u) by (nonlinear_arith)
            requires
                q == u,
                pow10(0) == 1,
        ;
    } else {
        vstd::arithmetic::div_mod::lemma_small_mod(rm, pow10(k) as nat);
        assert(q * pow10(k) + rm == u) by (nonlinear_arith)
            requires
                u as int == pow10(k) * ((u as int) / pow10(k)) + (u as int) % pow10(k),
                q == (u as int) / pow10(k),
                rm == (u as int) % pow10(k),
        ;
    }
}

/// Round trip: parsing the scientific writing of any stored value gives
/// back exactly that value.
pub proof fn lemma_format_parse_round_trip(v: StandardForm)
    requires
        v.wf(),
    ensures
        crate::parse::try_from_spec(sci_seq(v)) == Ok::<
            (int, nat, int),
            crate::error::ParsingStandardFormError,
        >(parts(v)),
{
    lemma_parse_of_sci(v);
    let cs = sci_seq(v);
    let u: nat = iabs(v.digits()) as nat;
    assert(crate::parse::mant_full(cs) == Some((v.digits() < 0, u, v.scale(), v.exp())));
    assert(crate::parse::round17(u, v.scale(), v.exp()) == (u, v.scale(), v.exp())) by {
        reveal(crate::parse::round17);
        lemma_pow10_16();
        crate::arith::lemma_pow10_strictly_increases(16, 17);
        if v.digits() != 0 {
            crate::arith::lemma_pow10_increases(v.scale() + 1, 16);
        }
    }
    assert(crate::sf::signed_mag(v.digits() < 0, u as int) == v.digits());
    lemma_wrap_i8_id(v.exp());
    if v.digits() == 0 {
    } else {
        lemma_norm_idempotent(v.mantissa, v.exp());
    }
}

/// Values with differing exponents order strictly by exponent, whatever
/// the mantissas and their signs.
pub proof fn lemma_order_by_exponent(a: StandardForm, b: StandardForm)
    requires
        a.exp() < b.exp(),
    ensures
        cmp_spec(a, b) == Ordering::Less,
        cmp_spec(b, a) == Ordering::Greater,
{
}

} // verus!
