//! Textual forms of a standard-form number: scientific notation
//! (`1.54e3`), engineering notation (`1.54*10^3`), and the default display
//! that writes small exponents out as a plain decimal.

use crate::arith::{iabs, lemma_pow10_16, lemma_pow10_19, lemma_pow10_38, lemma_pow10_increases,
    lemma_pow10_pos, pow10, pow10_u128};
use crate::sf::{Mantissa, StandardForm};
use vstd::prelude::*;

verus! {

/// The character for one decimal digit.
pub open spec fn digit_char(d: nat) -> char {
    if d == 0 {
        '0'
    } else if d == 1 {
        '1'
    } else if d == 2 {
        '2'
    } else if d == 3 {
        '3'
    } else if d == 4 {
        '4'
    } else if d == 5 {
        '5'
    } else if d == 6 {
        '6'
    } else if d == 7 {
        '7'
    } else if d == 8 {
        '8'
    } else {
        '9'
    }
}

/// The decimal digits of `n`, most significant first, no leading zeros
/// (a lone `0` for zero).
pub open spec fn dec_digits(n: nat) -> Seq<char>
    decreases n,
{
    if n < 10 {
        seq![digit_char(n)]
    } else {
        dec_digits(n / 10).push(digit_char(n % 10))
    }
}

/// The last `w` decimal digits of `n`, zero-padded to exactly `w`
/// characters.
pub open spec fn dec_digits_pad(n: nat, w: nat) -> Seq<char>
    decreases w,
{
    if w == 0 {
        Seq::empty()
    } else {
        dec_digits_pad(n / 10, (w - 1) as nat).push(digit_char(n % 10))
    }
}

/// A signed decimal with `k` fractional digits: sign, integer part, and —
/// when `k > 0` — a point and the zero-padded fraction.
pub open spec fn decimal_seq(neg: bool, u: nat, k: nat) -> Seq<char> {
    let sign: Seq<char> = if neg {
        seq!['-']
    } else {
        Seq::empty()
    };
    if k == 0 {
        sign + dec_digits(u)
    } else {
        let q: nat = ((u as int) / pow10(k)) as nat;
        let rm: nat = ((u as int) % pow10(k)) as nat;
        sign + dec_digits(q) + seq!['.'] + dec_digits_pad(rm, k)
    }
}

/// The mantissa written as a decimal.
pub open spec fn mantissa_seq(m: Mantissa) -> Seq<char> {
    decimal_seq(m.digits < 0, iabs(m.digits as int) as nat, m.scale as nat)
}

/// A signed integer written in decimal.
pub open spec fn int_seq(e: int) -> Seq<char> {
    if e < 0 {
        seq!['-'] + dec_digits((-e) as nat)
    } else {
        dec_digits(e as nat)
    }
}

/// Scientific notation: `{mantissa}e{exponent}`.
pub open spec fn sci_seq(v: StandardForm) -> Seq<char> {
    mantissa_seq(v.mantissa) + seq!['e'] + int_seq(v.exp())
}

/// Engineering notation: `{mantissa}*10^{exponent}`.
pub open spec fn eng_seq(v: StandardForm) -> Seq<char> {
    mantissa_seq(v.mantissa) + seq!['*', '1', '0', '^'] + int_seq(v.exp())
}

/// The default display: scientific notation past exponent four, the plain
/// decimal worth of the number otherwise.
pub open spec fn display_seq(v: StandardForm) -> Seq<char> {
    if v.exp() > 4 {
        sci_seq(v)
    } else if v.exp() >= v.scale() {
        decimal_seq(v.digits() < 0, (iabs(v.digits()) * pow10((v.exp() - v.scale()) as nat)) as nat, 0)
    } else {
        decimal_seq(v.digits() < 0, iabs(v.digits()) as nat, (v.scale() - v.exp()) as nat)
    }
}

/// One digit, as a borrowed string.
fn digit_str(d: u128) -> (r: &'static str)
    requires
        d < 10,
    ensures
        r@ == seq![digit_char(d as nat)],
{
    proof {
        reveal_strlit("0");
        reveal_strlit("1");
        reveal_strlit("2");
        reveal_strlit("3");
        reveal_strlit("4");
        reveal_strlit("5");
        reveal_strlit("6");
        reveal_strlit("7");
        reveal_strlit("8");
        reveal_strlit("9");
    }
    let r: &'static str = if d == 0 {
        "0"
    } else if d == 1 {
        "1"
    } else if d == 2 {
        "2"
    } else if d == 3 {
        "3"
    } else if d == 4 {
        "4"
    } else if d == 5 {
        "5"
    } else if d == 6 {
        "6"
    } else if d == 7 {
        "7"
    } else if d == 8 {
        "8"
    } else {
        "9"
    };
    proof {
        assert(r@ =~= seq![digit_char(d as nat)]);
    }
    r
}

/// Appends the decimal digits of `n`.
fn push_dec(out: &mut String, n: u128)
    ensures
        final(out)@ == old(out)@ + dec_digits(n as nat),
    decreases n,
{
    if n >= 10 {
        push_dec(out, n / 10);
    }
    out.append(digit_str(n % 10));
    proof {
        assert(final(out)@ =~= old(out)@ + dec_digits(n as nat));
    }
}

/// Appends exactly `w` digits: the last `w` digits of `n`, zero-padded.
fn push_dec_pad(out: &mut String, n: u128, w: u32)
    ensures
        final(out)@ == old(out)@ + dec_digits_pad(n as nat, w as nat),
    decreases w,
{
    if w > 0 {
        push_dec_pad(out, n / 10, w - 1);
        out.append(digit_str(n % 10));
    }
    proof {
        assert(final(out)@ =~= old(out)@ + dec_digits_pad(n as nat, w as nat));
    }
}

/// Appends a signed decimal with `k` fractional digits.
fn push_decimal(out: &mut String, neg: bool, u: u128, k: u32)
    requires
        k > 0 ==> u < pow10(20),
    ensures
        final(out)@ == old(out)@ + decimal_seq(neg, u as nat, k as nat),
{
    proof {
        reveal_strlit("-");
        reveal_strlit(".");
        lemma_pow10_19();
        lemma_pow10_38();
    }
    if neg {
        out.append("-");
    }
    if k == 0 {
        push_dec(out, u);
    } else if k >= 20 {
        proof {
            lemma_pow10_increases(20, k as nat);
            crate::arith::lemma_pow10_unfold(20);
            lemma_pow10_pos(k as nat);
            assert((u as int) / pow10(k as nat) == 0) by {
                vstd::arithmetic::div_mod::lemma_basic_div(u as int, pow10(k as nat));
            }
            assert((u as int) % pow10(k as nat) == u as int) by {
                vstd::arithmetic::div_mod::lemma_small_mod(u as nat, pow10(k as nat) as nat);
            }
        }
        out.append("0");
        proof {
            reveal_strlit("0");
        }
        out.append(".");
        push_dec_pad(out, u, k);
    } else {
        let p: u128 = pow10_u128(k);
        proof {
            lemma_pow10_pos(k as nat);
        }
        push_dec(out, u / p);
        out.append(".");
        push_dec_pad(out, u % p, k);
    }
    proof {
        assert(final(out)@ =~= old(out)@ + decimal_seq(neg, u as nat, k as nat));
    }
}

/// Appends a signed integer in decimal.
fn push_int(out: &mut String, e: i32)
    requires
        -1000 <= e <= 1000,
    ensures
        final(out)@ == old(out)@ + int_seq(e as int),
{
    proof {
        reveal_strlit("-");
    }
    if e < 0 {
        out.append("-");
        push_dec(out, (-e) as u128);
    } else {
        push_dec(out, e as u128);
    }
    proof {
        assert(final(out)@ =~= old(out)@ + int_seq(e as int));
    }
}

impl StandardForm {
    /// The magnitude of the mantissa digits, for the writers below.
    fn digits_mag(&self) -> (u: u128)
        requires
            self.wf(),
        ensures
            u == iabs(self.digits()),
            u <= pow10(16),
    {
        proof {
            lemma_pow10_16();
            if self.digits() != 0 {
                lemma_pow10_increases(self.scale() + 1, 16);
            }
        }
        if self.mantissa.digits < 0 {
            (-(self.mantissa.digits as i128)) as u128
        } else {
            self.mantissa.digits as u128
        }
    }

    /// The number in scientific notation: `{mantissa}e{exponent}`.
    pub fn to_scientific_notation(&self) -> (r: String)
        requires
            self.wf(),
        ensures
            r@ == sci_seq(*self),
    {
        proof {
            lemma_pow10_16();
            crate::arith::lemma_pow10_strictly_increases(16, 20);
            reveal_strlit("e");
        }
        let mut out = String::new();
        let u: u128 = self.digits_mag();
        push_decimal(&mut out, self.mantissa.digits < 0, u, self.mantissa.scale);
        out.append("e");
        push_int(&mut out, self.exponent as i32);
        proof {
            assert(out@ =~= sci_seq(*self));
        }
        out
    }

    /// The number in engineering notation: `{mantissa}*10^{exponent}`.
    pub fn to_engineering_notation(&self) -> (r: String)
        requires
            self.wf(),
        ensures
            r@ == eng_seq(*self),
    {
        proof {
            lemma_pow10_16();
            crate::arith::lemma_pow10_strictly_increases(16, 20);
            reveal_strlit("*10^");
        }
        let mut out = String::new();
        let u: u128 = self.digits_mag();
        push_decimal(&mut out, self.mantissa.digits < 0, u, self.mantissa.scale);
        out.append("*10^");
        push_int(&mut out, self.exponent as i32);
        proof {
            assert(out@ =~= eng_seq(*self));
        }
        out
    }

    /// The default written form: scientific notation past exponent four,
    /// the full decimal worth otherwise.
    pub fn to_display_string(&self) -> (r: String)
        requires
            self.wf(),
        ensures
            r@ == display_seq(*self),
    {
        if self.exponent > 4 {
            return self.to_scientific_notation();
        }
        proof {
            lemma_pow10_16();
            crate::arith::lemma_pow10_strictly_increases(16, 20);
        }
        let mut out = String::new();
        let u: u128 = self.digits_mag();
        let e: i32 = self.exponent as i32;
        let s: i32 = self.mantissa.scale as i32;
        if e >= s {
            let k: u32 = (e - s) as u32;
            proof {
                lemma_pow10_increases(16, (37 - k) as nat);
                crate::arith::lemma_mul_pow10_bound(self.digits(), k as nat, 16);

                crate::arith::lemma_iabs_mul(self.digits(), pow10(k as nat));
                lemma_pow10_pos(k as nat);
                lemma_pow10_38();
                lemma_pow10_increases(16 + k as nat, 20);
                lemma_pow10_increases(20, 38);
            }
            let w: u128 = u * pow10_u128(k);
            push_decimal(&mut out, self.mantissa.digits < 0, w, 0);
        } else {
            let k: u32 = (s - e) as u32;
            push_decimal(&mut out, self.mantissa.digits < 0, u, k);
        }
        proof {
            assert(out@ =~= display_seq(*self));
        }
        out
    }
}

} // verus!
