//! Reading standard-form numbers from text.
//!
//! Three shapes are accepted, tried in this fixed order: a plain decimal
//! number with an optional `e`-exponent
//! (`"42"`, `"0.025"`, `"1.23e3"`); a mantissa, a lowercase `e`, and a
//! signed 8-bit exponent; and a mantissa, the four characters `*10^`, and a
//! signed 8-bit exponent (`"2.5*10^-2"`).
//!
//! The number grammar is the decimal core of the native float grammar:
//! optional sign, digits with an optional point (at least one digit), and
//! an optional integer exponent after `e` or `E`.  The infinity and
//! not-a-number words have no standard-form writing and are not accepted.
//! Mantissas finer than 17 significant digits are rounded (half up by the
//! first dropped digit); exponents of any written size are taken, and fold
//! into the stored 8-bit exponent modulo 256 as every exponent here does.

use crate::arith::{
    iabs, lemma_pow10_16, lemma_pow10_19, lemma_pow10_38, lemma_pow10_adds,
    lemma_pow10_increases, lemma_pow10_pos, lemma_pow10_unfold, pow10, pow10_u128, wrap_i8,
};
use crate::sf::{norm_spec, signed_mag, Mantissa, StandardForm};
use vstd::prelude::*;

verus! {

/// Is this character a decimal digit?
pub open spec fn is_digit(c: char) -> bool {
    48 <= c as int <= 57
}

/// The numeric value of a digit character.
pub open spec fn digit_val(c: char) -> nat {
    (c as int - 48) as nat
}

/// The first position at or after `i` that does not hold a digit.
pub open spec fn digits_end(s: Seq<char>, i: nat) -> nat
    decreases s.len() - i,
{
    if i < s.len() && is_digit(s[i as int]) {
        digits_end(s, i + 1)
    } else {
        i
    }
}

/// The value of the digit run `s[i..j)`.
pub open spec fn digits_val(s: Seq<char>, i: nat, j: nat) -> nat
    decreases j,
{
    if j <= i {
        0
    } else {
        digits_val(s, i, (j - 1) as nat) * 10 + digit_val(s[j as int - 1])
    }
}

/// The number of decimal digits of `n` (one for zero).
pub open spec fn digit_len(n: nat) -> nat
    decreases n,
{
    if n < 10 {
        1
    } else {
        1 + digit_len(n / 10)
    }
}

proof fn lemma_digits_end_bounds(s: Seq<char>, i: nat)
    requires
        i <= s.len(),
    ensures
        i <= digits_end(s, i) <= s.len(),
        forall|k: int| i <= k < digits_end(s, i) ==> is_digit(s[k]),
        digits_end(s, i) < s.len() ==> !is_digit(s[digits_end(s, i) as int]),
    decreases s.len() - i,
{
    if i < s.len() && is_digit(s[i as int]) {
        lemma_digits_end_bounds(s, i + 1);
    }
}

/// Digit length against powers of ten: `n` has `L` digits exactly when
/// `10^(L-1) <= n < 10^L` (for positive `n`).
proof fn lemma_digit_len_bounds(n: nat)
    requires
        n >= 1,
    ensures
        pow10((digit_len(n) - 1) as nat) <= n < pow10(digit_len(n)),
    decreases n,
{
    assert(pow10(0) == 1) by {
        vstd::arithmetic::power::lemma_pow0(10);
    }
    lemma_pow10_unfold(1);
    if n < 10 {
    } else {
        lemma_digit_len_bounds(n / 10);
        let l1 = digit_len(n / 10);
        lemma_pow10_unfold((l1 + 1) as nat);
        lemma_pow10_unfold(l1);
        vstd::arithmetic::div_mod::lemma_fundamental_div_mod(n as int, 10);
        assert(n == 10 * (n as int / 10) + n as int % 10);
        assert(0 <= n as int % 10 < 10) by {
            vstd::arithmetic::div_mod::lemma_mod_division_less_than_divisor(n as int, 10);
        }
    }
}

/// What scanning one number at position `i` yields: the end position, the
/// mantissa's sign, its digits `D` and fractional count `S`, and the signed
/// written exponent `E`; the value read is `(+-) D * 10^-S * 10^E`.  `None`
/// when no digit is found where the grammar asks for the mantissa.  An
/// incomplete exponent tail (an `e` not followed by digits) is left
/// unconsumed, as the float grammar backtracks there.
#[verifier::opaque]
pub open spec fn parse_num_at(s: Seq<char>, i: nat) -> Option<(nat, bool, nat, nat, int)> {
    let neg = i < s.len() && s[i as int] == '-';
    let signed = i < s.len() && (s[i as int] == '-' || s[i as int] == '+');
    let i1: nat = if signed {
        i + 1
    } else {
        i
    };
    let p1 = digits_end(s, i1);
    let dotted = p1 < s.len() && s[p1 as int] == '.';
    let i2: nat = if dotted {
        p1 + 1
    } else {
        p1
    };
    let p2 = digits_end(s, i2);
    if p1 == i1 && p2 == i2 {
        None
    } else {
        let d: nat = (digits_val(s, i1, p1) * pow10((p2 - i2) as nat) + digits_val(s, i2, p2)) as nat;
        let fs: nat = (p2 - i2) as nat;
        let has_e = p2 < s.len() && (s[p2 as int] == 'e' || s[p2 as int] == 'E');
        if has_e {
            let esigned = p2 + 1 < s.len() && (s[p2 as int + 1] == '-' || s[p2 as int + 1] == '+');
            let eneg = p2 + 1 < s.len() && s[p2 as int + 1] == '-';
            let q1: nat = if esigned {
                p2 + 2
            } else {
                p2 + 1
            };
            let q2 = digits_end(s, q1);
            if q2 == q1 {
                Some((p2, neg, d, fs, 0))
            } else {
                let ev = digits_val(s, q1, q2) as int;
                Some((q2, neg, d, fs, if eneg {
                    -ev
                } else {
                    ev
                }))
            }
        } else {
            Some((p2, neg, d, fs, 0))
        }
    }
}

/// Rounds a parsed digit string to at most 17 significant digits, half up
/// by the first dropped digit, shifting the dropped places into the scale
/// or the exponent.
#[verifier::opaque]
pub open spec fn round17(d: nat, s: nat, e: int) -> (nat, nat, int) {
    if d < pow10(17) {
        (d, s, e)
    } else {
        let x = (digit_len(d) - 17) as nat;
        let dt: nat = ((d as int) / pow10(x)) as nat;
        let nextd: nat = (((d as int) / pow10((x - 1) as nat)) % 10) as nat;
        let dr: nat = if nextd >= 5 {
            (dt + 1) as nat
        } else {
            dt
        };
        if s >= x {
            (dr, (s - x) as nat, e)
        } else {
            (dr, 0, e + (x - s))
        }
    }
}

/// The stored parts for a parsed number `(+-) D * 10^-S * 10^E`: round to
/// 17 significant digits, then normalize.
pub open spec fn num_parts(neg: bool, d: nat, s: nat, e: int) -> (int, nat, int) {
    let r = round17(d, s, e);
    crate::ops::norm_wrapped(signed_mag(neg, r.0 as int), r.1, r.2)
}

/// Reads the exponent digits `s[q1..q2)` and folds in the digit-count
/// offset `off`: the combined written exponent modulo 256, saturated, and
/// whether it sits far outside the useful range.
fn exp_fields(s: &str, q1: usize, q2: usize, n: usize, off: u64, eneg: bool) -> (r: (
    u64,
    i64,
    bool,
))
    requires
        n == s@.len(),
        q1 < q2 <= n,
        n < 0x8000_0000,
        off < 0x1_0000_0000,
        forall|k: int| q1 <= k < q2 ==> is_digit(s@[k]),
    ensures
        ({
            let ev = digits_val(s@, q1 as nat, q2 as nat);
            let e: int = if eneg {
                -(ev as int)
            } else {
                ev as int
            };
            &&& r.0 < 256
            &&& r.0 as int == (e + off) % 256
            &&& (!r.2 ==> r.1 as int == e + off)
            &&& (r.2 ==> iabs(e + off) > 0x2_0000_0000 && r.1 != 0 && ((e + off < 0) == (r.1
                < 0)))
        }),
{
    let (em, esat_mag, ebig) = accum_exp(s, q1, q2, n);
    let ghost ev: nat = digits_val(s@, q1 as nat, q2 as nat);
    let ghost e: int = if eneg {
        -(ev as int)
    } else {
        ev as int
    };
    let em_signed: u64 = if eneg {
        (256 - em) % 256
    } else {
        em
    };
    proof {
        if eneg {
            lemma_neg_mod_256(ev as int);
        }
        vstd::arithmetic::div_mod::lemma_add_mod_noop(e, off as int, 256);
        vstd::arithmetic::div_mod::lemma_small_mod((off % 256) as nat, 256);
        vstd::arithmetic::div_mod::lemma_mod_division_less_than_divisor(e + off as int, 256);
    }
    let emod: u64 = (em_signed + off % 256) % 256;
    let esat: i64 = if eneg {
        -(esat_mag as i64) + off as i64
    } else {
        esat_mag as i64 + off as i64
    };
    (emod, esat, ebig)
}

/// The grammar positions, assembled: what [`parse_num_at`] answers once
/// the scan positions are known.
proof fn lemma_parse_shape(
    s: Seq<char>,
    i: nat,
    i1: nat,
    p1: nat,
    i2: nat,
    p2: nat,
    end: nat,
    neg: bool,
    d: nat,
    fs: nat,
    e: int,
)
    requires
        i <= s.len(),
        neg == (i < s.len() && s[i as int] == '-'),
        i1 == if i < s.len() && (s[i as int] == '-' || s[i as int] == '+') {
            i + 1
        } else {
            i
        },
        p1 == digits_end(s, i1),
        i2 == if p1 < s.len() && s[p1 as int] == '.' {
            p1 + 1
        } else {
            p1
        },
        p2 == digits_end(s, i2),
        !(p1 == i1 && p2 == i2),
        d as int == digits_val(s, i1, p1) * pow10((p2 - i2) as nat) + digits_val(s, i2, p2),
        fs == (p2 - i2) as nat,
        ({
            if p2 < s.len() && (s[p2 as int] == 'e' || s[p2 as int] == 'E') {
                let esigned = p2 + 1 < s.len() && (s[p2 as int + 1] == '-' || s[p2 as int + 1]
                    == '+');
                let eneg = p2 + 1 < s.len() && s[p2 as int + 1] == '-';
                let q1: nat = if esigned {
                    p2 + 2
                } else {
                    p2 + 1
                };
                let q2 = digits_end(s, q1);
                if q2 == q1 {
                    end == p2 && e == 0
                } else {
                    end == q2 && e == (if eneg {
                        -(digits_val(s, q1, q2) as int)
                    } else {
                        digits_val(s, q1, q2) as int
                    })
                }
            } else {
                end == p2 && e == 0
            }
        }),
    ensures
        parse_num_at(s, i) == Some((end, neg, d, fs, e)),
{
    reveal(parse_num_at);
}

/// The answer when the grammar finds no mantissa digit.
proof fn lemma_parse_shape_none(s: Seq<char>, i: nat, i1: nat, p1: nat, i2: nat, p2: nat)
    requires
        i <= s.len(),
        i1 == if i < s.len() && (s[i as int] == '-' || s[i as int] == '+') {
            i + 1
        } else {
            i
        },
        p1 == digits_end(s, i1),
        i2 == if p1 < s.len() && s[p1 as int] == '.' {
            p1 + 1
        } else {
            p1
        },
        p2 == digits_end(s, i2),
        p1 == i1 && p2 == i2,
    ensures
        parse_num_at(s, i) is None,
{
    reveal(parse_num_at);
}

/// The first position at or after `from` holding `c`.
pub open spec fn find_char(s: Seq<char>, from: nat, c: char) -> Option<nat>
    decreases s.len() - from,
{
    if from >= s.len() {
        None
    } else if s[from as int] == c {
        Some(from)
    } else {
        find_char(s, from + 1, c)
    }
}

/// A signed 8-bit integer, read from `from` to the very end of the text:
/// optional sign, digits, value within the 8-bit range — else nothing.
pub open spec fn parse_i8_at(s: Seq<char>, from: nat) -> Option<int> {
    let signed = from < s.len() && (s[from as int] == '-' || s[from as int] == '+');
    let neg = from < s.len() && s[from as int] == '-';
    let i1: nat = if signed {
        from + 1
    } else {
        from
    };
    let p = digits_end(s, i1);
    if p != s.len() || p == i1 {
        None
    } else {
        let sv = if neg {
            -(digits_val(s, i1, p) as int)
        } else {
            digits_val(s, i1, p) as int
        };
        if -128 <= sv <= 127 {
            Some(sv)
        } else {
            None
        }
    }
}

/// The rounded parts of a number, truncated toward zero and saturated into
/// the signed 8-bit range: how an exponent written as a general number is
/// narrowed.
pub open spec fn i8_of_rounded(neg: bool, rr: (nat, nat, int)) -> int {
    let p = rr.2 - rr.1;
    let m: int = if p >= 0 {
        rr.0 * pow10(p as nat)
    } else {
        rr.0 as int / pow10((-p) as nat)
    };
    let sv = signed_mag(neg, m);
    if sv > 127 {
        127
    } else if sv < -128 {
        -128
    } else {
        sv
    }
}

/// A parsed number narrowed to a signed 8-bit exponent value.
pub open spec fn num_as_i8(neg: bool, d: nat, fs: nat, e: int) -> int {
    i8_of_rounded(neg, round17(d, fs, e))
}

/// How long an exponent marker at `i` is: one character for `e` or `E`,
/// four for `*10^`, nothing otherwise.
pub open spec fn exp_marker_at(s: Seq<char>, i: nat) -> Option<nat> {
    if i < s.len() && (s[i as int] == 'e' || s[i as int] == 'E') {
        Some(1)
    } else if i + 4 <= s.len() && s[i as int] == '*' && s[i as int + 1] == '1' && s[i as int + 2]
        == '0' && s[i as int + 3] == '^' {
        Some(4)
    } else {
        None
    }
}

/// What reading an exponent at `i` yields: the marker, then a number,
/// narrowed to 8 bits; the end of the number and that value.
pub open spec fn parse_exp_at(s: Seq<char>, i: nat) -> Option<(nat, int)> {
    match exp_marker_at(s, i) {
        None => None,
        Some(off) => match parse_num_at(s, i + off) {
            None => None,
            Some(t) => Some((t.0, num_as_i8(t.1, t.2, t.3, t.4))),
        },
    }
}

/// Whether the whole text is one number, and which.
pub open spec fn mant_full(s: Seq<char>) -> Option<(bool, nat, nat, int)> {
    match parse_num_at(s, 0) {
        Some(t) => if t.0 == s.len() {
            Some((t.1, t.2, t.3, t.4))
        } else {
            None
        },
        None => None,
    }
}

/// What [`StandardForm::try_from`] stores or reports, over the text alone:
/// the three accepted shapes tried in order, with the errors of each.
pub open spec fn try_from_spec(s: Seq<char>) -> Result<
    (int, nat, int),
    crate::error::ParsingStandardFormError,
> {
    match mant_full(s) {
        Some(t) => Ok(num_parts(t.0, t.1, t.2, t.3)),
        None => match find_char(s, 0, 'e') {
            Some(idx) => match mant_full(s.subrange(0, idx as int)) {
                Some(t) => match parse_i8_at(s, idx + 1) {
                    Some(ex) => Ok(num_parts(t.0, t.1, t.2, t.3 + ex)),
                    None => Err(crate::error::ParsingStandardFormError::Exponent),
                },
                None => Err(crate::error::ParsingStandardFormError::Mantissa),
            },
            None => match find_char(s, 0, '^') {
                Some(idx) => if idx >= 3 && s[idx as int - 3] == '*' && s[idx as int - 2] == '1'
                    && s[idx as int - 1] == '0' {
                    match mant_full(s.subrange(0, idx as int - 3)) {
                        Some(t) => match parse_i8_at(s, idx + 1) {
                            Some(ex) => Ok(num_parts(t.0, t.1, t.2, t.3 + ex)),
                            None => Err(crate::error::ParsingStandardFormError::Exponent),
                        },
                        None => Err(crate::error::ParsingStandardFormError::Mantissa),
                    }
                } else {
                    Err(crate::error::ParsingStandardFormError::InvalidFormat)
                },
                None => Err(crate::error::ParsingStandardFormError::InvalidFormat),
            },
        },
    }
}

/// Does position `i` hold the character `c`?
fn char_at_is(s: &str, i: usize, n: usize, c: char) -> (b: bool)
    requires
        n == s@.len(),
    ensures
        b == (i < s@.len() && s@[i as int] == c),
{
    if i < n {
        s.get_char(i) == c
    } else {
        false
    }
}

/// Does position `i` hold a digit?
fn digit_at(s: &str, i: usize, n: usize) -> (b: bool)
    requires
        n == s@.len(),
    ensures
        b == (i < s@.len() && is_digit(s@[i as int])),
{
    if i < n {
        let u: u32 = s.get_char(i) as u32;
        48 <= u && u <= 57
    } else {
        false
    }
}

/// Scans past the digit run starting at `i`.
fn scan_digits(s: &str, i: usize, n: usize) -> (j: usize)
    requires
        n == s@.len(),
        i <= n,
    ensures
        j as nat == digits_end(s@, i as nat),
        i <= j <= n,
{
    let mut j: usize = i;
    while digit_at(s, j, n)
        invariant
            i <= j <= n,
            n == s@.len(),
            digits_end(s@, i as nat) == digits_end(s@, j as nat),
        decreases n - j,
    {
        j = j + 1;
    }
    j
}

/// Running state of the 17-digit accumulator: the leading digits kept, how
/// many digits have been dropped past them, and the first dropped digit.
struct DigAcc {
    acc: u128,
    extra: u64,
    nextd: u8,
}

/// The accumulator faithfully summarizes the digit value `dv` read so far.
#[verifier::opaque]
spec fn digacc_ok(dv: nat, a: DigAcc) -> bool {
    if dv < pow10(17) {
        a.acc == dv && a.extra == 0
    } else {
        &&& a.extra as nat == (digit_len(dv) - 17) as nat
        &&& digit_len(dv) >= 18
        &&& a.acc as int == (dv as int) / pow10(a.extra as nat)
        &&& a.nextd as int == ((dv as int) / pow10((a.extra - 1) as nat)) % 10
    }
}

/// Feeds one more digit into the accumulator.
fn acc_push(a: DigAcc, d: u8, Ghost(dv): Ghost<nat>) -> (r: DigAcc)
    requires
        d < 10,
        digacc_ok(dv, a),
        a.extra < 0x1_0000_0000_0000,
    ensures
        digacc_ok((dv * 10 + d) as nat, r),
        r.extra <= a.extra + 1,
{
    proof {
        reveal(digacc_ok);
        lemma_pow10_16();
        crate::arith::lemma_pow10_unfold(17);
        assert(pow10(0) == 1) by {
            vstd::arithmetic::power::lemma_pow0(10);
        }
        lemma_acc_push(dv, d as nat, a.extra as nat);
        lemma_acc_push(dv, d as nat, (a.extra + 1) as nat);
        vstd::arithmetic::div_mod::lemma_div_basics((dv * 10 + d) as int);
        if dv >= 1 {
            lemma_digit_len_bounds(dv);
        }
        if dv * 10 + d >= 1 {
            lemma_digit_len_bounds((dv * 10 + d) as nat);
        }
        lemma_pow10_increases(17, 18);
    }
    if a.extra == 0 {
        if a.acc < 10_000_000_000_000_000 {
            DigAcc { acc: a.acc * 10 + d as u128, extra: 0, nextd: 0 }
        } else {
            proof {
                assert(digit_len(dv) == 17) by {
                    if digit_len(dv) <= 16 {
                        lemma_pow10_increases(digit_len(dv), 16);
                    }
                    if digit_len(dv) >= 18 {
                        lemma_pow10_increases(17, (digit_len(dv) - 1) as nat);
                    }
                }
            }
            DigAcc { acc: a.acc, extra: 1, nextd: d }
        }
    } else {
        proof {
            lemma_pow10_increases(17, (digit_len(dv) - 1) as nat);
        }
        DigAcc { acc: a.acc, extra: a.extra + 1, nextd: a.nextd }
    }
}

/// The arithmetic behind one accumulator step.
proof fn lemma_acc_push(dv: nat, d: nat, x: nat)
    requires
        d < 10,
    ensures
        (dv * 10 + d) as int / pow10(1) == dv,
        (dv * 10 + d) as int % 10 == d,
        dv >= 10 ==> digit_len((dv * 10 + d) as nat) == digit_len(dv) + 1,
        x >= 1 ==> (dv * 10 + d) as int / pow10(x) == dv as int / pow10((x - 1) as nat),
{
    lemma_pow10_unfold(1);
    assert(pow10(0) == 1) by {
        vstd::arithmetic::power::lemma_pow0(10);
    }
    vstd::arithmetic::div_mod::lemma_fundamental_div_mod_converse(
        dv * 10 + d as int,
        10,
        dv as int,
        d as int,
    );
    if dv >= 10 {
        assert(digit_len((dv * 10 + d) as nat) == 1 + digit_len(((dv * 10 + d) / 10) as nat));
        assert((dv * 10 + d) as nat / 10 == dv) by {
            assert((dv * 10 + d) as int / 10 == dv);
        }
    }
    if x >= 1 {
        lemma_pow10_pos((x - 1) as nat);
        lemma_pow10_unfold(x);
        vstd::arithmetic::div_mod::lemma_div_denominator(
            (dv * 10 + d) as int,
            10,
            pow10((x - 1) as nat),
        );
        vstd::arithmetic::div_mod::lemma_div_basics(dv as int);
    }
}

/// Feeds the digit run `s[from..to)` into the accumulator.
fn accum_range(
    s: &str,
    from: usize,
    to: usize,
    n: usize,
    a0: DigAcc,
    Ghost(dv0): Ghost<nat>,
) -> (r: DigAcc)
    requires
        n == s@.len(),
        from <= to <= n,
        n < 0x8000_0000,
        digacc_ok(dv0, a0),
        a0.extra < 0x8000_0000_0000,
        forall|k: int| from <= k < to ==> is_digit(s@[k]),
    ensures
        digacc_ok((dv0 * pow10((to - from) as nat) + digits_val(s@, from as nat, to as nat)) as nat, r),
        r.extra as nat <= a0.extra as nat + (to - from) as nat,
{
    let mut a = a0;
    let mut k: usize = from;
    proof {
        assert(pow10(0) == 1) by {
            vstd::arithmetic::power::lemma_pow0(10);
        }
    }
    while k < to
        invariant
            from <= k <= to <= n,
            n == s@.len(),
            n < 0x8000_0000,
            digacc_ok((dv0 * pow10((k - from) as nat) + digits_val(s@, from as nat, k as nat)) as nat, a),
            a.extra as nat <= a0.extra as nat + (k - from) as nat,
            a0.extra < 0x8000_0000_0000,
            forall|j: int| from <= j < to ==> is_digit(s@[j]),
        decreases to - k,
    {
        let c: char = s.get_char(k);
        let u: u32 = c as u32;
        proof {
            assert(is_digit(s@[k as int]));
        }
        let d: u8 = (u - 48) as u8;
        proof {
            lemma_pow10_pos((k - from) as nat);
            assert(dv0 * pow10((k - from) as nat) >= 0) by (nonlinear_arith)
                requires
                    pow10((k - from) as nat) >= 1,
            ;
        }
        let ghost dv: nat = (dv0 * pow10((k - from) as nat) + digits_val(s@, from as nat, k as nat)) as nat;
        proof {
            lemma_pow10_unfold((k + 1 - from) as nat);
            assert(digits_val(s@, from as nat, (k + 1) as nat) == digits_val(
                s@,
                from as nat,
                k as nat,
            ) * 10 + digit_val(s@[k as int]));
            assert(dv0 * pow10((k + 1 - from) as nat) + digits_val(s@, from as nat, (k + 1) as nat)
                == dv * 10 + digit_val(s@[k as int])) by (nonlinear_arith)
                requires
                    pow10((k + 1 - from) as nat) == 10 * pow10((k - from) as nat),
                    dv == dv0 * pow10((k - from) as nat) + digits_val(s@, from as nat, k as nat),
                    digits_val(s@, from as nat, (k + 1) as nat) == digits_val(
                        s@,
                        from as nat,
                        k as nat,
                    ) * 10 + digit_val(s@[k as int]),
            ;
        }
        a = acc_push(a, d, Ghost(dv));
        k = k + 1;
    }
    a
}

/// The saturation cap of the written-exponent accumulator: far above any
/// exponent the stored 8-bit range can see, far above any digit-count
/// offset an input can produce.
const EXP_CAP: u64 = 1_000_000_000_000;

/// Reads the exponent digit run `s[from..to)`: its value modulo 256, its
/// value saturated at [`EXP_CAP`], and whether saturation struck.
fn accum_exp(s: &str, from: usize, to: usize, n: usize) -> (r: (u64, u64, bool))
    requires
        n == s@.len(),
        from <= to <= n,
        forall|k: int| from <= k < to ==> is_digit(s@[k]),
    ensures
        r.0 < 256,
        r.0 as nat == digits_val(s@, from as nat, to as nat) % 256,
        !r.2 ==> r.1 as nat == digits_val(s@, from as nat, to as nat) && r.1 <= EXP_CAP,
        r.2 ==> digits_val(s@, from as nat, to as nat) > EXP_CAP && r.1 == EXP_CAP,
{
    let mut em: u64 = 0;
    let mut esat: u64 = 0;
    let mut big: bool = false;
    let mut k: usize = from;
    while k < to
        invariant
            from <= k <= to <= n,
            n == s@.len(),
            em < 256,
            em as nat == digits_val(s@, from as nat, k as nat) % 256,
            !big ==> esat as nat == digits_val(s@, from as nat, k as nat) && esat <= EXP_CAP,
            big ==> digits_val(s@, from as nat, k as nat) > EXP_CAP && esat == EXP_CAP,
            forall|j: int| from <= j < to ==> is_digit(s@[j]),
        decreases to - k,
    {
        let c: char = s.get_char(k);
        let u: u32 = c as u32;
        proof {
            assert(is_digit(s@[k as int]));
        }
        let d: u64 = (u - 48) as u64;
        let ghost v: nat = digits_val(s@, from as nat, k as nat);
        proof {
            assert(digits_val(s@, from as nat, (k + 1) as nat) == v * 10 + digit_val(
                s@[k as int],
            ));
            vstd::arithmetic::div_mod::lemma_mul_mod_noop_left(v as int, 10, 256);
            vstd::arithmetic::div_mod::lemma_add_mod_noop(v as int * 10, d as int, 256);
            vstd::arithmetic::div_mod::lemma_add_mod_noop((v % 256) as int * 10, d as int, 256);
            vstd::arithmetic::div_mod::lemma_small_mod(d as nat, 256);
            vstd::arithmetic::div_mod::lemma_mod_division_less_than_divisor(
                (v * 10 + d) as int,
                256,
            );
        }
        em = (em * 10 + d) % 256;
        if !big {
            if esat <= (EXP_CAP - d) / 10 {
                esat = esat * 10 + d;
            } else {
                proof {
                    assert(v * 10 + d > EXP_CAP) by (nonlinear_arith)
                        requires
                            v == esat as nat,
                            esat as int > (EXP_CAP - d) as int / 10,
                            0 <= d < 10,
                            EXP_CAP == 1_000_000_000_000,
                    ;
                }
                esat = EXP_CAP;
                big = true;
            }
        } else {
            proof {
                assert(v * 10 + d > EXP_CAP) by (nonlinear_arith)
                    requires
                        v > EXP_CAP,
                        d >= 0,
                ;
            }
        }
        k = k + 1;
    }
    (em, esat, big)
}

/// One number, scanned and summarized: where it ended, the mantissa's sign,
/// its digits rounded to 17 significant places with the matching scale, and
/// the final written exponent — exact in `esat` unless `ebig` marks it far
/// outside the useful range, and always exact modulo 256 in `emod`.
pub(crate) struct ParsedNum {
    pub(crate) end: usize,
    pub(crate) neg: bool,
    pub(crate) dmag: u128,
    pub(crate) scale: u32,
    pub(crate) emod: u16,
    pub(crate) esat: i64,
    pub(crate) ebig: bool,
}

/// `r` faithfully reports what the grammar reads at position `i`.
pub(crate) open spec fn parsed_ok(s: Seq<char>, i: nat, r: Option<ParsedNum>) -> bool {
    match parse_num_at(s, i) {
        None => r is None,
        Some(t) => r matches Some(pn) && {
            let rr = round17(t.2, t.3, t.4);
            &&& pn.end as nat == t.0
            &&& pn.neg == t.1
            &&& pn.dmag as nat == rr.0
            &&& pn.dmag as nat <= pow10(17)
            &&& pn.scale as nat == rr.1
            &&& pn.scale < 0x8000_0000
            &&& pn.emod as int == rr.2 % 256
            &&& (!pn.ebig ==> pn.esat as int == rr.2)
            &&& (pn.ebig ==> iabs(rr.2) > 0x2_0000_0000 && pn.esat != 0 && ((rr.2 < 0) == (
            pn.esat < 0)))
        },
    }
}

/// How the finished accumulator state yields exactly the 17-digit rounding
/// of the digit value it summarizes.
proof fn lemma_round17_match(d: nat, a: DigAcc, fs: nat, e: int)
    requires
        digacc_ok(d, a),
    ensures
        ({
            let dm: nat = if a.extra > 0 && a.nextd >= 5 {
                (a.acc + 1) as nat
            } else {
                a.acc as nat
            };
            let sc: nat = if fs >= a.extra {
                (fs - a.extra) as nat
            } else {
                0
            };
            let off: nat = if fs >= a.extra {
                0
            } else {
                (a.extra - fs) as nat
            };
            round17(d, fs, e) == (dm, sc, e + off)
        }),
        (if a.extra > 0 && a.nextd >= 5 {
            (a.acc + 1) as nat
        } else {
            a.acc as nat
        }) <= pow10(17),
{
    reveal(round17);
    reveal(digacc_ok);
    lemma_pow10_16();
    lemma_pow10_unfold(17);
    if d >= pow10(17) {
        lemma_digit_len_bounds(d);
        lemma_pow10_increases(17, (digit_len(d) - 1) as nat);
        lemma_pow10_adds((digit_len(d) - 17) as nat, 17);
        lemma_pow10_pos((digit_len(d) - 17) as nat);
        assert(a.acc < pow10(17)) by {
            vstd::arithmetic::div_mod::lemma_multiply_divide_lt(
                d as int,
                pow10((digit_len(d) - 17) as nat),
                pow10(17),
            );
        }
    }
}

/// Euclidean negation under a modulus of 256.
proof fn lemma_neg_mod_256(v: int)
    requires
        v >= 0,
    ensures
        (-v) % 256 == (256 - (v % 256)) % 256,
{
    let q = v / 256;
    let r = v % 256;
    vstd::arithmetic::div_mod::lemma_fundamental_div_mod(v, 256);
    vstd::arithmetic::div_mod::lemma_mod_division_less_than_divisor(v, 256);
    if r == 0 {
        vstd::arithmetic::div_mod::lemma_fundamental_div_mod_converse(-v, 256, -q, 0);
        vstd::arithmetic::div_mod::lemma_fundamental_div_mod_converse(256, 256, 1, 0);
    } else {
        vstd::arithmetic::div_mod::lemma_fundamental_div_mod_converse(-v, 256, -q - 1, 256 - r);
        vstd::arithmetic::div_mod::lemma_fundamental_div_mod_converse(
            256 - r,
            256,
            0,
            256 - r,
        );
    }
}

/// Scans one number starting at `i`, per the grammar of [`parse_num_at`].
pub(crate) fn parse_number_prefix(s: &str, i: usize, n: usize) -> (r: Option<ParsedNum>)
    requires
        n == s@.len(),
        i <= n,
        n < 0x8000_0000,
    ensures
        parsed_ok(s@, i as nat, r),
{
    let neg: bool = char_at_is(s, i, n, '-');
    let plus: bool = char_at_is(s, i, n, '+');
    let i1: usize = if neg || plus {
        i + 1
    } else {
        i
    };
    let p1: usize = scan_digits(s, i1, n);
    let dotted: bool = char_at_is(s, p1, n, '.');
    let i2: usize = if dotted {
        p1 + 1
    } else {
        p1
    };
    let p2: usize = scan_digits(s, i2, n);
    if p1 == i1 && p2 == i2 {
        proof {
            lemma_parse_shape_none(s@, i as nat, i1 as nat, p1 as nat, i2 as nat, p2 as nat);
        }
        return None;
    }
    proof {
        lemma_digits_end_bounds(s@, i1 as nat);
        lemma_digits_end_bounds(s@, i2 as nat);
        lemma_pow10_pos((p1 - i1) as nat);
        lemma_pow10_pos((p2 - i2) as nat);
    }
    let a0 = DigAcc { acc: 0, extra: 0, nextd: 0 };
    proof {
        assert(digacc_ok(0, a0)) by {
            reveal(digacc_ok);
            lemma_pow10_pos(17);
        }
    }
    let a1 = accum_range(s, i1, p1, n, a0, Ghost(0nat));
    let ghost dv1: nat = digits_val(s@, i1 as nat, p1 as nat);
    proof {
        assert(0nat * pow10((p1 - i1) as nat) + dv1 == dv1) by (nonlinear_arith)
            requires
                pow10((p1 - i1) as nat) >= 1,
        ;
    }
    let a2 = accum_range(s, i2, p2, n, a1, Ghost(dv1));
    let ghost dfull: nat = (dv1 * pow10((p2 - i2) as nat) + digits_val(
        s@,
        i2 as nat,
        p2 as nat,
    )) as nat;
    proof {
        assert(dv1 * pow10((p2 - i2) as nat) >= 0) by (nonlinear_arith)
            requires
                pow10((p2 - i2) as nat) >= 1,
        ;
    }
    finish_number(s, n, i, i1, p1, i2, p2, neg, a2, Ghost(dfull))
}

/// The exponent tail at `p2`: where the number ends, and the written
/// exponent combined with the digit-count offset `off` — modulo 256,
/// saturated, and flagged when far out of range — together with the ghost
/// written exponent itself.
fn exp_part(s: &str, n: usize, p2: usize, off: u64) -> (r: (usize, u64, i64, bool, Ghost<int>))
    requires
        n == s@.len(),
        p2 <= n,
        n < 0x8000_0000,
        off < 0x1_0000_0000,
    ensures
        ({
            let (end, emod, esat, ebig, espec) = r;
            &&& emod < 256
            &&& emod as int == (espec@ + off) % 256
            &&& (!ebig ==> esat as int == espec@ + off)
            &&& (ebig ==> iabs(espec@ + off) > 0x2_0000_0000 && esat != 0 && ((espec@ + off
                < 0) == (esat < 0)))
            &&& p2 <= end <= n
            &&& ({
                if p2 < s@.len() && (s@[p2 as int] == 'e' || s@[p2 as int] == 'E') {
                    let esigned = p2 + 1 < s@.len() && (s@[p2 as int + 1] == '-' || s@[p2 as int
                        + 1] == '+');
                    let eneg = p2 + 1 < s@.len() && s@[p2 as int + 1] == '-';
                    let q1: nat = if esigned {
                        (p2 + 2) as nat
                    } else {
                        (p2 + 1) as nat
                    };
                    let q2 = digits_end(s@, q1);
                    if q2 == q1 {
                        end as nat == p2 && espec@ == 0
                    } else {
                        end as nat == q2 && espec@ == (if eneg {
                            -(digits_val(s@, q1, q2) as int)
                        } else {
                            digits_val(s@, q1, q2) as int
                        })
                    }
                } else {
                    end as nat == p2 && espec@ == 0
                }
            })
        }),
{
    let has_e: bool = char_at_is(s, p2, n, 'e') || char_at_is(s, p2, n, 'E');
    proof {
        vstd::arithmetic::div_mod::lemma_mod_division_less_than_divisor(off as int, 256);
        vstd::arithmetic::div_mod::lemma_small_mod((off % 256) as nat, 256);
        vstd::arithmetic::div_mod::lemma_add_mod_noop(0int, off as int, 256);
    }
    if has_e {
        let eneg: bool = char_at_is(s, p2 + 1, n, '-');
        let eplus: bool = char_at_is(s, p2 + 1, n, '+');
        let q1: usize = if eneg || eplus {
            p2 + 2
        } else {
            p2 + 1
        };
        let q2: usize = scan_digits(s, q1, n);
        if q2 > q1 {
            proof {
                lemma_digits_end_bounds(s@, q1 as nat);
            }
            let (em2, es2, eb2) = exp_fields(s, q1, q2, n, off, eneg);
            let ghost espec: int = if eneg {
                -(digits_val(s@, q1 as nat, q2 as nat) as int)
            } else {
                digits_val(s@, q1 as nat, q2 as nat) as int
            };
            return (q2, em2, es2, eb2, Ghost(espec));
        }
        return (p2, off % 256, off as i64, false, Ghost(0int));
    }
    (p2, off % 256, off as i64, false, Ghost(0int))
}

/// The second half of the scan: the 17-digit finish of the mantissa, the
/// optional written exponent, and the assembled summary.
#[verifier::rlimit(100)]
#[verifier::spinoff_prover]
fn finish_number(
    s: &str,
    n: usize,
    i: usize,
    i1: usize,
    p1: usize,
    i2: usize,
    p2: usize,
    neg: bool,
    a2: DigAcc,
    Ghost(dfull): Ghost<nat>,
) -> (r: Option<ParsedNum>)
    requires
        n == s@.len(),
        n < 0x8000_0000,
        i <= i1 <= p1 <= i2 <= p2 <= n,
        neg == (i < s@.len() && s@[i as int] == '-'),
        i1 as int == if i < s@.len() && (s@[i as int] == '-' || s@[i as int] == '+') {
            i + 1
        } else {
            i as int
        },
        p1 as nat == digits_end(s@, i1 as nat),
        i2 as int == if p1 < s@.len() && s@[p1 as int] == '.' {
            p1 + 1
        } else {
            p1 as int
        },
        p2 as nat == digits_end(s@, i2 as nat),
        !(p1 == i1 && p2 == i2),
        dfull as int == digits_val(s@, i1 as nat, p1 as nat) * pow10((p2 - i2) as nat)
            + digits_val(s@, i2 as nat, p2 as nat),
        digacc_ok(dfull, a2),
        a2.extra as nat <= (p1 - i1) as nat + (p2 - i2) as nat,
    ensures
        parsed_ok(s@, i as nat, r),
{
    proof {
        lemma_pow10_16();
        lemma_pow10_unfold(17);
    }
    let dmag: u128 = if a2.extra > 0 && a2.nextd >= 5 {
        proof {
            lemma_round17_match(dfull, a2, 0, 0);
        }
        a2.acc + 1
    } else {
        a2.acc
    };
    let fs: u64 = (p2 - i2) as u64;
    let x: u64 = a2.extra;
    let scale: u32 = if fs >= x {
        (fs - x) as u32
    } else {
        0
    };
    let off: u64 = if fs >= x {
        0
    } else {
        x - fs
    };
    let (end, emod_v, esat_v, ebig_v, espec) = exp_part(s, n, p2, off);
    proof {
        lemma_round17_match(dfull, a2, (p2 - i2) as nat, espec@);
    }
    let pn = ParsedNum {
        end,
        neg,
        dmag,
        scale,
        emod: emod_v as u16,
        esat: esat_v,
        ebig: ebig_v,
    };
    proof {
        lemma_parse_shape(
            s@,
            i as nat,
            i1 as nat,
            p1 as nat,
            i2 as nat,
            p2 as nat,
            end as nat,
            neg,
            dfull,
            (p2 - i2) as nat,
            espec@,
        );
        assert(parsed_ok(s@, i as nat, Some(pn)));
    }
    Some(pn)
}

/// Finds the first `c` at or after `from`.
fn find_char_exec(s: &str, from: usize, n: usize, c: char) -> (r: Option<usize>)
    requires
        n == s@.len(),
        from <= n,
    ensures
        match find_char(s@, from as nat, c) {
            Some(i) => r matches Some(j) && j as nat == i,
            None => r is None,
        },
    decreases n - from,
{
    if from >= n {
        None
    } else if s.get_char(from) == c {
        Some(from)
    } else {
        find_char_exec(s, from + 1, n, c)
    }
}

/// Reads a signed 8-bit integer filling `s[from..]` exactly.
fn parse_i8_exec(s: &str, from: usize, n: usize) -> (r: Option<i8>)
    requires
        n == s@.len(),
        from <= n,
    ensures
        match parse_i8_at(s@, from as nat) {
            Some(v) => r matches Some(x) && x as int == v,
            None => r is None,
        },
{
    let neg: bool = char_at_is(s, from, n, '-');
    let plus: bool = char_at_is(s, from, n, '+');
    let i1: usize = if neg || plus {
        from + 1
    } else {
        from
    };
    let p: usize = scan_digits(s, i1, n);
    if p != n || p == i1 {
        return None;
    }
    proof {
        lemma_digits_end_bounds(s@, i1 as nat);
    }
    let mut acc: u32 = 0;
    let mut k: usize = i1;
    while k < p
        invariant
            i1 <= k <= p <= n,
            n == s@.len(),
            forall|j: int| i1 <= j < p ==> is_digit(s@[j]),
            digits_val(s@, i1 as nat, k as nat) <= 1000 ==> acc as nat == digits_val(
                s@,
                i1 as nat,
                k as nat,
            ),
            digits_val(s@, i1 as nat, k as nat) > 1000 ==> acc == 1001,
            acc <= 1001,
        decreases p - k,
    {
        let c: char = s.get_char(k);
        let u: u32 = c as u32;
        proof {
            assert(is_digit(s@[k as int]));
            assert(digits_val(s@, i1 as nat, (k + 1) as nat) == digits_val(
                s@,
                i1 as nat,
                k as nat,
            ) * 10 + digit_val(s@[k as int]));
        }
        let d: u32 = u - 48;
        if acc <= 1000 && acc * 10 + d <= 1000 {
            acc = acc * 10 + d;
        } else {
            acc = 1001;
        }
        k = k + 1;
    }
    if neg {
        if acc <= 128 {
            Some((-(acc as i64)) as i8)
        } else {
            None
        }
    } else {
        if acc <= 127 {
            Some(acc as i8)
        } else {
            None
        }
    }
}

/// Starting exponents that agree modulo 256 store the same value.
proof fn lemma_emod_build(sm: int, sc: nat, emod: int, e: int, extra: int)
    requires
        emod == e % 256,
    ensures
        crate::ops::norm_wrapped(sm, sc, emod + extra) == crate::ops::norm_wrapped(
            sm,
            sc,
            e + extra,
        ),
{
    vstd::arithmetic::div_mod::lemma_fundamental_div_mod(e, 256);
    assert((emod + extra - (e + extra)) == -(e / 256) * 256) by (nonlinear_arith)
        requires
            emod == e - 256 * (e / 256),
    ;
    assert((-(e / 256) * 256) % 256 == 0) by {
        vstd::arithmetic::div_mod::lemma_mod_multiples_basic(-(e / 256), 256);
    }
    crate::sf::lemma_norm_exp_congruent(sm, sc, emod + extra, e + extra);
    let n1 = norm_spec(sm, sc, emod + extra);
    let n2 = norm_spec(sm, sc, e + extra);
    assert(crate::ops::norm_wrapped(sm, sc, emod + extra) == (n1.0, n1.1, wrap_i8(n1.2)));
}

/// Builds the stored value for a parsed number, shifted by `extra` powers
/// of ten (the separately written exponent of the two-part shapes).
fn build_parsed(pn: &ParsedNum, extra: i32, Ghost(rr): Ghost<(nat, nat, int)>) -> (v:
    StandardForm)
    requires
        pn.dmag as nat <= pow10(17),
        -128 <= extra <= 127,
        pn.dmag as nat == rr.0,
        pn.scale as nat == rr.1,
        pn.emod as int == rr.2 % 256,
    ensures
        crate::ops::parts(v) == crate::ops::norm_wrapped(
            signed_mag(pn.neg, rr.0 as int),
            rr.1,
            rr.2 + extra,
        ),
        v.wf(),
{
    proof {
        lemma_pow10_increases(17, 37);
        lemma_pow10_38();
        lemma_pow10_increases(37, 38);
        lemma_emod_build(
            signed_mag(pn.neg, rr.0 as int),
            rr.1,
            pn.emod as int,
            rr.2,
            extra as int,
        );
    }
    let sd: i128 = if pn.neg {
        -(pn.dmag as i128)
    } else {
        pn.dmag as i128
    };
    StandardForm::normalize_parts(sd, pn.scale, pn.emod as i64 + extra as i64)
}

/// Narrows a parsed number to the signed 8-bit value its worth truncates
/// to, saturating at the bounds.
fn parsed_to_i8(pn: &ParsedNum, Ghost(rr): Ghost<(nat, nat, int)>) -> (r: i8)
    requires
        pn.dmag as nat <= pow10(17),
        pn.dmag as nat == rr.0,
        pn.scale as nat == rr.1,
        !pn.ebig ==> pn.esat as int == rr.2,
        pn.ebig ==> iabs(rr.2) > 0x2_0000_0000 && pn.esat != 0 && ((rr.2 < 0) == (pn.esat < 0)),
        pn.scale < 0x8000_0000,
    ensures
        r as int == i8_of_rounded(pn.neg, rr),
{
    proof {
        lemma_pow10_16();
        lemma_pow10_unfold(17);
        lemma_pow10_unfold(18);
        assert(pow10(0) == 1) by {
            vstd::arithmetic::power::lemma_pow0(10);
        }
        lemma_pow10_unfold(1);
        lemma_pow10_unfold(2);
        lemma_pow10_unfold(3);
    }
    if pn.dmag == 0 {
        proof {
            let p = rr.2 - rr.1;
            if p >= 0 {
                assert(rr.0 * pow10(p as nat) == 0) by (nonlinear_arith)
                    requires
                        rr.0 == 0,
                ;
            } else {
                lemma_pow10_pos((-p) as nat);
                vstd::arithmetic::div_mod::lemma_basic_div(0, pow10((-p) as nat));
            }
        }
        return 0;
    }
    let pe: i128 = pn.esat as i128 - pn.scale as i128;
    let sat_hi: bool = if pn.ebig {
        pn.esat > 0
    } else {
        pe >= 3
    };
    if sat_hi {
        proof {
            let p = rr.2 - rr.1;
            assert(p >= 3);
            lemma_pow10_increases(3, p as nat);
            lemma_pow10_pos(p as nat);
            assert(rr.0 * pow10(p as nat) >= pow10(p as nat)) by (nonlinear_arith)
                requires
                    rr.0 >= 1,
                    pow10(p as nat) >= 1,
            ;
        }
        if pn.neg {
            return -128;
        }
        return 127;
    }
    let sat_lo: bool = if pn.ebig {
        true
    } else {
        pe <= -18
    };
    if sat_lo {
        proof {
            let p = rr.2 - rr.1;
            assert(p <= -18);
            lemma_pow10_increases(18, (-p) as nat);
            lemma_pow10_pos((-p) as nat);
            vstd::arithmetic::div_mod::lemma_basic_div(rr.0 as int, pow10((-p) as nat));
        }
        return 0;
    }
    let p: i128 = pe;
    let m: u128 = if p >= 0 {
        proof {
            lemma_pow10_increases(17, (37 - p) as nat);
            crate::arith::lemma_mul_pow10_bound(pn.dmag as int, p as nat, 17);
            lemma_pow10_increases(17 + p as nat, 19);
            crate::arith::lemma_pow10_19();
            lemma_pow10_38();
            lemma_pow10_increases(19, 38);
            crate::arith::lemma_iabs_mul(pn.dmag as int, pow10(p as nat));
            lemma_pow10_pos(p as nat);
        }
        pn.dmag * pow10_u128(p as u32)
    } else {
        proof {
            lemma_pow10_pos((-p) as nat);
        }
        pn.dmag / pow10_u128((-p) as u32)
    };
    proof {
        if p < 0 {
            vstd::arithmetic::div_mod::lemma_div_nonincreasing(
                pn.dmag as int,
                pow10((-p) as nat),
            );
            vstd::arithmetic::div_mod::lemma_div_pos_is_pos(
                pn.dmag as int,
                pow10((-p) as nat),
            );
        }
    }
    if pn.neg {
        if m > 128 {
            -128
        } else {
            (-(m as i64)) as i8
        }
    } else {
        if m > 127 {
            127
        } else {
            m as i8
        }
    }
}

/// A found character lies inside the text.
proof fn lemma_find_char_bounds(s: Seq<char>, from: nat, c: char)
    requires
        from <= s.len(),
        find_char(s, from, c) is Some,
    ensures
        from <= find_char(s, from, c).unwrap() < s.len(),
        s[find_char(s, from, c).unwrap() as int] == c,
    decreases s.len() - from,
{
    if from >= s.len() {
    } else if s[from as int] == c {
    } else {
        lemma_find_char_bounds(s, from + 1, c);
    }
}

/// A scanned number ends inside the text, at or after where it began.
proof fn lemma_parse_num_end(s: Seq<char>, i: nat)
    requires
        i <= s.len(),
        parse_num_at(s, i) is Some,
    ensures
        i <= parse_num_at(s, i).unwrap().0 <= s.len(),
{
    reveal(parse_num_at);
    let signed = i < s.len() && (s[i as int] == '-' || s[i as int] == '+');
    let i1: nat = if signed {
        i + 1
    } else {
        i
    };
    lemma_digits_end_bounds(s, i1);
    let p1 = digits_end(s, i1);
    let dotted = p1 < s.len() && s[p1 as int] == '.';
    let i2: nat = if dotted {
        p1 + 1
    } else {
        p1
    };
    lemma_digits_end_bounds(s, i2);
    let p2 = digits_end(s, i2);
    if p2 < s.len() && (s[p2 as int] == 'e' || s[p2 as int] == 'E') {
        let esigned = p2 + 1 < s.len() && (s[p2 as int + 1] == '-' || s[p2 as int + 1] == '+');
        let q1: nat = if esigned {
            p2 + 2
        } else {
            p2 + 1
        };
        if q1 <= s.len() {
            lemma_digits_end_bounds(s, q1);
        }
    }
}

/// The rounding pass leaves the digits and scale alone when only the
/// exponent moves.
proof fn lemma_round17_exp_additive(d: nat, s: nat, e: int, k: int)
    ensures
        round17(d, s, e + k).0 == round17(d, s, e).0,
        round17(d, s, e + k).1 == round17(d, s, e).1,
        round17(d, s, e + k).2 == round17(d, s, e).2 + k,
{
    reveal(round17);
}

/// The decoded characters of a byte string, when the bytes are valid
/// UTF-8.
pub uninterp spec fn utf8_chars(b: Seq<u8>) -> Option<Seq<char>>;

/// Relies on core::str::from_utf8: yields the borrowed text whose
/// characters decode the given bytes exactly when they are valid UTF-8,
/// and nothing otherwise.  A text never has more characters than its
/// encoding has bytes.
#[verifier::external_body]
fn utf8_to_str(b: &[u8]) -> (r: Option<&str>)
    ensures
        r is Some <==> utf8_chars(b@) is Some,
        r matches Some(s) ==> Some(s@) == utf8_chars(b@) && s@.len() <= b@.len(),
{
    core::str::from_utf8(b).ok()
}

/// Reads an exponent marker and number starting at `i`, per
/// [`parse_exp_at`].
fn exp_at_exec(s: &str, i: usize, n: usize) -> (r: Option<(usize, i8)>)
    requires
        n == s@.len(),
        i <= n,
        n < 0x8000_0000,
    ensures
        match parse_exp_at(s@, i as nat) {
            Some(t) => r matches Some(p) && p.0 as nat == t.0 && p.1 as int == t.1,
            None => r is None,
        },
{
    let off: usize = if char_at_is(s, i, n, 'e') || char_at_is(s, i, n, 'E') {
        1
    } else if char_at_is(s, i, n, '*') && char_at_is(s, i + 1, n, '1') && char_at_is(
        s,
        i + 2,
        n,
        '0',
    ) && char_at_is(s, i + 3, n, '^') {
        4
    } else {
        return None;
    };
    match parse_number_prefix(s, i + off, n) {
        Some(pn) => {
            let ghost t = parse_num_at(s@, (i + off) as nat).unwrap();
            let ghost rr = round17(t.2, t.3, t.4);
            let v: i8 = parsed_to_i8(&pn, Ghost(rr));
            Some((pn.end, v))
        },
        None => None,
    }
}

impl StandardForm {
    /// Reads one of the three accepted textual shapes; [`try_from_spec`]
    /// is the exact grammar, result and error rule.
    pub fn try_from(value: &str) -> (r: Result<
        StandardForm,
        crate::error::ParsingStandardFormError,
    >)
        requires
            value@.len() < 0x8000_0000,
        ensures
            (r matches Ok(v) ==> try_from_spec(value@) == Ok::<
                _,
                crate::error::ParsingStandardFormError,
            >(crate::ops::parts(v)) && v.wf()),
            (r matches Err(e) ==> try_from_spec(value@) == Err::<(int, nat, int), _>(e)),
    {
        let n: usize = value.unicode_len();
        let pr = parse_number_prefix(value, 0, n);
        let full: bool = match &pr {
            Some(pn) => pn.end == n,
            None => false,
        };
        if full {
            let pn = match pr {
                Some(pn) => pn,
                None => {
                    return Err(crate::error::ParsingStandardFormError::InvalidFormat);
                },
            };
            let ghost t = parse_num_at(value@, 0).unwrap();
            let ghost rr = round17(t.2, t.3, t.4);
            let v = build_parsed(&pn, 0, Ghost(rr));
            return Ok(v);
        }
        match find_char_exec(value, 0, n, 'e') {
            Some(idx) => {
                proof {
                    lemma_find_char_bounds(value@, 0, 'e');
                }
                let m: &str = value.substring_char(0, idx);
                let mpr = parse_number_prefix(m, 0, idx);
                let mfull: bool = match &mpr {
                    Some(mp) => mp.end == idx,
                    None => false,
                };
                if mfull {
                    let mp = match mpr {
                        Some(mp) => mp,
                        None => {
                            return Err(crate::error::ParsingStandardFormError::InvalidFormat);
                        },
                    };
                    match parse_i8_exec(value, idx + 1, n) {
                        Some(ex) => {
                            let ghost t = parse_num_at(m@, 0).unwrap();
                            let ghost rr = round17(t.2, t.3, t.4);
                            proof {
                                lemma_round17_exp_additive(t.2, t.3, t.4, ex as int);
                            }
                            let v = build_parsed(&mp, ex as i32, Ghost(rr));
                            return Ok(v);
                        },
                        None => {
                            return Err(crate::error::ParsingStandardFormError::Exponent);
                        },
                    }
                }
                Err(crate::error::ParsingStandardFormError::Mantissa)
            },
            None => {
                match find_char_exec(value, 0, n, '^') {
                    Some(idx) => {
                        proof {
                            lemma_find_char_bounds(value@, 0, '^');
                        }
                        if idx >= 3 && char_at_is(value, idx - 3, n, '*') && char_at_is(
                            value,
                            idx - 2,
                            n,
                            '1',
                        ) && char_at_is(value, idx - 1, n, '0') {
                            let m: &str = value.substring_char(0, idx - 3);
                            let mpr = parse_number_prefix(m, 0, idx - 3);
                            let mfull: bool = match &mpr {
                                Some(mp) => mp.end == idx - 3,
                                None => false,
                            };
                            if mfull {
                                let mp = match mpr {
                                    Some(mp) => mp,
                                    None => {
                                        return Err(
                                            crate::error::ParsingStandardFormError::InvalidFormat,
                                        );
                                    },
                                };
                                match parse_i8_exec(value, idx + 1, n) {
                                    Some(ex) => {
                                        let ghost t = parse_num_at(m@, 0).unwrap();
                                        let ghost rr = round17(t.2, t.3, t.4);
                                        proof {
                                            lemma_round17_exp_additive(t.2, t.3, t.4, ex as int);
                                        }
                                        let v = build_parsed(&mp, ex as i32, Ghost(rr));
                                        return Ok(v);
                                    },
                                    None => {
                                        return Err(
                                            crate::error::ParsingStandardFormError::Exponent,
                                        );
                                    },
                                }
                            }
                            return Err(crate::error::ParsingStandardFormError::Mantissa);
                        }
                        Err(crate::error::ParsingStandardFormError::InvalidFormat)
                    },
                    None => Err(crate::error::ParsingStandardFormError::InvalidFormat),
                }
            },
        }
    }

    /// Reads the same shapes from raw bytes, after checking that they are
    /// valid text; invalid bytes are their own error.
    pub fn try_from_bytes(value: &[u8]) -> (r: Result<
        StandardForm,
        crate::error::ParsingStandardFormError,
    >)
        requires
            value@.len() < 0x8000_0000,
        ensures
            (match utf8_chars(value@) {
                Some(cs) => {
                    &&& (r matches Ok(v) ==> try_from_spec(cs) == Ok::<
                        _,
                        crate::error::ParsingStandardFormError,
                    >(crate::ops::parts(v)) && v.wf())
                    &&& (r matches Err(e) ==> try_from_spec(cs) == Err::<(int, nat, int), _>(e))
                },
                None => r == Err::<StandardForm, _>(
                    crate::error::ParsingStandardFormError::InvalidBytes,
                ),
            }),
    {
        match utf8_to_str(value) {
            Some(s) => Self::try_from(s),
            None => Err(crate::error::ParsingStandardFormError::InvalidBytes),
        }
    }

    /// Reads a string, reporting a failure as its message text; the shape
    /// a foreign-binding boundary wants.
    pub fn new_from_string(string: &str) -> (r: Result<StandardForm, String>)
        requires
            string@.len() < 0x8000_0000,
        ensures
            (r matches Ok(v) ==> try_from_spec(string@) == Ok::<
                _,
                crate::error::ParsingStandardFormError,
            >(crate::ops::parts(v)) && v.wf()),
            (r matches Err(m) ==> (try_from_spec(string@) matches Err(e) && m@
                == crate::error::message_seq(e))),
    {
        match Self::try_from(string) {
            Ok(v) => Ok(v),
            Err(e) => Err(e.message().to_owned()),
        }
    }

    /// Reads a string in the given radix; only ten is a radix standard
    /// form knows.
    pub fn from_str_radix(s: &str, radix: u32) -> (r: Result<
        StandardForm,
        crate::error::ParsingStandardFormError,
    >)
        requires
            s@.len() < 0x8000_0000,
        ensures
            radix != 10 ==> r == Err::<StandardForm, _>(
                crate::error::ParsingStandardFormError::InvalidRadix,
            ),
            radix == 10 ==> {
                &&& (r matches Ok(v) ==> try_from_spec(s@) == Ok::<
                    _,
                    crate::error::ParsingStandardFormError,
                >(crate::ops::parts(v)) && v.wf())
                &&& (r matches Err(e) ==> try_from_spec(s@) == Err::<(int, nat, int), _>(e))
            },
    {
        if radix != 10 {
            Err(crate::error::ParsingStandardFormError::InvalidRadix)
        } else {
            Self::try_from(s)
        }
    }
}

/// Reads an exponent: `e`, `E` or `*10^`, then a number narrowed to a
/// signed 8-bit value (saturating, fraction truncated).  Returns where the
/// rest of the input begins, with the value.
pub fn parse_exponent(input: &str) -> (r: Result<
    (usize, i8),
    crate::error::ParsingStandardFormError,
>)
    requires
        input@.len() < 0x8000_0000,
    ensures
        match parse_exp_at(input@, 0) {
            Some(t) => r matches Ok(p) && p.0 as nat == t.0 && p.1 as int == t.1,
            None => r == Err::<(usize, i8), _>(crate::error::ParsingStandardFormError::Exponent),
        },
{
    let n: usize = input.unicode_len();
    match exp_at_exec(input, 0, n) {
        Some(p) => Ok(p),
        None => Err(crate::error::ParsingStandardFormError::Exponent),
    }
}

/// Reads a number followed by a mandatory exponent part (`e`, `E` or
/// `*10^` and a narrowed 8-bit value), and returns where the rest begins
/// together with the stored standard-form value.
pub fn parse_standard_form_with_required_exponent(input: &str) -> (r: Result<
    (usize, StandardForm),
    crate::error::ParsingStandardFormError,
>)
    requires
        input@.len() < 0x8000_0000,
    ensures
        match parse_num_at(input@, 0) {
            None => r == Err::<(usize, StandardForm), _>(
                crate::error::ParsingStandardFormError::Mantissa,
            ),
            Some(t) => match parse_exp_at(input@, t.0) {
                None => r == Err::<(usize, StandardForm), _>(
                    crate::error::ParsingStandardFormError::Exponent,
                ),
                Some(x) => r matches Ok(p) && p.0 as nat == x.0 && crate::ops::parts(p.1)
                    == num_parts(t.1, t.2, t.3, t.4 + x.1) && p.1.wf(),
            },
        },
{
    let n: usize = input.unicode_len();
    match parse_number_prefix(input, 0, n) {
        Some(pn) => {
            let ghost t = parse_num_at(input@, 0).unwrap();
            let ghost rr = round17(t.2, t.3, t.4);
            proof {
                lemma_parse_num_end(input@, 0);
            }
            match exp_at_exec(input, pn.end, n) {
                Some((end2, ex)) => {
                    proof {
                        lemma_round17_exp_additive(t.2, t.3, t.4, ex as int);
                    }
                    let v = build_parsed(&pn, ex as i32, Ghost(rr));
                    Ok((end2, v))
                },
                None => Err(crate::error::ParsingStandardFormError::Exponent),
            }
        },
        None => Err(crate::error::ParsingStandardFormError::Mantissa),
    }
}

/// As [`parse_standard_form_with_required_exponent`], but a missing
/// exponent part counts as an exponent of zero.
pub fn parse_standard_form_with_optional_exponent(input: &str) -> (r: Result<
    (usize, StandardForm),
    crate::error::ParsingStandardFormError,
>)
    requires
        input@.len() < 0x8000_0000,
    ensures
        match parse_num_at(input@, 0) {
            None => r == Err::<(usize, StandardForm), _>(
                crate::error::ParsingStandardFormError::Mantissa,
            ),
            Some(t) => match parse_exp_at(input@, t.0) {
                None => r matches Ok(p) && p.0 as nat == t.0 && crate::ops::parts(p.1)
                    == num_parts(t.1, t.2, t.3, t.4) && p.1.wf(),
                Some(x) => r matches Ok(p) && p.0 as nat == x.0 && crate::ops::parts(p.1)
                    == num_parts(t.1, t.2, t.3, t.4 + x.1) && p.1.wf(),
            },
        },
{
    let n: usize = input.unicode_len();
    match parse_number_prefix(input, 0, n) {
        Some(pn) => {
            let ghost t = parse_num_at(input@, 0).unwrap();
            let ghost rr = round17(t.2, t.3, t.4);
            proof {
                lemma_parse_num_end(input@, 0);
            }
            match exp_at_exec(input, pn.end, n) {
                Some((end2, ex)) => {
                    proof {
                        lemma_round17_exp_additive(t.2, t.3, t.4, ex as int);
                    }
                    let v = build_parsed(&pn, ex as i32, Ghost(rr));
                    Ok((end2, v))
                },
                None => {
                    let v = build_parsed(&pn, 0, Ghost(rr));
                    Ok((pn.end, v))
                },
            }
        },
        None => Err(crate::error::ParsingStandardFormError::Mantissa),
    }
}

} // verus!
