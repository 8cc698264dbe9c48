//! Integer helpers shared by the whole crate: powers of ten, magnitudes,
//! rounded division, and wrapping into the signed 8-bit exponent range.

use vstd::prelude::*;
use vstd::arithmetic::power::{
    lemma_pow1, lemma_pow_adds, lemma_pow_increases, lemma_pow_positive,
    lemma_pow_strictly_increases, pow,
};

verus! {

/// Ten raised to a non-negative power, over the mathematical integers.
pub open spec fn pow10(e: nat) -> int {
    pow(10, e)
}

/// Magnitude of a mathematical integer.
pub open spec fn iabs(x: int) -> int {
    if x < 0 {
        -x
    } else {
        x
    }
}

pub proof fn lemma_pow10_pos(e: nat)
    ensures
        pow10(e) >= 1,
{
    lemma_pow_positive(10, e);
}

pub proof fn lemma_pow10_adds(a: nat, b: nat)
    ensures
        pow10(a + b) == pow10(a) * pow10(b),
{
    lemma_pow_adds(10, a, b);
}

pub proof fn lemma_pow10_unfold(e: nat)
    requires
        e >= 1,
    ensures
        pow10(e) == 10 * pow10((e - 1) as nat),
{
    lemma_pow_adds(10, 1, (e - 1) as nat);
    lemma_pow1(10);
}

pub proof fn lemma_pow10_increases(a: nat, b: nat)
    requires
        a <= b,
    ensures
        pow10(a) <= pow10(b),
{
    lemma_pow_increases(10, a, b);
}

pub proof fn lemma_pow10_strictly_increases(a: nat, b: nat)
    requires
        a < b,
    ensures
        pow10(a) < pow10(b),
{
    lemma_pow_strictly_increases(10, a, b);
}

/// `pow10(38)` written out, so executable code can bound powers of ten
/// against the fixed-width integer limits.
pub proof fn lemma_pow10_38()
    ensures
        pow10(38) == 100_000_000_000_000_000_000_000_000_000_000_000_000,
{
    assert(pow10(38) == 100_000_000_000_000_000_000_000_000_000_000_000_000) by {
        reveal_with_fuel(pow, 40);
    }
}

/// `pow10(16)` written out: the largest digit count a stored mantissa keeps.
pub proof fn lemma_pow10_16()
    ensures
        pow10(16) == 10_000_000_000_000_000,
{
    assert(pow10(16) == 10_000_000_000_000_000) by {
        reveal_with_fuel(pow, 18);
    }
}

/// `pow10(19)` written out: every signed 64-bit magnitude sits below it.
pub proof fn lemma_pow10_19()
    ensures
        pow10(19) == 10_000_000_000_000_000_000,
{
    assert(pow10(19) == 10_000_000_000_000_000_000) by {
        reveal_with_fuel(pow, 21);
    }
}

/// Wrapping is the identity on the signed 8-bit range.
pub proof fn lemma_wrap_i8_id(x: int)
    requires
        -128 <= x <= 127,
    ensures
        wrap_i8(x) == x,
{
    if x >= 0 {
        vstd::arithmetic::div_mod::lemma_fundamental_div_mod_converse(x, 256, 0, x);
    } else {
        vstd::arithmetic::div_mod::lemma_fundamental_div_mod_converse(x, 256, -1, x + 256);
    }
}

/// Wrapping respects congruence modulo 256.
pub proof fn lemma_wrap_congruent(x: int, y: int)
    requires
        (x - y) % 256 == 0,
    ensures
        wrap_i8(x) == wrap_i8(y),
{
    let k = (x - y) / 256;
    vstd::arithmetic::div_mod::lemma_fundamental_div_mod(x - y, 256);
    vstd::arithmetic::div_mod::lemma_fundamental_div_mod(y, 256);
    vstd::arithmetic::div_mod::lemma_mod_division_less_than_divisor(y, 256);
    vstd::arithmetic::div_mod::lemma_fundamental_div_mod_converse(
        x,
        256,
        y / 256 + k,
        y % 256,
    );
}

/// Negating a multiple of ten stays a multiple and negates the quotient.
pub proof fn lemma_neg_div_mod_10(u: int)
    requires
        u >= 0,
        u % 10 == 0,
    ensures
        (-u) % 10 == 0,
        (-u) / 10 == -(u / 10),
{
    vstd::arithmetic::div_mod::lemma_fundamental_div_mod(u, 10);
    vstd::arithmetic::div_mod::lemma_fundamental_div_mod_converse(-u, 10, -(u / 10), 0);
}

/// A non-multiple of ten stays one under negation.
pub proof fn lemma_neg_mod_10_nonzero(u: int)
    requires
        u >= 0,
        u % 10 != 0,
    ensures
        (-u) % 10 != 0,
{
    vstd::arithmetic::div_mod::lemma_fundamental_div_mod(u, 10);
    if (-u) % 10 == 0 {
        vstd::arithmetic::div_mod::lemma_fundamental_div_mod(-u, 10);
        vstd::arithmetic::div_mod::lemma_fundamental_div_mod_converse(
            u,
            10,
            -((-u) / 10),
            0,
        );
    }
}

/// Ten to the `e`, as an unsigned 128-bit value.
pub fn pow10_u128(e: u32) -> (r: u128)
    requires
        e <= 38,
    ensures
        r == pow10(e as nat),
{
    let mut r: u128 = 1;
    let mut i: u32 = 0;
    proof {
        assert(pow10(0) == 1) by {
            vstd::arithmetic::power::lemma_pow0(10);
        }
    }
    while i < e
        invariant
            i <= e,
            e <= 38,
            r == pow10(i as nat),
        decreases e - i,
    {
        proof {
            lemma_pow10_unfold((i + 1) as nat);
            lemma_pow10_increases((i + 1) as nat, 38);
            lemma_pow10_38();
        }
        r = r * 10;
        i = i + 1;
    }
    r
}

/// Division rounded to the nearest integer, ties away from zero.
/// Meaningful only for a non-zero divisor.
pub open spec fn div_round_away(n: int, m: int) -> int {
    let q = iabs(n) / iabs(m);
    let r = iabs(n) % iabs(m);
    let qa = if 2 * r >= iabs(m) {
        q + 1
    } else {
        q
    };
    if (n < 0) == (m < 0) {
        qa
    } else {
        -qa
    }
}

/// Unsigned division rounded to the nearest integer, ties away from zero.
pub fn udiv_round_away(n: u128, m: u128) -> (r: u128)
    requires
        1 <= m <= pow10(37),
        n <= pow10(38),
    ensures
        r == div_round_away(n as int, m as int),
{
    proof {
        lemma_pow10_38();
    }
    let q: u128 = n / m;
    let rem: u128 = n % m;
    proof {
        assert(rem < m);
        lemma_pow10_strictly_increases(37, 38);
    }
    if 2 * rem >= m {
        q + 1
    } else {
        q
    }
}

/// Magnitude distributes over a product.
pub proof fn lemma_iabs_mul(a: int, b: int)
    ensures
        iabs(a * b) == iabs(a) * iabs(b),
{
    assert(iabs(a * b) == iabs(a) * iabs(b)) by (nonlinear_arith);
}

/// A magnitude bound survives multiplication by a power of ten.
pub proof fn lemma_mul_pow10_bound(d: int, k: nat, b: nat)
    requires
        iabs(d) <= pow10(b),
    ensures
        iabs(d * pow10(k)) <= pow10(b + k),
{
    lemma_pow10_adds(b, k);
    lemma_pow10_pos(k);
    lemma_iabs_mul(d, pow10(k));
    assert(iabs(d) * pow10(k) <= pow10(b) * pow10(k)) by (nonlinear_arith)
        requires
            iabs(d) <= pow10(b),
            pow10(k) >= 1,
    ;
}

/// Signed-dividend division rounded to nearest, ties away from zero.
pub fn idiv_round_away(n: i128, m: u128) -> (r: i128)
    requires
        1 <= m <= pow10(37),
        iabs(n as int) <= pow10(38),
    ensures
        r as int == div_round_away(n as int, m as int),
        iabs(r as int) <= iabs(n as int) / (m as int) + 1,
{
    proof {
        lemma_pow10_38();
    }
    let neg: bool = n < 0;
    let un: u128 = if neg {
        (-n) as u128
    } else {
        n as u128
    };
    let q: u128 = udiv_round_away(un, m);
    proof {
        assert(q as int <= (un as int) / (m as int) + 1) by {
            assert((un as int) % (m as int) < m as int) by {
                vstd::arithmetic::div_mod::lemma_mod_division_less_than_divisor(
                    un as int,
                    m as int,
                );
            }
        }
        assert((un as int) / (m as int) >= 0) by {
            vstd::arithmetic::div_mod::lemma_div_pos_is_pos(un as int, m as int);
        }
    }
    if neg {
        -(q as i128)
    } else {
        q as i128
    }
}

/// Fully signed division rounded to nearest, ties away from zero.
pub fn sdiv_round_away(n: i128, m: i128) -> (r: i128)
    requires
        m != 0,
        iabs(m as int) <= pow10(37),
        iabs(n as int) <= pow10(38),
    ensures
        r as int == div_round_away(n as int, m as int),
        iabs(r as int) <= iabs(n as int) / iabs(m as int) + 1,
{
    proof {
        lemma_pow10_38();
        lemma_pow10_increases(37, 38);
    }
    let um: u128 = if m < 0 {
        (-m) as u128
    } else {
        m as u128
    };
    let q: i128 = idiv_round_away(n, um);
    if m < 0 {
        -q
    } else {
        q
    }
}

/// Multiplies by a power of ten, exactly.
pub fn mul_pow10_i128(d: i128, k: u32) -> (r: i128)
    requires
        k <= 37,
        iabs(d as int) <= pow10((37 - k) as nat),
    ensures
        r as int == (d as int) * pow10(k as nat),
{
    proof {
        lemma_mul_pow10_bound(d as int, k as nat, (37 - k) as nat);
        lemma_pow10_38();
        lemma_pow10_increases(37, 38);
        lemma_pow10_increases(k as nat, 37);
        lemma_pow10_pos(k as nat);
    }
    let p: i128 = pow10_u128(k) as i128;
    proof {
        assert(iabs((d as int) * (p as int)) <= pow10(37));
    }
    d * p
}

/// The unique value in `[-128, 128)` congruent to `x` modulo 256: how an
/// out-of-range exponent folds back into the signed 8-bit range.
pub open spec fn wrap_i8(x: int) -> int {
    let m = x % 256;
    if m >= 128 {
        m - 256
    } else {
        m
    }
}

/// Folds an exponent computed at full width back into the stored 8-bit range.
pub fn wrap_i8_exec(x: i64) -> (r: i8)
    ensures
        r as int == wrap_i8(x as int),
{
    let m: i64 = if x >= 0 {
        x % 256
    } else {
        let y: i64 = -(x + 1);
        proof {
            let q = (y as int) / 256;
            let r = (y as int) % 256;
            vstd::arithmetic::div_mod::lemma_fundamental_div_mod(y as int, 256);
            vstd::arithmetic::div_mod::lemma_fundamental_div_mod_converse(
                x as int,
                256,
                -q - 1,
                255 - r,
            );
        }
        255 - (y % 256)
    };
    if m >= 128 {
        (m - 256) as i8
    } else {
        m as i8
    }
}

} // verus!
