//! Normalization of grid values into single-precision bit patterns.
//!
//! A frame carries every position coordinate as `x / dim` and every score as
//! `score / sim_dim`, both in `[0, 1)`, serialized as IEEE-754 single-precision
//! words. This module keeps all of that in integer arithmetic: a normalized
//! value is first put on the fixed grid of multiples of 2^-24 (its *frac24*
//! numerator, an integer below 2^24), and the frac24 numerator is then encoded
//! as the exact bit pattern of `t * 2^-24`. Both directions are verified, so
//! the byte-level codec can state exactly which real value a frame carries.

use vstd::prelude::*;
use vstd::arithmetic::power2::{
    pow2, lemma2_to64, lemma_pow2_adds, lemma_pow2_pos, lemma_pow2_strictly_increases,
    lemma_pow2_unfold,
};
use vstd::arithmetic::div_mod::{
    lemma_div_denominator, lemma_div_multiples_vanish, lemma_fundamental_div_mod,
    lemma_fundamental_div_mod_converse_div, lemma_fundamental_div_mod_converse_mod,
    lemma_mod_division_less_than_divisor, lemma_multiply_divide_lt,
};
use vstd::arithmetic::mul::{
    lemma_mul_inequality, lemma_mul_is_commutative, lemma_mul_is_distributive_sub_other_way,
    lemma_mul_strict_inequality,
};
use vstd::bits::{
    lemma_low_bits_mask_values, lemma_u32_low_bits_mask_is_mod, lemma_u32_shl_is_mul,
    lemma_u32_shr_is_div, lemma_u64_shl_is_mul,
};

verus! {

/// Floor of the base-2 logarithm of `t` (0 for `t == 0`).
pub open spec fn floor_log2(t: nat) -> nat
    decreases t,
{
    if t <= 1 {
        0
    } else {
        1 + floor_log2(t / 2)
    }
}

/// `floor_log2` brackets its argument between two adjacent powers of two.
pub proof fn lemma_floor_log2(t: nat)
    requires
        t >= 1,
    ensures
        pow2(floor_log2(t)) <= t < pow2(floor_log2(t) + 1),
    decreases t,
{
    if t <= 1 {
        lemma2_to64();
    } else {
        lemma_floor_log2(t / 2);
        let n = floor_log2(t / 2);
        lemma_pow2_unfold(n + 1);
        lemma_pow2_unfold(n + 2);
        lemma_fundamental_div_mod(t as int, 2);
    }
}

/// The bracketing property determines `floor_log2` uniquely.
pub proof fn lemma_floor_log2_unique(t: nat, n: nat)
    requires
        t >= 1,
        pow2(n) <= t < pow2(n + 1),
    ensures
        floor_log2(t) == n,
{
    lemma_floor_log2(t);
    let m = floor_log2(t);
    if m < n {
        // then t < pow2(m + 1) <= pow2(n) <= t, impossible
        assert(pow2(m + 1) <= pow2(n)) by {
            if m + 1 < n {
                lemma_pow2_strictly_increases(m + 1, n);
            }
        }
    } else if m > n {
        // then t < pow2(n + 1) <= pow2(m) <= t, impossible
        assert(pow2(n + 1) <= pow2(m)) by {
            if n + 1 < m {
                lemma_pow2_strictly_increases(n + 1, m);
            }
        }
    }
}

/// Bit pattern of the single-precision value `t * 2^-24`, for a frac24
/// numerator `0 <= t < 2^24`. Zero encodes as all-zero bits; any other `t`
/// with leading bit `n` has biased exponent `103 + n` and the remaining
/// bits of `t` as its mantissa, so the pattern is
/// `(103 + n) * 2^23 + (t * 2^(23-n) - 2^23)`, folded below into one sum.
pub open spec fn frac24_bits(t: nat) -> nat
    recommends
        t < pow2(24),
{
    if t == 0 {
        0
    } else {
        (102 + floor_log2(t)) * pow2(23) + t * pow2((23 - floor_log2(t)) as nat)
    }
}

/// Biased exponent field of a single-precision bit pattern.
pub open spec fn bits_exp(b: nat) -> nat {
    b / pow2(23)
}

/// Significand of a single-precision bit pattern with the hidden bit restored.
pub open spec fn bits_sig(b: nat) -> nat {
    pow2(23) + (b % pow2(23))
}

/// True when a bit pattern denotes a value that lies exactly on the frac24
/// grid in `[0, 1)`: either zero, or a normal number with biased exponent in
/// `[103, 126]` whose significand has no bits below the grid spacing.
pub open spec fn bits_ok(b: nat) -> bool {
    b == 0 || (103 <= bits_exp(b) <= 126 && bits_sig(b) % pow2((126 - bits_exp(b)) as nat) == 0)
}

/// Frac24 numerator denoted by an acceptable bit pattern: the represented
/// value times 2^24.
pub open spec fn bits_frac24(b: nat) -> nat
    recommends
        bits_ok(b),
{
    if b == 0 {
        0
    } else {
        bits_sig(b) / pow2((126 - bits_exp(b)) as nat)
    }
}

/// The bit pattern of any frac24 numerator fits comfortably in 32 bits.
pub proof fn lemma_frac24_bits_bound(t: nat)
    requires
        t < pow2(24),
    ensures
        frac24_bits(t) < pow2(30),
{
    lemma2_to64();
    if t != 0 {
        lemma_floor_log2(t);
        let n = floor_log2(t);
        if n >= 24 {
            lemma_pow2_strictly_increases(24, n);
        }
        assert(n <= 23);
        assert(t * pow2((23 - n) as nat) < pow2(24)) by {
            lemma_mul_strict_inequality(t as int, pow2(n + 1) as int, pow2((23 - n) as nat) as int);
            lemma_pow2_adds(n + 1, (23 - n) as nat);
        }
        assert((102 + n) * pow2(23) <= 125 * pow2(23)) by {
            lemma_mul_inequality(102 + n as int, 125, pow2(23) as int);
        }
        assert(125 * pow2(23) + pow2(24) < pow2(30));
    }
}

/// Decoding inverts encoding: the bit pattern of a frac24 numerator is
/// acceptable and denotes that same numerator.
pub proof fn lemma_frac24_bits_roundtrip(t: nat)
    requires
        t < pow2(24),
    ensures
        bits_ok(frac24_bits(t)),
        bits_frac24(frac24_bits(t)) == t,
{
    lemma2_to64();
    if t != 0 {
        lemma_floor_log2(t);
        let n = floor_log2(t);
        if n >= 24 {
            lemma_pow2_strictly_increases(24, n);
        }
        assert(n <= 23);
        let d = pow2((23 - n) as nat);
        let b = frac24_bits(t);
        lemma_pow2_pos((23 - n) as nat);
        // The significand part t * d sits in [2^23, 2^24).
        assert(pow2(23) <= t * d) by {
            lemma_mul_inequality(pow2(n) as int, t as int, d as int);
            lemma_mul_is_commutative(pow2(n) as int, d as int);
            lemma_pow2_adds(n, (23 - n) as nat);
        }
        assert(t * d < pow2(24)) by {
            lemma_mul_strict_inequality(t as int, pow2(n + 1) as int, d as int);
            lemma_pow2_adds(n + 1, (23 - n) as nat);
        }
        let m = (t * d - pow2(23)) as int;
        assert(b == (103 + n) * pow2(23) + m) by {
            lemma_mul_is_distributive_sub_other_way(pow2(23) as int, 103 + n as int, 1);
        }
        // So the exponent field is 103 + n and the mantissa field is m.
        assert(bits_exp(b) == 103 + n) by {
            lemma_fundamental_div_mod_converse_div(b as int, pow2(23) as int, 103 + n as int, m);
        }
        assert(b % pow2(23) == m) by {
            lemma_fundamental_div_mod_converse_mod(b as int, pow2(23) as int, 103 + n as int, m);
        }
        assert(bits_sig(b) == t * d);
        assert((126 - bits_exp(b)) as nat == (23 - n) as nat);
        // t * d splits by d with remainder zero.
        assert(t * d % d == 0 && t * d / d == t) by {
            lemma_fundamental_div_mod_converse_mod((t * d) as int, d as int, t as int, 0);
            lemma_fundamental_div_mod_converse_div((t * d) as int, d as int, t as int, 0);
        }
    }
}

/// Computes the single-precision bit pattern of `t * 2^-24`.
pub fn frac24_to_bits(t: u32) -> (bits: u32)
    requires
        t < 0x100_0000,
    ensures
        bits == frac24_bits(t as nat),
{
    proof {
        lemma2_to64();
    }
    if t == 0 {
        return 0;
    }
    let mut n: u32 = 0;
    let mut v: u32 = t;
    while v >= 2
        invariant
            1 <= v,
            n <= 23,
            v as nat == t as nat / pow2(n as nat),
            1 <= t < 0x100_0000,
        decreases v,
    {
        proof {
            lemma_pow2_pos(n as nat);
            lemma_fundamental_div_mod(t as int, pow2(n as nat) as int);
            lemma_pow2_adds(n as nat, 1);
            lemma2_to64();
            // v >= 2 forces pow2(n + 1) <= t < pow2(24), so n + 1 stays below 24.
            assert(2 * pow2(n as nat) <= v * pow2(n as nat)) by {
                lemma_mul_inequality(2, v as int, pow2(n as nat) as int);
            }
            assert(pow2(n as nat) * v == v * pow2(n as nat)) by {
                lemma_mul_is_commutative(pow2(n as nat) as int, v as int);
            }
            assert(2 * pow2(n as nat) <= t);
            if n + 1 >= 24 {
                lemma_pow2_strictly_increases(24, n as nat + 1);
                if n as nat + 1 == 24 {
                    assert(pow2(24) == 0x100_0000);
                }
                assert(false);
            }
            lemma_div_denominator(t as int, pow2(n as nat) as int, 2);
        }
        v = v / 2;
        n = n + 1;
    }
    proof {
        lemma_pow2_pos(n as nat);
        lemma_fundamental_div_mod(t as int, pow2(n as nat) as int);
        assert(pow2(n as nat) <= t < pow2(n as nat + 1)) by {
            lemma_pow2_adds(n as nat, 1);
            lemma2_to64();
        }
        lemma_floor_log2_unique(t as nat, n as nat);
        assert(t * pow2((23 - n) as nat) < pow2(24)) by {
            lemma_mul_strict_inequality(
                t as int,
                pow2(n as nat + 1) as int,
                pow2((23 - n) as nat) as int,
            );
            lemma_pow2_adds(n as nat + 1, (23 - n) as nat);
        }
        lemma_u32_shl_is_mul(t, (23 - n) as u32);
        lemma_u32_shl_is_mul((102 + n) as u32, 23);
        assert((102 + n) * pow2(23) <= 125 * pow2(23)) by {
            lemma_mul_inequality(102 + n as int, 125, pow2(23) as int);
        }
    }
    let mantissa_full: u32 = t << ((23 - n) as u32);
    let exp_part: u32 = (102 + n) << 23u32;
    exp_part + mantissa_full
}

/// Decodes a single-precision bit pattern back to its frac24 numerator,
/// rejecting any pattern that does not denote an exact grid point in `[0, 1)`.
pub fn bits_to_frac24(bits: u32) -> (r: Option<u32>)
    ensures
        r is Some <==> bits_ok(bits as nat),
        r is Some ==> r->0 as nat == bits_frac24(bits as nat),
{
    proof {
        lemma2_to64();
        lemma_low_bits_mask_values();
    }
    if bits == 0 {
        return Some(0);
    }
    let e: u32 = bits >> 23u32;
    proof {
        lemma_u32_shr_is_div(bits, 23);
    }
    if e < 103 || e > 126 {
        return None;
    }
    let m: u32 = bits & 0x7f_ffff;
    proof {
        lemma_u32_low_bits_mask_is_mod(bits, 23);
    }
    let sig: u32 = m + 0x80_0000;
    let shift: u32 = 126 - e;
    let q: u32 = sig >> shift;
    proof {
        lemma_u32_shr_is_div(sig, shift);
        lemma_pow2_pos(shift as nat);
        lemma_fundamental_div_mod(sig as int, pow2(shift as nat) as int);
        assert(q * pow2(shift as nat) <= sig);
        lemma_u32_shl_is_mul(q, shift);
    }
    if (q << shift) == sig {
        Some(q)
    } else {
        None
    }
}

/// Frac24 numerator of the normalized coordinate `x / 2^s` on an axis of
/// size `2^s`: exact for `s <= 24`, rounded toward zero onto the grid for
/// larger axes.
pub open spec fn coord_frac24(x: nat, s: nat) -> nat
    recommends
        x < pow2(s),
{
    if s <= 24 {
        x * pow2((24 - s) as nat)
    } else {
        x / pow2((s - 24) as nat)
    }
}

/// Frac24 numerator of the normalized score `score / d`, rounded toward zero
/// onto the grid.
pub open spec fn score_frac24(score: nat, d: nat) -> nat
    recommends
        1 <= d,
        score < d,
{
    (score * pow2(24)) / d
}

/// A coordinate's frac24 numerator always lies on the grid, below 2^24.
pub proof fn lemma_coord_frac24_bound(x: nat, s: nat)
    requires
        1 <= s < 32,
        x < pow2(s),
    ensures
        coord_frac24(x, s) < pow2(24),
{
    if s <= 24 {
        assert(x * pow2((24 - s) as nat) < pow2(24)) by {
            lemma_pow2_pos((24 - s) as nat);
            lemma_mul_strict_inequality(x as int, pow2(s) as int, pow2((24 - s) as nat) as int);
            lemma_pow2_adds(s, (24 - s) as nat);
        }
    } else {
        lemma_pow2_pos((s - 24) as nat);
        assert(x < pow2((s - 24) as nat) * pow2(24)) by {
            lemma_pow2_adds((s - 24) as nat, 24);
        }
        lemma_multiply_divide_lt(x as int, pow2((s - 24) as nat) as int, pow2(24) as int);
    }
}

/// A score's frac24 numerator always lies on the grid, below 2^24.
pub proof fn lemma_score_frac24_bound(score: nat, d: nat)
    requires
        1 <= d,
        score < d,
    ensures
        score_frac24(score, d) < pow2(24),
{
    assert(score * pow2(24) < d * pow2(24)) by {
        lemma_pow2_pos(24);
        lemma_mul_strict_inequality(score as int, d as int, pow2(24) as int);
    }
    assert((d as int) * pow2(24) == pow2(24) * (d as int)) by {
        lemma_mul_is_commutative(d as int, pow2(24) as int);
    }
    lemma_multiply_divide_lt((score as int) * pow2(24), d as int, pow2(24) as int);
}

/// Computes the frac24 numerator of a coordinate on an axis of size `2^s`.
pub fn coord_to_frac24(x: u32, s: u8) -> (t: u32)
    requires
        1 <= s < 32,
        (x as nat) < pow2(s as nat),
    ensures
        t as nat == coord_frac24(x as nat, s as nat),
        t < 0x100_0000,
{
    proof {
        lemma2_to64();
    }
    if s <= 24 {
        proof {
            assert(x * pow2((24 - s) as nat) < pow2(24)) by {
                lemma_mul_strict_inequality(
                    x as int,
                    pow2(s as nat) as int,
                    pow2((24 - s) as nat) as int,
                );
                lemma_pow2_adds(s as nat, (24 - s) as nat);
            }
            lemma_u32_shl_is_mul(x, (24 - s) as u32);
        }
        x << ((24 - s) as u32)
    } else {
        proof {
            lemma_u32_shr_is_div(x, (s - 24) as u32);
            lemma_pow2_pos((s as nat - 24) as nat);
            assert((x as nat) < pow2((s as nat - 24) as nat) * pow2(24)) by {
                lemma_pow2_adds((s as nat - 24) as nat, 24);
            }
            lemma_multiply_divide_lt(x as int, pow2((s as nat - 24) as nat) as int, pow2(24) as int);
        }
        x >> ((s - 24) as u32)
    }
}

/// Computes the frac24 numerator of a score against the ceiling `d`.
pub fn score_to_frac24(score: u16, d: u16) -> (t: u32)
    requires
        1 <= d,
        score < d,
    ensures
        t as nat == score_frac24(score as nat, d as nat),
        t < 0x100_0000,
{
    proof {
        lemma2_to64();
        lemma_u64_shl_is_mul(score as u64, 24);
        assert((score as nat) * pow2(24) < (d as nat) * pow2(24)) by {
            lemma_mul_strict_inequality(score as int, d as int, pow2(24) as int);
        }
        assert((d as int) * pow2(24) == pow2(24) * (d as int)) by {
            lemma_mul_is_commutative(d as int, pow2(24) as int);
        }
        lemma_multiply_divide_lt((score as int) * pow2(24), d as int, pow2(24) as int);
    }
    let wide: u64 = ((score as u64) << 24u64) / (d as u64);
    wide as u32
}

/// Scaling a coordinate's frac24 numerator back by the axis size recovers the
/// original coordinate: exactly on axes of size up to 2^24, and to within the
/// grid spacing `2^(s-24)` on larger axes.
pub proof fn lemma_coord_recovery(x: nat, s: nat)
    requires
        1 <= s < 32,
        x < pow2(s),
    ensures
        (coord_frac24(x, s) * pow2(s)) / pow2(24) <= x,
        s <= 24 ==> (coord_frac24(x, s) * pow2(s)) / pow2(24) == x,
        s > 24 ==> x < (coord_frac24(x, s) * pow2(s)) / pow2(24) + pow2((s - 24) as nat),
{
    lemma_pow2_pos(24);
    lemma_pow2_pos(s);
    if s <= 24 {
        let u = pow2((24 - s) as nat);
        // x * 2^(24-s) * 2^s == x * 2^24, and dividing by 2^24 cancels.
        assert((x * u) * pow2(s) == x * pow2(24)) by {
            vstd::arithmetic::mul::lemma_mul_is_associative(x as int, u as int, pow2(s) as int);
            lemma_pow2_adds((24 - s) as nat, s);
        }
        lemma_div_multiples_vanish(x as int, pow2(24) as int);
        lemma_mul_is_commutative(x as int, pow2(24) as int);
    } else {
        let g = pow2((s - 24) as nat);
        let q = x / g;
        lemma_pow2_pos((s - 24) as nat);
        // q * 2^s / 2^24 == q * 2^(s-24), since 2^s == 2^(s-24) * 2^24.
        assert((q * pow2(s)) == (q * g) * pow2(24)) by {
            lemma_pow2_adds((s - 24) as nat, 24);
            vstd::arithmetic::mul::lemma_mul_is_associative(q as int, g as int, pow2(24) as int);
        }
        assert(((q * g) * pow2(24)) / pow2(24) == q * g) by {
            lemma_div_multiples_vanish((q * g) as int, pow2(24) as int);
            lemma_mul_is_commutative((q * g) as int, pow2(24) as int);
        }
        lemma_fundamental_div_mod(x as int, g as int);
        lemma_mod_division_less_than_divisor(x as int, g as int);
    }
}

/// Scaling a score's frac24 numerator back by the ceiling `d` and rounding to
/// the nearest integer recovers the original score, because the truncation
/// error is below `d * 2^-24 < 1/2`.
pub proof fn lemma_score_recovery(score: nat, d: nat)
    requires
        1 <= d < pow2(16),
        score < d,
    ensures
        (score_frac24(score, d) * d + pow2(23)) / pow2(24) == score,
{
    lemma2_to64();
    let t = score_frac24(score, d);
    lemma_fundamental_div_mod((score * pow2(24)) as int, d as int);
    let r = (score * pow2(24)) % d;
    lemma_mod_division_less_than_divisor((score * pow2(24)) as int, d as int);
    assert(t * d == score * pow2(24) - r) by {
        lemma_mul_is_commutative(d as int, t as int);
    }
    // t * d + 2^23 lies in ((score * 2^24), (score + 1) * 2^24), so the floor
    // of its quotient by 2^24 is exactly score.
    assert(t * d + pow2(23) == score * pow2(24) + (pow2(23) - r));
    assert(0 <= pow2(23) - r < pow2(24));
    lemma_fundamental_div_mod_converse_div(
        (t * d + pow2(23)) as int,
        pow2(24) as int,
        score as int,
        pow2(23) - r,
    );
}

} // verus!
