//! Scalar lane primitives over the KoalaBear prime field.
//!
//! The prime has the shape p = r * 2^j + 1 with a small odd factor r = 127
//! and two-adicity j = 24. That shape lets a lane be multiplied by 2^-k
//! with shifts, masks and one multiplication by the small constant r,
//! in place of a general modular multiplication: writing x = hi * 2^k + lo,
//! the value hi - r * 2^(j-k) * lo is congruent to x * 2^-k modulo p and
//! lies in the open interval (-p, p). Such non-canonical intermediates are
//! resolved later by a signed addition against a canonical row sum.

use vstd::prelude::*;
use vstd::arithmetic::div_mod::*;
use vstd::arithmetic::power2::*;
use vstd::bits::*;

verus! {

/// The KoalaBear prime: 127 * 2^24 + 1.
pub const P: u32 = 2130706433;

/// The odd factor r of p = r * 2^j + 1.
pub const ODD_FACTOR: u32 = 127;

/// The two-adicity j of p = r * 2^j + 1.
pub const TWO_ADICITY: u32 = 24;

/// The defining relation of halving and of the signed 2^-n routines:
/// multiplying the result m back by t recovers the operand x modulo p.
/// Kept opaque so that the products it holds do not burden callers that
/// only pass the relation along.
#[verifier::opaque]
pub open spec fn shifted_residue(m: int, t: int, x: int) -> bool {
    (m * t) % (P as int) == x % (P as int)
}

/// Modular addition of two canonical lanes; the result is canonical.
pub fn add_mod(a: u32, b: u32) -> (r: u32)
    requires
        a < P,
        b < P,
    ensures
        r < P,
        r == (a + b) % (P as int),
{
    let s: u32 = a + b;
    if s >= P {
        proof {
            lemma_fundamental_div_mod_converse_mod(
                a as int + b as int,
                P as int,
                1,
                a as int + b as int - P as int,
            );
        }
        s - P
    } else {
        proof {
            lemma_small_mod(s as nat, P as nat);
        }
        s
    }
}

/// Modular subtraction of two canonical lanes; the result is canonical.
pub fn sub_mod(a: u32, b: u32) -> (r: u32)
    requires
        a < P,
        b < P,
    ensures
        r < P,
        r == (a - b) % (P as int),
{
    if a >= b {
        proof {
            lemma_small_mod((a - b) as nat, P as nat);
        }
        a - b
    } else {
        proof {
            lemma_fundamental_div_mod_converse_mod(
                a as int - b as int,
                P as int,
                -1,
                a as int + P as int - b as int,
            );
        }
        a + P - b
    }
}

/// Halve a canonical lane modulo p with one parity-dependent correction:
/// an even lane is shifted down, an odd lane first gains p (making it even,
/// since p is odd). The result is the canonical lane that doubles back to
/// the input.
pub fn halve(x: u32) -> (r: u32)
    requires
        x < P,
    ensures
        r < P,
        shifted_residue(r as int, 2, x as int),
{
    if x % 2 == 0 {
        let r: u32 = x / 2;
        proof {
            reveal(shifted_residue);
            lemma_fundamental_div_mod(x as int, 2);
            lemma_small_mod(x as nat, P as nat);
        }
        r
    } else {
        let r: u32 = (x + P) / 2;
        proof {
            reveal(shifted_residue);
            lemma_add_mod_noop(x as int, P as int, 2);
            lemma_fundamental_div_mod(x as int + P as int, 2);
            lemma_mod_add_multiples_vanish(x as int, P as int);
            lemma_small_mod(x as nat, P as nat);
        }
        r
    }
}

/// Add a possibly negative lane in (-p, p) to a canonical lane, returning
/// the canonical sum. The first operand must be non-negative (canonical);
/// only the second may carry a deferred sign.
pub fn signed_add(s: u32, m: i64) -> (r: u32)
    requires
        s < P,
        -(P as int) < m as int,
        (m as int) < P as int,
    ensures
        r < P,
        r == (s + m) % (P as int),
{
    let t: i64 = s as i64 + m;
    if t < 0 {
        proof {
            lemma_fundamental_div_mod_converse_mod(
                s as int + m as int,
                P as int,
                -1,
                t as int + P as int,
            );
        }
        (t + P as i64) as u32
    } else if t >= P as i64 {
        proof {
            lemma_fundamental_div_mod_converse_mod(
                s as int + m as int,
                P as int,
                1,
                t as int - P as int,
            );
        }
        (t - P as i64) as u32
    } else {
        proof {
            lemma_small_mod(t as nat, P as nat);
        }
        t as u32
    }
}

/// Multiply a canonical lane by 2^-8 modulo p, using the byte split
/// x = hi * 2^8 + lo: the result hi - r * 2^16 * lo is congruent to
/// x * 2^-8 and lies in (-p, p). The byte-sized low part is what lets a
/// vectorized backend fuse the multiplication by r into one byte-wise
/// multiply-accumulate instruction.
pub fn mul_2_exp_neg_8(x: u32) -> (r: i64)
    requires
        x < P,
    ensures
        -(P as int) < r as int,
        (r as int) < P as int,
        shifted_residue(r as int, 256, x as int),
{
    let hi: u32 = x >> 8u32;
    let lo: u32 = x & 0xFF;
    let r: i64 = hi as i64 - 127i64 * (lo as i64) * 65536i64;
    proof {
        reveal(shifted_residue);
        lemma_u32_shr_is_div(x, 8u32);
        lemma_u32_low_bits_mask_is_mod(x, 8);
        lemma2_to64();
        assert(low_bits_mask(8) == 0xFF);
        assert(x == 256 * hi + lo) by {
            lemma_fundamental_div_mod(x as int, 256);
        };
        assert(r as int * 256 == x as int - lo as int * (P as int));
        assert((r as int * 256) % (P as int) == x as int) by {
            lemma_mod_multiples_vanish(-(lo as int), x as int, P as int);
            lemma_small_mod(x as nat, P as nat);
        };
    }
    r
}

/// Multiply a canonical lane by -2^-8 modulo p: the mirror of
/// `mul_2_exp_neg_8` with the subtraction reversed, so the result
/// r * 2^16 * lo - hi is congruent to -(x * 2^-8) and lies in (-p, p).
pub fn mul_neg_2_exp_neg_8(x: u32) -> (r: i64)
    requires
        x < P,
    ensures
        -(P as int) < r as int,
        (r as int) < P as int,
        shifted_residue(r as int, 256, -(x as int)),
{
    let hi: u32 = x >> 8u32;
    let lo: u32 = x & 0xFF;
    let r: i64 = 127i64 * (lo as i64) * 65536i64 - hi as i64;
    proof {
        reveal(shifted_residue);
        lemma_u32_shr_is_div(x, 8u32);
        lemma_u32_low_bits_mask_is_mod(x, 8);
        lemma2_to64();
        assert(low_bits_mask(8) == 0xFF);
        assert(x == 256 * hi + lo) by {
            lemma_fundamental_div_mod(x as int, 256);
        };
        assert(r as int * 256 == lo as int * (P as int) - x as int);
        assert((r as int * 256) % (P as int) == (-(x as int)) % (P as int)) by {
            lemma_mod_multiples_vanish(lo as int, -(x as int), P as int);
        };
    }
    r
}

/// Multiply a canonical lane by 2^-n modulo p for 1 <= n <= 24, splitting
/// x = hi * 2^n + lo: the result hi - r * 2^(24-n) * lo is congruent to
/// x * 2^-n and lies in (-p, p). At n = 24 the split matches the prime's
/// two-adicity and the small factor degenerates to r itself.
pub fn mul_2_exp_neg_n(x: u32, n: u32) -> (r: i64)
    requires
        x < P,
        1 <= n <= TWO_ADICITY,
    ensures
        -(P as int) < r as int,
        (r as int) < P as int,
        shifted_residue(r as int, pow2(n as nat) as int, x as int),
{
    let hi: u32 = x >> n;
    proof {
        lemma_shift_split_facts(x, n);
        lemma_pow2_pos(n as nat);
    }
    let mask: u32 = (1u32 << n) - 1u32;
    let lo: u32 = x & mask;
    let pw: u32 = 1u32 << (24u32 - n);
    proof {
        lemma_downshift_result(x as int, n as nat, hi as int, lo as int, pw as int);
    }
    let r: i64 = hi as i64 - (lo as i64) * 127i64 * (pw as i64);
    proof {
        reveal(shifted_residue);
        lemma_small_mod(x as nat, P as nat);
    }
    r
}

/// Multiply a canonical lane by -2^-n modulo p for 1 <= n <= 24: the mirror
/// of `mul_2_exp_neg_n` with the subtraction reversed.
pub fn mul_neg_2_exp_neg_n(x: u32, n: u32) -> (r: i64)
    requires
        x < P,
        1 <= n <= TWO_ADICITY,
    ensures
        -(P as int) < r as int,
        (r as int) < P as int,
        shifted_residue(r as int, pow2(n as nat) as int, -(x as int)),
{
    let hi: u32 = x >> n;
    proof {
        lemma_shift_split_facts(x, n);
        lemma_pow2_pos(n as nat);
    }
    let mask: u32 = (1u32 << n) - 1u32;
    let lo: u32 = x & mask;
    let pw: u32 = 1u32 << (24u32 - n);
    proof {
        lemma_downshift_result(x as int, n as nat, hi as int, lo as int, pw as int);
    }
    let r: i64 = (lo as i64) * 127i64 * (pw as i64) - hi as i64;
    proof {
        reveal(shifted_residue);
        let m: int = hi as int - lo as int * 127 * pw as int;
        let t: int = pow2(n as nat) as int;
        lemma_small_mod(x as nat, P as nat);
        lemma_mod_neg(x as int, m * t, P as int);
        assert(m * t == -(r as int * t)) by (nonlinear_arith)
            requires
                m == -(r as int),
        ;
        assert((-(m * t)) % (P as int) == (r as int * t) % (P as int));
    }
    r
}

/// The shift and mask of the 2^-n split agree with division and remainder
/// by 2^n, and the precomputed power 2^(24-n) is exact.
proof fn lemma_shift_split_facts(x: u32, n: u32)
    requires
        x < P,
        1 <= n <= 24,
    ensures
        x >> n == x as nat / pow2(n as nat),
        1u32 << n == pow2(n as nat),
        pow2(n as nat) >= 1,
        x & (((1u32 << n) - 1u32) as u32) == x as nat % pow2(n as nat),
        1u32 << (24u32 - n) == pow2((24 - n) as nat),
        pow2(n as nat) * pow2((24 - n) as nat) == pow2(24),
        pow2(24) == 16777216,
{
    lemma2_to64();
    lemma_pow2_adds(n as nat, (24 - n) as nat);
    lemma_u32_pow2_no_overflow(n as nat);
    lemma_u32_pow2_no_overflow((24 - n) as nat);
    lemma_u32_shl_is_mul(1u32, n);
    lemma_u32_shl_is_mul(1u32, (24 - n) as u32);
    lemma_u32_shr_is_div(x, n);
    lemma_u32_low_bits_mask_is_mod(x, n as nat);
    lemma_pow2_pos(n as nat);
    assert((1u32 << n) - 1u32 == low_bits_mask(n as nat));
}

/// The core congruence of the 2^-n trick: with x = t * hi + lo for
/// t = 2^n and w = 2^(24-n), the value hi - 127 * w * lo satisfies
/// (hi - 127 * w * lo) * t == x - lo * p, hence is congruent to x * 2^-n
/// modulo p, and lies in (-p, p).
proof fn lemma_downshift_result(x: int, n: nat, hi: int, lo: int, pw: int)
    requires
        0 <= x < P as int,
        1 <= n <= 24,
        hi == x / pow2(n) as int,
        lo == x % pow2(n) as int,
        pw == pow2((24 - n) as nat),
        pow2(n) * pow2((24 - n) as nat) == pow2(24),
        pow2(24) == 16777216,
    ensures
        0 <= hi <= x,
        0 <= lo * 127 * pw,
        lo * 127 * pw < P as int,
        ((hi - lo * 127 * pw) * pow2(n) as int) % (P as int) == x,
{
    let r: int = hi - lo * 127 * pw;
    let t: int = pow2(n) as int;
    let w: int = pw;
    lemma_pow2_pos(n);
    lemma_pow2_pos((24 - n) as nat);
    lemma_fundamental_div_mod(x, t);
    lemma_mod_bound(x, t);
    assert(x == t * hi + lo);
    assert(0 <= lo < t);
    assert(t >= 2 && t * w == 16777216) by {
        lemma_pow2_strictly_increases(0, n);
        lemma2_to64();
    };
    assert(0 <= hi && hi <= x) by (nonlinear_arith)
        requires
            x == t * hi + lo,
            0 <= lo < t,
            t >= 2,
            x >= 0,
    ;
    assert(0 <= lo * 127 * w && lo * 127 * w < P as int) by (nonlinear_arith)
        requires
            0 <= lo,
            lo < t,
            w >= 1,
            t * w == 16777216,
            127 * 16777216 + 1 == P as int,
    ;
    assert(r * t == x - lo * (P as int)) by (nonlinear_arith)
        requires
            r == hi - lo * 127 * w,
            x == t * hi + lo,
            t * w == 16777216,
            127 * 16777216 == P as int - 1,
    ;
    assert((r * t) % (P as int) == x) by {
        lemma_mod_multiples_vanish(-lo, x, P as int);
        lemma_small_mod(x as nat, P as nat);
    };
}

/// Negating a value negates its residue: (-a) % p == (-(a % p)) % p.
proof fn lemma_mod_neg(x: int, a: int, p: int)
    requires
        p > 0,
        a % p == x % p,
    ensures
        (-a) % p == (-x) % p,
{
    lemma_sub_mod_noop(0, a, p);
    lemma_sub_mod_noop(0, x, p);
    lemma_mod_twice(0 - a % p, p);
    lemma_mod_twice(0 - x % p, p);
}

} // verus!
