//! The internal linear layer of Poseidon2: multiply the state by a fixed
//! diagonal matrix and add the row sum to every lane, using only addition,
//! halving and the specialized multiplications by inverse powers of two.
//!
//! The layer is split exactly as the optimized implementation splits it:
//! `diagonal_mul_*` multiplies each tail lane (state positions 1 and up;
//! position 0 is handled by the S-box round outside this layer) by the
//! magnitude of its diagonal entry, deferring the signs, and `add_sum`
//! resolves the deferred signs while adding the row sum: lanes whose entry
//! is a positive small constant receive `sum + lane`, lanes whose entry is
//! a negated small constant were built as the positive magnitude and
//! receive `sum - lane`, and lanes built by the 2^-n routines are signed
//! values in (-p, p) and receive a signed addition. The per-index grouping
//! is a fixed protocol parameter.
//!
//! The composition is proved equal, lane for lane and for all canonical
//! inputs, to the scalar reference `(d[i] * x[i] + sum) % p`.

use vstd::prelude::*;
use vstd::arithmetic::div_mod::*;
use vstd::arithmetic::mul::*;
use vstd::arithmetic::power2::*;
use crate::field::{
    add_mod, halve, mul_2_exp_neg_8, mul_2_exp_neg_n, mul_neg_2_exp_neg_8, mul_neg_2_exp_neg_n,
    shifted_residue, signed_add, sub_mod, P,
};

verus! {

/// The canonical residue of 2^-k modulo p, for 1 <= k <= 24: since
/// 127 * 2^24 == p - 1, the inverse of 2^k is p - 127 * 2^(24-k).
pub open spec fn inv_pow2(k: nat) -> int {
    P as int - 127 * pow2((24 - k) as nat) as int
}

/// The canonical residue of -2^-k modulo p, for 1 <= k <= 24.
pub open spec fn neg_inv_pow2(k: nat) -> int {
    127 * pow2((24 - k) as nat) as int
}

/// The scalar reference for one lane: the diagonal entry times the lane,
/// plus the row sum, reduced to canonical form. Kept opaque so that its
/// product does not burden callers that only pass the value along.
#[verifier::opaque]
pub open spec fn scalar_lane(d: int, x: int, s: int) -> int {
    (d * x + s) % (P as int)
}

/// The width-16 diagonal, tail positions only (state positions 1..16):
/// [1, 2, 1/2, 3, 4, -1/2, -3, -4, 1/2^8, -1/2^8, 1/8, -1/8, -1/16,
/// 1/2^24, -1/2^24], each as its canonical residue.
pub open spec fn diag16(i: int) -> int {
    if i == 0 {
        1
    } else if i == 1 {
        2
    } else if i == 2 {
        inv_pow2(1)
    } else if i == 3 {
        3
    } else if i == 4 {
        4
    } else if i == 5 {
        neg_inv_pow2(1)
    } else if i == 6 {
        P as int - 3
    } else if i == 7 {
        P as int - 4
    } else if i == 8 {
        inv_pow2(8)
    } else if i == 9 {
        neg_inv_pow2(8)
    } else if i == 10 {
        inv_pow2(3)
    } else if i == 11 {
        neg_inv_pow2(3)
    } else if i == 12 {
        neg_inv_pow2(4)
    } else if i == 13 {
        inv_pow2(24)
    } else {
        neg_inv_pow2(24)
    }
}

/// The width-24 diagonal, tail positions only (state positions 1..24):
/// [1, 2, 1/2, 3, 4, -1/2, -3, -4, 1/2^8, -1/2^8, 1/4, 1/8, -1/8, 1/16,
/// -1/16, 1/32, -1/32, 1/64, -1/64, -1/2^7, -1/2^9, 1/2^24, -1/2^24],
/// each as its canonical residue.
pub open spec fn diag24(i: int) -> int {
    if i == 0 {
        1
    } else if i == 1 {
        2
    } else if i == 2 {
        inv_pow2(1)
    } else if i == 3 {
        3
    } else if i == 4 {
        4
    } else if i == 5 {
        neg_inv_pow2(1)
    } else if i == 6 {
        P as int - 3
    } else if i == 7 {
        P as int - 4
    } else if i == 8 {
        inv_pow2(8)
    } else if i == 9 {
        neg_inv_pow2(8)
    } else if i == 10 {
        inv_pow2(2)
    } else if i == 11 {
        inv_pow2(3)
    } else if i == 12 {
        neg_inv_pow2(3)
    } else if i == 13 {
        inv_pow2(4)
    } else if i == 14 {
        neg_inv_pow2(4)
    } else if i == 15 {
        inv_pow2(5)
    } else if i == 16 {
        neg_inv_pow2(5)
    } else if i == 17 {
        inv_pow2(6)
    } else if i == 18 {
        neg_inv_pow2(6)
    } else if i == 19 {
        neg_inv_pow2(7)
    } else if i == 20 {
        neg_inv_pow2(9)
    } else if i == 21 {
        inv_pow2(24)
    } else {
        neg_inv_pow2(24)
    }
}

/// Cancellation of an invertible factor: if a * t and b * t agree modulo
/// p and t has an inverse u modulo p, then a and b agree modulo p.
proof fn lemma_mod_cancel(a: int, b: int, t: int, u: int)
    requires
        t > 0,
        (a * t) % (P as int) == (b * t) % (P as int),
        (t * u) % (P as int) == 1,
    ensures
        a % (P as int) == b % (P as int),
{
    let pi = P as int;
    assert(a % pi == ((a * t) * u) % pi) by {
        lemma_mul_mod_noop_right(a, t * u, pi);
        lemma_mul_is_associative(a, t, u);
        lemma_small_mod(a as nat % P as nat, P as nat);
        lemma_mod_bound(a, pi);
        assert((a * ((t * u) % pi)) % pi == (a * 1) % pi);
    };
    assert(b % pi == ((b * t) * u) % pi) by {
        lemma_mul_mod_noop_right(b, t * u, pi);
        lemma_mul_is_associative(b, t, u);
    };
    assert(((a * t) * u) % pi == ((b * t) * u) % pi) by {
        lemma_mul_mod_noop_left(a * t, u, pi);
        lemma_mul_mod_noop_left(b * t, u, pi);
    };
}

/// inv_pow2(k) and neg_inv_pow2(k) are canonical, and multiply with 2^k
/// to 1 and to p - 1 respectively.
proof fn lemma_inv_pow2_props(k: nat)
    requires
        1 <= k <= 24,
    ensures
        0 < inv_pow2(k),
        inv_pow2(k) < P as int,
        0 < neg_inv_pow2(k),
        neg_inv_pow2(k) < P as int,
        (pow2(k) as int * inv_pow2(k)) % (P as int) == 1,
        (pow2(k) as int * neg_inv_pow2(k)) % (P as int) == P as int - 1,
        inv_pow2(k) + neg_inv_pow2(k) == P as int,
{
    let pi = P as int;
    let t = pow2(k) as int;
    let w = pow2((24 - k) as nat) as int;
    lemma_pow2_adds(k, (24 - k) as nat);
    lemma2_to64();
    lemma_pow2_pos(k);
    lemma_pow2_pos((24 - k) as nat);
    assert(t >= 2) by {
        lemma_pow2_strictly_increases(0, k);
    };
    assert(127 * w < pi) by (nonlinear_arith)
        requires
            t * w == 16777216,
            t >= 2,
            w >= 1,
            pi == 127 * 16777216 + 1,
    ;
    assert(t * (pi - 127 * w) == pi * (t - 1) + 1) by (nonlinear_arith)
        requires
            t * w == 16777216,
            pi == 127 * 16777216 + 1,
    ;
    assert((t * inv_pow2(k)) % pi == 1) by {
        lemma_mod_multiples_vanish(t - 1, 1, pi);
        lemma_small_mod(1nat, P as nat);
    };
    assert(t * (127 * w) == 127 * 16777216) by (nonlinear_arith)
        requires
            t * w == 16777216,
    ;
    assert((t * neg_inv_pow2(k)) % pi == pi - 1) by {
        lemma_small_mod((P - 1) as nat, P as nat);
    };
}

/// A canonical lane equal to c * x modulo p, added to the row sum,
/// realizes the scalar entry c.
proof fn lemma_lane_const_add(m: int, x: int, c: int, s: int)
    requires
        m == (c * x) % (P as int),
        0 <= s < P as int,
    ensures
        (s + m) % (P as int) == scalar_lane(c, x, s),
{
    let pi = P as int;
    reveal(scalar_lane);
    lemma_mod_twice(c * x, pi);
    lemma_add_mod_noop_right(s, m, pi);
    lemma_add_mod_noop_right(s, c * x, pi);
}

/// A canonical lane equal to c * x modulo p, subtracted from the row sum,
/// realizes the scalar entry p - c.
proof fn lemma_lane_const_sub(m: int, x: int, c: int, s: int)
    requires
        m % (P as int) == (c * x) % (P as int),
        0 <= x < P as int,
        0 <= s < P as int,
        0 < c < P as int,
    ensures
        (s - m) % (P as int) == scalar_lane(P as int - c, x, s),
{
    let pi = P as int;
    reveal(scalar_lane);
    assert((pi - c) * x + s == pi * x + (s - c * x)) by (nonlinear_arith);
    lemma_mod_multiples_vanish(x, s - c * x, pi);
    lemma_sub_mod_noop_right(s, m, pi);
    lemma_sub_mod_noop_right(s, c * x, pi);
}

/// A signed lane m with m * 2^k congruent to x, added to the row sum,
/// realizes the scalar entry 2^-k.
proof fn lemma_lane_pos_inv(m: int, x: int, k: nat, s: int)
    requires
        0 <= x < P as int,
        0 <= s < P as int,
        1 <= k <= 24,
        shifted_residue(m, pow2(k) as int, x),
    ensures
        (s + m) % (P as int) == scalar_lane(inv_pow2(k), x, s),
        m % (P as int) == (inv_pow2(k) * x) % (P as int),
{
    let pi = P as int;
    let t = pow2(k) as int;
    let d = inv_pow2(k);
    reveal(scalar_lane);
    reveal(shifted_residue);
    lemma_small_mod(x as nat, P as nat);
    lemma_inv_pow2_props(k);
    lemma_pow2_pos(k);
    assert(((d * x) * t) % pi == x) by {
        assert((d * x) * t == x * (t * d)) by (nonlinear_arith);
        lemma_mul_mod_noop_right(x, t * d, pi);
        lemma_small_mod(x as nat, P as nat);
        assert((x * ((t * d) % pi)) % pi == (x * 1) % pi);
    };
    lemma_mod_cancel(m, d * x, t, d);
    lemma_add_mod_noop_right(s, m, pi);
    lemma_add_mod_noop_right(s, d * x, pi);
}

/// A signed lane m with m * 2^k congruent to -x, added to the row sum,
/// realizes the scalar entry -(2^-k), that is p - 2^-k.
proof fn lemma_lane_neg_inv(m: int, x: int, k: nat, s: int)
    requires
        0 <= x < P as int,
        0 <= s < P as int,
        1 <= k <= 24,
        shifted_residue(m, pow2(k) as int, -x),
    ensures
        (s + m) % (P as int) == scalar_lane(neg_inv_pow2(k), x, s),
{
    let pi = P as int;
    let t = pow2(k) as int;
    let d = neg_inv_pow2(k);
    reveal(scalar_lane);
    reveal(shifted_residue);
    lemma_inv_pow2_props(k);
    lemma_pow2_pos(k);
    assert(((d * x) * t) % pi == (-x) % pi) by {
        assert((d * x) * t == x * (t * d)) by (nonlinear_arith);
        lemma_mul_mod_noop_right(x, t * d, pi);
        assert((x * ((t * d) % pi)) % pi == (x * (pi - 1)) % pi);
        assert(x * (pi - 1) == pi * x + (-x)) by (nonlinear_arith);
        lemma_mod_multiples_vanish(x, -x, pi);
    };
    lemma_mod_cancel(m, d * x, t, inv_pow2(k));
    lemma_add_mod_noop_right(s, m, pi);
    lemma_add_mod_noop_right(s, d * x, pi);
}

/// A canonical lane m with m * 2^k congruent to x, subtracted from the
/// row sum, realizes the scalar entry -(2^-k): the halving route to the
/// entries -1/2.
proof fn lemma_lane_sub_inv(m: int, x: int, k: nat, s: int)
    requires
        0 <= x < P as int,
        0 <= s < P as int,
        1 <= k <= 24,
        shifted_residue(m, pow2(k) as int, x),
    ensures
        (s - m) % (P as int) == scalar_lane(neg_inv_pow2(k), x, s),
{
    reveal(scalar_lane);
    lemma_inv_pow2_props(k);
    lemma_lane_pos_inv(m, x, k, s);
    lemma_lane_const_sub(m, x, inv_pow2(k), s);
}

/// Multiply each tail lane of a width-16 state by the magnitude of its
/// diagonal entry, deferring signs. Inputs must be canonical; lanes built
/// by the 2^-n routines come out signed in (-p, p), the rest canonical.
/// The result is meaningful only as the input of `add_sum`.
#[verifier::rlimit(100)]
#[verifier::spinoff_prover]
pub fn diagonal_mul_16(state: &mut Vec<i64>)
    requires
        old(state)@.len() == 15,
        forall|i: int|
            0 <= i < 15 ==> 0 <= #[trigger] old(state)@[i] && old(state)@[i] < P as i64,
    ensures
        final(state)@.len() == 15,
        forall|i: int| 0 <= i < 8 ==> 0 <= #[trigger] final(state)@[i] && final(state)@[i] < P as i64,
        forall|i: int|
            8 <= i < 15 ==> -(P as i64) < #[trigger] final(state)@[i] && final(state)@[i] < P as i64,
        final(state)@[0] == old(state)@[0],
        final(state)@[1] == (2 * old(state)@[1]) % (P as int),
        shifted_residue(final(state)@[2] as int, 2, old(state)@[2] as int),
        final(state)@[3] == (3 * old(state)@[3]) % (P as int),
        final(state)@[4] == (4 * old(state)@[4]) % (P as int),
        shifted_residue(final(state)@[5] as int, 2, old(state)@[5] as int),
        final(state)@[6] == (3 * old(state)@[6]) % (P as int),
        final(state)@[7] == (4 * old(state)@[7]) % (P as int),
        shifted_residue(final(state)@[8] as int, 256, old(state)@[8] as int),
        shifted_residue(final(state)@[9] as int, 256, -(old(state)@[9] as int)),
        shifted_residue(final(state)@[10] as int, pow2(3) as int, old(state)@[10] as int),
        shifted_residue(final(state)@[11] as int, pow2(3) as int, -(old(state)@[11] as int)),
        shifted_residue(final(state)@[12] as int, pow2(4) as int, -(old(state)@[12] as int)),
        shifted_residue(final(state)@[13] as int, pow2(24) as int, old(state)@[13] as int),
        shifted_residue(final(state)@[14] as int, pow2(24) as int, -(old(state)@[14] as int)),
{
    let y0: i64 = state[0];
    // Entry 2: one doubling.
    let x1: u32 = state[1] as u32;
    let y1: i64 = add_mod(x1, x1) as i64;
    // Entry 1/2: the halving primitive.
    let x2: u32 = state[2] as u32;
    let y2: i64 = halve(x2) as i64;
    // Entry 3: double, then add once more.
    let x3: u32 = state[3] as u32;
    let y3: i64 = add_mod(add_mod(x3, x3), x3) as i64;
    // Entry 4: two doublings.
    let x4: u32 = state[4] as u32;
    let acc4: u32 = add_mod(x4, x4);
    let y4: i64 = add_mod(acc4, acc4) as i64;
    // Entry -1/2: emit the magnitude x/2; add_sum subtracts it.
    let x5: u32 = state[5] as u32;
    let y5: i64 = halve(x5) as i64;
    // Entry -3: emit the magnitude 3x; add_sum subtracts it.
    let x6: u32 = state[6] as u32;
    let y6: i64 = add_mod(add_mod(x6, x6), x6) as i64;
    // Entry -4: emit the magnitude 4x; add_sum subtracts it.
    let x7: u32 = state[7] as u32;
    let acc7: u32 = add_mod(x7, x7);
    let y7: i64 = add_mod(acc7, acc7) as i64;
    // Entries +/- 1/2^8: the byte-split routine special to this prime.
    let x8: u32 = state[8] as u32;
    let y8: i64 = mul_2_exp_neg_8(x8);
    let x9: u32 = state[9] as u32;
    let y9: i64 = mul_neg_2_exp_neg_8(x9);
    // Entries +/- 1/8, -1/16: the generic 2^-n routines.
    let x10: u32 = state[10] as u32;
    let y10: i64 = mul_2_exp_neg_n(x10, 3);
    let x11: u32 = state[11] as u32;
    let y11: i64 = mul_neg_2_exp_neg_n(x11, 3);
    let x12: u32 = state[12] as u32;
    let y12: i64 = mul_neg_2_exp_neg_n(x12, 4);
    // Entries +/- 1/2^24: the split at the prime's two-adicity.
    let x13: u32 = state[13] as u32;
    let y13: i64 = mul_2_exp_neg_n(x13, 24);
    let x14: u32 = state[14] as u32;
    let y14: i64 = mul_neg_2_exp_neg_n(x14, 24);
    let mut out: Vec<i64> = Vec::new();
    out.push(y0);
    out.push(y1);
    out.push(y2);
    out.push(y3);
    out.push(y4);
    out.push(y5);
    out.push(y6);
    out.push(y7);
    out.push(y8);
    out.push(y9);
    out.push(y10);
    out.push(y11);
    out.push(y12);
    out.push(y13);
    out.push(y14);
    *state = out;
}

/// Multiply each tail lane of a width-24 state by the magnitude of its
/// diagonal entry, deferring signs, exactly as `diagonal_mul_16` does for
/// its width.
#[verifier::rlimit(100)]
#[verifier::spinoff_prover]
pub fn diagonal_mul_24(state: &mut Vec<i64>)
    requires
        old(state)@.len() == 23,
        forall|i: int|
            0 <= i < 23 ==> 0 <= #[trigger] old(state)@[i] && old(state)@[i] < P as i64,
    ensures
        final(state)@.len() == 23,
        forall|i: int| 0 <= i < 8 ==> 0 <= #[trigger] final(state)@[i] && final(state)@[i] < P as i64,
        forall|i: int|
            8 <= i < 23 ==> -(P as i64) < #[trigger] final(state)@[i] && final(state)@[i] < P as i64,
        final(state)@[0] == old(state)@[0],
        final(state)@[1] == (2 * old(state)@[1]) % (P as int),
        shifted_residue(final(state)@[2] as int, 2, old(state)@[2] as int),
        final(state)@[3] == (3 * old(state)@[3]) % (P as int),
        final(state)@[4] == (4 * old(state)@[4]) % (P as int),
        shifted_residue(final(state)@[5] as int, 2, old(state)@[5] as int),
        final(state)@[6] == (3 * old(state)@[6]) % (P as int),
        final(state)@[7] == (4 * old(state)@[7]) % (P as int),
        shifted_residue(final(state)@[8] as int, 256, old(state)@[8] as int),
        shifted_residue(final(state)@[9] as int, 256, -(old(state)@[9] as int)),
        shifted_residue(final(state)@[10] as int, pow2(2) as int, old(state)@[10] as int),
        shifted_residue(final(state)@[11] as int, pow2(3) as int, old(state)@[11] as int),
        shifted_residue(final(state)@[12] as int, pow2(3) as int, -(old(state)@[12] as int)),
        shifted_residue(final(state)@[13] as int, pow2(4) as int, old(state)@[13] as int),
        shifted_residue(final(state)@[14] as int, pow2(4) as int, -(old(state)@[14] as int)),
        shifted_residue(final(state)@[15] as int, pow2(5) as int, old(state)@[15] as int),
        shifted_residue(final(state)@[16] as int, pow2(5) as int, -(old(state)@[16] as int)),
        shifted_residue(final(state)@[17] as int, pow2(6) as int, old(state)@[17] as int),
        shifted_residue(final(state)@[18] as int, pow2(6) as int, -(old(state)@[18] as int)),
        shifted_residue(final(state)@[19] as int, pow2(7) as int, -(old(state)@[19] as int)),
        shifted_residue(final(state)@[20] as int, pow2(9) as int, -(old(state)@[20] as int)),
        shifted_residue(final(state)@[21] as int, pow2(24) as int, old(state)@[21] as int),
        shifted_residue(final(state)@[22] as int, pow2(24) as int, -(old(state)@[22] as int)),
{
    let y0: i64 = state[0];
    let x1: u32 = state[1] as u32;
    let y1: i64 = add_mod(x1, x1) as i64;
    let x2: u32 = state[2] as u32;
    let y2: i64 = halve(x2) as i64;
    let x3: u32 = state[3] as u32;
    let y3: i64 = add_mod(add_mod(x3, x3), x3) as i64;
    let x4: u32 = state[4] as u32;
    let acc4: u32 = add_mod(x4, x4);
    let y4: i64 = add_mod(acc4, acc4) as i64;
    let x5: u32 = state[5] as u32;
    let y5: i64 = halve(x5) as i64;
    let x6: u32 = state[6] as u32;
    let y6: i64 = add_mod(add_mod(x6, x6), x6) as i64;
    let x7: u32 = state[7] as u32;
    let acc7: u32 = add_mod(x7, x7);
    let y7: i64 = add_mod(acc7, acc7) as i64;
    let x8: u32 = state[8] as u32;
    let y8: i64 = mul_2_exp_neg_8(x8);
    let x9: u32 = state[9] as u32;
    let y9: i64 = mul_neg_2_exp_neg_8(x9);
    let x10: u32 = state[10] as u32;
    let y10: i64 = mul_2_exp_neg_n(x10, 2);
    let x11: u32 = state[11] as u32;
    let y11: i64 = mul_2_exp_neg_n(x11, 3);
    let x12: u32 = state[12] as u32;
    let y12: i64 = mul_neg_2_exp_neg_n(x12, 3);
    let x13: u32 = state[13] as u32;
    let y13: i64 = mul_2_exp_neg_n(x13, 4);
    let x14: u32 = state[14] as u32;
    let y14: i64 = mul_neg_2_exp_neg_n(x14, 4);
    let x15: u32 = state[15] as u32;
    let y15: i64 = mul_2_exp_neg_n(x15, 5);
    let x16: u32 = state[16] as u32;
    let y16: i64 = mul_neg_2_exp_neg_n(x16, 5);
    let x17: u32 = state[17] as u32;
    let y17: i64 = mul_2_exp_neg_n(x17, 6);
    let x18: u32 = state[18] as u32;
    let y18: i64 = mul_neg_2_exp_neg_n(x18, 6);
    let x19: u32 = state[19] as u32;
    let y19: i64 = mul_neg_2_exp_neg_n(x19, 7);
    let x20: u32 = state[20] as u32;
    let y20: i64 = mul_neg_2_exp_neg_n(x20, 9);
    let x21: u32 = state[21] as u32;
    let y21: i64 = mul_2_exp_neg_n(x21, 24);
    let x22: u32 = state[22] as u32;
    let y22: i64 = mul_neg_2_exp_neg_n(x22, 24);
    let mut out: Vec<i64> = Vec::new();
    out.push(y0);
    out.push(y1);
    out.push(y2);
    out.push(y3);
    out.push(y4);
    out.push(y5);
    out.push(y6);
    out.push(y7);
    out.push(y8);
    out.push(y9);
    out.push(y10);
    out.push(y11);
    out.push(y12);
    out.push(y13);
    out.push(y14);
    out.push(y15);
    out.push(y16);
    out.push(y17);
    out.push(y18);
    out.push(y19);
    out.push(y20);
    out.push(y21);
    out.push(y22);
    *state = out;
}

/// Resolve the deferred signs while adding the canonical row sum to every
/// lane of the output of a `diagonal_mul_*`: the first five lanes and all
/// lanes from position 8 on receive `sum + lane` (the latter through the
/// signed addition, their lane being signed), and lanes 5 through 7
/// receive `sum - lane`, their magnitudes standing for negated entries.
pub fn add_sum(state: &mut Vec<i64>, sum: u32)
    requires
        old(state)@.len() >= 8,
        sum < P,
        forall|i: int| 0 <= i < 8 ==> 0 <= #[trigger] old(state)@[i] && old(state)@[i] < P as i64,
        forall|i: int|
            8 <= i < old(state)@.len() ==> -(P as i64) < #[trigger] old(state)@[i]
                && old(state)@[i] < P as i64,
    ensures
        final(state)@.len() == old(state)@.len(),
        forall|i: int| 0 <= i < final(state)@.len() ==> 0 <= #[trigger] final(state)@[i] && final(state)@[i] < P as i64,
        forall|i: int| 0 <= i < 5 ==> #[trigger] final(state)@[i] == (sum + old(state)@[i]) % (P as int),
        forall|i: int| 5 <= i < 8 ==> #[trigger] final(state)@[i] == (sum - old(state)@[i]) % (P as int),
        forall|i: int|
            8 <= i < final(state)@.len() ==> #[trigger] final(state)@[i] == (sum + old(state)@[i]) % (P as int),
{
    let ghost pre = state@;
    let n: usize = state.len();
    let mut i: usize = 0;
    while i < 5
        invariant
            i <= 5,
            sum < P,
            state@.len() == n,
            n == pre.len(),
            n >= 8,
            forall|j: int| 0 <= j < 8 ==> 0 <= #[trigger] pre[j] && pre[j] < P as i64,
            forall|j: int| 8 <= j < n ==> -(P as i64) < #[trigger] pre[j] && pre[j] < P as i64,
            forall|j: int| i <= j < n ==> #[trigger] state@[j] == pre[j],
            forall|j: int| 0 <= j < i ==> #[trigger] state@[j] == (sum + pre[j]) % (P as int),
            forall|j: int| 0 <= j < i ==> 0 <= #[trigger] state@[j] && state@[j] < P as i64,
        decreases 5 - i,
    {
        let v: i64 = state[i];
        state.set(i, add_mod(sum, v as u32) as i64);
        i = i + 1;
    }
    let mut k: usize = 5;
    while k < 8
        invariant
            5 <= k <= 8,
            sum < P,
            state@.len() == n,
            n == pre.len(),
            n >= 8,
            forall|j: int| 0 <= j < 8 ==> 0 <= #[trigger] pre[j] && pre[j] < P as i64,
            forall|j: int| 8 <= j < n ==> -(P as i64) < #[trigger] pre[j] && pre[j] < P as i64,
            forall|j: int| k <= j < n ==> #[trigger] state@[j] == pre[j],
            forall|j: int| 0 <= j < 5 ==> #[trigger] state@[j] == (sum + pre[j]) % (P as int),
            forall|j: int| 5 <= j < k ==> #[trigger] state@[j] == (sum - pre[j]) % (P as int),
            forall|j: int| 0 <= j < k ==> 0 <= #[trigger] state@[j] && state@[j] < P as i64,
        decreases 8 - k,
    {
        let v: i64 = state[k];
        state.set(k, sub_mod(sum, v as u32) as i64);
        k = k + 1;
    }
    let mut t: usize = 8;
    while t < n
        invariant
            8 <= t <= n,
            sum < P,
            state@.len() == n,
            n == pre.len(),
            forall|j: int| 8 <= j < n ==> -(P as i64) < #[trigger] pre[j] && pre[j] < P as i64,
            forall|j: int| t <= j < n ==> #[trigger] state@[j] == pre[j],
            forall|j: int| 0 <= j < 5 ==> #[trigger] state@[j] == (sum + pre[j]) % (P as int),
            forall|j: int| 5 <= j < 8 ==> #[trigger] state@[j] == (sum - pre[j]) % (P as int),
            forall|j: int| 8 <= j < t ==> #[trigger] state@[j] == (sum + pre[j]) % (P as int),
            forall|j: int| 0 <= j < t ==> 0 <= #[trigger] state@[j] && state@[j] < P as i64,
        decreases n - t,
    {
        let v: i64 = state[t];
        state.set(t, signed_add(sum, v) as i64);
        t = t + 1;
    }
}

/// The width-16 internal layer on the tail lanes: diagonal multiplication
/// immediately composed with the row-sum resolution. Equal, lane for lane
/// and for every canonical input, to the scalar reference
/// `(diag16(i) * lane + sum) % p`. The row sum must be the canonical sum
/// over the entire width-16 state, computed before this call.
pub fn internal_layer_16(state: &mut Vec<i64>, sum: u32)
    requires
        old(state)@.len() == 15,
        sum < P,
        forall|i: int|
            0 <= i < 15 ==> 0 <= #[trigger] old(state)@[i] && old(state)@[i] < P as i64,
    ensures
        final(state)@.len() == 15,
        forall|i: int| 0 <= i < 15 ==> 0 <= #[trigger] final(state)@[i] && final(state)@[i] < P as i64,
        forall|i: int|
            0 <= i < 15 ==> #[trigger] final(state)@[i] == scalar_lane(
                diag16(i),
                old(state)@[i] as int,
                sum as int,
            ),
{
    let ghost pre = state@;
    diagonal_mul_16(state);
    let ghost mid = state@;
    add_sum(state, sum);
    proof {
        let pi = P as int;
        let s = sum as int;
        lemma2_to64();
        lemma_small_mod(pre[0] as nat, P as nat);
        lemma_lane_const_add(mid[0] as int, pre[0] as int, 1, s);
        lemma_lane_const_add(mid[1] as int, pre[1] as int, 2, s);
        lemma_lane_pos_inv(mid[2] as int, pre[2] as int, 1, s);
        lemma_lane_const_add(mid[3] as int, pre[3] as int, 3, s);
        lemma_lane_const_add(mid[4] as int, pre[4] as int, 4, s);
        lemma_lane_sub_inv(mid[5] as int, pre[5] as int, 1, s);
        lemma_lane_const_sub(mid[6] as int, pre[6] as int, 3, s);
        lemma_lane_const_sub(mid[7] as int, pre[7] as int, 4, s);
        lemma_lane_pos_inv(mid[8] as int, pre[8] as int, 8, s);
        lemma_lane_neg_inv(mid[9] as int, pre[9] as int, 8, s);
        lemma_lane_pos_inv(mid[10] as int, pre[10] as int, 3, s);
        lemma_lane_neg_inv(mid[11] as int, pre[11] as int, 3, s);
        lemma_lane_neg_inv(mid[12] as int, pre[12] as int, 4, s);
        lemma_lane_pos_inv(mid[13] as int, pre[13] as int, 24, s);
        lemma_lane_neg_inv(mid[14] as int, pre[14] as int, 24, s);
    }
}

/// The width-24 internal layer on the tail lanes, composed and proved as
/// `internal_layer_16` is for its width.
pub fn internal_layer_24(state: &mut Vec<i64>, sum: u32)
    requires
        old(state)@.len() == 23,
        sum < P,
        forall|i: int|
            0 <= i < 23 ==> 0 <= #[trigger] old(state)@[i] && old(state)@[i] < P as i64,
    ensures
        final(state)@.len() == 23,
        forall|i: int| 0 <= i < 23 ==> 0 <= #[trigger] final(state)@[i] && final(state)@[i] < P as i64,
        forall|i: int|
            0 <= i < 23 ==> #[trigger] final(state)@[i] == scalar_lane(
                diag24(i),
                old(state)@[i] as int,
                sum as int,
            ),
{
    let ghost pre = state@;
    diagonal_mul_24(state);
    let ghost mid = state@;
    add_sum(state, sum);
    proof {
        let pi = P as int;
        let s = sum as int;
        lemma2_to64();
        lemma_small_mod(pre[0] as nat, P as nat);
        lemma_lane_const_add(mid[0] as int, pre[0] as int, 1, s);
        lemma_lane_const_add(mid[1] as int, pre[1] as int, 2, s);
        lemma_lane_pos_inv(mid[2] as int, pre[2] as int, 1, s);
        lemma_lane_const_add(mid[3] as int, pre[3] as int, 3, s);
        lemma_lane_const_add(mid[4] as int, pre[4] as int, 4, s);
        lemma_lane_sub_inv(mid[5] as int, pre[5] as int, 1, s);
        lemma_lane_const_sub(mid[6] as int, pre[6] as int, 3, s);
        lemma_lane_const_sub(mid[7] as int, pre[7] as int, 4, s);
        lemma_lane_pos_inv(mid[8] as int, pre[8] as int, 8, s);
        lemma_lane_neg_inv(mid[9] as int, pre[9] as int, 8, s);
        lemma_lane_pos_inv(mid[10] as int, pre[10] as int, 2, s);
        lemma_lane_pos_inv(mid[11] as int, pre[11] as int, 3, s);
        lemma_lane_neg_inv(mid[12] as int, pre[12] as int, 3, s);
        lemma_lane_pos_inv(mid[13] as int, pre[13] as int, 4, s);
        lemma_lane_neg_inv(mid[14] as int, pre[14] as int, 4, s);
        lemma_lane_pos_inv(mid[15] as int, pre[15] as int, 5, s);
        lemma_lane_neg_inv(mid[16] as int, pre[16] as int, 5, s);
        lemma_lane_pos_inv(mid[17] as int, pre[17] as int, 6, s);
        lemma_lane_neg_inv(mid[18] as int, pre[18] as int, 6, s);
        lemma_lane_neg_inv(mid[19] as int, pre[19] as int, 7, s);
        lemma_lane_neg_inv(mid[20] as int, pre[20] as int, 9, s);
        lemma_lane_pos_inv(mid[21] as int, pre[21] as int, 24, s);
        lemma_lane_neg_inv(mid[22] as int, pre[22] as int, 24, s);
    }
}

/// The scalar reference itself: one generic modular multiplication and
/// one modular addition per lane.
pub fn scalar_internal_layer(state: &Vec<i64>, diag: &Vec<u32>, sum: u32) -> (out: Vec<i64>)
    requires
        state@.len() == diag@.len(),
        sum < P,
        forall|i: int|
            0 <= i < state@.len() ==> 0 <= #[trigger] state@[i] && state@[i] < P as i64,
        forall|i: int| 0 <= i < diag@.len() ==> #[trigger] diag@[i] < P,
    ensures
        out@.len() == state@.len(),
        forall|i: int|
            0 <= i < out@.len() ==> #[trigger] out@[i] == scalar_lane(
                diag@[i] as int,
                state@[i] as int,
                sum as int,
            ),
{
    let n: usize = state.len();
    let mut out: Vec<i64> = Vec::new();
    let mut i: usize = 0;
    while i < n
        invariant
            i <= n,
            sum < P,
            n == state@.len(),
            n == diag@.len(),
            forall|j: int| 0 <= j < n ==> 0 <= #[trigger] state@[j] && state@[j] < P as i64,
            forall|j: int| 0 <= j < n ==> #[trigger] diag@[j] < P,
            out@.len() == i,
            forall|j: int|
                0 <= j < i ==> #[trigger] out@[j] == scalar_lane(
                    diag@[j] as int,
                    state@[j] as int,
                    sum as int,
                ),
        decreases n - i,
    {
        proof {
            reveal(scalar_lane);
            assert(0 <= diag@[i as int] as int * state@[i as int] as int
                && diag@[i as int] as int * state@[i as int] as int <= (P as int - 1) * (P as int
                - 1)) by (nonlinear_arith)
                requires
                    0 <= state@[i as int] as int,
                    (state@[i as int] as int) < P as int,
                    0 <= diag@[i as int] as int,
                    (diag@[i as int] as int) < P as int,
            ;
        }
        let prod: u64 = (diag[i] as u64) * (state[i] as u64) + (sum as u64);
        let red: u64 = prod % (P as u64);
        out.push(red as i64);
        i = i + 1;
    }
    out
}

/// The width-16 diagonal as a vector of canonical residues.
pub fn diag16_vec() -> (d: Vec<u32>)
    ensures
        d@.len() == 15,
        forall|i: int| 0 <= i < 15 ==> #[trigger] d@[i] == diag16(i),
        forall|i: int| 0 <= i < 15 ==> #[trigger] d@[i] < P,
{
    let mut d: Vec<u32> = Vec::new();
    d.push(1);
    d.push(2);
    d.push(1065353217);
    d.push(3);
    d.push(4);
    d.push(1065353216);
    d.push(2130706430);
    d.push(2130706429);
    d.push(2122383361);
    d.push(8323072);
    d.push(1864368129);
    d.push(266338304);
    d.push(133169152);
    d.push(2130706306);
    d.push(127);
    proof {
        lemma2_to64();
    }
    d
}

/// The width-24 diagonal as a vector of canonical residues.
pub fn diag24_vec() -> (d: Vec<u32>)
    ensures
        d@.len() == 23,
        forall|i: int| 0 <= i < 23 ==> #[trigger] d@[i] == diag24(i),
        forall|i: int| 0 <= i < 23 ==> #[trigger] d@[i] < P,
{
    let mut d: Vec<u32> = Vec::new();
    d.push(1);
    d.push(2);
    d.push(1065353217);
    d.push(3);
    d.push(4);
    d.push(1065353216);
    d.push(2130706430);
    d.push(2130706429);
    d.push(2122383361);
    d.push(8323072);
    d.push(1598029825);
    d.push(1864368129);
    d.push(266338304);
    d.push(1997537281);
    d.push(133169152);
    d.push(2064121857);
    d.push(66584576);
    d.push(2097414145);
    d.push(33292288);
    d.push(16646144);
    d.push(4161536);
    d.push(2130706306);
    d.push(127);
    proof {
        lemma2_to64();
    }
    d
}

} // verus!
