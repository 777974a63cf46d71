use koala_duplex::diagonal::{
    add_sum, diag16_vec, diag24_vec, diagonal_mul_16, diagonal_mul_24, internal_layer_16,
    internal_layer_24, scalar_internal_layer,
};
use koala_duplex::field::{
    add_mod, halve, mul_2_exp_neg_8, mul_2_exp_neg_n, mul_neg_2_exp_neg_8, mul_neg_2_exp_neg_n,
    signed_add, sub_mod, ODD_FACTOR, P, TWO_ADICITY,
};
use koala_duplex::permutation::{Permutation, ReversePermutation};

fn sample_state(len: usize) -> Vec<i64> {
    let mut state: Vec<i64> = Vec::new();
    for i in 0..len {
        let v = (i as u64).wrapping_mul(2654435769).wrapping_add(12345) % (P as u64);
        state.push(v as i64);
    }
    state[0] = 0;
    if len > 1 {
        state[1] = (P - 1) as i64;
    }
    if len > 2 {
        state[2] = 1;
    }
    state
}

#[test]
fn vectorized_route_matches_scalar_reference_width_16() {
    for sum in [0u32, 1, 12345, P - 1] {
        let mut state = sample_state(15);
        let diag = diag16_vec();
        let expected = scalar_internal_layer(&state, &diag, sum);
        internal_layer_16(&mut state, sum);
        assert_eq!(state, expected);
    }
}

#[test]
fn vectorized_route_matches_scalar_reference_width_24() {
    for sum in [0u32, 1, 987654321, P - 1] {
        let mut state = sample_state(23);
        let diag = diag24_vec();
        let expected = scalar_internal_layer(&state, &diag, sum);
        internal_layer_24(&mut state, sum);
        assert_eq!(state, expected);
    }
}

#[test]
fn vectorized_route_matches_scalar_on_edge_lanes() {
    // All-zero and all-(p-1) states, both widths.
    for len in [15usize, 23] {
        let diag = if len == 15 { diag16_vec() } else { diag24_vec() };
        for lane in [0u32, P - 1] {
            let mut state: Vec<i64> = vec![lane as i64; len];
            let expected = scalar_internal_layer(&state, &diag, P - 1);
            if len == 15 {
                internal_layer_16(&mut state, P - 1);
            } else {
                internal_layer_24(&mut state, P - 1);
            }
            assert_eq!(state, expected);
        }
    }
}

#[test]
fn diagonal_then_sum_composes_like_the_layer() {
    let sum: u32 = 777;
    let mut composed = sample_state(15);
    internal_layer_16(&mut composed, sum);
    let mut staged = sample_state(15);
    diagonal_mul_16(&mut staged);
    add_sum(&mut staged, sum);
    assert_eq!(composed, staged);

    let mut composed24 = sample_state(23);
    internal_layer_24(&mut composed24, sum);
    let mut staged24 = sample_state(23);
    diagonal_mul_24(&mut staged24);
    add_sum(&mut staged24, sum);
    assert_eq!(composed24, staged24);
}

#[test]
fn prime_has_the_documented_shape() {
    assert_eq!(ODD_FACTOR as u64 * (1u64 << TWO_ADICITY) + 1, P as u64);
    assert_eq!(P, 2130706433);
}

#[test]
fn modular_add_sub_exact_values() {
    assert_eq!(add_mod(P - 1, 1), 0);
    assert_eq!(add_mod(P - 1, P - 1), P - 2);
    assert_eq!(add_mod(0, 0), 0);
    assert_eq!(sub_mod(0, 1), P - 1);
    assert_eq!(sub_mod(5, 3), 2);
}

#[test]
fn halving_exact_values() {
    assert_eq!(halve(4), 2);
    // Halving an odd lane adds p first: (1 + p) / 2 is the residue of 1/2.
    assert_eq!(halve(1), (P + 1) / 2);
    assert_eq!(halve(1), 1065353217);
    assert_eq!(halve(0), 0);
}

#[test]
fn byte_split_downshift_exact_values() {
    // 256 * 2^-8 is 1; the split gives hi = 1, lo = 0 directly.
    assert_eq!(mul_2_exp_neg_8(256), 1);
    // 1 * 2^-8 comes out as the negative representative -127 * 2^16.
    assert_eq!(mul_2_exp_neg_8(1), -8323072);
    assert_eq!(mul_neg_2_exp_neg_8(256), -1);
    assert_eq!(mul_neg_2_exp_neg_8(1), 8323072);
    // The results are representatives of x * 2^-8: multiplying back by
    // 2^8 recovers x modulo p.
    for x in [0u32, 1, 255, 256, 65535, P - 1] {
        let r = mul_2_exp_neg_8(x);
        assert_eq!((r * 256).rem_euclid(P as i64), x as i64);
        let rn = mul_neg_2_exp_neg_8(x);
        assert_eq!((rn * 256 + x as i64).rem_euclid(P as i64), 0);
    }
}

#[test]
fn generic_downshift_exact_values() {
    assert_eq!(mul_2_exp_neg_n(8, 3), 1);
    assert_eq!(mul_neg_2_exp_neg_n(8, 3), -1);
    assert_eq!(mul_2_exp_neg_n(16777216, 24), 1);
    // 1 * 2^-24 comes out as the negative representative -127.
    assert_eq!(mul_2_exp_neg_n(1, 24), -127);
    assert_eq!(mul_neg_2_exp_neg_n(1, 24), 127);
    for n in 1..=24u32 {
        for x in [0u32, 1, (1 << n) - 1, P - 1] {
            let r = mul_2_exp_neg_n(x, n);
            assert_eq!((r * (1i64 << n)).rem_euclid(P as i64), x as i64);
            let rn = mul_neg_2_exp_neg_n(x, n);
            assert_eq!((rn * (1i64 << n) + x as i64).rem_euclid(P as i64), 0);
        }
    }
}

#[test]
fn signed_addition_exact_values() {
    assert_eq!(signed_add(5, -7), P - 2);
    assert_eq!(signed_add(P - 1, 5), 4);
    assert_eq!(signed_add(0, 0), 0);
    assert_eq!(signed_add(0, -(P as i64 - 1)), 1);
}

#[test]
fn diagonal_tables_hold_the_protocol_constants() {
    let d16 = diag16_vec();
    let d24 = diag24_vec();
    assert_eq!(d16.len(), 15);
    assert_eq!(d24.len(), 23);
    // Entries that stand for 2^-k multiply back to 1, the negated ones
    // to p - 1.
    let checks16: [(usize, u64, u64); 7] = [
        (2, 2, 1),
        (5, 2, P as u64 - 1),
        (8, 256, 1),
        (9, 256, P as u64 - 1),
        (10, 8, 1),
        (12, 16, P as u64 - 1),
        (13, 1 << 24, 1),
    ];
    for (i, denom, expect) in checks16 {
        assert_eq!((d16[i] as u64 * denom) % (P as u64), expect);
    }
    assert_eq!(d16[0], 1);
    assert_eq!(d16[1], 2);
    assert_eq!(d16[3], 3);
    assert_eq!(d16[4], 4);
    assert_eq!(d16[6], P - 3);
    assert_eq!(d16[7], P - 4);
    let checks24: [(usize, u64, u64); 10] = [
        (10, 4, 1),
        (11, 8, 1),
        (12, 8, P as u64 - 1),
        (13, 16, 1),
        (14, 16, P as u64 - 1),
        (15, 32, 1),
        (17, 64, 1),
        (19, 128, P as u64 - 1),
        (20, 512, P as u64 - 1),
        (22, 1 << 24, P as u64 - 1),
    ];
    for (i, denom, expect) in checks24 {
        assert_eq!((d24[i] as u64 * denom) % (P as u64), expect);
    }
}

#[test]
fn reverse_permutation_reverses() {
    let p = ReversePermutation;
    let mut state: Vec<u32> = vec![1, 2, 3, 4, 5];
    p.permute(&mut state);
    assert_eq!(state, vec![5, 4, 3, 2, 1]);
    let mut empty: Vec<u32> = Vec::new();
    p.permute(&mut empty);
    assert!(empty.is_empty());
}
