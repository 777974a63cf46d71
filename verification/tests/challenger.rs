use koala_duplex::challenger::DuplexChallenger;
use koala_duplex::field::P;
use koala_duplex::permutation::ReversePermutation;

const WIDTH: usize = 24;
const RATE: usize = 16;

fn new_challenger() -> DuplexChallenger<ReversePermutation> {
    DuplexChallenger::new(WIDTH, RATE, ReversePermutation)
}

#[test]
fn test_duplex_challenger() {
    let mut duplex_challenger = new_challenger();

    // Observe 12 elements.
    for element in 0..12u32 {
        duplex_challenger.observe(element);
    }

    let mut state_after_duplexing: Vec<u32> = (0..12u32).chain(std::iter::repeat(0).take(12)).collect();
    state_after_duplexing.reverse();
    let mut expected_samples: Vec<u32> = state_after_duplexing[..16].to_vec();
    expected_samples.reverse();

    let mut samples: Vec<u32> = Vec::new();
    for _ in 0..16 {
        samples.push(duplex_challenger.sample_base());
    }
    assert_eq!(samples, expected_samples);
}

#[test]
fn sample_duplexes_before_returning() {
    // Fewer observations than the rate: the output buffer is still empty,
    // so the first sample must run the permutation before returning.
    let mut c: DuplexChallenger<ReversePermutation> = DuplexChallenger::new(2, 2, ReversePermutation);
    c.observe(7);
    assert!(c.output_buffer.is_empty());
    // Absorbing [7] over [0, 0] gives [7, 0]; reversing gives [0, 7]; the
    // sample pops the last buffered lane.
    assert_eq!(c.sample_base(), 7);
}

#[test]
fn observe_invalidates_buffered_output() {
    let mut c: DuplexChallenger<ReversePermutation> = DuplexChallenger::new(2, 2, ReversePermutation);
    c.observe(7);
    assert_eq!(c.sample_base(), 7);
    // One stale lane (a zero) is still buffered here.
    assert_eq!(c.output_buffer.len(), 1);
    c.observe(9);
    assert!(c.output_buffer.is_empty());
    // The next sample reflects the new observation: absorbing [9] over
    // [0, 7] gives [9, 7]; reversing gives [7, 9]; the pop returns 9,
    // not the stale 0 buffered before the observation.
    assert_eq!(c.sample_base(), 9);
}

#[test]
fn identical_call_sequences_agree() {
    let mut a = new_challenger();
    let mut b = new_challenger();
    for element in 0..20u32 {
        a.observe(element * 17 + 3);
        b.observe(element * 17 + 3);
    }
    for _ in 0..5 {
        assert_eq!(a.sample_base(), b.sample_base());
    }
    a.observe(41);
    b.observe(41);
    assert_eq!(a.sample_bits(10), b.sample_bits(10));
    assert_eq!(a.sample(4), b.sample(4));
    for _ in 0..20 {
        assert_eq!(a.sample_base(), b.sample_base());
    }
}

#[test]
fn sample_bits_in_range() {
    for bits in [0usize, 1, 3, 8, 16, 30] {
        let mut c = new_challenger();
        for element in 0..9u32 {
            c.observe(element.wrapping_mul(2654435769) % P);
        }
        let r = c.sample_bits(bits);
        assert!(r < (1usize << bits));
    }
}

#[test]
fn sample_bits_masks_low_bits() {
    let mut c: DuplexChallenger<ReversePermutation> = DuplexChallenger::new(2, 2, ReversePermutation);
    c.observe(1023);
    // The sampled base element is 1023; its low four bits are kept.
    assert_eq!(c.sample_bits(4), 15);
    let mut d: DuplexChallenger<ReversePermutation> = DuplexChallenger::new(2, 2, ReversePermutation);
    d.observe(1023);
    assert_eq!(d.sample_bits(0), 0);
}

#[test]
fn nested_observation_equals_flattened() {
    let nested: Vec<Vec<u32>> = vec![vec![1, 2], vec![3], vec![], vec![4, 5, 6], vec![7]];
    let flat: Vec<u32> = vec![1, 2, 3, 4, 5, 6, 7];
    let mut a = new_challenger();
    let mut b = new_challenger();
    a.observe_nested(&nested);
    b.observe_slice(&flat);
    assert_eq!(a.sponge_state, b.sponge_state);
    assert_eq!(a.input_buffer, b.input_buffer);
    assert_eq!(a.output_buffer, b.output_buffer);
    for _ in 0..10 {
        assert_eq!(a.sample_base(), b.sample_base());
    }
}

#[test]
fn extension_sample_is_base_sample_per_coordinate() {
    let degree: usize = 3;
    let mut a = new_challenger();
    let mut b = new_challenger();
    for element in 0..7u32 {
        a.observe(element + 100);
        b.observe(element + 100);
    }
    let coords = a.sample(degree);
    assert_eq!(coords.len(), degree);
    for coordinate in coords {
        assert_eq!(coordinate, b.sample_base());
    }
}

#[test]
fn observing_exactly_rate_duplexes_at_once() {
    let mut c: DuplexChallenger<ReversePermutation> = DuplexChallenger::new(4, 2, ReversePermutation);
    c.observe(5);
    assert_eq!(c.input_buffer.len(), 1);
    c.observe(6);
    // Reaching the rate drained the buffer and refilled the output.
    assert_eq!(c.input_buffer.len(), 0);
    assert_eq!(c.output_buffer.len(), 2);
    // Absorbing [5, 6] over [0, 0, 0, 0] gives [5, 6, 0, 0]; reversed it
    // is [0, 0, 6, 5]; the output buffer holds the first two lanes.
    assert_eq!(c.output_buffer, vec![0, 0]);
    assert_eq!(c.sponge_state, vec![0, 0, 6, 5]);
}

#[test]
fn rate_equal_to_width_is_allowed() {
    let mut c: DuplexChallenger<ReversePermutation> = DuplexChallenger::new(3, 3, ReversePermutation);
    c.observe(1);
    c.observe(2);
    c.observe(3);
    assert_eq!(c.sample_base(), 1);
    assert_eq!(c.sample_base(), 2);
    assert_eq!(c.sample_base(), 3);
}
