//! The duplex-sponge Fiat-Shamir challenger.
//!
//! A challenger turns a deterministic permutation into a transcript-driven
//! source of verifier challenges. Values observed by the protocol are
//! buffered and absorbed into the leading (rate) lanes of a persistent
//! state; the trailing lanes are the hidden capacity. Challenges are
//! squeezed from a buffered copy of the rate lanes, consumed in stack
//! order, and every observation discards buffered challenges so that a
//! sampled value always reflects the whole transcript so far.
//!
//! Every operation is pinned to a transition function on the mathematical
//! sponge (`Sponge`), so the stream of challenges is a pure function of
//! the permutation and the call sequence.

use vstd::prelude::*;
use vstd::pervasive::VecAdditionalExecFns;
use vstd::arithmetic::power2::*;
use vstd::arithmetic::div_mod::*;
use vstd::bits::*;
use crate::field::P;
use crate::permutation::Permutation;

verus! {

/// The mathematical state of a duplex sponge: fixed width and rate, the
/// persistent permutation state, and the two transient buffers.
#[verifier::ext_equal]
pub ghost struct Sponge {
    pub width: nat,
    pub rate: nat,
    pub state: Seq<u32>,
    pub input: Seq<u32>,
    pub output: Seq<u32>,
}

/// The sponge of a freshly constructed challenger: an all-zero state and
/// empty buffers.
pub open spec fn init_sponge(width: nat, rate: nat) -> Sponge {
    Sponge {
        width: width,
        rate: rate,
        state: Seq::new(width, |i: int| 0u32),
        input: Seq::empty(),
        output: Seq::empty(),
    }
}

/// Overwrite the leading lanes of the state with the buffered input,
/// leaving the capacity lanes untouched.
pub open spec fn absorb(state: Seq<u32>, input: Seq<u32>) -> Seq<u32> {
    Seq::new(state.len(), |i: int| if i < input.len() { input[i] } else { state[i] })
}

/// One duplexing cycle: merge the buffered input into the state, run the
/// permutation, and expose the leading rate lanes of the new state as the
/// output buffer, to be consumed from the end in stack order.
pub open spec fn duplex_step<Pm: Permutation>(p: Pm, m: Sponge) -> Sponge {
    let permuted = p.spec_permute(absorb(m.state, m.input));
    Sponge {
        width: m.width,
        rate: m.rate,
        state: permuted,
        input: Seq::empty(),
        output: permuted.take(m.rate as int),
    }
}

/// Observing a value first discards any buffered output (a sampled value
/// must reflect every prior observation), then appends the value to the
/// input buffer, duplexing at once when the buffer reaches the rate.
pub open spec fn observe_step<Pm: Permutation>(p: Pm, m: Sponge, value: u32) -> Sponge {
    let filled = Sponge {
        width: m.width,
        rate: m.rate,
        state: m.state,
        input: m.input.push(value),
        output: Seq::empty(),
    };
    if filled.input.len() == m.rate {
        duplex_step(p, filled)
    } else {
        filled
    }
}

/// Observing a sequence is element-wise observation, in order.
pub open spec fn observe_seq_step<Pm: Permutation>(p: Pm, m: Sponge, values: Seq<u32>) -> Sponge
    decreases values.len(),
{
    if values.len() == 0 {
        m
    } else {
        observe_seq_step(p, observe_step(p, m, values[0]), values.drop_first())
    }
}

/// One base-field sample: duplex when input is buffered (the challenge
/// must reflect it) or when the output buffer has run dry, then pop the
/// last buffered output lane.
pub open spec fn sample_step<Pm: Permutation>(p: Pm, m: Sponge) -> (u32, Sponge) {
    let ready = if m.input.len() > 0 || m.output.len() == 0 {
        duplex_step(p, m)
    } else {
        m
    };
    (
        ready.output.last(),
        Sponge {
            width: ready.width,
            rate: ready.rate,
            state: ready.state,
            input: ready.input,
            output: ready.output.drop_last(),
        },
    )
}

/// A run of consecutive base-field samples; the coordinates of one
/// extension-field sample of degree n are exactly such a run.
pub open spec fn sample_seq_step<Pm: Permutation>(p: Pm, m: Sponge, n: nat) -> (Seq<u32>, Sponge)
    decreases n,
{
    if n == 0 {
        (Seq::empty(), m)
    } else {
        let first = sample_step(p, m);
        let rest = sample_seq_step(p, first.1, (n - 1) as nat);
        (seq![first.0] + rest.0, rest.1)
    }
}

/// The views of a sequence of buffers, flattened in outer-then-inner order.
pub open spec fn flatten_views(values: Seq<Vec<u32>>) -> Seq<u32> {
    values.map_values(|v: Vec<u32>| v@).flatten()
}

/// A duplex challenger: a persistent sponge state of `width` lanes, the
/// transient input and output buffers (each at most `rate` lanes), and the
/// owned permutation instance.
pub struct DuplexChallenger<Pm: Permutation> {
    pub sponge_state: Vec<u32>,
    pub input_buffer: Vec<u32>,
    pub output_buffer: Vec<u32>,
    pub permutation: Pm,
    pub width: usize,
    pub rate: usize,
}

impl<Pm: Permutation> DuplexChallenger<Pm> {
    /// Every lane a challenger holds is a canonical field element.
    pub open spec fn lanes_canonical(self) -> bool {
        &&& forall|i: int| 0 <= i < self.sponge_state@.len() ==> self.sponge_state@[i] < P
        &&& forall|i: int| 0 <= i < self.input_buffer@.len() ==> self.input_buffer@[i] < P
        &&& forall|i: int| 0 <= i < self.output_buffer@.len() ==> self.output_buffer@[i] < P
    }

    /// Well-formedness between public operations: a positive rate no
    /// larger than the width, a state of exactly `width` lanes, an input
    /// buffer strictly below the rate (reaching it duplexes at once), an
    /// output buffer of at most `rate` lanes, and canonical lanes only.
    pub open spec fn wf(self) -> bool {
        &&& 0 < self.rate <= self.width
        &&& self.sponge_state@.len() == self.width
        &&& self.input_buffer@.len() < self.rate
        &&& self.output_buffer@.len() <= self.rate
        &&& self.lanes_canonical()
    }

    /// The mathematical sponge this challenger realizes.
    pub open spec fn sponge(self) -> Sponge {
        Sponge {
            width: self.width as nat,
            rate: self.rate as nat,
            state: self.sponge_state@,
            input: self.input_buffer@,
            output: self.output_buffer@,
        }
    }

    /// Construct a challenger over the given permutation, with an all-zero
    /// state and empty buffers.
    pub fn new(width: usize, rate: usize, permutation: Pm) -> (c: Self)
        requires
            0 < rate <= width,
        ensures
            c.wf(),
            c.sponge() == init_sponge(width as nat, rate as nat),
            c.permutation == permutation,
            c.width == width,
            c.rate == rate,
    {
        let mut state: Vec<u32> = Vec::new();
        let mut i: usize = 0;
        while i < width
            invariant
                i <= width,
                state@.len() == i,
                forall|j: int| 0 <= j < i ==> state@[j] == 0u32,
            decreases width - i,
        {
            state.push(0u32);
            i = i + 1;
        }
        proof {
            assert(state@ =~= Seq::new(width as nat, |k: int| 0u32));
        }
        let c = DuplexChallenger {
            sponge_state: state,
            input_buffer: Vec::new(),
            output_buffer: Vec::new(),
            permutation,
            width,
            rate,
        };
        proof {
            assert(c.sponge() =~= init_sponge(width as nat, rate as nat));
        }
        c
    }

    /// One duplexing cycle: drain the input buffer into the leading state
    /// lanes, permute the whole state in place, and refill the output
    /// buffer with the leading rate lanes of the new state.
    fn duplexing(&mut self)
        requires
            0 < old(self).rate <= old(self).width,
            old(self).sponge_state@.len() == old(self).width,
            old(self).input_buffer@.len() <= old(self).rate,
            old(self).output_buffer@.len() <= old(self).rate,
            old(self).lanes_canonical(),
        ensures
            final(self).wf(),
            final(self).permutation == old(self).permutation,
            final(self).width == old(self).width,
            final(self).rate == old(self).rate,
            final(self).sponge() == duplex_step(old(self).permutation, old(self).sponge()),
    {
        let ghost pre = *self;
        let n: usize = self.input_buffer.len();
        let mut i: usize = 0;
        while i < n
            invariant
                i <= n,
                self.width == pre.width,
                self.rate == pre.rate,
                self.permutation == pre.permutation,
                self.input_buffer@ == pre.input_buffer@,
                self.output_buffer@ == pre.output_buffer@,
                n == self.input_buffer@.len(),
                self.sponge_state@.len() == pre.sponge_state@.len(),
                n <= self.sponge_state@.len(),
                forall|j: int| 0 <= j < i ==> self.sponge_state@[j] == pre.input_buffer@[j],
                forall|j: int|
                    i <= j < self.sponge_state@.len() ==> self.sponge_state@[j]
                        == pre.sponge_state@[j],
            decreases n - i,
        {
            let v: u32 = self.input_buffer[i];
            self.sponge_state.set(i, v);
            i = i + 1;
        }
        proof {
            assert(self.sponge_state@ =~= absorb(pre.sponge_state@, pre.input_buffer@));
            assert forall|j: int| 0 <= j < self.sponge_state@.len() implies self.sponge_state@[j]
                < P by {
                if j < pre.input_buffer@.len() {
                    assert(self.sponge_state@[j] == pre.input_buffer@[j]);
                }
            };
        }
        self.input_buffer.clear();
        self.permutation.permute(&mut self.sponge_state);
        let ghost mid = *self;
        self.output_buffer.clear();
        let mut k: usize = 0;
        while k < self.rate
            invariant
                k <= self.rate,
                self.width == mid.width,
                self.rate == mid.rate,
                self.permutation == mid.permutation,
                self.sponge_state@ == mid.sponge_state@,
                self.input_buffer@ == mid.input_buffer@,
                self.rate <= self.sponge_state@.len(),
                self.output_buffer@.len() == k,
                forall|j: int| 0 <= j < k ==> self.output_buffer@[j] == self.sponge_state@[j],
            decreases self.rate - k,
        {
            let v: u32 = self.sponge_state[k];
            self.output_buffer.push(v);
            k = k + 1;
        }
        proof {
            assert(self.output_buffer@ =~= self.sponge_state@.take(self.rate as int));
            assert(self.sponge() =~= duplex_step(pre.permutation, pre.sponge()));
        }
    }

    /// Observe one field element: discard any buffered output, append the
    /// element to the input buffer, and duplex at once if the buffer has
    /// reached the rate.
    pub fn observe(&mut self, value: u32)
        requires
            old(self).wf(),
            value < P,
        ensures
            final(self).wf(),
            final(self).permutation == old(self).permutation,
            final(self).sponge() == observe_step(
                old(self).permutation,
                old(self).sponge(),
                value,
            ),
    {
        let ghost pre = *self;
        self.output_buffer.clear();
        self.input_buffer.push(value);
        if self.input_buffer.len() == self.rate {
            let ghost filled = *self;
            self.duplexing();
            proof {
                assert(filled.sponge() =~= Sponge {
                    width: pre.sponge().width,
                    rate: pre.sponge().rate,
                    state: pre.sponge().state,
                    input: pre.sponge().input.push(value),
                    output: Seq::empty(),
                });
                assert(self.sponge() =~= observe_step(pre.permutation, pre.sponge(), value));
            }
        } else {
            proof {
                assert(self.sponge() =~= observe_step(pre.permutation, pre.sponge(), value));
            }
        }
    }

    /// Observe a run of field elements, element-wise and in order.
    pub fn observe_slice(&mut self, values: &Vec<u32>)
        requires
            old(self).wf(),
            forall|i: int| 0 <= i < values@.len() ==> values@[i] < P,
        ensures
            final(self).wf(),
            final(self).permutation == old(self).permutation,
            final(self).sponge() == observe_seq_step(
                old(self).permutation,
                old(self).sponge(),
                values@,
            ),
    {
        let ghost pre = *self;
        let mut i: usize = 0;
        while i < values.len()
            invariant
                i <= values@.len(),
                self.wf(),
                self.permutation == pre.permutation,
                pre.wf(),
                forall|j: int| 0 <= j < values@.len() ==> values@[j] < P,
                self.sponge() == observe_seq_step(
                    pre.permutation,
                    pre.sponge(),
                    values@.take(i as int),
                ),
            decreases values@.len() - i,
        {
            let v: u32 = values[i];
            self.observe(v);
            proof {
                assert(values@.take(i + 1) =~= values@.take(i as int).push(values@[i as int]));
                lemma_observe_seq_snoc(
                    pre.permutation,
                    pre.sponge(),
                    values@.take(i as int),
                    values@[i as int],
                );
            }
            i = i + 1;
        }
        proof {
            assert(values@.take(values@.len() as int) =~= values@);
        }
    }

    /// Observe a sequence of sequences: equivalent, element for element,
    /// to observing the fully flattened sequence in outer-then-inner order.
    pub fn observe_nested(&mut self, values: &Vec<Vec<u32>>)
        requires
            old(self).wf(),
            forall|i: int, j: int|
                0 <= i < values@.len() && 0 <= j < values@[i]@.len() ==> values@[i]@[j] < P,
        ensures
            final(self).wf(),
            final(self).permutation == old(self).permutation,
            final(self).sponge() == observe_seq_step(
                old(self).permutation,
                old(self).sponge(),
                flatten_views(values@),
            ),
    {
        let ghost pre = *self;
        let mut i: usize = 0;
        while i < values.len()
            invariant
                i <= values@.len(),
                self.wf(),
                self.permutation == pre.permutation,
                pre.wf(),
                forall|a: int, b: int|
                    0 <= a < values@.len() && 0 <= b < values@[a]@.len() ==> values@[a]@[b] < P,
                self.sponge() == observe_seq_step(
                    pre.permutation,
                    pre.sponge(),
                    flatten_views(values@.take(i as int)),
                ),
            decreases values@.len() - i,
        {
            self.observe_slice(&values[i]);
            proof {
                lemma_flatten_views_snoc(values@.take(i as int), values@[i as int]);
                assert(values@.take(i + 1) =~= values@.take(i as int).push(values@[i as int]));
                lemma_observe_seq_concat(
                    pre.permutation,
                    pre.sponge(),
                    flatten_views(values@.take(i as int)),
                    values@[i as int]@,
                );
            }
            i = i + 1;
        }
        proof {
            assert(values@.take(values@.len() as int) =~= values@);
        }
    }

    /// Sample one base-field element: duplex if input is buffered or the
    /// output buffer is empty, then pop the last buffered output lane.
    pub fn sample_base(&mut self) -> (r: u32)
        requires
            old(self).wf(),
        ensures
            final(self).wf(),
            final(self).permutation == old(self).permutation,
            r == sample_step(old(self).permutation, old(self).sponge()).0,
            final(self).sponge() == sample_step(old(self).permutation, old(self).sponge()).1,
            r < P,
    {
        let ghost pre = *self;
        if self.input_buffer.len() > 0 || self.output_buffer.len() == 0 {
            self.duplexing();
        }
        let ghost ready = *self;
        let r: u32 = self.output_buffer.pop().unwrap();
        proof {
            assert(ready.sponge().output.len() > 0);
            assert(self.sponge() =~= sample_step(pre.permutation, pre.sponge()).1);
        }
        r
    }

    /// Sample one extension-field element of the given degree as its
    /// base-field coordinates, in order: exactly `degree` base-field
    /// sample steps.
    pub fn sample(&mut self, degree: usize) -> (coords: Vec<u32>)
        requires
            old(self).wf(),
        ensures
            final(self).wf(),
            final(self).permutation == old(self).permutation,
            coords@.len() == degree,
            coords@ == sample_seq_step(
                old(self).permutation,
                old(self).sponge(),
                degree as nat,
            ).0,
            final(self).sponge() == sample_seq_step(
                old(self).permutation,
                old(self).sponge(),
                degree as nat,
            ).1,
    {
        let ghost pre = *self;
        let mut coords: Vec<u32> = Vec::new();
        let mut i: usize = 0;
        while i < degree
            invariant
                i <= degree,
                self.wf(),
                self.permutation == pre.permutation,
                pre.wf(),
                coords@.len() == i,
                coords@ == sample_seq_step(pre.permutation, pre.sponge(), i as nat).0,
                self.sponge() == sample_seq_step(pre.permutation, pre.sponge(), i as nat).1,
            decreases degree - i,
        {
            let v: u32 = self.sample_base();
            coords.push(v);
            proof {
                lemma_sample_seq_snoc(pre.permutation, pre.sponge(), i as nat);
            }
            i = i + 1;
        }
        coords
    }

    /// Sample an integer uniform over `bits` bits: take one base-field
    /// sample's canonical representative and keep its low `bits` bits.
    /// The bit count must be below the machine word width and 2^bits must
    /// be below the field order.
    pub fn sample_bits(&mut self, bits: usize) -> (r: usize)
        requires
            old(self).wf(),
            bits < 64,
            pow2(bits as nat) < P,
        ensures
            final(self).wf(),
            final(self).permutation == old(self).permutation,
            r == sample_step(old(self).permutation, old(self).sponge()).0 as int % pow2(
                bits as nat,
            ) as int,
            final(self).sponge() == sample_step(old(self).permutation, old(self).sponge()).1,
            r < pow2(bits as nat),
    {
        let v: u32 = self.sample_base();
        proof {
            lemma_u64_pow2_no_overflow(bits as nat);
            lemma_u64_shl_is_mul(1u64, bits as u64);
            lemma_u64_low_bits_mask_is_mod(v as u64, bits as nat);
            lemma_pow2_pos(bits as nat);
            lemma_mod_bound(v as int, pow2(bits as nat) as int);
        }
        let mask: u64 = (1u64 << (bits as u64)) - 1u64;
        let r: u64 = (v as u64) & mask;
        r as usize
    }
}

/// Appending one value to an observed sequence observes it last.
proof fn lemma_observe_seq_snoc<Pm: Permutation>(p: Pm, m: Sponge, values: Seq<u32>, v: u32)
    ensures
        observe_seq_step(p, m, values.push(v)) == observe_step(
            p,
            observe_seq_step(p, m, values),
            v,
        ),
    decreases values.len(),
{
    if values.len() == 0 {
        assert(values.push(v).drop_first() =~= Seq::<u32>::empty());
        assert(values.push(v)[0] == v);
        assert(observe_seq_step(p, m, values) == m);
        assert(observe_seq_step(p, m, values.push(v)) == observe_seq_step(
            p,
            observe_step(p, m, v),
            Seq::<u32>::empty(),
        ));
        assert(observe_seq_step(p, observe_step(p, m, v), Seq::<u32>::empty()) == observe_step(
            p,
            m,
            v,
        ));
    } else {
        assert(values.push(v)[0] == values[0]);
        assert(values.push(v).drop_first() =~= values.drop_first().push(v));
        assert(observe_seq_step(p, m, values.push(v)) == observe_seq_step(
            p,
            observe_step(p, m, values[0]),
            values.drop_first().push(v),
        ));
        assert(observe_seq_step(p, m, values) == observe_seq_step(
            p,
            observe_step(p, m, values[0]),
            values.drop_first(),
        ));
        lemma_observe_seq_snoc(p, observe_step(p, m, values[0]), values.drop_first(), v);
    }
}

/// Observing a concatenation observes the left part, then the right part.
proof fn lemma_observe_seq_concat<Pm: Permutation>(p: Pm, m: Sponge, a: Seq<u32>, b: Seq<u32>)
    ensures
        observe_seq_step(p, m, a + b) == observe_seq_step(p, observe_seq_step(p, m, a), b),
    decreases a.len(),
{
    if a.len() == 0 {
        assert(a + b =~= b);
        assert(observe_seq_step(p, m, a) == m);
    } else {
        assert((a + b)[0] == a[0]);
        assert((a + b).drop_first() =~= a.drop_first() + b);
        if (a + b).len() == 0 {
        } else {
            assert(observe_seq_step(p, m, a + b) == observe_seq_step(
                p,
                observe_step(p, m, a[0]),
                a.drop_first() + b,
            ));
        }
        assert(observe_seq_step(p, m, a) == observe_seq_step(
            p,
            observe_step(p, m, a[0]),
            a.drop_first(),
        ));
        lemma_observe_seq_concat(p, observe_step(p, m, a[0]), a.drop_first(), b);
    }
}

/// Flattening after appending one buffer appends that buffer's lanes.
proof fn lemma_flatten_views_snoc(values: Seq<Vec<u32>>, x: Vec<u32>)
    ensures
        flatten_views(values.push(x)) == flatten_views(values) + x@,
    decreases values.len(),
{
    let f = |v: Vec<u32>| v@;
    assert(values.push(x).map_values(f) =~= values.map_values(f).push(x@));
    values.map_values(f).lemma_flatten_and_flatten_alt_are_equivalent();
    values.map_values(f).push(x@).lemma_flatten_and_flatten_alt_are_equivalent();
    assert(values.map_values(f).push(x@).drop_last() =~= values.map_values(f));
}

/// One more consecutive sample extends the run by the next popped lane.
proof fn lemma_sample_seq_snoc<Pm: Permutation>(p: Pm, m: Sponge, n: nat)
    ensures
        sample_seq_step(p, m, n + 1).0 == sample_seq_step(p, m, n).0.push(
            sample_step(p, sample_seq_step(p, m, n).1).0,
        ),
        sample_seq_step(p, m, n + 1).1 == sample_step(p, sample_seq_step(p, m, n).1).1,
    decreases n,
{
    let first = sample_step(p, m);
    assert(sample_seq_step(p, m, n + 1).0 == seq![first.0] + sample_seq_step(p, first.1, n).0);
    assert(sample_seq_step(p, m, n + 1).1 == sample_seq_step(p, first.1, n).1);
    if n == 0 {
        assert(sample_seq_step(p, m, 0) == (Seq::<u32>::empty(), m));
        assert(sample_seq_step(p, first.1, 0) == (Seq::<u32>::empty(), first.1));
        assert(sample_seq_step(p, m, 1).0 =~= Seq::<u32>::empty().push(first.0));
    } else {
        assert(sample_seq_step(p, m, n).0 == seq![first.0] + sample_seq_step(
            p,
            first.1,
            (n - 1) as nat,
        ).0);
        assert(sample_seq_step(p, m, n).1 == sample_seq_step(p, first.1, (n - 1) as nat).1);
        lemma_sample_seq_snoc(p, first.1, (n - 1) as nat);
        assert(sample_seq_step(p, m, n + 1).0 =~= sample_seq_step(p, m, n).0.push(
            sample_step(p, sample_seq_step(p, m, n).1).0,
        ));
    }
}

/// A sample taken while no output is buffered always duplexes first: the
/// value returned is a lane of the freshly permuted state, with every
/// buffered observation absorbed, never a stale lane.
pub proof fn lemma_sample_duplexes_first<Pm: Permutation>(p: Pm, m: Sponge)
    requires
        m.output.len() == 0,
        m.rate >= 1,
        p.spec_permute(absorb(m.state, m.input)).len() >= m.rate,
    ensures
        sample_step(p, m).0 == p.spec_permute(absorb(m.state, m.input))[m.rate - 1],
{
    let permuted = p.spec_permute(absorb(m.state, m.input));
    assert(permuted.take(m.rate as int).last() == permuted[m.rate - 1]);
}

/// Observation invalidates buffered output: the sponge after an
/// observation, and hence anything sampled after it, does not depend on
/// whatever output lanes were buffered before the observation.
pub proof fn lemma_observe_invalidates_output<Pm: Permutation>(
    p: Pm,
    m1: Sponge,
    m2: Sponge,
    value: u32,
)
    requires
        m1.width == m2.width,
        m1.rate == m2.rate,
        m1.state == m2.state,
        m1.input == m2.input,
    ensures
        observe_step(p, m1, value) == observe_step(p, m2, value),
        sample_step(p, observe_step(p, m1, value)) == sample_step(p, observe_step(p, m2, value)),
{
}

/// One protocol call to a challenger: observe one value, or sample one
/// base-field element.
pub enum TranscriptCall {
    Observe(u32),
    Sample,
}

/// Run a call sequence against a sponge, collecting the sampled stream.
pub open spec fn run_calls<Pm: Permutation>(p: Pm, m: Sponge, calls: Seq<TranscriptCall>) -> (
    Seq<u32>,
    Sponge,
)
    decreases calls.len(),
{
    if calls.len() == 0 {
        (Seq::empty(), m)
    } else {
        match calls[0] {
            TranscriptCall::Observe(v) => run_calls(p, observe_step(p, m, v), calls.drop_first()),
            TranscriptCall::Sample => {
                let first = sample_step(p, m);
                let rest = run_calls(p, first.1, calls.drop_first());
                (seq![first.0] + rest.0, rest.1)
            },
        }
    }
}

/// Determinism of the transcript: two challengers whose permutations agree
/// pointwise produce, from equal sponges, identical sample streams for any
/// shared call sequence. In particular two independently constructed
/// challengers over the same permutation agree call for call.
pub proof fn lemma_deterministic<P1: Permutation, P2: Permutation>(
    p1: P1,
    p2: P2,
    m: Sponge,
    calls: Seq<TranscriptCall>,
)
    requires
        forall|s: Seq<u32>| p1.spec_permute(s) == p2.spec_permute(s),
    ensures
        run_calls(p1, m, calls) == run_calls(p2, m, calls),
    decreases calls.len(),
{
    if calls.len() > 0 {
        match calls[0] {
            TranscriptCall::Observe(v) => {
                assert(observe_step(p1, m, v) == observe_step(p2, m, v));
                lemma_deterministic(p1, p2, observe_step(p1, m, v), calls.drop_first());
            },
            TranscriptCall::Sample => {
                assert(sample_step(p1, m) == sample_step(p2, m));
                lemma_deterministic(p1, p2, sample_step(p1, m).1, calls.drop_first());
            },
        }
    }
}

} // verus!
