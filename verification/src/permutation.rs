//! The capability a cryptographic permutation must offer: transform a
//! fixed-width state of canonical field elements in place, as a pure
//! function of the input. Determinism is inherent: the executable
//! transform is pinned to a specification-level function of the state,
//! so any two conforming implementations that agree on that function
//! are interchangeable.

use vstd::prelude::*;
use crate::field::P;

verus! {

/// A deterministic in-place transform of a state of canonical lanes.
///
/// `spec_permute` is the mathematical content of the permutation; the
/// executable `permute` must realize exactly it, preserve the state
/// length, and keep every lane canonical.
pub trait Permutation: Sized {
    /// The permutation as a pure function on sequences of lanes.
    spec fn spec_permute(&self, s: Seq<u32>) -> Seq<u32>;

    /// Transform the state in place.
    fn permute(&self, state: &mut Vec<u32>)
        requires
            forall|i: int| 0 <= i < old(state)@.len() ==> old(state)@[i] < P,
        ensures
            final(state)@ == self.spec_permute(old(state)@),
            final(state)@.len() == old(state)@.len(),
            forall|i: int| 0 <= i < final(state)@.len() ==> final(state)@[i] < P,
    ;
}

/// A trivial permutation that reverses the state array. It is no
/// cryptographic object; it exists so that the sponge protocol can be
/// exercised against a transform whose effect is easy to predict.
#[derive(Clone, Copy)]
pub struct ReversePermutation;

impl Permutation for ReversePermutation {
    open spec fn spec_permute(&self, s: Seq<u32>) -> Seq<u32> {
        s.reverse()
    }

    fn permute(&self, state: &mut Vec<u32>) {
        let n: usize = state.len();
        let mut out: Vec<u32> = Vec::new();
        let mut i: usize = n;
        while i > 0
            invariant
                i <= n,
                n == state@.len(),
                state@ == old(state)@,
                out@.len() == n - i,
                forall|j: int| 0 <= j < out@.len() ==> out@[j] == state@[n - 1 - j],
            decreases i,
        {
            i = i - 1;
            let v: u32 = state[i];
            out.push(v);
        }
        proof {
            assert(out@ =~= old(state)@.reverse());
        }
        *state = out;
    }
}

} // verus!
