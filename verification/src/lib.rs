//! Duplex-sponge Fiat-Shamir challenger and the specialized internal linear
//! layer of the Poseidon2 permutation over the KoalaBear prime field.
//!
//! The field module holds the prime-specialized lane primitives (halving,
//! multiplication by inverse powers of two, signed addition) that avoid
//! general modular multiplication. The diagonal module composes them into
//! the fixed diagonal-matrix-plus-row-sum layer for widths 16 and 24 and
//! proves the composition equal to the scalar reference, lane for lane.
//! The permutation module states the capability any cryptographic
//! permutation must offer, and the challenger module builds the duplex
//! sponge on top of it.

pub mod challenger;
pub mod diagonal;
pub mod field;
pub mod permutation;
