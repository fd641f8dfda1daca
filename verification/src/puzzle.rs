//! Plain data carried by the proof-of-work puzzle layer: the epoch counter
//! and a prover address, with their little-endian byte forms. The polynomial
//! commitments and proofs that accompany them belong to the out-of-scope
//! proving backend.

use vstd::prelude::*;
use crate::num::{le_of, lemma_pow256_le, lemma_pow256_8};

verus! {

/// One epoch of the puzzle: its number.
#[derive(Clone, Copy, Debug, PartialEq, Eq, Structural)]
pub struct EpochInfo {
    epoch_number: u64,
}

impl EpochInfo {
    /// The number of this epoch.
    pub closed spec fn spec_epoch_number(self) -> u64 {
        self.epoch_number
    }

    /// An epoch with the given number.
    pub fn new(epoch_number: u64) -> (r: EpochInfo)
        ensures
            r.spec_epoch_number() == epoch_number,
    {
        EpochInfo { epoch_number }
    }

    /// The epoch number as 8 little-endian bytes.
    pub fn to_bytes_le(&self) -> (r: [u8; 8])
        ensures
            r@ == le_of(self.spec_epoch_number() as nat, 8),
    {
        let v = crate::num::u64_to_le_bytes(self.epoch_number);
        let r = [v[0], v[1], v[2], v[3], v[4], v[5], v[6], v[7]];
        proof {
            assert(r@ =~= v@);
        }
        r
    }
}

/// A prover address, as its 32 raw bytes.
#[derive(Clone, Copy, Debug, PartialEq, Eq)]
pub struct Address(pub [u8; 32]);

impl Address {
    /// The raw little-endian bytes of the address.
    pub fn to_bytes_le(&self) -> (r: [u8; 32])
        ensures
            r@ == self.0@,
    {
        self.0
    }
}

} // verus!
