//! Plain values that stand for on-chain words.

use vstd::prelude::*;

verus! {

/// A 160-bit account address, held as its upper 32 bits and its lower 128
/// bits. Two addresses are equal when both words are.
#[derive(Clone, Copy, Debug, PartialEq, Eq, Structural, Hash)]
pub struct Address {
    pub hi: u32,
    pub lo: u128,
}

impl Address {
    pub fn new(hi: u32, lo: u128) -> (a: Address)
        ensures
            a == (Address { hi, lo }),
    {
        Address { hi, lo }
    }
}

/// An unsigned 160-bit quantity (a square-root price in fixed point), held
/// as its upper 32 bits and its lower 128 bits.
#[derive(Clone, Copy, Debug, PartialEq, Eq, Structural, Hash)]
pub struct U160 {
    pub hi: u32,
    pub lo: u128,
}

/// The network whose pools are synchronised. It partitions the cache and
/// selects the deployment of each protocol family.
#[derive(Clone, Copy, Debug, PartialEq, Eq, Structural, Hash)]
pub enum Chain {
    Ethereum,
    Base,
}

} // verus!
