use vstd::prelude::*;

verus! {

/// Identifies one fork within a channel. Handle zero is the root fork.
#[derive(Clone, Copy, Debug, PartialEq, Eq, Hash, Structural)]
pub struct ForkHandle(pub u32);

/// The static identities of the two item types a fork carries: `construct`
/// is what its constructing end reads (the deconstructing end sends it),
/// `deconstruct` is what its deconstructing end reads.
#[derive(Clone, Copy, Debug, PartialEq, Eq, Hash, Structural)]
pub struct TypePair {
    pub construct: u64,
    pub deconstruct: u64,
}

} // verus!
