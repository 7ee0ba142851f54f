use vstd::prelude::*;

verus! {

/// Draws a number from the `rand` crate's thread-local generator
/// (`rand::random::<u64>()`). Nothing is claimed of the value: any `u64`
/// may come back, and two calls may differ.
#[verifier::external_body]
pub(crate) fn random_u64() -> u64 {
    rand::random::<u64>()
}

} // verus!
