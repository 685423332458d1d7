//! Random numbers.
use vstd::prelude::*;

verus! {

/// A random number of 32 bits, by `rand::random`. Any number may come.
#[verifier::external_body]
pub(crate) fn random_u32() -> (out: u32) {
    rand::random()
}

/// A random byte, by `rand::random`. Any byte may come.
#[verifier::external_body]
pub(crate) fn random_u8() -> (out: u8) {
    rand::random()
}

} // verus!
