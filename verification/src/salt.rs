//! Source of the random 64-bit salts the handshake exchanges.

use rand::Rng;
use vstd::prelude::*;

verus! {

/// Relies on the rand crate (`thread_rng` and `Rng::gen`) for a fresh
/// 64-bit value; nothing is promised of the outcome.
#[verifier::external_body]
pub fn random_u64() -> u64 {
    rand::thread_rng().gen()
}

} // verus!
