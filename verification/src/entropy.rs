//! Random words for seeding animation phases, drawn from `rand`'s small
//! generator.

use rand::rngs::SmallRng;
use rand::Rng;
use rand::SeedableRng;
use vstd::prelude::*;

verus! {

/// `rand::rngs::SmallRng`. Opaque: nothing is known of its state.
#[verifier::external_type_specification]
#[verifier::external_body]
pub struct ExSmallRng(SmallRng);

/// `SmallRng::from_rng` fed by `rand::rng()`, the thread-local generator.
/// Nothing is claimed of the generator that comes back. The thread-local
/// generator fails to start only where the operating system has no entropy
/// to give.
#[verifier::external_body]
pub(crate) fn fresh_generator() -> SmallRng {
    SmallRng::from_rng(&mut rand::rng())
}

/// `Rng::random::<u32>` on the small generator. Nothing is claimed of the
/// word: callers are verified for every value of it.
#[verifier::external_body]
pub(crate) fn next_word(rng: &mut SmallRng) -> u32 {
    rng.random::<u32>()
}

} // verus!
