//! The set of detection indices that a tracking cycle has already handed out,
//! kept in an FNV-hashed `HashSet`.

use fnv::FnvHashSet;
use fnv::FnvHasher;
use std::hash::BuildHasherDefault;
use vstd::prelude::*;

verus! {

/// `fnv::FnvHasher`, the hasher of the index set. Opaque: only the set
/// itself is ever handled.
#[verifier::external_type_specification]
#[verifier::external_body]
pub struct ExFnvHasher(FnvHasher);

/// `std::hash::BuildHasherDefault`, which makes the set's hashers. Opaque.
#[verifier::external_type_specification]
#[verifier::external_body]
#[verifier::reject_recursive_types(H)]
pub struct ExBuildHasherDefault<H>(BuildHasherDefault<H>);

/// `HashSet::insert` on a set hashed with `fnv::FnvHasher`. Trusted: the
/// hasher is a pure function of the bytes written to it, so the set behaves
/// as a mathematical set of indices and afterwards holds `index` besides
/// what it held before.
#[verifier::external_body]
pub(crate) fn mark_taken(taken: &mut FnvHashSet<usize>, index: usize)
    ensures
        final(taken)@ == old(taken)@.insert(index),
{
    taken.insert(index);
}

/// `HashSet::contains` on a set hashed with `fnv::FnvHasher`. Trusted:
/// membership is reported exactly.
#[verifier::external_body]
pub(crate) fn is_taken(taken: &FnvHashSet<usize>, index: usize) -> (r: bool)
    ensures
        r == taken@.contains(index),
{
    taken.contains(&index)
}

} // verus!
