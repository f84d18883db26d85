use vstd::prelude::*;

verus! {

/// Relies on rand's `SliceRandom::shuffle` with the thread-local generator: it
/// only swaps elements, so the result is a permutation of the input.
#[verifier::external_body]
pub(crate) fn shuffle<T>(v: &mut Vec<T>)
    ensures
        final(v)@.to_multiset() == old(v)@.to_multiset(),
{
    rand::seq::SliceRandom::shuffle(v.as_mut_slice(), &mut rand::thread_rng());
}

/// Relies on `rand::random::<usize>`: any value may come back.
#[verifier::external_body]
pub(crate) fn random_usize() -> (r: usize) {
    rand::random::<usize>()
}

} // verus!
