use vstd::prelude::*;
use rand::Rng;

verus! {

/// The thread-local random number generator of `rand`.
#[verifier::external_type_specification]
#[verifier::external_body]
pub struct ExThreadRng(rand::ThreadRng);

/// Calls `rand::thread_rng`, which hands out the generator of the current thread,
/// seeding it from the operating system on first use. Nothing is claimed of the
/// generator's state; the call panics when the system offers no entropy, which no
/// clause here rules out.
#[verifier::external_body]
pub(crate) fn thread_generator() -> rand::ThreadRng {
    rand::thread_rng()
}

/// Calls `Rng::shuffle`, which permutes the elements in place: the result holds
/// the same elements, each as often as before, in an order that rests on chance.
#[verifier::external_body]
pub(crate) fn shuffle_indices(random: &mut rand::ThreadRng, values: &mut Vec<usize>)
    ensures
        final(values)@.to_multiset() == old(values)@.to_multiset(),
{
    random.shuffle(values.as_mut_slice())
}

/// Calls `Rng::gen::<bool>`, a coin flip: nothing is claimed of the result.
#[verifier::external_body]
pub(crate) fn coin_flip(random: &mut rand::ThreadRng) -> bool {
    random.gen::<bool>()
}

} // verus!
