use vstd::prelude::*;

verus! {

// The samplers own a handle to rand's thread-local generator, exactly one per
// instance, so successive calls on one instance consume one evolving stream of
// draws. The type is opaque here: nothing is assumed about the state inside.
#[verifier::external_type_specification]
#[verifier::external_body]
pub struct ExThreadRng(rand::rngs::ThreadRng);

/// Relies on rand::thread_rng: returns a handle to the thread-local generator.
/// Nothing is assumed about the handle's state.
#[verifier::external_body]
pub(crate) fn fresh_rng() -> rand::rngs::ThreadRng {
    rand::thread_rng()
}

/// Relies on Rng::gen_range over the half-open range 0..bound: the draw lies
/// in that range, and the call panics only on an empty range, which the
/// precondition rules out. Nothing is assumed about which value comes back.
#[verifier::external_body]
pub(crate) fn rand_below(rng: &mut rand::rngs::ThreadRng, bound: usize) -> (j: usize)
    requires
        bound >= 1,
    ensures
        j < bound,
{
    rand::Rng::gen_range(rng, 0..bound)
}

} // verus!
