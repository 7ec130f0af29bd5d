use vstd::prelude::*;
use rand::rngs::ThreadRng;
use rand::seq::IteratorRandom;
use rand::Rng;

verus! {

/// The generator of random numbers that `rand` keeps for each thread. Nothing
/// is known of its state.
#[verifier::external_type_specification]
#[verifier::external_body]
pub struct ExThreadRng(ThreadRng);

/// `rand::thread_rng`: a handle to the calling thread's generator, which the
/// system seeds. Nothing is claimed of it. On its first use in a thread it
/// panics where the system has no seed to give, which no argument decides.
pub assume_specification[ rand::thread_rng ]() -> ThreadRng;

/// `Rng::gen` at type `bool`: one flip of a coin. Nothing is claimed of the
/// outcome. The thread's generator seeds itself anew from time to time, and
/// the call panics where the system then has no seed to give; no argument
/// decides that.
#[verifier::external_body]
pub(crate) fn flip(rng: &mut ThreadRng) -> bool {
    rng.gen()
}

/// `IteratorRandom::choose` on the places of `run`: one of them, drawn at
/// random. The contract claims what the method's documentation says, that
/// `None` comes back exactly for an empty run, and that a place which comes
/// back is one of the run. Which one is left open. As with `flip`, the call
/// panics where the generator cannot seed itself anew.
#[verifier::external_body]
pub(crate) fn pick_from(run: &Vec<(usize, usize)>, rng: &mut ThreadRng) -> (pick: Option<
    (usize, usize),
>)
    ensures
        pick is Some <==> run@.len() > 0,
        pick is Some ==> run@.contains(pick.unwrap()),
{
    run.iter().choose(rng).copied()
}

} // verus!
