//! The source of the random shift amounts.

use rand::rngs::{StdRng, ThreadRng};
use rand::{Rng, SeedableRng};
use vstd::prelude::*;

verus! {

/// `rand::rngs::ThreadRng`, the handle to the generator of a thread. Opaque.
#[verifier::external_type_specification]
#[verifier::external_body]
pub struct ExThreadRng(rand::rngs::ThreadRng);

/// `rand::rngs::StdRng`, the standard seedable generator. Opaque.
#[verifier::external_type_specification]
#[verifier::external_body]
pub struct ExStdRng(rand::rngs::StdRng);

/// One draw from a source: the bound that was given, and the number below it
/// that came back.
#[derive(Clone, Copy, Debug, PartialEq, Eq, Structural)]
pub struct Draw {
    pub bound: usize,
    pub value: usize,
}

/// The generator behind a source.
enum Generator {
    Thread(ThreadRng),
    Seeded(StdRng),
}

/// A generator of uniformly distributed shift amounts: either the generator
/// of the running thread, seeded by the system, or one that repeats the same
/// draws for the same seed. A source keeps account of what it was made from
/// and of every draw that was made from it.
pub struct RandomSource {
    generator: Generator,
    seed: Ghost<Option<u64>>,
    drawn: Ghost<Seq<Draw>>,
}

/// Calls `rand::thread_rng`, which hands out the generator of the running
/// thread, seeded by the system. Nothing is claimed of it. The call panics
/// where the system cannot seed the generator; no argument decides that.
#[verifier::external_body]
fn thread_generator() -> ThreadRng {
    rand::thread_rng()
}

/// Calls `rand::SeedableRng::seed_from_u64` for `StdRng`. Nothing is claimed
/// of the generator it builds.
#[verifier::external_body]
fn seeded_generator(seed: u64) -> StdRng {
    StdRng::seed_from_u64(seed)
}

/// Calls `rand::Rng::gen_range` with the range `0..bound` on the generator of
/// the thread. Trusted: the draw lies in the range. An empty range is left
/// out, since the call panics on it.
#[verifier::external_body]
fn thread_below(rng: &mut ThreadRng, bound: usize) -> (r: usize)
    requires
        bound > 0,
    ensures
        r < bound,
{
    rng.gen_range(0..bound)
}

/// Calls `rand::Rng::gen_range` with the range `0..bound` on a seeded
/// generator. Trusted: the draw lies in the range. An empty range is left
/// out, since the call panics on it.
#[verifier::external_body]
fn seeded_below(rng: &mut StdRng, bound: usize) -> (r: usize)
    requires
        bound > 0,
    ensures
        r < bound,
{
    rng.gen_range(0..bound)
}

impl RandomSource {
    /// The seed that the source was made from; none for the generator of a
    /// thread.
    pub closed spec fn seed(&self) -> Option<u64> {
        self.seed@
    }

    /// The draws made from the source so far, the first one first.
    pub closed spec fn drawn(&self) -> Seq<Draw> {
        self.drawn@
    }

    /// The generator of the running thread. Nothing has been drawn from the
    /// new source.
    pub fn thread() -> (source: RandomSource)
        ensures
            source.seed() is None,
            source.drawn() == Seq::<Draw>::empty(),
    {
        RandomSource {
            generator: Generator::Thread(thread_generator()),
            seed: Ghost(None),
            drawn: Ghost(Seq::empty()),
        }
    }

    /// A generator whose draws are fixed by `seed`. Nothing has been drawn
    /// from the new source.
    pub fn seeded(seed: u64) -> (source: RandomSource)
        ensures
            source.seed() == Some(seed),
            source.drawn() == Seq::<Draw>::empty(),
    {
        RandomSource {
            generator: Generator::Seeded(seeded_generator(seed)),
            seed: Ghost(Some(seed)),
            drawn: Ghost(Seq::empty()),
        }
    }

    /// Draws a number below `bound`. The draw is added to the account of the
    /// source.
    pub fn below(&mut self, bound: usize) -> (r: usize)
        requires
            bound > 0,
        ensures
            r < bound,
            final(self).seed() == old(self).seed(),
            final(self).drawn() == old(self).drawn().push(Draw { bound, value: r }),
    {
        let r = match &mut self.generator {
            Generator::Thread(rng) => thread_below(rng, bound),
            Generator::Seeded(rng) => seeded_below(rng, bound),
        };
        proof {
            self.drawn@ = self.drawn@.push(Draw { bound, value: r });
        }
        r
    }
}

} // verus!
