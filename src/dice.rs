//! The die source: uniform faces drawn from a random word.
//!
//! A source is either backed by the thread's own non-deterministic generator
//! or by a generator seeded by the caller, whose stream of faces is then
//! reproducible.

use vstd::prelude::*;
use rand::rngs::StdRng;

verus! {

#[verifier::external_type_specification]
#[verifier::external_body]
pub struct ExStdRng(rand::rngs::StdRng);

/// Relies on `rand::random::<usize>`: a word drawn from the thread-local
/// generator; nothing is promised of its value.
#[verifier::external_body]
fn thread_word() -> usize {
    rand::random::<usize>()
}

/// Relies on rand's `SeedableRng::seed_from_u64` for `StdRng`: a generator
/// whose whole stream is fixed by the seed.
#[verifier::external_body]
fn seeded_rng(seed: u64) -> (r: StdRng) {
    <StdRng as rand::SeedableRng>::seed_from_u64(seed)
}

/// Relies on rand's `Rng::gen::<usize>` on a `StdRng`: the next word of the
/// generator's stream; nothing is promised of its value.
#[verifier::external_body]
fn next_word(rng: &mut StdRng) -> usize {
    rand::Rng::gen::<usize>(rng)
}

/// The face that a random word stands for on a die with `num_sides` sides.
pub fn face_of(word: usize, num_sides: usize) -> (r: usize)
    requires
        num_sides >= 1,
    ensures
        r == 1 + word % num_sides,
        1 <= r <= num_sides,
{
    1 + word % num_sides
}

/// Rolls one die with `num_sides` sides on the thread's own generator.
pub fn roll(num_sides: usize) -> (r: usize)
    requires
        num_sides >= 1,
    ensures
        1 <= r <= num_sides,
{
    face_of(thread_word(), num_sides)
}

/// A source of die faces, owned by one trial or one worker.
pub struct DieSource {
    seeded: Option<StdRng>,
}

impl DieSource {
    /// Whether the faces come from a caller-seeded generator.
    pub closed spec fn is_seeded(&self) -> bool {
        self.seeded is Some
    }

    /// A source backed by the thread's non-deterministic generator.
    pub fn new() -> (r: DieSource)
        ensures
            !r.is_seeded(),
    {
        DieSource { seeded: None }
    }

    /// A source whose faces are fixed by `seed`.
    pub fn seeded(seed: u64) -> (r: DieSource)
        ensures
            r.is_seeded(),
    {
        DieSource { seeded: Some(seeded_rng(seed)) }
    }

    /// Rolls one die with `num_sides` sides.
    pub fn roll(&mut self, num_sides: usize) -> (r: usize)
        requires
            num_sides >= 1,
        ensures
            1 <= r <= num_sides,
            final(self).is_seeded() == old(self).is_seeded(),
    {
        let word = match &mut self.seeded {
            Some(rng) => next_word(rng),
            None => thread_word(),
        };
        face_of(word, num_sides)
    }
}

} // verus!
