//! The seeded generator that random replacement and synthetic traces draw from.
use rand::rngs::StdRng;
use rand::seq::SliceRandom;
use rand::Rng;
use rand::RngCore;
use rand::SeedableRng;
use vstd::prelude::*;

verus! {

/// rand's standard generator, carried through the simulation as an opaque value.
#[verifier::external_type_specification]
#[verifier::external_body]
pub struct ExStdRng(StdRng);

/// Relies on `rand::SeedableRng::seed_from_u64` for `StdRng`: a generator whose
/// stream is fixed by the seed.
#[verifier::external_body]
pub(crate) fn seeded_generator(seed: u64) -> StdRng {
    StdRng::seed_from_u64(seed)
}

/// Relies on `rand::thread_rng().next_u64()`: a seed drawn from the process's
/// entropy source. Nothing is known of its value.
#[verifier::external_body]
pub(crate) fn entropy_seed() -> u64 {
    rand::thread_rng().next_u64()
}

/// Relies on `rand::Rng::gen::<u32>`: one uniformly drawn 32-bit value.
#[verifier::external_body]
pub(crate) fn draw_u32(rng: &mut StdRng) -> u32 {
    rng.gen::<u32>()
}

/// Relies on `rand::seq::SliceRandom::choose` on a slice: `None` for an empty
/// slice, otherwise one of its elements, drawn with `rng`.
#[verifier::external_body]
pub(crate) fn choose_from(items: &Vec<usize>, rng: &mut StdRng) -> (r: Option<usize>)
    ensures
        r is None <==> items@.len() == 0,
        r matches Some(x) ==> items@.contains(x),
{
    items.as_slice().choose(rng).copied()
}

/// A way number below `ways`, drawn with `rng` exactly as rand draws one
/// element of a slice of `ways` elements.
pub fn random_way(ways: usize, rng: &mut StdRng) -> (r: usize)
    requires
        ways > 0,
    ensures
        r < ways,
{
    let mut items: Vec<usize> = Vec::new();
    let mut i: usize = 0;
    while i < ways
        invariant
            i <= ways,
            items@.len() == i,
            forall|j: int| 0 <= j < i ==> items@[j] == j,
        decreases ways - i,
    {
        items.push(i);
        i = i + 1;
    }
    match choose_from(&items, rng) {
        Some(w) => w,
        None => 0,
    }
}

} // verus!
