//! The calls into the `rand` crate. Verus takes their contracts on trust.
use rand::rngs::StdRng;
use rand::seq::SliceRandom;
use rand::Rng;
use rand::SeedableRng;
use vstd::prelude::*;

verus! {

/// The generator that the library draws from: `rand::rngs::StdRng`, of which
/// Verus sees nothing.
#[verifier::external_type_specification]
#[verifier::external_body]
pub struct ExStdRng(StdRng);

/// `StdRng::from_entropy`: a generator seeded by the operating system.
/// Nothing is claimed of it.
#[verifier::external_body]
pub(crate) fn entropy_rng() -> (rng: StdRng) {
    StdRng::from_entropy()
}

/// `SliceRandom::choose` on the items of `items`: one of the items, picked by
/// chance, and `None` exactly when there is no item.
#[verifier::external_body]
pub(crate) fn pick<T: Copy>(items: &Vec<T>, rng: &mut StdRng) -> (r: Option<T>)
    ensures
        r is None <==> items@.len() == 0,
        r matches Some(x) ==> items@.contains(x),
{
    items.choose(rng).copied()
}

/// `Rng::gen_ratio`: true with a chance of `numerator` in `denominator`.
/// Claimed is only what the crate's documentation promises of the two
/// certain cases.
#[verifier::external_body]
pub(crate) fn gen_ratio(rng: &mut StdRng, numerator: u32, denominator: u32) -> (r: bool)
    requires
        0 < denominator,
        numerator <= denominator,
    ensures
        numerator == denominator ==> r,
        numerator == 0 ==> !r,
{
    rng.gen_ratio(numerator, denominator)
}

} // verus!
