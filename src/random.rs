//! The random choices a game needs, drawn from the thread-local generator.
use vstd::prelude::*;
use rand::rngs::ThreadRng;
use rand::seq::SliceRandom;
use rand::Rng;

verus! {

#[verifier::external_type_specification]
#[verifier::external_body]
pub struct ExThreadRng(ThreadRng);

/// Relies on rand's `SliceRandom::choose_multiple`: it yields the entries at
/// `amount` distinct positions of the slice (every position when the slice
/// is shorter), in some order.
#[verifier::external_body]
pub(crate) fn choose_several(rng: &mut ThreadRng, items: &Vec<(usize, usize)>, amount: usize) -> (r: Vec<(usize, usize)>)
    ensures
        r@.len() == if amount <= items@.len() {
            amount as int
        } else {
            items@.len() as int
        },
        forall|i: int| 0 <= i < r@.len() ==> items@.contains(#[trigger] r@[i]),
        items@.no_duplicates() ==> r@.no_duplicates(),
{
    items.choose_multiple(rng, amount).cloned().collect()
}

/// Relies on rand's `SliceRandom::choose`: one entry of the slice, or `None`
/// exactly when the slice is empty.
#[verifier::external_body]
pub(crate) fn choose_one(rng: &mut ThreadRng, items: &Vec<(usize, usize)>) -> (r: Option<(usize, usize)>)
    ensures
        r is None <==> items@.len() == 0,
        r is Some ==> items@.contains(r->0),
{
    items.choose(rng).copied()
}

/// Relies on rand's `Rng::gen_ratio`: `true` with probability
/// `numerator / denominator`; it panics unless `0 < denominator` and
/// `numerator <= denominator`.
#[verifier::external_body]
pub(crate) fn chance(rng: &mut ThreadRng, numerator: u32, denominator: u32) -> (r: bool)
    requires
        0 < denominator,
        numerator <= denominator,
{
    rng.gen_ratio(numerator, denominator)
}

} // verus!
