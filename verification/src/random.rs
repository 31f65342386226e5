//! The random draws of the store, made by the `rand` crate.

use rand::seq::IteratorRandom;
use rand::Rng;
use vstd::prelude::*;

verus! {

/// Draws a number below `high` with `rand::Rng::gen_range` on the range
/// `0..high`, from the generator of the calling thread (`rand::thread_rng`).
///
/// Trusted: that the number drawn lies in the range. `gen_range` panics on an
/// empty range, which the precondition excludes. That the numbers of the
/// range are drawn with equal chances is what `rand` documents; no contract
/// states it.
#[verifier::external_body]
pub(crate) fn random_below(high: usize) -> (drawn: usize)
    requires
        high > 0,
    ensures
        drawn < high,
{
    rand::thread_rng().gen_range(0..high)
}

/// Picks one of the numbers below `count` with
/// `rand::seq::IteratorRandom::choose` on the range `0..count`, from the
/// generator of the calling thread (`rand::thread_rng`).
///
/// Trusted: that `choose` returns nothing exactly when the range is empty,
/// and otherwise one of the numbers of the range. That each of them is picked
/// with equal chances is what `rand` documents; no contract states it.
#[verifier::external_body]
pub(crate) fn choose_below(count: usize) -> (pick: Option<usize>)
    ensures
        pick is None <==> count == 0,
        pick matches Some(k) ==> k < count,
{
    (0..count).choose(&mut rand::thread_rng())
}

} // verus!
