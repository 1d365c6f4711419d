//! The random draws of the engine, taken from the `rand` crate.
//!
//! Nothing here is proved: each function below states what the `rand`
//! function it calls promises of every outcome, and the rest of the crate is
//! verified against those statements alone.

use rand::rngs::ThreadRng;
use rand::seq::SliceRandom;
use rand::Rng;
use vstd::prelude::*;

verus! {

/// `rand::rngs::ThreadRng`, the handle to the generator of the current thread.
#[verifier::external_type_specification]
#[verifier::external_body]
pub struct ExThreadRng(ThreadRng);

/// `rand::thread_rng` hands out the generator of the current thread; nothing
/// is claimed of it. The first call on a thread seeds the generator from the
/// operating system and panics where that source fails.
pub assume_specification[ rand::thread_rng ]() -> (generator: ThreadRng)
;

/// Whether `sample` lists distinct positions below `length`.
pub open spec fn distinct_positions(sample: Seq<usize>, length: nat) -> bool {
    &&& sample.no_duplicates()
    &&& forall|k: int| 0 <= k < sample.len() ==> #[trigger] sample[k] < length
}

/// Whether `picked` holds copies of the items of `items` at the positions
/// that `sample` lists, in that order.
pub open spec fn picked_at<T: Clone>(items: Seq<T>, picked: Seq<T>, sample: Seq<usize>) -> bool {
    &&& sample.len() == picked.len()
    &&& distinct_positions(sample, items.len())
    &&& forall|k: int|
        0 <= k < sample.len() ==> cloned::<T>(items[#[trigger] sample[k] as int], picked[k])
}

/// `Rng::gen_range` over the inclusive range `low..=high`: some value of the
/// range. It panics on an empty range, which `requires` leaves out.
#[verifier::external_body]
pub(crate) fn random_between(generator: &mut ThreadRng, low: usize, high: usize) -> (drawn: usize)
    requires
        low <= high,
    ensures
        low <= drawn <= high,
{
    generator.gen_range(low..=high)
}

/// `SliceRandom::shuffle`: the slice is rearranged in place by exchanges, so
/// it holds the same items as before, each as often as before.
#[verifier::external_body]
pub(crate) fn shuffle(generator: &mut ThreadRng, cities: &mut Vec<u32>)
    ensures
        final(cities)@.to_multiset() == old(cities)@.to_multiset(),
{
    cities.shuffle(generator)
}

/// `rand::seq::index::sample`: exactly `amount` distinct positions below
/// `length`, in no particular order. It panics when `amount` exceeds
/// `length`, which `requires` leaves out.
#[verifier::external_body]
pub(crate) fn sample_positions(
    generator: &mut ThreadRng,
    length: usize,
    amount: usize,
) -> (sample: Vec<usize>)
    requires
        amount <= length,
    ensures
        sample@.len() == amount,
        distinct_positions(sample@, length as nat),
{
    rand::seq::index::sample(generator, length, amount).into_vec()
}

/// `SliceRandom::choose_multiple`: copies of the items at `amount` distinct
/// positions of the slice, or of all items when the slice has fewer, in no
/// particular order.
#[verifier::external_body]
pub(crate) fn choose_multiple<T: Clone>(
    generator: &mut ThreadRng,
    items: &[T],
    amount: usize,
) -> (picked: Vec<T>)
    ensures
        picked@.len() == if amount <= items@.len() { amount as nat } else { items@.len() },
        exists|sample: Seq<usize>| picked_at(items@, picked@, sample),
{
    items.choose_multiple(generator, amount).cloned().collect()
}

} // verus!
