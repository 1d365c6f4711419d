//! The perturbations of a route: inversion around a segment, and swaps of
//! one or two pairs of positions.

use rand::rngs::ThreadRng;
use vstd::prelude::*;

use crate::chromosome::Chromosome;
use crate::cost::evaluation;
use crate::country::Graph;
use crate::error::TspError;
use crate::interface::MutationOperator;
use crate::permutation::{
    is_permutation, lemma_rearranged_is_permutation, lemma_swapped_is_permutation, swapped,
};
use crate::random::{distinct_positions, random_between};

verus! {

/// The route after an inversion with the cuts `a <= b`: the cities outside
/// `[a, b)` are reversed as one sequence and laid back around the untouched
/// middle.
pub open spec fn inverted(route: Seq<u32>, a: int, b: int) -> Seq<u32> {
    let outer = (route.subrange(0, a) + route.subrange(b, route.len() as int)).reverse();
    outer.subrange(0, a) + route.subrange(a, b) + outer.subrange(a, outer.len() as int)
}

/// The position of the old route from which position `i` of the inverted
/// route takes its city.
pub open spec fn inversion_origin(len: int, a: int, b: int, i: int) -> int {
    if a <= i < b {
        i
    } else {
        let slot = if i < a {
            i
        } else {
            a + i - b
        };
        let mirrored = a + (len - b) - 1 - slot;
        if mirrored < a {
            mirrored
        } else {
            b + mirrored - a
        }
    }
}

/// Every position of the inverted route holds the city of its origin.
pub proof fn lemma_inverted_by_origin(route: Seq<u32>, a: int, b: int)
    requires
        0 <= a <= b <= route.len(),
    ensures
        inverted(route, a, b).len() == route.len(),
        forall|i: int|
            0 <= i < route.len() ==> {
                &&& 0 <= #[trigger] inversion_origin(route.len() as int, a, b, i) < route.len()
                &&& inverted(route, a, b)[i] == route[inversion_origin(
                    route.len() as int,
                    a,
                    b,
                    i,
                )]
            },
{
    let joined = route.subrange(0, a) + route.subrange(b, route.len() as int);
    let outer = joined.reverse();
    assert(outer.len() == joined.len());
    assert forall|i: int| 0 <= i < route.len() implies {
        &&& 0 <= #[trigger] inversion_origin(route.len() as int, a, b, i) < route.len()
        &&& inverted(route, a, b)[i] == route[inversion_origin(route.len() as int, a, b, i)]
    } by {
        if a <= i < b {
        } else {
            let slot = if i < a {
                i
            } else {
                a + i - b
            };
            assert(outer[slot] == joined[joined.len() - 1 - slot]);
        }
    }
}

/// An inversion of a permutation is a permutation.
pub proof fn lemma_inverted_is_permutation(route: Seq<u32>, a: int, b: int)
    requires
        is_permutation(route),
        0 <= a <= b <= route.len(),
    ensures
        is_permutation(inverted(route, a, b)),
{
    lemma_inverted_by_origin(route, a, b);
    let len = route.len() as int;
    lemma_rearranged_is_permutation(
        route,
        inverted(route, a, b),
        |i: int| inversion_origin(len, a, b, i),
    );
}

/// Whether `positions` can direct the given mutation of a route of `len`
/// cities.
pub open spec fn directs_mutation(
    mutation_operator: MutationOperator,
    len: nat,
    positions: Seq<usize>,
) -> bool {
    match mutation_operator {
        MutationOperator::Inversion => {
            &&& positions.len() >= 2
            &&& positions[0] <= len
            &&& positions[1] <= len
            &&& positions[0] != positions[1]
        },
        MutationOperator::Single => {
            &&& positions.len() >= 2
            &&& positions[0] < len
            &&& positions[1] < len
        },
        MutationOperator::Multiple => {
            &&& positions.len() >= 4
            &&& positions[0] < len
            &&& positions[1] < len
            &&& positions[2] < len
            &&& positions[3] < len
        },
    }
}

/// Whether `positions` is a draw that [`Chromosome::mutation`] can make for a
/// route of `len` cities: two distinct cuts within `1..=len` for an
/// inversion, two distinct positions for a single swap, four distinct
/// positions for a double swap.
pub open spec fn mutation_draw(
    mutation_operator: MutationOperator,
    len: nat,
    positions: Seq<usize>,
) -> bool {
    match mutation_operator {
        MutationOperator::Inversion => {
            &&& positions.len() == 2
            &&& 1 <= positions[0] <= len
            &&& 1 <= positions[1] <= len
            &&& positions[0] != positions[1]
        },
        MutationOperator::Single => {
            &&& positions.len() == 2
            &&& positions[0] < len
            &&& positions[1] < len
            &&& positions[0] != positions[1]
        },
        MutationOperator::Multiple => {
            &&& positions.len() == 4
            &&& distinct_positions(positions, len)
        },
    }
}

/// The route that the given mutation makes of `route` when `positions`
/// directs it.
pub open spec fn mutated(
    route: Seq<u32>,
    mutation_operator: MutationOperator,
    positions: Seq<usize>,
) -> Seq<u32> {
    match mutation_operator {
        MutationOperator::Inversion => if positions[0] < positions[1] {
            inverted(route, positions[0] as int, positions[1] as int)
        } else {
            inverted(route, positions[1] as int, positions[0] as int)
        },
        MutationOperator::Single => swapped(route, positions[0] as int, positions[1] as int),
        MutationOperator::Multiple => swapped(
            swapped(route, positions[0] as int, positions[1] as int),
            positions[2] as int,
            positions[3] as int,
        ),
    }
}

/// Every mutation of a permutation is a permutation.
pub proof fn lemma_mutated_is_permutation(
    route: Seq<u32>,
    mutation_operator: MutationOperator,
    positions: Seq<usize>,
)
    requires
        is_permutation(route),
        directs_mutation(mutation_operator, route.len(), positions),
    ensures
        is_permutation(mutated(route, mutation_operator, positions)),
        mutated(route, mutation_operator, positions).len() == route.len(),
{
    match mutation_operator {
        MutationOperator::Inversion => {
            if positions[0] < positions[1] {
                lemma_inverted_is_permutation(route, positions[0] as int, positions[1] as int);
                lemma_inverted_by_origin(route, positions[0] as int, positions[1] as int);
            } else {
                lemma_inverted_is_permutation(route, positions[1] as int, positions[0] as int);
                lemma_inverted_by_origin(route, positions[1] as int, positions[0] as int);
            }
        },
        MutationOperator::Single => {
            lemma_swapped_is_permutation(route, positions[0] as int, positions[1] as int);
        },
        MutationOperator::Multiple => {
            lemma_swapped_is_permutation(route, positions[0] as int, positions[1] as int);
            lemma_swapped_is_permutation(
                swapped(route, positions[0] as int, positions[1] as int),
                positions[2] as int,
                positions[3] as int,
            );
        },
    }
}

/// What a mutation directed by `positions` leaves behind: on success the
/// mutated route with its cost, on failure the tour as it was, the failure
/// being that of evaluating the mutated route.
pub open spec fn mutation_outcome(
    before: Chromosome,
    mutation_operator: MutationOperator,
    positions: Seq<usize>,
    graph: &Graph,
    after: Chromosome,
    outcome: Result<(), TspError>,
) -> bool {
    let route = mutated(before.route@, mutation_operator, positions);
    match evaluation(route, graph) {
        Ok(cost) => outcome is Ok && after.route@ == route && after.cost == cost,
        Err(failure) => outcome == Err::<(), TspError>(failure) && after.route@ == before.route@
            && after.cost == before.cost,
    }
}

/// The number of retries after which a repeated draw is replaced by a draw
/// among the remaining values.
pub const RETRY_BUDGET: usize = 64;

/// Draws a value of `low..=high` other than `taken`: up to [`RETRY_BUDGET`]
/// uniform draws from the whole range, then one draw from the values that
/// are left.
pub fn draw_other(generator: &mut ThreadRng, low: usize, high: usize, taken: usize) -> (drawn:
    usize)
    requires
        low <= taken <= high,
        low < high,
    ensures
        low <= drawn <= high,
        drawn != taken,
{
    let mut drawn = random_between(generator, low, high);
    let mut tries: usize = 0;
    while drawn == taken && tries < RETRY_BUDGET
        invariant
            low <= drawn <= high,
            low <= high,
            tries <= RETRY_BUDGET,
        decreases RETRY_BUDGET - tries,
    {
        drawn = random_between(generator, low, high);
        tries += 1;
    }
    if drawn == taken {
        let among_rest = random_between(generator, low, high - 1);
        if among_rest >= taken {
            among_rest + 1
        } else {
            among_rest
        }
    } else {
        drawn
    }
}

} // verus!
