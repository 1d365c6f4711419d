//! The recombinations of two routes: a one-point crossover with repair, and
//! an ordered crossover around two segments.

use vstd::prelude::*;

use crate::chromosome::Chromosome;
use crate::cost::evaluation;
use crate::country::Graph;
use crate::error::TspError;
use crate::interface::CrossoverOperator;
use crate::ordered::{lemma_ordered_child_is_permutation, ordered_child, segments_fit};
use crate::permutation::is_permutation;
use crate::repair::{lemma_repaired_is_permutation, repaired, spliced};

verus! {

/// Whether `points` can direct the given crossover of parents with
/// `first_len` and `second_len` cities.
pub open spec fn directs_crossover(
    crossover_operator: CrossoverOperator,
    first_len: nat,
    second_len: nat,
    points: Seq<usize>,
) -> bool {
    match crossover_operator {
        CrossoverOperator::Fix => {
            &&& points.len() >= 1
            &&& points[0] <= first_len <= u32::MAX
            &&& points[0] <= second_len <= u32::MAX
        },
        CrossoverOperator::Ordered => points.len() >= 4,
    }
}

/// Whether `points` is a draw that [`Chromosome::crossover`] can make for
/// parents of `len` cities: one cut within `1..len` for a crossover with
/// fix, four ascending distinct positions for an ordered crossover.
pub open spec fn crossover_draw(
    crossover_operator: CrossoverOperator,
    len: nat,
    points: Seq<usize>,
) -> bool {
    match crossover_operator {
        CrossoverOperator::Fix => points.len() == 1 && 1 <= points[0] < len,
        CrossoverOperator::Ordered => {
            &&& points.len() == 4
            &&& points[0] < points[1] < points[2] < points[3] < len
        },
    }
}

/// The routes of the two children that the given crossover makes of the
/// parents `first` and `second` when `points` directs it, or the reason why
/// a child cannot be built.
pub open spec fn offspring(
    first: Seq<u32>,
    second: Seq<u32>,
    crossover_operator: CrossoverOperator,
    points: Seq<usize>,
) -> Result<(Seq<u32>, Seq<u32>), TspError> {
    match crossover_operator {
        CrossoverOperator::Fix => Ok(
            (
                repaired(spliced(first, second, points[0] as int)),
                repaired(spliced(second, first, points[0] as int)),
            ),
        ),
        CrossoverOperator::Ordered => match ordered_child(first, second, points) {
            Err(failure) => Err(failure),
            Ok(first_child) => match ordered_child(second, first, points) {
                Err(failure) => Err(failure),
                Ok(second_child) => Ok((first_child, second_child)),
            },
        },
    }
}

/// What a crossover directed by `points` returns: the two children with
/// their costs, or the first failure met while building the first child,
/// building the second, evaluating the first, evaluating the second.
pub open spec fn crossover_outcome(
    first: Seq<u32>,
    second: Seq<u32>,
    crossover_operator: CrossoverOperator,
    points: Seq<usize>,
    graph: &Graph,
    outcome: Result<(Chromosome, Chromosome), TspError>,
) -> bool {
    match offspring(first, second, crossover_operator, points) {
        Err(failure) => outcome is Err && outcome->Err_0 == failure,
        Ok(routes) => match evaluation(routes.0, graph) {
            Err(failure) => outcome is Err && outcome->Err_0 == failure,
            Ok(first_cost) => match evaluation(routes.1, graph) {
                Err(failure) => outcome is Err && outcome->Err_0 == failure,
                Ok(second_cost) => {
                    &&& outcome is Ok
                    &&& outcome->Ok_0.0.route@ == routes.0
                    &&& outcome->Ok_0.0.cost == first_cost
                    &&& outcome->Ok_0.1.route@ == routes.1
                    &&& outcome->Ok_0.1.cost == second_cost
                },
            },
        },
    }
}

/// Both children of a crossover between two permutations of the same cities
/// are permutations of those cities.
pub proof fn lemma_offspring_are_permutations(
    first: Seq<u32>,
    second: Seq<u32>,
    crossover_operator: CrossoverOperator,
    points: Seq<usize>,
)
    requires
        is_permutation(first),
        is_permutation(second),
        first.len() == second.len(),
        first.len() <= u32::MAX,
        match crossover_operator {
            CrossoverOperator::Fix => points.len() >= 1 && points[0] <= first.len(),
            CrossoverOperator::Ordered => points.len() >= 4 && segments_fit(first.len(), points),
        },
    ensures
        offspring(first, second, crossover_operator, points) is Ok,
        is_permutation(offspring(first, second, crossover_operator, points)->Ok_0.0),
        is_permutation(offspring(first, second, crossover_operator, points)->Ok_0.1),
        offspring(first, second, crossover_operator, points)->Ok_0.0.len() == first.len(),
        offspring(first, second, crossover_operator, points)->Ok_0.1.len() == first.len(),
{
    match crossover_operator {
        CrossoverOperator::Fix => {
            lemma_repaired_is_permutation(first, second, points[0] as int);
            lemma_repaired_is_permutation(second, first, points[0] as int);
        },
        CrossoverOperator::Ordered => {
            lemma_ordered_child_is_permutation(first, second, points);
            lemma_ordered_child_is_permutation(second, first, points);
        },
    }
}

} // verus!
