//! One step of the evolution, stated over the random draws that direct it:
//! two tournaments, a crossover, two mutations and two replacements.

use vstd::prelude::*;

use crate::chromosome::Chromosome;
use crate::cost::evaluation;
use crate::country::Graph;
use crate::crossover::{crossover_draw, offspring};
use crate::error::TspError;
use crate::interface::{CrossoverOperator, MutationOperator};
use crate::mutation::{mutated, mutation_draw};
use crate::population::{replaced_weakest, tournament_draw, winner_of};

verus! {

/// The random draws of one step.
pub struct Draws {
    /// The positions drawn for the first tournament.
    pub first_sample: Seq<usize>,
    /// The positions drawn for the second tournament.
    pub second_sample: Seq<usize>,
    /// The points drawn for the crossover.
    pub points: Seq<usize>,
    /// The positions drawn for the mutation of the first child.
    pub first_positions: Seq<usize>,
    /// The positions drawn for the mutation of the second child.
    pub second_positions: Seq<usize>,
}

/// The routes of the two parents that the tournaments select.
pub open spec fn parents(individuals: Seq<Chromosome>, draws: Draws) -> (Seq<u32>, Seq<u32>) {
    (
        winner_of(individuals, draws.first_sample).route@,
        winner_of(individuals, draws.second_sample).route@,
    )
}

/// Whether `draws` are draws that a step can make.
pub open spec fn can_draw(
    individuals: Seq<Chromosome>,
    tournament_size: u32,
    crossover_operator: CrossoverOperator,
    mutation_operator: MutationOperator,
    draws: Draws,
) -> bool {
    let (first, second) = parents(individuals, draws);
    &&& tournament_draw(individuals.len(), tournament_size, draws.first_sample)
    &&& tournament_draw(individuals.len(), tournament_size, draws.second_sample)
    &&& crossover_draw(crossover_operator, first.len(), draws.points)
    &&& match offspring(first, second, crossover_operator, draws.points) {
        Ok(routes) => {
            &&& mutation_draw(mutation_operator, routes.0.len(), draws.first_positions)
            &&& mutation_draw(mutation_operator, routes.1.len(), draws.second_positions)
        },
        Err(_) => true,
    }
}

/// The two children that the draws give, each as its route and cost, or the
/// first failure met: while building the children, evaluating the first,
/// evaluating the second, evaluating the first after its mutation, or
/// evaluating the second after its mutation.
pub open spec fn bred(
    individuals: Seq<Chromosome>,
    crossover_operator: CrossoverOperator,
    mutation_operator: MutationOperator,
    graph: &Graph,
    draws: Draws,
) -> Result<((Seq<u32>, u64), (Seq<u32>, u64)), TspError> {
    let (first, second) = parents(individuals, draws);
    match offspring(first, second, crossover_operator, draws.points) {
        Err(failure) => Err(failure),
        Ok(routes) => {
            let first_route = mutated(routes.0, mutation_operator, draws.first_positions);
            let second_route = mutated(routes.1, mutation_operator, draws.second_positions);
            match evaluation(routes.0, graph) {
                Err(failure) => Err(failure),
                Ok(_) => match evaluation(routes.1, graph) {
                    Err(failure) => Err(failure),
                    Ok(_) => match evaluation(first_route, graph) {
                        Err(failure) => Err(failure),
                        Ok(first_cost) => match evaluation(second_route, graph) {
                            Err(failure) => Err(failure),
                            Ok(second_cost) => Ok(
                                ((first_route, first_cost), (second_route, second_cost)),
                            ),
                        },
                    },
                },
            }
        },
    }
}

/// The failure that an outcome reports, if any.
pub open spec fn failure_of(outcome: Result<(), TspError>) -> Option<TspError> {
    match outcome {
        Ok(_) => None,
        Err(failure) => Some(failure),
    }
}

/// Whether a step directed by `draws` turns the individuals `before` into
/// `after` and reports `failure`: where the children are bred, the first and
/// then the second is offered as a replacement, and nothing is reported;
/// where breeding fails, nothing changes and its failure is reported.
pub open spec fn steps_with(
    before: Seq<Chromosome>,
    after: Seq<Chromosome>,
    tournament_size: u32,
    crossover_operator: CrossoverOperator,
    mutation_operator: MutationOperator,
    graph: &Graph,
    failure: Option<TspError>,
    draws: Draws,
    first_child: Chromosome,
    second_child: Chromosome,
) -> bool {
    &&& can_draw(before, tournament_size, crossover_operator, mutation_operator, draws)
    &&& match bred(before, crossover_operator, mutation_operator, graph, draws) {
        Err(reason) => failure == Some(reason) && after == before,
        Ok(children) => {
            &&& failure is None
            &&& first_child.route@ == children.0.0
            &&& first_child.cost == children.0.1
            &&& second_child.route@ == children.1.0
            &&& second_child.cost == children.1.1
            &&& after == replaced_weakest(replaced_weakest(before, first_child), second_child)
        },
    }
}

/// Whether one step can turn the individuals `before` into `after` and
/// report `failure`, for some draws.
pub open spec fn steps_to(
    before: Seq<Chromosome>,
    after: Seq<Chromosome>,
    tournament_size: u32,
    crossover_operator: CrossoverOperator,
    mutation_operator: MutationOperator,
    graph: &Graph,
    failure: Option<TspError>,
) -> bool {
    exists|draws: Draws, first_child: Chromosome, second_child: Chromosome| #[trigger]
        steps_with(
            before,
            after,
            tournament_size,
            crossover_operator,
            mutation_operator,
            graph,
            failure,
            draws,
            first_child,
            second_child,
        )
}

} // verus!
