//! The generational loop: a population evolved for a fixed number of
//! generations, with the statistics of every generation on record.

use vstd::prelude::*;

use crate::breeding::{failure_of, steps_to};
use crate::chromosome::Chromosome;
use crate::cost::evaluates_every_tour;
use crate::country::{Country, Graph};
use crate::error::TspError;
use crate::interface::{CrossoverOperator, MutationOperator};
use crate::population::{
    average_cost, best_position, lemma_extremes_exist, operators_fit, same_tour, worst_position,
    Population,
};
use crate::NUMBER_OF_GENERATIONS;

verus! {

/// One run of the search on one problem instance.
pub struct Simulation {
    /// The problem instance.
    pub country_data: Country,
    /// The population as the last generation left it.
    pub population: Population,
    /// The recombination in use.
    pub crossover_operator: CrossoverOperator,
    /// The perturbation in use.
    pub mutation_operator: MutationOperator,
    /// The number of individuals.
    pub population_size: u64,
    /// The number of individuals drawn for each tournament.
    pub tournament_size: u32,
    /// The number of generations of a run, generation 0 included.
    pub generations: u32,
    /// The cheapest individual of every generation so far.
    pub best_chromosome: Vec<Chromosome>,
    /// The most expensive individual of every generation so far.
    pub worst_chromosome: Vec<Chromosome>,
    /// The mean cost of every generation so far, rounded down.
    pub average_cost: Vec<u64>,
}

/// Whether no entry of the history costs more than an earlier one.
pub open spec fn non_increasing(history: Seq<Chromosome>) -> bool {
    forall|i: int, j: int|
        0 <= i <= j < history.len() ==> (#[trigger] history[j]).cost <= (#[trigger] history[i]).cost
}

/// Whether every entry of `chain` after the first comes of the entry before
/// it by one step of the evolution.
pub open spec fn evolution(
    chain: Seq<Seq<Chromosome>>,
    tournament_size: u32,
    crossover_operator: CrossoverOperator,
    mutation_operator: MutationOperator,
    graph: &Graph,
) -> bool {
    forall|g: int|
        0 < g < chain.len() ==> steps_to(
            chain[g - 1],
            #[trigger] chain[g],
            tournament_size,
            crossover_operator,
            mutation_operator,
            graph,
            None,
        )
}

impl Simulation {
    /// Whether the histories, from entry `from` on, hold the statistics of
    /// the populations that follow the first of `chain`, one entry each.
    pub open spec fn records(&self, from: int, chain: Seq<Seq<Chromosome>>) -> bool {
        &&& self.best_chromosome@.len() == from + chain.len() - 1
        &&& self.worst_chromosome@.len() == from + chain.len() - 1
        &&& self.average_cost@.len() == from + chain.len() - 1
        &&& forall|g: int|
            0 < g < chain.len() ==> {
                &&& same_tour(
                    self.best_chromosome@[from + g - 1],
                    (#[trigger] chain[g])[best_position(chain[g])],
                )
                &&& same_tour(
                    self.worst_chromosome@[from + g - 1],
                    chain[g][worst_position(chain[g])],
                )
                &&& self.average_cost@[from + g - 1] == average_cost(chain[g])
            }
    }

    /// Whether a run took the simulation from `earlier` to `self` through
    /// the populations of `chain`, one per generation: each comes of the one
    /// before it by one step, and the histories record the statistics of
    /// each. A run that succeeds reaches the last generation; a run that
    /// fails stops before the generation that fails.
    pub open spec fn ran(
        &self,
        earlier: &Simulation,
        chain: Seq<Seq<Chromosome>>,
        outcome: Result<(), TspError>,
    ) -> bool {
        &&& chain.len() >= 1
        &&& chain[0] == earlier.population.population_data@
        &&& chain.last() == self.population.population_data@
        &&& evolution(
            chain,
            earlier.tournament_size,
            earlier.crossover_operator,
            earlier.mutation_operator,
            &earlier.country_data.graph,
        )
        &&& self.records(earlier.best_chromosome@.len() as int, chain)
        &&& match outcome {
            Ok(_) => chain.len() == if earlier.generations >= 1 {
                earlier.generations as int
            } else {
                1
            },
            Err(failure) => chain.len() < earlier.generations && steps_to(
                chain.last(),
                chain.last(),
                earlier.tournament_size,
                earlier.crossover_operator,
                earlier.mutation_operator,
                &earlier.country_data.graph,
                Some(failure),
            ),
        }
    }

    /// Whether the population is well formed, the three histories have one
    /// entry per generation so far, their last entries are the current
    /// statistics of the population, and neither the best nor the worst cost
    /// ever rose.
    pub open spec fn well_formed(&self) -> bool {
        &&& self.country_data.graph.cities() <= u32::MAX
        &&& self.population.well_formed(&self.country_data.graph)
        &&& self.population.population_size == self.population_size
        &&& self.best_chromosome@.len() >= 1
        &&& self.worst_chromosome@.len() == self.best_chromosome@.len()
        &&& self.average_cost@.len() == self.best_chromosome@.len()
        &&& same_tour(self.best_chromosome@.last(), self.population.best_chromosome)
        &&& same_tour(self.worst_chromosome@.last(), self.population.worst_chromosome)
        &&& self.average_cost@.last() == self.population.average_population_cost
        &&& non_increasing(self.best_chromosome@)
        &&& non_increasing(self.worst_chromosome@)
    }

    /// Whether a generation can be computed: the simulation is well formed,
    /// tournaments draw at least one individual, and the graph has enough
    /// cities for the operators in use.
    pub open spec fn ready(&self) -> bool {
        &&& self.well_formed()
        &&& self.tournament_size > 0
        &&& operators_fit(
            self.crossover_operator,
            self.mutation_operator,
            self.country_data.graph.cities(),
        )
    }

    /// Whether `self` continues `earlier`: the same instance and settings,
    /// and histories that start with those of `earlier`.
    pub open spec fn continues(&self, earlier: &Simulation) -> bool {
        &&& self.country_data == earlier.country_data
        &&& self.crossover_operator == earlier.crossover_operator
        &&& self.mutation_operator == earlier.mutation_operator
        &&& self.population_size == earlier.population_size
        &&& self.tournament_size == earlier.tournament_size
        &&& self.generations == earlier.generations
        &&& earlier.best_chromosome@.is_prefix_of(self.best_chromosome@)
        &&& earlier.worst_chromosome@.is_prefix_of(self.worst_chromosome@)
        &&& earlier.average_cost@.is_prefix_of(self.average_cost@)
    }

    /// A simulation at generation 0: a random population of
    /// `population_size` tours, whose statistics open the three histories.
    ///
    /// Fails with [`TspError::EmptyPopulation`] exactly when
    /// `population_size` is 0. Otherwise it fails only where a generated
    /// tour has no cost in the graph, with the reason.
    pub fn new(
        country_data: Country,
        crossover_operator: CrossoverOperator,
        mutation_operator: MutationOperator,
        population_size: u64,
        tournament_size: u32,
    ) -> (simulation: Result<Self, TspError>)
        requires
            country_data.graph.cities() <= u32::MAX,
        ensures
            population_size == 0 ==> simulation is Err && simulation->Err_0
                == TspError::EmptyPopulation,
            simulation is Err && population_size > 0 ==> !evaluates_every_tour(
                &country_data.graph,
            ) && (simulation->Err_0 == TspError::MissingEdge || simulation->Err_0
                == TspError::CostOverflow),
            population_size > 0 && evaluates_every_tour(&country_data.graph) ==> simulation is Ok,
            simulation is Ok ==> {
                &&& simulation->Ok_0.well_formed()
                &&& simulation->Ok_0.country_data == country_data
                &&& simulation->Ok_0.crossover_operator == crossover_operator
                &&& simulation->Ok_0.mutation_operator == mutation_operator
                &&& simulation->Ok_0.population_size == population_size
                &&& simulation->Ok_0.tournament_size == tournament_size
                &&& simulation->Ok_0.generations == NUMBER_OF_GENERATIONS
                &&& simulation->Ok_0.best_chromosome@.len() == 1
            },
    {
        let new_population = match Population::new(population_size, &country_data.graph) {
            Ok(population) => population,
            Err(failure) => {
                return Err(failure);
            },
        };
        let mut best_chromosome: Vec<Chromosome> = Vec::with_capacity(NUMBER_OF_GENERATIONS + 1);
        let mut worst_chromosome: Vec<Chromosome> = Vec::with_capacity(NUMBER_OF_GENERATIONS + 1);
        let mut average_cost: Vec<u64> = Vec::with_capacity(NUMBER_OF_GENERATIONS + 1);
        best_chromosome.push(new_population.best_chromosome.clone());
        worst_chromosome.push(new_population.worst_chromosome.clone());
        average_cost.push(new_population.average_population_cost);
        Ok(
            Simulation {
                country_data,
                population: new_population,
                crossover_operator,
                mutation_operator,
                population_size,
                tournament_size,
                generations: NUMBER_OF_GENERATIONS as u32,
                best_chromosome,
                worst_chromosome,
                average_cost,
            },
        )
    }

    /// Computes the next generation and records its statistics: one more
    /// entry in each history.
    ///
    /// Fails only where a child has no cost in the graph; the simulation is
    /// then as it was.
    pub fn advance(&mut self) -> (outcome: Result<(), TspError>)
        requires
            old(self).ready(),
        ensures
            final(self).ready(),
            final(self).continues(old(self)),
            steps_to(
                old(self).population.population_data@,
                final(self).population.population_data@,
                old(self).tournament_size,
                old(self).crossover_operator,
                old(self).mutation_operator,
                &old(self).country_data.graph,
                failure_of(outcome),
            ),
            outcome is Ok ==> final(self).best_chromosome@.len() == old(self).best_chromosome@.len()
                + 1,
            outcome is Err ==> *final(self) == *old(self) && !evaluates_every_tour(
                &old(self).country_data.graph,
            ) && (outcome->Err_0 == TspError::MissingEdge || outcome->Err_0
                == TspError::CostOverflow),
            evaluates_every_tour(&old(self).country_data.graph) ==> outcome is Ok,
    {
        proof {
            lemma_extremes_exist(self.population.population_data@);
        }
        let ghost before = self.best_chromosome@;
        let ghost worst_before = self.worst_chromosome@;
        let ghost previous_best = self.population.best_chromosome;
        let ghost previous_worst = self.population.worst_chromosome;
        let stepped = self.population.selection_and_replacement(
            self.tournament_size,
            self.crossover_operator,
            self.mutation_operator,
            &self.country_data.graph,
        );
        match stepped {
            Ok(()) => {},
            Err(failure) => {
                return Err(failure);
            },
        }
        self.best_chromosome.push(self.population.best_chromosome.clone());
        self.worst_chromosome.push(self.population.worst_chromosome.clone());
        self.average_cost.push(self.population.average_population_cost);
        proof {
            let after = self.best_chromosome@;
            assert(after.last().cost <= previous_best.cost);
            assert forall|i: int, j: int| 0 <= i <= j < after.len() implies (
            #[trigger] after[j]).cost <= (#[trigger] after[i]).cost by {
                if j < before.len() {
                    assert(after[i] == before[i] && after[j] == before[j]);
                } else if i < before.len() {
                    assert(after[i] == before[i]);
                    assert(before[before.len() - 1].cost <= before[i].cost);
                }
            }
            let worst_after = self.worst_chromosome@;
            assert(worst_after.last().cost <= previous_worst.cost);
            assert forall|i: int, j: int| 0 <= i <= j < worst_after.len() implies (
            #[trigger] worst_after[j]).cost <= (#[trigger] worst_after[i]).cost by {
                if j < worst_before.len() {
                    assert(worst_after[i] == worst_before[i] && worst_after[j]
                        == worst_before[j]);
                } else if i < worst_before.len() {
                    assert(worst_after[i] == worst_before[i]);
                    assert(worst_before[worst_before.len() - 1].cost <= worst_before[i].cost);
                }
            }
        }
        Ok(())
    }

    /// Runs the simulation to its last generation: one call of
    /// [`Simulation::advance`] for each generation after generation 0.
    ///
    /// Neither the best nor the worst cost on record ever rises from one
    /// generation to the next. The run stops at the first generation that
    /// fails, with its reason; the generations before it stay on record.
    #[verifier::rlimit(50)]
    pub fn run(&mut self) -> (outcome: Result<(), TspError>)
        requires
            old(self).ready(),
        ensures
            final(self).ready(),
            final(self).continues(old(self)),
            exists|chain: Seq<Seq<Chromosome>>| #[trigger]
                final(self).ran(old(self), chain, outcome),
            non_increasing(final(self).best_chromosome@),
            non_increasing(final(self).worst_chromosome@),
            outcome is Ok ==> final(self).best_chromosome@.len() == old(self).best_chromosome@.len()
                + if old(self).generations >= 1 {
                old(self).generations - 1
            } else {
                0
            },
            outcome is Err ==> !evaluates_every_tour(&old(self).country_data.graph) && (
            outcome->Err_0 == TspError::MissingEdge || outcome->Err_0 == TspError::CostOverflow),
            evaluates_every_tour(&old(self).country_data.graph) ==> outcome is Ok,
    {
        let ghost from = self.best_chromosome@.len() as int;
        let ghost mut chain: Seq<Seq<Chromosome>> = seq![self.population.population_data@];
        let mut i: u32 = 1;
        while i < self.generations
            invariant
                1 <= i,
                self.generations >= 1 ==> i <= self.generations,
                self.generations == 0 ==> i == 1,
                self.ready(),
                self.continues(old(self)),
                from == old(self).best_chromosome@.len(),
                chain.len() == i,
                chain[0] == old(self).population.population_data@,
                chain.last() == self.population.population_data@,
                evolution(
                    chain,
                    self.tournament_size,
                    self.crossover_operator,
                    self.mutation_operator,
                    &self.country_data.graph,
                ),
                self.records(from, chain),
            decreases self.generations - i,
        {
            let ghost previous = *self;
            let ghost reached = chain;
            let advanced = self.advance();
            match advanced {
                Ok(()) => {},
                Err(failure) => {
                    assert(self.ran(old(self), chain, Err::<(), TspError>(failure)));
                    return Err(failure);
                },
            }
            proof {
                chain = reached.push(self.population.population_data@);
                assert(steps_to(
                    previous.population.population_data@,
                    self.population.population_data@,
                    self.tournament_size,
                    self.crossover_operator,
                    self.mutation_operator,
                    &self.country_data.graph,
                    None,
                ));
                assert forall|g: int| 0 < g < chain.len() implies steps_to(
                    chain[g - 1],
                    #[trigger] chain[g],
                    self.tournament_size,
                    self.crossover_operator,
                    self.mutation_operator,
                    &self.country_data.graph,
                    None,
                ) by {
                    if g < reached.len() {
                        assert(chain[g] == reached[g] && chain[g - 1] == reached[g - 1]);
                    } else {
                        assert(chain[g] == self.population.population_data@);
                        assert(chain[g - 1] == previous.population.population_data@);
                    }
                }
                assert forall|g: int| 0 < g < chain.len() implies {
                    &&& same_tour(
                        self.best_chromosome@[from + g - 1],
                        (#[trigger] chain[g])[best_position(chain[g])],
                    )
                    &&& same_tour(
                        self.worst_chromosome@[from + g - 1],
                        chain[g][worst_position(chain[g])],
                    )
                    &&& self.average_cost@[from + g - 1] == average_cost(chain[g])
                } by {
                    if g < reached.len() {
                        assert(chain[g] == reached[g]);
                        assert(self.best_chromosome@[from + g - 1]
                            == previous.best_chromosome@[from + g - 1]);
                        assert(self.worst_chromosome@[from + g - 1]
                            == previous.worst_chromosome@[from + g - 1]);
                        assert(self.average_cost@[from + g - 1] == previous.average_cost@[from + g
                            - 1]);
                    }
                }
            }
            i += 1;
        }
        assert(self.ran(old(self), chain, Ok::<(), TspError>(())));
        Ok(())
    }
}

} // verus!
