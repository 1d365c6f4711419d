//! The population: a fixed number of tours, tournament selection among them,
//! and the replacement of the weakest.

use vstd::prelude::*;

use crate::breeding::{failure_of, steps_to, steps_with, Draws};
use crate::chromosome::Chromosome;
use crate::cost::evaluates_every_tour;
use crate::country::Graph;
use crate::crossover::{
    crossover_draw, crossover_outcome, lemma_offspring_are_permutations, offspring,
};
use crate::error::TspError;
use crate::interface::{CrossoverOperator, MutationOperator};
use crate::mutation::{lemma_mutated_is_permutation, mutation_draw, mutation_outcome};
use crate::random::{choose_multiple, distinct_positions, picked_at};

verus! {

/// A fixed number of tours with their aggregate statistics.
///
/// The statistics describe `population_data` as it was when they were last
/// computed: [`Population::new`] and
/// [`Population::selection_and_replacement`] leave them up to date,
/// [`Population::replacement`] does not touch them.
#[derive(Clone)]
pub struct Population {
    /// The number of individuals.
    pub population_size: u64,
    /// The individuals.
    pub population_data: Vec<Chromosome>,
    /// The mean cost of the individuals, rounded down.
    pub average_population_cost: u64,
    /// The cheapest individual.
    pub best_chromosome: Chromosome,
    /// The most expensive individual.
    pub worst_chromosome: Chromosome,
}

/// Whether two tours have the same route and the same cost.
pub open spec fn same_tour(a: Chromosome, b: Chromosome) -> bool {
    a@ == b@
}

/// Whether `w` is the position of the most expensive individual; among
/// equally expensive ones it is the last.
pub open spec fn is_worst_position(individuals: Seq<Chromosome>, w: int) -> bool {
    &&& 0 <= w < individuals.len()
    &&& forall|i: int|
        0 <= i < individuals.len() ==> (#[trigger] individuals[i]).cost <= individuals[w].cost
    &&& forall|i: int|
        w < i < individuals.len() ==> (#[trigger] individuals[i]).cost < individuals[w].cost
}

/// Whether `b` is the position of the cheapest individual; among equally
/// cheap ones it is the first.
pub open spec fn is_best_position(individuals: Seq<Chromosome>, b: int) -> bool {
    &&& 0 <= b < individuals.len()
    &&& forall|i: int|
        0 <= i < individuals.len() ==> individuals[b].cost <= (#[trigger] individuals[i]).cost
    &&& forall|i: int| 0 <= i < b ==> individuals[b].cost < (#[trigger] individuals[i]).cost
}

/// The position of the most expensive individual.
pub open spec fn worst_position(individuals: Seq<Chromosome>) -> int {
    choose|w: int| is_worst_position(individuals, w)
}

/// The position of the cheapest individual.
pub open spec fn best_position(individuals: Seq<Chromosome>) -> int {
    choose|b: int| is_best_position(individuals, b)
}

/// The individuals after `child` was offered as a replacement: it takes the
/// place of the most expensive individual unless it costs more.
pub open spec fn replaced_weakest(individuals: Seq<Chromosome>, child: Chromosome) -> Seq<
    Chromosome,
> {
    if individuals.len() == 0 {
        individuals
    } else if individuals[worst_position(individuals)].cost >= child.cost {
        individuals.update(worst_position(individuals), child)
    } else {
        individuals
    }
}

/// Whether `sample` is a draw that a tournament of `tournament_size` can
/// make among `count` individuals: that many distinct positions, or all of
/// them where there are fewer.
pub open spec fn tournament_draw(count: nat, tournament_size: u32, sample: Seq<usize>) -> bool {
    &&& distinct_positions(sample, count)
    &&& sample.len() == if tournament_size <= count {
        tournament_size as nat
    } else {
        count
    }
}

/// Whether entry `b` of the sample wins the tournament: no entry is cheaper,
/// and no earlier entry is as cheap.
pub open spec fn wins_entry(individuals: Seq<Chromosome>, sample: Seq<usize>, b: int) -> bool {
    &&& 0 <= b < sample.len()
    &&& forall|k: int|
        0 <= k < sample.len() ==> individuals[sample[b] as int].cost
            <= individuals[#[trigger] sample[k] as int].cost
    &&& forall|k: int|
        0 <= k < b ==> individuals[sample[b] as int].cost
            < individuals[#[trigger] sample[k] as int].cost
}

/// The individual that wins the tournament among those that `sample` lists.
pub open spec fn winner_of(individuals: Seq<Chromosome>, sample: Seq<usize>) -> Chromosome {
    individuals[sample[choose|b: int| wins_entry(individuals, sample, b)] as int]
}

/// Whether `winner` wins the tournament among the individuals at the
/// positions that `sample` lists: it is the cheapest of them, and among
/// equally cheap ones the first that was drawn.
pub open spec fn wins_tournament(
    individuals: Seq<Chromosome>,
    sample: Seq<usize>,
    winner: Chromosome,
) -> bool {
    exists|b: int|
        #[trigger] wins_entry(individuals, sample, b) && same_tour(
            winner,
            individuals[sample[b] as int],
        )
}

/// A tournament has one winner.
pub proof fn lemma_winner_unique(
    individuals: Seq<Chromosome>,
    sample: Seq<usize>,
    winner: Chromosome,
)
    requires
        wins_tournament(individuals, sample, winner),
    ensures
        same_tour(winner, winner_of(individuals, sample)),
        forall|k: int|
            0 <= k < sample.len() ==> winner.cost <= individuals[#[trigger] sample[k] as int].cost,
{
    let b = choose|b: int|
        #[trigger] wins_entry(individuals, sample, b) && same_tour(
            winner,
            individuals[sample[b] as int],
        );
    let c = choose|c: int| wins_entry(individuals, sample, c);
    if b < c {
        assert(individuals[sample[c] as int].cost < individuals[sample[b] as int].cost);
        assert(individuals[sample[b] as int].cost <= individuals[sample[c] as int].cost);
    } else if c < b {
        assert(individuals[sample[b] as int].cost < individuals[sample[c] as int].cost);
        assert(individuals[sample[c] as int].cost <= individuals[sample[b] as int].cost);
    }
}

/// The cost of the most expensive individual.
pub open spec fn highest_cost(individuals: Seq<Chromosome>) -> int {
    individuals[worst_position(individuals)].cost as int
}

/// The cost of the cheapest individual.
pub open spec fn lowest_cost(individuals: Seq<Chromosome>) -> int {
    individuals[best_position(individuals)].cost as int
}

/// The summed cost of the individuals.
pub open spec fn total_cost(individuals: Seq<Chromosome>) -> int
    decreases individuals.len(),
{
    if individuals.len() == 0 {
        0
    } else {
        total_cost(individuals.drop_last()) + individuals.last().cost
    }
}

/// The mean cost of the individuals, rounded down; 0 for no individuals.
pub open spec fn average_cost(individuals: Seq<Chromosome>) -> int {
    if individuals.len() == 0 {
        0
    } else {
        total_cost(individuals) / (individuals.len() as int)
    }
}

/// The smallest number of cities for which the two operators are defined.
pub open spec fn operators_fit(
    crossover_operator: CrossoverOperator,
    mutation_operator: MutationOperator,
    cities: nat,
) -> bool {
    &&& cities >= 2
    &&& crossover_operator == CrossoverOperator::Ordered ==> cities >= 4
    &&& mutation_operator == MutationOperator::Multiple ==> cities >= 4
}

/// Individuals that are not empty have a most expensive and a cheapest one.
pub proof fn lemma_extremes_exist(individuals: Seq<Chromosome>)
    requires
        individuals.len() > 0,
    ensures
        is_worst_position(individuals, worst_position(individuals)),
        is_best_position(individuals, best_position(individuals)),
    decreases individuals.len(),
{
    let last = individuals.len() - 1;
    if individuals.len() == 1 {
        assert(is_worst_position(individuals, 0));
        assert(is_best_position(individuals, 0));
    } else {
        let rest = individuals.drop_last();
        lemma_extremes_exist(rest);
        let w = worst_position(rest);
        let b = best_position(rest);
        assert forall|i: int| 0 <= i < rest.len() implies rest[i] == individuals[i] by {}
        if individuals[last].cost >= individuals[w].cost {
            assert(is_worst_position(individuals, last)) by {
                assert forall|i: int| 0 <= i < individuals.len() implies (
                #[trigger] individuals[i]).cost <= individuals[last].cost by {
                    if i < last {
                        assert(rest[i].cost <= rest[w].cost);
                    }
                }
            }
        } else {
            assert(is_worst_position(individuals, w)) by {
                assert forall|i: int| 0 <= i < individuals.len() implies (
                #[trigger] individuals[i]).cost <= individuals[w].cost by {
                    if i < last {
                        assert(rest[i].cost <= rest[w].cost);
                    }
                }
                assert forall|i: int| w < i < individuals.len() implies (
                #[trigger] individuals[i]).cost < individuals[w].cost by {
                    if i < last {
                        assert(rest[i].cost < rest[w].cost);
                    }
                }
            }
        }
        if individuals[last].cost < individuals[b].cost {
            assert(is_best_position(individuals, last)) by {
                assert forall|i: int| 0 <= i < individuals.len() implies individuals[last].cost
                    <= (#[trigger] individuals[i]).cost by {
                    if i < last {
                        assert(rest[b].cost <= rest[i].cost);
                    }
                }
                assert forall|i: int| 0 <= i < last implies individuals[last].cost < (
                #[trigger] individuals[i]).cost by {
                    assert(rest[b].cost <= rest[i].cost);
                }
            }
        } else {
            assert(is_best_position(individuals, b)) by {
                assert forall|i: int| 0 <= i < individuals.len() implies individuals[b].cost <= (
                #[trigger] individuals[i]).cost by {
                    if i < last {
                        assert(rest[b].cost <= rest[i].cost);
                    }
                }
                assert forall|i: int| 0 <= i < b implies individuals[b].cost < (
                #[trigger] individuals[i]).cost by {
                    assert(rest[b].cost < rest[i].cost);
                }
            }
        }
    }
}

/// There is one position of the most expensive individual, and one of the
/// cheapest.
pub proof fn lemma_extremes_unique(individuals: Seq<Chromosome>, w: int, b: int)
    ensures
        is_worst_position(individuals, w) ==> w == worst_position(individuals),
        is_best_position(individuals, b) ==> b == best_position(individuals),
{
    if is_worst_position(individuals, w) {
        let other = worst_position(individuals);
        assert(is_worst_position(individuals, other));
        if w < other {
            assert(individuals[other].cost < individuals[w].cost);
            assert(individuals[w].cost <= individuals[other].cost);
        } else if other < w {
            assert(individuals[w].cost < individuals[other].cost);
            assert(individuals[other].cost <= individuals[w].cost);
        }
    }
    if is_best_position(individuals, b) {
        let other = best_position(individuals);
        assert(is_best_position(individuals, other));
        if b < other {
            assert(individuals[other].cost < individuals[b].cost);
            assert(individuals[b].cost <= individuals[other].cost);
        } else if other < b {
            assert(individuals[b].cost < individuals[other].cost);
            assert(individuals[other].cost <= individuals[b].cost);
        }
    }
}

/// Offering a child as a replacement raises neither the highest nor the
/// lowest cost among the individuals.
pub proof fn lemma_replacement_never_worsens(individuals: Seq<Chromosome>, child: Chromosome)
    requires
        individuals.len() > 0,
    ensures
        replaced_weakest(individuals, child).len() == individuals.len(),
        highest_cost(replaced_weakest(individuals, child)) <= highest_cost(individuals),
        lowest_cost(replaced_weakest(individuals, child)) <= lowest_cost(individuals),
{
    let after = replaced_weakest(individuals, child);
    lemma_extremes_exist(individuals);
    lemma_extremes_exist(after);
    let w = worst_position(individuals);
    let b = best_position(individuals);
    let w_after = worst_position(after);
    let b_after = best_position(after);
    if individuals[w].cost >= child.cost {
        if w_after != w {
            assert(after[w_after] == individuals[w_after]);
        }
        if b != w {
            assert(after[b] == individuals[b]);
            assert(after[b_after].cost <= after[b].cost);
        } else {
            assert(after[b_after].cost <= after[w].cost);
        }
    }
}

/// The summed cost of individuals that cost between `low` and `high` each
/// lies between that many times `low` and that many times `high`.
pub proof fn lemma_total_cost_bounds(individuals: Seq<Chromosome>, low: int, high: int)
    requires
        forall|i: int|
            0 <= i < individuals.len() ==> low <= (#[trigger] individuals[i]).cost <= high,
    ensures
        individuals.len() * low <= total_cost(individuals) <= individuals.len() * high,
    decreases individuals.len(),
{
    let count = individuals.len() as int;
    if count > 0 {
        let rest = individuals.drop_last();
        assert forall|i: int| 0 <= i < rest.len() implies low <= (#[trigger] rest[i]).cost
            <= high by {
            assert(rest[i] == individuals[i]);
        }
        lemma_total_cost_bounds(rest, low, high);
        assert(low <= individuals[count - 1].cost <= high);
        assert((count - 1) * low + low == count * low) by (nonlinear_arith);
        assert((count - 1) * high + high == count * high) by (nonlinear_arith);
    } else {
        assert(count * low == 0 && count * high == 0) by (nonlinear_arith)
            requires
                count == 0,
        ;
    }
}

/// The mean cost lies between the lowest and the highest cost.
pub proof fn lemma_average_between(individuals: Seq<Chromosome>)
    requires
        individuals.len() > 0,
    ensures
        lowest_cost(individuals) <= average_cost(individuals) <= highest_cost(individuals),
{
    lemma_extremes_exist(individuals);
    let low = lowest_cost(individuals);
    let high = highest_cost(individuals);
    let count = individuals.len() as int;
    let total = total_cost(individuals);
    lemma_total_cost_bounds(individuals, low, high);
    assert(low <= total / count <= high) by (nonlinear_arith)
        requires
            count > 0,
            count * low <= total <= count * high,
    ;
}

/// A copy made by `clone` has the route and the cost of the tour it was made
/// of.
pub proof fn lemma_clone_is_same_tour(tour: Chromosome, copy: Chromosome)
    requires
        cloned::<Chromosome>(tour, copy),
    ensures
        same_tour(copy, tour),
{
}

/// The quotient of a sum of `count` costs by `count` is a cost.
proof fn lemma_mean_fits(total: int, count: int)
    requires
        count > 0,
        0 <= total <= count * u64::MAX,
    ensures
        0 <= total / count <= u64::MAX,
{
    assert(0 <= total / count <= u64::MAX) by (nonlinear_arith)
        requires
            count > 0,
            0 <= total <= count * u64::MAX,
    ;
}

/// A route that is long enough for a mutation leaves something to draw.
pub proof fn lemma_some_positions(mutation_operator: MutationOperator, len: nat) -> (positions:
    Seq<usize>)
    requires
        len >= 2,
        mutation_operator == MutationOperator::Multiple ==> len >= 4,
    ensures
        mutation_draw(mutation_operator, len, positions),
{
    match mutation_operator {
        MutationOperator::Inversion => seq![1usize, 2usize],
        MutationOperator::Single => seq![0usize, 1usize],
        MutationOperator::Multiple => {
            let positions = seq![0usize, 1usize, 2usize, 3usize];
            assert(positions.no_duplicates());
            positions
        },
    }
}

impl Population {
    /// Whether the population holds as many individuals as it says, at
    /// least one, and each is a tour of `graph`.
    pub open spec fn populated(&self, graph: &Graph) -> bool {
        &&& self.population_data@.len() == self.population_size
        &&& self.population_data@.len() > 0
        &&& forall|i: int|
            0 <= i < self.population_data@.len() ==> (#[trigger] self.population_data@[i]).is_tour(
                graph,
            )
    }

    /// Whether the statistics describe the individuals as they are now.
    pub open spec fn statistics_current(&self) -> bool {
        &&& same_tour(
            self.best_chromosome,
            self.population_data@[best_position(self.population_data@)],
        )
        &&& same_tour(
            self.worst_chromosome,
            self.population_data@[worst_position(self.population_data@)],
        )
        &&& self.average_population_cost == average_cost(self.population_data@)
    }

    /// Whether the population is populated and its statistics are current.
    pub open spec fn well_formed(&self, graph: &Graph) -> bool {
        self.populated(graph) && self.statistics_current()
    }

    /// The mean cost of the individuals, rounded down; 0 for no individuals.
    pub fn find_average_cost(population_data: &[Chromosome]) -> (average: u64)
        ensures
            average == average_cost(population_data@),
    {
        let count = population_data.len();
        if count == 0 {
            return 0;
        }
        let mut total: u128 = 0;
        let mut i: usize = 0;
        while i < count
            invariant
                i <= count,
                count == population_data@.len(),
                total == total_cost(population_data@.take(i as int)),
                total <= i * u64::MAX,
            decreases count - i,
        {
            proof {
                assert(population_data@.take(i + 1).drop_last() =~= population_data@.take(
                    i as int,
                ));
                assert(i * u64::MAX + u64::MAX == (i + 1) * u64::MAX) by (nonlinear_arith);
                assert(count * u64::MAX <= u64::MAX * u64::MAX) by (nonlinear_arith)
                    requires
                        count <= u64::MAX,
                ;
                assert((i + 1) * u64::MAX <= count * u64::MAX) by (nonlinear_arith)
                    requires
                        i + 1 <= count,
                ;
            }
            total = total + population_data[i].cost as u128;
            i += 1;
        }
        proof {
            assert(population_data@.take(count as int) =~= population_data@);
            lemma_mean_fits(total as int, count as int);
        }
        (total / count as u128) as u64
    }

    /// The position of the most expensive individual, the last among equally
    /// expensive ones; `None` for no individuals.
    pub fn worst_index(population_data: &[Chromosome]) -> (found: Option<usize>)
        ensures
            population_data@.len() == 0 <==> found is None,
            found is Some ==> is_worst_position(population_data@, found->Some_0 as int),
            found is Some ==> found->Some_0 == worst_position(population_data@),
    {
        if population_data.len() == 0 {
            return None;
        }
        let mut worst: usize = 0;
        let mut i: usize = 1;
        while i < population_data.len()
            invariant
                0 <= worst < i <= population_data@.len(),
                forall|x: int| 0 <= x < i ==> (#[trigger] population_data@[x]).cost
                    <= population_data@[worst as int].cost,
                forall|x: int| worst < x < i ==> (#[trigger] population_data@[x]).cost
                    < population_data@[worst as int].cost,
            decreases population_data.len() - i,
        {
            if population_data[i].cost >= population_data[worst].cost {
                worst = i;
            }
            i += 1;
        }
        proof {
            lemma_extremes_unique(population_data@, worst as int, 0);
        }
        Some(worst)
    }

    /// The position of the cheapest individual, the first among equally
    /// cheap ones; `None` for no individuals.
    pub fn best_index(population_data: &[Chromosome]) -> (found: Option<usize>)
        ensures
            population_data@.len() == 0 <==> found is None,
            found is Some ==> is_best_position(population_data@, found->Some_0 as int),
            found is Some ==> found->Some_0 == best_position(population_data@),
    {
        if population_data.len() == 0 {
            return None;
        }
        let mut best: usize = 0;
        let mut i: usize = 1;
        while i < population_data.len()
            invariant
                0 <= best < i <= population_data@.len(),
                forall|x: int| 0 <= x < i ==> population_data@[best as int].cost <= (
                #[trigger] population_data@[x]).cost,
                forall|x: int| 0 <= x < best ==> population_data@[best as int].cost < (
                #[trigger] population_data@[x]).cost,
            decreases population_data.len() - i,
        {
            if population_data[i].cost < population_data[best].cost {
                best = i;
            }
            i += 1;
        }
        proof {
            lemma_extremes_unique(population_data@, 0, best as int);
        }
        Some(best)
    }

    /// A copy of the most expensive individual, the last among equally
    /// expensive ones; fails with [`TspError::EmptyPopulation`] exactly when
    /// there are no individuals.
    pub fn find_worst_chromosome(population_data: &[Chromosome]) -> (worst: Result<
        Chromosome,
        TspError,
    >)
        ensures
            population_data@.len() == 0 ==> worst == Err::<Chromosome, TspError>(
                TspError::EmptyPopulation,
            ),
            population_data@.len() > 0 ==> worst is Ok && same_tour(
                worst->Ok_0,
                population_data@[worst_position(population_data@)],
            ),
    {
        match Population::worst_index(population_data) {
            Some(position) => Ok(population_data[position].clone()),
            None => Err(TspError::EmptyPopulation),
        }
    }

    /// A copy of the cheapest individual, the first among equally cheap
    /// ones; fails with [`TspError::EmptyPopulation`] exactly when there are
    /// no individuals.
    pub fn find_best_chromosome(population_data: &[Chromosome]) -> (best: Result<
        Chromosome,
        TspError,
    >)
        ensures
            population_data@.len() == 0 ==> best == Err::<Chromosome, TspError>(
                TspError::EmptyPopulation,
            ),
            population_data@.len() > 0 ==> best is Ok && same_tour(
                best->Ok_0,
                population_data@[best_position(population_data@)],
            ),
    {
        match Population::best_index(population_data) {
            Some(position) => Ok(population_data[position].clone()),
            None => Err(TspError::EmptyPopulation),
        }
    }

    /// Offers `child` as a replacement for the most expensive individual:
    /// the child takes its place unless the child costs more. Returns `None`,
    /// and changes nothing, exactly when there are no individuals. The
    /// statistics are left as they are.
    pub fn replacement(&mut self, child: Chromosome) -> (done: Option<()>)
        ensures
            done is None <==> old(self).population_data@.len() == 0,
            final(self).population_data@ == replaced_weakest(old(self).population_data@, child),
            final(self).population_data@.len() == old(self).population_data@.len(),
            final(self).population_size == old(self).population_size,
            final(self).average_population_cost == old(self).average_population_cost,
            final(self).best_chromosome == old(self).best_chromosome,
            final(self).worst_chromosome == old(self).worst_chromosome,
            old(self).population_data@.len() > 0 ==> {
                &&& highest_cost(final(self).population_data@) <= highest_cost(
                    old(self).population_data@,
                )
                &&& lowest_cost(final(self).population_data@) <= lowest_cost(
                    old(self).population_data@,
                )
            },
    {
        let position = match Population::worst_index(self.population_data.as_slice()) {
            Some(position) => position,
            None => {
                return None;
            },
        };
        proof {
            lemma_replacement_never_worsens(self.population_data@, child);
        }
        if self.population_data[position].cost >= child.cost {
            self.population_data.set(position, child);
        }
        Some(())
    }

    /// The winner among the entrants of a tournament: the cheapest, and the
    /// first among equally cheap ones.
    pub fn winner(entrants: Vec<Chromosome>) -> (winner: Chromosome)
        requires
            entrants@.len() > 0,
        ensures
            winner == entrants@[best_position(entrants@)],
            is_best_position(entrants@, best_position(entrants@)),
    {
        let mut entrants = entrants;
        let position = Population::best_index(entrants.as_slice()).unwrap();
        entrants.remove(position)
    }

    /// Runs a tournament: draws `tournament_size` distinct individuals, or
    /// all of them where there are fewer, and returns a copy of the cheapest
    /// of those drawn.
    pub fn run_tournament(&self, tournament_size: u32) -> (winner: Chromosome)
        requires
            self.population_data@.len() > 0,
            tournament_size > 0,
        ensures
            exists|sample: Seq<usize>|
                {
                    &&& tournament_draw(self.population_data@.len(), tournament_size, sample)
                    &&& #[trigger] wins_tournament(self.population_data@, sample, winner)
                },
            exists|i: int|
                0 <= i < self.population_data@.len() && same_tour(
                    winner,
                    #[trigger] self.population_data@[i],
                ),
    {
        let mut generator = rand::thread_rng();
        let tournament_population = choose_multiple(
            &mut generator,
            self.population_data.as_slice(),
            tournament_size as usize,
        );
        let ghost entrants = tournament_population@;
        let ghost sample = choose|sample: Seq<usize>|
            picked_at(self.population_data@, entrants, sample);
        let winner = Population::winner(tournament_population);
        proof {
            let b = best_position(entrants);
            assert forall|k: int| 0 <= k < sample.len() implies same_tour(
                entrants[k],
                self.population_data@[#[trigger] sample[k] as int],
            ) by {
                lemma_clone_is_same_tour(self.population_data@[sample[k] as int], entrants[k]);
            }
            assert(same_tour(winner, self.population_data@[sample[b] as int]));
            assert(wins_entry(self.population_data@, sample, b)) by {
                let individuals = self.population_data@;
                assert forall|k: int| 0 <= k < sample.len() implies individuals[sample[b] as int].cost
                    <= individuals[#[trigger] sample[k] as int].cost by {
                    assert(entrants[b].cost <= entrants[k].cost);
                }
                assert forall|k: int| 0 <= k < b implies individuals[sample[b] as int].cost
                    < individuals[#[trigger] sample[k] as int].cost by {
                    assert(entrants[b].cost < entrants[k].cost);
                }
            }
            assert(wins_tournament(self.population_data@, sample, winner));
            assert(tournament_draw(self.population_data@.len(), tournament_size, sample));
        }
        winner
    }
    /// A population of `population_size` random tours of `country_data`,
    /// with its statistics.
    ///
    /// Fails with [`TspError::EmptyPopulation`] exactly when
    /// `population_size` is 0. Otherwise it fails only where a generated
    /// tour has no cost in the graph, with the reason.
    pub fn new(population_size: u64, country_data: &Graph) -> (population: Result<Self, TspError>)
        requires
            country_data.cities() <= u32::MAX,
        ensures
            population_size == 0 ==> population is Err && population->Err_0
                == TspError::EmptyPopulation,
            population is Ok ==> population->Ok_0.well_formed(country_data)
                && population->Ok_0.population_size == population_size,
            population is Err && population_size > 0 ==> !evaluates_every_tour(country_data) && (
            population->Err_0 == TspError::MissingEdge || population->Err_0
                == TspError::CostOverflow),
            population_size > 0 && evaluates_every_tour(country_data) ==> population is Ok,
    {
        let mut i: u64 = 0;
        let mut population_data: Vec<Chromosome> = Vec::new();
        while i < population_size
            invariant
                i <= population_size,
                country_data.cities() <= u32::MAX,
                population_data@.len() == i,
                forall|x: int|
                    0 <= x < population_data@.len() ==> (#[trigger] population_data@[x]).is_tour(
                        country_data,
                    ),
            decreases population_size - i,
        {
            match Chromosome::generation(country_data) {
                Ok(tour) => {
                    population_data.push(tour);
                },
                Err(failure) => {
                    return Err(failure);
                },
            }
            i += 1;
        }
        let best_chromosome = match Population::find_best_chromosome(population_data.as_slice()) {
            Ok(best) => best,
            Err(failure) => {
                return Err(failure);
            },
        };
        let worst_chromosome = match Population::find_worst_chromosome(
            population_data.as_slice(),
        ) {
            Ok(worst) => worst,
            Err(failure) => {
                return Err(failure);
            },
        };
        let average_population_cost = Population::find_average_cost(population_data.as_slice());
        Ok(
            Self {
                population_size,
                population_data,
                average_population_cost,
                best_chromosome,
                worst_chromosome,
            },
        )
    }

    /// One step of the evolution: two tournaments select two parents, their
    /// crossover gives two children, each child is mutated, and the first
    /// child, then the second, is offered as a replacement for the most
    /// expensive individual. The statistics are then brought up to date.
    ///
    /// Whatever is drawn, the step does with the draws what
    /// [`steps_with`] says. It fails only where a child has no cost in the
    /// graph; the population is then as it was.
    #[verifier::rlimit(50)]
    pub fn selection_and_replacement(
        &mut self,
        tournament_size: u32,
        crossover_operator: CrossoverOperator,
        mutation_operator: MutationOperator,
        country_data: &Graph,
    ) -> (outcome: Result<(), TspError>)
        requires
            old(self).populated(country_data),
            tournament_size > 0,
            operators_fit(crossover_operator, mutation_operator, country_data.cities()),
            country_data.cities() <= u32::MAX,
        ensures
            steps_to(
                old(self).population_data@,
                final(self).population_data@,
                tournament_size,
                crossover_operator,
                mutation_operator,
                country_data,
                failure_of(outcome),
            ),
            outcome is Err ==> *final(self) == *old(self) && !evaluates_every_tour(country_data)
                && (outcome->Err_0 == TspError::MissingEdge || outcome->Err_0
                == TspError::CostOverflow),
            evaluates_every_tour(country_data) ==> outcome is Ok,
            outcome is Ok ==> {
                &&& final(self).well_formed(country_data)
                &&& final(self).population_size == old(self).population_size
                &&& highest_cost(final(self).population_data@) <= highest_cost(
                    old(self).population_data@,
                )
                &&& lowest_cost(final(self).population_data@) <= lowest_cost(
                    old(self).population_data@,
                )
            },
    {
        let ghost before = self.population_data@;
        let ghost cities = country_data.cities();
        let first_parent = self.run_tournament(tournament_size);
        let ghost first_sample = choose|sample: Seq<usize>|
            {
                &&& tournament_draw(before.len(), tournament_size, sample)
                &&& #[trigger] wins_tournament(before, sample, first_parent)
            };
        let second_parent = self.run_tournament(tournament_size);
        let ghost second_sample = choose|sample: Seq<usize>|
            {
                &&& tournament_draw(before.len(), tournament_size, sample)
                &&& #[trigger] wins_tournament(before, sample, second_parent)
            };
        let ghost spare_positions = lemma_some_positions(mutation_operator, cities);
        proof {
            lemma_winner_unique(before, first_sample, first_parent);
            lemma_winner_unique(before, second_sample, second_parent);
        }
        assert(first_parent.is_tour(country_data) && second_parent.is_tour(country_data));
        let bred = first_parent.crossover(&second_parent, crossover_operator, country_data);
        let ghost points = choose|points: Seq<usize>|
            {
                &&& crossover_draw(crossover_operator, first_parent.route@.len(), points)
                &&& #[trigger] crossover_outcome(
                    first_parent.route@,
                    second_parent.route@,
                    crossover_operator,
                    points,
                    country_data,
                    bred,
                )
            };
        proof {
            lemma_offspring_are_permutations(
                first_parent.route@,
                second_parent.route@,
                crossover_operator,
                points,
            );
        }
        let ghost routes = offspring(
            first_parent.route@,
            second_parent.route@,
            crossover_operator,
            points,
        )->Ok_0;
        let (mut first_child, mut second_child) = match bred {
            Ok(children) => children,
            Err(failure) => {
                proof {
                    let draws = Draws {
                        first_sample,
                        second_sample,
                        points,
                        first_positions: spare_positions,
                        second_positions: spare_positions,
                    };
                    assert(steps_with(
                        before,
                        before,
                        tournament_size,
                        crossover_operator,
                        mutation_operator,
                        country_data,
                        Some(failure),
                        draws,
                        first_parent,
                        second_parent,
                    ));
                }
                return Err(failure);
            },
        };
        let ghost first_born = first_child;
        let first_mutation = first_child.mutation(mutation_operator, country_data);
        let ghost first_positions = choose|positions: Seq<usize>|
            {
                &&& mutation_draw(mutation_operator, first_born.route@.len(), positions)
                &&& #[trigger] mutation_outcome(
                    first_born,
                    mutation_operator,
                    positions,
                    country_data,
                    first_child,
                    first_mutation,
                )
            };
        proof {
            lemma_mutated_is_permutation(first_born.route@, mutation_operator, first_positions);
        }
        match first_mutation {
            Ok(()) => {},
            Err(failure) => {
                proof {
                    let draws = Draws {
                        first_sample,
                        second_sample,
                        points,
                        first_positions,
                        second_positions: spare_positions,
                    };
                    assert(steps_with(
                        before,
                        before,
                        tournament_size,
                        crossover_operator,
                        mutation_operator,
                        country_data,
                        Some(failure),
                        draws,
                        first_parent,
                        second_parent,
                    ));
                }
                return Err(failure);
            },
        }
        let ghost second_born = second_child;
        let second_mutation = second_child.mutation(mutation_operator, country_data);
        let ghost second_positions = choose|positions: Seq<usize>|
            {
                &&& mutation_draw(mutation_operator, second_born.route@.len(), positions)
                &&& #[trigger] mutation_outcome(
                    second_born,
                    mutation_operator,
                    positions,
                    country_data,
                    second_child,
                    second_mutation,
                )
            };
        proof {
            lemma_mutated_is_permutation(second_born.route@, mutation_operator, second_positions);
        }
        let ghost draws = Draws {
            first_sample,
            second_sample,
            points,
            first_positions,
            second_positions,
        };
        match second_mutation {
            Ok(()) => {},
            Err(failure) => {
                proof {
                    assert(steps_with(
                        before,
                        before,
                        tournament_size,
                        crossover_operator,
                        mutation_operator,
                        country_data,
                        Some(failure),
                        draws,
                        first_parent,
                        second_parent,
                    ));
                }
                return Err(failure);
            },
        }
        assert(first_child.is_tour(country_data) && second_child.is_tour(country_data));
        proof {
            lemma_extremes_exist(before);
        }
        self.replacement(first_child);
        let ghost between = self.population_data@;
        proof {
            lemma_extremes_exist(between);
            assert forall|i: int| 0 <= i < between.len() implies (#[trigger] between[i]).is_tour(
                country_data,
            ) by {
                if between[i] != before[i] {
                    assert(between[i] == first_child);
                }
            }
        }
        self.replacement(second_child);
        proof {
            let after = self.population_data@;
            assert forall|i: int| 0 <= i < after.len() implies (#[trigger] after[i]).is_tour(
                country_data,
            ) by {
                if after[i] != between[i] {
                    assert(after[i] == second_child);
                }
            }
            assert(after == replaced_weakest(replaced_weakest(before, first_child), second_child));
            assert(steps_with(
                before,
                after,
                tournament_size,
                crossover_operator,
                mutation_operator,
                country_data,
                None,
                draws,
                first_child,
                second_child,
            ));
        }
        self.average_population_cost = Population::find_average_cost(
            self.population_data.as_slice(),
        );
        match Population::find_best_chromosome(self.population_data.as_slice()) {
            Ok(best) => {
                self.best_chromosome = best;
            },
            Err(failure) => {
                return Err(failure);
            },
        }
        match Population::find_worst_chromosome(self.population_data.as_slice()) {
            Ok(worst) => {
                self.worst_chromosome = worst;
            },
            Err(failure) => {
                return Err(failure);
            },
        }
        Ok(())
    }
}

} // verus!
