//! Tours: a route through all cities with its cost, and the operations that
//! create, evaluate, perturb and recombine them.

use vstd::prelude::*;

use crate::cost::{
    cost_of_legs, evaluates_every_tour, evaluation, lemma_cost_of_legs_monotonic, predecessor,
};
use crate::country::Graph;
use crate::crossover::{
    crossover_draw, crossover_outcome, directs_crossover, lemma_offspring_are_permutations,
    offspring,
};
use crate::error::TspError;
use crate::interface::{CrossoverOperator, MutationOperator};
use crate::mutation::{
    directs_mutation, draw_other, inversion_origin, inverted, lemma_inverted_by_origin,
    lemma_inverted_is_permutation, lemma_mutated_is_permutation, mutated, mutation_draw,
    mutation_outcome,
};
use crate::ordered::{
    filled, holds, holds_in_segments, last_occurrence, lemma_sorted_distinct,
    lemma_survivor_has_room, lemma_survivors_grow, ordered_child, place, segments_fit,
    sort_ascending, survivors, survivors_below, template, UNASSIGNED,
};
use crate::permutation::{
    identity_route, is_permutation, lemma_identity_is_permutation,
    lemma_shuffled_is_permutation, lemma_swapped_is_permutation, swapped,
};
use crate::random::{random_between, sample_positions, shuffle};
use crate::repair::{
    collect_absent, collect_duplicates, lemma_duplicates_in_bounds, repaired, replaced, spliced,
};

verus! {

/// A candidate round trip: the cities in the order they are visited, and the
/// cost of the trip.
#[derive(Debug)]
pub struct Chromosome {
    /// The cities in the order they are visited.
    pub route: Vec<u32>,
    /// The cost of the round trip, as last computed.
    pub cost: u64,
}

/// What a tour is, whatever holds it in memory: the sequence of its cities
/// and its cost.
pub struct Tour {
    /// The cities in the order they are visited.
    pub route: Seq<u32>,
    /// The cost of the round trip, as last computed.
    pub cost: u64,
}

impl View for Chromosome {
    type V = Tour;

    open spec fn view(&self) -> Tour {
        Tour { route: self.route@, cost: self.cost }
    }
}

/// Evaluating a route is deterministic: whatever two calls of
/// [`Chromosome::fitness`] on the same route and graph return is the same.
pub proof fn lemma_fitness_is_deterministic(
    route: &[u32],
    graph: &Graph,
    first: Result<u64, TspError>,
    second: Result<u64, TspError>,
)
    requires
        call_ensures(Chromosome::fitness, (route, graph), first),
        call_ensures(Chromosome::fitness, (route, graph), second),
    ensures
        first == second,
{
}

/// The cached cost of a consistent tour is what evaluating its route afresh
/// returns.
pub proof fn lemma_cached_cost_is_fitness(
    tour: Chromosome,
    route: &[u32],
    graph: &Graph,
    recomputed: Result<u64, TspError>,
)
    requires
        tour.consistent(graph),
        route@ == tour.route@,
        call_ensures(Chromosome::fitness, (route, graph), recomputed),
    ensures
        recomputed == Ok::<u64, TspError>(tour.cost),
{
}

impl Clone for Chromosome {
    fn clone(&self) -> (copy: Self)
        ensures
            copy@ == self@,
    {
        Chromosome { route: self.route.clone(), cost: self.cost }
    }
}

impl Chromosome {
    /// Whether the cached cost is the cost of the route in `graph`.
    pub open spec fn consistent(&self, graph: &Graph) -> bool {
        evaluation(self.route@, graph) == Ok::<u64, TspError>(self.cost)
    }

    /// Whether this is a round trip through all cities of `graph`, each
    /// visited once, with its true cost.
    pub open spec fn is_tour(&self, graph: &Graph) -> bool {
        &&& is_permutation(self.route@)
        &&& self.route@.len() == graph.cities()
        &&& self.consistent(graph)
    }

    /// A tour with the given route and cost. The cost is taken on trust.
    pub fn new(route: Vec<u32>, cost: u64) -> (tour: Self)
        ensures
            tour.route == route,
            tour.cost == cost,
    {
        Self { route, cost }
    }

    /// The cost of travelling `route` as a round trip through `graph`: the
    /// sum of the costs of the legs between consecutive cities, plus the leg
    /// from the last city back to the first.
    ///
    /// Fails with [`TspError::MissingEdge`] exactly when the graph lacks one
    /// of those legs, and otherwise with [`TspError::CostOverflow`] exactly
    /// when the sum exceeds 64 bits.
    pub fn fitness(route: &[u32], graph: &Graph) -> (cost: Result<u64, TspError>)
        ensures
            cost == evaluation(route@, graph),
    {
        let n = route.len();
        let mut total: u64 = 0;
        let mut overflow = false;
        let mut i: usize = 0;
        while i < n
            invariant
                n == route@.len(),
                i <= n,
                forall|j: int|
                    0 <= j < i ==> graph.has_edge(#[trigger] predecessor(route@, j), route@[j]),
                overflow == (cost_of_legs(route@, graph, i as int) > u64::MAX),
                !overflow ==> total == cost_of_legs(route@, graph, i as int),
            decreases n - i,
        {
            let previous = if i == 0 {
                route[n - 1]
            } else {
                route[i - 1]
            };
            assert(previous == predecessor(route@, i as int));
            proof {
                lemma_cost_of_legs_monotonic(route@, graph, i as int, i + 1);
            }
            match graph.cost_between(previous, route[i]) {
                Err(TspError::MissingEdge) => {
                    return Err(TspError::MissingEdge);
                },
                Err(_) => {
                    overflow = true;
                },
                Ok(leg) => {
                    if !overflow {
                        match total.checked_add(leg) {
                            Some(sum) => {
                                total = sum;
                            },
                            None => {
                                overflow = true;
                            },
                        }
                    }
                },
            }
            i += 1;
        }
        if overflow {
            Err(TspError::CostOverflow)
        } else {
            Ok(total)
        }
    }
    /// The tour that travels `route`, with its cost in `graph`; fails as
    /// [`Chromosome::fitness`] does.
    pub fn evaluated(route: Vec<u32>, graph: &Graph) -> (tour: Result<Self, TspError>)
        ensures
            match evaluation(route@, graph) {
                Ok(cost) => tour is Ok && tour->Ok_0.route == route && tour->Ok_0.cost == cost,
                Err(failure) => tour is Err && tour->Err_0 == failure,
            },
    {
        match Chromosome::fitness(route.as_slice(), graph) {
            Ok(cost) => Ok(Self { route, cost }),
            Err(failure) => Err(failure),
        }
    }

    /// A random tour through all cities of `graph`: a shuffle of
    /// `0, 1, .., n - 1`, with its cost.
    ///
    /// The route is a permutation whatever the shuffle gives; the call fails
    /// exactly when that permutation has no cost in `graph`.
    pub fn generation(graph: &Graph) -> (tour: Result<Self, TspError>)
        requires
            graph.cities() <= u32::MAX,
        ensures
            exists|route: Seq<u32>|
                {
                    &&& is_permutation(route)
                    &&& route.len() == graph.cities()
                    &&& match #[trigger] evaluation(route, graph) {
                        Ok(cost) => tour is Ok && tour->Ok_0.route@ == route && tour->Ok_0.cost
                            == cost,
                        Err(failure) => tour is Err && tour->Err_0 == failure,
                    }
                },
            tour is Ok ==> tour->Ok_0.is_tour(graph),
            evaluates_every_tour(graph) ==> tour is Ok,
    {
        let num_cities = graph.vertex.len();
        let mut route: Vec<u32> = Vec::new();
        let mut city: usize = 0;
        while city < num_cities
            invariant
                city <= num_cities <= u32::MAX,
                route@ =~= identity_route(city as nat),
            decreases num_cities - city,
        {
            route.push(city as u32);
            city += 1;
        }
        let ghost ordered = route@;
        let mut generator = rand::thread_rng();
        shuffle(&mut generator, &mut route);
        proof {
            lemma_identity_is_permutation(num_cities as nat);
            lemma_shuffled_is_permutation(ordered, route@);
        }
        let ghost shuffled = route@;
        let tour = Chromosome::evaluated(route, graph);
        assert(tour is Ok ==> tour->Ok_0.route@ == shuffled);
        tour
    }

    /// Inverts the route around the segment `[first_index, second_index)`:
    /// the cities before and after the segment are reversed as one sequence
    /// and laid back around it. The cached cost is left as it is.
    pub fn inversion(&mut self, first_index: usize, second_index: usize)
        requires
            first_index <= second_index <= old(self).route@.len(),
        ensures
            final(self).route@ == inverted(
                old(self).route@,
                first_index as int,
                second_index as int,
            ),
            final(self).cost == old(self).cost,
            is_permutation(old(self).route@) ==> is_permutation(final(self).route@),
    {
        let len = self.route.len();
        let outer_len = first_index + (len - second_index);
        let mut new_route: Vec<u32> = Vec::with_capacity(len);
        let mut i: usize = 0;
        proof {
            lemma_inverted_by_origin(self.route@, first_index as int, second_index as int);
        }
        while i < len
            invariant
                i <= len,
                len == self.route@.len(),
                first_index <= second_index <= len,
                outer_len == first_index + (len - second_index),
                new_route@.len() == i,
                forall|j: int|
                    0 <= j < i ==> new_route@[j] == self.route@[inversion_origin(
                        len as int,
                        first_index as int,
                        second_index as int,
                        j,
                    )],
            decreases len - i,
        {
            let origin = if first_index <= i && i < second_index {
                i
            } else {
                let slot = if i < first_index {
                    i
                } else {
                    first_index + (i - second_index)
                };
                let mirrored = outer_len - 1 - slot;
                if mirrored < first_index {
                    mirrored
                } else {
                    second_index + (mirrored - first_index)
                }
            };
            assert(origin == inversion_origin(
                len as int,
                first_index as int,
                second_index as int,
                i as int,
            ));
            new_route.push(self.route[origin]);
            i += 1;
        }
        proof {
            assert(new_route@ =~= inverted(
                self.route@,
                first_index as int,
                second_index as int,
            ));
            if is_permutation(self.route@) {
                lemma_inverted_is_permutation(
                    self.route@,
                    first_index as int,
                    second_index as int,
                );
            }
        }
        self.route = new_route;
    }

    /// Exchanges the cities at two positions of the route. The cached cost is
    /// left as it is.
    pub fn swap_cities(&mut self, first_gene: usize, second_gene: usize)
        requires
            first_gene < old(self).route@.len(),
            second_gene < old(self).route@.len(),
        ensures
            final(self).route@ == swapped(old(self).route@, first_gene as int, second_gene as int),
            final(self).cost == old(self).cost,
            is_permutation(old(self).route@) ==> is_permutation(final(self).route@),
    {
        proof {
            if is_permutation(self.route@) {
                lemma_swapped_is_permutation(self.route@, first_gene as int, second_gene as int);
            }
        }
        let first_city = self.route[first_gene];
        let second_city = self.route[second_gene];
        self.route.set(first_gene, second_city);
        self.route.set(second_gene, first_city);
    }

    /// Applies the mutation that `positions` directs and recomputes the cost.
    ///
    /// An inversion takes the smaller of its two cuts first; a single swap
    /// exchanges positions 0 and 1 of the draw; a double swap exchanges 0
    /// with 1, then 2 with 3. Where the mutated route has no cost in `graph`
    /// the call fails with the reason and leaves the tour as it was.
    pub fn mutation_at(
        &mut self,
        mutation_operator: MutationOperator,
        positions: &[usize],
        graph: &Graph,
    ) -> (outcome: Result<(), TspError>)
        requires
            directs_mutation(mutation_operator, old(self).route@.len(), positions@),
        ensures
            mutation_outcome(
                *old(self),
                mutation_operator,
                positions@,
                graph,
                *final(self),
                outcome,
            ),
            outcome is Ok ==> final(self).consistent(graph),
            outcome is Err ==> final(self).route@ == old(self).route@ && final(self).cost == old(
                self,
            ).cost,
            is_permutation(old(self).route@) ==> is_permutation(final(self).route@),
            final(self).route@.len() == old(self).route@.len(),
    {
        let mut candidate = self.clone();
        match mutation_operator {
            MutationOperator::Inversion => {
                if positions[0] < positions[1] {
                    candidate.inversion(positions[0], positions[1]);
                } else {
                    candidate.inversion(positions[1], positions[0]);
                }
            },
            MutationOperator::Single => {
                candidate.swap_cities(positions[0], positions[1]);
            },
            MutationOperator::Multiple => {
                candidate.swap_cities(positions[0], positions[1]);
                candidate.swap_cities(positions[2], positions[3]);
            },
        }
        proof {
            if is_permutation(self.route@) {
                lemma_mutated_is_permutation(self.route@, mutation_operator, positions@);
            }
            match mutation_operator {
                MutationOperator::Inversion => {
                    if positions@[0] < positions@[1] {
                        lemma_inverted_by_origin(
                            self.route@,
                            positions@[0] as int,
                            positions@[1] as int,
                        );
                    } else {
                        lemma_inverted_by_origin(
                            self.route@,
                            positions@[1] as int,
                            positions@[0] as int,
                        );
                    }
                },
                _ => {},
            }
        }
        match Chromosome::fitness(candidate.route.as_slice(), graph) {
            Ok(cost) => {
                self.route = candidate.route;
                self.cost = cost;
                Ok(())
            },
            Err(failure) => Err(failure),
        }
    }

    /// Mutates the tour at random positions and recomputes its cost.
    ///
    /// * Inversion draws two distinct cuts within `1..=len`.
    /// * Single swap draws two distinct positions.
    /// * Multiple swap draws four distinct positions at once.
    ///
    /// Whatever is drawn, the outcome is that of [`Chromosome::mutation_at`]
    /// for the draw.
    pub fn mutation(&mut self, mutation_operator: MutationOperator, graph: &Graph) -> (outcome:
        Result<(), TspError>)
        requires
            old(self).route@.len() >= 2,
            mutation_operator == MutationOperator::Multiple ==> old(self).route@.len() >= 4,
        ensures
            exists|positions: Seq<usize>|
                {
                    &&& mutation_draw(mutation_operator, old(self).route@.len(), positions)
                    &&& #[trigger] mutation_outcome(
                        *old(self),
                        mutation_operator,
                        positions,
                        graph,
                        *final(self),
                        outcome,
                    )
                },
            outcome is Ok ==> final(self).consistent(graph),
            outcome is Err ==> final(self).route@ == old(self).route@ && final(self).cost == old(
                self,
            ).cost,
            is_permutation(old(self).route@) ==> is_permutation(final(self).route@),
            final(self).route@.len() == old(self).route@.len(),
            is_permutation(old(self).route@) && old(self).route@.len() == graph.cities()
                && evaluates_every_tour(graph) ==> outcome is Ok,
    {
        let len = self.route.len();
        let mut generator = rand::thread_rng();
        let positions: Vec<usize> = match mutation_operator {
            MutationOperator::Inversion => {
                let first_index = random_between(&mut generator, 1, len);
                let second_index = draw_other(&mut generator, 1, len, first_index);
                vec![first_index, second_index]
            },
            MutationOperator::Single => {
                let first_gene = random_between(&mut generator, 0, len - 1);
                let second_gene = draw_other(&mut generator, 0, len - 1, first_gene);
                vec![first_gene, second_gene]
            },
            MutationOperator::Multiple => sample_positions(&mut generator, len, 4),
        };
        assert(mutation_draw(mutation_operator, len as nat, positions@));
        proof {
            if is_permutation(self.route@) {
                lemma_mutated_is_permutation(self.route@, mutation_operator, positions@);
            }
        }
        self.mutation_at(mutation_operator, positions.as_slice(), graph)
    }
    /// Repairs the child of a one-point crossover in place.
    ///
    /// Every position whose city occurs again further right is a duplicate;
    /// every city of `0..len` that the child does not hold is absent. The
    /// duplicates, from left to right, receive the absent cities in
    /// ascending order, for as long as both last. The cut point only has to
    /// lie within the child.
    pub fn fix_crossover(child: &mut Vec<u32>, crossover_point: usize)
        requires
            crossover_point <= old(child)@.len() <= u32::MAX,
        ensures
            final(child)@ == repaired(old(child)@),
    {
        let absent = collect_absent(child);
        let duplicates = collect_duplicates(child);
        let count = if duplicates.len() <= absent.len() {
            duplicates.len()
        } else {
            absent.len()
        };
        let ghost before = child@;
        proof {
            lemma_duplicates_in_bounds(before, before.len() as int);
        }
        let mut k: usize = 0;
        while k < count
            invariant
                k <= count,
                count <= duplicates@.len(),
                count <= absent@.len(),
                child@.len() == before.len(),
                child@ == replaced(before, duplicates@, absent@, k as int),
                forall|x: int|
                    0 <= x < duplicates@.len() ==> #[trigger] duplicates@[x] < before.len(),
            decreases count - k,
        {
            child.set(duplicates[k], absent[k]);
            k += 1;
        }
    }

    /// The child of an ordered crossover.
    ///
    /// The four cut points delimit two segments of the first parent, from the
    /// first point to the second and from the third to the fourth, ends
    /// included, which the child keeps where they are. The other cities of
    /// the first parent fill the remaining positions from left to right, in
    /// the order in which the second parent visits them.
    ///
    /// Fails with [`TspError::InvalidCrossoverPoints`] exactly where the
    /// points do not delimit two segments of the first parent, and else with
    /// [`TspError::CityNotFound`] exactly where the second parent lacks one
    /// of the cities to be placed. The child always has room for them.
    pub fn ordered_crossover(
        first_parent: &&[u32],
        second_parent: &&[u32],
        crossover_points: &[usize],
    ) -> (child: Result<Vec<u32>, TspError>)
        requires
            crossover_points@.len() >= 4,
        ensures
            match ordered_child(first_parent@, second_parent@, crossover_points@) {
                Ok(route) => child is Ok && child->Ok_0@ == route,
                Err(failure) => child is Err && child->Err_0 == failure,
            },
    {
        let first: &[u32] = *first_parent;
        let second: &[u32] = *second_parent;
        let len = first.len();
        let first_start = crossover_points[0];
        let first_end = crossover_points[1];
        let second_start = crossover_points[2];
        let second_end = crossover_points[3];
        if first_end >= len || second_end >= len || first_start > first_end + 1 || second_start
            > second_end + 1 {
            return Err(TspError::InvalidCrossoverPoints);
        }
        let mut child: Vec<u32> = Vec::with_capacity(len);
        let mut i: usize = 0;
        while i < len
            invariant
                i <= len,
                len == first@.len(),
                crossover_points@.len() >= 4,
                first_start == crossover_points@[0],
                first_end == crossover_points@[1],
                second_start == crossover_points@[2],
                second_end == crossover_points@[3],
                child@ =~= template(first@, crossover_points@).take(i as int),
            decreases len - i,
        {
            if (first_start <= i && i <= first_end) || (second_start <= i && i <= second_end) {
                child.push(first[i]);
            } else {
                child.push(UNASSIGNED);
            }
            i += 1;
        }
        assert(child@ =~= template(first@, crossover_points@));
        assert(segments_fit(first@.len(), crossover_points@));
        let mut i: usize = 0;
        while i < len
            invariant
                i <= len,
                len == first@.len(),
                crossover_points@.len() >= 4,
                segments_fit(first@.len(), crossover_points@),
                first@ == first_parent@,
                second@ == second_parent@,
                forall|x: int|
                    0 <= x < i && crate::ordered::displaced(
                        first@,
                        crossover_points@,
                        #[trigger] first@[x],
                    ) ==> second@.contains(first@[x]),
            decreases len - i,
        {
            if !holds_in_segments(first, crossover_points, first[i]) && !holds(second, first[i]) {
                assert(first@.contains(first@[i as int]));
                return Err(TspError::CityNotFound);
            }
            i += 1;
        }
        assert(crate::ordered::all_located(first@, second@, crossover_points@));
        let mut j: usize = 0;
        while j < second.len()
            invariant
                j <= second@.len(),
                crossover_points@.len() >= 4,
                child@ == filled(
                    template(first@, crossover_points@),
                    survivors_below(first@, second@, crossover_points@, j as int),
                ),
            decreases second.len() - j,
        {
            let city = second[j];
            if last_occurrence(second, j) && holds(first, city) && !holds_in_segments(
                first,
                crossover_points,
                city,
            ) {
                proof {
                    let all = survivors(first@, second@, crossover_points@);
                    let before = survivors_below(first@, second@, crossover_points@, j as int);
                    let now = survivors_below(first@, second@, crossover_points@, j + 1);
                    assert(now == before.push(city));
                    assert(now.drop_last() =~= before);
                    assert(now.last() == city);
                    lemma_survivors_grow(
                        first@,
                        second@,
                        crossover_points@,
                        j + 1,
                        second@.len() as int,
                    );
                    assert(all.take(before.len() as int) =~= before);
                    assert(all[before.len() as int] == now[before.len() as int]);
                    lemma_survivor_has_room(
                        first@,
                        second@,
                        crossover_points@,
                        before.len() as int,
                    );
                }
                place(&mut child, city);
            }
            j += 1;
        }
        Ok(child)
    }

    /// The two children that the given crossover makes of `self` and `other`
    /// when `points` directs it, each with its cost.
    ///
    /// A crossover with fix cuts both parents at `points[0]`, exchanges what
    /// follows the cut and repairs each child. An ordered crossover takes
    /// `points[0..4]` as the bounds of the two segments that each child keeps
    /// from its own parent.
    pub fn crossover_at(
        &self,
        other: &Chromosome,
        crossover_operator: CrossoverOperator,
        points: &[usize],
        graph: &Graph,
    ) -> (outcome: Result<(Chromosome, Chromosome), TspError>)
        requires
            directs_crossover(crossover_operator, self.route@.len(), other.route@.len(), points@),
        ensures
            crossover_outcome(
                self.route@,
                other.route@,
                crossover_operator,
                points@,
                graph,
                outcome,
            ),
            outcome is Ok ==> outcome->Ok_0.0.consistent(graph) && outcome->Ok_0.1.consistent(
                graph,
            ),
            outcome is Ok && is_permutation(self.route@) && is_permutation(other.route@)
                && self.route@.len() == other.route@.len() <= u32::MAX ==> {
                &&& is_permutation(outcome->Ok_0.0.route@)
                &&& is_permutation(outcome->Ok_0.1.route@)
                &&& outcome->Ok_0.0.route@.len() == self.route@.len()
                &&& outcome->Ok_0.1.route@.len() == self.route@.len()
            },
    {
        proof {
            if is_permutation(self.route@) && is_permutation(other.route@) && self.route@.len()
                == other.route@.len() <= u32::MAX && offspring(
                self.route@,
                other.route@,
                crossover_operator,
                points@,
            ) is Ok {
                match crossover_operator {
                    CrossoverOperator::Fix => {},
                    CrossoverOperator::Ordered => {
                        assert(segments_fit(self.route@.len(), points@));
                    },
                }
                lemma_offspring_are_permutations(
                    self.route@,
                    other.route@,
                    crossover_operator,
                    points@,
                );
            }
        }
        let (first_child, second_child) = match crossover_operator {
            CrossoverOperator::Fix => {
                let crossover_point = points[0];
                let mut first_child = Chromosome::splice(
                    self.route.as_slice(),
                    other.route.as_slice(),
                    crossover_point,
                );
                let mut second_child = Chromosome::splice(
                    other.route.as_slice(),
                    self.route.as_slice(),
                    crossover_point,
                );
                Chromosome::fix_crossover(&mut first_child, crossover_point);
                Chromosome::fix_crossover(&mut second_child, crossover_point);
                (first_child, second_child)
            },
            CrossoverOperator::Ordered => {
                let first_parent: &[u32] = self.route.as_slice();
                let second_parent: &[u32] = other.route.as_slice();
                let first_child = match Chromosome::ordered_crossover(
                    &first_parent,
                    &second_parent,
                    points,
                ) {
                    Ok(child) => child,
                    Err(failure) => {
                        return Err(failure);
                    },
                };
                let second_child = match Chromosome::ordered_crossover(
                    &second_parent,
                    &first_parent,
                    points,
                ) {
                    Ok(child) => child,
                    Err(failure) => {
                        return Err(failure);
                    },
                };
                (first_child, second_child)
            },
        };
        let first_cost = match Chromosome::fitness(first_child.as_slice(), graph) {
            Ok(cost) => cost,
            Err(failure) => {
                return Err(failure);
            },
        };
        let second_cost = match Chromosome::fitness(second_child.as_slice(), graph) {
            Ok(cost) => cost,
            Err(failure) => {
                return Err(failure);
            },
        };
        Ok(
            (
                Chromosome { route: first_child, cost: first_cost },
                Chromosome { route: second_child, cost: second_cost },
            ),
        )
    }

    /// The first `cut` cities of `head` followed by the cities of `tail`
    /// from position `cut` on.
    pub fn splice(head: &[u32], tail: &[u32], cut: usize) -> (child: Vec<u32>)
        requires
            cut <= head@.len(),
            cut <= tail@.len(),
        ensures
            child@ == spliced(head@, tail@, cut as int),
    {
        let mut child: Vec<u32> = Vec::with_capacity(tail.len());
        let mut i: usize = 0;
        while i < cut
            invariant
                i <= cut <= head@.len(),
                child@ =~= head@.subrange(0, i as int),
            decreases cut - i,
        {
            child.push(head[i]);
            i += 1;
        }
        while i < tail.len()
            invariant
                cut <= i <= tail@.len(),
                cut <= head@.len(),
                child@ =~= head@.subrange(0, cut as int) + tail@.subrange(cut as int, i as int),
            decreases tail.len() - i,
        {
            child.push(tail[i]);
            i += 1;
        }
        child
    }

    /// Recombines `self` and `other` at random points and returns the two
    /// children, each with its cost.
    ///
    /// * A crossover with fix draws one cut within `1..len`.
    /// * An ordered crossover draws four distinct positions at once and
    ///   sorts them.
    ///
    /// Whatever is drawn, the outcome is that of [`Chromosome::crossover_at`]
    /// for the draw.
    pub fn crossover(
        &self,
        other: &Chromosome,
        crossover_operator: CrossoverOperator,
        graph: &Graph,
    ) -> (outcome: Result<(Chromosome, Chromosome), TspError>)
        requires
            match crossover_operator {
                CrossoverOperator::Fix => 2 <= self.route@.len() <= u32::MAX
                    && self.route@.len() - 1 <= other.route@.len() <= u32::MAX,
                CrossoverOperator::Ordered => self.route@.len() >= 4,
            },
        ensures
            exists|points: Seq<usize>|
                {
                    &&& crossover_draw(crossover_operator, self.route@.len(), points)
                    &&& #[trigger] crossover_outcome(
                        self.route@,
                        other.route@,
                        crossover_operator,
                        points,
                        graph,
                        outcome,
                    )
                },
            outcome is Ok ==> outcome->Ok_0.0.consistent(graph) && outcome->Ok_0.1.consistent(
                graph,
            ),
            is_permutation(self.route@) && is_permutation(other.route@) && self.route@.len()
                == other.route@.len() <= u32::MAX ==> {
                &&& outcome is Ok ==> {
                    &&& is_permutation(outcome->Ok_0.0.route@)
                    &&& is_permutation(outcome->Ok_0.1.route@)
                    &&& outcome->Ok_0.0.route@.len() == self.route@.len()
                    &&& outcome->Ok_0.1.route@.len() == self.route@.len()
                }
                &&& self.route@.len() == graph.cities() && evaluates_every_tour(graph)
                    ==> outcome is Ok
            },
    {
        let len = self.route.len();
        let mut generator = rand::thread_rng();
        let points: Vec<usize> = match crossover_operator {
            CrossoverOperator::Fix => {
                let crossover_point = random_between(&mut generator, 1, len - 1);
                vec![crossover_point]
            },
            CrossoverOperator::Ordered => {
                let mut crossover_points = sample_positions(&mut generator, len, 4);
                let ghost sample = crossover_points@;
                sort_ascending(&mut crossover_points);
                proof {
                    lemma_sorted_distinct(crossover_points@, sample, len as nat);
                }
                crossover_points
            },
        };
        assert(crossover_draw(crossover_operator, len as nat, points@));
        proof {
            if is_permutation(self.route@) && is_permutation(other.route@) && self.route@.len()
                == other.route@.len() <= u32::MAX {
                lemma_offspring_are_permutations(
                    self.route@,
                    other.route@,
                    crossover_operator,
                    points@,
                );
            }
        }
        self.crossover_at(other, crossover_operator, points.as_slice(), graph)
    }
}

} // verus!
