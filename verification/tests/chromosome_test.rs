use tsp_coursework::chromosome::Chromosome;
use tsp_coursework::country::{Edge, Graph, Vertex};
use tsp_coursework::error::TspError;
use tsp_coursework::interface::{CrossoverOperator, MutationOperator};

/// Four cities with the costs 0-1: 153, 0-2: 510, 0-3: 706, 1-2: 422,
/// 1-3: 664, 2-3: 289, the same in both directions.
fn burma_small() -> Graph {
    let costs: [[u64; 4]; 4] =
        [[0, 153, 510, 706], [153, 0, 422, 664], [510, 422, 0, 289], [706, 664, 289, 0]];
    let mut vertex = Vec::new();
    for from in 0..4 {
        let mut edges = Vec::new();
        for to in 0..4 {
            if from != to {
                edges.push(Edge::new(costs[from][to], to as u32));
            }
        }
        vertex.push(Vertex::new(edges));
    }
    Graph::new(vertex)
}

/// A complete graph of `n` cities where travelling from `a` to `b` costs
/// `10 * a + b + 1`.
fn complete(n: u32) -> Graph {
    let mut vertex = Vec::new();
    for from in 0..n {
        let mut edges = Vec::new();
        for to in 0..n {
            if from != to {
                edges.push(Edge::new((10 * from + to + 1) as u64, to));
            }
        }
        vertex.push(Vertex::new(edges));
    }
    Graph::new(vertex)
}

fn is_permutation(route: &[u32]) -> bool {
    let mut seen = vec![false; route.len()];
    for city in route {
        let city = *city as usize;
        if city >= route.len() || seen[city] {
            return false;
        }
        seen[city] = true;
    }
    true
}

#[test]
fn check_fitness() {
    let burma_small = burma_small();
    let route = vec![2, 0, 1, 3];
    let cost = 289 + 510 + 153 + 664;
    let test_chromosome = Chromosome::new(route, cost);

    assert_eq!(
        Ok(cost),
        Chromosome::fitness(&test_chromosome.route, &burma_small),
        "my cost calculated {} and functions cost {:?}",
        cost,
        Chromosome::fitness(&test_chromosome.route, &burma_small)
    );
}

#[test]
fn check_crossover() {
    let burma_small = burma_small();
    let parent_one = Chromosome::generation(&burma_small).unwrap();
    let parent_two = Chromosome::generation(&burma_small).unwrap();

    let (child_one, child_two) =
        parent_one.crossover(&parent_two, CrossoverOperator::Fix, &burma_small).unwrap();

    println!(
        "first child: {:?} second child: {:?} first parent: {:?} second parent: {:?}",
        child_one, child_two, parent_one, parent_two
    );
    assert!(is_permutation(&child_one.route));
    assert!(is_permutation(&child_two.route));
    assert_eq!(Ok(child_one.cost), Chromosome::fitness(&child_one.route, &burma_small));
    assert_eq!(Ok(child_two.cost), Chromosome::fitness(&child_two.route, &burma_small));
}

#[test]
fn check_mutation() {
    let burma_small = burma_small();
    let route = vec![0, 1, 2, 3, 4, 5];
    let fitness = Chromosome::fitness(&route, &burma_small);
    // Cities 4 and 5 are not in the graph.
    assert_eq!(fitness, Err(TspError::MissingEdge));

    let mut chromo = Chromosome::new(route, 0);
    let outcome = chromo.mutation(MutationOperator::Single, &burma_small);
    assert_eq!(outcome, Err(TspError::MissingEdge));
    assert_eq!(chromo.route, vec![0, 1, 2, 3, 4, 5]);
    assert_eq!(chromo.cost, 0);
}

#[test]
fn check_ordered_crossover() {
    let first: Vec<u32> = vec![0, 1, 2, 3, 4, 5, 6, 7];
    let second: Vec<u32> = vec![7, 6, 5, 4, 3, 2, 1, 0];
    let first_parent: &[u32] = &first;
    let second_parent: &[u32] = &second;
    let points = [1, 2, 5, 6];
    // Positions 1, 2, 5 and 6 stay; 0, 3, 4 and 7 follow as the other parent
    // visits them.
    assert_eq!(
        Chromosome::ordered_crossover(&first_parent, &second_parent, &points),
        Ok(vec![7, 1, 2, 4, 3, 5, 6, 0])
    );
    assert_eq!(
        Chromosome::ordered_crossover(&second_parent, &first_parent, &points),
        Ok(vec![0, 6, 5, 3, 4, 2, 1, 7])
    );
}

#[test]
fn fitness_of_known_routes() {
    let graph = burma_small();
    assert_eq!(Chromosome::fitness(&[2, 0, 1, 3], &graph), Ok(1616));
    assert_eq!(Chromosome::fitness(&[0, 1, 2, 3], &graph), Ok(153 + 422 + 289 + 706));
}

#[test]
fn fitness_is_deterministic() {
    let graph = burma_small();
    let route = [3, 1, 0, 2];
    let first = Chromosome::fitness(&route, &graph);
    let second = Chromosome::fitness(&route, &graph);
    assert_eq!(first, second);
    assert_eq!(first, Ok(664 + 153 + 510 + 289));
}

#[test]
fn fitness_of_an_empty_route_is_zero() {
    assert_eq!(Chromosome::fitness(&[], &burma_small()), Ok(0));
}

#[test]
fn fitness_counts_the_closing_leg() {
    // One direction only: 0 -> 1 costs 5, 1 -> 0 costs 7.
    let graph = Graph::new(vec![
        Vertex::new(vec![Edge::new(5, 1)]),
        Vertex::new(vec![Edge::new(7, 0)]),
    ]);
    assert_eq!(Chromosome::fitness(&[0, 1], &graph), Ok(12));
    assert_eq!(Chromosome::fitness(&[1, 0], &graph), Ok(12));
}

#[test]
fn fitness_sums_parallel_edges() {
    let graph = Graph::new(vec![
        Vertex::new(vec![Edge::new(5, 1), Edge::new(3, 1)]),
        Vertex::new(vec![Edge::new(7, 0)]),
    ]);
    assert_eq!(graph.cost_between(0, 1), Ok(8));
    assert_eq!(Chromosome::fitness(&[0, 1], &graph), Ok(15));
}

#[test]
fn fitness_rejects_a_missing_edge() {
    // No way back from city 1.
    let graph = Graph::new(vec![Vertex::new(vec![Edge::new(5, 1)]), Vertex::new(vec![])]);
    assert_eq!(Chromosome::fitness(&[0, 1], &graph), Err(TspError::MissingEdge));
    assert_eq!(graph.cost_between(1, 0), Err(TspError::MissingEdge));
    assert_eq!(graph.cost_between(2, 0), Err(TspError::MissingEdge));
    // A single city needs an edge to itself.
    assert_eq!(Chromosome::fitness(&[0], &graph), Err(TspError::MissingEdge));
}

#[test]
fn fitness_rejects_a_cost_beyond_64_bits() {
    let graph = Graph::new(vec![
        Vertex::new(vec![Edge::new(u64::MAX, 1)]),
        Vertex::new(vec![Edge::new(1, 0)]),
    ]);
    assert_eq!(Chromosome::fitness(&[0, 1], &graph), Err(TspError::CostOverflow));
    let parallel = Graph::new(vec![
        Vertex::new(vec![Edge::new(u64::MAX, 1), Edge::new(1, 1)]),
        Vertex::new(vec![Edge::new(1, 0)]),
    ]);
    assert_eq!(parallel.cost_between(0, 1), Err(TspError::CostOverflow));
    // A missing edge is reported before an overflow.
    let both = Graph::new(vec![
        Vertex::new(vec![Edge::new(u64::MAX, 1), Edge::new(1, 1)]),
        Vertex::new(vec![]),
    ]);
    assert_eq!(Chromosome::fitness(&[0, 1], &both), Err(TspError::MissingEdge));
}

#[test]
fn the_largest_cost_that_fits_is_accepted() {
    let graph = Graph::new(vec![
        Vertex::new(vec![Edge::new(u64::MAX - 1, 1)]),
        Vertex::new(vec![Edge::new(1, 0)]),
    ]);
    assert_eq!(Chromosome::fitness(&[0, 1], &graph), Ok(u64::MAX));
}

#[test]
fn evaluated_keeps_the_route_and_caches_the_cost() {
    let graph = burma_small();
    let tour = Chromosome::evaluated(vec![2, 0, 1, 3], &graph).unwrap();
    assert_eq!(tour.route, vec![2, 0, 1, 3]);
    assert_eq!(tour.cost, 1616);
    assert_eq!(
        Chromosome::evaluated(vec![0, 1, 2, 9], &graph).map(|tour| tour.cost),
        Err(TspError::MissingEdge)
    );
}

#[test]
fn generation_gives_a_permutation_with_its_cost() {
    let graph = complete(9);
    for _ in 0..50 {
        let tour = Chromosome::generation(&graph).unwrap();
        assert_eq!(tour.route.len(), 9);
        assert!(is_permutation(&tour.route));
        assert_eq!(Ok(tour.cost), Chromosome::fitness(&tour.route, &graph));
    }
}

#[test]
fn generation_shuffles() {
    let graph = complete(12);
    let ordered: Vec<u32> = (0..12).collect();
    let mut moved = false;
    for _ in 0..20 {
        if Chromosome::generation(&graph).unwrap().route != ordered {
            moved = true;
        }
    }
    assert!(moved);
}

#[test]
fn generation_on_an_empty_graph_is_the_empty_tour() {
    let tour = Chromosome::generation(&Graph::new(vec![])).unwrap();
    assert!(tour.route.is_empty());
    assert_eq!(tour.cost, 0);
}

#[test]
fn generation_fails_on_an_incomplete_graph() {
    let graph = Graph::new(vec![Vertex::new(vec![Edge::new(5, 1)]), Vertex::new(vec![])]);
    assert_eq!(
        Chromosome::generation(&graph).map(|tour| tour.route),
        Err(TspError::MissingEdge)
    );
}

#[test]
fn tours_compare_by_cost_alone() {
    let cheap = Chromosome::new(vec![0, 1, 2], 10);
    let same_cost = Chromosome::new(vec![2, 1, 0], 10);
    let dear = Chromosome::new(vec![0, 1, 2], 11);
    assert!(cheap == same_cost);
    assert!(cheap != dear);
    assert!(cheap < dear);
    assert!(dear > cheap);
    assert!(cheap <= same_cost && cheap >= same_cost);
    assert_eq!(cheap.partial_cmp(&dear), Some(std::cmp::Ordering::Less));
    assert_eq!(cheap.partial_cmp(&same_cost), Some(std::cmp::Ordering::Equal));
    assert_eq!(dear.partial_cmp(&cheap), Some(std::cmp::Ordering::Greater));
}

#[test]
fn clone_copies_route_and_cost() {
    let tour = Chromosome::new(vec![3, 1, 2, 0], 77);
    let copy = tour.clone();
    assert_eq!(copy.route, vec![3, 1, 2, 0]);
    assert_eq!(copy.cost, 77);
}

#[test]
fn inversion_reverses_around_the_middle() {
    let mut tour = Chromosome::new(vec![0, 1, 2, 3, 4, 5], 9);
    tour.inversion(2, 4);
    assert_eq!(tour.route, vec![5, 4, 2, 3, 1, 0]);
    assert_eq!(tour.cost, 9);
}

#[test]
fn inversion_at_the_ends() {
    let mut tour = Chromosome::new(vec![0, 1, 2, 3, 4], 0);
    // Nothing before the segment: what follows it is reversed.
    tour.inversion(0, 2);
    assert_eq!(tour.route, vec![0, 1, 4, 3, 2]);
    let mut tour = Chromosome::new(vec![0, 1, 2, 3, 4], 0);
    // Nothing after the segment: what precedes it is reversed.
    tour.inversion(3, 5);
    assert_eq!(tour.route, vec![2, 1, 0, 3, 4]);
    let mut tour = Chromosome::new(vec![0, 1, 2, 3, 4], 0);
    // An empty segment: the whole route is reversed.
    tour.inversion(5, 5);
    assert_eq!(tour.route, vec![4, 3, 2, 1, 0]);
    let mut tour = Chromosome::new(vec![0, 1, 2, 3, 4], 0);
    // The whole route as the segment: nothing moves.
    tour.inversion(0, 5);
    assert_eq!(tour.route, vec![0, 1, 2, 3, 4]);
    let mut tour = Chromosome::new(vec![0, 1, 2, 3, 4], 0);
    tour.inversion(1, 2);
    assert_eq!(tour.route, vec![4, 1, 3, 2, 0]);
}

#[test]
fn swap_cities_exchanges_two_positions() {
    let mut tour = Chromosome::new(vec![0, 1, 2, 3], 5);
    tour.swap_cities(0, 3);
    assert_eq!(tour.route, vec![3, 1, 2, 0]);
    tour.swap_cities(1, 1);
    assert_eq!(tour.route, vec![3, 1, 2, 0]);
    assert_eq!(tour.cost, 5);
}

#[test]
fn mutation_at_applies_the_draw_and_recomputes_the_cost() {
    let graph = burma_small();
    let mut tour = Chromosome::evaluated(vec![0, 1, 2, 3], &graph).unwrap();
    assert_eq!(tour.mutation_at(MutationOperator::Single, &[0, 2], &graph), Ok(()));
    assert_eq!(tour.route, vec![2, 1, 0, 3]);
    assert_eq!(tour.cost, 289 + 422 + 153 + 706);

    let mut tour = Chromosome::evaluated(vec![0, 1, 2, 3], &graph).unwrap();
    assert_eq!(tour.mutation_at(MutationOperator::Multiple, &[0, 1, 2, 3], &graph), Ok(()));
    assert_eq!(tour.route, vec![1, 0, 3, 2]);
    assert_eq!(tour.cost, 422 + 153 + 706 + 289);

    // The second swap sees the result of the first.
    let mut tour = Chromosome::evaluated(vec![0, 1, 2, 3], &graph).unwrap();
    assert_eq!(tour.mutation_at(MutationOperator::Multiple, &[0, 1, 1, 2], &graph), Ok(()));
    assert_eq!(tour.route, vec![1, 2, 0, 3]);

    // The smaller cut comes first, whichever was drawn first.
    let mut tour = Chromosome::evaluated(vec![0, 1, 2, 3], &graph).unwrap();
    assert_eq!(tour.mutation_at(MutationOperator::Inversion, &[3, 1], &graph), Ok(()));
    assert_eq!(tour.route, vec![3, 1, 2, 0]);
    assert_eq!(tour.cost, 706 + 664 + 422 + 510);
    let mut tour = Chromosome::evaluated(vec![0, 1, 2, 3], &graph).unwrap();
    assert_eq!(tour.mutation_at(MutationOperator::Inversion, &[1, 3], &graph), Ok(()));
    assert_eq!(tour.route, vec![3, 1, 2, 0]);
}

#[test]
fn a_failed_mutation_leaves_the_tour_as_it_was() {
    // 0 -> 1 -> 2 -> 0 is connected, the opposite direction is not.
    let graph = Graph::new(vec![
        Vertex::new(vec![Edge::new(1, 1)]),
        Vertex::new(vec![Edge::new(2, 2)]),
        Vertex::new(vec![Edge::new(3, 0)]),
    ]);
    let mut tour = Chromosome::evaluated(vec![0, 1, 2], &graph).unwrap();
    assert_eq!(tour.cost, 6);
    assert_eq!(
        tour.mutation_at(MutationOperator::Single, &[0, 1], &graph),
        Err(TspError::MissingEdge)
    );
    assert_eq!(tour.route, vec![0, 1, 2]);
    assert_eq!(tour.cost, 6);
}

#[test]
fn every_mutation_keeps_the_permutation_and_the_cost_current() {
    let graph = complete(8);
    for operator in
        [MutationOperator::Inversion, MutationOperator::Single, MutationOperator::Multiple]
    {
        let mut tour = Chromosome::generation(&graph).unwrap();
        for _ in 0..200 {
            tour.mutation(operator, &graph).unwrap();
            assert!(is_permutation(&tour.route));
            assert_eq!(Ok(tour.cost), Chromosome::fitness(&tour.route, &graph));
        }
    }
}

#[test]
fn swaps_always_move_cities() {
    let graph = complete(6);
    for operator in [MutationOperator::Single, MutationOperator::Multiple] {
        for _ in 0..100 {
            let mut tour = Chromosome::evaluated(vec![0, 1, 2, 3, 4, 5], &graph).unwrap();
            tour.mutation(operator, &graph).unwrap();
            let moved = (0..6).filter(|i| tour.route[*i] != *i as u32).count();
            let expected = if operator == MutationOperator::Single { 2 } else { 4 };
            assert_eq!(moved, expected);
        }
    }
}

#[test]
fn inversion_cuts_are_drawn_within_the_route() {
    let graph = complete(2);
    // With two cities the cuts are 1 and 2: only the first city lies outside
    // the segment, so nothing moves.
    for _ in 0..50 {
        let mut tour = Chromosome::evaluated(vec![0, 1], &graph).unwrap();
        tour.mutation(MutationOperator::Inversion, &graph).unwrap();
        assert_eq!(tour.route, vec![0, 1]);
    }
}

#[test]
fn draws_cover_more_than_one_value() {
    let graph = complete(8);
    let mut seen = std::collections::BTreeSet::new();
    for _ in 0..200 {
        let mut tour = Chromosome::evaluated((0..8).collect(), &graph).unwrap();
        tour.mutation(MutationOperator::Single, &graph).unwrap();
        seen.insert(tour.route);
    }
    assert!(seen.len() > 1);
}

#[test]
fn fix_crossover_repairs_a_known_child() {
    let mut child = vec![2, 1, 0, 1];
    Chromosome::fix_crossover(&mut child, 3);
    assert_eq!(child, vec![2, 3, 0, 1]);
    let mut child = vec![0, 2, 3, 3];
    Chromosome::fix_crossover(&mut child, 3);
    assert_eq!(child, vec![0, 2, 1, 3]);
}

#[test]
fn fix_crossover_takes_duplicates_left_to_right_and_cities_ascending() {
    let mut child = vec![1, 0, 0, 1];
    Chromosome::fix_crossover(&mut child, 2);
    assert_eq!(child, vec![2, 3, 0, 1]);
    let mut child = vec![4, 3, 0, 1, 3, 4];
    Chromosome::fix_crossover(&mut child, 3);
    assert_eq!(child, vec![2, 5, 0, 1, 3, 4]);
}

#[test]
fn fix_crossover_leaves_a_permutation_alone() {
    let mut child = vec![3, 0, 2, 1];
    Chromosome::fix_crossover(&mut child, 1);
    assert_eq!(child, vec![3, 0, 2, 1]);
    let mut child: Vec<u32> = vec![];
    Chromosome::fix_crossover(&mut child, 0);
    assert!(child.is_empty());
}

#[test]
fn fix_crossover_on_a_city_held_three_times() {
    // Position 0 has two later twins and is listed twice, position 1 once;
    // the cities 1 and 2 are absent. Position 0 receives both in turn.
    let mut child = vec![0, 0, 0];
    Chromosome::fix_crossover(&mut child, 1);
    assert_eq!(child, vec![2, 0, 0]);
}

#[test]
fn splice_joins_head_and_tail() {
    assert_eq!(Chromosome::splice(&[2, 1, 0, 3], &[0, 2, 3, 1], 3), vec![2, 1, 0, 1]);
    assert_eq!(Chromosome::splice(&[2, 1, 0, 3], &[0, 2, 3, 1], 0), vec![0, 2, 3, 1]);
    assert_eq!(Chromosome::splice(&[2, 1, 0, 3], &[0, 2, 3, 1], 4), vec![2, 1, 0, 3]);
}

#[test]
fn crossover_at_with_fix_gives_both_children_with_their_costs() {
    let graph = burma_small();
    let first = Chromosome::evaluated(vec![2, 1, 0, 3], &graph).unwrap();
    let second = Chromosome::evaluated(vec![0, 2, 3, 1], &graph).unwrap();
    let (child_one, child_two) =
        first.crossover_at(&second, CrossoverOperator::Fix, &[3], &graph).unwrap();
    assert_eq!(child_one.route, vec![2, 3, 0, 1]);
    assert_eq!(child_one.cost, 422 + 289 + 706 + 153);
    assert_eq!(child_two.route, vec![0, 2, 1, 3]);
    assert_eq!(child_two.cost, 706 + 510 + 422 + 664);
}

#[test]
fn crossover_at_with_ordered_gives_both_children_with_their_costs() {
    let graph = complete(8);
    let first = Chromosome::evaluated(vec![0, 1, 2, 3, 4, 5, 6, 7], &graph).unwrap();
    let second = Chromosome::evaluated(vec![7, 6, 5, 4, 3, 2, 1, 0], &graph).unwrap();
    let (child_one, child_two) =
        first.crossover_at(&second, CrossoverOperator::Ordered, &[1, 2, 5, 6], &graph).unwrap();
    assert_eq!(child_one.route, vec![7, 1, 2, 4, 3, 5, 6, 0]);
    assert_eq!(child_two.route, vec![0, 6, 5, 3, 4, 2, 1, 7]);
    assert_eq!(Ok(child_one.cost), Chromosome::fitness(&child_one.route, &graph));
    assert_eq!(Ok(child_two.cost), Chromosome::fitness(&child_two.route, &graph));
}

#[test]
fn crossover_reports_a_child_without_cost() {
    let graph = Graph::new(vec![
        Vertex::new(vec![Edge::new(1, 1)]),
        Vertex::new(vec![Edge::new(2, 2)]),
        Vertex::new(vec![Edge::new(3, 0)]),
    ]);
    let first = Chromosome::new(vec![0, 1, 2], 6);
    let second = Chromosome::new(vec![0, 2, 1], 0);
    // The children are [0, 2, 1] and [0, 1, 2]; the first has no cost.
    assert_eq!(
        first
            .crossover_at(&second, CrossoverOperator::Fix, &[1], &graph)
            .map(|children| children.0.cost),
        Err(TspError::MissingEdge)
    );
}

#[test]
fn ordered_crossover_with_adjacent_and_empty_segments() {
    let first: Vec<u32> = vec![3, 0, 4, 1, 2];
    let second: Vec<u32> = vec![0, 1, 2, 3, 4];
    let first_parent: &[u32] = &first;
    let second_parent: &[u32] = &second;
    // Segments [0, 1] and [2, 3]: only the last position is open.
    assert_eq!(
        Chromosome::ordered_crossover(&first_parent, &second_parent, &[0, 1, 2, 3]),
        Ok(vec![3, 0, 4, 1, 2])
    );
    // Two empty segments: the child is the second parent.
    assert_eq!(
        Chromosome::ordered_crossover(&first_parent, &second_parent, &[1, 0, 3, 2]),
        Ok(vec![0, 1, 2, 3, 4])
    );
    // Overlapping segments [1, 3] and [2, 4].
    assert_eq!(
        Chromosome::ordered_crossover(&first_parent, &second_parent, &[1, 3, 2, 4]),
        Ok(vec![3, 0, 4, 1, 2])
    );
    // One segment, [2, 2], and an empty one.
    assert_eq!(
        Chromosome::ordered_crossover(&first_parent, &second_parent, &[2, 2, 1, 0]),
        Ok(vec![0, 1, 4, 2, 3])
    );
}

#[test]
fn ordered_crossover_rejects_points_outside_the_parent() {
    let first: Vec<u32> = vec![0, 1, 2, 3];
    let first_parent: &[u32] = &first;
    for points in [[0, 4, 1, 2], [0, 1, 2, 4], [2, 0, 1, 3], [0, 1, 3, 1], [0, usize::MAX, 1, 2]] {
        assert_eq!(
            Chromosome::ordered_crossover(&first_parent, &first_parent, &points),
            Err(TspError::InvalidCrossoverPoints)
        );
    }
}

#[test]
fn ordered_crossover_reports_a_city_that_the_other_parent_lacks() {
    let first: Vec<u32> = vec![0, 1, 2, 3];
    let second: Vec<u32> = vec![0, 1, 2, 2];
    let first_parent: &[u32] = &first;
    let second_parent: &[u32] = &second;
    assert_eq!(
        Chromosome::ordered_crossover(&first_parent, &second_parent, &[0, 0, 1, 1]),
        Err(TspError::CityNotFound)
    );
    // Inside a segment the city is kept and need not be located.
    assert_eq!(
        Chromosome::ordered_crossover(&first_parent, &second_parent, &[0, 0, 3, 3]),
        Ok(vec![0, 1, 2, 3])
    );
}

#[test]
fn ordered_crossover_skips_a_city_that_the_child_holds_already() {
    // City 0 sits in both segments; the only displaced city, 1, takes the
    // only open position.
    let first: Vec<u32> = vec![0, 1, 0, 2];
    let second: Vec<u32> = vec![2, 1, 0, 3];
    let first_parent: &[u32] = &first;
    let second_parent: &[u32] = &second;
    assert_eq!(
        Chromosome::ordered_crossover(&first_parent, &second_parent, &[0, 0, 2, 3]),
        Ok(vec![0, 1, 0, 2])
    );
}

#[test]
fn ordered_crossover_counts_a_repeated_city_where_it_is_visited_last() {
    let first: Vec<u32> = vec![0, 1, 2, 3];
    let second: Vec<u32> = vec![1, 3, 1, 2];
    let first_parent: &[u32] = &first;
    let second_parent: &[u32] = &second;
    // City 0 stays; 3, 1, 2 follow by their last visit in the other parent.
    assert_eq!(
        Chromosome::ordered_crossover(&first_parent, &second_parent, &[0, 0, 1, 0]),
        Ok(vec![0, 3, 1, 2])
    );
}

#[test]
fn every_crossover_gives_two_permutations_with_current_costs() {
    let graph = complete(9);
    for operator in [CrossoverOperator::Fix, CrossoverOperator::Ordered] {
        for _ in 0..200 {
            let first = Chromosome::generation(&graph).unwrap();
            let second = Chromosome::generation(&graph).unwrap();
            let (child_one, child_two) = first.crossover(&second, operator, &graph).unwrap();
            for child in [child_one, child_two] {
                assert_eq!(child.route.len(), 9);
                assert!(is_permutation(&child.route));
                assert_eq!(Ok(child.cost), Chromosome::fitness(&child.route, &graph));
            }
        }
    }
}

#[test]
fn crossover_with_fix_keeps_a_prefix_of_each_parent() {
    let graph = complete(6);
    let first = Chromosome::evaluated(vec![0, 1, 2, 3, 4, 5], &graph).unwrap();
    let second = Chromosome::evaluated(vec![5, 4, 3, 2, 1, 0], &graph).unwrap();
    for _ in 0..100 {
        let (child_one, child_two) =
            first.crossover(&second, CrossoverOperator::Fix, &graph).unwrap();
        // The cut is within 1..len, so the last city comes from the other
        // parent and is never repaired.
        assert_eq!(child_one.route[5], 0);
        assert_eq!(child_two.route[5], 5);
    }
}

#[test]
fn crossover_of_a_tour_with_itself_gives_the_tour() {
    let graph = complete(7);
    let tour = Chromosome::generation(&graph).unwrap();
    for operator in [CrossoverOperator::Fix, CrossoverOperator::Ordered] {
        let (child_one, child_two) = tour.crossover(&tour, operator, &graph).unwrap();
        assert_eq!(child_one.route, tour.route);
        assert_eq!(child_two.route, tour.route);
        assert_eq!(child_one.cost, tour.cost);
    }
}
