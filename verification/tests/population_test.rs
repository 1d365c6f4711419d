use tsp_coursework::chromosome::Chromosome;
use tsp_coursework::country::{Country, Edge, Graph, Vertex};
use tsp_coursework::error::TspError;
use tsp_coursework::interface::{
    Cli, CrossoverOperator, MutationOperator, PlotOperator, PlotStatistic, TournamentReach,
};
use tsp_coursework::population::Population;
use tsp_coursework::simulation::Simulation;
use tsp_coursework::NUMBER_OF_GENERATIONS;

/// Four cities with the costs 0-1: 153, 0-2: 510, 0-3: 706, 1-2: 422,
/// 1-3: 664, 2-3: 289, the same in both directions.
fn small_graph() -> Graph {
    let costs: [[u64; 4]; 4] =
        [[0, 153, 510, 706], [153, 0, 422, 664], [510, 422, 0, 289], [706, 664, 289, 0]];
    let mut vertex = Vec::new();
    for from in 0..4 {
        let mut edges = Vec::new();
        for to in 0..4 {
            if from != to {
                edges.push(Edge::new(costs[from][to], to as u32));
            }
        }
        vertex.push(Vertex::new(edges));
    }
    Graph::new(vertex)
}

/// A complete graph of `n` cities where travelling from `a` to `b` costs
/// `(7 * a + 3 * b) % 23 + 1`.
fn uneven_graph(n: u32) -> Graph {
    let mut vertex = Vec::new();
    for from in 0..n {
        let mut edges = Vec::new();
        for to in 0..n {
            if from != to {
                edges.push(Edge::new(((7 * from + 3 * to) % 23 + 1) as u64, to));
            }
        }
        vertex.push(Vertex::new(edges));
    }
    Graph::new(vertex)
}

fn country(graph: Graph) -> Country {
    Country {
        name: String::from("burma14"),
        source: String::from("TSPLIB"),
        description: String::from("14-Staedte in Burma (Zaw Win)"),
        double_precision: 15,
        ignored_digits: 5,
        graph,
    }
}

fn with_costs(costs: &[u64]) -> Vec<Chromosome> {
    costs.iter().enumerate().map(|(i, cost)| Chromosome::new(vec![i as u32], *cost)).collect()
}

fn population_of(costs: &[u64]) -> Population {
    let population_data = with_costs(costs);
    Population {
        population_size: costs.len() as u64,
        average_population_cost: Population::find_average_cost(&population_data),
        best_chromosome: Population::find_best_chromosome(&population_data).unwrap(),
        worst_chromosome: Population::find_worst_chromosome(&population_data).unwrap(),
        population_data,
    }
}

fn costs_of(population: &Population) -> Vec<u64> {
    population.population_data.iter().map(|tour| tour.cost).collect()
}

fn is_permutation(route: &[u32]) -> bool {
    let mut seen = vec![false; route.len()];
    for city in route {
        let city = *city as usize;
        if city >= route.len() || seen[city] {
            return false;
        }
        seen[city] = true;
    }
    true
}

fn check_statistics(population: &Population, graph: &Graph) {
    let costs = costs_of(population);
    assert_eq!(population.population_data.len() as u64, population.population_size);
    assert_eq!(population.best_chromosome.cost, *costs.iter().min().unwrap());
    assert_eq!(population.worst_chromosome.cost, *costs.iter().max().unwrap());
    let total: u128 = costs.iter().map(|cost| *cost as u128).sum();
    assert_eq!(population.average_population_cost as u128, total / costs.len() as u128);
    for tour in &population.population_data {
        assert!(is_permutation(&tour.route));
        assert_eq!(Ok(tour.cost), Chromosome::fitness(&tour.route, graph));
    }
}

#[test]
fn test_manual() {
    let burma_small = small_graph();

    let mut test_pop = Population::new(10, &burma_small).unwrap();

    println!("This is the test pop before: {:?}", test_pop.population_data);
    println!("This is the test pop average before: {:?}", test_pop.average_population_cost);

    let parent_1 = test_pop.run_tournament(5);

    let parent_2 = test_pop.run_tournament(5);

    println!("parents selected are {:?} and {:?}", parent_1, parent_2);

    let (mut first_child, mut second_child) =
        parent_1.crossover(&parent_2, CrossoverOperator::Fix, &burma_small).unwrap();

    println!("children selected are {:?} and {:?}", first_child, second_child);

    first_child.mutation(MutationOperator::Single, &burma_small).unwrap();
    second_child.mutation(MutationOperator::Single, &burma_small).unwrap();

    println!("children mutated are {:?} and {:?}", first_child, second_child);

    test_pop.replacement(first_child);

    test_pop.replacement(second_child);

    println!("This is the test pop after: {:?}", test_pop.population_data);
    println!("This is the test pop average after: {:?}", test_pop.average_population_cost);
    assert_eq!(test_pop.population_data.len(), 10);
}

#[test]
fn test_auto() {
    let burma_small = small_graph();

    let mut test_pop = Population::new(10, &burma_small).unwrap();

    println!("This is the test pop average before: {:?}", test_pop.average_population_cost);

    test_pop
        .selection_and_replacement(
            5,
            CrossoverOperator::Fix,
            MutationOperator::Single,
            &burma_small,
        )
        .unwrap();

    println!("This is the test pop average after: {:?}", test_pop.average_population_cost);
    check_statistics(&test_pop, &burma_small);
}

#[test]
fn a_new_population_is_full_and_its_statistics_are_current() {
    let graph = uneven_graph(7);
    let population = Population::new(25, &graph).unwrap();
    assert_eq!(population.population_size, 25);
    check_statistics(&population, &graph);
}

#[test]
fn a_population_of_nobody_is_refused() {
    assert_eq!(
        Population::new(0, &small_graph()).map(|population| population.population_size),
        Err(TspError::EmptyPopulation)
    );
}

#[test]
fn a_population_on_an_incomplete_graph_is_refused() {
    let graph = Graph::new(vec![Vertex::new(vec![Edge::new(5, 1)]), Vertex::new(vec![])]);
    assert_eq!(
        Population::new(3, &graph).map(|population| population.population_size),
        Err(TspError::MissingEdge)
    );
}

#[test]
fn the_average_is_the_mean_rounded_down() {
    assert_eq!(Population::find_average_cost(&with_costs(&[10, 20, 40])), 23);
    assert_eq!(Population::find_average_cost(&with_costs(&[7])), 7);
    assert_eq!(Population::find_average_cost(&with_costs(&[1, 2])), 1);
    assert_eq!(Population::find_average_cost(&[]), 0);
    assert_eq!(Population::find_average_cost(&with_costs(&[u64::MAX, u64::MAX])), u64::MAX);
    assert_eq!(
        Population::find_average_cost(&with_costs(&[u64::MAX, u64::MAX - 1, 0])),
        ((2 * u64::MAX as u128 - 1) / 3) as u64
    );
}

#[test]
fn the_worst_is_the_last_of_the_most_expensive() {
    let individuals = with_costs(&[5, 9, 3, 9, 4]);
    assert_eq!(Population::worst_index(&individuals), Some(3));
    let worst = Population::find_worst_chromosome(&individuals).unwrap();
    assert_eq!(worst.cost, 9);
    assert_eq!(worst.route, vec![3]);
    assert_eq!(Population::worst_index(&with_costs(&[4, 4, 4])), Some(2));
    assert_eq!(Population::worst_index(&[]), None);
}

#[test]
fn the_best_is_the_first_of_the_cheapest() {
    let individuals = with_costs(&[5, 3, 9, 3, 4]);
    assert_eq!(Population::best_index(&individuals), Some(1));
    let best = Population::find_best_chromosome(&individuals).unwrap();
    assert_eq!(best.cost, 3);
    assert_eq!(best.route, vec![1]);
    assert_eq!(Population::best_index(&with_costs(&[4, 4, 4])), Some(0));
    assert_eq!(Population::best_index(&[]), None);
}

#[test]
fn best_and_worst_of_nobody_are_refused() {
    assert_eq!(
        Population::find_best_chromosome(&[]).map(|tour| tour.cost),
        Err(TspError::EmptyPopulation)
    );
    assert_eq!(
        Population::find_worst_chromosome(&[]).map(|tour| tour.cost),
        Err(TspError::EmptyPopulation)
    );
}

#[test]
fn replacement_takes_a_child_that_is_no_worse() {
    let mut population = population_of(&[5, 9, 3, 9, 4]);
    assert_eq!(population.replacement(Chromosome::new(vec![7], 9)), Some(()));
    assert_eq!(costs_of(&population), vec![5, 9, 3, 9, 4]);
    assert_eq!(population.population_data[3].route, vec![7]);
    assert_eq!(population.replacement(Chromosome::new(vec![8], 2)), Some(()));
    assert_eq!(costs_of(&population), vec![5, 9, 3, 2, 4]);
    assert_eq!(population.replacement(Chromosome::new(vec![8], 6)), Some(()));
    assert_eq!(costs_of(&population), vec![5, 6, 3, 2, 4]);
}

#[test]
fn replacement_discards_a_child_that_is_worse() {
    let mut population = population_of(&[5, 9, 3]);
    assert_eq!(population.replacement(Chromosome::new(vec![7], 10)), Some(()));
    assert_eq!(costs_of(&population), vec![5, 9, 3]);
    assert_eq!(population.population_data[1].route, vec![1]);
}

#[test]
fn replacement_leaves_the_statistics_alone() {
    let mut population = population_of(&[5, 9, 3]);
    population.replacement(Chromosome::new(vec![7], 1));
    assert_eq!(costs_of(&population), vec![5, 1, 3]);
    assert_eq!(population.best_chromosome.cost, 3);
    assert_eq!(population.worst_chromosome.cost, 9);
    assert_eq!(population.average_population_cost, 5);
    assert_eq!(population.population_size, 3);
}

#[test]
fn replacement_in_an_empty_population_does_nothing() {
    let mut population = Population {
        population_size: 0,
        population_data: vec![],
        average_population_cost: 0,
        best_chromosome: Chromosome::new(vec![], 0),
        worst_chromosome: Chromosome::new(vec![], 0),
    };
    assert_eq!(population.replacement(Chromosome::new(vec![7], 1)), None);
    assert!(population.population_data.is_empty());
}

#[test]
fn replacement_never_raises_the_worst_or_the_best_cost() {
    let graph = uneven_graph(6);
    let mut population = Population::new(12, &graph).unwrap();
    for _ in 0..300 {
        let before = costs_of(&population);
        let child = Chromosome::generation(&graph).unwrap();
        let child_cost = child.cost;
        population.replacement(child);
        let after = costs_of(&population);
        assert!(after.iter().max() <= before.iter().max());
        assert!(after.iter().min() <= before.iter().min());
        if child_cost <= *before.iter().max().unwrap() {
            assert!(after.contains(&child_cost));
        } else {
            assert_eq!(after, before);
        }
    }
}

#[test]
fn the_winner_is_the_first_of_the_cheapest_entrants() {
    let winner = Population::winner(with_costs(&[5, 3, 9, 3, 4]));
    assert_eq!(winner.cost, 3);
    assert_eq!(winner.route, vec![1]);
    assert_eq!(Population::winner(with_costs(&[8])).cost, 8);
}

#[test]
fn a_tournament_of_everybody_is_won_by_the_cheapest() {
    let population = population_of(&[5, 3, 9, 2, 4]);
    for _ in 0..20 {
        assert_eq!(population.run_tournament(5).cost, 2);
        assert_eq!(population.run_tournament(9).cost, 2);
    }
}

#[test]
fn a_tournament_winner_is_an_individual() {
    let population = population_of(&[5, 3, 9, 2, 4, 8, 7]);
    for _ in 0..100 {
        let winner = population.run_tournament(3);
        let found = population
            .population_data
            .iter()
            .any(|tour| tour.route == winner.route && tour.cost == winner.cost);
        assert!(found);
        // Of seven individuals with distinct costs, three are drawn: the two
        // most expensive can never win.
        assert!(winner.cost <= 7);
    }
}

#[test]
fn a_tournament_draws_only_part_of_the_population() {
    let population = population_of(&[5, 3, 9, 2, 4, 8, 7, 6, 1, 10]);
    let mut winners = std::collections::BTreeSet::new();
    for _ in 0..200 {
        winners.insert(population.run_tournament(1).cost);
    }
    assert!(winners.len() > 1);
}

#[test]
fn a_step_keeps_the_population_well_formed() {
    for crossover_operator in [CrossoverOperator::Fix, CrossoverOperator::Ordered] {
        for mutation_operator in
            [MutationOperator::Inversion, MutationOperator::Single, MutationOperator::Multiple]
        {
            let graph = uneven_graph(8);
            let mut population = Population::new(10, &graph).unwrap();
            for _ in 0..100 {
                let before = costs_of(&population);
                population
                    .selection_and_replacement(3, crossover_operator, mutation_operator, &graph)
                    .unwrap();
                let after = costs_of(&population);
                check_statistics(&population, &graph);
                assert!(after.iter().max() <= before.iter().max());
                assert!(after.iter().min() <= before.iter().min());
            }
        }
    }
}

#[test]
fn a_failed_step_leaves_the_population_as_it_was() {
    // All tours 0 -> 1 -> 2 -> 0 and its rotations cost 6; the opposite
    // direction has no cost.
    let graph = Graph::new(vec![
        Vertex::new(vec![Edge::new(1, 1)]),
        Vertex::new(vec![Edge::new(2, 2)]),
        Vertex::new(vec![Edge::new(3, 0)]),
    ]);
    let population_data = vec![
        Chromosome::new(vec![0, 1, 2], 6),
        Chromosome::new(vec![1, 2, 0], 6),
        Chromosome::new(vec![2, 0, 1], 6),
    ];
    let mut population = Population {
        population_size: 3,
        average_population_cost: 6,
        best_chromosome: population_data[0].clone(),
        worst_chromosome: population_data[2].clone(),
        population_data,
    };
    // Whatever the crossover gives, a single swap turns the direction round.
    let outcome = population.selection_and_replacement(
        2,
        CrossoverOperator::Fix,
        MutationOperator::Single,
        &graph,
    );
    assert_eq!(outcome, Err(TspError::MissingEdge));
    assert_eq!(population.population_data.len(), 3);
    assert_eq!(population.population_data[0].route, vec![0, 1, 2]);
    assert_eq!(population.population_data[1].route, vec![1, 2, 0]);
    assert_eq!(population.population_data[2].route, vec![2, 0, 1]);
}

#[test]
fn a_new_simulation_records_generation_zero() {
    let simulation = Simulation::new(
        country(uneven_graph(6)),
        CrossoverOperator::Ordered,
        MutationOperator::Inversion,
        10,
        4,
    )
    .unwrap();
    assert_eq!(simulation.generations as usize, NUMBER_OF_GENERATIONS);
    assert_eq!(NUMBER_OF_GENERATIONS, 10000);
    assert_eq!(simulation.population_size, 10);
    assert_eq!(simulation.tournament_size, 4);
    assert_eq!(simulation.crossover_operator, CrossoverOperator::Ordered);
    assert_eq!(simulation.mutation_operator, MutationOperator::Inversion);
    assert_eq!(simulation.country_data.name, "burma14");
    assert_eq!(simulation.best_chromosome.len(), 1);
    assert_eq!(simulation.worst_chromosome.len(), 1);
    assert_eq!(simulation.average_cost.len(), 1);
    assert_eq!(simulation.best_chromosome[0].cost, simulation.population.best_chromosome.cost);
    assert_eq!(simulation.worst_chromosome[0].cost, simulation.population.worst_chromosome.cost);
    assert_eq!(simulation.average_cost[0], simulation.population.average_population_cost);
    check_statistics(&simulation.population, &simulation.country_data.graph);
}

#[test]
fn a_simulation_of_nobody_is_refused() {
    let outcome = Simulation::new(
        country(small_graph()),
        CrossoverOperator::Fix,
        MutationOperator::Single,
        0,
        2,
    );
    assert_eq!(outcome.map(|simulation| simulation.population_size), Err(TspError::EmptyPopulation));
}

#[test]
fn advance_adds_one_entry_to_each_history() {
    let mut simulation = Simulation::new(
        country(uneven_graph(6)),
        CrossoverOperator::Fix,
        MutationOperator::Multiple,
        10,
        3,
    )
    .unwrap();
    for generation in 1..50 {
        assert_eq!(simulation.advance(), Ok(()));
        assert_eq!(simulation.best_chromosome.len(), generation + 1);
        assert_eq!(simulation.worst_chromosome.len(), generation + 1);
        assert_eq!(simulation.average_cost.len(), generation + 1);
        assert_eq!(
            simulation.best_chromosome[generation].cost,
            simulation.population.best_chromosome.cost
        );
        assert_eq!(
            simulation.worst_chromosome[generation].cost,
            simulation.population.worst_chromosome.cost
        );
        assert_eq!(
            simulation.average_cost[generation],
            simulation.population.average_population_cost
        );
        assert!(
            simulation.best_chromosome[generation].cost
                <= simulation.best_chromosome[generation - 1].cost
        );
    }
}

#[test]
fn a_run_records_every_generation_and_the_best_cost_never_rises() {
    for crossover_operator in [CrossoverOperator::Fix, CrossoverOperator::Ordered] {
        let mut simulation = Simulation::new(
            country(uneven_graph(7)),
            crossover_operator,
            MutationOperator::Single,
            10,
            3,
        )
        .unwrap();
        assert_eq!(simulation.run(), Ok(()));
        assert_eq!(simulation.best_chromosome.len(), NUMBER_OF_GENERATIONS);
        assert_eq!(simulation.worst_chromosome.len(), NUMBER_OF_GENERATIONS);
        assert_eq!(simulation.average_cost.len(), NUMBER_OF_GENERATIONS);
        for generation in 1..NUMBER_OF_GENERATIONS {
            assert!(
                simulation.best_chromosome[generation].cost
                    <= simulation.best_chromosome[generation - 1].cost
            );
            assert!(
                simulation.worst_chromosome[generation].cost
                    <= simulation.worst_chromosome[generation - 1].cost
            );
            assert!(
                simulation.best_chromosome[generation].cost
                    <= simulation.average_cost[generation]
            );
            assert!(
                simulation.average_cost[generation]
                    <= simulation.worst_chromosome[generation].cost
            );
        }
        check_statistics(&simulation.population, &simulation.country_data.graph);
    }
}

#[test]
fn a_run_with_few_generations() {
    let mut simulation = Simulation::new(
        country(small_graph()),
        CrossoverOperator::Fix,
        MutationOperator::Single,
        10,
        5,
    )
    .unwrap();
    simulation.generations = 3;
    assert_eq!(simulation.run(), Ok(()));
    assert_eq!(simulation.best_chromosome.len(), 3);
    simulation.generations = 1;
    assert_eq!(simulation.run(), Ok(()));
    assert_eq!(simulation.best_chromosome.len(), 3);
    simulation.generations = 0;
    assert_eq!(simulation.run(), Ok(()));
    assert_eq!(simulation.best_chromosome.len(), 3);
}

#[test]
fn the_default_settings_are_accepted() {
    let settings = Cli::default();
    assert_eq!(settings.crossover_operator, CrossoverOperator::Fix);
    assert_eq!(settings.mutation_operator, MutationOperator::Single);
    assert_eq!(settings.population_size, 50);
    assert_eq!(settings.tournament_size, 5);
    assert_eq!(settings.number_runs, 1);
    assert_eq!(settings.plot_operator, PlotOperator::Average);
    assert_eq!(settings.statistic_plotted, PlotStatistic::Average);
    assert_eq!(settings.validate(), Ok(TournamentReach::Part));
}

#[test]
fn settings_below_the_minimums_are_refused() {
    let settings = Cli { population_size: 9, ..Cli::default() };
    assert_eq!(settings.validate(), Err(TspError::PopulationTooSmall));
    let settings = Cli { tournament_size: 1, ..Cli::default() };
    assert_eq!(settings.validate(), Err(TspError::TournamentTooSmall));
    let settings = Cli { number_runs: 0, ..Cli::default() };
    assert_eq!(settings.validate(), Err(TspError::NoRuns));
    let settings = Cli { population_size: 9, tournament_size: 1, number_runs: 0, ..Cli::default() };
    assert_eq!(settings.validate(), Err(TspError::PopulationTooSmall));
    let settings = Cli { population_size: 10, tournament_size: 2, ..Cli::default() };
    assert_eq!(settings.validate(), Ok(TournamentReach::Part));
}

#[test]
fn a_tournament_larger_than_the_population_is_refused() {
    let settings = Cli { population_size: 10, tournament_size: 11, ..Cli::default() };
    assert_eq!(settings.validate(), Err(TspError::TournamentTooLarge));
    let settings = Cli { population_size: 10, tournament_size: 10, ..Cli::default() };
    assert_eq!(settings.validate(), Ok(TournamentReach::Whole));
    // The comparison is made in 64 bits.
    let settings =
        Cli { population_size: (1 << 32) + 5, tournament_size: 6, ..Cli::default() };
    assert_eq!(settings.validate(), Ok(TournamentReach::Part));
}

#[test]
fn every_failure_has_a_message() {
    let failures = [
        TspError::MissingEdge,
        TspError::CostOverflow,
        TspError::InvalidCrossoverPoints,
        TspError::CityNotFound,
        TspError::EmptyPopulation,
        TspError::PopulationTooSmall,
        TspError::TournamentTooSmall,
        TspError::TournamentTooLarge,
        TspError::NoRuns,
    ];
    let mut messages = std::collections::BTreeSet::new();
    for failure in failures {
        assert!(!failure.message().is_empty());
        messages.insert(failure.message());
    }
    assert_eq!(messages.len(), failures.len());
    assert_eq!(
        TspError::MissingEdge.message(),
        "no edge between two consecutive cities of the tour"
    );
    assert_eq!(
        TspError::TournamentTooLarge.message(),
        "the tournament size is greater than the population size"
    );
    assert_eq!(TspError::EmptyPopulation.message(), "the population is empty");
}
