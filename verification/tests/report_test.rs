use tsp_coursework::chromosome::Chromosome;
use tsp_coursework::country::{Country, Edge, Graph, Vertex};
use tsp_coursework::interface::{CrossoverOperator, MutationOperator, PlotStatistic};
use tsp_coursework::mutation::{draw_other, RETRY_BUDGET};
use tsp_coursework::ordered::sort_ascending;
use tsp_coursework::population::Population;
use tsp_coursework::report::{best_run, highest_start, statistic_series, worst_run};
use tsp_coursework::simulation::Simulation;

fn tours(costs: &[u64]) -> Vec<Chromosome> {
    costs.iter().map(|cost| Chromosome::new(vec![0], *cost)).collect()
}

/// A simulation with the given histories on record.
fn recorded(best: &[u64], worst: &[u64], average: &[u64]) -> Simulation {
    let individuals = tours(&[1]);
    Simulation {
        country_data: Country {
            name: String::from("one"),
            source: String::new(),
            description: String::new(),
            double_precision: 15,
            ignored_digits: 5,
            graph: Graph::new(vec![Vertex::new(vec![Edge::new(1, 0)])]),
        },
        population: Population {
            population_size: 1,
            average_population_cost: 1,
            best_chromosome: individuals[0].clone(),
            worst_chromosome: individuals[0].clone(),
            population_data: individuals,
        },
        crossover_operator: CrossoverOperator::Fix,
        mutation_operator: MutationOperator::Single,
        population_size: 1,
        tournament_size: 2,
        generations: 3,
        best_chromosome: tours(best),
        worst_chromosome: tours(worst),
        average_cost: average.to_vec(),
    }
}

#[test]
fn a_series_holds_the_statistic_of_every_generation() {
    let simulation = recorded(&[5, 4, 4], &[9, 9, 7], &[7, 6, 5]);
    assert_eq!(statistic_series(&simulation, PlotStatistic::Best), vec![5, 4, 4]);
    assert_eq!(statistic_series(&simulation, PlotStatistic::Worst), vec![9, 9, 7]);
    assert_eq!(statistic_series(&simulation, PlotStatistic::Average), vec![7, 6, 5]);
    let nothing = recorded(&[], &[], &[]);
    assert!(statistic_series(&nothing, PlotStatistic::Best).is_empty());
    assert!(statistic_series(&nothing, PlotStatistic::Average).is_empty());
}

#[test]
fn the_best_run_is_the_first_that_ended_lowest() {
    let series = vec![vec![9, 5], vec![8, 3], vec![1, 4], vec![7, 3]];
    assert_eq!(best_run(&series), Some(1));
    assert_eq!(best_run(&[vec![2]]), Some(0));
    assert_eq!(best_run(&[]), None);
}

#[test]
fn the_worst_run_is_the_last_that_ended_highest() {
    let series = vec![vec![1, 6], vec![8, 3], vec![9, 6], vec![7, 2]];
    assert_eq!(worst_run(&series), Some(2));
    assert_eq!(worst_run(&[vec![2]]), Some(0));
    assert_eq!(worst_run(&[]), None);
}

#[test]
fn the_chart_is_as_high_as_the_worst_start() {
    let data = vec![
        recorded(&[5], &[9, 20], &[7]),
        recorded(&[5], &[12, 1], &[7]),
        recorded(&[5], &[11], &[7]),
    ];
    assert_eq!(highest_start(&data), Some(12));
    assert_eq!(highest_start(&[]), Some(0));
    assert_eq!(highest_start(&[recorded(&[5], &[0], &[7])]), Some(0));
}

#[test]
fn a_run_without_record_has_no_height() {
    let data = vec![recorded(&[5], &[9], &[7]), recorded(&[5], &[], &[7])];
    assert_eq!(highest_start(&data), None);
}

#[test]
fn draw_other_avoids_the_taken_value() {
    let mut generator = rand::thread_rng();
    for _ in 0..200 {
        assert_eq!(draw_other(&mut generator, 3, 4, 3), 4);
        assert_eq!(draw_other(&mut generator, 3, 4, 4), 3);
        let drawn = draw_other(&mut generator, 0, 5, 2);
        assert!(drawn <= 5 && drawn != 2);
        let drawn = draw_other(&mut generator, 10, 12, 12);
        assert!(drawn == 10 || drawn == 11);
    }
    assert_eq!(RETRY_BUDGET, 64);
}

#[test]
fn draw_other_reaches_every_other_value() {
    let mut generator = rand::thread_rng();
    let mut seen = [false; 6];
    for _ in 0..500 {
        seen[draw_other(&mut generator, 0, 5, 2)] = true;
    }
    assert_eq!(seen, [true, true, false, true, true, true]);
}

#[test]
fn sort_ascending_orders_the_points() {
    let mut points = vec![7, 2, 9, 4];
    sort_ascending(&mut points);
    assert_eq!(points, vec![2, 4, 7, 9]);
    let mut points = vec![3, 1, 3, 0, 1];
    sort_ascending(&mut points);
    assert_eq!(points, vec![0, 1, 1, 3, 3]);
    let mut points: Vec<usize> = vec![];
    sort_ascending(&mut points);
    assert!(points.is_empty());
    let mut points = vec![5];
    sort_ascending(&mut points);
    assert_eq!(points, vec![5]);
}

#[test]
fn edges_and_vertices_keep_what_they_are_given() {
    let edge = Edge::new(153, 1);
    assert_eq!(edge.cost, 153);
    assert_eq!(edge.destination_city, 1);
    let copy = edge.clone();
    assert_eq!(copy.cost, 153);
    assert_eq!(copy.destination_city, 1);
    let vertex = Vertex::new(vec![edge, copy]);
    assert_eq!(vertex.edges.len(), 2);
    let graph = Graph::new(vec![vertex]);
    assert_eq!(graph.vertex.len(), 1);
    assert_eq!(graph.cost_between(0, 1), Ok(306));
}

#[test]
fn a_graph_is_well_formed_when_its_edges_stay_inside() {
    let inside = Graph::new(vec![
        Vertex::new(vec![Edge::new(1, 1), Edge::new(1, 0)]),
        Vertex::new(vec![Edge::new(2, 0)]),
    ]);
    assert!(inside.is_well_formed());
    let outside = Graph::new(vec![
        Vertex::new(vec![Edge::new(1, 1)]),
        Vertex::new(vec![Edge::new(2, 2)]),
    ]);
    assert!(!outside.is_well_formed());
    assert!(Graph::new(vec![]).is_well_formed());
    assert!(Graph::new(vec![Vertex::new(vec![])]).is_well_formed());
}
