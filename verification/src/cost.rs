//! The cost of a round trip through the graph.

use vstd::prelude::*;

use crate::country::{lemma_edge_cost_nonnegative, Graph};
use crate::error::TspError;
use crate::permutation::is_permutation;

verus! {

/// The city visited just before position `i` of a round trip; the trip is a
/// cycle, so the first city is preceded by the last.
pub open spec fn predecessor(route: Seq<u32>, i: int) -> u32 {
    if i == 0 {
        route.last()
    } else {
        route[i - 1]
    }
}

/// Whether the graph connects every city of the round trip to its successor.
pub open spec fn connected(route: Seq<u32>, graph: &Graph) -> bool {
    forall|i: int|
        0 <= i < route.len() ==> graph.has_edge(#[trigger] predecessor(route, i), route[i])
}

/// The summed cost of the first `k` legs of the round trip; leg `i` arrives
/// at position `i`.
pub open spec fn cost_of_legs(route: Seq<u32>, graph: &Graph, k: int) -> int
    decreases k,
{
    if k <= 0 {
        0
    } else {
        cost_of_legs(route, graph, k - 1) + graph.edge_cost(
            predecessor(route, k - 1),
            route[k - 1],
        )
    }
}

/// The cost of the whole round trip, the closing leg included.
pub open spec fn tour_cost(route: Seq<u32>, graph: &Graph) -> int {
    cost_of_legs(route, graph, route.len() as int)
}

/// What evaluating a route yields: its cost, or the reason why it has none.
pub open spec fn evaluation(route: Seq<u32>, graph: &Graph) -> Result<u64, TspError> {
    if !connected(route, graph) {
        Err(TspError::MissingEdge)
    } else if tour_cost(route, graph) > u64::MAX {
        Err(TspError::CostOverflow)
    } else {
        Ok(tour_cost(route, graph) as u64)
    }
}

/// The cost of a round trip never shrinks as legs are added.
pub proof fn lemma_cost_of_legs_monotonic(route: Seq<u32>, graph: &Graph, j: int, k: int)
    requires
        j <= k,
    ensures
        0 <= cost_of_legs(route, graph, j) <= cost_of_legs(route, graph, k),
    decreases k - j, k,
{
    if k <= 0 {
    } else if j == k {
        lemma_cost_of_legs_monotonic(route, graph, j - 1, k - 1);
        lemma_edge_cost_nonnegative(
            graph,
            predecessor(route, k - 1),
            route[k - 1],
        );
    } else {
        lemma_cost_of_legs_monotonic(route, graph, j, k - 1);
        lemma_edge_cost_nonnegative(
            graph,
            predecessor(route, k - 1),
            route[k - 1],
        );
    }
}

/// Whether every permutation of the cities of `graph` has a cost: the graph
/// connects all the legs of every round trip, and no round trip costs more
/// than 64 bits hold.
pub open spec fn evaluates_every_tour(graph: &Graph) -> bool {
    forall|route: Seq<u32>|
        is_permutation(route) && route.len() == graph.cities() ==> (#[trigger] evaluation(
            route,
            graph,
        )) is Ok
}

/// Whether the graph connects every city to every other city.
pub open spec fn complete(graph: &Graph) -> bool {
    forall|from: u32, to: u32|
        from < graph.cities() && to < graph.cities() && from != to ==> #[trigger] graph.has_edge(
            from,
            to,
        )
}

/// Whether travelling between two cities never costs more than `limit`.
pub open spec fn priced_within(graph: &Graph, limit: int) -> bool {
    forall|from: u32, to: u32| #[trigger] graph.edge_cost(from, to) <= limit
}

/// The first `k` legs of a round trip cost at most `k` times the dearest
/// connection.
pub proof fn lemma_cost_of_legs_bounded(route: Seq<u32>, graph: &Graph, limit: int, k: int)
    requires
        priced_within(graph, limit),
        0 <= k,
    ensures
        cost_of_legs(route, graph, k) <= k * limit,
    decreases k,
{
    if k > 0 {
        lemma_cost_of_legs_bounded(route, graph, limit, k - 1);
        assert(graph.edge_cost(predecessor(route, k - 1), route[k - 1]) <= limit);
        assert((k - 1) * limit + limit == k * limit) by (nonlinear_arith);
    } else {
        assert(k * limit == 0) by (nonlinear_arith)
            requires
                k == 0,
        ;
    }
}

/// In a complete graph of at least two cities whose connections cost at most
/// `limit` each, with `limit` times the number of cities within 64 bits,
/// every permutation of the cities has a cost.
pub proof fn lemma_complete_graph_evaluates_every_tour(graph: &Graph, limit: int)
    requires
        graph.cities() >= 2,
        complete(graph),
        priced_within(graph, limit),
        graph.cities() * limit <= u64::MAX,
    ensures
        evaluates_every_tour(graph),
{
    assert forall|route: Seq<u32>|
        is_permutation(route) && route.len() == graph.cities() implies (#[trigger] evaluation(
        route,
        graph,
    )) is Ok by {
        assert forall|i: int| 0 <= i < route.len() implies graph.has_edge(
            #[trigger] predecessor(route, i),
            route[i],
        ) by {
            let before = if i == 0 {
                route.len() - 1
            } else {
                i - 1
            };
            assert(predecessor(route, i) == route[before]);
            assert(route[before] != route[i]);
            assert(route[before] < route.len() && route[i] < route.len());
        }
        lemma_cost_of_legs_bounded(route, graph, limit, route.len() as int);
    }
}

} // verus!
