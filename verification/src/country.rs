//! The cost graph: cities, and the priced one-way connections between them.

use vstd::prelude::*;

use crate::error::TspError;

verus! {

/// A one-way connection to `destination_city`, travelled at `cost`.
#[derive(Debug)]
pub struct Edge {
    /// The cost of travelling along the edge.
    pub cost: u64,
    /// The number of the city that the edge leads to.
    pub destination_city: u32,
}

/// A city: the connections that leave it.
#[derive(Clone, Debug)]
pub struct Vertex {
    /// The edges that leave the city.
    pub edges: Vec<Edge>,
}

/// All cities; a city's number is its position in `vertex`.
#[derive(Clone, Debug)]
pub struct Graph {
    /// The cities, in the order of their numbers.
    pub vertex: Vec<Vertex>,
}

/// A named problem instance.
#[derive(Clone, Debug)]
pub struct Country {
    /// The name of the data set.
    pub name: String,
    /// Where the data set comes from.
    pub source: String,
    /// What the data set describes.
    pub description: String,
    /// The number of significant digits of the costs as they were recorded.
    pub double_precision: u32,
    /// The number of digits of the recorded costs that carry no information.
    pub ignored_digits: i32,
    /// The cities and the connections between them.
    pub graph: Graph,
}

/// Whether one of `edges` leads to `to`.
pub open spec fn leads_to(edges: Seq<Edge>, to: u32) -> bool {
    exists|k: int| 0 <= k < edges.len() && (#[trigger] edges[k]).destination_city == to
}

/// The summed cost of those of `edges` that lead to `to`.
pub open spec fn cost_towards(edges: Seq<Edge>, to: u32) -> int
    decreases edges.len(),
{
    if edges.len() == 0 {
        0
    } else if edges.last().destination_city == to {
        cost_towards(edges.drop_last(), to) + edges.last().cost
    } else {
        cost_towards(edges.drop_last(), to)
    }
}

/// The cost of a selection of edges is never negative.
pub proof fn lemma_cost_towards_nonnegative(edges: Seq<Edge>, to: u32)
    ensures
        cost_towards(edges, to) >= 0,
    decreases edges.len(),
{
    if edges.len() > 0 {
        lemma_cost_towards_nonnegative(edges.drop_last(), to);
    }
}

/// The cost of travelling between two cities is never negative.
pub proof fn lemma_edge_cost_nonnegative(graph: &Graph, from: u32, to: u32)
    ensures
        graph.edge_cost(from, to) >= 0,
{
    if from < graph.vertex@.len() {
        lemma_cost_towards_nonnegative(graph.vertex@[from as int].edges@, to);
    }
}

impl Edge {
    pub fn new(cost: u64, destination_city: u32) -> (edge: Edge)
        ensures
            edge.cost == cost,
            edge.destination_city == destination_city,
    {
        Edge { cost, destination_city }
    }
}

impl Clone for Edge {
    fn clone(&self) -> (copy: Edge)
        ensures
            copy == *self,
    {
        Edge { cost: self.cost, destination_city: self.destination_city }
    }
}

impl Vertex {
    pub fn new(edges: Vec<Edge>) -> (vertex: Vertex)
        ensures
            vertex.edges == edges,
    {
        Vertex { edges }
    }
}

impl Graph {
    pub fn new(vertex: Vec<Vertex>) -> (graph: Graph)
        ensures
            graph.vertex == vertex,
    {
        Graph { vertex }
    }

    /// The number of cities.
    pub open spec fn cities(&self) -> nat {
        self.vertex@.len()
    }

    /// Whether the graph connects `from` to `to`.
    pub open spec fn has_edge(&self, from: u32, to: u32) -> bool {
        from < self.vertex@.len() && leads_to(self.vertex@[from as int].edges@, to)
    }

    /// The cost of travelling from `from` to `to`: the summed cost of every
    /// edge that the graph lists for the pair.
    pub open spec fn edge_cost(&self, from: u32, to: u32) -> int {
        if from < self.vertex@.len() {
            cost_towards(self.vertex@[from as int].edges@, to)
        } else {
            0
        }
    }

    /// What a lookup of the pair yields: the cost, or the reason why there is none.
    pub open spec fn priced(&self, from: u32, to: u32) -> Result<u64, TspError> {
        if !self.has_edge(from, to) {
            Err(TspError::MissingEdge)
        } else if self.edge_cost(from, to) > u64::MAX {
            Err(TspError::CostOverflow)
        } else {
            Ok(self.edge_cost(from, to) as u64)
        }
    }

    /// Whether the cities can be numbered in 32 bits and every edge leads to
    /// a city of the graph.
    pub open spec fn well_formed(&self) -> bool {
        &&& self.vertex@.len() <= u32::MAX
        &&& forall|i: int, k: int|
            0 <= i < self.vertex@.len() && 0 <= k < self.vertex@[i].edges@.len() ==> (
            #[trigger] self.vertex@[i].edges@[k]).destination_city < self.vertex@.len()
    }

    /// Checks that the cities can be numbered in 32 bits and that every edge
    /// leads to a city of the graph.
    pub fn is_well_formed(&self) -> (sound: bool)
        ensures
            sound == self.well_formed(),
    {
        let cities = self.vertex.len();
        if cities > u32::MAX as usize {
            return false;
        }
        let mut i: usize = 0;
        while i < cities
            invariant
                i <= cities,
                cities == self.vertex@.len(),
                cities <= u32::MAX,
                forall|x: int, k: int|
                    0 <= x < i && 0 <= k < self.vertex@[x].edges@.len() ==> (
                    #[trigger] self.vertex@[x].edges@[k]).destination_city < cities,
            decreases cities - i,
        {
            let edges = &self.vertex[i].edges;
            let mut k: usize = 0;
            while k < edges.len()
                invariant
                    k <= edges@.len(),
                    i < cities,
                    cities == self.vertex@.len(),
                    edges@ == self.vertex@[i as int].edges@,
                    forall|y: int| 0 <= y < k ==> (#[trigger] edges@[y]).destination_city < cities,
                decreases edges.len() - k,
            {
                if edges[k].destination_city as usize >= cities {
                    return false;
                }
                k += 1;
            }
            i += 1;
        }
        true
    }

    /// The cost of travelling from `from` to `to`.
    ///
    /// Fails with [`TspError::MissingEdge`] exactly when the graph does not
    /// connect the pair, and with [`TspError::CostOverflow`] exactly when it
    /// does but the summed cost exceeds 64 bits.
    pub fn cost_between(&self, from: u32, to: u32) -> (found: Result<u64, TspError>)
        ensures
            found == self.priced(from, to),
    {
        if from as usize >= self.vertex.len() {
            return Err(TspError::MissingEdge);
        }
        let edges = &self.vertex[from as usize].edges;
        let mut total: u64 = 0;
        let mut seen = false;
        let mut overflow = false;
        let mut k: usize = 0;
        while k < edges.len()
            invariant
                k <= edges.len(),
                seen == leads_to(edges@.take(k as int), to),
                overflow == (cost_towards(edges@.take(k as int), to) > u64::MAX),
                !overflow ==> total == cost_towards(edges@.take(k as int), to),
            decreases edges.len() - k,
        {
            proof {
                let before = edges@.take(k as int);
                let after = edges@.take(k + 1);
                assert(after.drop_last() =~= before);
                assert(after.last() == edges@[k as int]);
                lemma_cost_towards_nonnegative(before, to);
                if edges@[k as int].destination_city == to {
                    assert(after[k as int].destination_city == to);
                } else if leads_to(after, to) {
                    let w = choose|w: int|
                        0 <= w < after.len() && (#[trigger] after[w]).destination_city == to;
                    assert(before[w].destination_city == to);
                }
                if leads_to(before, to) {
                    let w = choose|w: int|
                        0 <= w < before.len() && (#[trigger] before[w]).destination_city == to;
                    assert(after[w].destination_city == to);
                }
            }
            if edges[k].destination_city == to {
                seen = true;
                if !overflow {
                    match total.checked_add(edges[k].cost) {
                        Some(sum) => {
                            total = sum;
                        },
                        None => {
                            overflow = true;
                        },
                    }
                }
            }
            k += 1;
        }
        proof {
            assert(edges@.take(k as int) =~= edges@);
        }
        if !seen {
            Err(TspError::MissingEdge)
        } else if overflow {
            Err(TspError::CostOverflow)
        } else {
            Ok(total)
        }
    }
}

} // verus!
