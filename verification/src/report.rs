//! What a chart of finished runs is drawn from: the series of one statistic,
//! the runs that ended best and worst, and the height that the chart needs.

use vstd::prelude::*;

use crate::chromosome::Chromosome;
use crate::interface::PlotStatistic;
use crate::simulation::Simulation;

verus! {

/// The costs of the tours of a history, in order.
pub open spec fn costs_of(history: Seq<Chromosome>) -> Seq<u64> {
    Seq::new(history.len(), |i: int| history[i].cost)
}

/// The values that the statistic took in the run, generation by generation.
pub open spec fn series_of(simulation: &Simulation, statistic: PlotStatistic) -> Seq<u64> {
    match statistic {
        PlotStatistic::Average => simulation.average_cost@,
        PlotStatistic::Best => costs_of(simulation.best_chromosome@),
        PlotStatistic::Worst => costs_of(simulation.worst_chromosome@),
    }
}

/// Whether run `b` ended lowest; among runs that ended equally low it is the
/// first.
pub open spec fn ended_lowest(series: Seq<Vec<u64>>, b: int) -> bool {
    &&& 0 <= b < series.len()
    &&& forall|i: int| 0 <= i < series.len() ==> series[b]@.last() <= (#[trigger] series[i])@.last()
    &&& forall|i: int| 0 <= i < b ==> series[b]@.last() < (#[trigger] series[i])@.last()
}

/// Whether run `w` ended highest; among runs that ended equally high it is
/// the last.
pub open spec fn ended_highest(series: Seq<Vec<u64>>, w: int) -> bool {
    &&& 0 <= w < series.len()
    &&& forall|i: int| 0 <= i < series.len() ==> (#[trigger] series[i])@.last() <= series[w]@.last()
    &&& forall|i: int| w < i < series.len() ==> (#[trigger] series[i])@.last() < series[w]@.last()
}

/// Whether `height` is the highest cost with which the worst history of one
/// of the runs starts, or 0 where there is no run.
pub open spec fn is_highest_start(data: Seq<Simulation>, height: u64) -> bool {
    &&& forall|i: int|
        0 <= i < data.len() ==> (#[trigger] data[i]).worst_chromosome@[0].cost <= height
    &&& data.len() == 0 ==> height == 0
    &&& data.len() > 0 ==> exists|i: int|
        0 <= i < data.len() && (#[trigger] data[i]).worst_chromosome@[0].cost == height
}

/// The values that the statistic took in the run, generation by generation.
pub fn statistic_series(simulation: &Simulation, statistic_plotted: PlotStatistic) -> (series: Vec<
    u64,
>)
    ensures
        series@ == series_of(simulation, statistic_plotted),
{
    let mut series: Vec<u64> = Vec::new();
    match statistic_plotted {
        PlotStatistic::Average => {
            let mut i: usize = 0;
            while i < simulation.average_cost.len()
                invariant
                    i <= simulation.average_cost@.len(),
                    series@ == simulation.average_cost@.take(i as int),
                decreases simulation.average_cost.len() - i,
            {
                series.push(simulation.average_cost[i]);
                proof {
                    assert(simulation.average_cost@.take(i + 1) =~= simulation.average_cost@.take(
                        i as int,
                    ).push(simulation.average_cost@[i as int]));
                }
                i += 1;
            }
            proof {
                assert(simulation.average_cost@.take(i as int) =~= simulation.average_cost@);
            }
        },
        PlotStatistic::Best => {
            let mut i: usize = 0;
            while i < simulation.best_chromosome.len()
                invariant
                    i <= simulation.best_chromosome@.len(),
                    series@ =~= costs_of(simulation.best_chromosome@).take(i as int),
                decreases simulation.best_chromosome.len() - i,
            {
                series.push(simulation.best_chromosome[i].cost);
                i += 1;
            }
            proof {
                assert(series@ =~= costs_of(simulation.best_chromosome@));
            }
        },
        PlotStatistic::Worst => {
            let mut i: usize = 0;
            while i < simulation.worst_chromosome.len()
                invariant
                    i <= simulation.worst_chromosome@.len(),
                    series@ =~= costs_of(simulation.worst_chromosome@).take(i as int),
                decreases simulation.worst_chromosome.len() - i,
            {
                series.push(simulation.worst_chromosome[i].cost);
                i += 1;
            }
            proof {
                assert(series@ =~= costs_of(simulation.worst_chromosome@));
            }
        },
    }
    series
}

/// The run that ended lowest, the first among those that ended equally low;
/// `None` exactly when there is no run.
pub fn best_run(series: &[Vec<u64>]) -> (found: Option<usize>)
    requires
        forall|i: int| 0 <= i < series@.len() ==> (#[trigger] series@[i])@.len() > 0,
    ensures
        found is None <==> series@.len() == 0,
        found is Some ==> ended_lowest(series@, found->Some_0 as int),
{
    if series.len() == 0 {
        return None;
    }
    let mut best: usize = 0;
    let mut i: usize = 1;
    while i < series.len()
        invariant
            0 <= best < i <= series@.len(),
            forall|x: int| 0 <= x < series@.len() ==> (#[trigger] series@[x])@.len() > 0,
            forall|x: int|
                0 <= x < i ==> series@[best as int]@.last() <= (#[trigger] series@[x])@.last(),
            forall|x: int| 0 <= x < best ==> series@[best as int]@.last() < (
            #[trigger] series@[x])@.last(),
        decreases series.len() - i,
    {
        let candidate = &series[i];
        let incumbent = &series[best];
        if candidate[candidate.len() - 1] < incumbent[incumbent.len() - 1] {
            best = i;
        }
        i += 1;
    }
    Some(best)
}

/// The run that ended highest, the last among those that ended equally
/// high; `None` exactly when there is no run.
pub fn worst_run(series: &[Vec<u64>]) -> (found: Option<usize>)
    requires
        forall|i: int| 0 <= i < series@.len() ==> (#[trigger] series@[i])@.len() > 0,
    ensures
        found is None <==> series@.len() == 0,
        found is Some ==> ended_highest(series@, found->Some_0 as int),
{
    if series.len() == 0 {
        return None;
    }
    let mut worst: usize = 0;
    let mut i: usize = 1;
    while i < series.len()
        invariant
            0 <= worst < i <= series@.len(),
            forall|x: int| 0 <= x < series@.len() ==> (#[trigger] series@[x])@.len() > 0,
            forall|x: int|
                0 <= x < i ==> (#[trigger] series@[x])@.last() <= series@[worst as int]@.last(),
            forall|x: int| worst < x < i ==> (#[trigger] series@[x])@.last()
                < series@[worst as int]@.last(),
        decreases series.len() - i,
    {
        let candidate = &series[i];
        let incumbent = &series[worst];
        if candidate[candidate.len() - 1] >= incumbent[incumbent.len() - 1] {
            worst = i;
        }
        i += 1;
    }
    Some(worst)
}

/// The highest cost with which the worst history of one of the runs starts:
/// the height that a chart of the runs needs. `None` exactly when one of the
/// runs has nothing on record.
pub fn highest_start(data: &[Simulation]) -> (height: Option<u64>)
    ensures
        height is None <==> exists|i: int|
            0 <= i < data@.len() && (#[trigger] data@[i]).worst_chromosome@.len() == 0,
        height is Some ==> is_highest_start(data@, height->Some_0),
{
    let mut highest: u64 = 0;
    let mut i: usize = 0;
    while i < data.len()
        invariant
            i <= data@.len(),
            forall|x: int| 0 <= x < i ==> (#[trigger] data@[x]).worst_chromosome@.len() > 0,
            forall|x: int|
                0 <= x < i ==> (#[trigger] data@[x]).worst_chromosome@[0].cost <= highest,
            i == 0 ==> highest == 0,
            i > 0 ==> exists|x: int|
                0 <= x < i && (#[trigger] data@[x]).worst_chromosome@[0].cost == highest,
        decreases data.len() - i,
    {
        if data[i].worst_chromosome.len() == 0 {
            return None;
        }
        let start = data[i].worst_chromosome[0].cost;
        if start > highest {
            highest = start;
        }
        i += 1;
    }
    Some(highest)
}

} // verus!
