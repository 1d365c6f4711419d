//! The configuration surface: operator choices and run parameters.

use vstd::prelude::*;

use crate::error::TspError;

verus! {

/// The perturbation applied to each child.
#[derive(Debug, Clone, Copy, PartialEq, Eq, PartialOrd, Ord, Structural)]
pub enum MutationOperator {
    /// Reverses the route around an untouched middle segment.
    Inversion,
    /// Exchanges the cities at two positions.
    Single,
    /// Exchanges the cities at two pairs of positions.
    Multiple,
}

/// The recombination that produces two children from two parents.
#[derive(Debug, Clone, Copy, PartialEq, Eq, PartialOrd, Ord, Structural)]
pub enum CrossoverOperator {
    /// One cut point, followed by a repair of the duplicated cities.
    Fix,
    /// Two frozen segments, the rest reordered after the other parent.
    Ordered,
}

/// Which runs of a data set a chart shows.
#[derive(Debug, Clone, Copy, PartialEq, Eq, PartialOrd, Ord, Structural)]
pub enum PlotOperator {
    /// One line, the mean over all runs.
    Average,
    /// One line, the run that ended cheapest.
    Best,
    /// One line, the run that ended most expensive.
    Worst,
    /// Three lines: the worst run, the best run and the mean.
    Range,
    /// One line per run.
    DisplayAll,
}

/// Which per-generation statistic a chart shows.
#[derive(Debug, Clone, Copy, PartialEq, Eq, PartialOrd, Ord, Structural)]
pub enum PlotStatistic {
    /// The average cost of each generation.
    Average,
    /// The best cost of each generation.
    Best,
    /// The worst cost of each generation.
    Worst,
}

/// The smallest population that a run accepts.
pub const MINIMUM_POPULATION_SIZE: u64 = 10;

/// The smallest tournament that a run accepts.
pub const MINIMUM_TOURNAMENT_SIZE: u32 = 2;

/// The settings of a session: which operators to use, how large the
/// population and its tournaments are, how often to run, and what to chart.
#[derive(Debug, Clone, Copy)]
pub struct Cli {
    /// The recombination to use.
    pub crossover_operator: CrossoverOperator,
    /// The perturbation to use.
    pub mutation_operator: MutationOperator,
    /// The number of individuals, at least [`MINIMUM_POPULATION_SIZE`].
    pub population_size: u64,
    /// The number of individuals drawn for a tournament, at least
    /// [`MINIMUM_TOURNAMENT_SIZE`] and at most the population size.
    pub tournament_size: u32,
    /// The number of independent runs per data set, at least 1.
    pub number_runs: u32,
    /// Which runs the chart shows.
    pub plot_operator: PlotOperator,
    /// Which statistic the chart shows.
    pub statistic_plotted: PlotStatistic,
}

/// How the tournament size relates to the population size of accepted
/// settings.
#[derive(Debug, Clone, Copy, PartialEq, Eq, Structural)]
pub enum TournamentReach {
    /// A tournament draws some of the individuals.
    Part,
    /// A tournament draws every individual, so every tournament has the same
    /// winner; worth a warning.
    Whole,
}

impl Default for Cli {
    /// A crossover with fix, single swaps, 50 individuals, tournaments of 5,
    /// one run, and a chart of the mean of the average cost.
    fn default() -> (settings: Self)
        ensures
            settings.crossover_operator == CrossoverOperator::Fix,
            settings.mutation_operator == MutationOperator::Single,
            settings.population_size == 50,
            settings.tournament_size == 5,
            settings.number_runs == 1,
            settings.plot_operator == PlotOperator::Average,
            settings.statistic_plotted == PlotStatistic::Average,
            settings.accepted() == Ok::<TournamentReach, TspError>(TournamentReach::Part),
    {
        Cli {
            crossover_operator: CrossoverOperator::Fix,
            mutation_operator: MutationOperator::Single,
            population_size: 50,
            tournament_size: 5,
            number_runs: 1,
            plot_operator: PlotOperator::Average,
            statistic_plotted: PlotStatistic::Average,
        }
    }
}

impl Cli {
    /// The verdict on the settings: the first of the conditions below that
    /// fails, in this order, or how far a tournament reaches.
    ///
    /// 1. The population has at least [`MINIMUM_POPULATION_SIZE`] individuals.
    /// 2. A tournament draws at least [`MINIMUM_TOURNAMENT_SIZE`] individuals.
    /// 3. There is at least one run.
    /// 4. A tournament draws no more individuals than the population has.
    pub open spec fn accepted(&self) -> Result<TournamentReach, TspError> {
        if self.population_size < MINIMUM_POPULATION_SIZE {
            Err(TspError::PopulationTooSmall)
        } else if self.tournament_size < MINIMUM_TOURNAMENT_SIZE {
            Err(TspError::TournamentTooSmall)
        } else if self.number_runs < 1 {
            Err(TspError::NoRuns)
        } else if self.tournament_size > self.population_size {
            Err(TspError::TournamentTooLarge)
        } else if self.tournament_size == self.population_size {
            Ok(TournamentReach::Whole)
        } else {
            Ok(TournamentReach::Part)
        }
    }

    /// Checks the settings before any run starts.
    pub fn validate(&self) -> (verdict: Result<TournamentReach, TspError>)
        ensures
            verdict == self.accepted(),
    {
        if self.population_size < MINIMUM_POPULATION_SIZE {
            Err(TspError::PopulationTooSmall)
        } else if self.tournament_size < MINIMUM_TOURNAMENT_SIZE {
            Err(TspError::TournamentTooSmall)
        } else if self.number_runs < 1 {
            Err(TspError::NoRuns)
        } else if self.tournament_size as u64 > self.population_size {
            Err(TspError::TournamentTooLarge)
        } else if self.tournament_size as u64 == self.population_size {
            Ok(TournamentReach::Whole)
        } else {
            Ok(TournamentReach::Part)
        }
    }
}

} // verus!
