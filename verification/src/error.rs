//! The failures that the engine reports.

use vstd::prelude::*;

verus! {

/// A failure detected while evaluating or rebuilding a tour, while
/// inspecting a population, or while checking the settings of a session.
#[derive(Debug, Clone, Copy, PartialEq, Eq, Structural)]
pub enum TspError {
    /// A tour needs to travel between two cities that the graph does not connect.
    MissingEdge,
    /// The cost of a tour does not fit in 64 bits.
    CostOverflow,
    /// The cut points of an ordered crossover do not delimit two segments of the parent.
    InvalidCrossoverPoints,
    /// A city of one parent could not be located in the other parent.
    CityNotFound,
    /// The best or worst individual of an empty population was asked for.
    EmptyPopulation,
    /// The settings ask for fewer individuals than a run accepts.
    PopulationTooSmall,
    /// The settings ask for smaller tournaments than a run accepts.
    TournamentTooSmall,
    /// The settings ask for tournaments larger than the population.
    TournamentTooLarge,
    /// The settings ask for no run at all.
    NoRuns,
}

impl TspError {
    /// The words that describe the failure.
    pub open spec fn description(&self) -> Seq<char> {
        match self {
            TspError::MissingEdge => "no edge between two consecutive cities of the tour"@,
            TspError::CostOverflow => "the cost of the tour does not fit in 64 bits"@,
            TspError::InvalidCrossoverPoints => "the crossover points do not delimit two segments"@,
            TspError::CityNotFound => "a city of one parent is absent from the other"@,
            TspError::EmptyPopulation => "the population is empty"@,
            TspError::PopulationTooSmall => "the population size is below the minimum"@,
            TspError::TournamentTooSmall => "the tournament size is below the minimum"@,
            TspError::TournamentTooLarge => {
                "the tournament size is greater than the population size"@
            },
            TspError::NoRuns => "the number of runs is zero"@,
        }
    }

    /// A short description of the failure.
    pub fn message(&self) -> (text: &'static str)
        ensures
            text@ == self.description(),
    {
        match self {
            TspError::MissingEdge => "no edge between two consecutive cities of the tour",
            TspError::CostOverflow => "the cost of the tour does not fit in 64 bits",
            TspError::InvalidCrossoverPoints => "the crossover points do not delimit two segments",
            TspError::CityNotFound => "a city of one parent is absent from the other",
            TspError::EmptyPopulation => "the population is empty",
            TspError::PopulationTooSmall => "the population size is below the minimum",
            TspError::TournamentTooSmall => "the tournament size is below the minimum",
            TspError::TournamentTooLarge => {
                "the tournament size is greater than the population size"
            },
            TspError::NoRuns => "the number of runs is zero",
        }
    }
}

} // verus!
