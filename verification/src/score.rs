//! The scoring-formula engine: pure functions from one driver's normalized
//! result (plus grid size) to an integer point value, under one of several
//! interchangeable formulas.

use vstd::prelude::*;

use crate::race_results::DriverResult;

verus! {

/// The fixed non-linear table of the standard formula: points for final
/// positions 1 through 10; every later position scores 0.
pub open spec fn formula_one_points(final_position: int) -> int {
    if final_position == 1 {
        25
    } else if final_position == 2 {
        18
    } else if final_position == 3 {
        15
    } else if final_position == 4 {
        12
    } else if final_position == 5 {
        10
    } else if final_position == 6 {
        8
    } else if final_position == 7 {
        6
    } else if final_position == 8 {
        4
    } else if final_position == 9 {
        2
    } else if final_position == 10 {
        1
    } else {
        0
    }
}

/// The points one driver's result is worth under `choice` with `grid_size`
/// cars on the grid.
pub open spec fn spec_driver_score(choice: ScoreChoice, grid_size: int, dr: DriverResult) -> int {
    match choice {
        ScoreChoice::FormulaOne => formula_one_points(dr.final_position as int),
        ScoreChoice::RacePosition => grid_size + 1 - dr.final_position,
        ScoreChoice::Improvement => (grid_size + 1 - dr.final_position) + (
        dr.grid_position - dr.final_position),
        ScoreChoice::Domination => (grid_size + 1 - dr.final_position) + (grid_size + 1
            - dr.qualifying_position),
    }
}

/// Every formula's value for one driver lies within this bound, for any
/// `u8` grid size and positions.
pub proof fn lemma_driver_score_bound(choice: ScoreChoice, grid_size: int, dr: DriverResult)
    requires
        0 <= grid_size <= 255,
    ensures
        -512 <= spec_driver_score(choice, grid_size, dr) <= 512,
{
}

/// A scoring formula: maps a driver's normalized result to points.
pub trait Scorer: Sized {
    /// What the formula computes, as a mathematical function.
    spec fn spec_score(self, grid_size: int, dr: DriverResult) -> int;

    /// Points for one driver's result with `grid_size` cars on the grid.
    fn score(&self, grid_size: u8, dr: &DriverResult) -> (r: i16)
        ensures
            r == self.spec_score(grid_size as int, *dr),
    ;
}

/// The closed set of scoring formulas a season can be configured with.
#[derive(Copy, Clone, Default, Debug, PartialEq, Eq, Structural)]
pub enum ScoreChoice {
    /// Positions 1 to 10 map to the fixed table 25, 18, 15, 12, 10, 8, 6, 4,
    /// 2, 1; all later positions score 0.
    #[default]
    FormulaOne,
    /// `grid_size + 1 - final_position`.
    RacePosition,
    /// Linear-by-finish plus the places gained from the normalized start.
    Improvement,
    /// Linear-by-finish plus `grid_size + 1 - qualifying_position`.
    Domination,
}

impl Scorer for ScoreChoice {
    open spec fn spec_score(self, grid_size: int, dr: DriverResult) -> int {
        spec_driver_score(self, grid_size, dr)
    }

    fn score(&self, grid_size: u8, dr: &DriverResult) -> (r: i16)
        ensures
            r == spec_driver_score(*self, grid_size as int, *dr),
    {
        match self {
            ScoreChoice::FormulaOne => match dr.final_position {
                1 => 25,
                2 => 18,
                3 => 15,
                4 => 12,
                5 => 10,
                6 => 8,
                7 => 6,
                8 => 4,
                9 => 2,
                10 => 1,
                _ => 0,
            },
            ScoreChoice::RacePosition => grid_size as i16 + 1 - dr.final_position as i16,
            ScoreChoice::Improvement => (grid_size as i16 + 1 - dr.final_position as i16) + (
            dr.grid_position as i16 - dr.final_position as i16),
            ScoreChoice::Domination => (grid_size as i16 + 1 - dr.final_position as i16) + (
            grid_size as i16 + 1 - dr.qualifying_position as i16),
        }
    }
}

} // verus!
