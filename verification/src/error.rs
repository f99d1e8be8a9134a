//! Error values for the season state machine and its engines.

use vstd::prelude::*;

verus! {

/// Failures of scoring a round.
#[derive(Debug, Copy, Clone, PartialEq, Eq, Structural)]
pub enum ScoreError {
    /// A lineup driver has no entry in the round's race results.
    DriverDidNotRace(u8),
    /// The round has not been drafted, so there is no lineup to score.
    RoundLineupDoesNotExist(u8),
    /// The round's race results have not been ingested.
    RoundResultsDoNotExist(u8),
    /// The round has already been scored.
    RoundResultsAlreadyExist(u8),
}

/// Failures of drafting a round.
#[derive(Debug, Copy, Clone, PartialEq, Eq, Structural)]
pub enum DraftError {
    /// The round already has a lineup for every team.
    RoundLineupAlreadyExists(u8),
    /// The round before the one being drafted has no lineup yet.
    PreviousRoundLineupDoesNotExist,
    /// With uniqueness enforced, a driver appeared in two lineups;
    /// carries the round and the duplicated driver.
    RoundDraftNonUnique(u8, u8),
    /// The drafter lacks an entry for one of the teams.
    IncompleteDrafter,
}

/// Failures of building or ingesting a round's race results.
#[derive(Debug, Copy, Clone, PartialEq, Eq, Structural)]
pub enum DownloadError {
    /// The result source failed.
    ApiError(ApiError),
    /// Results for the round are already ingested.
    RaceResultsAlreadyDownloaded(u8),
    /// A driver appears in the race result but not in the qualifying result.
    MissingQualifyingData(u8),
}

/// Failures reported by the external result source.
#[derive(Debug, Copy, Clone, PartialEq, Eq, Structural)]
pub enum ApiError {
    CannotConnectToServer,
    CannotParseJsonRound(u8),
    CannotParseJsonOther,
    RaceResultsNotYetAvailable(u8),
}

/// Failures of the two deletion commands.
#[derive(Debug, Copy, Clone, PartialEq, Eq, Structural)]
pub enum DeleteError {
    /// Results for the round cannot be deleted: none exist.
    ResultsDeleteWhenResultsDontExist(u8),
    /// The round is scored, so its lineup cannot be deleted.
    LineupDeleteWhileScoresExist(u8),
    /// The following round is drafted, so this round's lineup cannot be deleted.
    LineupDeleteWhenNextRoundDrafted(u8),
}

} // verus!
