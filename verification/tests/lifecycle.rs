//! Tests for the season state machine: round lifecycle ordering, atomic
//! failure, drafting strategies, uniqueness enforcement, scoring, and the
//! leaderboard tie-break chain.

use f1fm::draft::{DraftChoice, Drafter, ReplaceAll, RollOn, Skip};
use f1fm::error::{DeleteError, DownloadError, DraftError, ScoreError};
use f1fm::fantasy_season::FantasySeason;
use f1fm::race_results::{DriverResult, RaceResults};
use f1fm::score::ScoreChoice;

fn dr(driver: u8, final_position: u8) -> DriverResult {
    DriverResult { driver, final_position, grid_position: final_position, qualifying_position: final_position }
}

fn results(round: u8, placed: &[(u8, u8)]) -> RaceResults {
    RaceResults {
        round,
        drivers: placed.iter().map(|&(d, p)| dr(d, p)).collect(),
    }
}

fn two_team_season(score_choice: ScoreChoice, enforce: bool) -> FantasySeason {
    FantasySeason::new(
        String::from("test season"),
        score_choice,
        DraftChoice::Skip,
        vec![
            (String::from("alpha"), vec![1]),
            (String::from("beta"), vec![2]),
        ],
        1,
        2024,
        10,
        enforce,
    )
}

#[test]
fn new_season_round_one_is_drafted_only() {
    let season = two_team_season(ScoreChoice::RacePosition, true);
    assert_eq!(season.get_status_at(1), (true, false, false));
    assert_eq!(season.get_status_at(2), (false, false, false));
    assert_eq!(season.get_name(), "test season");
    assert_eq!(season.get_team_names(), vec![String::from("alpha"), String::from("beta")]);
    assert_eq!(season.get_lineup_size(), 1);
    assert_eq!(season.get_season(), 2024);
    assert_eq!(season.get_score_choice(), ScoreChoice::RacePosition);
    assert_eq!(season.get_draft_choice(), DraftChoice::Skip);
    assert!(season.enforces_unique());
}

#[test]
fn score_fails_in_exactly_the_undrafted_unloaded_or_scored_states() {
    let mut season = two_team_season(ScoreChoice::RacePosition, true);
    // Results not ingested yet.
    match season.score(1) {
        Err(ScoreError::RoundResultsDoNotExist(r)) => assert_eq!(r, 1),
        other => panic!("expected missing results, got {:?}", other),
    }
    // Round 2 not drafted.
    match season.score(2) {
        Err(ScoreError::RoundLineupDoesNotExist(r)) => assert_eq!(r, 2),
        other => panic!("expected missing lineup, got {:?}", other),
    }
    season.update_results(1, results(1, &[(1, 1), (2, 2)])).unwrap();
    season.score(1).unwrap();
    assert_eq!(season.get_status_at(1), (true, true, true));
    // Already scored.
    match season.score(1) {
        Err(ScoreError::RoundResultsAlreadyExist(r)) => assert_eq!(r, 1),
        other => panic!("expected already scored, got {:?}", other),
    }
}

#[test]
fn score_names_the_first_driver_that_did_not_race() {
    let mut season = two_team_season(ScoreChoice::RacePosition, true);
    season.update_results(1, results(1, &[(1, 1)])).unwrap();
    match season.score(1) {
        Err(ScoreError::DriverDidNotRace(d)) => assert_eq!(d, 2),
        other => panic!("expected driver did not race, got {:?}", other),
    }
    // The failure committed nothing.
    assert_eq!(season.get_status_at(1), (true, true, false));
    assert_eq!(season.get_points_at(1), None);
}

#[test]
fn draft_requires_the_previous_round_and_rejects_redrafting() {
    let mut season = two_team_season(ScoreChoice::RacePosition, true);
    match season.draft(1, &mut Drafter::Skip(Skip::new())) {
        Err(DraftError::RoundLineupAlreadyExists(r)) => assert_eq!(r, 1),
        other => panic!("expected already drafted, got {:?}", other),
    }
    match season.draft(3, &mut Drafter::Skip(Skip::new())) {
        Err(DraftError::PreviousRoundLineupDoesNotExist) => {},
        other => panic!("expected missing previous round, got {:?}", other),
    }
    season.draft(2, &mut Drafter::Skip(Skip::new())).unwrap();
    assert_eq!(season.get_status_at(2), (true, false, false));
    match season.draft(2, &mut Drafter::Skip(Skip::new())) {
        Err(DraftError::RoundLineupAlreadyExists(r)) => assert_eq!(r, 2),
        other => panic!("expected already drafted, got {:?}", other),
    }
}

#[test]
fn skip_drafter_repeats_the_previous_lineup() {
    let mut season = two_team_season(ScoreChoice::RacePosition, true);
    season.draft(2, &mut Drafter::Skip(Skip::new())).unwrap();
    let lineups = season.get_lineup_at(2);
    assert_eq!(lineups, vec![(String::from("alpha"), vec![1]), (String::from("beta"), vec![2])]);
}

#[test]
fn roll_on_drafter_prepends_and_drops_the_last_driver() {
    let mut season = FantasySeason::new(
        String::from("rollers"),
        ScoreChoice::RacePosition,
        DraftChoice::RollOn,
        vec![(String::from("alpha"), vec![1, 2, 3])],
        3,
        2024,
        10,
        true,
    );
    let mut drafter = Drafter::RollOn(RollOn::new(vec![(String::from("alpha"), 9)]));
    season.draft(2, &mut drafter).unwrap();
    assert_eq!(season.get_lineup_at(2), vec![(String::from("alpha"), vec![9, 1, 2])]);
}

#[test]
fn roll_on_drafter_fails_when_a_team_has_no_pick() {
    let mut season = two_team_season(ScoreChoice::RacePosition, true);
    let mut drafter = Drafter::RollOn(RollOn::new(vec![(String::from("alpha"), 9)]));
    match season.draft(2, &mut drafter) {
        Err(DraftError::IncompleteDrafter) => {},
        other => panic!("expected incomplete drafter, got {:?}", other),
    }
    // All-or-nothing: no lineup was committed.
    assert_eq!(season.get_status_at(2), (false, false, false));
    assert_eq!(season.get_lineup_at(2), vec![]);
}

#[test]
fn replace_all_drafter_replaces_each_lineup_once() {
    let mut season = two_team_season(ScoreChoice::RacePosition, true);
    let mut drafter = Drafter::ReplaceAll(ReplaceAll::new(vec![
        (String::from("alpha"), vec![7]),
        (String::from("beta"), vec![8]),
    ]));
    season.draft(2, &mut drafter).unwrap();
    assert_eq!(season.get_lineup_at(2), vec![(String::from("alpha"), vec![7]), (String::from("beta"), vec![8])]);
}

#[test]
fn duplicate_drivers_fail_the_whole_draft_when_uniqueness_is_on() {
    let mut season = two_team_season(ScoreChoice::RacePosition, true);
    let mut drafter = Drafter::ReplaceAll(ReplaceAll::new(vec![
        (String::from("alpha"), vec![7]),
        (String::from("beta"), vec![7]),
    ]));
    match season.draft(2, &mut drafter) {
        Err(DraftError::RoundDraftNonUnique(round, driver)) => {
            assert_eq!(round, 2);
            assert_eq!(driver, 7);
        },
        other => panic!("expected non-unique draft, got {:?}", other),
    }
    // No lineup committed for any team.
    assert_eq!(season.get_status_at(2), (false, false, false));
    assert_eq!(season.get_lineup_at(2), vec![]);
}

#[test]
fn duplicate_drivers_commit_when_uniqueness_is_off() {
    let mut season = two_team_season(ScoreChoice::RacePosition, false);
    let mut drafter = Drafter::ReplaceAll(ReplaceAll::new(vec![
        (String::from("alpha"), vec![7]),
        (String::from("beta"), vec![7]),
    ]));
    season.draft(2, &mut drafter).unwrap();
    assert_eq!(season.get_lineup_at(2), vec![(String::from("alpha"), vec![7]), (String::from("beta"), vec![7])]);
}

#[test]
fn failed_operations_change_no_observable_state() {
    let mut season = two_team_season(ScoreChoice::RacePosition, true);
    season.update_results(1, results(1, &[(1, 1), (2, 2)])).unwrap();
    let status_before = season.get_status_at(1);
    let lineups_before = season.get_lineup_at(1);
    let points_before = season.get_points_by(1);
    // Re-ingesting fails and mutates nothing.
    match season.update_results(1, results(1, &[(1, 2), (2, 1)])) {
        Err(DownloadError::RaceResultsAlreadyDownloaded(r)) => assert_eq!(r, 1),
        other => panic!("expected already downloaded, got {:?}", other),
    }
    // A failed draft mutates nothing.
    assert!(season.draft(1, &mut Drafter::Skip(Skip::new())).is_err());
    // A failed deletion mutates nothing.
    assert!(season.delete_round(9).is_err());
    assert_eq!(season.get_status_at(1), status_before);
    assert_eq!(season.get_lineup_at(1), lineups_before);
    assert_eq!(season.get_points_by(1), points_before);
}

#[test]
fn delete_round_after_ingest_restores_the_prior_state() {
    let mut season = two_team_season(ScoreChoice::RacePosition, true);
    let status_before = season.get_status_at(1);
    season.update_results(1, results(1, &[(1, 1), (2, 2)])).unwrap();
    assert_eq!(season.get_status_at(1), (true, true, false));
    season.delete_round(1).unwrap();
    assert_eq!(season.get_status_at(1), status_before);
    match season.delete_round(1) {
        Err(DeleteError::ResultsDeleteWhenResultsDontExist(r)) => assert_eq!(r, 1),
        other => panic!("expected nothing to delete, got {:?}", other),
    }
}

#[test]
fn delete_round_clears_scores_first() {
    let mut season = two_team_season(ScoreChoice::RacePosition, true);
    season.update_results(1, results(1, &[(1, 1), (2, 2)])).unwrap();
    season.score(1).unwrap();
    assert_eq!(season.get_status_at(1), (true, true, true));
    season.delete_round(1).unwrap();
    assert_eq!(season.get_status_at(1), (true, false, false));
    assert_eq!(season.get_points_at(1), None);
    assert_eq!(season.get_points_by(1), vec![(String::from("alpha"), 0), (String::from("beta"), 0)]);
}

#[test]
fn delete_lineup_is_fenced_by_scores_and_the_next_round() {
    let mut season = two_team_season(ScoreChoice::RacePosition, true);
    season.update_results(1, results(1, &[(1, 1), (2, 2)])).unwrap();
    season.score(1).unwrap();
    match season.delete_lineup(1) {
        Err(DeleteError::LineupDeleteWhileScoresExist(r)) => assert_eq!(r, 1),
        other => panic!("expected scores in the way, got {:?}", other),
    }
    season.draft(2, &mut Drafter::Skip(Skip::new())).unwrap();
    season.draft(3, &mut Drafter::Skip(Skip::new())).unwrap();
    match season.delete_lineup(2) {
        Err(DeleteError::LineupDeleteWhenNextRoundDrafted(r)) => assert_eq!(r, 2),
        other => panic!("expected next round in the way, got {:?}", other),
    }
    season.delete_lineup(3).unwrap();
    assert_eq!(season.get_status_at(3), (false, false, false));
    season.delete_lineup(2).unwrap();
    assert_eq!(season.get_status_at(2), (false, false, false));
}

#[test]
fn team_round_score_sums_the_lineup() {
    // grid_size 20, lineup [33, 11], driver 33 finishes 1st (25 points on the
    // standard table), driver 11 finishes 11th (0 points): team score 25.
    let mut season = FantasySeason::new(
        String::from("scenario"),
        ScoreChoice::FormulaOne,
        DraftChoice::Skip,
        vec![(String::from("solo"), vec![33, 11])],
        2,
        2024,
        20,
        true,
    );
    season.update_results(1, results(1, &[(33, 1), (11, 11)])).unwrap();
    season.score(1).unwrap();
    assert_eq!(season.get_points_at(1), Some(vec![(String::from("solo"), 25)]));
    assert_eq!(season.get_points_by(1), vec![(String::from("solo"), 25)]);
}

fn play_round(season: &mut FantasySeason, round: u8, placed: &[(u8, u8)]) {
    if round > 1 {
        season.draft(round, &mut Drafter::Skip(Skip::new())).unwrap();
    }
    season.update_results(round, results(round, placed)).unwrap();
    season.score(round).unwrap();
}

#[test]
fn leaderboard_breaks_point_ties_by_best_then_worst_round() {
    // RacePosition with grid size 10: position p scores 11 - p.
    let mut season = FantasySeason::new(
        String::from("tiebreaks"),
        ScoreChoice::RacePosition,
        DraftChoice::Skip,
        vec![
            (String::from("alpha"), vec![1]),
            (String::from("beta"), vec![2]),
            (String::from("gamma"), vec![3]),
        ],
        1,
        2024,
        10,
        true,
    );
    // Position p scores 11 - p. Round scores: alpha [10, 2, 6],
    // beta [9, 5, 4], gamma [6, 6, 5].
    play_round(&mut season, 1, &[(1, 1), (2, 2), (3, 5)]);
    play_round(&mut season, 2, &[(1, 9), (2, 6), (3, 5)]);
    play_round(&mut season, 3, &[(1, 5), (2, 7), (3, 6)]);
    let standings = season.get_points_by(3);
    let alpha_total = standings.iter().find(|p| p.0 == "alpha").unwrap().1;
    let beta_total = standings.iter().find(|p| p.0 == "beta").unwrap().1;
    assert_eq!(alpha_total, 18);
    assert_eq!(beta_total, 18);
    // alpha and beta are tied on 18; alpha's best round (10) beats beta's (9).
    assert_eq!(standings[0].0, "alpha");
    assert_eq!(standings[1].0, "beta");
    assert_eq!(standings[2].0, "gamma");
}

#[test]
fn leaderboard_breaks_full_ties_by_insertion_order() {
    let mut season = FantasySeason::new(
        String::from("even"),
        ScoreChoice::RacePosition,
        DraftChoice::Skip,
        vec![
            (String::from("first"), vec![1]),
            (String::from("second"), vec![2]),
        ],
        1,
        2024,
        10,
        true,
    );
    // Both teams score 8 in round 1 is impossible with distinct positions,
    // so use two rounds that mirror each other: first [8, 6], second [6, 8].
    play_round(&mut season, 1, &[(1, 3), (2, 5)]);
    play_round(&mut season, 2, &[(1, 5), (2, 3)]);
    // Equal totals, equal best (8), equal worst (6): insertion order decides.
    let standings = season.get_points_by(2);
    assert_eq!(standings, vec![(String::from("first"), 14), (String::from("second"), 14)]);
}

#[test]
fn worst_round_breaks_remaining_ties_ascending() {
    let mut season = FantasySeason::new(
        String::from("minimums"),
        ScoreChoice::RacePosition,
        DraftChoice::Skip,
        vec![
            (String::from("steady"), vec![1]),
            (String::from("spiky"), vec![2]),
        ],
        1,
        2024,
        10,
        true,
    );
    // Round scores: steady [9, 9, 10], spiky [10, 10, 8]: totals 28 each,
    // best 10 each, worst 9 against 8 — the lower worst round sorts first.
    play_round(&mut season, 1, &[(1, 2), (2, 1)]);
    play_round(&mut season, 2, &[(1, 2), (2, 1)]);
    play_round(&mut season, 3, &[(1, 1), (2, 3)]);
    let standings = season.get_points_by(3);
    assert_eq!(standings[0], (String::from("spiky"), 28));
    assert_eq!(standings[1], (String::from("steady"), 28));
}

#[test]
fn points_at_orders_one_round_descending() {
    let mut season = two_team_season(ScoreChoice::RacePosition, true);
    assert_eq!(season.get_points_at(1), None);
    season.update_results(1, results(1, &[(1, 5), (2, 1)])).unwrap();
    season.score(1).unwrap();
    // beta (position 1, 10 points) ahead of alpha (position 5, 6 points).
    assert_eq!(
        season.get_points_at(1),
        Some(vec![(String::from("beta"), 10), (String::from("alpha"), 6)])
    );
}

#[test]
fn replace_all_consumes_each_entry() {
    let mut drafter = Drafter::ReplaceAll(ReplaceAll::new(vec![(String::from("alpha"), vec![7, 8])]));
    let previous = vec![1, 2];
    assert_eq!(drafter.draft("alpha", &previous), Ok(vec![7, 8]));
    // The entry was handed out once; a second draft for the same team fails.
    assert_eq!(drafter.draft("alpha", &previous), Err(DraftError::IncompleteDrafter));
}

#[test]
fn replace_all_rejects_lineups_of_the_wrong_size() {
    let mut drafter = Drafter::ReplaceAll(ReplaceAll::new(vec![(String::from("alpha"), vec![7])]));
    let previous = vec![1, 2];
    assert_eq!(drafter.draft("alpha", &previous), Err(DraftError::IncompleteDrafter));
}

#[test]
fn ingested_results_can_be_read_back() {
    let mut season = two_team_season(ScoreChoice::RacePosition, true);
    assert!(season.get_results_at(1).is_none());
    season.update_results(1, results(1, &[(1, 1), (2, 2)])).unwrap();
    let stored = season.get_results_at(1).unwrap();
    assert_eq!(stored.len(), 2);
    assert_eq!(stored[0].driver, 1);
    assert_eq!(stored[1].driver, 2);
    assert_eq!(stored[1].final_position, 2);
}

#[test]
fn a_season_with_no_teams_still_tracks_its_rounds() {
    let mut season = FantasySeason::new(
        String::from("empty"),
        ScoreChoice::FormulaOne,
        DraftChoice::Skip,
        vec![],
        1,
        2024,
        20,
        true,
    );
    assert_eq!(season.get_team_names(), Vec::<String>::new());
    assert_eq!(season.get_points_by(5), vec![]);
    season.update_results(1, results(1, &[(1, 1)])).unwrap();
    assert_eq!(season.get_status_at(1), (true, true, false));
    season.score(1).unwrap();
    assert_eq!(season.get_points_at(1), Some(vec![]));
}

#[test]
fn deleting_the_last_possible_round_has_no_following_round() {
    let mut season = two_team_season(ScoreChoice::RacePosition, true);
    // Round 255 has no round after it, and deleting its absent lineup is a
    // harmless no-op.
    season.delete_lineup(255).unwrap();
    assert_eq!(season.get_status_at(255), (false, false, false));
    assert_eq!(season.get_status_at(1), (true, false, false));
}

#[test]
fn cumulative_points_ignore_later_rounds() {
    let mut season = two_team_season(ScoreChoice::RacePosition, true);
    play_round(&mut season, 1, &[(1, 1), (2, 2)]);
    play_round(&mut season, 2, &[(1, 2), (2, 1)]);
    let through_one = season.get_points_by(1);
    let alpha_one = through_one.iter().find(|p| p.0 == "alpha").unwrap().1;
    assert_eq!(alpha_one, 10);
    let through_two = season.get_points_by(2);
    let alpha_two = through_two.iter().find(|p| p.0 == "alpha").unwrap().1;
    assert_eq!(alpha_two, 19);
}
