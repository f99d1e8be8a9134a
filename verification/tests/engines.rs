//! Tests for the result normalizer, the scoring formulas, and the input
//! validation helpers.

use f1fm::error::DownloadError;
use f1fm::race_results::{DriverResult, QualifyingEntry, RaceEntry, RaceResults};
use f1fm::score::{ScoreChoice, Scorer};
use f1fm::utils::{is_parsable_driver, is_unique_lineups, is_valid_driver_input,
    is_valid_driver_str};

fn dr(driver: u8, final_position: u8, grid_position: u8, qualifying_position: u8) -> DriverResult {
    DriverResult { driver, final_position, grid_position, qualifying_position }
}

#[test]
fn normalizer_orders_grid_with_sentinel_and_qualifying_ties() {
    // Grid positions [0, 3, 3, 5] (0 = no grid slot), qualifying [9, 2, 1, 8]:
    // expected grid ranking is grid3/qual1, grid3/qual2, grid5, grid0.
    let race = vec![
        RaceEntry { driver: 10, position: 1, grid: 0 },
        RaceEntry { driver: 20, position: 2, grid: 3 },
        RaceEntry { driver: 30, position: 3, grid: 3 },
        RaceEntry { driver: 40, position: 4, grid: 5 },
    ];
    let qualifying = vec![
        QualifyingEntry { driver: 10, position: 9 },
        QualifyingEntry { driver: 20, position: 2 },
        QualifyingEntry { driver: 30, position: 1 },
        QualifyingEntry { driver: 40, position: 8 },
    ];
    let rr = RaceResults::build(7, race, qualifying).unwrap();
    assert_eq!(rr.round, 7);
    let drivers: Vec<u8> = rr.drivers.iter().map(|d| d.driver).collect();
    assert_eq!(drivers, vec![30, 20, 40, 10]);
    let ranks: Vec<u8> = rr.drivers.iter().map(|d| d.grid_position).collect();
    assert_eq!(ranks, vec![1, 2, 3, 4]);
    // Final and qualifying positions pass through unchanged.
    assert_eq!(rr.drivers[0].final_position, 3);
    assert_eq!(rr.drivers[0].qualifying_position, 1);
    assert_eq!(rr.drivers[3].final_position, 1);
    assert_eq!(rr.drivers[3].qualifying_position, 9);
}

#[test]
fn normalizer_keeps_input_order_on_full_ties() {
    let race = vec![
        RaceEntry { driver: 1, position: 1, grid: 2 },
        RaceEntry { driver: 2, position: 2, grid: 2 },
    ];
    let qualifying = vec![
        QualifyingEntry { driver: 1, position: 4 },
        QualifyingEntry { driver: 2, position: 4 },
    ];
    let rr = RaceResults::build(1, race, qualifying).unwrap();
    let drivers: Vec<u8> = rr.drivers.iter().map(|d| d.driver).collect();
    assert_eq!(drivers, vec![1, 2]);
}

#[test]
fn normalizer_fails_on_missing_qualifying_data() {
    let race = vec![
        RaceEntry { driver: 5, position: 1, grid: 1 },
        RaceEntry { driver: 6, position: 2, grid: 2 },
    ];
    let qualifying = vec![QualifyingEntry { driver: 5, position: 1 }];
    match RaceResults::build(3, race, qualifying) {
        Err(DownloadError::MissingQualifyingData(d)) => assert_eq!(d, 6),
        other => panic!("expected missing qualifying data, got {:?}", other),
    }
}

#[test]
fn standard_table_scores_by_finish_alone() {
    assert_eq!(ScoreChoice::FormulaOne.score(20, &dr(33, 1, 4, 2)), 25);
    assert_eq!(ScoreChoice::FormulaOne.score(20, &dr(11, 11, 4, 2)), 0);
    // Independent of grid size.
    assert_eq!(ScoreChoice::FormulaOne.score(5, &dr(11, 11, 4, 2)), 0);
    assert_eq!(ScoreChoice::FormulaOne.score(200, &dr(33, 1, 4, 2)), 25);
    let table = [25, 18, 15, 12, 10, 8, 6, 4, 2, 1];
    for (i, points) in table.iter().enumerate() {
        assert_eq!(ScoreChoice::FormulaOne.score(20, &dr(1, (i + 1) as u8, 1, 1)), *points);
    }
}

#[test]
fn linear_by_finish_formula() {
    // grid_size + 1 - final_position
    assert_eq!(ScoreChoice::RacePosition.score(20, &dr(1, 3, 7, 9)), 18);
    assert_eq!(ScoreChoice::RacePosition.score(20, &dr(1, 20, 7, 9)), 1);
    assert_eq!(ScoreChoice::RacePosition.score(4, &dr(1, 5, 1, 1)), 0);
}

#[test]
fn improvement_formula_rewards_places_gained() {
    // (grid_size + 1 - final) + (grid - final)
    assert_eq!(ScoreChoice::Improvement.score(20, &dr(1, 2, 5, 9)), 19 + 3);
    assert_eq!(ScoreChoice::Improvement.score(20, &dr(1, 5, 2, 9)), 16 - 3);
}

#[test]
fn domination_formula_rewards_qualifying() {
    // (grid_size + 1 - final) + (grid_size + 1 - qualifying)
    assert_eq!(ScoreChoice::Domination.score(20, &dr(1, 2, 5, 1)), 19 + 20);
    assert_eq!(ScoreChoice::Domination.score(10, &dr(1, 10, 5, 10)), 1 + 1);
}

#[test]
fn driver_strings_parse_below_one_hundred() {
    assert!(is_parsable_driver("0"));
    assert!(is_parsable_driver("42"));
    assert!(is_parsable_driver("99"));
    assert!(is_parsable_driver("+7"));
    assert!(is_parsable_driver("007"));
    assert!(!is_parsable_driver("100"));
    assert!(!is_parsable_driver("256"));
    assert!(!is_parsable_driver(""));
    assert!(!is_parsable_driver("+"));
    assert!(!is_parsable_driver("4a"));
    assert!(!is_parsable_driver("-3"));
}

#[test]
fn driver_input_accepts_empty_strings() {
    assert!(is_valid_driver_input(""));
    assert!(is_valid_driver_str(""));
    assert!(is_valid_driver_input("55"));
    assert!(!is_valid_driver_str("120"));
}

#[test]
fn lineup_uniqueness_scan() {
    assert!(is_unique_lineups(vec![vec![1, 2], vec![3, 4]]));
    assert!(!is_unique_lineups(vec![vec![1, 2], vec![3, 1]]));
    assert!(!is_unique_lineups(vec![vec![1, 1]]));
    assert!(is_unique_lineups(vec![]));
    assert!(is_unique_lineups(vec![vec![], vec![9]]));
}
