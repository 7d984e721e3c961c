use dogs_lib::models::{
    DogRaceInfo, Meta, OddsRange, PosOdds, PredictResponse, Prediction, RaceDate, RaceTime,
    TestResultsMeta, TestResultsRace,
};
use dogs_lib::settlement::{
    compute_obligation, process_test_results, shortlist_names, AnswerInput, RaceLookups,
    RecordLookup, SettleError, SettleParams, Settlement,
};

fn pred(name: &str, rank: u8, score: f32) -> Prediction {
    Prediction {
        name: name.to_string(),
        raw_score_bits: score.to_bits(),
        percentage_bits: 20.0f32.to_bits(),
        rank,
        comment: None,
    }
}

fn answer(preds: Vec<Prediction>) -> PredictResponse {
    PredictResponse {
        meta: Meta {
            date: RaceDate { year: 2025, month: 6, day: 2 },
            time: RaceTime { hour: 14, minute: 18, second: 0 },
            distance: 480,
            track: "Hove".to_string(),
            grade: Some("A3".to_string()),
        },
        predictions: preds,
        summary: Some("close race".to_string()),
    }
}

fn dog(name: &str, position: u32, odds: u32) -> DogRaceInfo {
    DogRaceInfo {
        dog_name: name.to_string(),
        race_id: 77,
        result_position: position,
        distance: 480,
        bf_odds_1_minute: odds,
    }
}

/// A five-dog race: the model ranks D fourth and E fifth; E's odds are 2.00
/// and D's 4.00, the favourite A is at 1.80.
fn five_dog_race(e_position: u32, d_odds: u32, e_odds: u32) -> AnswerInput {
    let field = vec![
        dog("A", 1, 180),
        dog("B", 2, 300),
        dog("C", 4, 350),
        dog("D", 5, d_odds),
        dog("E", e_position, e_odds),
    ];
    let preds = vec![
        pred("A", 1, 9.0),
        pred("B", 2, 8.0),
        pred("C", 3, 7.0),
        pred("D", 4, 6.0),
        pred("E", 5, 5.0),
    ];
    let field_looks = field.iter().map(|d| RecordLookup::Found(d.clone())).collect();
    let shortlist = vec![RecordLookup::Found(field[3].clone()), RecordLookup::Found(field[4].clone())];
    AnswerInput::Answer(
        answer(preds),
        RaceLookups { participants: Some(field), shortlist, field: field_looks },
    )
}

fn settle(answers: Vec<AnswerInput>, low: u32, high: u32, protected: bool) -> (TestResultsMeta, Vec<TestResultsRace>) {
    process_test_results(answers, 1, 10000, 1000, OddsRange::new(low, high), protected).unwrap()
}

#[test]
fn selection_that_loses_credits_the_stake() {
    let (meta, races) = settle(vec![five_dog_race(3, 400, 200)], 150, 500, false);
    assert_eq!(meta.balance.final_balance, 10975);
    assert_eq!(meta.race_count.races_tracked, 1);
    assert_eq!(meta.percentage, 975);
    assert_eq!(races.len(), 1);
    assert_eq!(races[0].bet, Some(PosOdds { real_position: 3, odds: 200 }));
    assert_eq!(races[0].meta.current_balance, 10975);
    assert_eq!(races[0].race_id, 77);
    assert_eq!(races[0].dogs.len(), 5);
    assert_eq!(races[0].summary, "close race");
}

#[test]
fn selection_that_wins_pays_the_obligation() {
    let (meta, races) = settle(vec![five_dog_race(1, 400, 200)], 150, 500, false);
    assert_eq!(meta.balance.final_balance, 9000);
    assert_eq!(meta.percentage, -1000);
    assert_eq!(races[0].meta.profit, -1000);
    assert_eq!(meta.position_info.bad_hit_5_pos, 1);
}

#[test]
fn small_field_is_skipped() {
    let field = vec![dog("A", 1, 180), dog("B", 2, 300), dog("C", 3, 350), dog("D", 4, 400)];
    let input = AnswerInput::Answer(
        answer(vec![pred("A", 1, 1.0), pred("B", 2, 2.0), pred("C", 3, 3.0), pred("D", 4, 4.0)]),
        RaceLookups { participants: Some(field), shortlist: vec![], field: vec![] },
    );
    let (meta, races) = settle(vec![input], 150, 500, false);
    assert_eq!(meta.skip_info.skipped_races_lt5, 1);
    assert_eq!(meta.balance.final_balance, 10000);
    assert!(races.is_empty());
}

#[test]
fn large_field_is_skipped() {
    let field: Vec<DogRaceInfo> = (0..7).map(|i| dog(&format!("N{i}"), i + 1, 300)).collect();
    let input = AnswerInput::Answer(
        answer(vec![pred("N0", 1, 1.0)]),
        RaceLookups { participants: Some(field), shortlist: vec![], field: vec![] },
    );
    let (meta, races) = settle(vec![input], 150, 500, false);
    assert_eq!(meta.skip_info.skipped_races_gt6, 1);
    assert!(races.is_empty());
}

#[test]
fn shortlist_outside_odds_range_places_no_bet() {
    let (meta, races) = settle(vec![five_dog_race(3, 600, 700)], 150, 500, false);
    assert_eq!(meta.skip_info.skipped_odds_range, 1);
    assert_eq!(meta.race_count.races_tracked, 0);
    assert_eq!(meta.balance.final_balance, 10000);
    assert_eq!(races.len(), 1);
    assert_eq!(races[0].bet, None);
}

#[test]
fn favorite_is_passed_over_for_the_second_candidate() {
    // E is priced like the favourite (1.80); D at 4.00 is taken instead.
    let (meta, races) = settle(vec![five_dog_race(3, 400, 180)], 150, 500, true);
    assert_eq!(meta.skip_info.skipped_favorite, 1);
    assert_eq!(races[0].bet, Some(PosOdds { real_position: 5, odds: 400 }));
    assert_eq!(meta.balance.final_balance, 10975);
}

#[test]
fn two_favorites_place_no_bet() {
    let (meta, races) = settle(vec![five_dog_race(3, 180, 180)], 150, 500, true);
    assert_eq!(meta.skip_info.skipped_favorite, 1);
    assert_eq!(races[0].bet, None);
    assert_eq!(meta.balance.final_balance, 10000);
}

#[test]
fn favorite_is_taken_when_unprotected() {
    let (_, races) = settle(vec![five_dog_race(3, 400, 180)], 150, 500, false);
    assert_eq!(races[0].bet, Some(PosOdds { real_position: 3, odds: 180 }));
}

#[test]
fn insolvency_stops_the_run() {
    let answers = vec![five_dog_race(1, 400, 200), five_dog_race(3, 400, 200)];
    let r = process_test_results(answers, 2, 300, 1000, OddsRange::new(150, 500), false).unwrap();
    // The obligation of 10.00 exceeds the balance of 3.00: nothing is settled.
    assert!(r.1.is_empty());
    assert_eq!(r.0.balance.final_balance, 300);
    assert_eq!(r.0.race_count.races_tracked, 0);
}

#[test]
fn insolvency_after_a_loss_keeps_the_earlier_ledger() {
    let answers = vec![
        five_dog_race(1, 400, 200),
        five_dog_race(1, 400, 200),
        five_dog_race(3, 400, 200),
    ];
    let r = process_test_results(answers, 3, 1500, 1000, OddsRange::new(150, 500), false).unwrap();
    assert_eq!(r.1.len(), 1);
    assert_eq!(r.0.balance.final_balance, 500);
}

#[test]
fn lookup_failure_is_counted() {
    let input = AnswerInput::Answer(
        answer(vec![pred("A", 1, 1.0)]),
        RaceLookups { participants: None, shortlist: vec![], field: vec![] },
    );
    let (meta, races) = settle(vec![input], 150, 500, false);
    assert_eq!(meta.errors.total_mongo_db_error, 1);
    assert!(races.is_empty());
}

#[test]
fn failed_and_missing_records_of_the_shortlist() {
    let field = vec![dog("A", 1, 180), dog("B", 2, 300), dog("C", 3, 350), dog("D", 4, 400), dog("E", 5, 200)];
    let preds = vec![pred("A", 1, 9.0), pred("B", 2, 8.0), pred("C", 3, 7.0), pred("D", 4, 6.0), pred("E", 5, 5.0)];
    let input = AnswerInput::Answer(
        answer(preds),
        RaceLookups {
            participants: Some(field),
            shortlist: vec![RecordLookup::Failed, RecordLookup::Missing],
            field: vec![],
        },
    );
    let (meta, races) = settle(vec![input], 150, 500, false);
    assert_eq!(meta.errors.total_mongo_db_error, 1);
    assert_eq!(meta.skip_info.skipped_odds_range, 1);
    assert_eq!(races[0].dogs[0].real_results.rank, 0);
    assert_eq!(races[0].dogs[0].real_results.betfair_odds, 0);
}

#[test]
fn empty_and_unparsable_content_are_counted() {
    let (meta, races) = settle(vec![AnswerInput::EmptyContent, AnswerInput::ParseError, AnswerInput::ParseError], 150, 500, false);
    assert_eq!(meta.errors.total_empty_content, 1);
    assert_eq!(meta.errors.total_race_parse_error, 2);
    assert!(races.is_empty());
}

#[test]
fn misranked_winner_is_counted() {
    let (meta, _) = settle(vec![five_dog_race(3, 400, 600)], 150, 500, false);
    assert_eq!(meta.position_info.bad_hit_4_pos, 0);
    let field = vec![dog("A", 2, 180), dog("B", 3, 300), dog("C", 4, 350), dog("D", 1, 400), dog("E", 5, 200)];
    let preds = vec![pred("A", 1, 9.0), pred("B", 2, 8.0), pred("C", 3, 7.0), pred("D", 4, 6.0), pred("E", 5, 5.0)];
    let shortlist = vec![RecordLookup::Found(field[3].clone()), RecordLookup::Found(field[4].clone())];
    let input = AnswerInput::Answer(answer(preds), RaceLookups { participants: Some(field), shortlist, field: vec![] });
    let (meta, _) = settle(vec![input], 150, 500, false);
    assert_eq!(meta.position_info.bad_hit_4_pos, 1);
}

#[test]
fn trail_compares_model_and_reality() {
    let (_, races) = settle(vec![five_dog_race(3, 400, 200)], 150, 500, false);
    let dogs = &races[0].dogs;
    assert_eq!(dogs[3].dog_name, "D");
    assert_eq!(dogs[3].model_prediction.as_ref().unwrap().rank, 4);
    assert_eq!(dogs[3].real_results.rank, 5);
    assert_eq!(dogs[3].real_results.betfair_odds, 400);
    assert_eq!(races[0].meta.track, "Hove");
    assert_eq!(races[0].meta.grade, Some("A3".to_string()));
}

#[test]
fn unranked_competitor_has_no_prediction() {
    let field = vec![dog("A", 1, 180), dog("B", 2, 300), dog("C", 3, 350), dog("D", 4, 400), dog("Z", 5, 200)];
    let preds = vec![pred("A", 1, 9.0), pred("B", 2, 8.0), pred("C", 3, 7.0), pred("D", 4, 6.0)];
    let input = AnswerInput::Answer(answer(preds), RaceLookups { participants: Some(field), shortlist: vec![], field: vec![] });
    let (_, races) = settle(vec![input], 150, 500, false);
    assert!(races[0].dogs[4].model_prediction.is_none());
}

#[test]
fn settlement_is_deterministic() {
    let a = settle(vec![five_dog_race(3, 400, 200), five_dog_race(1, 300, 250)], 150, 500, true);
    let b = settle(vec![five_dog_race(3, 400, 200), five_dog_race(1, 300, 250)], 150, 500, true);
    assert_eq!(a.0, b.0);
    assert_eq!(a.1.len(), b.1.len());
    for (x, y) in a.1.iter().zip(b.1.iter()) {
        assert_eq!(x.meta.current_balance, y.meta.current_balance);
        assert_eq!(x.bet, y.bet);
    }
}

#[test]
fn no_answers_is_refused() {
    let r = process_test_results(vec![], 0, 10000, 1000, OddsRange::new(150, 500), false);
    assert!(matches!(r, Err(SettleError::NoAnswers)));
}

#[test]
fn low_balance_is_refused() {
    let r = process_test_results(vec![AnswerInput::EmptyContent], 1, 200, 1000, OddsRange::new(150, 500), false);
    assert!(matches!(r, Err(SettleError::InvalidBalance)));
}

#[test]
fn zero_stake_is_refused() {
    let r = process_test_results(vec![AnswerInput::EmptyContent], 1, 10000, 0, OddsRange::new(150, 500), false);
    assert!(matches!(r, Err(SettleError::InvalidStake)));
}

#[test]
fn bad_odds_ranges_are_refused() {
    let r = process_test_results(vec![AnswerInput::EmptyContent], 1, 10000, 1000, OddsRange::new(0, 500), false);
    assert!(matches!(r, Err(SettleError::InvalidOddsRange)));
    let r = process_test_results(vec![AnswerInput::EmptyContent], 1, 10000, 1000, OddsRange::new(600, 500), false);
    assert!(matches!(r, Err(SettleError::InvalidOddsRange)));
}

#[test]
fn obligation_rounds_up() {
    assert_eq!(compute_obligation(1000, 200), 1000);
    assert_eq!(compute_obligation(333, 255), 517);
    assert_eq!(compute_obligation(1000, 50), -500);
}

#[test]
fn step_by_step_run_matches_batch() {
    let params = SettleParams {
        total_races: 2,
        initial_balance: 10000,
        initial_stake: 1000,
        odds_range: OddsRange::new(150, 500),
        is_favorite_protected: false,
    };
    let mut run = Settlement::new(params);
    run.apply(five_dog_race(3, 400, 200));
    assert!(!run.is_stopped());
    run.apply(five_dog_race(1, 400, 200));
    let (meta, races) = run.finish();
    assert_eq!(meta.balance.final_balance, 9975);
    assert_eq!(races.len(), 2);
    assert_eq!(meta.race_count.total_races, 2);
}

#[test]
fn shortlist_is_the_two_lowest_ranked() {
    let mut a = answer(vec![pred("E", 5, 1.0), pred("A", 1, 1.0), pred("D", 4, 1.0), pred("B", 2, 1.0)]);
    a.sort_predictions();
    assert_eq!(shortlist_names(&a), vec!["D".to_string(), "E".to_string()]);
    let single = answer(vec![pred("A", 1, 1.0)]);
    assert_eq!(shortlist_names(&single), vec!["A".to_string()]);
}
