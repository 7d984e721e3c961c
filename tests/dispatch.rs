use dogs_lib::constants::MAX_ROUNDS;
use dogs_lib::dispatcher::{Completion, Dispatcher, Outcome};
use dogs_lib::models::{Meta, Model, PredictResponse, Prediction, RaceDate, RaceTime, field_size_ok};
use dogs_lib::ordering::order_by_race_time;
use dogs_lib::validator::{is_degenerate_answer, validate_response};
use dogs_lib::tracks::{is_excluded_track, track_name};
use dogs_lib::settlement::SettleError;

fn pred(name: &str, rank: u8, score: f32) -> Prediction {
    Prediction {
        name: name.to_string(),
        raw_score_bits: score.to_bits(),
        percentage_bits: 10.0f32.to_bits(),
        rank,
        comment: Some("steady".to_string()),
    }
}

fn answer_at(track: &str, hour: u32, day: u32, preds: Vec<Prediction>) -> PredictResponse {
    PredictResponse {
        meta: Meta {
            date: RaceDate { year: 2025, month: 6, day },
            time: RaceTime { hour, minute: 0, second: 0 },
            distance: 480,
            track: track.to_string(),
            grade: None,
        },
        predictions: preds,
        summary: None,
    }
}

fn good(track: &str) -> Outcome {
    Outcome::Responded(vec![Some(answer_at(
        track,
        12,
        1,
        vec![pred("B", 2, 3.0), pred("A", 1, 4.0), pred("C", 3, 0.0)],
    ))])
}

fn degenerate(track: &str) -> Outcome {
    Outcome::Responded(vec![Some(answer_at(
        track,
        12,
        1,
        vec![pred("A", 1, 0.0), pred("B", 2, 0.0), pred("C", 3, 1.0)],
    ))])
}

fn done(index: usize, outcome: Outcome) -> Completion {
    Completion { index, outcome }
}

#[test]
fn answers_come_out_in_submission_order() {
    let mut d = Dispatcher::new(3);
    assert_eq!(d.pending(), vec![0, 1, 2]);
    d.record_round(vec![done(2, good("two")), done(0, good("zero")), done(1, Outcome::Failed)]);
    assert_eq!(d.pending(), vec![1]);
    d.record_round(vec![done(1, good("one"))]);
    assert!(d.is_finished());
    let out = d.finish();
    let tracks: Vec<&str> = out.iter().map(|a| a.meta.track.as_str()).collect();
    assert_eq!(tracks, vec!["zero", "one", "two"]);
}

#[test]
fn completion_order_does_not_change_the_outcome() {
    let mut a = Dispatcher::new(2);
    a.record_round(vec![done(0, good("x")), done(1, good("y"))]);
    let mut b = Dispatcher::new(2);
    b.record_round(vec![done(1, good("y")), done(0, good("x"))]);
    let ta: Vec<String> = a.finish().into_iter().map(|r| r.meta.track).collect();
    let tb: Vec<String> = b.finish().into_iter().map(|r| r.meta.track).collect();
    assert_eq!(ta, tb);
}

#[test]
fn a_request_yields_at_most_one_answer() {
    let mut d = Dispatcher::new(1);
    d.record_round(vec![done(0, good("first")), done(0, good("second"))]);
    assert!(d.is_finished());
    d.record_round(vec![done(0, good("third"))]);
    let out = d.finish();
    assert_eq!(out.len(), 1);
    assert_eq!(out[0].meta.track, "first");
}

#[test]
fn degenerate_answers_are_never_returned() {
    let mut d = Dispatcher::new(1);
    for _ in 0..MAX_ROUNDS {
        assert_eq!(d.pending(), vec![0]);
        d.record_round(vec![done(0, degenerate("bad"))]);
    }
    assert!(d.is_finished());
    assert!(d.finish().is_empty());
}

#[test]
fn failing_request_is_retried_exactly_max_rounds() {
    let mut d = Dispatcher::new(2);
    let mut submissions = 0;
    let mut rounds = 0;
    while !d.is_finished() {
        if d.pending().contains(&1) {
            submissions += 1;
        }
        d.record_round(vec![done(0, good("ok")), done(1, Outcome::Failed)]);
        rounds += 1;
        assert!(rounds <= 100);
    }
    assert_eq!(submissions, MAX_ROUNDS);
    assert_eq!(d.round(), MAX_ROUNDS);
    assert!(d.pending().is_empty());
    let out = d.finish();
    assert_eq!(out.len(), 1);
}

#[test]
fn unknown_positions_are_ignored() {
    let mut d = Dispatcher::new(1);
    d.record_round(vec![done(5, good("stray"))]);
    assert_eq!(d.pending(), vec![0]);
    assert_eq!(d.round(), 1);
}

#[test]
fn empty_batch_is_finished_at_once() {
    let d = Dispatcher::new(0);
    assert!(d.is_finished());
    assert!(d.pending().is_empty());
}

#[test]
fn validator_takes_first_acceptable_candidate_sorted() {
    let cands = vec![
        None,
        Some(answer_at("degenerate", 1, 1, vec![pred("A", 1, 0.0), pred("B", 2, -0.0)])),
        Some(answer_at("fine", 1, 1, vec![pred("C", 3, 1.0), pred("A", 1, 0.0), pred("B", 2, 2.0)])),
        Some(answer_at("later", 1, 1, vec![])),
    ];
    let r = validate_response(cands).unwrap();
    assert_eq!(r.meta.track, "fine");
    let ranks: Vec<u8> = r.predictions.iter().map(|p| p.rank).collect();
    assert_eq!(ranks, vec![1, 2, 3]);
}

#[test]
fn validator_rejects_when_nothing_is_acceptable() {
    assert!(validate_response(vec![]).is_none());
    assert!(validate_response(vec![None, None]).is_none());
}

#[test]
fn negative_zero_counts_as_zero() {
    let a = answer_at("t", 1, 1, vec![pred("A", 1, -0.0), pred("B", 2, 0.0)]);
    assert!(is_degenerate_answer(&a));
    let b = answer_at("t", 1, 1, vec![pred("A", 1, 0.0), pred("B", 2, 0.5)]);
    assert!(!is_degenerate_answer(&b));
}

#[test]
fn sort_predictions_orders_by_rank_stably() {
    let mut a = answer_at("t", 1, 1, vec![pred("C", 3, 1.0), pred("A", 1, 1.0), pred("X", 3, 1.0), pred("B", 2, 1.0)]);
    a.sort_predictions();
    let names: Vec<&str> = a.predictions.iter().map(|p| p.name.as_str()).collect();
    assert_eq!(names, vec!["A", "B", "C", "X"]);
}

#[test]
fn answers_ordered_by_time_then_date() {
    let v = vec![
        answer_at("late", 15, 1, vec![]),
        answer_at("early-day2", 10, 2, vec![]),
        answer_at("early-day1", 10, 1, vec![]),
    ];
    let out = order_by_race_time(v);
    let tracks: Vec<&str> = out.iter().map(|a| a.meta.track.as_str()).collect();
    assert_eq!(tracks, vec!["early-day1", "early-day2", "late"]);
}

#[test]
fn model_names() {
    assert_eq!(Model::O3Mini.to_string(), "o3-mini");
    assert_eq!(Model::O4Mini.to_string(), "o4-mini");
}

#[test]
fn field_sizes() {
    assert!(!field_size_ok(4));
    assert!(field_size_ok(5));
    assert!(field_size_ok(6));
    assert!(!field_size_ok(7));
}

#[test]
fn track_names_and_exclusions() {
    assert_eq!(track_name(5), Some("Hove".to_string()));
    assert_eq!(track_name(98), Some("Towcester".to_string()));
    assert_eq!(track_name(3), None);
    assert!(is_excluded_track(40));
    assert!(is_excluded_track(41));
    assert!(is_excluded_track(59));
    assert!(!is_excluded_track(5));
}

#[test]
fn error_messages() {
    assert_eq!(SettleError::NoAnswers.message(), "no answers to settle");
    assert_eq!(SettleError::InvalidOddsRange.message(), "invalid odds range");
}
