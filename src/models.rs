use vstd::prelude::*;
use crate::validator::{sort_by_rank, sort_ranked};

verus! {

/// The language model a request is addressed to.
#[derive(Debug, Clone, Copy, PartialEq, Eq, Structural)]
pub enum Model {
    O3Mini,
    O4Mini,
}

pub open spec fn model_name(m: Model) -> Seq<char> {
    match m {
        Model::O3Mini => "o3-mini"@,
        Model::O4Mini => "o4-mini"@,
    }
}

impl Model {
    /// The identifier the scoring service knows the model by.
    pub fn to_string(&self) -> (r: String)
        ensures
            r@ == model_name(*self),
    {
        match self {
            Model::O3Mini => String::from_str("o3-mini"),
            Model::O4Mini => String::from_str("o4-mini"),
        }
    }
}

/// A calendar date, as the race card writes it.
#[derive(Debug, Clone, Copy, PartialEq, Eq, Structural)]
pub struct RaceDate {
    pub year: i32,
    pub month: u32,
    pub day: u32,
}

/// A time of day, to the second.
#[derive(Debug, Clone, Copy, PartialEq, Eq, Structural)]
pub struct RaceTime {
    pub hour: u32,
    pub minute: u32,
    pub second: u32,
}

/// Odds are decimal odds counted in hundredths (2.50 is 250).
/// Amounts of money are counted in hundredths of the currency unit.
#[derive(Debug, Clone, Copy, PartialEq, Eq, Structural)]
pub struct OddsRange {
    pub low: u32,
    pub high: u32,
}

impl OddsRange {
    pub fn new(low: u32, high: u32) -> (r: Self)
        ensures
            r.low == low,
            r.high == high,
    {
        OddsRange { low, high }
    }

    pub open spec fn contains_spec(self, odds: u32) -> bool {
        self.low <= odds <= self.high
    }

    /// Whether `odds` lies in the closed range `[low, high]`.
    pub fn contains(&self, odds: u32) -> (r: bool)
        ensures
            r == self.contains_spec(odds),
    {
        self.low <= odds && odds <= self.high
    }
}

/// Race identity the model answers for.
#[derive(Debug, Clone)]
pub struct Meta {
    pub date: RaceDate,
    pub time: RaceTime,
    pub distance: u32,
    pub track: String,
    pub grade: Option<String>,
}

/// One competitor in the model's ranking. The two scores are carried as the
/// bit patterns of the single-precision numbers the model wrote.
#[derive(Debug, Clone)]
pub struct Prediction {
    pub name: String,
    pub raw_score_bits: u32,
    pub percentage_bits: u32,
    pub rank: u8,
    pub comment: Option<String>,
}

pub fn copy_text(s: &Option<String>) -> (r: Option<String>)
    ensures
        r == *s,
{
    match s {
        Some(t) => Some(t.clone()),
        None => None,
    }
}

impl Prediction {
    pub fn duplicate(&self) -> (r: Prediction)
        ensures
            r == *self,
    {
        Prediction {
            name: self.name.clone(),
            raw_score_bits: self.raw_score_bits,
            percentage_bits: self.percentage_bits,
            rank: self.rank,
            comment: copy_text(&self.comment),
        }
    }
}

} // verus!

verus! {

/// A structured answer of the model for one race.
#[derive(Debug, Clone)]
pub struct PredictResponse {
    pub meta: Meta,
    pub predictions: Vec<Prediction>,
    pub summary: Option<String>,
}

/// What an answer holds, with its predictions as a sequence.
pub struct AnswerView {
    pub meta: Meta,
    pub predictions: Seq<Prediction>,
    pub summary: Option<String>,
}

impl View for PredictResponse {
    type V = AnswerView;

    open spec fn view(&self) -> AnswerView {
        AnswerView { meta: self.meta, predictions: self.predictions@, summary: self.summary }
    }
}

impl PredictResponse {
    /// Orders the predictions by ascending rank, keeping the order of equal ranks.
    pub fn sort_predictions(&mut self)
        ensures
            final(self).meta == old(self).meta,
            final(self).summary == old(self).summary,
            final(self).predictions@ == sort_by_rank(old(self).predictions@),
    {
        let mut taken: Vec<Prediction> = Vec::new();
        std::mem::swap(&mut self.predictions, &mut taken);
        let mut sorted = sort_ranked(taken);
        std::mem::swap(&mut self.predictions, &mut sorted);
    }
}

} // verus!

verus! {

/// A competitor's historical record for one race, as far as settlement reads
/// it. `bf_odds_1_minute` is the closing exchange price in hundredths.
#[derive(Debug, Clone)]
pub struct DogRaceInfo {
    pub dog_name: String,
    pub race_id: u64,
    pub result_position: u32,
    pub distance: u32,
    pub bf_odds_1_minute: u32,
}

/// A bet candidate: the real finish position and the odds (hundredths).
#[derive(Debug, Clone, Copy, PartialEq, Eq, Structural)]
pub struct PosOdds {
    pub real_position: u32,
    pub odds: u32,
}

#[derive(Debug, Clone, Copy, PartialEq, Eq, Structural)]
pub struct RaceCount {
    pub total_races: usize,
    pub races_tracked: usize,
}

impl RaceCount {
    pub fn new(total_races: usize, races_tracked: usize) -> (r: Self)
        ensures
            r == (RaceCount { total_races, races_tracked }),
    {
        RaceCount { total_races, races_tracked }
    }
}

/// How often one of the model's two least-favoured picks, ranked 4, 5 or 6,
/// actually won.
#[derive(Debug, Clone, Copy, PartialEq, Eq, Structural)]
pub struct PositionInfo {
    pub bad_hit_4_pos: i32,
    pub bad_hit_5_pos: i32,
    pub bad_hit_6_pos: i32,
}

impl PositionInfo {
    pub fn new(bad_hit_4_pos: i32, bad_hit_5_pos: i32, bad_hit_6_pos: i32) -> (r: Self)
        ensures
            r == (PositionInfo { bad_hit_4_pos, bad_hit_5_pos, bad_hit_6_pos }),
    {
        PositionInfo { bad_hit_4_pos, bad_hit_5_pos, bad_hit_6_pos }
    }
}

#[derive(Debug, Clone, Copy, PartialEq, Eq, Structural)]
pub struct TestErrors {
    pub total_empty_content: usize,
    pub total_race_parse_error: usize,
    pub total_mongo_db_error: usize,
}

impl TestErrors {
    pub fn new(
        total_empty_content: usize,
        total_race_parse_error: usize,
        total_mongo_db_error: usize,
    ) -> (r: Self)
        ensures
            r == (TestErrors { total_empty_content, total_race_parse_error, total_mongo_db_error }),
    {
        TestErrors { total_empty_content, total_race_parse_error, total_mongo_db_error }
    }
}

#[derive(Debug, Clone, Copy, PartialEq, Eq, Structural)]
pub struct SkipInfo {
    pub skipped_races_lt5: i32,
    pub skipped_races_gt6: i32,
    pub skipped_odds_range: i32,
    pub skipped_favorite: i32,
}

impl SkipInfo {
    pub fn new(
        skipped_races_lt5: i32,
        skipped_races_gt6: i32,
        skipped_odds_range: i32,
        skipped_favorite: i32,
    ) -> (r: Self)
        ensures
            r == (SkipInfo {
                skipped_races_lt5,
                skipped_races_gt6,
                skipped_odds_range,
                skipped_favorite,
            }),
    {
        SkipInfo { skipped_races_lt5, skipped_races_gt6, skipped_odds_range, skipped_favorite }
    }
}

/// Balances in hundredths of the currency unit.
#[derive(Debug, Clone, Copy, PartialEq, Eq, Structural)]
pub struct Balance {
    pub initial_balance: i64,
    pub final_balance: i64,
}

impl Balance {
    pub fn new(initial_balance: i64, final_balance: i64) -> (r: Self)
        ensures
            r == (Balance { initial_balance, final_balance }),
    {
        Balance { initial_balance, final_balance }
    }
}

/// The aggregate of a settlement run. `initial_stake` is in hundredths of the
/// currency unit; `percentage` is the final profit in basis points.
#[derive(Debug, Clone, Copy, PartialEq, Eq, Structural)]
pub struct TestResultsMeta {
    pub race_count: RaceCount,
    pub odds_range: OddsRange,
    pub position_info: PositionInfo,
    pub skip_info: SkipInfo,
    pub balance: Balance,
    pub errors: TestErrors,
    pub initial_stake: i64,
    pub percentage: i128,
}

impl TestResultsMeta {
    pub fn new(
        race_count: RaceCount,
        odds_range: OddsRange,
        position_info: PositionInfo,
        skip_info: SkipInfo,
        balance: Balance,
        errors: TestErrors,
        initial_stake: i64,
        percentage: i128,
    ) -> (r: Self)
        ensures
            r == (TestResultsMeta {
                race_count,
                odds_range,
                position_info,
                skip_info,
                balance,
                errors,
                initial_stake,
                percentage,
            }),
    {
        TestResultsMeta {
            race_count,
            odds_range,
            position_info,
            skip_info,
            balance,
            errors,
            initial_stake,
            percentage,
        }
    }
}

/// A trail entry's race identity with the balance after the race
/// (hundredths) and the running profit (basis points).
#[derive(Debug, Clone)]
pub struct TestResultsRaceMeta {
    pub date: RaceDate,
    pub distance: u32,
    pub grade: Option<String>,
    pub time: RaceTime,
    pub track: String,
    pub current_balance: i64,
    pub profit: i128,
}

impl TestResultsRaceMeta {
    pub fn new(
        date: RaceDate,
        distance: u32,
        grade: Option<String>,
        time: RaceTime,
        track: String,
        current_balance: i64,
        profit: i128,
    ) -> (r: Self)
        ensures
            r == (TestResultsRaceMeta {
                date,
                distance,
                grade,
                time,
                track,
                current_balance,
                profit,
            }),
    {
        TestResultsRaceMeta { date, distance, grade, time, track, current_balance, profit }
    }
}

/// A competitor's real finish position and odds (hundredths); both zero when
/// its record could not be had.
#[derive(Debug, Clone, Copy, PartialEq, Eq, Structural)]
pub struct TestResultsRealResults {
    pub rank: u32,
    pub betfair_odds: u32,
}

impl TestResultsRealResults {
    pub fn new(rank: u32, betfair_odds: u32) -> (r: Self)
        ensures
            r == (TestResultsRealResults { rank, betfair_odds }),
    {
        TestResultsRealResults { rank, betfair_odds }
    }
}

/// The model's view of a competitor next to what really happened.
/// `model_prediction` is `None` where the model did not name the competitor.
#[derive(Debug, Clone)]
pub struct TestResultsDog {
    pub dog_name: String,
    pub model_prediction: Option<Prediction>,
    pub real_results: TestResultsRealResults,
}

impl TestResultsDog {
    pub fn new(
        dog_name: String,
        model_prediction: Option<Prediction>,
        real_results: TestResultsRealResults,
    ) -> (r: Self)
        ensures
            r == (TestResultsDog { dog_name, model_prediction, real_results }),
    {
        TestResultsDog { dog_name, model_prediction, real_results }
    }
}

/// One settled race of the trail, with the bet placed on it, if any.
#[derive(Debug, Clone)]
pub struct TestResultsRace {
    pub race_id: u64,
    pub meta: TestResultsRaceMeta,
    pub dogs: Vec<TestResultsDog>,
    pub summary: String,
    pub bet: Option<PosOdds>,
}

pub struct RaceEntryView {
    pub race_id: u64,
    pub meta: TestResultsRaceMeta,
    pub dogs: Seq<TestResultsDog>,
    pub summary: Seq<char>,
    pub bet: Option<PosOdds>,
}

impl View for TestResultsRace {
    type V = RaceEntryView;

    open spec fn view(&self) -> RaceEntryView {
        RaceEntryView {
            race_id: self.race_id,
            meta: self.meta,
            dogs: self.dogs@,
            summary: self.summary@,
            bet: self.bet,
        }
    }
}

impl TestResultsRace {
    pub fn new(
        race_id: u64,
        meta: TestResultsRaceMeta,
        dogs: Vec<TestResultsDog>,
        summary: String,
        bet: Option<PosOdds>,
    ) -> (r: Self)
        ensures
            r@ == (RaceEntryView { race_id, meta, dogs: dogs@, summary: summary@, bet }),
    {
        TestResultsRace { race_id, meta, dogs, summary, bet }
    }
}

/// The aggregate of a settlement run and its per-race trail.
pub struct TestResults {
    pub meta: TestResultsMeta,
    pub races: Vec<TestResultsRace>,
}

impl TestResults {
    pub fn new(meta: TestResultsMeta, races: Vec<TestResultsRace>) -> (r: Self)
        ensures
            r.meta == meta,
            r.races@ == races@,
    {
        TestResults { meta, races }
    }
}

} // verus!

verus! {

#[derive(Debug, Clone)]
pub struct AddInstructionInput {
    pub name: String,
    pub content: String,
}

#[derive(Debug, Clone)]
pub struct LoadSettingsInput {
    pub model: String,
}

/// A stored instruction for the model.
#[derive(Debug, Clone)]
pub struct InstructionDoc {
    pub name: String,
    pub content: String,
}

/// A stored time window of predictions, as `HH:MM` texts.
#[derive(Debug, Clone)]
pub struct TimeRange {
    pub start_time: String,
    pub end_time: Option<String>,
}

#[derive(Debug, Clone)]
pub struct LoadPredictionsInput {
    pub time_range: TimeRange,
}

/// Whether a field of `n` competitors is one that settlement takes.
pub fn field_size_ok(n: usize) -> (r: bool)
    ensures
        r == (crate::constants::MIN_FIELD <= n <= crate::constants::MAX_FIELD),
{
    crate::constants::MIN_FIELD <= n && n <= crate::constants::MAX_FIELD
}

} // verus!
