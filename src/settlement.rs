use vstd::prelude::*;
use crate::constants::{BETFAIR_PERMILLE, MAX_FIELD, MAX_SETTLED_ANSWERS, MIN_FIELD};
use crate::models::{
    copy_text, AnswerView, Balance, DogRaceInfo, OddsRange, PosOdds, PositionInfo, PredictResponse,
    Prediction, RaceCount, RaceEntryView, SkipInfo, TestErrors, TestResultsDog, TestResultsMeta,
    TestResultsRace, TestResultsRaceMeta, TestResultsRealResults,
};
use crate::validator::ranked;

verus! {

/// The answer to a lookup of one competitor's record.
#[derive(Debug, Clone)]
pub enum RecordLookup {
    /// The repository failed.
    Failed,
    /// No record matches.
    Missing,
    Found(DogRaceInfo),
}

/// Lookup `k` of a list; a position the list does not reach counts as missing.
pub open spec fn lookup_at(looks: Seq<RecordLookup>, k: int) -> RecordLookup {
    if 0 <= k < looks.len() {
        looks[k]
    } else {
        RecordLookup::Missing
    }
}

/// The lowest closing odds of the field (`u32::MAX` for an empty field).
pub open spec fn favorite_odds(field: Seq<DogRaceInfo>) -> u32
    decreases field.len(),
{
    if field.len() == 0 {
        u32::MAX
    } else {
        let rest = favorite_odds(field.drop_last());
        if field.last().bf_odds_1_minute < rest {
            field.last().bf_odds_1_minute
        } else {
            rest
        }
    }
}

pub fn favorite_of(field: &Vec<DogRaceInfo>) -> (r: u32)
    ensures
        r == favorite_odds(field@),
{
    let mut best: u32 = u32::MAX;
    let mut i: usize = 0;
    while i < field.len()
        invariant
            i <= field@.len(),
            best == favorite_odds(field@.take(i as int)),
        decreases field@.len() - i,
    {
        proof {
            assert(field@.take(i as int + 1).drop_last() =~= field@.take(i as int));
        }
        if field[i].bf_odds_1_minute < best {
            best = field[i].bf_odds_1_minute;
        }
        i = i + 1;
    }
    assert(field@.take(i as int) =~= field@);
    best
}

/// What a lay bet at `odds` (hundredths) risks for `stake`:
/// `stake * (odds - 1)`, rounded up to a whole hundredth of the currency.
pub open spec fn obligation(stake: int, odds: int) -> int {
    if odds >= 100 {
        (stake * (odds - 100) + 99) / 100
    } else {
        -((stake * (100 - odds)) / 100)
    }
}

/// What a lay bet that stands gains for `stake` after commission, rounded down.
pub open spec fn credit(stake: int) -> int {
    stake * BETFAIR_PERMILLE / 1000
}

/// Profit of `current` over `initial` in basis points, truncated toward zero.
pub open spec fn profit_bp(initial: int, current: int) -> int {
    let diff = current - initial;
    if diff >= 0 {
        diff * 10000 / initial
    } else {
        -((-diff) * 10000 / initial)
    }
}

pub fn compute_obligation(stake: i64, odds: u32) -> (r: i128)
    requires
        stake > 0,
    ensures
        r == obligation(stake as int, odds as int),
{
    let s = stake as i128;
    if odds >= 100 {
        let d = (odds - 100) as i128;
        assert(0 <= s * d <= i64::MAX * u32::MAX) by (nonlinear_arith)
            requires
                0 < s <= i64::MAX,
                0 <= d <= u32::MAX,
        ;
        (s * d + 99) / 100
    } else {
        let d = (100 - odds) as i128;
        assert(0 <= s * d <= i64::MAX * 100) by (nonlinear_arith)
            requires
                0 < s <= i64::MAX,
                0 <= d <= 100,
        ;
        -((s * d) / 100)
    }
}

pub fn compute_credit(stake: i64) -> (r: i128)
    requires
        stake > 0,
    ensures
        r == credit(stake as int),
{
    let s = stake as i128;
    assert(0 <= s * 975 <= i64::MAX * 975) by (nonlinear_arith)
        requires
            0 < s <= i64::MAX,
    ;
    s * (BETFAIR_PERMILLE as i128) / 1000
}

pub fn compute_profit(initial: i64, current: i64) -> (r: i128)
    requires
        initial > 0,
        current >= 0,
    ensures
        r == profit_bp(initial as int, current as int),
{
    let diff = (current as i128) - (initial as i128);
    if diff >= 0 {
        assert(0 <= diff * 10000 <= i64::MAX * 10000) by (nonlinear_arith)
            requires
                0 <= diff <= i64::MAX,
        ;
        diff * 10000 / (initial as i128)
    } else {
        let neg = -diff;
        assert(0 <= neg * 10000 <= i64::MAX * 10000) by (nonlinear_arith)
            requires
                0 <= neg <= i64::MAX,
        ;
        -(neg * 10000 / (initial as i128))
    }
}

/// What the look at the shortlist found.
pub struct ShortlistScan {
    /// The candidates whose odds lie in the accepted range, in shortlist order.
    pub survivors: Seq<PosOdds>,
    pub lookup_errors: nat,
    pub bad_hit_4: nat,
    pub bad_hit_5: nat,
    pub bad_hit_6: nat,
}

/// The two lowest-ranked predictions (the last two in rank order).
pub open spec fn shortlist_of(preds: Seq<Prediction>) -> Seq<Prediction> {
    if preds.len() <= 2 {
        preds
    } else {
        preds.skip(preds.len() - 2)
    }
}

pub open spec fn hit(rank: u8, record: DogRaceInfo, target: u8) -> nat {
    if rank == target && record.result_position == 1 {
        1
    } else {
        0
    }
}

pub open spec fn scan_shortlist(
    short: Seq<Prediction>,
    looks: Seq<RecordLookup>,
    range: OddsRange,
) -> ShortlistScan
    decreases short.len(),
{
    if short.len() == 0 {
        ShortlistScan {
            survivors: Seq::empty(),
            lookup_errors: 0,
            bad_hit_4: 0,
            bad_hit_5: 0,
            bad_hit_6: 0,
        }
    } else {
        let prev = scan_shortlist(short.drop_last(), looks, range);
        let p = short.last();
        match lookup_at(looks, short.len() - 1) {
            RecordLookup::Failed => ShortlistScan { lookup_errors: prev.lookup_errors + 1, ..prev },
            RecordLookup::Missing => prev,
            RecordLookup::Found(r) => ShortlistScan {
                survivors: if range.contains_spec(r.bf_odds_1_minute) {
                    prev.survivors.push(
                        PosOdds { real_position: r.result_position, odds: r.bf_odds_1_minute },
                    )
                } else {
                    prev.survivors
                },
                lookup_errors: prev.lookup_errors,
                bad_hit_4: prev.bad_hit_4 + hit(p.rank, r, 4),
                bad_hit_5: prev.bad_hit_5 + hit(p.rank, r, 5),
                bad_hit_6: prev.bad_hit_6 + hit(p.rank, r, 6),
            },
        }
    }
}

/// The outcome of a shortlist scan, as counts.
pub struct ScanCounts {
    pub survivors: Vec<PosOdds>,
    pub lookup_errors: usize,
    pub bad_hit_4: usize,
    pub bad_hit_5: usize,
    pub bad_hit_6: usize,
}

pub open spec fn counts_match(c: ScanCounts, s: ShortlistScan) -> bool {
    &&& c.survivors@ == s.survivors
    &&& c.lookup_errors == s.lookup_errors
    &&& c.bad_hit_4 == s.bad_hit_4
    &&& c.bad_hit_5 == s.bad_hit_5
    &&& c.bad_hit_6 == s.bad_hit_6
}

proof fn lemma_scan_bounds(short: Seq<Prediction>, looks: Seq<RecordLookup>, range: OddsRange)
    ensures
        scan_shortlist(short, looks, range).survivors.len() <= short.len(),
        scan_shortlist(short, looks, range).lookup_errors <= short.len(),
        scan_shortlist(short, looks, range).bad_hit_4 <= short.len(),
        scan_shortlist(short, looks, range).bad_hit_5 <= short.len(),
        scan_shortlist(short, looks, range).bad_hit_6 <= short.len(),
    decreases short.len(),
{
    if short.len() > 0 {
        lemma_scan_bounds(short.drop_last(), looks, range);
    }
}

/// Looks at the last two predictions of `preds` (already in rank order) with
/// the records found for them, in the same order.
pub fn scan(preds: &Vec<Prediction>, looks: &Vec<RecordLookup>, range: OddsRange) -> (r: ScanCounts)
    ensures
        counts_match(r, scan_shortlist(shortlist_of(preds@), looks@, range)),
        r.survivors@.len() <= 2,
{
    let n = preds.len();
    let start: usize = if n <= 2 { 0 } else { n - 2 };
    let ghost short = shortlist_of(preds@);
    assert(short =~= preds@.subrange(start as int, n as int));
    let mut r = ScanCounts {
        survivors: Vec::new(),
        lookup_errors: 0,
        bad_hit_4: 0,
        bad_hit_5: 0,
        bad_hit_6: 0,
    };
    let mut i: usize = start;
    proof { lemma_scan_bounds(short, looks@, range); }
    while i < n
        invariant
            start <= i <= n,
            n == preds@.len(),
            n - start <= 2,
            short == preds@.subrange(start as int, n as int),
            counts_match(r, scan_shortlist(short.take(i - start), looks@, range)),
        decreases n - i,
    {
        let k = i - start;
        proof {
            assert(short.take(k + 1).drop_last() =~= short.take(k as int));
            assert(short.take(k + 1).last() == preds@[i as int]);
            lemma_scan_bounds(short.take(k as int), looks@, range);
        }
        let p = &preds[i];
        if k < looks.len() {
            match &looks[k] {
                RecordLookup::Failed => {
                    r.lookup_errors = r.lookup_errors + 1;
                },
                RecordLookup::Missing => {},
                RecordLookup::Found(rec) => {
                    if rec.result_position == 1 {
                        if p.rank == 4 {
                            r.bad_hit_4 = r.bad_hit_4 + 1;
                        } else if p.rank == 5 {
                            r.bad_hit_5 = r.bad_hit_5 + 1;
                        } else if p.rank == 6 {
                            r.bad_hit_6 = r.bad_hit_6 + 1;
                        }
                    }
                    if range.contains(rec.bf_odds_1_minute) {
                        r.survivors.push(
                            PosOdds { real_position: rec.result_position, odds: rec.bf_odds_1_minute },
                        );
                    }
                },
            }
        }
        i = i + 1;
    }
    assert(short.take(n - start) =~= short);
    proof { lemma_scan_bounds(short, looks@, range); }
    r
}

/// The survivors by ascending odds; equal odds keep their order.
pub open spec fn order_by_odds(s: Seq<PosOdds>) -> Seq<PosOdds> {
    if s.len() == 2 && s[1].odds < s[0].odds {
        seq![s[1], s[0]]
    } else {
        s
    }
}

pub fn order_survivors(s: &mut Vec<PosOdds>)
    requires
        old(s)@.len() <= 2,
    ensures
        final(s)@ == order_by_odds(old(s)@),
{
    if s.len() == 2 && s[1].odds < s[0].odds {
        let first = s[0];
        let second = s[1];
        s.set(0, second);
        s.set(1, first);
        assert(s@ =~= seq![second, first]);
    }
}

/// Which candidate is bet on, and which skip counters the choice moves.
#[derive(Debug, Clone, Copy, PartialEq, Eq, Structural)]
pub struct Selection {
    pub bet: Option<PosOdds>,
    pub skipped_odds_range: bool,
    pub skipped_favorite: bool,
}

/// The selection policy over survivors ordered by odds.
pub open spec fn selection(s: Seq<PosOdds>, favorite: u32, protected: bool) -> Selection {
    if s.len() == 0 {
        Selection { bet: None, skipped_odds_range: true, skipped_favorite: false }
    } else if !protected || s[0].odds != favorite {
        Selection { bet: Some(s[0]), skipped_odds_range: false, skipped_favorite: false }
    } else if s.len() == 1 || s[1].odds == favorite {
        Selection { bet: None, skipped_odds_range: false, skipped_favorite: true }
    } else {
        Selection { bet: Some(s[1]), skipped_odds_range: false, skipped_favorite: true }
    }
}

pub fn select_bet(s: &Vec<PosOdds>, favorite: u32, protected: bool) -> (r: Selection)
    ensures
        r == selection(s@, favorite, protected),
{
    if s.len() == 0 {
        Selection { bet: None, skipped_odds_range: true, skipped_favorite: false }
    } else if !protected || s[0].odds != favorite {
        Selection { bet: Some(s[0]), skipped_odds_range: false, skipped_favorite: false }
    } else if s.len() == 1 || s[1].odds == favorite {
        Selection { bet: None, skipped_odds_range: false, skipped_favorite: true }
    } else {
        Selection { bet: Some(s[1]), skipped_odds_range: false, skipped_favorite: true }
    }
}

/// With favourite protection on, the market favourite is never bet on.
pub proof fn lemma_selection_avoids_favorite(s: Seq<PosOdds>, favorite: u32)
    ensures
        selection(s, favorite, true).bet matches Some(b) ==> b.odds != favorite,
{
}

/// The first prediction that names `name`.
pub open spec fn prediction_for(preds: Seq<Prediction>, name: Seq<char>) -> Option<Prediction>
    decreases preds.len(),
{
    if preds.len() == 0 {
        None
    } else if preds[0].name@ == name {
        Some(preds[0])
    } else {
        prediction_for(preds.drop_first(), name)
    }
}

pub fn find_prediction(preds: &Vec<Prediction>, name: &String) -> (r: Option<Prediction>)
    ensures
        r == prediction_for(preds@, name@),
{
    let mut i: usize = 0;
    assert(preds@.skip(0) =~= preds@);
    while i < preds.len()
        invariant
            i <= preds@.len(),
            prediction_for(preds@.skip(i as int), name@) == prediction_for(preds@, name@),
        decreases preds@.len() - i,
    {
        assert(preds@.skip(i as int).drop_first() =~= preds@.skip(i as int + 1));
        if preds[i].name == *name {
            return Some(preds[i].duplicate());
        }
        i = i + 1;
    }
    None
}

/// What the trail shows of one competitor of the field.
pub open spec fn trail_dog(d: DogRaceInfo, look: RecordLookup, preds: Seq<Prediction>) -> TestResultsDog {
    TestResultsDog {
        dog_name: d.dog_name,
        model_prediction: prediction_for(preds, d.dog_name@),
        real_results: match look {
            RecordLookup::Found(r) => TestResultsRealResults {
                rank: r.result_position,
                betfair_odds: r.bf_odds_1_minute,
            },
            _ => TestResultsRealResults { rank: 0, betfair_odds: 0 },
        },
    }
}

pub open spec fn trail_dogs(
    field: Seq<DogRaceInfo>,
    looks: Seq<RecordLookup>,
    preds: Seq<Prediction>,
) -> Seq<TestResultsDog> {
    Seq::new(field.len(), |k: int| trail_dog(field[k], lookup_at(looks, k), preds))
}

pub fn build_dogs(field: &Vec<DogRaceInfo>, looks: &Vec<RecordLookup>, preds: &Vec<Prediction>) -> (r: Vec<
    TestResultsDog,
>)
    ensures
        r@ == trail_dogs(field@, looks@, preds@),
{
    let mut r: Vec<TestResultsDog> = Vec::new();
    let mut i: usize = 0;
    while i < field.len()
        invariant
            i <= field@.len(),
            r@ =~= trail_dogs(field@, looks@, preds@).take(i as int),
        decreases field@.len() - i,
    {
        let d = &field[i];
        let finish_info = if i < looks.len() {
            match &looks[i] {
                RecordLookup::Found(rec) => TestResultsRealResults {
                    rank: rec.result_position,
                    betfair_odds: rec.bf_odds_1_minute,
                },
                _ => TestResultsRealResults { rank: 0, betfair_odds: 0 },
            }
        } else {
            TestResultsRealResults { rank: 0, betfair_odds: 0 }
        };
        let dog = TestResultsDog {
            dog_name: d.dog_name.clone(),
            model_prediction: find_prediction(preds, &d.dog_name),
            real_results: finish_info,
        };
        assert(dog == trail_dog(field@[i as int], lookup_at(looks@, i as int), preds@));
        r.push(dog);
        i = i + 1;
    }
    r
}

/// The parameters of a settlement run. Money is in hundredths of the currency
/// unit, odds in hundredths.
#[derive(Debug, Clone, Copy, PartialEq, Eq, Structural)]
pub struct SettleParams {
    pub total_races: usize,
    pub initial_balance: i64,
    pub initial_stake: i64,
    pub odds_range: OddsRange,
    pub is_favorite_protected: bool,
}

/// Why a run was refused before it began.
#[derive(Debug, Clone, Copy, PartialEq, Eq, Structural)]
pub enum SettleError {
    NoAnswers,
    /// The starting balance is not above 2.00.
    InvalidBalance,
    /// The stake is not positive.
    InvalidStake,
    /// The odds range is empty or starts at zero.
    InvalidOddsRange,
}

pub open spec fn error_text(e: SettleError) -> Seq<char> {
    match e {
        SettleError::NoAnswers => "no answers to settle"@,
        SettleError::InvalidBalance => "invalid initial balance"@,
        SettleError::InvalidStake => "invalid stake"@,
        SettleError::InvalidOddsRange => "invalid odds range"@,
    }
}

impl SettleError {
    /// A short description of the error.
    pub fn message(&self) -> (r: String)
        ensures
            r@ == error_text(*self),
    {
        match self {
            SettleError::NoAnswers => String::from_str("no answers to settle"),
            SettleError::InvalidBalance => String::from_str("invalid initial balance"),
            SettleError::InvalidStake => String::from_str("invalid stake"),
            SettleError::InvalidOddsRange => String::from_str("invalid odds range"),
        }
    }
}

/// The first precondition that `p` breaks for a run over `n` answers.
pub open spec fn params_error(p: SettleParams, n: nat) -> Option<SettleError> {
    if n == 0 {
        Some(SettleError::NoAnswers)
    } else if p.initial_balance <= 200 {
        Some(SettleError::InvalidBalance)
    } else if p.initial_stake <= 0 {
        Some(SettleError::InvalidStake)
    } else if p.odds_range.low == 0 || p.odds_range.low > p.odds_range.high {
        Some(SettleError::InvalidOddsRange)
    } else {
        None
    }
}

/// Checks the parameters of a run over `answer_count` answers.
pub fn check_params(p: &SettleParams, answer_count: usize) -> (r: Result<(), SettleError>)
    ensures
        r matches Err(e) ==> params_error(*p, answer_count as nat) == Some(e),
        r is Ok <==> params_error(*p, answer_count as nat) is None,
{
    if answer_count == 0 {
        Err(SettleError::NoAnswers)
    } else if p.initial_balance <= 200 {
        Err(SettleError::InvalidBalance)
    } else if p.initial_stake <= 0 {
        Err(SettleError::InvalidStake)
    } else if p.odds_range.low == 0 || p.odds_range.low > p.odds_range.high {
        Err(SettleError::InvalidOddsRange)
    } else {
        Ok(())
    }
}

/// One answer of the model as settlement meets it, with what the repository
/// returned for it.
pub enum AnswerInput {
    /// The response had no content.
    EmptyContent,
    /// The content did not parse as an answer.
    ParseError,
    Answer(PredictResponse, RaceLookups),
}

/// Repository answers for one race: the field (`None` where the lookup
/// failed), the records of the shortlist in shortlist order, and the records
/// of the field in field order.
pub struct RaceLookups {
    pub participants: Option<Vec<DogRaceInfo>>,
    pub shortlist: Vec<RecordLookup>,
    pub field: Vec<RecordLookup>,
}

/// The counters of a run.
pub struct Tally {
    pub bets: int,
    pub empty_content: int,
    pub parse_errors: int,
    pub lookup_errors: int,
    pub bad_hit_4: int,
    pub bad_hit_5: int,
    pub bad_hit_6: int,
    pub lt5: int,
    pub gt6: int,
    pub odds_range: int,
    pub favorite: int,
}

/// The state of a settlement run.
pub struct LedgerModel {
    pub params: SettleParams,
    pub balance: int,
    pub tally: Tally,
    pub trail: Seq<RaceEntryView>,
    pub stopped: bool,
    pub processed: nat,
}

pub open spec fn summary_text(s: Option<String>) -> Seq<char> {
    match s {
        Some(t) => t@,
        None => Seq::empty(),
    }
}

pub open spec fn bool_count(b: bool) -> int {
    if b {
        1
    } else {
        0
    }
}

/// The trail entry of a settled race.
pub open spec fn race_entry(
    p: SettleParams,
    a: AnswerView,
    field: Seq<DogRaceInfo>,
    field_looks: Seq<RecordLookup>,
    balance: int,
    bet: Option<PosOdds>,
) -> RaceEntryView {
    RaceEntryView {
        race_id: field[0].race_id,
        meta: TestResultsRaceMeta {
            date: a.meta.date,
            distance: a.meta.distance,
            grade: a.meta.grade,
            time: a.meta.time,
            track: a.meta.track,
            current_balance: balance as i64,
            profit: profit_bp(p.initial_balance as int, balance) as i128,
        },
        dogs: trail_dogs(field, field_looks, a.predictions),
        summary: summary_text(a.summary),
        bet,
    }
}

/// Settles a race whose field has an accepted size; `a` is in rank order.
pub open spec fn settle_race(
    m: LedgerModel,
    a: AnswerView,
    field: Seq<DogRaceInfo>,
    shortlist_looks: Seq<RecordLookup>,
    field_looks: Seq<RecordLookup>,
) -> LedgerModel {
    let p = m.params;
    let sc = scan_shortlist(shortlist_of(a.predictions), shortlist_looks, p.odds_range);
    let sel = selection(order_by_odds(sc.survivors), favorite_odds(field), p.is_favorite_protected);
    let t = Tally {
        lookup_errors: m.tally.lookup_errors + sc.lookup_errors,
        bad_hit_4: m.tally.bad_hit_4 + sc.bad_hit_4,
        bad_hit_5: m.tally.bad_hit_5 + sc.bad_hit_5,
        bad_hit_6: m.tally.bad_hit_6 + sc.bad_hit_6,
        odds_range: m.tally.odds_range + bool_count(sel.skipped_odds_range),
        favorite: m.tally.favorite + bool_count(sel.skipped_favorite),
        ..m.tally
    };
    match sel.bet {
        Some(b) => {
            let ob = obligation(p.initial_stake as int, b.odds as int);
            if m.balance < ob {
                LedgerModel { tally: t, stopped: true, ..m }
            } else {
                let bal = if b.real_position == 1 {
                    m.balance - ob
                } else {
                    m.balance + credit(p.initial_stake as int)
                };
                LedgerModel {
                    balance: bal,
                    tally: Tally { bets: t.bets + 1, ..t },
                    trail: m.trail.push(race_entry(p, a, field, field_looks, bal, sel.bet)),
                    ..m
                }
            }
        },
        None => LedgerModel {
            tally: t,
            trail: m.trail.push(race_entry(p, a, field, field_looks, m.balance, None)),
            ..m
        },
    }
}

/// Settles one parsed answer; `a` is in rank order.
pub open spec fn race_step(m: LedgerModel, a: AnswerView, l: RaceLookups) -> LedgerModel {
    match l.participants {
        None => LedgerModel {
            tally: Tally { lookup_errors: m.tally.lookup_errors + 1, ..m.tally },
            ..m
        },
        Some(parts) => if parts@.len() < MIN_FIELD {
            LedgerModel { tally: Tally { lt5: m.tally.lt5 + 1, ..m.tally }, ..m }
        } else if parts@.len() > MAX_FIELD {
            LedgerModel { tally: Tally { gt6: m.tally.gt6 + 1, ..m.tally }, ..m }
        } else {
            settle_race(m, a, parts@, l.shortlist@, l.field@)
        },
    }
}

/// One answer of the run. A stopped run takes no more answers.
pub open spec fn step(m: LedgerModel, input: AnswerInput) -> LedgerModel {
    if m.stopped {
        m
    } else {
        let m1 = LedgerModel { processed: m.processed + 1, ..m };
        match input {
            AnswerInput::EmptyContent => LedgerModel {
                tally: Tally { empty_content: m.tally.empty_content + 1, ..m.tally },
                ..m1
            },
            AnswerInput::ParseError => LedgerModel {
                tally: Tally { parse_errors: m.tally.parse_errors + 1, ..m.tally },
                ..m1
            },
            AnswerInput::Answer(a, l) => race_step(m1, ranked(a@), l),
        }
    }
}

pub open spec fn initial_ledger(p: SettleParams) -> LedgerModel {
    LedgerModel {
        params: p,
        balance: p.initial_balance as int,
        tally: Tally {
            bets: 0,
            empty_content: 0,
            parse_errors: 0,
            lookup_errors: 0,
            bad_hit_4: 0,
            bad_hit_5: 0,
            bad_hit_6: 0,
            lt5: 0,
            gt6: 0,
            odds_range: 0,
            favorite: 0,
        },
        trail: Seq::empty(),
        stopped: false,
        processed: 0,
    }
}

/// The run over `inputs`, in order.
pub open spec fn settle_run(p: SettleParams, inputs: Seq<AnswerInput>) -> LedgerModel
    decreases inputs.len(),
{
    if inputs.len() == 0 {
        initial_ledger(p)
    } else {
        step(settle_run(p, inputs.drop_last()), inputs.last())
    }
}

/// The aggregate reported for a run.
pub open spec fn report(m: LedgerModel) -> TestResultsMeta {
    let p = m.params;
    TestResultsMeta {
        race_count: RaceCount { total_races: p.total_races, races_tracked: m.tally.bets as usize },
        odds_range: p.odds_range,
        position_info: PositionInfo {
            bad_hit_4_pos: m.tally.bad_hit_4 as i32,
            bad_hit_5_pos: m.tally.bad_hit_5 as i32,
            bad_hit_6_pos: m.tally.bad_hit_6 as i32,
        },
        skip_info: SkipInfo {
            skipped_races_lt5: m.tally.lt5 as i32,
            skipped_races_gt6: m.tally.gt6 as i32,
            skipped_odds_range: m.tally.odds_range as i32,
            skipped_favorite: m.tally.favorite as i32,
        },
        balance: Balance { initial_balance: p.initial_balance, final_balance: m.balance as i64 },
        errors: TestErrors {
            total_empty_content: m.tally.empty_content as usize,
            total_race_parse_error: m.tally.parse_errors as usize,
            total_mongo_db_error: m.tally.lookup_errors as usize,
        },
        initial_stake: p.initial_stake,
        percentage: profit_bp(p.initial_balance as int, m.balance) as i128,
    }
}

pub open spec fn entry_views(v: Seq<TestResultsRace>) -> Seq<RaceEntryView> {
    v.map_values(|r: TestResultsRace| r@)
}

impl LedgerModel {
    /// The run's invariant: valid parameters, a balance that is never negative
    /// and grows by at most one stake per answer, and counters that grow by at
    /// most two per answer.
    pub open spec fn wf(self) -> bool {
        let p = self.params;
        let bound = 2 * self.processed;
        &&& params_error(p, 1) is None
        &&& self.processed <= MAX_SETTLED_ANSWERS
        &&& 0 <= self.balance <= p.initial_balance + self.processed * p.initial_stake
        &&& 0 <= self.tally.bets <= self.processed
        &&& 0 <= self.tally.empty_content <= bound
        &&& 0 <= self.tally.parse_errors <= bound
        &&& 0 <= self.tally.lookup_errors <= bound
        &&& 0 <= self.tally.bad_hit_4 <= bound
        &&& 0 <= self.tally.bad_hit_5 <= bound
        &&& 0 <= self.tally.bad_hit_6 <= bound
        &&& 0 <= self.tally.lt5 <= bound
        &&& 0 <= self.tally.gt6 <= bound
        &&& 0 <= self.tally.odds_range <= bound
        &&& 0 <= self.tally.favorite <= bound
    }

    /// Room for one more answer within the machine's integers.
    pub open spec fn has_room(self) -> bool {
        &&& self.processed < MAX_SETTLED_ANSWERS
        &&& self.balance + self.params.initial_stake <= i64::MAX
    }
}

/// A settlement run in progress.
pub struct Settlement {
    params: SettleParams,
    balance: i64,
    bets: usize,
    errors: TestErrors,
    position_info: PositionInfo,
    skip_info: SkipInfo,
    races: Vec<TestResultsRace>,
    stopped: bool,
    processed: usize,
}

impl View for Settlement {
    type V = LedgerModel;

    closed spec fn view(&self) -> LedgerModel {
        LedgerModel {
            params: self.params,
            balance: self.balance as int,
            tally: Tally {
                bets: self.bets as int,
                empty_content: self.errors.total_empty_content as int,
                parse_errors: self.errors.total_race_parse_error as int,
                lookup_errors: self.errors.total_mongo_db_error as int,
                bad_hit_4: self.position_info.bad_hit_4_pos as int,
                bad_hit_5: self.position_info.bad_hit_5_pos as int,
                bad_hit_6: self.position_info.bad_hit_6_pos as int,
                lt5: self.skip_info.skipped_races_lt5 as int,
                gt6: self.skip_info.skipped_races_gt6 as int,
                odds_range: self.skip_info.skipped_odds_range as int,
                favorite: self.skip_info.skipped_favorite as int,
            },
            trail: entry_views(self.races@),
            stopped: self.stopped,
            processed: self.processed as nat,
        }
    }
}

proof fn lemma_stake_room(processed: int, stake: int)
    requires
        processed >= 0,
        stake > 0,
    ensures
        processed * stake + stake == (processed + 1) * stake,
{
    assert(processed * stake + stake == (processed + 1) * stake) by (nonlinear_arith);
}

proof fn lemma_bounds(stake: int, odds: int)
    requires
        stake > 0,
        odds >= 0,
    ensures
        -stake <= obligation(stake, odds),
        0 <= credit(stake) <= stake,
        odds >= 100 ==> obligation(stake, odds) >= 0,
{
    assert(0 <= stake * 975 / 1000 <= stake) by (nonlinear_arith)
        requires
            stake > 0,
    ;
    if odds < 100 {
        assert(0 <= (stake * (100 - odds)) / 100 <= stake) by (nonlinear_arith)
            requires
                stake > 0,
                0 <= 100 - odds <= 100,
        ;
    } else {
        assert(0 <= (stake * (odds - 100) + 99) / 100) by (nonlinear_arith)
            requires
                stake > 0,
                odds - 100 >= 0,
        ;
    }
}

/// A step keeps the run's invariant.
pub proof fn lemma_step_wf(m: LedgerModel, input: AnswerInput)
    requires
        m.wf(),
        m.has_room(),
    ensures
        step(m, input).wf(),
        step(m, input).params == m.params,
        step(m, input).processed <= m.processed + 1,
{
    let p = m.params;
    lemma_stake_room(m.processed as int, p.initial_stake as int);
    if !m.stopped {
        match input {
            AnswerInput::Answer(a, l) => {
                let m1 = LedgerModel { processed: m.processed + 1, ..m };
                let ra = ranked(a@);
                match l.participants {
                    Some(parts) => {
                        if MIN_FIELD <= parts@.len() <= MAX_FIELD {
                            let sc = scan_shortlist(shortlist_of(ra.predictions), l.shortlist@, p.odds_range);
                            lemma_scan_bounds(shortlist_of(ra.predictions), l.shortlist@, p.odds_range);
                            let sel = selection(
                                order_by_odds(sc.survivors),
                                favorite_odds(parts@),
                                p.is_favorite_protected,
                            );
                            match sel.bet {
                                Some(b) => {
                                    lemma_bounds(p.initial_stake as int, b.odds as int);
                                },
                                None => {},
                            }
                        }
                    },
                    None => {},
                }
            },
            _ => {},
        }
    }
}

impl Settlement {
    /// A fresh run: the balance is the initial one and every counter is zero.
    pub fn new(params: SettleParams) -> (r: Settlement)
        requires
            params_error(params, 1) is None,
        ensures
            r@ == initial_ledger(params),
            r@.wf(),
    {
        let r = Settlement {
            params,
            balance: params.initial_balance,
            bets: 0,
            errors: TestErrors::new(0, 0, 0),
            position_info: PositionInfo::new(0, 0, 0),
            skip_info: SkipInfo::new(0, 0, 0, 0),
            races: Vec::new(),
            stopped: false,
            processed: 0,
        };
        assert(entry_views(r.races@) =~= Seq::<RaceEntryView>::empty());
        r
    }

    /// Whether the run ended because a bet could not be covered.
    pub fn is_stopped(&self) -> (r: bool)
        ensures
            r == self@.stopped,
    {
        self.stopped
    }

    /// Whether one more answer can be taken within the machine's integers.
    pub fn has_room(&self) -> (r: bool)
        requires
            self@.wf(),
        ensures
            r == self@.has_room(),
    {
        self.processed < MAX_SETTLED_ANSWERS && self.balance <= i64::MAX - self.params.initial_stake
    }

    fn settle_parsed(&mut self, a: PredictResponse, l: RaceLookups)
        requires
            old(self)@.wf(),
            old(self)@.has_room(),
            !old(self)@.stopped,
        ensures
            final(self)@ == race_step(
                (LedgerModel { processed: old(self)@.processed + 1, ..old(self)@ }),
                a@,
                l,
            ),
    {
        self.processed = self.processed + 1;
        let RaceLookups { participants, shortlist, field } = l;
        match participants {
            None => {
                self.errors.total_mongo_db_error = self.errors.total_mongo_db_error + 1;
            },
            Some(parts) => {
                if parts.len() < MIN_FIELD {
                    self.skip_info.skipped_races_lt5 = self.skip_info.skipped_races_lt5 + 1;
                } else if parts.len() > MAX_FIELD {
                    self.skip_info.skipped_races_gt6 = self.skip_info.skipped_races_gt6 + 1;
                } else {
                    self.settle_field(&a, &parts, &shortlist, &field);
                }
            },
        }
    }

    fn settle_field(
        &mut self,
        a: &PredictResponse,
        parts: &Vec<DogRaceInfo>,
        shortlist: &Vec<RecordLookup>,
        field: &Vec<RecordLookup>,
    )
        requires
            old(self)@.processed >= 1,
            (LedgerModel { processed: (old(self)@.processed - 1) as nat, ..old(self)@ }).wf(),
            old(self)@.balance + old(self)@.params.initial_stake <= i64::MAX,
            old(self)@.processed <= MAX_SETTLED_ANSWERS,
            MIN_FIELD <= parts@.len() <= MAX_FIELD,
        ensures
            final(self)@ == settle_race(old(self)@, a@, parts@, shortlist@, field@),
    {
        let p = self.params;
        let mut sc = scan(&a.predictions, shortlist, p.odds_range);
        proof {
            lemma_scan_bounds(shortlist_of(a@.predictions), shortlist@, p.odds_range);
        }
        order_survivors(&mut sc.survivors);
        let favorite = favorite_of(parts);
        let sel = select_bet(&sc.survivors, favorite, p.is_favorite_protected);
        self.errors.total_mongo_db_error = self.errors.total_mongo_db_error + sc.lookup_errors;
        self.position_info.bad_hit_4_pos = self.position_info.bad_hit_4_pos + sc.bad_hit_4 as i32;
        self.position_info.bad_hit_5_pos = self.position_info.bad_hit_5_pos + sc.bad_hit_5 as i32;
        self.position_info.bad_hit_6_pos = self.position_info.bad_hit_6_pos + sc.bad_hit_6 as i32;
        if sel.skipped_odds_range {
            self.skip_info.skipped_odds_range = self.skip_info.skipped_odds_range + 1;
        }
        if sel.skipped_favorite {
            self.skip_info.skipped_favorite = self.skip_info.skipped_favorite + 1;
        }
        match sel.bet {
            Some(b) => {
                let ob = compute_obligation(p.initial_stake, b.odds);
                proof { lemma_bounds(p.initial_stake as int, b.odds as int); }
                if (self.balance as i128) < ob {
                    self.stopped = true;
                    return;
                }
                let gain = compute_credit(p.initial_stake);
                let bal: i64 = if b.real_position == 1 {
                    ((self.balance as i128) - ob) as i64
                } else {
                    ((self.balance as i128) + gain) as i64
                };
                self.balance = bal;
                self.bets = self.bets + 1;
                self.push_entry(a, parts, field, sel.bet);
            },
            None => {
                self.push_entry(a, parts, field, None);
            },
        }
    }

    fn push_entry(
        &mut self,
        a: &PredictResponse,
        parts: &Vec<DogRaceInfo>,
        field: &Vec<RecordLookup>,
        bet: Option<PosOdds>,
    )
        requires
            parts@.len() > 0,
            old(self).params.initial_balance > 0,
            old(self).balance >= 0,
        ensures
            final(self)@ == (LedgerModel {
                trail: old(self)@.trail.push(
                    race_entry(
                        old(self)@.params,
                        a@,
                        parts@,
                        field@,
                        old(self)@.balance,
                        bet,
                    ),
                ),
                ..old(self)@
            }),
    {
        let meta = TestResultsRaceMeta {
            date: a.meta.date,
            distance: a.meta.distance,
            grade: copy_text(&a.meta.grade),
            time: a.meta.time,
            track: a.meta.track.clone(),
            current_balance: self.balance,
            profit: compute_profit(self.params.initial_balance, self.balance),
        };
        let summary = match &a.summary {
            Some(t) => t.clone(),
            None => String::new(),
        };
        let entry = TestResultsRace {
            race_id: parts[0].race_id,
            meta,
            dogs: build_dogs(parts, field, &a.predictions),
            summary,
            bet,
        };
        let ghost before = self.races@;
        self.races.push(entry);
        assert(entry_views(self.races@) =~= entry_views(before).push(entry@));
    }

    /// Takes the next answer of the run; see `has_room` for the machine's limit.
    pub fn apply(&mut self, input: AnswerInput)
        requires
            old(self)@.wf(),
            old(self)@.has_room(),
        ensures
            final(self)@ == step(old(self)@, input),
            final(self)@.wf(),
    {
        if self.stopped {
            return;
        }
        proof {
            lemma_stake_room(self@.processed as int, self@.params.initial_stake as int);
            lemma_step_wf(self@, input);
        }
        match input {
            AnswerInput::EmptyContent => {
                self.processed = self.processed + 1;
                self.errors.total_empty_content = self.errors.total_empty_content + 1;
            },
            AnswerInput::ParseError => {
                self.processed = self.processed + 1;
                self.errors.total_race_parse_error = self.errors.total_race_parse_error + 1;
            },
            AnswerInput::Answer(a, l) => {
                let ghost a0 = a@;
                let mut a = a;
                a.sort_predictions();
                assert(a@ == ranked(a0));
                self.settle_parsed(a, l);
            },
        }
    }
}

impl Settlement {
    /// Ends the run: the aggregate and the trail.
    pub fn finish(self) -> (r: (TestResultsMeta, Vec<TestResultsRace>))
        requires
            self@.wf(),
        ensures
            r.0 == report(self@),
            entry_views(r.1@) == self@.trail,
    {
        let p = self.params;
        let percentage = compute_profit(p.initial_balance, self.balance);
        let meta = TestResultsMeta {
            race_count: RaceCount { total_races: p.total_races, races_tracked: self.bets },
            odds_range: p.odds_range,
            position_info: self.position_info,
            skip_info: self.skip_info,
            balance: Balance { initial_balance: p.initial_balance, final_balance: self.balance },
            errors: self.errors,
            initial_stake: p.initial_stake,
            percentage,
        };
        (meta, self.races)
    }
}

proof fn lemma_run_progress(p: SettleParams, inputs: Seq<AnswerInput>)
    requires
        params_error(p, 1) is None,
        inputs.len() <= MAX_SETTLED_ANSWERS,
        p.initial_balance + inputs.len() * p.initial_stake <= i64::MAX,
    ensures
        settle_run(p, inputs).wf(),
        settle_run(p, inputs).params == p,
        settle_run(p, inputs).processed <= inputs.len(),
    decreases inputs.len(),
{
    if inputs.len() > 0 {
        let prev = inputs.drop_last();
        let k = prev.len() as int;
        assert(k * p.initial_stake <= inputs.len() * p.initial_stake) by (nonlinear_arith)
            requires
                k < inputs.len(),
                p.initial_stake > 0,
        ;
        lemma_run_progress(p, prev);
        let m = settle_run(p, prev);
        assert(m.processed * p.initial_stake <= k * p.initial_stake) by (nonlinear_arith)
            requires
                m.processed <= k,
                p.initial_stake > 0,
        ;
        lemma_stake_room(m.processed as int, p.initial_stake as int);
        lemma_stake_room(k, p.initial_stake as int);
        lemma_step_wf(m, inputs.last());
    }
}

/// Settles `answers` in order against what the repository returned for them.
/// The run is refused, with the first broken precondition, when there are no
/// answers, the balance is not above 2.00, the stake is not positive, or the
/// odds range is empty or starts at zero. The balance must stay within `i64`
/// even if every answer gained a whole stake.
pub fn process_test_results(
    answers: Vec<AnswerInput>,
    total_races: usize,
    initial_balance: i64,
    initial_stake: i64,
    odds_range: OddsRange,
    is_favorite_protected: bool,
) -> (r: Result<(TestResultsMeta, Vec<TestResultsRace>), SettleError>)
    requires
        answers@.len() <= MAX_SETTLED_ANSWERS,
        initial_balance + answers@.len() * initial_stake <= i64::MAX,
    ensures
        ({
            let p = SettleParams {
                total_races,
                initial_balance,
                initial_stake,
                odds_range,
                is_favorite_protected,
            };
            match params_error(p, answers@.len()) {
                Some(e) => r == Err::<(TestResultsMeta, Vec<TestResultsRace>), SettleError>(e),
                None => r matches Ok(out) && out.0 == report(settle_run(p, answers@))
                    && entry_views(out.1@) == settle_run(p, answers@).trail,
            }
        }),
{
    let p = SettleParams {
        total_races,
        initial_balance,
        initial_stake,
        odds_range,
        is_favorite_protected,
    };
    match check_params(&p, answers.len()) {
        Err(e) => {
            return Err(e);
        },
        Ok(()) => {},
    }
    let ghost orig = answers@;
    let mut rest = answers;
    let mut run = Settlement::new(p);
    let ghost mut k: int = 0;
    assert(orig.take(0) =~= Seq::<AnswerInput>::empty());
    assert(orig.skip(0) =~= orig);
    proof { lemma_run_progress(p, orig); }
    while rest.len() > 0
        invariant
            0 <= k <= orig.len(),
            rest@ == orig.skip(k),
            run@ == settle_run(p, orig.take(k)),
            params_error(p, 1) is None,
            orig.len() <= MAX_SETTLED_ANSWERS,
            p.initial_balance + orig.len() * p.initial_stake <= i64::MAX,
        decreases rest.len(),
    {
        let input = rest.remove(0);
        proof {
            assert(orig.take(k + 1).drop_last() =~= orig.take(k));
            assert(orig.take(k + 1).last() == input);
            assert(rest@ =~= orig.skip(k + 1));
            assert((k + 1) * p.initial_stake <= orig.len() * p.initial_stake) by (nonlinear_arith)
                requires
                    k + 1 <= orig.len(),
                    p.initial_stake > 0,
            ;
            assert(k * p.initial_stake <= orig.len() * p.initial_stake) by (nonlinear_arith)
                requires
                    k <= orig.len(),
                    p.initial_stake > 0,
            ;
            lemma_run_progress(p, orig.take(k + 1));
            lemma_run_progress(p, orig.take(k));
            let m = settle_run(p, orig.take(k));
            assert(m.processed * p.initial_stake <= k * p.initial_stake) by (nonlinear_arith)
                requires
                    m.processed <= k,
                    p.initial_stake > 0,
            ;
            lemma_stake_room(m.processed as int, p.initial_stake as int);
            lemma_stake_room(k, p.initial_stake as int);
        }
        run.apply(input);
        proof { k = k + 1; }
    }
    assert(orig.take(k) =~= orig);
    proof { lemma_run_progress(p, orig); }
    Ok(run.finish())
}

/// The bet a step places on a race, if it reaches the selection at all.
pub open spec fn placed_bet(m: LedgerModel, input: AnswerInput) -> Option<PosOdds> {
    if m.stopped {
        None
    } else {
        match input {
            AnswerInput::Answer(a, l) => match l.participants {
                Some(parts) => if MIN_FIELD <= parts@.len() <= MAX_FIELD {
                    let sc = scan_shortlist(
                        shortlist_of(ranked(a@).predictions),
                        l.shortlist@,
                        m.params.odds_range,
                    );
                    selection(
                        order_by_odds(sc.survivors),
                        favorite_odds(parts@),
                        m.params.is_favorite_protected,
                    ).bet
                } else {
                    None
                },
                None => None,
            },
            _ => None,
        }
    }
}

/// Two inputs with the same contents.
pub open spec fn same_input(x: AnswerInput, y: AnswerInput) -> bool {
    match (x, y) {
        (AnswerInput::EmptyContent, AnswerInput::EmptyContent) => true,
        (AnswerInput::ParseError, AnswerInput::ParseError) => true,
        (AnswerInput::Answer(a, l), AnswerInput::Answer(b, k)) => {
            &&& a@ == b@
            &&& l.shortlist@ == k.shortlist@
            &&& l.field@ == k.field@
            &&& match (l.participants, k.participants) {
                (None, None) => true,
                (Some(v), Some(w)) => v@ == w@,
                _ => false,
            }
        },
        _ => false,
    }
}

/// Settlement is deterministic: the same answers with the same repository
/// contents and the same parameters give the same ledger, counters and trail.
pub proof fn lemma_settlement_deterministic(p: SettleParams, xs: Seq<AnswerInput>, ys: Seq<AnswerInput>)
    requires
        xs.len() == ys.len(),
        forall|i: int| 0 <= i < xs.len() ==> same_input(#[trigger] xs[i], ys[i]),
    ensures
        settle_run(p, xs) == settle_run(p, ys),
        report(settle_run(p, xs)) == report(settle_run(p, ys)),
    decreases xs.len(),
{
    if xs.len() > 0 {
        let (px, py) = (xs.drop_last(), ys.drop_last());
        assert forall|i: int| 0 <= i < px.len() implies same_input(#[trigger] px[i], py[i]) by {
            assert(px[i] == xs[i] && py[i] == ys[i]);
        }
        lemma_settlement_deterministic(p, px, py);
        assert(same_input(xs[xs.len() - 1], ys[ys.len() - 1]));
    }
}

proof fn lemma_stopped_run_is_frozen(p: SettleParams, inputs: Seq<AnswerInput>, k: int)
    requires
        0 <= k <= inputs.len(),
        settle_run(p, inputs.take(k)).stopped,
    ensures
        settle_run(p, inputs) == settle_run(p, inputs.take(k)),
    decreases inputs.len() - k,
{
    if k < inputs.len() {
        assert(inputs.take(k + 1).drop_last() =~= inputs.take(k));
        lemma_stopped_run_is_frozen(p, inputs, k + 1);
    } else {
        assert(inputs.take(k) =~= inputs);
    }
}

/// When the bet chosen at answer `k` cannot be covered by the balance, the
/// run stops there: no later race reaches the trail, and the final balance is
/// the one left by the answers before `k`.
pub proof fn lemma_insolvency_stop(p: SettleParams, inputs: Seq<AnswerInput>, k: int)
    requires
        0 <= k < inputs.len(),
        placed_bet(settle_run(p, inputs.take(k)), inputs[k]) matches Some(b) && settle_run(
            p,
            inputs.take(k),
        ).balance < obligation(p.initial_stake as int, b.odds as int),
    ensures
        settle_run(p, inputs).stopped,
        settle_run(p, inputs).balance == settle_run(p, inputs.take(k)).balance,
        settle_run(p, inputs).trail == settle_run(p, inputs.take(k)).trail,
{
    let before = settle_run(p, inputs.take(k));
    lemma_run_keeps_params(p, inputs.take(k));
    assert(inputs.take(k + 1).drop_last() =~= inputs.take(k));
    assert(inputs.take(k + 1).last() == inputs[k]);
    lemma_stopped_run_is_frozen(p, inputs, k + 1);
}

proof fn lemma_run_keeps_params(p: SettleParams, inputs: Seq<AnswerInput>)
    ensures
        settle_run(p, inputs).params == p,
    decreases inputs.len(),
{
    if inputs.len() > 0 {
        lemma_run_keeps_params(p, inputs.drop_last());
    }
}

/// With favourite protection on, a race's bet is never on the market
/// favourite of its field, and the bet a trail entry shows is the one placed.
pub proof fn lemma_favorite_never_staked(m: LedgerModel, input: AnswerInput)
    requires
        m.params.is_favorite_protected,
    ensures
        (input is Answer && input->Answer_1.participants is Some && placed_bet(m, input) is Some)
            ==> placed_bet(m, input)->Some_0.odds != favorite_odds(
            input->Answer_1.participants->Some_0@,
        ),
        step(m, input).trail.len() > m.trail.len() ==> step(m, input).trail.last().bet
            == placed_bet(m, input),
{
}

/// The names to look up for the shortlist of `a` (in rank order), in the
/// order the lookups are handed back.
pub fn shortlist_names(a: &PredictResponse) -> (r: Vec<String>)
    ensures
        r@.len() == shortlist_of(a@.predictions).len(),
        forall|k: int| 0 <= k < r@.len() ==> (#[trigger] r@[k])@ == shortlist_of(a@.predictions)[k].name@,
{
    let n = a.predictions.len();
    let start: usize = if n <= 2 { 0 } else { n - 2 };
    let ghost short = shortlist_of(a@.predictions);
    assert(short =~= a@.predictions.subrange(start as int, n as int));
    let mut r: Vec<String> = Vec::new();
    let mut i: usize = start;
    while i < n
        invariant
            start <= i <= n,
            n == a@.predictions.len(),
            short == a@.predictions.subrange(start as int, n as int),
            r@.len() == i - start,
            forall|k: int| 0 <= k < r@.len() ==> (#[trigger] r@[k])@ == short[k].name@,
        decreases n - i,
    {
        r.push(a.predictions[i].name.clone());
        i = i + 1;
    }
    r
}

} // verus!
