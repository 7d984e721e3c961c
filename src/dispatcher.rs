use vstd::prelude::*;
use crate::constants::MAX_ROUNDS;
use crate::models::{AnswerView, PredictResponse};
use crate::validator::{
    accepted_answer, is_degenerate, lemma_sort_by_rank, lemma_sort_keeps_zero_count, opt_view,
    ranks_ascending, validate_response,
};

verus! {

broadcast use vstd::seq_lib::group_to_multiset_ensures;

/// What came back for one submitted request.
pub enum Outcome {
    /// The service call or the task that made it failed.
    Failed,
    /// The service answered; each candidate body is `Some` where it parsed.
    Responded(Vec<Option<PredictResponse>>),
}

/// The outcome of the request at position `index` of the batch.
pub struct Completion {
    pub index: usize,
    pub outcome: Outcome,
}

pub open spec fn outcome_answer(o: Outcome) -> Option<AnswerView> {
    match o {
        Outcome::Failed => None,
        Outcome::Responded(c) => accepted_answer(c@),
    }
}

/// The answer that a round's completions give request `i`: that of the first
/// completion for `i` that is accepted.
pub open spec fn round_answer(rs: Seq<Completion>, i: int) -> Option<AnswerView>
    decreases rs.len(),
{
    if rs.len() == 0 {
        None
    } else {
        let earlier = round_answer(rs.drop_last(), i);
        if earlier is Some {
            earlier
        } else if rs.last().index == i {
            outcome_answer(rs.last().outcome)
        } else {
            None
        }
    }
}

/// The state of a dispatch: one slot per request, filled once its answer is
/// accepted, and the number of rounds run.
pub struct DispatchModel {
    pub slots: Seq<Option<AnswerView>>,
    pub round: nat,
}

impl DispatchModel {
    pub open spec fn initial(n: nat) -> DispatchModel {
        DispatchModel { slots: Seq::new(n, |i: int| None), round: 0 }
    }

    pub open spec fn all_answered(self) -> bool {
        forall|i: int| 0 <= i < self.slots.len() ==> (#[trigger] self.slots[i]) is Some
    }

    pub open spec fn finished(self) -> bool {
        self.round >= MAX_ROUNDS || self.all_answered()
    }

    /// Every stored answer passed the guard and is in rank order.
    pub open spec fn wf(self) -> bool {
        &&& self.round <= MAX_ROUNDS
        &&& forall|i: int|
            0 <= i < self.slots.len() && (#[trigger] self.slots[i]) is Some ==> {
                let a = self.slots[i]->Some_0;
                !is_degenerate(a) && ranks_ascending(a.predictions)
            }
    }

    /// One round: requests still open take the answer the round gave them.
    pub open spec fn next(self, rs: Seq<Completion>) -> DispatchModel {
        if self.finished() {
            self
        } else {
            DispatchModel {
                slots: Seq::new(
                    self.slots.len(),
                    |i: int|
                        if self.slots[i] is Some {
                            self.slots[i]
                        } else {
                            round_answer(rs, i)
                        },
                ),
                round: self.round + 1,
            }
        }
    }

    /// The requests submitted in the next round, in batch order.
    pub open spec fn pending(self) -> Seq<int> {
        if self.finished() {
            Seq::empty()
        } else {
            open_indices(self.slots)
        }
    }
}

pub open spec fn open_indices(slots: Seq<Option<AnswerView>>) -> Seq<int>
    decreases slots.len(),
{
    if slots.len() == 0 {
        Seq::empty()
    } else if slots.last() is None {
        open_indices(slots.drop_last()).push(slots.len() - 1)
    } else {
        open_indices(slots.drop_last())
    }
}

pub open spec fn answered_indices(slots: Seq<Option<AnswerView>>) -> Seq<int>
    decreases slots.len(),
{
    if slots.len() == 0 {
        Seq::empty()
    } else if slots.last() is Some {
        answered_indices(slots.drop_last()).push(slots.len() - 1)
    } else {
        answered_indices(slots.drop_last())
    }
}

/// The stored answers in batch order.
pub open spec fn collected(slots: Seq<Option<AnswerView>>) -> Seq<AnswerView>
    decreases slots.len(),
{
    if slots.len() == 0 {
        Seq::empty()
    } else {
        match slots.last() {
            Some(a) => collected(slots.drop_last()).push(a),
            None => collected(slots.drop_last()),
        }
    }
}

pub open spec fn answer_views(v: Seq<PredictResponse>) -> Seq<AnswerView> {
    v.map_values(|a: PredictResponse| a@)
}

/// Round-based dispatch of a batch of requests with bounded retries.
pub struct Dispatcher {
    slots: Vec<Option<PredictResponse>>,
    round: usize,
}

impl View for Dispatcher {
    type V = DispatchModel;

    closed spec fn view(&self) -> DispatchModel {
        DispatchModel {
            slots: self.slots@.map_values(|o: Option<PredictResponse>| opt_view(o)),
            round: self.round as nat,
        }
    }
}

proof fn lemma_accepted_is_sound(cands: Seq<Option<PredictResponse>>)
    ensures
        accepted_answer(cands) is Some ==> {
            let a = accepted_answer(cands)->Some_0;
            !is_degenerate(a) && ranks_ascending(a.predictions)
        },
    decreases cands.len(),
{
    if cands.len() > 0 {
        match cands[0] {
            Some(a) => {
                lemma_sort_by_rank(a@.predictions);
                lemma_sort_keeps_zero_count(a@.predictions);
            },
            None => {},
        }
        lemma_accepted_is_sound(cands.drop_first());
    }
}

proof fn lemma_round_answer_sound(rs: Seq<Completion>, i: int)
    ensures
        round_answer(rs, i) is Some ==> {
            let a = round_answer(rs, i)->Some_0;
            !is_degenerate(a) && ranks_ascending(a.predictions)
        },
    decreases rs.len(),
{
    if rs.len() > 0 {
        lemma_round_answer_sound(rs.drop_last(), i);
        match rs.last().outcome {
            Outcome::Responded(c) => lemma_accepted_is_sound(c@),
            Outcome::Failed => {},
        }
    }
}

/// A round keeps the stored answers well formed.
pub proof fn lemma_next_wf(m: DispatchModel, rs: Seq<Completion>)
    requires
        m.wf(),
    ensures
        m.next(rs).wf(),
{
    assert forall|i: int| 0 <= i < m.slots.len() implies (round_answer(rs, i) is Some ==> {
        let a = round_answer(rs, i)->Some_0;
        !is_degenerate(a) && ranks_ascending(a.predictions)
    }) by {
        lemma_round_answer_sound(rs, i);
    }
}

impl Dispatcher {
    /// A dispatch of `n` requests, none answered, no round run.
    pub fn new(n: usize) -> (r: Dispatcher)
        ensures
            r@ == DispatchModel::initial(n as nat),
            r@.wf(),
    {
        let mut slots: Vec<Option<PredictResponse>> = Vec::new();
        let mut i: usize = 0;
        while i < n
            invariant
                i <= n,
                slots@.len() == i,
                forall|k: int| 0 <= k < i ==> (#[trigger] slots@[k]) is None,
            decreases n - i,
        {
            slots.push(None);
            i = i + 1;
        }
        let r = Dispatcher { slots, round: 0 };
        assert(r@.slots =~= DispatchModel::initial(n as nat).slots);
        r
    }

    /// Rounds run so far.
    pub fn round(&self) -> (r: usize)
        ensures
            r == self@.round,
    {
        self.round
    }

    /// Whether the round limit is reached or every request is answered.
    pub fn is_finished(&self) -> (r: bool)
        ensures
            r == self@.finished(),
    {
        if self.round >= MAX_ROUNDS {
            return true;
        }
        let mut i: usize = 0;
        while i < self.slots.len()
            invariant
                i <= self.slots@.len(),
                self.round < MAX_ROUNDS,
                forall|k: int| 0 <= k < i ==> (#[trigger] self@.slots[k]) is Some,
            decreases self.slots@.len() - i,
        {
            if self.slots[i].is_none() {
                assert(self@.slots[i as int] is None);
                assert(!self@.all_answered());
                return false;
            }
            i = i + 1;
        }
        true
    }

    /// The batch positions to submit in the next round, ascending; empty once
    /// the dispatch is finished.
    pub fn pending(&self) -> (r: Vec<usize>)
        ensures
            r@.len() == self@.pending().len(),
            forall|k: int| 0 <= k < r@.len() ==> r@[k] as int == self@.pending()[k],
    {
        let mut r: Vec<usize> = Vec::new();
        if self.is_finished() {
            return r;
        }
        let ghost slots = self@.slots;
        let mut i: usize = 0;
        while i < self.slots.len()
            invariant
                i <= self.slots@.len(),
                slots == self@.slots,
                r@.len() == open_indices(slots.take(i as int)).len(),
                forall|k: int| 0 <= k < r@.len() ==> r@[k] as int == open_indices(slots.take(i as int))[k],
            decreases self.slots@.len() - i,
        {
            proof {
                assert(slots.take(i as int + 1).drop_last() =~= slots.take(i as int));
            }
            if self.slots[i].is_none() {
                r.push(i);
            }
            i = i + 1;
        }
        assert(slots.take(i as int) =~= slots);
        r
    }

    /// Records the outcomes of one round. Nothing changes once the dispatch is
    /// finished. Otherwise an open request takes the first accepted answer
    /// among its completions; answered requests keep theirs; completions for
    /// positions outside the batch are ignored.
    pub fn record_round(&mut self, results: Vec<Completion>)
        requires
            old(self)@.wf(),
        ensures
            final(self)@ == old(self)@.next(results@),
            final(self)@.wf(),
    {
        proof { lemma_next_wf(self@, results@); }
        if self.is_finished() {
            return;
        }
        let ghost start = self@.slots;
        let ghost orig = results@;
        let mut rest = results;
        let ghost mut k: int = 0;
        assert(orig.skip(0) =~= orig);
        while rest.len() > 0
            invariant
                0 <= k <= orig.len(),
                rest@ == orig.skip(k),
                self.round == old(self).round,
                self@.slots.len() == start.len(),
                forall|i: int|
                    0 <= i < start.len() ==> #[trigger] self@.slots[i] == if start[i] is Some {
                        start[i]
                    } else {
                        round_answer(orig.take(k), i)
                    },
            decreases rest.len(),
        {
            let c = rest.remove(0);
            proof {
                assert(orig.take(k + 1).drop_last() =~= orig.take(k));
                assert(orig.take(k + 1).last() == c);
                assert(rest@ =~= orig.skip(k + 1));
            }
            let idx = c.index;
            let ghost expected = outcome_answer(c.outcome);
            let ghost current = self@.slots;
            if idx < self.slots.len() && self.slots[idx].is_none() {
                let answer = match c.outcome {
                    Outcome::Failed => None,
                    Outcome::Responded(cands) => validate_response(cands),
                };
                assert(opt_view(answer) == expected);
                if answer.is_some() {
                    self.slots.set(idx, answer);
                }
                assert(self@.slots =~= current.update(idx as int, expected));
            }
            proof {
                assert forall|i: int| 0 <= i < start.len() implies #[trigger] self@.slots[i] == if start[i] is Some {
                    start[i]
                } else {
                    round_answer(orig.take(k + 1), i)
                } by {
                    assert(current[i] == if start[i] is Some { start[i] } else { round_answer(orig.take(k), i) });
                }
                k = k + 1;
            }
        }
        assert(orig.take(k) =~= orig);
        self.round = self.round + 1;
        assert(self@.slots =~= old(self)@.next(orig).slots);
    }

    /// The accepted answers in batch order; requests left open are dropped.
    pub fn finish(self) -> (r: Vec<PredictResponse>)
        requires
            self@.wf(),
        ensures
            answer_views(r@) == collected(self@.slots),
            forall|k: int|
                0 <= k < r@.len() ==> !is_degenerate(#[trigger] r@[k]@) && ranks_ascending(
                    r@[k]@.predictions,
                ),
    {
        let ghost slots = self@.slots;
        let mut rest = self.slots;
        let mut out: Vec<PredictResponse> = Vec::new();
        let ghost mut k: int = 0;
        assert(slots.skip(0) =~= slots);
        assert(answer_views(out@) =~= collected(slots.take(0)));
        while rest.len() > 0
            invariant
                0 <= k <= slots.len(),
                rest@.len() == slots.len() - k,
                rest@.map_values(|o: Option<PredictResponse>| opt_view(o)) == slots.skip(k),
                answer_views(out@) == collected(slots.take(k)),
                forall|i: int| 0 <= i < out@.len() ==> slots.take(k).contains(Some(#[trigger] out@[i]@)),
            decreases rest.len(),
        {
            let ghost before = rest@;
            let o = rest.remove(0);
            proof {
                assert(slots.take(k + 1).drop_last() =~= slots.take(k));
                assert(before.map_values(|o: Option<PredictResponse>| opt_view(o))[0] == opt_view(o));
                assert(slots.take(k + 1).last() == opt_view(o));
                assert forall|j: int| 0 <= j < rest@.len() implies #[trigger] rest@[j] == before[j + 1] by {}
                assert forall|j: int| 0 <= j < rest@.len() implies opt_view(#[trigger] rest@[j]) == slots[k + 1 + j] by {
                    assert(before.map_values(|o: Option<PredictResponse>| opt_view(o))[j + 1] == slots.skip(k)[j + 1]);
                }
                assert(rest@.map_values(|o: Option<PredictResponse>| opt_view(o)) =~= slots.skip(k + 1));
            }
            match o {
                Some(a) => {
                    out.push(a);
                },
                None => {},
            }
            proof {
                assert(answer_views(out@) =~= collected(slots.take(k + 1)));
                assert forall|i: int| 0 <= i < out@.len() implies slots.take(k + 1).contains(Some(#[trigger] out@[i]@)) by {
                    if i < out@.len() - 1 || opt_view(o) is None {
                        let j = choose|j: int| 0 <= j < slots.take(k).len() && slots.take(k)[j] == Some(out@[i]@);
                        assert(slots.take(k + 1)[j] == Some(out@[i]@));
                    } else {
                        assert(slots.take(k + 1)[k] == Some(out@[i]@));
                    }
                }
                k = k + 1;
            }
        }
        assert(slots.take(k) =~= slots);
        out
    }
}

/// The state after running `rounds` one after another from `m`.
pub open spec fn run(m: DispatchModel, rounds: Seq<Seq<Completion>>) -> DispatchModel
    decreases rounds.len(),
{
    if rounds.len() == 0 {
        m
    } else {
        run(m, rounds.drop_last()).next(rounds.last())
    }
}

/// How many of those rounds submitted request `i`.
pub open spec fn submissions(m: DispatchModel, rounds: Seq<Seq<Completion>>, i: int) -> nat
    decreases rounds.len(),
{
    if rounds.len() == 0 {
        0
    } else {
        submissions(m, rounds.drop_last(), i) + if run(m, rounds.drop_last()).pending().contains(i) {
            1nat
        } else {
            0nat
        }
    }
}

proof fn lemma_open_indices(slots: Seq<Option<AnswerView>>, i: int)
    ensures
        open_indices(slots).contains(i) <==> (0 <= i < slots.len() && slots[i] is None),
    decreases slots.len(),
{
    if slots.len() > 0 {
        lemma_open_indices(slots.drop_last(), i);
        let o = open_indices(slots.drop_last());
        let q = o.push(slots.len() - 1);
        if slots.last() is None {
            if q.contains(i) && i != slots.len() - 1 {
                let k = choose|k: int| 0 <= k < q.len() && #[trigger] q[k] == i;
                assert(o[k] == i);
            }
            if o.contains(i) {
                let k = choose|k: int| 0 <= k < o.len() && #[trigger] o[k] == i;
                assert(q[k] == i);
            }
            if i == slots.len() - 1 {
                assert(q[o.len() as int] == i);
            }
        }
    }
}

/// A request is submitted in the next round exactly when the dispatch is not
/// finished and the request has no answer yet.
pub proof fn lemma_pending_are_open(m: DispatchModel, i: int)
    ensures
        m.pending().contains(i) <==> (!m.finished() && 0 <= i < m.slots.len() && m.slots[i] is None),
{
    lemma_open_indices(m.slots, i);
}

/// A request whose every round fails is submitted in exactly `MAX_ROUNDS`
/// rounds (or in each round, when fewer were run) and then dropped: it has no
/// answer, and the dispatch is finished once `MAX_ROUNDS` rounds have run.
pub proof fn lemma_bounded_retries(n: nat, rounds: Seq<Seq<Completion>>, i: int)
    requires
        0 <= i < n,
        forall|r: int| 0 <= r < rounds.len() ==> round_answer(#[trigger] rounds[r], i) is None,
    ensures
        run(DispatchModel::initial(n), rounds).slots[i] is None,
        run(DispatchModel::initial(n), rounds).round == if rounds.len() < MAX_ROUNDS {
            rounds.len()
        } else {
            MAX_ROUNDS as nat
        },
        submissions(DispatchModel::initial(n), rounds, i) == if rounds.len() < MAX_ROUNDS {
            rounds.len()
        } else {
            MAX_ROUNDS as nat
        },
        rounds.len() >= MAX_ROUNDS ==> run(DispatchModel::initial(n), rounds).finished(),
    decreases rounds.len(),
{
    let m0 = DispatchModel::initial(n);
    if rounds.len() > 0 {
        let prefix = rounds.drop_last();
        assert forall|r: int| 0 <= r < prefix.len() implies round_answer(#[trigger] prefix[r], i) is None by {
            assert(prefix[r] == rounds[r]);
        }
        lemma_bounded_retries(n, prefix, i);
        let before = run(m0, prefix);
        lemma_pending_are_open(before, i);
        assert(round_answer(rounds[rounds.len() - 1], i) is None);
        lemma_run_keeps_len(n, prefix);
        assert(!before.all_answered());
    }
}

proof fn lemma_run_keeps_len(n: nat, rounds: Seq<Seq<Completion>>)
    ensures
        run(DispatchModel::initial(n), rounds).slots.len() == n,
    decreases rounds.len(),
{
    if rounds.len() > 0 {
        lemma_run_keeps_len(n, rounds.drop_last());
    }
}

/// The answers come out in ascending batch order: the `k`-th answer is the one
/// stored for the `k`-th answered position, and those positions increase.
pub proof fn lemma_collected_in_batch_order(slots: Seq<Option<AnswerView>>)
    ensures
        collected(slots).len() == answered_indices(slots).len(),
        forall|k: int|
            0 <= k < collected(slots).len() ==> {
                let j = #[trigger] answered_indices(slots)[k];
                0 <= j < slots.len() && slots[j] == Some(collected(slots)[k])
            },
        forall|k: int, l: int|
            0 <= k < l < answered_indices(slots).len() ==> answered_indices(slots)[k]
                < answered_indices(slots)[l],
    decreases slots.len(),
{
    if slots.len() > 0 {
        let p = slots.drop_last();
        lemma_collected_in_batch_order(p);
        assert forall|k: int| 0 <= k < collected(p).len() implies {
            let j = #[trigger] answered_indices(p)[k];
            0 <= j < slots.len() && slots[j] == Some(collected(p)[k])
        } by {
            let j = answered_indices(p)[k];
            assert(slots[j] == p[j]);
        }
    }
}

/// No request contributes more than one answer: answered positions are
/// distinct, and there are no more answers than requests.
pub proof fn lemma_at_most_one_answer(slots: Seq<Option<AnswerView>>)
    ensures
        collected(slots).len() <= slots.len(),
        forall|k: int, l: int|
            0 <= k < answered_indices(slots).len() && 0 <= l < answered_indices(slots).len() && k
                != l ==> answered_indices(slots)[k] != answered_indices(slots)[l],
    decreases slots.len(),
{
    lemma_collected_in_batch_order(slots);
    if slots.len() > 0 {
        lemma_at_most_one_answer(slots.drop_last());
    }
}

/// Once a request has an answer, later rounds leave it in place.
pub proof fn lemma_answer_never_replaced(m: DispatchModel, rs: Seq<Completion>, i: int)
    requires
        0 <= i < m.slots.len(),
        m.slots[i] is Some,
    ensures
        m.next(rs).slots[i] == m.slots[i],
{
}

pub open spec fn distinct_requests(rs: Seq<Completion>) -> bool {
    forall|x: int, y: int| 0 <= x < y < rs.len() ==> rs[x].index != rs[y].index
}

proof fn lemma_round_answer_of_distinct(rs: Seq<Completion>, i: int)
    requires
        distinct_requests(rs),
    ensures
        forall|k: int| 0 <= k < rs.len() && rs[k].index == i ==> round_answer(rs, i)
            == outcome_answer(#[trigger] rs[k].outcome),
        (forall|k: int| 0 <= k < rs.len() ==> #[trigger] rs[k].index != i) ==> round_answer(rs, i) is None,
    decreases rs.len(),
{
    if rs.len() > 0 {
        let p = rs.drop_last();
        lemma_round_answer_of_distinct(p, i);
        if rs.last().index == i {
            assert forall|k: int| 0 <= k < p.len() implies #[trigger] p[k].index != i by {
                assert(p[k] == rs[k]);
            }
        }
        assert forall|k: int| 0 <= k < rs.len() && rs[k].index == i implies round_answer(rs, i)
            == outcome_answer(#[trigger] rs[k].outcome) by {
            if k < rs.len() - 1 {
                assert(p[k] == rs[k]);
            }
        }
        if forall|k: int| 0 <= k < rs.len() ==> #[trigger] rs[k].index != i {
            assert forall|k: int| 0 <= k < p.len() implies #[trigger] p[k].index != i by {
                assert(p[k] == rs[k]);
            }
        }
    }
}

/// The order in which a round's completions arrive does not matter: two
/// orders of the same completions, one per request, give the same state.
pub proof fn lemma_completion_order_irrelevant(m: DispatchModel, a: Seq<Completion>, b: Seq<Completion>)
    requires
        a.to_multiset() == b.to_multiset(),
        distinct_requests(a),
        distinct_requests(b),
    ensures
        m.next(a) == m.next(b),
{
    assert forall|i: int| 0 <= i < m.slots.len() implies round_answer(a, i) == round_answer(b, i) by {
        lemma_round_answer_of_distinct(a, i);
        lemma_round_answer_of_distinct(b, i);
        if exists|k: int| 0 <= k < a.len() && a[k].index == i {
            let k = choose|k: int| 0 <= k < a.len() && a[k].index == i;
            assert(a.to_multiset().count(a[k]) > 0);
            assert(b.contains(a[k]));
            let kb = choose|kb: int| 0 <= kb < b.len() && b[kb] == a[k];
            assert(round_answer(b, i) == outcome_answer(b[kb].outcome));
        } else if exists|k: int| 0 <= k < b.len() && b[k].index == i {
            let k = choose|k: int| 0 <= k < b.len() && b[k].index == i;
            assert(b.to_multiset().count(b[k]) > 0);
            assert(a.contains(b[k]));
            let ka = choose|ka: int| 0 <= ka < a.len() && a[ka] == b[k];
            assert(a[ka].index == i);
        } else {
            assert forall|k: int| 0 <= k < a.len() implies #[trigger] a[k].index != i by {}
            assert forall|k: int| 0 <= k < b.len() implies #[trigger] b[k].index != i by {}
        }
    }
    if !m.finished() {
        assert(m.next(a).slots =~= m.next(b).slots);
    }
}

} // verus!
