use vstd::prelude::*;
use crate::models::{AnswerView, PredictResponse, Prediction};

verus! {

broadcast use vstd::seq_lib::group_to_multiset_ensures;

/// `s` with `p` placed after every leading element whose rank is not above `p`'s.
pub open spec fn insert_by_rank(s: Seq<Prediction>, p: Prediction) -> Seq<Prediction>
    decreases s.len(),
{
    if s.len() == 0 {
        seq![p]
    } else if s[0].rank <= p.rank {
        seq![s[0]] + insert_by_rank(s.drop_first(), p)
    } else {
        seq![p] + s
    }
}

/// Insertion sort by rank: stable, ascending.
pub open spec fn sort_by_rank(s: Seq<Prediction>) -> Seq<Prediction>
    decreases s.len(),
{
    if s.len() == 0 {
        s
    } else {
        insert_by_rank(sort_by_rank(s.drop_last()), s.last())
    }
}

pub open spec fn ranks_ascending(s: Seq<Prediction>) -> bool {
    forall|i: int, j: int| 0 <= i < j < s.len() ==> s[i].rank <= s[j].rank
}

proof fn lemma_insert_at(s: Seq<Prediction>, p: Prediction, j: int)
    requires
        0 <= j <= s.len(),
        forall|k: int| 0 <= k < j ==> s[k].rank <= p.rank,
        j < s.len() ==> s[j].rank > p.rank,
    ensures
        insert_by_rank(s, p) == s.take(j).push(p) + s.skip(j),
    decreases s.len(),
{
    if s.len() == 0 {
        assert(s.take(j).push(p) + s.skip(j) =~= seq![p]);
    } else if j == 0 {
        assert(s.take(0).push(p) + s.skip(0) =~= seq![p] + s);
    } else {
        let t = s.drop_first();
        assert forall|k: int| 0 <= k < j - 1 implies t[k].rank <= p.rank by {
            assert(t[k] == s[k + 1]);
        }
        lemma_insert_at(t, p, j - 1);
        assert(seq![s[0]] + (t.take(j - 1).push(p) + t.skip(j - 1)) =~= s.take(j).push(p) + s.skip(j));
    }
}

proof fn lemma_insert_keeps_order(s: Seq<Prediction>, p: Prediction)
    requires
        ranks_ascending(s),
    ensures
        ranks_ascending(insert_by_rank(s, p)),
        insert_by_rank(s, p).to_multiset() =~= s.to_multiset().insert(p),
    decreases s.len(),
{
    if s.len() == 0 {
        assert(seq![p] =~= Seq::<Prediction>::empty().push(p));
    } else if s[0].rank <= p.rank {
        let t = s.drop_first();
        lemma_insert_keeps_order(t, p);
        let r = insert_by_rank(t, p);
        assert(r.len() > 0);
        assert(forall|k: int| 0 <= k < r.len() ==> (r[k] == p || t.contains(r[k]))) by {
            assert forall|k: int| 0 <= k < r.len() implies (r[k] == p || t.contains(r[k])) by {
                if r[k] != p {
                    assert(r.to_multiset().count(r[k]) > 0);
                    assert(t.to_multiset().count(r[k]) > 0);
                }
            }
        }
        assert(seq![s[0]] + r =~= r.insert(0, s[0]));
        assert(s =~= t.insert(0, s[0]));
        assert forall|i: int, j: int| 0 <= i < j < (seq![s[0]] + r).len() implies
            (seq![s[0]] + r)[i].rank <= (seq![s[0]] + r)[j].rank by {
            if i == 0 {
                let x = r[j - 1];
                if x != p {
                    let m = choose|m: int| 0 <= m < t.len() && t[m] == x;
                    assert(s[m + 1] == x);
                }
            }
        }
    } else {
        assert(seq![p] + s =~= s.insert(0, p));
    }
}

/// The rank order is ascending and holds the same predictions.
pub proof fn lemma_sort_by_rank(s: Seq<Prediction>)
    ensures
        ranks_ascending(sort_by_rank(s)),
        sort_by_rank(s).to_multiset() =~= s.to_multiset(),
    decreases s.len(),
{
    if s.len() > 0 {
        lemma_sort_by_rank(s.drop_last());
        lemma_insert_keeps_order(sort_by_rank(s.drop_last()), s.last());
        assert(s.drop_last().push(s.last()) =~= s);
    }
}

/// Sorts `v` by ascending rank, stably.
pub fn sort_ranked(v: Vec<Prediction>) -> (r: Vec<Prediction>)
    ensures
        r@ == sort_by_rank(v@),
{
    let ghost orig = v@;
    let mut input = v;
    let mut out: Vec<Prediction> = Vec::new();
    let ghost mut k: int = 0;
    assert(orig.take(0) =~= Seq::<Prediction>::empty());
    assert(orig.skip(0) =~= orig);
    while input.len() > 0
        invariant
            0 <= k <= orig.len(),
            out@ == sort_by_rank(orig.take(k)),
            input@ == orig.skip(k),
        decreases input.len(),
    {
        let p = input.remove(0);
        let mut j: usize = 0;
        while j < out.len() && out[j].rank <= p.rank
            invariant
                j <= out.len(),
                forall|m: int| 0 <= m < j ==> out@[m].rank <= p.rank,
            decreases out.len() - j,
        {
            j = j + 1;
        }
        proof {
            lemma_insert_at(out@, p, j as int);
            assert(orig.take(k + 1).drop_last() =~= orig.take(k));
            assert(orig.take(k + 1).last() == p);
            assert(input@ =~= orig.skip(k + 1));
        }
        out.insert(j, p);
        proof {
            assert(out@ =~= sort_by_rank(orig.take(k + 1)));
            k = k + 1;
        }
    }
    assert(orig.take(k) =~= orig);
    out
}

/// Whether a score, given as a single-precision bit pattern, equals zero
/// (either sign).
pub open spec fn is_zero_score(bits: u32) -> bool {
    bits & 0x7fff_ffffu32 == 0
}

pub open spec fn zero_score_count(s: Seq<Prediction>) -> nat
    decreases s.len(),
{
    if s.len() == 0 {
        0
    } else {
        zero_score_count(s.drop_last()) + if is_zero_score(s.last().raw_score_bits) {
            1nat
        } else {
            0nat
        }
    }
}

/// An answer in which the model gave a zero raw score to two or more
/// competitors has failed to tell them apart.
pub open spec fn is_degenerate(a: AnswerView) -> bool {
    zero_score_count(a.predictions) >= 2
}

pub open spec fn ranked(a: AnswerView) -> AnswerView {
    AnswerView { meta: a.meta, predictions: sort_by_rank(a.predictions), summary: a.summary }
}

pub open spec fn opt_view(o: Option<PredictResponse>) -> Option<AnswerView> {
    match o {
        Some(a) => Some(a@),
        None => None,
    }
}

/// The first candidate that parsed and is not degenerate, with its
/// predictions in rank order; `None` when there is none.
pub open spec fn accepted_answer(cands: Seq<Option<PredictResponse>>) -> Option<AnswerView>
    decreases cands.len(),
{
    if cands.len() == 0 {
        None
    } else {
        match cands[0] {
            Some(a) if !is_degenerate(a@) => Some(ranked(a@)),
            _ => accepted_answer(cands.drop_first()),
        }
    }
}

/// Whether the answer has two or more zero raw scores.
pub fn is_degenerate_answer(a: &PredictResponse) -> (r: bool)
    ensures
        r == is_degenerate(a@),
{
    let mut zeros: usize = 0;
    let mut i: usize = 0;
    while i < a.predictions.len()
        invariant
            i <= a.predictions@.len(),
            zeros == zero_score_count(a.predictions@.take(i as int)),
            zeros < 2,
        decreases a.predictions@.len() - i,
    {
        proof {
            assert(a.predictions@.take(i as int + 1).drop_last() =~= a.predictions@.take(i as int));
        }
        if a.predictions[i].raw_score_bits & 0x7fff_ffffu32 == 0 {
            zeros = zeros + 1;
        }
        i = i + 1;
        if zeros >= 2 {
            proof { lemma_zero_count_monotone(a.predictions@, i as int); }
            return true;
        }
    }
    assert(a.predictions@.take(i as int) =~= a.predictions@);
    false
}

proof fn lemma_zero_count_monotone(s: Seq<Prediction>, i: int)
    requires
        0 <= i <= s.len(),
    ensures
        zero_score_count(s.take(i)) <= zero_score_count(s),
    decreases s.len() - i,
{
    if i < s.len() {
        lemma_zero_count_monotone(s, i + 1);
        assert(s.take(i + 1).drop_last() =~= s.take(i));
    } else {
        assert(s.take(i) =~= s);
    }
}

/// Accepts a response: the first candidate body that parsed (`Some`) and is
/// not degenerate, with its predictions sorted by rank. `None` rejects the
/// response.
pub fn validate_response(candidates: Vec<Option<PredictResponse>>) -> (r: Option<PredictResponse>)
    ensures
        opt_view(r) == accepted_answer(candidates@),
{
    let ghost orig = candidates@;
    let mut rest = candidates;
    while rest.len() > 0
        invariant
            accepted_answer(rest@) == accepted_answer(orig),
            orig == candidates@,
        decreases rest.len(),
    {
        let ghost before = rest@;
        let c = rest.remove(0);
        assert(rest@ =~= before.drop_first());
        assert(before[0] == c);
        match c {
            Some(mut a) => {
                if !is_degenerate_answer(&a) {
                    let ghost a_old = a@;
                    assert(accepted_answer(before) == Some(ranked(a_old)));
                    a.sort_predictions();
                    return Some(a);
                }
            },
            None => {},
        }
    }
    None
}

proof fn lemma_zero_count_concat(a: Seq<Prediction>, b: Seq<Prediction>)
    ensures
        zero_score_count(a + b) == zero_score_count(a) + zero_score_count(b),
    decreases b.len(),
{
    if b.len() == 0 {
        assert(a + b =~= a);
    } else {
        lemma_zero_count_concat(a, b.drop_last());
        assert((a + b).drop_last() =~= a + b.drop_last());
    }
}

proof fn lemma_zero_count_insert(s: Seq<Prediction>, p: Prediction)
    ensures
        zero_score_count(insert_by_rank(s, p)) == zero_score_count(s) + zero_score_count(seq![p]),
    decreases s.len(),
{
    if s.len() == 0 {
        assert(seq![p] =~= Seq::<Prediction>::empty() + seq![p]);
        lemma_zero_count_concat(Seq::<Prediction>::empty(), seq![p]);
    } else {
        let t = s.drop_first();
        assert(s =~= seq![s[0]] + t);
        lemma_zero_count_concat(seq![s[0]], t);
        if s[0].rank <= p.rank {
            lemma_zero_count_insert(t, p);
            lemma_zero_count_concat(seq![s[0]], insert_by_rank(t, p));
        } else {
            lemma_zero_count_concat(seq![p], s);
        }
    }
}

/// Sorting by rank keeps the number of zero raw scores.
pub proof fn lemma_sort_keeps_zero_count(s: Seq<Prediction>)
    ensures
        zero_score_count(sort_by_rank(s)) == zero_score_count(s),
    decreases s.len(),
{
    if s.len() > 0 {
        lemma_sort_keeps_zero_count(s.drop_last());
        lemma_zero_count_insert(sort_by_rank(s.drop_last()), s.last());
        lemma_zero_count_concat(s.drop_last(), seq![s.last()]);
        assert(s.drop_last() + seq![s.last()] =~= s);
        assert(seq![s.last()].drop_last() =~= Seq::<Prediction>::empty());
    }
}

} // verus!
