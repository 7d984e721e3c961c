use vstd::prelude::*;
use crate::models::{AnswerView, PredictResponse, RaceDate, RaceTime};

verus! {

/// Whether `a` starts no later than `b`: by time of day, then by date.
pub open spec fn starts_no_later(a: AnswerView, b: AnswerView) -> bool {
    let (t, u) = (a.meta.time, b.meta.time);
    let (d, e) = (a.meta.date, b.meta.date);
    if t.hour != u.hour {
        t.hour < u.hour
    } else if t.minute != u.minute {
        t.minute < u.minute
    } else if t.second != u.second {
        t.second < u.second
    } else if d.year != e.year {
        d.year < e.year
    } else if d.month != e.month {
        d.month < e.month
    } else {
        d.day <= e.day
    }
}

pub open spec fn insert_by_start(s: Seq<AnswerView>, x: AnswerView) -> Seq<AnswerView>
    decreases s.len(),
{
    if s.len() == 0 {
        seq![x]
    } else if starts_no_later(s[0], x) {
        seq![s[0]] + insert_by_start(s.drop_first(), x)
    } else {
        seq![x] + s
    }
}

/// Insertion sort by start: stable, earliest first.
pub open spec fn sort_by_start(s: Seq<AnswerView>) -> Seq<AnswerView>
    decreases s.len(),
{
    if s.len() == 0 {
        s
    } else {
        insert_by_start(sort_by_start(s.drop_last()), s.last())
    }
}

proof fn lemma_insert_by_start_at(s: Seq<AnswerView>, x: AnswerView, j: int)
    requires
        0 <= j <= s.len(),
        forall|k: int| 0 <= k < j ==> starts_no_later(#[trigger] s[k], x),
        j < s.len() ==> !starts_no_later(s[j], x),
    ensures
        insert_by_start(s, x) == s.take(j).push(x) + s.skip(j),
    decreases s.len(),
{
    if s.len() == 0 {
        assert(s.take(j).push(x) + s.skip(j) =~= seq![x]);
    } else if j == 0 {
        assert(s.take(0).push(x) + s.skip(0) =~= seq![x] + s);
    } else {
        let t = s.drop_first();
        assert forall|k: int| 0 <= k < j - 1 implies starts_no_later(#[trigger] t[k], x) by {
            assert(t[k] == s[k + 1]);
        }
        lemma_insert_by_start_at(t, x, j - 1);
        assert(seq![s[0]] + (t.take(j - 1).push(x) + t.skip(j - 1)) =~= s.take(j).push(x) + s.skip(j));
    }
}

fn starts_no_later_exec(a: &PredictResponse, b: &PredictResponse) -> (r: bool)
    ensures
        r == starts_no_later(a@, b@),
{
    let (t, u): (RaceTime, RaceTime) = (a.meta.time, b.meta.time);
    let (d, e): (RaceDate, RaceDate) = (a.meta.date, b.meta.date);
    if t.hour != u.hour {
        t.hour < u.hour
    } else if t.minute != u.minute {
        t.minute < u.minute
    } else if t.second != u.second {
        t.second < u.second
    } else if d.year != e.year {
        d.year < e.year
    } else if d.month != e.month {
        d.month < e.month
    } else {
        d.day <= e.day
    }
}

pub open spec fn views_of(v: Seq<PredictResponse>) -> Seq<AnswerView> {
    v.map_values(|a: PredictResponse| a@)
}

/// Orders answers by race start, time of day first and date second, keeping
/// the order of answers that start together.
pub fn order_by_race_time(v: Vec<PredictResponse>) -> (r: Vec<PredictResponse>)
    ensures
        views_of(r@) == sort_by_start(views_of(v@)),
{
    let ghost orig = views_of(v@);
    let mut input = v;
    let mut out: Vec<PredictResponse> = Vec::new();
    let ghost mut k: int = 0;
    assert(orig.take(0) =~= Seq::<AnswerView>::empty());
    assert(views_of(out@) =~= sort_by_start(orig.take(0)));
    assert(views_of(input@) =~= orig.skip(0));
    while input.len() > 0
        invariant
            0 <= k <= orig.len(),
            views_of(out@) == sort_by_start(orig.take(k)),
            views_of(input@) == orig.skip(k),
            input@.len() == orig.len() - k,
        decreases input.len(),
    {
        let ghost before = input@;
        let x = input.remove(0);
        let mut j: usize = 0;
        while j < out.len() && starts_no_later_exec(&out[j], &x)
            invariant
                j <= out@.len(),
                forall|m: int| 0 <= m < j ==> starts_no_later(#[trigger] views_of(out@)[m], x@),
            decreases out@.len() - j,
        {
            j = j + 1;
        }
        proof {
            lemma_insert_by_start_at(views_of(out@), x@, j as int);
            assert(orig.take(k + 1).drop_last() =~= orig.take(k));
            assert(views_of(before)[0] == x@);
            assert(orig.take(k + 1).last() == x@);
            assert forall|i: int| 0 <= i < input@.len() implies #[trigger] views_of(input@)[i]
                == orig.skip(k + 1)[i] by {
                assert(input@[i] == before[i + 1]);
                assert(views_of(before)[i + 1] == orig.skip(k)[i + 1]);
            }
            assert(views_of(input@) =~= orig.skip(k + 1));
        }
        let ghost out_before = out@;
        out.insert(j, x);
        proof {
            assert(views_of(out@) =~= views_of(out_before).take(j as int).push(x@) + views_of(
                out_before,
            ).skip(j as int));
            k = k + 1;
        }
    }
    assert(orig.take(k) =~= orig);
    out
}

} // verus!
