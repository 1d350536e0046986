//! The auto-pacer: due dates for the goals that are not completed, spread
//! over the instructional days that are left in proportion to their weights.

use vstd::prelude::*;
use crate::date::Date;
use crate::order::{is_ordered, Ranked};
use crate::pace::{
    due_by, due_weight_of, lemma_weight_where_bounds, undone, weight_sum, weight_where, Goal, Pace,
};

verus! {

/// Why no due dates were set.
#[derive(Clone, Copy, Debug, PartialEq, Eq, Structural)]
pub enum AutopaceError {
    /// Every goal is completed.
    NothingToPace,
    /// No instructional day comes after today and after the last completion.
    NoDaysLeft,
    /// The goals that are not completed weigh nothing.
    NoWeight,
}

impl AutopaceError {
    /// The error in words.
    pub open spec fn text(&self) -> Seq<char> {
        match self {
            AutopaceError::NothingToPace => "Every goal is completed already."@,
            AutopaceError::NoDaysLeft => "No instructional days are left."@,
            AutopaceError::NoWeight => "The goals to pace weigh nothing."@,
        }
    }

    pub fn message(&self) -> (r: &'static str)
        ensures
            r@ == self.text(),
    {
        match self {
            AutopaceError::NothingToPace => "Every goal is completed already.",
            AutopaceError::NoDaysLeft => "No instructional days are left.",
            AutopaceError::NoWeight => "The goals to pace weigh nothing.",
        }
    }
}

/// The latest of `today` and the days on which goals were completed.
pub open spec fn cutoff(goals: Seq<Goal>, today: Date) -> Date
    decreases goals.len(),
{
    if goals.len() == 0 {
        today
    } else {
        let c = cutoff(goals.drop_last(), today);
        match goals.last().done {
            Some(d) => if c.earlier(d) {
                d
            } else {
                c
            },
            None => c,
        }
    }
}

/// The days of `dates` that come after `after`, in the order of `dates`.
pub open spec fn days_left(dates: Seq<Date>, after: Date) -> Seq<Date> {
    dates.filter(later_than(after))
}

/// The day comes after `after`.
pub open spec fn later_than(after: Date) -> spec_fn(Date) -> bool {
    |d: Date| after.earlier(d)
}

/// `a / b`, rounded up.
pub open spec fn ceil_div(a: int, b: int) -> int
    recommends
        b > 0,
{
    if a % b == 0 {
        a / b
    } else {
        a / b + 1
    }
}

/// The place, among `n` days, of the day by which the share `acc / total` of
/// the work is to be done.
pub open spec fn pace_slot(acc: int, total: int, n: int) -> int {
    let c = ceil_div(acc * n, total) - 1;
    if c < 0 {
        0
    } else if c > n - 1 {
        n - 1
    } else {
        c
    }
}

/// The place of the day on which goal `i` falls due: by then the goals up to
/// and including it that are not completed are to be done.
pub open spec fn slot_of(goals: Seq<Goal>, i: int, n: int) -> int {
    pace_slot(weight_where(goals.take(i + 1), undone()), weight_where(goals, undone()), n)
}

/// Goal `i` after pacing: due on its day if it is not completed, and as it
/// was if it is.
pub open spec fn paced_goal(goals: Seq<Goal>, i: int, days: Seq<Date>) -> Goal {
    let g = goals[i];
    if g.done is None {
        Goal {
            id: g.id,
            uname: g.uname,
            source: g.source,
            review: g.review,
            incomplete: g.incomplete,
            due: Some(days[slot_of(goals, i, days.len() as int)]),
            done: g.done,
            tries: g.tries,
            weight: g.weight,
            score: g.score,
        }
    } else {
        g
    }
}

/// The goals after pacing over `days`.
pub open spec fn paced(goals: Seq<Goal>, days: Seq<Date>) -> Seq<Goal> {
    Seq::new(goals.len(), |i: int| paced_goal(goals, i, days))
}

/// How many of the goals are not completed.
pub open spec fn undone_count(goals: Seq<Goal>) -> int
    decreases goals.len(),
{
    if goals.len() == 0 {
        0
    } else {
        undone_count(goals.drop_last()) + if goals.last().done is None {
            1int
        } else {
            0int
        }
    }
}

/// What `autopace` does to the goals, or why it does nothing.
pub open spec fn autopaced(goals: Seq<Goal>, dates: Seq<Date>, today: Date) -> Result<
    Seq<Goal>,
    AutopaceError,
> {
    let days = days_left(dates, cutoff(goals, today));
    if undone_count(goals) == 0 {
        Err(AutopaceError::NothingToPace)
    } else if days.len() == 0 {
        Err(AutopaceError::NoDaysLeft)
    } else if weight_where(goals, undone()) == 0 {
        Err(AutopaceError::NoWeight)
    } else {
        Ok(paced(goals, days))
    }
}

/// A slot is a place among the days.
pub proof fn lemma_pace_slot_in_range(acc: int, total: int, n: int)
    requires
        n > 0,
    ensures
        0 <= pace_slot(acc, total, n) < n,
{
}

/// More work done by then means no earlier a day.
pub proof fn lemma_pace_slot_monotone(a: int, b: int, total: int, n: int)
    requires
        0 <= a <= b,
        total > 0,
        n > 0,
    ensures
        pace_slot(a, total, n) <= pace_slot(b, total, n),
{
    assert(a * n <= b * n) by (nonlinear_arith)
        requires
            0 <= a <= b,
            n > 0,
    ;
    lemma_ceil_div_monotone(a * n, b * n, total);
}

proof fn lemma_ceil_div_monotone(x: int, y: int, d: int)
    requires
        0 <= x <= y,
        d > 0,
    ensures
        ceil_div(x, d) <= ceil_div(y, d),
{
    assert(x / d <= y / d) by (nonlinear_arith)
        requires
            0 <= x <= y,
            d > 0,
    ;
    if x / d == y / d {
        // Within one multiple of `d`: `x` is a multiple only if it is the lower end.
        assert(x % d == 0 || y % d != 0) by (nonlinear_arith)
            requires
                0 <= x <= y,
                d > 0,
                x / d == y / d,
        ;
    }
}

/// The days that are left stand in the order of the calendar they come from.
pub proof fn lemma_days_left_ordered(dates: Seq<Date>, after: Date)
    requires
        is_ordered(dates),
    ensures
        is_ordered(days_left(dates, after)),
        forall|k: int|
            0 <= k < days_left(dates, after).len() ==> dates.contains(
                #[trigger] days_left(dates, after)[k],
            ) && after.earlier(days_left(dates, after)[k]),
    decreases dates.len(),
{
    let p = later_than(after);
    reveal(Seq::filter);
    if dates.len() > 0 {
        let t = dates.drop_last();
        assert forall|i: int, j: int| 0 <= i < j < t.len() implies !(#[trigger] t[j].before(
            &t[i],
        )) by {
            assert(t[i] == dates[i] && t[j] == dates[j]);
            assert(!dates[j].before(&dates[i]));
        }
        lemma_days_left_ordered(t, after);
        let ft = days_left(t, after);
        let f = days_left(dates, after);
        assert forall|k: int| 0 <= k < ft.len() implies dates.contains(#[trigger] ft[k]) by {
            assert(t.contains(ft[k]));
            let m = choose|m: int| 0 <= m < t.len() && t[m] == ft[k];
            assert(dates[m] == ft[k]);
        }
        if p(dates.last()) {
            assert(f == ft.push(dates.last()));
            assert(dates[dates.len() - 1] == dates.last());
            assert forall|i: int, j: int| 0 <= i < j < f.len() implies !(#[trigger] f[j].before(
                &f[i],
            )) by {
                if j < ft.len() {
                    assert(!ft[j].before(&ft[i]));
                } else {
                    assert(t.contains(ft[i]));
                    let m = choose|m: int| 0 <= m < t.len() && t[m] == ft[i];
                    assert(!dates[dates.len() - 1].before(&dates[m]));
                }
            }
        } else {
            assert(f == ft);
        }
    }
}

/// After pacing, two goals that are not completed are both due on days that
/// are left, and the later of the two in the calendar's order is due no
/// earlier than the other.
pub proof fn lemma_paced_in_order(goals: Seq<Goal>, dates: Seq<Date>, today: Date, i: int, j: int)
    requires
        is_ordered(dates),
        autopaced(goals, dates, today) is Ok,
        0 <= i <= j < goals.len(),
        goals[i].done is None,
        goals[j].done is None,
    ensures
        ({
            let days = days_left(dates, cutoff(goals, today));
            let after = autopaced(goals, dates, today)->Ok_0;
            &&& after[i].due is Some
            &&& after[j].due is Some
            &&& days.contains(after[i].due->0)
            &&& days.contains(after[j].due->0)
            &&& dates.contains(after[i].due->0)
            &&& today.earlier(after[i].due->0)
            &&& !(after[j].due->0).earlier(after[i].due->0)
        }),
{
    let days = days_left(dates, cutoff(goals, today));
    let n = days.len() as int;
    let total = weight_where(goals, undone());
    let a = weight_where(goals.take(i + 1), undone());
    let b = weight_where(goals.take(j + 1), undone());
    lemma_weight_where_bounds(goals, undone(), i + 1);
    lemma_weight_where_bounds(goals.take(j + 1), undone(), i + 1);
    assert(goals.take(j + 1).take(i + 1) =~= goals.take(i + 1));
    lemma_pace_slot_in_range(a, total, n);
    lemma_pace_slot_in_range(b, total, n);
    lemma_pace_slot_monotone(a, b, total, n);
    lemma_days_left_ordered(dates, cutoff(goals, today));
    let si = slot_of(goals, i, n);
    let sj = slot_of(goals, j, n);
    assert(days[si] == days[si]);
    assert(days[sj] == days[sj]);
    if si < sj {
        assert(!days[sj].before(&days[si]));
    }
    lemma_cutoff_not_before(goals, today);
}

/// The cutoff is today or a later day.
pub proof fn lemma_cutoff_not_before(goals: Seq<Goal>, today: Date)
    ensures
        cutoff(goals, today) == today || today.earlier(cutoff(goals, today)),
        forall|d: Date| cutoff(goals, today).earlier(d) ==> today.earlier(d),
    decreases goals.len(),
{
    if goals.len() > 0 {
        lemma_cutoff_not_before(goals.drop_last(), today);
    }
}

/// Weights that agree goal by goal add up to the same.
pub proof fn lemma_same_weights(a: Seq<Goal>, b: Seq<Goal>)
    requires
        a.len() == b.len(),
        forall|i: int| 0 <= i < a.len() ==> (#[trigger] a[i]).weight == b[i].weight,
    ensures
        weight_sum(a) == weight_sum(b),
    decreases a.len(),
{
    if a.len() > 0 {
        let x = a.drop_last();
        let y = b.drop_last();
        assert forall|i: int| 0 <= i < x.len() implies (#[trigger] x[i]).weight == y[i].weight by {
            assert(x[i] == a[i]);
            assert(y[i] == b[i]);
        }
        lemma_same_weights(x, y);
        assert(a.last() == a[a.len() - 1]);
    }
}

impl Pace {
    /// Sets the due date of every goal that is not completed: the instructional
    /// days after today and after the last completion are shared out in
    /// proportion to the goals' weights, in the calendar's order. The goals
    /// that are completed, and every other field of a goal, stay as they are.
    pub fn autopace(&mut self, dates: &Vec<Date>, today: &Date) -> (r: Result<(), AutopaceError>)
        requires
            old(self).wf(),
        ensures
            match r {
                Ok(()) => {
                    &&& autopaced(old(self).goals@, dates@, *today) == Ok::<
                        Seq<Goal>,
                        AutopaceError,
                    >(final(self).goals@)
                    &&& final(self).student == old(self).student
                    &&& final(self).teacher == old(self).teacher
                    &&& final(self).total_weight == old(self).total_weight
                    &&& final(self).done_weight == old(self).done_weight
                    &&& final(self).due_weight == weight_where(final(self).goals@, due_by(*today))
                    &&& final(self).wf()
                },
                Err(e) => autopaced(old(self).goals@, dates@, *today) == Err::<
                    Seq<Goal>,
                    AutopaceError,
                >(e) && *final(self) == *old(self),
            },
    {
        let ghost before = self.goals@;
        let n = self.goals.len();
        // The goals to pace: how many, and what they weigh together.
        let mut count: usize = 0;
        let mut total: u64 = 0;
        let mut last: Date = *today;
        let mut i: usize = 0;
        assert(before.take(0) =~= Seq::<Goal>::empty());
        while i < n
            invariant
                i <= n == before.len(),
                before == self.goals@,
                self.total_weight == weight_sum(before),
                count == undone_count(before.take(i as int)),
                count <= i,
                total == weight_where(before.take(i as int), undone()),
                last == cutoff(before.take(i as int), *today),
            decreases n - i,
        {
            proof {
                assert(before.take(i + 1).drop_last() =~= before.take(i as int));
                assert(before.take(i + 1).last() == before[i as int]);
                lemma_weight_where_bounds(before, undone(), i + 1);
            }
            match &self.goals[i].done {
                None => {
                    count += 1;
                    total += self.goals[i].weight as u64;
                },
                Some(d) => {
                    if last.is_earlier(d) {
                        last = *d;
                    }
                },
            }
            i += 1;
        }
        assert(before.take(n as int) =~= before);
        // The days that are left.
        let ghost keep = later_than(last);
        let mut days: Vec<Date> = Vec::new();
        let mut k: usize = 0;
        assert(dates@.take(0) =~= Seq::<Date>::empty());
        assert(dates@.take(0).filter(keep) =~= Seq::<Date>::empty()) by {
            reveal(Seq::filter);
        }
        while k < dates.len()
            invariant
                k <= dates@.len(),
                keep == later_than(last),
                days@ == dates@.take(k as int).filter(keep),
            decreases dates@.len() - k,
        {
            proof {
                assert(dates@.take(k + 1) =~= dates@.take(k as int).push(dates@[k as int]));
                dates@.take(k as int).lemma_filter_push(dates@[k as int], keep);
            }
            if last.is_earlier(&dates[k]) {
                days.push(dates[k]);
            }
            k += 1;
        }
        assert(dates@.take(dates@.len() as int) =~= dates@);
        assert(days@ == days_left(dates@, cutoff(before, *today)));
        if count == 0 {
            return Err(AutopaceError::NothingToPace);
        }
        if days.len() == 0 {
            return Err(AutopaceError::NoDaysLeft);
        }
        if total == 0 {
            return Err(AutopaceError::NoWeight);
        }
        // Each goal with its day.
        let m = days.len();
        let mut out: Vec<Goal> = Vec::new();
        let mut acc: u64 = 0;
        let mut j: usize = 0;
        while j < n
            invariant
                j <= n == before.len(),
                before == self.goals@,
                m == days@.len(),
                m > 0,
                total > 0,
                total == weight_where(before, undone()),
                acc == weight_where(before.take(j as int), undone()),
                acc <= total,
                out@.len() == j,
                forall|x: int| 0 <= x < j ==> out@[x] == paced_goal(before, x, days@),
            decreases n - j,
        {
            proof {
                assert(before.take(j + 1).drop_last() =~= before.take(j as int));
                assert(before.take(j + 1).last() == before[j as int]);
                lemma_weight_where_bounds(before, undone(), j + 1);
            }
            let g = self.goals[j].clone();
            if g.done.is_none() {
                acc += g.weight as u64;
                assert(acc as int * m as int <= 0xffff_ffff_ffff_ffff * 0xffff_ffff_ffff_ffff)
                    by (nonlinear_arith)
                    requires
                        0 <= acc as int <= 0xffff_ffff_ffff_ffff,
                        0 <= m as int <= 0xffff_ffff_ffff_ffff,
                ;
                let prod: u128 = acc as u128 * m as u128;
                let q: u128 = prod / total as u128;
                assert(q <= prod) by (nonlinear_arith)
                    requires
                        q == prod / total as u128,
                        total > 0,
                ;
                let up: u128 = if prod % (total as u128) == 0 {
                    q
                } else {
                    q + 1
                };
                assert(up == ceil_div(acc as int * m as int, total as int));
                let slot: usize = if up == 0 {
                    0
                } else if up - 1 > (m - 1) as u128 {
                    m - 1
                } else {
                    (up - 1) as usize
                };
                assert(slot == slot_of(before, j as int, m as int));
                out.push(
                    Goal {
                        id: g.id,
                        uname: g.uname,
                        source: g.source,
                        review: g.review,
                        incomplete: g.incomplete,
                        due: Some(days[slot]),
                        done: g.done,
                        tries: g.tries,
                        weight: g.weight,
                        score: g.score,
                    },
                );
            } else {
                out.push(g);
            }
            j += 1;
        }
        assert(out@ =~= paced(before, days@));
        proof {
            lemma_same_weights(out@, before);
            lemma_weight_where_bounds(out@, due_by(*today), out@.len() as int);
        }
        self.goals = out;
        match due_weight_of(&self.goals, today) {
            Some(w) => {
                self.due_weight = w;
            },
            None => {},
        }
        Ok(())
    }
}

} // verus!
