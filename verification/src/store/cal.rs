//! The calendar of instructional days and the named dates.

use vstd::prelude::*;
use crate::config::{date_index, date_named, distinct_names, NamedDate};
use crate::date::Date;
use crate::order::{is_ordered, lemma_sorted_of_ordered, sort, sorted_of};
use crate::seqs::{each_once, lemma_first_where_is, lemma_first_where_none};
use crate::store::{DbError, Store};

verus! {

/// The days other than `day`.
pub open spec fn other_than(day: Date) -> spec_fn(Date) -> bool {
    |d: Date| d != day
}

/// Whether `day` is one of `days`.
pub fn has_day(days: &Vec<Date>, day: &Date) -> (r: bool)
    ensures
        r == days@.contains(*day),
{
    let n = days.len();
    let mut i: usize = 0;
    while i < n
        invariant
            i <= n == days@.len(),
            forall|k: int| 0 <= k < i ==> days@[k] != *day,
        decreases n - i,
    {
        let d = &days[i];
        if d.year == day.year && d.month == day.month && d.day == day.day {
            return true;
        }
        i += 1;
    }
    false
}

impl Store {
    /// Makes `days` the calendar, each day once. Says how many days the
    /// calendar had before and how many it has now.
    pub fn set_calendar(&mut self, days: &[Date]) -> (r: (usize, usize))
        ensures
            final(self).same_settings(old(self)),
            final(self).same_numbers(old(self)),
            final(self).users == old(self).users,
            final(self).courses == old(self).courses,
            final(self).goals == old(self).goals,
            final(self).dates == old(self).dates,
            final(self).calendar@ == each_once(days@),
            r.0 == old(self).calendar@.len(),
            r.1 == final(self).calendar@.len(),
            old(self).wf() ==> final(self).wf(),
    {
        let n = days.len();
        let mut out: Vec<Date> = Vec::new();
        let mut i: usize = 0;
        assert(days@.take(0) =~= Seq::<Date>::empty());
        while i < n
            invariant
                i <= n == days@.len(),
                out@ == each_once(days@.take(i as int)),
            decreases n - i,
        {
            proof {
                assert(days@.take(i + 1).drop_last() =~= days@.take(i as int));
                assert(days@.take(i + 1).last() == days@[i as int]);
            }
            if !has_day(&out, &days[i]) {
                out.push(days[i]);
            }
            i += 1;
        }
        assert(days@.take(n as int) =~= days@);
        let had = self.calendar.len();
        self.calendar = out;
        (had, self.calendar.len())
    }

    /// The calendar, earliest day first.
    pub fn get_calendar(&self) -> (r: Vec<Date>)
        ensures
            r@ == sorted_of(self.calendar@),
            is_ordered(r@),
    {
        let n = self.calendar.len();
        let mut out: Vec<Date> = Vec::new();
        let mut i: usize = 0;
        while i < n
            invariant
                i <= n == self.calendar@.len(),
                out@ == self.calendar@.take(i as int),
            decreases n - i,
        {
            out.push(self.calendar[i]);
            assert(out@ =~= self.calendar@.take(i + 1));
            i += 1;
        }
        assert(self.calendar@.take(n as int) =~= self.calendar@);
        sort(&mut out);
        proof {
            lemma_sorted_of_ordered(self.calendar@);
        }
        out
    }

    /// Puts a day into the calendar, unless it is there already.
    pub fn add_one_day(&mut self, day: Date)
        ensures
            final(self).same_settings(old(self)),
            final(self).same_numbers(old(self)),
            final(self).users == old(self).users,
            final(self).courses == old(self).courses,
            final(self).goals == old(self).goals,
            final(self).dates == old(self).dates,
            final(self).calendar@ == if old(self).calendar@.contains(day) {
                old(self).calendar@
            } else {
                old(self).calendar@.push(day)
            },
            old(self).wf() ==> final(self).wf(),
    {
        if !has_day(&self.calendar, &day) {
            self.calendar.push(day);
        }
    }

    /// Takes a day out of the calendar.
    pub fn delete_one_day(&mut self, day: Date)
        ensures
            final(self).same_settings(old(self)),
            final(self).same_numbers(old(self)),
            final(self).users == old(self).users,
            final(self).courses == old(self).courses,
            final(self).goals == old(self).goals,
            final(self).dates == old(self).dates,
            final(self).calendar@ == old(self).calendar@.filter(other_than(day)),
            old(self).wf() ==> final(self).wf(),
    {
        let ghost p = other_than(day);
        let ghost before = self.calendar@;
        let n = self.calendar.len();
        let mut out: Vec<Date> = Vec::new();
        let mut i: usize = 0;
        assert(before.take(0).filter(p) =~= Seq::<Date>::empty()) by {
            reveal(Seq::filter);
        }
        while i < n
            invariant
                i <= n == before.len(),
                self.calendar@ == before,
                p == other_than(day),
                out@ == before.take(i as int).filter(p),
            decreases n - i,
        {
            proof {
                assert(before.take(i + 1) =~= before.take(i as int).push(before[i as int]));
                before.take(i as int).lemma_filter_push(before[i as int], p);
            }
            let d = &self.calendar[i];
            if !(d.year == day.year && d.month == day.month && d.day == day.day) {
                out.push(self.calendar[i]);
            }
            i += 1;
        }
        assert(before.take(n as int) =~= before);
        self.calendar = out;
    }

    /// Gives the date named `date_name` the day `day`, whether or not the
    /// name had a day before.
    pub fn set_date(&mut self, date_name: &str, day: Date)
        requires
            old(self).wf(),
        ensures
            final(self).wf(),
            final(self).same_settings(old(self)),
            final(self).same_numbers(old(self)),
            final(self).users == old(self).users,
            final(self).courses == old(self).courses,
            final(self).goals == old(self).goals,
            final(self).calendar == old(self).calendar,
            match date_index(old(self).dates@, date_name@) {
                Some(i) => final(self).dates@ == old(self).dates@.update(
                    i,
                    NamedDate { name: old(self).dates@[i].name, day },
                ),
                None => {
                    &&& final(self).dates@.len() == old(self).dates@.len() + 1
                    &&& final(self).dates@.drop_last() == old(self).dates@
                    &&& final(self).dates@.last().name@ == date_name@
                    &&& final(self).dates@.last().day == day
                },
            },
            date_index(final(self).dates@, date_name@) matches Some(i) && final(self).dates@[i].day
                == day,
    {
        let ghost p = date_named(date_name@);
        let ghost before = self.dates@;
        let n = self.dates.len();
        let mut i: usize = 0;
        while i < n
            invariant
                i <= n == self.dates@.len(),
                self.dates@ == before,
                *self == *old(self),
                self.wf(),
                p == date_named(date_name@),
                forall|k: int| 0 <= k < i ==> !p(#[trigger] before[k]),
            decreases n - i,
        {
            if self.dates[i].name.as_str().eq(date_name) {
                self.dates[i].day = day;
                proof {
                    let after = self.dates@;
                    lemma_first_where_is(before, p, i as int);
                    assert(after =~= before.update(
                        i as int,
                        NamedDate { name: before[i as int].name, day },
                    ));
                    assert forall|a: int, b: int| 0 <= a < b < after.len() implies (
                    #[trigger] after[a]).name@ != (#[trigger] after[b]).name@ by {
                        assert(after[a].name == before[a].name && after[b].name == before[b].name);
                    }
                    assert forall|k: int| 0 <= k < i implies !p(#[trigger] after[k]) by {
                        assert(after[k] == before[k]);
                    }
                    assert(p(after[i as int]));
                    lemma_first_where_is(after, p, i as int);
                }
                return ;
            }
            i += 1;
        }
        proof {
            lemma_first_where_none(before, p);
        }
        self.dates.push(NamedDate { name: String::from_str(date_name), day });
        proof {
            let after = self.dates@;
            assert(after.drop_last() =~= before);
            assert forall|a: int, b: int| 0 <= a < b < after.len() implies (#[trigger] after[a]).name@
                != (#[trigger] after[b]).name@ by {
                if b < before.len() {
                    assert(after[a] == before[a] && after[b] == before[b]);
                } else {
                    assert(after[a] == before[a]);
                    assert(!p(before[a]));
                }
            }
            assert forall|k: int| 0 <= k < before.len() implies !p(#[trigger] after[k]) by {
                assert(after[k] == before[k]);
            }
            assert(p(after[before.len() as int]));
            lemma_first_where_is(after, p, before.len() as int);
        }
    }

    /// The named dates, as on record.
    pub fn get_dates(&self) -> (r: Vec<NamedDate>)
        ensures
            r@ == self.dates@,
    {
        let n = self.dates.len();
        let mut out: Vec<NamedDate> = Vec::new();
        let mut i: usize = 0;
        while i < n
            invariant
                i <= n == self.dates@.len(),
                out@ == self.dates@.take(i as int),
            decreases n - i,
        {
            out.push(NamedDate { name: self.dates[i].name.clone(), day: self.dates[i].day });
            assert(out@ =~= self.dates@.take(i + 1));
            i += 1;
        }
        assert(self.dates@.take(n as int) =~= self.dates@);
        out
    }
}

} // verus!
