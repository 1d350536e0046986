//! The goals of the domain store.

use vstd::prelude::*;
use crate::config::{course_index, find_course, find_user, user_index};
use crate::course::chapter_index;
use crate::date::Date;
use crate::pace::{BookCh, Goal, Source};
use crate::seqs::{first_where, lemma_first_where_is, lemma_first_where_none};
use crate::store::{is_student, DbError, Store};
use crate::user::User;

verus! {

/// The goal has the number `id`.
pub open spec fn goal_numbered(id: i64) -> spec_fn(Goal) -> bool {
    |g: Goal| g.id == id
}

/// The goal is one of the student named `uname`.
pub open spec fn goal_of(uname: Seq<char>) -> spec_fn(Goal) -> bool {
    |g: Goal| g.uname@ == uname
}

/// The goal is one of a student whose teacher is named `tuname`.
pub open spec fn goal_under(users: Seq<User>, tuname: Seq<char>) -> spec_fn(Goal) -> bool {
    |g: Goal|
        match user_index(users, g.uname@) {
            Some(i) => users[i] matches User::Student(s) && s.teacher@ == tuname,
            None => false,
        }
}

/// The place of the first goal numbered `id`.
pub open spec fn goal_index(goals: Seq<Goal>, id: i64) -> Option<int> {
    first_where(goals, goal_numbered(id))
}

/// The course with the symbol `sym` is on record and has a chapter `seq`.
pub open spec fn chapter_exists(courses: Seq<crate::course::Course>, sym: Seq<char>, seq: i16) -> bool {
    match course_index(courses, sym) {
        Some(i) => chapter_index(courses[i].chapters@, seq) is Some,
        None => false,
    }
}

/// Whether a goal can go on record: it is a chapter of a book that is on
/// record, for a student who is.
pub open spec fn goal_fits(users: Seq<User>, courses: Seq<crate::course::Course>, g: Goal) -> bool {
    &&& is_student(users, g.uname@)
    &&& g.source matches Source::Book(b) && chapter_exists(courses, b.sym@, b.seq)
}

/// A goal as it goes on record when it is new: under the number `id`, with no
/// try, no score, and weight and level left for the pace calendar to fill in.
pub open spec fn recorded_goal(g: Goal, id: i64) -> Goal {
    Goal {
        id,
        uname: g.uname,
        source: match g.source {
            Source::Book(b) => Source::Book(BookCh { sym: b.sym, seq: b.seq, level: 0 }),
            Source::Custom(c) => Source::Custom(c),
        },
        review: g.review,
        incomplete: g.incomplete,
        due: g.due,
        done: g.done,
        tries: 0,
        weight: 0,
        score: None,
    }
}

/// A goal on record after it was written anew from `g`: number and student
/// stay, everything else is that of `g`.
pub open spec fn rewritten_goal(stored: Goal, g: Goal) -> Goal {
    Goal {
        id: stored.id,
        uname: stored.uname,
        source: match g.source {
            Source::Book(b) => Source::Book(BookCh { sym: b.sym, seq: b.seq, level: 0 }),
            Source::Custom(c) => Source::Custom(c),
        },
        review: g.review,
        incomplete: g.incomplete,
        due: g.due,
        done: g.done,
        tries: g.tries,
        weight: 0,
        score: g.score,
    }
}

/// A goal with another due date.
pub open spec fn goal_due(g: Goal, due: Option<Date>) -> Goal {
    Goal {
        id: g.id,
        uname: g.uname,
        source: g.source,
        review: g.review,
        incomplete: g.incomplete,
        due,
        done: g.done,
        tries: g.tries,
        weight: g.weight,
        score: g.score,
    }
}

/// The goals on record after the one numbered as `g` got the due date of `g`.
pub open spec fn with_due_date(stored: Seq<Goal>, g: Goal) -> Seq<Goal> {
    match goal_index(stored, g.id) {
        Some(i) => stored.update(i, goal_due(stored[i], g.due)),
        None => stored,
    }
}

/// The goals on record after each of `given`, in turn, handed on its due date.
pub open spec fn with_due_dates(stored: Seq<Goal>, given: Seq<Goal>) -> Seq<Goal>
    decreases given.len(),
{
    if given.len() == 0 {
        stored
    } else {
        with_due_date(with_due_dates(stored, given.drop_last()), given.last())
    }
}

/// How many of `given` have their number among the goals on record.
pub open spec fn found_among(stored: Seq<Goal>, given: Seq<Goal>) -> int
    decreases given.len(),
{
    if given.len() == 0 {
        0
    } else {
        found_among(stored, given.drop_last()) + if goal_index(stored, given.last().id) is Some {
            1int
        } else {
            0int
        }
    }
}

/// The goals of `a` are numbered as those of `b`, one for one.
pub open spec fn same_ids(a: Seq<Goal>, b: Seq<Goal>) -> bool {
    &&& a.len() == b.len()
    &&& forall|k: int| 0 <= k < a.len() ==> (#[trigger] a[k]).id == b[k].id
}

/// Goals that are numbered alike are found at the same places.
pub proof fn lemma_same_ids_index(a: Seq<Goal>, b: Seq<Goal>, id: i64)
    requires
        same_ids(a, b),
    ensures
        goal_index(a, id) == goal_index(b, id),
{
    let p = goal_numbered(id);
    crate::seqs::lemma_first_where(a, p);
    crate::seqs::lemma_first_where(b, p);
    match first_where(a, p) {
        Some(i) => {
            assert(p(b[i]));
            assert forall|k: int| 0 <= k < i implies !p(#[trigger] b[k]) by {
                assert(!p(a[k]));
            }
            crate::seqs::lemma_first_where_is(b, p, i);
        },
        None => {
            assert forall|k: int| 0 <= k < b.len() implies !p(#[trigger] b[k]) by {
                assert(!p(a[k]));
            }
            crate::seqs::lemma_first_where_none(b, p);
        },
    }
}

/// The goal cannot go on record.
pub open spec fn goal_misfit(users: Seq<User>, courses: Seq<crate::course::Course>) -> spec_fn(Goal) -> bool {
    |g: Goal| !goal_fits(users, courses, g)
}

/// The words in which a goal that cannot go on record is refused.
pub open spec fn goal_unfit(uname: Seq<char>) -> Seq<char> {
    "Unable to insert a goal for "@ + uname + ": the student or the chapter is not on record."@
}

pub open spec fn no_goal_numbers() -> Seq<char> {
    "No more goals can be numbered."@
}

pub open spec fn no_such_goal() -> Seq<char> {
    "There is no goal with this id."@
}

pub open spec fn chapter_unknown() -> Seq<char> {
    "The chapter is not on record."@
}

/// The words in which a batch of goals is refused, if it is: they name the
/// student of the first goal that cannot go on record.
pub open spec fn insert_goals_refusal(
    users: Seq<User>,
    courses: Seq<crate::course::Course>,
    goals: Seq<Goal>,
    next_id: i64,
) -> Option<Seq<char>> {
    match first_where(goals, goal_misfit(users, courses)) {
        Some(i) => Some(goal_unfit(goals[i].uname@)),
        None => if next_id + goals.len() > i64::MAX {
            Some(no_goal_numbers())
        } else {
            None
        },
    }
}

/// The words in which a goal's record is not written anew, if it is not.
pub open spec fn update_goal_refusal(goals: Seq<Goal>, courses: Seq<crate::course::Course>, g: Goal) -> Option<
    Seq<char>,
> {
    if goal_index(goals, g.id) is None {
        Some(no_such_goal())
    } else if !(g.source matches Source::Book(b) && chapter_exists(courses, b.sym@, b.seq)) {
        Some(chapter_unknown())
    } else {
        None
    }
}

/// Whether the goal can go on record.
pub fn check_goal(users: &Vec<User>, courses: &Vec<crate::course::Course>, g: &Goal) -> (r: bool)
    ensures
        r == goal_fits(users@, courses@, *g),
{
    match find_user(users, g.uname.as_str()) {
        Some(User::Student(_)) => {},
        _ => {
            return false;
        },
    }
    match &g.source {
        Source::Custom(_) => false,
        Source::Book(b) => match find_course(courses, b.sym.as_str()) {
            None => false,
            Some(c) => c.chapter(b.seq).is_some(),
        },
    }
}

/// The place of the first goal numbered `id`.
pub fn find_goal(goals: &Vec<Goal>, id: i64) -> (r: Option<usize>)
    ensures
        match r {
            Some(i) => goal_index(goals@, id) == Some(i as int) && i < goals@.len() && goals@[i as int].id
                == id,
            None => goal_index(goals@, id) is None,
        },
{
    let ghost p = goal_numbered(id);
    let n = goals.len();
    let mut i: usize = 0;
    while i < n
        invariant
            i <= n == goals@.len(),
            p == goal_numbered(id),
            forall|k: int| 0 <= k < i ==> !p(#[trigger] goals@[k]),
        decreases n - i,
    {
        if goals[i].id == id {
            proof {
                lemma_first_where_is(goals@, p, i as int);
            }
            return Some(i);
        }
        i += 1;
    }
    proof {
        lemma_first_where_none(goals@, p);
    }
    None
}

/// Every goal of the batch can go on record.
pub open spec fn goals_fit(users: Seq<User>, courses: Seq<crate::course::Course>, goals: Seq<Goal>) -> bool {
    forall|i: int| 0 <= i < goals.len() ==> goal_fits(users, courses, #[trigger] goals[i])
}

impl Store {
    /// Puts a batch of goals on record, numbered on from the next free
    /// number, or none of them: the batch is refused where a goal is not a
    /// chapter of a book on record or not for a student on record. Says how
    /// many went on record.
    pub fn insert_goals(&mut self, goals: &[Goal]) -> (r: Result<usize, DbError>)
        requires
            old(self).wf(),
        ensures
            final(self).wf(),
            final(self).same_settings(old(self)),
            final(self).users == old(self).users,
            final(self).courses == old(self).courses,
            final(self).calendar == old(self).calendar,
            final(self).dates == old(self).dates,
            final(self).next_course_id == old(self).next_course_id,
            final(self).next_chapter_id == old(self).next_chapter_id,
            match r {
                Ok(n) => {
                    &&& insert_goals_refusal(
                        old(self).users@,
                        old(self).courses@,
                        goals@,
                        old(self).next_goal_id,
                    ) is None
                    &&& goals_fit(old(self).users@, old(self).courses@, goals@)
                    &&& old(self).next_goal_id + goals@.len() <= i64::MAX
                    &&& n == goals@.len()
                    &&& final(self).next_goal_id == old(self).next_goal_id + n
                    &&& final(self).goals@.len() == old(self).goals@.len() + n
                    &&& final(self).goals@.take(old(self).goals@.len() as int) == old(self).goals@
                    &&& forall|k: int|
                        0 <= k < n ==> #[trigger] final(self).goals@[old(self).goals@.len() + k]
                            == recorded_goal(goals@[k], (old(self).next_goal_id + k) as i64)
                },
                Err(e) => {
                    &&& insert_goals_refusal(
                        old(self).users@,
                        old(self).courses@,
                        goals@,
                        old(self).next_goal_id,
                    ) == Some(e.0@)
                    &&& final(self).goals == old(self).goals
                    &&& final(self).next_goal_id == old(self).next_goal_id
                },
            },
    {
        let ghost unfit = goal_misfit(self.users@, self.courses@);
        let n = goals.len();
        let mut i: usize = 0;
        while i < n
            invariant
                i <= n == goals@.len(),
                *self == *old(self),
                self.wf(),
                unfit == goal_misfit(self.users@, self.courses@),
                forall|k: int| 0 <= k < i ==> goal_fits(self.users@, self.courses@, #[trigger] goals@[k]),
                forall|k: int| 0 <= k < i ==> !unfit(#[trigger] goals@[k]),
            decreases n - i,
        {
            if !check_goal(&self.users, &self.courses, &goals[i]) {
                proof {
                    lemma_first_where_is(goals@, unfit, i as int);
                }
                let mut msg = String::from_str("Unable to insert a goal for ");
                msg.append(goals[i].uname.as_str());
                msg.append(": the student or the chapter is not on record.");
                return Err(DbError(msg));
            }
            i += 1;
        }
        proof {
            lemma_first_where_none(goals@, unfit);
        }
        if self.next_goal_id as i128 + n as i128 > i64::MAX as i128 {
            return Err(DbError(String::from_str("No more goals can be numbered.")));
        }
        let first = self.next_goal_id;
        let ghost before = self.goals@;
        let mut k: usize = 0;
        assert(self.goals@.take(before.len() as int) =~= before);
        while k < n
            invariant
                k <= n == goals@.len(),
                first + n <= i64::MAX,
                first >= 1,
                self.wf(),
                self.same_settings(old(self)),
                self.users == old(self).users,
                self.courses == old(self).courses,
                self.calendar == old(self).calendar,
                self.dates == old(self).dates,
                self.next_course_id == old(self).next_course_id,
                self.next_chapter_id == old(self).next_chapter_id,
                self.next_goal_id == first,
                self.goals@.len() == before.len() + k,
                self.goals@.take(before.len() as int) == before,
                forall|x: int|
                    0 <= x < k ==> #[trigger] self.goals@[before.len() + x] == recorded_goal(
                        goals@[x],
                        (first + x) as i64,
                    ),
            decreases n - k,
        {
            let g = &goals[k];
            let ghost prior = self.goals@;
            let stored = Goal {
                id: first + k as i64,
                uname: g.uname.clone(),
                source: match &g.source {
                    Source::Book(b) => Source::Book(
                        BookCh { sym: b.sym.clone(), seq: b.seq, level: 0 },
                    ),
                    Source::Custom(c) => Source::Custom(*c),
                },
                review: g.review,
                incomplete: g.incomplete,
                due: g.due,
                done: g.done,
                tries: 0,
                weight: 0,
                score: None,
            };
            self.goals.push(stored);
            proof {
                assert(self.goals@.take(before.len() as int) =~= prior.take(before.len() as int));
                assert forall|x: int| 0 <= x < k + 1 implies #[trigger] self.goals@[before.len() + x]
                    == recorded_goal(goals@[x], (first + x) as i64) by {
                    if x < k {
                        assert(self.goals@[before.len() + x] == prior[before.len() + x]);
                    }
                }
            }
            k += 1;
        }
        self.next_goal_id = first + n as i64;
        Ok(n)
    }

    /// Puts one goal on record.
    pub fn insert_one_goal(&mut self, g: &Goal) -> (r: Result<(), DbError>)
        requires
            old(self).wf(),
        ensures
            final(self).wf(),
            final(self).same_settings(old(self)),
            final(self).users == old(self).users,
            final(self).courses == old(self).courses,
            final(self).calendar == old(self).calendar,
            final(self).dates == old(self).dates,
            match r {
                Ok(()) => {
                    &&& goal_fits(old(self).users@, old(self).courses@, *g)
                    &&& old(self).next_goal_id < i64::MAX
                    &&& final(self).next_goal_id == old(self).next_goal_id + 1
                    &&& final(self).goals@ == old(self).goals@.push(
                        recorded_goal(*g, old(self).next_goal_id),
                    )
                },
                Err(e) => {
                    &&& e.0@ == if !goal_fits(old(self).users@, old(self).courses@, *g) {
                        goal_unfit(g.uname@)
                    } else {
                        no_goal_numbers()
                    }
                    &&& !goal_fits(old(self).users@, old(self).courses@, *g) || old(self).next_goal_id
                        == i64::MAX
                    &&& final(self).goals == old(self).goals
                    &&& final(self).next_goal_id == old(self).next_goal_id
                },
            },
    {
        if !check_goal(&self.users, &self.courses, g) {
            let mut msg = String::from_str("Unable to insert a goal for ");
            msg.append(g.uname.as_str());
            msg.append(": the student or the chapter is not on record.");
            return Err(DbError(msg));
        }
        if self.next_goal_id == i64::MAX {
            return Err(DbError(String::from_str("No more goals can be numbered.")));
        }
        let stored = Goal {
            id: self.next_goal_id,
            uname: g.uname.clone(),
            source: match &g.source {
                Source::Book(b) => Source::Book(BookCh { sym: b.sym.clone(), seq: b.seq, level: 0 }),
                Source::Custom(c) => Source::Custom(*c),
            },
            review: g.review,
            incomplete: g.incomplete,
            due: g.due,
            done: g.done,
            tries: 0,
            weight: 0,
            score: None,
        };
        self.goals.push(stored);
        self.next_goal_id = self.next_goal_id + 1;
        Ok(())
    }

    /// Writes the goal numbered as `g` anew from `g`; its number and its
    /// student stay. Refused where no goal has the number, and where `g` is
    /// not a chapter of a book on record.
    pub fn update_goal(&mut self, g: &Goal) -> (r: Result<(), DbError>)
        requires
            old(self).wf(),
        ensures
            final(self).wf(),
            final(self).same_settings(old(self)),
            final(self).same_numbers(old(self)),
            final(self).users == old(self).users,
            final(self).courses == old(self).courses,
            final(self).calendar == old(self).calendar,
            final(self).dates == old(self).dates,
            match r {
                Ok(()) => {
                    &&& update_goal_refusal(old(self).goals@, old(self).courses@, *g) is None
                    &&& goal_index(old(self).goals@, g.id) matches Some(i)
                    &&& g.source matches Source::Book(b) && chapter_exists(
                        old(self).courses@,
                        b.sym@,
                        b.seq,
                    )
                    &&& final(self).goals@ == old(self).goals@.update(
                        goal_index(old(self).goals@, g.id)->0,
                        rewritten_goal(old(self).goals@[goal_index(old(self).goals@, g.id)->0], *g),
                    )
                },
                Err(e) => {
                    &&& update_goal_refusal(old(self).goals@, old(self).courses@, *g) == Some(e.0@)
                    &&& final(self).goals == old(self).goals
                },
            },
    {
        let i = match find_goal(&self.goals, g.id) {
            Some(i) => i,
            None => {
                return Err(DbError(String::from_str("There is no goal with this id.")));
            },
        };
        let known = match &g.source {
            Source::Custom(_) => false,
            Source::Book(b) => match find_course(&self.courses, b.sym.as_str()) {
                None => false,
                Some(c) => c.chapter(b.seq).is_some(),
            },
        };
        if !known {
            return Err(DbError(String::from_str("The chapter is not on record.")));
        }
        let ghost before = self.goals@;
        let stored = Goal {
            id: self.goals[i].id,
            uname: self.goals[i].uname.clone(),
            source: match &g.source {
                Source::Book(b) => Source::Book(BookCh { sym: b.sym.clone(), seq: b.seq, level: 0 }),
                Source::Custom(c) => Source::Custom(*c),
            },
            review: g.review,
            incomplete: g.incomplete,
            due: g.due,
            done: g.done,
            tries: g.tries,
            weight: 0,
            score: g.score.clone(),
        };
        self.goals[i] = stored;
        assert(self.goals@ =~= before.update(i as int, rewritten_goal(before[i as int], *g)));
        Ok(())
    }

    /// Takes the goal numbered `id` off the record and says whose it was.
    pub fn delete_goal(&mut self, id: i64) -> (r: Result<String, DbError>)
        requires
            old(self).wf(),
        ensures
            final(self).wf(),
            final(self).same_settings(old(self)),
            final(self).same_numbers(old(self)),
            final(self).users == old(self).users,
            final(self).courses == old(self).courses,
            final(self).calendar == old(self).calendar,
            final(self).dates == old(self).dates,
            match r {
                Ok(uname) => {
                    &&& goal_index(old(self).goals@, id) matches Some(i)
                    &&& uname == old(self).goals@[goal_index(old(self).goals@, id)->0].uname
                    &&& final(self).goals@ == old(self).goals@.remove(
                        goal_index(old(self).goals@, id)->0,
                    )
                },
                Err(e) => goal_index(old(self).goals@, id) is None && final(self).goals == old(self).goals
                    && e.0@ == no_such_goal(),
            },
    {
        match find_goal(&self.goals, id) {
            None => Err(DbError(String::from_str("There is no goal with this id."))),
            Some(i) => {
                let g = self.goals.remove(i);
                Ok(g.uname)
            },
        }
    }

    /// The goals of the student named `uname`, in the order of the record.
    pub fn get_goals_by_student(&self, uname: &str) -> (r: Vec<Goal>)
        ensures
            r@ == self.goals@.filter(goal_of(uname@)),
    {
        let ghost p = goal_of(uname@);
        let n = self.goals.len();
        let mut out: Vec<Goal> = Vec::new();
        let mut i: usize = 0;
        assert(self.goals@.take(0).filter(p) =~= Seq::<Goal>::empty()) by {
            reveal(Seq::filter);
        }
        while i < n
            invariant
                i <= n == self.goals@.len(),
                p == goal_of(uname@),
                out@ == self.goals@.take(i as int).filter(p),
            decreases n - i,
        {
            proof {
                assert(self.goals@.take(i + 1) =~= self.goals@.take(i as int).push(
                    self.goals@[i as int],
                ));
                self.goals@.take(i as int).lemma_filter_push(self.goals@[i as int], p);
            }
            if self.goals[i].uname.as_str().eq(uname) {
                out.push(self.goals[i].clone());
            }
            i += 1;
        }
        assert(self.goals@.take(n as int) =~= self.goals@);
        out
    }

    /// The goals of the students whose teacher is named `tuname`, in the
    /// order of the record.
    pub fn get_goals_by_teacher(&self, tuname: &str) -> (r: Vec<Goal>)
        ensures
            r@ == self.goals@.filter(goal_under(self.users@, tuname@)),
    {
        let ghost p = goal_under(self.users@, tuname@);
        let n = self.goals.len();
        let mut out: Vec<Goal> = Vec::new();
        let mut i: usize = 0;
        assert(self.goals@.take(0).filter(p) =~= Seq::<Goal>::empty()) by {
            reveal(Seq::filter);
        }
        while i < n
            invariant
                i <= n == self.goals@.len(),
                p == goal_under(self.users@, tuname@),
                out@ == self.goals@.take(i as int).filter(p),
            decreases n - i,
        {
            proof {
                assert(self.goals@.take(i + 1) =~= self.goals@.take(i as int).push(
                    self.goals@[i as int],
                ));
                self.goals@.take(i as int).lemma_filter_push(self.goals@[i as int], p);
            }
            let under = match find_user(&self.users, self.goals[i].uname.as_str()) {
                Some(User::Student(s)) => s.teacher.as_str().eq(tuname),
                _ => false,
            };
            if under {
                out.push(self.goals[i].clone());
            }
            i += 1;
        }
        assert(self.goals@.take(n as int) =~= self.goals@);
        out
    }

    /// Hands the due date of each of `given`, in turn, on to the goal on
    /// record that has its number; nothing else of a goal changes. Says how
    /// many of `given` found their goal.
    pub fn update_due_dates(&mut self, given: &[Goal]) -> (r: usize)
        requires
            old(self).wf(),
        ensures
            final(self).wf(),
            final(self).same_settings(old(self)),
            final(self).same_numbers(old(self)),
            final(self).users == old(self).users,
            final(self).courses == old(self).courses,
            final(self).calendar == old(self).calendar,
            final(self).dates == old(self).dates,
            final(self).goals@ == with_due_dates(old(self).goals@, given@),
            r == found_among(old(self).goals@, given@),
    {
        let n = given.len();
        let mut found: usize = 0;
        let mut i: usize = 0;
        assert(given@.take(0) =~= Seq::<Goal>::empty());
        while i < n
            invariant
                i <= n == given@.len(),
                found <= i,
                found == found_among(old(self).goals@, given@.take(i as int)),
                same_ids(self.goals@, old(self).goals@),
                self.wf(),
                self.same_settings(old(self)),
                self.same_numbers(old(self)),
                self.users == old(self).users,
                self.courses == old(self).courses,
                self.calendar == old(self).calendar,
                self.dates == old(self).dates,
                self.goals@ == with_due_dates(old(self).goals@, given@.take(i as int)),
            decreases n - i,
        {
            proof {
                assert(given@.take(i + 1).drop_last() =~= given@.take(i as int));
                assert(given@.take(i + 1).last() == given@[i as int]);
            }
            let ghost before = self.goals@;
            proof {
                lemma_same_ids_index(before, old(self).goals@, given@[i as int].id);
            }
            match find_goal(&self.goals, given[i].id) {
                Some(k) => {
                    self.goals[k].due = given[i].due;
                    assert(self.goals@ =~= before.update(
                        k as int,
                        goal_due(before[k as int], given@[i as int].due),
                    ));
                    found += 1;
                },
                None => {},
            }
            i += 1;
        }
        assert(given@.take(n as int) =~= given@);
        found
    }

    /// Takes the goals of the student named `uname` off the record and says
    /// how many went.
    pub fn delete_goals_by_student(&mut self, uname: &str) -> (r: usize)
        requires
            old(self).wf(),
        ensures
            final(self).wf(),
            final(self).same_settings(old(self)),
            final(self).same_numbers(old(self)),
            final(self).users == old(self).users,
            final(self).courses == old(self).courses,
            final(self).calendar == old(self).calendar,
            final(self).dates == old(self).dates,
            final(self).goals@ == old(self).goals@.filter(not_goal_of(uname@)),
            r == old(self).goals@.len() - final(self).goals@.len(),
    {
        let ghost p = not_goal_of(uname@);
        let ghost before = self.goals@;
        let n = self.goals.len();
        let mut out: Vec<Goal> = Vec::new();
        let mut i: usize = 0;
        assert(before.take(0).filter(p) =~= Seq::<Goal>::empty()) by {
            reveal(Seq::filter);
        }
        while i < n
            invariant
                i <= n == before.len(),
                self.goals@ == before,
                p == not_goal_of(uname@),
                out@ == before.take(i as int).filter(p),
            decreases n - i,
        {
            proof {
                assert(before.take(i + 1) =~= before.take(i as int).push(before[i as int]));
                before.take(i as int).lemma_filter_push(before[i as int], p);
            }
            if !self.goals[i].uname.as_str().eq(uname) {
                out.push(self.goals[i].clone());
            }
            i += 1;
        }
        assert(before.take(n as int) =~= before);
        proof {
            before.lemma_filter_len(p);
        }
        let gone = n - out.len();
        self.goals = out;
        gone
    }
}

/// The goal is not one of the student named `uname`.
pub open spec fn not_goal_of(uname: Seq<char>) -> spec_fn(Goal) -> bool {
    |g: Goal| g.uname@ != uname
}

} // verus!
