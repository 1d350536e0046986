//! Goals and pace calendars.
//!
//! Weights are counted in millionths, as in the course catalog.

use vstd::prelude::*;
use crate::config::{course_index, user_index, Glob};
use crate::course::{chapter_index, lemma_total_weight_covers, Course, MIN_COURSE_WEIGHT, UNIT};
use crate::date::Date;
use crate::order::{is_ordered, lemma_sorted_of_ordered, sort, sorted_of, Ranked};
use crate::user::{Student, Teacher, User};

verus! {

/// A chapter of a course's book.
#[derive(Debug)]
pub struct BookCh {
    pub sym: String,
    pub seq: i16,
    /// The course's level, in millionths; set when a pace calendar is made.
    pub level: i64,
}

impl Clone for BookCh {
    fn clone(&self) -> (r: Self)
        ensures
            r == *self,
    {
        BookCh { sym: self.sym.clone(), seq: self.seq, level: self.level }
    }
}

/// A chapter that a teacher made up. Room is kept for these; nothing paces them.
#[derive(Clone, Copy, Debug, PartialEq, Eq, Structural)]
pub struct CustomCh(pub i64);

#[derive(Debug)]
pub enum Source {
    Book(BookCh),
    Custom(CustomCh),
}

impl Clone for Source {
    fn clone(&self) -> (r: Self)
        ensures
            r == *self,
    {
        match self {
            Source::Book(b) => Source::Book(b.clone()),
            Source::Custom(c) => Source::Custom(*c),
        }
    }
}

/// One unit of work for one student.
#[derive(Debug)]
pub struct Goal {
    pub id: i64,
    pub uname: String,
    pub source: Source,
    pub review: bool,
    pub incomplete: bool,
    pub due: Option<Date>,
    pub done: Option<Date>,
    pub tries: i16,
    /// The chapter's share of its course, in millionths; set when a pace
    /// calendar is made.
    pub weight: u32,
    pub score: Option<String>,
}

impl Clone for Goal {
    fn clone(&self) -> (r: Self)
        ensures
            r == *self,
    {
        Goal {
            id: self.id,
            uname: self.uname.clone(),
            source: self.source.clone(),
            review: self.review,
            incomplete: self.incomplete,
            due: self.due,
            done: self.done,
            tries: self.tries,
            weight: self.weight,
            score: self.score.clone(),
        }
    }
}

/// A day that is set comes before one that is not, and an earlier day before
/// a later one.
pub open spec fn day_before(a: Option<Date>, b: Option<Date>) -> bool {
    match (a, b) {
        (Some(d), Some(e)) => d.earlier(e),
        (Some(_), None) => true,
        (None, _) => false,
    }
}

/// Among chapters of books, the lower level comes first, and on one level the
/// lower chapter number.
pub open spec fn source_before(a: Source, b: Source) -> bool {
    match (a, b) {
        (Source::Book(x), Source::Book(y)) => x.level < y.level || (x.level == y.level && x.seq
            < y.seq),
        _ => false,
    }
}

/// The order of a pace calendar: by due date, then by the day of completion,
/// then by level and chapter.
pub open spec fn goal_before(a: Goal, b: Goal) -> bool {
    ||| day_before(a.due, b.due)
    ||| a.due == b.due && day_before(a.done, b.done)
    ||| a.due == b.due && a.done == b.done && source_before(a.source, b.source)
}

pub fn is_day_before(a: &Option<Date>, b: &Option<Date>) -> (r: bool)
    ensures
        r == day_before(*a, *b),
{
    match (a, b) {
        (Some(d), Some(e)) => d.is_earlier(e),
        (Some(_), None) => true,
        (None, _) => false,
    }
}

pub fn same_day(a: &Option<Date>, b: &Option<Date>) -> (r: bool)
    ensures
        r == (*a == *b),
{
    match (a, b) {
        (Some(d), Some(e)) => d.year == e.year && d.month == e.month && d.day == e.day,
        (None, None) => true,
        _ => false,
    }
}

impl Ranked for Goal {
    open spec fn before(&self, other: &Self) -> bool {
        goal_before(*self, *other)
    }

    fn is_before(&self, other: &Self) -> (r: bool) {
        if is_day_before(&self.due, &other.due) {
            return true;
        }
        if !same_day(&self.due, &other.due) {
            return false;
        }
        if is_day_before(&self.done, &other.done) {
            return true;
        }
        if !same_day(&self.done, &other.done) {
            return false;
        }
        match (&self.source, &other.source) {
            (Source::Book(x), Source::Book(y)) => x.level < y.level || (x.level == y.level && x.seq
                < y.seq),
            _ => false,
        }
    }

    proof fn lemma_before_transitive(a: &Self, b: &Self, c: &Self) {
    }

    proof fn lemma_before_irreflexive(a: &Self) {
    }
}

/// How a goal stands on a given day.
#[derive(Clone, Copy, Debug, PartialEq, Eq, Structural)]
pub enum GoalStatus {
    /// Completed, and not after it was due.
    Done,
    /// Completed after it was due.
    Late,
    /// Not completed, and due before today.
    Overdue,
    /// Not completed, and not due yet.
    Yet,
}

/// The status of a goal with these days on the day `today`.
pub open spec fn status_of(due: Option<Date>, done: Option<Date>, today: Date) -> GoalStatus {
    match (due, done) {
        (Some(d), Some(n)) => if d.earlier(n) {
            GoalStatus::Late
        } else {
            GoalStatus::Done
        },
        (None, Some(_)) => GoalStatus::Done,
        (Some(d), None) => if d.earlier(today) {
            GoalStatus::Overdue
        } else {
            GoalStatus::Yet
        },
        (None, None) => GoalStatus::Yet,
    }
}

impl Goal {
    /// How the goal stands on `today`.
    pub fn status(&self, today: &Date) -> (r: GoalStatus)
        ensures
            r == status_of(self.due, self.done, *today),
    {
        match (&self.due, &self.done) {
            (Some(d), Some(n)) => if d.is_earlier(n) {
                GoalStatus::Late
            } else {
                GoalStatus::Done
            },
            (None, Some(_)) => GoalStatus::Done,
            (Some(d), None) => if d.is_earlier(today) {
                GoalStatus::Overdue
            } else {
                GoalStatus::Yet
            },
            (None, None) => GoalStatus::Yet,
        }
    }
}

/// Why no pace calendar could be made.
#[derive(Debug)]
pub enum PaceError {
    /// The name is not that of a student.
    NotStudent(String),
    /// No course has this symbol.
    NoCourse(String),
    /// The course with this symbol has no chapter of this number.
    NoChapter(String, i16),
    /// The course with this symbol has no total weight yet.
    Unweighted(String),
    /// The course with this symbol weighs too little to divide by.
    TooLight(String),
    /// The goal is not a chapter of a book.
    CustomSource,
    /// The weights add up to more than can be counted.
    TooHeavy,
}

impl PaceError {
    /// The error in words.
    pub open spec fn text(&self) -> Seq<char> {
        match self {
            PaceError::NotStudent(uname) => uname@ + " is not a student user name."@,
            PaceError::NoCourse(sym) => sym@ + " is not a course symbol."@,
            PaceError::NoChapter(sym, seq) => "Course "@ + sym@ + " does not have that chapter."@,
            PaceError::Unweighted(sym) => "Course "@ + sym@ + " has not been given a total weight."@,
            PaceError::TooLight(sym) => "Total weight of course "@ + sym@
                + " risks division by zero."@,
            PaceError::CustomSource => "Custom goals are not supported."@,
            PaceError::TooHeavy => "The weights of the goals are too large to add up."@,
        }
    }

    pub fn message(&self) -> (r: String)
        ensures
            r@ == self.text(),
    {
        match self {
            PaceError::NotStudent(uname) => {
                let mut s = uname.clone();
                s.append(" is not a student user name.");
                s
            },
            PaceError::NoCourse(sym) => {
                let mut s = sym.clone();
                s.append(" is not a course symbol.");
                s
            },
            PaceError::NoChapter(sym, seq) => {
                let mut s = String::from_str("Course ");
                s.append(sym.as_str());
                s.append(" does not have that chapter.");
                s
            },
            PaceError::Unweighted(sym) => {
                let mut s = String::from_str("Course ");
                s.append(sym.as_str());
                s.append(" has not been given a total weight.");
                s
            },
            PaceError::TooLight(sym) => {
                let mut s = String::from_str("Total weight of course ");
                s.append(sym.as_str());
                s.append(" risks division by zero.");
                s
            },
            PaceError::CustomSource => String::from_str("Custom goals are not supported."),
            PaceError::TooHeavy => String::from_str(
                "The weights of the goals are too large to add up.",
            ),
        }
    }
}

/// A chapter's share of its course, in millionths.
pub open spec fn share(chapter_weight: u32, course_weight: u64) -> int {
    (chapter_weight as int * UNIT as int) / (course_weight as int)
}

/// The goal with its weight and level filled in from the working set, or the
/// reason why it cannot stand in a pace calendar.
pub open spec fn affirmed(g: Goal, glob: Glob) -> Result<Goal, PaceError> {
    let is_student = match user_index(glob.users@, g.uname@) {
        Some(i) => glob.users@[i] is Student,
        None => false,
    };
    if !is_student {
        Err(PaceError::NotStudent(g.uname))
    } else {
        match g.source {
            Source::Custom(_) => Err(PaceError::CustomSource),
            Source::Book(b) => match course_index(glob.courses@, b.sym@) {
                None => Err(PaceError::NoCourse(b.sym)),
                Some(ci) => {
                    let crs = glob.courses@[ci];
                    match chapter_index(crs.chapters@, b.seq) {
                        None => Err(PaceError::NoChapter(b.sym, b.seq)),
                        Some(k) => match crs.weight {
                            None => Err(PaceError::Unweighted(b.sym)),
                            Some(w) => if w < MIN_COURSE_WEIGHT {
                                Err(PaceError::TooLight(b.sym))
                            } else {
                                Ok(
                                    Goal {
                                        id: g.id,
                                        uname: g.uname,
                                        source: Source::Book(
                                            BookCh { sym: b.sym, seq: b.seq, level: crs.level },
                                        ),
                                        review: g.review,
                                        incomplete: g.incomplete,
                                        due: g.due,
                                        done: g.done,
                                        tries: g.tries,
                                        weight: share(crs.chapters@[k].weight, w) as u32,
                                        score: g.score,
                                    },
                                )
                            },
                        },
                    }
                },
            },
        }
    }
}

/// A chapter weighs no more than its course, so its share is at most one.
pub proof fn lemma_share_bounded(chapter_weight: u32, course_weight: u64)
    requires
        chapter_weight <= course_weight,
        course_weight > 0,
    ensures
        0 <= share(chapter_weight, course_weight) <= UNIT,
{
    let c = chapter_weight as int;
    let w = course_weight as int;
    let u = UNIT as int;
    assert(c * u <= w * u) by (nonlinear_arith)
        requires
            c <= w,
            u >= 0,
    ;
    assert((c * u) / w <= u) by (nonlinear_arith)
        requires
            c * u <= w * u,
            w > 0,
    ;
    assert(0 <= (c * u) / w) by (nonlinear_arith)
        requires
            c >= 0,
            u >= 0,
            w > 0,
    ;
}

/// Checks a goal against the working set and fills in its weight, the
/// chapter's share of its course, and the course's level.
pub fn affirm_goal(g: Goal, glob: &Glob) -> (r: Result<Goal, PaceError>)
    requires
        glob.cache_wf(),
    ensures
        r == affirmed(g, *glob),
        r matches Ok(a) ==> a.weight <= UNIT,
{
    match glob.user(g.uname.as_str()) {
        Some(User::Student(_)) => {},
        _ => {
            return Err(PaceError::NotStudent(g.uname));
        },
    }
    let Goal { id, uname, source, review, incomplete, due, done, tries, weight: _, score } = g;
    match source {
        Source::Custom(_) => Err(PaceError::CustomSource),
        Source::Book(b) => {
            let crs = match glob.course_by_sym(b.sym.as_str()) {
                Some(c) => c,
                None => {
                    return Err(PaceError::NoCourse(b.sym));
                },
            };
            let chp = match crs.chapter(b.seq) {
                Some(ch) => ch,
                None => {
                    return Err(PaceError::NoChapter(b.sym, b.seq));
                },
            };
            let crs_wgt = match crs.weight {
                Some(w) => w,
                None => {
                    return Err(PaceError::Unweighted(b.sym));
                },
            };
            if crs_wgt < MIN_COURSE_WEIGHT {
                return Err(PaceError::TooLight(b.sym));
            }
            proof {
                let ci = course_index(glob.courses@, b.sym@).unwrap();
                assert(glob.courses@[ci].wf());
                let k = chapter_index(crs.chapters@, b.seq).unwrap();
                crate::course::lemma_chapter_index(crs.chapters@, b.seq);
                lemma_total_weight_covers(crs.chapters@, k);
                lemma_share_bounded(chp.weight, crs_wgt);
            }
            let weight: u64 = (chp.weight as u64 * UNIT as u64) / crs_wgt;
            Ok(
                Goal {
                    id,
                    uname,
                    source: Source::Book(BookCh { sym: b.sym, seq: b.seq, level: crs.level }),
                    review,
                    incomplete,
                    due,
                    done,
                    tries,
                    weight: weight as u32,
                    score,
                },
            )
        },
    }
}

/// Every goal of the list affirmed, or the reason why the first one that
/// cannot be is refused.
pub open spec fn affirm_all(goals: Seq<Goal>, glob: Glob) -> Result<Seq<Goal>, PaceError>
    decreases goals.len(),
{
    if goals.len() == 0 {
        Ok(Seq::empty())
    } else {
        match affirm_all(goals.drop_last(), glob) {
            Err(e) => Err(e),
            Ok(gs) => match affirmed(goals.last(), glob) {
                Err(e) => Err(e),
                Ok(g) => Ok(gs.push(g)),
            },
        }
    }
}

/// The weights of the goals of which `p` holds, added up.
pub open spec fn weight_where(goals: Seq<Goal>, p: spec_fn(Goal) -> bool) -> int
    decreases goals.len(),
{
    if goals.len() == 0 {
        0
    } else {
        weight_where(goals.drop_last(), p) + if p(goals.last()) {
            goals.last().weight as int
        } else {
            0
        }
    }
}

/// Any goal at all.
pub open spec fn any_goal() -> spec_fn(Goal) -> bool {
    |g: Goal| true
}

/// The weights of all the goals, added up.
pub open spec fn weight_sum(goals: Seq<Goal>) -> int {
    weight_where(goals, any_goal())
}

/// The goal was due before `today`.
pub open spec fn due_by(today: Date) -> spec_fn(Goal) -> bool {
    |g: Goal|
        match g.due {
            Some(d) => d.earlier(today),
            None => false,
        }
}

/// The goal was completed before `today`.
pub open spec fn done_by(today: Date) -> spec_fn(Goal) -> bool {
    |g: Goal|
        match g.done {
            Some(d) => d.earlier(today),
            None => false,
        }
}

/// The goal is not completed.
pub open spec fn undone() -> spec_fn(Goal) -> bool {
    |g: Goal| g.done is None
}

/// The goals of which `p` holds weigh no more than all of them, and the first
/// `k` goals no more than the whole list.
pub proof fn lemma_weight_where_bounds(goals: Seq<Goal>, p: spec_fn(Goal) -> bool, k: int)
    requires
        0 <= k <= goals.len(),
    ensures
        0 <= weight_where(goals.take(k), p) <= weight_where(goals, p) <= weight_sum(goals),
    decreases goals.len(),
{
    if goals.len() == 0 {
        assert(goals.take(k) =~= goals);
    } else {
        let t = goals.drop_last();
        if k == goals.len() {
            assert(goals.take(k) =~= goals);
            lemma_weight_where_bounds(t, p, k - 1);
        } else {
            lemma_weight_where_bounds(t, p, k);
            assert(t.take(k) =~= goals.take(k));
        }
    }
}

/// Halves round away from nothing: the whole number nearest to `n / d`.
pub open spec fn round_div(n: int, d: int) -> int
    recommends
        d > 0,
{
    if n >= 0 {
        (2 * n + d) / (2 * d)
    } else {
        -((-2 * n + d) / (2 * d))
    }
}

/// The least total weight, in millionths, for which a lag is worked out.
pub const MIN_PACE_WEIGHT: u64 = 1000;

/// How far ahead (above nothing) or behind (below) a student is: the weight
/// completed less the weight due, as a rounded percentage of all the weight.
pub open spec fn lag_of(done_weight: int, due_weight: int, total_weight: int) -> int {
    if total_weight < MIN_PACE_WEIGHT as int {
        0
    } else {
        round_div(100 * (done_weight - due_weight), total_weight)
    }
}

/// A student's goals in order, with what they weigh.
#[derive(Debug)]
pub struct Pace {
    pub student: Student,
    pub teacher: Teacher,
    pub goals: Vec<Goal>,
    pub total_weight: u64,
    pub due_weight: u64,
    pub done_weight: u64,
}

/// Whether the goals make a pace calendar: each is affirmed, and their
/// weights can be added up.
pub open spec fn can_pace(goals: Seq<Goal>, glob: Glob) -> bool {
    match affirm_all(goals, glob) {
        Ok(gs) => weight_sum(sorted_of(gs)) <= u64::MAX,
        Err(_) => false,
    }
}

/// `p` is the pace calendar of `student` with these goals on the day `today`.
pub open spec fn is_pace_of(
    p: Pace,
    student: Student,
    teacher: Teacher,
    goals: Seq<Goal>,
    glob: Glob,
    today: Date,
) -> bool {
    &&& p.student == student
    &&& p.teacher == teacher
    &&& affirm_all(goals, glob) is Ok
    &&& p.goals@ == sorted_of(affirm_all(goals, glob)->Ok_0)
    &&& is_ordered(p.goals@)
    &&& p.total_weight == weight_sum(p.goals@)
    &&& p.due_weight == weight_where(p.goals@, due_by(today))
    &&& p.done_weight == weight_where(p.goals@, done_by(today))
    &&& p.wf()
}

/// The weight of all the goals, where it can be counted.
pub fn total_weight_of(goals: &Vec<Goal>) -> (r: Option<u64>)
    ensures
        r == if weight_sum(goals@) <= u64::MAX {
            Some(weight_sum(goals@) as u64)
        } else {
            None::<u64>
        },
        r matches Some(w) ==> w == weight_sum(goals@),
{
    let anyday = Date { year: 0, month: 1, day: 1 };
    proof {
        lemma_weight_where_bounds(goals@, any_goal(), 0);
    }
    tally(goals, &anyday, 0)
}

/// The weight of the goals that were due before `today`, where it can be counted.
pub fn due_weight_of(goals: &Vec<Goal>, today: &Date) -> (r: Option<u64>)
    ensures
        r == if weight_where(goals@, due_by(*today)) <= u64::MAX {
            Some(weight_where(goals@, due_by(*today)) as u64)
        } else {
            None::<u64>
        },
        r matches Some(w) ==> w == weight_where(goals@, due_by(*today)),
{
    proof {
        lemma_weight_where_bounds(goals@, due_by(*today), 0);
    }
    tally(goals, today, 1)
}

/// The weight of the goals that were completed before `today`, where it can
/// be counted.
pub fn done_weight_of(goals: &Vec<Goal>, today: &Date) -> (r: Option<u64>)
    ensures
        r == if weight_where(goals@, done_by(*today)) <= u64::MAX {
            Some(weight_where(goals@, done_by(*today)) as u64)
        } else {
            None::<u64>
        },
        r matches Some(w) ==> w == weight_where(goals@, done_by(*today)),
{
    proof {
        lemma_weight_where_bounds(goals@, done_by(*today), 0);
    }
    tally(goals, today, 2)
}

/// The weight of all the goals (`which` is 0), of those due before `today`
/// (1) or of those completed before `today` (2), where it can be counted.
fn tally(goals: &Vec<Goal>, today: &Date, which: u8) -> (r: Option<u64>)
    requires
        which < 3,
    ensures
        ({
            let p = if which == 0 {
                any_goal()
            } else if which == 1 {
                due_by(*today)
            } else {
                done_by(*today)
            };
            r == if weight_where(goals@, p) <= u64::MAX {
                Some(weight_where(goals@, p) as u64)
            } else {
                None::<u64>
            }
        }),
{
    let ghost p = if which == 0 {
        any_goal()
    } else if which == 1 {
        due_by(*today)
    } else {
        done_by(*today)
    };
    let n = goals.len();
    let mut sum: u64 = 0;
    let mut i: usize = 0;
    assert(goals@.take(0) =~= Seq::<Goal>::empty());
    while i < n
        invariant
            i <= n == goals@.len(),
            which < 3,
            p == if which == 0 {
                any_goal()
            } else if which == 1 {
                due_by(*today)
            } else {
                done_by(*today)
            },
            sum == weight_where(goals@.take(i as int), p),
        decreases n - i,
    {
        let g = &goals[i];
        let counts = if which == 0 {
            true
        } else if which == 1 {
            match &g.due {
                Some(d) => d.is_earlier(today),
                None => false,
            }
        } else {
            match &g.done {
                Some(d) => d.is_earlier(today),
                None => false,
            }
        };
        proof {
            assert(goals@.take(i + 1).drop_last() =~= goals@.take(i as int));
            assert(goals@.take(i + 1).last() == goals@[i as int]);
            assert(counts == p(goals@[i as int]));
            lemma_weight_where_bounds(goals@, p, i + 1);
        }
        if counts {
            match sum.checked_add(g.weight as u64) {
                Some(s) => {
                    sum = s;
                },
                None => {
                    return None;
                },
            }
        }
        i += 1;
    }
    assert(goals@.take(n as int) =~= goals@);
    Some(sum)
}

impl Pace {
    /// The weights recorded are those of the goals: all of them, and no more
    /// of them due or completed than there are.
    pub open spec fn wf(&self) -> bool {
        &&& self.total_weight == weight_sum(self.goals@)
        &&& self.due_weight <= self.total_weight
        &&& self.done_weight <= self.total_weight
    }

    /// The pace calendar of `student` on the day `today`: the goals affirmed
    /// against the working set and put in order, and the weight of all of
    /// them, of those due before today and of those completed before today.
    pub fn new(student: Student, teacher: Teacher, goals: Vec<Goal>, glob: &Glob, today: &Date) -> (r:
        Result<Pace, PaceError>)
        requires
            glob.cache_wf(),
        ensures
            match r {
                Ok(p) => can_pace(goals@, *glob) && is_pace_of(
                    p,
                    student,
                    teacher,
                    goals@,
                    *glob,
                    *today,
                ),
                Err(e) => !can_pace(goals@, *glob) && match affirm_all(goals@, *glob) {
                    Err(f) => e == f,
                    Ok(gs) => e == PaceError::TooHeavy,
                },
            },
    {
        let n = goals.len();
        let mut ready: Vec<Goal> = Vec::new();
        let mut i: usize = 0;
        assert(goals@.take(0) =~= Seq::<Goal>::empty());
        while i < n
            invariant
                i <= n == goals@.len(),
                glob.cache_wf(),
                affirm_all(goals@.take(i as int), *glob) == Ok::<Seq<Goal>, PaceError>(ready@),
            decreases n - i,
        {
            proof {
                assert(goals@.take(i + 1).drop_last() =~= goals@.take(i as int));
                assert(goals@.take(i + 1).last() == goals@[i as int]);
            }
            match affirm_goal(goals[i].clone(), glob) {
                Ok(g) => {
                    ready.push(g);
                },
                Err(e) => {
                    proof {
                        lemma_affirm_all_fails(goals@, *glob, i + 1);
                    }
                    return Err(e);
                },
            }
            i += 1;
        }
        assert(goals@.take(n as int) =~= goals@);
        let ghost affirmed_goals = ready@;
        sort(&mut ready);
        proof {
            lemma_sorted_of_ordered(affirmed_goals);
        }
        let total_weight = match total_weight_of(&ready) {
            Some(w) => w,
            None => {
                return Err(PaceError::TooHeavy);
            },
        };
        proof {
            lemma_weight_where_bounds(ready@, due_by(*today), ready@.len() as int);
            lemma_weight_where_bounds(ready@, done_by(*today), ready@.len() as int);
        }
        let due_weight = match due_weight_of(&ready, today) {
            Some(w) => w,
            None => {
                return Err(PaceError::TooHeavy);
            },
        };
        let done_weight = match done_weight_of(&ready, today) {
            Some(w) => w,
            None => {
                return Err(PaceError::TooHeavy);
            },
        };
        Ok(Pace { student, teacher, goals: ready, total_weight, due_weight, done_weight })
    }

    /// How far ahead or behind the student is, as a percentage.
    pub fn lag(&self) -> (r: i32)
        requires
            self.wf(),
        ensures
            r == lag_of(self.done_weight as int, self.due_weight as int, self.total_weight as int),
            -100 <= r <= 100,
    {
        if self.total_weight < MIN_PACE_WEIGHT {
            return 0;
        }
        let total: i128 = self.total_weight as i128;
        let n: i128 = 100 * (self.done_weight as i128 - self.due_weight as i128);
        if n >= 0 {
            let q = (2 * n + total) / (2 * total);
            assert(q <= 100) by (nonlinear_arith)
                requires
                    q == (2 * n + total) / (2 * total),
                    0 <= n <= 100 * total,
                    total > 0,
            ;
            assert(q >= 0) by (nonlinear_arith)
                requires
                    q == (2 * n + total) / (2 * total),
                    0 <= n,
                    total > 0,
            ;
            q as i32
        } else {
            let m = -n;
            let q = (2 * m + total) / (2 * total);
            assert(q <= 100) by (nonlinear_arith)
                requires
                    q == (2 * m + total) / (2 * total),
                    0 <= m <= 100 * total,
                    total > 0,
            ;
            assert(q >= 0) by (nonlinear_arith)
                requires
                    q == (2 * m + total) / (2 * total),
                    0 <= m,
                    total > 0,
            ;
            (-q) as i32
        }
    }
}

/// Two pace calendars worked out from the same goals hold them in the same
/// order and weigh them the same.
pub proof fn lemma_pace_order_determined(
    a: Pace,
    b: Pace,
    student: Student,
    teacher: Teacher,
    goals: Seq<Goal>,
    glob: Glob,
    today: Date,
)
    requires
        is_pace_of(a, student, teacher, goals, glob, today),
        is_pace_of(b, student, teacher, goals, glob, today),
    ensures
        a.goals@ == b.goals@,
        a.total_weight == b.total_weight,
        a.due_weight == b.due_weight,
        a.done_weight == b.done_weight,
        a.student == b.student,
        a.teacher == b.teacher,
{
}

/// Once a goal among the first `k` is refused, the whole list is, for the
/// same reason.
pub proof fn lemma_affirm_all_fails(goals: Seq<Goal>, glob: Glob, k: int)
    requires
        0 <= k <= goals.len(),
        affirm_all(goals.take(k), glob) is Err,
    ensures
        affirm_all(goals, glob) == affirm_all(goals.take(k), glob),
    decreases goals.len() - k,
{
    if k == goals.len() {
        assert(goals.take(k) =~= goals);
    } else {
        assert(goals.take(k + 1).drop_last() =~= goals.take(k));
        lemma_affirm_all_fails(goals, glob, k + 1);
    }
}

} // verus!
