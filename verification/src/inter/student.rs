//! A student's own calendar: the counts at its head and the summary of each
//! semester.

use vstd::prelude::*;
use crate::config::{course_index, Glob};
use crate::course::{chapter_index, UNIT};
use crate::date::{julian_day, short_text, Date};
use crate::pace::{round_div, status_of, Goal, GoalStatus, Pace, Source};
use crate::score::{maybe_parse_score_str, maybe_score_of, ScoreError};
use crate::text::{decimal, decimal_string, opt_view};
use crate::user::Student;

verus! {

/// The two semesters of a school year.
#[derive(Clone, Copy, Debug, PartialEq, Eq, Structural)]
pub enum Sem {
    Fall,
    Spring,
}

impl Sem {
    pub fn name(&self) -> (r: &'static str)
        ensures
            r@ == match self {
                Sem::Fall => "Fall"@,
                Sem::Spring => "Spring"@,
            },
    {
        match self {
            Sem::Fall => "Fall",
            Sem::Spring => "Spring",
        }
    }
}

/// The semester in which a day lies: the fall before the day named
/// `end-fall`, the spring from then on.
pub open spec fn sem_of(d: Date, end_fall: Date) -> Sem {
    if d.earlier(end_fall) {
        Sem::Fall
    } else {
        Sem::Spring
    }
}

/// What a semester's completed goals come to.
#[derive(Clone, Copy, Debug, PartialEq, Eq, Structural)]
pub struct Term {
    /// How many goals were completed in the semester.
    pub done: usize,
    /// Their scores, in millionths, added up.
    pub score_sum: u128,
    /// A goal due in the semester is not completed.
    pub unfinished: bool,
    /// The last goal completed in the semester, in the calendar's order.
    pub last_id: Option<i64>,
}

impl Term {
    /// No score is more than the whole.
    pub open spec fn wf(&self) -> bool {
        self.score_sum <= self.done * UNIT
    }
}

/// What stands at the head of a student's calendar, and the two semesters.
#[derive(Clone, Copy, Debug, PartialEq, Eq, Structural)]
pub struct Report {
    /// How many goals are completed.
    pub n_done: usize,
    /// How many goals were due before today.
    pub n_due: usize,
    /// How many goals have a due date.
    pub n_scheduled: usize,
    pub fall: Term,
    pub spring: Term,
    /// Some goal is marked for review.
    pub review_note: bool,
    /// Some goal is marked incomplete from the year before.
    pub incomplete_note: bool,
}

/// Why no report could be made. Each names the goal by its `id`.
#[derive(Clone, Copy, Debug, PartialEq, Eq, Structural)]
pub enum ReportError {
    /// The goal's score is no score.
    BadScore(i64, ScoreError),
    /// The goal is completed and has no score.
    NoScore(i64),
}

/// A term with one more goal in it.
pub open spec fn term_with(t: Term, g: Goal, score: Option<int>, end_fall: Date, sem: Sem) -> Term {
    let unfinished = t.unfinished || match (g.due, g.done) {
        (Some(d), None) => sem_of(d, end_fall) == sem,
        _ => false,
    };
    match (g.done, score) {
        (Some(d), Some(s)) => if sem_of(d, end_fall) == sem {
            Term {
                done: (t.done + 1) as usize,
                score_sum: (t.score_sum + s) as u128,
                unfinished,
                last_id: Some(g.id),
            }
        } else {
            Term { done: t.done, score_sum: t.score_sum, unfinished, last_id: t.last_id }
        },
        _ => Term { done: t.done, score_sum: t.score_sum, unfinished, last_id: t.last_id },
    }
}

/// A report with one more goal in it, or the reason why the goal cannot be counted.
pub open spec fn report_with(r: Report, g: Goal, today: Date, end_fall: Date) -> Result<
    Report,
    ReportError,
> {
    let score = if g.done is Some {
        maybe_score_of(opt_view(g.score))
    } else {
        Ok(None)
    };
    match score {
        Err(e) => Err(ReportError::BadScore(g.id, e)),
        Ok(s) => if g.done is Some && s is None {
            Err(ReportError::NoScore(g.id))
        } else {
            Ok(
                Report {
                    n_done: (r.n_done + if g.done is Some {
                        1int
                    } else {
                        0int
                    }) as usize,
                    n_due: (r.n_due + if g.due is Some && (g.due->0).earlier(today) {
                        1int
                    } else {
                        0int
                    }) as usize,
                    n_scheduled: (r.n_scheduled + if g.due is Some {
                        1int
                    } else {
                        0int
                    }) as usize,
                    fall: term_with(r.fall, g, s, end_fall, Sem::Fall),
                    spring: term_with(r.spring, g, s, end_fall, Sem::Spring),
                    review_note: r.review_note || g.review,
                    incomplete_note: r.incomplete_note || g.incomplete,
                },
            )
        },
    }
}

/// The report on no goals.
pub open spec fn empty_report() -> Report {
    let none = Term { done: 0, score_sum: 0, unfinished: false, last_id: None };
    Report {
        n_done: 0,
        n_due: 0,
        n_scheduled: 0,
        fall: none,
        spring: none,
        review_note: false,
        incomplete_note: false,
    }
}

/// The report on `goals`, taken in order; the first goal that cannot be
/// counted decides the error.
pub open spec fn report_of(goals: Seq<Goal>, today: Date, end_fall: Date) -> Result<
    Report,
    ReportError,
>
    decreases goals.len(),
{
    if goals.len() == 0 {
        Ok(empty_report())
    } else {
        match report_of(goals.drop_last(), today, end_fall) {
            Err(e) => Err(e),
            Ok(r) => report_with(r, goals.last(), today, end_fall),
        }
    }
}

/// Once the first `k` goals cannot be reported on, the whole list cannot, for
/// the same reason.
pub proof fn lemma_report_fails(goals: Seq<Goal>, today: Date, end_fall: Date, k: int)
    requires
        0 <= k <= goals.len(),
        report_of(goals.take(k), today, end_fall) is Err,
    ensures
        report_of(goals, today, end_fall) == report_of(goals.take(k), today, end_fall),
    decreases goals.len() - k,
{
    if k == goals.len() {
        assert(goals.take(k) =~= goals);
    } else {
        assert(goals.take(k + 1).drop_last() =~= goals.take(k));
        lemma_report_fails(goals, today, end_fall, k + 1);
    }
}

/// A report counts no more goals than there are, and no score above the whole.
pub open spec fn report_within(r: Report, n: int) -> bool {
    &&& r.n_done <= n
    &&& r.n_due <= n
    &&& r.n_scheduled <= n
    &&& r.fall.done + r.spring.done <= n
    &&& r.fall.wf()
    &&& r.spring.wf()
}

/// What the summary of a semester shows, in whole percent.
#[derive(Clone, Copy, Debug, PartialEq, Eq, Structural)]
pub struct Summary {
    /// The mean of the scores of the goals completed in the semester.
    pub test_average: i32,
    /// A goal due in the semester is not completed.
    pub unfinished: bool,
    /// The exam's score, if the exam is recorded.
    pub exam: Option<i32>,
    /// The points taken off for notices; shown where there are any.
    pub notices: i16,
    /// The semester grade, where the exam is recorded.
    pub grade: Option<i32>,
}

/// The semester grade in percent, before rounding, as a fraction
/// `numerator / denominator`: a hundred times the exam's share of the exam
/// score plus the rest's share of the mean of the tests, less the notices.
pub open spec fn grade_numerator(
    exam_fraction: int,
    exam: int,
    score_sum: int,
    done: int,
    notices: int,
) -> int {
    let u = UNIT as int;
    100 * (exam_fraction * exam * done + (u - exam_fraction) * score_sum) - notices * u * u * done
}

pub open spec fn grade_denominator(done: int) -> int {
    (UNIT as int) * (UNIT as int) * done
}

/// The summary of a semester in which `term.done` goals were completed, for
/// a student with this exam score.
pub open spec fn summary_with(term: Term, exam: Option<int>, exam_fraction: int, notices: int) -> Summary {
    let test_average = round_div(100 * term.score_sum as int, UNIT as int * term.done as int);
    match exam {
        None => Summary {
            test_average: test_average as i32,
            unfinished: term.unfinished,
            exam: None,
            notices: notices as i16,
            grade: None,
        },
        Some(e) => Summary {
            test_average: test_average as i32,
            unfinished: term.unfinished,
            exam: Some(round_div(100 * e, UNIT as int) as i32),
            notices: notices as i16,
            grade: Some(
                round_div(
                    grade_numerator(
                        exam_fraction,
                        e,
                        term.score_sum as int,
                        term.done as int,
                        if notices > 0 {
                            notices
                        } else {
                            0
                        },
                    ),
                    grade_denominator(term.done as int),
                ) as i32,
            ),
        },
    }
}

/// The summary of a semester for a student: none where no goal was completed in it.
pub open spec fn summary_of(term: Term, s: Student, sem: Sem) -> Result<Option<Summary>, ScoreError> {
    let exam_text = match sem {
        Sem::Fall => s.fall_exam,
        Sem::Spring => s.spring_exam,
    };
    let exam_fraction = match sem {
        Sem::Fall => s.fall_exam_fraction,
        Sem::Spring => s.spring_exam_fraction,
    };
    let notices = match sem {
        Sem::Fall => s.fall_notices,
        Sem::Spring => s.spring_notices,
    };
    if term.done == 0 {
        Ok(None)
    } else {
        match maybe_score_of(opt_view(exam_text)) {
            Err(e) => Err(e),
            Ok(exam) => Ok(Some(summary_with(term, exam, exam_fraction as int, notices as int))),
        }
    }
}

/// The whole number nearest to `n / d`, halves rounded away from nothing.
fn rounded(n: i128, d: i128) -> (r: i128)
    requires
        d > 0,
        -0x2000_0000_0000_0000_0000_0000_0000_0000 <= n <= 0x2000_0000_0000_0000_0000_0000_0000_0000,
        d <= 0x2000_0000_0000_0000_0000_0000_0000_0000,
    ensures
        r == round_div(n as int, d as int),
        n >= 0 ==> 0 <= r <= n + 1,
        n < 0 ==> n - 1 <= r <= 0,
{
    if n >= 0 {
        let q = (2 * n + d) / (2 * d);
        assert(0 <= q <= n + 1) by (nonlinear_arith)
            requires
                q == (2 * n + d) / (2 * d),
                n >= 0,
                d > 0,
        ;
        q
    } else {
        let m = -n;
        let q = (2 * m + d) / (2 * d);
        assert(0 <= q <= m + 1) by (nonlinear_arith)
            requires
                q == (2 * m + d) / (2 * d),
                m >= 0,
                d > 0,
        ;
        -q
    }
}

/// Counts one goal into a term.
fn add_to_term(t: Term, g: &Goal, score: Option<u32>, end_fall: &Date, sem: Sem) -> (r: Term)
    requires
        t.wf(),
        t.done < usize::MAX,
        score matches Some(s) ==> s <= UNIT,
    ensures
        r == term_with(
            t,
            *g,
            match score {
                Some(s) => Some(s as int),
                None => None,
            },
            *end_fall,
            sem,
        ),
        r.wf(),
        r.done == t.done || (r.done == t.done + 1 && g.done is Some && sem_of(
            g.done->0,
            *end_fall,
        ) == sem),
{
    let in_fall = match sem {
        Sem::Fall => true,
        Sem::Spring => false,
    };
    let mut r = t;
    match (&g.due, &g.done) {
        (Some(d), None) => {
            if d.is_earlier(end_fall) == in_fall {
                r.unfinished = true;
            }
        },
        _ => {},
    }
    match (&g.done, score) {
        (Some(d), Some(s)) => {
            if d.is_earlier(end_fall) == in_fall {
                assert(UNIT * (t.done + 1) == UNIT * t.done + UNIT) by (nonlinear_arith);
                assert(t.done * UNIT <= 0xffff_ffff_ffff_ffff * 0x10_0000) by (nonlinear_arith)
                    requires
                        t.done <= 0xffff_ffff_ffff_ffff,
                        UNIT <= 0x10_0000,
                ;
                r.score_sum = r.score_sum + s as u128;
                r.done = r.done + 1;
                r.last_id = Some(g.id);
            }
        },
        _ => {},
    }
    r
}

/// Counts one goal into a report.
fn add_to_report(rep: Report, g: &Goal, today: &Date, end_fall: &Date, Ghost(n): Ghost<int>) -> (r:
    Result<Report, ReportError>)
    requires
        report_within(rep, n),
        n < usize::MAX,
    ensures
        r == report_with(rep, *g, *today, *end_fall),
        r matches Ok(next) ==> report_within(next, n + 1),
{
    let mut score: Option<u32> = None;
    if g.done.is_some() {
        let text: Option<&str> = match &g.score {
            Some(s) => Some(s.as_str()),
            None => None,
        };
        match maybe_parse_score_str(text) {
            Err(e) => {
                return Err(ReportError::BadScore(g.id, e));
            },
            Ok(None) => {
                return Err(ReportError::NoScore(g.id));
            },
            Ok(Some(s)) => {
                score = Some(s);
            },
        }
    }
    let fall = add_to_term(rep.fall, g, score, end_fall, Sem::Fall);
    let spring = add_to_term(rep.spring, g, score, end_fall, Sem::Spring);
    let due_before = match &g.due {
        Some(d) => d.is_earlier(today),
        None => false,
    };
    Ok(
        Report {
            n_done: if g.done.is_some() {
                rep.n_done + 1
            } else {
                rep.n_done
            },
            n_due: if due_before {
                rep.n_due + 1
            } else {
                rep.n_due
            },
            n_scheduled: if g.due.is_some() {
                rep.n_scheduled + 1
            } else {
                rep.n_scheduled
            },
            fall,
            spring,
            review_note: rep.review_note || g.review,
            incomplete_note: rep.incomplete_note || g.incomplete,
        },
    )
}

impl Pace {
    /// Goes through the goals once, in order, and counts: the goals completed,
    /// due and scheduled, and for each semester the goals completed in it
    /// with their scores. A completed goal needs a score that can be read.
    pub fn report(&self, today: &Date, end_fall: &Date) -> (r: Result<Report, ReportError>)
        ensures
            r == report_of(self.goals@, *today, *end_fall),
            r matches Ok(rep) ==> report_within(rep, self.goals@.len() as int),
    {
        let n = self.goals.len();
        let mut rep = Report {
            n_done: 0,
            n_due: 0,
            n_scheduled: 0,
            fall: Term { done: 0, score_sum: 0, unfinished: false, last_id: None },
            spring: Term { done: 0, score_sum: 0, unfinished: false, last_id: None },
            review_note: false,
            incomplete_note: false,
        };
        let mut i: usize = 0;
        assert(self.goals@.take(0) =~= Seq::<Goal>::empty());
        while i < n
            invariant
                i <= n == self.goals@.len(),
                report_of(self.goals@.take(i as int), *today, *end_fall) == Ok::<
                    Report,
                    ReportError,
                >(rep),
                report_within(rep, i as int),
            decreases n - i,
        {
            proof {
                assert(self.goals@.take(i + 1).drop_last() =~= self.goals@.take(i as int));
                assert(self.goals@.take(i + 1).last() == self.goals@[i as int]);
            }
            match add_to_report(rep, &self.goals[i], today, end_fall, Ghost(i as int)) {
                Ok(next) => {
                    rep = next;
                },
                Err(e) => {
                    proof {
                        lemma_report_fails(self.goals@, *today, *end_fall, i + 1);
                    }
                    return Err(e);
                },
            }
            i += 1;
        }
        assert(self.goals@.take(n as int) =~= self.goals@);
        Ok(rep)
    }
}

/// The summary of a semester: the mean of the tests and, where the exam is
/// recorded, the exam and the semester grade, in whole percent. None where no
/// goal was completed in the semester.
pub fn summary(term: &Term, s: &Student, sem: Sem) -> (r: Result<Option<Summary>, ScoreError>)
    requires
        term.wf(),
        s.wf(),
    ensures
        r == summary_of(*term, *s, sem),
{
    if term.done == 0 {
        return Ok(None);
    }
    let exam_text: Option<&str> = match sem {
        Sem::Fall => match &s.fall_exam {
            Some(t) => Some(t.as_str()),
            None => None,
        },
        Sem::Spring => match &s.spring_exam {
            Some(t) => Some(t.as_str()),
            None => None,
        },
    };
    let exam_fraction: u32 = match sem {
        Sem::Fall => s.fall_exam_fraction,
        Sem::Spring => s.spring_exam_fraction,
    };
    let notices: i16 = match sem {
        Sem::Fall => s.fall_notices,
        Sem::Spring => s.spring_notices,
    };
    let exam = match maybe_parse_score_str(exam_text) {
        Err(e) => {
            return Err(e);
        },
        Ok(x) => x,
    };
    let u: i128 = UNIT as i128;
    let done: i128 = term.done as i128;
    let sum: i128 = term.score_sum as i128;
    assert(u * done <= 0x10_0000 * 0xffff_ffff_ffff_ffff) by (nonlinear_arith)
        requires
            0 < u <= 0x10_0000,
            0 < done <= 0xffff_ffff_ffff_ffff,
    ;
    assert(u * done > 0) by (nonlinear_arith)
        requires
            0 < u,
            0 < done,
    ;
    let average = rounded(100 * sum, u * done);
    assert(average <= 100) by (nonlinear_arith)
        requires
            average == round_div(100 * sum as int, (u * done) as int),
            0 <= sum <= u * done,
            u * done > 0,
    ;
    match exam {
        None => Ok(
            Some(
                Summary {
                    test_average: average as i32,
                    unfinished: term.unfinished,
                    exam: None,
                    notices,
                    grade: None,
                },
            ),
        ),
        Some(e) => {
            let e: i128 = e as i128;
            let f: i128 = exam_fraction as i128;
            let off: i128 = if notices > 0 {
                notices as i128
            } else {
                0
            };
            let exam_pct = rounded(100 * e, u);
            assert(exam_pct <= 100) by (nonlinear_arith)
                requires
                    exam_pct == round_div(100 * e as int, u as int),
                    0 <= e <= u,
                    u > 0,
            ;
            assert(0 <= f * e <= 0x10_0000 * 0x10_0000) by (nonlinear_arith)
                requires
                    0 <= f <= 0x10_0000,
                    0 <= e <= 0x10_0000,
            ;
            assert(0 <= (f * e) * done <= 0x10_0000 * 0x10_0000 * 0xffff_ffff_ffff_ffff)
                by (nonlinear_arith)
                requires
                    0 <= f * e <= 0x10_0000 * 0x10_0000,
                    0 <= done <= 0xffff_ffff_ffff_ffff,
            ;
            assert(0 <= (u - f) * sum <= 0x10_0000 * (0x10_0000 * 0xffff_ffff_ffff_ffff))
                by (nonlinear_arith)
                requires
                    0 <= u - f <= 0x10_0000,
                    0 <= sum <= 0x10_0000 * 0xffff_ffff_ffff_ffff,
            ;
            assert(u * u == 1_000_000_000_000);
            assert(0 <= (off * (u * u)) * done <= 0x8000 * 1_000_000_000_000 * 0xffff_ffff_ffff_ffff)
                by (nonlinear_arith)
                requires
                    0 <= off <= 0x8000,
                    u * u == 1_000_000_000_000,
                    0 <= done <= 0xffff_ffff_ffff_ffff,
            ;
            assert(0 < (u * u) * done <= 1_000_000_000_000 * 0xffff_ffff_ffff_ffff) by (nonlinear_arith)
                requires
                    u * u == 1_000_000_000_000,
                    0 < done <= 0xffff_ffff_ffff_ffff,
            ;
            let gain: i128 = 100 * ((f * e) * done + (u - f) * sum);
            let loss: i128 = (off * (u * u)) * done;
            let den: i128 = (u * u) * done;
            assert(gain - loss == grade_numerator(
                f as int,
                e as int,
                sum as int,
                done as int,
                off as int,
            )) by (nonlinear_arith)
                requires
                    gain == 100 * ((f * e) * done + (u - f) * sum),
                    loss == (off * (u * u)) * done,
                    u == UNIT as int,
            ;
            assert(den == grade_denominator(done as int)) by (nonlinear_arith)
                requires
                    den == (u * u) * done,
                    u == UNIT as int,
            ;
            let grade = rounded(gain - loss, den);
            // At most a hundred percent, and at least the notices below nothing.
            assert(gain <= 100 * den) by (nonlinear_arith)
                requires
                    gain == 100 * ((f * e) * done + (u - f) * sum),
                    den == (u * u) * done,
                    0 <= f <= u,
                    0 <= e <= u,
                    0 <= sum <= u * done,
                    done > 0,
                    u > 0,
            ;
            assert(loss <= 0x8000 * den) by (nonlinear_arith)
                requires
                    loss == (off * (u * u)) * done,
                    den == (u * u) * done,
                    0 <= off <= 0x8000,
                    den > 0,
            ;
            assert(-0x8001 <= grade <= 101) by (nonlinear_arith)
                requires
                    grade == round_div((gain - loss) as int, den as int),
                    0 <= gain <= 100 * den,
                    0 <= loss <= 0x8000 * den,
                    den > 0,
            ;
            Ok(
                Some(
                    Summary {
                        test_average: average as i32,
                        unfinished: term.unfinished,
                        exam: Some(exam_pct as i32),
                        notices,
                        grade: Some(grade as i32),
                    },
                ),
            )
        },
    }
}

/// Why a goal cannot be shown as a row of a calendar.
#[derive(Clone, Copy, Debug, PartialEq, Eq, Structural)]
pub enum RowError {
    /// The goal is not a chapter of a book.
    CustomSource,
    /// No course has the goal's symbol.
    NoCourse,
    /// The course has no chapter of the goal's number.
    NoChapter,
    /// The due date, the day of completion or today is no day that exists.
    BadDate,
    /// The goal's score is no score.
    BadScore(ScoreError),
}

/// A goal as a row of a student's calendar.
#[derive(Debug)]
pub struct GoalRow {
    pub course: String,
    pub book: String,
    pub chapter: String,
    pub subject: String,
    /// The marks for review and incomplete.
    pub ri: &'static str,
    pub due: Option<Date>,
    /// The due date in short, or nothing.
    pub due_short: String,
    /// How far off the due date is.
    pub due_from: String,
    pub done: Option<Date>,
    /// The day of completion in short, or nothing.
    pub done_short: String,
    /// How early or late the goal was completed.
    pub done_from: String,
    pub tries: i16,
    /// The score in whole percent.
    pub score: Option<u32>,
    /// The name of the goal's status, by which the row is styled.
    pub goal_class: &'static str,
}

/// The marks that a row shows for review and incomplete.
pub open spec fn marks(review: bool, incomplete: bool) -> Seq<char> {
    if review && incomplete {
        " R* I*"@
    } else if review {
        " R*"@
    } else if incomplete {
        " I*"@
    } else {
        ""@
    }
}

/// How far off a day is that lies `delta` days ahead.
pub open spec fn due_words(delta: int) -> Seq<char> {
    if delta > 0 {
        "in "@ + decimal(delta as nat) + " days"@
    } else if delta < 0 {
        decimal((-delta) as nat) + " days ago"@
    } else {
        "today"@
    }
}

/// How early a goal was completed that was completed `delta` days before it
/// was due.
pub open spec fn done_words(delta: int) -> Seq<char> {
    if delta > 0 {
        decimal(delta as nat) + " days early"@
    } else if delta < 0 {
        decimal((-delta) as nat) + " days late"@
    } else {
        "on time"@
    }
}

/// The name of a status.
pub open spec fn class_name(status: GoalStatus) -> Seq<char> {
    match status {
        GoalStatus::Done => "done"@,
        GoalStatus::Late => "late"@,
        GoalStatus::Overdue => "overdue"@,
        GoalStatus::Yet => "yet"@,
    }
}

/// A day in the short form of the calendars, or nothing where no day is set.
pub open spec fn short_day(d: Option<Date>) -> Seq<char> {
    match d {
        Some(x) => short_text(x),
        None => ""@,
    }
}

/// Writes a day in the short form of the calendars.
pub fn short_day_text(d: &Option<Date>) -> (r: String)
    requires
        day_exists(*d),
    ensures
        r@ == short_day(*d),
{
    match d {
        Some(x) => x.to_short_string(),
        None => String::from_str(""),
    }
}

/// A day that is set exists.
pub open spec fn day_exists(d: Option<Date>) -> bool {
    match d {
        Some(x) => x.valid(),
        None => true,
    }
}

/// Why the goal cannot be shown, if it cannot.
pub open spec fn row_refusal(g: Goal, glob: Glob, today: Date) -> Option<RowError> {
    match g.source {
        Source::Custom(_) => Some(RowError::CustomSource),
        Source::Book(b) => match course_index(glob.courses@, b.sym@) {
            None => Some(RowError::NoCourse),
            Some(ci) => match chapter_index(glob.courses@[ci].chapters@, b.seq) {
                None => Some(RowError::NoChapter),
                Some(_) => if !(today.valid() && day_exists(g.due) && day_exists(g.done)) {
                    Some(RowError::BadDate)
                } else {
                    match maybe_score_of(opt_view(g.score)) {
                        Err(e) => Some(RowError::BadScore(e)),
                        Ok(_) => None,
                    }
                },
            },
        },
    }
}

/// `row` shows the goal `g` on the day `today`.
pub open spec fn is_row_of(row: GoalRow, g: Goal, glob: Glob, today: Date) -> bool {
    let b = g.source->Book_0;
    let crs = glob.courses@[course_index(glob.courses@, b.sym@)->0];
    let chp = crs.chapters@[chapter_index(crs.chapters@, b.seq)->0];
    &&& row.course == crs.title
    &&& row.book@ == match crs.book {
        Some(t) => t@,
        None => ""@,
    }
    &&& row.chapter == chp.title
    &&& row.subject@ == match chp.subject {
        Some(t) => t@,
        None => ""@,
    }
    &&& row.ri@ == marks(g.review, g.incomplete)
    &&& row.due == g.due
    &&& row.done == g.done
    &&& row.due_short@ == short_day(g.due)
    &&& row.done_short@ == short_day(g.done)
    &&& row.due_from@ == match g.due {
        Some(d) => due_words(julian_day(d) - julian_day(today)),
        None => ""@,
    }
    &&& row.done_from@ == match (g.due, g.done) {
        (Some(d), Some(n)) => done_words(julian_day(d) - julian_day(n)),
        _ => ""@,
    }
    &&& row.tries == g.tries
    &&& row.score == match maybe_score_of(opt_view(g.score))->Ok_0 {
        Some(s) => Some(round_div(100 * s, UNIT as int) as u32),
        None => None,
    }
    &&& row.goal_class@ == class_name(status_of(g.due, g.done, today))
}

fn due_text(delta: i64) -> (r: String)
    ensures
        r@ == due_words(delta as int),
{
    if delta > 0 {
        let mut s = String::from_str("in ");
        s.append(decimal_string(delta as u64).as_str());
        s.append(" days");
        s
    } else if delta < 0 {
        let m: u64 = if delta == i64::MIN {
            0x8000_0000_0000_0000
        } else {
            (-delta) as u64
        };
        let mut s = decimal_string(m);
        s.append(" days ago");
        s
    } else {
        String::from_str("today")
    }
}

fn done_text(delta: i64) -> (r: String)
    ensures
        r@ == done_words(delta as int),
{
    if delta > 0 {
        let mut s = decimal_string(delta as u64);
        s.append(" days early");
        s
    } else if delta < 0 {
        let m: u64 = if delta == i64::MIN {
            0x8000_0000_0000_0000
        } else {
            (-delta) as u64
        };
        let mut s = decimal_string(m);
        s.append(" days late");
        s
    } else {
        String::from_str("on time")
    }
}

/// Works out how a goal is shown in a student's calendar on the day `today`:
/// the names of its course and chapter, its marks, how far off it is due, how
/// early or late it was completed, its score in whole percent, and the name
/// of its status.
pub fn goal_row(g: &Goal, glob: &Glob, today: &Date) -> (r: Result<GoalRow, RowError>)
    ensures
        match r {
            Ok(row) => row_refusal(*g, *glob, *today) is None && is_row_of(row, *g, *glob, *today),
            Err(e) => row_refusal(*g, *glob, *today) == Some(e),
        },
{
    let source = match &g.source {
        Source::Book(bch) => bch,
        _ => {
            return Err(RowError::CustomSource);
        },
    };
    let crs = match glob.course_by_sym(source.sym.as_str()) {
        Some(crs) => crs,
        None => {
            return Err(RowError::NoCourse);
        },
    };
    let chp = match crs.chapter(source.seq) {
        Some(chp) => chp,
        None => {
            return Err(RowError::NoChapter);
        },
    };
    let due_ok = match &g.due {
        Some(d) => d.is_valid(),
        None => true,
    };
    let done_ok = match &g.done {
        Some(d) => d.is_valid(),
        None => true,
    };
    if !(today.is_valid() && due_ok && done_ok) {
        return Err(RowError::BadDate);
    }
    let text: Option<&str> = match &g.score {
        Some(s) => Some(s.as_str()),
        None => None,
    };
    let score = match maybe_parse_score_str(text) {
        Err(e) => {
            return Err(RowError::BadScore(e));
        },
        Ok(Some(s)) => {
            let pct = rounded(100 * s as i128, UNIT as i128);
            assert(0 <= pct <= 100) by (nonlinear_arith)
                requires
                    pct == round_div(100 * s as int, UNIT as int),
                    0 <= s <= UNIT,
                    UNIT == 1_000_000,
            ;
            Some(pct as u32)
        },
        Ok(None) => None,
    };
    let ri = match (g.review, g.incomplete) {
        (false, false) => "",
        (true, false) => " R*",
        (false, true) => " I*",
        (true, true) => " R* I*",
    };
    let due_from = match &g.due {
        Some(d) => due_text(today.days_until(d)),
        None => String::from_str(""),
    };
    let done_from = match (&g.due, &g.done) {
        (Some(d), Some(n)) => done_text(n.days_until(d)),
        _ => String::from_str(""),
    };
    let goal_class = match g.status(today) {
        GoalStatus::Done => "done",
        GoalStatus::Late => "late",
        GoalStatus::Overdue => "overdue",
        GoalStatus::Yet => "yet",
    };
    Ok(
        GoalRow {
            course: crs.title.clone(),
            book: match &crs.book {
                Some(t) => t.clone(),
                None => String::from_str(""),
            },
            chapter: chp.title.clone(),
            subject: match &chp.subject {
                Some(t) => t.clone(),
                None => String::from_str(""),
            },
            ri,
            due: g.due,
            due_short: short_day_text(&g.due),
            due_from,
            done: g.done,
            done_short: short_day_text(&g.done),
            done_from,
            tries: g.tries,
            score,
            goal_class,
        },
    )
}

} // verus!
