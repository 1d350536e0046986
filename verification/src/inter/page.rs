//! A student's page: the goals row by row, with the summary of a semester
//! behind the last goal that was completed in it.

use vstd::prelude::*;
use crate::config::Glob;
use crate::date::Date;
use crate::inter::student::{
    goal_row, is_row_of, report_of, row_refusal, summary, summary_of, GoalRow,
    Report, ReportError, RowError, Sem, Summary, Term,
};
use crate::pace::{Goal, Pace};
use crate::score::ScoreError;
use crate::seqs::{first_where, lemma_first_where_is, lemma_first_where_none};
use crate::text::{signed_decimal, signed_decimal_string};

verus! {

/// A line of a semester's summary: what is shown, and what it comes to.
#[derive(Debug)]
pub struct SummaryLine {
    pub text: String,
    pub score: String,
}

/// The characters of the lines.
pub open spec fn lines_view(lines: Seq<SummaryLine>) -> Seq<(Seq<char>, Seq<char>)> {
    lines.map_values(|l: SummaryLine| (l.text@, l.score@))
}

/// The name of a semester.
pub open spec fn sem_name(sem: Sem) -> Seq<char> {
    match sem {
        Sem::Fall => "Fall"@,
        Sem::Spring => "Spring"@,
    }
}

/// A number of percent, as it is shown.
pub open spec fn percent(n: int) -> Seq<char> {
    signed_decimal(n) + "%"@
}

/// A number of percent with the mark of a semester in which a goal is not
/// completed, where `unfinished` says so.
pub open spec fn marked_percent(n: int, unfinished: bool) -> Seq<char> {
    if unfinished {
        percent(n) + " (I)"@
    } else {
        percent(n)
    }
}

/// The line of the notices, where there are any.
pub open spec fn notice_lines(notices: int) -> Seq<(Seq<char>, Seq<char>)> {
    if notices > 0 {
        seq![
            ("Notices ("@ + signed_decimal(notices) + "):"@, "-"@ + signed_decimal(notices) + "%"@),
        ]
    } else {
        Seq::empty()
    }
}

/// The lines in which a summary is shown: the mean of the tests and, where
/// the exam is recorded, the exam, the notices if there are any, and the
/// semester grade.
pub open spec fn summary_lines(sem: Sem, sum: Summary) -> Seq<(Seq<char>, Seq<char>)> {
    let head = seq![
        (
            sem_name(sem) + " Test Average:"@,
            marked_percent(sum.test_average as int, sum.unfinished),
        ),
    ];
    match (sum.exam, sum.grade) {
        (Some(exam), Some(grade)) => head + seq![("Final Exam:"@, percent(exam as int))]
            + notice_lines(sum.notices as int) + seq![
            (sem_name(sem) + " Semester Grade:"@, marked_percent(grade as int, sum.unfinished)),
        ],
        _ => head,
    }
}

/// Writes a number of percent.
fn percent_text(n: i32, unfinished: bool) -> (r: String)
    ensures
        r@ == marked_percent(n as int, unfinished),
        !unfinished ==> r@ == percent(n as int),
{
    let mut s = signed_decimal_string(n as i64);
    s.append("%");
    if unfinished {
        s.append(" (I)");
    }
    s
}

/// A line that names a semester.
fn sem_line(sem: Sem, what: &str, score: String) -> (r: SummaryLine)
    ensures
        r.text@ == sem_name(sem) + what@,
        r.score == score,
{
    let mut text = String::from_str(sem.name());
    text.append(what);
    SummaryLine { text, score }
}

/// The lines in which a summary is shown.
pub fn write_summary(sem: Sem, sum: &Summary) -> (r: Vec<SummaryLine>)
    ensures
        lines_view(r@) == summary_lines(sem, *sum),
{
    let mut lines: Vec<SummaryLine> = Vec::new();
    lines.push(sem_line(sem, " Test Average:", percent_text(sum.test_average, sum.unfinished)));
    // If there's an exam score, write the rest of the summary.
    if let (Some(exam), Some(grade)) = (sum.exam, sum.grade) {
        lines.push(
            SummaryLine { text: String::from_str("Final Exam:"), score: percent_text(exam, false) },
        );
        // Only write the notices if there are notices.
        if sum.notices > 0 {
            let number = signed_decimal_string(sum.notices as i64);
            let mut text = String::from_str("Notices (");
            text.append(number.as_str());
            text.append("):");
            let mut score = String::from_str("-");
            score.append(number.as_str());
            score.append("%");
            lines.push(SummaryLine { text, score });
        }
        lines.push(sem_line(sem, " Semester Grade:", percent_text(grade, sum.unfinished)));
    }
    assert(lines_view(lines@) =~= summary_lines(sem, *sum));
    lines
}

/// What stands in a row of a student's page.
#[derive(Debug)]
pub enum PageRow {
    /// A goal.
    Goal(GoalRow),
    /// The summary of a semester.
    Summary(Sem, Vec<SummaryLine>),
}

/// What a row of a page is for: the goal at a place among the goals, or the
/// summary of a semester.
pub enum Slot {
    Goal(int),
    Summary(Sem),
}

/// A student's page.
#[derive(Debug)]
pub struct Page {
    /// The student's name, given names first.
    pub name: String,
    pub uname: String,
    /// The teacher's name.
    pub teacher: String,
    /// The teacher's address.
    pub temail: String,
    /// How many goals are completed.
    pub n_done: usize,
    /// How many goals were due before today.
    pub n_due: usize,
    /// How many goals have a due date.
    pub n_total: usize,
    pub rows: Vec<PageRow>,
    /// The note on the mark for review, where a goal has it.
    pub rev_foot: &'static str,
    /// The note on the mark for incomplete, where a goal has it.
    pub inc_foot: &'static str,
}

/// Why there is no page.
#[derive(Clone, Copy, Debug, PartialEq, Eq, Structural)]
pub enum PageError {
    /// The goals cannot be reported on.
    Report(ReportError),
    /// The goal of this number cannot be shown.
    Row(i64, RowError),
    /// The exam of the semester is no score.
    Summary(Sem, ScoreError),
}

/// What the goals completed in a semester come to, by the report.
pub open spec fn term_of(rep: Report, sem: Sem) -> Term {
    match sem {
        Sem::Fall => rep.fall,
        Sem::Spring => rep.spring,
    }
}

/// The goal is the last that was completed in the term.
pub open spec fn closes(term: Term, g: Goal) -> bool {
    term.last_id == Some(g.id) && term.done > 0
}

/// The summary of a semester, where the goal is the last completed in it.
pub open spec fn summary_slot(rep: Report, g: Goal, sem: Sem) -> Seq<Slot> {
    if closes(term_of(rep, sem), g) {
        seq![Slot::Summary(sem)]
    } else {
        Seq::empty()
    }
}

/// What the rows of the page are for, in order: each goal, and behind the
/// last goal completed in a semester the summary of the semester, fall
/// before spring.
pub open spec fn slots(goals: Seq<Goal>, rep: Report) -> Seq<Slot>
    decreases goals.len(),
{
    if goals.len() == 0 {
        Seq::empty()
    } else {
        slots(goals.drop_last(), rep).push(Slot::Goal(goals.len() - 1)) + summary_slot(
            rep,
            goals.last(),
            Sem::Fall,
        ) + summary_slot(rep, goals.last(), Sem::Spring)
    }
}

/// Why nothing can stand in a row, if nothing can.
pub open spec fn slot_error(slot: Slot, p: Pace, rep: Report, glob: Glob, today: Date) -> Option<
    PageError,
> {
    match slot {
        Slot::Goal(i) => match row_refusal(p.goals@[i], glob, today) {
            Some(e) => Some(PageError::Row(p.goals@[i].id, e)),
            None => None,
        },
        Slot::Summary(sem) => match summary_of(term_of(rep, sem), p.student, sem) {
            Err(e) => Some(PageError::Summary(sem, e)),
            Ok(_) => None,
        },
    }
}

/// Nothing can stand in the row.
pub open spec fn slot_fails(p: Pace, rep: Report, glob: Glob, today: Date) -> spec_fn(Slot) -> bool {
    |slot: Slot| slot_error(slot, p, rep, glob, today) is Some
}

/// Why there is no page, if there is none: the goals cannot be reported on,
/// or else the first row cannot be shown that cannot.
pub open spec fn page_refusal(p: Pace, glob: Glob, today: Date, end_fall: Date) -> Option<PageError> {
    match report_of(p.goals@, today, end_fall) {
        Err(e) => Some(PageError::Report(e)),
        Ok(rep) => match first_where(slots(p.goals@, rep), slot_fails(p, rep, glob, today)) {
            Some(k) => slot_error(slots(p.goals@, rep)[k], p, rep, glob, today),
            None => None,
        },
    }
}

/// The row shows what it is for.
pub open spec fn slot_shown(row: PageRow, slot: Slot, p: Pace, rep: Report, glob: Glob, today: Date) -> bool {
    match slot {
        Slot::Goal(i) => row matches PageRow::Goal(r) && is_row_of(r, p.goals@[i], glob, today),
        Slot::Summary(sem) => {
            &&& row matches PageRow::Summary(s, lines)
            &&& row->Summary_0 == sem
            &&& summary_of(term_of(rep, sem), p.student, sem) matches Ok(Some(sum))
            &&& lines_view(row->Summary_1@) == summary_lines(
                sem,
                summary_of(term_of(rep, sem), p.student, sem)->Ok_0->0,
            )
        },
    }
}

/// The rows show, one for one, what the slots say.
pub open spec fn rows_shown(
    rows: Seq<PageRow>,
    places: Seq<Slot>,
    p: Pace,
    rep: Report,
    glob: Glob,
    today: Date,
) -> bool {
    &&& rows.len() == places.len()
    &&& forall|k: int|
        #![trigger rows[k]]
        #![trigger places[k]]
        0 <= k < rows.len() ==> slot_shown(rows[k], places[k], p, rep, glob, today)
            && !slot_fails(p, rep, glob, today)(places[k])
}

/// The note on the mark for review.
pub open spec fn review_note() -> Seq<char> {
    "*R indicates previously-completed material that requires review."@
}

/// The note on the mark for incomplete.
pub open spec fn incomplete_note() -> Seq<char> {
    "*I indicates material incomplete from the prior academic year."@
}

/// `page` is the page of the calendar `p` on the day `today`.
pub open spec fn is_page_of(page: Page, p: Pace, glob: Glob, today: Date, end_fall: Date) -> bool {
    let rep = report_of(p.goals@, today, end_fall)->Ok_0;
    &&& page.name@ == p.student.rest@ + " "@ + p.student.last@
    &&& page.uname == p.student.base.uname
    &&& page.teacher == p.teacher.name
    &&& page.temail == p.teacher.base.email
    &&& page.n_done == rep.n_done
    &&& page.n_due == rep.n_due
    &&& page.n_total == rep.n_scheduled
    &&& rows_shown(page.rows@, slots(p.goals@, rep), p, rep, glob, today)
    &&& page.rev_foot@ == if rep.review_note {
        review_note()
    } else {
        ""@
    }
    &&& page.inc_foot@ == if rep.incomplete_note {
        incomplete_note()
    } else {
        ""@
    }
}

/// The slots of the first goals are the first slots of all the goals.
pub proof fn lemma_slots_prefix(goals: Seq<Goal>, rep: Report, k: int)
    requires
        0 <= k <= goals.len(),
    ensures
        slots(goals.take(k), rep).len() <= slots(goals, rep).len(),
        slots(goals.take(k), rep) == slots(goals, rep).take(slots(goals.take(k), rep).len() as int),
    decreases goals.len() - k,
{
    if k == goals.len() {
        assert(goals.take(k) =~= goals);
        assert(slots(goals, rep).take(slots(goals, rep).len() as int) =~= slots(goals, rep));
    } else {
        lemma_slots_prefix(goals, rep, k + 1);
        assert(goals.take(k + 1).drop_last() =~= goals.take(k));
        let short = slots(goals.take(k), rep);
        let next = slots(goals.take(k + 1), rep);
        let all = slots(goals, rep);
        assert(short =~= next.take(short.len() as int));
        assert(short =~= all.take(short.len() as int));
    }
}

/// The summary of a semester behind the goal `g`, where `g` is the last goal
/// completed in it.
fn summary_row(rep: &Report, g: &Goal, p: &Pace, sem: Sem) -> (r: Result<Option<PageRow>, PageError>)
    requires
        rep.fall.wf(),
        rep.spring.wf(),
        p.student.wf(),
    ensures
        match r {
            Ok(Some(row)) => {
                &&& closes(term_of(*rep, sem), *g)
                &&& summary_of(term_of(*rep, sem), p.student, sem) is Ok
                &&& forall|glob: Glob, today: Date|
                    slot_shown(row, Slot::Summary(sem), *p, *rep, glob, today)
            },
            Ok(None) => !closes(term_of(*rep, sem), *g),
            Err(e) => closes(term_of(*rep, sem), *g) && summary_of(term_of(*rep, sem), p.student, sem)
                is Err && e == PageError::Summary(
                sem,
                summary_of(term_of(*rep, sem), p.student, sem)->Err_0,
            ),
        },
{
    let term = match sem {
        Sem::Fall => &rep.fall,
        Sem::Spring => &rep.spring,
    };
    let last = match term.last_id {
        Some(id) => id == g.id,
        None => false,
    };
    if !last || term.done == 0 {
        return Ok(None);
    }
    match summary(term, &p.student, sem) {
        Ok(Some(sum)) => Ok(Some(PageRow::Summary(sem, write_summary(sem, &sum)))),
        Ok(None) => Ok(None),
        Err(e) => Err(PageError::Summary(sem, e)),
    }
}

impl Pace {
    /// The student's page on the day `today`: the counts at its head, the
    /// goals row by row in the calendar's order, and behind the last goal
    /// completed in a semester the summary of that semester.
    pub fn page(&self, glob: &Glob, today: &Date, end_fall: &Date) -> (r: Result<Page, PageError>)
        requires
            self.student.wf(),
        ensures
            match r {
                Ok(page) => page_refusal(*self, *glob, *today, *end_fall) is None && is_page_of(
                    page,
                    *self,
                    *glob,
                    *today,
                    *end_fall,
                ),
                Err(e) => page_refusal(*self, *glob, *today, *end_fall) == Some(e),
            },
    {
        let rep = match self.report(today, end_fall) {
            Ok(rep) => rep,
            Err(e) => {
                return Err(PageError::Report(e));
            },
        };
        let ghost goals = self.goals@;
        let ghost all = slots(goals, rep);
        let ghost fails = slot_fails(*self, rep, *glob, *today);
        let n = self.goals.len();
        let mut rows: Vec<PageRow> = Vec::new();
        let mut i: usize = 0;
        assert(goals.take(0) =~= Seq::<Goal>::empty());
        while i < n
            invariant
                i <= n == goals.len(),
                goals == self.goals@,
                all == slots(goals, rep),
                fails == slot_fails(*self, rep, *glob, *today),
                report_of(goals, *today, *end_fall) == Ok::<Report, ReportError>(rep),
                rep.fall.wf(),
                rep.spring.wf(),
                self.student.wf(),
                rows_shown(rows@, slots(goals.take(i as int), rep), *self, rep, *glob, *today),
            decreases n - i,
        {
            let g = &self.goals[i];
            let ghost before = slots(goals.take(i as int), rep);
            let ghost held = rows@;
            proof {
                assert(goals.take(i + 1).drop_last() =~= goals.take(i as int));
                assert(goals.take(i + 1).last() == goals[i as int]);
                lemma_slots_prefix(goals, rep, i + 1);
            }
            let ghost next = slots(goals.take(i + 1), rep);
            match goal_row(g, glob, today) {
                Ok(row) => {
                    rows.push(PageRow::Goal(row));
                },
                Err(e) => {
                    proof {
                        let at = before.len() as int;
                        assert(next[at] == Slot::Goal(i as int));
                        assert(all[at] == next[at]);
                        assert forall|k: int| 0 <= k < at implies !fails(#[trigger] all[k]) by {
                            assert(all[k] == next[k]);
                            assert(next[k] == before[k]);
                        }
                        lemma_first_where_is(all, fails, at);
                    }
                    return Err(PageError::Row(g.id, e));
                },
            }
            let ghost with_goal = before.push(Slot::Goal(i as int));
            proof {
                assert(rows_shown(rows@, with_goal, *self, rep, *glob, *today)) by {
                    assert forall|k: int|
                        #![trigger rows@[k]]
                        #![trigger with_goal[k]]
                        0 <= k < rows@.len() implies slot_shown(
                        rows@[k],
                        with_goal[k],
                        *self,
                        rep,
                        *glob,
                        *today,
                    ) && !fails(with_goal[k]) by {
                        if k < held.len() {
                            assert(rows@[k] == held[k]);
                            assert(with_goal[k] == before[k]);
                        }
                    }
                }
            }
            // The semesters' summaries, where this goal closes one.
            let ghost with_fall = with_goal + summary_slot(rep, *g, Sem::Fall);
            let ghost held = rows@;
            match summary_row(&rep, g, self, Sem::Fall) {
                Ok(Some(row)) => {
                    rows.push(row);
                },
                Ok(None) => {},
                Err(e) => {
                    proof {
                        let at = with_goal.len() as int;
                        assert(next[at] == Slot::Summary(Sem::Fall));
                        assert(all[at] == next[at]);
                        assert forall|k: int| 0 <= k < at implies !fails(#[trigger] all[k]) by {
                            assert(all[k] == next[k]);
                            assert(next[k] == with_goal[k]);
                        }
                        lemma_first_where_is(all, fails, at);
                    }
                    return Err(e);
                },
            }
            proof {
                assert(rows_shown(rows@, with_fall, *self, rep, *glob, *today)) by {
                    assert forall|k: int|
                        #![trigger rows@[k]]
                        #![trigger with_fall[k]]
                        0 <= k < rows@.len() implies slot_shown(
                        rows@[k],
                        with_fall[k],
                        *self,
                        rep,
                        *glob,
                        *today,
                    ) && !fails(with_fall[k]) by {
                        if k < held.len() {
                            assert(rows@[k] == held[k]);
                            assert(with_fall[k] == with_goal[k]);
                        }
                    }
                }
            }
            let ghost held = rows@;
            match summary_row(&rep, g, self, Sem::Spring) {
                Ok(Some(row)) => {
                    rows.push(row);
                },
                Ok(None) => {},
                Err(e) => {
                    proof {
                        let at = with_fall.len() as int;
                        assert(next[at] == Slot::Summary(Sem::Spring));
                        assert(all[at] == next[at]);
                        assert forall|k: int| 0 <= k < at implies !fails(#[trigger] all[k]) by {
                            assert(all[k] == next[k]);
                            assert(next[k] == with_fall[k]);
                        }
                        lemma_first_where_is(all, fails, at);
                    }
                    return Err(e);
                },
            }
            proof {
                assert(next =~= with_fall + summary_slot(rep, *g, Sem::Spring));
                assert(rows_shown(rows@, next, *self, rep, *glob, *today)) by {
                    assert forall|k: int|
                        #![trigger rows@[k]]
                        #![trigger next[k]]
                        0 <= k < rows@.len() implies slot_shown(
                        rows@[k],
                        next[k],
                        *self,
                        rep,
                        *glob,
                        *today,
                    ) && !fails(next[k]) by {
                        if k < held.len() {
                            assert(rows@[k] == held[k]);
                            assert(next[k] == with_fall[k]);
                        }
                    }
                }
            }
            i += 1;
        }
        proof {
            assert(goals.take(n as int) =~= goals);
            lemma_first_where_none(all, fails);
        }
        let mut name = self.student.rest.clone();
        name.append(" ");
        name.append(self.student.last.as_str());
        Ok(
            Page {
                name,
                uname: self.student.base.uname.clone(),
                teacher: self.teacher.name.clone(),
                temail: self.teacher.base.email.clone(),
                n_done: rep.n_done,
                n_due: rep.n_due,
                n_total: rep.n_scheduled,
                rows,
                rev_foot: if rep.review_note {
                    "*R indicates previously-completed material that requires review."
                } else {
                    ""
                },
                inc_foot: if rep.incomplete_note {
                    "*I indicates material incomplete from the prior academic year."
                } else {
                    ""
                },
            },
        )
    }
}

} // verus!
