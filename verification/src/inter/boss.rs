//! The boss's page: one table for each student's pace calendar.

use vstd::prelude::*;
use crate::config::{course_index, lemma_user_index, user_index, Glob};
use crate::coordinator::{paced_students, paces_listed};
use crate::course::{chapter_index, UNIT};
use crate::date::Date;
use crate::inter::student::{class_name, goal_row, row_refusal, short_day, GoalRow, RowError};
use crate::order::sorted_of;
use crate::pace::{affirm_all, done_by, due_by, is_pace_of, lag_of, round_div, status_of, Goal, Pace};
use crate::score::maybe_score_of;
use crate::seqs::{first_where, lemma_first_where_is, lemma_first_where_none};
use crate::store::goals::goal_of;
use crate::text::{decimal, decimal_string, opt_view};
use crate::user::User;

verus! {

/// How many of the goals `p` holds of.
pub open spec fn count_where(goals: Seq<Goal>, p: spec_fn(Goal) -> bool) -> int
    decreases goals.len(),
{
    if goals.len() == 0 {
        0
    } else {
        count_where(goals.drop_last(), p) + if p(goals.last()) {
            1int
        } else {
            0int
        }
    }
}

/// The goal is marked incomplete from the year before and is not completed.
pub open spec fn left_over() -> spec_fn(Goal) -> bool {
    |g: Goal| g.incomplete && g.done is None
}

/// The classes of a table: always `cal`; `inc` where a goal is left over
/// from the year before, `lag` where less weight is done than is due, and
/// `count` where fewer goals are done than are due.
pub open spec fn table_classes(left_over: bool, lagging: bool, short: bool) -> Seq<char> {
    "cal"@ + (if left_over {
        " inc"@
    } else {
        ""@
    }) + (if lagging {
        " lag"@
    } else {
        ""@
    }) + (if short {
        " count"@
    } else {
        ""@
    })
}

/// A percentage with its sign, which is a plus for nothing.
pub open spec fn signed_percent(n: int) -> Seq<char> {
    (if n < 0 {
        "-"@ + decimal((-n) as nat)
    } else {
        "+"@ + decimal(n as nat)
    }) + "%"@
}

/// What stands at the head of a student's table on the boss's page.
#[derive(Debug)]
pub struct PaceTable {
    pub table_class: String,
    pub uname: String,
    /// Last name, comma, rest of the name.
    pub name: String,
    pub tuname: String,
    pub teacher: String,
    pub n_done: usize,
    pub n_due: usize,
    pub lag: i32,
    pub lagstr: String,
}

/// `t` is the head of the table of `p` on the day `today`.
pub open spec fn is_table_of(t: PaceTable, p: Pace, today: Date) -> bool {
    &&& t.n_done == count_where(p.goals@, done_by(today))
    &&& t.n_due == count_where(p.goals@, due_by(today))
    &&& t.lag == lag_of(p.done_weight as int, p.due_weight as int, p.total_weight as int)
    &&& t.lagstr@ == signed_percent(t.lag as int)
    &&& t.table_class@ == table_classes(
        count_where(p.goals@, left_over()) > 0,
        p.done_weight < p.due_weight,
        t.n_done < t.n_due,
    )
    &&& t.uname == p.student.base.uname
    &&& t.name@ == p.student.last@ + ", "@ + p.student.rest@
    &&& t.tuname == p.teacher.base.uname
    &&& t.teacher == p.teacher.name
}

proof fn lemma_count_bounds(goals: Seq<Goal>, p: spec_fn(Goal) -> bool, k: int)
    requires
        0 <= k <= goals.len(),
    ensures
        0 <= count_where(goals.take(k), p) <= k,
    decreases k,
{
    if k > 0 {
        lemma_count_bounds(goals, p, k - 1);
        assert(goals.take(k).drop_last() =~= goals.take(k - 1));
    } else {
        assert(goals.take(0) =~= Seq::<Goal>::empty());
    }
}

/// Works out the head of a student's table: how many goals are done and due,
/// the lag, and the classes by which the table is styled.
pub fn pace_table(p: &Pace, today: &Date) -> (r: PaceTable)
    requires
        p.wf(),
    ensures
        is_table_of(r, *p, *today),
{
    let n = p.goals.len();
    let mut n_done: usize = 0;
    let mut n_due: usize = 0;
    let mut left: usize = 0;
    let mut i: usize = 0;
    assert(p.goals@.take(0) =~= Seq::<Goal>::empty());
    while i < n
        invariant
            i <= n == p.goals@.len(),
            n_done == count_where(p.goals@.take(i as int), done_by(*today)),
            n_due == count_where(p.goals@.take(i as int), due_by(*today)),
            left == count_where(p.goals@.take(i as int), left_over()),
        decreases n - i,
    {
        let g = &p.goals[i];
        proof {
            assert(p.goals@.take(i + 1).drop_last() =~= p.goals@.take(i as int));
            assert(p.goals@.take(i + 1).last() == p.goals@[i as int]);
            lemma_count_bounds(p.goals@, done_by(*today), i as int);
            lemma_count_bounds(p.goals@, due_by(*today), i as int);
            lemma_count_bounds(p.goals@, left_over(), i as int);
        }
        let done_before = match &g.done {
            Some(d) => d.is_earlier(today),
            None => false,
        };
        let due_before = match &g.due {
            Some(d) => d.is_earlier(today),
            None => false,
        };
        if done_before {
            n_done += 1;
        }
        if due_before {
            n_due += 1;
        }
        if g.incomplete && g.done.is_none() {
            left += 1;
        }
        i += 1;
    }
    assert(p.goals@.take(n as int) =~= p.goals@);
    let lag = p.lag();
    let mut lagstr = if lag < 0 {
        let mut s = String::from_str("-");
        s.append(decimal_string((-lag) as u64).as_str());
        s
    } else {
        let mut s = String::from_str("+");
        s.append(decimal_string(lag as u64).as_str());
        s
    };
    lagstr.append("%");
    let mut table_class = String::from_str("cal");
    if left > 0 {
        table_class.append(" inc");
    } else {
        table_class.append("");
    }
    if p.done_weight < p.due_weight {
        table_class.append(" lag");
    } else {
        table_class.append("");
    }
    if n_done < n_due {
        table_class.append(" count");
    } else {
        table_class.append("");
    }
    let mut name = p.student.last.clone();
    name.append(", ");
    name.append(p.student.rest.as_str());
    PaceTable {
        table_class,
        uname: p.student.base.uname.clone(),
        name,
        tuname: p.teacher.base.uname.clone(),
        teacher: p.teacher.name.clone(),
        n_done,
        n_due,
        lag,
        lagstr,
    }
}

/// A goal as a row of a student's table on the boss's page.
#[derive(Debug)]
pub struct CalRow {
    /// The name of the goal's status, by which the row is styled.
    pub row_class: &'static str,
    /// Set where the goal is left over from the year before.
    pub row_bad: &'static str,
    pub course: String,
    pub book: String,
    pub chapter: String,
    /// The mark for review.
    pub review: &'static str,
    /// The mark for incomplete.
    pub incomplete: &'static str,
    pub due: Option<Date>,
    pub done: Option<Date>,
    /// The due date in short, or nothing.
    pub due_short: String,
    /// The day of completion in short, or nothing.
    pub done_short: String,
    /// The score in whole percent, or nothing.
    pub score: String,
}

/// A score in whole percent, as the table shows it.
pub open spec fn score_text(score: Option<int>) -> Seq<char> {
    match score {
        Some(s) => decimal((round_div(100 * s, UNIT as int) as u32) as nat) + " %"@,
        None => ""@,
    }
}

/// `row` shows the goal `g` on the day `today`.
pub open spec fn is_cal_row(row: CalRow, g: Goal, glob: Glob, today: Date) -> bool {
    let b = g.source->Book_0;
    let crs = glob.courses@[course_index(glob.courses@, b.sym@)->0];
    let chp = crs.chapters@[chapter_index(crs.chapters@, b.seq)->0];
    &&& row.row_class@ == class_name(status_of(g.due, g.done, today))
    &&& row.row_bad@ == if left_over()(g) {
        " bad"@
    } else {
        ""@
    }
    &&& row.course == crs.title
    &&& row.book@ == match crs.book {
        Some(t) => t@,
        None => ""@,
    }
    &&& row.chapter == chp.title
    &&& row.review@ == if g.review {
        " R "@
    } else {
        ""@
    }
    &&& row.incomplete@ == if g.incomplete {
        " I "@
    } else {
        ""@
    }
    &&& row.due == g.due
    &&& row.done == g.done
    &&& row.due_short@ == short_day(g.due)
    &&& row.done_short@ == short_day(g.done)
    &&& row.score@ == score_text(maybe_score_of(opt_view(g.score))->Ok_0)
}

/// Works out the row of a goal.
pub fn cal_goal(g: &Goal, glob: &Glob, today: &Date) -> (r: Result<CalRow, RowError>)
    ensures
        match r {
            Ok(row) => row_refusal(*g, *glob, *today) is None && is_cal_row(row, *g, *glob, *today),
            Err(e) => row_refusal(*g, *glob, *today) == Some(e),
        },
{
    let shown: GoalRow = match goal_row(g, glob, today) {
        Ok(shown) => shown,
        Err(e) => {
            return Err(e);
        },
    };
    let score = match shown.score {
        Some(pct) => {
            let mut s = decimal_string(pct as u64);
            s.append(" %");
            s
        },
        None => String::from_str(""),
    };
    Ok(
        CalRow {
            row_class: shown.goal_class,
            row_bad: if g.incomplete && g.done.is_none() {
                " bad"
            } else {
                ""
            },
            course: shown.course,
            book: shown.book,
            chapter: shown.chapter,
            review: if g.review {
                " R "
            } else {
                ""
            },
            incomplete: if g.incomplete {
                " I "
            } else {
                ""
            },
            due: shown.due,
            done: shown.done,
            due_short: shown.due_short,
            done_short: shown.done_short,
            score,
        },
    )
}

/// A student's table on the boss's page.
#[derive(Debug)]
pub struct Calendar {
    pub table: PaceTable,
    pub rows: Vec<CalRow>,
}

/// Why there is no table: the goal of this number cannot be shown.
#[derive(Clone, Copy, Debug, PartialEq, Eq, Structural)]
pub struct CalError {
    pub id: i64,
    pub error: RowError,
}

/// The goal cannot be shown.
pub open spec fn unshown(glob: Glob, today: Date) -> spec_fn(Goal) -> bool {
    |g: Goal| row_refusal(g, glob, today) is Some
}

/// Why goals make no table, if they make none: the first of them that
/// cannot be shown.
pub open spec fn cal_refusal(goals: Seq<Goal>, glob: Glob, today: Date) -> Option<CalError> {
    match first_where(goals, unshown(glob, today)) {
        Some(k) => Some(CalError { id: goals[k].id, error: row_refusal(goals[k], glob, today)->0 }),
        None => None,
    }
}

/// `c` is the table of the pace calendar `p` on the day `today`.
pub open spec fn is_calendar_of(c: Calendar, p: Pace, glob: Glob, today: Date) -> bool {
    &&& is_table_of(c.table, p, today)
    &&& c.rows@.len() == p.goals@.len()
    &&& forall|i: int|
        0 <= i < c.rows@.len() ==> is_cal_row(#[trigger] c.rows@[i], p.goals@[i], glob, today)
}

/// Works out a student's table: its head, and a row for each goal.
pub fn cal_table(p: &Pace, glob: &Glob, today: &Date) -> (r: Result<Calendar, CalError>)
    requires
        p.wf(),
    ensures
        match r {
            Ok(c) => cal_refusal(p.goals@, *glob, *today) is None && is_calendar_of(
                c,
                *p,
                *glob,
                *today,
            ),
            Err(e) => cal_refusal(p.goals@, *glob, *today) == Some(e),
        },
{
    let ghost bad = unshown(*glob, *today);
    let n = p.goals.len();
    let mut rows: Vec<CalRow> = Vec::new();
    let mut i: usize = 0;
    while i < n
        invariant
            i <= n == p.goals@.len(),
            bad == unshown(*glob, *today),
            rows@.len() == i,
            forall|k: int| 0 <= k < i ==> !bad(#[trigger] p.goals@[k]),
            forall|k: int| 0 <= k < i ==> is_cal_row(#[trigger] rows@[k], p.goals@[k], *glob, *today),
        decreases n - i,
    {
        match cal_goal(&p.goals[i], glob, today) {
            Ok(row) => {
                rows.push(row);
            },
            Err(error) => {
                proof {
                    lemma_first_where_is(p.goals@, bad, i as int);
                }
                return Err(CalError { id: p.goals[i].id, error });
            },
        }
        i += 1;
    }
    proof {
        lemma_first_where_none(p.goals@, bad);
    }
    Ok(Calendar { table: pace_table(p, today), rows })
}

/// The places, among the users, of the students with a table on the boss's
/// page: the students of the teachers among the first `k` users, teacher by
/// teacher, whose goals make a pace calendar.
pub open spec fn boss_students(glob: Glob, k: int) -> Seq<int>
    decreases k,
{
    if k <= 0 {
        Seq::empty()
    } else {
        boss_students(glob, k - 1) + match glob.users@[k - 1] {
            User::Teacher(t) => paced_students(glob, t.base.uname@, glob.users@.len() as int),
            _ => Seq::empty(),
        }
    }
}

/// The goals of the pace calendar of the student at the place `at`.
pub open spec fn paced_goals(glob: Glob, at: int) -> Seq<Goal> {
    sorted_of(
        affirm_all(
            glob.data.goals@.filter(goal_of(glob.users@[at]->Student_0.base.uname@)),
            glob,
        )->Ok_0,
    )
}

/// There is no table for the student at the place.
pub open spec fn untabled(glob: Glob, today: Date) -> spec_fn(int) -> bool {
    |at: int| cal_refusal(paced_goals(glob, at), glob, today) is Some
}

/// Why there is no page for the boss, if there is none: the first student
/// for whom there is no table.
pub open spec fn boss_refusal(glob: Glob, today: Date) -> Option<CalError> {
    let who = boss_students(glob, glob.users@.len() as int);
    match first_where(who, untabled(glob, today)) {
        Some(j) => cal_refusal(paced_goals(glob, who[j]), glob, today),
        None => None,
    }
}

/// `c` is the table of the pace calendar of the student at the place `at`.
pub open spec fn is_calendar_at(c: Calendar, at: int, glob: Glob, today: Date) -> bool {
    let s = glob.users@[at]->Student_0;
    exists|p: Pace| #[trigger]
        is_calendar_of(c, p, glob, today) && is_pace_of(
            p,
            s,
            glob.users@[user_index(glob.users@, s.teacher@)->0]->Teacher_0,
            glob.data.goals@.filter(goal_of(s.base.uname@)),
            glob,
            today,
        )
}

/// The tables are those of the students at the places `who`, one for one.
pub open spec fn calendars_listed(cals: Seq<Calendar>, who: Seq<int>, glob: Glob, today: Date) -> bool {
    &&& cals.len() == who.len()
    &&& forall|j: int|
        #![trigger cals[j]]
        #![trigger who[j]]
        0 <= j < cals.len() ==> is_calendar_at(cals[j], who[j], glob, today) && !untabled(
            glob,
            today,
        )(who[j])
}

/// The students of the teachers among the first users come first.
pub proof fn lemma_boss_students_prefix(glob: Glob, k: int)
    requires
        0 <= k <= glob.users@.len(),
    ensures
        boss_students(glob, k).len() <= boss_students(glob, glob.users@.len() as int).len(),
        boss_students(glob, k) == boss_students(glob, glob.users@.len() as int).take(
            boss_students(glob, k).len() as int,
        ),
    decreases glob.users@.len() - k,
{
    let all = boss_students(glob, glob.users@.len() as int);
    if k == glob.users@.len() {
        assert(all.take(all.len() as int) =~= all);
    } else {
        lemma_boss_students_prefix(glob, k + 1);
        let short = boss_students(glob, k);
        let next = boss_students(glob, k + 1);
        assert(short =~= next.take(short.len() as int));
        assert(short =~= all.take(short.len() as int));
    }
}

/// Whoever is among the paced students of a teacher is a student of that
/// teacher.
pub proof fn lemma_paced_students(glob: Glob, tuname: Seq<char>, k: int, j: int)
    requires
        0 <= k <= glob.users@.len(),
        0 <= j < paced_students(glob, tuname, k).len(),
    ensures
        0 <= paced_students(glob, tuname, k)[j] < k,
        glob.users@[paced_students(glob, tuname, k)[j]] matches User::Student(s) && s.teacher@
            == tuname,
    decreases k,
{
    if k > 0 {
        let rest = paced_students(glob, tuname, k - 1);
        if j < rest.len() {
            lemma_paced_students(glob, tuname, k - 1, j);
        }
    }
}

/// The tables of the boss's page: one for each student whose goals make a
/// pace calendar, teacher by teacher in the order in which the working set
/// holds the teachers, each teacher's students in the order in which it holds
/// the students.
pub fn make_boss_calendars(glob: &Glob, today: &Date) -> (r: Result<Vec<Calendar>, CalError>)
    requires
        glob.wf(),
    ensures
        match r {
            Ok(cals) => boss_refusal(*glob, *today) is None && calendars_listed(
                cals@,
                boss_students(*glob, glob.users@.len() as int),
                *glob,
                *today,
            ),
            Err(e) => boss_refusal(*glob, *today) == Some(e),
        },
{
    let ghost all = boss_students(*glob, glob.users@.len() as int);
    let ghost bad = untabled(*glob, *today);
    let n = glob.users.len();
    let mut cals: Vec<Calendar> = Vec::new();
    let mut i: usize = 0;
    while i < n
        invariant
            i <= n == glob.users@.len(),
            glob.wf(),
            all == boss_students(*glob, n as int),
            bad == untabled(*glob, *today),
            calendars_listed(cals@, boss_students(*glob, i as int), *glob, *today),
        decreases n - i,
    {
        let ghost before = boss_students(*glob, i as int);
        proof {
            lemma_boss_students_prefix(*glob, i + 1);
        }
        if let User::Teacher(t) = &glob.users[i] {
            let ghost tuname = t.base.uname@;
            let ghost own = paced_students(*glob, tuname, n as int);
            proof {
                lemma_user_index(glob.users@, tuname);
            }
            let paces = match glob.get_paces_by_teacher(t.base.uname.as_str(), today) {
                Ok(paces) => paces,
                Err(_) => {
                    // Not reached: the working set holds this teacher.
                    assert(false);
                    return Ok(cals);
                },
            };
            let m = paces.len();
            let mut k: usize = 0;
            assert(own.take(0) =~= Seq::<int>::empty());
            assert(before + own.take(0) =~= before);
            while k < m
                invariant
                    k <= m == paces@.len() == own.len(),
                    i < n == glob.users@.len(),
                    glob.wf(),
                    all == boss_students(*glob, n as int),
                    bad == untabled(*glob, *today),
                    before == boss_students(*glob, i as int),
                    own == paced_students(*glob, tuname, n as int),
                    boss_students(*glob, i + 1) == before + own,
                    boss_students(*glob, i + 1) == all.take(boss_students(*glob, i + 1).len() as int),
                    boss_students(*glob, i + 1).len() <= all.len(),
                    user_index(glob.users@, tuname) == Some(i as int),
                    glob.users@[i as int] is Teacher,
                    paces_listed(
                        paces@,
                        own,
                        *glob,
                        glob.users@[i as int]->Teacher_0,
                        *today,
                    ),
                    calendars_listed(cals@, before + own.take(k as int), *glob, *today),
                decreases m - k,
            {
                let p = &paces[k];
                let ghost at = own[k as int];
                let ghost listed = before + own.take(k as int);
                let ghost held = cals@;
                proof {
                    lemma_paced_students(*glob, tuname, n as int, k as int);
                    assert(is_pace_of(
                        paces@[k as int],
                        glob.users@[at]->Student_0,
                        glob.users@[i as int]->Teacher_0,
                        glob.data.goals@.filter(goal_of(glob.users@[at]->Student_0.base.uname@)),
                        *glob,
                        *today,
                    ));
                    assert(p.goals@ == paced_goals(*glob, at));
                    assert(before + own.take(k + 1) =~= listed.push(at));
                }
                match cal_table(p, glob, today) {
                    Ok(c) => {
                        cals.push(c);
                        proof {
                            let now = listed.push(at);
                            assert(is_calendar_of(cals@[listed.len() as int], *p, *glob, *today));
                            assert(is_calendar_at(cals@[listed.len() as int], at, *glob, *today));
                            assert forall|j: int|
                                #![trigger cals@[j]]
                                #![trigger now[j]]
                                0 <= j < cals@.len() implies is_calendar_at(
                                cals@[j],
                                now[j],
                                *glob,
                                *today,
                            ) && !bad(now[j]) by {
                                if j < held.len() {
                                    assert(cals@[j] == held[j]);
                                    assert(now[j] == listed[j]);
                                }
                            }
                        }
                    },
                    Err(e) => {
                        proof {
                            let j = listed.len() as int;
                            let upto = boss_students(*glob, i + 1);
                            assert(upto[j] == at);
                            assert(all[j] == upto[j]);
                            assert forall|x: int| 0 <= x < j implies !bad(#[trigger] all[x]) by {
                                assert(all[x] == upto[x]);
                                assert(upto[x] == listed[x]);
                            }
                            lemma_first_where_is(all, bad, j);
                        }
                        return Err(e);
                    },
                }
                k += 1;
            }
            assert(own.take(m as int) =~= own);
        } else {
            assert(boss_students(*glob, i + 1) =~= before);
        }
        i += 1;
    }
    proof {
        lemma_first_where_none(all, bad);
    }
    Ok(cals)
}

} // verus!
