//! What a teacher may ask for, and the shapes in which goals, courses and
//! pace calendars go to and come from a teacher's page.

use vstd::prelude::*;
use crate::config::{user_index, Glob};
use crate::course::{lemma_total_weight_covers, total_weight, Chapter, Course, MIN_COURSE_WEIGHT, UNIT};
use crate::date::{iso_date, iso_text, Date};
use crate::inter::admin::Refusal;
use crate::pace::{lemma_share_bounded, share, BookCh, Goal, Pace, Source};
use crate::score::{maybe_parse_score_str, maybe_score_of, ScoreError};
use crate::text::opt_view;
use crate::user::User;

verus! {

/// The actions of the teacher's page.
#[derive(Clone, Copy, Debug, PartialEq, Eq, Structural)]
pub enum TeacherAction {
    PopulateDates,
    PopulateCourses,
    PopulateGoals,
    AddGoal,
    UpdateGoal,
    DeleteGoal,
    UpdateNumbers,
    Autopace,
    ClearGoals,
    UploadGoals,
}

/// The action that a name stands for.
pub open spec fn teacher_action(name: Seq<char>) -> Option<TeacherAction> {
    if name == "populate-dates"@ {
        Some(TeacherAction::PopulateDates)
    } else if name == "populate-courses"@ {
        Some(TeacherAction::PopulateCourses)
    } else if name == "populate-goals"@ {
        Some(TeacherAction::PopulateGoals)
    } else if name == "add-goal"@ {
        Some(TeacherAction::AddGoal)
    } else if name == "update-goal"@ {
        Some(TeacherAction::UpdateGoal)
    } else if name == "delete-goal"@ {
        Some(TeacherAction::DeleteGoal)
    } else if name == "update-numbers"@ {
        Some(TeacherAction::UpdateNumbers)
    } else if name == "autopace"@ {
        Some(TeacherAction::Autopace)
    } else if name == "clear-goals"@ {
        Some(TeacherAction::ClearGoals)
    } else if name == "upload-goals"@ {
        Some(TeacherAction::UploadGoals)
    } else {
        None
    }
}

/// Reads the name of an action.
pub fn parse_action(name: &str) -> (r: Option<TeacherAction>)
    ensures
        r == teacher_action(name@),
{
    if name.eq("populate-dates") {
        Some(TeacherAction::PopulateDates)
    } else if name.eq("populate-courses") {
        Some(TeacherAction::PopulateCourses)
    } else if name.eq("populate-goals") {
        Some(TeacherAction::PopulateGoals)
    } else if name.eq("add-goal") {
        Some(TeacherAction::AddGoal)
    } else if name.eq("update-goal") {
        Some(TeacherAction::UpdateGoal)
    } else if name.eq("delete-goal") {
        Some(TeacherAction::DeleteGoal)
    } else if name.eq("update-numbers") {
        Some(TeacherAction::UpdateNumbers)
    } else if name.eq("autopace") {
        Some(TeacherAction::Autopace)
    } else if name.eq("clear-goals") {
        Some(TeacherAction::ClearGoals)
    } else if name.eq("upload-goals") {
        Some(TeacherAction::UploadGoals)
    } else {
        None
    }
}

/// What a request to the teacher's page comes to: the action it asks for, if
/// the sender is a teacher and the action is one of the page's.
pub open spec fn teacher_request(
    users: Seq<User>,
    uname: Option<Seq<char>>,
    action: Option<Seq<char>>,
) -> Result<TeacherAction, Refusal> {
    match uname {
        None => Err(Refusal::UnknownSender),
        Some(u) => match user_index(users, u) {
            None => Err(Refusal::UnknownSender),
            Some(i) => if !(users[i] is Teacher) {
                Err(Refusal::Forbidden)
            } else {
                match action {
                    None => Err(Refusal::NoAction),
                    Some(a) => match teacher_action(a) {
                        Some(act) => Ok(act),
                        None => Err(Refusal::UnknownAction),
                    },
                }
            },
        },
    }
}

/// Decides what a request to the teacher's page asks for, from the name of
/// its sender and the name of its action.
pub fn api(glob: &Glob, uname: Option<&str>, action: Option<&str>) -> (r: Result<
    TeacherAction,
    Refusal,
>)
    ensures
        r == teacher_request(
            glob.users@,
            match uname {
                Some(u) => Some(u@),
                None => None,
            },
            match action {
                Some(a) => Some(a@),
                None => None,
            },
        ),
{
    let uname = match uname {
        Some(u) => u,
        None => {
            return Err(Refusal::UnknownSender);
        },
    };
    match glob.user(uname) {
        Some(User::Teacher(_)) => {},
        Some(_) => {
            return Err(Refusal::Forbidden);
        },
        None => {
            return Err(Refusal::UnknownSender);
        },
    }
    let action = match action {
        Some(a) => a,
        None => {
            return Err(Refusal::NoAction);
        },
    };
    match parse_action(action) {
        Some(a) => Ok(a),
        None => Err(Refusal::UnknownAction),
    }
}

/// The date that an optional text stands for: none for no text, and for a
/// text the date that is written in it, if one is.
pub open spec fn maybe_date(text: Option<Seq<char>>) -> Result<Option<Date>, Seq<char>> {
    match text {
        None => Ok(None),
        Some(t) => match iso_date(t) {
            Some(d) => Ok(Some(d)),
            None => Err("Unable to parse "@ + t + " as Date."@),
        },
    }
}

/// Reads an optional date.
pub fn maybe_parse_date(date_opt: Option<&str>) -> (r: Result<Option<Date>, String>)
    ensures
        match r {
            Ok(d) => maybe_date(
                match date_opt {
                    Some(t) => Some(t@),
                    None => None,
                },
            ) == Ok::<Option<Date>, Seq<char>>(d) && (d matches Some(x) ==> x.valid()),
            Err(e) => maybe_date(
                match date_opt {
                    Some(t) => Some(t@),
                    None => None,
                },
            ) == Err::<Option<Date>, Seq<char>>(e@),
        },
{
    match date_opt {
        Some(date_str) => match Date::parse(date_str) {
            Some(d) => Ok(Some(d)),
            None => {
                let mut msg = String::from_str("Unable to parse ");
                msg.append(date_str);
                msg.append(" as Date.");
                Err(msg)
            },
        },
        None => Ok(None),
    }
}

/// A goal as it goes to and comes from a teacher's page.
#[derive(Debug)]
pub struct GoalData {
    pub id: i64,
    pub uname: String,
    pub sym: String,
    pub seq: i16,
    pub rev: bool,
    pub inc: bool,
    pub due: Option<String>,
    pub done: Option<String>,
    pub tries: i16,
    pub weight: u32,
    pub score: Option<String>,
}

/// Why what came from a teacher's page is no goal.
#[derive(Clone, Copy, Debug, PartialEq, Eq, Structural)]
pub enum GoalDataError {
    /// The score is no score.
    BadScore(ScoreError),
    /// The due date is no date.
    BadDue,
    /// The day of completion is no date.
    BadDone,
}

/// Why what came from a teacher's page is no goal, if it is none.
pub open spec fn goal_data_error(d: GoalData) -> Option<GoalDataError> {
    match maybe_score_of(opt_view(d.score)) {
        Err(e) => Some(GoalDataError::BadScore(e)),
        Ok(_) => if maybe_date(opt_view(d.due)) is Err {
            Some(GoalDataError::BadDue)
        } else if maybe_date(opt_view(d.done)) is Err {
            Some(GoalDataError::BadDone)
        } else {
            None
        },
    }
}

impl GoalData {
    /// The goal that these data stand for: a chapter of a book, with the
    /// dates read from their texts. The score has to be one, or none.
    pub fn into_goal(self) -> (r: Result<Goal, GoalDataError>)
        ensures
            match r {
                Ok(g) => {
                    &&& goal_data_error(self) is None
                    &&& g.id == self.id
                    &&& g.uname == self.uname
                    &&& g.source matches Source::Book(b) && b.sym == self.sym && b.seq == self.seq
                        && b.level == 0
                    &&& g.review == self.rev
                    &&& g.incomplete == self.inc
                    &&& maybe_date(opt_view(self.due)) == Ok::<Option<Date>, Seq<char>>(g.due)
                    &&& maybe_date(opt_view(self.done)) == Ok::<Option<Date>, Seq<char>>(g.done)
                    &&& g.tries == self.tries
                    &&& g.weight == self.weight
                    &&& g.score == self.score
                },
                Err(e) => goal_data_error(self) == Some(e),
            },
    {
        let text: Option<&str> = match &self.score {
            Some(s) => Some(s.as_str()),
            None => None,
        };
        match maybe_parse_score_str(text) {
            Ok(_) => {},
            Err(e) => {
                return Err(GoalDataError::BadScore(e));
            },
        }
        let due_text: Option<&str> = match &self.due {
            Some(s) => Some(s.as_str()),
            None => None,
        };
        let due = match maybe_parse_date(due_text) {
            Ok(d) => d,
            Err(_) => {
                return Err(GoalDataError::BadDue);
            },
        };
        let done_text: Option<&str> = match &self.done {
            Some(s) => Some(s.as_str()),
            None => None,
        };
        let done = match maybe_parse_date(done_text) {
            Ok(d) => d,
            Err(_) => {
                return Err(GoalDataError::BadDone);
            },
        };
        Ok(
            Goal {
                id: self.id,
                uname: self.uname,
                source: Source::Book(BookCh { sym: self.sym, seq: self.seq, level: 0 }),
                review: self.rev,
                incomplete: self.inc,
                due,
                done,
                tries: self.tries,
                weight: self.weight,
                score: self.score,
            },
        )
    }
}

/// A chapter as it goes to a teacher's page: with its share of the course
/// for a weight.
#[derive(Debug)]
pub struct ChapterData {
    pub id: i64,
    pub sym: String,
    pub seq: i16,
    pub title: String,
    pub subject: Option<String>,
    /// The chapter's share of its course, in millionths.
    pub weight: u32,
}

/// A course as it goes to a teacher's page.
#[derive(Debug)]
pub struct CourseData {
    pub id: i64,
    pub sym: String,
    pub book: Option<String>,
    pub title: String,
    pub level: i64,
    /// The total weight of the chapters.
    pub weight: u64,
    pub chapters: Vec<ChapterData>,
}

/// Why a course does not go to a teacher's page.
#[derive(Clone, Copy, Debug, PartialEq, Eq, Structural)]
pub enum CourseDataError {
    /// The course has no total weight.
    Unweighted,
    /// The course weighs too little to divide by.
    TooLight,
}

/// The chapter at place `i` of a course, as it goes to a teacher's page.
pub open spec fn is_chapter_data(d: ChapterData, crs: Course, i: int) -> bool {
    let ch = crs.chapters@[i];
    &&& d.id == ch.id
    &&& d.sym == crs.sym
    &&& d.seq == ch.seq
    &&& d.title == ch.title
    &&& d.subject == ch.subject
    &&& d.weight == share(ch.weight, crs.weight->0)
}

impl CourseData {
    /// The course in the shape of a teacher's page: each chapter with its
    /// share of the course for a weight. A course that weighs less than a
    /// ten-thousandth is refused, and so is one without a total weight.
    pub fn from_course(crs: &Course) -> (r: Result<CourseData, CourseDataError>)
        requires
            crs.wf(),
        ensures
            match r {
                Ok(d) => {
                    &&& crs.weight matches Some(w) && w >= MIN_COURSE_WEIGHT
                    &&& d.id == crs.id
                    &&& d.sym == crs.sym
                    &&& d.book == crs.book
                    &&& d.title == crs.title
                    &&& d.level == crs.level
                    &&& d.weight == crs.weight->0
                    &&& d.chapters@.len() == crs.chapters@.len()
                    &&& forall|i: int|
                        0 <= i < d.chapters@.len() ==> is_chapter_data(#[trigger] d.chapters@[i], *crs, i)
                },
                Err(e) => e == match crs.weight {
                    None => CourseDataError::Unweighted,
                    Some(_) => CourseDataError::TooLight,
                } && !(crs.weight matches Some(w) && w >= MIN_COURSE_WEIGHT),
            },
    {
        let tot_wgt = match crs.weight {
            None => {
                return Err(CourseDataError::Unweighted);
            },
            Some(w) => {
                if w < MIN_COURSE_WEIGHT {
                    return Err(CourseDataError::TooLight);
                } else {
                    w
                }
            },
        };
        let n = crs.chapters.len();
        let mut chapters: Vec<ChapterData> = Vec::new();
        let mut i: usize = 0;
        while i < n
            invariant
                i <= n == crs.chapters@.len(),
                crs.wf(),
                crs.weight == Some(tot_wgt),
                tot_wgt >= MIN_COURSE_WEIGHT,
                chapters@.len() == i,
                forall|k: int| 0 <= k < i ==> is_chapter_data(#[trigger] chapters@[k], *crs, k),
            decreases n - i,
        {
            let ch = &crs.chapters[i];
            proof {
                lemma_total_weight_covers(crs.chapters@, i as int);
                lemma_share_bounded(ch.weight, tot_wgt);
            }
            let weight: u64 = (ch.weight as u64 * UNIT as u64) / tot_wgt;
            chapters.push(
                ChapterData {
                    id: ch.id,
                    sym: crs.sym.clone(),
                    seq: ch.seq,
                    title: ch.title.clone(),
                    subject: ch.subject.clone(),
                    weight: weight as u32,
                },
            );
            i += 1;
        }
        Ok(
            CourseData {
                id: crs.id,
                sym: crs.sym.clone(),
                book: crs.book.clone(),
                title: crs.title.clone(),
                level: crs.level,
                weight: tot_wgt,
                chapters,
            },
        )
    }
}

/// A pace calendar as it goes to and comes from a teacher's page.
#[derive(Debug)]
pub struct PaceData {
    pub uname: String,
    pub last: String,
    pub rest: String,
    pub tuname: String,
    pub total_weight: u64,
    pub due_weight: u64,
    pub done_weight: u64,
    pub goals: Vec<GoalData>,
    /// Fall and spring exams.
    pub fex: Option<String>,
    pub sex: Option<String>,
    pub fex_frac: u32,
    pub sex_frac: u32,
    /// Fall and spring notices.
    pub fnot: i16,
    pub snot: i16,
}

/// Why a pace calendar does not go to a teacher's page.
#[derive(Clone, Copy, Debug, PartialEq, Eq, Structural)]
pub enum PaceDataError {
    /// A goal is not a chapter of a book.
    CustomSource,
    /// A goal's due date or day of completion is no day that exists.
    BadDate,
}

/// The text of a day that is set.
pub open spec fn day_text(d: Option<Date>) -> Option<Seq<char>> {
    match d {
        Some(x) => Some(iso_text(x)),
        None => None,
    }
}

/// The goal as it goes to a teacher's page. The student's name is left out.
pub open spec fn is_goal_data(d: GoalData, g: Goal) -> bool {
    &&& g.source is Book
    &&& d.id == g.id
    &&& d.uname@ == ""@
    &&& d.sym == g.source->Book_0.sym
    &&& d.seq == g.source->Book_0.seq
    &&& d.rev == g.review
    &&& d.inc == g.incomplete
    &&& opt_view(d.due) == day_text(g.due)
    &&& opt_view(d.done) == day_text(g.done)
    &&& d.tries == g.tries
    &&& d.weight == g.weight
    &&& d.score == g.score
}

/// The goal can go to a teacher's page: it is a chapter of a book, and the
/// days that are set exist.
pub open spec fn goal_goes(g: Goal) -> Option<PaceDataError> {
    if !(g.source is Book) {
        Some(PaceDataError::CustomSource)
    } else if !(crate::inter::student::day_exists(g.due) && crate::inter::student::day_exists(
        g.done,
    )) {
        Some(PaceDataError::BadDate)
    } else {
        None
    }
}

/// Why the goals do not go to a teacher's page: what is wrong with the first
/// of them that does not.
pub open spec fn goals_go(goals: Seq<Goal>) -> Option<PaceDataError>
    decreases goals.len(),
{
    if goals.len() == 0 {
        None
    } else {
        match goals_go(goals.drop_last()) {
            Some(e) => Some(e),
            None => goal_goes(goals.last()),
        }
    }
}

proof fn lemma_goals_go_fails(goals: Seq<Goal>, k: int)
    requires
        0 <= k <= goals.len(),
        goals_go(goals.take(k)) is Some,
    ensures
        goals_go(goals) == goals_go(goals.take(k)),
    decreases goals.len() - k,
{
    if k == goals.len() {
        assert(goals.take(k) =~= goals);
    } else {
        assert(goals.take(k + 1).drop_last() =~= goals.take(k));
        lemma_goals_go_fails(goals, k + 1);
    }
}

impl PaceData {
    /// The pace calendar in the shape of a teacher's page.
    pub fn from_pace(pcal: &Pace) -> (r: Result<PaceData, PaceDataError>)
        ensures
            match r {
                Ok(d) => {
                    &&& goals_go(pcal.goals@) is None
                    &&& d.uname == pcal.student.base.uname
                    &&& d.last == pcal.student.last
                    &&& d.rest == pcal.student.rest
                    &&& d.tuname == pcal.teacher.base.uname
                    &&& d.total_weight == pcal.total_weight
                    &&& d.due_weight == pcal.due_weight
                    &&& d.done_weight == pcal.done_weight
                    &&& d.fex == pcal.student.fall_exam
                    &&& d.sex == pcal.student.spring_exam
                    &&& d.fex_frac == pcal.student.fall_exam_fraction
                    &&& d.sex_frac == pcal.student.spring_exam_fraction
                    &&& d.fnot == pcal.student.fall_notices
                    &&& d.snot == pcal.student.spring_notices
                    &&& d.goals@.len() == pcal.goals@.len()
                    &&& forall|i: int|
                        0 <= i < d.goals@.len() ==> is_goal_data(#[trigger] d.goals@[i], pcal.goals@[i])
                },
                Err(e) => goals_go(pcal.goals@) == Some(e),
            },
    {
        let n = pcal.goals.len();
        let mut goals: Vec<GoalData> = Vec::new();
        let mut i: usize = 0;
        assert(pcal.goals@.take(0) =~= Seq::<Goal>::empty());
        while i < n
            invariant
                i <= n == pcal.goals@.len(),
                goals@.len() == i,
                goals_go(pcal.goals@.take(i as int)) is None,
                forall|k: int| 0 <= k < i ==> is_goal_data(#[trigger] goals@[k], pcal.goals@[k]),
            decreases n - i,
        {
            let g = &pcal.goals[i];
            proof {
                assert(pcal.goals@.take(i + 1).drop_last() =~= pcal.goals@.take(i as int));
                assert(pcal.goals@.take(i + 1).last() == pcal.goals@[i as int]);
            }
            let src = match &g.source {
                Source::Book(bch) => bch,
                _ => {
                    proof {
                        lemma_goals_go_fails(pcal.goals@, i + 1);
                    }
                    return Err(PaceDataError::CustomSource);
                },
            };
            let due_ok = match &g.due {
                Some(d) => d.is_valid(),
                None => true,
            };
            let done_ok = match &g.done {
                Some(d) => d.is_valid(),
                None => true,
            };
            if !(due_ok && done_ok) {
                proof {
                    lemma_goals_go_fails(pcal.goals@, i + 1);
                }
                return Err(PaceDataError::BadDate);
            }
            let gdat = GoalData {
                id: g.id,
                uname: String::from_str(""),
                sym: src.sym.clone(),
                seq: src.seq,
                rev: g.review,
                inc: g.incomplete,
                due: match &g.due {
                    Some(d) => Some(d.to_string()),
                    None => None,
                },
                done: match &g.done {
                    Some(d) => Some(d.to_string()),
                    None => None,
                },
                tries: g.tries,
                weight: g.weight,
                score: g.score.clone(),
            };
            goals.push(gdat);
            i += 1;
        }
        assert(pcal.goals@.take(n as int) =~= pcal.goals@);
        Ok(
            PaceData {
                uname: pcal.student.base.uname.clone(),
                last: pcal.student.last.clone(),
                rest: pcal.student.rest.clone(),
                tuname: pcal.teacher.base.uname.clone(),
                total_weight: pcal.total_weight,
                due_weight: pcal.due_weight,
                done_weight: pcal.done_weight,
                goals,
                fex: pcal.student.fall_exam.clone(),
                sex: pcal.student.spring_exam.clone(),
                fex_frac: pcal.student.fall_exam_fraction,
                sex_frac: pcal.student.spring_exam_fraction,
                fnot: pcal.student.fall_notices,
                snot: pcal.student.spring_notices,
            },
        )
    }
}

} // verus!
