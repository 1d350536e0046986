//! Goals as they are uploaded: one record per goal, with user name, course
//! symbol, chapter number, year, month, day and two marks. User name, symbol,
//! year and month may be left blank in a record that follows another: they
//! are then those of the record before.

use vstd::prelude::*;
use vstd::string::StrSliceExecFns;
use crate::config::{course_index, user_index, Glob};
use crate::course::{chapter_index, MIN_COURSE_WEIGHT};
use crate::date::{is_calendar_date, Date};
use crate::listing::is_listed;
use crate::order::{is_ordered, lemma_sorted_of_ordered, sort, sorted_of};
use crate::pace::{
    affirm_goal, affirmed, share, total_weight_of, weight_sum, BookCh, Goal, Pace, Source,
};
use crate::records::{csv_table, locate, located, read_csv, Record, RecordView, Table, TableView};
use crate::store::goals::goal_of;
use crate::text::{
    blank_is_none, decimal, decimal_string, integer_between, is_blank, is_clean,
    lemma_clean_stays, lemma_decimal_is_clean, lemma_signed_decimal_reads_back,
    lemma_trimmed_is_clean, parse_integer, signed_decimal, signed_decimal_string, trim,
};
use crate::user::{Student, Teacher, User};

verus! {

/// A field that is blank holds nothing; any other holds what is left after trimming.
pub fn blank_means_none(s: Option<&str>) -> (r: Option<&str>)
    ensures
        match r {
            Some(t) => blank_is_none(
                match s {
                    Some(x) => Some(x@),
                    None => None,
                },
            ) == Some(t@),
            None => blank_is_none(
                match s {
                    Some(x) => Some(x@),
                    None => None,
                },
            ) is None,
        },
{
    match s {
        Some(x) => {
            let t = trim(x);
            if t.unicode_len() == 0 {
                None
            } else {
                Some(t)
            }
        },
        None => None,
    }
}

/// What a record of an upload says of a goal.
pub struct GoalLine {
    pub uname: Seq<char>,
    pub sym: Seq<char>,
    pub seq: i16,
    pub due: Date,
    pub review: bool,
    pub incomplete: bool,
}

/// What a goal held before says to the record that follows it.
pub struct Carried {
    pub uname: Seq<char>,
    /// The course symbol, if the goal is a chapter of a book.
    pub sym: Option<Seq<char>>,
    pub due: Option<Date>,
}

/// What `g` hands on to the record after it.
pub open spec fn carried(g: Goal) -> Carried {
    Carried {
        uname: g.uname@,
        sym: match g.source {
            Source::Book(b) => Some(b.sym@),
            Source::Custom(_) => None,
        },
        due: g.due,
    }
}

/// What the field at place `i` holds.
pub open spec fn field(fields: Seq<Seq<char>>, i: int) -> Option<Seq<char>> {
    blank_is_none(
        if i < fields.len() {
            Some(fields[i])
        } else {
            None
        },
    )
}

pub open spec fn cannot_parse(text: Seq<char>, what: Seq<char>) -> Seq<char> {
    "Unable to parse "@ + text + " as "@ + what + "."@
}

pub open spec fn not_a_date(y: int, m: int, d: int) -> Seq<char> {
    signed_decimal(y) + "-"@ + decimal(m as nat) + "-"@ + decimal(d as nat) + " is not a valid date"@
}

/// What a record says of a goal, given what the record before hands on, or
/// what is wrong with the record.
pub open spec fn goal_line(fields: Seq<Seq<char>>, prev: Option<Carried>) -> Result<GoalLine, Seq<char>> {
    let uname = match field(fields, 0) {
        Some(s) => Some(s),
        None => match prev {
            Some(p) => Some(p.uname),
            None => None,
        },
    };
    if uname is None {
        Err("No uname"@)
    } else if field(fields, 2) is None {
        Err("No chapter number."@)
    } else if integer_between(field(fields, 2)->0, true, i16::MIN as int, i16::MAX as int) is None {
        Err(cannot_parse(field(fields, 2)->0, "number"@))
    } else {
        let seq = integer_between(field(fields, 2)->0, true, i16::MIN as int, i16::MAX as int)->0;
        let sym = match field(fields, 1) {
            Some(s) => Some(s),
            None => match prev {
                Some(p) => p.sym,
                None => None,
            },
        };
        if sym is None {
            Err("No course symbol."@)
        } else {
            match year_of(fields, prev) {
                Err(e) => Err(e),
                Ok(y) => match month_of(fields, prev) {
                    Err(e) => Err(e),
                    Ok(m) => if field(fields, 5) is None {
                        Err("No day"@)
                    } else if integer_between(field(fields, 5)->0, false, 0, 255) is None {
                        Err(cannot_parse(field(fields, 5)->0, "day number"@))
                    } else {
                        let d = integer_between(field(fields, 5)->0, false, 0, 255)->0;
                        if !is_calendar_date(y, m, d) {
                            Err(not_a_date(y, m, d))
                        } else {
                            Ok(
                                GoalLine {
                                    uname: uname->0,
                                    sym: sym->0,
                                    seq: seq as i16,
                                    due: Date { year: y as i32, month: m as u8, day: d as u8 },
                                    review: field(fields, 6) is Some,
                                    incomplete: field(fields, 7) is Some,
                                },
                            )
                        }
                    },
                },
            }
        }
    }
}

/// The year of a record: as written, or that of the goal before.
pub open spec fn year_of(fields: Seq<Seq<char>>, prev: Option<Carried>) -> Result<int, Seq<char>> {
    match field(fields, 3) {
        Some(s) => match integer_between(s, true, i32::MIN as int, i32::MAX as int) {
            Some(y) => Ok(y),
            None => Err(cannot_parse(s, "year"@)),
        },
        None => match prev {
            Some(p) => match p.due {
                Some(d) => Ok(d.year as int),
                None => Err("No year"@),
            },
            None => Err("No year"@),
        },
    }
}

/// The month of a record, from 1 to 12: as written, or that of the goal before.
pub open spec fn month_of(fields: Seq<Seq<char>>, prev: Option<Carried>) -> Result<int, Seq<char>> {
    match field(fields, 4) {
        Some(s) => match integer_between(s, false, 0, 255) {
            Some(m) => if 1 <= m <= 12 {
                Ok(m)
            } else {
                Err("Not an appropriate Month value: "@ + decimal(m as nat))
            },
            None => Err(cannot_parse(s, "month number"@)),
        },
        None => match prev {
            Some(p) => match p.due {
                Some(d) => Ok(d.month as int),
                None => Err("No month"@),
            },
            None => Err("No month"@),
        },
    }
}

/// The goal is what the record says: new, not completed, without try, score,
/// weight or level.
pub open spec fn goal_is_line(g: Goal, line: GoalLine) -> bool {
    &&& g.id == 0
    &&& g.uname@ == line.uname
    &&& g.source matches Source::Book(b) && b.sym@ == line.sym && b.seq == line.seq && b.level == 0
    &&& g.review == line.review
    &&& g.incomplete == line.incomplete
    &&& g.due == Some(line.due)
    &&& g.done is None
    &&& g.tries == 0
    &&& g.weight == 0
    &&& g.score is None
}

fn cannot_parse_message(text: &str, what: &str) -> (r: String)
    ensures
        r@ == cannot_parse(text@, what@),
{
    let mut s = String::from_str("Unable to parse ");
    s.append(text);
    s.append(" as ");
    s.append(what);
    s.append(".");
    s
}

fn read_year(row: &Record, prev: Option<&Goal>) -> (r: Result<i32, String>)
    ensures
        match r {
            Ok(y) => year_of(
                row@.fields,
                match prev {
                    Some(g) => Some(carried(*g)),
                    None => None,
                },
            ) == Ok::<int, Seq<char>>(y as int),
            Err(e) => year_of(
                row@.fields,
                match prev {
                    Some(g) => Some(carried(*g)),
                    None => None,
                },
            ) == Err::<int, Seq<char>>(e@),
        },
{
    match blank_means_none(row.get(3)) {
        Some(s) => match parse_integer(s, true, i32::MIN as i64, i32::MAX as i64) {
            Some(n) => Ok(n as i32),
            None => Err(cannot_parse_message(s, "year")),
        },
        None => match prev {
            Some(g) => match g.due {
                Some(d) => Ok(d.year),
                None => Err(String::from_str("No year")),
            },
            None => Err(String::from_str("No year")),
        },
    }
}

fn read_month(row: &Record, prev: Option<&Goal>) -> (r: Result<u8, String>)
    ensures
        match r {
            Ok(m) => month_of(
                row@.fields,
                match prev {
                    Some(g) => Some(carried(*g)),
                    None => None,
                },
            ) == Ok::<int, Seq<char>>(m as int),
            Err(e) => month_of(
                row@.fields,
                match prev {
                    Some(g) => Some(carried(*g)),
                    None => None,
                },
            ) == Err::<int, Seq<char>>(e@),
        },
{
    match blank_means_none(row.get(4)) {
        Some(s) => match parse_integer(s, false, 0, 255) {
            Some(n) => if 1 <= n && n <= 12 {
                Ok(n as u8)
            } else {
                let mut msg = String::from_str("Not an appropriate Month value: ");
                msg.append(decimal_string(n as u64).as_str());
                Err(msg)
            },
            None => Err(cannot_parse_message(s, "month number")),
        },
        None => match prev {
            Some(g) => match g.due {
                Some(d) => Ok(d.month),
                None => Err(String::from_str("No month")),
            },
            None => Err(String::from_str("No month")),
        },
    }
}

impl Goal {
    /// Reads a goal from a record: user name, course symbol, chapter number,
    /// year, month, day, and the marks for review and incomplete, which are
    /// set by any text at all. `prev` is the goal of the record before.
    pub fn from_csv_line(row: &Record, prev: Option<&Goal>) -> (r: Result<Goal, String>)
        ensures
            match r {
                Ok(g) => goal_line(
                    row@.fields,
                    match prev {
                        Some(p) => Some(carried(*p)),
                        None => None,
                    },
                ) matches Ok(line) && goal_is_line(g, line),
                Err(e) => goal_line(
                    row@.fields,
                    match prev {
                        Some(p) => Some(carried(*p)),
                        None => None,
                    },
                ) == Err::<GoalLine, Seq<char>>(e@),
            },
    {
        let uname = match blank_means_none(row.get(0)) {
            Some(s) => String::from_str(s),
            None => match prev {
                Some(g) => g.uname.clone(),
                None => {
                    return Err(String::from_str("No uname"));
                },
            },
        };
        let seq: i16 = match blank_means_none(row.get(2)) {
            Some(s) => match parse_integer(s, true, i16::MIN as i64, i16::MAX as i64) {
                Some(n) => n as i16,
                None => {
                    return Err(cannot_parse_message(s, "number"));
                },
            },
            None => {
                return Err(String::from_str("No chapter number."));
            },
        };
        let sym = match blank_means_none(row.get(1)) {
            Some(s) => String::from_str(s),
            None => match prev {
                Some(g) => match &g.source {
                    Source::Book(bch) => bch.sym.clone(),
                    Source::Custom(_) => {
                        return Err(String::from_str("No course symbol."));
                    },
                },
                None => {
                    return Err(String::from_str("No course symbol."));
                },
            },
        };
        let y = match read_year(row, prev) {
            Ok(y) => y,
            Err(e) => {
                return Err(e);
            },
        };
        let m = match read_month(row, prev) {
            Ok(m) => m,
            Err(e) => {
                return Err(e);
            },
        };
        let d: u8 = match blank_means_none(row.get(5)) {
            Some(s) => match parse_integer(s, false, 0, 255) {
                Some(n) => n as u8,
                None => {
                    return Err(cannot_parse_message(s, "day number"));
                },
            },
            None => {
                return Err(String::from_str("No day"));
            },
        };
        let due = match Date::from_calendar_date(y, m, d) {
            Some(d) => d,
            None => {
                let mut msg = signed_decimal_string(y as i64);
                msg.append("-");
                msg.append(decimal_string(m as u64).as_str());
                msg.append("-");
                msg.append(decimal_string(d as u64).as_str());
                msg.append(" is not a valid date");
                return Err(msg);
            },
        };
        let review = blank_means_none(row.get(6)).is_some();
        let incomplete = blank_means_none(row.get(7)).is_some();
        Ok(
            Goal {
                id: 0,
                uname,
                source: Source::Book(BookCh { sym, seq, level: 0 }),
                review,
                incomplete,
                due: Some(due),
                done: None,
                tries: 0,
                weight: 0,
                score: None,
            },
        )
    }
}

/// The weight and the level that the working set gives to a chapter of a
/// book as a goal of a student, or the words in which it refuses the goal.
pub open spec fn weighed(uname: Seq<char>, sym: Seq<char>, seq: i16, glob: Glob) -> Result<
    (u32, i64),
    Seq<char>,
> {
    let is_student = match user_index(glob.users@, uname) {
        Some(i) => glob.users@[i] is Student,
        None => false,
    };
    if !is_student {
        Err(uname + " is not a student user name."@)
    } else {
        match course_index(glob.courses@, sym) {
            None => Err(sym + " is not a course symbol."@),
            Some(ci) => {
                let crs = glob.courses@[ci];
                match chapter_index(crs.chapters@, seq) {
                    None => Err("Course "@ + sym + " does not have that chapter."@),
                    Some(k) => match crs.weight {
                        None => Err("Course "@ + sym + " has not been given a total weight."@),
                        Some(w) => if w < MIN_COURSE_WEIGHT {
                            Err("Total weight of course "@ + sym + " risks division by zero."@)
                        } else {
                            Ok((share(crs.chapters@[k].weight, w) as u32, crs.level))
                        },
                    },
                }
            },
        }
    }
}

/// What affirming a goal that is a chapter of a book comes to, in terms of
/// what the goal says.
pub proof fn lemma_affirmed_weighed(g: Goal, glob: Glob)
    requires
        g.source is Book,
    ensures
        match affirmed(g, glob) {
            Ok(a) => {
                &&& weighed(g.uname@, g.source->Book_0.sym@, g.source->Book_0.seq, glob) == Ok::<
                    (u32, i64),
                    Seq<char>,
                >((a.weight, a.source->Book_0.level))
                &&& a.source is Book
                &&& a.id == g.id
                &&& a.uname == g.uname
                &&& a.source->Book_0.sym == g.source->Book_0.sym
                &&& a.source->Book_0.seq == g.source->Book_0.seq
                &&& a.review == g.review
                &&& a.incomplete == g.incomplete
                &&& a.due == g.due
                &&& a.done == g.done
                &&& a.tries == g.tries
                &&& a.score == g.score
            },
            Err(e) => weighed(g.uname@, g.source->Book_0.sym@, g.source->Book_0.seq, glob) == Err::<
                (u32, i64),
                Seq<char>,
            >(e.text()),
        },
{
}

/// What a record of an upload says of a goal, with the weight and the level
/// that the working set gives it.
pub struct WeighedLine {
    pub line: GoalLine,
    pub weight: u32,
    pub level: i64,
}

/// What the last of the lines hands on to the record after it.
pub open spec fn handed_on(lines: Seq<WeighedLine>) -> Option<Carried> {
    if lines.len() > 0 {
        Some(
            Carried {
                uname: lines.last().line.uname,
                sym: Some(lines.last().line.sym),
                due: Some(lines.last().line.due),
            },
        )
    } else {
        None
    }
}

/// What the records of an upload say, each weighed, or the report of the
/// first record that says nothing or whose goal the working set refuses.
pub open spec fn upload_lines(rows: Seq<RecordView>, glob: Glob) -> Result<
    Seq<WeighedLine>,
    Seq<char>,
>
    decreases rows.len(),
{
    if rows.len() == 0 {
        Ok(Seq::empty())
    } else {
        match upload_lines(rows.drop_last(), glob) {
            Err(e) => Err(e),
            Ok(v) => match goal_line(rows.last().fields, handed_on(v)) {
                Err(m) => Err(located(rows.last().line, (rows.len() - 1) as nat, m)),
                Ok(line) => match weighed(line.uname, line.sym, line.seq, glob) {
                    Err(m) => Err(located(rows.last().line, (rows.len() - 1) as nat, m)),
                    Ok((weight, level)) => Ok(v.push(WeighedLine { line, weight, level })),
                },
            },
        }
    }
}

/// What an upload says: what its records say, unless reading stopped early.
pub open spec fn upload_of(table: TableView, glob: Glob) -> Result<Seq<WeighedLine>, Seq<char>> {
    match upload_lines(table.rows, glob) {
        Err(e) => Err(e),
        Ok(v) => match table.fault {
            Some(f) => Err(located(f.line, table.rows.len(), f.message)),
            None => Ok(v),
        },
    }
}

pub proof fn lemma_upload_lines_fails(rows: Seq<RecordView>, glob: Glob, k: int)
    requires
        0 <= k <= rows.len(),
        upload_lines(rows.take(k), glob) is Err,
    ensures
        upload_lines(rows, glob) == upload_lines(rows.take(k), glob),
    decreases rows.len() - k,
{
    if k == rows.len() {
        assert(rows.take(k) =~= rows);
    } else {
        assert(rows.take(k + 1).drop_last() =~= rows.take(k));
        lemma_upload_lines_fails(rows, glob, k + 1);
    }
}

/// The goal is what the weighed line says.
pub open spec fn goal_is_weighed(g: Goal, w: WeighedLine) -> bool {
    &&& g.id == 0
    &&& g.uname@ == w.line.uname
    &&& g.source matches Source::Book(b) && b.sym@ == w.line.sym && b.seq == w.line.seq && b.level
        == w.level
    &&& g.review == w.line.review
    &&& g.incomplete == w.line.incomplete
    &&& g.due == Some(w.line.due)
    &&& g.done is None
    &&& g.tries == 0
    &&& g.weight == w.weight
    &&& g.score is None
}

/// The goals are what the weighed lines say, one for one.
pub open spec fn goals_are(goals: Seq<Goal>, lines: Seq<WeighedLine>) -> bool {
    &&& goals.len() == lines.len()
    &&& forall|i: int| 0 <= i < goals.len() ==> goal_is_weighed(#[trigger] goals[i], lines[i])
}

/// The user names of the goals, each once, in the order in which they first occur.
pub open spec fn first_seen(goals: Seq<Goal>) -> Seq<Seq<char>>
    decreases goals.len(),
{
    if goals.len() == 0 {
        Seq::empty()
    } else {
        let head = first_seen(goals.drop_last());
        if head.contains(goals.last().uname@) {
            head
        } else {
            head.push(goals.last().uname@)
        }
    }
}

/// Whether the goals of the student named `name` can be put together: the
/// working set holds the student and the student's teacher, and the goals'
/// weights can be added up.
pub open spec fn can_group(name: Seq<char>, goals: Seq<Goal>, glob: Glob) -> bool {
    &&& user_index(glob.users@, name) matches Some(i)
    &&& glob.users@[user_index(glob.users@, name)->0] matches User::Student(s)
    &&& crate::store::is_teacher(
        glob.users@,
        glob.users@[user_index(glob.users@, name)->0]->Student_0.teacher@,
    )
    &&& weight_sum(sorted_of(goals.filter(goal_of(name)))) <= u64::MAX
}

/// The words in which the goals of the student named `name` are not put
/// together, if they are not.
pub open spec fn group_refusal(name: Seq<char>, goals: Seq<Goal>, glob: Glob) -> Option<Seq<char>> {
    if !crate::store::is_student(glob.users@, name) {
        Some(name + " is not a Student user name."@)
    } else {
        let s = glob.users@[user_index(glob.users@, name)->0]->Student_0;
        if !crate::store::is_teacher(glob.users@, s.teacher@) {
            Some("Student "@ + name + " has a nonexistent teacher on record: "@ + s.teacher@)
        } else if weight_sum(sorted_of(goals.filter(goal_of(name)))) > u64::MAX {
            Some("The weights of the goals are too large to add up."@)
        } else {
            None
        }
    }
}

/// The goals of the student of this name are not put together.
pub open spec fn ungrouped(goals: Seq<Goal>, glob: Glob) -> spec_fn(Seq<char>) -> bool {
    |name: Seq<char>| group_refusal(name, goals, glob) is Some
}

/// The words in which goals are not put together student by student, if they
/// are not: those for the first student, in the order in which the students
/// first occur, whose goals are not.
pub open spec fn grouping_refusal(goals: Seq<Goal>, glob: Glob) -> Option<Seq<char>> {
    match crate::seqs::first_where(first_seen(goals), ungrouped(goals, glob)) {
        Some(k) => group_refusal(first_seen(goals)[k], goals, glob),
        None => None,
    }
}

/// `p` holds the goals of the student named `name`, in order, with their
/// total weight; what is due and what is done is not counted.
pub open spec fn pace_from(p: Pace, name: Seq<char>, goals: Seq<Goal>, glob: Glob) -> bool {
    &&& can_group(name, goals, glob)
    &&& p.student == glob.users@[user_index(glob.users@, name)->0]->Student_0
    &&& p.teacher == glob.users@[user_index(glob.users@, p.student.teacher@)->0]->Teacher_0
    &&& p.goals@ == sorted_of(goals.filter(goal_of(name)))
    &&& is_ordered(p.goals@)
    &&& p.total_weight == weight_sum(p.goals@)
    &&& p.due_weight == 0
    &&& p.done_weight == 0
}

/// The goals student by student, for the students of these names: each
/// student's goals in order, after those of the students named earlier.
pub open spec fn grouped(goals: Seq<Goal>, names: Seq<Seq<char>>) -> Seq<Goal>
    decreases names.len(),
{
    if names.len() == 0 {
        Seq::empty()
    } else {
        grouped(goals, names.drop_last()) + sorted_of(goals.filter(goal_of(names.last())))
    }
}

/// `paces` hold the goals student by student, in the order in which the
/// students first occur among the goals.
pub open spec fn paces_from(paces: Seq<Pace>, goals: Seq<Goal>, glob: Glob) -> bool {
    &&& paces.len() == first_seen(goals).len()
    &&& forall|k: int|
        #![trigger paces[k]]
        #![trigger first_seen(goals)[k]]
        0 <= k < paces.len() ==> pace_from(paces[k], first_seen(goals)[k], goals, glob)
}

impl Goal {
    /// Reads a goal from each record of an upload and has the working set
    /// affirm it. The first record that cannot be read, or whose goal is
    /// refused, is reported with its line.
    pub fn vec_from_rows(table: &Table, glob: &Glob) -> (r: Result<Vec<Goal>, String>)
        requires
            glob.cache_wf(),
        ensures
            match r {
                Ok(v) => upload_of(table@, *glob) matches Ok(lines) && goals_are(v@, lines),
                Err(e) => upload_of(table@, *glob) == Err::<Seq<WeighedLine>, Seq<char>>(e@),
            },
    {
        let n = table.rows.len();
        let ghost rows = table@.rows;
        let mut goals: Vec<Goal> = Vec::new();
        let mut i: usize = 0;
        assert(rows.take(0) =~= Seq::<RecordView>::empty());
        while i < n
            invariant
                i <= n == table.rows@.len() == rows.len(),
                rows == table@.rows,
                glob.cache_wf(),
                upload_lines(rows.take(i as int), *glob) is Ok,
                goals_are(goals@, upload_lines(rows.take(i as int), *glob)->Ok_0),
            decreases n - i,
        {
            let ghost lines = upload_lines(rows.take(i as int), *glob)->Ok_0;
            proof {
                assert(rows.take(i + 1).drop_last() =~= rows.take(i as int));
                assert(rows.take(i + 1).last() == rows[i as int]);
                assert(rows[i as int] == table.rows@[i as int]@);
                if goals@.len() > 0 {
                    assert(goal_is_weighed(goals@[goals@.len() - 1], lines[goals@.len() - 1]));
                    assert(lines.last() == lines[goals@.len() - 1]);
                }
            }
            let prev: Option<&Goal> = if goals.len() > 0 {
                Some(&goals[goals.len() - 1])
            } else {
                None
            };
            assert(match prev {
                Some(p) => Some(carried(*p)),
                None => None,
            } == handed_on(lines));
            let g = match Goal::from_csv_line(&table.rows[i], prev) {
                Ok(g) => g,
                Err(e) => {
                    proof {
                        lemma_upload_lines_fails(rows, *glob, i + 1);
                    }
                    return Err(locate(table.rows[i].line, i, e.as_str()));
                },
            };
            proof {
                lemma_affirmed_weighed(g, *glob);
            }
            match affirm_goal(g, glob) {
                Ok(a) => {
                    let ghost before = goals@;
                    goals.push(a);
                    proof {
                        let now = upload_lines(rows.take(i + 1), *glob)->Ok_0;
                        assert(now.drop_last() =~= lines);
                        assert forall|k: int| 0 <= k < goals@.len() implies goal_is_weighed(
                            #[trigger] goals@[k],
                            now[k],
                        ) by {
                            if k < before.len() {
                                assert(goals@[k] == before[k]);
                                assert(now[k] == lines[k]);
                            }
                        }
                    }
                },
                Err(e) => {
                    proof {
                        lemma_upload_lines_fails(rows, *glob, i + 1);
                    }
                    return Err(locate(table.rows[i].line, i, e.message().as_str()));
                },
            }
            i += 1;
        }
        assert(rows.take(n as int) =~= rows);
        match &table.fault {
            Some(f) => Err(locate(f.line, n, f.message.as_str())),
            None => Ok(goals),
        }
    }
}

impl Pace {
    /// Puts goals together student by student, in the order in which the
    /// students first occur: each student's goals in order, with their total
    /// weight. What is due and what is done is left uncounted.
    pub fn from_goals(goals: &Vec<Goal>, glob: &Glob) -> (r: Result<Vec<Pace>, String>)
        ensures
            match r {
                Ok(paces) => paces_from(paces@, goals@, *glob) && grouping_refusal(goals@, *glob) is None,
                Err(e) => grouping_refusal(goals@, *glob) == Some(e@),
            },
    {
        // The students, in the order in which they first occur.
        let n = goals.len();
        let mut names: Vec<String> = Vec::new();
        let mut i: usize = 0;
        assert(goals@.take(0) =~= Seq::<Goal>::empty());
        assert(crate::text::texts_view(names@) =~= Seq::<Seq<char>>::empty());
        while i < n
            invariant
                i <= n == goals@.len(),
                crate::text::texts_view(names@) == first_seen(goals@.take(i as int)),
            decreases n - i,
        {
            proof {
                assert(goals@.take(i + 1).drop_last() =~= goals@.take(i as int));
                assert(goals@.take(i + 1).last() == goals@[i as int]);
            }
            if !is_listed(&names, goals[i].uname.as_str()) {
                let ghost before = names@;
                names.push(goals[i].uname.clone());
                assert(crate::text::texts_view(names@) =~= crate::text::texts_view(before).push(
                    goals@[i as int].uname@,
                ));
            }
            i += 1;
        }
        assert(goals@.take(n as int) =~= goals@);
        let ghost seen = first_seen(goals@);
        let ghost bad = ungrouped(goals@, *glob);
        // Each student's goals.
        let m = names.len();
        let mut cals: Vec<Pace> = Vec::new();
        let mut k: usize = 0;
        while k < m
            invariant
                k <= m == names@.len() == seen.len(),
                n == goals@.len(),
                seen == first_seen(goals@),
                crate::text::texts_view(names@) == seen,
                cals@.len() == k,
                bad == ungrouped(goals@, *glob),
                forall|x: int| 0 <= x < k ==> !bad(#[trigger] seen[x]),
                forall|x: int|
                    #![trigger cals@[x]]
                    #![trigger seen[x]]
                    0 <= x < k ==> pace_from(cals@[x], seen[x], goals@, *glob),
            decreases m - k,
        {
            let name = names[k].as_str();
            assert(name@ == seen[k as int]) by {
                assert(crate::text::texts_view(names@)[k as int] == names@[k as int]@);
            }
            let student = match glob.user(name) {
                Some(User::Student(s)) => s.clone(),
                _ => {
                    let mut msg = String::from_str(name);
                    msg.append(" is not a Student user name.");
                    proof {
                        crate::seqs::lemma_first_where_is(seen, bad, k as int);
                    }
                    return Err(msg);
                },
            };
            let teacher = match glob.user(student.teacher.as_str()) {
                Some(User::Teacher(t)) => t.clone(),
                _ => {
                    let mut msg = String::from_str("Student ");
                    msg.append(name);
                    msg.append(" has a nonexistent teacher on record: ");
                    msg.append(student.teacher.as_str());
                    proof {
                        crate::seqs::lemma_first_where_is(seen, bad, k as int);
                    }
                    return Err(msg);
                },
            };
            let ghost p = goal_of(name@);
            let mut own: Vec<Goal> = Vec::new();
            let mut j: usize = 0;
            assert(goals@.take(0).filter(p) =~= Seq::<Goal>::empty()) by {
                reveal(Seq::filter);
            }
            while j < n
                invariant
                    j <= n == goals@.len(),
                    p == goal_of(name@),
                    own@ == goals@.take(j as int).filter(p),
                decreases n - j,
            {
                proof {
                    assert(goals@.take(j + 1) =~= goals@.take(j as int).push(goals@[j as int]));
                    goals@.take(j as int).lemma_filter_push(goals@[j as int], p);
                }
                if goals[j].uname.as_str().eq(name) {
                    own.push(goals[j].clone());
                }
                j += 1;
            }
            assert(goals@.take(n as int) =~= goals@);
            sort(&mut own);
            proof {
                lemma_sorted_of_ordered(goals@.filter(p));
            }
            let total_weight = match total_weight_of(&own) {
                Some(w) => w,
                None => {
                    proof {
                        crate::seqs::lemma_first_where_is(seen, bad, k as int);
                    }
                    return Err(
                        String::from_str("The weights of the goals are too large to add up."),
                    );
                },
            };
            let ghost held = cals@;
            cals.push(
                Pace { student, teacher, goals: own, total_weight, due_weight: 0, done_weight: 0 },
            );
            proof {
                assert forall|x: int|
                    #![trigger cals@[x]]
                    #![trigger seen[x]]
                    0 <= x < k + 1 implies pace_from(cals@[x], seen[x], goals@, *glob) by {
                    if x < k {
                        assert(cals@[x] == held[x]);
                    }
                }
            }
            k += 1;
        }
        proof {
            crate::seqs::lemma_first_where_none(seen, bad);
        }
        Ok(cals)
    }

    /// Reads an upload of goals: comma-separated text without a header, in
    /// which lines that begin with `#` are comments. The goals are affirmed by
    /// the working set and put together student by student.
    pub fn from_csv(text: &str, glob: &Glob) -> (r: Result<Vec<Pace>, String>)
        requires
            glob.cache_wf(),
        ensures
            match r {
                Ok(paces) => upload_of(csv_table(text@, true, false), *glob) matches Ok(lines)
                    && exists|goals: Seq<Goal>| #[trigger]
                    goals_are(goals, lines) && paces_from(paces@, goals, *glob) && grouping_refusal(
                        goals,
                        *glob,
                    ) is None,
                Err(e) => match upload_of(csv_table(text@, true, false), *glob) {
                    Err(m) => e@ == m,
                    Ok(lines) => exists|goals: Seq<Goal>| #[trigger]
                        goals_are(goals, lines) && grouping_refusal(goals, *glob) == Some(e@),
                },
            },
    {
        let table = read_csv(text, true, false);
        let goals = match Goal::vec_from_rows(&table, glob) {
            Ok(v) => v,
            Err(e) => {
                return Err(e);
            },
        };
        Pace::from_goals(&goals, glob)
    }
}

/// The mark that is written for a flag that is set, and for one that is not.
pub open spec fn mark(flag: bool) -> Seq<char> {
    if flag {
        "x"@
    } else {
        ""@
    }
}

/// The fields in which a goal is written down, nothing left blank but the
/// marks that are not set.
pub open spec fn goal_fields(line: GoalLine) -> Seq<Seq<char>> {
    seq![
        line.uname,
        line.sym,
        signed_decimal(line.seq as int),
        signed_decimal(line.due.year as int),
        decimal(line.due.month as nat),
        decimal(line.due.day as nat),
        mark(line.review),
        mark(line.incomplete),
    ]
}

/// What a goal hands on is fit to be handed on: the texts are clean.
pub open spec fn carried_clean(c: Option<Carried>) -> bool {
    match c {
        Some(p) => is_clean(p.uname) && (p.sym matches Some(s) ==> is_clean(s)),
        None => true,
    }
}

/// What a record says of a goal is clean: the user name and the symbol are,
/// and the due date is a day that exists.
pub proof fn lemma_goal_line_clean(fields: Seq<Seq<char>>, prev: Option<Carried>)
    requires
        carried_clean(prev),
        goal_line(fields, prev) is Ok,
    ensures
        is_clean(goal_line(fields, prev)->Ok_0.uname),
        is_clean(goal_line(fields, prev)->Ok_0.sym),
        goal_line(fields, prev)->Ok_0.due.valid(),
{
    if field(fields, 0) is Some {
        lemma_trimmed_is_clean(fields[0]);
    }
    if field(fields, 1) is Some {
        lemma_trimmed_is_clean(fields[1]);
    }
}

/// A goal that was read from a record, written down and read again is the
/// same goal, whatever the record before it hands on then: nothing is left
/// blank in what is written down.
pub proof fn lemma_goal_round_trip(fields: Seq<Seq<char>>, prev: Option<Carried>, other: Option<Carried>)
    requires
        carried_clean(prev),
        goal_line(fields, prev) is Ok,
    ensures
        goal_line(goal_fields(goal_line(fields, prev)->Ok_0), other) == goal_line(fields, prev),
{
    let line = goal_line(fields, prev)->Ok_0;
    let out = goal_fields(line);
    lemma_goal_line_clean(fields, prev);
    lemma_clean_stays(line.uname);
    lemma_clean_stays(line.sym);
    lemma_decimal_is_clean(line.seq as int);
    lemma_clean_stays(signed_decimal(line.seq as int));
    lemma_signed_decimal_reads_back(line.seq as int, i16::MIN as int, i16::MAX as int);
    lemma_decimal_is_clean(line.due.year as int);
    lemma_clean_stays(signed_decimal(line.due.year as int));
    lemma_signed_decimal_reads_back(line.due.year as int, i32::MIN as int, i32::MAX as int);
    lemma_decimal_is_clean(line.due.month as int);
    lemma_clean_stays(decimal(line.due.month as nat));
    lemma_signed_decimal_reads_back(line.due.month as int, 0, 255);
    lemma_decimal_is_clean(line.due.day as int);
    lemma_clean_stays(decimal(line.due.day as nat));
    lemma_signed_decimal_reads_back(line.due.day as int, 0, 255);
    reveal_strlit("x");
    reveal_strlit("");
    assert("x"@.len() == 1 && "x"@[0] == 'x');
    assert(is_clean("x"@));
    lemma_clean_stays("x"@);
    assert(is_blank(""@));
    assert(out[0] == line.uname && out[1] == line.sym);
    assert(out[2] == signed_decimal(line.seq as int));
    assert(out[3] == signed_decimal(line.due.year as int));
    assert(out[4] == decimal(line.due.month as nat));
    assert(out[5] == decimal(line.due.day as nat));
    assert(out[6] == mark(line.review) && out[7] == mark(line.incomplete));
    assert(field(out, 0) == Some(line.uname));
    assert(field(out, 1) == Some(line.sym));
    assert(field(out, 2) == Some(signed_decimal(line.seq as int)));
    assert(field(out, 3) == Some(signed_decimal(line.due.year as int)));
    assert(field(out, 4) == Some(decimal(line.due.month as nat)));
    assert(field(out, 5) == Some(decimal(line.due.day as nat)));
    assert(field(out, 6) is Some == line.review);
    assert(field(out, 7) is Some == line.incomplete);
    assert(year_of(out, other) == Ok::<int, Seq<char>>(line.due.year as int));
    assert(month_of(out, other) == Ok::<int, Seq<char>>(line.due.month as int));
}

impl Goal {
    /// The record in which the goal is written down: user name, course
    /// symbol, chapter number, year, month and day of the due date, and the
    /// two marks. A goal without a due date, and one that is no chapter of a
    /// book, has no such record.
    pub fn to_csv_line(&self) -> (r: Option<Record>)
        ensures
            match r {
                Some(rec) => {
                    &&& self.source is Book
                    &&& self.due is Some
                    &&& rec.line is None
                    &&& rec@.fields == goal_fields(
                        GoalLine {
                            uname: self.uname@,
                            sym: self.source->Book_0.sym@,
                            seq: self.source->Book_0.seq,
                            due: self.due->0,
                            review: self.review,
                            incomplete: self.incomplete,
                        },
                    )
                },
                None => !(self.source is Book) || self.due is None,
            },
    {
        let b = match &self.source {
            Source::Book(b) => b,
            Source::Custom(_) => {
                return None;
            },
        };
        let due = match &self.due {
            Some(d) => d,
            None => {
                return None;
            },
        };
        let mut fields: Vec<String> = Vec::new();
        fields.push(self.uname.clone());
        fields.push(b.sym.clone());
        fields.push(signed_decimal_string(b.seq as i64));
        fields.push(signed_decimal_string(due.year as i64));
        fields.push(decimal_string(due.month as u64));
        fields.push(decimal_string(due.day as u64));
        fields.push(
            if self.review {
                String::from_str("x")
            } else {
                String::from_str("")
            },
        );
        fields.push(
            if self.incomplete {
                String::from_str("x")
            } else {
                String::from_str("")
            },
        );
        let r = Record { line: None, fields };
        assert(r@.fields =~= goal_fields(
            GoalLine {
                uname: self.uname@,
                sym: b.sym@,
                seq: b.seq,
                due: *due,
                review: self.review,
                incomplete: self.incomplete,
            },
        ));
        Some(r)
    }
}

} // verus!
