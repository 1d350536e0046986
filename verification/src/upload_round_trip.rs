//! What holds of a whole upload of goals that is read, written down again
//! record by record, and read once more.

use vstd::prelude::*;
use crate::config::Glob;
use crate::goals_csv::{
    carried_clean, field, goal_fields, goal_is_weighed, goal_line, goals_are, handed_on,
    lemma_goal_line_clean, mark, month_of, pace_from, paces_from, upload_lines, weighed, year_of,
    Carried, GoalLine, WeighedLine,
};
use crate::autopace::lemma_same_weights;
use crate::goals_csv::{first_seen, grouping_refusal, ungrouped};
use crate::seqs::lemma_first_where_none;
use crate::order::{
    insert_point, is_ordered, lemma_insert_point, lemma_insert_point_bounds, lemma_sorted_of_keeps,
    lemma_sorted_of_len, sorted_of, Ranked,
};
use crate::pace::{Goal, Pace, Source};
use crate::records::RecordView;
use crate::store::goals::goal_of;
use crate::text::{
    decimal, is_blank, is_clean, lemma_clean_stays, lemma_decimal_is_clean,
    lemma_signed_decimal_reads_back, signed_decimal,
};

verus! {

/// Nothing stands around the user name and the symbol of the line, and its
/// due date is a day that exists.
pub open spec fn line_clean(line: GoalLine) -> bool {
    is_clean(line.uname) && is_clean(line.sym) && line.due.valid()
}

/// The line is clean, and the working set gives its goal the weight and the
/// level that stand with it.
pub open spec fn line_holds(w: WeighedLine, glob: Glob) -> bool {
    line_clean(w.line) && weighed(w.line.uname, w.line.sym, w.line.seq, glob) == Ok::<
        (u32, i64),
        Seq<char>,
    >((w.weight, w.level))
}

/// Every line holds.
pub open spec fn lines_hold(lines: Seq<WeighedLine>, glob: Glob) -> bool {
    forall|i: int| 0 <= i < lines.len() ==> line_holds(#[trigger] lines[i], glob)
}

/// The records in which lines are written down, one for each, nothing left
/// blank for the record before to fill in.
pub open spec fn written(lines: Seq<WeighedLine>) -> Seq<RecordView> {
    lines.map_values(|w: WeighedLine| RecordView { line: None, fields: goal_fields(w.line) })
}

/// What a goal that is a chapter of a book and has a due date says, as a
/// line with its weight and level.
pub open spec fn line_of(g: Goal) -> WeighedLine {
    WeighedLine {
        line: GoalLine {
            uname: g.uname@,
            sym: g.source->Book_0.sym@,
            seq: g.source->Book_0.seq,
            due: g.due->0,
            review: g.review,
            incomplete: g.incomplete,
        },
        weight: g.weight,
        level: g.source->Book_0.level,
    }
}

/// What the goals say, goal by goal.
pub open spec fn lines_of(goals: Seq<Goal>) -> Seq<WeighedLine> {
    goals.map_values(|g: Goal| line_of(g))
}

/// The goals of the pace calendars, calendar after calendar.
pub open spec fn goals_in(paces: Seq<Pace>) -> Seq<Goal>
    decreases paces.len(),
{
    if paces.len() == 0 {
        Seq::empty()
    } else {
        goals_in(paces.drop_last()) + paces.last().goals@
    }
}

/// A clean line that is written down reads back as it is, whatever the
/// record before it hands on.
pub proof fn lemma_clean_line_reads_back(line: GoalLine, other: Option<Carried>)
    requires
        line_clean(line),
    ensures
        goal_line(goal_fields(line), other) == Ok::<GoalLine, Seq<char>>(line),
{
    let out = goal_fields(line);
    lemma_clean_stays(line.uname);
    lemma_clean_stays(line.sym);
    lemma_decimal_is_clean(line.seq as int);
    lemma_clean_stays(signed_decimal(line.seq as int));
    lemma_signed_decimal_reads_back(line.seq as int, i16::MIN as int, i16::MAX as int);
    lemma_decimal_is_clean(line.due.year as int);
    lemma_clean_stays(signed_decimal(line.due.year as int));
    lemma_signed_decimal_reads_back(line.due.year as int, i32::MIN as int, i32::MAX as int);
    lemma_decimal_is_clean(line.due.month as int);
    lemma_clean_stays(decimal(line.due.month as nat));
    lemma_signed_decimal_reads_back(line.due.month as int, 0, 255);
    lemma_decimal_is_clean(line.due.day as int);
    lemma_clean_stays(decimal(line.due.day as nat));
    lemma_signed_decimal_reads_back(line.due.day as int, 0, 255);
    reveal_strlit("x");
    reveal_strlit("");
    assert("x"@.len() == 1 && "x"@[0] == 'x');
    assert(is_clean("x"@));
    lemma_clean_stays("x"@);
    assert(is_blank(""@));
    assert(out[0] == line.uname && out[1] == line.sym);
    assert(out[2] == signed_decimal(line.seq as int));
    assert(out[3] == signed_decimal(line.due.year as int));
    assert(out[4] == decimal(line.due.month as nat));
    assert(out[5] == decimal(line.due.day as nat));
    assert(out[6] == mark(line.review) && out[7] == mark(line.incomplete));
    assert(field(out, 0) == Some(line.uname));
    assert(field(out, 1) == Some(line.sym));
    assert(field(out, 2) == Some(signed_decimal(line.seq as int)));
    assert(field(out, 3) == Some(signed_decimal(line.due.year as int)));
    assert(field(out, 4) == Some(decimal(line.due.month as nat)));
    assert(field(out, 5) == Some(decimal(line.due.day as nat)));
    assert(field(out, 6) is Some == line.review);
    assert(field(out, 7) is Some == line.incomplete);
    assert(year_of(out, other) == Ok::<int, Seq<char>>(line.due.year as int));
    assert(month_of(out, other) == Ok::<int, Seq<char>>(line.due.month as int));
}

/// What is read of an upload holds, line by line, and there is a line for
/// each record.
pub proof fn lemma_upload_lines_hold(rows: Seq<RecordView>, glob: Glob)
    requires
        upload_lines(rows, glob) is Ok,
    ensures
        upload_lines(rows, glob)->Ok_0.len() == rows.len(),
        lines_hold(upload_lines(rows, glob)->Ok_0, glob),
    decreases rows.len(),
{
    if rows.len() > 0 {
        let head = upload_lines(rows.drop_last(), glob)->Ok_0;
        lemma_upload_lines_hold(rows.drop_last(), glob);
        if head.len() > 0 {
            assert(line_holds(head[head.len() - 1], glob));
        }
        assert(carried_clean(handed_on(head)));
        lemma_goal_line_clean(rows.last().fields, handed_on(head));
        let all = upload_lines(rows, glob)->Ok_0;
        assert forall|i: int| 0 <= i < all.len() implies line_holds(#[trigger] all[i], glob) by {
            if i < head.len() {
                assert(all[i] == head[i]);
            }
        }
    }
}

/// Lines that hold, written down and read, are the lines again.
pub proof fn lemma_written_reads_back(lines: Seq<WeighedLine>, glob: Glob)
    requires
        lines_hold(lines, glob),
    ensures
        upload_lines(written(lines), glob) == Ok::<Seq<WeighedLine>, Seq<char>>(lines),
    decreases lines.len(),
{
    let rows = written(lines);
    if lines.len() > 0 {
        let head = lines.drop_last();
        assert(rows.drop_last() =~= written(head));
        assert forall|i: int| 0 <= i < head.len() implies line_holds(#[trigger] head[i], glob) by {
            assert(head[i] == lines[i]);
        }
        lemma_written_reads_back(head, glob);
        let last = lines.last();
        assert(line_holds(lines[lines.len() - 1], glob));
        assert(rows.last().fields == goal_fields(last.line));
        lemma_clean_line_reads_back(last.line, handed_on(head));
        assert(head.push(WeighedLine { line: last.line, weight: last.weight, level: last.level })
            =~= lines);
    } else {
        assert(lines =~= Seq::<WeighedLine>::empty());
    }
}

/// Reading, writing and reading again is reading: what is read of an upload,
/// written down record by record and read once more, is what was read the
/// first time.
pub proof fn lemma_upload_round_trip(rows: Seq<RecordView>, glob: Glob)
    requires
        upload_lines(rows, glob) is Ok,
    ensures
        upload_lines(written(upload_lines(rows, glob)->Ok_0), glob) == upload_lines(rows, glob),
{
    lemma_upload_lines_hold(rows, glob);
    lemma_written_reads_back(upload_lines(rows, glob)->Ok_0, glob);
}

/// The goal is a chapter of a book with a due date, and what it says holds.
pub open spec fn goal_holds(glob: Glob) -> spec_fn(Goal) -> bool {
    |g: Goal| g.source is Book && g.due is Some && line_holds(line_of(g), glob)
}

/// What holds of every item holds of every item that a filter lets through.
pub proof fn lemma_filter_keeps<T>(s: Seq<T>, q: spec_fn(T) -> bool, p: spec_fn(T) -> bool)
    requires
        forall|i: int| 0 <= i < s.len() ==> p(#[trigger] s[i]),
    ensures
        forall|i: int| 0 <= i < s.filter(q).len() ==> p(#[trigger] s.filter(q)[i]),
{
    let f = s.filter(q);
    assert forall|i: int| 0 <= i < f.len() implies p(#[trigger] f[i]) by {
        assert(f.contains(f[i]));
        s.lemma_filter_contains_rev(q, f[i]);
        let j = choose|j: int| 0 <= j < s.len() && s[j] == f[i];
        assert(p(s[j]));
    }
}

/// What holds of every goal of every calendar holds of every goal of the
/// calendars taken together.
pub proof fn lemma_goals_in_keep(paces: Seq<Pace>, p: spec_fn(Goal) -> bool)
    requires
        forall|k: int, i: int|
            0 <= k < paces.len() && 0 <= i < paces[k].goals@.len() ==> p(
                #[trigger] paces[k].goals@[i],
            ),
    ensures
        forall|i: int| 0 <= i < goals_in(paces).len() ==> p(#[trigger] goals_in(paces)[i]),
    decreases paces.len(),
{
    if paces.len() > 0 {
        let head = paces.drop_last();
        assert forall|k: int, i: int|
            0 <= k < head.len() && 0 <= i < head[k].goals@.len() implies p(
            #[trigger] head[k].goals@[i],
        ) by {
            assert(head[k] == paces[k]);
        }
        lemma_goals_in_keep(head, p);
        let all = goals_in(paces);
        let front = goals_in(head);
        assert forall|i: int| 0 <= i < all.len() implies p(#[trigger] all[i]) by {
            if i < front.len() {
                assert(all[i] == front[i]);
            } else {
                assert(all[i] == paces[paces.len() - 1].goals@[i - front.len()]);
            }
        }
    }
}

/// The goals of an upload, put together student by student, written down in
/// that order and read again, say what the pace calendars hold: the same
/// goals, student after student, each student's in the calendar's order.
pub proof fn lemma_paces_read_back(
    rows: Seq<RecordView>,
    glob: Glob,
    goals: Seq<Goal>,
    paces: Seq<Pace>,
)
    requires
        upload_lines(rows, glob) is Ok,
        goals_are(goals, upload_lines(rows, glob)->Ok_0),
        paces_from(paces, goals, glob),
    ensures
        upload_lines(written(lines_of(goals_in(paces))), glob) == Ok::<Seq<WeighedLine>, Seq<char>>(
            lines_of(goals_in(paces)),
        ),
{
    let lines = upload_lines(rows, glob)->Ok_0;
    let p = goal_holds(glob);
    lemma_upload_lines_hold(rows, glob);
    assert forall|i: int| 0 <= i < goals.len() implies p(#[trigger] goals[i]) by {
        assert(goal_is_weighed(goals[i], lines[i]));
        assert(line_holds(lines[i], glob));
        assert(line_of(goals[i]) == lines[i]);
    }
    assert forall|k: int, i: int|
        0 <= k < paces.len() && 0 <= i < paces[k].goals@.len() implies p(
        #[trigger] paces[k].goals@[i],
    ) by {
        let name = first_seen(goals)[k];
        assert(pace_from(paces[k], name, goals, glob));
        lemma_filter_keeps(goals, goal_of(name), p);
        lemma_sorted_of_keeps(goals.filter(goal_of(name)), p);
    }
    lemma_goals_in_keep(paces, p);
    let out = lines_of(goals_in(paces));
    assert forall|i: int| 0 <= i < out.len() implies line_holds(#[trigger] out[i], glob) by {
        assert(p(goals_in(paces)[i]));
    }
    lemma_written_reads_back(out, glob);
}

/// Two goals say the same: they are the same chapter for the same student,
/// with the same days, marks and weight.
pub open spec fn alike(a: Goal, b: Goal) -> bool {
    &&& a.uname@ == b.uname@
    &&& a.source is Book
    &&& b.source is Book
    &&& a.source->Book_0.sym@ == b.source->Book_0.sym@
    &&& a.source->Book_0.seq == b.source->Book_0.seq
    &&& a.source->Book_0.level == b.source->Book_0.level
    &&& a.review == b.review
    &&& a.incomplete == b.incomplete
    &&& a.due == b.due
    &&& a.done == b.done
    &&& a.weight == b.weight
}

/// The goals of `a` say the same as those of `b`, one for one.
pub open spec fn all_alike(a: Seq<Goal>, b: Seq<Goal>) -> bool {
    &&& a.len() == b.len()
    &&& forall|i: int| 0 <= i < a.len() ==> alike(#[trigger] a[i], b[i])
}

/// Goals in order stay as they are when they are put in order.
pub proof fn lemma_ordered_stays<T: Ranked>(s: Seq<T>)
    requires
        is_ordered(s),
    ensures
        sorted_of(s) == s,
    decreases s.len(),
{
    if s.len() > 0 {
        let head = s.drop_last();
        assert forall|i: int, j: int| 0 <= i < j < head.len() implies !(#[trigger] head[j].before(
            &head[i],
        )) by {
            assert(!s[j].before(&s[i]));
        }
        lemma_ordered_stays(head);
        assert forall|k: int| 0 <= k < head.len() implies !s.last().before(&#[trigger] head[k]) by {
            assert(!s[s.len() - 1].before(&s[k]));
        }
        lemma_insert_point(head, s.last(), head.len() as int);
        assert(head.insert(head.len() as int, s.last()) =~= s);
    }
}

/// A goal goes into goals that say the same at the same place.
pub proof fn lemma_insert_point_alike(s: Seq<Goal>, t: Seq<Goal>, x: Goal, y: Goal)
    requires
        all_alike(s, t),
        alike(x, y),
    ensures
        insert_point(s, x) == insert_point(t, y),
    decreases s.len(),
{
    if s.len() > 0 {
        assert(alike(s[0], t[0]));
        if !x.before(&s[0]) {
            let s1 = s.drop_first();
            let t1 = t.drop_first();
            assert forall|i: int| 0 <= i < s1.len() implies alike(#[trigger] s1[i], t1[i]) by {
                assert(alike(s[i + 1], t[i + 1]));
            }
            lemma_insert_point_alike(s1, t1, x, y);
        }
    }
}

/// Goals that say the same are put in the same order.
pub proof fn lemma_sorted_alike(a: Seq<Goal>, b: Seq<Goal>)
    requires
        all_alike(a, b),
    ensures
        all_alike(sorted_of(a), sorted_of(b)),
    decreases a.len(),
{
    if a.len() > 0 {
        let ha = a.drop_last();
        let hb = b.drop_last();
        assert forall|i: int| 0 <= i < ha.len() implies alike(#[trigger] ha[i], hb[i]) by {
            assert(alike(a[i], b[i]));
        }
        lemma_sorted_alike(ha, hb);
        let ta = sorted_of(ha);
        let tb = sorted_of(hb);
        assert(alike(a[a.len() - 1], b[a.len() - 1]));
        lemma_insert_point_alike(ta, tb, a.last(), b.last());
        lemma_insert_point_bounds(ta, a.last());
        let at = insert_point(ta, a.last());
        let ra = ta.insert(at, a.last());
        let rb = tb.insert(at, b.last());
        assert forall|i: int| 0 <= i < ra.len() implies alike(#[trigger] ra[i], rb[i]) by {
            if i < at {
                assert(ra[i] == ta[i] && rb[i] == tb[i]);
                assert(alike(ta[i], tb[i]));
            } else if i == at {
            } else {
                assert(ra[i] == ta[i - 1] && rb[i] == tb[i - 1]);
                assert(alike(ta[i - 1], tb[i - 1]));
            }
        }
    }
}

/// Goals that say the same name the same students, in the same order.
pub proof fn lemma_first_seen_alike(a: Seq<Goal>, b: Seq<Goal>)
    requires
        all_alike(a, b),
    ensures
        first_seen(a) == first_seen(b),
    decreases a.len(),
{
    if a.len() > 0 {
        let ha = a.drop_last();
        let hb = b.drop_last();
        assert forall|i: int| 0 <= i < ha.len() implies alike(#[trigger] ha[i], hb[i]) by {
            assert(alike(a[i], b[i]));
        }
        lemma_first_seen_alike(ha, hb);
        assert(alike(a[a.len() - 1], b[a.len() - 1]));
    }
}

/// Of goals that say the same, those of one student say the same.
pub proof fn lemma_filter_alike(a: Seq<Goal>, b: Seq<Goal>, name: Seq<char>)
    requires
        all_alike(a, b),
    ensures
        all_alike(a.filter(goal_of(name)), b.filter(goal_of(name))),
    decreases a.len(),
{
    reveal(Seq::filter);
    if a.len() > 0 {
        let ha = a.drop_last();
        let hb = b.drop_last();
        assert forall|i: int| 0 <= i < ha.len() implies alike(#[trigger] ha[i], hb[i]) by {
            assert(alike(a[i], b[i]));
        }
        lemma_filter_alike(ha, hb, name);
        assert(alike(a[a.len() - 1], b[a.len() - 1]));
        let fa = ha.filter(goal_of(name));
        let fb = hb.filter(goal_of(name));
        if goal_of(name)(a.last()) {
            let ra = fa.push(a.last());
            let rb = fb.push(b.last());
            assert(a.filter(goal_of(name)) == ra);
            assert(b.filter(goal_of(name)) == rb);
            assert forall|i: int| 0 <= i < ra.len() implies alike(#[trigger] ra[i], rb[i]) by {
                if i < fa.len() {
                    assert(alike(fa[i], fb[i]));
                }
            }
        }
    }
}

/// A filter lets through all of what it holds of.
pub proof fn lemma_filter_all<T>(s: Seq<T>, q: spec_fn(T) -> bool)
    requires
        forall|i: int| 0 <= i < s.len() ==> q(#[trigger] s[i]),
    ensures
        s.filter(q) == s,
    decreases s.len(),
{
    reveal(Seq::filter);
    if s.len() > 0 {
        let head = s.drop_last();
        assert forall|i: int| 0 <= i < head.len() implies q(#[trigger] head[i]) by {
            assert(head[i] == s[i]);
        }
        lemma_filter_all(head, q);
        assert(q(s[s.len() - 1]));
        assert(head.push(s.last()) =~= s);
    }
}

/// A filter lets through nothing of what it does not hold of.
pub proof fn lemma_filter_none<T>(s: Seq<T>, q: spec_fn(T) -> bool)
    requires
        forall|i: int| 0 <= i < s.len() ==> !q(#[trigger] s[i]),
    ensures
        s.filter(q).len() == 0,
    decreases s.len(),
{
    reveal(Seq::filter);
    if s.len() > 0 {
        let head = s.drop_last();
        assert forall|i: int| 0 <= i < head.len() implies !q(#[trigger] head[i]) by {
            assert(head[i] == s[i]);
        }
        lemma_filter_none(head, q);
        assert(!q(s[s.len() - 1]));
    }
}

/// One of the goals is a goal of the student named `name`.
pub open spec fn has_goal_of(goals: Seq<Goal>, name: Seq<char>) -> bool {
    exists|i: int| 0 <= i < goals.len() && (#[trigger] goals[i]).uname@ == name
}

/// No student is named twice among the students that goals name, and each
/// of them has a goal.
pub proof fn lemma_first_seen(goals: Seq<Goal>)
    ensures
        forall|i: int, j: int|
            0 <= i < j < first_seen(goals).len() ==> #[trigger] first_seen(goals)[i]
                != #[trigger] first_seen(goals)[j],
        forall|k: int|
            0 <= k < first_seen(goals).len() ==> has_goal_of(goals, #[trigger] first_seen(goals)[k]),
    decreases goals.len(),
{
    if goals.len() > 0 {
        let head = goals.drop_last();
        lemma_first_seen(head);
        let hs = first_seen(head);
        let s = first_seen(goals);
        assert forall|i: int, j: int| 0 <= i < j < s.len() implies #[trigger] s[i] != #[trigger] s[j] by {
            if j < hs.len() {
                assert(s[i] == hs[i] && s[j] == hs[j]);
            } else {
                assert(s[i] == hs[i]);
                assert(!hs.contains(goals.last().uname@));
            }
        }
        assert forall|k: int| 0 <= k < s.len() implies has_goal_of(goals, #[trigger] s[k]) by {
            if k < hs.len() {
                assert(s[k] == hs[k]);
                assert(has_goal_of(head, hs[k]));
                let i = choose|i: int| 0 <= i < head.len() && (#[trigger] head[i]).uname@ == hs[k];
                assert(goals[i] == head[i]);
            } else {
                assert(goals[goals.len() - 1].uname@ == s[k]);
            }
        }
    }
}

/// Goals of one student behind other goals: the student is named behind the
/// students of the other goals, unless named among them.
pub proof fn lemma_first_seen_group(front: Seq<Goal>, group: Seq<Goal>, name: Seq<char>)
    requires
        group.len() > 0,
        forall|i: int| 0 <= i < group.len() ==> (#[trigger] group[i]).uname@ == name,
    ensures
        first_seen(front + group) == if first_seen(front).contains(name) {
            first_seen(front)
        } else {
            first_seen(front).push(name)
        },
    decreases group.len(),
{
    let all = front + group;
    assert(all.last() == group[group.len() - 1]);
    if group.len() == 1 {
        assert(all.drop_last() =~= front);
    } else {
        let head = group.drop_last();
        assert(all.drop_last() =~= front + head);
        assert forall|i: int| 0 <= i < head.len() implies (#[trigger] head[i]).uname@ == name by {
            assert(head[i] == group[i]);
        }
        lemma_first_seen_group(front, head, name);
        let seen = first_seen(front + head);
        if !first_seen(front).contains(name) {
            assert(seen[seen.len() - 1] == name);
        }
        assert(seen.contains(name));
    }
}

/// What pace calendars that were put together from goals hold, by the
/// student: each calendar's goals are goals of its student, there is one at
/// least, and the students of two calendars differ.
pub open spec fn grouped_by(paces: Seq<Pace>, names: Seq<Seq<char>>) -> bool {
    &&& paces.len() == names.len()
    &&& forall|i: int, j: int|
        0 <= i < j < names.len() ==> #[trigger] names[i] != #[trigger] names[j]
    &&& forall|k: int| 0 <= k < paces.len() ==> (#[trigger] paces[k]).goals@.len() > 0
    &&& forall|k: int, i: int|
        0 <= k < paces.len() && 0 <= i < paces[k].goals@.len() ==> (
        #[trigger] paces[k].goals@[i]).uname@ == names[k]
}

/// The first calendars of calendars that are grouped by student are.
proof fn lemma_grouped_by_take(paces: Seq<Pace>, names: Seq<Seq<char>>, j: int)
    requires
        grouped_by(paces, names),
        0 <= j <= paces.len(),
    ensures
        grouped_by(paces.take(j), names.take(j)),
{
    let p = paces.take(j);
    let n = names.take(j);
    assert forall|k: int| 0 <= k < p.len() implies (#[trigger] p[k]).goals@.len() > 0 by {
        assert(p[k] == paces[k]);
    }
    assert forall|k: int, i: int| 0 <= k < p.len() && 0 <= i < p[k].goals@.len() implies (
    #[trigger] p[k].goals@[i]).uname@ == n[k] by {
        assert(p[k] == paces[k]);
    }
}

/// The calendars' goals, taken together, name the calendars' students, in
/// the calendars' order.
pub proof fn lemma_goals_in_first_seen(paces: Seq<Pace>, names: Seq<Seq<char>>)
    requires
        grouped_by(paces, names),
    ensures
        first_seen(goals_in(paces)) == names,
    decreases paces.len(),
{
    if paces.len() > 0 {
        let m = paces.len() - 1;
        lemma_grouped_by_take(paces, names, m);
        assert(paces.take(m) =~= paces.drop_last());
        assert(names.take(m) =~= names.drop_last());
        lemma_goals_in_first_seen(paces.drop_last(), names.drop_last());
        let front = goals_in(paces.drop_last());
        let group = paces.last().goals@;
        assert(paces[m] == paces.last());
        assert forall|i: int| 0 <= i < group.len() implies (#[trigger] group[i]).uname@ == names[m] by {
            assert(paces[m].goals@[i].uname@ == names[m]);
        }
        lemma_first_seen_group(front, group, names[m]);
        let seen = names.drop_last();
        if seen.contains(names[m]) {
            let i = choose|i: int| 0 <= i < seen.len() && seen[i] == names[m];
            assert(names[i] != names[m]);
        }
        assert(seen.push(names[m]) =~= names);
    } else {
        assert(names =~= Seq::<Seq<char>>::empty());
    }
}

/// Of the calendars' goals taken together, those of a calendar's student
/// are that calendar's goals.
pub proof fn lemma_goals_in_filter(paces: Seq<Pace>, names: Seq<Seq<char>>, k: int)
    requires
        grouped_by(paces, names),
        0 <= k < names.len(),
    ensures
        goals_in(paces).filter(goal_of(names[k])) == paces[k].goals@,
    decreases paces.len(),
{
    let q = goal_of(names[k]);
    let m = paces.len() - 1;
    let front = goals_in(paces.drop_last());
    let group = paces.last().goals@;
    assert(paces[m] == paces.last());
    Seq::filter_distributes_over_add(front, group, q);
    if k == m {
        // Nothing in front is a goal of this student.
        lemma_grouped_by_take(paces, names, m);
        assert(paces.take(m) =~= paces.drop_last());
        lemma_goals_in_keep(paces.drop_last(), |g: Goal| !q(g));
        lemma_filter_none(front, q);
        assert forall|i: int| 0 <= i < group.len() implies q(#[trigger] group[i]) by {
            assert(paces[m].goals@[i].uname@ == names[m]);
        }
        lemma_filter_all(group, q);
        assert(front.filter(q) + group =~= group);
    } else {
        lemma_grouped_by_take(paces, names, m);
        assert(paces.take(m) =~= paces.drop_last());
        assert(names.take(m) =~= names.drop_last());
        lemma_goals_in_filter(paces.drop_last(), names.drop_last(), k);
        assert forall|i: int| 0 <= i < group.len() implies !q(#[trigger] group[i]) by {
            assert(paces[m].goals@[i].uname@ == names[m]);
        }
        lemma_filter_none(group, q);
        assert(front.filter(q) + group.filter(q) =~= front.filter(q));
        assert(paces.drop_last()[k] == paces[k]);
    }
}

/// Pace calendars that were put together from goals are grouped by the
/// students that the goals name.
pub proof fn lemma_paces_grouped(paces: Seq<Pace>, goals: Seq<Goal>, glob: Glob)
    requires
        paces_from(paces, goals, glob),
    ensures
        grouped_by(paces, first_seen(goals)),
{
    let names = first_seen(goals);
    lemma_first_seen(goals);
    assert forall|k: int| 0 <= k < paces.len() implies (#[trigger] paces[k]).goals@.len() > 0 && (
    forall|i: int| 0 <= i < paces[k].goals@.len() ==> (#[trigger] paces[k].goals@[i]).uname@
        == names[k]) by {
        let q = goal_of(names[k]);
        assert(pace_from(paces[k], names[k], goals, glob));
        let own = goals.filter(q);
        assert(has_goal_of(goals, names[k]));
        let i = choose|i: int| 0 <= i < goals.len() && (#[trigger] goals[i]).uname@ == names[k];
        goals.lemma_filter_contains(q, i);
        assert(own.len() > 0);
        lemma_sorted_of_len(own);
        assert forall|x: int| 0 <= x < own.len() implies q(#[trigger] own[x]) by {
            goals.lemma_filter_pred(q, x);
        }
        lemma_sorted_of_keeps(own, q);
    }
}

/// What is read again of the calendars' goals says what the calendars hold:
/// the same students in the same order, and for each of them goals that,
/// put in order, say what the student's calendar holds.
pub proof fn lemma_read_again(
    rows: Seq<RecordView>,
    glob: Glob,
    goals: Seq<Goal>,
    paces: Seq<Pace>,
    again: Seq<Goal>,
)
    requires
        upload_lines(rows, glob) is Ok,
        goals_are(goals, upload_lines(rows, glob)->Ok_0),
        paces_from(paces, goals, glob),
        goals_are(again, upload_lines(written(lines_of(goals_in(paces))), glob)->Ok_0),
    ensures
        upload_lines(written(lines_of(goals_in(paces))), glob) is Ok,
        all_alike(again, goals_in(paces)),
        first_seen(again) == first_seen(goals),
        first_seen(goals).len() == paces.len(),
        forall|k: int|
            0 <= k < paces.len() ==> all_alike(
                sorted_of(again.filter(goal_of(first_seen(goals)[k]))),
                (#[trigger] paces[k]).goals@,
            ),
{
    let lines = upload_lines(rows, glob)->Ok_0;
    let names = first_seen(goals);
    let flat = goals_in(paces);
    lemma_paces_read_back(rows, glob, goals, paces);
    lemma_upload_lines_hold(rows, glob);
    // Every goal of the calendars is one that was read.
    let read = |g: Goal| g.source is Book && g.due is Some && g.done is None;
    assert forall|i: int| 0 <= i < goals.len() implies read(#[trigger] goals[i]) by {
        assert(goal_is_weighed(goals[i], lines[i]));
    }
    assert forall|k: int, i: int|
        0 <= k < paces.len() && 0 <= i < paces[k].goals@.len() implies read(
        #[trigger] paces[k].goals@[i],
    ) by {
        assert(pace_from(paces[k], names[k], goals, glob));
        lemma_filter_keeps(goals, goal_of(names[k]), read);
        lemma_sorted_of_keeps(goals.filter(goal_of(names[k])), read);
    }
    lemma_goals_in_keep(paces, read);
    // What was read again says what the calendars' goals say.
    assert(all_alike(again, flat)) by {
        assert forall|i: int| 0 <= i < again.len() implies alike(#[trigger] again[i], flat[i]) by {
            assert(goal_is_weighed(again[i], lines_of(flat)[i]));
            assert(read(flat[i]));
        }
    }
    lemma_paces_grouped(paces, goals, glob);
    lemma_goals_in_first_seen(paces, names);
    lemma_first_seen_alike(again, flat);
    assert forall|k: int| 0 <= k < paces.len() implies all_alike(
        sorted_of(again.filter(goal_of(names[k]))),
        (#[trigger] paces[k]).goals@,
    ) by {
        let q = goal_of(names[k]);
        assert(pace_from(paces[k], names[k], goals, glob));
        lemma_filter_alike(again, flat, names[k]);
        lemma_goals_in_filter(paces, names, k);
        lemma_sorted_alike(again.filter(q), flat.filter(q));
        lemma_ordered_stays(paces[k].goals@);
    }
}

/// What is read again of the calendars' goals can be put together student
/// by student as the goals of the upload could.
pub proof fn lemma_read_again_groups(
    rows: Seq<RecordView>,
    glob: Glob,
    goals: Seq<Goal>,
    paces: Seq<Pace>,
    again: Seq<Goal>,
)
    requires
        upload_lines(rows, glob) is Ok,
        goals_are(goals, upload_lines(rows, glob)->Ok_0),
        paces_from(paces, goals, glob),
        goals_are(again, upload_lines(written(lines_of(goals_in(paces))), glob)->Ok_0),
    ensures
        grouping_refusal(again, glob) is None,
{
    let names = first_seen(goals);
    let bad = ungrouped(again, glob);
    lemma_read_again(rows, glob, goals, paces, again);
    assert forall|k: int| 0 <= k < names.len() implies !bad(#[trigger] names[k]) by {
        assert(pace_from(paces[k], names[k], goals, glob));
        let mine = sorted_of(again.filter(goal_of(names[k])));
        assert(all_alike(mine, paces[k].goals@));
        assert forall|i: int| 0 <= i < mine.len() implies (#[trigger] mine[i]).weight
            == paces[k].goals@[i].weight by {
            assert(alike(mine[i], paces[k].goals@[i]));
        }
        lemma_same_weights(mine, paces[k].goals@);
    }
    lemma_first_where_none(names, bad);
}

/// Reading, writing and reading again is reading, student by student. The
/// goals of an upload are put together into pace calendars; the calendars'
/// goals are written down, student after student, and read again; what was
/// read is put together once more. Then there are the same calendars for the
/// same students in the same order, and each holds goals that say the same in
/// the same order.
pub proof fn lemma_paces_round_trip(
    rows: Seq<RecordView>,
    glob: Glob,
    goals: Seq<Goal>,
    paces: Seq<Pace>,
    again: Seq<Goal>,
    paces_again: Seq<Pace>,
)
    requires
        upload_lines(rows, glob) is Ok,
        goals_are(goals, upload_lines(rows, glob)->Ok_0),
        paces_from(paces, goals, glob),
        goals_are(again, upload_lines(written(lines_of(goals_in(paces))), glob)->Ok_0),
        paces_from(paces_again, again, glob),
    ensures
        upload_lines(written(lines_of(goals_in(paces))), glob) is Ok,
        grouping_refusal(again, glob) is None,
        paces_again.len() == paces.len(),
        forall|k: int|
            0 <= k < paces.len() ==> {
                &&& (#[trigger] paces_again[k]).student == paces[k].student
                &&& paces_again[k].teacher == paces[k].teacher
                &&& all_alike(paces_again[k].goals@, paces[k].goals@)
            },
{
    let names = first_seen(goals);
    lemma_read_again(rows, glob, goals, paces, again);
    lemma_read_again_groups(rows, glob, goals, paces, again);
    assert forall|k: int| 0 <= k < paces.len() implies {
        &&& (#[trigger] paces_again[k]).student == paces[k].student
        &&& paces_again[k].teacher == paces[k].teacher
        &&& all_alike(paces_again[k].goals@, paces[k].goals@)
    } by {
        assert(pace_from(paces[k], names[k], goals, glob));
        assert(pace_from(paces_again[k], first_seen(again)[k], again, glob));
    }
}

} // verus!
