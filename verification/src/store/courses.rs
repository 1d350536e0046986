//! The courses of the domain store.

use vstd::prelude::*;
use crate::config::{course_index, distinct_syms, find_course, lemma_course_index};
use crate::listing::{append_lines, lines, list_once};
use crate::text::texts_view;
use crate::course::{
    chapter_index, lemma_total_weight_covers, sum_weights, total_weight, Chapter, Course,
};
use crate::order::{is_ordered, lemma_sorted_of_len, lemma_sorted_of_ordered, sort, sorted_of, Ranked};
use crate::pace::{Goal, Source};
use crate::store::{DbError, Store};

verus! {

/// The chapter at place `i` as it goes on record: numbered `first_id + i`,
/// and of the course numbered `course_id`.
pub open spec fn recorded_chapter(chapters: Seq<Chapter>, i: int, course_id: i64, first_id: i64) -> Chapter {
    Chapter {
        id: (first_id + i) as i64,
        course_id,
        seq: chapters[i].seq,
        title: chapters[i].title,
        subject: chapters[i].subject,
        weight: chapters[i].weight,
    }
}

/// The chapters as they go on record.
pub open spec fn recorded_chapters(chapters: Seq<Chapter>, course_id: i64, first_id: i64) -> Seq<Chapter> {
    Seq::new(chapters.len(), |i: int| recorded_chapter(chapters, i, course_id, first_id))
}

/// Chapters that agree in number and weight, place by place, are in order
/// together and weigh the same together.
pub proof fn lemma_same_chapters(a: Seq<Chapter>, b: Seq<Chapter>)
    requires
        a.len() == b.len(),
        forall|i: int|
            0 <= i < a.len() ==> (#[trigger] a[i]).seq == b[i].seq && a[i].weight == b[i].weight,
    ensures
        total_weight(a) == total_weight(b),
        is_ordered(a) ==> is_ordered(b),
    decreases a.len(),
{
    if a.len() > 0 {
        let x = a.drop_last();
        let y = b.drop_last();
        assert forall|i: int| 0 <= i < x.len() implies (#[trigger] x[i]).seq == y[i].seq && x[i].weight
            == y[i].weight by {
            assert(x[i] == a[i]);
            assert(y[i] == b[i]);
        }
        lemma_same_chapters(x, y);
        assert(a.last() == a[a.len() - 1]);
    }
    if is_ordered(a) {
        assert forall|i: int, j: int| 0 <= i < j < b.len() implies !(#[trigger] b[j].before(&b[i])) by {
            assert(!a[j].before(&a[i]));
        }
    }
}

/// What a course is on record as: the course as given, numbered
/// `course_id`, its chapters in ascending order of `seq` and numbered from
/// `first_id` on.
pub open spec fn recorded_as(stored: Course, given: Course, course_id: i64, first_id: i64) -> bool {
    &&& stored.id == course_id
    &&& stored.sym == given.sym
    &&& stored.title == given.title
    &&& stored.book == given.book
    &&& stored.level == given.level
    &&& stored.chapters@ == recorded_chapters(sorted_of(given.chapters@), course_id, first_id)
    &&& stored.wf()
}

/// The words in which a symbol that is taken is refused.
pub open spec fn sym_taken(sym: Seq<char>) -> Seq<char> {
    "Database already contains a course with the symbol "@ + sym
}

pub open spec fn no_numbers_left() -> Seq<char> {
    "No more courses or chapters can be numbered."@
}

pub open spec fn too_heavy() -> Seq<char> {
    "The chapters weigh too much to add up."@
}

pub open spec fn no_such_course() -> Seq<char> {
    "There is no course with this id."@
}

pub open spec fn no_such_chapter() -> Seq<char> {
    "There is no chapter with this id."@
}

pub open spec fn chapter_has_goals() -> Seq<char> {
    "Goals are still set from this chapter."@
}

/// The words in which a new course is refused, if it is.
pub open spec fn insert_course_refusal(
    courses: Seq<Course>,
    given: Course,
    course_id: i64,
    first_id: i64,
) -> Option<Seq<char>> {
    if course_index(courses, given.sym@) is Some {
        Some(sym_taken(given.sym@))
    } else if !(course_id < i64::MAX && first_id + given.chapters@.len() <= i64::MAX) {
        Some(no_numbers_left())
    } else if total_weight(given.chapters@) > u64::MAX {
        Some(too_heavy())
    } else {
        None
    }
}

/// How many chapters the courses have together.
pub open spec fn chapters_in(batch: Seq<Course>) -> int
    decreases batch.len(),
{
    if batch.len() == 0 {
        0
    } else {
        chapters_in(batch.drop_last()) + batch.last().chapters@.len()
    }
}

/// The words in which a course of a batch is refused for its numbers or its
/// weights, if it is: `earlier` chapters of the batch go on record before
/// it, and it would be numbered `course_id`, its chapters from `first_id` on.
pub open spec fn course_unfit(given: Course, earlier: int, course_id: int, first_id: int) -> Option<
    Seq<char>,
> {
    if !(course_id < i64::MAX && first_id + given.chapters@.len() <= i64::MAX && earlier
        + given.chapters@.len() <= usize::MAX) {
        Some(no_numbers_left())
    } else if total_weight(given.chapters@) > u64::MAX {
        Some(too_heavy())
    } else {
        None
    }
}

/// The words in which a batch of courses with symbols that are all free is
/// refused, if it is: those for the first course that cannot be numbered or
/// weighed, each course numbered on from the one before it.
pub open spec fn numbering_refusal(batch: Seq<Course>, course_id: i64, first_id: i64) -> Option<
    Seq<char>,
>
    decreases batch.len(),
{
    if batch.len() == 0 {
        None
    } else {
        match numbering_refusal(batch.drop_last(), course_id, first_id) {
            Some(m) => Some(m),
            None => course_unfit(
                batch.last(),
                chapters_in(batch.drop_last()),
                course_id + batch.len() - 1,
                first_id + chapters_in(batch.drop_last()),
            ),
        }
    }
}

/// The words in which a batch of new courses is refused, if it is: the
/// symbols that are taken, or else why the first course that cannot be
/// numbered or weighed cannot.
pub open spec fn insert_courses_refusal(
    courses: Seq<Course>,
    batch: Seq<Course>,
    course_id: i64,
    first_id: i64,
) -> Option<Seq<char>> {
    if taken_syms(courses, batch).len() > 0 {
        Some(
            "Database already contains courses with the following symbols:\n"@ + lines(
                taken_syms(courses, batch),
            ),
        )
    } else {
        numbering_refusal(batch, course_id, first_id)
    }
}

/// Once the first `k` courses of a batch are refused, the batch is, in the
/// same words.
pub proof fn lemma_numbering_fails(batch: Seq<Course>, course_id: i64, first_id: i64, k: int)
    requires
        0 <= k <= batch.len(),
        numbering_refusal(batch.take(k), course_id, first_id) is Some,
    ensures
        numbering_refusal(batch, course_id, first_id) == numbering_refusal(
            batch.take(k),
            course_id,
            first_id,
        ),
    decreases batch.len() - k,
{
    if k == batch.len() {
        assert(batch.take(k) =~= batch);
    } else {
        assert(batch.take(k + 1).drop_last() =~= batch.take(k));
        lemma_numbering_fails(batch, course_id, first_id, k + 1);
    }
}

/// Whether one of `courses` has the symbol `sym`.
pub open spec fn has_sym(courses: Seq<Course>, sym: Seq<char>) -> bool {
    exists|i: int| 0 <= i < courses.len() && (#[trigger] courses[i]).sym@ == sym
}

/// The symbols of a batch of courses that are taken, each once, in the order
/// of the batch: those of courses on record and those of earlier courses of
/// the batch.
pub open spec fn taken_syms(courses: Seq<Course>, batch: Seq<Course>) -> Seq<Seq<char>>
    decreases batch.len(),
{
    if batch.len() == 0 {
        Seq::empty()
    } else {
        let head = taken_syms(courses, batch.drop_last());
        let sym = batch.last().sym@;
        if (course_index(courses, sym) is Some || has_sym(batch.drop_last(), sym)) && !head.contains(
            sym,
        ) {
            head.push(sym)
        } else {
            head
        }
    }
}

/// Where no symbol of a batch is taken, none is on record and no two courses
/// of the batch share one.
pub proof fn lemma_no_taken_syms(courses: Seq<Course>, batch: Seq<Course>)
    requires
        taken_syms(courses, batch).len() == 0,
    ensures
        forall|i: int| 0 <= i < batch.len() ==> course_index(courses, (#[trigger] batch[i]).sym@) is None,
        forall|i: int, j: int|
            0 <= i < j < batch.len() ==> (#[trigger] batch[i]).sym@ != (#[trigger] batch[j]).sym@,
    decreases batch.len(),
{
    if batch.len() > 0 {
        let t = batch.drop_last();
        let head = taken_syms(courses, t);
        let sym = batch.last().sym@;
        assert(head.len() == 0);
        assert(!head.contains(sym));
        lemma_no_taken_syms(courses, t);
        assert forall|i: int| 0 <= i < batch.len() implies course_index(
            courses,
            (#[trigger] batch[i]).sym@,
        ) is None by {
            if i < t.len() {
                assert(batch[i] == t[i]);
            } else {
                assert(batch[i] == batch.last());
            }
        }
        assert forall|i: int, j: int| 0 <= i < j < batch.len() implies (#[trigger] batch[i]).sym@ != (
        #[trigger] batch[j]).sym@ by {
            assert(batch[i] == t[i]);
            if j < t.len() {
                assert(batch[j] == t[j]);
            } else {
                assert(batch[j] == batch.last());
                assert(!has_sym(t, sym));
            }
        }
    }
}

/// The symbols of the batch that are taken, each once.
fn list_taken_syms(courses: &Vec<Course>, batch: &[Course]) -> (r: Vec<String>)
    ensures
        texts_view(r@) == taken_syms(courses@, batch@),
{
    let n = batch.len();
    let mut names: Vec<String> = Vec::new();
    let mut i: usize = 0;
    assert(batch@.take(0) =~= Seq::<Course>::empty());
    assert(texts_view(names@) =~= Seq::<Seq<char>>::empty());
    while i < n
        invariant
            i <= n == batch@.len(),
            texts_view(names@) == taken_syms(courses@, batch@.take(i as int)),
        decreases n - i,
    {
        proof {
            assert(batch@.take(i + 1).drop_last() =~= batch@.take(i as int));
            assert(batch@.take(i + 1).last() == batch@[i as int]);
        }
        let on_record = find_course(courses, batch[i].sym.as_str()).is_some();
        let mut twice = false;
        let mut j: usize = 0;
        while j < i
            invariant
                j <= i < n == batch@.len(),
                twice == has_sym(batch@.take(j as int), batch@[i as int].sym@),
            decreases i - j,
        {
            proof {
                let sym = batch@[i as int].sym@;
                assert(batch@.take(j + 1) =~= batch@.take(j as int).push(batch@[j as int]));
                if has_sym(batch@.take(j as int), sym) {
                    let k = choose|k: int|
                        0 <= k < batch@.take(j as int).len() && (#[trigger] batch@.take(
                            j as int,
                        )[k]).sym@ == sym;
                    assert(batch@.take(j + 1)[k] == batch@.take(j as int)[k]);
                }
                if has_sym(batch@.take(j + 1), sym) && !has_sym(batch@.take(j as int), sym) {
                    let k = choose|k: int|
                        0 <= k < batch@.take(j + 1).len() && (#[trigger] batch@.take(j + 1)[k]).sym@
                            == sym;
                    if k < j {
                        assert(batch@.take(j as int)[k] == batch@.take(j + 1)[k]);
                    }
                }
            }
            if batch[j].sym.as_str().eq(batch[i].sym.as_str()) {
                assert(batch@.take(j + 1)[j as int].sym@ == batch@[i as int].sym@);
                twice = true;
            }
            j += 1;
        }
        if on_record || twice {
            list_once(&mut names, batch[i].sym.as_str());
        }
        i += 1;
    }
    assert(batch@.take(n as int) =~= batch@);
    names
}

/// The goals that are chapters of the course with the symbol `sym`.
pub open spec fn goal_of_course(sym: Seq<char>) -> spec_fn(Goal) -> bool {
    |g: Goal| g.source matches Source::Book(b) && b.sym@ == sym
}

/// The goals that are the chapter `seq` of the course with the symbol `sym`.
pub open spec fn goal_of_chapter(sym: Seq<char>, seq: i16) -> spec_fn(Goal) -> bool {
    |g: Goal| g.source matches Source::Book(b) && b.sym@ == sym && b.seq == seq
}

/// Some goal is a chapter of the course with the symbol `sym`.
pub open spec fn course_in_use(goals: Seq<Goal>, sym: Seq<char>) -> bool {
    exists|i: int| 0 <= i < goals.len() && goal_of_course(sym)(#[trigger] goals[i])
}

/// Some goal is the chapter `seq` of the course with the symbol `sym`.
pub open spec fn chapter_in_use(goals: Seq<Goal>, sym: Seq<char>, seq: i16) -> bool {
    exists|i: int| 0 <= i < goals.len() && goal_of_chapter(sym, seq)(#[trigger] goals[i])
}

/// Whether some goal is a chapter of the course with the symbol `sym`.
pub fn any_goal_in_course(goals: &Vec<Goal>, sym: &str) -> (r: bool)
    ensures
        r == course_in_use(goals@, sym@),
{
    let n = goals.len();
    let mut i: usize = 0;
    while i < n
        invariant
            i <= n == goals@.len(),
            forall|k: int| 0 <= k < i ==> !goal_of_course(sym@)(#[trigger] goals@[k]),
        decreases n - i,
    {
        if let Source::Book(b) = &goals[i].source {
            if b.sym.as_str().eq(sym) {
                return true;
            }
        }
        i += 1;
    }
    false
}

/// Whether some goal is the chapter `seq` of the course with the symbol `sym`.
pub fn any_goal_in_chapter(goals: &Vec<Goal>, sym: &str, seq: i16) -> (r: bool)
    ensures
        r == chapter_in_use(goals@, sym@, seq),
{
    let n = goals.len();
    let mut i: usize = 0;
    while i < n
        invariant
            i <= n == goals@.len(),
            forall|k: int| 0 <= k < i ==> !goal_of_chapter(sym@, seq)(#[trigger] goals@[k]),
        decreases n - i,
    {
        if let Source::Book(b) = &goals[i].source {
            if b.sym.as_str().eq(sym) && b.seq == seq {
                return true;
            }
        }
        i += 1;
    }
    false
}

/// The place of the course with the symbol `sym`.
pub fn find_course_index(courses: &Vec<Course>, sym: &str) -> (r: Option<usize>)
    ensures
        match r {
            Some(i) => course_index(courses@, sym@) == Some(i as int) && i < courses@.len()
                && courses@[i as int].sym@ == sym@,
            None => course_index(courses@, sym@) is None,
        },
{
    let ghost p = crate::config::course_with(sym@);
    let n = courses.len();
    let mut i: usize = 0;
    while i < n
        invariant
            i <= n == courses@.len(),
            p == crate::config::course_with(sym@),
            forall|k: int| 0 <= k < i ==> !p(#[trigger] courses@[k]),
        decreases n - i,
    {
        if courses[i].sym.as_str().eq(sym) {
            proof {
                crate::seqs::lemma_first_where_is(courses@, p, i as int);
            }
            return Some(i);
        }
        i += 1;
    }
    proof {
        crate::seqs::lemma_first_where_none(courses@, p);
    }
    None
}

/// Courses without one of them still have distinct symbols and are still
/// well formed.
pub proof fn lemma_remove_course(courses: Seq<Course>, i: int)
    requires
        distinct_syms(courses),
        forall|k: int| 0 <= k < courses.len() ==> (#[trigger] courses[k]).wf(),
        0 <= i < courses.len(),
    ensures
        distinct_syms(courses.remove(i)),
        forall|k: int| 0 <= k < courses.remove(i).len() ==> (#[trigger] courses.remove(i)[k]).wf(),
        course_index(courses.remove(i), courses[i].sym@) is None,
{
    let after = courses.remove(i);
    assert forall|a: int, b: int| 0 <= a < b < after.len() implies (#[trigger] after[a]).sym@ != (
    #[trigger] after[b]).sym@ by {
        let x = if a < i {
            a
        } else {
            a + 1
        };
        let y = if b < i {
            b
        } else {
            b + 1
        };
        assert(after[a] == courses[x] && after[b] == courses[y]);
    }
    assert forall|k: int| 0 <= k < after.len() implies (#[trigger] after[k]).wf() && after[k].sym@
        != courses[i].sym@ by {
        let x = if k < i {
            k
        } else {
            k + 1
        };
        assert(after[k] == courses[x]);
    }
    lemma_course_index(after, courses[i].sym@);
}

impl Store {
    /// Puts one course on record, under the next free number, with its
    /// chapters in ascending order of `seq` and numbered on from the next free
    /// chapter number. Says how many chapters went on record.
    pub fn insert_course(&mut self, given: &Course) -> (r: Result<usize, DbError>)
        requires
            old(self).wf(),
        ensures
            final(self).wf(),
            final(self).same_settings(old(self)),
            final(self).users == old(self).users,
            final(self).goals == old(self).goals,
            final(self).calendar == old(self).calendar,
            final(self).dates == old(self).dates,
            final(self).next_goal_id == old(self).next_goal_id,
            match r {
                Ok(n) => {
                    &&& insert_course_refusal(
                        old(self).courses@,
                        *given,
                        old(self).next_course_id,
                        old(self).next_chapter_id,
                    ) is None
                    &&& n == given.chapters@.len()
                    &&& final(self).courses@.len() == old(self).courses@.len() + 1
                    &&& final(self).courses@.drop_last() == old(self).courses@
                    &&& recorded_as(
                        final(self).courses@.last(),
                        *given,
                        old(self).next_course_id,
                        old(self).next_chapter_id,
                    )
                    &&& final(self).next_course_id == old(self).next_course_id + 1
                    &&& final(self).next_chapter_id == old(self).next_chapter_id + n
                },
                Err(e) => {
                    &&& insert_course_refusal(
                        old(self).courses@,
                        *given,
                        old(self).next_course_id,
                        old(self).next_chapter_id,
                    ) == Some(e.0@)
                    &&& final(self).courses == old(self).courses
                    &&& final(self).next_course_id == old(self).next_course_id
                    &&& final(self).next_chapter_id == old(self).next_chapter_id
                },
            },
    {
        if find_course(&self.courses, given.sym.as_str()).is_some() {
            let mut msg = String::from_str("Database already contains a course with the symbol ");
            msg.append(given.sym.as_str());
            return Err(DbError(msg));
        }
        let n = given.chapters.len();
        if self.next_course_id == i64::MAX || self.next_chapter_id as i128 + n as i128
            > i64::MAX as i128 {
            return Err(DbError(String::from_str("No more courses or chapters can be numbered.")));
        }
        if sum_weights(&given.chapters).is_none() {
            return Err(DbError(String::from_str("The chapters weigh too much to add up.")));
        }
        let id = self.next_course_id;
        let first = self.next_chapter_id;
        // The chapters, in order.
        let mut sorted: Vec<Chapter> = Vec::new();
        let mut i: usize = 0;
        while i < n
            invariant
                i <= n == given.chapters@.len(),
                sorted@ == given.chapters@.take(i as int),
            decreases n - i,
        {
            sorted.push(given.chapters[i].clone());
            assert(sorted@ =~= given.chapters@.take(i + 1));
            i += 1;
        }
        assert(given.chapters@.take(n as int) =~= given.chapters@);
        sort(&mut sorted);
        proof {
            lemma_sorted_of_len(given.chapters@);
            lemma_sorted_of_ordered(given.chapters@);
        }
        // Their numbers.
        let mut chapters: Vec<Chapter> = Vec::new();
        let mut k: usize = 0;
        while k < n
            invariant
                k <= n == sorted@.len(),
                first + n <= i64::MAX,
                first >= 1,
                first == self.next_chapter_id,
                id == self.next_course_id,
                chapters@.len() == k,
                forall|x: int|
                    0 <= x < k ==> (#[trigger] chapters@[x]) == recorded_chapter(sorted@, x, id, first),
            decreases n - k,
        {
            let c = &sorted[k];
            chapters.push(
                Chapter {
                    id: first + k as i64,
                    course_id: id,
                    seq: c.seq,
                    title: c.title.clone(),
                    subject: c.subject.clone(),
                    weight: c.weight,
                },
            );
            k += 1;
        }
        assert(chapters@ =~= recorded_chapters(sorted@, id, first));
        proof {
            lemma_same_chapters(sorted@, chapters@);
            lemma_sorted_total(given.chapters@);
        }
        let weight = sum_weights(&chapters);
        let stored = Course {
            id,
            sym: given.sym.clone(),
            book: given.book.clone(),
            title: given.title.clone(),
            level: given.level,
            weight,
            chapters,
        };
        proof {
            let before = self.courses@;
            let after = before.push(stored);
            lemma_course_index(before, given.sym@);
            assert forall|a: int, b: int| 0 <= a < b < after.len() implies (#[trigger] after[a]).sym@
                != (#[trigger] after[b]).sym@ by {
                if b < before.len() {
                    assert(after[a] == before[a] && after[b] == before[b]);
                } else {
                    assert(after[a] == before[a]);
                }
            }
            assert forall|x: int| 0 <= x < after.len() implies (#[trigger] after[x]).wf() by {
                if x < before.len() {
                    assert(after[x] == before[x]);
                }
            }
            assert(after.drop_last() =~= before);
        }
        self.courses.push(stored);
        self.next_course_id = id + 1;
        self.next_chapter_id = first + n as i64;
        Ok(n)
    }

    /// Puts a batch of courses on record, or none of them. Says how many
    /// courses and how many chapters went on record.
    pub fn insert_courses(&mut self, courses: &[Course]) -> (r: Result<(usize, usize), DbError>)
        requires
            old(self).wf(),
        ensures
            final(self).wf(),
            final(self).same_settings(old(self)),
            final(self).users == old(self).users,
            final(self).goals == old(self).goals,
            final(self).calendar == old(self).calendar,
            final(self).dates == old(self).dates,
            final(self).next_goal_id == old(self).next_goal_id,
            match r {
                Ok((n, m)) => {
                    &&& insert_courses_refusal(
                        old(self).courses@,
                        courses@,
                        old(self).next_course_id,
                        old(self).next_chapter_id,
                    ) is None
                    &&& n == courses@.len()
                    &&& m == chapters_in(courses@)
                    &&& final(self).next_course_id == old(self).next_course_id + n
                    &&& final(self).next_chapter_id == old(self).next_chapter_id + m
                    &&& final(self).courses@.len() == old(self).courses@.len() + n
                    &&& final(self).courses@.take(old(self).courses@.len() as int) == old(self).courses@
                    &&& forall|k: int|
                        0 <= k < n ==> recorded_as(
                            #[trigger] final(self).courses@[old(self).courses@.len() + k],
                            courses@[k],
                            (old(self).next_course_id + k) as i64,
                            (old(self).next_chapter_id + chapters_in(courses@.take(k))) as i64,
                        )
                },
                Err(e) => {
                    &&& insert_courses_refusal(
                        old(self).courses@,
                        courses@,
                        old(self).next_course_id,
                        old(self).next_chapter_id,
                    ) == Some(e.0@)
                    &&& final(self).courses@ == old(self).courses@
                    &&& final(self).next_course_id == old(self).next_course_id
                    &&& final(self).next_chapter_id == old(self).next_chapter_id
                },
            },
    {
        let taken = list_taken_syms(&self.courses, courses);
        if taken.len() > 0 {
            let mut msg = String::from_str(
                "Database already contains courses with the following symbols:\n",
            );
            append_lines(&mut msg, &taken);
            return Err(DbError(msg));
        }
        proof {
            lemma_no_taken_syms(self.courses@, courses@);
        }
        let n = courses.len();
        let ghost before = self.courses@;
        let saved_courses = self.courses.len();
        let saved_course_id = self.next_course_id;
        let saved_chapter_id = self.next_chapter_id;
        let mut total: usize = 0;
        let mut i: usize = 0;
        assert(self.courses@.take(before.len() as int) =~= before);
        assert(courses@.take(0) =~= Seq::<Course>::empty());
        while i < n
            invariant
                i <= n == courses@.len(),
                self.wf(),
                self.same_settings(old(self)),
                self.users == old(self).users,
                self.goals == old(self).goals,
                self.calendar == old(self).calendar,
                self.dates == old(self).dates,
                self.next_goal_id == old(self).next_goal_id,
                saved_courses == before.len(),
                before == old(self).courses@,
                distinct_syms(before),
                forall|k: int| 0 <= k < before.len() ==> (#[trigger] before[k]).wf(),
                saved_course_id >= 1,
                saved_chapter_id >= 1,
                saved_course_id == old(self).next_course_id,
                saved_chapter_id == old(self).next_chapter_id,
                self.next_course_id == saved_course_id + i,
                total == chapters_in(courses@.take(i as int)),
                self.next_chapter_id == saved_chapter_id + total,
                numbering_refusal(courses@.take(i as int), saved_course_id, saved_chapter_id) is None,
                self.courses@.len() == before.len() + i,
                self.courses@.take(before.len() as int) == before,
                taken_syms(before, courses@).len() == 0,
                forall|k: int|
                    i <= k < n ==> course_index(self.courses@, (#[trigger] courses@[k]).sym@) is None,
                forall|a: int, b: int|
                    0 <= a < b < n ==> (#[trigger] courses@[a]).sym@ != (#[trigger] courses@[b]).sym@,
                forall|k: int|
                    0 <= k < i ==> recorded_as(
                        #[trigger] self.courses@[before.len() + k],
                        courses@[k],
                        (saved_course_id + k) as i64,
                        (saved_chapter_id + chapters_in(courses@.take(k))) as i64,
                    ),
            decreases n - i,
        {
            let ghost prior = self.courses@;
            proof {
                assert(courses@.take(i + 1).drop_last() =~= courses@.take(i as int));
                assert(courses@.take(i + 1).last() == courses@[i as int]);
            }
            let fits = courses[i].chapters.len() <= usize::MAX - total;
            let outcome = if fits {
                self.insert_course(&courses[i])
            } else {
                Err(DbError(String::from_str("No more courses or chapters can be numbered.")))
            };
            match outcome {
                Ok(m) => {
                    total = total + m;
                    proof {
                        assert(self.courses@.drop_last() == prior);
                        assert(self.courses@.take(before.len() as int) =~= prior.take(
                            before.len() as int,
                        ));
                        assert forall|k: int| i + 1 <= k < n implies course_index(
                            self.courses@,
                            (#[trigger] courses@[k]).sym@,
                        ) is None by {
                            let sym = courses@[k].sym@;
                            lemma_course_index(prior, sym);
                            lemma_course_index(self.courses@, sym);
                            match course_index(self.courses@, sym) {
                                Some(x) => {
                                    if x < prior.len() {
                                        assert(self.courses@[x] == self.courses@.drop_last()[x]);
                                    } else {
                                        assert(self.courses@[x] == self.courses@.last());
                                        assert(courses@[i as int].sym@ != sym);
                                    }
                                },
                                None => {},
                            }
                        }
                        assert forall|k: int| 0 <= k < i + 1 implies recorded_as(
                            #[trigger] self.courses@[before.len() + k],
                            courses@[k],
                            (saved_course_id + k) as i64,
                            (saved_chapter_id + chapters_in(courses@.take(k))) as i64,
                        ) by {
                            if k < i {
                                assert(self.courses@[before.len() + k] == self.courses@.drop_last()[before.len()
                                    + k]);
                            } else {
                                assert(self.courses@[before.len() + k] == self.courses@.last());
                            }
                        }
                    }
                },
                Err(e) => {
                    // Nothing of the batch stays on record.
                    proof {
                        let kept = self.courses@.take(before.len() as int);
                        assert(kept == before);
                        assert(numbering_refusal(
                            courses@.take(i + 1),
                            saved_course_id,
                            saved_chapter_id,
                        ) == Some(e.0@));
                        lemma_numbering_fails(courses@, saved_course_id, saved_chapter_id, i + 1);
                    }
                    self.courses.truncate(saved_courses);
                    assert(self.courses@ =~= before);
                    self.next_course_id = saved_course_id;
                    self.next_chapter_id = saved_chapter_id;
                    return Err(e);
                },
            }
            i += 1;
        }
        assert(courses@.take(n as int) =~= courses@);
        Ok((n, total))
    }

    /// The course with the symbol `sym`, as on record.
    pub fn get_course_by_sym(&self, sym: &str) -> (r: Option<Course>)
        ensures
            match course_index(self.courses@, sym@) {
                Some(i) => r is Some && same_course(r->0, self.courses@[i]),
                None => r is None,
            },
    {
        match find_course(&self.courses, sym) {
            Some(c) => Some(copy_course(c)),
            None => None,
        }
    }

    /// All the courses, as on record.
    pub fn get_courses(&self) -> (r: Vec<Course>)
        ensures
            r@.len() == self.courses@.len(),
            forall|i: int| 0 <= i < r@.len() ==> same_course(#[trigger] r@[i], self.courses@[i]),
    {
        let n = self.courses.len();
        let mut out: Vec<Course> = Vec::new();
        let mut i: usize = 0;
        while i < n
            invariant
                i <= n == self.courses@.len(),
                out@.len() == i,
                forall|k: int| 0 <= k < i ==> same_course(#[trigger] out@[k], self.courses@[k]),
            decreases n - i,
        {
            out.push(copy_course(&self.courses[i]));
            i += 1;
        }
        out
    }

    /// Takes a course off the record, with its chapters. Refused where there
    /// is no such course and where a goal is a chapter of it. Says how many
    /// courses and chapters went.
    pub fn delete_course(&mut self, sym: &str) -> (r: Result<(usize, usize), DbError>)
        requires
            old(self).wf(),
        ensures
            final(self).wf(),
            final(self).same_settings(old(self)),
            final(self).users == old(self).users,
            final(self).goals == old(self).goals,
            final(self).calendar == old(self).calendar,
            final(self).dates == old(self).dates,
            final(self).same_numbers(old(self)),
            match r {
                Ok((n, m)) => {
                    &&& course_index(old(self).courses@, sym@) matches Some(i)
                    &&& !course_in_use(old(self).goals@, sym@)
                    &&& n == 1
                    &&& m == old(self).courses@[course_index(
                        old(self).courses@,
                        sym@,
                    )->0].chapters@.len()
                    &&& final(self).courses@ == old(self).courses@.remove(
                        course_index(old(self).courses@, sym@)->0,
                    )
                    &&& course_index(final(self).courses@, sym@) is None
                },
                Err(e) => {
                    &&& e.0@ == if course_index(old(self).courses@, sym@) is None {
                        "There is no course with symbol "@ + sym@ + "."@
                    } else {
                        "Goals are still set from the course "@ + sym@ + "."@
                    }
                    &&& course_index(old(self).courses@, sym@) is None || course_in_use(
                        old(self).goals@,
                        sym@,
                    )
                    &&& final(self).courses == old(self).courses
                },
            },
    {
        let i = match find_course_index(&self.courses, sym) {
            Some(i) => i,
            None => {
                let mut msg = String::from_str("There is no course with symbol ");
                msg.append(sym);
                msg.append(".");
                return Err(DbError(msg));
            },
        };
        if any_goal_in_course(&self.goals, sym) {
            let mut msg = String::from_str("Goals are still set from the course ");
            msg.append(sym);
            msg.append(".");
            return Err(DbError(msg));
        }
        proof {
            lemma_remove_course(self.courses@, i as int);
        }
        let m = self.courses[i].chapters.len();
        self.courses.remove(i);
        Ok((1, m))
    }
}

/// Two courses are the same in everything: number, symbol, book, title,
/// level, weight and chapters.
pub open spec fn same_course(a: Course, b: Course) -> bool {
    &&& a.id == b.id
    &&& a.sym == b.sym
    &&& a.book == b.book
    &&& a.title == b.title
    &&& a.level == b.level
    &&& a.weight == b.weight
    &&& a.chapters@ == b.chapters@
}

/// A copy of a course.
pub fn copy_course(c: &Course) -> (r: Course)
    ensures
        same_course(r, *c),
{
    let n = c.chapters.len();
    let mut chapters: Vec<Chapter> = Vec::new();
    let mut i: usize = 0;
    while i < n
        invariant
            i <= n == c.chapters@.len(),
            chapters@ == c.chapters@.take(i as int),
        decreases n - i,
    {
        chapters.push(c.chapters[i].clone());
        assert(chapters@ =~= c.chapters@.take(i + 1));
        i += 1;
    }
    assert(c.chapters@.take(n as int) =~= c.chapters@);
    Course {
        id: c.id,
        sym: c.sym.clone(),
        book: c.book.clone(),
        title: c.title.clone(),
        level: c.level,
        weight: c.weight,
        chapters,
    }
}

/// Chapters weigh the same together in whatever order they stand.
pub proof fn lemma_sorted_total(chapters: Seq<Chapter>)
    ensures
        total_weight(sorted_of(chapters)) == total_weight(chapters),
    decreases chapters.len(),
{
    if chapters.len() > 0 {
        let t = sorted_of(chapters.drop_last());
        lemma_sorted_total(chapters.drop_last());
        crate::order::lemma_insert_point_bounds(t, chapters.last());
        lemma_total_insert(t, crate::order::insert_point(t, chapters.last()), chapters.last());
    }
}

/// A chapter put in among others adds its weight to theirs.
pub proof fn lemma_total_insert(chapters: Seq<Chapter>, i: int, c: Chapter)
    requires
        0 <= i <= chapters.len(),
    ensures
        total_weight(chapters.insert(i, c)) == total_weight(chapters) + c.weight,
    decreases chapters.len() - i,
{
    let after = chapters.insert(i, c);
    if i == chapters.len() {
        assert(after.drop_last() =~= chapters);
        assert(after.last() == c);
    } else {
        assert(after.drop_last() =~= chapters.drop_last().insert(i, c));
        assert(after.last() == chapters.last());
        lemma_total_insert(chapters.drop_last(), i, c);
    }
}

/// The chapter has the number `id`.
pub open spec fn chapter_numbered(id: i64) -> spec_fn(Chapter) -> bool {
    |c: Chapter| c.id == id
}

/// The course has a chapter with the number `id`.
pub open spec fn course_holding(id: i64) -> spec_fn(Course) -> bool {
    |c: Course| crate::seqs::first_where(c.chapters@, chapter_numbered(id)) is Some
}

/// Chapters in order stay in order when one of them goes, and weigh that
/// much less together.
pub proof fn lemma_remove_chapter(chapters: Seq<Chapter>, k: int)
    requires
        0 <= k < chapters.len(),
    ensures
        is_ordered(chapters) ==> is_ordered(chapters.remove(k)),
        total_weight(chapters.remove(k)) == total_weight(chapters) - chapters[k].weight,
        0 <= total_weight(chapters.remove(k)) <= total_weight(chapters),
    decreases chapters.len(),
{
    let after = chapters.remove(k);
    if is_ordered(chapters) {
        assert forall|i: int, j: int| 0 <= i < j < after.len() implies !(#[trigger] after[j].before(
            &after[i],
        )) by {
            let x = if i < k {
                i
            } else {
                i + 1
            };
            let y = if j < k {
                j
            } else {
                j + 1
            };
            assert(after[i] == chapters[x] && after[j] == chapters[y]);
            assert(!chapters[y].before(&chapters[x]));
        }
    }
    if k == chapters.len() - 1 {
        assert(after =~= chapters.drop_last());
        assert(chapters.last() == chapters[k]);
    } else {
        assert(after.drop_last() =~= chapters.drop_last().remove(k));
        assert(after.last() == chapters.last());
        assert(chapters.drop_last()[k] == chapters[k]);
        lemma_remove_chapter(chapters.drop_last(), k);
    }
    lemma_total_weight_covers(after, 0);
    lemma_total_weight_covers(chapters, k);
}

/// The place of the first chapter numbered `id`.
pub fn find_chapter(chapters: &Vec<Chapter>, id: i64) -> (r: Option<usize>)
    ensures
        match r {
            Some(k) => crate::seqs::first_where(chapters@, chapter_numbered(id)) == Some(k as int) && k
                < chapters@.len() && chapters@[k as int].id == id,
            None => crate::seqs::first_where(chapters@, chapter_numbered(id)) is None,
        },
{
    let ghost p = chapter_numbered(id);
    let n = chapters.len();
    let mut i: usize = 0;
    while i < n
        invariant
            i <= n == chapters@.len(),
            p == chapter_numbered(id),
            forall|k: int| 0 <= k < i ==> !p(#[trigger] chapters@[k]),
        decreases n - i,
    {
        if chapters[i].id == id {
            proof {
                crate::seqs::lemma_first_where_is(chapters@, p, i as int);
            }
            return Some(i);
        }
        i += 1;
    }
    proof {
        crate::seqs::lemma_first_where_none(chapters@, p);
    }
    None
}

/// The words in which a chapter is kept on record, if it is: there is no
/// such chapter, or a goal is this chapter.
pub open spec fn delete_chapter_refusal(courses: Seq<Course>, goals: Seq<Goal>, id: i64) -> Option<
    Seq<char>,
> {
    match crate::seqs::first_where(courses, course_holding(id)) {
        None => Some(no_such_chapter()),
        Some(i) => {
            let c = courses[i];
            let k = crate::seqs::first_where(c.chapters@, chapter_numbered(id))->0;
            if chapter_in_use(goals, c.sym@, c.chapters@[k].seq) {
                Some(chapter_has_goals())
            } else {
                None
            }
        },
    }
}

/// The place of the first course with a chapter numbered `id`, and the
/// chapter's place in the course.
pub fn locate_chapter(courses: &Vec<Course>, id: i64) -> (r: Option<(usize, usize)>)
    ensures
        match r {
            Some((i, k)) => {
                &&& crate::seqs::first_where(courses@, course_holding(id)) == Some(i as int)
                &&& i < courses@.len()
                &&& crate::seqs::first_where(courses@[i as int].chapters@, chapter_numbered(id))
                    == Some(k as int)
                &&& k < courses@[i as int].chapters@.len()
            },
            None => crate::seqs::first_where(courses@, course_holding(id)) is None,
        },
{
    let ghost p = course_holding(id);
    let n = courses.len();
    let mut i: usize = 0;
    while i < n
        invariant
            i <= n == courses@.len(),
            p == course_holding(id),
            forall|x: int| 0 <= x < i ==> !p(#[trigger] courses@[x]),
        decreases n - i,
    {
        match find_chapter(&courses[i].chapters, id) {
            None => {},
            Some(k) => {
                proof {
                    crate::seqs::lemma_first_where_is(courses@, p, i as int);
                }
                return Some((i, k));
            },
        }
        i += 1;
    }
    proof {
        crate::seqs::lemma_first_where_none(courses@, p);
    }
    None
}

impl Store {
    /// Takes the chapter numbered `id` off the record. Refused where there
    /// is no such chapter and where a goal is this chapter.
    pub fn delete_chapter(&mut self, id: i64) -> (r: Result<(), DbError>)
        requires
            old(self).wf(),
        ensures
            final(self).wf(),
            final(self).same_settings(old(self)),
            final(self).same_numbers(old(self)),
            final(self).users == old(self).users,
            final(self).goals == old(self).goals,
            final(self).calendar == old(self).calendar,
            final(self).dates == old(self).dates,
            match r {
                Ok(()) => {
                    &&& crate::seqs::first_where(old(self).courses@, course_holding(id)) matches Some(i)
                    &&& ({
                        let i = crate::seqs::first_where(old(self).courses@, course_holding(id))->0;
                        let c = old(self).courses@[i];
                        let k = crate::seqs::first_where(c.chapters@, chapter_numbered(id))->0;
                        &&& !chapter_in_use(old(self).goals@, c.sym@, c.chapters@[k].seq)
                        &&& final(self).courses@.len() == old(self).courses@.len()
                        &&& forall|x: int|
                            0 <= x < old(self).courses@.len() && x != i ==> (
                            #[trigger] final(self).courses@[x]) == old(self).courses@[x]
                        &&& final(self).courses@[i].chapters@ == c.chapters@.remove(k)
                        &&& final(self).courses@[i].sym == c.sym
                        &&& final(self).courses@[i].id == c.id
                        &&& final(self).courses@[i].title == c.title
                        &&& final(self).courses@[i].book == c.book
                        &&& final(self).courses@[i].level == c.level
                    })
                },
                Err(e) => final(self).courses@ == old(self).courses@ && delete_chapter_refusal(
                    old(self).courses@,
                    old(self).goals@,
                    id,
                ) == Some(e.0@),
            },
    {
        let ghost p = course_holding(id);
        let ghost before = self.courses@;
        let n = self.courses.len();
        let mut i: usize = 0;
        while i < n
            invariant
                i <= n == before.len(),
                *self == *old(self),
                self.wf(),
                before == self.courses@,
                p == course_holding(id),
                forall|x: int| 0 <= x < i ==> !p(#[trigger] before[x]),
            decreases n - i,
        {
            match find_chapter(&self.courses[i].chapters, id) {
                None => {},
                Some(k) => {
                    proof {
                        crate::seqs::lemma_first_where_is(before, p, i as int);
                    }
                    let seq = self.courses[i].chapters[k].seq;
                    if any_goal_in_chapter(&self.goals, self.courses[i].sym.as_str(), seq) {
                        return Err(DbError(String::from_str("Goals are still set from this chapter.")));
                    }
                    let mut c = self.courses.remove(i);
                    let ghost chapters = c.chapters@;
                    proof {
                        assert(c == before[i as int]);
                        assert(c.wf());
                        lemma_remove_chapter(chapters, k as int);
                    }
                    c.chapters.remove(k);
                    c.weight = sum_weights(&c.chapters);
                    self.courses.insert(i, c);
                    proof {
                        let after = self.courses@;
                        assert forall|x: int| 0 <= x < before.len() && x != i implies #[trigger] after[x]
                            == before[x] by {}
                        assert forall|a: int, b: int| 0 <= a < b < after.len() implies (
                        #[trigger] after[a]).sym@ != (#[trigger] after[b]).sym@ by {
                            assert(after[a].sym == before[a].sym && after[b].sym == before[b].sym);
                        }
                        assert forall|x: int| 0 <= x < after.len() implies (#[trigger] after[x]).wf() by {
                            if x != i {
                                assert(after[x] == before[x]);
                            }
                        }
                    }
                    return Ok(());
                },
            }
            i += 1;
        }
        proof {
            crate::seqs::lemma_first_where_none(before, p);
        }
        Err(DbError(String::from_str("There is no chapter with this id.")))
    }
}

/// The course has the number `id`.
pub open spec fn course_numbered(id: i64) -> spec_fn(Course) -> bool {
    |c: Course| c.id == id
}

/// The place of the first course numbered `id`.
pub fn find_course_by_id(courses: &Vec<Course>, id: i64) -> (r: Option<usize>)
    ensures
        match r {
            Some(i) => crate::seqs::first_where(courses@, course_numbered(id)) == Some(i as int) && i
                < courses@.len() && courses@[i as int].id == id,
            None => crate::seqs::first_where(courses@, course_numbered(id)) is None,
        },
{
    let ghost p = course_numbered(id);
    let n = courses.len();
    let mut i: usize = 0;
    while i < n
        invariant
            i <= n == courses@.len(),
            p == course_numbered(id),
            forall|k: int| 0 <= k < i ==> !p(#[trigger] courses@[k]),
        decreases n - i,
    {
        if courses[i].id == id {
            proof {
                crate::seqs::lemma_first_where_is(courses@, p, i as int);
            }
            return Some(i);
        }
        i += 1;
    }
    proof {
        crate::seqs::lemma_first_where_none(courses@, p);
    }
    None
}

/// Whether another course than the one at place `i` has the symbol `sym`.
fn sym_taken_elsewhere(courses: &Vec<Course>, i: usize, sym: &str) -> (r: bool)
    requires
        i < courses@.len(),
    ensures
        r == sym_elsewhere(courses@, i as int, sym@),
{
    let n = courses.len();
    let mut k: usize = 0;
    while k < n
        invariant
            k <= n == courses@.len(),
            forall|x: int| 0 <= x < k && x != i ==> (#[trigger] courses@[x]).sym@ != sym@,
        decreases n - k,
    {
        if k != i && courses[k].sym.as_str().eq(sym) {
            return true;
        }
        k += 1;
    }
    false
}

/// Another course than the one at place `i` has the symbol `sym`.
pub open spec fn sym_elsewhere(courses: Seq<Course>, i: int, sym: Seq<char>) -> bool {
    exists|k: int| 0 <= k < courses.len() && k != i && (#[trigger] courses[k]).sym@ == sym
}

/// The words in which a course's record is not written anew, if it is not.
pub open spec fn update_course_refusal(courses: Seq<Course>, goals: Seq<Goal>, given: Course) -> Option<
    Seq<char>,
> {
    match crate::seqs::first_where(courses, course_numbered(given.id)) {
        None => Some(no_such_course()),
        Some(i) => if sym_elsewhere(courses, i, given.sym@) {
            Some(sym_taken(given.sym@))
        } else if courses[i].sym@ != given.sym@ && course_in_use(goals, courses[i].sym@) {
            Some("Goals are still set from this course."@)
        } else {
            None
        },
    }
}

/// The words in which a chapter does not go on record, if it does not.
pub open spec fn insert_chapter_refusal(courses: Seq<Course>, given: Chapter, next_id: i64) -> Option<
    Seq<char>,
> {
    match crate::seqs::first_where(courses, course_numbered(given.course_id)) {
        None => Some(no_such_course()),
        Some(i) => if next_id == i64::MAX {
            Some("No more chapters can be numbered."@)
        } else if total_weight(courses[i].chapters@) + given.weight > u64::MAX {
            Some(too_heavy())
        } else {
            None
        },
    }
}

/// A chapter as it goes on record: under the number `id`.
pub open spec fn numbered_chapter(given: Chapter, id: i64) -> Chapter {
    Chapter {
        id,
        course_id: given.course_id,
        seq: given.seq,
        title: given.title,
        subject: given.subject,
        weight: given.weight,
    }
}

/// The chapters of each course, course by course.
pub open spec fn chapter_lists(courses: Seq<Course>) -> Seq<Seq<Chapter>> {
    courses.map_values(|c: Course| c.chapters@)
}

/// The chapters of the courses after one more chapter went on record under
/// the number `id`, or the words in which it is refused. `lists` are the
/// chapters that the courses have by then.
pub open spec fn lists_with_chapter(
    courses: Seq<Course>,
    lists: Seq<Seq<Chapter>>,
    given: Chapter,
    id: int,
) -> Result<Seq<Seq<Chapter>>, Seq<char>> {
    match crate::seqs::first_where(courses, course_numbered(given.course_id)) {
        None => Err(no_such_course()),
        Some(i) => if id >= i64::MAX {
            Err("No more chapters can be numbered."@)
        } else if total_weight(lists[i]) + given.weight > u64::MAX {
            Err(too_heavy())
        } else {
            Ok(lists.update(i, sorted_of(lists[i].push(numbered_chapter(given, id as i64)))))
        },
    }
}

/// The chapters of the courses after the chapters of a batch went on record
/// one after the other, numbered from `first_id` on, or the words in which
/// the first of them that is refused is refused.
pub open spec fn lists_with_chapters(courses: Seq<Course>, given: Seq<Chapter>, first_id: i64) -> Result<
    Seq<Seq<Chapter>>,
    Seq<char>,
>
    decreases given.len(),
{
    if given.len() == 0 {
        Ok(chapter_lists(courses))
    } else {
        match lists_with_chapters(courses, given.drop_last(), first_id) {
            Err(e) => Err(e),
            Ok(lists) => lists_with_chapter(courses, lists, given.last(), first_id + given.len() - 1),
        }
    }
}

/// Once the first `k` chapters of a batch are refused, the batch is, in the
/// same words.
pub proof fn lemma_lists_with_chapters_fails(
    courses: Seq<Course>,
    given: Seq<Chapter>,
    first_id: i64,
    k: int,
)
    requires
        0 <= k <= given.len(),
        lists_with_chapters(courses, given.take(k), first_id) is Err,
    ensures
        lists_with_chapters(courses, given, first_id) == lists_with_chapters(
            courses,
            given.take(k),
            first_id,
        ),
    decreases given.len() - k,
{
    if k == given.len() {
        assert(given.take(k) =~= given);
    } else {
        assert(given.take(k + 1).drop_last() =~= given.take(k));
        lemma_lists_with_chapters_fails(courses, given, first_id, k + 1);
    }
}

/// The courses of `a` are those of `b`, one for one, in everything but
/// their chapters and what these weigh.
pub open spec fn same_heads(a: Seq<Course>, b: Seq<Course>) -> bool {
    &&& a.len() == b.len()
    &&& forall|k: int|
        0 <= k < a.len() ==> {
            &&& (#[trigger] a[k]).id == b[k].id
            &&& a[k].sym == b[k].sym
            &&& a[k].book == b[k].book
            &&& a[k].title == b[k].title
            &&& a[k].level == b[k].level
        }
}

/// Courses that are numbered alike are found at the same places.
pub proof fn lemma_same_heads_index(a: Seq<Course>, b: Seq<Course>, id: i64)
    requires
        same_heads(a, b),
    ensures
        crate::seqs::first_where(a, course_numbered(id)) == crate::seqs::first_where(
            b,
            course_numbered(id),
        ),
{
    let p = course_numbered(id);
    crate::seqs::lemma_first_where(a, p);
    crate::seqs::lemma_first_where(b, p);
    match crate::seqs::first_where(a, p) {
        Some(i) => {
            assert(p(b[i]));
            assert forall|k: int| 0 <= k < i implies !p(#[trigger] b[k]) by {
                assert(!p(a[k]));
            }
            crate::seqs::lemma_first_where_is(b, p, i);
        },
        None => {
            assert forall|k: int| 0 <= k < b.len() implies !p(#[trigger] b[k]) by {
                assert(!p(a[k]));
            }
            crate::seqs::lemma_first_where_none(b, p);
        },
    }
}

/// The words in which a chapter's record is not written anew, if it is not.
pub open spec fn update_chapter_refusal(courses: Seq<Course>, goals: Seq<Goal>, given: Chapter) -> Option<
    Seq<char>,
> {
    match crate::seqs::first_where(courses, course_holding(given.id)) {
        None => Some(no_such_chapter()),
        Some(i) => {
            let c = courses[i];
            let k = crate::seqs::first_where(c.chapters@, chapter_numbered(given.id))->0;
            if c.chapters@[k].seq != given.seq && chapter_in_use(goals, c.sym@, c.chapters@[k].seq) {
                Some(chapter_has_goals())
            } else if total_weight(c.chapters@) - c.chapters@[k].weight + given.weight > u64::MAX {
                Some(too_heavy())
            } else {
                None
            }
        },
    }
}

/// The course at place `i` has taken on what `given` says of a course: symbol,
/// book, title and level. Number, chapters and weight are as they were, and
/// so is every other course.
pub open spec fn course_rewritten(before: Seq<Course>, after: Seq<Course>, i: int, given: Course) -> bool {
    &&& after.len() == before.len()
    &&& forall|k: int| 0 <= k < before.len() && k != i ==> (#[trigger] after[k]) == before[k]
    &&& after[i].id == before[i].id
    &&& after[i].sym == given.sym
    &&& after[i].book == given.book
    &&& after[i].title == given.title
    &&& after[i].level == given.level
    &&& after[i].weight == before[i].weight
    &&& after[i].chapters == before[i].chapters
}

/// The course at place `i` has the chapters `chapters`, put in order, and
/// their total weight. Everything else of it is as it was, and so is every
/// other course.
pub open spec fn chapters_replaced(
    before: Seq<Course>,
    after: Seq<Course>,
    i: int,
    chapters: Seq<Chapter>,
) -> bool {
    &&& after.len() == before.len()
    &&& forall|k: int| 0 <= k < before.len() && k != i ==> (#[trigger] after[k]) == before[k]
    &&& after[i].id == before[i].id
    &&& after[i].sym == before[i].sym
    &&& after[i].book == before[i].book
    &&& after[i].title == before[i].title
    &&& after[i].level == before[i].level
    &&& after[i].chapters@ == sorted_of(chapters)
    &&& after[i].wf()
}

impl Store {
    /// Sets the chapters of the course at place `i`, in order, with their
    /// total weight. Refused where the weights cannot be added up.
    fn replace_chapters(&mut self, i: usize, chapters: Vec<Chapter>) -> (r: bool)
        requires
            old(self).wf(),
            i < old(self).courses@.len(),
        ensures
            final(self).wf(),
            final(self).same_settings(old(self)),
            final(self).same_numbers(old(self)),
            final(self).users == old(self).users,
            final(self).goals == old(self).goals,
            final(self).calendar == old(self).calendar,
            final(self).dates == old(self).dates,
            r == (total_weight(chapters@) <= u64::MAX),
            r ==> chapters_replaced(old(self).courses@, final(self).courses@, i as int, chapters@),
            !r ==> final(self).courses == old(self).courses,
    {
        if sum_weights(&chapters).is_none() {
            return false;
        }
        let ghost before = self.courses@;
        let ghost given = chapters@;
        proof {
            lemma_sorted_total(given);
        }
        let c = self.courses.remove(i);
        let fresh = Course::new(c.id, c.sym, c.book, c.title, c.level).with_chapters(chapters);
        self.courses.insert(i, fresh);
        proof {
            let after = self.courses@;
            assert forall|k: int| 0 <= k < before.len() && k != i implies #[trigger] after[k]
                == before[k] by {}
            assert forall|a: int, b: int| 0 <= a < b < after.len() implies (#[trigger] after[a]).sym@
                != (#[trigger] after[b]).sym@ by {
                assert(after[a].sym == before[a].sym && after[b].sym == before[b].sym);
            }
            assert forall|x: int| 0 <= x < after.len() implies (#[trigger] after[x]).wf() by {
                if x != i {
                    assert(after[x] == before[x]);
                }
            }
        }
        true
    }

    /// Writes a course's record anew: symbol, book, title and level become
    /// those of `given`; the course is found by its number, and its chapters
    /// stay. Refused where no course has the number, where another course has
    /// the new symbol, and where the symbol changes while goals are set from
    /// the course.
    pub fn update_course(&mut self, given: &Course) -> (r: Result<(), DbError>)
        requires
            old(self).wf(),
        ensures
            final(self).wf(),
            final(self).same_settings(old(self)),
            final(self).same_numbers(old(self)),
            final(self).users == old(self).users,
            final(self).goals == old(self).goals,
            final(self).calendar == old(self).calendar,
            final(self).dates == old(self).dates,
            match r {
                Ok(()) => {
                    &&& update_course_refusal(old(self).courses@, old(self).goals@, *given) is None
                    &&& crate::seqs::first_where(old(self).courses@, course_numbered(given.id)) matches Some(
                        i,
                    )
                    &&& course_rewritten(
                        old(self).courses@,
                        final(self).courses@,
                        crate::seqs::first_where(old(self).courses@, course_numbered(given.id))->0,
                        *given,
                    )
                },
                Err(e) => final(self).courses == old(self).courses && update_course_refusal(
                    old(self).courses@,
                    old(self).goals@,
                    *given,
                ) == Some(e.0@),
            },
    {
        let i = match find_course_by_id(&self.courses, given.id) {
            Some(i) => i,
            None => {
                return Err(DbError(String::from_str("There is no course with this id.")));
            },
        };
        if sym_taken_elsewhere(&self.courses, i, given.sym.as_str()) {
            let mut msg = String::from_str("Database already contains a course with the symbol ");
            msg.append(given.sym.as_str());
            return Err(DbError(msg));
        }
        if !self.courses[i].sym.as_str().eq(given.sym.as_str()) && any_goal_in_course(
            &self.goals,
            self.courses[i].sym.as_str(),
        ) {
            return Err(DbError(String::from_str("Goals are still set from this course.")));
        }
        let ghost before = self.courses@;
        let c = self.courses.remove(i);
        let fresh = Course {
            id: c.id,
            sym: given.sym.clone(),
            book: given.book.clone(),
            title: given.title.clone(),
            level: given.level,
            weight: c.weight,
            chapters: c.chapters,
        };
        self.courses.insert(i, fresh);
        proof {
            let after = self.courses@;
            assert(before[i as int].wf());
            assert forall|k: int| 0 <= k < before.len() && k != i implies #[trigger] after[k]
                == before[k] by {}
            assert forall|a: int, b: int| 0 <= a < b < after.len() implies (#[trigger] after[a]).sym@
                != (#[trigger] after[b]).sym@ by {
                if a != i {
                    assert(after[a] == before[a]);
                }
                if b != i {
                    assert(after[b] == before[b]);
                }
            }
            assert forall|x: int| 0 <= x < after.len() implies (#[trigger] after[x]).wf() by {
                if x != i {
                    assert(after[x] == before[x]);
                }
            }
        }
        Ok(())
    }

    /// Puts one more chapter on record, under the next free number, in the
    /// course whose number it names; the course's chapters stay in order, and
    /// its weight becomes that of all of them. Refused where no course has
    /// the number and where the weights cannot be added up.
    pub fn insert_chapter(&mut self, given: &Chapter) -> (r: Result<(), DbError>)
        requires
            old(self).wf(),
        ensures
            final(self).wf(),
            final(self).same_settings(old(self)),
            final(self).users == old(self).users,
            final(self).goals == old(self).goals,
            final(self).calendar == old(self).calendar,
            final(self).dates == old(self).dates,
            final(self).next_course_id == old(self).next_course_id,
            final(self).next_goal_id == old(self).next_goal_id,
            match r {
                Ok(()) => {
                    &&& insert_chapter_refusal(old(self).courses@, *given, old(self).next_chapter_id)
                        is None
                    &&& crate::seqs::first_where(
                        old(self).courses@,
                        course_numbered(given.course_id),
                    ) matches Some(i)
                    &&& old(self).next_chapter_id < i64::MAX
                    &&& final(self).next_chapter_id == old(self).next_chapter_id + 1
                    &&& ({
                        let i = crate::seqs::first_where(
                            old(self).courses@,
                            course_numbered(given.course_id),
                        )->0;
                        chapters_replaced(
                            old(self).courses@,
                            final(self).courses@,
                            i,
                            old(self).courses@[i].chapters@.push(
                                Chapter {
                                    id: old(self).next_chapter_id,
                                    course_id: given.course_id,
                                    seq: given.seq,
                                    title: given.title,
                                    subject: given.subject,
                                    weight: given.weight,
                                },
                            ),
                        )
                    })
                },
                Err(e) => final(self).courses == old(self).courses && final(self).next_chapter_id
                    == old(self).next_chapter_id && insert_chapter_refusal(
                    old(self).courses@,
                    *given,
                    old(self).next_chapter_id,
                ) == Some(e.0@),
            },
    {
        let i = match find_course_by_id(&self.courses, given.course_id) {
            Some(i) => i,
            None => {
                return Err(DbError(String::from_str("There is no course with this id.")));
            },
        };
        if self.next_chapter_id == i64::MAX {
            return Err(DbError(String::from_str("No more chapters can be numbered.")));
        }
        let mut chapters = copy_course(&self.courses[i]).chapters;
        proof {
            let held = self.courses@[i as int].chapters@;
            let fresh = Chapter {
                id: self.next_chapter_id,
                course_id: given.course_id,
                seq: given.seq,
                title: given.title,
                subject: given.subject,
                weight: given.weight,
            };
            assert(held.push(fresh).drop_last() =~= held);
            assert(self.courses@[i as int].wf());
        }
        chapters.push(
            Chapter {
                id: self.next_chapter_id,
                course_id: given.course_id,
                seq: given.seq,
                title: given.title.clone(),
                subject: given.subject.clone(),
                weight: given.weight,
            },
        );
        if self.replace_chapters(i, chapters) {
            self.next_chapter_id = self.next_chapter_id + 1;
            Ok(())
        } else {
            Err(DbError(String::from_str("The chapters weigh too much to add up.")))
        }
    }

    /// Puts chapters on record one after the other, each in the course whose
    /// number it names and under the next free number, or none of them. Says
    /// how many went on record.
    pub fn insert_chapters(&mut self, given: &[Chapter]) -> (r: Result<usize, DbError>)
        requires
            old(self).wf(),
        ensures
            final(self).wf(),
            final(self).same_settings(old(self)),
            final(self).users == old(self).users,
            final(self).goals == old(self).goals,
            final(self).calendar == old(self).calendar,
            final(self).dates == old(self).dates,
            final(self).next_course_id == old(self).next_course_id,
            final(self).next_goal_id == old(self).next_goal_id,
            same_heads(final(self).courses@, old(self).courses@),
            match r {
                Ok(n) => {
                    &&& n == given@.len()
                    &&& final(self).next_chapter_id == old(self).next_chapter_id + n
                    &&& lists_with_chapters(old(self).courses@, given@, old(self).next_chapter_id)
                        == Ok::<Seq<Seq<Chapter>>, Seq<char>>(chapter_lists(final(self).courses@))
                },
                Err(e) => {
                    &&& lists_with_chapters(old(self).courses@, given@, old(self).next_chapter_id)
                        == Err::<Seq<Seq<Chapter>>, Seq<char>>(e.0@)
                    &&& final(self).next_chapter_id == old(self).next_chapter_id
                    &&& forall|i: int|
                        0 <= i < final(self).courses@.len() ==> same_course(
                            #[trigger] final(self).courses@[i],
                            old(self).courses@[i],
                        )
                },
            },
    {
        let saved = self.get_courses();
        let saved_id = self.next_chapter_id;
        let ghost before = self.courses@;
        let n = given.len();
        let mut i: usize = 0;
        assert(given@.take(0) =~= Seq::<Chapter>::empty());
        while i < n
            invariant
                i <= n == given@.len(),
                self.wf(),
                self.same_settings(old(self)),
                self.users == old(self).users,
                self.goals == old(self).goals,
                self.calendar == old(self).calendar,
                self.dates == old(self).dates,
                self.next_course_id == old(self).next_course_id,
                self.next_goal_id == old(self).next_goal_id,
                before == old(self).courses@,
                same_heads(self.courses@, before),
                self.next_chapter_id == saved_id + i,
                saved_id == old(self).next_chapter_id,
                saved@.len() == before.len(),
                forall|k: int| 0 <= k < saved@.len() ==> same_course(#[trigger] saved@[k], before[k]),
                lists_with_chapters(before, given@.take(i as int), saved_id) == Ok::<
                    Seq<Seq<Chapter>>,
                    Seq<char>,
                >(chapter_lists(self.courses@)),
                old(self).wf(),
            decreases n - i,
        {
            let ghost prior = self.courses@;
            proof {
                assert(given@.take(i + 1).drop_last() =~= given@.take(i as int));
                assert(given@.take(i + 1).last() == given@[i as int]);
                lemma_same_heads_index(prior, before, given@[i as int].course_id);
                crate::seqs::lemma_first_where(prior, course_numbered(given@[i as int].course_id));
            }
            match self.insert_chapter(&given[i]) {
                Ok(()) => {
                    proof {
                        let at = crate::seqs::first_where(
                            prior,
                            course_numbered(given@[i as int].course_id),
                        )->0;
                        assert(chapter_lists(self.courses@) =~= chapter_lists(prior).update(
                            at,
                            sorted_of(
                                prior[at].chapters@.push(
                                    numbered_chapter(given@[i as int], (saved_id + i) as i64),
                                ),
                            ),
                        )) by {
                            assert forall|k: int| 0 <= k < prior.len() && k != at implies chapter_lists(
                                self.courses@,
                            )[k] == chapter_lists(prior)[k] by {
                                assert(self.courses@[k] == prior[k]);
                            }
                        }
                    }
                },
                Err(e) => {
                    proof {
                        assert(lists_with_chapters(before, given@.take(i + 1), saved_id) == Err::<
                            Seq<Seq<Chapter>>,
                            Seq<char>,
                        >(e.0@));
                        lemma_lists_with_chapters_fails(before, given@, saved_id, i + 1);
                        assert forall|a: int, b: int| 0 <= a < b < saved@.len() implies (
                        #[trigger] saved@[a]).sym@ != (#[trigger] saved@[b]).sym@ by {
                            assert(same_course(saved@[a], old(self).courses@[a]));
                            assert(same_course(saved@[b], old(self).courses@[b]));
                        }
                        assert forall|k: int| 0 <= k < saved@.len() implies (#[trigger] saved@[k]).wf() by {
                            assert(same_course(saved@[k], old(self).courses@[k]));
                            assert(old(self).courses@[k].wf());
                        }
                    }
                    self.courses = saved;
                    self.next_chapter_id = saved_id;
                    return Err(e);
                },
            }
            i += 1;
        }
        assert(given@.take(n as int) =~= given@);
        Ok(n)
    }

    /// Writes a chapter's record anew: number in its course, title, subject
    /// and weight become those of `given`; the chapter is found by its
    /// number. Refused where there is no such chapter, where the weights
    /// cannot be added up, and where the chapter's place in the course
    /// changes while a goal is this chapter.
    pub fn update_chapter(&mut self, given: &Chapter) -> (r: Result<(), DbError>)
        requires
            old(self).wf(),
        ensures
            final(self).wf(),
            final(self).same_settings(old(self)),
            final(self).same_numbers(old(self)),
            final(self).users == old(self).users,
            final(self).goals == old(self).goals,
            final(self).calendar == old(self).calendar,
            final(self).dates == old(self).dates,
            match r {
                Ok(()) => {
                    &&& update_chapter_refusal(old(self).courses@, old(self).goals@, *given) is None
                    &&& crate::seqs::first_where(old(self).courses@, course_holding(given.id)) matches Some(
                        i,
                    )
                    &&& ({
                        let i = crate::seqs::first_where(old(self).courses@, course_holding(given.id))->0;
                        let c = old(self).courses@[i];
                        let k = crate::seqs::first_where(c.chapters@, chapter_numbered(given.id))->0;
                        chapters_replaced(
                            old(self).courses@,
                            final(self).courses@,
                            i,
                            c.chapters@.remove(k).push(
                                Chapter {
                                    id: given.id,
                                    course_id: c.id,
                                    seq: given.seq,
                                    title: given.title,
                                    subject: given.subject,
                                    weight: given.weight,
                                },
                            ),
                        )
                    })
                },
                Err(e) => final(self).courses == old(self).courses && update_chapter_refusal(
                    old(self).courses@,
                    old(self).goals@,
                    *given,
                ) == Some(e.0@),
            },
    {
        let ghost p = course_holding(given.id);
        let ghost before = self.courses@;
        let n = self.courses.len();
        let mut i: usize = 0;
        while i < n
            invariant
                i <= n == before.len(),
                *self == *old(self),
                self.wf(),
                before == self.courses@,
                p == course_holding(given.id),
                forall|x: int| 0 <= x < i ==> !p(#[trigger] before[x]),
            decreases n - i,
        {
            match find_chapter(&self.courses[i].chapters, given.id) {
                None => {},
                Some(k) => {
                    proof {
                        crate::seqs::lemma_first_where_is(before, p, i as int);
                    }
                    let seq = self.courses[i].chapters[k].seq;
                    if seq != given.seq && any_goal_in_chapter(
                        &self.goals,
                        self.courses[i].sym.as_str(),
                        seq,
                    ) {
                        return Err(DbError(String::from_str("Goals are still set from this chapter.")));
                    }
                    let mut chapters = copy_course(&self.courses[i]).chapters;
                    proof {
                        let held = self.courses@[i as int].chapters@;
                        let fresh = Chapter {
                            id: given.id,
                            course_id: self.courses@[i as int].id,
                            seq: given.seq,
                            title: given.title,
                            subject: given.subject,
                            weight: given.weight,
                        };
                        lemma_remove_chapter(held, k as int);
                        assert(held.remove(k as int).push(fresh).drop_last() =~= held.remove(k as int));
                        assert(self.courses@[i as int].wf());
                    }
                    chapters.remove(k);
                    chapters.push(
                        Chapter {
                            id: given.id,
                            course_id: self.courses[i].id,
                            seq: given.seq,
                            title: given.title.clone(),
                            subject: given.subject.clone(),
                            weight: given.weight,
                        },
                    );
                    return if self.replace_chapters(i, chapters) {
                        Ok(())
                    } else {
                        Err(DbError(String::from_str("The chapters weigh too much to add up.")))
                    };
                },
            }
            i += 1;
        }
        proof {
            crate::seqs::lemma_first_where_none(before, p);
        }
        Err(DbError(String::from_str("There is no chapter with this id.")))
    }
}

} // verus!
