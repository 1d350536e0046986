//! The course catalog: courses, their chapters in order, and their weights.
//!
//! Weights and levels are fixed-point numbers counted in millionths: a weight of
//! one is `UNIT`.

use vstd::prelude::*;
use crate::order::{is_ordered, lemma_sorted_of_ordered, sort, sorted_of, Ranked};

verus! {

/// One, in the millionths in which weights, levels and scores are counted.
pub const UNIT: u32 = 1_000_000;

/// The least total weight, in millionths, with which a course can be paced.
pub const MIN_COURSE_WEIGHT: u64 = 100;

#[derive(Debug)]
pub struct Chapter {
    pub id: i64,
    pub course_id: i64,
    pub seq: i16,
    pub title: String,
    pub subject: Option<String>,
    /// In millionths; the default is `UNIT`.
    pub weight: u32,
}

impl Clone for Chapter {
    fn clone(&self) -> (r: Self)
        ensures
            r == *self,
    {
        Chapter {
            id: self.id,
            course_id: self.course_id,
            seq: self.seq,
            title: self.title.clone(),
            subject: self.subject.clone(),
            weight: self.weight,
        }
    }
}

impl Ranked for Chapter {
    open spec fn before(&self, other: &Self) -> bool {
        self.seq < other.seq
    }

    fn is_before(&self, other: &Self) -> (r: bool) {
        self.seq < other.seq
    }

    proof fn lemma_before_transitive(a: &Self, b: &Self, c: &Self) {
    }

    proof fn lemma_before_irreflexive(a: &Self) {
    }
}

/// Courses are listed by level, the lowest first.
impl<'a> Ranked for &'a Course {
    open spec fn before(&self, other: &Self) -> bool {
        self.level < other.level
    }

    fn is_before(&self, other: &Self) -> (r: bool) {
        self.level < other.level
    }

    proof fn lemma_before_transitive(a: &Self, b: &Self, c: &Self) {
    }

    proof fn lemma_before_irreflexive(a: &Self) {
    }
}

/// The sum of the chapters' weights.
pub open spec fn total_weight(chapters: Seq<Chapter>) -> int
    decreases chapters.len(),
{
    if chapters.len() == 0 {
        0
    } else {
        total_weight(chapters.drop_last()) + chapters.last().weight
    }
}

/// The place of the first chapter numbered `seq`, if there is one.
pub open spec fn chapter_index(chapters: Seq<Chapter>, seq: i16) -> Option<int>
    decreases chapters.len(),
{
    if chapters.len() == 0 {
        None
    } else if chapters[0].seq == seq {
        Some(0)
    } else {
        match chapter_index(chapters.drop_first(), seq) {
            Some(i) => Some(i + 1),
            None => None,
        }
    }
}

/// `chapter_index` finds a chapter numbered `seq` with none before it, or
/// there is none at all.
pub proof fn lemma_chapter_index(chapters: Seq<Chapter>, seq: i16)
    ensures
        match chapter_index(chapters, seq) {
            Some(i) => 0 <= i < chapters.len() && chapters[i].seq == seq && forall|k: int|
                0 <= k < i ==> (#[trigger] chapters[k]).seq != seq,
            None => forall|k: int| 0 <= k < chapters.len() ==> (#[trigger] chapters[k]).seq != seq,
        },
    decreases chapters.len(),
{
    if chapters.len() > 0 && chapters[0].seq != seq {
        let t = chapters.drop_first();
        lemma_chapter_index(t, seq);
        match chapter_index(t, seq) {
            Some(i) => {
                assert forall|k: int| 0 <= k < i + 1 implies (#[trigger] chapters[k]).seq != seq by {
                    if k > 0 {
                        assert(chapters[k] == t[k - 1]);
                    }
                }
            },
            None => {
                assert forall|k: int| 0 <= k < chapters.len() implies (#[trigger] chapters[k]).seq
                    != seq by {
                    if k > 0 {
                        assert(chapters[k] == t[k - 1]);
                    }
                }
            },
        }
    }
}

/// The first `k` chapters weigh no more than all of them.
pub proof fn lemma_total_weight_grows(chapters: Seq<Chapter>, k: int)
    requires
        0 <= k <= chapters.len(),
    ensures
        0 <= total_weight(chapters.take(k)) <= total_weight(chapters),
    decreases chapters.len() - k,
{
    if k == chapters.len() {
        assert(chapters.take(k) =~= chapters);
        lemma_total_weight_covers(chapters, 0);
    } else {
        let t = chapters.drop_last();
        lemma_total_weight_grows(t, k);
        assert(t.take(k) =~= chapters.take(k));
    }
}

/// No chapter weighs more than all the chapters together.
pub proof fn lemma_total_weight_covers(chapters: Seq<Chapter>, i: int)
    ensures
        0 <= total_weight(chapters),
        0 <= i < chapters.len() ==> chapters[i].weight <= total_weight(chapters),
    decreases chapters.len(),
{
    if chapters.len() > 0 {
        let t = chapters.drop_last();
        lemma_total_weight_covers(t, i);
        if 0 <= i < t.len() {
            assert(t[i] == chapters[i]);
        }
    }
}

#[derive(Debug)]
pub struct Course {
    pub id: i64,
    /// The short symbol by which goals refer to the course.
    pub sym: String,
    pub book: Option<String>,
    pub title: String,
    /// In millionths.
    pub level: i64,
    /// The sum of the chapters' weights, once the chapters are in.
    pub weight: Option<u64>,
    pub chapters: Vec<Chapter>,
}

impl Course {
    /// The chapters stand in ascending order of `seq`, and `weight` holds their sum.
    pub open spec fn wf(&self) -> bool {
        &&& is_ordered(self.chapters@)
        &&& self.weight == Some(total_weight(self.chapters@) as u64)
        &&& total_weight(self.chapters@) <= u64::MAX
    }

    /// Whether the course is well formed.
    pub fn is_wf(&self) -> (r: bool)
        ensures
            r == self.wf(),
    {
        let n = self.chapters.len();
        let mut i: usize = 1;
        while i < n
            invariant
                1 <= i,
                n == self.chapters@.len(),
                forall|a: int, b: int|
                    0 <= a < b < i && b < n ==> !(#[trigger] self.chapters@[b].before(
                        &self.chapters@[a],
                    )),
            decreases n - i,
        {
            if self.chapters[i].seq < self.chapters[i - 1].seq {
                assert(self.chapters@[i as int].before(&self.chapters@[i - 1]));
                return false;
            }
            assert forall|a: int, b: int| 0 <= a < b < i + 1 && b < n implies !(
            #[trigger] self.chapters@[b].before(&self.chapters@[a])) by {
                if b == i && a < i - 1 {
                    assert(!self.chapters@[i - 1].before(&self.chapters@[a]));
                }
            }
            i += 1;
        }
        match (sum_weights(&self.chapters), self.weight) {
            (Some(total), Some(w)) => total == w,
            _ => false,
        }
    }

    /// A course without chapters, and so without a total weight yet.
    pub fn new(id: i64, sym: String, book: Option<String>, title: String, level: i64) -> (r: Course)
        ensures
            r.id == id,
            r.sym == sym,
            r.book == book,
            r.title == title,
            r.level == level,
            r.weight is None,
            r.chapters@.len() == 0,
    {
        Course { id, sym, book, title, level, weight: None, chapters: Vec::new() }
    }

    /// The course with `chapters` for its chapters, put in ascending order of
    /// `seq` (chapters of one `seq` stay in the order given), and with their
    /// total weight. The weight is left out where the sum does not fit.
    pub fn with_chapters(self, chapters: Vec<Chapter>) -> (r: Course)
        ensures
            r.id == self.id,
            r.sym == self.sym,
            r.book == self.book,
            r.title == self.title,
            r.level == self.level,
            r.chapters@ == sorted_of(chapters@),
            is_ordered(r.chapters@),
            r.weight == if total_weight(r.chapters@) <= u64::MAX {
                Some(total_weight(r.chapters@) as u64)
            } else {
                None::<u64>
            },
            total_weight(r.chapters@) <= u64::MAX ==> r.wf(),
    {
        let mut chapters = chapters;
        let ghost given = chapters@;
        sort(&mut chapters);
        proof {
            lemma_sorted_of_ordered(given);
        }
        let weight = sum_weights(&chapters);
        Course {
            id: self.id,
            sym: self.sym,
            book: self.book,
            title: self.title,
            level: self.level,
            weight,
            chapters,
        }
    }

    /// The first chapter numbered `seq`.
    pub fn chapter(&self, seq: i16) -> (r: Option<&Chapter>)
        ensures
            match chapter_index(self.chapters@, seq) {
                Some(i) => r == Some(&self.chapters@[i]),
                None => r is None,
            },
    {
        let n = self.chapters.len();
        let mut i: usize = 0;
        while i < n
            invariant
                i <= n == self.chapters@.len(),
                forall|k: int| 0 <= k < i ==> (#[trigger] self.chapters@[k]).seq != seq,
            decreases n - i,
        {
            if self.chapters[i].seq == seq {
                proof {
                    lemma_chapter_index(self.chapters@, seq);
                }
                return Some(&self.chapters[i]);
            }
            i += 1;
        }
        proof {
            lemma_chapter_index(self.chapters@, seq);
        }
        None
    }

    /// The chapters, in ascending order of `seq`.
    pub fn all_chapters(&self) -> (r: &Vec<Chapter>)
        ensures
            r@ == self.chapters@,
            self.wf() ==> is_ordered(r@),
    {
        &self.chapters
    }

    /// The total weight that was computed when the chapters came in.
    pub fn total_weight(&self) -> (r: Option<u64>)
        ensures
            r == self.weight,
            self.wf() ==> r == Some(total_weight(self.chapters@) as u64),
    {
        self.weight
    }
}

/// The sum of the chapters' weights, where it fits.
pub fn sum_weights(chapters: &Vec<Chapter>) -> (r: Option<u64>)
    ensures
        r == if total_weight(chapters@) <= u64::MAX {
            Some(total_weight(chapters@) as u64)
        } else {
            None::<u64>
        },
{
    let n = chapters.len();
    let mut sum: u64 = 0;
    let mut i: usize = 0;
    assert(chapters@.take(0) =~= Seq::<Chapter>::empty());
    while i < n
        invariant
            i <= n == chapters@.len(),
            sum == total_weight(chapters@.take(i as int)),
        decreases n - i,
    {
        proof {
            assert(chapters@.take(i + 1).drop_last() =~= chapters@.take(i as int));
            lemma_total_weight_grows(chapters@, i + 1);
        }
        match sum.checked_add(chapters[i].weight as u64) {
            Some(s) => {
                sum = s;
            },
            None => {
                return None;
            },
        }
        i += 1;
    }
    assert(chapters@.take(n as int) =~= chapters@);
    Some(sum)
}

} // verus!
