//! The domain store: users, courses with their chapters, goals, the
//! calendar of instructional days and the named dates.

use vstd::prelude::*;
use crate::config::{
    distinct_names, distinct_syms, distinct_unames, find_user, user_index, NamedDate,
};
use crate::course::Course;
use crate::date::Date;
use crate::pace::Goal;
use crate::random::{drawn_from, sample_chars};
use crate::text::chars_of;
use crate::user::User;

pub mod cal;
pub mod courses;
pub mod goals;
pub mod users;

verus! {

pub const DEFAULT_SALT_LENGTH: usize = 4;

/// The characters of which salts are made unless others are set.
pub open spec fn default_salt_alphabet() -> Seq<char> {
    "abcdefghijklmnopqrstuvwxyzABCDEFGHIJKLMNOPQRSTUVWXYZ0123456789"@
}

/// The characters of which salts are made unless others are set.
pub fn default_salt_chars() -> (r: &'static str)
    ensures
        r@ == default_salt_alphabet(),
        r@.len() == 62,
{
    let s = "abcdefghijklmnopqrstuvwxyzABCDEFGHIJKLMNOPQRSTUVWXYZ0123456789";
    proof {
        reveal_strlit("abcdefghijklmnopqrstuvwxyzABCDEFGHIJKLMNOPQRSTUVWXYZ0123456789");
    }
    s
}

/// What went wrong in the domain store, in words.
#[derive(Debug, PartialEq)]
pub struct DbError(pub String);

impl DbError {
    /// The error with `annotation` and a colon in front of its words.
    pub fn annotate(self, annotation: &str) -> (r: Self)
        ensures
            r.0@ == annotation@ + ": "@ + self.0@,
    {
        let mut s = String::from_str(annotation);
        s.append(": ");
        s.append(self.0.as_str());
        DbError(s)
    }

    pub fn display(&self) -> (r: &str)
        ensures
            r@ == self.0@,
    {
        self.0.as_str()
    }
}

/// A student's teacher is a user, and a teacher.
pub open spec fn students_have_teachers(users: Seq<User>) -> bool {
    forall|i: int|
        0 <= i < users.len() ==> ((#[trigger] users[i]) matches User::Student(s) ==> is_teacher(
            users,
            s.teacher@,
        ))
}

/// `uname` names a teacher among `users`.
pub open spec fn is_teacher(users: Seq<User>, uname: Seq<char>) -> bool {
    match user_index(users, uname) {
        Some(i) => users[i] is Teacher,
        None => false,
    }
}

/// `uname` names a student among `users`.
pub open spec fn is_student(users: Seq<User>, uname: Seq<char>) -> bool {
    match user_index(users, uname) {
        Some(i) => users[i] is Student,
        None => false,
    }
}

pub struct Store {
    pub connection_string: String,
    pub salt_chars: Vec<char>,
    pub salt_length: usize,
    pub users: Vec<User>,
    pub courses: Vec<Course>,
    pub goals: Vec<Goal>,
    pub calendar: Vec<Date>,
    pub dates: Vec<NamedDate>,
    /// The number that the next course, chapter and goal is to get.
    pub next_course_id: i64,
    pub next_chapter_id: i64,
    pub next_goal_id: i64,
}

impl Store {
    /// Salts can be made; no user name, course symbol or date name occurs
    /// twice; every user and course is well formed; and every student's
    /// teacher is on record.
    pub open spec fn wf(&self) -> bool {
        &&& self.salt_chars@.len() > 0
        &&& self.salt_length > 0
        &&& distinct_unames(self.users@)
        &&& forall|i: int| 0 <= i < self.users@.len() ==> (#[trigger] self.users@[i]).wf()
        &&& students_have_teachers(self.users@)
        &&& distinct_syms(self.courses@)
        &&& forall|i: int| 0 <= i < self.courses@.len() ==> (#[trigger] self.courses@[i]).wf()
        &&& distinct_names(self.dates@)
        &&& self.next_course_id >= 1
        &&& self.next_chapter_id >= 1
        &&& self.next_goal_id >= 1
    }

    /// The settings are those of `other`.
    pub open spec fn same_settings(&self, other: &Store) -> bool {
        &&& self.connection_string == other.connection_string
        &&& self.salt_chars == other.salt_chars
        &&& self.salt_length == other.salt_length
    }

    /// The numbers to give out next are those of `other`.
    pub open spec fn same_numbers(&self, other: &Store) -> bool {
        &&& self.next_course_id == other.next_course_id
        &&& self.next_chapter_id == other.next_chapter_id
        &&& self.next_goal_id == other.next_goal_id
    }

    /// Whether the store is in good order.
    pub fn is_wf(&self) -> (r: bool)
        ensures
            r == self.wf(),
    {
        if self.salt_chars.len() == 0 || self.salt_length == 0 || self.next_course_id < 1
            || self.next_chapter_id < 1 || self.next_goal_id < 1 {
            return false;
        }
        let n = self.users.len();
        let mut i: usize = 0;
        while i < n
            invariant
                i <= n == self.users@.len(),
                forall|a: int| 0 <= a < i ==> (#[trigger] self.users@[a]).wf(),
                forall|a: int, b: int|
                    0 <= a < b < i ==> (#[trigger] self.users@[a]).base().uname@ != (
                    #[trigger] self.users@[b]).base().uname@,
            decreases n - i,
        {
            if !self.users[i].is_wf() {
                return false;
            }
            let mut j: usize = 0;
            while j < i
                invariant
                    j <= i < n == self.users@.len(),
                    forall|a: int|
                        0 <= a < j ==> (#[trigger] self.users@[a]).base().uname@
                            != self.users@[i as int].base().uname@,
                decreases i - j,
            {
                if self.users[j].uname().eq(self.users[i].uname()) {
                    return false;
                }
                j += 1;
            }
            i += 1;
        }
        let mut s: usize = 0;
        while s < n
            invariant
                s <= n == self.users@.len(),
                forall|a: int|
                    0 <= a < s ==> ((#[trigger] self.users@[a]) matches User::Student(x)
                        ==> is_teacher(self.users@, x.teacher@)),
            decreases n - s,
        {
            if let User::Student(x) = &self.users[s] {
                match find_user(&self.users, x.teacher.as_str()) {
                    Some(User::Teacher(_)) => {},
                    _ => {
                        return false;
                    },
                }
            }
            s += 1;
        }
        let m = self.courses.len();
        let mut c: usize = 0;
        while c < m
            invariant
                c <= m == self.courses@.len(),
                forall|a: int| 0 <= a < c ==> (#[trigger] self.courses@[a]).wf(),
                forall|a: int, b: int|
                    0 <= a < b < c ==> (#[trigger] self.courses@[a]).sym@ != (
                    #[trigger] self.courses@[b]).sym@,
            decreases m - c,
        {
            if !self.courses[c].is_wf() {
                return false;
            }
            let mut j: usize = 0;
            while j < c
                invariant
                    j <= c < m == self.courses@.len(),
                    forall|a: int|
                        0 <= a < j ==> (#[trigger] self.courses@[a]).sym@
                            != self.courses@[c as int].sym@,
                decreases c - j,
            {
                if self.courses[j].sym.as_str().eq(self.courses[c].sym.as_str()) {
                    return false;
                }
                j += 1;
            }
            c += 1;
        }
        let q = self.dates.len();
        let mut d: usize = 0;
        while d < q
            invariant
                d <= q == self.dates@.len(),
                forall|a: int, b: int|
                    0 <= a < b < d ==> (#[trigger] self.dates@[a]).name@ != (
                    #[trigger] self.dates@[b]).name@,
            decreases q - d,
        {
            let mut j: usize = 0;
            while j < d
                invariant
                    j <= d < q == self.dates@.len(),
                    forall|a: int|
                        0 <= a < j ==> (#[trigger] self.dates@[a]).name@
                            != self.dates@[d as int].name@,
                decreases d - j,
            {
                if self.dates[j].name.as_str().eq(self.dates[d].name.as_str()) {
                    return false;
                }
                j += 1;
            }
            d += 1;
        }
        true
    }

    /// An empty store with the default settings.
    pub fn new(connection_string: String) -> (r: Self)
        ensures
            r.wf(),
            r.connection_string == connection_string,
            r.salt_chars@ == default_salt_alphabet(),
            r.salt_length == DEFAULT_SALT_LENGTH,
            r.users@.len() == 0,
            r.courses@.len() == 0,
            r.goals@.len() == 0,
            r.calendar@.len() == 0,
            r.dates@.len() == 0,
    {
        let salt_chars = chars_of(default_salt_chars());
        Store {
            connection_string,
            salt_chars,
            salt_length: DEFAULT_SALT_LENGTH,
            users: Vec::new(),
            courses: Vec::new(),
            goals: Vec::new(),
            calendar: Vec::new(),
            dates: Vec::new(),
            next_course_id: 1,
            next_chapter_id: 1,
            next_goal_id: 1,
        }
    }

    /// Sets the characters of which salts are made. Does nothing if
    /// `new_chars` is empty.
    pub fn set_salt_chars(&mut self, new_chars: &str)
        ensures
            final(self).salt_chars@ == if new_chars@.len() > 0 {
                new_chars@
            } else {
                old(self).salt_chars@
            },
            final(self).connection_string == old(self).connection_string,
            final(self).salt_length == old(self).salt_length,
            final(self).users == old(self).users,
            final(self).courses == old(self).courses,
            final(self).goals == old(self).goals,
            final(self).calendar == old(self).calendar,
            final(self).dates == old(self).dates,
            final(self).next_course_id == old(self).next_course_id,
            final(self).next_chapter_id == old(self).next_chapter_id,
            final(self).next_goal_id == old(self).next_goal_id,
            old(self).wf() ==> final(self).wf(),
    {
        let chars = chars_of(new_chars);
        if chars.len() > 0 {
            self.salt_chars = chars;
        }
    }

    /// Sets the length of the salts. Does nothing if `new_length` is zero.
    pub fn set_salt_length(&mut self, new_length: usize)
        ensures
            final(self).salt_length == if new_length > 0 {
                new_length
            } else {
                old(self).salt_length
            },
            final(self).connection_string == old(self).connection_string,
            final(self).salt_chars == old(self).salt_chars,
            final(self).users == old(self).users,
            final(self).courses == old(self).courses,
            final(self).goals == old(self).goals,
            final(self).calendar == old(self).calendar,
            final(self).dates == old(self).dates,
            final(self).next_course_id == old(self).next_course_id,
            final(self).next_chapter_id == old(self).next_chapter_id,
            final(self).next_goal_id == old(self).next_goal_id,
            old(self).wf() ==> final(self).wf(),
    {
        if new_length > 0 {
            self.salt_length = new_length;
        }
    }

    /// A new salt: `salt_length` characters, each one of `salt_chars`, chosen
    /// at random.
    pub fn generate_salt(&self) -> (r: String)
        requires
            self.salt_chars@.len() > 0,
        ensures
            r@.len() == self.salt_length,
            drawn_from(r@, self.salt_chars@),
    {
        sample_chars(&self.salt_chars, self.salt_length)
    }

    /// Empties the store; the settings stay.
    pub fn nuke_database(&mut self)
        ensures
            final(self).same_settings(old(self)),
            final(self).users@.len() == 0,
            final(self).courses@.len() == 0,
            final(self).goals@.len() == 0,
            final(self).calendar@.len() == 0,
            final(self).dates@.len() == 0,
            final(self).next_course_id == old(self).next_course_id,
            final(self).next_chapter_id == old(self).next_chapter_id,
            final(self).next_goal_id == old(self).next_goal_id,
            old(self).wf() ==> final(self).wf(),
    {
        self.users = Vec::new();
        self.courses = Vec::new();
        self.goals = Vec::new();
        self.calendar = Vec::new();
        self.dates = Vec::new();
    }
}

} // verus!
