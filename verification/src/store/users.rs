//! The users of the domain store.

use vstd::prelude::*;
use crate::config::{distinct_unames, find_user, lemma_user_index, user_index};
use crate::listing::{append_lines, lines, list_once};
use crate::text::texts_view;
use crate::random::drawn_from;
use crate::store::{is_student, is_teacher, students_have_teachers, DbError, Store};
use crate::user::{BaseUser, Role, Student, Teacher, User, DEFAULT_EXAM_FRACTION};

verus! {

/// The words in which a name that is taken is refused.
pub open spec fn name_taken(uname: Seq<char>, role: Role) -> Seq<char> {
    "User name "@ + uname + " already exists with role "@ + role.name() + "."@
}

/// The words in which a teacher who is not on record is missed.
pub open spec fn no_teacher(uname: Seq<char>) -> Seq<char> {
    "There is no teacher with uname "@ + uname + "."@
}

/// The words in which a user who is not on record is missed.
pub open spec fn no_user(uname: Seq<char>) -> Seq<char> {
    "There is no user with uname "@ + uname + "."@
}

/// The words in which a new user is refused, if he is.
pub open spec fn insert_user_refusal(users: Seq<User>, u: User) -> Option<Seq<char>> {
    match user_index(users, u.base().uname@) {
        Some(i) => Some(name_taken(u.base().uname@, users[i].spec_role())),
        None => match u {
            User::Student(s) => if is_teacher(users, s.teacher@) {
                None
            } else {
                Some(no_teacher(s.teacher@))
            },
            _ => None,
        },
    }
}

/// The words in which a new member of staff is refused, if he is.
pub open spec fn insert_staff_refusal(users: Seq<User>, uname: Seq<char>) -> Option<Seq<char>> {
    match user_index(users, uname) {
        Some(i) => Some(name_taken(uname, users[i].spec_role())),
        None => None,
    }
}

/// The place of `uname` among `users`.
pub fn find_user_index(users: &Vec<User>, uname: &str) -> (r: Option<usize>)
    ensures
        match r {
            Some(i) => user_index(users@, uname@) == Some(i as int) && i < users@.len()
                && users@[i as int].base().uname@ == uname@,
            None => user_index(users@, uname@) is None,
        },
{
    let ghost p = crate::config::user_named(uname@);
    let n = users.len();
    let mut i: usize = 0;
    while i < n
        invariant
            i <= n == users@.len(),
            p == crate::config::user_named(uname@),
            forall|k: int| 0 <= k < i ==> !p(#[trigger] users@[k]),
        decreases n - i,
    {
        if users[i].uname().eq(uname) {
            proof {
                crate::seqs::lemma_first_where_is(users@, p, i as int);
            }
            return Some(i);
        }
        i += 1;
    }
    proof {
        crate::seqs::lemma_first_where_none(users@, p);
    }
    None
}

/// Adding a user under a new name keeps the names distinct, and whoever was
/// on record stays where they were.
pub proof fn lemma_push_user(users: Seq<User>, u: User)
    requires
        distinct_unames(users),
        user_index(users, u.base().uname@) is None,
    ensures
        distinct_unames(users.push(u)),
        user_index(users.push(u), u.base().uname@) == Some(users.len() as int),
        forall|name: Seq<char>|
            user_index(users, name) is Some ==> #[trigger] user_index(users.push(u), name)
                == user_index(users, name),
{
    let after = users.push(u);
    lemma_user_index(users, u.base().uname@);
    lemma_user_index(after, u.base().uname@);
    assert forall|i: int, j: int| 0 <= i < j < after.len() implies (#[trigger] after[i]).base().uname@
        != (#[trigger] after[j]).base().uname@ by {
        if j < users.len() {
            assert(after[i] == users[i] && after[j] == users[j]);
        } else {
            assert(after[i] == users[i]);
        }
    }
    assert forall|k: int| 0 <= k < users.len() implies (#[trigger] after[k]).base().uname@
        != u.base().uname@ by {
        assert(after[k] == users[k]);
    }
    assert(after[users.len() as int] == u);
    assert forall|name: Seq<char>| user_index(users, name) is Some implies #[trigger] user_index(
        after,
        name,
    ) == user_index(users, name) by {
        lemma_user_index(users, name);
        lemma_user_index(after, name);
        let i = user_index(users, name)->0;
        assert(after[i] == users[i]);
        match user_index(after, name) {
            Some(j) => {
                if j < i {
                    assert(after[j] == users[j]);
                } else if j > i {
                    assert(after[i].base().uname@ == name);
                }
            },
            None => {
                assert(after[i].base().uname@ == name);
            },
        }
    }
}

/// Every student still has a teacher once a user is added under a new name.
pub proof fn lemma_push_keeps_teachers(users: Seq<User>, u: User)
    requires
        distinct_unames(users),
        students_have_teachers(users),
        user_index(users, u.base().uname@) is None,
        u matches User::Student(s) ==> is_teacher(users, s.teacher@),
    ensures
        students_have_teachers(users.push(u)),
{
    let after = users.push(u);
    lemma_push_user(users, u);
    assert forall|i: int| 0 <= i < after.len() implies ((#[trigger] after[i]) matches User::Student(
        s,
    ) ==> is_teacher(after, s.teacher@)) by {
        if let User::Student(s) = after[i] {
            if i < users.len() {
                assert(after[i] == users[i]);
            }
            assert(is_teacher(users, s.teacher@));
            let t = user_index(users, s.teacher@)->0;
            lemma_user_index(users, s.teacher@);
            assert(user_index(after, s.teacher@) == user_index(users, s.teacher@));
            assert(after[t] == users[t]);
        }
    }
}

impl Store {
    /// Puts a user on record as given, salt included. Refused where the name
    /// is taken, and for a student whose teacher is not on record as one.
    pub fn insert_user(&mut self, u: User) -> (r: Result<(), DbError>)
        requires
            old(self).wf(),
            u.wf(),
        ensures
            final(self).wf(),
            final(self).same_settings(old(self)),
            final(self).same_numbers(old(self)),
            final(self).courses == old(self).courses,
            final(self).goals == old(self).goals,
            final(self).calendar == old(self).calendar,
            final(self).dates == old(self).dates,
            match r {
                Ok(()) => {
                    &&& insert_user_refusal(old(self).users@, u) is None
                    &&& user_index(old(self).users@, u.base().uname@) is None
                    &&& u matches User::Student(s) ==> is_teacher(old(self).users@, s.teacher@)
                    &&& final(self).users@ == old(self).users@.push(u)
                },
                Err(e) => {
                    &&& insert_user_refusal(old(self).users@, u) == Some(e.0@)
                    &&& final(self).users == old(self).users
                },
            },
    {
        match find_user(&self.users, u.uname()) {
            Some(other) => {
                let mut msg = String::from_str("User name ");
                msg.append(u.uname());
                msg.append(" already exists with role ");
                msg.append(other.role().to_string().as_str());
                msg.append(".");
                return Err(DbError(msg));
            },
            None => {},
        }
        if let User::Student(s) = &u {
            match find_user(&self.users, s.teacher.as_str()) {
                Some(User::Teacher(_)) => {},
                _ => {
                    let mut msg = String::from_str("There is no teacher with uname ");
                    msg.append(s.teacher.as_str());
                    msg.append(".");
                    return Err(DbError(msg));
                },
            }
        }
        proof {
            lemma_push_user(self.users@, u);
            lemma_push_keeps_teachers(self.users@, u);
        }
        self.users.push(u);
        Ok(())
    }

    /// Puts an administrator on record, with a new salt, which is handed back.
    pub fn insert_admin(&mut self, uname: &str, email: &str) -> (r: Result<String, DbError>)
        requires
            old(self).wf(),
        ensures
            final(self).wf(),
            final(self).same_settings(old(self)),
            final(self).same_numbers(old(self)),
            final(self).courses == old(self).courses,
            final(self).goals == old(self).goals,
            final(self).calendar == old(self).calendar,
            final(self).dates == old(self).dates,
            match r {
                Ok(salt) => {
                    &&& user_index(old(self).users@, uname@) is None
                    &&& salt@.len() == old(self).salt_length
                    &&& drawn_from(salt@, old(self).salt_chars@)
                    &&& final(self).users@.len() == old(self).users@.len() + 1
                    &&& final(self).users@.drop_last() == old(self).users@
                    &&& final(self).users@.last() matches User::Admin(b)
                    &&& final(self).users@.last().base().uname@ == uname@
                    &&& final(self).users@.last().base().email@ == email@
                    &&& final(self).users@.last().base().salt@ == salt@
                    &&& final(self).users@.last().base().role == Role::Admin
                },
                Err(e) => insert_staff_refusal(old(self).users@, uname@) == Some(e.0@) && final(self).users
                    == old(self).users,
            },
    {
        let salt = self.generate_salt();
        let base = BaseUser {
            uname: String::from_str(uname),
            role: Role::Admin,
            salt: salt.clone(),
            email: String::from_str(email),
        };
        match self.insert_user(User::Admin(base)) {
            Ok(()) => {
                assert(self.users@.drop_last() =~= old(self).users@);
                Ok(salt)
            },
            Err(e) => Err(e),
        }
    }

    /// Puts a boss on record, with a new salt, which is handed back.
    pub fn insert_boss(&mut self, uname: &str, email: &str) -> (r: Result<String, DbError>)
        requires
            old(self).wf(),
        ensures
            final(self).wf(),
            final(self).same_settings(old(self)),
            final(self).same_numbers(old(self)),
            final(self).courses == old(self).courses,
            final(self).goals == old(self).goals,
            final(self).calendar == old(self).calendar,
            final(self).dates == old(self).dates,
            match r {
                Ok(salt) => {
                    &&& user_index(old(self).users@, uname@) is None
                    &&& salt@.len() == old(self).salt_length
                    &&& drawn_from(salt@, old(self).salt_chars@)
                    &&& final(self).users@.len() == old(self).users@.len() + 1
                    &&& final(self).users@.drop_last() == old(self).users@
                    &&& final(self).users@.last() matches User::Boss(b)
                    &&& final(self).users@.last().base().uname@ == uname@
                    &&& final(self).users@.last().base().email@ == email@
                    &&& final(self).users@.last().base().salt@ == salt@
                    &&& final(self).users@.last().base().role == Role::Boss
                },
                Err(e) => insert_staff_refusal(old(self).users@, uname@) == Some(e.0@) && final(self).users
                    == old(self).users,
            },
    {
        let salt = self.generate_salt();
        let base = BaseUser {
            uname: String::from_str(uname),
            role: Role::Boss,
            salt: salt.clone(),
            email: String::from_str(email),
        };
        match self.insert_user(User::Boss(base)) {
            Ok(()) => {
                assert(self.users@.drop_last() =~= old(self).users@);
                Ok(salt)
            },
            Err(e) => Err(e),
        }
    }

    /// Puts a teacher on record, with a new salt, which is handed back.
    pub fn insert_teacher(&mut self, uname: &str, email: &str, name: &str) -> (r: Result<
        String,
        DbError,
    >)
        requires
            old(self).wf(),
        ensures
            final(self).wf(),
            final(self).same_settings(old(self)),
            final(self).same_numbers(old(self)),
            final(self).courses == old(self).courses,
            final(self).goals == old(self).goals,
            final(self).calendar == old(self).calendar,
            final(self).dates == old(self).dates,
            match r {
                Ok(salt) => {
                    &&& user_index(old(self).users@, uname@) is None
                    &&& salt@.len() == old(self).salt_length
                    &&& drawn_from(salt@, old(self).salt_chars@)
                    &&& final(self).users@.len() == old(self).users@.len() + 1
                    &&& final(self).users@.drop_last() == old(self).users@
                    &&& final(self).users@.last() matches User::Teacher(t)
                    &&& final(self).users@.last()->Teacher_0.name@ == name@
                    &&& final(self).users@.last().base().uname@ == uname@
                    &&& final(self).users@.last().base().email@ == email@
                    &&& final(self).users@.last().base().salt@ == salt@
                    &&& final(self).users@.last().base().role == Role::Teacher
                },
                Err(e) => insert_staff_refusal(old(self).users@, uname@) == Some(e.0@) && final(self).users
                    == old(self).users,
            },
    {
        let salt = self.generate_salt();
        let base = BaseUser {
            uname: String::from_str(uname),
            role: Role::Teacher,
            salt: salt.clone(),
            email: String::from_str(email),
        };
        match self.insert_user(User::Teacher(Teacher { base, name: String::from_str(name) })) {
            Ok(()) => {
                assert(self.users@.drop_last() =~= old(self).users@);
                Ok(salt)
            },
            Err(e) => Err(e),
        }
    }

    /// The user named `uname`, as on record.
    pub fn get_user_by_uname(&self, uname: &str) -> (r: Option<User>)
        ensures
            match user_index(self.users@, uname@) {
                Some(i) => r == Some(self.users@[i]),
                None => r is None,
            },
    {
        match find_user(&self.users, uname) {
            Some(u) => Some(u.clone()),
            None => None,
        }
    }

    /// All the users, as on record.
    pub fn get_users(&self) -> (r: Vec<User>)
        ensures
            r@ == self.users@,
    {
        let n = self.users.len();
        let mut out: Vec<User> = Vec::new();
        let mut i: usize = 0;
        while i < n
            invariant
                i <= n == self.users@.len(),
                out@ == self.users@.take(i as int),
            decreases n - i,
        {
            out.push(self.users[i].clone());
            assert(out@ =~= self.users@.take(i + 1));
            i += 1;
        }
        assert(self.users@.take(n as int) =~= self.users@);
        out
    }
}

/// Some student among `users` has `tuname` for a teacher.
pub open spec fn has_students(users: Seq<User>, tuname: Seq<char>) -> bool {
    exists|i: int|
        0 <= i < users.len() && (#[trigger] users[i]) is Student && users[i]->Student_0.teacher@
            == tuname
}

/// Some goal among `goals` is a goal of `uname`.
pub open spec fn has_goals(goals: Seq<crate::pace::Goal>, uname: Seq<char>) -> bool {
    exists|i: int| 0 <= i < goals.len() && (#[trigger] goals[i]).uname@ == uname
}

/// Whether some student has `tuname` for a teacher.
pub fn any_student_of(users: &Vec<User>, tuname: &str) -> (r: bool)
    ensures
        r == has_students(users@, tuname@),
{
    let n = users.len();
    let mut i: usize = 0;
    while i < n
        invariant
            i <= n == users@.len(),
            forall|k: int|
                0 <= k < i ==> !((#[trigger] users@[k]) is Student && users@[k]->Student_0.teacher@
                    == tuname@),
        decreases n - i,
    {
        if let User::Student(s) = &users[i] {
            if s.teacher.as_str().eq(tuname) {
                return true;
            }
        }
        i += 1;
    }
    false
}

/// Whether some goal is a goal of `uname`.
pub fn any_goal_of(goals: &Vec<crate::pace::Goal>, uname: &str) -> (r: bool)
    ensures
        r == has_goals(goals@, uname@),
{
    let n = goals.len();
    let mut i: usize = 0;
    while i < n
        invariant
            i <= n == goals@.len(),
            forall|k: int| 0 <= k < i ==> (#[trigger] goals@[k]).uname@ != uname@,
        decreases n - i,
    {
        if goals[i].uname.as_str().eq(uname) {
            return true;
        }
        i += 1;
    }
    false
}

/// Taking a user off the record keeps the names distinct; the name is then
/// free, and everyone else is found as before.
pub proof fn lemma_remove_user(users: Seq<User>, i: int)
    requires
        distinct_unames(users),
        0 <= i < users.len(),
    ensures
        distinct_unames(users.remove(i)),
        user_index(users.remove(i), users[i].base().uname@) is None,
        forall|name: Seq<char>|
            name != users[i].base().uname@ ==> (match #[trigger] user_index(users, name) {
                Some(k) => user_index(users.remove(i), name) is Some && users.remove(i)[user_index(
                    users.remove(i),
                    name,
                )->0] == users[k],
                None => user_index(users.remove(i), name) is None,
            }),
{
    let after = users.remove(i);
    assert forall|a: int, b: int| 0 <= a < b < after.len() implies (#[trigger] after[a]).base().uname@
        != (#[trigger] after[b]).base().uname@ by {
        let x = if a < i {
            a
        } else {
            a + 1
        };
        let y = if b < i {
            b
        } else {
            b + 1
        };
        assert(after[a] == users[x] && after[b] == users[y]);
    }
    lemma_user_index(after, users[i].base().uname@);
    assert forall|k: int| 0 <= k < after.len() implies (#[trigger] after[k]).base().uname@
        != users[i].base().uname@ by {
        let x = if k < i {
            k
        } else {
            k + 1
        };
        assert(after[k] == users[x]);
    }
    assert forall|name: Seq<char>| name != users[i].base().uname@ implies (match #[trigger] user_index(
        users,
        name,
    ) {
        Some(k) => user_index(after, name) is Some && after[user_index(after, name)->0] == users[k],
        None => user_index(after, name) is None,
    }) by {
        lemma_user_index(users, name);
        lemma_user_index(after, name);
        match user_index(users, name) {
            Some(k) => {
                let m = if k < i {
                    k
                } else {
                    k - 1
                };
                assert(after[m] == users[k]);
                match user_index(after, name) {
                    Some(j) => {
                        let x = if j < i {
                            j
                        } else {
                            j + 1
                        };
                        assert(after[j] == users[x]);
                    },
                    None => {},
                }
            },
            None => {
                match user_index(after, name) {
                    Some(j) => {
                        let x = if j < i {
                            j
                        } else {
                            j + 1
                        };
                        assert(after[j] == users[x]);
                    },
                    None => {},
                }
            },
        }
    }
}

/// The user with `salt` for a salt.
pub open spec fn with_salt(u: User, salt: String) -> User {
    match u {
        User::Admin(b) => User::Admin(
            BaseUser { uname: b.uname, role: b.role, salt, email: b.email },
        ),
        User::Boss(b) => User::Boss(BaseUser { uname: b.uname, role: b.role, salt, email: b.email }),
        User::Teacher(t) => User::Teacher(
            Teacher {
                base: BaseUser { uname: t.base.uname, role: t.base.role, salt, email: t.base.email },
                name: t.name,
            },
        ),
        User::Student(s) => User::Student(
            Student {
                base: BaseUser { uname: s.base.uname, role: s.base.role, salt, email: s.base.email },
                last: s.last,
                rest: s.rest,
                teacher: s.teacher,
                parent: s.parent,
                fall_exam: s.fall_exam,
                spring_exam: s.spring_exam,
                fall_exam_fraction: s.fall_exam_fraction,
                spring_exam_fraction: s.spring_exam_fraction,
                fall_notices: s.fall_notices,
                spring_notices: s.spring_notices,
            },
        ),
    }
}

/// A copy of the user with `salt` for a salt.
pub fn user_with_salt(u: &User, salt: String) -> (r: User)
    ensures
        r == with_salt(*u, salt),
{
    match u {
        User::Admin(b) => User::Admin(
            BaseUser { uname: b.uname.clone(), role: b.role, salt, email: b.email.clone() },
        ),
        User::Boss(b) => User::Boss(
            BaseUser { uname: b.uname.clone(), role: b.role, salt, email: b.email.clone() },
        ),
        User::Teacher(t) => User::Teacher(
            Teacher {
                base: BaseUser {
                    uname: t.base.uname.clone(),
                    role: t.base.role,
                    salt,
                    email: t.base.email.clone(),
                },
                name: t.name.clone(),
            },
        ),
        User::Student(s) => User::Student(
            Student {
                base: BaseUser {
                    uname: s.base.uname.clone(),
                    role: s.base.role,
                    salt,
                    email: s.base.email.clone(),
                },
                last: s.last.clone(),
                rest: s.rest.clone(),
                teacher: s.teacher.clone(),
                parent: s.parent.clone(),
                fall_exam: s.fall_exam.clone(),
                spring_exam: s.spring_exam.clone(),
                fall_exam_fraction: s.fall_exam_fraction,
                spring_exam_fraction: s.spring_exam_fraction,
                fall_notices: s.fall_notices,
                spring_notices: s.spring_notices,
            },
        ),
    }
}

/// Whether a batch of new students can go on record: every name is free and
/// occurs once in the batch, and every teacher is on record as one.
pub open spec fn students_fit(users: Seq<User>, students: Seq<Student>) -> bool {
    &&& forall|i: int|
        0 <= i < students.len() ==> user_index(users, (#[trigger] students[i]).base.uname@) is None
            && is_teacher(users, students[i].teacher@)
    &&& forall|i: int, j: int|
        0 <= i < j < students.len() ==> (#[trigger] students[i]).base.uname@ != (
        #[trigger] students[j]).base.uname@
}

/// The user names of a batch of students.
pub open spec fn student_unames(students: Seq<Student>) -> Seq<Seq<char>> {
    Seq::new(students.len(), |i: int| students[i].base.uname@)
}

/// The teachers' names of a batch of students.
pub open spec fn student_teachers(students: Seq<Student>) -> Seq<Seq<char>> {
    Seq::new(students.len(), |i: int| students[i].teacher@)
}

/// Whether students of these names, with these teachers, can go on record:
/// every name is free and occurs once, and every teacher is on record as one.
pub open spec fn names_fit(users: Seq<User>, names: Seq<Seq<char>>, teachers: Seq<Seq<char>>) -> bool {
    &&& names.len() == teachers.len()
    &&& forall|i: int|
        0 <= i < names.len() ==> user_index(users, #[trigger] names[i]) is None && is_teacher(
            users,
            teachers[i],
        )
    &&& forall|i: int, j: int| 0 <= i < j < names.len() ==> #[trigger] names[i] != #[trigger] names[j]
}

/// A batch of students fits exactly if their names and teachers do.
pub proof fn lemma_students_fit_names(users: Seq<User>, students: Seq<Student>)
    ensures
        students_fit(users, students) == names_fit(
            users,
            student_unames(students),
            student_teachers(students),
        ),
{
    let names = student_unames(students);
    let teachers = student_teachers(students);
    if students_fit(users, students) {
        assert forall|i: int| 0 <= i < names.len() implies user_index(users, #[trigger] names[i]) is None
            && is_teacher(users, teachers[i]) by {
            assert(names[i] == students[i].base.uname@);
        }
        assert forall|i: int, j: int| 0 <= i < j < names.len() implies #[trigger] names[i]
            != #[trigger] names[j] by {
            assert(names[i] == students[i].base.uname@ && names[j] == students[j].base.uname@);
        }
    }
    if names_fit(users, names, teachers) {
        assert forall|i: int| 0 <= i < students.len() implies user_index(
            users,
            (#[trigger] students[i]).base.uname@,
        ) is None && is_teacher(users, students[i].teacher@) by {
            assert(names[i] == students[i].base.uname@);
            assert(teachers[i] == students[i].teacher@);
        }
        assert forall|i: int, j: int| 0 <= i < j < students.len() implies (
        #[trigger] students[i]).base.uname@ != (#[trigger] students[j]).base.uname@ by {
            assert(names[i] == students[i].base.uname@ && names[j] == students[j].base.uname@);
        }
    }
}

/// The names of a batch that are taken, each once, in the order of the
/// batch: those that are on record and those that an earlier student of the
/// batch has.
pub open spec fn taken_names(users: Seq<User>, names: Seq<Seq<char>>) -> Seq<Seq<char>>
    decreases names.len(),
{
    if names.len() == 0 {
        Seq::empty()
    } else {
        let head = taken_names(users, names.drop_last());
        let name = names.last();
        if (user_index(users, name) is Some || names.drop_last().contains(name)) && !head.contains(
            name,
        ) {
            head.push(name)
        } else {
            head
        }
    }
}

/// The teachers of a batch who are not on record as teachers, each once, in
/// the order of the batch.
pub open spec fn missing_teachers(users: Seq<User>, teachers: Seq<Seq<char>>) -> Seq<Seq<char>>
    decreases teachers.len(),
{
    if teachers.len() == 0 {
        Seq::empty()
    } else {
        let head = missing_teachers(users, teachers.drop_last());
        let name = teachers.last();
        if !is_teacher(users, name) && !head.contains(name) {
            head.push(name)
        } else {
            head
        }
    }
}

/// The words in which students of these names, with these teachers, are
/// refused, if they are: the names that are taken, or else the teachers who
/// are none.
pub open spec fn batch_refusal(users: Seq<User>, names: Seq<Seq<char>>, teachers: Seq<Seq<char>>) -> Option<
    Seq<char>,
> {
    if names_fit(users, names, teachers) {
        None
    } else if taken_names(users, names).len() > 0 {
        Some(
            "Database already contains users with the following unames:\n"@ + lines(
                taken_names(users, names),
            ),
        )
    } else {
        Some(
            "The following unames do not belong to teachers:\n"@ + lines(
                missing_teachers(users, teachers),
            ),
        )
    }
}

/// The words in which a batch of students is refused, if it is.
pub open spec fn insert_students_refusal(users: Seq<User>, students: Seq<Student>) -> Option<
    Seq<char>,
> {
    batch_refusal(users, student_unames(students), student_teachers(students))
}

/// The names of the batch that are taken, each once.
fn list_taken(users: &Vec<User>, students: &Vec<Student>) -> (r: Vec<String>)
    ensures
        texts_view(r@) == taken_names(users@, student_unames(students@)),
{
    let ghost all = student_unames(students@);
    let n = students.len();
    let mut names: Vec<String> = Vec::new();
    let mut i: usize = 0;
    assert(all.take(0) =~= Seq::<Seq<char>>::empty());
    assert(texts_view(names@) =~= Seq::<Seq<char>>::empty());
    while i < n
        invariant
            i <= n == students@.len() == all.len(),
            all == student_unames(students@),
            texts_view(names@) == taken_names(users@, all.take(i as int)),
        decreases n - i,
    {
        proof {
            assert(all.take(i + 1).drop_last() =~= all.take(i as int));
            assert(all.take(i + 1).last() == students@[i as int].base.uname@);
        }
        let on_record = find_user(users, students[i].base.uname.as_str()).is_some();
        let mut twice = false;
        let mut j: usize = 0;
        assert(all.take(0) =~= Seq::<Seq<char>>::empty());
        while j < i
            invariant
                j <= i < n == students@.len() == all.len(),
                all == student_unames(students@),
                twice == all.take(j as int).contains(students@[i as int].base.uname@),
            decreases i - j,
        {
            proof {
                let name = students@[i as int].base.uname@;
                let short = all.take(j as int);
                let long = all.take(j + 1);
                assert(long =~= short.push(all[j as int]));
                if short.contains(name) {
                    let k = choose|k: int| 0 <= k < short.len() && #[trigger] short[k] == name;
                    assert(long[k] == name);
                }
                if long.contains(name) && !short.contains(name) {
                    let k = choose|k: int| 0 <= k < long.len() && #[trigger] long[k] == name;
                    if k < j {
                        assert(short[k] == name);
                    }
                }
            }
            if students[j].base.uname.as_str().eq(students[i].base.uname.as_str()) {
                assert(all.take(j + 1)[j as int] == students@[i as int].base.uname@);
                twice = true;
            }
            j += 1;
        }
        if on_record || twice {
            list_once(&mut names, students[i].base.uname.as_str());
        }
        i += 1;
    }
    assert(all.take(n as int) =~= all);
    names
}

/// The teachers of the batch who are not on record as teachers, each once.
fn list_missing_teachers(users: &Vec<User>, students: &Vec<Student>) -> (r: Vec<String>)
    ensures
        texts_view(r@) == missing_teachers(users@, student_teachers(students@)),
{
    let ghost all = student_teachers(students@);
    let n = students.len();
    let mut names: Vec<String> = Vec::new();
    let mut i: usize = 0;
    assert(all.take(0) =~= Seq::<Seq<char>>::empty());
    assert(texts_view(names@) =~= Seq::<Seq<char>>::empty());
    while i < n
        invariant
            i <= n == students@.len() == all.len(),
            all == student_teachers(students@),
            texts_view(names@) == missing_teachers(users@, all.take(i as int)),
        decreases n - i,
    {
        proof {
            assert(all.take(i + 1).drop_last() =~= all.take(i as int));
            assert(all.take(i + 1).last() == students@[i as int].teacher@);
        }
        match find_user(users, students[i].teacher.as_str()) {
            Some(User::Teacher(_)) => {},
            _ => {
                list_once(&mut names, students[i].teacher.as_str());
            },
        }
        i += 1;
    }
    assert(all.take(n as int) =~= all);
    names
}

/// The words in which a user is not taken off the record, if he is not.
pub open spec fn delete_user_refusal(
    users: Seq<User>,
    goals: Seq<crate::pace::Goal>,
    uname: Seq<char>,
) -> Option<Seq<char>> {
    if user_index(users, uname) is None {
        Some(no_user(uname))
    } else if has_students(users, uname) {
        Some("Students are still assigned to "@ + uname + "."@)
    } else if has_goals(goals, uname) {
        Some("Goals are still assigned to "@ + uname + "."@)
    } else {
        None
    }
}

/// The words in which a user's record is not written anew, if it is not.
pub open spec fn update_user_refusal(users: Seq<User>, u: User) -> Option<Seq<char>> {
    match user_index(users, u.base().uname@) {
        None => Some(no_user(u.base().uname@)),
        Some(i) => if users[i].spec_role() != u.spec_role() {
            Some("The role of "@ + u.base().uname@ + " is "@ + users[i].spec_role().name() + "."@)
        } else {
            match u {
                User::Student(s) => if is_teacher(users, s.teacher@) {
                    None
                } else {
                    Some(no_teacher(s.teacher@))
                },
                _ => None,
            }
        },
    }
}

/// The first student of the batch who cannot go on record, if there is one.
fn first_misfit(users: &Vec<User>, students: &Vec<Student>) -> (r: Option<usize>)
    ensures
        r is None <==> students_fit(users@, students@),
        r matches Some(i) ==> i < students@.len(),
{
    let n = students.len();
    let mut i: usize = 0;
    while i < n
        invariant
            i <= n == students@.len(),
            forall|a: int|
                0 <= a < i ==> user_index(users@, (#[trigger] students@[a]).base.uname@) is None
                    && is_teacher(users@, students@[a].teacher@),
            forall|a: int, b: int|
                0 <= a < b < i ==> (#[trigger] students@[a]).base.uname@ != (
                #[trigger] students@[b]).base.uname@,
        decreases n - i,
    {
        if find_user(users, students[i].base.uname.as_str()).is_some() {
            return Some(i);
        }
        match find_user(users, students[i].teacher.as_str()) {
            Some(User::Teacher(_)) => {},
            _ => {
                return Some(i);
            },
        }
        let mut j: usize = 0;
        while j < i
            invariant
                j <= i < n == students@.len(),
                forall|a: int|
                    0 <= a < j ==> (#[trigger] students@[a]).base.uname@
                        != students@[i as int].base.uname@,
            decreases i - j,
        {
            if students[j].base.uname.as_str().eq(students[i].base.uname.as_str()) {
                return Some(i);
            }
            j += 1;
        }
        i += 1;
    }
    None
}

/// The student with `salt` for a salt.
pub open spec fn student_with_salt(s: Student, salt: String) -> Student {
    Student {
        base: BaseUser { uname: s.base.uname, role: s.base.role, salt, email: s.base.email },
        last: s.last,
        rest: s.rest,
        teacher: s.teacher,
        parent: s.parent,
        fall_exam: s.fall_exam,
        spring_exam: s.spring_exam,
        fall_exam_fraction: s.fall_exam_fraction,
        spring_exam_fraction: s.spring_exam_fraction,
        fall_notices: s.fall_notices,
        spring_notices: s.spring_notices,
    }
}

impl Store {
    /// Puts a batch of students on record, each with a new salt, or none of
    /// them: the batch is refused where a name is taken or occurs twice in the
    /// batch, and where a teacher is not on record as one. The salts are
    /// written into `students`.
    pub fn insert_students(&mut self, students: &mut Vec<Student>) -> (r: Result<usize, DbError>)
        requires
            old(self).wf(),
            forall|i: int| 0 <= i < old(students)@.len() ==> (#[trigger] old(students)@[i]).wf(),
        ensures
            final(self).wf(),
            final(self).same_settings(old(self)),
            final(self).same_numbers(old(self)),
            final(self).courses == old(self).courses,
            final(self).goals == old(self).goals,
            final(self).calendar == old(self).calendar,
            final(self).dates == old(self).dates,
            final(students)@.len() == old(students)@.len(),
            match r {
                Ok(n) => {
                    &&& insert_students_refusal(old(self).users@, old(students)@) is None
                    &&& students_fit(old(self).users@, old(students)@)
                    &&& n == old(students)@.len()
                    &&& final(self).users@.len() == old(self).users@.len() + n
                    &&& final(self).users@.take(old(self).users@.len() as int) == old(self).users@
                    &&& forall|i: int|
                        0 <= i < n ==> {
                            &&& (#[trigger] final(students)@[i]) == student_with_salt(
                                old(students)@[i],
                                final(students)@[i].base.salt,
                            )
                            &&& final(students)@[i].base.salt@.len() == old(self).salt_length
                            &&& drawn_from(final(students)@[i].base.salt@, old(self).salt_chars@)
                            &&& final(self).users@[old(self).users@.len() + i] == User::Student(
                                final(students)@[i],
                            )
                        }
                },
                Err(e) => {
                    &&& insert_students_refusal(old(self).users@, old(students)@) == Some(e.0@)
                    &&& final(self).users == old(self).users
                    &&& *final(students) == *old(students)
                },
            },
    {
        proof {
            lemma_students_fit_names(self.users@, students@);
        }
        match first_misfit(&self.users, students) {
            Some(_) => {
                let taken = list_taken(&self.users, students);
                if taken.len() > 0 {
                    let mut msg = String::from_str(
                        "Database already contains users with the following unames:\n",
                    );
                    append_lines(&mut msg, &taken);
                    return Err(DbError(msg));
                }
                let missing = list_missing_teachers(&self.users, students);
                let mut msg = String::from_str("The following unames do not belong to teachers:\n");
                append_lines(&mut msg, &missing);
                return Err(DbError(msg));
            },
            None => {},
        }
        let n = students.len();
        let ghost before = self.users@;
        let ghost given = students@;
        let mut out: Vec<Student> = Vec::new();
        let mut i: usize = 0;
        assert(self.users@.take(before.len() as int) =~= before);
        while i < n
            invariant
                i <= n == given.len(),
                students@ == given,
                out@.len() == i,
                forall|k: int| 0 <= k < given.len() ==> (#[trigger] given[k]).wf(),
                students_fit(before, given),
                distinct_unames(before),
                self.wf(),
                self.same_settings(old(self)),
                self.same_numbers(old(self)),
                self.courses == old(self).courses,
                self.goals == old(self).goals,
                self.calendar == old(self).calendar,
                self.dates == old(self).dates,
                self.users@.len() == before.len() + i,
                self.users@.take(before.len() as int) == before,
                forall|k: int|
                    0 <= k < i ==> {
                        &&& (#[trigger] out@[k]) == student_with_salt(given[k], out@[k].base.salt)
                        &&& out@[k].base.salt@.len() == self.salt_length
                        &&& drawn_from(out@[k].base.salt@, self.salt_chars@)
                        &&& self.users@[before.len() + k] == User::Student(out@[k])
                    },
                forall|k: int|
                    i <= k < n ==> user_index(self.users@, (#[trigger] given[k]).base.uname@) is None
                        && is_teacher(self.users@, given[k].teacher@),
            decreases n - i,
        {
            let salt = self.generate_salt();
            let s = &students[i];
            let fresh = Student {
                base: BaseUser {
                    uname: s.base.uname.clone(),
                    role: s.base.role,
                    salt,
                    email: s.base.email.clone(),
                },
                last: s.last.clone(),
                rest: s.rest.clone(),
                teacher: s.teacher.clone(),
                parent: s.parent.clone(),
                fall_exam: s.fall_exam.clone(),
                spring_exam: s.spring_exam.clone(),
                fall_exam_fraction: s.fall_exam_fraction,
                spring_exam_fraction: s.spring_exam_fraction,
                fall_notices: s.fall_notices,
                spring_notices: s.spring_notices,
            };
            let ghost prior = self.users@;
            let ghost u = User::Student(fresh);
            proof {
                assert(given[i as int].wf());
                lemma_push_user(prior, u);
                lemma_push_keeps_teachers(prior, u);
                assert forall|k: int| i + 1 <= k < n implies user_index(
                    prior.push(u),
                    (#[trigger] given[k]).base.uname@,
                ) is None && is_teacher(prior.push(u), given[k].teacher@) by {
                    let name = given[k].base.uname@;
                    lemma_user_index(prior, name);
                    lemma_user_index(prior.push(u), name);
                    assert(given[i as int].base.uname@ != name);
                    match user_index(prior.push(u), name) {
                        Some(j) => {
                            if j < prior.len() {
                                assert(prior.push(u)[j] == prior[j]);
                            }
                        },
                        None => {},
                    }
                    let t = given[k].teacher@;
                    assert(is_teacher(prior, t));
                    lemma_user_index(prior, t);
                    assert(user_index(prior.push(u), t) == user_index(prior, t));
                    assert(prior.push(u)[user_index(prior, t)->0] == prior[user_index(prior, t)->0]);
                }
            }
            self.users.push(User::Student(fresh.clone()));
            out.push(fresh);
            proof {
                assert(self.users@.take(before.len() as int) =~= prior.take(before.len() as int));
                assert forall|k: int| 0 <= k < i + 1 implies {
                    &&& (#[trigger] out@[k]) == student_with_salt(given[k], out@[k].base.salt)
                    &&& out@[k].base.salt@.len() == self.salt_length
                    &&& drawn_from(out@[k].base.salt@, self.salt_chars@)
                    &&& self.users@[before.len() + k] == User::Student(out@[k])
                } by {
                    if k < i {
                        assert(self.users@[before.len() + k] == prior[before.len() + k]);
                    }
                }
            }
            i += 1;
        }
        *students = out;
        Ok(n)
    }

    /// Takes a user off the record. Refused where there is no such user, for
    /// a teacher who still has students, and for a student who still has goals.
    pub fn delete_user(&mut self, uname: &str) -> (r: Result<(), DbError>)
        requires
            old(self).wf(),
        ensures
            final(self).wf(),
            final(self).same_settings(old(self)),
            final(self).same_numbers(old(self)),
            final(self).courses == old(self).courses,
            final(self).goals == old(self).goals,
            final(self).calendar == old(self).calendar,
            final(self).dates == old(self).dates,
            match r {
                Ok(()) => {
                    &&& delete_user_refusal(old(self).users@, old(self).goals@, uname@) is None
                    &&& user_index(old(self).users@, uname@) matches Some(i)
                    &&& !has_students(old(self).users@, uname@)
                    &&& !has_goals(old(self).goals@, uname@)
                    &&& final(self).users@ == old(self).users@.remove(
                        user_index(old(self).users@, uname@)->0,
                    )
                    &&& user_index(final(self).users@, uname@) is None
                },
                Err(e) => {
                    &&& delete_user_refusal(old(self).users@, old(self).goals@, uname@) == Some(e.0@)
                    &&& final(self).users == old(self).users
                },
            },
    {
        let i = match find_user_index(&self.users, uname) {
            Some(i) => i,
            None => {
                let mut msg = String::from_str("There is no user with uname ");
                msg.append(uname);
                msg.append(".");
                return Err(DbError(msg));
            },
        };
        if any_student_of(&self.users, uname) {
            let mut msg = String::from_str("Students are still assigned to ");
            msg.append(uname);
            msg.append(".");
            return Err(DbError(msg));
        }
        if any_goal_of(&self.goals, uname) {
            let mut msg = String::from_str("Goals are still assigned to ");
            msg.append(uname);
            msg.append(".");
            return Err(DbError(msg));
        }
        let ghost before = self.users@;
        proof {
            lemma_remove_user(before, i as int);
            let after = before.remove(i as int);
            assert forall|k: int| 0 <= k < after.len() implies (#[trigger] after[k]).wf() by {
                let x = if k < i {
                    k
                } else {
                    k + 1
                };
                assert(after[k] == before[x]);
            }
            assert forall|k: int| 0 <= k < after.len() implies ((
            #[trigger] after[k]) matches User::Student(s) ==> is_teacher(after, s.teacher@)) by {
                let x = if k < i {
                    k
                } else {
                    k + 1
                };
                assert(after[k] == before[x]);
                if let User::Student(s) = after[k] {
                    assert(is_teacher(before, s.teacher@));
                    assert(s.teacher@ != uname@);
                    assert(user_index(before, s.teacher@) is Some);
                }
            }
        }
        self.users.remove(i);
        Ok(())
    }

    /// Writes a user's record anew; the name, the role and the salt stay as
    /// they are on record. Refused where there is no such user, where the
    /// role is another, and for a student whose teacher is not on record as one.
    pub fn update_user(&mut self, u: &User) -> (r: Result<(), DbError>)
        requires
            old(self).wf(),
            u.wf(),
        ensures
            final(self).wf(),
            final(self).same_settings(old(self)),
            final(self).same_numbers(old(self)),
            final(self).courses == old(self).courses,
            final(self).goals == old(self).goals,
            final(self).calendar == old(self).calendar,
            final(self).dates == old(self).dates,
            match r {
                Ok(()) => {
                    &&& update_user_refusal(old(self).users@, *u) is None
                    &&& user_index(old(self).users@, u.base().uname@) matches Some(i)
                    &&& old(self).users@[user_index(old(self).users@, u.base().uname@)->0].spec_role()
                        == u.spec_role()
                    &&& u matches User::Student(s) ==> is_teacher(old(self).users@, s.teacher@)
                    &&& final(self).users@ == old(self).users@.update(
                        user_index(old(self).users@, u.base().uname@)->0,
                        with_salt(
                            *u,
                            old(self).users@[user_index(
                                old(self).users@,
                                u.base().uname@,
                            )->0].base().salt,
                        ),
                    )
                },
                Err(e) => update_user_refusal(old(self).users@, *u) == Some(e.0@) && final(self).users
                    == old(self).users,
            },
    {
        let i = match find_user_index(&self.users, u.uname()) {
            Some(i) => i,
            None => {
                let mut msg = String::from_str("There is no user with uname ");
                msg.append(u.uname());
                msg.append(".");
                return Err(DbError(msg));
            },
        };
        if !same_role(self.users[i].role(), u.role()) {
            let mut msg = String::from_str("The role of ");
            msg.append(u.uname());
            msg.append(" is ");
            msg.append(self.users[i].role().to_string().as_str());
            msg.append(".");
            return Err(DbError(msg));
        }
        if let User::Student(s) = u {
            match find_user(&self.users, s.teacher.as_str()) {
                Some(User::Teacher(_)) => {},
                _ => {
                    let mut msg = String::from_str("There is no teacher with uname ");
                    msg.append(s.teacher.as_str());
                    msg.append(".");
                    return Err(DbError(msg));
                },
            }
        }
        // A teacher stays a teacher: the role does not change.
        let salt = salt_of(&self.users[i]);
        let ghost before = self.users@;
        let fresh = user_with_salt(u, salt);
        proof {
            let after = before.update(i as int, fresh);
            assert(fresh.base().uname == u.base().uname);
            assert forall|a: int, b: int| 0 <= a < b < after.len() implies (
            #[trigger] after[a]).base().uname@ != (#[trigger] after[b]).base().uname@ by {
                assert(after[a].base().uname@ == before[a].base().uname@);
                assert(after[b].base().uname@ == before[b].base().uname@);
            }
            assert forall|name: Seq<char>| #[trigger]
                user_index(after, name) == user_index(before, name) by {
                lemma_user_index(before, name);
                lemma_user_index(after, name);
                match user_index(before, name) {
                    Some(k) => {
                        assert(after[k].base().uname@ == before[k].base().uname@);
                        match user_index(after, name) {
                            Some(j) => {
                                assert(after[j].base().uname@ == before[j].base().uname@);
                            },
                            None => {},
                        }
                    },
                    None => {
                        match user_index(after, name) {
                            Some(j) => {
                                assert(after[j].base().uname@ == before[j].base().uname@);
                            },
                            None => {},
                        }
                    },
                }
            }
            assert forall|k: int| 0 <= k < after.len() implies (#[trigger] after[k]).wf() by {
                if k != i {
                    assert(after[k] == before[k]);
                }
            }
            assert forall|k: int| 0 <= k < after.len() implies ((
            #[trigger] after[k]) matches User::Student(s) ==> is_teacher(after, s.teacher@)) by {
                if let User::Student(s) = after[k] {
                    if k != i {
                        assert(after[k] == before[k]);
                    }
                    assert(is_teacher(before, s.teacher@));
                    let t = user_index(before, s.teacher@)->0;
                    lemma_user_index(before, s.teacher@);
                    assert(user_index(after, s.teacher@) == user_index(before, s.teacher@));
                    if t != i {
                        assert(after[t] == before[t]);
                    }
                }
            }
        }
        self.users[i] = fresh;
        assert(self.users@ =~= before.update(i as int, fresh));
        Ok(())
    }
}

/// A copy of the user's salt.
pub fn salt_of(u: &User) -> (r: String)
    ensures
        r == u.base().salt,
{
    match u {
        User::Admin(b) => b.salt.clone(),
        User::Boss(b) => b.salt.clone(),
        User::Teacher(t) => t.base.salt.clone(),
        User::Student(s) => s.base.salt.clone(),
    }
}

/// Whether two roles are the same.
pub fn same_role(a: Role, b: Role) -> (r: bool)
    ensures
        r == (a == b),
{
    match (a, b) {
        (Role::Admin, Role::Admin) => true,
        (Role::Boss, Role::Boss) => true,
        (Role::Teacher, Role::Teacher) => true,
        (Role::Student, Role::Student) => true,
        _ => false,
    }
}

} // verus!
