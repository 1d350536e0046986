//! Changes that touch both stores, in the order that keeps them in step: the
//! domain store first, where a user gets the salt, then the authentication
//! store, which gets the hash made with that salt. Either both stores take a
//! change or neither does.

use vstd::prelude::*;
use vstd::string::StringSliceAdditionalSpecFns;
use crate::auth::{
    credential_index, find_credential, lemma_credential_index, salted_hash, Credential, Db,
    DbError as AuthError,
};
use crate::config::{
    course_index, courses_current, find_course, find_user, lemma_user_index, user_index,
    users_current, Cfg, Glob,
};
use crate::autopace::autopaced;
use crate::course::UNIT;
use crate::date::Date;
use crate::goals_csv::{
    first_seen, goals_are, grouped, grouping_refusal, pace_from, paces_from, upload_of,
};
use crate::order::{lemma_sorted_of_keeps, sorted_of};
use crate::pace::{
    affirm_all, can_pace, done_by, due_by, is_pace_of, weight_sum, weight_where, Goal, Pace,
    PaceError, Source,
};
use crate::score::{maybe_parse_score_str, maybe_score_of};
use crate::store::goals::with_due_dates;
use crate::store::courses::{
    any_goal_in_chapter, any_goal_in_course, chapter_in_use, chapter_numbered, course_holding, course_in_use, goal_of_chapter, goal_of_course, locate_chapter, no_such_chapter,
};
use crate::store::goals::{goal_of, goal_under, goals_fit, recorded_goal};
use crate::store::is_student;
use crate::random::drawn_from;
use crate::records::read_csv;
use crate::store::users::{
    any_student_of, has_goals, has_students, student_with_salt, students_fit, user_with_salt,
    with_salt,
};
use crate::store::{is_teacher, Store};
use crate::user::{student_views, students_of, Role, Student, StudentView, User};
use crate::listing::{append_lines, lines, list_once, on_new_lines};
use crate::text::{signed_decimal, signed_decimal_string, texts_view};
use crate::{ErrorKind, Refusal, UnifiedError};

verus! {

/// The password that a user gets who is put on record alone.
pub const FIRST_PASSWORD: &'static str = "new_password";

/// The password that students get who are put on record by the batch.
pub const BATCH_PASSWORD: &'static str = "this is a new password";

/// The held parts of the working set are those of `other`.
pub open spec fn same_cache(g: &Glob, other: &Glob) -> bool {
    &&& g.users == other.users
    &&& g.courses == other.courses
    &&& g.calendar == other.calendar
    &&& g.dates == other.dates
    &&& g.sendgrid_auth == other.sendgrid_auth
    &&& g.host == other.host
    &&& g.port == other.port
    &&& g.goals_per_student == other.goals_per_student
    &&& g.students_per_teacher == other.students_per_teacher
}

/// The two stores hold the users that `other`'s hold.
pub open spec fn same_users(g: &Glob, other: &Glob) -> bool {
    &&& g.auth.users@ == other.auth.users@
    &&& g.data.users@ == other.data.users@
}

/// Everything of the domain store but its users is as in `other`.
pub open spec fn same_domain_rest(g: &Glob, other: &Glob) -> bool {
    &&& g.data.same_settings(&other.data)
    &&& g.data.same_numbers(&other.data)
    &&& g.data.courses == other.data.courses
    &&& g.data.goals == other.data.goals
    &&& g.data.calendar == other.data.calendar
    &&& g.data.dates == other.data.dates
    &&& g.auth.same_settings(&other.auth)
    &&& g.auth.keys == other.auth.keys
}

/// The user as an update writes him: a student with the exams, their shares
/// and the notices that the working set holds for him.
pub open spec fn as_updated(g: Glob, u: User) -> User {
    match u {
        User::Student(s) => User::Student(
            student_as_updated(s, g.users@[user_index(g.users@, u.base().uname@)->0]->Student_0),
        ),
        _ => u,
    }
}

/// Why a user's record is not written anew, if it is not: the working set
/// does not hold the student, or holds someone else under the name, or the
/// domain store refuses.
pub open spec fn update_user_refusal(g: Glob, u: User) -> Option<Refusal> {
    let held = user_index(g.users@, u.base().uname@);
    if u is Student && held is None {
        Some((ErrorKind::String, u.base().uname@ + " is not a User in the database."@))
    } else if u is Student && !(g.users@[held->0] is Student) {
        Some(
            (
                ErrorKind::String,
                u.base().uname@ + " is not a Student ("@ + g.users@[held->0].spec_role().name()
                    + ")."@,
            ),
        )
    } else {
        match crate::store::users::update_user_refusal(g.data.users@, as_updated(g, u)) {
            Some(m) => Some((ErrorKind::Data, m)),
            None => None,
        }
    }
}

/// The names of the students, among `users`, of the teacher named `tuname`,
/// in the order of `users`.
pub open spec fn students_of_teacher(users: Seq<User>, tuname: Seq<char>) -> Seq<Seq<char>>
    decreases users.len(),
{
    if users.len() == 0 {
        Seq::empty()
    } else {
        let head = students_of_teacher(users.drop_last(), tuname);
        match users.last() {
            User::Student(s) => if s.teacher@ == tuname {
                head.push(s.base.uname@)
            } else {
                head
            },
            _ => head,
        }
    }
}

/// Why a user is not taken off the record, if he is not: the working set
/// does not hold him, or he is a teacher with students, who are listed, or
/// the domain store refuses.
pub open spec fn delete_user_refusal(g: Glob, uname: Seq<char>) -> Option<Refusal> {
    if user_index(g.users@, uname) is None {
        Some((ErrorKind::String, "No User "@ + uname + "."@))
    } else if has_students(g.users@, uname) {
        Some(
            (
                ErrorKind::String,
                "The following Students are still assigned to Teacher "@ + uname + "\n"@ + lines(
                    students_of_teacher(g.users@, uname),
                ),
            ),
        )
    } else {
        match crate::store::users::delete_user_refusal(g.data.users@, g.data.goals@, uname) {
            Some(m) => Some((ErrorKind::Data, m)),
            None => None,
        }
    }
}

/// A teacher goes once the students have gone: where the working set holds
/// the users as the store holds them, none of them is a student of the
/// teacher, and no goal stands under the teacher's own name, taking the
/// teacher off the record is not refused.
pub proof fn lemma_teacher_without_students_goes(g: Glob, tuname: Seq<char>)
    requires
        users_current(&g),
        is_teacher(g.users@, tuname),
        !has_students(g.users@, tuname),
        !has_goals(g.data.goals@, tuname),
    ensures
        delete_user_refusal(g, tuname) is None,
{
}

/// A teacher stays while a student is left: where one of the users that the
/// working set holds is a student of the teacher, taking the teacher off the
/// record is refused, in words that list the students.
pub proof fn lemma_teacher_with_students_stays(g: Glob, tuname: Seq<char>)
    requires
        user_index(g.users@, tuname) is Some,
        has_students(g.users@, tuname),
    ensures
        delete_user_refusal(g, tuname) == Some(
            (
                ErrorKind::String,
                "The following Students are still assigned to Teacher "@ + tuname + "\n"@ + lines(
                    students_of_teacher(g.users@, tuname),
                ),
            ),
        ),
{
}

/// The names of the students of the teacher named `tuname`.
fn list_students_of(users: &Vec<User>, tuname: &str) -> (r: Vec<String>)
    ensures
        texts_view(r@) == students_of_teacher(users@, tuname@),
{
    let n = users.len();
    let mut names: Vec<String> = Vec::new();
    let mut i: usize = 0;
    assert(users@.take(0) =~= Seq::<User>::empty());
    assert(texts_view(names@) =~= Seq::<Seq<char>>::empty());
    while i < n
        invariant
            i <= n == users@.len(),
            texts_view(names@) == students_of_teacher(users@.take(i as int), tuname@),
        decreases n - i,
    {
        proof {
            assert(users@.take(i + 1).drop_last() =~= users@.take(i as int));
            assert(users@.take(i + 1).last() == users@[i as int]);
        }
        if let User::Student(s) = &users[i] {
            if s.teacher.as_str().eq(tuname) {
                let ghost before = names@;
                names.push(s.base.uname.clone());
                assert(texts_view(names@) =~= texts_view(before).push(s.base.uname@));
            }
        }
        i += 1;
    }
    assert(users@.take(n as int) =~= users@);
    names
}

/// A student as an update leaves him: as the request has him, but for the
/// exams, their shares and the notices, which stay as they are held.
pub open spec fn student_as_updated(asked: Student, held: Student) -> Student {
    Student {
        base: asked.base,
        last: asked.last,
        rest: asked.rest,
        teacher: asked.teacher,
        parent: asked.parent,
        fall_exam: held.fall_exam,
        spring_exam: held.spring_exam,
        fall_exam_fraction: held.fall_exam_fraction,
        spring_exam_fraction: held.spring_exam_fraction,
        fall_notices: held.fall_notices,
        spring_notices: held.spring_notices,
    }
}

/// The words in which a name that has an entry already is refused.
pub open spec fn entry_exists(uname: Seq<char>) -> Seq<char> {
    "Database already contains unames:\n"@ + uname + "\n"@
}

/// Why a user does not go on record, if he does not: he has an entry in the
/// authentication store already, or the domain store refuses him.
pub open spec fn insert_user_refusal(g: Glob, u: User) -> Option<Refusal> {
    if credential_index(g.auth.users@, u.base().uname@) is Some {
        Some((ErrorKind::Auth, entry_exists(u.base().uname@)))
    } else {
        match crate::store::users::insert_user_refusal(g.data.users@, u) {
            Some(m) => Some((ErrorKind::Data, m)),
            None => None,
        }
    }
}

impl Glob {
    /// Puts a user on record in both stores: in the domain store with a new
    /// salt, in the authentication store with the hash of the first password
    /// and that salt.
    pub fn insert_user(&mut self, u: &User) -> (r: Result<(), UnifiedError>)
        requires
            old(self).wf(),
            u.wf(),
        ensures
            final(self).wf(),
            same_cache(final(self), old(self)),
            same_domain_rest(final(self), old(self)),
            match r {
                Ok(()) => {
                    let salt = final(self).data.users@.last().base().salt;
                    &&& insert_user_refusal(*old(self), *u) is None
                    &&& credential_index(old(self).auth.users@, u.base().uname@) is None
                    &&& user_index(old(self).data.users@, u.base().uname@) is None
                    &&& final(self).data.users@ == old(self).data.users@.push(with_salt(*u, salt))
                    &&& salt@.len() == old(self).data.salt_length
                    &&& drawn_from(salt@, old(self).data.salt_chars@)
                    &&& final(self).auth.users@.len() == old(self).auth.users@.len() + 1
                    &&& final(self).auth.users@.take(old(self).auth.users@.len() as int) == old(self).auth.users@
                    &&& final(self).auth.users@.last().uname@ == u.base().uname@
                    &&& final(self).auth.users@.last().hash@ == salted_hash(
                        FIRST_PASSWORD.spec_bytes(),
                        vstd::utf8::encode_utf8(salt@),
                    )
                },
                Err(e) => same_users(final(self), old(self)) && insert_user_refusal(*old(self), *u)
                    == Some(e.refusal()),
            },
    {
        if find_credential(&self.auth.users, u.uname()).is_some() {
            let mut msg = String::from_str("Database already contains unames:\n");
            msg.append(u.uname());
            msg.append("\n");
            return Err(UnifiedError::Auth(AuthError(msg)));
        }
        let salt = self.data.generate_salt();
        let record = user_with_salt(u, salt.clone());
        match self.data.insert_user(record) {
            Ok(()) => {},
            Err(e) => {
                return Err(UnifiedError::Data(e));
            },
        }
        assert(self.data.users@.last() == with_salt(*u, salt));
        match self.auth.add_user(u.uname(), FIRST_PASSWORD, salt.as_str()) {
            Ok(()) => Ok(()),
            Err(e) => Err(UnifiedError::Auth(e)),
        }
    }

    /// Writes a user's record anew in the domain store. A student's exams,
    /// their shares and the notices are not the caller's to change: they stay
    /// as the working set holds them.
    pub fn update_user(&mut self, u: &User) -> (r: Result<(), UnifiedError>)
        requires
            old(self).wf(),
            u.wf(),
        ensures
            final(self).wf(),
            same_cache(final(self), old(self)),
            same_domain_rest(final(self), old(self)),
            final(self).auth.users == old(self).auth.users,
            match r {
                Ok(()) => {
                    &&& update_user_refusal(*old(self), *u) is None
                    &&& user_index(old(self).data.users@, u.base().uname@) matches Some(i)
                    &&& ({
                        let i = user_index(old(self).data.users@, u.base().uname@)->0;
                        let salt = old(self).data.users@[i].base().salt;
                        let asked = match u {
                            User::Student(s) => User::Student(
                                student_as_updated(
                                    *s,
                                    old(self).users@[user_index(
                                        old(self).users@,
                                        u.base().uname@,
                                    )->0]->Student_0,
                                ),
                            ),
                            _ => *u,
                        };
                        &&& u is Student ==> user_index(old(self).users@, u.base().uname@) is Some
                            && old(self).users@[user_index(old(self).users@, u.base().uname@)->0] is Student
                        &&& final(self).data.users@ == old(self).data.users@.update(
                            i,
                            with_salt(asked, salt),
                        )
                    })
                },
                Err(e) => final(self).data.users == old(self).data.users && update_user_refusal(
                    *old(self),
                    *u,
                ) == Some(e.refusal()),
            },
    {
        match u {
            User::Student(s) => {
                let held = match find_user(&self.users, s.base.uname.as_str()) {
                    Some(User::Student(h)) => h,
                    Some(other) => {
                        let mut msg = String::from_str(s.base.uname.as_str());
                        msg.append(" is not a Student (");
                        msg.append(other.role().to_string().as_str());
                        msg.append(").");
                        return Err(UnifiedError::String(msg));
                    },
                    None => {
                        let mut msg = String::from_str(s.base.uname.as_str());
                        msg.append(" is not a User in the database.");
                        return Err(UnifiedError::String(msg));
                    },
                };
                let asked = Student {
                    base: s.base.clone(),
                    last: s.last.clone(),
                    rest: s.rest.clone(),
                    teacher: s.teacher.clone(),
                    parent: s.parent.clone(),
                    fall_exam: held.fall_exam.clone(),
                    spring_exam: held.spring_exam.clone(),
                    fall_exam_fraction: held.fall_exam_fraction,
                    spring_exam_fraction: held.spring_exam_fraction,
                    fall_notices: held.fall_notices,
                    spring_notices: held.spring_notices,
                };
                proof {
                    let i = user_index(self.users@, s.base.uname@)->0;
                    assert(self.users@[i].wf());
                }
                match self.data.update_user(&User::Student(asked)) {
                    Ok(()) => Ok(()),
                    Err(e) => Err(UnifiedError::Data(e)),
                }
            },
            _ => match self.data.update_user(u) {
                Ok(()) => Ok(()),
                Err(e) => Err(UnifiedError::Data(e)),
            },
        }
    }

    /// Takes a user off the record in both stores: out of the domain store
    /// first, then out of the authentication store, keys and all. Refused
    /// for a user whom the working set does not hold, and for a teacher who
    /// still has students.
    pub fn delete_user(&mut self, uname: &str) -> (r: Result<(), UnifiedError>)
        requires
            old(self).wf(),
        ensures
            final(self).wf(),
            same_cache(final(self), old(self)),
            final(self).data.same_settings(&old(self).data),
            final(self).data.same_numbers(&old(self).data),
            final(self).data.courses == old(self).data.courses,
            final(self).data.goals == old(self).data.goals,
            final(self).data.calendar == old(self).data.calendar,
            final(self).data.dates == old(self).data.dates,
            final(self).auth.same_settings(&old(self).auth),
            match r {
                Ok(()) => {
                    &&& delete_user_refusal(*old(self), uname@) is None
                    &&& user_index(old(self).users@, uname@) is Some
                    &&& !has_students(old(self).users@, uname@)
                    &&& user_index(old(self).data.users@, uname@) matches Some(i)
                    &&& !has_students(old(self).data.users@, uname@)
                    &&& !has_goals(old(self).data.goals@, uname@)
                    &&& final(self).data.users@ == old(self).data.users@.remove(
                        user_index(old(self).data.users@, uname@)->0,
                    )
                    &&& user_index(final(self).data.users@, uname@) is None
                    &&& final(self).auth.users@ == crate::auth::entries_without(
                        old(self).auth.users@,
                        seq![uname],
                    )
                    &&& final(self).auth.keys@ == crate::auth::keys_without(
                        old(self).auth.keys@,
                        seq![uname],
                    )
                    &&& credential_index(final(self).auth.users@, uname@) is None
                },
                Err(e) => {
                    &&& delete_user_refusal(*old(self), uname@) == Some(e.refusal())
                    &&& final(self).data.users == old(self).data.users
                    &&& final(self).auth.users == old(self).auth.users
                    &&& final(self).auth.keys == old(self).auth.keys
                },
            },
    {
        match find_user(&self.users, uname) {
            None => {
                let mut msg = String::from_str("No User ");
                msg.append(uname);
                msg.append(".");
                return Err(UnifiedError::String(msg));
            },
            Some(_) => {},
        }
        if any_student_of(&self.users, uname) {
            let mut msg = String::from_str("The following Students are still assigned to Teacher ");
            msg.append(uname);
            msg.append("\n");
            let kids = list_students_of(&self.users, uname);
            append_lines(&mut msg, &kids);
            return Err(UnifiedError::String(msg));
        }
        match self.data.delete_user(uname) {
            Ok(()) => {},
            Err(e) => {
                return Err(UnifiedError::Data(e));
            },
        }
        let names = [uname];
        assert(names@ =~= seq![uname]);
        match self.auth.delete_users(names.as_slice()) {
            Ok(_) => {
                proof {
                    let kept = self.auth.users@;
                    lemma_credential_index(kept, uname@);
                    match credential_index(kept, uname@) {
                        Some(k) => {
                            assert(kept.contains(kept[k]));
                            old(self).auth.users@.lemma_filter_pred(
                                crate::auth::entry_of_other(seq![uname]),
                                k,
                            );
                            assert(seq![uname][0]@ == uname@);
                            assert(crate::auth::named_in(seq![uname], kept[k].uname@));
                        },
                        None => {},
                    }
                }
                Ok(())
            },
            Err(e) => Err(UnifiedError::Auth(e)),
        }
    }

    /// Gives a user whom the working set holds another password, hashed with
    /// the salt that the working set holds for the user.
    pub fn update_password(&mut self, uname: &str, new_password: &str) -> (r: Result<
        (),
        UnifiedError,
    >)
        requires
            old(self).wf(),
        ensures
            final(self).wf(),
            same_cache(final(self), old(self)),
            final(self).data == old(self).data,
            final(self).auth.same_settings(&old(self).auth),
            final(self).auth.keys == old(self).auth.keys,
            match r {
                Ok(()) => {
                    &&& user_index(old(self).users@, uname@) matches Some(i)
                    &&& credential_index(old(self).auth.users@, uname@) matches Some(at)
                    &&& final(self).auth.users@.len() == old(self).auth.users@.len()
                    &&& forall|k: int|
                        0 <= k < old(self).auth.users@.len() && k != credential_index(
                            old(self).auth.users@,
                            uname@,
                        )->0 ==> (#[trigger] final(self).auth.users@[k]) == old(self).auth.users@[k]
                    &&& final(self).auth.users@[credential_index(
                        old(self).auth.users@,
                        uname@,
                    )->0].uname == old(self).auth.users@[credential_index(
                        old(self).auth.users@,
                        uname@,
                    )->0].uname
                    &&& final(self).auth.users@[credential_index(
                        old(self).auth.users@,
                        uname@,
                    )->0].hash@ == salted_hash(
                        new_password.spec_bytes(),
                        vstd::utf8::encode_utf8(
                            old(self).users@[user_index(old(self).users@, uname@)->0].base().salt@,
                        ),
                    )
                    &&& crate::auth::password_verdict(
                        final(self).auth.users@,
                        uname@,
                        new_password.spec_bytes(),
                        vstd::utf8::encode_utf8(
                            old(self).users@[user_index(old(self).users@, uname@)->0].base().salt@,
                        ),
                    ) == crate::auth::AuthResult::Okay
                },
                Err(e) => {
                    &&& e.refusal() == if user_index(old(self).users@, uname@) is None {
                        (ErrorKind::String, crate::auth::no_such_user(uname@))
                    } else {
                        (ErrorKind::Auth, crate::auth::no_such_user(uname@))
                    }
                    &&& user_index(old(self).users@, uname@) is None || credential_index(
                        old(self).auth.users@,
                        uname@,
                    ) is None
                    &&& final(self).auth.users == old(self).auth.users
                },
            },
    {
        let salt = match find_user(&self.users, uname) {
            Some(u) => String::from_str(u.salt()),
            None => {
                let mut msg = String::from_str("There is no user with uname ");
                msg.append(uname);
                msg.append(".");
                return Err(UnifiedError::String(msg));
            },
        };
        match self.auth.set_password(uname, new_password, salt.as_str()) {
            Ok(()) => Ok(()),
            Err(e) => Err(UnifiedError::Auth(e)),
        }
    }
}

/// A student's view with `salt` for a salt.
pub open spec fn salted_student(v: StudentView, salt: Seq<char>) -> StudentView {
    StudentView {
        base: crate::user::BaseUserView {
            uname: v.base.uname,
            role: v.base.role,
            salt,
            email: v.base.email,
        },
        last: v.last,
        rest: v.rest,
        teacher: v.teacher,
        parent: v.parent,
        fall_exam: v.fall_exam,
        spring_exam: v.spring_exam,
        fall_exam_fraction: v.fall_exam_fraction,
        spring_exam_fraction: v.spring_exam_fraction,
        fall_notices: v.fall_notices,
        spring_notices: v.spring_notices,
    }
}

/// The users after a batch of students went on record: the users before,
/// then each student as read, with a salt of the store's making.
pub open spec fn students_recorded(
    before: Seq<User>,
    after: Seq<User>,
    read: Seq<StudentView>,
    salt_length: usize,
    salt_chars: Seq<char>,
) -> bool {
    &&& after.len() == before.len() + read.len()
    &&& after.take(before.len() as int) == before
    &&& forall|i: int|
        0 <= i < read.len() ==> {
            &&& (#[trigger] after[before.len() + i]) matches User::Student(s)
            &&& after[before.len() + i]->Student_0@ == salted_student(
                read[i],
                after[before.len() + i].base().salt@,
            )
            &&& after[before.len() + i].base().salt@.len() == salt_length
            &&& drawn_from(after[before.len() + i].base().salt@, salt_chars)
        }
}

/// The entries after a batch of students went on record: the entries before,
/// then one for each student, with the hash of the batch password and the
/// salt that the domain store gave the student.
pub open spec fn credentials_recorded(
    before: Seq<Credential>,
    after: Seq<Credential>,
    users_before: Seq<User>,
    users_after: Seq<User>,
    n: int,
) -> bool {
    &&& after.len() == before.len() + n
    &&& after.take(before.len() as int) == before
    &&& forall|i: int|
        0 <= i < n ==> {
            &&& (#[trigger] after[before.len() + i]).uname@ == users_after[users_before.len()
                + i].base().uname@
            &&& after[before.len() + i].hash@ == salted_hash(
                BATCH_PASSWORD.spec_bytes(),
                vstd::utf8::encode_utf8(users_after[users_before.len() + i].base().salt@),
            )
        }
}

/// The user names of students as read.
pub open spec fn read_unames(read: Seq<StudentView>) -> Seq<Seq<char>> {
    Seq::new(read.len(), |i: int| read[i].base.uname)
}

/// The teachers' names of students as read.
pub open spec fn read_teachers(read: Seq<StudentView>) -> Seq<Seq<char>> {
    Seq::new(read.len(), |i: int| read[i].teacher)
}

/// Every student has a teacher whom the working set holds as one.
pub open spec fn all_assigned(users: Seq<User>, read: Seq<StudentView>) -> bool {
    forall|i: int| 0 <= i < read.len() ==> is_teacher(users, (#[trigger] read[i]).teacher)
}

/// The students whose teacher is none, one to a line: the teacher's name and
/// the student's.
pub open spec fn unassigned(users: Seq<User>, read: Seq<StudentView>) -> Seq<char>
    decreases read.len(),
{
    if read.len() == 0 {
        Seq::empty()
    } else {
        unassigned(users, read.drop_last()) + if is_teacher(users, read.last().teacher) {
            Seq::empty()
        } else {
            read.last().teacher + " (assigned to "@ + read.last().last + ", "@ + read.last().rest
                + ")\n"@
        }
    }
}

/// One of the names has an entry.
pub open spec fn has_entry_among(creds: Seq<Credential>, names: Seq<Seq<char>>) -> bool {
    exists|i: int| 0 <= i < names.len() && credential_index(creds, #[trigger] names[i]) is Some
}

/// Why an upload of students is refused, if it is: the text cannot be read;
/// or teachers are none, who are listed with their students; or the domain
/// store refuses the batch; or the authentication store does.
pub open spec fn upload_students_refusal(g: Glob, text: Seq<char>) -> Option<Refusal> {
    match students_of(crate::records::csv_table(text, false, false)) {
        Err(m) => Some((ErrorKind::String, m)),
        Ok(read) => if !all_assigned(g.users@, read) {
            Some(
                (
                    ErrorKind::String,
                    "You have assigned students to the following unames who are not teachers:\n"@
                        + unassigned(g.users@, read),
                ),
            )
        } else {
            match crate::store::users::batch_refusal(
                g.data.users@,
                read_unames(read),
                read_teachers(read),
            ) {
                Some(m) => Some((ErrorKind::Data, m)),
                None => if has_entry_among(g.auth.users@, read_unames(read)) {
                    Some(
                        (
                            ErrorKind::Auth,
                            "Database already contains unames:\n"@ + lines(
                                crate::auth::colliding(g.auth.users@, read_unames(read)),
                            ),
                        ),
                    )
                } else {
                    None
                },
            }
        },
    }
}

/// The first student whose teacher the working set does not hold as one.
fn first_unassigned(users: &Vec<User>, students: &Vec<Student>) -> (r: Option<usize>)
    ensures
        r is None <==> all_assigned(users@, student_views(students@)),
        r matches Some(i) ==> i < students@.len(),
{
    let ghost read = student_views(students@);
    let n = students.len();
    let mut i: usize = 0;
    while i < n
        invariant
            i <= n == students@.len() == read.len(),
            read == student_views(students@),
            forall|k: int| 0 <= k < i ==> is_teacher(users@, (#[trigger] read[k]).teacher),
        decreases n - i,
    {
        assert(read[i as int] == students@[i as int]@);
        match find_user(users, students[i].teacher.as_str()) {
            Some(User::Teacher(_)) => {},
            _ => {
                return Some(i);
            },
        }
        i += 1;
    }
    None
}

/// Lists the students whose teacher is none.
fn list_unassigned(msg: &mut String, users: &Vec<User>, students: &Vec<Student>)
    ensures
        final(msg)@ == old(msg)@ + unassigned(users@, student_views(students@)),
{
    let ghost read = student_views(students@);
    let ghost before = msg@;
    let n = students.len();
    let mut i: usize = 0;
    assert(read.take(0) =~= Seq::<StudentView>::empty());
    assert(msg@ =~= before + unassigned(users@, read.take(0)));
    while i < n
        invariant
            i <= n == students@.len() == read.len(),
            read == student_views(students@),
            msg@ == before + unassigned(users@, read.take(i as int)),
        decreases n - i,
    {
        proof {
            assert(read.take(i + 1).drop_last() =~= read.take(i as int));
            assert(read.take(i + 1).last() == students@[i as int]@);
        }
        let s = &students[i];
        match find_user(users, s.teacher.as_str()) {
            Some(User::Teacher(_)) => {
                assert(msg@ =~= before + unassigned(users@, read.take(i + 1)));
            },
            _ => {
                msg.append(s.teacher.as_str());
                msg.append(" (assigned to ");
                msg.append(s.last.as_str());
                msg.append(", ");
                msg.append(s.rest.as_str());
                msg.append(")\n");
                assert(msg@ =~= before + unassigned(users@, read.take(i + 1)));
            },
        }
        i += 1;
    }
    assert(read.take(n as int) =~= read);
}

impl Glob {
    /// Reads students from comma-separated text and puts them on record in
    /// both stores, or none of them: refused where the text cannot be read,
    /// where a teacher is not held as one, and where either store refuses
    /// the batch.
    pub fn upload_students(&mut self, csv_data: &str) -> (r: Result<(), UnifiedError>)
        requires
            old(self).wf(),
        ensures
            final(self).wf(),
            same_cache(final(self), old(self)),
            same_domain_rest(final(self), old(self)),
            match r {
                Ok(()) => {
                    &&& upload_students_refusal(*old(self), csv_data@) is None
                    &&& students_of(crate::records::csv_table(csv_data@, false, false)) matches Ok(read)
                    &&& ({
                        let read = students_of(crate::records::csv_table(csv_data@, false, false))->Ok_0;
                        &&& students_recorded(
                            old(self).data.users@,
                            final(self).data.users@,
                            read,
                            old(self).data.salt_length,
                            old(self).data.salt_chars@,
                        )
                        &&& credentials_recorded(
                            old(self).auth.users@,
                            final(self).auth.users@,
                            old(self).data.users@,
                            final(self).data.users@,
                            read.len() as int,
                        )
                    })
                },
                Err(e) => same_users(final(self), old(self)) && upload_students_refusal(
                    *old(self),
                    csv_data@,
                ) == Some(e.refusal()),
            },
    {
        let mut students = match Student::vec_from_csv_reader(csv_data) {
            Ok(v) => v,
            Err(e) => {
                return Err(UnifiedError::String(e));
            },
        };
        let ghost read = student_views(students@);
        match first_unassigned(&self.users, &students) {
            Some(_) => {
                let mut msg = String::from_str(
                    "You have assigned students to the following unames who are not teachers:\n",
                );
                list_unassigned(&mut msg, &self.users, &students);
                return Err(UnifiedError::String(msg));
            },
            None => {},
        }
        let ghost given = students@;
        let ghost users_before = self.data.users@;
        let held = self.data.users.len();
        proof {
            assert(crate::store::users::student_unames(given) =~= read_unames(read)) by {
                assert forall|i: int| 0 <= i < given.len() implies #[trigger] read_unames(read)[i]
                    == given[i].base.uname@ by {
                    assert(read[i] == given[i]@);
                }
            }
            assert(crate::store::users::student_teachers(given) =~= read_teachers(read)) by {
                assert forall|i: int| 0 <= i < given.len() implies #[trigger] read_teachers(read)[i]
                    == given[i].teacher@ by {
                    assert(read[i] == given[i]@);
                }
            }
            crate::store::users::lemma_students_fit_names(users_before, given);
        }
        match self.data.insert_students(&mut students) {
            Ok(_) => {},
            Err(e) => {
                return Err(UnifiedError::Data(e));
            },
        }
        let n = students.len();
        proof {
            assert forall|i: int| 0 <= i < read.len() implies {
                &&& (#[trigger] self.data.users@[users_before.len() + i]) matches User::Student(s)
                &&& self.data.users@[users_before.len() + i]->Student_0@ == salted_student(
                    read[i],
                    self.data.users@[users_before.len() + i].base().salt@,
                )
                &&& self.data.users@[users_before.len() + i].base().salt@.len()
                    == self.data.salt_length
                &&& drawn_from(
                    self.data.users@[users_before.len() + i].base().salt@,
                    self.data.salt_chars@,
                )
            } by {
                assert(read[i] == given[i]@);
                assert(students@[i] == student_with_salt(given[i], students@[i].base.salt));
            }
        }
        let mut unames: Vec<&str> = Vec::new();
        let mut passwords: Vec<&str> = Vec::new();
        let mut salts: Vec<&str> = Vec::new();
        let mut i: usize = 0;
        while i < n
            invariant
                i <= n == students@.len(),
                unames@.len() == i,
                passwords@.len() == i,
                salts@.len() == i,
                forall|k: int|
                    0 <= k < i ==> (#[trigger] unames@[k])@ == students@[k].base.uname@ && passwords@[k]@
                        == BATCH_PASSWORD@ && salts@[k]@ == students@[k].base.salt@,
            decreases n - i,
        {
            let ghost names = unames@;
            let ghost words = passwords@;
            let ghost grains = salts@;
            unames.push(students[i].base.uname.as_str());
            passwords.push(BATCH_PASSWORD);
            salts.push(students[i].base.salt.as_str());
            proof {
                assert forall|k: int| 0 <= k < i + 1 implies (#[trigger] unames@[k])@
                    == students@[k].base.uname@ && passwords@[k]@ == BATCH_PASSWORD@ && salts@[k]@
                    == students@[k].base.salt@ by {
                    if k < i {
                        assert(unames@[k] == names[k]);
                        assert(passwords@[k] == words[k]);
                        assert(salts@[k] == grains[k]);
                    }
                }
            }
            i += 1;
        }
        let ghost creds_before = self.auth.users@;
        proof {
            // The names that go to the authentication store are those that were read.
            assert(crate::auth::strs_view(unames@) =~= read_unames(read)) by {
                assert forall|k: int| 0 <= k < n implies #[trigger] crate::auth::strs_view(unames@)[k]
                    == read_unames(read)[k] by {
                    assert(students@[k] == student_with_salt(given[k], students@[k].base.salt));
                    assert(read[k] == given[k]@);
                }
            }
            let names = read_unames(read);
            if crate::auth::batch_collides(creds_before, unames@) {
                if !has_entry_among(creds_before, names) {
                    if exists|i: int|
                        0 <= i < unames@.len() && credential_index(
                            creds_before,
                            (#[trigger] unames@[i])@,
                        ) is Some {
                        let i = choose|i: int|
                            0 <= i < unames@.len() && credential_index(
                                creds_before,
                                (#[trigger] unames@[i])@,
                            ) is Some;
                        assert(names[i] == unames@[i]@);
                        assert(false);
                    } else {
                        // No name has an entry, so two names of the batch
                        // would be the same; but the batch fits.
                        let (a, b) = choose|a: int, b: int|
                            0 <= a < b < unames@.len() && (#[trigger] unames@[a])@ == (
                            #[trigger] unames@[b])@;
                        assert(names[a] == unames@[a]@ && names[b] == unames@[b]@);
                        assert(false);
                    }
                }
            } else {
                if has_entry_among(creds_before, names) {
                    let k = choose|k: int|
                        0 <= k < names.len() && credential_index(creds_before, #[trigger] names[k])
                            is Some;
                    assert(unames@[k]@ == names[k]);
                    assert(false);
                }
            }
        }
        match self.auth.add_users(unames.as_slice(), passwords.as_slice(), salts.as_slice()) {
            Ok(_) => {
                proof {
                    let after = self.auth.users@;
                    assert forall|k: int| 0 <= k < n implies {
                        &&& (#[trigger] after[creds_before.len() + k]).uname@
                            == self.data.users@[users_before.len() + k].base().uname@
                        &&& after[creds_before.len() + k].hash@ == salted_hash(
                            BATCH_PASSWORD.spec_bytes(),
                            vstd::utf8::encode_utf8(
                                self.data.users@[users_before.len() + k].base().salt@,
                            ),
                        )
                    } by {
                        assert(unames@[k]@ == students@[k].base.uname@);
                        assert(self.data.users@[users_before.len() + k] == User::Student(students@[k]));
                    }
                }
                Ok(())
            },
            Err(e) => {
                // The domain store gives the students up again.
                self.data.users.truncate(held);
                assert(self.data.users@ =~= users_before);
                Err(UnifiedError::Auth(e))
            },
        }
    }
}

/// Every goal of the batch is a chapter of a book whose course the working
/// set holds, for a student whom it holds.
pub open spec fn goals_known(users: Seq<User>, courses: Seq<crate::course::Course>, goals: Seq<Goal>) -> bool {
    forall|i: int|
        0 <= i < goals.len() ==> is_student(users, (#[trigger] goals[i]).uname@) && (
        goals[i].source matches Source::Book(b) && course_index(courses, b.sym@) is Some)
}

/// The students of the goals of which `p` holds, each once, in the order in
/// which they first occur.
pub open spec fn goal_owners(goals: Seq<Goal>, p: spec_fn(Goal) -> bool) -> Seq<Seq<char>>
    decreases goals.len(),
{
    if goals.len() == 0 {
        Seq::empty()
    } else {
        let head = goal_owners(goals.drop_last(), p);
        if p(goals.last()) && !head.contains(goals.last().uname@) {
            head.push(goals.last().uname@)
        } else {
            head
        }
    }
}

/// The students with goals of which `sym` alone, or `sym` and `seq`, decide,
/// each once.
fn list_owners(goals: &Vec<Goal>, sym: &str, seq: Option<i16>) -> (r: Vec<String>)
    ensures
        texts_view(r@) == goal_owners(
            goals@,
            match seq {
                Some(n) => goal_of_chapter(sym@, n),
                None => goal_of_course(sym@),
            },
        ),
{
    let ghost p = match seq {
        Some(n) => goal_of_chapter(sym@, n),
        None => goal_of_course(sym@),
    };
    let n = goals.len();
    let mut names: Vec<String> = Vec::new();
    let mut i: usize = 0;
    assert(goals@.take(0) =~= Seq::<Goal>::empty());
    assert(texts_view(names@) =~= Seq::<Seq<char>>::empty());
    while i < n
        invariant
            i <= n == goals@.len(),
            p == match seq {
                Some(n) => goal_of_chapter(sym@, n),
                None => goal_of_course(sym@),
            },
            texts_view(names@) == goal_owners(goals@.take(i as int), p),
        decreases n - i,
    {
        proof {
            assert(goals@.take(i + 1).drop_last() =~= goals@.take(i as int));
            assert(goals@.take(i + 1).last() == goals@[i as int]);
        }
        if let Source::Book(b) = &goals[i].source {
            let hit = match seq {
                Some(n) => b.seq == n,
                None => true,
            };
            if b.sym.as_str().eq(sym) && hit {
                list_once(&mut names, goals[i].uname.as_str());
            }
        }
        i += 1;
    }
    assert(goals@.take(n as int) =~= goals@);
    names
}

/// Why a course stays on record, if it does: students, who are listed, have
/// goals from it, or there is no such course.
pub open spec fn delete_course_refusal(g: Glob, sym: Seq<char>) -> Option<Refusal> {
    if course_in_use(g.data.goals@, sym) {
        Some(
            (
                ErrorKind::String,
                "The Course "@ + sym
                    + " cannot be deleted because the following users have Goals from that Course:\n"@
                    + lines(goal_owners(g.data.goals@, goal_of_course(sym))),
            ),
        )
    } else if course_index(g.data.courses@, sym) is None {
        Some((ErrorKind::Data, "There is no course with symbol "@ + sym + "."@))
    } else {
        None
    }
}

/// Why a chapter stays on record, if it does: there is no such chapter, or
/// students, who are listed, have it as a goal.
pub open spec fn delete_chapter_refusal(g: Glob, id: i64) -> Option<Refusal> {
    match crate::seqs::first_where(g.data.courses@, course_holding(id)) {
        None => Some((ErrorKind::Data, no_such_chapter())),
        Some(i) => {
            let c = g.data.courses@[i];
            let seq = c.chapters@[crate::seqs::first_where(c.chapters@, chapter_numbered(id))->0].seq;
            if chapter_in_use(g.data.goals@, c.sym@, seq) {
                Some(
                    (
                        ErrorKind::String,
                        "Chapter "@ + signed_decimal(seq as int) + " of the Course "@ + c.sym@
                            + " cannot be deleted because the following users have that Chapter as a Goal:\n"@
                            + lines(goal_owners(g.data.goals@, goal_of_chapter(c.sym@, seq))),
                    ),
                )
            } else {
                None
            }
        },
    }
}

/// The goal is for someone whom the working set does not hold as a student.
pub open spec fn for_stranger(users: Seq<User>) -> spec_fn(Goal) -> bool {
    |g: Goal| !is_student(users, g.uname@)
}

/// The symbols, each once, of the goals from courses that the working set
/// does not hold.
pub open spec fn unknown_courses(courses: Seq<crate::course::Course>, goals: Seq<Goal>) -> Seq<
    Seq<char>,
>
    decreases goals.len(),
{
    if goals.len() == 0 {
        Seq::empty()
    } else {
        let head = unknown_courses(courses, goals.drop_last());
        match goals.last().source {
            Source::Book(b) => if course_index(courses, b.sym@) is None && !head.contains(b.sym@) {
                head.push(b.sym@)
            } else {
                head
            },
            Source::Custom(_) => head,
        }
    }
}

/// One of the goals is no chapter of a book.
pub open spec fn has_custom(goals: Seq<Goal>) -> bool {
    exists|i: int| 0 <= i < goals.len() && (#[trigger] goals[i]).source is Custom
}

/// A list of names under a heading, or nothing where there are no names.
pub open spec fn section(heading: Seq<char>, names: Seq<Seq<char>>) -> Seq<char> {
    if names.len() > 0 {
        heading + lines(names)
    } else {
        Seq::empty()
    }
}

/// Why a batch of goals does not go on record, if it does not: a goal is no
/// chapter of a book; or the working set does not know students or courses,
/// which are listed; or the domain store refuses the batch.
pub open spec fn insert_goals_refusal(g: Glob, goals: Seq<Goal>) -> Option<Refusal> {
    if goals_known(g.users@, g.courses@, goals) {
        match crate::store::goals::insert_goals_refusal(
            g.data.users@,
            g.data.courses@,
            goals,
            g.data.next_goal_id,
        ) {
            Some(m) => Some((ErrorKind::Data, m)),
            None => None,
        }
    } else if has_custom(goals) {
        Some((ErrorKind::String, "Custom goals are not supported."@))
    } else {
        Some(
            (
                ErrorKind::String,
                section(
                    "The following user names do not belong to known students:\n"@,
                    goal_owners(goals, for_stranger(g.users@)),
                ) + section(
                    "The following symbols do not belong to known courses:\n"@,
                    unknown_courses(g.courses@, goals),
                ),
            ),
        )
    }
}

/// Whether one of the goals is no chapter of a book.
fn any_custom(goals: &[Goal]) -> (r: bool)
    ensures
        r == has_custom(goals@),
{
    let n = goals.len();
    let mut i: usize = 0;
    while i < n
        invariant
            i <= n == goals@.len(),
            forall|k: int| 0 <= k < i ==> !((#[trigger] goals@[k]).source is Custom),
        decreases n - i,
    {
        if let Source::Custom(_) = &goals[i].source {
            return true;
        }
        i += 1;
    }
    false
}

/// The students of the goals who are strangers to the working set, each once.
fn list_strangers(users: &Vec<User>, goals: &[Goal]) -> (r: Vec<String>)
    ensures
        texts_view(r@) == goal_owners(goals@, for_stranger(users@)),
{
    let ghost p = for_stranger(users@);
    let n = goals.len();
    let mut names: Vec<String> = Vec::new();
    let mut i: usize = 0;
    assert(goals@.take(0) =~= Seq::<Goal>::empty());
    assert(texts_view(names@) =~= Seq::<Seq<char>>::empty());
    while i < n
        invariant
            i <= n == goals@.len(),
            p == for_stranger(users@),
            texts_view(names@) == goal_owners(goals@.take(i as int), p),
        decreases n - i,
    {
        proof {
            assert(goals@.take(i + 1).drop_last() =~= goals@.take(i as int));
            assert(goals@.take(i + 1).last() == goals@[i as int]);
        }
        match find_user(users, goals[i].uname.as_str()) {
            Some(User::Student(_)) => {},
            _ => {
                list_once(&mut names, goals[i].uname.as_str());
            },
        }
        i += 1;
    }
    assert(goals@.take(n as int) =~= goals@);
    names
}

/// The symbols of the goals' courses that the working set does not hold,
/// each once.
fn list_unknown_courses(courses: &Vec<crate::course::Course>, goals: &[Goal]) -> (r: Vec<String>)
    ensures
        texts_view(r@) == unknown_courses(courses@, goals@),
{
    let n = goals.len();
    let mut names: Vec<String> = Vec::new();
    let mut i: usize = 0;
    assert(goals@.take(0) =~= Seq::<Goal>::empty());
    assert(texts_view(names@) =~= Seq::<Seq<char>>::empty());
    while i < n
        invariant
            i <= n == goals@.len(),
            texts_view(names@) == unknown_courses(courses@, goals@.take(i as int)),
        decreases n - i,
    {
        proof {
            assert(goals@.take(i + 1).drop_last() =~= goals@.take(i as int));
            assert(goals@.take(i + 1).last() == goals@[i as int]);
        }
        if let Source::Book(b) = &goals[i].source {
            if find_course(courses, b.sym.as_str()).is_none() {
                list_once(&mut names, b.sym.as_str());
            }
        }
        i += 1;
    }
    assert(goals@.take(n as int) =~= goals@);
    names
}

/// Adds a list of names under a heading, or nothing where there are no names.
fn append_section(msg: &mut String, heading: &str, names: &Vec<String>)
    ensures
        final(msg)@ == old(msg)@ + section(heading@, texts_view(names@)),
{
    if names.len() > 0 {
        let ghost before = msg@;
        msg.append(heading);
        append_lines(msg, names);
        assert(msg@ =~= before + (heading@ + lines(texts_view(names@))));
    } else {
        assert(msg@ =~= msg@ + Seq::<char>::empty());
    }
}

/// The first goal of the batch that the working set does not know.
fn first_unknown(users: &Vec<User>, courses: &Vec<crate::course::Course>, goals: &[Goal]) -> (r: Option<
    usize,
>)
    ensures
        r is None <==> goals_known(users@, courses@, goals@),
        r matches Some(i) ==> i < goals@.len(),
{
    let n = goals.len();
    let mut i: usize = 0;
    while i < n
        invariant
            i <= n == goals@.len(),
            forall|k: int|
                0 <= k < i ==> is_student(users@, (#[trigger] goals@[k]).uname@) && (
                goals@[k].source matches Source::Book(b) && course_index(courses@, b.sym@) is Some),
        decreases n - i,
    {
        match find_user(users, goals[i].uname.as_str()) {
            Some(User::Student(_)) => {},
            _ => {
                return Some(i);
            },
        }
        match &goals[i].source {
            Source::Book(b) => {
                if find_course(courses, b.sym.as_str()).is_none() {
                    return Some(i);
                }
            },
            Source::Custom(_) => {
                return Some(i);
            },
        }
        i += 1;
    }
    None
}

/// The places, among the first `k` users, of the students of the teacher
/// named `tuname` whose goals make a pace calendar.
pub open spec fn paced_students(glob: Glob, tuname: Seq<char>, k: int) -> Seq<int>
    decreases k,
{
    if k <= 0 {
        Seq::empty()
    } else {
        let rest = paced_students(glob, tuname, k - 1);
        let u = glob.users@[k - 1];
        if u matches User::Student(s) && s.teacher@ == tuname && can_pace(
            glob.data.goals@.filter(goal_of(s.base.uname@)),
            glob,
        ) {
            rest.push(k - 1)
        } else {
            rest
        }
    }
}

/// `cals` are the pace calendars of the students at the places `who`, in order.
pub open spec fn paces_listed(
    cals: Seq<Pace>,
    who: Seq<int>,
    glob: Glob,
    teacher: crate::user::Teacher,
    today: Date,
) -> bool {
    &&& cals.len() == who.len()
    &&& forall|k: int|
        #![trigger who[k]]
        #![trigger cals[k]]
        0 <= k < cals.len() ==> {
            &&& 0 <= who[k] < glob.users@.len()
            &&& glob.users@[who[k]] is Student
            &&& is_pace_of(
                cals[k],
                glob.users@[who[k]]->Student_0,
                teacher,
                glob.data.goals@.filter(goal_of(glob.users@[who[k]]->Student_0.base.uname@)),
                glob,
                today,
            )
        }
}

/// The default administrator is on record in both stores.
pub open spec fn bootstrapped(auth: Seq<Credential>, data: Seq<User>, uname: Seq<char>) -> bool {
    credential_index(auth, uname) is Some && user_index(data, uname) is Some
}

/// The default administrator as starting up puts him on record in the
/// domain store: an administrator under the configured name and address,
/// with a salt that the store drew.
pub open spec fn is_default_admin(u: User, cfg: Cfg, salt_chars: Seq<char>, salt_length: usize) -> bool {
    &&& u matches User::Admin(b)
    &&& u.base().role == Role::Admin
    &&& u.base().uname@ == cfg.default_admin_uname@
    &&& u.base().email@ == cfg.default_admin_email@
    &&& u.base().salt@.len() == salt_length
    &&& drawn_from(u.base().salt@, salt_chars)
}

/// What starting up does to the users of the two stores. Where a store has
/// the default administrator, its users are as they were. Where the domain
/// store does not have him, he goes on record there behind the other users,
/// under the configured name and address and with a new salt. Where the
/// authentication store does not have him, he gets an entry there behind
/// the others: the hash of the configured password with the salt that the
/// domain store holds for him.
pub open spec fn is_bootstrap(
    auth_before: Seq<Credential>,
    data_before: Seq<User>,
    auth_after: Seq<Credential>,
    data_after: Seq<User>,
    cfg: Cfg,
    salt_chars: Seq<char>,
    salt_length: usize,
) -> bool {
    let uname = cfg.default_admin_uname@;
    &&& bootstrapped(auth_after, data_after, uname)
    &&& match user_index(data_before, uname) {
        Some(_) => data_after == data_before,
        None => {
            &&& data_after.len() == data_before.len() + 1
            &&& data_after.drop_last() == data_before
            &&& is_default_admin(data_after.last(), cfg, salt_chars, salt_length)
        },
    }
    &&& match credential_index(auth_before, uname) {
        Some(_) => auth_after == auth_before,
        None => {
            &&& auth_after.len() == auth_before.len() + 1
            &&& auth_after.drop_last() == auth_before
            &&& auth_after.last().uname@ == uname
            &&& auth_after.last().hash@ == salted_hash(
                vstd::utf8::encode_utf8(cfg.default_admin_password@),
                vstd::utf8::encode_utf8(
                    data_after[user_index(data_after, uname)->0].base().salt@,
                ),
            )
        },
    }
}

/// Starting up twice is starting up once: the second time, no user of either
/// store changes.
pub proof fn lemma_bootstrap_idempotent(
    a0: Seq<Credential>,
    d0: Seq<User>,
    a1: Seq<Credential>,
    d1: Seq<User>,
    a2: Seq<Credential>,
    d2: Seq<User>,
    cfg: Cfg,
    salt_chars: Seq<char>,
    salt_length: usize,
)
    requires
        is_bootstrap(a0, d0, a1, d1, cfg, salt_chars, salt_length),
        is_bootstrap(a1, d1, a2, d2, cfg, salt_chars, salt_length),
    ensures
        a2 == a1,
        d2 == d1,
{
}

/// Why goals make no pace calendar under the working set: the first goal
/// that it cannot weigh, or else that the weights are too large to add up.
pub open spec fn pace_failure(goals: Seq<Goal>, g: Glob) -> PaceError {
    match affirm_all(goals, g) {
        Err(f) => f,
        Ok(_) => PaceError::TooHeavy,
    }
}

/// Why there is no pace calendar for `uname`, if there is none: the working
/// set holds no such student, or holds the student's teacher as no teacher,
/// or the student's goals make none.
pub open spec fn pace_refusal(g: Glob, uname: Seq<char>) -> Option<Refusal> {
    if !is_student(g.users@, uname) {
        Some((ErrorKind::String, uname + " is not a Student in the database."@))
    } else {
        let s = g.users@[user_index(g.users@, uname)->0]->Student_0;
        let goals = g.data.goals@.filter(goal_of(uname));
        if !is_teacher(g.users@, s.teacher@) {
            Some(
                (
                    ErrorKind::String,
                    uname + " has teacher "@ + s.teacher@ + ", who is not a teacher."@,
                ),
            )
        } else if !can_pace(goals, g) {
            Some((ErrorKind::Pace, pace_failure(goals, g).text()))
        } else {
            None
        }
    }
}

impl Glob {
    /// Puts a batch of goals on record, or none of them. Refused where the
    /// working set does not know a student or a course, and where the store
    /// refuses the batch.
    pub fn insert_goals(&mut self, goals: &[Goal]) -> (r: Result<usize, UnifiedError>)
        requires
            old(self).wf(),
        ensures
            final(self).wf(),
            same_cache(final(self), old(self)),
            final(self).auth == old(self).auth,
            final(self).data.same_settings(&old(self).data),
            final(self).data.users == old(self).data.users,
            final(self).data.courses == old(self).data.courses,
            final(self).data.calendar == old(self).data.calendar,
            final(self).data.dates == old(self).data.dates,
            match r {
                Ok(n) => {
                    &&& insert_goals_refusal(*old(self), goals@) is None
                    &&& goals_known(old(self).users@, old(self).courses@, goals@)
                    &&& goals_fit(old(self).data.users@, old(self).data.courses@, goals@)
                    &&& n == goals@.len()
                    &&& old(self).data.next_goal_id + n <= i64::MAX
                    &&& final(self).data.next_goal_id == old(self).data.next_goal_id + n
                    &&& final(self).data.goals@.len() == old(self).data.goals@.len() + n
                    &&& final(self).data.goals@.take(old(self).data.goals@.len() as int) == old(self).data.goals@
                    &&& forall|k: int|
                        0 <= k < n ==> #[trigger] final(self).data.goals@[old(self).data.goals@.len()
                            + k] == recorded_goal(goals@[k], (old(self).data.next_goal_id + k) as i64)
                },
                Err(e) => final(self).data.goals == old(self).data.goals && final(self).data.same_numbers(
                    &old(self).data,
                ) && insert_goals_refusal(*old(self), goals@) == Some(e.refusal()),
            },
    {
        match first_unknown(&self.users, &self.courses, goals) {
            Some(_) => {
                if any_custom(goals) {
                    return Err(
                        UnifiedError::String(String::from_str("Custom goals are not supported.")),
                    );
                }
                let strangers = list_strangers(&self.users, goals);
                let unknown = list_unknown_courses(&self.courses, goals);
                let mut msg = String::new();
                append_section(
                    &mut msg,
                    "The following user names do not belong to known students:\n",
                    &strangers,
                );
                append_section(
                    &mut msg,
                    "The following symbols do not belong to known courses:\n",
                    &unknown,
                );
                assert(msg@ =~= section(
                    "The following user names do not belong to known students:\n"@,
                    texts_view(strangers@),
                ) + section(
                    "The following symbols do not belong to known courses:\n"@,
                    texts_view(unknown@),
                ));
                return Err(UnifiedError::String(msg));
            },
            None => {},
        }
        match self.data.insert_goals(goals) {
            Ok(n) => Ok(n),
            Err(e) => Err(UnifiedError::Data(e)),
        }
    }

    /// Takes a course off the record. Refused where a goal is a chapter of
    /// the course, with the names of the students whose goals these are.
    pub fn delete_course(&mut self, sym: &str) -> (r: Result<(usize, usize), UnifiedError>)
        requires
            old(self).wf(),
        ensures
            final(self).wf(),
            same_cache(final(self), old(self)),
            final(self).auth == old(self).auth,
            final(self).data.same_settings(&old(self).data),
            final(self).data.same_numbers(&old(self).data),
            final(self).data.users == old(self).data.users,
            final(self).data.goals == old(self).data.goals,
            final(self).data.calendar == old(self).data.calendar,
            final(self).data.dates == old(self).data.dates,
            match r {
                Ok((n, m)) => {
                    &&& delete_course_refusal(*old(self), sym@) is None
                    &&& n == 1
                    &&& m == old(self).data.courses@[course_index(
                        old(self).data.courses@,
                        sym@,
                    )->0].chapters@.len()
                    &&& final(self).data.courses@ == old(self).data.courses@.remove(
                        course_index(old(self).data.courses@, sym@)->0,
                    )
                    &&& course_index(final(self).data.courses@, sym@) is None
                },
                Err(e) => {
                    &&& delete_course_refusal(*old(self), sym@) == Some(e.refusal())
                    &&& final(self).data.courses == old(self).data.courses
                },
            },
    {
        if any_goal_in_course(&self.data.goals, sym) {
            let owners = list_owners(&self.data.goals, sym, None);
            let mut msg = String::from_str("The Course ");
            msg.append(sym);
            msg.append(
                " cannot be deleted because the following users have Goals from that Course:\n",
            );
            append_lines(&mut msg, &owners);
            return Err(UnifiedError::String(msg));
        }
        match self.data.delete_course(sym) {
            Ok(t) => Ok(t),
            Err(e) => Err(UnifiedError::Data(e)),
        }
    }

    /// Takes a chapter off the record. Refused where there is no such
    /// chapter and where a goal is this chapter.
    pub fn delete_chapter(&mut self, id: i64) -> (r: Result<(), UnifiedError>)
        requires
            old(self).wf(),
        ensures
            final(self).wf(),
            same_cache(final(self), old(self)),
            final(self).auth == old(self).auth,
            final(self).data.same_settings(&old(self).data),
            final(self).data.same_numbers(&old(self).data),
            final(self).data.users == old(self).data.users,
            final(self).data.goals == old(self).data.goals,
            final(self).data.calendar == old(self).data.calendar,
            final(self).data.dates == old(self).data.dates,
            match r {
                Ok(()) => {
                    &&& delete_chapter_refusal(*old(self), id) is None
                    &&& ({
                        let i = crate::seqs::first_where(
                            old(self).data.courses@,
                            course_holding(id),
                        )->0;
                        let c = old(self).data.courses@[i];
                        let k = crate::seqs::first_where(c.chapters@, chapter_numbered(id))->0;
                        &&& !chapter_in_use(old(self).data.goals@, c.sym@, c.chapters@[k].seq)
                        &&& final(self).data.courses@.len() == old(self).data.courses@.len()
                        &&& forall|x: int|
                            0 <= x < old(self).data.courses@.len() && x != i ==> (
                            #[trigger] final(self).data.courses@[x]) == old(self).data.courses@[x]
                        &&& final(self).data.courses@[i].chapters@ == c.chapters@.remove(k)
                        &&& final(self).data.courses@[i].sym == c.sym
                        &&& final(self).data.courses@[i].id == c.id
                        &&& final(self).data.courses@[i].title == c.title
                        &&& final(self).data.courses@[i].book == c.book
                        &&& final(self).data.courses@[i].level == c.level
                    })
                },
                Err(e) => final(self).data.courses@ == old(self).data.courses@
                    && delete_chapter_refusal(*old(self), id) == Some(e.refusal()),
            },
    {
        if let Some((i, k)) = locate_chapter(&self.data.courses, id) {
            let seq = self.data.courses[i].chapters[k].seq;
            let sym = self.data.courses[i].sym.as_str();
            if any_goal_in_chapter(&self.data.goals, sym, seq) {
                let owners = list_owners(&self.data.goals, sym, Some(seq));
                let mut msg = String::from_str("Chapter ");
                let number = signed_decimal_string(seq as i64);
                msg.append(number.as_str());
                msg.append(" of the Course ");
                msg.append(sym);
                msg.append(
                    " cannot be deleted because the following users have that Chapter as a Goal:\n",
                );
                append_lines(&mut msg, &owners);
                return Err(UnifiedError::String(msg));
            }
        }
        match self.data.delete_chapter(id) {
            Ok(()) => Ok(()),
            Err(e) => Err(UnifiedError::Data(e)),
        }
    }

    /// The pace calendar of a student whom the working set holds, from the
    /// goals that the store has for the student.
    pub fn get_pace_by_student(&self, uname: &str, today: &Date) -> (r: Result<Pace, UnifiedError>)
        requires
            self.wf(),
        ensures
            match r {
                Ok(p) => {
                    &&& pace_refusal(*self, uname@) is None
                    &&& ({
                        let s = self.users@[user_index(self.users@, uname@)->0]->Student_0;
                        is_pace_of(
                            p,
                            s,
                            self.users@[user_index(self.users@, s.teacher@)->0]->Teacher_0,
                            self.data.goals@.filter(goal_of(uname@)),
                            *self,
                            *today,
                        )
                    })
                },
                Err(e) => pace_refusal(*self, uname@) == Some(e.refusal()),
            },
    {
        let stud = match find_user(&self.users, uname) {
            Some(User::Student(s)) => s.clone(),
            _ => {
                let mut msg = String::from_str(uname);
                msg.append(" is not a Student in the database.");
                return Err(UnifiedError::String(msg));
            },
        };
        let teach = match find_user(&self.users, stud.teacher.as_str()) {
            Some(User::Teacher(t)) => t.clone(),
            _ => {
                let mut msg = String::from_str(uname);
                msg.append(" has teacher ");
                msg.append(stud.teacher.as_str());
                msg.append(", who is not a teacher.");
                return Err(UnifiedError::String(msg));
            },
        };
        let goals = self.data.get_goals_by_student(uname);
        match Pace::new(stud, teach, goals, self, today) {
            Ok(p) => Ok(p),
            Err(e) => Err(UnifiedError::Pace(e)),
        }
    }

    /// The pace calendars of the students of a teacher whom the working set
    /// holds, in the order in which it holds the students. A student whose
    /// goals make no pace calendar is left out.
    pub fn get_paces_by_teacher(&self, tuname: &str, today: &Date) -> (r: Result<
        Vec<Pace>,
        UnifiedError,
    >)
        requires
            self.wf(),
        ensures
            match r {
                Ok(v) => is_teacher(self.users@, tuname@) && paces_listed(
                    v@,
                    paced_students(*self, tuname@, self.users@.len() as int),
                    *self,
                    self.users@[user_index(self.users@, tuname@)->0]->Teacher_0,
                    *today,
                ),
                Err(e) => !is_teacher(self.users@, tuname@) && e.refusal() == (
                    ErrorKind::String,
                    tuname@ + " is not a Teacher in the database."@,
                ),
            },
    {
        let teach = match find_user(&self.users, tuname) {
            Some(User::Teacher(t)) => t.clone(),
            _ => {
                let mut msg = String::from_str(tuname);
                msg.append(" is not a Teacher in the database.");
                return Err(UnifiedError::String(msg));
            },
        };
        let n = self.users.len();
        let mut cals: Vec<Pace> = Vec::new();
        let mut i: usize = 0;
        while i < n
            invariant
                i <= n == self.users@.len(),
                self.wf(),
                is_teacher(self.users@, tuname@),
                teach == self.users@[user_index(self.users@, tuname@)->0]->Teacher_0,
                paces_listed(cals@, paced_students(*self, tuname@, i as int), *self, teach, *today),
            decreases n - i,
        {
            let ghost before = paced_students(*self, tuname@, i as int);
            let ghost held = cals@;
            let mut added = false;
            if let User::Student(s) = &self.users[i] {
                if s.teacher.as_str().eq(tuname) {
                    let goals = self.data.get_goals_by_student(s.base.uname.as_str());
                    match Pace::new(s.clone(), teach.clone(), goals, self, today) {
                        Ok(p) => {
                            cals.push(p);
                            added = true;
                        },
                        Err(_) => {},
                    }
                }
            }
            proof {
                let now = paced_students(*self, tuname@, i + 1);
                if added {
                    assert(now == before.push(i as int));
                    assert forall|k: int|
                        #![trigger now[k]]
                        #![trigger cals@[k]]
                        0 <= k < cals@.len() implies {
                        &&& 0 <= now[k] < self.users@.len()
                        &&& self.users@[now[k]] is Student
                        &&& is_pace_of(
                            cals@[k],
                            self.users@[now[k]]->Student_0,
                            teach,
                            self.data.goals@.filter(
                                goal_of(self.users@[now[k]]->Student_0.base.uname@),
                            ),
                            *self,
                            *today,
                        )
                    } by {
                        if k < before.len() {
                            assert(now[k] == before[k]);
                            assert(cals@[k] == held[k]);
                        } else {
                            assert(now[k] == i);
                        }
                    }
                } else {
                    assert(now == before);
                    assert(cals@ == held);
                }
            }
            i += 1;
        }
        Ok(cals)
    }
}

/// Starts the system up: culls the keys that have run out, puts the default
/// administrator on record in whichever store does not have him (in the
/// authentication store with the salt that the domain store holds for him),
/// and takes users, courses, calendar and named dates from the store. An
/// administrator who is on record under another password is left alone.
pub fn load_configuration(cfg: &Cfg, auth: Db, data: Store, now: u64) -> (r: Result<
    Glob,
    UnifiedError,
>)
    requires
        auth.wf(),
        data.wf(),
    ensures
        match r {
            Ok(g) => {
                &&& g.wf()
                &&& users_current(&g)
                &&& courses_current(&g)
                &&& g.calendar@ == crate::order::sorted_of(g.data.calendar@)
                &&& g.dates@ == g.data.dates@
                &&& is_bootstrap(
                    auth.users@,
                    data.users@,
                    g.auth.users@,
                    g.data.users@,
                    *cfg,
                    data.salt_chars@,
                    data.salt_length,
                )
                &&& g.auth.keys@ == crate::auth::kept_keys(auth.keys@, auth.key_life, now)
                &&& g.auth.same_settings(&auth)
                &&& g.data.same_settings(&data)
                &&& g.data.same_numbers(&data)
                &&& g.data.courses == data.courses
                &&& g.data.goals == data.goals
                &&& g.data.calendar == data.calendar
                &&& g.data.dates == data.dates
                &&& g.sendgrid_auth == cfg.sendgrid_auth_string
                &&& g.host == cfg.host
                &&& g.port == cfg.port
                &&& g.goals_per_student == cfg.goals_per_student
                &&& g.students_per_teacher == cfg.students_per_teacher
            },
            Err(_) => false,
        },
{
    let mut auth = auth;
    let mut data = data;
    let ghost auth_before = auth.users@;
    let ghost data_before = data.users@;
    let _ = auth.cull_old_keys(now);
    let uname = cfg.default_admin_uname.as_str();
    let salt = match data.get_user_by_uname(uname) {
        Some(u) => String::from_str(u.salt()),
        None => match data.insert_admin(uname, cfg.default_admin_email.as_str()) {
            Ok(salt) => salt,
            Err(e) => {
                return Err(UnifiedError::Data(e));
            },
        },
    };
    proof {
        lemma_user_index(data.users@, uname@);
        if user_index(data_before, uname@) is None {
            let last = data.users@.len() - 1;
            assert(data.users@[last] == data.users@.last());
            assert forall|k: int| 0 <= k < last implies (#[trigger] data.users@[k]).base().uname@
                != uname@ by {
                lemma_user_index(data_before, uname@);
                assert(data.users@[k] == data.users@.drop_last()[k]);
            }
        }
    }
    match auth.check_password(uname, cfg.default_admin_password.as_str(), salt.as_str()) {
        Ok(crate::auth::AuthResult::NoSuchUser) => {
            match auth.add_user(uname, cfg.default_admin_password.as_str(), salt.as_str()) {
                Ok(()) => {
                    proof {
                        lemma_credential_index(auth.users@, uname@);
                        let last = auth.users@.len() - 1;
                        assert(auth.users@[last] == auth.users@.last());
                        assert(auth.users@.drop_last() =~= auth.users@.take(auth_before.len() as int));
                    }
                },
                Err(e) => {
                    return Err(UnifiedError::Auth(e));
                },
            }
        },
        _ => {},
    }
    let mut glob = Glob {
        auth,
        data,
        sendgrid_auth: cfg.sendgrid_auth_string.clone(),
        calendar: Vec::new(),
        dates: Vec::new(),
        courses: Vec::new(),
        users: Vec::new(),
        host: cfg.host.clone(),
        port: cfg.port,
        goals_per_student: cfg.goals_per_student,
        students_per_teacher: cfg.students_per_teacher,
    };
    glob.refresh_courses();
    glob.refresh_users();
    glob.refresh_calendar();
    glob.refresh_dates();
    Ok(glob)
}

/// The exam that stays on record for a written score: the text as written,
/// unless it is blank.
pub open spec fn exam_kept(text: Option<Seq<char>>) -> Option<Seq<char>> {
    match text {
        Some(t) => if maybe_score_of(Some(t)) == Ok::<Option<int>, crate::score::ScoreError>(None) {
            None
        } else {
            Some(t)
        },
        None => None,
    }
}

/// Why a student's numbers stay as they are, if they do: the working set
/// holds no such student, the numbers do not fit, or the store refuses the
/// student's record.
pub open spec fn update_numbers_refusal(
    g: Glob,
    uname: Seq<char>,
    fnot: i16,
    snot: i16,
    fex: Option<Seq<char>>,
    sex: Option<Seq<char>>,
    fex_frac: u32,
    sex_frac: u32,
) -> Option<Refusal> {
    if !is_student(g.users@, uname) {
        Some((ErrorKind::String, uname + " is not a Student."@))
    } else if maybe_score_of(fex) is Err {
        Some((ErrorKind::String, "Not a valid Fall Exam score."@))
    } else if maybe_score_of(sex) is Err {
        Some((ErrorKind::String, "Not a valid Spring Exam score."@))
    } else if fex_frac > UNIT || sex_frac > UNIT {
        Some((ErrorKind::String, "An exam cannot count for more than the whole."@))
    } else if fnot < 0 || snot < 0 {
        Some((ErrorKind::String, "Notices cannot be owed."@))
    } else {
        match crate::store::users::update_user_refusal(
            g.data.users@,
            g.users@[user_index(g.users@, uname)->0],
        ) {
            Some(m) => Some((ErrorKind::Data, m)),
            None => None,
        }
    }
}

/// The name is not that of a student of the teacher named `tuname`.
pub open spec fn not_taught_by(users: Seq<User>, tuname: Seq<char>) -> spec_fn(Seq<char>) -> bool {
    |name: Seq<char>|
        !(is_student(users, name) && users[user_index(users, name)->0]->Student_0.teacher@
            == tuname)
}

/// What stands in the way of an upload of goals.
#[derive(Clone, Copy, Debug, PartialEq, Eq, Structural)]
pub enum UploadFault {
    /// The upload cannot be read.
    Unreadable,
    /// Students of the upload are not the teacher's own.
    NotYours,
    /// The goals are refused.
    Refused,
}

/// Why the goals of an upload do not go on record, if they do not: they
/// cannot be put together student by student; or students among them, who
/// are listed, are not students of the teacher named `tuname`; or the
/// batch is refused.
pub open spec fn upload_goals_refusal(g: Glob, tuname: Seq<char>, goals: Seq<Goal>) -> Option<
    (UploadFault, Refusal),
> {
    let seen = first_seen(goals);
    match grouping_refusal(goals, g) {
        Some(m) => Some((UploadFault::Unreadable, (ErrorKind::String, m))),
        None => {
            let others = seen.filter(not_taught_by(g.users@, tuname));
            if others.len() > 0 {
                Some(
                    (
                        UploadFault::NotYours,
                        (
                            ErrorKind::String,
                            "The following students with Goals in the Goals file you just submitted are not yours:"@
                                + on_new_lines(others),
                        ),
                    ),
                )
            } else {
                match insert_goals_refusal(g, grouped(goals, seen)) {
                    Some(r) => Some((UploadFault::Refused, r)),
                    None => None,
                }
            }
        },
    }
}

/// The goals of an upload went on record student by student, numbered on
/// from the next free number, behind the goals that were on record.
pub open spec fn goals_uploaded(
    before: Glob,
    after: Glob,
    tuname: Seq<char>,
    goals: Seq<Goal>,
    n: usize,
) -> bool {
    let batch = grouped(goals, first_seen(goals));
    let held = before.data.goals@;
    &&& upload_goals_refusal(before, tuname, goals) is None
    &&& n == batch.len()
    &&& after.data.next_goal_id == before.data.next_goal_id + n
    &&& after.data.goals@.len() == held.len() + n
    &&& after.data.goals@.take(held.len() as int) == held
    &&& forall|k: int|
        0 <= k < n ==> #[trigger] after.data.goals@[held.len() + k] == recorded_goal(
            batch[k],
            (before.data.next_goal_id + k) as i64,
        )
}

/// Puts the goals at the end of `batch`.
fn append_goals(batch: &mut Vec<Goal>, goals: &Vec<Goal>)
    ensures
        final(batch)@ == old(batch)@ + goals@,
{
    let ghost held = batch@;
    let n = goals.len();
    let mut j: usize = 0;
    assert(batch@ =~= held + goals@.take(0));
    while j < n
        invariant
            j <= n == goals@.len(),
            batch@ == held + goals@.take(j as int),
        decreases n - j,
    {
        batch.push(goals[j].clone());
        assert(batch@ =~= held + goals@.take(j + 1));
        j += 1;
    }
    assert(goals@.take(n as int) =~= goals@);
}

/// Why a student's goals get no new due dates, if they get none: there is no
/// pace calendar for the student, or nothing to share out, or no days to
/// share it over.
pub open spec fn autopace_refusal(g: Glob, uname: Seq<char>, today: Date) -> Option<Refusal> {
    match pace_refusal(g, uname) {
        Some(r) => Some(r),
        None => match autopaced(
            sorted_of(affirm_all(g.data.goals@.filter(goal_of(uname)), g)->Ok_0),
            g.calendar@,
            today,
        ) {
            Err(e) => Some((ErrorKind::Autopace, e.text())),
            Ok(_) => None,
        },
    }
}

impl Glob {
    /// Sets a student's exams, their shares of the semester grades, and the
    /// notices, and takes the users anew from the store.
    pub fn update_numbers(
        &mut self,
        uname: &str,
        fnot: i16,
        snot: i16,
        fex: Option<&str>,
        sex: Option<&str>,
        fex_frac: u32,
        sex_frac: u32,
    ) -> (r: Result<(), UnifiedError>)
        requires
            old(self).wf(),
        ensures
            final(self).wf(),
            final(self).same_settings(old(self)),
            final(self).courses == old(self).courses,
            final(self).calendar == old(self).calendar,
            final(self).dates == old(self).dates,
            final(self).auth == old(self).auth,
            same_domain_rest(final(self), old(self)),
            match r {
                Ok(()) => {
                    &&& update_numbers_refusal(
                        *old(self),
                        uname@,
                        fnot,
                        snot,
                        crate::text::opt_str_view(fex),
                        crate::text::opt_str_view(sex),
                        fex_frac,
                        sex_frac,
                    ) is None
                    &&& users_current(final(self))
                    &&& final(self).data.users@.len() == old(self).data.users@.len()
                    &&& ({
                        let i = user_index(old(self).data.users@, uname@)->0;
                        let held = old(self).users@[user_index(old(self).users@, uname@)->0]->Student_0;
                        &&& forall|k: int|
                            0 <= k < old(self).data.users@.len() && k != i ==> (
                            #[trigger] final(self).data.users@[k]) == old(self).data.users@[k]
                        &&& final(self).data.users@[i] matches User::Student(t)
                        &&& ({
                            let t = final(self).data.users@[i]->Student_0;
                            &&& t.base.uname == held.base.uname
                            &&& t.base.email == held.base.email
                            &&& t.base.salt == old(self).data.users@[i].base().salt
                            &&& t.last == held.last
                            &&& t.rest == held.rest
                            &&& t.teacher == held.teacher
                            &&& t.parent == held.parent
                            &&& t.fall_notices == fnot
                            &&& t.spring_notices == snot
                            &&& t.fall_exam_fraction == fex_frac
                            &&& t.spring_exam_fraction == sex_frac
                            &&& crate::text::opt_view(t.fall_exam) == exam_kept(
                                crate::text::opt_str_view(fex),
                            )
                            &&& crate::text::opt_view(t.spring_exam) == exam_kept(
                                crate::text::opt_str_view(sex),
                            )
                        })
                    })
                },
                Err(e) => final(self).data.users == old(self).data.users && final(self).users == old(
                    self,
                ).users && update_numbers_refusal(
                    *old(self),
                    uname@,
                    fnot,
                    snot,
                    crate::text::opt_str_view(fex),
                    crate::text::opt_str_view(sex),
                    fex_frac,
                    sex_frac,
                ) == Some(e.refusal()),
            },
    {
        let held = match find_user(&self.users, uname) {
            Some(User::Student(s)) => s,
            _ => {
                let mut msg = String::from_str(uname);
                msg.append(" is not a Student.");
                return Err(UnifiedError::String(msg));
            },
        };
        let fall_exam = match maybe_parse_score_str(fex) {
            Err(_) => {
                return Err(UnifiedError::String(String::from_str("Not a valid Fall Exam score.")));
            },
            Ok(Some(_)) => match fex {
                Some(t) => Some(String::from_str(t)),
                None => None,
            },
            Ok(None) => None,
        };
        let spring_exam = match maybe_parse_score_str(sex) {
            Err(_) => {
                return Err(
                    UnifiedError::String(String::from_str("Not a valid Spring Exam score.")),
                );
            },
            Ok(Some(_)) => match sex {
                Some(t) => Some(String::from_str(t)),
                None => None,
            },
            Ok(None) => None,
        };
        if fex_frac > UNIT || sex_frac > UNIT {
            return Err(
                UnifiedError::String(String::from_str("An exam cannot count for more than the whole.")),
            );
        }
        if fnot < 0 || snot < 0 {
            return Err(UnifiedError::String(String::from_str("Notices cannot be owed.")));
        }
        proof {
            let j = user_index(self.users@, uname@)->0;
            assert(self.users@[j].wf());
        }
        let s = Student {
            base: held.base.clone(),
            last: held.last.clone(),
            rest: held.rest.clone(),
            teacher: held.teacher.clone(),
            parent: held.parent.clone(),
            fall_exam,
            spring_exam,
            fall_exam_fraction: fex_frac,
            spring_exam_fraction: sex_frac,
            fall_notices: fnot,
            spring_notices: snot,
        };
        match self.data.update_user(&User::Student(s)) {
            Ok(()) => {},
            Err(e) => {
                return Err(UnifiedError::Data(e));
            },
        }
        proof {
            lemma_user_index(old(self).data.users@, uname@);
        }
        self.refresh_users();
        Ok(())
    }

    /// Sets the due dates of a student's goals that are not completed, over
    /// the instructional days that the working set holds, and hands them on
    /// to the store. Gives back the pace calendar with the new due dates.
    pub fn autopace(&mut self, uname: &str, today: &Date) -> (r: Result<Pace, UnifiedError>)
        requires
            old(self).wf(),
        ensures
            final(self).wf(),
            same_cache(final(self), old(self)),
            final(self).auth == old(self).auth,
            final(self).data.same_settings(&old(self).data),
            final(self).data.same_numbers(&old(self).data),
            final(self).data.users == old(self).data.users,
            final(self).data.courses == old(self).data.courses,
            final(self).data.calendar == old(self).data.calendar,
            final(self).data.dates == old(self).data.dates,
            match r {
                Ok(p) => {
                    let own = old(self).data.goals@.filter(goal_of(uname@));
                    &&& autopace_refusal(*old(self), uname@, *today) is None
                    &&& autopaced(
                        sorted_of(affirm_all(own, *old(self))->Ok_0),
                        old(self).calendar@,
                        *today,
                    ) == Ok::<Seq<Goal>, crate::autopace::AutopaceError>(p.goals@)
                    &&& final(self).data.goals@ == with_due_dates(old(self).data.goals@, p.goals@)
                    &&& p.student == old(self).users@[user_index(old(self).users@, uname@)->0]->Student_0
                    &&& p.teacher == old(self).users@[user_index(
                        old(self).users@,
                        p.student.teacher@,
                    )->0]->Teacher_0
                    &&& p.total_weight == weight_sum(p.goals@)
                    &&& p.due_weight == weight_where(p.goals@, due_by(*today))
                    &&& p.done_weight == weight_where(
                        sorted_of(affirm_all(own, *old(self))->Ok_0),
                        done_by(*today),
                    )
                },
                Err(e) => final(self).data.goals == old(self).data.goals && autopace_refusal(
                    *old(self),
                    uname@,
                    *today,
                ) == Some(e.refusal()),
            },
    {
        let mut p = match self.get_pace_by_student(uname, today) {
            Ok(p) => p,
            Err(e) => {
                return Err(e);
            },
        };
        match p.autopace(&self.calendar, today) {
            Ok(()) => {},
            Err(e) => {
                return Err(UnifiedError::Autopace(e));
            },
        }
        self.data.update_due_dates(p.goals.as_slice());
        Ok(p)
    }

    /// Takes the goals of a student off the record and says how many went.
    pub fn clear_goals(&mut self, uname: &str) -> (r: usize)
        requires
            old(self).wf(),
        ensures
            final(self).wf(),
            same_cache(final(self), old(self)),
            final(self).auth == old(self).auth,
            final(self).data.same_settings(&old(self).data),
            final(self).data.same_numbers(&old(self).data),
            final(self).data.users == old(self).data.users,
            final(self).data.courses == old(self).data.courses,
            final(self).data.calendar == old(self).data.calendar,
            final(self).data.dates == old(self).data.dates,
            final(self).data.goals@ == old(self).data.goals@.filter(
                crate::store::goals::not_goal_of(uname@),
            ),
            r == old(self).data.goals@.len() - final(self).data.goals@.len(),
    {
        self.data.delete_goals_by_student(uname)
    }

    /// Reads an upload of goals and puts them on record student by student,
    /// or none of them. Refused where the upload cannot be read, where a
    /// student of the upload is not a student of the teacher named `tuname`
    /// (these are listed), and where the batch is refused.
    pub fn upload_goals(&mut self, tuname: &str, body: &str) -> (r: Result<
        usize,
        (UploadFault, UnifiedError),
    >)
        requires
            old(self).wf(),
        ensures
            final(self).wf(),
            same_cache(final(self), old(self)),
            final(self).auth == old(self).auth,
            final(self).data.same_settings(&old(self).data),
            final(self).data.users == old(self).data.users,
            final(self).data.courses == old(self).data.courses,
            final(self).data.calendar == old(self).data.calendar,
            final(self).data.dates == old(self).data.dates,
            match r {
                Ok(n) => {
                    &&& upload_of(crate::records::csv_table(body@, true, false), *old(self)) matches Ok(
                        lines,
                    ) && exists|goals: Seq<Goal>| #[trigger]
                        goals_are(goals, lines) && goals_uploaded(
                            *old(self),
                            *final(self),
                            tuname@,
                            goals,
                            n,
                        )
                    &&& forall|k: int|
                        old(self).data.goals@.len() <= k < final(self).data.goals@.len() ==> goal_under(
                            old(self).users@,
                            tuname@,
                        )(#[trigger] final(self).data.goals@[k])
                },
                Err(e) => {
                    &&& final(self).data.goals == old(self).data.goals
                    &&& final(self).data.same_numbers(&old(self).data)
                    &&& match upload_of(crate::records::csv_table(body@, true, false), *old(self)) {
                        Err(m) => e.0 == UploadFault::Unreadable && e.1.refusal() == (
                            ErrorKind::String,
                            m,
                        ),
                        Ok(lines) => exists|goals: Seq<Goal>| #[trigger]
                            goals_are(goals, lines) && upload_goals_refusal(
                                *old(self),
                                tuname@,
                                goals,
                            ) == Some((e.0, e.1.refusal())),
                    }
                },
            },
    {
        let table = read_csv(body, true, false);
        let goals = match Goal::vec_from_rows(&table, self) {
            Ok(goals) => goals,
            Err(e) => {
                return Err((UploadFault::Unreadable, UnifiedError::String(e)));
            },
        };
        let pcals = match Pace::from_goals(&goals, self) {
            Ok(pcals) => pcals,
            Err(e) => {
                return Err((UploadFault::Unreadable, UnifiedError::String(e)));
            },
        };
        let ghost seen = first_seen(goals@);
        let ghost other = not_taught_by(self.users@, tuname@);
        let m = pcals.len();
        let mut others = String::new();
        let mut foreign = false;
        let mut batch: Vec<Goal> = Vec::new();
        let mut k: usize = 0;
        proof {
            assert(seen.take(0) =~= Seq::<Seq<char>>::empty());
            assert(seen.take(0).filter(other) =~= Seq::<Seq<char>>::empty()) by {
                reveal(Seq::filter);
            }
        }
        while k < m
            invariant
                k <= m == pcals@.len() == seen.len(),
                seen == first_seen(goals@),
                other == not_taught_by(self.users@, tuname@),
                paces_from(pcals@, goals@, *self),
                self.wf(),
                *self == *old(self),
                others@ == on_new_lines(seen.take(k as int).filter(other)),
                foreign == (seen.take(k as int).filter(other).len() > 0),
                batch@ == grouped(goals@, seen.take(k as int)),
                foreign || forall|x: int| 0 <= x < batch@.len() ==> !other((#[trigger] batch@[x]).uname@),
            decreases m - k,
        {
            let p = &pcals[k];
            let ghost name = seen[k as int];
            let ghost own = goals@.filter(goal_of(name));
            proof {
                assert(pace_from(pcals@[k as int], seen[k as int], goals@, *self));
                lemma_user_index(self.users@, name);
                assert(seen.take(k + 1) =~= seen.take(k as int).push(name));
                assert(seen.take(k + 1).drop_last() =~= seen.take(k as int));
                seen.take(k as int).lemma_filter_push(name, other);
                assert forall|x: int| 0 <= x < own.len() implies goal_of(name)(#[trigger] own[x]) by {
                    goals@.lemma_filter_pred(goal_of(name), x);
                }
                lemma_sorted_of_keeps(own, goal_of(name));
            }
            if !p.student.teacher.as_str().eq(tuname) {
                let ghost listed = seen.take(k as int).filter(other);
                assert(listed.push(name).drop_last() =~= listed);
                others.append("\n");
                others.append(p.student.base.uname.as_str());
                foreign = true;
            }
            append_goals(&mut batch, &p.goals);
            k += 1;
        }
        assert(seen.take(m as int) =~= seen);
        if foreign {
            let mut msg = String::from_str(
                "The following students with Goals in the Goals file you just submitted are not yours:",
            );
            msg.append(others.as_str());
            return Err((UploadFault::NotYours, UnifiedError::String(msg)));
        }
        let ghost before = self.data.goals@;
        match self.insert_goals(batch.as_slice()) {
            Ok(n) => {
                proof {
                    assert forall|k: int| before.len() <= k < self.data.goals@.len() implies goal_under(
                        old(self).users@,
                        tuname@,
                    )(#[trigger] self.data.goals@[k]) by {
                        let x = k - before.len();
                        assert(self.data.goals@[before.len() + x] == recorded_goal(
                            batch@[x],
                            (old(self).data.next_goal_id + x) as i64,
                        ));
                        assert(!other(batch@[x].uname@));
                    }
                    assert(goals_uploaded(*old(self), *self, tuname@, goals@, n));
                }
                Ok(n)
            },
            Err(e) => Err((UploadFault::Refused, e)),
        }
    }
}

/// The dates that texts stand for, one for one, or the place of the first
/// text that stands for none.
pub open spec fn dates_of(texts: Seq<&str>) -> Result<Seq<Date>, int>
    decreases texts.len(),
{
    if texts.len() == 0 {
        Ok(Seq::empty())
    } else {
        match dates_of(texts.drop_last()) {
            Err(i) => Err(i),
            Ok(v) => match crate::date::iso_date(texts.last()@) {
                Some(d) => Ok(v.push(d)),
                None => Err(texts.len() - 1),
            },
        }
    }
}

proof fn lemma_dates_of_fails(texts: Seq<&str>, k: int)
    requires
        0 <= k <= texts.len(),
        dates_of(texts.take(k)) is Err,
    ensures
        dates_of(texts) == dates_of(texts.take(k)),
    decreases texts.len() - k,
{
    if k == texts.len() {
        assert(texts.take(k) =~= texts);
    } else {
        assert(texts.take(k + 1).drop_last() =~= texts.take(k));
        lemma_dates_of_fails(texts, k + 1);
    }
}

impl Glob {
    /// Makes the days that the texts stand for the calendar, and takes the
    /// calendar anew from the store. Refused where a text is no date; the
    /// refusal names the text.
    pub fn update_calendar(&mut self, date_strs: &[&str]) -> (r: Result<(), UnifiedError>)
        requires
            old(self).wf(),
        ensures
            final(self).wf(),
            final(self).same_settings(old(self)),
            final(self).users == old(self).users,
            final(self).courses == old(self).courses,
            final(self).dates == old(self).dates,
            final(self).auth == old(self).auth,
            final(self).data.same_settings(&old(self).data),
            final(self).data.same_numbers(&old(self).data),
            final(self).data.users == old(self).data.users,
            final(self).data.courses == old(self).data.courses,
            final(self).data.goals == old(self).data.goals,
            final(self).data.dates == old(self).data.dates,
            match r {
                Ok(()) => {
                    &&& dates_of(date_strs@) matches Ok(days)
                    &&& final(self).data.calendar@ == crate::seqs::each_once(
                        dates_of(date_strs@)->Ok_0,
                    )
                    &&& final(self).calendar@ == sorted_of(final(self).data.calendar@)
                },
                Err(e) => {
                    &&& dates_of(date_strs@) matches Err(k) && 0 <= k < date_strs@.len()
                        && e.refusal() == (
                        ErrorKind::String,
                        "Unable to parse "@ + date_strs@[k]@ + " as Date."@,
                    )
                    &&& final(self).data.calendar == old(self).data.calendar
                    &&& final(self).calendar == old(self).calendar
                },
            },
    {
        let n = date_strs.len();
        let mut dates: Vec<Date> = Vec::new();
        let mut i: usize = 0;
        assert(date_strs@.take(0) =~= Seq::<&str>::empty());
        while i < n
            invariant
                i <= n == date_strs@.len(),
                *self == *old(self),
                self.wf(),
                dates_of(date_strs@.take(i as int)) == Ok::<Seq<Date>, int>(dates@),
            decreases n - i,
        {
            proof {
                assert(date_strs@.take(i + 1).drop_last() =~= date_strs@.take(i as int));
                assert(date_strs@.take(i + 1).last() == date_strs@[i as int]);
            }
            match Date::parse(date_strs[i]) {
                Some(d) => {
                    dates.push(d);
                },
                None => {
                    proof {
                        lemma_dates_of_fails(date_strs@, i + 1);
                    }
                    let mut msg = String::from_str("Unable to parse ");
                    msg.append(date_strs[i]);
                    msg.append(" as Date.");
                    return Err(UnifiedError::String(msg));
                },
            }
            i += 1;
        }
        assert(date_strs@.take(n as int) =~= date_strs@);
        self.data.set_calendar(dates.as_slice());
        self.refresh_calendar();
        Ok(())
    }
}

} // verus!
