//! The settings of a deployment and the working set that is held in memory.

use vstd::prelude::*;
use crate::auth::Db;
pub use crate::coordinator::load_configuration;
use crate::course::Course;
use crate::date::Date;
use crate::order::{is_ordered, sorted_of};
use crate::seqs::{first_where, lemma_first_where_is, lemma_first_where_none};
use crate::store::courses::same_course;
use crate::store::Store;
use crate::user::User;

verus! {

/// A date that goes by a name, such as the end of the fall semester.
#[derive(Debug)]
pub struct NamedDate {
    pub name: String,
    pub day: Date,
}

/// The working set: the users, the courses with their chapters, the
/// instructional days and the named dates, as they were last read.
pub struct Glob {
    pub auth: Db,
    pub data: Store,
    pub sendgrid_auth: String,
    pub calendar: Vec<Date>,
    pub dates: Vec<NamedDate>,
    pub courses: Vec<Course>,
    pub users: Vec<User>,
    pub host: String,
    pub port: u16,
    pub goals_per_student: usize,
    pub students_per_teacher: usize,
}

/// The user is named `uname`.
pub open spec fn user_named(uname: Seq<char>) -> spec_fn(User) -> bool {
    |u: User| u.base().uname@ == uname
}

/// The course has the symbol `sym`.
pub open spec fn course_with(sym: Seq<char>) -> spec_fn(Course) -> bool {
    |c: Course| c.sym@ == sym
}

/// The date is named `name`.
pub open spec fn date_named(name: Seq<char>) -> spec_fn(NamedDate) -> bool {
    |d: NamedDate| d.name@ == name
}

/// The place of the user named `uname`.
pub open spec fn user_index(users: Seq<User>, uname: Seq<char>) -> Option<int> {
    first_where(users, user_named(uname))
}

/// The place of the course with the symbol `sym`.
pub open spec fn course_index(courses: Seq<Course>, sym: Seq<char>) -> Option<int> {
    first_where(courses, course_with(sym))
}

/// The place of the date named `name`.
pub open spec fn date_index(dates: Seq<NamedDate>, name: Seq<char>) -> Option<int> {
    first_where(dates, date_named(name))
}

/// `user_index` finds the first user of the name, or there is none.
pub proof fn lemma_user_index(users: Seq<User>, uname: Seq<char>)
    ensures
        match user_index(users, uname) {
            Some(i) => 0 <= i < users.len() && users[i].base().uname@ == uname && forall|k: int|
                0 <= k < i ==> (#[trigger] users[k]).base().uname@ != uname,
            None => forall|k: int|
                0 <= k < users.len() ==> (#[trigger] users[k]).base().uname@ != uname,
        },
{
    let p = user_named(uname);
    crate::seqs::lemma_first_where(users, p);
    match first_where(users, p) {
        Some(i) => {
            assert(p(users[i]));
            assert forall|k: int| 0 <= k < i implies (#[trigger] users[k]).base().uname@
                != uname by {
                assert(!p(users[k]));
            }
        },
        None => {
            assert forall|k: int| 0 <= k < users.len() implies (#[trigger] users[k]).base().uname@
                != uname by {
                assert(!p(users[k]));
            }
        },
    }
}

/// `course_index` finds the first course of the symbol, or there is none.
pub proof fn lemma_course_index(courses: Seq<Course>, sym: Seq<char>)
    ensures
        match course_index(courses, sym) {
            Some(i) => 0 <= i < courses.len() && courses[i].sym@ == sym && forall|k: int|
                0 <= k < i ==> (#[trigger] courses[k]).sym@ != sym,
            None => forall|k: int| 0 <= k < courses.len() ==> (#[trigger] courses[k]).sym@ != sym,
        },
{
    let p = course_with(sym);
    crate::seqs::lemma_first_where(courses, p);
    match first_where(courses, p) {
        Some(i) => {
            assert(p(courses[i]));
            assert forall|k: int| 0 <= k < i implies (#[trigger] courses[k]).sym@ != sym by {
                assert(!p(courses[k]));
            }
        },
        None => {
            assert forall|k: int| 0 <= k < courses.len() implies (#[trigger] courses[k]).sym@
                != sym by {
                assert(!p(courses[k]));
            }
        },
    }
}

/// No two users share a name.
pub open spec fn distinct_unames(users: Seq<User>) -> bool {
    forall|i: int, j: int|
        0 <= i < j < users.len() ==> (#[trigger] users[i]).base().uname@ != (
        #[trigger] users[j]).base().uname@
}

/// No two courses share a symbol.
pub open spec fn distinct_syms(courses: Seq<Course>) -> bool {
    forall|i: int, j: int|
        0 <= i < j < courses.len() ==> (#[trigger] courses[i]).sym@ != (#[trigger] courses[j]).sym@
}

/// No two dates share a name.
pub open spec fn distinct_names(dates: Seq<NamedDate>) -> bool {
    forall|i: int, j: int|
        0 <= i < j < dates.len() ==> (#[trigger] dates[i]).name@ != (#[trigger] dates[j]).name@
}

/// The user named `uname`, if the list has one.
pub fn find_user<'a>(users: &'a Vec<User>, uname: &str) -> (r: Option<&'a User>)
    ensures
        match user_index(users@, uname@) {
            Some(i) => 0 <= i < users@.len() && r == Some(&users@[i]) && users@[i].base().uname@
                == uname@,
            None => r is None,
        },
{
    let ghost p = user_named(uname@);
    let n = users.len();
    let mut i: usize = 0;
    while i < n
        invariant
            i <= n == users@.len(),
            p == user_named(uname@),
            forall|k: int| 0 <= k < i ==> !p(#[trigger] users@[k]),
        decreases n - i,
    {
        if users[i].uname().eq(uname) {
            proof {
                lemma_first_where_is(users@, p, i as int);
            }
            return Some(&users[i]);
        }
        i += 1;
    }
    proof {
        lemma_first_where_none(users@, p);
    }
    None
}

/// The course with the symbol `sym`, if the list has one.
pub fn find_course<'a>(courses: &'a Vec<Course>, sym: &str) -> (r: Option<&'a Course>)
    ensures
        match course_index(courses@, sym@) {
            Some(i) => 0 <= i < courses@.len() && r == Some(&courses@[i]) && courses@[i].sym@ == sym@,
            None => r is None,
        },
{
    let ghost p = course_with(sym@);
    let n = courses.len();
    let mut i: usize = 0;
    while i < n
        invariant
            i <= n == courses@.len(),
            p == course_with(sym@),
            forall|k: int| 0 <= k < i ==> !p(#[trigger] courses@[k]),
        decreases n - i,
    {
        if courses[i].sym.as_str().eq(sym) {
            proof {
                lemma_first_where_is(courses@, p, i as int);
            }
            return Some(&courses[i]);
        }
        i += 1;
    }
    proof {
        lemma_first_where_none(courses@, p);
    }
    None
}

impl Glob {
    /// The two stores are in good order, and so is what is held of them.
    pub open spec fn wf(&self) -> bool {
        &&& self.auth.wf()
        &&& self.data.wf()
        &&& self.cache_wf()
    }

    /// The settings are those of `other`.
    pub open spec fn same_settings(&self, other: &Glob) -> bool {
        &&& self.sendgrid_auth == other.sendgrid_auth
        &&& self.host == other.host
        &&& self.port == other.port
        &&& self.goals_per_student == other.goals_per_student
        &&& self.students_per_teacher == other.students_per_teacher
    }

    /// What the working set promises: every user and course is well formed, no
    /// name, symbol or date name occurs twice, and the calendar is in order.
    pub open spec fn cache_wf(&self) -> bool {
        &&& distinct_unames(self.users@)
        &&& forall|i: int| 0 <= i < self.users@.len() ==> (#[trigger] self.users@[i]).wf()
        &&& distinct_syms(self.courses@)
        &&& forall|i: int| 0 <= i < self.courses@.len() ==> (#[trigger] self.courses@[i]).wf()
        &&& distinct_names(self.dates@)
        &&& is_ordered(self.calendar@)
    }

    /// The user named `uname`.
    pub fn user(&self, uname: &str) -> (r: Option<&User>)
        ensures
            match user_index(self.users@, uname@) {
                Some(i) => 0 <= i < self.users@.len() && r == Some(&self.users@[i])
                    && self.users@[i].base().uname@ == uname@,
                None => r is None,
            },
    {
        find_user(&self.users, uname)
    }

    /// The course with the symbol `sym`.
    pub fn course_by_sym(&self, sym: &str) -> (r: Option<&Course>)
        ensures
            match course_index(self.courses@, sym@) {
                Some(i) => 0 <= i < self.courses@.len() && r == Some(&self.courses@[i])
                    && self.courses@[i].sym@ == sym@,
                None => r is None,
            },
    {
        find_course(&self.courses, sym)
    }

    /// The date that goes by `name`.
    pub fn date(&self, name: &str) -> (r: Option<Date>)
        ensures
            match date_index(self.dates@, name@) {
                Some(i) => 0 <= i < self.dates@.len() && r == Some(self.dates@[i].day),
                None => r is None,
            },
    {
        let ghost p = date_named(name@);
        let n = self.dates.len();
        let mut i: usize = 0;
        while i < n
            invariant
                i <= n == self.dates@.len(),
                p == date_named(name@),
                forall|k: int| 0 <= k < i ==> !p(#[trigger] self.dates@[k]),
            decreases n - i,
        {
            if self.dates[i].name.as_str().eq(name) {
                proof {
                    lemma_first_where_is(self.dates@, p, i as int);
                }
                return Some(self.dates[i].day);
            }
            i += 1;
        }
        proof {
            lemma_first_where_none(self.dates@, p);
        }
        None
    }
}

/// The settings of a deployment.
#[derive(Debug)]
pub struct Cfg {
    pub auth_db_connect_string: String,
    pub data_db_connect_string: String,
    pub default_admin_uname: String,
    pub default_admin_password: String,
    pub default_admin_email: String,
    pub sendgrid_auth_string: String,
    pub host: String,
    pub port: u16,
    pub templates_dir: String,
    pub students_per_teacher: usize,
    pub goals_per_student: usize,
}

/// The settings as they are written down: whatever is left out keeps its default.
#[derive(Debug)]
pub struct ConfigFile {
    pub auth_db_connect_string: Option<String>,
    pub data_db_connect_string: Option<String>,
    pub admin_uname: Option<String>,
    pub admin_password: Option<String>,
    pub admin_email: Option<String>,
    pub sendgrid_auth_string: String,
    pub host: Option<String>,
    pub port: Option<u16>,
    pub templates_dir: Option<String>,
    pub students_per_teacher: Option<usize>,
    pub goals_per_student: Option<usize>,
}

/// `given` if it is there, `default` if not.
pub open spec fn or_default<T>(given: Option<T>, default: T) -> T {
    match given {
        Some(x) => x,
        None => default,
    }
}

/// Where the authentication store is found unless the settings say otherwise.
pub open spec fn default_auth_connect() -> Seq<char> {
    "host=localhost user=camp_test password='camp_test' dbname=camp_auth_test"@
}

/// Where the domain store is found unless the settings say otherwise.
pub open spec fn default_data_connect() -> Seq<char> {
    "host=localhost user=camp_test password='camp_test' dbname=camp_store_test"@
}

impl Default for Cfg {
    fn default() -> (r: Self)
        ensures
            r.auth_db_connect_string@ == default_auth_connect(),
            r.data_db_connect_string@ == default_data_connect(),
            r.default_admin_uname@ == "root"@,
            r.default_admin_password@ == "toot"@,
            r.default_admin_email@ == "admin@camp.not.an.address"@,
            r.sendgrid_auth_string@ == ""@,
            r.host@ == "0.0.0.0"@,
            r.port == 8001,
            r.templates_dir@ == "templates/"@,
            r.students_per_teacher == 60,
            r.goals_per_student == 16,
    {
        Cfg {
            auth_db_connect_string: String::from_str(
                "host=localhost user=camp_test password='camp_test' dbname=camp_auth_test",
            ),
            data_db_connect_string: String::from_str(
                "host=localhost user=camp_test password='camp_test' dbname=camp_store_test",
            ),
            default_admin_uname: String::from_str("root"),
            default_admin_password: String::from_str("toot"),
            default_admin_email: String::from_str("admin@camp.not.an.address"),
            sendgrid_auth_string: String::from_str(""),
            host: String::from_str("0.0.0.0"),
            port: 8001,
            templates_dir: String::from_str("templates/"),
            students_per_teacher: 60,
            goals_per_student: 16,
        }
    }
}

impl Cfg {
    /// The settings that a written configuration stands for: each setting as
    /// written, and the default where it is left out. The two limits are not
    /// read from the file.
    pub fn from_config_file(cf: ConfigFile) -> (r: Self)
        ensures
            r.sendgrid_auth_string == cf.sendgrid_auth_string,
            cf.auth_db_connect_string matches Some(s) ==> r.auth_db_connect_string == s,
            cf.auth_db_connect_string is None ==> r.auth_db_connect_string@ == default_auth_connect(),
            cf.data_db_connect_string matches Some(s) ==> r.data_db_connect_string == s,
            cf.data_db_connect_string is None ==> r.data_db_connect_string@ == default_data_connect(),
            cf.admin_uname matches Some(s) ==> r.default_admin_uname == s,
            cf.admin_uname is None ==> r.default_admin_uname@ == "root"@,
            cf.admin_password matches Some(s) ==> r.default_admin_password == s,
            cf.admin_password is None ==> r.default_admin_password@ == "toot"@,
            cf.admin_email matches Some(s) ==> r.default_admin_email == s,
            cf.admin_email is None ==> r.default_admin_email@ == "admin@camp.not.an.address"@,
            cf.host matches Some(s) ==> r.host == s,
            cf.host is None ==> r.host@ == "0.0.0.0"@,
            r.port == or_default(cf.port, 8001),
            cf.templates_dir matches Some(s) ==> r.templates_dir == s,
            cf.templates_dir is None ==> r.templates_dir@ == "templates/"@,
            r.students_per_teacher == 60,
            r.goals_per_student == 16,
    {
        let mut c = Cfg::default();
        c.sendgrid_auth_string = cf.sendgrid_auth_string;
        if let Some(s) = cf.auth_db_connect_string {
            c.auth_db_connect_string = s;
        }
        if let Some(s) = cf.data_db_connect_string {
            c.data_db_connect_string = s;
        }
        if let Some(s) = cf.admin_uname {
            c.default_admin_uname = s;
        }
        if let Some(s) = cf.admin_password {
            c.default_admin_password = s;
        }
        if let Some(s) = cf.admin_email {
            c.default_admin_email = s;
        }
        if let Some(s) = cf.host {
            c.host = s;
        }
        if let Some(n) = cf.port {
            c.port = n;
        }
        if let Some(s) = cf.templates_dir {
            c.templates_dir = s;
        }
        c
    }
}

/// What is held of the store's users is what the store holds.
pub open spec fn users_current(g: &Glob) -> bool {
    g.users@ == g.data.users@
}

/// What is held of the store's courses is what the store holds.
pub open spec fn courses_current(g: &Glob) -> bool {
    &&& g.courses@.len() == g.data.courses@.len()
    &&& forall|i: int|
        0 <= i < g.courses@.len() ==> same_course(#[trigger] g.courses@[i], g.data.courses@[i])
}

impl Glob {
    pub fn auth(&self) -> (r: &Db)
        ensures
            *r == self.auth,
    {
        &self.auth
    }

    pub fn data(&self) -> (r: &Store)
        ensures
            *r == self.data,
    {
        &self.data
    }

    /// Takes the users anew from the store.
    pub fn refresh_users(&mut self)
        requires
            old(self).wf(),
        ensures
            final(self).wf(),
            users_current(final(self)),
            final(self).same_settings(old(self)),
            final(self).auth == old(self).auth,
            final(self).data == old(self).data,
            final(self).courses == old(self).courses,
            final(self).calendar == old(self).calendar,
            final(self).dates == old(self).dates,
    {
        self.users = self.data.get_users();
    }

    /// Takes the courses anew from the store.
    pub fn refresh_courses(&mut self)
        requires
            old(self).wf(),
        ensures
            final(self).wf(),
            courses_current(final(self)),
            final(self).same_settings(old(self)),
            final(self).auth == old(self).auth,
            final(self).data == old(self).data,
            final(self).users == old(self).users,
            final(self).calendar == old(self).calendar,
            final(self).dates == old(self).dates,
    {
        self.courses = self.data.get_courses();
        proof {
            let held = self.courses@;
            let stored = self.data.courses@;
            assert forall|i: int, j: int| 0 <= i < j < held.len() implies (#[trigger] held[i]).sym@ != (
            #[trigger] held[j]).sym@ by {
                assert(same_course(held[i], stored[i]) && same_course(held[j], stored[j]));
            }
            assert forall|i: int| 0 <= i < held.len() implies (#[trigger] held[i]).wf() by {
                assert(same_course(held[i], stored[i]));
                assert(stored[i].wf());
            }
        }
    }

    /// Takes the calendar anew from the store, earliest day first.
    pub fn refresh_calendar(&mut self)
        requires
            old(self).wf(),
        ensures
            final(self).wf(),
            final(self).calendar@ == sorted_of(final(self).data.calendar@),
            final(self).same_settings(old(self)),
            final(self).auth == old(self).auth,
            final(self).data == old(self).data,
            final(self).users == old(self).users,
            final(self).courses == old(self).courses,
            final(self).dates == old(self).dates,
    {
        self.calendar = self.data.get_calendar();
    }

    /// Takes the named dates anew from the store.
    pub fn refresh_dates(&mut self)
        requires
            old(self).wf(),
        ensures
            final(self).wf(),
            final(self).dates@ == final(self).data.dates@,
            final(self).same_settings(old(self)),
            final(self).auth == old(self).auth,
            final(self).data == old(self).data,
            final(self).users == old(self).users,
            final(self).courses == old(self).courses,
            final(self).calendar == old(self).calendar,
    {
        self.dates = self.data.get_dates();
    }
}

/// The user is a student of the teacher named `tuname`.
pub open spec fn student_under(tuname: Seq<char>) -> spec_fn(User) -> bool {
    |u: User| u matches User::Student(s) && s.teacher@ == tuname
}

impl Glob {
    /// The students of the teacher named `teacher_uname`, in the order in
    /// which the working set holds them.
    pub fn get_students_by_teacher(&self, teacher_uname: &str) -> (r: Vec<&User>)
        ensures
            r@.len() == self.users@.filter(student_under(teacher_uname@)).len(),
            forall|i: int|
                0 <= i < r@.len() ==> *(#[trigger] r@[i]) == self.users@.filter(
                    student_under(teacher_uname@),
                )[i],
    {
        let ghost p = student_under(teacher_uname@);
        let n = self.users.len();
        let mut stud_refs: Vec<&User> = Vec::new();
        let mut i: usize = 0;
        assert(self.users@.take(0).filter(p) =~= Seq::<User>::empty()) by {
            reveal(Seq::filter);
        }
        while i < n
            invariant
                i <= n == self.users@.len(),
                p == student_under(teacher_uname@),
                stud_refs@.len() == self.users@.take(i as int).filter(p).len(),
                forall|k: int|
                    0 <= k < stud_refs@.len() ==> *(#[trigger] stud_refs@[k]) == self.users@.take(
                        i as int,
                    ).filter(p)[k],
            decreases n - i,
        {
            let ghost before = self.users@.take(i as int).filter(p);
            let ghost held = stud_refs@;
            proof {
                assert(self.users@.take(i + 1) =~= self.users@.take(i as int).push(
                    self.users@[i as int],
                ));
                self.users@.take(i as int).lemma_filter_push(self.users@[i as int], p);
            }
            if let User::Student(s) = &self.users[i] {
                if s.teacher.as_str().eq(teacher_uname) {
                    stud_refs.push(&self.users[i]);
                    proof {
                        let now = self.users@.take(i + 1).filter(p);
                        assert forall|k: int| 0 <= k < stud_refs@.len() implies *(
                        #[trigger] stud_refs@[k]) == now[k] by {
                            if k < held.len() {
                                assert(stud_refs@[k] == held[k]);
                            }
                        }
                    }
                }
            }
            i += 1;
        }
        assert(self.users@.take(n as int) =~= self.users@);
        stud_refs
    }
}

/// Once the users are taken anew, whoever is looked up is found as the store
/// has them, and whoever the store does not have is not found.
pub proof fn lemma_cache_coherent(g: &Glob, uname: Seq<char>)
    requires
        users_current(g),
    ensures
        user_index(g.users@, uname) == user_index(g.data.users@, uname),
        user_index(g.users@, uname) matches Some(i) ==> g.users@[i] == g.data.users@[i],
{
}

/// Once the courses are taken anew, a course that is looked up by its symbol
/// is found as the store has it, chapters and weight included.
pub proof fn lemma_courses_coherent(g: &Glob, sym: Seq<char>)
    requires
        courses_current(g),
    ensures
        match course_index(g.data.courses@, sym) {
            Some(i) => course_index(g.courses@, sym) == Some(i) && same_course(
                g.courses@[i],
                g.data.courses@[i],
            ),
            None => course_index(g.courses@, sym) is None,
        },
{
    lemma_course_index(g.courses@, sym);
    lemma_course_index(g.data.courses@, sym);
    match course_index(g.data.courses@, sym) {
        Some(i) => {
            assert(same_course(g.courses@[i], g.data.courses@[i]));
            match course_index(g.courses@, sym) {
                Some(j) => {
                    assert(same_course(g.courses@[j], g.data.courses@[j]));
                },
                None => {},
            }
        },
        None => {
            match course_index(g.courses@, sym) {
                Some(j) => {
                    assert(same_course(g.courses@[j], g.data.courses@[j]));
                },
                None => {},
            }
        },
    }
}

} // verus!
