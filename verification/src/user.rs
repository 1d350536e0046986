//! Users and their roles.

use vstd::prelude::*;
use crate::course::UNIT;
use crate::records::{csv_table, locate, located, read_csv, Record, RecordView, Table, TableView};
use crate::order::Ranked;
use crate::text::{
    decimal, decimal_string, is_text_before, lemma_text_before_irreflexive,
    lemma_text_before_transitive, opt_view, text_before,
};

verus! {

/// The four kinds of user.
#[derive(Clone, Copy, Debug, PartialEq, Eq, Structural)]
pub enum Role {
    Admin,
    Boss,
    Teacher,
    Student,
}

impl Role {
    /// The name under which a role is stored.
    pub open spec fn name(self) -> Seq<char> {
        match self {
            Role::Admin => "Admin"@,
            Role::Boss => "Boss"@,
            Role::Teacher => "Teacher"@,
            Role::Student => "Student"@,
        }
    }

    /// The role that a stored name stands for.
    pub open spec fn named(s: Seq<char>) -> Option<Role> {
        if s == "Admin"@ {
            Some(Role::Admin)
        } else if s == "Boss"@ {
            Some(Role::Boss)
        } else if s == "Teacher"@ {
            Some(Role::Teacher)
        } else if s == "Student"@ {
            Some(Role::Student)
        } else {
            None
        }
    }

    pub fn to_string(&self) -> (r: String)
        ensures
            r@ == self.name(),
    {
        match self {
            Role::Admin => String::from_str("Admin"),
            Role::Boss => String::from_str("Boss"),
            Role::Teacher => String::from_str("Teacher"),
            Role::Student => String::from_str("Student"),
        }
    }

    /// Reads a role from its stored name; any other text is handed back.
    pub fn from_str(s: &str) -> (r: Result<Role, String>)
        ensures
            match r {
                Ok(role) => Role::named(s@) == Some(role),
                Err(e) => Role::named(s@) is None && e@ == s@,
            },
    {
        if s.eq("Admin") {
            Ok(Role::Admin)
        } else if s.eq("Boss") {
            Ok(Role::Boss)
        } else if s.eq("Teacher") {
            Ok(Role::Teacher)
        } else if s.eq("Student") {
            Ok(Role::Student)
        } else {
            Err(String::from_str(s))
        }
    }
}

/// Reading a role's name gives the role back.
pub proof fn lemma_role_name_round_trip(role: Role)
    ensures
        Role::named(role.name()) == Some(role),
{
    reveal_strlit("Admin");
    reveal_strlit("Boss");
    reveal_strlit("Teacher");
    reveal_strlit("Student");
    assert("Admin"@.len() == 5);
    assert("Boss"@.len() == 4);
    assert("Teacher"@.len() == 7);
    assert("Student"@[0] == 'S');
    assert("Teacher"@[0] == 'T');
}

/// What every user has.
#[derive(Debug)]
pub struct BaseUser {
    pub uname: String,
    pub role: Role,
    pub salt: String,
    pub email: String,
}

pub struct BaseUserView {
    pub uname: Seq<char>,
    pub role: Role,
    pub salt: Seq<char>,
    pub email: Seq<char>,
}

impl View for BaseUser {
    type V = BaseUserView;

    open spec fn view(&self) -> BaseUserView {
        BaseUserView { uname: self.uname@, role: self.role, salt: self.salt@, email: self.email@ }
    }
}

impl Clone for BaseUser {
    fn clone(&self) -> (r: Self)
        ensures
            r == *self,
    {
        BaseUser {
            uname: self.uname.clone(),
            role: self.role,
            salt: self.salt.clone(),
            email: self.email.clone(),
        }
    }
}

#[derive(Debug)]
pub struct Teacher {
    pub base: BaseUser,
    pub name: String,
}

pub struct TeacherView {
    pub base: BaseUserView,
    pub name: Seq<char>,
}

impl View for Teacher {
    type V = TeacherView;

    open spec fn view(&self) -> TeacherView {
        TeacherView { base: self.base@, name: self.name@ }
    }
}

impl Clone for Teacher {
    fn clone(&self) -> (r: Self)
        ensures
            r == *self,
    {
        Teacher { base: self.base.clone(), name: self.name.clone() }
    }
}

#[derive(Debug)]
pub struct Student {
    pub base: BaseUser,
    /// Last name of the student.
    pub last: String,
    /// The rest of the student's name.
    pub rest: String,
    /// `uname` of the student's teacher.
    pub teacher: String,
    /// Parent email address.
    pub parent: String,
    pub fall_exam: Option<String>,
    pub spring_exam: Option<String>,
    /// The exam's share of the semester grade, in millionths.
    pub fall_exam_fraction: u32,
    pub spring_exam_fraction: u32,
    pub fall_notices: i16,
    pub spring_notices: i16,
}

pub struct StudentView {
    pub base: BaseUserView,
    pub last: Seq<char>,
    pub rest: Seq<char>,
    pub teacher: Seq<char>,
    pub parent: Seq<char>,
    pub fall_exam: Option<Seq<char>>,
    pub spring_exam: Option<Seq<char>>,
    pub fall_exam_fraction: u32,
    pub spring_exam_fraction: u32,
    pub fall_notices: i16,
    pub spring_notices: i16,
}

impl View for Student {
    type V = StudentView;

    open spec fn view(&self) -> StudentView {
        StudentView {
            base: self.base@,
            last: self.last@,
            rest: self.rest@,
            teacher: self.teacher@,
            parent: self.parent@,
            fall_exam: opt_view(self.fall_exam),
            spring_exam: opt_view(self.spring_exam),
            fall_exam_fraction: self.fall_exam_fraction,
            spring_exam_fraction: self.spring_exam_fraction,
            fall_notices: self.fall_notices,
            spring_notices: self.spring_notices,
        }
    }
}

impl Clone for Student {
    fn clone(&self) -> (r: Self)
        ensures
            r == *self,
    {
        Student {
            base: self.base.clone(),
            last: self.last.clone(),
            rest: self.rest.clone(),
            teacher: self.teacher.clone(),
            parent: self.parent.clone(),
            fall_exam: self.fall_exam.clone(),
            spring_exam: self.spring_exam.clone(),
            fall_exam_fraction: self.fall_exam_fraction,
            spring_exam_fraction: self.spring_exam_fraction,
            fall_notices: self.fall_notices,
            spring_notices: self.spring_notices,
        }
    }
}

/// The exam's share of a semester grade for a student who has none set: a fifth.
pub const DEFAULT_EXAM_FRACTION: u32 = 200_000;

impl Student {
    /// The exam shares lie between nothing and the whole, and no notices are owed.
    pub open spec fn wf(&self) -> bool {
        &&& self.base.role == Role::Student
        &&& self.fall_exam_fraction <= UNIT
        &&& self.spring_exam_fraction <= UNIT
        &&& self.fall_notices >= 0
        &&& self.spring_notices >= 0
    }
}

#[derive(Debug)]
pub enum User {
    Admin(BaseUser),
    Boss(BaseUser),
    Teacher(Teacher),
    Student(Student),
}

pub enum UserView {
    Admin(BaseUserView),
    Boss(BaseUserView),
    Teacher(TeacherView),
    Student(StudentView),
}

impl View for User {
    type V = UserView;

    open spec fn view(&self) -> UserView {
        match self {
            User::Admin(b) => UserView::Admin(b@),
            User::Boss(b) => UserView::Boss(b@),
            User::Teacher(t) => UserView::Teacher(t@),
            User::Student(s) => UserView::Student(s@),
        }
    }
}

impl Clone for User {
    fn clone(&self) -> (r: Self)
        ensures
            r == *self,
    {
        match self {
            User::Admin(b) => User::Admin(b.clone()),
            User::Boss(b) => User::Boss(b.clone()),
            User::Teacher(t) => User::Teacher(t.clone()),
            User::Student(s) => User::Student(s.clone()),
        }
    }
}

impl BaseUser {
    pub fn into_admin(self) -> (r: User)
        ensures
            r == User::Admin(self),
    {
        User::Admin(self)
    }

    pub fn into_boss(self) -> (r: User)
        ensures
            r == User::Boss(self),
    {
        User::Boss(self)
    }

    pub fn into_teacher(self, name: String) -> (r: User)
        ensures
            r == User::Teacher(Teacher { base: self, name }),
    {
        User::Teacher(Teacher { base: self, name })
    }

    pub fn into_student(
        self,
        last: String,
        rest: String,
        teacher: String,
        parent: String,
        fall_exam: Option<String>,
        spring_exam: Option<String>,
        fall_exam_fraction: u32,
        spring_exam_fraction: u32,
        fall_notices: i16,
        spring_notices: i16,
    ) -> (r: User)
        ensures
            r == User::Student(
                Student {
                    base: self,
                    last,
                    rest,
                    teacher,
                    parent,
                    fall_exam,
                    spring_exam,
                    fall_exam_fraction,
                    spring_exam_fraction,
                    fall_notices,
                    spring_notices,
                },
            ),
    {
        let s = Student {
            base: self,
            last,
            rest,
            teacher,
            parent,
            fall_exam,
            spring_exam,
            fall_exam_fraction,
            spring_exam_fraction,
            fall_notices,
            spring_notices,
        };
        User::Student(s)
    }
}

impl User {
    /// Whether the user is well formed.
    pub fn is_wf(&self) -> (r: bool)
        ensures
            r == self.wf(),
    {
        match self {
            User::Admin(b) => matches!(b.role, Role::Admin),
            User::Boss(b) => matches!(b.role, Role::Boss),
            User::Teacher(t) => matches!(t.base.role, Role::Teacher),
            User::Student(s) => matches!(s.base.role, Role::Student) && s.fall_exam_fraction <= UNIT
                && s.spring_exam_fraction <= UNIT && s.fall_notices >= 0 && s.spring_notices >= 0,
        }
    }

    /// What the user has in common with every other user.
    pub open spec fn base(&self) -> BaseUser {
        match self {
            User::Admin(b) => *b,
            User::Boss(b) => *b,
            User::Teacher(t) => t.base,
            User::Student(s) => s.base,
        }
    }

    /// The role that the variant stands for.
    pub open spec fn spec_role(&self) -> Role {
        match self {
            User::Admin(_) => Role::Admin,
            User::Boss(_) => Role::Boss,
            User::Teacher(_) => Role::Teacher,
            User::Student(_) => Role::Student,
        }
    }

    /// The role recorded in the user's base is that of the variant.
    pub open spec fn wf(&self) -> bool {
        &&& self.base().role == self.spec_role()
        &&& self matches User::Student(s) ==> s.wf()
    }

    pub fn uname(&self) -> (r: &str)
        ensures
            r@ == self.base().uname@,
    {
        match self {
            User::Admin(base) => base.uname.as_str(),
            User::Boss(base) => base.uname.as_str(),
            User::Teacher(t) => t.base.uname.as_str(),
            User::Student(s) => s.base.uname.as_str(),
        }
    }

    pub fn salt(&self) -> (r: &str)
        ensures
            r@ == self.base().salt@,
    {
        match self {
            User::Admin(base) => base.salt.as_str(),
            User::Boss(base) => base.salt.as_str(),
            User::Teacher(t) => t.base.salt.as_str(),
            User::Student(s) => s.base.salt.as_str(),
        }
    }

    pub fn email(&self) -> (r: &str)
        ensures
            r@ == self.base().email@,
    {
        match self {
            User::Admin(base) => base.email.as_str(),
            User::Boss(base) => base.email.as_str(),
            User::Teacher(t) => t.base.email.as_str(),
            User::Student(s) => s.base.email.as_str(),
        }
    }

    pub fn role(&self) -> (r: Role)
        ensures
            r == self.spec_role(),
    {
        match self {
            User::Admin(_) => Role::Admin,
            User::Boss(_) => Role::Boss,
            User::Teacher(_) => Role::Teacher,
            User::Student(_) => Role::Student,
        }
    }
}

/// What is wrong with a record of fewer than six fields, by the first field
/// that is looked for and missing.
pub open spec fn missing_field(n: nat) -> Seq<char> {
    if n == 0 {
        "no uname"@
    } else if n <= 3 {
        "no email address"@
    } else {
        "no teacher uname"@
    }
}

/// The student that a record of fields stands for: user name, last name, rest
/// of the name, email, parent's email and teacher's user name, in this order.
/// The student has no salt and no exams yet.
pub open spec fn student_of_fields(fields: Seq<Seq<char>>) -> Result<StudentView, Seq<char>> {
    if fields.len() < 6 {
        Err(missing_field(fields.len()))
    } else {
        Ok(
            StudentView {
                base: BaseUserView {
                    uname: fields[0],
                    role: Role::Student,
                    salt: Seq::empty(),
                    email: fields[3],
                },
                last: fields[1],
                rest: fields[2],
                teacher: fields[5],
                parent: fields[4],
                fall_exam: None,
                spring_exam: None,
                fall_exam_fraction: DEFAULT_EXAM_FRACTION,
                spring_exam_fraction: DEFAULT_EXAM_FRACTION,
                fall_notices: 0,
                spring_notices: 0,
            },
        )
    }
}

/// The students that records stand for, or the report of the first record
/// that stands for none.
pub open spec fn students_of_rows(rows: Seq<RecordView>) -> Result<Seq<StudentView>, Seq<char>>
    decreases rows.len(),
{
    if rows.len() == 0 {
        Ok(Seq::empty())
    } else {
        match students_of_rows(rows.drop_last()) {
            Err(e) => Err(e),
            Ok(v) => match student_of_fields(rows.last().fields) {
                Ok(s) => Ok(v.push(s)),
                Err(m) => Err(located(rows.last().line, (rows.len() - 1) as nat, m)),
            },
        }
    }
}

/// The students that a table stands for: those of its records, unless
/// reading stopped early, which is then reported.
pub open spec fn students_of(table: TableView) -> Result<Seq<StudentView>, Seq<char>> {
    match students_of_rows(table.rows) {
        Err(e) => Err(e),
        Ok(v) => match table.fault {
            Some(f) => Err(located(f.line, table.rows.len(), f.message)),
            None => Ok(v),
        },
    }
}

/// Once the first `k` records fail, all of them do, with the same report.
pub proof fn lemma_students_of_rows_fails(rows: Seq<RecordView>, k: int)
    requires
        0 <= k <= rows.len(),
        students_of_rows(rows.take(k)) is Err,
    ensures
        students_of_rows(rows) == students_of_rows(rows.take(k)),
    decreases rows.len() - k,
{
    if k == rows.len() {
        assert(rows.take(k) =~= rows);
    } else {
        assert(rows.take(k + 1).drop_last() =~= rows.take(k));
        lemma_students_of_rows_fails(rows, k + 1);
    }
}

/// The views of the students of a list.
pub open spec fn student_views(v: Seq<Student>) -> Seq<StudentView> {
    v.map_values(|s: Student| s@)
}

impl Student {
    /// Reads a student from a record of six fields: user name, last name,
    /// rest of the name, email, parent's email, teacher's user name.
    pub fn from_csv_line(row: &Record) -> (r: Result<Student, &'static str>)
        ensures
            match r {
                Ok(s) => student_of_fields(row@.fields) == Ok::<StudentView, Seq<char>>(s@) && s.wf(),
                Err(e) => student_of_fields(row@.fields) == Err::<StudentView, Seq<char>>(e@),
            },
    {
        let uname = match row.get(0) {
            Some(s) => String::from_str(s),
            None => {
                return Err("no uname");
            },
        };
        let email = match row.get(3) {
            Some(s) => String::from_str(s),
            None => {
                return Err("no email address");
            },
        };
        let base = BaseUser { uname, role: Role::Student, salt: String::new(), email };
        let last = match row.get(1) {
            Some(s) => String::from_str(s),
            None => {
                return Err("no last name");
            },
        };
        let rest = match row.get(2) {
            Some(s) => String::from_str(s),
            None => {
                return Err("no rest of name");
            },
        };
        let teacher = match row.get(5) {
            Some(s) => String::from_str(s),
            None => {
                return Err("no teacher uname");
            },
        };
        let parent = match row.get(4) {
            Some(s) => String::from_str(s),
            None => {
                return Err("no parent email");
            },
        };
        let stud = Student {
            base,
            last,
            rest,
            teacher,
            parent,
            fall_exam: None,
            spring_exam: None,
            fall_exam_fraction: DEFAULT_EXAM_FRACTION,
            spring_exam_fraction: DEFAULT_EXAM_FRACTION,
            fall_notices: 0,
            spring_notices: 0,
        };
        Ok(stud)
    }

    /// Reads a student from each record of a table. The first record that
    /// stands for no student is reported, and so is a table that was not
    /// read to its end.
    pub fn vec_from_rows(table: &Table) -> (r: Result<Vec<Student>, String>)
        ensures
            match r {
                Ok(v) => students_of(table@) == Ok::<Seq<StudentView>, Seq<char>>(student_views(v@))
                    && forall|i: int| 0 <= i < v@.len() ==> (#[trigger] v@[i]).wf(),
                Err(e) => students_of(table@) == Err::<Seq<StudentView>, Seq<char>>(e@),
            },
    {
        let n = table.rows.len();
        let ghost rows = table@.rows;
        let mut students: Vec<Student> = Vec::new();
        let mut i: usize = 0;
        assert(rows.take(0) =~= Seq::<RecordView>::empty());
        assert(student_views(students@) =~= Seq::<StudentView>::empty());
        while i < n
            invariant
                i <= n == table.rows@.len() == rows.len(),
                rows == table@.rows,
                students_of_rows(rows.take(i as int)) == Ok::<Seq<StudentView>, Seq<char>>(
                    student_views(students@),
                ),
                forall|k: int| 0 <= k < students@.len() ==> (#[trigger] students@[k]).wf(),
            decreases n - i,
        {
            proof {
                assert(rows.take(i + 1).drop_last() =~= rows.take(i as int));
                assert(rows.take(i + 1).last() == rows[i as int]);
                assert(rows[i as int] == table.rows@[i as int]@);
            }
            match Student::from_csv_line(&table.rows[i]) {
                Ok(stud) => {
                    let ghost before = students@;
                    students.push(stud);
                    assert(student_views(students@) =~= student_views(before).push(stud@));
                },
                Err(e) => {
                    proof {
                        lemma_students_of_rows_fails(rows, i + 1);
                    }
                    return Err(locate(table.rows[i].line, i, e));
                },
            }
            i += 1;
        }
        assert(rows.take(n as int) =~= rows);
        match &table.fault {
            Some(f) => Err(locate(f.line, n, f.message.as_str())),
            None => Ok(students),
        }
    }

    /// Reads students from comma-separated text without a header: each record
    /// has six fields, and lines that begin with `#` are comments.
    pub fn vec_from_csv_reader(text: &str) -> (r: Result<Vec<Student>, String>)
        ensures
            match r {
                Ok(v) => students_of(csv_table(text@, false, false)) == Ok::<
                    Seq<StudentView>,
                    Seq<char>,
                >(student_views(v@)) && forall|i: int| 0 <= i < v@.len() ==> (#[trigger] v@[i]).wf(),
                Err(e) => students_of(csv_table(text@, false, false)) == Err::<
                    Seq<StudentView>,
                    Seq<char>,
                >(e@),
            },
    {
        let table = read_csv(text, false, false);
        Student::vec_from_rows(&table)
    }
}

/// The role that a letter of a staff record stands for.
pub open spec fn staff_role(letter: Seq<char>) -> Option<Role> {
    if letter == "a"@ || letter == "A"@ {
        Some(Role::Admin)
    } else if letter == "b"@ || letter == "B"@ {
        Some(Role::Boss)
    } else if letter == "t"@ || letter == "T"@ {
        Some(Role::Teacher)
    } else {
        None
    }
}

/// The member of staff that a record of fields stands for: role, user name,
/// email and, for a teacher, the name. The user has no salt yet.
pub open spec fn staff_of_fields(fields: Seq<Seq<char>>) -> Result<UserView, Seq<char>> {
    if fields.len() == 0 {
        Err("no role."@)
    } else {
        match staff_role(fields[0]) {
            None => Err("unrecognized role: "@ + fields[0]),
            Some(role) => if fields.len() < 2 {
                Err("no uname."@)
            } else if fields.len() < 3 {
                Err("no email."@)
            } else {
                let base = BaseUserView {
                    uname: fields[1],
                    role,
                    salt: Seq::empty(),
                    email: fields[2],
                };
                match role {
                    Role::Admin => Ok(UserView::Admin(base)),
                    Role::Boss => Ok(UserView::Boss(base)),
                    _ => if fields.len() < 4 {
                        Err("no name for teacher."@)
                    } else {
                        Ok(UserView::Teacher(TeacherView { base, name: fields[3] }))
                    },
                }
            },
        }
    }
}

/// The words in which a staff record that stands for no one is reported.
pub open spec fn staff_line(index: nat, message: Seq<char>) -> Seq<char> {
    "Line "@ + decimal(index) + ": "@ + message
}

/// The members of staff that records stand for, or the report of the first
/// record that stands for none.
pub open spec fn staff_of_rows(rows: Seq<RecordView>) -> Result<Seq<UserView>, Seq<char>>
    decreases rows.len(),
{
    if rows.len() == 0 {
        Ok(Seq::empty())
    } else {
        match staff_of_rows(rows.drop_last()) {
            Err(e) => Err(e),
            Ok(v) => match staff_of_fields(rows.last().fields) {
                Ok(u) => Ok(v.push(u)),
                Err(m) => Err(staff_line((rows.len() - 1) as nat, m)),
            },
        }
    }
}

/// The members of staff that a table stands for.
pub open spec fn staff_of(table: TableView) -> Result<Seq<UserView>, Seq<char>> {
    match staff_of_rows(table.rows) {
        Err(e) => Err(e),
        Ok(v) => match table.fault {
            Some(f) => Err(located(None, table.rows.len(), f.message)),
            None => Ok(v),
        },
    }
}

/// Once the first `k` records fail, all of them do, with the same report.
pub proof fn lemma_staff_of_rows_fails(rows: Seq<RecordView>, k: int)
    requires
        0 <= k <= rows.len(),
        staff_of_rows(rows.take(k)) is Err,
    ensures
        staff_of_rows(rows) == staff_of_rows(rows.take(k)),
    decreases rows.len() - k,
{
    if k == rows.len() {
        assert(rows.take(k) =~= rows);
    } else {
        assert(rows.take(k + 1).drop_last() =~= rows.take(k));
        lemma_staff_of_rows_fails(rows, k + 1);
    }
}

/// The views of the users of a list.
pub open spec fn user_views(v: Seq<User>) -> Seq<UserView> {
    v.map_values(|u: User| u@)
}

/// Reads a member of staff from a record.
pub fn staff_from_csv_line(row: &Record) -> (r: Result<User, String>)
    ensures
        match r {
            Ok(u) => staff_of_fields(row@.fields) == Ok::<UserView, Seq<char>>(u@) && u.wf(),
            Err(e) => staff_of_fields(row@.fields) == Err::<UserView, Seq<char>>(e@),
        },
{
    let letter = match row.get(0) {
        Some(s) => s,
        None => {
            return Err(String::from_str("no role."));
        },
    };
    let role = if letter.eq("a") || letter.eq("A") {
        Role::Admin
    } else if letter.eq("b") || letter.eq("B") {
        Role::Boss
    } else if letter.eq("t") || letter.eq("T") {
        Role::Teacher
    } else {
        let mut msg = String::from_str("unrecognized role: ");
        msg.append(letter);
        return Err(msg);
    };
    let uname = match row.get(1) {
        Some(s) => String::from_str(s),
        None => {
            return Err(String::from_str("no uname."));
        },
    };
    let email = match row.get(2) {
        Some(s) => String::from_str(s),
        None => {
            return Err(String::from_str("no email."));
        },
    };
    let bu = BaseUser { uname, role, email, salt: String::new() };
    match role {
        Role::Admin => Ok(bu.into_admin()),
        Role::Boss => Ok(bu.into_boss()),
        _ => {
            let name = match row.get(3) {
                Some(s) => String::from_str(s),
                None => {
                    return Err(String::from_str("no name for teacher."));
                },
            };
            Ok(bu.into_teacher(name))
        },
    }
}

/// Reads a member of staff from each record of a table.
pub fn staff_from_rows(table: &Table) -> (r: Result<Vec<User>, String>)
    ensures
        match r {
            Ok(v) => staff_of(table@) == Ok::<Seq<UserView>, Seq<char>>(user_views(v@)) && forall|
                i: int,
            | 0 <= i < v@.len() ==> (#[trigger] v@[i]).wf(),
            Err(e) => staff_of(table@) == Err::<Seq<UserView>, Seq<char>>(e@),
        },
{
    let n = table.rows.len();
    let ghost rows = table@.rows;
    let mut users: Vec<User> = Vec::new();
    let mut i: usize = 0;
    assert(rows.take(0) =~= Seq::<RecordView>::empty());
    assert(user_views(users@) =~= Seq::<UserView>::empty());
    while i < n
        invariant
            i <= n == table.rows@.len() == rows.len(),
            rows == table@.rows,
            staff_of_rows(rows.take(i as int)) == Ok::<Seq<UserView>, Seq<char>>(user_views(users@)),
            forall|k: int| 0 <= k < users@.len() ==> (#[trigger] users@[k]).wf(),
        decreases n - i,
    {
        proof {
            assert(rows.take(i + 1).drop_last() =~= rows.take(i as int));
            assert(rows.take(i + 1).last() == rows[i as int]);
            assert(rows[i as int] == table.rows@[i as int]@);
        }
        match staff_from_csv_line(&table.rows[i]) {
            Ok(u) => {
                let ghost before = users@;
                users.push(u);
                assert(user_views(users@) =~= user_views(before).push(u@));
            },
            Err(e) => {
                proof {
                    lemma_staff_of_rows_fails(rows, i + 1);
                }
                let mut msg = String::from_str("Line ");
                msg.append(decimal_string(i as u64).as_str());
                msg.append(": ");
                msg.append(e.as_str());
                return Err(msg);
            },
        }
        i += 1;
    }
    assert(rows.take(n as int) =~= rows);
    match &table.fault {
        Some(f) => Err(locate(None, n, f.message.as_str())),
        None => Ok(users),
    }
}

/// Reads the staff from comma-separated text with a header line: role (`a`,
/// `b` or `t`, in either case), user name, email and, for teachers, name.
pub fn csv_file_to_staff(text: &str) -> (r: Result<Vec<User>, String>)
    ensures
        match r {
            Ok(v) => staff_of(csv_table(text@, true, true)) == Ok::<Seq<UserView>, Seq<char>>(
                user_views(v@),
            ) && forall|i: int| 0 <= i < v@.len() ==> (#[trigger] v@[i]).wf(),
            Err(e) => staff_of(csv_table(text@, true, true)) == Err::<Seq<UserView>, Seq<char>>(e@),
        },
{
    let table = read_csv(text, true, true);
    staff_from_rows(&table)
}

/// The fields in which a student is written down.
pub open spec fn student_fields(v: StudentView) -> Seq<Seq<char>> {
    seq![v.base.uname, v.last, v.rest, v.base.email, v.parent, v.teacher]
}

/// The fields in which a member of staff is written down. A student is no
/// member of staff and has none.
pub open spec fn staff_fields(v: UserView) -> Seq<Seq<char>> {
    match v {
        UserView::Admin(b) => seq!["a"@, b.uname, b.email],
        UserView::Boss(b) => seq!["b"@, b.uname, b.email],
        UserView::Teacher(t) => seq!["t"@, t.base.uname, t.base.email, t.name],
        UserView::Student(_) => Seq::empty(),
    }
}

/// A student that was read from a record, written down and read again is the
/// same student.
pub proof fn lemma_student_round_trip(fields: Seq<Seq<char>>)
    requires
        student_of_fields(fields) is Ok,
    ensures
        student_of_fields(student_fields(student_of_fields(fields)->Ok_0)) == student_of_fields(
            fields,
        ),
{
}

/// A member of staff that was read from a record, written down and read
/// again is the same member of staff.
pub proof fn lemma_staff_round_trip(fields: Seq<Seq<char>>)
    requires
        staff_of_fields(fields) is Ok,
    ensures
        staff_of_fields(staff_fields(staff_of_fields(fields)->Ok_0)) == staff_of_fields(fields),
{
    reveal_strlit("a");
    reveal_strlit("A");
    reveal_strlit("b");
    reveal_strlit("B");
    reveal_strlit("t");
    reveal_strlit("T");
    assert("a"@[0] == 'a' && "A"@[0] == 'A' && "b"@[0] == 'b' && "B"@[0] == 'B' && "t"@[0] == 't'
        && "T"@[0] == 'T');
    let u = staff_of_fields(fields)->Ok_0;
    let out = staff_fields(u);
    match u {
        UserView::Admin(b) => {
            assert(out[0] == "a"@);
        },
        UserView::Boss(b) => {
            assert(out[0] == "b"@);
            assert(staff_role("b"@) == Some(Role::Boss));
        },
        UserView::Teacher(t) => {
            assert(out[0] == "t"@);
            assert(staff_role("t"@) == Some(Role::Teacher));
        },
        UserView::Student(_) => {},
    }
}

impl Student {
    /// The record in which the student is written down: user name, last
    /// name, rest of the name, email, parent's email, teacher's user name.
    pub fn to_csv_line(&self) -> (r: Record)
        ensures
            r@.fields == student_fields(self@),
            r.line is None,
    {
        let mut fields: Vec<String> = Vec::new();
        fields.push(self.base.uname.clone());
        fields.push(self.last.clone());
        fields.push(self.rest.clone());
        fields.push(self.base.email.clone());
        fields.push(self.parent.clone());
        fields.push(self.teacher.clone());
        let r = Record { line: None, fields };
        assert(r@.fields =~= student_fields(self@));
        r
    }
}

impl User {
    /// The record in which a member of staff is written down: a letter for
    /// the role, user name, email and, for a teacher, the name. A student has
    /// no such record.
    pub fn to_staff_line(&self) -> (r: Option<Record>)
        ensures
            match r {
                Some(rec) => !(self is Student) && rec@.fields == staff_fields(self@) && rec.line is None,
                None => self is Student,
            },
    {
        let mut fields: Vec<String> = Vec::new();
        match self {
            User::Admin(b) => {
                fields.push(String::from_str("a"));
                fields.push(b.uname.clone());
                fields.push(b.email.clone());
            },
            User::Boss(b) => {
                fields.push(String::from_str("b"));
                fields.push(b.uname.clone());
                fields.push(b.email.clone());
            },
            User::Teacher(t) => {
                fields.push(String::from_str("t"));
                fields.push(t.base.uname.clone());
                fields.push(t.base.email.clone());
                fields.push(t.name.clone());
            },
            User::Student(_) => {
                return None;
            },
        }
        let r = Record { line: None, fields };
        assert(r@.fields =~= staff_fields(self@));
        Some(r)
    }
}

/// The place of a role where users are listed: administrators first, then
/// bosses, teachers and students.
pub open spec fn role_rank(role: Role) -> int {
    match role {
        Role::Admin => 0,
        Role::Boss => 1,
        Role::Teacher => 2,
        Role::Student => 3,
    }
}

/// Users are listed by role, and within a role by name.
impl<'a> Ranked for &'a User {
    open spec fn before(&self, other: &Self) -> bool {
        ||| role_rank(self.spec_role()) < role_rank(other.spec_role())
        ||| self.spec_role() == other.spec_role() && text_before(
            self.base().uname@,
            other.base().uname@,
        )
    }

    fn is_before(&self, other: &Self) -> (r: bool) {
        let mine: u8 = match self.role() {
            Role::Admin => 0,
            Role::Boss => 1,
            Role::Teacher => 2,
            Role::Student => 3,
        };
        let theirs: u8 = match other.role() {
            Role::Admin => 0,
            Role::Boss => 1,
            Role::Teacher => 2,
            Role::Student => 3,
        };
        mine < theirs || (mine == theirs && is_text_before(self.uname(), other.uname()))
    }

    proof fn lemma_before_transitive(a: &Self, b: &Self, c: &Self) {
        if a.spec_role() == b.spec_role() && b.spec_role() == c.spec_role() {
            lemma_text_before_transitive(a.base().uname@, b.base().uname@, c.base().uname@);
        }
    }

    proof fn lemma_before_irreflexive(a: &Self) {
        lemma_text_before_irreflexive(a.base().uname@);
    }
}

} // verus!
