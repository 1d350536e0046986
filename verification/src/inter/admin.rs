//! What an administrator may ask for.

use vstd::prelude::*;
use crate::config::{user_index, Glob};
use crate::course::Course;
use crate::order::{sort, sorted_of};
use crate::user::{Role, User};

verus! {

/// The actions of the administrator's page.
#[derive(Clone, Copy, Debug, PartialEq, Eq, Structural)]
pub enum AdminAction {
    PopulateUsers,
    PopulateAdmins,
    PopulateBosses,
    AddUser,
    UpdateUser,
    DeleteUser,
    UploadStudents,
    PopulateCourses,
    UploadCourse,
    AddCourse,
    DeleteCourse,
    UpdateCourse,
    AddChapters,
    UpdateChapter,
    DeleteChapter,
    PopulateCal,
    UpdateCal,
}

/// The action that a name stands for.
pub open spec fn admin_action(name: Seq<char>) -> Option<AdminAction> {
    if name == "populate-users"@ {
        Some(AdminAction::PopulateUsers)
    } else if name == "populate-admins"@ {
        Some(AdminAction::PopulateAdmins)
    } else if name == "populate-bosses"@ {
        Some(AdminAction::PopulateBosses)
    } else if name == "add-user"@ {
        Some(AdminAction::AddUser)
    } else if name == "update-user"@ {
        Some(AdminAction::UpdateUser)
    } else if name == "delete-user"@ {
        Some(AdminAction::DeleteUser)
    } else if name == "upload-students"@ {
        Some(AdminAction::UploadStudents)
    } else if name == "populate-courses"@ {
        Some(AdminAction::PopulateCourses)
    } else if name == "upload-course"@ {
        Some(AdminAction::UploadCourse)
    } else if name == "add-course"@ {
        Some(AdminAction::AddCourse)
    } else if name == "delete-course"@ {
        Some(AdminAction::DeleteCourse)
    } else if name == "update-course"@ {
        Some(AdminAction::UpdateCourse)
    } else if name == "add-chapters"@ {
        Some(AdminAction::AddChapters)
    } else if name == "update-chapter"@ {
        Some(AdminAction::UpdateChapter)
    } else if name == "delete-chapter"@ {
        Some(AdminAction::DeleteChapter)
    } else if name == "populate-cal"@ {
        Some(AdminAction::PopulateCal)
    } else if name == "update-cal"@ {
        Some(AdminAction::UpdateCal)
    } else {
        None
    }
}

/// Why a request is not acted on.
#[derive(Clone, Copy, Debug, PartialEq, Eq, Structural)]
pub enum Refusal {
    /// The request does not say who sends it, or the working set does not
    /// hold the sender.
    UnknownSender,
    /// The sender has not the role that the page is for.
    Forbidden,
    /// The request names no action.
    NoAction,
    /// The request names an action that the page does not have.
    UnknownAction,
}

/// Reads the name of an action.
pub fn parse_action(name: &str) -> (r: Option<AdminAction>)
    ensures
        r == admin_action(name@),
{
    if name.eq("populate-users") {
        Some(AdminAction::PopulateUsers)
    } else if name.eq("populate-admins") {
        Some(AdminAction::PopulateAdmins)
    } else if name.eq("populate-bosses") {
        Some(AdminAction::PopulateBosses)
    } else if name.eq("add-user") {
        Some(AdminAction::AddUser)
    } else if name.eq("update-user") {
        Some(AdminAction::UpdateUser)
    } else if name.eq("delete-user") {
        Some(AdminAction::DeleteUser)
    } else if name.eq("upload-students") {
        Some(AdminAction::UploadStudents)
    } else if name.eq("populate-courses") {
        Some(AdminAction::PopulateCourses)
    } else if name.eq("upload-course") {
        Some(AdminAction::UploadCourse)
    } else if name.eq("add-course") {
        Some(AdminAction::AddCourse)
    } else if name.eq("delete-course") {
        Some(AdminAction::DeleteCourse)
    } else if name.eq("update-course") {
        Some(AdminAction::UpdateCourse)
    } else if name.eq("add-chapters") {
        Some(AdminAction::AddChapters)
    } else if name.eq("update-chapter") {
        Some(AdminAction::UpdateChapter)
    } else if name.eq("delete-chapter") {
        Some(AdminAction::DeleteChapter)
    } else if name.eq("populate-cal") {
        Some(AdminAction::PopulateCal)
    } else if name.eq("update-cal") {
        Some(AdminAction::UpdateCal)
    } else {
        None
    }
}

/// What a request to the administrator's page comes to: the action it asks
/// for, if the sender is an administrator and the action is one of the page's.
pub open spec fn admin_request(users: Seq<User>, uname: Option<Seq<char>>, action: Option<Seq<char>>) -> Result<
    AdminAction,
    Refusal,
> {
    match uname {
        None => Err(Refusal::UnknownSender),
        Some(u) => match user_index(users, u) {
            None => Err(Refusal::UnknownSender),
            Some(i) => if !(users[i] is Admin) {
                Err(Refusal::Forbidden)
            } else {
                match action {
                    None => Err(Refusal::NoAction),
                    Some(a) => match admin_action(a) {
                        Some(act) => Ok(act),
                        None => Err(Refusal::UnknownAction),
                    },
                }
            },
        },
    }
}

/// Decides what a request to the administrator's page asks for, from the
/// name of its sender and the name of its action.
pub fn api(glob: &Glob, uname: Option<&str>, action: Option<&str>) -> (r: Result<AdminAction, Refusal>)
    ensures
        r == admin_request(
            glob.users@,
            match uname {
                Some(u) => Some(u@),
                None => None,
            },
            match action {
                Some(a) => Some(a@),
                None => None,
            },
        ),
{
    let uname = match uname {
        Some(u) => u,
        None => {
            return Err(Refusal::UnknownSender);
        },
    };
    match glob.user(uname) {
        Some(User::Admin(_)) => {},
        Some(_) => {
            return Err(Refusal::Forbidden);
        },
        None => {
            return Err(Refusal::UnknownSender);
        },
    }
    let action = match action {
        Some(a) => a,
        None => {
            return Err(Refusal::NoAction);
        },
    };
    match parse_action(action) {
        Some(a) => Ok(a),
        None => Err(Refusal::UnknownAction),
    }
}

/// The users, each by reference.
pub open spec fn user_refs<'a>(users: Seq<User>) -> Seq<&'a User> {
    users.map_values(|u: User| &u)
}

/// The courses, each by reference.
pub open spec fn course_refs<'a>(courses: Seq<Course>) -> Seq<&'a Course> {
    courses.map_values(|c: Course| &c)
}

/// The user has the role.
pub open spec fn has_role(role: Role) -> spec_fn(User) -> bool {
    |u: User| u.spec_role() == role
}

/// The users of the working set as the administrator's page lists them: by
/// role, and within a role by name.
pub fn populate_users(glob: &Glob) -> (r: Vec<&User>)
    ensures
        r@ == sorted_of(user_refs(glob.users@)),
{
    let n = glob.users.len();
    let mut users: Vec<&User> = Vec::new();
    let mut i: usize = 0;
    while i < n
        invariant
            i <= n == glob.users@.len(),
            users@ =~= user_refs(glob.users@.take(i as int)),
        decreases n - i,
    {
        users.push(&glob.users[i]);
        i += 1;
    }
    assert(glob.users@.take(n as int) =~= glob.users@);
    sort(&mut users);
    users
}

/// The users of the working set who have the role, in the order in which
/// the working set holds them.
pub fn populate_role(glob: &Glob, role: Role) -> (r: Vec<&User>)
    ensures
        r@ == user_refs(glob.users@.filter(has_role(role))),
{
    let ghost p = has_role(role);
    let n = glob.users.len();
    let mut users: Vec<&User> = Vec::new();
    let mut i: usize = 0;
    assert(glob.users@.take(0).filter(p) =~= Seq::<User>::empty()) by {
        reveal(Seq::filter);
    }
    while i < n
        invariant
            i <= n == glob.users@.len(),
            p == has_role(role),
            users@ =~= user_refs(glob.users@.take(i as int).filter(p)),
        decreases n - i,
    {
        proof {
            assert(glob.users@.take(i + 1) =~= glob.users@.take(i as int).push(glob.users@[i as int]));
            glob.users@.take(i as int).lemma_filter_push(glob.users@[i as int], p);
        }
        if glob.users[i].role() == role {
            users.push(&glob.users[i]);
        }
        i += 1;
    }
    assert(glob.users@.take(n as int) =~= glob.users@);
    users
}

/// The courses of the working set as the administrator's page lists them:
/// by level, courses of one level in the order in which the working set holds
/// them.
pub fn populate_courses(glob: &Glob) -> (r: Vec<&Course>)
    ensures
        r@ == sorted_of(course_refs(glob.courses@)),
{
    let n = glob.courses.len();
    let mut courses: Vec<&Course> = Vec::new();
    let mut i: usize = 0;
    while i < n
        invariant
            i <= n == glob.courses@.len(),
            courses@ =~= course_refs(glob.courses@.take(i as int)),
        decreases n - i,
    {
        courses.push(&glob.courses[i]);
        i += 1;
    }
    assert(glob.courses@.take(n as int) =~= glob.courses@);
    sort(&mut courses);
    courses
}

} // verus!
