use camp::auth::{hash_with_salt, AuthResult, Db};
use camp::config::{load_configuration, Cfg, ConfigFile, Glob};
use camp::coordinator::{UploadFault, BATCH_PASSWORD, FIRST_PASSWORD};
use camp::course::{Chapter, Course, UNIT};
use camp::date::Date;
use camp::inter::admin::{AdminAction, Refusal};
use camp::inter::teacher::TeacherAction;
use camp::inter::{request_identity, respond_bad_key, respond_bad_password, Gate, Login, LoginData};
use camp::pace::{BookCh, Goal, Source};
use camp::store::Store;
use camp::user::{BaseUser, Role, Student, Teacher, User};
use camp::UnifiedError;

fn day(y: i32, m: u8, d: u8) -> Date {
    Date::from_calendar_date(y, m, d).unwrap()
}

fn base(uname: &str, role: Role) -> BaseUser {
    BaseUser {
        uname: uname.to_string(),
        role,
        salt: String::new(),
        email: format!("{}@school.com", uname),
    }
}

fn teacher(uname: &str) -> User {
    User::Teacher(Teacher { base: base(uname, Role::Teacher), name: format!("Ms {}", uname) })
}

fn student(uname: &str, teacher: &str) -> Student {
    Student {
        base: base(uname, Role::Student),
        last: "Last".to_string(),
        rest: "Rest".to_string(),
        teacher: teacher.to_string(),
        parent: "parent@home.com".to_string(),
        fall_exam: None,
        spring_exam: None,
        fall_exam_fraction: 200_000,
        spring_exam_fraction: 200_000,
        fall_notices: 0,
        spring_notices: 0,
    }
}

fn course(sym: &str, n: i16) -> Course {
    let chapters: Vec<Chapter> = (1..=n)
        .map(|seq| Chapter {
            id: 0,
            course_id: 0,
            seq,
            title: format!("Chapter {}", seq),
            subject: Some("things".to_string()),
            weight: UNIT,
        })
        .collect();
    Course::new(0, sym.to_string(), None, format!("Course {}", sym), 0).with_chapters(chapters)
}

fn goal(uname: &str, sym: &str, seq: i16) -> Goal {
    Goal {
        id: 0,
        uname: uname.to_string(),
        source: Source::Book(BookCh { sym: sym.to_string(), seq, level: 0 }),
        review: false,
        incomplete: false,
        due: None,
        done: None,
        tries: 0,
        weight: 0,
        score: None,
    }
}

fn start() -> Glob {
    load_configuration(&Cfg::default(), Db::new("a".to_string()), Store::new("d".to_string()), 0).unwrap()
}

/// A school with the teacher `jenny`, her student `kid`, and a course `alg`.
fn school() -> Glob {
    let mut g = start();
    g.insert_user(&teacher("jenny")).unwrap();
    g.insert_user(&User::Student(student("kid", "jenny"))).unwrap();
    g.data.insert_courses(&[course("alg", 4)]).unwrap();
    g.refresh_users();
    g.refresh_courses();
    g
}

#[test]
fn starting_up_puts_the_default_admin_on_record() {
    let g = start();
    assert_eq!(g.users.len(), 1);
    let root = g.user("root").unwrap();
    assert_eq!(root.role(), Role::Admin);
    assert_eq!(root.email(), "admin@camp.not.an.address");
    let salt = root.salt().to_string();
    assert_eq!(salt.len(), 4);
    assert_eq!(g.auth().check_password("root", "toot", &salt), Ok(AuthResult::Okay));
    assert_eq!(g.port, 8001);
    assert_eq!(g.host, "0.0.0.0");
    assert_eq!(g.goals_per_student, 16);
    assert_eq!(g.students_per_teacher, 60);
}

#[test]
fn starting_up_twice_changes_no_user() {
    let cfg = Cfg::default();
    let g = start();
    let users_before = format!("{:?}", g.data.users);
    let auth_before = format!("{:?}", g.auth.users);
    let mut auth = g.auth;
    auth.set_key_life(10);
    auth.issue_key("root", "old".to_string(), 5).unwrap();
    auth.issue_key("root", "new".to_string(), 95).unwrap();
    let again = load_configuration(&cfg, auth, g.data, 100).unwrap();
    assert_eq!(format!("{:?}", again.data.users), users_before);
    assert_eq!(format!("{:?}", again.auth.users), auth_before);
    // Only the keys that ran out are gone.
    assert_eq!(again.auth.keys.len(), 1);
    assert_eq!(again.auth.keys[0].key, "new");
}

#[test]
fn an_admin_under_another_password_is_left_alone() {
    let g = start();
    let salt = g.user("root").unwrap().salt().to_string();
    let mut auth = g.auth;
    auth.set_password("root", "changed", &salt).unwrap();
    let again = load_configuration(&Cfg::default(), auth, g.data, 0).unwrap();
    assert_eq!(again.auth.check_password("root", "changed", &salt), Ok(AuthResult::Okay));
    assert_eq!(again.auth.check_password("root", "toot", &salt), Ok(AuthResult::BadPassword));
    assert_eq!(again.users.len(), 1);
}

#[test]
fn an_admin_who_is_missing_from_one_store_goes_in_there() {
    let g = start();
    let salt = g.user("root").unwrap().salt().to_string();
    // Out of the authentication store only: he goes back in with the salt
    // that the domain store has for him.
    let again = load_configuration(&Cfg::default(), Db::new("a".to_string()), g.data, 0).unwrap();
    assert_eq!(again.users.len(), 1);
    assert_eq!(again.user("root").unwrap().salt(), salt);
    assert_eq!(again.auth.users.len(), 1);
    assert_eq!(again.auth.users[0].hash, hash_with_salt("toot", salt.as_bytes()));
}

#[test]
fn settings_keep_their_defaults_where_nothing_is_written() {
    let cf = ConfigFile {
        auth_db_connect_string: None,
        data_db_connect_string: Some("data".to_string()),
        admin_uname: Some("boss".to_string()),
        admin_password: None,
        admin_email: None,
        sendgrid_auth_string: "sg".to_string(),
        host: Some("127.0.0.1".to_string()),
        port: None,
        templates_dir: None,
        students_per_teacher: Some(5),
        goals_per_student: Some(6),
    };
    let c = Cfg::from_config_file(cf);
    assert_eq!(c.data_db_connect_string, "data");
    assert_eq!(
        c.auth_db_connect_string,
        "host=localhost user=camp_test password='camp_test' dbname=camp_auth_test"
    );
    assert_eq!(c.default_admin_uname, "boss");
    assert_eq!(c.default_admin_password, "toot");
    assert_eq!(c.sendgrid_auth_string, "sg");
    assert_eq!(c.host, "127.0.0.1");
    assert_eq!(c.port, 8001);
    assert_eq!(c.templates_dir, "templates/");
    assert_eq!((c.students_per_teacher, c.goals_per_student), (60, 16));
}

#[test]
fn the_salt_of_the_domain_store_is_the_salt_of_the_hash() {
    let mut g = start();
    g.insert_user(&teacher("jenny")).unwrap();
    // The working set holds the user only once it is refreshed.
    assert!(g.user("jenny").is_none());
    g.refresh_users();
    let jenny = g.user("jenny").unwrap();
    let salt = jenny.salt().to_string();
    assert_eq!(salt.len(), 4);
    assert_eq!(jenny.email(), "jenny@school.com");
    assert_eq!(g.auth.check_password("jenny", FIRST_PASSWORD, &salt), Ok(AuthResult::Okay));
    assert_eq!(g.auth.check_password("jenny", FIRST_PASSWORD, ""), Ok(AuthResult::BadPassword));
    let entry = g.auth.users.iter().find(|c| c.uname == "jenny").unwrap();
    assert_eq!(entry.hash, hash_with_salt("new_password", salt.as_bytes()));
    // The salt that the caller sends is not the one that goes on record.
    let mut with_salt = base("boss", Role::Boss);
    with_salt.salt = "mine".to_string();
    g.insert_user(&User::Boss(with_salt)).unwrap();
    g.refresh_users();
    let salt = g.user("boss").unwrap().salt().to_string();
    assert_eq!(g.auth.check_password("boss", FIRST_PASSWORD, &salt), Ok(AuthResult::Okay));
}

#[test]
fn a_user_goes_into_both_stores_or_neither() {
    let mut g = school();
    let (n_data, n_auth) = (g.data.users.len(), g.auth.users.len());
    assert!(matches!(g.insert_user(&teacher("jenny")), Err(UnifiedError::Auth(_))));
    assert!(matches!(
        g.insert_user(&User::Student(student("new", "nobody"))),
        Err(UnifiedError::Data(_))
    ));
    assert_eq!((g.data.users.len(), g.auth.users.len()), (n_data, n_auth));
    // On record in the domain store alone: refused there, and nothing goes in.
    g.data.insert_admin("lonely", "l@x.y").unwrap();
    assert!(matches!(
        g.insert_user(&User::Admin(base("lonely", Role::Admin))),
        Err(UnifiedError::Data(_))
    ));
    assert_eq!((g.data.users.len(), g.auth.users.len()), (n_data + 1, n_auth));
    g.insert_user(&User::Student(student("new", "jenny"))).unwrap();
    assert_eq!((g.data.users.len(), g.auth.users.len()), (n_data + 2, n_auth + 1));
}

#[test]
fn teacher_deletion_refused() {
    let mut g = school();
    match g.delete_user("jenny") {
        Err(UnifiedError::String(msg)) => assert!(msg.contains("kid")),
        other => panic!("Expected a refusal that lists kid, got {:?}", other),
    }
    assert!(g.data.get_user_by_uname("jenny").is_some());
    assert!(g.auth.users.iter().any(|c| c.uname == "jenny"));
    g.delete_user("kid").unwrap();
    assert!(g.data.get_user_by_uname("kid").is_none());
    assert!(!g.auth.users.iter().any(|c| c.uname == "kid"));
    // Until the users are taken anew, the working set still holds the student.
    assert!(g.delete_user("jenny").is_err());
    g.refresh_users();
    assert!(g.user("kid").is_none());
    g.delete_user("jenny").unwrap();
    g.refresh_users();
    assert!(g.user("jenny").is_none());
    assert!(!g.auth.users.iter().any(|c| c.uname == "jenny"));
    assert!(matches!(g.delete_user("nobody"), Err(UnifiedError::String(_))));
}

#[test]
fn deleting_a_user_takes_the_keys_along() {
    let mut g = school();
    let salt = g.user("jenny").unwrap().salt().to_string();
    let form = LoginData { uname: "jenny".to_string(), password: FIRST_PASSWORD.to_string() };
    let key = match g.login(&form, 100) {
        Login::Key(Role::Teacher, k) => k,
        other => panic!("Expected a key, got {:?}", other),
    };
    assert_eq!(g.key_authenticate(Some("jenny"), Some(&key), 101), Gate::Proceed);
    g.delete_user("kid").unwrap();
    g.refresh_users();
    g.delete_user("jenny").unwrap();
    assert_eq!(g.key_authenticate(Some("jenny"), Some(&key), 102), Gate::BadKey);
    assert_eq!(g.auth.check_password("jenny", FIRST_PASSWORD, &salt), Ok(AuthResult::NoSuchUser));
}

#[test]
fn what_is_read_after_a_refresh_is_what_was_written() {
    let mut g = school();
    let mut asked = student("kid", "jenny");
    asked.last = "Changed".to_string();
    asked.base.email = "new@mail.com".to_string();
    g.update_user(&User::Student(asked)).unwrap();
    match g.user("kid").unwrap() {
        User::Student(s) => assert_eq!(s.last, "Last"),
        other => panic!("{:?} is no student", other),
    }
    g.refresh_users();
    match g.user("kid").unwrap() {
        User::Student(s) => {
            assert_eq!(s.last, "Changed");
            assert_eq!(s.base.email, "new@mail.com");
        },
        other => panic!("{:?} is no student", other),
    }
    g.data.insert_courses(&[course("geo", 2)]).unwrap();
    assert!(g.course_by_sym("geo").is_none());
    g.refresh_courses();
    assert_eq!(g.course_by_sym("geo").unwrap().chapters.len(), 2);
    assert_eq!(g.course_by_sym("geo").unwrap().total_weight(), Some(2 * UNIT as u64));
    g.data.set_date("end-fall", day(2024, 1, 1));
    assert_eq!(g.date("end-fall"), None);
    g.refresh_dates();
    assert_eq!(g.date("end-fall"), Some(day(2024, 1, 1)));
    g.data.set_calendar(&[day(2024, 2, 2), day(2024, 2, 1)]);
    g.refresh_calendar();
    assert_eq!(g.calendar, vec![day(2024, 2, 1), day(2024, 2, 2)]);
}

#[test]
fn exams_and_notices_are_not_the_admins_to_change() {
    let mut g = school();
    g.update_numbers("kid", 2, 1, Some("91%"), Some("  "), 300_000, 100_000).unwrap();
    let mut asked = student("kid", "jenny");
    asked.rest = "Other".to_string();
    asked.fall_exam = Some("10".to_string());
    asked.fall_exam_fraction = 999_999;
    asked.spring_notices = 50;
    g.update_user(&User::Student(asked)).unwrap();
    g.refresh_users();
    match g.user("kid").unwrap() {
        User::Student(s) => {
            assert_eq!(s.rest, "Other");
            assert_eq!(s.fall_exam, Some("91%".to_string()));
            assert_eq!(s.spring_exam, None);
            assert_eq!((s.fall_exam_fraction, s.spring_exam_fraction), (300_000, 100_000));
            assert_eq!((s.fall_notices, s.spring_notices), (2, 1));
        },
        other => panic!("{:?} is no student", other),
    }
    assert!(g.update_numbers("kid", 0, 0, Some("x"), None, 0, 0).is_err());
    assert!(g.update_numbers("kid", 0, 0, None, Some("101"), 0, 0).is_err());
    assert!(g.update_numbers("kid", -1, 0, None, None, 0, 0).is_err());
    assert!(g.update_numbers("kid", 0, 0, None, None, 0, UNIT + 1).is_err());
    assert!(g.update_numbers("jenny", 0, 0, None, None, 0, 0).is_err());
    let other = student("stranger", "jenny");
    assert!(matches!(g.update_user(&User::Student(other)), Err(UnifiedError::String(_))));
    let mut as_student = student("jenny", "jenny");
    as_student.teacher = "jenny".to_string();
    assert!(g.update_user(&User::Student(as_student)).is_err());
}

#[test]
fn passwords_are_hashed_with_the_salt_that_is_held() {
    let mut g = school();
    let salt = g.user("kid").unwrap().salt().to_string();
    g.update_password("kid", "hunter2").unwrap();
    assert_eq!(g.auth.check_password("kid", "hunter2", &salt), Ok(AuthResult::Okay));
    assert_eq!(g.auth.check_password("kid", FIRST_PASSWORD, &salt), Ok(AuthResult::BadPassword));
    assert!(g.update_password("nobody", "x").is_err());
}

#[test]
fn students_are_uploaded_together_or_not_at_all() {
    let mut g = school();
    let (n_data, n_auth) = (g.data.users.len(), g.auth.users.len());
    let csv = "# uname, last, rest, email, parent, teacher\n\
               ann, Smith, Ann B., ann@x.y, mum@x.y, jenny\n\
               bob,  Jones , Bob, bob@x.y, dad@x.y, jenny\n";
    g.upload_students(csv).unwrap();
    assert_eq!((g.data.users.len(), g.auth.users.len()), (n_data + 2, n_auth + 2));
    g.refresh_users();
    match g.user("bob").unwrap() {
        User::Student(s) => {
            assert_eq!(s.last, "Jones");
            assert_eq!(s.base.email, "bob@x.y");
            assert_eq!(s.parent, "dad@x.y");
            assert_eq!(s.teacher, "jenny");
            assert_eq!(s.fall_exam_fraction, 200_000);
            assert_eq!(
                g.auth.check_password("bob", BATCH_PASSWORD, &s.base.salt),
                Ok(AuthResult::Okay)
            );
        },
        other => panic!("{:?} is no student", other),
    }
    let (n_data, n_auth) = (g.data.users.len(), g.auth.users.len());
    // A teacher who is none.
    match g.upload_students("cat, C, Cat, c@x.y, p@x.y, jenny\ndan, D, Dan, d@x.y, p@x.y, kid\n") {
        Err(UnifiedError::String(msg)) => assert!(msg.contains("kid (assigned to D, Dan)")),
        other => panic!("Expected a refusal, got {:?}", other),
    }
    // A name that is taken.
    assert!(matches!(
        g.upload_students("cat, C, Cat, c@x.y, p@x.y, jenny\nann, D, Dan, d@x.y, p@x.y, jenny\n"),
        Err(UnifiedError::Data(_))
    ));
    // A record that is too short.
    assert!(matches!(
        g.upload_students("cat, C, Cat, c@x.y, p@x.y, jenny\ndan, D, Dan\n"),
        Err(UnifiedError::String(_))
    ));
    // A name that only the authentication store has.
    g.auth.add_user("eve", "pw", "salt").unwrap();
    assert!(matches!(
        g.upload_students("cat, C, Cat, c@x.y, p@x.y, jenny\neve, E, Eve, e@x.y, p@x.y, jenny\n"),
        Err(UnifiedError::Auth(_))
    ));
    assert_eq!((g.data.users.len(), g.auth.users.len()), (n_data, n_auth + 1));
    assert!(g.data.get_user_by_uname("cat").is_none());
}

#[test]
fn goals_are_checked_against_the_working_set() {
    let mut g = school();
    match g.insert_goals(&[goal("kid", "alg", 1), goal("who", "alg", 1), goal("kid", "what", 1)]) {
        Err(UnifiedError::String(msg)) => {
            assert!(msg.contains("who\n"));
            assert!(msg.contains("what\n"));
        },
        other => panic!("Expected a refusal, got {:?}", other),
    }
    assert!(g.data.goals.is_empty());
    // A chapter that the course does not have is for the store to refuse.
    assert!(matches!(g.insert_goals(&[goal("kid", "alg", 9)]), Err(UnifiedError::Data(_))));
    assert_eq!(g.insert_goals(&[goal("kid", "alg", 1), goal("kid", "alg", 2)]).unwrap(), 2);
    assert_eq!(g.clear_goals("jenny"), 0);
    assert_eq!(g.clear_goals("kid"), 2);
    assert!(g.data.goals.is_empty());
}

#[test]
fn courses_and_chapters_with_goals_stay_on_record() {
    let mut g = school();
    g.insert_goals(&[goal("kid", "alg", 2)]).unwrap();
    match g.delete_course("alg") {
        Err(UnifiedError::String(msg)) => assert!(msg.contains("kid")),
        other => panic!("Expected a refusal that lists kid, got {:?}", other),
    }
    assert!(g.delete_chapter(2).is_err());
    g.delete_chapter(1).unwrap();
    assert!(g.delete_course("nope").is_err());
    g.clear_goals("kid");
    assert_eq!(g.delete_course("alg").unwrap(), (1, 3));
    g.refresh_courses();
    assert!(g.course_by_sym("alg").is_none());
}

#[test]
fn pace_calendars_of_a_teacher() {
    let mut g = school();
    g.insert_user(&teacher("irfan")).unwrap();
    g.refresh_users();
    g.upload_students(
        "zed, Z, Zed, z@x.y, p@x.y, jenny\nann, A, Ann, a@x.y, p@x.y, irfan\nbob, B, Bob, b@x.y, p@x.y, jenny\n",
    )
    .unwrap();
    g.refresh_users();
    g.insert_goals(&[goal("bob", "alg", 2), goal("kid", "alg", 1), goal("ann", "alg", 1), goal("bob", "alg", 1)])
        .unwrap();
    let today = day(2024, 1, 1);
    let paces = g.get_paces_by_teacher("jenny", &today).unwrap();
    let names: Vec<&str> = paces.iter().map(|p| p.student.base.uname.as_str()).collect();
    assert_eq!(names, vec!["kid", "zed", "bob"]);
    assert_eq!(paces[1].goals.len(), 0);
    assert_eq!(paces[2].goals.len(), 2);
    assert_eq!(paces[2].total_weight, 500_000);
    assert!(paces.iter().all(|p| p.teacher.base.uname == "jenny"));
    assert_eq!(g.get_paces_by_teacher("irfan", &today).unwrap().len(), 1);
    assert!(g.get_paces_by_teacher("kid", &today).is_err());
    assert!(g.get_paces_by_teacher("nobody", &today).is_err());
    // A student whose goals make no calendar is left out: here a goal from
    // a course that the working set does not hold yet.
    g.data.insert_courses(&[course("geo", 1)]).unwrap();
    g.data.insert_goals(&[goal("bob", "geo", 1)]).unwrap();
    let names: Vec<String> = g
        .get_paces_by_teacher("jenny", &today)
        .unwrap()
        .iter()
        .map(|p| p.student.base.uname.clone())
        .collect();
    assert_eq!(names, vec!["kid", "zed"]);
    let of_jenny: Vec<&str> = g.get_students_by_teacher("jenny").iter().map(|u| u.uname()).collect();
    assert_eq!(of_jenny, vec!["kid", "zed", "bob"]);
    assert!(g.get_students_by_teacher("kid").is_empty());
}

#[test]
fn uploaded_goals_have_to_be_the_teachers_own() {
    let mut g = school();
    g.insert_user(&teacher("irfan")).unwrap();
    g.insert_user(&User::Student(student("tot", "irfan"))).unwrap();
    g.refresh_users();
    let csv = "kid, alg, 1, 2024, 9, 10, x,\n   ,    , 2,     ,  , 28,  , x\n";
    match g.upload_goals("irfan", csv) {
        Err((UploadFault::NotYours, UnifiedError::String(msg))) => {
            assert!(msg.ends_with("not yours:\nkid"))
        },
        other => panic!("Expected a refusal, got {:?}", other),
    }
    assert!(g.data.goals.is_empty());
    assert_eq!(g.upload_goals("jenny", csv).unwrap(), 2);
    assert_eq!(g.data.goals.len(), 2);
    assert_eq!(g.data.goals[1].due, Some(day(2024, 9, 28)));
    assert!(g.data.goals[1].incomplete && !g.data.goals[1].review);
    assert!(g.data.goals[0].review && !g.data.goals[0].incomplete);
    assert!(matches!(
        g.upload_goals("jenny", "kid, alg, 7, 2024, 9, 10"),
        Err((UploadFault::Unreadable, UnifiedError::String(_)))
    ));
    assert!(matches!(
        g.upload_goals("jenny", "kid, alg, 1, 2024, 2, 30"),
        Err((UploadFault::Unreadable, UnifiedError::String(_)))
    ));
    assert_eq!(g.data.goals.len(), 2);
}

#[test]
fn logging_in() {
    let mut g = school();
    g.insert_user(&User::Boss(base("boss", Role::Boss))).unwrap();
    g.refresh_users();
    let form = |u: &str, p: &str| LoginData { uname: u.to_string(), password: p.to_string() };
    assert!(matches!(g.login(&form("nobody", "x"), 10), Login::BadPassword));
    assert!(matches!(g.login(&form("jenny", "wrong"), 10), Login::BadPassword));
    assert!(g.auth.keys.is_empty());
    match g.login(&form("jenny", FIRST_PASSWORD), 10) {
        Login::Key(Role::Teacher, k) => {
            assert_eq!(k.chars().count(), 32);
            assert_eq!(g.key_authenticate(Some("jenny"), Some(&k), 11), Gate::Proceed);
            assert_eq!(g.key_authenticate(Some("kid"), Some(&k), 11), Gate::BadKey);
            assert_eq!(g.key_authenticate(Some("jenny"), Some(&k), 11 + 1200), Gate::BadKey);
        },
        other => panic!("Expected a key, got {:?}", other),
    }
    assert!(matches!(g.login(&form("root", "toot"), 10), Login::Key(Role::Admin, _)));
    assert!(matches!(g.login(&form("boss", FIRST_PASSWORD), 10), Login::In(Role::Boss)));
    assert!(matches!(g.login(&form("kid", FIRST_PASSWORD), 10), Login::In(Role::Student)));
    assert!(matches!(g.login(&form("kid", "nope"), 10), Login::BadPassword));
    assert_eq!(g.auth.keys.len(), 2);
    // A user who is on record but whom the working set does not hold yet.
    g.insert_user(&teacher("late")).unwrap();
    assert!(matches!(g.login(&form("late", FIRST_PASSWORD), 10), Login::BadPassword));
}

#[test]
fn requests_are_checked() {
    let mut g = school();
    assert_eq!(g.key_authenticate(Some("jenny"), None, 1), Gate::NoKey);
    assert_eq!(g.key_authenticate(None, None, 1), Gate::NoKey);
    assert_eq!(g.key_authenticate(None, Some("k"), 1), Gate::NoUname);
    assert_eq!(g.key_authenticate(Some("jenny"), Some("k"), 1), Gate::BadKey);
    assert_eq!(request_identity(Some("abc-123")), Ok("abc-123"));
    assert_eq!(request_identity(None), Err("Request must have an x-camp-request-id header."));
    assert_eq!(respond_bad_key(), "Invalid authorization key.");
    assert_eq!(respond_bad_password(), "Invalid username/password combination.");
    let admin_api = camp::inter::admin::api;
    let teacher_api = camp::inter::teacher::api;
    assert_eq!(admin_api(&g, Some("root"), Some("add-user")), Ok(AdminAction::AddUser));
    assert_eq!(admin_api(&g, Some("root"), Some("update-cal")), Ok(AdminAction::UpdateCal));
    assert_eq!(admin_api(&g, Some("root"), Some("populate-users")), Ok(AdminAction::PopulateUsers));
    assert_eq!(admin_api(&g, Some("root"), Some("autopace")), Err(Refusal::UnknownAction));
    assert_eq!(admin_api(&g, Some("root"), None), Err(Refusal::NoAction));
    assert_eq!(admin_api(&g, Some("jenny"), Some("add-user")), Err(Refusal::Forbidden));
    assert_eq!(admin_api(&g, Some("nobody"), Some("add-user")), Err(Refusal::UnknownSender));
    assert_eq!(admin_api(&g, None, Some("add-user")), Err(Refusal::UnknownSender));
    assert_eq!(teacher_api(&g, Some("jenny"), Some("autopace")), Ok(TeacherAction::Autopace));
    assert_eq!(teacher_api(&g, Some("jenny"), Some("upload-goals")), Ok(TeacherAction::UploadGoals));
    assert_eq!(teacher_api(&g, Some("jenny"), Some("add-user")), Err(Refusal::UnknownAction));
    assert_eq!(teacher_api(&g, Some("root"), Some("autopace")), Err(Refusal::Forbidden));
    assert_eq!(teacher_api(&g, Some("kid"), Some("autopace")), Err(Refusal::Forbidden));
}

#[test]
fn errors_say_where_they_arose() {
    assert_eq!(UnifiedError::String("x".to_string()).display(), "Error: x");
    assert_eq!(UnifiedError::Postgres("x".to_string()).display(), "Underlying database error: x");
    assert_eq!(
        UnifiedError::Auth(camp::auth::DbError("x".to_string())).display(),
        "Auth DB error: x"
    );
    assert_eq!(
        UnifiedError::Data(camp::store::DbError("x".to_string())).display(),
        "Data DB error: x"
    );
    assert_eq!(
        UnifiedError::Pace(camp::pace::PaceError::CustomSource).display(),
        "Error: Custom goals are not supported."
    );
    assert_eq!(
        UnifiedError::Autopace(camp::autopace::AutopaceError::NoDaysLeft).display(),
        "Error: No instructional days are left."
    );
}

fn refusal<T: std::fmt::Debug>(r: Result<T, UnifiedError>) -> String {
    r.unwrap_err().display()
}

#[test]
fn refusals_of_goals_list_strangers_and_unknown_courses_once() {
    let mut g = school();
    assert_eq!(
        refusal(g.insert_goals(&[
            goal("who", "alg", 1),
            goal("kid", "what", 1),
            goal("who", "what", 2),
            goal("jenny", "alg", 1),
            goal("kid", "alg", 1),
        ])),
        "Error: The following user names do not belong to known students:\nwho\njenny\n\
         The following symbols do not belong to known courses:\nwhat\n"
    );
    assert_eq!(
        refusal(g.insert_goals(&[goal("kid", "what", 1), goal("kid", "else", 1)])),
        "Error: The following symbols do not belong to known courses:\nwhat\nelse\n"
    );
    assert_eq!(
        refusal(g.insert_goals(&[goal("who", "alg", 1)])),
        "Error: The following user names do not belong to known students:\nwho\n"
    );
    let mut custom = goal("who", "what", 1);
    custom.source = Source::Custom(camp::pace::CustomCh(7));
    assert_eq!(
        refusal(g.insert_goals(&[goal("who", "what", 1), custom])),
        "Error: Custom goals are not supported."
    );
    assert_eq!(
        refusal(g.insert_goals(&[goal("kid", "alg", 1), goal("kid", "alg", 9)])),
        "Data DB error: Unable to insert a goal for kid: the student or the chapter is not on record."
    );
    assert!(g.data.goals.is_empty());
}

#[test]
fn refusals_to_delete_list_the_students_once() {
    let mut g = school();
    g.insert_user(&User::Student(student("ann", "jenny"))).unwrap();
    g.refresh_users();
    g.insert_goals(&[goal("kid", "alg", 2), goal("ann", "alg", 3), goal("kid", "alg", 3)]).unwrap();
    assert_eq!(
        refusal(g.delete_course("alg")),
        "Error: The Course alg cannot be deleted because the following users have Goals from that Course:\nkid\nann\n"
    );
    let third = g.data.courses[0].chapters[2].id;
    assert_eq!(g.data.courses[0].chapters[2].seq, 3);
    assert_eq!(
        refusal(g.delete_chapter(third)),
        "Error: Chapter 3 of the Course alg cannot be deleted because the following users have that Chapter as a Goal:\nann\nkid\n"
    );
    assert_eq!(refusal(g.delete_chapter(1_000)), "Data DB error: There is no chapter with this id.");
    assert_eq!(refusal(g.delete_course("nope")), "Data DB error: There is no course with symbol nope.");
    assert_eq!(
        refusal(g.delete_user("jenny")),
        "Error: The following Students are still assigned to Teacher jenny\nkid\nann\n"
    );
    assert_eq!(refusal(g.delete_user("nobody")), "Error: No User nobody.");
    assert_eq!(g.data.courses[0].chapters.len(), 4);
}

#[test]
fn refusals_of_users_say_who_is_in_the_way() {
    let mut g = school();
    assert_eq!(
        refusal(g.insert_user(&teacher("jenny"))),
        "Auth DB error: Database already contains unames:\njenny\n"
    );
    assert_eq!(
        refusal(g.insert_user(&User::Student(student("new", "nobody")))),
        "Data DB error: There is no teacher with uname nobody."
    );
    g.data.insert_admin("lonely", "l@x.y").unwrap();
    assert_eq!(
        refusal(g.insert_user(&User::Boss(base("lonely", Role::Boss)))),
        "Data DB error: User name lonely already exists with role Admin."
    );
    assert_eq!(
        refusal(g.update_user(&User::Student(student("nobody", "jenny")))),
        "Error: nobody is not a User in the database."
    );
    assert_eq!(
        refusal(g.update_user(&User::Student(student("jenny", "jenny")))),
        "Error: jenny is not a Student (Teacher)."
    );
    assert_eq!(
        refusal(g.update_user(&User::Admin(base("jenny", Role::Admin)))),
        "Data DB error: The role of jenny is Teacher."
    );
}

#[test]
fn refusals_of_paces_and_numbers() {
    let mut g = school();
    let today = day(2024, 1, 1);
    assert_eq!(
        refusal(g.get_pace_by_student("jenny", &today)),
        "Error: jenny is not a Student in the database."
    );
    assert_eq!(
        refusal(g.get_paces_by_teacher("kid", &today)),
        "Error: kid is not a Teacher in the database."
    );
    assert_eq!(refusal(g.autopace("nobody", &today)), "Error: nobody is not a Student in the database.");
    assert_eq!(
        refusal(g.update_numbers("jenny", 0, 0, None, None, 0, 0)),
        "Error: jenny is not a Student."
    );
    assert_eq!(
        refusal(g.update_numbers("kid", 0, 0, Some("ninety"), Some("also"), 0, 0)),
        "Error: Not a valid Fall Exam score."
    );
    assert_eq!(
        refusal(g.update_numbers("kid", 0, 0, Some("90"), Some("also"), 0, 0)),
        "Error: Not a valid Spring Exam score."
    );
    assert_eq!(
        refusal(g.update_numbers("kid", 0, 0, None, None, 1_000_001, 0)),
        "Error: An exam cannot count for more than the whole."
    );
    assert_eq!(refusal(g.update_numbers("kid", 0, -1, None, None, 0, 0)), "Error: Notices cannot be owed.");
    assert_eq!(
        refusal(g.update_calendar(&["2024-01-02", "soon", "later"])),
        "Error: Unable to parse soon as Date."
    );
    // A student whose teacher has gone from the working set.
    g.data.insert_courses(&[course("geo", 1)]).unwrap();
    g.data.insert_goals(&[goal("kid", "geo", 1)]).unwrap();
    assert_eq!(refusal(g.get_pace_by_student("kid", &today)), "Error: geo is not a course symbol.");
}

#[test]
fn refusals_of_uploaded_goals() {
    let mut g = school();
    g.insert_user(&teacher("irfan")).unwrap();
    g.insert_user(&User::Student(student("tot", "irfan"))).unwrap();
    g.insert_user(&User::Student(student("ann", "irfan"))).unwrap();
    g.refresh_users();
    let csv = "tot, alg, 1, 2024, 9, 10\nkid, alg, 1, 2024, 9, 11\nann, alg, 2, 2024, 9, 12\ntot, alg, 2, 2024, 9, 13\n";
    assert_eq!(
        refusal(g.upload_goals("jenny", csv).map_err(|e| e.1)),
        "Error: The following students with Goals in the Goals file you just submitted are not yours:\ntot\nann"
    );
    assert_eq!(
        refusal(g.upload_goals("jenny", "kid, alg, 1, 2024, 9, 11\nwho, alg, 2, 2024, 9, 12\n").map_err(|e| e.1)),
        "Error: Error on line 2: who is not a student user name."
    );
    assert!(g.data.goals.is_empty());
    // What the working set knows and the store does not is for the store to refuse.
    g.data.delete_course("alg").unwrap();
    match g.upload_goals("irfan", "tot, alg, 1, 2024, 9, 10\n") {
        Err((UploadFault::Refused, UnifiedError::Data(e))) => assert_eq!(
            e.display(),
            "Unable to insert a goal for tot: the student or the chapter is not on record."
        ),
        other => panic!("Expected a refusal by the store, got {:?}", other),
    }
    g.data.insert_courses(&[course("alg", 4)]).unwrap();
    // The goals go on record student by student, each student's in order.
    let csv = "tot, alg, 3, 2024, 9, 20\nann, alg, 2, 2024, 9, 12\ntot, alg, 1, 2024, 9, 10\n";
    assert_eq!(g.upload_goals("irfan", csv).unwrap(), 3);
    let on_record: Vec<(i64, &str, Option<Date>)> =
        g.data.goals.iter().map(|x| (x.id, x.uname.as_str(), x.due)).collect();
    assert_eq!(
        on_record,
        vec![
            (1, "tot", Some(day(2024, 9, 10))),
            (2, "tot", Some(day(2024, 9, 20))),
            (3, "ann", Some(day(2024, 9, 12))),
        ]
    );
}

#[test]
fn the_administrators_lists_are_in_order() {
    let mut g = school();
    g.insert_user(&teacher("Irfan")).unwrap();
    g.insert_user(&User::Boss(base("boss", Role::Boss))).unwrap();
    g.insert_user(&User::Student(student("ann", "jenny"))).unwrap();
    g.insert_user(&User::Admin(base("adm", Role::Admin))).unwrap();
    g.insert_user(&User::Student(student("an", "jenny"))).unwrap();
    g.refresh_users();
    let names = |users: Vec<&User>| -> Vec<String> { users.iter().map(|u| u.uname().to_string()).collect() };
    assert_eq!(
        names(camp::inter::admin::populate_users(&g)),
        vec!["adm", "root", "boss", "Irfan", "jenny", "an", "ann", "kid"]
    );
    assert_eq!(names(camp::inter::admin::populate_role(&g, Role::Admin)), vec!["root", "adm"]);
    assert_eq!(names(camp::inter::admin::populate_role(&g, Role::Student)), vec!["kid", "ann", "an"]);
    assert!(camp::inter::admin::populate_role(&start(), Role::Boss).is_empty());
    let leveled = |sym: &str, level: i64| Course::new(0, sym.to_string(), None, sym.to_string(), level);
    g.data.insert_courses(&[leveled("hi", 9_000_000), leveled("lo", -1), leveled("nil", 0)]).unwrap();
    g.refresh_courses();
    let syms: Vec<&str> =
        camp::inter::admin::populate_courses(&g).iter().map(|c| c.sym.as_str()).collect();
    assert_eq!(syms, vec!["lo", "alg", "nil", "hi"]);
}
