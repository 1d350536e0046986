use camp::config::NamedDate;
use camp::course::{Chapter, Course, UNIT};
use camp::date::Date;
use camp::pace::{BookCh, CustomCh, Goal, Source};
use camp::store::{DbError, Store};
use camp::user::{BaseUser, Role, Student, User};

static ADMINS: &[(&str, &str)] = &[
    ("admin", "thelma@camelotacademy.org"),
    ("dan", "dan@camelotacademy.org"),
];

static BOSSES: &[(&str, &str)] = &[
    ("boss", "boss@camelotacademy.org"),
    ("tdg", "thelma@camelotacademy.org"),
];

static TEACHERS: &[(&str, &str, &str)] = &[
    ("berro", "berro@camelotacademy.org", "Mr Berro"),
    ("jenny", "jenny@camelotacademy.org", "Ms Jenny"),
    ("irfan", "irfan@camelotacademy.org", "Mr Irfan"),
];

static TEST_CONNECTION: &str =
    "host=localhost user=camp_test password='camp_test' dbname=camp_store_test";

fn day(y: i32, m: u8, d: u8) -> Date {
    Date::from_calendar_date(y, m, d).unwrap()
}

fn student(uname: &str, teacher: &str) -> Student {
    Student {
        base: BaseUser {
            uname: uname.to_string(),
            role: Role::Student,
            salt: String::new(),
            email: format!("{}@school.com", uname),
        },
        last: "Last".to_string(),
        rest: "Rest".to_string(),
        teacher: teacher.to_string(),
        parent: "parent@home.com".to_string(),
        fall_exam: None,
        spring_exam: None,
        fall_exam_fraction: 200_000,
        spring_exam_fraction: 200_000,
        fall_notices: 0,
        spring_notices: 0,
    }
}

fn chapter(seq: i16, weight: u32) -> Chapter {
    Chapter { id: 0, course_id: 0, seq, title: format!("Chapter {}", seq), subject: None, weight }
}

fn course(sym: &str, seqs: &[i16]) -> Course {
    let chapters: Vec<Chapter> = seqs.iter().map(|n| chapter(*n, UNIT)).collect();
    Course::new(0, sym.to_string(), None, format!("Course {}", sym), 1_500_000).with_chapters(chapters)
}

fn goal(uname: &str, sym: &str, seq: i16) -> Goal {
    Goal {
        id: 0,
        uname: uname.to_string(),
        source: Source::Book(BookCh { sym: sym.to_string(), seq, level: 5 }),
        review: true,
        incomplete: false,
        due: Some(day(2024, 5, 1)),
        done: None,
        tries: 4,
        weight: 77,
        score: Some("90".to_string()),
    }
}

fn school() -> Store {
    let mut db = Store::new(TEST_CONNECTION.to_owned());
    db.insert_teacher("jenny", "jenny@camelotacademy.org", "Ms Jenny").unwrap();
    db.insert_teacher("irfan", "irfan@camelotacademy.org", "Mr Irfan").unwrap();
    let mut studs = vec![student("kid", "jenny"), student("tot", "irfan")];
    db.insert_students(&mut studs).unwrap();
    db.insert_courses(&[course("alg", &[3, 1, 2]), course("geo", &[1])]).unwrap();
    db
}

#[test]
fn store_reset_store() {
    let mut db = school();
    db.insert_goals(&[goal("kid", "alg", 1)]).unwrap();
    db.add_one_day(day(2024, 1, 1));
    db.set_date("end-fall", day(2024, 1, 1));
    db.nuke_database();
    assert!(db.users.is_empty() && db.courses.is_empty() && db.goals.is_empty());
    assert!(db.calendar.is_empty() && db.dates.is_empty());
    assert_eq!(db.connection_string, TEST_CONNECTION);
}

#[test]
fn mod_reset_store() {
    let mut db = Store::new(TEST_CONNECTION.to_owned());
    db.nuke_database();
    assert!(db.get_users().is_empty());
}

#[test]
fn store_create_store() {
    let db = Store::new(TEST_CONNECTION.to_owned());
    assert_eq!(db.connection_string, TEST_CONNECTION);
    assert_eq!(db.salt_length, 4);
    assert_eq!(db.salt_chars.len(), 62);
    assert!(db.users.is_empty() && db.courses.is_empty() && db.goals.is_empty());
}

#[test]
fn mod_create_store() {
    let mut db = Store::new(TEST_CONNECTION.to_owned());
    let salt = db.generate_salt();
    assert_eq!(salt.len(), 4);
    assert!(salt.chars().all(|c| c.is_ascii_alphanumeric()));
    db.set_salt_chars("q");
    db.set_salt_length(9);
    assert_eq!(db.generate_salt(), "qqqqqqqqq");
    // Neither can be set to nothing.
    db.set_salt_chars("");
    db.set_salt_length(0);
    assert_eq!(db.generate_salt(), "qqqqqqqqq");
}

#[test]
fn error_words_are_annotated() {
    let e = DbError("it broke".to_string()).annotate("Unable to connect");
    assert_eq!(e.display(), "Unable to connect: it broke");
    assert_eq!(e, DbError("Unable to connect: it broke".to_string()));
}

#[test]
fn insert_users() {
    let mut db = Store::new(TEST_CONNECTION.to_owned());

    for (uname, email) in ADMINS.iter() {
        db.insert_admin(uname, email).unwrap();
    }
    for (uname, email) in BOSSES.iter() {
        db.insert_boss(uname, email).unwrap();
    }
    for (uname, email, name) in TEACHERS.iter() {
        db.insert_teacher(uname, email, name).unwrap();
    }

    let umap = db.get_users();
    assert_eq!(umap.len(), ADMINS.len() + BOSSES.len() + TEACHERS.len());
    for (uname, email) in ADMINS.iter() {
        let u = db.get_user_by_uname(uname).unwrap();
        assert_eq!(u.role(), Role::Admin);
        assert_eq!(u.email(), *email);
        assert_eq!(u.salt().len(), 4);
    }
    for (uname, _, name) in TEACHERS.iter() {
        match db.get_user_by_uname(uname).unwrap() {
            User::Teacher(t) => assert_eq!(t.name, *name),
            other => panic!("{:?} is no teacher", other),
        }
    }
    // A name that is taken is refused, whatever the role.
    let r = db.insert_boss("admin", "x@y.z");
    assert!(r.is_err());
    assert!(r.unwrap_err().display().contains("Admin"));
    assert_eq!(db.get_users().len(), 7);

    for (uname, _) in ADMINS.iter() {
        db.delete_user(uname).unwrap();
    }
    assert!(db.get_user_by_uname("admin").is_none());
    assert!(db.delete_user("admin").is_err());
    assert_eq!(db.get_users().len(), 5);
}

#[test]
fn students_go_on_record_together_or_not_at_all() {
    let mut db = school();
    assert_eq!(db.users.len(), 4);
    let mut batch = vec![student("a", "jenny"), student("kid", "jenny")];
    assert!(db.insert_students(&mut batch).is_err());
    assert_eq!(db.users.len(), 4);
    assert_eq!(batch[0].base.salt, "");
    let mut batch = vec![student("a", "jenny"), student("a", "irfan")];
    assert!(db.insert_students(&mut batch).is_err());
    let mut batch = vec![student("a", "jenny"), student("b", "kid")];
    assert!(db.insert_students(&mut batch).is_err());
    let mut batch = vec![student("a", "jenny"), student("b", "nobody")];
    assert!(db.insert_students(&mut batch).is_err());
    assert_eq!(db.users.len(), 4);
    let mut batch = vec![student("a", "jenny"), student("b", "irfan")];
    assert_eq!(db.insert_students(&mut batch), Ok(2));
    assert_eq!(db.users.len(), 6);
    for s in batch.iter() {
        assert_eq!(s.base.salt.len(), 4);
        match db.get_user_by_uname(&s.base.uname).unwrap() {
            User::Student(t) => {
                assert_eq!(t.base.salt, s.base.salt);
                assert_eq!(t.teacher, s.teacher);
                assert_eq!(t.last, "Last");
            },
            other => panic!("{:?} is no student", other),
        }
    }
    assert_eq!(db.insert_students(&mut Vec::new()), Ok(0));
}

#[test]
fn users_are_written_anew_with_their_salt() {
    let mut db = school();
    let salt = db.get_user_by_uname("kid").unwrap().salt().to_string();
    let mut s = student("kid", "irfan");
    s.base.salt = "made up".to_string();
    s.last = "Newname".to_string();
    s.fall_notices = 2;
    db.update_user(&User::Student(s)).unwrap();
    match db.get_user_by_uname("kid").unwrap() {
        User::Student(t) => {
            assert_eq!(t.base.salt, salt);
            assert_eq!(t.last, "Newname");
            assert_eq!(t.teacher, "irfan");
            assert_eq!(t.fall_notices, 2);
        },
        other => panic!("{:?} is no student", other),
    }
    assert_eq!(db.users.len(), 4);
    assert!(db.update_user(&User::Student(student("kid", "tot"))).is_err());
    assert!(db.update_user(&User::Student(student("nobody", "jenny"))).is_err());
    assert!(db.update_user(&User::Student(student("jenny", "irfan"))).is_err());
}

#[test]
fn teachers_with_students_and_students_with_goals_stay() {
    let mut db = school();
    db.insert_goals(&[goal("kid", "alg", 1)]).unwrap();
    assert!(db.delete_user("jenny").is_err());
    assert!(db.delete_user("kid").is_err());
    assert_eq!(db.delete_goals_by_student("kid"), 1);
    db.delete_user("kid").unwrap();
    db.delete_user("jenny").unwrap();
    assert_eq!(db.users.len(), 2);
}

#[test]
fn insert_course() {
    let mut db = Store::new(TEST_CONNECTION.to_owned());
    let course_0 = course("alg", &[3, 1, 2]);
    let course_2 = course("geo", &[1]);

    let (n_crs, n_chp) = db.insert_courses(&[course_0, course_2]).unwrap();
    assert_eq!((n_crs, n_chp), (2, 4));

    let alg = db.get_course_by_sym("alg").unwrap();
    assert_eq!(alg.id, 1);
    assert_eq!(alg.title, "Course alg");
    assert_eq!(alg.level, 1_500_000);
    assert_eq!(alg.weight, Some(3 * UNIT as u64));
    let seqs: Vec<i16> = alg.all_chapters().iter().map(|c| c.seq).collect();
    assert_eq!(seqs, vec![1, 2, 3]);
    let ids: Vec<i64> = alg.all_chapters().iter().map(|c| c.id).collect();
    assert_eq!(ids, vec![1, 2, 3]);
    assert!(alg.all_chapters().iter().all(|c| c.course_id == 1));
    let geo = db.get_course_by_sym("geo").unwrap();
    assert_eq!(geo.id, 2);
    assert_eq!(geo.chapters[0].id, 4);
    assert!(db.get_course_by_sym("nope").is_none());
    assert_eq!(db.get_courses().len(), 2);

    // A symbol that is taken refuses the whole batch.
    let r = db.insert_courses(&[course("bio", &[1, 2]), course("alg", &[1])]);
    assert!(r.is_err());
    assert_eq!(db.get_courses().len(), 2);
    assert!(db.get_course_by_sym("bio").is_none());
    let (n_crs, n_chp) = db.insert_courses(&[course("bio", &[1, 2])]).unwrap();
    assert_eq!((n_crs, n_chp), (1, 2));
    // The numbers that the refused batch would have had were not given out.
    assert_eq!(db.get_course_by_sym("bio").unwrap().id, 3);
    assert_eq!(db.get_course_by_sym("bio").unwrap().chapters[0].id, 5);
}

#[test]
fn courses_and_chapters_in_use_stay() {
    let mut db = school();
    db.insert_goals(&[goal("kid", "alg", 2)]).unwrap();
    assert!(db.delete_course("alg").is_err());
    assert!(db.delete_course("nope").is_err());
    assert_eq!(db.delete_course("geo"), Ok((1, 1)));
    assert!(db.get_course_by_sym("geo").is_none());
    // Chapters 1, 2 and 3 of the first course are numbered 1, 2 and 3.
    assert!(db.delete_chapter(2).is_err());
    assert!(db.delete_chapter(99).is_err());
    db.delete_chapter(3).unwrap();
    let alg = db.get_course_by_sym("alg").unwrap();
    let seqs: Vec<i16> = alg.chapters.iter().map(|c| c.seq).collect();
    assert_eq!(seqs, vec![1, 2]);
    assert_eq!(alg.weight, Some(2 * UNIT as u64));
    db.delete_goals_by_student("kid");
    assert_eq!(db.delete_course("alg"), Ok((1, 2)));
}

#[test]
fn goals_go_on_record_together_or_not_at_all() {
    let mut db = school();
    assert!(db.insert_goals(&[goal("kid", "alg", 1), goal("nobody", "alg", 1)]).is_err());
    assert!(db.insert_goals(&[goal("kid", "alg", 1), goal("jenny", "alg", 1)]).is_err());
    assert!(db.insert_goals(&[goal("kid", "alg", 1), goal("kid", "alg", 4)]).is_err());
    assert!(db.insert_goals(&[goal("kid", "alg", 1), goal("kid", "nope", 1)]).is_err());
    let mut custom = goal("kid", "alg", 1);
    custom.source = Source::Custom(CustomCh(3));
    assert!(db.insert_goals(&[goal("kid", "alg", 1), custom]).is_err());
    assert!(db.goals.is_empty());
    assert_eq!(db.insert_goals(&[goal("kid", "alg", 1), goal("tot", "geo", 1)]), Ok(2));
    assert_eq!(db.goals.len(), 2);
    // A new goal has a number of the store's, and no try, score, weight or level.
    let g = &db.goals[1];
    assert_eq!(g.id, 2);
    assert_eq!(g.uname, "tot");
    assert_eq!((g.tries, g.weight), (0, 0));
    assert_eq!(g.score, None);
    assert!(g.review);
    assert_eq!(g.due, Some(day(2024, 5, 1)));
    match &g.source {
        Source::Book(b) => assert_eq!((b.sym.as_str(), b.seq, b.level), ("geo", 1, 0)),
        Source::Custom(_) => panic!("a book chapter was expected"),
    }
    db.insert_one_goal(&goal("kid", "alg", 3)).unwrap();
    assert_eq!(db.goals[2].id, 3);
    assert!(db.insert_one_goal(&goal("kid", "alg", 9)).is_err());
    assert_eq!(db.goals.len(), 3);
}

#[test]
fn goals_are_updated_and_deleted_by_number() {
    let mut db = school();
    db.insert_goals(&[goal("kid", "alg", 1), goal("tot", "geo", 1), goal("kid", "alg", 2)]).unwrap();
    let mut g = goal("someone else", "alg", 3);
    g.id = 1;
    g.done = Some(day(2024, 4, 30));
    g.score = Some("95".to_string());
    g.tries = 2;
    db.update_goal(&g).unwrap();
    let stored = &db.goals[0];
    assert_eq!(stored.uname, "kid");
    assert_eq!(stored.done, Some(day(2024, 4, 30)));
    assert_eq!(stored.score, Some("95".to_string()));
    assert_eq!(stored.tries, 2);
    match &stored.source {
        Source::Book(b) => assert_eq!(b.seq, 3),
        Source::Custom(_) => panic!("a book chapter was expected"),
    }
    g.id = 77;
    assert!(db.update_goal(&g).is_err());
    g.id = 1;
    g.source = Source::Book(BookCh { sym: "alg".to_string(), seq: 8, level: 0 });
    assert!(db.update_goal(&g).is_err());
    let kids: Vec<i64> = db.get_goals_by_student("kid").iter().map(|g| g.id).collect();
    assert_eq!(kids, vec![1, 3]);
    let jennys: Vec<i64> = db.get_goals_by_teacher("jenny").iter().map(|g| g.id).collect();
    assert_eq!(jennys, vec![1, 3]);
    let irfans: Vec<i64> = db.get_goals_by_teacher("irfan").iter().map(|g| g.id).collect();
    assert_eq!(irfans, vec![2]);
    assert!(db.get_goals_by_teacher("kid").is_empty());
    assert_eq!(db.delete_goal(2), Ok("tot".to_string()));
    assert!(db.delete_goal(2).is_err());
    assert_eq!(db.goals.len(), 2);
    // Only the due dates are handed on.
    let mut a = goal("x", "geo", 1);
    a.id = 3;
    a.due = Some(day(2025, 1, 1));
    a.review = false;
    let mut b = goal("x", "geo", 1);
    b.id = 99;
    let mut c = goal("x", "geo", 1);
    c.id = 1;
    c.due = None;
    assert_eq!(db.update_due_dates(&[a, b, c]), 2);
    assert_eq!(db.goals[1].due, Some(day(2025, 1, 1)));
    assert!(db.goals[1].review);
    assert_eq!(db.goals[1].uname, "kid");
    assert_eq!(db.goals[0].due, None);
    assert_eq!(db.goals[0].score, Some("95".to_string()));
}

#[test]
fn the_calendar_holds_each_day_once() {
    let mut db = Store::new(String::new());
    let (a, b, c) = (day(2024, 3, 1), day(2024, 1, 1), day(2024, 2, 1));
    assert_eq!(db.set_calendar(&[a, b, a, c, b]), (0, 3));
    assert_eq!(db.calendar, vec![a, b, c]);
    assert_eq!(db.get_calendar(), vec![b, c, a]);
    db.add_one_day(c);
    assert_eq!(db.calendar.len(), 3);
    db.add_one_day(day(2023, 12, 1));
    assert_eq!(db.get_calendar(), vec![day(2023, 12, 1), b, c, a]);
    db.delete_one_day(b);
    db.delete_one_day(day(2000, 1, 1));
    assert_eq!(db.get_calendar(), vec![day(2023, 12, 1), c, a]);
    assert_eq!(db.set_calendar(&[]), (3, 0));
    assert!(db.get_calendar().is_empty());
}

#[test]
fn named_dates_are_set_and_reset() {
    let mut db = Store::new(String::new());
    db.set_date("end-fall", day(2024, 1, 1));
    db.set_date("end-spring", day(2024, 6, 1));
    db.set_date("end-fall", day(2024, 1, 15));
    let dates: Vec<NamedDate> = db.get_dates();
    assert_eq!(dates.len(), 2);
    assert_eq!(dates[0].name, "end-fall");
    assert_eq!(dates[0].day, day(2024, 1, 15));
    assert_eq!(dates[1].name, "end-spring");
}

#[test]
fn courses_order_and_weigh_their_chapters() {
    let c = Course::new(5, "s".to_string(), None, "T".to_string(), 3)
        .with_chapters(vec![chapter(5, 10), chapter(-1, 20), chapter(5, 30), chapter(2, 40)]);
    let order: Vec<(i16, u32)> = c.all_chapters().iter().map(|c| (c.seq, c.weight)).collect();
    assert_eq!(order, vec![(-1, 20), (2, 40), (5, 10), (5, 30)]);
    assert_eq!(c.total_weight(), Some(100));
    assert_eq!(c.chapter(5).unwrap().weight, 10);
    assert_eq!(c.chapter(2).unwrap().weight, 40);
    assert!(c.chapter(3).is_none());
    let bare = Course::new(5, "s".to_string(), None, "T".to_string(), 3);
    assert_eq!(bare.total_weight(), None);
    assert!(bare.all_chapters().is_empty());
    assert_eq!(bare.with_chapters(vec![]).total_weight(), Some(0));
}

#[test]
fn a_base_user_becomes_whoever_the_role_says() {
    let base = |uname: &str, role: Role| BaseUser {
        uname: uname.to_string(),
        role,
        salt: "salt".to_string(),
        email: "e@x.y".to_string(),
    };
    assert_eq!(base("a", Role::Admin).into_admin().role(), Role::Admin);
    assert_eq!(base("b", Role::Boss).into_boss().role(), Role::Boss);
    match base("t", Role::Teacher).into_teacher("Ms T".to_string()) {
        User::Teacher(t) => assert_eq!((t.base.uname.as_str(), t.name.as_str()), ("t", "Ms T")),
        other => panic!("{:?} is no teacher", other),
    }
    let s = base("s", Role::Student).into_student(
        "Last".to_string(),
        "Rest".to_string(),
        "t".to_string(),
        "p@x.y".to_string(),
        Some("90".to_string()),
        None,
        200_000,
        300_000,
        1,
        2,
    );
    assert_eq!((s.uname(), s.salt(), s.email(), s.role()), ("s", "salt", "e@x.y", Role::Student));
    match s {
        User::Student(s) => {
            assert_eq!((s.last.as_str(), s.rest.as_str(), s.teacher.as_str()), ("Last", "Rest", "t"));
            assert_eq!((s.fall_exam.as_deref(), s.spring_exam.as_deref()), (Some("90"), None));
            assert_eq!((s.fall_exam_fraction, s.spring_exam_fraction), (200_000, 300_000));
            assert_eq!((s.fall_notices, s.spring_notices), (1, 2));
        },
        other => panic!("{:?} is no student", other),
    }
}

#[test]
fn a_batch_of_courses_is_refused_in_words_that_say_why() {
    let mut db = school();
    let n = db.get_courses().len();
    // Symbols that are taken, on record or earlier in the batch, each once.
    let r = db.insert_courses(&[
        course("new", &[1]),
        course("alg", &[1]),
        course("new", &[2]),
        course("alg", &[2]),
        course("new", &[3]),
    ]);
    assert_eq!(
        r.unwrap_err().display(),
        "Database already contains courses with the following symbols:\nalg\nnew\n"
    );
    let mut heavy = course("lead", &[]);
    heavy.chapters = vec![chapter(1, u32::MAX), chapter(3, u32::MAX), chapter(2, u32::MAX)];
    assert_eq!(db.insert_courses(&[heavy]).map_err(|e| e.display().to_string()), Ok((1, 3)));
    assert_eq!(db.get_courses().len(), n + 1);
    // The numbers run out in the middle of a batch: nothing of it stays.
    db.next_chapter_id = i64::MAX - 2;
    let first = db.next_course_id;
    let r = db.insert_courses(&[course("one", &[1, 2]), course("two", &[1])]);
    assert_eq!(r.unwrap_err().display(), "No more courses or chapters can be numbered.");
    assert_eq!(db.get_courses().len(), n + 1);
    assert_eq!((db.next_course_id, db.next_chapter_id), (first, i64::MAX - 2));
    assert!(db.get_course_by_sym("one").is_none());
    assert_eq!(db.insert_courses(&[course("one", &[2, 1])]).map_err(|e| e.display().to_string()), Ok((1, 2)));
    let one = db.get_course_by_sym("one").unwrap();
    let chapters: Vec<(i64, i64, i16, &str)> =
        one.chapters.iter().map(|c| (c.id, c.course_id, c.seq, c.title.as_str())).collect();
    assert_eq!(
        chapters,
        vec![(i64::MAX - 2, first, 1, "Chapter 1"), (i64::MAX - 1, first, 2, "Chapter 2")]
    );
}

#[test]
fn chapters_go_on_record_together_or_not_at_all() {
    let mut db = Store::new(TEST_CONNECTION.to_owned());
    db.insert_courses(&[course("alg", &[2]), course("geo", &[])]).unwrap();
    let in_course = |course_id: i64, seq: i16, title: &str| Chapter {
        id: 0,
        course_id,
        seq,
        title: title.to_string(),
        subject: None,
        weight: UNIT,
    };
    assert_eq!(
        db.insert_chapters(&[in_course(2, 5, "five"), in_course(1, 1, "one"), in_course(2, 3, "three")])
            .map_err(|e| e.display().to_string()),
        Ok(3)
    );
    let listed = |db: &Store, sym: &str| -> Vec<(i64, i16, String)> {
        db.get_course_by_sym(sym).unwrap().chapters.iter().map(|c| (c.id, c.seq, c.title.clone())).collect()
    };
    assert_eq!(
        listed(&db, "alg"),
        vec![(3, 1, "one".to_string()), (1, 2, "Chapter 2".to_string())]
    );
    assert_eq!(listed(&db, "geo"), vec![(4, 3, "three".to_string()), (2, 5, "five".to_string())]);
    assert_eq!(db.get_course_by_sym("geo").unwrap().weight, Some(2 * UNIT as u64));
    assert_eq!(db.next_chapter_id, 5);
    // One chapter for a course that is not on record: none of the batch stays.
    let r = db.insert_chapters(&[in_course(1, 9, "nine"), in_course(7, 1, "lost")]);
    assert_eq!(r.unwrap_err().display(), "There is no course with this id.");
    assert_eq!(listed(&db, "alg").len(), 2);
    assert_eq!(db.next_chapter_id, 5);
    assert_eq!(db.insert_chapters(&[]).map_err(|e| e.display().to_string()), Ok(0));
}
