use camp::auth::Db;
use camp::config::{load_configuration, Cfg, Glob};
use camp::course::{Chapter, Course, UNIT};
use camp::date::Date;
use camp::goals_csv::blank_means_none;
use camp::inter::teacher::{
    maybe_parse_date, CourseData, CourseDataError, GoalData, GoalDataError, PaceData, PaceDataError,
};
use camp::pace::{BookCh, CustomCh, Goal, Pace, Source};
use camp::records::{locate, Fault, Record, Table};
use camp::score::ScoreError;
use camp::store::Store;
use camp::user::{csv_file_to_staff, staff_from_rows, Role, Student, User};

fn day(y: i32, m: u8, d: u8) -> Date {
    Date::from_calendar_date(y, m, d).unwrap()
}

fn record(fields: &[&str]) -> Record {
    Record { line: Some(1), fields: fields.iter().map(|s| s.to_string()).collect() }
}

fn course(sym: &str, level: i64, weights: &[u32]) -> Course {
    let chapters: Vec<Chapter> = weights
        .iter()
        .enumerate()
        .map(|(n, w)| Chapter {
            id: 0,
            course_id: 0,
            seq: n as i16 + 1,
            title: format!("Chapter {}", n + 1),
            subject: None,
            weight: *w,
        })
        .collect();
    Course::new(0, sym.to_string(), None, format!("Course {}", sym), level).with_chapters(chapters)
}

fn school() -> Glob {
    let mut data = Store::new("d".to_string());
    data.insert_teacher("bob", "bob@school.com", "Mr Bob").unwrap();
    data.insert_teacher("sal", "sally@school.com", "Ms Sally, not Sal Khan").unwrap();
    let mut studs = Student::vec_from_csv_reader(
        "jsmith, Smith, John, lil.j.smithy@gmail.com, js.senior@gmail.com, bob\n\
         eparker, Parker, Ellen, ep@gmail.com, parker@gmail.com, sal\n",
    )
    .unwrap();
    data.insert_students(&mut studs).unwrap();
    data.insert_courses(&[course("pha1", 7_000_000, &[UNIT; 10]), course("alg", 8_000_000, &[UNIT, 3 * UNIT])])
        .unwrap();
    load_configuration(&Cfg::default(), Db::new("a".to_string()), data, 0).unwrap()
}

#[test]
fn students_from_csv() {
    let text = "#uname, last,   rest, email,                    parent,                 teacher\n\
                jsmith, Smith,  John, lil.j.smithy@gmail.com,   js.senior@gmail.com,    jenny\n\
                \"doe, j\",\" Doe \",\"Jane \"\"JD\"\"\",jd@x.y,,irfan\n";
    let studs = Student::vec_from_csv_reader(text).unwrap();
    assert_eq!(studs.len(), 2);
    let s = &studs[0];
    assert_eq!(s.base.uname, "jsmith");
    assert_eq!(s.base.role, Role::Student);
    assert_eq!(s.base.salt, "");
    assert_eq!(s.base.email, "lil.j.smithy@gmail.com");
    assert_eq!(s.last, "Smith");
    assert_eq!(s.rest, "John");
    assert_eq!(s.parent, "js.senior@gmail.com");
    assert_eq!(s.teacher, "jenny");
    assert_eq!((s.fall_exam.clone(), s.spring_exam.clone()), (None, None));
    assert_eq!((s.fall_exam_fraction, s.spring_exam_fraction), (200_000, 200_000));
    assert_eq!((s.fall_notices, s.spring_notices), (0, 0));
    let s = &studs[1];
    assert_eq!(s.base.uname, "doe, j");
    assert_eq!(s.last, "Doe");
    assert_eq!(s.rest, "Jane \"JD\"");
    assert_eq!(s.parent, "");
    assert!(Student::vec_from_csv_reader("").unwrap().is_empty());
    assert!(Student::vec_from_csv_reader("# nothing but a comment\n").unwrap().is_empty());
}

#[test]
fn student_records_have_six_fields() {
    assert_eq!(Student::from_csv_line(&record(&[])).unwrap_err(), "no uname");
    assert_eq!(Student::from_csv_line(&record(&["a"])).unwrap_err(), "no email address");
    assert_eq!(Student::from_csv_line(&record(&["a", "b", "c"])).unwrap_err(), "no email address");
    assert_eq!(Student::from_csv_line(&record(&["a", "b", "c", "d"])).unwrap_err(), "no teacher uname");
    assert_eq!(
        Student::from_csv_line(&record(&["a", "b", "c", "d", "e"])).unwrap_err(),
        "no teacher uname"
    );
    assert!(Student::from_csv_line(&record(&["a", "b", "c", "d", "e", "f", "g"])).is_ok());
    assert_eq!(
        Student::vec_from_csv_reader("a,b,c\nd,e,f\n").unwrap_err(),
        "Error on line 1: no email address"
    );
    // A record of another length than the first stops the reading.
    let e = Student::vec_from_csv_reader("a,b,c,d,e,f\ng,h,i\n").unwrap_err();
    assert!(e.starts_with("Error on line 2: "), "{}", e);
    assert!(e.contains("3 fields"), "{}", e);
    // What is wrong with an earlier record is reported first.
    let table = Table {
        rows: vec![record(&["a", "b", "c", "d", "e", "f"]), Record { line: None, fields: vec![] }],
        fault: Some(Fault { line: Some(9), message: "broken".to_string() }),
    };
    assert_eq!(Student::vec_from_rows(&table).unwrap_err(), "Error in CSV record 1: no uname");
    let table = Table {
        rows: vec![record(&["a", "b", "c", "d", "e", "f"])],
        fault: Some(Fault { line: Some(9), message: "broken".to_string() }),
    };
    assert_eq!(Student::vec_from_rows(&table).unwrap_err(), "Error on line 9: broken");
    assert_eq!(locate(None, 12, "m"), "Error in CSV record 12: m");
}

#[test]
fn staff_from_csv() {
    let text = "role, uname, email, name\n\
                a,    root,  root@not.an.email\n\
                B,    boss,  boss@our.system.com\n\
                # a comment\n\
                t,    jenny, jenny@camelotacademy.org, Jenny Feaster\n\
                T,    irfan, irfan@camelotacademy.org, Irfan Azam, and more\n";
    let staff = csv_file_to_staff(text).unwrap();
    assert_eq!(staff.len(), 4);
    assert!(matches!(&staff[0], User::Admin(b) if b.uname == "root" && b.email == "root@not.an.email"));
    assert!(matches!(&staff[1], User::Boss(b) if b.uname == "boss" && b.role == Role::Boss));
    assert!(matches!(&staff[2], User::Teacher(t) if t.name == "Jenny Feaster" && t.base.uname == "jenny"));
    assert!(matches!(&staff[3], User::Teacher(t) if t.name == "Irfan Azam"));
    assert!(staff.iter().all(|u| u.salt().is_empty()));
    // The first line is the header, whatever it says.
    assert!(csv_file_to_staff("a, root, r@x.y\n").unwrap().is_empty());
    assert_eq!(
        csv_file_to_staff("role, uname\ns, kid, k@x.y\n").unwrap_err(),
        "Line 0: unrecognized role: s"
    );
    assert_eq!(
        csv_file_to_staff("h\na, root, r@x.y\nt, jenny, j@x.y\n").unwrap_err(),
        "Line 1: no name for teacher."
    );
    assert_eq!(csv_file_to_staff("h\na\n").unwrap_err(), "Line 0: no uname.");
    assert_eq!(csv_file_to_staff("h\nb, boss\n").unwrap_err(), "Line 0: no email.");
    let table = Table { rows: vec![Record { line: None, fields: vec![] }], fault: None };
    assert_eq!(staff_from_rows(&table).unwrap_err(), "Line 0: no role.");
}

#[test]
fn blank_fields_hold_nothing() {
    assert_eq!(blank_means_none(None), None);
    assert_eq!(blank_means_none(Some("")), None);
    assert_eq!(blank_means_none(Some(" \t")), None);
    assert_eq!(blank_means_none(Some(" x y ")), Some("x y"));
}

#[test]
fn goal_records() {
    let first = Goal::from_csv_line(&record(&["jsmith", "pha1", "3", "2022", "09", "10", "x", ""]), None)
        .unwrap();
    assert_eq!(first.uname, "jsmith");
    assert_eq!(first.id, 0);
    assert!(matches!(&first.source, Source::Book(b) if b.sym == "pha1" && b.seq == 3 && b.level == 0));
    assert_eq!(first.due, Some(day(2022, 9, 10)));
    assert!(first.review && !first.incomplete);
    assert_eq!((first.done, first.tries, first.weight, first.score.clone()), (None, 0, 0, None));
    // Name, symbol, year and month are those of the goal before.
    let next = Goal::from_csv_line(&record(&["", " ", "9", "", "", "28", "", "x"]), Some(&first)).unwrap();
    assert_eq!(next.uname, "jsmith");
    assert!(matches!(&next.source, Source::Book(b) if b.sym == "pha1" && b.seq == 9));
    assert_eq!(next.due, Some(day(2022, 9, 28)));
    assert!(!next.review && next.incomplete);
    // Fields that are missing at the end are blank.
    let short = Goal::from_csv_line(&record(&["", "", "-4", "", "12", " 31 "]), Some(&next)).unwrap();
    assert!(matches!(&short.source, Source::Book(b) if b.seq == -4));
    assert_eq!(short.due, Some(day(2022, 12, 31)));
    assert!(!short.review && !short.incomplete);
}

#[test]
fn goal_records_that_say_nothing() {
    let ok = Goal::from_csv_line(&record(&["u", "s", "1", "2024", "2", "29"]), None).unwrap();
    let read = |fields: &[&str], prev: Option<&Goal>| Goal::from_csv_line(&record(fields), prev).unwrap_err();
    assert_eq!(read(&["", "s", "1", "2024", "1", "1"], None), "No uname");
    assert_eq!(read(&["u", "s", "", "2024", "1", "1"], None), "No chapter number.");
    assert_eq!(read(&["u", "s"], None), "No chapter number.");
    assert_eq!(read(&["u", "s", "x1", "2024", "1", "1"], None), "Unable to parse x1 as number.");
    assert_eq!(read(&["u", "s", "40000", "2024", "1", "1"], None), "Unable to parse 40000 as number.");
    assert_eq!(read(&["u", "", "1", "2024", "1", "1"], None), "No course symbol.");
    assert_eq!(read(&["u", "s", "1", "", "1", "1"], None), "No year");
    assert_eq!(read(&["u", "s", "1", "y", "1", "1"], None), "Unable to parse y as year.");
    assert_eq!(read(&["u", "s", "1", "2024", "", "1"], None), "No month");
    assert_eq!(read(&["u", "s", "1", "2024", "m", "1"], None), "Unable to parse m as month number.");
    assert_eq!(read(&["u", "s", "1", "2024", "-1", "1"], None), "Unable to parse -1 as month number.");
    assert_eq!(read(&["u", "s", "1", "2024", "0", "1"], None), "Not an appropriate Month value: 0");
    assert_eq!(read(&["u", "s", "1", "2024", "13", "1"], None), "Not an appropriate Month value: 13");
    assert_eq!(read(&["u", "s", "1", "2024", "1", ""], Some(&ok)), "No day");
    assert_eq!(read(&["u", "s", "1", "2024", "1", "256"], None), "Unable to parse 256 as day number.");
    assert_eq!(read(&["u", "s", "1", "2023", "2", "29"], None), "2023-2-29 is not a valid date");
    assert_eq!(read(&["u", "s", "1", "-20000", "2", "1"], None), "-20000-2-1 is not a valid date");
    assert_eq!(read(&["u", "s", "1", "2024", "4", "31"], Some(&ok)), "2024-4-31 is not a valid date");
    // A goal before that has no due date or is no chapter of a book hands nothing on.
    let mut bare = Goal::from_csv_line(&record(&["u", "s", "1", "2024", "2", "29"]), None).unwrap();
    bare.due = None;
    assert_eq!(read(&["", "", "1", "", "3", "1"], Some(&bare)), "No year");
    assert_eq!(read(&["", "", "1", "2024", "", "1"], Some(&bare)), "No month");
    bare.source = Source::Custom(CustomCh(1));
    assert_eq!(read(&["", "", "1", "2024", "1", "1"], Some(&bare)), "No course symbol.");
}

#[test]
fn goals_from_csv() {
    let glob = school();
    let text = "#uname, sym, seq,     y, m,  d, rev, inc\n\
                jsmith, pha1,  3, 2022, 09, 10,   x,\n\
                      ,     ,  9,     ,   , 28,    ,  x\n\
                eparker, alg, 2, 2022, 10, 1\n\
                jsmith, pha1, 1, 2022, 09, 10\n\
                      , alg,  1,     ,   , 5\n";
    let paces = Pace::from_csv(text, &glob).unwrap();
    assert_eq!(paces.len(), 2);
    let p = &paces[0];
    assert_eq!(p.student.base.uname, "jsmith");
    assert_eq!(p.student.last, "Smith");
    assert_eq!(p.teacher.base.uname, "bob");
    assert_eq!(p.teacher.name, "Mr Bob");
    let goals: Vec<(String, i16, Date, u32, i64)> = p
        .goals
        .iter()
        .map(|g| match &g.source {
            Source::Book(b) => (b.sym.clone(), b.seq, g.due.unwrap(), g.weight, b.level),
            Source::Custom(_) => panic!("a book chapter was expected"),
        })
        .collect();
    assert_eq!(
        goals,
        vec![
            ("alg".to_string(), 1, day(2022, 9, 5), 250_000, 8_000_000),
            ("pha1".to_string(), 1, day(2022, 9, 10), 100_000, 7_000_000),
            ("pha1".to_string(), 3, day(2022, 9, 10), 100_000, 7_000_000),
            ("pha1".to_string(), 9, day(2022, 9, 28), 100_000, 7_000_000),
        ]
    );
    assert_eq!(p.total_weight, 550_000);
    assert_eq!((p.due_weight, p.done_weight), (0, 0));
    let p = &paces[1];
    assert_eq!(p.student.base.uname, "eparker");
    assert_eq!(p.teacher.base.uname, "sal");
    assert_eq!(p.goals.len(), 1);
    assert_eq!(p.goals[0].weight, 750_000);
    assert_eq!(p.total_weight, 750_000);
    assert!(Pace::from_csv("", &glob).unwrap().is_empty());
}

#[test]
fn uploads_that_are_refused() {
    let glob = school();
    assert_eq!(
        Pace::from_csv("jsmith, pha1, 3, 2022, 09, 10\nbob, pha1, 3, , , 11\n", &glob).unwrap_err(),
        "Error on line 2: bob is not a student user name."
    );
    assert_eq!(
        Pace::from_csv("jsmith, pha1, 11, 2022, 09, 10\n", &glob).unwrap_err(),
        "Error on line 1: Course pha1 does not have that chapter."
    );
    assert_eq!(
        Pace::from_csv("jsmith, nope, 1, 2022, 09, 10\n", &glob).unwrap_err(),
        "Error on line 1: nope is not a course symbol."
    );
    assert_eq!(
        Pace::from_csv("jsmith, pha1, 1, 2022, 09, 10\n, , , , , 11\n", &glob).unwrap_err(),
        "Error on line 2: No chapter number."
    );
    // A student whose teacher the working set does not hold.
    let mut orphaned = school();
    orphaned.users.retain(|u| u.uname() != "bob");
    assert!(Pace::from_csv("jsmith, pha1, 1, 2022, 09, 10\n", &orphaned).is_err());
    assert!(Pace::from_csv("eparker, pha1, 1, 2022, 09, 10\n", &orphaned).is_ok());
}

#[test]
fn dates_are_read_and_written() {
    assert_eq!(Date::parse("2024-01-15"), Some(day(2024, 1, 15)));
    assert_eq!(Date::parse("2024-02-29"), Some(day(2024, 2, 29)));
    assert_eq!(Date::parse("2023-02-29"), None);
    assert_eq!(Date::parse("2024-1-15"), None);
    assert_eq!(Date::parse("15.01.2024"), None);
    assert_eq!(Date::parse(""), None);
    assert_eq!(day(2024, 1, 5).to_string(), "2024-01-05");
    assert_eq!(day(987, 12, 31).to_string(), "0987-12-31");
    assert_eq!(Date::parse(&day(1999, 12, 31).to_string()), Some(day(1999, 12, 31)));
    assert_eq!(day(2024, 1, 1).days_until(&day(2024, 12, 31)), 365);
    assert_eq!(day(2024, 3, 1).days_until(&day(2024, 2, 28)), -2);
    assert_eq!(day(2023, 3, 1).days_until(&day(2023, 2, 28)), -1);
    assert_eq!(day(2024, 3, 1).days_until(&day(2024, 3, 1)), 0);
    assert!(day(2024, 3, 1).is_valid());
    assert!(!Date { year: 2024, month: 2, day: 30 }.is_valid());
    assert_eq!(maybe_parse_date(None), Ok(None));
    assert_eq!(maybe_parse_date(Some("2024-03-01")), Ok(Some(day(2024, 3, 1))));
    assert_eq!(
        maybe_parse_date(Some("soon")),
        Err("Unable to parse soon as Date.".to_string())
    );
}

#[test]
fn goals_of_a_teachers_page() {
    let data = GoalData {
        id: 5,
        uname: "kid".to_string(),
        sym: "alg".to_string(),
        seq: 2,
        rev: true,
        inc: false,
        due: Some("2024-03-01".to_string()),
        done: None,
        tries: 1,
        weight: 9,
        score: Some("87%".to_string()),
    };
    let g = GoalData { ..data }.into_goal().unwrap();
    assert_eq!((g.id, g.uname.as_str(), g.tries, g.weight), (5, "kid", 1, 9));
    assert!(matches!(&g.source, Source::Book(b) if b.sym == "alg" && b.seq == 2));
    assert_eq!(g.due, Some(day(2024, 3, 1)));
    assert_eq!(g.done, None);
    assert_eq!(g.score, Some("87%".to_string()));
    assert!(g.review && !g.incomplete);
    let bad = |f: fn(&mut GoalData)| {
        let mut d = GoalData {
            id: 5,
            uname: "kid".to_string(),
            sym: "alg".to_string(),
            seq: 2,
            rev: true,
            inc: false,
            due: Some("2024-03-01".to_string()),
            done: None,
            tries: 1,
            weight: 9,
            score: Some("87%".to_string()),
        };
        f(&mut d);
        d.into_goal().unwrap_err()
    };
    assert_eq!(bad(|d| d.score = Some("much".to_string())), GoalDataError::BadScore(ScoreError::Malformed));
    assert_eq!(bad(|d| d.score = Some("870".to_string())), GoalDataError::BadScore(ScoreError::OutOfRange));
    assert_eq!(bad(|d| d.due = Some("March".to_string())), GoalDataError::BadDue);
    assert_eq!(bad(|d| d.done = Some("2024-02-30".to_string())), GoalDataError::BadDone);
    assert_eq!(
        bad(|d| {
            d.score = Some("x".to_string());
            d.due = Some("y".to_string());
        }),
        GoalDataError::BadScore(ScoreError::Malformed)
    );
}

#[test]
fn courses_of_a_teachers_page() {
    let mut c = course("alg", 3, &[UNIT, 3 * UNIT]);
    c.id = 4;
    let d = CourseData::from_course(&c).unwrap();
    assert_eq!((d.id, d.sym.as_str(), d.level, d.weight), (4, "alg", 3, 4 * UNIT as u64));
    let shares: Vec<(i16, u32, &str)> =
        d.chapters.iter().map(|ch| (ch.seq, ch.weight, ch.sym.as_str())).collect();
    assert_eq!(shares, vec![(1, 250_000, "alg"), (2, 750_000, "alg")]);
    assert_eq!(
        CourseData::from_course(&course("light", 0, &[99])).unwrap_err(),
        CourseDataError::TooLight
    );
    assert_eq!(
        CourseData::from_course(&course("none", 0, &[])).unwrap_err(),
        CourseDataError::TooLight
    );
    assert!(CourseData::from_course(&course("just", 0, &[100])).is_ok());
}

#[test]
fn pace_calendars_of_a_teachers_page() {
    let glob = school();
    let mut paces = Pace::from_csv("jsmith, alg, 2, 2022, 09, 10, x\n, pha1, 1, , , 11\n", &glob).unwrap();
    let mut p = paces.remove(0);
    p.goals[1].done = Some(day(2022, 9, 12));
    p.goals[1].score = Some("90".to_string());
    p.student.fall_exam = Some("77".to_string());
    let d = PaceData::from_pace(&p).unwrap();
    assert_eq!((d.uname.as_str(), d.last.as_str(), d.rest.as_str()), ("jsmith", "Smith", "John"));
    assert_eq!(d.tuname, "bob");
    assert_eq!(d.total_weight, 850_000);
    assert_eq!(d.fex, Some("77".to_string()));
    assert_eq!(d.fex_frac, 200_000);
    assert_eq!(d.goals.len(), 2);
    assert_eq!(d.goals[0].uname, "");
    assert_eq!(d.goals[0].sym, "alg");
    assert_eq!(d.goals[0].due, Some("2022-09-10".to_string()));
    assert_eq!(d.goals[0].done, None);
    assert!(d.goals[0].rev);
    assert_eq!(d.goals[0].weight, 750_000);
    assert_eq!(d.goals[1].done, Some("2022-09-12".to_string()));
    assert_eq!(d.goals[1].score, Some("90".to_string()));
    p.goals[1].due = Some(Date { year: 2022, month: 13, day: 1 });
    assert_eq!(PaceData::from_pace(&p).unwrap_err(), PaceDataError::BadDate);
    p.goals[0].source = Source::Custom(CustomCh(2));
    assert_eq!(PaceData::from_pace(&p).unwrap_err(), PaceDataError::CustomSource);
    let _ = BookCh { sym: String::new(), seq: 0, level: 0 };
}

/// Writes records as comma-separated text, with the `csv` crate's writer.
fn written(records: &[Record]) -> String {
    let mut w = csv::WriterBuilder::new().flexible(true).from_writer(Vec::new());
    for r in records {
        w.write_record(r.fields.iter()).unwrap();
    }
    String::from_utf8(w.into_inner().unwrap()).unwrap()
}

#[test]
fn students_read_written_and_read_again_are_the_same() {
    let text = "jsmith, Smith,  John, lil.j.smithy@gmail.com,   js.senior@gmail.com,    jenny\n\
                \"doe, j\",\" Doe \",\"Jane \"\"JD\"\"\",jd@x.y,,irfan\n";
    let first = Student::vec_from_csv_reader(text).unwrap();
    let lines: Vec<Record> = first.iter().map(|s| s.to_csv_line()).collect();
    assert_eq!(
        lines[0].fields,
        vec!["jsmith", "Smith", "John", "lil.j.smithy@gmail.com", "js.senior@gmail.com", "jenny"]
    );
    let again = Student::vec_from_csv_reader(&written(&lines)).unwrap();
    assert_eq!(format!("{:?}", again), format!("{:?}", first));
    let direct = Student::vec_from_rows(&Table { rows: lines, fault: None }).unwrap();
    assert_eq!(format!("{:?}", direct), format!("{:?}", first));
}

#[test]
fn staff_read_written_and_read_again_are_the_same() {
    let text = "role, uname, email, name\nA, root, r@x.y\nb, boss, b@x.y\nT, jenny, j@x.y,\"Feaster, Jenny\"\n";
    let first = csv_file_to_staff(text).unwrap();
    let mut lines = vec![record(&["role", "uname", "email", "name"])];
    for u in first.iter() {
        lines.push(u.to_staff_line().unwrap());
    }
    assert_eq!(lines[1].fields, vec!["a", "root", "r@x.y"]);
    assert_eq!(lines[3].fields, vec!["t", "jenny", "j@x.y", "Feaster, Jenny"]);
    let again = csv_file_to_staff(&written(&lines)).unwrap();
    assert_eq!(format!("{:?}", again), format!("{:?}", first));
    let student = Student::vec_from_csv_reader("a,b,c,d,e,f\n").unwrap().remove(0);
    assert!(User::Student(student).to_staff_line().is_none());
}

#[test]
fn goals_read_written_and_read_again_are_the_same() {
    let rows = [
        record(&["jsmith", "pha1", "3", "2022", "09", "10", "x", ""]),
        record(&["", " ", "-9", "", "", "28", "", "yes"]),
        record(&["eparker", "alg", "+2", "-44", "3", "15"]),
    ];
    let mut first: Vec<Goal> = Vec::new();
    for r in rows.iter() {
        let g = Goal::from_csv_line(r, first.last()).unwrap();
        first.push(g);
    }
    let lines: Vec<Record> = first.iter().map(|g| g.to_csv_line().unwrap()).collect();
    assert_eq!(lines[1].fields, vec!["jsmith", "pha1", "-9", "2022", "9", "28", "", "x"]);
    assert_eq!(lines[2].fields, vec!["eparker", "alg", "2", "-44", "3", "15", "", ""]);
    // Each record says everything: what the record before hands on does not matter.
    for (g, line) in first.iter().zip(lines.iter()) {
        assert!(Goal::from_csv_line(line, None).unwrap() == *g);
        assert!(Goal::from_csv_line(line, first.first()).unwrap() == *g);
    }
    let text = written(&lines);
    let glob = school();
    let table_text = "jsmith, pha1, 3, 2022, 09, 10, x\n, , 9, , , 28, , x\n";
    let paces = Pace::from_csv(table_text, &glob).unwrap();
    let emitted: Vec<Record> = paces[0].goals.iter().map(|g| g.to_csv_line().unwrap()).collect();
    let again = Pace::from_csv(&written(&emitted), &glob).unwrap();
    assert_eq!(again.len(), 1);
    assert!(again[0].goals == paces[0].goals);
    assert_eq!(again[0].total_weight, paces[0].total_weight);
    assert!(text.starts_with("jsmith,pha1,3,2022,9,10,x,\n"));
    // A goal without a due date has no record, and neither has a custom one.
    let mut g = first.remove(0);
    g.due = None;
    assert!(g.to_csv_line().is_none());
    g.due = Some(day(2024, 1, 1));
    g.source = Source::Custom(CustomCh(1));
    assert!(g.to_csv_line().is_none());
}

#[test]
fn goals_are_the_same_whatever_they_weigh() {
    let a = Goal::from_csv_line(&record(&["u", "s", "1", "2024", "2", "29"]), None).unwrap();
    let mut b = a.clone();
    b.weight = 5;
    if let Source::Book(bk) = &mut b.source {
        bk.level = 9;
    }
    assert!(a == b);
    b.tries = 1;
    assert!(a != b);
    let mut c = a.clone();
    c.score = Some("1".to_string());
    assert!(a != c);
    let mut d = a.clone();
    d.source = Source::Book(BookCh { sym: "s".to_string(), seq: 2, level: 0 });
    assert!(a != d);
    assert!(Source::Custom(CustomCh(1)) == Source::Custom(CustomCh(1)));
    assert!(Source::Custom(CustomCh(1)) != Source::Custom(CustomCh(2)));
    assert!(a.source != Source::Custom(CustomCh(1)));
}
