use camp::auth::Db;
use camp::autopace::AutopaceError;
use camp::config::{load_configuration, Cfg, Glob};
use camp::course::{Chapter, Course, UNIT};
use camp::date::Date;
use camp::inter::boss::{cal_goal, cal_table, make_boss_calendars, pace_table, CalError};
use camp::inter::page::{write_summary, PageError, PageRow};
use camp::inter::student::{goal_row, summary, ReportError, RowError, Sem, Summary, Term};
use camp::order::{sort, Ranked};
use camp::pace::{
    affirm_goal, done_weight_of, due_weight_of, total_weight_of, BookCh, CustomCh, Goal,
    GoalStatus, Pace, PaceError, Source,
};
use camp::score::ScoreError;
use camp::store::Store;
use camp::user::{BaseUser, Role, Student, Teacher, User};

fn day(y: i32, m: u8, d: u8) -> Date {
    Date::from_calendar_date(y, m, d).unwrap()
}

fn chapter(seq: i16, weight: u32) -> Chapter {
    Chapter {
        id: 0,
        course_id: 0,
        seq,
        title: format!("Chapter {}", seq),
        subject: None,
        weight,
    }
}

fn course(sym: &str, level: i64, weights: &[u32]) -> Course {
    let chapters: Vec<Chapter> = weights
        .iter()
        .enumerate()
        .map(|(n, w)| chapter(n as i16 + 1, *w))
        .collect();
    Course::new(0, sym.to_string(), Some("Book".to_string()), format!("Course {}", sym), level)
        .with_chapters(chapters)
}

fn student(uname: &str, teacher: &str) -> Student {
    Student {
        base: BaseUser {
            uname: uname.to_string(),
            role: Role::Student,
            salt: String::new(),
            email: format!("{}@school.com", uname),
        },
        last: "Last".to_string(),
        rest: "Rest".to_string(),
        teacher: teacher.to_string(),
        parent: "parent@home.com".to_string(),
        fall_exam: None,
        spring_exam: None,
        fall_exam_fraction: 200_000,
        spring_exam_fraction: 200_000,
        fall_notices: 0,
        spring_notices: 0,
    }
}

fn teacher(uname: &str) -> Teacher {
    Teacher {
        base: BaseUser {
            uname: uname.to_string(),
            role: Role::Teacher,
            salt: String::new(),
            email: format!("{}@school.com", uname),
        },
        name: format!("Ms {}", uname),
    }
}

/// A working set with a teacher `jenny`, her student `s`, and the courses given.
fn world(courses: Vec<Course>) -> Glob {
    let mut data = Store::new("data".to_string());
    data.insert_user(User::Teacher(teacher("jenny"))).unwrap();
    data.insert_user(User::Student(student("s", "jenny"))).unwrap();
    data.insert_courses(&courses).unwrap();
    load_configuration(&Cfg::default(), Db::new("auth".to_string()), data, 0).unwrap()
}

fn goal(uname: &str, sym: &str, seq: i16, due: Option<Date>, done: Option<Date>, score: Option<&str>) -> Goal {
    Goal {
        id: seq as i64,
        uname: uname.to_string(),
        source: Source::Book(BookCh { sym: sym.to_string(), seq, level: 0 }),
        review: false,
        incomplete: false,
        due,
        done,
        tries: 0,
        weight: 0,
        score: score.map(|s| s.to_string()),
    }
}

fn pace_of(glob: &Glob, goals: Vec<Goal>, today: &Date) -> Pace {
    Pace::new(student("s", "jenny"), teacher("jenny"), goals, glob, today).unwrap()
}

#[test]
fn pace_arithmetic() {
    let glob = world(vec![course("c", 1_000_000, &[UNIT, UNIT, 2 * UNIT])]);
    let today = day(2024, 1, 15);
    let goals = vec![
        goal("s", "c", 1, Some(day(2024, 1, 10)), Some(day(2024, 1, 8)), Some("100%")),
        goal("s", "c", 2, Some(day(2024, 1, 12)), None, None),
        goal("s", "c", 3, Some(day(2024, 2, 1)), None, None),
    ];
    let p = pace_of(&glob, goals, &today);
    let weights: Vec<u32> = p.goals.iter().map(|g| g.weight).collect();
    assert_eq!(weights, vec![250_000, 250_000, 500_000]);
    assert_eq!(p.due_weight, 500_000);
    assert_eq!(p.done_weight, 250_000);
    assert_eq!(p.total_weight, 1_000_000);
    assert_eq!(p.lag(), -25);
}

#[test]
fn get_one_pace() {
    let mut glob = world(vec![course("c", 1_000_000, &[UNIT, UNIT, 2 * UNIT])]);
    let goals = vec![
        goal("s", "c", 3, Some(day(2024, 2, 1)), None, None),
        goal("s", "c", 1, Some(day(2024, 1, 10)), None, None),
    ];
    assert_eq!(glob.insert_goals(&goals).unwrap(), 2);
    let p = glob.get_pace_by_student("s", &day(2024, 1, 15)).unwrap();
    assert_eq!(p.student.base.uname, "s");
    assert_eq!(p.teacher.base.uname, "jenny");
    let seqs: Vec<i16> = p
        .goals
        .iter()
        .map(|g| match &g.source {
            Source::Book(b) => b.seq,
            Source::Custom(_) => panic!("No custom chapters!"),
        })
        .collect();
    assert_eq!(seqs, vec![1, 3]);
    assert_eq!(p.total_weight, 750_000);
    assert_eq!(p.due_weight, 250_000);
    assert!(glob.get_pace_by_student("jenny", &day(2024, 1, 15)).is_err());
    assert!(glob.get_pace_by_student("nobody", &day(2024, 1, 15)).is_err());
}

#[test]
fn goals_are_weighed_and_levelled() {
    let glob = world(vec![course("c", 2_500_000, &[UNIT, 3 * UNIT])]);
    let g = affirm_goal(goal("s", "c", 2, None, None, None), &glob).unwrap();
    assert_eq!(g.weight, 750_000);
    match &g.source {
        Source::Book(b) => assert_eq!(b.level, 2_500_000),
        Source::Custom(_) => panic!("a book chapter was expected"),
    }
    // A third is not a whole number of millionths: the share is cut off.
    let thirds = world(vec![course("t", 0, &[UNIT, UNIT, UNIT])]);
    let g = affirm_goal(goal("s", "t", 1, None, None, None), &thirds).unwrap();
    assert_eq!(g.weight, 333_333);
}

#[test]
fn goals_that_cannot_be_affirmed() {
    let glob = world(vec![course("c", 0, &[UNIT]), course("light", 0, &[99]), course("empty", 0, &[])]);
    assert!(matches!(
        affirm_goal(goal("jenny", "c", 1, None, None, None), &glob),
        Err(PaceError::NotStudent(u)) if u == "jenny"
    ));
    assert!(matches!(
        affirm_goal(goal("nobody", "c", 1, None, None, None), &glob),
        Err(PaceError::NotStudent(u)) if u == "nobody"
    ));
    assert!(matches!(
        affirm_goal(goal("s", "x", 1, None, None, None), &glob),
        Err(PaceError::NoCourse(s)) if s == "x"
    ));
    assert!(matches!(
        affirm_goal(goal("s", "c", 2, None, None, None), &glob),
        Err(PaceError::NoChapter(s, 2)) if s == "c"
    ));
    assert!(matches!(
        affirm_goal(goal("s", "light", 1, None, None, None), &glob),
        Err(PaceError::TooLight(s)) if s == "light"
    ));
    let mut custom = goal("s", "c", 1, None, None, None);
    custom.source = Source::Custom(CustomCh(7));
    assert!(matches!(affirm_goal(custom, &glob), Err(PaceError::CustomSource)));
    assert_eq!(
        PaceError::NoCourse("x".to_string()).message(),
        "x is not a course symbol."
    );
    // A course that was never given its chapters has no weight to divide by.
    let mut bare = world(vec![]);
    bare.courses.push(Course::new(9, "bare".to_string(), None, "Bare".to_string(), 0));
    bare.courses[0].chapters.push(chapter(1, UNIT));
    assert!(matches!(
        affirm_goal(goal("s", "bare", 1, None, None, None), &bare),
        Err(PaceError::Unweighted(s)) if s == "bare"
    ));
}

#[test]
fn goals_sort_by_due_then_done_then_level_and_chapter() {
    let d1 = day(2024, 1, 1);
    let d2 = day(2024, 1, 2);
    let mut a = goal("s", "c", 1, Some(d1), None, None);
    a.id = 1;
    let mut b = goal("s", "c", 2, Some(d2), None, None);
    b.id = 2;
    let mut c = goal("s", "c", 3, None, None, None);
    c.id = 3;
    let mut d = goal("s", "c", 4, Some(d1), Some(d1), None);
    d.id = 4;
    let mut e = goal("s", "c", 5, Some(d1), Some(d2), None);
    e.id = 5;
    let mut f = goal("s", "c", 0, Some(d1), None, None);
    f.id = 6;
    let mut g = goal("s", "c", 9, Some(d1), None, None);
    g.id = 7;
    if let Source::Book(bk) = &mut g.source {
        bk.level = -5;
    }
    let mut h = goal("s", "c", 7, None, Some(d1), None);
    h.id = 8;
    let mut v = vec![a, b, c, d, e, f, g, h];
    sort(&mut v);
    let ids: Vec<i64> = v.iter().map(|g| g.id).collect();
    // Due on the first: done on the first, done on the second, then the three
    // that are not done by level and chapter; then due on the second; then
    // the two without a due date, the completed one first.
    assert_eq!(ids, vec![4, 5, 7, 6, 1, 2, 8, 3]);
    assert!(v[0].is_before(&v[1]));
    assert!(!v[1].is_before(&v[0]));
}

#[test]
fn sorting_keeps_equal_goals_in_their_order() {
    let d1 = day(2024, 1, 1);
    let mut v = Vec::new();
    for id in 0..6 {
        let mut g = goal("s", "c", 1, Some(d1), None, None);
        g.id = id;
        v.push(g);
    }
    sort(&mut v);
    let ids: Vec<i64> = v.iter().map(|g| g.id).collect();
    assert_eq!(ids, vec![0, 1, 2, 3, 4, 5]);
    // Two computations over the same goals give the same order.
    let glob = world(vec![course("c", 0, &[UNIT])]);
    let today = day(2024, 1, 15);
    let one = pace_of(&glob, v.iter().cloned().rev().collect(), &today);
    let two = pace_of(&glob, v.iter().cloned().rev().collect(), &today);
    let a: Vec<i64> = one.goals.iter().map(|g| g.id).collect();
    let b: Vec<i64> = two.goals.iter().map(|g| g.id).collect();
    assert_eq!(a, b);
    assert_eq!(a, vec![5, 4, 3, 2, 1, 0]);
}

#[test]
fn goal_status() {
    let today = day(2024, 1, 15);
    let before = day(2024, 1, 10);
    let after = day(2024, 1, 20);
    assert_eq!(goal("s", "c", 1, Some(after), Some(before), None).status(&today), GoalStatus::Done);
    assert_eq!(goal("s", "c", 1, Some(before), Some(before), None).status(&today), GoalStatus::Done);
    assert_eq!(goal("s", "c", 1, None, Some(before), None).status(&today), GoalStatus::Done);
    assert_eq!(goal("s", "c", 1, Some(before), Some(after), None).status(&today), GoalStatus::Late);
    assert_eq!(goal("s", "c", 1, Some(before), None, None).status(&today), GoalStatus::Overdue);
    assert_eq!(goal("s", "c", 1, Some(today), None, None).status(&today), GoalStatus::Yet);
    assert_eq!(goal("s", "c", 1, Some(after), None, None).status(&today), GoalStatus::Yet);
    assert_eq!(goal("s", "c", 1, None, None, None).status(&today), GoalStatus::Yet);
}

#[test]
fn weights_are_added_up() {
    let today = day(2024, 1, 15);
    let mut a = goal("s", "c", 1, Some(day(2024, 1, 14)), Some(day(2024, 1, 15)), None);
    a.weight = 10;
    let mut b = goal("s", "c", 2, Some(day(2024, 1, 15)), Some(day(2024, 1, 1)), None);
    b.weight = 200;
    let mut c = goal("s", "c", 3, None, None, None);
    c.weight = 3000;
    let v = vec![a, b, c];
    assert_eq!(total_weight_of(&v), Some(3210));
    assert_eq!(due_weight_of(&v, &today), Some(10));
    assert_eq!(done_weight_of(&v, &today), Some(200));
    assert_eq!(total_weight_of(&Vec::new()), Some(0));
}

#[test]
fn lag_rounds_to_the_nearest_percent() {
    let glob = world(vec![course("c", 0, &[UNIT, UNIT, UNIT])]);
    let today = day(2024, 1, 15);
    // One of three done and none due: a third ahead, which rounds to 33.
    let p = pace_of(
        &glob,
        vec![
            goal("s", "c", 1, None, Some(day(2024, 1, 1)), Some("1")),
            goal("s", "c", 2, None, None, None),
            goal("s", "c", 3, None, None, None),
        ],
        &today,
    );
    assert_eq!(p.lag(), 33);
    // Two of three due and none done: two thirds behind, which rounds to -67.
    let p = pace_of(
        &glob,
        vec![
            goal("s", "c", 1, Some(day(2024, 1, 1)), None, None),
            goal("s", "c", 2, Some(day(2024, 1, 2)), None, None),
            goal("s", "c", 3, None, None, None),
        ],
        &today,
    );
    assert_eq!(p.lag(), -67);
    // No goals: no lag.
    assert_eq!(pace_of(&glob, vec![], &today).lag(), 0);
    // Halves round away from nothing.
    let mut half = pace_of(&glob, vec![], &today);
    half.total_weight = 1000;
    half.done_weight = 5;
    assert_eq!(half.lag(), 1);
    half.done_weight = 0;
    half.due_weight = 5;
    assert_eq!(half.lag(), -1);
    half.due_weight = 4;
    assert_eq!(half.lag(), 0);
    // Under a thousandth of total weight no lag is worked out.
    half.total_weight = 999;
    half.due_weight = 999;
    assert_eq!(half.lag(), 0);
}

#[test]
fn auto_pacer_distribution() {
    let mut glob = world(vec![course("c", 0, &[UNIT, UNIT, UNIT, UNIT])]);
    let today = day(2024, 1, 15);
    let mut p = pace_of(
        &glob,
        vec![
            goal("s", "c", 1, None, None, None),
            goal("s", "c", 2, None, None, None),
            goal("s", "c", 3, None, None, None),
            goal("s", "c", 4, None, None, None),
        ],
        &today,
    );
    // Two days that are not left, and eight that are.
    let mut days = vec![day(2024, 1, 10), today];
    for d in 16..24 {
        days.push(day(2024, 1, d));
    }
    glob.calendar = days.clone();
    p.autopace(&days, &today).unwrap();
    let due: Vec<Date> = p.goals.iter().map(|g| g.due.unwrap()).collect();
    assert_eq!(due, vec![days[2 + 1], days[2 + 3], days[2 + 5], days[2 + 7]]);
    assert_eq!(p.due_weight, 0);
    assert_eq!(p.total_weight, 1_000_000);
}

#[test]
fn autopace() {
    // Unequal weights, a completed goal, and fewer days than goals.
    let mut glob = world(vec![course("c", 0, &[UNIT, 2 * UNIT, 5 * UNIT, UNIT, UNIT])]);
    let today = day(2024, 3, 1);
    let goals = vec![
        goal("s", "c", 1, Some(day(2024, 2, 1)), Some(day(2024, 3, 4)), Some("90")),
        goal("s", "c", 2, Some(day(2024, 2, 2)), None, None),
        goal("s", "c", 3, Some(day(2024, 2, 3)), None, None),
        goal("s", "c", 4, Some(day(2024, 2, 4)), None, None),
        goal("s", "c", 5, Some(day(2024, 2, 5)), None, None),
    ];
    glob.insert_goals(&goals).unwrap();
    glob.data.set_calendar(&[day(2024, 3, 4), day(2024, 3, 7), day(2024, 3, 5), day(2024, 3, 6)]);
    glob.refresh_calendar();
    assert_eq!(glob.calendar, vec![day(2024, 3, 4), day(2024, 3, 5), day(2024, 3, 6), day(2024, 3, 7)]);
    // The first goal is not completed on record yet: complete it.
    let mut first = glob.data.goals[0].clone();
    first.done = Some(day(2024, 3, 4));
    first.score = Some("90".to_string());
    glob.data.update_goal(&first).unwrap();
    let p = glob.autopace("s", &today).unwrap();
    // The days left are those after the fourth of March: the fifth, sixth and
    // seventh. The weights to pace are 0.2, 0.5, 0.1, 0.1 of the course, which
    // come to 2/9, 7/9, 8/9 and 9/9 of the work: days 1, 3, 3 and 3.
    for g in p.goals.iter() {
        let source = match &g.source {
            Source::Book(src) => src,
            _ => panic!("No custom chapters!"),
        };
        let expected = match source.seq {
            1 => day(2024, 2, 1),
            2 => day(2024, 3, 5),
            _ => day(2024, 3, 7),
        };
        assert_eq!(g.due, Some(expected), "chapter {}", source.seq);
    }
    // The store has the new due dates, and nothing else has changed.
    for g in glob.data.goals.iter() {
        let seq = match &g.source {
            Source::Book(src) => src.seq,
            _ => panic!("No custom chapters!"),
        };
        let expected = match seq {
            1 => day(2024, 2, 1),
            2 => day(2024, 3, 5),
            _ => day(2024, 3, 7),
        };
        assert_eq!(g.due, Some(expected));
        assert_eq!(g.weight, 0);
    }
    // Due dates do not go back as the calendar goes on.
    let paced: Vec<Date> = p.goals.iter().filter(|g| g.done.is_none()).map(|g| g.due.unwrap()).collect();
    for w in paced.windows(2) {
        assert!(!w[1].is_earlier(&w[0]));
    }
}

#[test]
fn auto_pacer_refusals() {
    let glob = world(vec![course("c", 0, &[UNIT, UNIT]), course("z", 0, &[0, UNIT])]);
    let today = day(2024, 1, 15);
    let days = vec![day(2024, 1, 16), day(2024, 1, 17)];
    let mut done = pace_of(
        &glob,
        vec![goal("s", "c", 1, None, Some(day(2024, 1, 1)), Some("1"))],
        &today,
    );
    assert_eq!(done.autopace(&days, &today), Err(AutopaceError::NothingToPace));
    let mut p = pace_of(&glob, vec![goal("s", "c", 1, None, None, None)], &today);
    assert_eq!(p.autopace(&vec![], &today), Err(AutopaceError::NoDaysLeft));
    assert_eq!(p.autopace(&vec![today, day(2024, 1, 1)], &today), Err(AutopaceError::NoDaysLeft));
    assert_eq!(p.goals[0].due, None);
    // A completion after the last day leaves no day either.
    let mut late = pace_of(
        &glob,
        vec![
            goal("s", "c", 1, None, Some(day(2024, 1, 17)), Some("1")),
            goal("s", "c", 2, None, None, None),
        ],
        &today,
    );
    assert_eq!(late.autopace(&days, &today), Err(AutopaceError::NoDaysLeft));
    let mut weightless = pace_of(&glob, vec![goal("s", "z", 1, None, None, None)], &today);
    assert_eq!(weightless.autopace(&days, &today), Err(AutopaceError::NoWeight));
    // One day for everything.
    let mut one = pace_of(
        &glob,
        vec![goal("s", "c", 1, None, None, None), goal("s", "c", 2, None, None, None)],
        &today,
    );
    assert_eq!(one.autopace(&vec![day(2024, 1, 16)], &today), Ok(()));
    assert!(one.goals.iter().all(|g| g.due == Some(day(2024, 1, 16))));
    // A goal that weighs nothing at the head of the list goes on the first day.
    let mut zero_first = pace_of(
        &glob,
        vec![
            goal("s", "z", 1, Some(day(2024, 1, 1)), None, None),
            goal("s", "z", 2, Some(day(2024, 1, 2)), None, None),
        ],
        &today,
    );
    assert_eq!(zero_first.autopace(&days, &today), Ok(()));
    assert_eq!(zero_first.goals[0].due, Some(day(2024, 1, 16)));
    assert_eq!(zero_first.goals[1].due, Some(day(2024, 1, 17)));
}

#[test]
fn semester_summary() {
    let glob = world(vec![course("c", 0, &[UNIT, UNIT, UNIT, UNIT])]);
    let today = day(2024, 2, 1);
    let end_fall = day(2024, 1, 1);
    let mut p = pace_of(
        &glob,
        vec![
            goal("s", "c", 1, Some(day(2023, 10, 1)), Some(day(2023, 10, 1)), Some("80")),
            goal("s", "c", 2, Some(day(2023, 11, 1)), Some(day(2023, 11, 2)), Some("90")),
            goal("s", "c", 3, Some(day(2023, 12, 1)), Some(day(2023, 12, 1)), Some("100")),
            goal("s", "c", 4, Some(day(2024, 3, 1)), None, None),
        ],
        &today,
    );
    p.student.fall_exam = Some("90".to_string());
    p.student.fall_exam_fraction = 200_000;
    p.student.fall_notices = 3;
    let rep = p.report(&today, &end_fall).unwrap();
    assert_eq!((rep.n_done, rep.n_due, rep.n_scheduled), (3, 3, 4));
    assert_eq!(rep.fall.done, 3);
    assert_eq!(rep.fall.score_sum, 2_700_000);
    assert_eq!(rep.fall.last_id, Some(3));
    assert!(!rep.fall.unfinished);
    assert_eq!(rep.spring.done, 0);
    assert!(rep.spring.unfinished);
    assert_eq!(rep.spring.last_id, None);
    let fall = summary(&rep.fall, &p.student, Sem::Fall).unwrap().unwrap();
    assert_eq!(fall.test_average, 90);
    assert_eq!(fall.exam, Some(90));
    assert_eq!(fall.notices, 3);
    assert_eq!(fall.grade, Some(87));
    assert!(!fall.unfinished);
    // No goal was completed in the spring: no summary.
    assert_eq!(summary(&rep.spring, &p.student, Sem::Spring), Ok(None));
    assert_eq!(Sem::Fall.name(), "Fall");
    assert_eq!(Sem::Spring.name(), "Spring");
}

#[test]
fn summary_without_exam_and_with_bad_exam() {
    let mut s = student("s", "jenny");
    let term = Term { done: 2, score_sum: 1_500_000, unfinished: true, last_id: Some(4) };
    let sum = summary(&term, &s, Sem::Spring).unwrap().unwrap();
    assert_eq!(sum.test_average, 75);
    assert_eq!(sum.exam, None);
    assert_eq!(sum.grade, None);
    assert!(sum.unfinished);
    s.spring_exam = Some("what".to_string());
    assert_eq!(summary(&term, &s, Sem::Spring), Err(ScoreError::Malformed));
    s.spring_exam = Some("  ".to_string());
    assert_eq!(summary(&term, &s, Sem::Spring).unwrap().unwrap().exam, None);
    // The exam counts for all of it, and the notices take the grade below nothing.
    s.spring_exam = Some("0".to_string());
    s.spring_exam_fraction = UNIT;
    s.spring_notices = 7;
    let sum = summary(&term, &s, Sem::Spring).unwrap().unwrap();
    assert_eq!(sum.exam, Some(0));
    assert_eq!(sum.grade, Some(-7));
    // The exam counts for nothing: the grade is the average of the tests.
    s.spring_exam_fraction = 0;
    s.spring_notices = 0;
    let sum = summary(&term, &s, Sem::Spring).unwrap().unwrap();
    assert_eq!(sum.grade, Some(75));
    // Halves round up: 0.2 * 0.9 + 0.8 * 0.8875 = 0.89, and 0.885 gives 89.
    s.spring_exam = Some("88.5".to_string());
    s.spring_exam_fraction = UNIT;
    assert_eq!(summary(&term, &s, Sem::Spring).unwrap().unwrap().grade, Some(89));
}

#[test]
fn a_completed_goal_needs_a_score() {
    let glob = world(vec![course("c", 0, &[UNIT, UNIT])]);
    let today = day(2024, 2, 1);
    let end_fall = day(2024, 1, 1);
    let p = pace_of(
        &glob,
        vec![
            goal("s", "c", 1, None, Some(day(2023, 10, 1)), Some("80")),
            goal("s", "c", 2, None, Some(day(2023, 10, 2)), None),
        ],
        &today,
    );
    assert_eq!(p.report(&today, &end_fall), Err(ReportError::NoScore(2)));
    let p = pace_of(
        &glob,
        vec![goal("s", "c", 1, None, Some(day(2023, 10, 1)), Some("eighty"))],
        &today,
    );
    assert_eq!(p.report(&today, &end_fall), Err(ReportError::BadScore(1, ScoreError::Malformed)));
    // A score on a goal that is not completed is not looked at.
    let p = pace_of(&glob, vec![goal("s", "c", 1, None, None, Some("eighty"))], &today);
    assert!(p.report(&today, &end_fall).is_ok());
}

#[test]
fn goal_rows() {
    let glob = world(vec![course("c", 0, &[UNIT, UNIT])]);
    let today = day(2024, 1, 15);
    let mut g = goal("s", "c", 2, Some(day(2024, 1, 20)), None, None);
    g.review = true;
    g.tries = 2;
    let row = goal_row(&g, &glob, &today).unwrap();
    assert_eq!(row.course, "Course c");
    assert_eq!(row.book, "Book");
    assert_eq!(row.chapter, "Chapter 2");
    assert_eq!(row.subject, "");
    assert_eq!(row.ri, " R*");
    assert_eq!(row.due_from, "in 5 days");
    assert_eq!(row.done_from, "");
    assert_eq!((row.due_short.as_str(), row.done_short.as_str()), ("Jan 20", ""));
    assert_eq!(row.goal_class, "yet");
    assert_eq!(row.score, None);
    assert_eq!(row.tries, 2);
    g.incomplete = true;
    g.due = Some(day(2023, 12, 31));
    let row = goal_row(&g, &glob, &today).unwrap();
    assert_eq!(row.ri, " R* I*");
    assert_eq!(row.due_from, "15 days ago");
    assert_eq!(row.goal_class, "overdue");
    g.review = false;
    g.due = Some(today);
    g.done = Some(day(2024, 1, 12));
    g.score = Some("87.5".to_string());
    let row = goal_row(&g, &glob, &today).unwrap();
    assert_eq!(row.ri, " I*");
    assert_eq!(row.due_from, "today");
    assert_eq!(row.done_from, "3 days early");
    assert_eq!(row.goal_class, "done");
    assert_eq!(row.score, Some(88));
    g.done = Some(day(2024, 3, 1));
    let row = goal_row(&g, &glob, &today).unwrap();
    assert_eq!(row.done_from, "46 days late");
    assert_eq!(row.goal_class, "late");
    g.done = g.due;
    assert_eq!(goal_row(&g, &glob, &today).unwrap().done_from, "on time");
    g.score = Some("x".to_string());
    assert_eq!(goal_row(&g, &glob, &today).err(), Some(RowError::BadScore(ScoreError::Malformed)));
    g.done = Some(Date { year: 2023, month: 2, day: 30 });
    assert_eq!(goal_row(&g, &glob, &today).err(), Some(RowError::BadDate));
    assert_eq!(
        goal_row(&goal("s", "c", 3, None, None, None), &glob, &today).err(),
        Some(RowError::NoChapter)
    );
    assert_eq!(
        goal_row(&goal("s", "x", 1, None, None, None), &glob, &today).err(),
        Some(RowError::NoCourse)
    );
    let mut custom = goal("s", "c", 1, None, None, None);
    custom.source = Source::Custom(CustomCh(1));
    assert_eq!(goal_row(&custom, &glob, &today).err(), Some(RowError::CustomSource));
}

#[test]
fn tables_of_the_boss() {
    let glob = world(vec![course("c", 0, &[UNIT, UNIT, 2 * UNIT])]);
    let today = day(2024, 1, 15);
    let mut goals = vec![
        goal("s", "c", 1, Some(day(2024, 1, 10)), Some(day(2024, 1, 8)), Some("100%")),
        goal("s", "c", 2, Some(day(2024, 1, 12)), None, None),
        goal("s", "c", 3, Some(day(2024, 2, 1)), None, None),
    ];
    goals[1].incomplete = true;
    let p = pace_of(&glob, goals, &today);
    let t = pace_table(&p, &today);
    assert_eq!(t.table_class, "cal inc lag count");
    assert_eq!(t.lag, -25);
    assert_eq!(t.lagstr, "-25%");
    assert_eq!((t.n_done, t.n_due), (1, 2));
    assert_eq!(t.name, "Last, Rest");
    assert_eq!(t.uname, "s");
    assert_eq!(t.tuname, "jenny");
    assert_eq!(t.teacher, "Ms jenny");
    let t = pace_table(&pace_of(&glob, vec![], &today), &today);
    assert_eq!(t.table_class, "cal");
    assert_eq!(t.lagstr, "+0%");
    let ahead = pace_of(
        &glob,
        vec![goal("s", "c", 3, None, Some(day(2024, 1, 1)), Some("1"))],
        &today,
    );
    assert_eq!(pace_table(&ahead, &today).lagstr, "+100%");
}

fn lines_of(row: &PageRow) -> Vec<(String, String)> {
    match row {
        PageRow::Summary(_, lines) => lines.iter().map(|l| (l.text.clone(), l.score.clone())).collect(),
        PageRow::Goal(g) => panic!("{:?} is no summary", g),
    }
}

fn pair(text: &str, score: &str) -> (String, String) {
    (text.to_string(), score.to_string())
}

#[test]
fn a_students_page_has_the_summary_behind_the_last_goal_of_the_semester() {
    let glob = world(vec![course("c", 0, &[UNIT, UNIT, UNIT, UNIT, UNIT])]);
    let today = day(2024, 2, 1);
    let end_fall = day(2024, 1, 1);
    let mut goals = vec![
        goal("s", "c", 1, Some(day(2023, 10, 1)), Some(day(2023, 10, 1)), Some("80")),
        goal("s", "c", 2, Some(day(2023, 11, 1)), Some(day(2023, 11, 2)), Some("90")),
        goal("s", "c", 3, Some(day(2023, 12, 1)), Some(day(2023, 12, 1)), Some("100")),
        goal("s", "c", 4, Some(day(2024, 1, 20)), Some(day(2024, 1, 21)), Some("70")),
        goal("s", "c", 5, Some(day(2024, 3, 1)), None, None),
    ];
    goals[3].review = true;
    let mut p = pace_of(&glob, goals, &today);
    p.student.fall_exam = Some("90".to_string());
    p.student.fall_notices = 3;
    let page = p.page(&glob, &today, &end_fall).unwrap();
    assert_eq!(page.name, "Rest Last");
    assert_eq!(page.uname, "s");
    assert_eq!(page.teacher, "Ms jenny");
    assert_eq!(page.temail, "jenny@school.com");
    assert_eq!((page.n_done, page.n_due, page.n_total), (4, 4, 5));
    assert_eq!(page.rev_foot, "*R indicates previously-completed material that requires review.");
    assert_eq!(page.inc_foot, "");
    let kinds: Vec<&str> = page
        .rows
        .iter()
        .map(|r| match r {
            PageRow::Goal(g) => g.chapter.as_str(),
            PageRow::Summary(Sem::Fall, _) => "fall",
            PageRow::Summary(Sem::Spring, _) => "spring",
        })
        .collect();
    assert_eq!(
        kinds,
        vec!["Chapter 1", "Chapter 2", "Chapter 3", "fall", "Chapter 4", "spring", "Chapter 5"]
    );
    assert_eq!(
        lines_of(&page.rows[3]),
        vec![
            pair("Fall Test Average:", "90%"),
            pair("Final Exam:", "90%"),
            pair("Notices (3):", "-3%"),
            pair("Fall Semester Grade:", "87%"),
        ]
    );
    // A goal of the spring is not completed, and no exam is recorded.
    assert_eq!(lines_of(&page.rows[5]), vec![pair("Spring Test Average:", "70% (I)")]);
}

#[test]
fn a_page_fails_on_the_first_row_that_cannot_be_shown() {
    let glob = world(vec![course("c", 0, &[UNIT, UNIT, UNIT])]);
    let today = day(2024, 2, 1);
    let end_fall = day(2024, 1, 1);
    let goals = vec![
        goal("s", "c", 1, None, Some(day(2023, 10, 1)), Some("80")),
        goal("s", "c", 2, None, Some(day(2024, 1, 2)), Some("90")),
    ];
    let mut p = pace_of(&glob, goals, &today);
    p.student.fall_exam = Some("much".to_string());
    p.student.spring_exam = Some("more".to_string());
    assert_eq!(
        p.page(&glob, &today, &end_fall).err(),
        Some(PageError::Summary(Sem::Fall, ScoreError::Malformed))
    );
    p.student.fall_exam = None;
    assert_eq!(
        p.page(&glob, &today, &end_fall).err(),
        Some(PageError::Summary(Sem::Spring, ScoreError::Malformed))
    );
    p.goals[1].due = Some(Date { year: 2024, month: 2, day: 31 });
    assert_eq!(p.page(&glob, &today, &end_fall).err(), Some(PageError::Row(2, RowError::BadDate)));
    p.goals[0].score = None;
    assert_eq!(
        p.page(&glob, &today, &end_fall).err(),
        Some(PageError::Report(ReportError::NoScore(1)))
    );
    let empty = pace_of(&glob, vec![], &today);
    let page = empty.page(&glob, &today, &end_fall).unwrap();
    assert!(page.rows.is_empty());
    assert_eq!((page.n_done, page.n_due, page.n_total), (0, 0, 0));
}

#[test]
fn summaries_are_written_line_by_line() {
    let sum = |exam: Option<i32>, notices: i16, grade: Option<i32>, unfinished: bool| Summary {
        test_average: 75,
        unfinished,
        exam,
        notices,
        grade,
    };
    let texts = |sem: Sem, s: &Summary| -> Vec<(String, String)> {
        write_summary(sem, s).iter().map(|l| (l.text.clone(), l.score.clone())).collect()
    };
    assert_eq!(texts(Sem::Fall, &sum(None, 4, None, false)), vec![pair("Fall Test Average:", "75%")]);
    assert_eq!(
        texts(Sem::Spring, &sum(Some(100), 0, Some(80), true)),
        vec![
            pair("Spring Test Average:", "75% (I)"),
            pair("Final Exam:", "100%"),
            pair("Spring Semester Grade:", "80% (I)"),
        ]
    );
    assert_eq!(
        texts(Sem::Fall, &sum(Some(0), 12, Some(-7), false)),
        vec![
            pair("Fall Test Average:", "75%"),
            pair("Final Exam:", "0%"),
            pair("Notices (12):", "-12%"),
            pair("Fall Semester Grade:", "-7%"),
        ]
    );
}

#[test]
fn the_boss_sees_a_table_for_each_student_teacher_by_teacher() {
    let mut data = Store::new("data".to_string());
    data.insert_user(User::Teacher(teacher("jenny"))).unwrap();
    data.insert_user(User::Student(student("zed", "irfan"))).unwrap_err();
    data.insert_user(User::Student(student("s", "jenny"))).unwrap();
    data.insert_user(User::Teacher(teacher("irfan"))).unwrap();
    data.insert_user(User::Student(student("zed", "irfan"))).unwrap();
    data.insert_user(User::Student(student("ann", "jenny"))).unwrap();
    data.insert_courses(&[course("c", 0, &[UNIT, UNIT])]).unwrap();
    let mut first = goal("ann", "c", 1, Some(day(2024, 1, 10)), Some(day(2024, 1, 8)), Some("0.875"));
    first.review = true;
    let mut second = goal("ann", "c", 2, Some(day(2024, 1, 12)), None, None);
    second.incomplete = true;
    data.insert_goals(&[second, goal("zed", "c", 1, None, None, None), first]).unwrap();
    data.update_goal(&{
        let mut g = data.goals[2].clone();
        g.done = Some(day(2024, 1, 8));
        g.score = Some("0.875".to_string());
        g
    })
    .unwrap();
    let glob = load_configuration(&Cfg::default(), Db::new("auth".to_string()), data, 0).unwrap();
    let today = day(2024, 1, 15);
    let cals = make_boss_calendars(&glob, &today).unwrap();
    let who: Vec<&str> = cals.iter().map(|c| c.table.uname.as_str()).collect();
    assert_eq!(who, vec!["s", "ann", "zed"]);
    assert!(cals[0].rows.is_empty());
    let ann = &cals[1];
    assert_eq!(ann.table.table_class, "cal inc lag count");
    assert_eq!(ann.table.tuname, "jenny");
    assert_eq!(ann.rows.len(), 2);
    let row = &ann.rows[0];
    assert_eq!((row.row_class, row.row_bad, row.review, row.incomplete), ("done", "", " R ", ""));
    assert_eq!((row.course.as_str(), row.book.as_str(), row.chapter.as_str()), ("Course c", "Book", "Chapter 1"));
    assert_eq!(row.score, "88 %");
    assert_eq!((row.due, row.done), (Some(day(2024, 1, 10)), Some(day(2024, 1, 8))));
    assert_eq!((row.due_short.as_str(), row.done_short.as_str()), ("Jan 10", "Jan 08"));
    let row = &ann.rows[1];
    assert_eq!((row.row_class, row.row_bad, row.review, row.incomplete), ("overdue", " bad", "", " I "));
    assert_eq!(row.score, "");
    assert_eq!(cals[2].table.tuname, "irfan");
    // One row that cannot be shown, and there is no page.
    let mut broken = glob;
    broken.data.goals[1].due = Some(Date { year: 2024, month: 2, day: 30 });
    let id = broken.data.goals[1].id;
    assert_eq!(
        make_boss_calendars(&broken, &today).err(),
        Some(CalError { id, error: RowError::BadDate })
    );
    let one = cal_table(&pace_of(&broken, vec![goal("s", "c", 2, None, None, None)], &today), &broken, &today);
    assert_eq!(one.unwrap().rows.len(), 1);
    assert_eq!(
        cal_goal(&goal("s", "c", 9, None, None, None), &broken, &today).err(),
        Some(RowError::NoChapter)
    );
}

#[test]
fn test_env() {
    let mut g = load_configuration(
        &Cfg::default(),
        Db::new("auth".to_string()),
        Store::new("data".to_string()),
        0,
    )
    .unwrap();
    g.data
        .insert_courses(&[course("pha1", 1_000_000, &[UNIT, UNIT]), course("alg", 2_000_000, &[UNIT])])
        .unwrap();
    let boss = BaseUser {
        uname: "boss".to_string(),
        role: Role::Boss,
        salt: String::new(),
        email: "boss@camelthingy.com".to_string(),
    }
    .into_boss();
    g.insert_user(&boss).unwrap();
    for (uname, name, email) in [("bob", "Mr Bob", "bob@school.com"), ("sal", "Ms Sal", "sal@school.com")] {
        let t = BaseUser {
            uname: uname.to_string(),
            role: Role::Teacher,
            salt: String::new(),
            email: email.to_string(),
        }
        .into_teacher(name.to_string());
        g.insert_user(&t).unwrap();
    }
    g.refresh_users();
    g.upload_students("eparker, Parker, Ed, ed@x.y, p@x.y, bob\nwholt, Holt, Will, w@x.y, q@x.y, sal\n")
        .unwrap();
    g.refresh_courses();
    g.refresh_users();
    assert_eq!((g.courses.len(), g.users.len()), (2, 6));
    assert!(g.data.is_wf() && g.auth.is_wf());
    // Taking everything down again leaves the settings.
    g.data.nuke_database();
    assert!(g.data.users.is_empty() && g.data.courses.is_empty());
}
