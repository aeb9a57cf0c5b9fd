use susi::category::ElectiveCategory::{AppliedMaths, CompSciCore, Maths, Seminar};
use susi::pairing::{course_precedes, order_for_arranging, text_precedes};
use susi::susi_course::{Course, ExamSession, Semester};

fn course(name: &str, year: u16, session: ExamSession) -> Course {
    Course {
        name: name.to_string(),
        tutor: None,
        year,
        exam_session: session,
        is_elective: true,
        is_passed: true,
        grade: None,
        ects: "5".to_string(),
    }
}

#[test]
fn texts_compare_as_strings_do() {
    for (a, b) in [("a", "b"), ("ab", "a"), ("", "a"), ("a", ""), ("Алгебра", "Анализ"), ("Z", "a"), ("same", "same")] {
        assert_eq!(text_precedes(a, b), a < b, "{:?} {:?}", a, b);
    }
}

#[test]
fn courses_compare_by_year_session_and_name() {
    let w = ExamSession::Regular(Semester::Winter);
    let s = ExamSession::Regular(Semester::Summer);
    let e = ExamSession::Elimination;
    assert!(course_precedes(&course("Я", 2020, e), &course("А", 2021, w)));
    assert!(course_precedes(&course("Я", 2021, w), &course("А", 2021, s)));
    assert!(course_precedes(&course("Я", 2021, s), &course("А", 2021, e)));
    assert!(course_precedes(&course("А", 2021, s), &course("Б", 2021, s)));
    assert!(!course_precedes(&course("А", 2021, s), &course("А", 2021, s)));
    assert!(!course_precedes(&course("А", 2022, w), &course("Б", 2021, e)));
}

#[test]
fn courses_are_ordered_and_numbered_one_per_key() {
    let w = ExamSession::Regular(Semester::Winter);
    let s = ExamSession::Regular(Semester::Summer);
    let items = vec![
        (course("Б", 2021, s), vec![Maths]),
        (course("А", 2021, s), vec![AppliedMaths]),
        (course("В", 2020, w), vec![Seminar]),
        (course("А", 2021, s), vec![CompSciCore]),
    ];
    let (courses, with_cats) = order_for_arranging(items);
    let names: Vec<&str> = courses.iter().map(|c| c.name.as_str()).collect();
    assert_eq!(names, vec!["В", "А", "Б"]);
    assert_eq!(with_cats, vec![(0, vec![Seminar]), (1, vec![CompSciCore]), (2, vec![Maths])]);
}

#[test]
fn courses_are_equal_by_year_session_and_name() {
    let w = ExamSession::Regular(Semester::Winter);
    let mut a = course("Алгебра", 2021, w);
    let b = course("Алгебра", 2021, w);
    a.grade = Some("6".to_string());
    a.tutor = Some("Иванов".to_string());
    assert!(a == b);
    assert!(course("Алгебра", 2022, w) != b);
    assert!(course("Алгебра", 2021, ExamSession::Elimination) != b);
    assert!(course("Анализ", 2021, w) != b);
}

#[test]
fn course_equality_is_neither_preceding_the_other() {
    let w = ExamSession::Regular(Semester::Winter);
    let pairs = [
        (course("А", 2021, w), course("А", 2021, w)),
        (course("А", 2021, w), course("Б", 2021, w)),
        (course("А", 2021, w), course("А", 2022, w)),
        (course("А", 2021, w), course("А", 2021, ExamSession::Elimination)),
    ];
    for (a, b) in pairs.iter() {
        assert_eq!(a == b, !course_precedes(a, b) && !course_precedes(b, a));
    }
}
