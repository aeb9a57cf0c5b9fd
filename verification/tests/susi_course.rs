use susi::error::Error;
use susi::susi_course::{
    courses_of_session, courses_of_year, heading_year, is_visible, is_year_heading, last_largest,
    parse_susi_course_html, squeeze, Course, ExamSession, Semester,
};

fn row(cells: &[&str]) -> Vec<String> {
    cells.iter().map(|c| c.to_string()).collect()
}

fn line(text: &str, cells: &[&str]) -> (String, Vec<String>) {
    (text.to_string(), row(cells))
}

fn session_table(rows: &[&str]) -> String {
    format!("<table><tr><td>Дисциплина</td><td>Преподавател</td></tr>{}</table>", rows.concat())
}

fn course_row(cells: &[&str]) -> String {
    let tds: Vec<String> = cells.iter().map(|c| format!("<td>{}</td>", c)).collect();
    format!("<tr>{}</tr>", tds.concat())
}

fn year_block(heading: &str, sessions: &[String]) -> String {
    format!(
        "<tr><td>{}</td></tr><tr><td><table><tr><td>{}</td></tr></table></td></tr>",
        heading,
        sessions.concat()
    )
}

fn filler(n: usize) -> String {
    "<tr><td>-</td></tr>".repeat(n)
}

fn report(body: &str) -> String {
    format!("<html><body><table><tbody>{}</tbody></table></body></html>", body)
}

#[test]
fn semester_names_are_read() {
    assert_eq!(Semester::from_str("Summer").unwrap(), Semester::Summer);
    assert_eq!(Semester::from_str("Winter").unwrap(), Semester::Winter);
    assert!(matches!(Semester::from_str("winter"), Err(Error::UnknownSemester)));
    assert!(matches!(Semester::from_str(""), Err(Error::UnknownSemester)));
}

#[test]
fn exam_sessions_follow_the_report_order() {
    assert_eq!(ExamSession::from_susi_index(0).unwrap(), ExamSession::Regular(Semester::Winter));
    assert_eq!(ExamSession::from_susi_index(1).unwrap(), ExamSession::Regular(Semester::Summer));
    assert_eq!(ExamSession::from_susi_index(2).unwrap(), ExamSession::Elimination);
    assert!(matches!(ExamSession::from_susi_index(3), Err(Error::UnknownExamSessionIndex)));
    assert!(matches!(ExamSession::from_susi_index(255), Err(Error::UnknownExamSessionIndex)));
}

#[test]
fn course_row_is_read_cell_by_cell() {
    let s = ExamSession::Regular(Semester::Summer);
    let c = Course::from_susi_row(2022, s, &row(&["Алгебра 2", "Иванов", "Избираеми", "да", "5.50", "5,0"])).unwrap();
    assert_eq!(c.name, "Алгебра 2");
    assert_eq!(c.tutor, Some("Иванов".to_string()));
    assert_eq!(c.year, 2022);
    assert_eq!(c.exam_session, s);
    assert!(c.is_elective);
    assert!(c.is_passed);
    assert_eq!(c.grade, Some("5.50".to_string()));
    assert_eq!(c.ects, "5.0");

    let c = Course::from_susi_row(2022, s, &row(&["Анализ", "", "Задължителни", "не", "", "7"])).unwrap();
    assert_eq!(c.tutor, None);
    assert!(!c.is_elective);
    assert!(!c.is_passed);
    assert_eq!(c.grade, None);
    assert_eq!(c.ects, "7");
}

#[test]
fn course_row_reports_what_is_missing_or_wrong() {
    let s = ExamSession::Elimination;
    assert!(matches!(Course::from_susi_row(1, s, &row(&[])), Err(Error::NameNotFound)));
    assert!(matches!(Course::from_susi_row(1, s, &row(&["a"])), Err(Error::TutorNotFound)));
    assert!(matches!(Course::from_susi_row(1, s, &row(&["a", "b"])), Err(Error::ElectiveFlagNotFound)));
    assert!(matches!(Course::from_susi_row(1, s, &row(&["a", "b", "c"])), Err(Error::PassedFlagNotFound)));
    assert!(matches!(Course::from_susi_row(1, s, &row(&["a", "b", "c", "d"])), Err(Error::GradeNotFound)));
    assert!(matches!(Course::from_susi_row(1, s, &row(&["a", "b", "c", "d", "5,5"])), Err(Error::IncorrectGradeFormat)));
    assert!(matches!(Course::from_susi_row(1, s, &row(&["a", "b", "c", "d", "5"])), Err(Error::EctsNotFound)));
    assert!(matches!(Course::from_susi_row(1, s, &row(&["a", "b", "c", "d", "5", "x"])), Err(Error::IncorrectEctsFormat)));
}

#[test]
fn last_largest_picks_the_last_of_the_largest() {
    assert_eq!(last_largest(&vec![]), None);
    assert_eq!(last_largest(&vec![4]), Some(0));
    assert_eq!(last_largest(&vec![1, 9, 3, 9, 2]), Some(3));
    assert_eq!(last_largest(&vec![9, 1]), Some(0));
}

#[test]
fn year_headings_are_recognized() {
    assert!(is_year_heading("Година: 2021/2022"));
    assert!(is_year_heading("  Год ина:\n2021"));
    assert!(!is_year_heading("Средно: 5.00"));
    assert!(!is_year_heading("Годин"));
    assert_eq!(heading_year("Година: 2021/2022"), Some(2021));
    assert_eq!(heading_year("Година:\t1999 / 2000"), Some(1999));
    assert_eq!(heading_year("Година: две"), None);
    assert_eq!(heading_year("Година"), None);
    assert_eq!(squeeze(" a b\tc\n").into_iter().collect::<String>(), "abc");
    assert!(is_visible("  x "));
    assert!(!is_visible(" \t\u{a0}"));
}

#[test]
fn session_lines_skip_the_heading_and_blank_lines() {
    let lines = vec![
        line("Дисциплина", &["Дисциплина"]),
        line("Алгебра", &[" Алгебра ", "Иванов", "Избираеми", "да", "6", "5"]),
        line("   ", &[]),
        line("Анализ", &["Анализ", "", "Задължителни", "да", "6", "7"]),
        line("Логика", &["Логика", "", "Избираеми", "не", "", "5"]),
    ];
    let s = ExamSession::Regular(Semester::Winter);
    let cs = courses_of_session(2020, s, &lines).unwrap();
    assert_eq!(cs.len(), 1);
    assert_eq!(cs[0].name, "Алгебра");
    assert_eq!(cs[0].year, 2020);

    let bad = vec![line("h", &[]), line("x", &["only a name"])];
    assert!(matches!(courses_of_session(2020, s, &bad), Err(Error::TutorNotFound)));
}

#[test]
fn sessions_of_a_year_are_winter_summer_and_retakes() {
    let elective = |name: &str| line(name, &[name, "", "Избираеми", "да", "6", "5"]);
    let sections = vec![
        vec![line("h", &[]), elective("A")],
        vec![line("h", &[]), elective("B")],
        vec![line("h", &[]), elective("C")],
    ];
    let cs = courses_of_year(2019, &sections).unwrap();
    assert_eq!(cs.len(), 3);
    assert_eq!(cs[0].exam_session, ExamSession::Regular(Semester::Winter));
    assert_eq!(cs[1].exam_session, ExamSession::Regular(Semester::Summer));
    assert_eq!(cs[2].exam_session, ExamSession::Elimination);

    let mut four = sections.clone();
    four.push(vec![line("h", &[])]);
    assert!(matches!(courses_of_year(2019, &four), Err(Error::UnknownExamSessionIndex)));
}

#[test]
fn grade_report_gives_the_passed_electives() {
    let winter = session_table(&[
        &course_row(&[" Алгебра 2 ", "Иванов", "Избираеми", "да", "5.50", "5,0"]),
        &course_row(&["Анализ", "Петров", "Задължителни", "да", "6", "7,5"]),
        "<tr class=\"greyType2\"><td>Общо</td></tr>",
        "<tr><td>  </td></tr>",
    ]);
    let summer = session_table(&[
        &course_row(&["Логика", "", "Избираеми", "не", "2", "5"]),
        &course_row(&["Случайни процеси", "Георгиев", "Избираеми", "да", "", "4,5"]),
    ]);
    let next = session_table(&[&course_row(&["Java", "", "Избираеми", "да", "4", "5"])]);
    let body = [
        year_block("Година: 2021/2022", &[winter, summer]),
        filler(4),
        year_block("Година: 2022/2023", &[next]),
        filler(4),
        "<tr><td>Средно: 5.00</td></tr>".to_string(),
    ]
    .concat();
    let courses = parse_susi_course_html(&report(&body)).unwrap();
    let names: Vec<&str> = courses.iter().map(|c| c.name.as_str()).collect();
    assert_eq!(names, vec!["Алгебра 2", "Случайни процеси", "Java"]);
    assert_eq!(courses[0].year, 2021);
    assert_eq!(courses[0].exam_session, ExamSession::Regular(Semester::Winter));
    assert_eq!(courses[0].grade, Some("5.50".to_string()));
    assert_eq!(courses[1].exam_session, ExamSession::Regular(Semester::Summer));
    assert_eq!(courses[1].grade, None);
    assert_eq!(courses[1].ects, "4.5");
    assert_eq!(courses[2].year, 2022);
    assert_eq!(courses[2].tutor, None);
}

#[test]
fn grade_report_without_tables_is_malformed() {
    assert!(matches!(parse_susi_course_html(&"<p>nothing</p>".to_string()), Err(Error::MalformedGradeReport)));
}

#[test]
fn grade_report_with_an_unreadable_year_is_malformed() {
    let body = [year_block("Година: две", &[session_table(&[])]), filler(6)].concat();
    assert!(matches!(parse_susi_course_html(&report(&body)), Err(Error::MalformedGradeReport)));
}

#[test]
fn grade_report_passes_on_the_error_of_a_course_row() {
    let table = session_table(&[&course_row(&["Алгебра", "Иванов", "Избираеми"])]);
    let body = [year_block("Година: 2021/2022", &[table]), filler(6)].concat();
    assert!(matches!(parse_susi_course_html(&report(&body)), Err(Error::PassedFlagNotFound)));
}

#[test]
fn semesters_parse_with_str_parse() {
    assert_eq!("Winter".parse::<Semester>().unwrap(), Semester::Winter);
    assert!("Autumn".parse::<Semester>().is_err());
}
