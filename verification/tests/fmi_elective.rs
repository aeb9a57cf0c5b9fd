use susi::category::ElectiveCategory;
use susi::category::ElectiveCategory::{
    AppliedMaths, CompSciCore, CompSciFundamentals, Humanitarian, Informatics, Maths, Other,
    Practicum, Seminar, Statistics,
};
use susi::error::Error;
use susi::fmi_elective::{
    categories_field, credits, distinct_electives, electives_from_page, find_elective,
    ElectiveCourse, ElectiveHorarium,
};

fn row(cells: &[&str]) -> Vec<String> {
    cells.iter().map(|c| c.to_string()).collect()
}

fn elective(name: &str, department: &str) -> ElectiveCourse {
    ElectiveCourse {
        department: department.to_string(),
        name: name.to_string(),
        horarium: None,
        ects: None,
        categories: vec![],
    }
}

#[test]
fn horarium_reads_three_numbers() {
    let h = ElectiveHorarium::from_str("2+1+0").unwrap();
    assert_eq!(h, ElectiveHorarium { lecture: 2, seminar: 1, practicum: 0 });
    assert_eq!(ElectiveHorarium::from_triple([3, 0, 2]), ElectiveHorarium { lecture: 3, seminar: 0, practicum: 2 });
}

#[test]
fn horarium_refuses_other_text() {
    assert!(matches!(ElectiveHorarium::from_str("2+x+0"), Err(Error::IncorrectHoursFormat)));
    assert!(matches!(ElectiveHorarium::from_str("2+1"), Err(Error::IncorrectHourEntriesCount)));
    assert!(matches!(ElectiveHorarium::from_str("2+1+0+0"), Err(Error::IncorrectHourEntriesCount)));
    assert!(matches!(ElectiveHorarium::from_str("300+1+0"), Err(Error::IncorrectHoursFormat)));
    assert!(matches!(ElectiveHorarium::from_str(""), Err(Error::IncorrectHoursFormat)));
}

#[test]
fn credits_turn_the_decimal_comma_into_a_point() {
    assert_eq!(credits("5,0"), Some("5.0".to_string()));
    assert_eq!(credits("2.5"), Some("2.5".to_string()));
    assert_eq!(credits("пет"), None);
    assert_eq!(credits(""), None);
}

#[test]
fn categories_field_splits_at_slashes_and_commas() {
    assert_eq!(categories_field("ОКН / ЯКН").unwrap(), vec![CompSciFundamentals, CompSciCore]);
    assert_eq!(categories_field("М,ПМ").unwrap(), vec![Maths, AppliedMaths]);
    assert_eq!(categories_field("").unwrap(), vec![Seminar]);
    match categories_field("М / Q") {
        Err(Error::UnrecognizedCategory(given)) => assert_eq!(given, "Q"),
        other => panic!("unexpected {:?}", other),
    }
}

#[test]
fn elective_row_is_read_cell_by_cell() {
    let c = ElectiveCourse::from_fmi_site_row(row(&["КИТ", "Функционално програмиране", "2+0+2", "5,0", "ОКН"])).unwrap();
    assert_eq!(c.department, "КИТ");
    assert_eq!(c.name, "Функционално програмиране");
    assert_eq!(c.horarium, Some(ElectiveHorarium { lecture: 2, seminar: 0, practicum: 2 }));
    assert_eq!(c.ects, Some("5.0".to_string()));
    assert_eq!(c.categories, vec![CompSciFundamentals]);

    let c = ElectiveCourse::from_fmi_site_row(row(&["А", "Б", "2 + 0", "n/a", "С/Х"])).unwrap();
    assert_eq!(c.horarium, None);
    assert_eq!(c.ects, None);
    assert_eq!(c.categories, vec![Seminar, Humanitarian]);
}

#[test]
fn elective_row_reports_the_first_missing_cell() {
    assert!(matches!(ElectiveCourse::from_fmi_site_row(row(&[])), Err(Error::DepartmentNotFound)));
    assert!(matches!(ElectiveCourse::from_fmi_site_row(row(&["a"])), Err(Error::NameNotFound)));
    assert!(matches!(ElectiveCourse::from_fmi_site_row(row(&["a", "b"])), Err(Error::HorariumNotFound)));
    assert!(matches!(ElectiveCourse::from_fmi_site_row(row(&["a", "b", "1+1+1"])), Err(Error::EctsNotFound)));
    assert!(matches!(ElectiveCourse::from_fmi_site_row(row(&["a", "b", "1+1+1", "5"])), Err(Error::CategoryNotFound)));
    assert!(matches!(
        ElectiveCourse::from_fmi_site_row(row(&["a", "b", "1+1+1", "5", "ZZ"])),
        Err(Error::UnrecognizedCategory(_))
    ));
}

#[test]
fn electives_page_skips_the_heading_row() {
    let html = "<html><body><table>\
        <tr><th>Катедра</th><th>Име</th></tr>\
        <tr><td>КИТ</td><td>Алгебра 2</td><td>2+2+0</td><td>5</td><td>М</td></tr>\
        <tr><td>ВОИС</td><td>Случайни процеси</td><td>3+1+0</td><td>6,5</td><td>ПМ / Стат</td></tr>\
        </table><table><tr><td>x</td></tr></table></body></html>";
    let courses = electives_from_page(html).unwrap();
    assert_eq!(courses.len(), 2);
    assert_eq!(courses[0].name, "Алгебра 2");
    assert_eq!(courses[0].categories, vec![Maths]);
    assert_eq!(courses[1].department, "ВОИС");
    assert_eq!(courses[1].ects, Some("6.5".to_string()));
    assert_eq!(courses[1].categories, vec![AppliedMaths, Statistics]);
}

#[test]
fn electives_page_fails_on_a_bad_row() {
    let html = "<table><tr><th>h</th></tr><tr><td>КИТ</td><td>Алгебра</td></tr></table>";
    assert!(matches!(electives_from_page(html), Err(Error::HorariumNotFound)));
    assert_eq!(electives_from_page("<p>no table</p>").unwrap().len(), 0);
}

#[test]
fn distinct_electives_keeps_the_first_of_each_name() {
    let pages = vec![
        vec![elective("A", "1"), elective("B", "1")],
        vec![elective("B", "2"), elective("C", "2"), elective("A", "3")],
        vec![],
    ];
    let all = distinct_electives(pages);
    let names: Vec<&str> = all.iter().map(|c| c.name.as_str()).collect();
    assert_eq!(names, vec!["A", "B", "C"]);
    assert_eq!(all[1].department, "1");
}

#[test]
fn find_elective_finds_the_first_by_name() {
    let electives = vec![elective("A", "1"), elective("B", "1"), elective("B", "2")];
    assert_eq!(find_elective(&electives, "B"), Some(1));
    assert_eq!(find_elective(&electives, "C"), None);
}

#[test]
fn electives_are_equal_by_name() {
    assert!(elective("A", "1") == elective("A", "2"));
    assert!(elective("A", "1") != elective("B", "1"));
}
