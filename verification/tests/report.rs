use susi::category::ElectiveCategory::{AppliedMaths, CompSciCore, CompSciFundamentals, Maths, Seminar};
use susi::course_arranger::{Arrangement, CategoryRequirements, CoursesWithCats};
use susi::report::report_of_arrangement;

fn names(list: &[&str]) -> Vec<String> {
    list.iter().map(|n| n.to_string()).collect()
}

#[test]
fn report_lists_groups_by_size_then_what_is_left() {
    let names = names(&["Алгебра 2", "Случайни процеси", "Java"]);
    let arrangement: Arrangement = vec![
        (vec![Maths, AppliedMaths], vec![(0, vec![Maths]), (1, vec![AppliedMaths])]),
        (vec![CompSciCore], vec![(2, vec![CompSciCore])]),
    ];
    let reqs: CategoryRequirements = vec![(vec![CompSciFundamentals, CompSciCore], 2)];
    let left: CoursesWithCats = vec![];
    let expected = [
        "\nYour optimal arrangement is:\n\n",
        "ЯКН ->\n  'Java' (ЯКН)\n\n",
        "Математика | Приложна математика ->\n  'Алгебра 2' (Математика)\n  'Случайни процеси' (Приложна математика)\n\n",
        "\n",
        "Requirements left:\n\n  ОКН | ЯКН -> 2\n",
        "\n\n",
        "You have no unmapped courses, i.e. no courses left that couldn't fit in a category requirement.\n\n",
    ]
    .concat();
    assert_eq!(report_of_arrangement(&names, &arrangement, &reqs, &left), expected);
}

#[test]
fn report_without_open_requirements_shows_the_courses_left() {
    let names = names(&["Логика", "Семинар по анализ"]);
    let left: CoursesWithCats = vec![(1, vec![Seminar, Maths])];
    let expected = [
        "\nYour optimal arrangement is:\n\n",
        "\n",
        "Hurray! No requirements left!\n\n",
        "\n\n",
        "Courses left:\n\n  Семинар по анализ (Семинар|Математика)\n",
    ]
    .concat();
    assert_eq!(report_of_arrangement(&names, &vec![], &vec![], &left), expected);
}

#[test]
fn report_writes_counts_in_decimal() {
    let reqs: CategoryRequirements = vec![(vec![Maths], 120), (vec![Seminar], 7), (vec![], 45)];
    let text = report_of_arrangement(&vec![], &vec![], &reqs, &vec![]);
    assert!(text.contains("Requirements left:\n\n  Математика -> 120\n  Семинар -> 7\n   -> 45\n\n\n"));
}
