use susi::category::ElectiveCategory;
use susi::category::ElectiveCategory::{
    AppliedMaths, CompSciCore, CompSciFundamentals, Humanitarian, Informatics, Maths, Other,
    Practicum, Seminar, Statistics,
};
use susi::common;
use susi::config::{
    parse_categories, parse_elective_archive_urls_config, pages_to_fetch, read_categories_config,
};
use susi::error::Error;
use susi::susi_course::Semester;

#[test]
fn requirement_keys_name_categories() {
    assert_eq!(parse_categories("ОКН | ЯКН"), Some(vec![CompSciFundamentals, CompSciCore]));
    assert_eq!(parse_categories("М"), Some(vec![Maths]));
    assert_eq!(parse_categories("_"), Some(ElectiveCategory::iterator()));
    assert_eq!(parse_categories(" _ "), None);
    assert_eq!(parse_categories("М | Q"), None);
}

#[test]
fn requirements_file_maps_keys_to_counts() {
    let text = r#"{ "КП": 2, "М | ПМ": 2, "ОКН | ЯКН": 3, "_": 1 }"#;
    let reqs = read_categories_config(text).unwrap();
    // serde_json's map gives the keys in sorted order: "_" before the Cyrillic ones.
    assert_eq!(
        reqs,
        vec![
            (ElectiveCategory::iterator(), 1),
            (vec![Practicum], 2),
            (vec![Maths, AppliedMaths], 2),
            (vec![CompSciFundamentals, CompSciCore], 3),
        ]
    );
}

#[test]
fn requirement_counts_wrap_at_256() {
    let reqs = read_categories_config(r#"{ "И": 258 }"#).unwrap();
    assert_eq!(reqs, vec![(vec![Informatics], 2)]);
}

#[test]
fn requirement_keys_naming_the_same_list_keep_the_later_count() {
    // The keys come in sorted order: " И " before "И".
    let reqs = read_categories_config(r#"{ "И": 1, " И ": 4 }"#).unwrap();
    assert_eq!(reqs, vec![(vec![Informatics], 1)]);
}

#[test]
fn requirements_file_errors() {
    assert!(matches!(read_categories_config("{"), Err(Error::InvalidJson)));
    assert!(matches!(read_categories_config("[1, 2]"), Err(Error::CategoriesConfigNotObject)));
    assert!(matches!(read_categories_config(r#"{ "Q": 1 }"#), Err(Error::WrongCategoryConfigFormat)));
    assert!(matches!(read_categories_config(r#"{ "М": "two" }"#), Err(Error::ExpectedNumber)));
    assert!(matches!(read_categories_config(r#"{ "М": -1 }"#), Err(Error::ExpectedNumber)));
    assert!(matches!(read_categories_config(r#"{ "М": 1.5 }"#), Err(Error::ExpectedNumber)));
}

#[test]
fn older_reading_passes_over_counts_that_are_not_numbers() {
    let reqs = common::read_categories_config(r#"{ "М": "two", "Х": 1 }"#).unwrap();
    assert_eq!(reqs, vec![(vec![Humanitarian], 1)]);
    assert!(matches!(common::read_categories_config(r#"{ "Q": 1 }"#), Err(Error::WrongCategoryConfigFormat)));
}

#[test]
fn archive_file_maps_years_and_semesters_to_pages() {
    let text = r#"{ "2022": { "Winter": "https://a/w22", "Summer": "https://a/s22" }, "2021": { "Summer": "https://a/s21" } }"#;
    let pages = parse_elective_archive_urls_config(text).unwrap();
    assert_eq!(
        pages,
        vec![
            ((2021, Semester::Summer), "https://a/s21".to_string()),
            ((2022, Semester::Summer), "https://a/s22".to_string()),
            ((2022, Semester::Winter), "https://a/w22".to_string()),
        ]
    );
    assert_eq!(common::parse_year_url_config(text).unwrap(), pages);
}

#[test]
fn archive_file_errors() {
    assert!(matches!(parse_elective_archive_urls_config("nope"), Err(Error::InvalidJson)));
    assert!(matches!(parse_elective_archive_urls_config("\"x\""), Err(Error::ConfigObjectExpected)));
    assert!(matches!(parse_elective_archive_urls_config(r#"{ "year": {} }"#), Err(Error::WrongYearKey)));
    assert!(matches!(parse_elective_archive_urls_config(r#"{ "70000": {} }"#), Err(Error::WrongYearKey)));
    assert!(matches!(parse_elective_archive_urls_config(r#"{ "2021": "x" }"#), Err(Error::SemesterObjectExpected)));
    assert!(matches!(parse_elective_archive_urls_config(r#"{ "2021": { "Spring": "x" } }"#), Err(Error::UnknownSemester)));
    assert!(matches!(parse_elective_archive_urls_config(r#"{ "2021": { "Summer": 1 } }"#), Err(Error::UrlStringExpected)));
}

#[test]
fn pages_to_fetch_keeps_the_wanted_semesters() {
    let pages = vec![
        ((2021, Semester::Summer), "s21".to_string()),
        ((2022, Semester::Summer), "s22".to_string()),
        ((2022, Semester::Winter), "w22".to_string()),
    ];
    let wanted = vec![(2022, Semester::Winter), (2021, Semester::Summer), (2030, Semester::Summer)];
    assert_eq!(
        pages_to_fetch(&pages, &wanted),
        vec![((2021, Semester::Summer), "s21".to_string()), ((2022, Semester::Winter), "w22".to_string())]
    );
    assert!(pages_to_fetch(&pages, &vec![]).is_empty());
}

#[test]
fn joined_category_keys_give_their_categories_back() {
    assert_eq!(parse_categories("М | ПМ | М"), Some(vec![Maths, AppliedMaths, Maths]));
    assert_eq!(
        parse_categories("Д | И | КП | М | ПМ | ОКН | ЯКН | Ст | С | Х"),
        Some(vec![
            Other,
            Informatics,
            Practicum,
            Maths,
            AppliedMaths,
            CompSciFundamentals,
            CompSciCore,
            Statistics,
            Seminar,
            Humanitarian
        ])
    );
}
