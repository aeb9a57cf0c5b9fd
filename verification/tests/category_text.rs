use susi::category::ElectiveCategory;
use susi::category::ElectiveCategory::{
    AppliedMaths, CompSciCore, CompSciFundamentals, Humanitarian, Informatics, Maths, Other,
    Practicum, Seminar, Statistics,
};
use susi::error::Error;
use susi::text::{
    chars_eq, chars_of, is_float_text, is_whitespace, parse_u16, parse_u8, replace_char,
    split_chars, string_of, trim, trim_chars,
};

#[test]
fn category_codes_are_recognized() {
    let cases = [
        ("Д", Other),
        ("Др.", Other),
        ("Други", Other),
        ("И", Informatics),
        ("КП", Practicum),
        ("М", Maths),
        ("M", Maths),
        ("ПМ", AppliedMaths),
        ("ОКН", CompSciFundamentals),
        ("OKН", CompSciFundamentals),
        ("ЯКН", CompSciCore),
        ("Ст", Statistics),
        ("Стат", Statistics),
        ("С", Seminar),
        ("", Seminar),
        ("Х", Humanitarian),
        ("  ЯКН \t", CompSciCore),
    ];
    for (code, cat) in cases {
        assert_eq!(ElectiveCategory::from_str(code).unwrap(), cat, "code {:?}", code);
    }
}

#[test]
fn unknown_category_code_is_refused_with_the_code() {
    match ElectiveCategory::from_str(" Q ") {
        Err(Error::UnrecognizedCategory(given)) => assert_eq!(given, " Q "),
        other => panic!("unexpected {:?}", other),
    }
}

#[test]
fn categories_are_listed_in_order_with_names() {
    let all = ElectiveCategory::iterator();
    assert_eq!(all.len(), 10);
    for (i, c) in all.iter().enumerate() {
        assert_eq!(c.rank() as usize, i);
    }
    assert_eq!(all[0].name(), "Информатика");
    assert_eq!(all[3].name(), "Приложна математика");
    assert_eq!(all[4].name(), "ОКН");
    assert_eq!(all[9].name(), "Други");
}

#[test]
fn whitespace_follows_unicode() {
    assert!(is_whitespace(' '));
    assert!(is_whitespace('\n'));
    assert!(is_whitespace('\u{a0}'));
    assert!(is_whitespace('\u{3000}'));
    assert!(!is_whitespace('x'));
    assert!(!is_whitespace('\u{200b}'));
}

#[test]
fn trimming_matches_str_trim() {
    for s in ["  a b  ", "\u{a0}x\t", "", "   ", "abc"] {
        assert_eq!(trim(s), s.trim());
        assert_eq!(string_of(&trim_chars(&chars_of(s))), s.trim());
    }
}

#[test]
fn splitting_matches_str_split() {
    let v = chars_of("a|b||c");
    let pieces: Vec<String> = split_chars(&v, &['|']).iter().map(|p| string_of(p)).collect();
    assert_eq!(pieces, vec!["a", "b", "", "c"]);
    let pieces: Vec<String> = split_chars(&chars_of("Година:2021/2022"), &[':', '/']).iter().map(|p| string_of(p)).collect();
    assert_eq!(pieces, vec!["Година", "2021", "2022"]);
    assert_eq!(split_chars(&chars_of(""), &['|']).len(), 1);
}

#[test]
fn unsigned_numbers_parse_as_std_does() {
    assert_eq!(parse_u8("255"), Some(255));
    assert_eq!(parse_u8("256"), None);
    assert_eq!(parse_u8("+7"), Some(7));
    assert_eq!(parse_u8("-7"), None);
    assert_eq!(parse_u8(""), None);
    assert_eq!(parse_u8("+"), None);
    assert_eq!(parse_u8(" 1"), None);
    assert_eq!(parse_u16("2023"), Some(2023));
    assert_eq!(parse_u16("65536"), None);
    assert_eq!(parse_u16("007"), Some(7));
}

#[test]
fn float_texts_are_those_that_f32_accepts() {
    for s in ["5", "5.50", "-1.5", "+2", ".5", "5.", "1e3", "1E-3", "inf", "-Infinity", "NaN", "nan"] {
        assert!(is_float_text(s), "{:?}", s);
        assert!(s.parse::<f32>().is_ok());
    }
    for s in ["", ".", "5,5", "e3", "1e", "abc", " 5", "--1", "infinit"] {
        assert!(!is_float_text(s), "{:?}", s);
        assert!(s.parse::<f32>().is_err());
    }
}

#[test]
fn characters_compare_and_replace() {
    assert!(chars_eq(&chars_of("да"), &['д', 'а']));
    assert!(!chars_eq(&chars_of("да"), &['д']));
    assert_eq!(string_of(&replace_char(&chars_of("5,5,0"), ',', '.')), "5.5.0");
}

#[test]
fn categories_parse_with_str_parse() {
    assert_eq!(" ПМ ".parse::<ElectiveCategory>().unwrap(), AppliedMaths);
    assert!("ZZ".parse::<ElectiveCategory>().is_err());
}

#[test]
fn whitespace_around_a_code_does_not_change_it() {
    for s in [" ЯКН ", "\tКП\n", "Q ", "  ", "", " Др. ", "M"] {
        assert_eq!(
            ElectiveCategory::from_str(s).ok(),
            ElectiveCategory::from_str(s.trim()).ok(),
            "{:?}",
            s
        );
    }
    assert_eq!(ElectiveCategory::from_str(" \t\n").unwrap(), Seminar);
}
