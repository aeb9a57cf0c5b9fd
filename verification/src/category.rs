//! The categories of elective courses that FMI publishes next to each elective.

use vstd::prelude::*;
use crate::error::Error;
use crate::text::{chars_of, chars_eq, is_white_space, lemma_trim_idempotent, trim_chars, trim_seq, string_of};

verus! {

/// A category of elective courses.
#[derive(Debug, Clone, Copy, PartialEq, Eq, Structural, PartialOrd, Ord, Hash)]
pub enum ElectiveCategory {
    Informatics,
    Practicum,
    Maths,
    AppliedMaths,
    CompSciFundamentals,
    CompSciCore,
    Statistics,
    Seminar,
    Humanitarian,
    Other,
}

impl DeepView for ElectiveCategory {
    type V = ElectiveCategory;

    open spec fn deep_view(&self) -> ElectiveCategory {
        *self
    }
}

/// A vector of categories looks the same deeply and shallowly.
pub broadcast proof fn lemma_categories_deep_view(v: Vec<ElectiveCategory>)
    ensures
        #[trigger] v.deep_view() == v@,
{
    assert(v.deep_view() =~= v@);
}

/// The position of a category in the declaration order, which is also the order in
/// which categories compare.
pub open spec fn category_rank(c: ElectiveCategory) -> nat {
    match c {
        ElectiveCategory::Informatics => 0,
        ElectiveCategory::Practicum => 1,
        ElectiveCategory::Maths => 2,
        ElectiveCategory::AppliedMaths => 3,
        ElectiveCategory::CompSciFundamentals => 4,
        ElectiveCategory::CompSciCore => 5,
        ElectiveCategory::Statistics => 6,
        ElectiveCategory::Seminar => 7,
        ElectiveCategory::Humanitarian => 8,
        ElectiveCategory::Other => 9,
    }
}

/// All categories, in declaration order.
pub open spec fn all_categories() -> Seq<ElectiveCategory> {
    seq![
        ElectiveCategory::Informatics,
        ElectiveCategory::Practicum,
        ElectiveCategory::Maths,
        ElectiveCategory::AppliedMaths,
        ElectiveCategory::CompSciFundamentals,
        ElectiveCategory::CompSciCore,
        ElectiveCategory::Statistics,
        ElectiveCategory::Seminar,
        ElectiveCategory::Humanitarian,
        ElectiveCategory::Other,
    ]
}

/// The category that a (trimmed) category code on FMI's pages stands for.
/// The empty code is how one seminar is published, so it counts as a seminar.
pub open spec fn category_of_code(code: Seq<char>) -> Option<ElectiveCategory> {
    if code == seq!['Д'] || code == seq!['Д', 'р', '.'] || code == seq!['Д', 'р', 'у', 'г', 'и'] {
        Some(ElectiveCategory::Other)
    } else if code == seq!['И'] {
        Some(ElectiveCategory::Informatics)
    } else if code == seq!['К', 'П'] {
        Some(ElectiveCategory::Practicum)
    } else if code == seq!['М'] || code == seq!['M'] {
        Some(ElectiveCategory::Maths)
    } else if code == seq!['П', 'М'] {
        Some(ElectiveCategory::AppliedMaths)
    } else if code == seq!['О', 'К', 'Н'] || code == seq!['O', 'K', 'Н'] {
        Some(ElectiveCategory::CompSciFundamentals)
    } else if code == seq!['Я', 'К', 'Н'] {
        Some(ElectiveCategory::CompSciCore)
    } else if code == seq!['С', 'т'] || code == seq!['С', 'т', 'а', 'т'] {
        Some(ElectiveCategory::Statistics)
    } else if code == seq!['С'] || code.len() == 0 {
        Some(ElectiveCategory::Seminar)
    } else if code == seq!['Х'] {
        Some(ElectiveCategory::Humanitarian)
    } else {
        None
    }
}

/// The name under which a category is shown to the student.
pub open spec fn category_name(c: ElectiveCategory) -> Seq<char> {
    match c {
        ElectiveCategory::Informatics => "Информатика"@,
        ElectiveCategory::Practicum => "Практикум"@,
        ElectiveCategory::Maths => "Математика"@,
        ElectiveCategory::AppliedMaths => "Приложна математика"@,
        ElectiveCategory::CompSciFundamentals => "ОКН"@,
        ElectiveCategory::CompSciCore => "ЯКН"@,
        ElectiveCategory::Statistics => "Статистика"@,
        ElectiveCategory::Seminar => "Семинар"@,
        ElectiveCategory::Humanitarian => "Хуманитарни"@,
        ElectiveCategory::Other => "Други"@,
    }
}

/// Whitespace around a category code does not change what it names: by the contract of
/// `ElectiveCategory::from_str`, reading `s` and reading `s` trimmed give the same category,
/// or both refuse it; text made only of whitespace reads as the seminars.
pub proof fn law_whitespace_around_codes(s: Seq<char>)
    ensures
        category_of_code(trim_seq(trim_seq(s))) == category_of_code(trim_seq(s)),
        (forall|k: int| 0 <= k < s.len() ==> is_white_space(#[trigger] s[k])) ==> category_of_code(
            trim_seq(s),
        ) == Some(ElectiveCategory::Seminar),
{
    lemma_trim_idempotent(s);
}

impl ElectiveCategory {
    /// The rank of the category in the declaration order.
    pub fn rank(&self) -> (r: u8)
        ensures
            r as nat == category_rank(*self),
    {
        match self {
            ElectiveCategory::Informatics => 0,
            ElectiveCategory::Practicum => 1,
            ElectiveCategory::Maths => 2,
            ElectiveCategory::AppliedMaths => 3,
            ElectiveCategory::CompSciFundamentals => 4,
            ElectiveCategory::CompSciCore => 5,
            ElectiveCategory::Statistics => 6,
            ElectiveCategory::Seminar => 7,
            ElectiveCategory::Humanitarian => 8,
            ElectiveCategory::Other => 9,
        }
    }

    /// Every category, each once, in declaration order.
    pub fn iterator() -> (v: Vec<ElectiveCategory>)
        ensures
            v@ == all_categories(),
    {
        vec![
            ElectiveCategory::Informatics,
            ElectiveCategory::Practicum,
            ElectiveCategory::Maths,
            ElectiveCategory::AppliedMaths,
            ElectiveCategory::CompSciFundamentals,
            ElectiveCategory::CompSciCore,
            ElectiveCategory::Statistics,
            ElectiveCategory::Seminar,
            ElectiveCategory::Humanitarian,
            ElectiveCategory::Other,
        ]
    }

    /// The category that a code stands for; whitespace around the code is ignored.
    pub fn from_str(s: &str) -> (r: Result<ElectiveCategory, Error>)
        ensures
            match category_of_code(trim_seq(s@)) {
                Some(c) => r == Ok::<ElectiveCategory, Error>(c),
                None => r matches Err(Error::UnrecognizedCategory(given)) && given@ == s@,
            },
    {
        let all = chars_of(s);
        let code = trim_chars(&all);
        let c0: &[char] = &['Д'];
        let c1: &[char] = &['Д', 'р', '.'];
        let c14: &[char] = &['Д', 'р', 'у', 'г', 'и'];
        let c2: &[char] = &['И'];
        let c3: &[char] = &['К', 'П'];
        let c4: &[char] = &['М'];
        let c5: &[char] = &['M'];
        let c6: &[char] = &['П', 'М'];
        let c7: &[char] = &['О', 'К', 'Н'];
        let c8: &[char] = &['O', 'K', 'Н'];
        let c9: &[char] = &['Я', 'К', 'Н'];
        let c10: &[char] = &['С', 'т'];
        let c11: &[char] = &['С', 'т', 'а', 'т'];
        let c12: &[char] = &['С'];
        let c13: &[char] = &['Х'];
        assert(c0@ == seq!['Д']);
        assert(c1@ == seq!['Д', 'р', '.']);
        assert(c14@ == seq!['Д', 'р', 'у', 'г', 'и']);
        assert(c2@ == seq!['И']);
        assert(c3@ == seq!['К', 'П']);
        assert(c4@ == seq!['М']);
        assert(c5@ == seq!['M']);
        assert(c6@ == seq!['П', 'М']);
        assert(c7@ == seq!['О', 'К', 'Н']);
        assert(c8@ == seq!['O', 'K', 'Н']);
        assert(c9@ == seq!['Я', 'К', 'Н']);
        assert(c10@ == seq!['С', 'т']);
        assert(c11@ == seq!['С', 'т', 'а', 'т']);
        assert(c12@ == seq!['С']);
        assert(c13@ == seq!['Х']);
        if chars_eq(&code, c0) || chars_eq(&code, c1) || chars_eq(&code, c14) {
            Ok(ElectiveCategory::Other)
        } else if chars_eq(&code, c2) {
            Ok(ElectiveCategory::Informatics)
        } else if chars_eq(&code, c3) {
            Ok(ElectiveCategory::Practicum)
        } else if chars_eq(&code, c4) || chars_eq(&code, c5) {
            Ok(ElectiveCategory::Maths)
        } else if chars_eq(&code, c6) {
            Ok(ElectiveCategory::AppliedMaths)
        } else if chars_eq(&code, c7) || chars_eq(&code, c8) {
            Ok(ElectiveCategory::CompSciFundamentals)
        } else if chars_eq(&code, c9) {
            Ok(ElectiveCategory::CompSciCore)
        } else if chars_eq(&code, c10) || chars_eq(&code, c11) {
            Ok(ElectiveCategory::Statistics)
        } else if chars_eq(&code, c12) || code.len() == 0 {
            Ok(ElectiveCategory::Seminar)
        } else if chars_eq(&code, c13) {
            Ok(ElectiveCategory::Humanitarian)
        } else {
            Err(Error::UnrecognizedCategory(string_of(&all)))
        }
    }

    /// The name under which the category is shown.
    pub fn name(&self) -> (s: String)
        ensures
            s@ == category_name(*self),
    {
        match self {
            ElectiveCategory::Informatics => String::from_str("Информатика"),
            ElectiveCategory::Practicum => String::from_str("Практикум"),
            ElectiveCategory::Maths => String::from_str("Математика"),
            ElectiveCategory::AppliedMaths => String::from_str("Приложна математика"),
            ElectiveCategory::CompSciFundamentals => String::from_str("ОКН"),
            ElectiveCategory::CompSciCore => String::from_str("ЯКН"),
            ElectiveCategory::Statistics => String::from_str("Статистика"),
            ElectiveCategory::Seminar => String::from_str("Семинар"),
            ElectiveCategory::Humanitarian => String::from_str("Хуманитарни"),
            ElectiveCategory::Other => String::from_str("Други"),
        }
    }
}

/// Reading a category code with `str::parse`, as `ElectiveCategory::from_str` reads it.
impl std::str::FromStr for ElectiveCategory {
    type Err = Error;

    fn from_str(s: &str) -> (r: Result<ElectiveCategory, Error>)
        ensures
            match category_of_code(trim_seq(s@)) {
                Some(c) => r == Ok::<ElectiveCategory, Error>(c),
                None => r matches Err(Error::UnrecognizedCategory(given)) && given@ == s@,
            },
    {
        ElectiveCategory::from_str(s)
    }
}

} // verus!
