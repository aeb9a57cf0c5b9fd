//! The errors of the library.

use vstd::prelude::*;

verus! {

/// What went wrong while reading one of FMI's pages or a configuration file.
#[derive(Debug)]
pub enum Error {
    /// A semester name other than `Winter` or `Summer`.
    UnknownSemester,
    /// An exam session index other than 0, 1 or 2.
    UnknownExamSessionIndex,
    /// A category code that no category has; the code as it was given.
    UnrecognizedCategory(String),
    /// Hours that are not numbers between 0 and 255.
    IncorrectHoursFormat,
    /// Hours that are not exactly three numbers.
    IncorrectHourEntriesCount,
    /// A row of the electives table without a department.
    DepartmentNotFound,
    /// A row without a course name.
    NameNotFound,
    /// A row of the electives table without hours.
    HorariumNotFound,
    /// A row without credits.
    EctsNotFound,
    /// A row of the electives table without categories.
    CategoryNotFound,
    /// A row of the grade report without a tutor.
    TutorNotFound,
    /// A row of the grade report without the elective flag.
    ElectiveFlagNotFound,
    /// A row of the grade report without the passed flag.
    PassedFlagNotFound,
    /// A row of the grade report without a grade.
    GradeNotFound,
    /// A grade that is not a number.
    IncorrectGradeFormat,
    /// Credits that are not a number.
    IncorrectEctsFormat,
    /// A pattern or a selector that its parser refused.
    InvalidPattern,
    /// A configuration file that is not JSON.
    InvalidJson,
    /// A category requirements configuration that is not an object.
    CategoriesConfigNotObject,
    /// A category requirement key that is not a list of categories.
    WrongCategoryConfigFormat,
    /// A category requirement count that is not a number.
    ExpectedNumber,
    /// An archive configuration that is not an object.
    ConfigObjectExpected,
    /// An archive configuration year that is not a number.
    WrongYearKey,
    /// An archive configuration year whose value is not an object.
    SemesterObjectExpected,
    /// An archive configuration semester whose value is not a string.
    UrlStringExpected,
    /// A grade report page without the structure that the report has.
    MalformedGradeReport,
    /// A refused login whose page does not say why.
    MissingLoginMessage,
    /// A report page without the form fields that asking for the report needs.
    MissingFormField,
}

} // verus!
