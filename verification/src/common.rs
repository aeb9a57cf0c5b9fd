//! The library in one place, with the older reading of the requirements file: a count that
//! is not an unsigned integer leaves its requirement out instead of failing.

use vstd::prelude::*;
pub use crate::category::ElectiveCategory;
pub use crate::fmi_elective::{ElectiveCourse, ElectiveHorarium};
pub use crate::susi_course::{ExamSession, Semester};
use crate::config::{archive_config_of, archive_view, requirements_config, requirements_config_of};
use crate::error::Error;

verus! {

/// The requirements of a specialty, from the text of its requirements file: the top level
/// is an object that maps keys naming categories to counts. Every key must name
/// categories; a member whose count is not an unsigned integer is passed over.
pub fn read_categories_config(text: &str) -> (r: Result<Vec<(Vec<ElectiveCategory>, u8)>, Error>)
    ensures
        match requirements_config_of(text@, false) {
            Ok(entries) => r matches Ok(v) && v.deep_view() == entries,
            Err(e) => r == Err::<Vec<(Vec<ElectiveCategory>, u8)>, Error>(e),
        },
{
    requirements_config(text, false)
}

/// The pages of FMI's elective archive, from the text of the archive file, as
/// `config::parse_elective_archive_urls_config` reads them.
pub fn parse_year_url_config(text: &str) -> (r: Result<Vec<((u16, Semester), String)>, Error>)
    ensures
        match archive_config_of(text@) {
            Ok(entries) => r matches Ok(v) && archive_view(v@) == entries,
            Err(e) => r == Err::<Vec<((u16, Semester), String)>, Error>(e),
        },
{
    crate::config::parse_elective_archive_urls_config(text)
}

} // verus!
