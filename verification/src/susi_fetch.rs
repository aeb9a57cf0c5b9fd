//! Fetching a student's grade report from SUSI: logging in, opening the report page and
//! asking it for the report. The requests themselves are sent elsewhere; the steps here
//! decide, from each page that comes back, what to send next.

use vstd::prelude::*;
use crate::config::optional_view;
use crate::error::Error;
use crate::outside::{selected_attributes, selected_attributes_of, selected_texts, selected_texts_of};
use crate::text::chars_of;

verus! {

/// A form to post: its fields, each a name with a value.
pub type Form = Vec<(String, String)>;

/// Plain form of a form.
pub open spec fn form_view(form: Seq<(String, String)>) -> Seq<(Seq<char>, Seq<char>)> {
    form.map_values(|f: (String, String)| (f.0@, f.1@))
}

/// Where fetching the grade report stands: which page answered last.
#[derive(Debug, Clone, Copy, PartialEq, Eq, Structural)]
pub enum ReportFetchState {
    /// The login form was posted.
    LoggingIn,
    /// The report page was opened.
    OpeningReport,
    /// The report was asked for.
    RequestingReport,
}

/// What to do next while fetching the grade report.
#[derive(Debug)]
pub enum ReportFetchAction {
    /// Post this form to the login page.
    PostLogin(Form),
    /// Open the report page.
    OpenReport,
    /// Post this form to the report page.
    PostReport(Form),
    /// Done: the page of the grade report.
    Done(String),
    /// SUSI refused the login, with this message.
    LoginRefused(String),
    /// A page lacked what the next step needs.
    Failed(Error),
}

/// The state of the login form that SUSI expects.
pub open spec fn login_event_validation() -> Seq<char> {
    "/wEdAASvVXD1oYELeveMr0vHCmYPY3plgk0YBAefRz3MyBlTcHY2+Mc6SrnAqio3oCKbxYY85pbWlDO2hADfoPXD/5tdTuv7w4ACnajvAfo6U9t/biWbGiT2XZmQEcBPUoPMug0="@
}

/// The view state of the login form that SUSI expects.
pub open spec fn login_view_state() -> Seq<char> {
    "eJz7z8ifws%2fKZWhsamBhYWBgYsmfIsaUhkKIMDHyizHJsYdlFmcm5aRmpDAxA%2fnyDEAGKz%2b%2fGIscv0d%2bUWZVfl5JYo5jTmZ6HreWZnBlcUlqrl54apJeqCeIcgZKF%2bXnFOuhqWWSY4lXDHZiamgQAFoHtAlkFUtIakVJakoKEzvIfHlGbm0WJnkmFDXyzCB5TgLy3ATkeWEe4SegUBCmUJgfykoBAMHgO5k%3d"@
}

/// The login form for the given user name and password.
pub open spec fn login_form(username: Seq<char>, password: Seq<char>) -> Seq<(Seq<char>, Seq<char>)> {
    seq![
        ("txtUserName"@, username),
        ("txtPassword"@, password),
        ("__EVENTVALIDATION"@, login_event_validation()),
        ("__VSTATE"@, login_view_state()),
        ("__EVENTTARGET"@, ""@),
        ("btnSubmit"@, "Влез"@),
    ]
}

/// The form that asks the report page for the report of taken and not taken exams, with
/// the view state and event validation that the report page gave.
pub open spec fn report_form(view_state: Seq<char>, event_validation: Seq<char>) -> Seq<(Seq<char>, Seq<char>)> {
    seq![
        ("__EVENTTARGET"@, "Report_Exams1$btnReportExams"@),
        ("Report_Exams1:chkTaken"@, "on"@),
        ("Report_Exams1:chkNotTaken"@, "on"@),
        ("__VSTATE"@, view_state),
        ("__EVENTVALIDATION"@, event_validation),
    ]
}

/// The words of the login page, which SUSI shows again when it refuses a login.
pub open spec fn login_page_marker() -> Seq<char> {
    "Вход за студенти в студентска информационна система"@
}

/// Whether `needle` occurs in `text`.
pub open spec fn occurs_in(needle: Seq<char>, text: Seq<char>) -> bool {
    exists|i: int| 0 <= i <= text.len() - needle.len() && #[trigger] text.subrange(i, i + needle.len()) == needle
}

/// Whether `needle` occurs in `text`.
pub fn contains_text(text: &Vec<char>, needle: &Vec<char>) -> (b: bool)
    ensures
        b == occurs_in(needle@, text@),
{
    if needle.len() > text.len() {
        return false;
    }
    let mut i: usize = 0;
    while i <= text.len() - needle.len()
        invariant
            needle.len() <= text.len(),
            i <= text.len() - needle.len() + 1,
            forall|k: int| 0 <= k < i ==> #[trigger] text@.subrange(k, k + needle@.len()) != needle@,
        decreases text.len() - needle.len() + 1 - i,
    {
        let mut j: usize = 0;
        while j < needle.len() && text[i + j] == needle[j]
            invariant
                i + needle.len() <= text.len(),
                j <= needle.len(),
                forall|t: int| 0 <= t < j ==> text@[i + t] == needle@[t],
            decreases needle.len() - j,
        {
            j += 1;
        }
        if j == needle.len() {
            assert(text@.subrange(i as int, i + needle@.len()) =~= needle@);
            return true;
        }
        assert(text@.subrange(i as int, i + needle@.len())[j as int] != needle@[j as int]);
        i += 1;
    }
    proof {
        assert forall|k: int| 0 <= k <= text@.len() - needle@.len() implies #[trigger] text@.subrange(
            k,
            k + needle@.len(),
        ) != needle@ by {
            assert(k < i);
        }
    }
    false
}

/// The value of the first element that a selector picks, when there is one and it has a
/// `value` attribute.
pub open spec fn first_value(page: Seq<char>, element: Seq<char>) -> Option<Seq<char>> {
    match selected_attributes_of(page, element, "value"@) {
        Some(values) => if values.len() > 0 {
            values[0]
        } else {
            None
        },
        None => None,
    }
}

/// The `value` of the first element that `element` picks in `page`.
fn first_value_in(page: &str, element: &str) -> (r: Option<String>)
    ensures
        optional_view(r) == first_value(page@, element@),
{
    match selected_attributes(page, element, "value") {
        Some(values) => {
            if values.len() > 0 {
                assert(optional_view(values@[0]) == first_value(page@, element@));
                values[0].clone()
            } else {
                None
            }
        },
        None => None,
    }
}

/// The first step of fetching the grade report: post the login form with the student's
/// user name and password.
pub fn start_report_fetch(username: &str, password: &str) -> (r: (ReportFetchState, ReportFetchAction))
    ensures
        r.0 == ReportFetchState::LoggingIn,
        r.1 matches ReportFetchAction::PostLogin(form) && form_view(form@) == login_form(username@, password@),
{
    let form: Form = vec![
        (String::from_str("txtUserName"), String::from_str(username)),
        (String::from_str("txtPassword"), String::from_str(password)),
        (String::from_str("__EVENTVALIDATION"), String::from_str("/wEdAASvVXD1oYELeveMr0vHCmYPY3plgk0YBAefRz3MyBlTcHY2+Mc6SrnAqio3oCKbxYY85pbWlDO2hADfoPXD/5tdTuv7w4ACnajvAfo6U9t/biWbGiT2XZmQEcBPUoPMug0=")),
        (String::from_str("__VSTATE"), String::from_str("eJz7z8ifws%2fKZWhsamBhYWBgYsmfIsaUhkKIMDHyizHJsYdlFmcm5aRmpDAxA%2fnyDEAGKz%2b%2fGIscv0d%2bUWZVfl5JYo5jTmZ6HreWZnBlcUlqrl54apJeqCeIcgZKF%2bXnFOuhqWWSY4lXDHZiamgQAFoHtAlkFUtIakVJakoKEzvIfHlGbm0WJnkmFDXyzCB5TgLy3ATkeWEe4SegUBCmUJgfykoBAMHgO5k%3d")),
        (String::from_str("__EVENTTARGET"), String::from_str("")),
        (String::from_str("btnSubmit"), String::from_str("Влез")),
    ];
    assert(form_view(form@) =~= login_form(username@, password@));
    (ReportFetchState::LoggingIn, ReportFetchAction::PostLogin(form))
}

/// Whether `action` is what fetching the report does after `state` when `page` came back:
/// after the login, a page that shows the login form again is a refused login, with the
/// message that the page gives; otherwise the report page is opened. The report page must
/// give the view state and event validation that the report form needs. The report's page
/// ends the fetching.
pub open spec fn next_fetch_step(state: ReportFetchState, page: Seq<char>, next: ReportFetchState, action: ReportFetchAction) -> bool {
    match state {
        ReportFetchState::LoggingIn => if occurs_in(login_page_marker(), page) {
            &&& next == state
            &&& match selected_texts_of(page, "#PageError1_lblError"@) {
                Some(texts) => if texts.len() > 0 {
                    action matches ReportFetchAction::LoginRefused(m) && m@ == texts[0]
                } else {
                    action matches ReportFetchAction::Failed(Error::MissingLoginMessage)
                },
                None => action matches ReportFetchAction::Failed(Error::MissingLoginMessage),
            }
        } else {
            next == ReportFetchState::OpeningReport && action is OpenReport
        },
        ReportFetchState::OpeningReport => match (first_value(page, "#__VSTATE"@), first_value(page, "#__EVENTVALIDATION"@)) {
            (Some(view_state), Some(event_validation)) => {
                &&& next == ReportFetchState::RequestingReport
                &&& action matches ReportFetchAction::PostReport(form) && form_view(form@) == report_form(view_state, event_validation)
            },
            _ => {
                &&& next == state
                &&& action matches ReportFetchAction::Failed(Error::MissingFormField)
            },
        },
        ReportFetchState::RequestingReport => {
            &&& next == state
            &&& action matches ReportFetchAction::Done(p) && p@ == page
        },
    }
}

/// The next step of fetching the grade report, from the page that the last request got
/// back.
pub fn next_report_fetch(state: ReportFetchState, page: &str) -> (r: (ReportFetchState, ReportFetchAction))
    ensures
        next_fetch_step(state, page@, r.0, r.1),
{
    match state {
        ReportFetchState::LoggingIn => {
            let text = chars_of(page);
            let marker = chars_of("Вход за студенти в студентска информационна система");
            if contains_text(&text, &marker) {
                match selected_texts(page, "#PageError1_lblError") {
                    Some(texts) => {
                        if texts.len() > 0 {
                            let message = texts[0].clone();
                            return (state, ReportFetchAction::LoginRefused(message));
                        }
                    },
                    None => {},
                }
                (state, ReportFetchAction::Failed(Error::MissingLoginMessage))
            } else {
                (ReportFetchState::OpeningReport, ReportFetchAction::OpenReport)
            }
        },
        ReportFetchState::OpeningReport => {
            let view_state = first_value_in(page, "#__VSTATE");
            let event_validation = first_value_in(page, "#__EVENTVALIDATION");
            match (view_state, event_validation) {
                (Some(v), Some(e)) => {
                    let ghost (vv, ev) = (v@, e@);
                    let form: Form = vec![
                        (String::from_str("__EVENTTARGET"), String::from_str("Report_Exams1$btnReportExams")),
                        (String::from_str("Report_Exams1:chkTaken"), String::from_str("on")),
                        (String::from_str("Report_Exams1:chkNotTaken"), String::from_str("on")),
                        (String::from_str("__VSTATE"), v),
                        (String::from_str("__EVENTVALIDATION"), e),
                    ];
                    assert(form_view(form@) =~= report_form(vv, ev));
                    (ReportFetchState::RequestingReport, ReportFetchAction::PostReport(form))
                },
                _ => (state, ReportFetchAction::Failed(Error::MissingFormField)),
            }
        },
        ReportFetchState::RequestingReport => (state, ReportFetchAction::Done(String::from_str(page))),
    }
}

} // verus!
