use susi::error::Error;
use susi::susi_fetch::{next_report_fetch, start_report_fetch, ReportFetchAction, ReportFetchState};

fn field<'a>(form: &'a [(String, String)], name: &str) -> &'a str {
    form.iter().find(|(n, _)| n == name).map(|(_, v)| v.as_str()).unwrap()
}

#[test]
fn fetching_starts_with_the_login_form() {
    let (state, action) = start_report_fetch("student", "secret");
    assert_eq!(state, ReportFetchState::LoggingIn);
    match action {
        ReportFetchAction::PostLogin(form) => {
            assert_eq!(form.len(), 6);
            assert_eq!(field(&form, "txtUserName"), "student");
            assert_eq!(field(&form, "txtPassword"), "secret");
            assert_eq!(field(&form, "btnSubmit"), "Влез");
            assert_eq!(field(&form, "__EVENTTARGET"), "");
            assert!(field(&form, "__VSTATE").starts_with("eJz7"));
            assert!(field(&form, "__EVENTVALIDATION").starts_with("/wEd"));
        }
        other => panic!("unexpected {:?}", other),
    }
}

#[test]
fn refused_login_gives_the_page_message() {
    let page = "<html><body><h1>Вход за студенти в студентска информационна система</h1>\
        <span id=\"PageError1_lblError\">Грешно потребителско име или парола</span></body></html>";
    let (_, action) = next_report_fetch(ReportFetchState::LoggingIn, page);
    match action {
        ReportFetchAction::LoginRefused(m) => assert_eq!(m, "Грешно потребителско име или парола"),
        other => panic!("unexpected {:?}", other),
    }
    let page = "<p>Вход за студенти в студентска информационна система</p>";
    let (_, action) = next_report_fetch(ReportFetchState::LoggingIn, page);
    assert!(matches!(action, ReportFetchAction::Failed(Error::MissingLoginMessage)));
}

#[test]
fn accepted_login_opens_the_report_page() {
    let (state, action) = next_report_fetch(ReportFetchState::LoggingIn, "<p>Добре дошли</p>");
    assert_eq!(state, ReportFetchState::OpeningReport);
    assert!(matches!(action, ReportFetchAction::OpenReport));
}

#[test]
fn report_page_gives_the_report_form() {
    let page = "<form><input id=\"__VSTATE\" value=\"vs1\"/><input id=\"__EVENTVALIDATION\" value=\"ev1\"/></form>";
    let (state, action) = next_report_fetch(ReportFetchState::OpeningReport, page);
    assert_eq!(state, ReportFetchState::RequestingReport);
    match action {
        ReportFetchAction::PostReport(form) => {
            assert_eq!(form.len(), 5);
            assert_eq!(field(&form, "__VSTATE"), "vs1");
            assert_eq!(field(&form, "__EVENTVALIDATION"), "ev1");
            assert_eq!(field(&form, "__EVENTTARGET"), "Report_Exams1$btnReportExams");
            assert_eq!(field(&form, "Report_Exams1:chkTaken"), "on");
            assert_eq!(field(&form, "Report_Exams1:chkNotTaken"), "on");
        }
        other => panic!("unexpected {:?}", other),
    }
    let (_, action) = next_report_fetch(ReportFetchState::OpeningReport, "<input id=\"__VSTATE\" value=\"v\"/>");
    assert!(matches!(action, ReportFetchAction::Failed(Error::MissingFormField)));
}

#[test]
fn report_page_ends_the_fetching() {
    let (_, action) = next_report_fetch(ReportFetchState::RequestingReport, "<table></table>");
    match action {
        ReportFetchAction::Done(page) => assert_eq!(page, "<table></table>"),
        other => panic!("unexpected {:?}", other),
    }
}
