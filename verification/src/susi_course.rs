//! The student's courses as SUSI, the student information system, reports them.

use vstd::prelude::*;
use crate::error::Error;
use crate::fmi_elective::{credits_text, credits};
use crate::outside::{
    child_counts, child_counts_of, following_sections, following_sections_of, lines_view,
    nested_texts, nested_texts_of, sections_view, strings_view,
};
use crate::seq_facts::lemma_filter_take_step;
use crate::text::{
    chars_eq, chars_of, float_text_ok, is_float_text, is_white_space, is_whitespace,
    parse_unsigned, parse_unsigned_chars, split_chars, split_seq, trim, trim_seq,
};

verus! {

/// A semester of the academic year.
#[derive(Debug, Clone, Copy, PartialEq, Eq, Structural, PartialOrd, Ord, Hash)]
pub enum Semester {
    Winter,
    Summer,
}

/// The semester that a configuration names.
pub open spec fn semester_named(s: Seq<char>) -> Option<Semester> {
    if s == seq!['S', 'u', 'm', 'm', 'e', 'r'] {
        Some(Semester::Summer)
    } else if s == seq!['W', 'i', 'n', 't', 'e', 'r'] {
        Some(Semester::Winter)
    } else {
        None
    }
}

impl Semester {
    /// The semester named `Summer` or `Winter`.
    pub fn from_str(s: &str) -> (r: Result<Semester, Error>)
        ensures
            match semester_named(s@) {
                Some(sem) => r == Ok::<Semester, Error>(sem),
                None => r == Err::<Semester, Error>(Error::UnknownSemester),
            },
    {
        let v = chars_of(s);
        let summer: &[char] = &['S', 'u', 'm', 'm', 'e', 'r'];
        let winter: &[char] = &['W', 'i', 'n', 't', 'e', 'r'];
        assert(summer@ == seq!['S', 'u', 'm', 'm', 'e', 'r']);
        assert(winter@ == seq!['W', 'i', 'n', 't', 'e', 'r']);
        if chars_eq(&v, summer) {
            Ok(Semester::Summer)
        } else if chars_eq(&v, winter) {
            Ok(Semester::Winter)
        } else {
            Err(Error::UnknownSemester)
        }
    }
}

/// Reading a semester with `str::parse`, as `Semester::from_str` reads it.
impl std::str::FromStr for Semester {
    type Err = Error;

    fn from_str(s: &str) -> (r: Result<Semester, Error>)
        ensures
            match semester_named(s@) {
                Some(sem) => r == Ok::<Semester, Error>(sem),
                None => r == Err::<Semester, Error>(Error::UnknownSemester),
            },
    {
        Semester::from_str(s)
    }
}

/// An exam session: the regular one of a semester, or the session for retakes.
#[derive(Debug, Clone, Copy, PartialEq, Eq, Structural, PartialOrd, Ord, Hash)]
pub enum ExamSession {
    Regular(Semester),
    Elimination,
}

/// The exam session that a position among the session tables of a SUSI report stands for.
pub open spec fn session_at(index: int) -> Option<ExamSession> {
    if index == 0 {
        Some(ExamSession::Regular(Semester::Winter))
    } else if index == 1 {
        Some(ExamSession::Regular(Semester::Summer))
    } else if index == 2 {
        Some(ExamSession::Elimination)
    } else {
        None
    }
}

impl ExamSession {
    /// The exam session of the session table at position `index` of a year in a SUSI
    /// report: winter, summer, then retakes.
    pub fn from_susi_index(index: u8) -> (r: Result<ExamSession, Error>)
        ensures
            match session_at(index as int) {
                Some(s) => r == Ok::<ExamSession, Error>(s),
                None => r == Err::<ExamSession, Error>(Error::UnknownExamSessionIndex),
            },
    {
        match index {
            0 => Ok(ExamSession::Regular(Semester::Winter)),
            1 => Ok(ExamSession::Regular(Semester::Summer)),
            2 => Ok(ExamSession::Elimination),
            _ => Err(Error::UnknownExamSessionIndex),
        }
    }
}

/// A course in a student's SUSI grade report.
#[derive(Debug, Clone)]
pub struct Course {
    pub name: String,
    pub tutor: Option<String>,
    pub year: u16,
    pub exam_session: ExamSession,
    pub is_elective: bool,
    pub is_passed: bool,
    /// The grade as decimal text, when there is one.
    pub grade: Option<String>,
    /// The credits as decimal text (with `'.'` for the decimal comma).
    pub ects: String,
}

/// Two courses are the same course when they have the same year, exam session and name.
impl PartialEq for Course {
    fn eq(&self, other: &Self) -> (r: bool) {
        self.year == other.year && self.exam_session == other.exam_session && self.name == other.name
    }
}

impl vstd::std_specs::cmp::PartialEqSpecImpl for Course {
    open spec fn obeys_eq_spec() -> bool {
        true
    }

    open spec fn eq_spec(&self, other: &Self) -> bool {
        self.year == other.year && self.exam_session == other.exam_session && self.name@ == other.name@
    }
}

impl Eq for Course {
}

/// The word in the kind column of a report that marks an elective.
pub open spec fn elective_word() -> Seq<char> {
    seq!['И', 'з', 'б', 'и', 'р', 'а', 'е', 'м', 'и']
}

/// The word in the passed column of a report that marks a passed course.
pub open spec fn passed_word() -> Seq<char> {
    seq!['д', 'а']
}

/// What a row of a grade report fails on first, if anything.
pub open spec fn susi_row_error(args: Seq<Seq<char>>) -> Option<Error> {
    if args.len() < 1 {
        Some(Error::NameNotFound)
    } else if args.len() < 2 {
        Some(Error::TutorNotFound)
    } else if args.len() < 3 {
        Some(Error::ElectiveFlagNotFound)
    } else if args.len() < 4 {
        Some(Error::PassedFlagNotFound)
    } else if args.len() < 5 {
        Some(Error::GradeNotFound)
    } else if args[4].len() > 0 && !float_text_ok(args[4]) {
        Some(Error::IncorrectGradeFormat)
    } else if args.len() < 6 {
        Some(Error::EctsNotFound)
    } else if !float_text_ok(credits_text(args[5])) {
        Some(Error::IncorrectEctsFormat)
    } else {
        None
    }
}

#[verifier::opaque]
/// Whether `c` is the course that the row `args` of the grade report describes for the
/// given year and exam session: name, tutor (none when empty), kind, passed flag, grade
/// (none when empty) and credits.
pub open spec fn course_of_row(c: Course, year: u16, session: ExamSession, args: Seq<Seq<char>>) -> bool {
    &&& c.name@ == args[0]
    &&& match c.tutor {
        None => args[1].len() == 0,
        Some(t) => args[1].len() > 0 && t@ == args[1],
    }
    &&& c.year == year
    &&& c.exam_session == session
    &&& c.is_elective == (args[2] == elective_word())
    &&& c.is_passed == (args[3] == passed_word())
    &&& match c.grade {
        None => args[4].len() == 0,
        Some(g) => args[4].len() > 0 && g@ == args[4],
    }
    &&& c.ects@ == credits_text(args[5])
}

impl Course {
    /// The course that a row of a grade report describes: name, tutor, kind, passed flag,
    /// grade and credits, in this order.
    pub fn from_susi_row(year: u16, semester: ExamSession, args: &Vec<String>) -> (r: Result<Course, Error>)
        ensures
            match susi_row_error(strings_view(args@)) {
                Some(e) => r == Err::<Course, Error>(e),
                None => r matches Ok(c) && course_of_row(c, year, semester, strings_view(args@)),
            },
    {
        reveal(course_of_row);
        let ghost a = strings_view(args@);
        if args.len() < 1 {
            return Err(Error::NameNotFound);
        }
        if args.len() < 2 {
            return Err(Error::TutorNotFound);
        }
        if args.len() < 3 {
            return Err(Error::ElectiveFlagNotFound);
        }
        if args.len() < 4 {
            return Err(Error::PassedFlagNotFound);
        }
        if args.len() < 5 {
            return Err(Error::GradeNotFound);
        }
        assert(a[0] == args@[0]@ && a[1] == args@[1]@ && a[2] == args@[2]@ && a[3] == args@[3]@
            && a[4] == args@[4]@);
        let name = args[0].clone();
        let tutor = if args[1].as_str().is_empty() {
            None
        } else {
            Some(args[1].clone())
        };
        let kind = chars_of(args[2].as_str());
        let elective: &[char] = &['И', 'з', 'б', 'и', 'р', 'а', 'е', 'м', 'и'];
        assert(elective@ == elective_word());
        let is_elective = chars_eq(&kind, elective);
        let passed = chars_of(args[3].as_str());
        let yes: &[char] = &['д', 'а'];
        assert(yes@ == passed_word());
        let is_passed = chars_eq(&passed, yes);
        let grade = if args[4].as_str().is_empty() {
            None
        } else if is_float_text(args[4].as_str()) {
            Some(args[4].clone())
        } else {
            return Err(Error::IncorrectGradeFormat);
        };
        if args.len() < 6 {
            return Err(Error::EctsNotFound);
        }
        assert(a[5] == args@[5]@);
        let ects = match credits(args[5].as_str()) {
            Some(t) => t,
            None => {
                return Err(Error::IncorrectEctsFormat);
            },
        };
        Ok(Course { name, tutor, year, exam_session: semester, is_elective, is_passed, grade, ects })
    }
}

/// The position of the last of the largest counts: no count is larger, and every count
/// after it is smaller.
pub open spec fn is_last_largest(counts: Seq<usize>, i: int) -> bool {
    &&& 0 <= i < counts.len()
    &&& forall|j: int| 0 <= j < counts.len() ==> #[trigger] counts[j] <= counts[i]
    &&& forall|j: int| i < j < counts.len() ==> #[trigger] counts[j] < counts[i]
}

/// There is at most one last largest count.
pub proof fn lemma_last_largest_unique(counts: Seq<usize>, i: int)
    requires
        is_last_largest(counts, i),
    ensures
        (choose|k: int| is_last_largest(counts, k)) == i,
{
    let k = choose|k: int| is_last_largest(counts, k);
    assert(is_last_largest(counts, k));
    if k < i {
        assert(counts[i] < counts[k]);
        assert(counts[k] <= counts[i]);
    } else if i < k {
        assert(counts[k] < counts[i]);
        assert(counts[i] <= counts[k]);
    }
}

/// The position of the last of the largest counts, as `Iterator::max_by_key` picks it;
/// `None` when there are no counts.
pub fn last_largest(counts: &Vec<usize>) -> (r: Option<usize>)
    ensures
        r is None <==> counts@.len() == 0,
        r matches Some(i) ==> is_last_largest(counts@, i as int),
{
    if counts.len() == 0 {
        return None;
    }
    let mut best: usize = 0;
    let mut i: usize = 1;
    while i < counts.len()
        invariant
            0 <= best < i <= counts.len(),
            forall|j: int| 0 <= j < i ==> #[trigger] counts@[j] <= counts@[best as int],
            forall|j: int| best < j < i ==> #[trigger] counts@[j] < counts@[best as int],
        decreases counts.len() - i,
    {
        if counts[i] >= counts[best] {
            best = i;
        }
        i += 1;
    }
    Some(best)
}

/// `s` without any whitespace.
pub open spec fn squeezed(s: Seq<char>) -> Seq<char> {
    s.filter(|c: char| !is_white_space(c))
}

/// The characters of `s` without any whitespace.
pub fn squeeze(s: &str) -> (r: Vec<char>)
    ensures
        r@ == squeezed(s@),
{
    let v = chars_of(s);
    let ghost keep = |c: char| !is_white_space(c);
    let mut r: Vec<char> = Vec::new();
    let mut i: usize = 0;
    assert(v@.take(0) =~= Seq::<char>::empty());
    while i < v.len()
        invariant
            i <= v.len(),
            v@ == s@,
            keep == (|c: char| !is_white_space(c)),
            r@ == v@.take(i as int).filter(keep),
        decreases v.len() - i,
    {
        proof {
            lemma_filter_take_step(v@, keep, i as int);
        }
        if !is_whitespace(v[i]) {
            r.push(v[i]);
        }
        i += 1;
    }
    assert(v@.take(v.len() as int) =~= v@);
    r
}

/// The words that open the heading of a year in a grade report, whitespace taken out.
pub open spec fn year_prefix() -> Seq<char> {
    seq!['Г', 'о', 'д', 'и', 'н', 'а', ':']
}

/// Whether a row's text, whitespace taken out, opens with the words of a year heading.
pub open spec fn year_heading(s: Seq<char>) -> bool {
    squeezed(s).len() >= 7 && squeezed(s).take(7) == year_prefix()
}

/// Whether the text of a row of a grade report is the heading of a year.
pub fn is_year_heading(text: &str) -> (b: bool)
    ensures
        b == year_heading(text@),
{
    let v = squeeze(text);
    if v.len() < 7 {
        return false;
    }
    let prefix: &[char] = &['Г', 'о', 'д', 'и', 'н', 'а', ':'];
    assert(prefix@ == year_prefix());
    let mut i: usize = 0;
    while i < 7
        invariant
            i <= 7 <= v@.len(),
            prefix@ == year_prefix(),
            v@ == squeezed(text@),
            forall|k: int| 0 <= k < i ==> v@[k] == prefix@[k],
        decreases 7 - i,
    {
        if v[i] != prefix[i] {
            assert(v@.take(7)[i as int] == v@[i as int]);
            assert(v@.take(7) != year_prefix());
            return false;
        }
        i += 1;
    }
    assert(v@.take(7) =~= year_prefix());
    true
}

/// The year that a year heading names: whitespace taken out, the text between the first
/// `':'` or `'/'` and the next one, read as a number below 65536.
pub open spec fn year_in_heading(s: Seq<char>) -> Option<u16> {
    let pieces = split_seq(squeezed(s), seq![':', '/']);
    if pieces.len() < 2 {
        None
    } else {
        match parse_unsigned(pieces[1], 65535) {
            Some(n) => Some(n as u16),
            None => None,
        }
    }
}

/// The year that a year heading of a grade report names, such as 2022 in
/// `Година: 2022/2023`.
pub fn heading_year(text: &str) -> (r: Option<u16>)
    ensures
        r == year_in_heading(text@),
{
    broadcast use crate::text::lemma_chars_deep_view;

    let v = squeeze(text);
    let seps: &[char] = &[':', '/'];
    assert(seps@ == seq![':', '/']);
    let pieces = split_chars(&v, seps);
    if pieces.len() < 2 {
        return None;
    }
    assert(pieces.deep_view()[1] == pieces@[1]@);
    match parse_unsigned_chars(&pieces[1], 65535) {
        Some(n) => Some(n as u16),
        None => None,
    }
}

/// Whether some character of `s` is not whitespace.
pub open spec fn has_visible_text(s: Seq<char>) -> bool {
    exists|i: int| 0 <= i < s.len() && !is_white_space(#[trigger] s[i])
}

/// Whether the text has a character that is not whitespace.
pub fn is_visible(text: &str) -> (b: bool)
    ensures
        b == has_visible_text(text@),
{
    let v = chars_of(text);
    let mut i: usize = 0;
    while i < v.len()
        invariant
            i <= v.len(),
            v@ == text@,
            forall|k: int| 0 <= k < i ==> is_white_space(#[trigger] v@[k]),
        decreases v.len() - i,
    {
        if !is_whitespace(v[i]) {
            assert(!is_white_space(text@[i as int]));
            return true;
        }
        i += 1;
    }
    false
}

/// The fields of a line of a session table: the text of its cells, trimmed.
pub open spec fn line_fields(line: (Seq<char>, Seq<Seq<char>>)) -> Seq<Seq<char>> {
    line.1.map_values(|c: Seq<char>| trim_seq(c))
}

/// Whether the fields of a course row mark a passed elective.
pub open spec fn passed_elective(fields: Seq<Seq<char>>) -> bool {
    fields[2] == elective_word() && fields[3] == passed_word()
}

/// `prefix` before what `rest` gives, or the error of `rest`.
pub open spec fn prefixed<T>(prefix: Seq<T>, rest: Result<Seq<T>, Error>) -> Result<Seq<T>, Error> {
    match rest {
        Ok(s) => Ok(prefix + s),
        Err(e) => Err(e),
    }
}

/// Whether every course is a passed elective.
pub open spec fn all_passed_electives(cs: Seq<Course>) -> bool {
    forall|k: int| 0 <= k < cs.len() ==> (#[trigger] cs[k]).is_elective && cs[k].is_passed
}

/// Whether each course is the one that the course row at its position describes.
pub open spec fn courses_match(cs: Seq<Course>, rows: Seq<(u16, ExamSession, Seq<Seq<char>>)>) -> bool {
    &&& cs.len() == rows.len()
    &&& forall|k: int|
        0 <= k < cs.len() ==> course_of_row(#[trigger] cs[k], rows[k].0, rows[k].1, rows[k].2)
}

/// What the lines of a session table from position `i` on give: the passed electives among
/// their course rows (with year and session), or the error of the first course row that
/// cannot be read. Lines with no visible text are passed over.
pub open spec fn session_lines_result(
    year: u16,
    session: ExamSession,
    lines: Seq<(Seq<char>, Seq<Seq<char>>)>,
    i: int,
) -> Result<Seq<(u16, ExamSession, Seq<Seq<char>>)>, Error>
    decreases lines.len() - i,
{
    if i < 0 || i >= lines.len() {
        Ok(Seq::empty())
    } else if !has_visible_text(lines[i].0) {
        session_lines_result(year, session, lines, i + 1)
    } else {
        let f = line_fields(lines[i]);
        match susi_row_error(f) {
            Some(e) => Err(e),
            None => prefixed(
                if passed_elective(f) { seq![(year, session, f)] } else { Seq::empty() },
                session_lines_result(year, session, lines, i + 1),
            ),
        }
    }
}

proof fn lemma_prefixed_assoc<T>(a: Seq<T>, b: Seq<T>, rest: Result<Seq<T>, Error>)
    ensures
        prefixed(a, prefixed(b, rest)) == prefixed(a + b, rest),
{
    if let Ok(s) = rest {
        assert(a + (b + s) =~= (a + b) + s);
    }
}

proof fn lemma_prefixed_empty<T>(rest: Result<Seq<T>, Error>)
    ensures
        prefixed(Seq::<T>::empty(), rest) == rest,
{
    if let Ok(s) = rest {
        assert(Seq::<T>::empty() + s =~= s);
    }
}

proof fn lemma_courses_match_append(
    a: Seq<Course>,
    x: Seq<(u16, ExamSession, Seq<Seq<char>>)>,
    b: Seq<Course>,
    y: Seq<(u16, ExamSession, Seq<Seq<char>>)>,
)
    requires
        courses_match(a, x),
        courses_match(b, y),
    ensures
        courses_match(a + b, x + y),
{
    assert forall|k: int| 0 <= k < (a + b).len() implies course_of_row(
        #[trigger] (a + b)[k],
        (x + y)[k].0,
        (x + y)[k].1,
        (x + y)[k].2,
    ) by {
        if k < a.len() {
            assert((a + b)[k] == a[k] && (x + y)[k] == x[k]);
        } else {
            assert((a + b)[k] == b[k - a.len()] && (x + y)[k] == y[k - a.len()]);
        }
    }
}

/// The record of the line `j` of a session table: year, session and the line's fields.
pub open spec fn line_record(
    year: u16,
    session: ExamSession,
    lines: Seq<(Seq<char>, Seq<Seq<char>>)>,
    j: int,
) -> (u16, ExamSession, Seq<Seq<char>>) {
    (year, session, line_fields(lines[j]))
}

proof fn lemma_session_rows_complete(
    year: u16,
    session: ExamSession,
    lines: Seq<(Seq<char>, Seq<Seq<char>>)>,
    i: int,
    j: int,
)
    requires
        0 <= i <= j < lines.len(),
        session_lines_result(year, session, lines, i) is Ok,
        has_visible_text(lines[j].0),
        passed_elective(line_fields(lines[j])),
    ensures
        session_lines_result(year, session, lines, i)->Ok_0.contains(line_record(year, session, lines, j)),
    decreases lines.len() - i,
{
    let rows = session_lines_result(year, session, lines, i)->Ok_0;
    let x = line_record(year, session, lines, j);
    if !has_visible_text(lines[i].0) {
        lemma_session_rows_complete(year, session, lines, i + 1, j);
    } else {
        let f = line_fields(lines[i]);
        let kept: Seq<(u16, ExamSession, Seq<Seq<char>>)> = if passed_elective(f) {
            seq![(year, session, f)]
        } else {
            Seq::empty()
        };
        let rest = session_lines_result(year, session, lines, i + 1)->Ok_0;
        assert(rows == kept + rest);
        if j == i {
            assert(rows[0] == x);
        } else {
            lemma_session_rows_complete(year, session, lines, i + 1, j);
            let m = choose|m: int| 0 <= m < rest.len() && rest[m] == x;
            assert(rows[kept.len() + m] == x);
        }
    }
}

proof fn lemma_session_rows_sound(
    year: u16,
    session: ExamSession,
    lines: Seq<(Seq<char>, Seq<Seq<char>>)>,
    i: int,
    k: int,
)
    requires
        0 <= i,
        session_lines_result(year, session, lines, i) is Ok,
        0 <= k < session_lines_result(year, session, lines, i)->Ok_0.len(),
    ensures
        exists|j: int|
            i <= j < lines.len() && has_visible_text(lines[j].0) && susi_row_error(line_fields(lines[j]))
                is None && passed_elective(line_fields(lines[j]))
                && session_lines_result(year, session, lines, i)->Ok_0[k] == #[trigger] line_record(
                year,
                session,
                lines,
                j,
            ),
    decreases lines.len() - i,
{
    let rows = session_lines_result(year, session, lines, i)->Ok_0;
    if i >= lines.len() {
    } else if !has_visible_text(lines[i].0) {
        lemma_session_rows_sound(year, session, lines, i + 1, k);
        let j = choose|j: int|
            i + 1 <= j < lines.len() && has_visible_text(lines[j].0) && susi_row_error(line_fields(lines[j]))
                is None && passed_elective(line_fields(lines[j]))
                && session_lines_result(year, session, lines, i + 1)->Ok_0[k] == #[trigger] line_record(
                year,
                session,
                lines,
                j,
            );
        assert(rows[k] == line_record(year, session, lines, j));
    } else {
        let f = line_fields(lines[i]);
        let kept: Seq<(u16, ExamSession, Seq<Seq<char>>)> = if passed_elective(f) {
            seq![(year, session, f)]
        } else {
            Seq::empty()
        };
        let rest = session_lines_result(year, session, lines, i + 1)->Ok_0;
        assert(rows == kept + rest);
        if k < kept.len() {
            assert(rows[k] == line_record(year, session, lines, i));
        } else {
            lemma_session_rows_sound(year, session, lines, i + 1, k - kept.len());
            let j = choose|j: int|
                i + 1 <= j < lines.len() && has_visible_text(lines[j].0) && susi_row_error(
                    line_fields(lines[j]),
                ) is None && passed_elective(line_fields(lines[j])) && rest[k - kept.len()]
                    == #[trigger] line_record(year, session, lines, j);
            assert(rows[k] == line_record(year, session, lines, j));
        }
    }
}

proof fn lemma_session_error(
    year: u16,
    session: ExamSession,
    lines: Seq<(Seq<char>, Seq<Seq<char>>)>,
    i: int,
    e: Error,
)
    requires
        0 <= i,
    ensures
        session_lines_result(year, session, lines, i) == Err::<Seq<(u16, ExamSession, Seq<Seq<char>>)>, Error>(e)
            <==> exists|j: int|
            i <= j < lines.len() && has_visible_text(lines[j].0) && #[trigger] susi_row_error(
                line_fields(lines[j]),
            ) == Some(e) && forall|t: int|
                i <= t < j && has_visible_text(lines[t].0) ==> susi_row_error(
                    line_fields(#[trigger] lines[t]),
                ) is None,
    decreases lines.len() - i,
{
    if i < lines.len() {
        lemma_session_error(year, session, lines, i + 1, e);
        let f = line_fields(lines[i]);
        if session_lines_result(year, session, lines, i) == Err::<Seq<(u16, ExamSession, Seq<Seq<char>>)>, Error>(e) {
            if has_visible_text(lines[i].0) && susi_row_error(f) is Some {
                assert(susi_row_error(line_fields(lines[i])) == Some(e));
            } else {
                let j = choose|j: int|
                    i + 1 <= j < lines.len() && has_visible_text(lines[j].0) && #[trigger] susi_row_error(
                        line_fields(lines[j]),
                    ) == Some(e) && forall|t: int|
                        i + 1 <= t < j && has_visible_text(lines[t].0) ==> susi_row_error(
                            line_fields(#[trigger] lines[t]),
                        ) is None;
                assert(susi_row_error(line_fields(lines[j])) == Some(e));
            }
        }
        if exists|j: int|
            i <= j < lines.len() && has_visible_text(lines[j].0) && #[trigger] susi_row_error(
                line_fields(lines[j]),
            ) == Some(e) && forall|t: int|
                i <= t < j && has_visible_text(lines[t].0) ==> susi_row_error(
                    line_fields(#[trigger] lines[t]),
                ) is None {
            let j = choose|j: int|
                i <= j < lines.len() && has_visible_text(lines[j].0) && #[trigger] susi_row_error(
                    line_fields(lines[j]),
                ) == Some(e) && forall|t: int|
                    i <= t < j && has_visible_text(lines[t].0) ==> susi_row_error(
                        line_fields(#[trigger] lines[t]),
                    ) is None;
            if j > i {
                assert(susi_row_error(line_fields(lines[j])) == Some(e));
                if has_visible_text(lines[i].0) {
                    assert(susi_row_error(line_fields(lines[i])) is None);
                }
            }
        }
    }
}

/// Every passed elective among the course rows of a session table (its heading, the first
/// line, left out) is among the records that the table gives.
pub proof fn law_session_keeps_every_passed_elective(
    year: u16,
    session: ExamSession,
    lines: Seq<(Seq<char>, Seq<Seq<char>>)>,
    j: int,
)
    requires
        session_lines_result(year, session, lines, 1) is Ok,
        1 <= j < lines.len(),
        has_visible_text(lines[j].0),
        passed_elective(line_fields(lines[j])),
    ensures
        session_lines_result(year, session, lines, 1)->Ok_0.contains((year, session, line_fields(lines[j]))),
{
    lemma_session_rows_complete(year, session, lines, 1, j);
}

/// Every record that a session table gives is the year, the session and the fields of one
/// of its course rows (its heading left out), a row that can be read and that marks a
/// passed elective.
pub proof fn law_session_gives_only_passed_electives(
    year: u16,
    session: ExamSession,
    lines: Seq<(Seq<char>, Seq<Seq<char>>)>,
    k: int,
)
    requires
        session_lines_result(year, session, lines, 1) is Ok,
        0 <= k < session_lines_result(year, session, lines, 1)->Ok_0.len(),
    ensures
        exists|j: int|
            1 <= j < lines.len() && has_visible_text(lines[j].0) && susi_row_error(line_fields(lines[j]))
                is None && passed_elective(line_fields(lines[j]))
                && session_lines_result(year, session, lines, 1)->Ok_0[k] == #[trigger] line_record(
                year,
                session,
                lines,
                j,
            ),
{
    lemma_session_rows_sound(year, session, lines, 1, k);
}

/// A session table fails exactly with the error of its first course row (heading left
/// out, lines with no visible text passed over) that cannot be read.
pub proof fn law_session_fails_on_first_bad_row(
    year: u16,
    session: ExamSession,
    lines: Seq<(Seq<char>, Seq<Seq<char>>)>,
    e: Error,
)
    ensures
        session_lines_result(year, session, lines, 1) == Err::<Seq<(u16, ExamSession, Seq<Seq<char>>)>, Error>(e)
            <==> exists|j: int|
            1 <= j < lines.len() && has_visible_text(lines[j].0) && #[trigger] susi_row_error(
                line_fields(lines[j]),
            ) == Some(e) && forall|t: int|
                1 <= t < j && has_visible_text(lines[t].0) ==> susi_row_error(
                    line_fields(#[trigger] lines[t]),
                ) is None,
{
    lemma_session_error(year, session, lines, 1, e);
}

/// What one more line at the end of a session table makes of what the lines before it
/// gave: an error stays; a line with no visible text changes nothing; a course row that
/// cannot be read gives its error; one that can adds its record at the end if it marks a
/// passed elective.
pub open spec fn with_line(
    year: u16,
    session: ExamSession,
    before: Result<Seq<(u16, ExamSession, Seq<Seq<char>>)>, Error>,
    line: (Seq<char>, Seq<Seq<char>>),
) -> Result<Seq<(u16, ExamSession, Seq<Seq<char>>)>, Error> {
    match before {
        Err(e) => Err(e),
        Ok(rows) => if !has_visible_text(line.0) {
            Ok(rows)
        } else {
            match susi_row_error(line_fields(line)) {
                Some(e) => Err(e),
                None => if passed_elective(line_fields(line)) {
                    Ok(rows.push((year, session, line_fields(line))))
                } else {
                    Ok(rows)
                },
            }
        },
    }
}

proof fn lemma_session_push(
    year: u16,
    session: ExamSession,
    lines: Seq<(Seq<char>, Seq<Seq<char>>)>,
    line: (Seq<char>, Seq<Seq<char>>),
    i: int,
)
    requires
        0 <= i <= lines.len(),
    ensures
        session_lines_result(year, session, lines.push(line), i) == with_line(
            year,
            session,
            session_lines_result(year, session, lines, i),
            line,
        ),
    decreases lines.len() - i,
{
    let longer = lines.push(line);
    if i == lines.len() {
        assert(longer[i] == line);
        let f = line_fields(line);
        assert(session_lines_result(year, session, longer, i + 1) == Ok::<Seq<(u16, ExamSession, Seq<Seq<char>>)>, Error>(Seq::empty()));
        if passed_elective(f) {
            assert(seq![(year, session, f)] + Seq::<(u16, ExamSession, Seq<Seq<char>>)>::empty() =~= Seq::<(u16, ExamSession, Seq<Seq<char>>)>::empty().push((year, session, f)));
        } else {
            assert(Seq::<(u16, ExamSession, Seq<Seq<char>>)>::empty() + Seq::<(u16, ExamSession, Seq<Seq<char>>)>::empty() =~= Seq::<(u16, ExamSession, Seq<Seq<char>>)>::empty());
        }
    } else {
        assert(longer[i] == lines[i]);
        lemma_session_push(year, session, lines, line, i + 1);
        if has_visible_text(lines[i].0) {
            let f = line_fields(lines[i]);
            if susi_row_error(f) is None {
                let kept: Seq<(u16, ExamSession, Seq<Seq<char>>)> = if passed_elective(f) {
                    seq![(year, session, f)]
                } else {
                    Seq::empty()
                };
                let g = line_fields(line);
                if let Ok(rest) = session_lines_result(year, session, lines, i + 1) {
                    assert(kept + rest.push((year, session, g)) =~= (kept + rest).push((year, session, g)));
                }
            }
        }
    }
}

/// A line added at the end of a session table (after its heading) changes what the table
/// gives only as that line alone can: the records of the lines before it stay, in their
/// order, and a readable passed-elective row adds its own record after them.
pub proof fn law_session_line_at_end(
    year: u16,
    session: ExamSession,
    lines: Seq<(Seq<char>, Seq<Seq<char>>)>,
    line: (Seq<char>, Seq<Seq<char>>),
)
    requires
        lines.len() >= 1,
    ensures
        session_lines_result(year, session, lines.push(line), 1) == with_line(
            year,
            session,
            session_lines_result(year, session, lines, 1),
            line,
        ),
{
    lemma_session_push(year, session, lines, line, 1);
}

/// Whether `c` is the course that one of the passed-elective course rows of the session
/// table `lines` (its heading, the first line, left out) describes.
pub open spec fn course_of_some_row(
    c: Course,
    year: u16,
    session: ExamSession,
    lines: Seq<(Seq<char>, Seq<Seq<char>>)>,
) -> bool {
    exists|j: int|
        1 <= j < lines.len() && has_visible_text(lines[j].0) && passed_elective(line_fields(lines[j]))
            && course_of_row(c, year, session, line_fields(#[trigger] lines[j]))
}

/// The passed electives among the course rows of a session table, the first line (the
/// table's heading) left out: the courses of the given year and session, in order.
pub fn courses_of_session(year: u16, session: ExamSession, lines: &Vec<(String, Vec<String>)>) -> (r: Result<Vec<Course>, Error>)
    ensures
        match session_lines_result(year, session, lines_view(lines@), 1) {
            Err(e) => r == Err::<Vec<Course>, Error>(e),
            Ok(rows) => r matches Ok(cs) && courses_match(cs@, rows),
        },
        r matches Ok(cs) ==> all_passed_electives(cs@),
        r matches Ok(cs) ==> forall|j: int|
            1 <= j < lines@.len() && has_visible_text(lines@[j].0@) && passed_elective(
                line_fields(#[trigger] lines_view(lines@)[j]),
            ) ==> exists|k: int|
                0 <= k < cs@.len() && course_of_row(
                    #[trigger] cs@[k],
                    year,
                    session,
                    line_fields(lines_view(lines@)[j]),
                ),
        r matches Ok(cs) ==> forall|k: int|
            0 <= k < cs@.len() ==> course_of_some_row(#[trigger] cs@[k], year, session, lines_view(lines@)),
{
    let ghost ls = lines_view(lines@);
    let ghost mut done: Seq<(u16, ExamSession, Seq<Seq<char>>)> = Seq::empty();
    let mut courses: Vec<Course> = Vec::new();
    let mut i: usize = 1;
    proof {
        lemma_prefixed_empty(session_lines_result(year, session, ls, 1));
    }
    while i < lines.len()
        invariant
            ls == lines_view(lines@),
            1 <= i,
            session_lines_result(year, session, ls, 1) == prefixed(
                done,
                session_lines_result(year, session, ls, i as int),
            ),
            courses_match(courses@, done),
            all_passed_electives(courses@),
        decreases lines.len() - i,
    {
        let line = &lines[i];
        assert(ls[i as int] == (line.0@, strings_view(line.1@)));
        if is_visible(line.0.as_str()) {
            let cells = &line.1;
            let mut fields: Vec<String> = Vec::new();
            let mut k: usize = 0;
            while k < cells.len()
                invariant
                    k <= cells@.len(),
                    fields@.len() == k,
                    forall|t: int| 0 <= t < k ==> #[trigger] fields@[t]@ == trim_seq(cells@[t]@),
                decreases cells@.len() - k,
            {
                fields.push(trim(cells[k].as_str()));
                k += 1;
            }
            let ghost f = line_fields(ls[i as int]);
            assert(strings_view(fields@) =~= f);
            match Course::from_susi_row(year, session, &fields) {
                Ok(c) => {
                    proof {
                        reveal(course_of_row);
                    }
                    let ghost kept: Seq<(u16, ExamSession, Seq<Seq<char>>)> = if passed_elective(f) {
                        seq![(year, session, f)]
                    } else {
                        Seq::empty()
                    };
                    proof {
                        lemma_prefixed_assoc(done, kept, session_lines_result(year, session, ls, i + 1));
                    }
                    if c.is_elective && c.is_passed {
                        let ghost before = courses@;
                        courses.push(c);
                        proof {
                            assert(courses_match(seq![c], kept));
                            lemma_courses_match_append(before, done, seq![c], kept);
                            assert(before + seq![c] == courses@);
                        }
                    } else {
                        proof {
                            assert(done + kept =~= done);
                        }
                    }
                    proof {
                        done = done + kept;
                    }
                },
                Err(e) => {
                    return Err(e);
                },
            }
        }
        i += 1;
    }
    proof {
        lemma_prefixed_empty(session_lines_result(year, session, ls, i as int));
        assert(done + Seq::empty() =~= done);
        let rows = session_lines_result(year, session, ls, 1)->Ok_0;
        assert(rows == done);
        assert forall|j: int|
            1 <= j < lines@.len() && has_visible_text(lines@[j].0@) && passed_elective(
                line_fields(#[trigger] lines_view(lines@)[j]),
            ) implies exists|k: int|
                0 <= k < courses@.len() && course_of_row(
                    #[trigger] courses@[k],
                    year,
                    session,
                    line_fields(lines_view(lines@)[j]),
                ) by {
            assert(ls[j].0 == lines@[j].0@);
            law_session_keeps_every_passed_elective(year, session, ls, j);
            let k = choose|k: int| 0 <= k < rows.len() && rows[k] == (year, session, line_fields(ls[j]));
            assert(course_of_row(courses@[k], rows[k].0, rows[k].1, rows[k].2));
        }
        assert forall|k: int| 0 <= k < courses@.len() implies course_of_some_row(
            #[trigger] courses@[k],
            year,
            session,
            ls,
        ) by {
            law_session_gives_only_passed_electives(year, session, ls, k);
            let j = choose|j: int|
                1 <= j < ls.len() && has_visible_text(ls[j].0) && susi_row_error(line_fields(ls[j]))
                    is None && passed_elective(line_fields(ls[j])) && rows[k] == #[trigger] line_record(
                    year,
                    session,
                    ls,
                    j,
                );
            assert(ls[j].0 == lines@[j].0@);
            assert(course_of_row(courses@[k], rows[k].0, rows[k].1, rows[k].2));
            assert(rows[k] == (year, session, line_fields(ls[j])));
            assert(course_of_row(courses@[k], year, session, line_fields(lines_view(lines@)[j])));
        }
    }
    Ok(courses)
}

/// What the session tables of a year from position `i` on give: the passed electives of
/// each table, its position naming the session (winter, summer, retakes), or the first
/// error: a table past the third, or a course row that cannot be read.
pub open spec fn sections_result(
    year: u16,
    sections: Seq<Seq<(Seq<char>, Seq<Seq<char>>)>>,
    i: int,
) -> Result<Seq<(u16, ExamSession, Seq<Seq<char>>)>, Error>
    decreases sections.len() - i,
{
    if i < 0 || i >= sections.len() {
        Ok(Seq::empty())
    } else {
        match session_at(i) {
            None => Err(Error::UnknownExamSessionIndex),
            Some(session) => match session_lines_result(year, session, sections[i], 1) {
                Err(e) => Err(e),
                Ok(rows) => prefixed(rows, sections_result(year, sections, i + 1)),
            },
        }
    }
}

proof fn lemma_sections_complete(
    year: u16,
    sections: Seq<Seq<(Seq<char>, Seq<Seq<char>>)>>,
    i: int,
    t: int,
    m: int,
)
    requires
        0 <= i <= t < sections.len(),
        sections_result(year, sections, i) is Ok,
    ensures
        session_at(t) is Some,
        session_lines_result(year, session_at(t)->Some_0, sections[t], 1) is Ok,
        0 <= m < session_lines_result(year, session_at(t)->Some_0, sections[t], 1)->Ok_0.len()
            ==> sections_result(year, sections, i)->Ok_0.contains(
            session_lines_result(year, session_at(t)->Some_0, sections[t], 1)->Ok_0[m],
        ),
    decreases sections.len() - i,
{
    let session = session_at(i)->Some_0;
    let rows = session_lines_result(year, session, sections[i], 1)->Ok_0;
    let all = sections_result(year, sections, i)->Ok_0;
    let rest = sections_result(year, sections, i + 1)->Ok_0;
    assert(all == rows + rest);
    if t == i {
        if 0 <= m < rows.len() {
            assert(all[m] == rows[m]);
        }
    } else {
        lemma_sections_complete(year, sections, i + 1, t, m);
        let sr = session_lines_result(year, session_at(t)->Some_0, sections[t], 1)->Ok_0;
        if 0 <= m < sr.len() {
            let p = choose|p: int| 0 <= p < rest.len() && rest[p] == sr[m];
            assert(all[rows.len() + p] == sr[m]);
        }
    }
}

/// Every passed elective among the course rows of a year's session tables is among the
/// records that the year gives, with the session that its table's position names; a year
/// that gives records has no more tables than sessions.
pub proof fn law_year_keeps_every_passed_elective(
    year: u16,
    sections: Seq<Seq<(Seq<char>, Seq<Seq<char>>)>>,
    t: int,
    j: int,
)
    requires
        sections_result(year, sections, 0) is Ok,
        0 <= t < sections.len(),
        1 <= j < sections[t].len(),
        has_visible_text(sections[t][j].0),
        passed_elective(line_fields(sections[t][j])),
    ensures
        sections.len() <= 3,
        session_at(t) is Some,
        sections_result(year, sections, 0)->Ok_0.contains(
            (year, session_at(t)->Some_0, line_fields(sections[t][j])),
        ),
{
    lemma_sections_complete(year, sections, 0, sections.len() - 1, 0);
    let session = session_at(t)->Some_0;
    lemma_sections_complete(year, sections, 0, t, 0);
    lemma_session_rows_complete(year, session, sections[t], 1, j);
    let sr = session_lines_result(year, session, sections[t], 1)->Ok_0;
    let x = (year, session, line_fields(sections[t][j]));
    assert(line_record(year, session, sections[t], j) == x);
    let m = choose|m: int| 0 <= m < sr.len() && sr[m] == x;
    lemma_sections_complete(year, sections, 0, t, m);
}

/// The passed electives that the session tables of a year list, table after table; the
/// position of a table names its session: winter, summer, then retakes.
pub fn courses_of_year(year: u16, sections: &Vec<Vec<(String, Vec<String>)>>) -> (r: Result<Vec<Course>, Error>)
    ensures
        match sections_result(year, sections_view(sections@), 0) {
            Err(e) => r == Err::<Vec<Course>, Error>(e),
            Ok(rows) => r matches Ok(cs) && courses_match(cs@, rows),
        },
        r matches Ok(cs) ==> all_passed_electives(cs@),
        r matches Ok(cs) ==> forall|t: int, j: int|
            0 <= t < sections@.len() && 1 <= j < sections@[t]@.len() && has_visible_text(
                sections@[t]@[j].0@,
            ) && passed_elective(line_fields(#[trigger] sections_view(sections@)[t][j])) ==> exists|k: int|
                0 <= k < cs@.len() && course_of_row(
                    #[trigger] cs@[k],
                    year,
                    session_at(t)->Some_0,
                    line_fields(sections_view(sections@)[t][j]),
                ),
{
    let ghost ss = sections_view(sections@);
    let ghost mut done: Seq<(u16, ExamSession, Seq<Seq<char>>)> = Seq::empty();
    let mut courses: Vec<Course> = Vec::new();
    let mut i: usize = 0;
    proof {
        lemma_prefixed_empty(sections_result(year, ss, 0));
    }
    while i < sections.len()
        invariant
            ss == sections_view(sections@),
            i <= 3,
            sections_result(year, ss, 0) == prefixed(done, sections_result(year, ss, i as int)),
            courses_match(courses@, done),
            all_passed_electives(courses@),
        decreases sections.len() - i,
    {
        let session = match ExamSession::from_susi_index(i as u8) {
            Ok(s) => s,
            Err(e) => {
                return Err(e);
            },
        };
        assert(ss[i as int] == lines_view(sections@[i as int]@));
        match courses_of_session(year, session, &sections[i]) {
            Ok(found) => {
                let ghost found_all = found@;
                let ghost rows = session_lines_result(year, session, ss[i as int], 1)->Ok_0;
                proof {
                    lemma_prefixed_assoc(done, rows, sections_result(year, ss, i + 1));
                    lemma_courses_match_append(courses@, done, found@, rows);
                    done = done + rows;
                }
                let mut found = found;
                courses.append(&mut found);
            },
            Err(e) => {
                return Err(e);
            },
        }
        i += 1;
    }
    proof {
        lemma_prefixed_empty(sections_result(year, ss, i as int));
        assert(done + Seq::empty() =~= done);
        let rows = sections_result(year, ss, 0)->Ok_0;
        assert(rows == done);
        assert forall|t: int, j: int|
            0 <= t < sections@.len() && 1 <= j < sections@[t]@.len() && has_visible_text(
                sections@[t]@[j].0@,
            ) && passed_elective(line_fields(#[trigger] sections_view(sections@)[t][j])) implies exists|k: int|
                0 <= k < courses@.len() && course_of_row(
                    #[trigger] courses@[k],
                    year,
                    session_at(t)->Some_0,
                    line_fields(sections_view(sections@)[t][j]),
                ) by {
            assert(ss[t] == lines_view(sections@[t]@));
            assert(ss[t][j].0 == sections@[t]@[j].0@);
            law_year_keeps_every_passed_elective(year, ss, t, j);
            let x = (year, session_at(t)->Some_0, line_fields(ss[t][j]));
            let k = choose|k: int| 0 <= k < rows.len() && rows[k] == x;
            assert(course_of_row(courses@[k], rows[k].0, rows[k].1, rows[k].2));
        }
    }
    Ok(courses)
}

/// The selector of the tables of a grade report.
pub open spec fn report_tables_selector() -> Seq<char> {
    "tbody"@
}

/// The selector of the rows of a grade report that may head a year.
pub open spec fn year_rows_selector() -> Seq<char> {
    ":scope > tr:nth-child(6n+1)"@
}

/// The selector of the session tables in the block that follows a year heading.
pub open spec fn session_tables_selector() -> Seq<char> {
    ":scope table table"@
}

/// The selector of the lines of a session table.
pub open spec fn session_lines_selector() -> Seq<char> {
    ":scope tr:not(.greyType2)"@
}

/// The selector of the cells of a line.
pub open spec fn line_cells_selector() -> Seq<char> {
    "td"@
}

/// The session tables of the block that follows the `row`-th year row of the `table`-th
/// table of a grade report, as scraper reads them.
pub open spec fn year_block(html: Seq<char>, table: usize, row: usize) -> Option<Seq<Seq<(Seq<char>, Seq<Seq<char>>)>>> {
    following_sections_of(
        html,
        report_tables_selector(),
        table,
        year_rows_selector(),
        row,
        session_tables_selector(),
        session_lines_selector(),
        line_cells_selector(),
    )
}

/// What the year rows of the `table`-th table of a grade report from position `j` on
/// give: for every year heading, the passed electives of the block that follows it; a
/// heading whose year cannot be read, or that no block follows, makes the report
/// malformed.
pub open spec fn year_rows_result(
    html: Seq<char>,
    table: usize,
    headings: Seq<Seq<char>>,
    j: int,
) -> Result<Seq<(u16, ExamSession, Seq<Seq<char>>)>, Error>
    decreases headings.len() - j,
{
    if j < 0 || j >= headings.len() {
        Ok(Seq::empty())
    } else if !year_heading(headings[j]) {
        year_rows_result(html, table, headings, j + 1)
    } else {
        match year_in_heading(headings[j]) {
            None => Err(Error::MalformedGradeReport),
            Some(year) => match year_block(html, table, j as usize) {
                None => Err(Error::MalformedGradeReport),
                Some(sections) => match sections_result(year, sections, 0) {
                    Err(e) => Err(e),
                    Ok(rows) => prefixed(rows, year_rows_result(html, table, headings, j + 1)),
                },
            },
        }
    }
}

proof fn lemma_year_rows_complete(
    html: Seq<char>,
    table: usize,
    headings: Seq<Seq<char>>,
    i: int,
    t: int,
    m: int,
)
    requires
        0 <= i <= t < headings.len(),
        year_heading(headings[t]),
        year_rows_result(html, table, headings, i) is Ok,
    ensures
        year_in_heading(headings[t]) is Some,
        year_block(html, table, t as usize) is Some,
        sections_result(year_in_heading(headings[t])->Some_0, year_block(html, table, t as usize)->Some_0, 0) is Ok,
        0 <= m < sections_result(
            year_in_heading(headings[t])->Some_0,
            year_block(html, table, t as usize)->Some_0,
            0,
        )->Ok_0.len() ==> year_rows_result(html, table, headings, i)->Ok_0.contains(
            sections_result(
                year_in_heading(headings[t])->Some_0,
                year_block(html, table, t as usize)->Some_0,
                0,
            )->Ok_0[m],
        ),
    decreases headings.len() - i,
{
    let all = year_rows_result(html, table, headings, i)->Ok_0;
    if !year_heading(headings[i]) {
        lemma_year_rows_complete(html, table, headings, i + 1, t, m);
    } else {
        let y = year_in_heading(headings[i])->Some_0;
        let rows = sections_result(y, year_block(html, table, i as usize)->Some_0, 0)->Ok_0;
        let rest = year_rows_result(html, table, headings, i + 1)->Ok_0;
        assert(all == rows + rest);
        if t == i {
            if 0 <= m < rows.len() {
                assert(all[m] == rows[m]);
            }
        } else {
            lemma_year_rows_complete(html, table, headings, i + 1, t, m);
            let sr = sections_result(
                year_in_heading(headings[t])->Some_0,
                year_block(html, table, t as usize)->Some_0,
                0,
            )->Ok_0;
            if 0 <= m < sr.len() {
                let p = choose|p: int| 0 <= p < rest.len() && rest[p] == sr[m];
                assert(all[rows.len() + p] == sr[m]);
            }
        }
    }
}

/// Every passed elective in the session tables of the block that follows a year heading
/// of a grade report's table is among the records that the table gives, with the year of
/// its heading and the session that its table's position names.
pub proof fn law_report_keeps_every_passed_elective(
    html: Seq<char>,
    table: usize,
    headings: Seq<Seq<char>>,
    t: int,
    section: int,
    j: int,
)
    requires
        year_rows_result(html, table, headings, 0) is Ok,
        0 <= t < headings.len(),
        year_heading(headings[t]),
    ensures
        year_in_heading(headings[t]) is Some,
        year_block(html, table, t as usize) is Some,
        ({
            let year = year_in_heading(headings[t])->Some_0;
            let sections = year_block(html, table, t as usize)->Some_0;
            0 <= section < sections.len() && 1 <= j < sections[section].len() && has_visible_text(
                sections[section][j].0,
            ) && passed_elective(line_fields(sections[section][j])) ==> year_rows_result(
                html,
                table,
                headings,
                0,
            )->Ok_0.contains((year, session_at(section)->Some_0, line_fields(sections[section][j])))
        }),
{
    lemma_year_rows_complete(html, table, headings, 0, t, 0);
    let year = year_in_heading(headings[t])->Some_0;
    let sections = year_block(html, table, t as usize)->Some_0;
    if 0 <= section < sections.len() && 1 <= j < sections[section].len() && has_visible_text(
        sections[section][j].0,
    ) && passed_elective(line_fields(sections[section][j])) {
        law_year_keeps_every_passed_elective(year, sections, section, j);
        let sr = sections_result(year, sections, 0)->Ok_0;
        let x = (year, session_at(section)->Some_0, line_fields(sections[section][j]));
        let m = choose|m: int| 0 <= m < sr.len() && sr[m] == x;
        lemma_year_rows_complete(html, table, headings, 0, t, m);
    }
}

/// What a grade report gives: its table with the most children (the last of them, if
/// several tie) is read year after year; a report with no table is malformed.
pub open spec fn grade_report_result(html: Seq<char>) -> Result<Seq<(u16, ExamSession, Seq<Seq<char>>)>, Error> {
    match child_counts_of(html, report_tables_selector()) {
        None => Err(Error::MalformedGradeReport),
        Some(counts) => if counts.len() == 0 {
            Err(Error::MalformedGradeReport)
        } else {
            let table = choose|i: int| is_last_largest(counts, i);
            match nested_texts_of(html, report_tables_selector(), table as usize, year_rows_selector()) {
                None => Err(Error::MalformedGradeReport),
                Some(headings) => year_rows_result(html, table as usize, headings, 0),
            }
        },
    }
}

/// The passed electives in a student's grade report from SUSI, year after year and session
/// after session. Where the report lacks the parts that the reading relies on, the result
/// is `MalformedGradeReport`; a course row that cannot be read gives its own error.
pub fn parse_susi_course_html(raw: &String) -> (r: Result<Vec<Course>, Error>)
    ensures
        match grade_report_result(raw@) {
            Err(e) => r == Err::<Vec<Course>, Error>(e),
            Ok(rows) => r matches Ok(cs) && courses_match(cs@, rows),
        },
        r matches Ok(cs) ==> all_passed_electives(cs@),
{
    let html = raw.as_str();
    let counts = match child_counts(html, "tbody") {
        Some(c) => c,
        None => {
            return Err(Error::MalformedGradeReport);
        },
    };
    let table = match last_largest(&counts) {
        Some(t) => t,
        None => {
            return Err(Error::MalformedGradeReport);
        },
    };
    proof {
        lemma_last_largest_unique(counts@, table as int);
    }
    let headings = match nested_texts(html, "tbody", table, ":scope > tr:nth-child(6n+1)") {
        Some(h) => h,
        None => {
            return Err(Error::MalformedGradeReport);
        },
    };
    let ghost heads = strings_view(headings@);
    let ghost mut done: Seq<(u16, ExamSession, Seq<Seq<char>>)> = Seq::empty();
    let mut courses: Vec<Course> = Vec::new();
    let mut j: usize = 0;
    proof {
        lemma_prefixed_empty(year_rows_result(html@, table, heads, 0));
    }
    while j < headings.len()
        invariant
            html@ == raw@,
            heads == strings_view(headings@),
            grade_report_result(raw@) == year_rows_result(html@, table, heads, 0),
            year_rows_result(html@, table, heads, 0) == prefixed(
                done,
                year_rows_result(html@, table, heads, j as int),
            ),
            courses_match(courses@, done),
            all_passed_electives(courses@),
        decreases headings.len() - j,
    {
        let heading = headings[j].as_str();
        assert(heads[j as int] == heading@);
        if is_year_heading(heading) {
            let year = match heading_year(heading) {
                Some(y) => y,
                None => {
                    return Err(Error::MalformedGradeReport);
                },
            };
            let sections = match following_sections(
                html,
                "tbody",
                table,
                ":scope > tr:nth-child(6n+1)",
                j,
                ":scope table table",
                ":scope tr:not(.greyType2)",
                "td",
            ) {
                Some(s) => s,
                None => {
                    return Err(Error::MalformedGradeReport);
                },
            };
            match courses_of_year(year, &sections) {
                Ok(found) => {
                    let ghost found_all = found@;
                    let ghost rows = sections_result(year, sections_view(sections@), 0)->Ok_0;
                    proof {
                        lemma_prefixed_assoc(done, rows, year_rows_result(html@, table, heads, j + 1));
                        lemma_courses_match_append(courses@, done, found@, rows);
                        done = done + rows;
                    }
                    let mut found = found;
                    let ghost before = courses@;
                    courses.append(&mut found);
                    assert forall|t: int| 0 <= t < courses@.len() implies (#[trigger] courses@[t]).is_elective
                        && courses@[t].is_passed by {
                        if t >= before.len() {
                            assert(courses@[t] == found_all[t - before.len()]);
                        }
                    }
                },
                Err(e) => {
                    return Err(e);
                },
            }
        }
        j += 1;
    }
    proof {
        lemma_prefixed_empty(year_rows_result(html@, table, heads, j as int));
        assert(done + Seq::empty() =~= done);
    }
    Ok(courses)
}

} // verus!
