//! The electives that FMI publishes: one row of its electives table per course.

use vstd::prelude::*;
use crate::category::{category_of_code, ElectiveCategory};
use crate::error::Error;
use crate::outside::{
    regex_split, regex_split_of, rows_view, select_cell_texts, selected_cell_texts, strings_view,
};
use crate::text::{
    chars_of, is_float_text, float_text_ok, parse_unsigned, parse_unsigned_chars, replace_char,
    split_chars, split_seq, string_of, trim_seq,
};

verus! {

/// The weekly hours of an elective: lectures, seminars and practice.
#[derive(Debug, Clone, Copy, PartialEq, Eq, Structural)]
pub struct ElectiveHorarium {
    pub lecture: u8,
    pub seminar: u8,
    pub practicum: u8,
}

/// The hours that the piece `p` stands for, when it is a number below 256.
pub open spec fn hours_of(p: Seq<char>) -> u8 {
    parse_unsigned(p, 255).unwrap() as u8
}

/// What reading `s` as hours gives: the pieces between `'+'` must all be numbers below
/// 256, and there must be exactly three of them.
pub open spec fn horarium_of(s: Seq<char>) -> Result<ElectiveHorarium, Error> {
    let pieces = split_seq(s, seq!['+']);
    if exists|i: int| 0 <= i < pieces.len() && parse_unsigned(#[trigger] pieces[i], 255) is None {
        Err(Error::IncorrectHoursFormat)
    } else if pieces.len() != 3 {
        Err(Error::IncorrectHourEntriesCount)
    } else {
        Ok(
            ElectiveHorarium {
                lecture: hours_of(pieces[0]),
                seminar: hours_of(pieces[1]),
                practicum: hours_of(pieces[2]),
            },
        )
    }
}

impl ElectiveHorarium {
    /// The hours `[lecture, seminar, practicum]`.
    pub fn from_triple(triple: [u8; 3]) -> (h: ElectiveHorarium)
        ensures
            h.lecture == triple@[0] && h.seminar == triple@[1] && h.practicum == triple@[2],
    {
        ElectiveHorarium { lecture: triple[0], seminar: triple[1], practicum: triple[2] }
    }

    /// The hours written as `lecture+seminar+practicum`, such as `2+1+0`.
    pub fn from_str(s: &str) -> (r: Result<ElectiveHorarium, Error>)
        ensures
            r == horarium_of(s@),
    {
        let v = chars_of(s);
        let pieces = split_chars(&v, &['+']);
        let ghost ps = pieces.deep_view();
        assert(['+']@ == seq!['+']);
        let mut hours: Vec<u8> = Vec::new();
        let mut i: usize = 0;
        while i < pieces.len()
            invariant
                ps == pieces.deep_view(),
                ps == split_seq(s@, seq!['+']),
                i <= pieces.len(),
                hours@.len() == i,
                forall|k: int| 0 <= k < i ==> parse_unsigned(#[trigger] ps[k], 255) is Some,
                forall|k: int| 0 <= k < i ==> hours@[k] == hours_of(#[trigger] ps[k]),
            decreases pieces.len() - i,
        {
            assert(ps[i as int] == pieces@[i as int]@);
            match parse_unsigned_chars(&pieces[i], 255) {
                Some(n) => {
                    hours.push(n as u8);
                },
                None => {
                    return Err(Error::IncorrectHoursFormat);
                },
            }
            i += 1;
        }
        if hours.len() != 3 {
            return Err(Error::IncorrectHourEntriesCount);
        }
        Ok(ElectiveHorarium::from_triple([hours[0], hours[1], hours[2]]))
    }
}

/// An elective course as FMI's electives table lists it.
#[derive(Debug, Clone)]
pub struct ElectiveCourse {
    pub department: String,
    pub name: String,
    /// The weekly hours, when the table gives them in the usual form.
    pub horarium: Option<ElectiveHorarium>,
    /// The credits as decimal text (with `'.'` for the decimal comma), when they are a number.
    pub ects: Option<String>,
    pub categories: Vec<ElectiveCategory>,
}

/// Two electives are the same elective when they have the same name.
impl PartialEq for ElectiveCourse {
    fn eq(&self, other: &Self) -> (r: bool) {
        self.name == other.name
    }
}

impl vstd::std_specs::cmp::PartialEqSpecImpl for ElectiveCourse {
    open spec fn obeys_eq_spec() -> bool {
        true
    }

    open spec fn eq_spec(&self, other: &Self) -> bool {
        self.name@ == other.name@
    }
}

impl Eq for ElectiveCourse {
}

/// The pattern that separates the categories of an elective: `/` or `,`, with any
/// whitespace around it.
pub open spec fn category_separator() -> Seq<char> {
    "\\s*[/,]\\s*"@
}

/// The first piece, at or after position `i`, that is not a category code.
pub open spec fn unrecognized_from(pieces: Seq<Seq<char>>, i: int) -> Option<int>
    decreases pieces.len() - i,
{
    if i >= pieces.len() {
        None
    } else if category_of_code(trim_seq(pieces[i])) is None {
        Some(i)
    } else {
        unrecognized_from(pieces, i + 1)
    }
}

/// The first piece that is not a category code.
pub open spec fn first_unrecognized(pieces: Seq<Seq<char>>) -> Option<int> {
    unrecognized_from(pieces, 0)
}

/// The first unrecognized piece lies among the pieces and is no category code; before it
/// all are codes.
pub proof fn lemma_unrecognized_from(pieces: Seq<Seq<char>>, i: int)
    requires
        0 <= i,
    ensures
        unrecognized_from(pieces, i) matches Some(j) ==> i <= j < pieces.len() && category_of_code(
            trim_seq(pieces[j]),
        ) is None && forall|t: int| i <= t < j ==> category_of_code(trim_seq(#[trigger] pieces[t])) is Some,
        unrecognized_from(pieces, i) is None ==> forall|j: int|
            i <= j < pieces.len() ==> category_of_code(trim_seq(#[trigger] pieces[j])) is Some,
    decreases pieces.len() - i,
{
    if i < pieces.len() && category_of_code(trim_seq(pieces[i])) is Some {
        lemma_unrecognized_from(pieces, i + 1);
        if unrecognized_from(pieces, i + 1) is None {
            assert forall|j: int| i <= j < pieces.len() implies category_of_code(
                trim_seq(#[trigger] pieces[j]),
            ) is Some by {
                if j > i {
                }
            }
        }
    }
}

/// The categories that the pieces stand for, one for each.
pub open spec fn categories_of(pieces: Seq<Seq<char>>) -> Seq<ElectiveCategory> {
    pieces.map_values(|p: Seq<char>| category_of_code(trim_seq(p)).unwrap())
}

/// The categories that the pieces stand for: the first piece that stands for none is refused.
pub fn categories_from_pieces(pieces: &Vec<String>) -> (r: Result<Vec<ElectiveCategory>, Error>)
    ensures
        match first_unrecognized(strings_view(pieces@)) {
            Some(i) => r matches Err(Error::UnrecognizedCategory(given)) && given@ == pieces@[i]@,
            None => r matches Ok(cats) && cats@ == categories_of(strings_view(pieces@)),
        },
{
    let ghost ps = strings_view(pieces@);
    let mut cats: Vec<ElectiveCategory> = Vec::new();
    let mut i: usize = 0;
    while i < pieces.len()
        invariant
            ps == strings_view(pieces@),
            i <= pieces.len(),
            cats@.len() == i,
            first_unrecognized(ps) == unrecognized_from(ps, i as int),
            forall|k: int| 0 <= k < i ==> cats@[k] == category_of_code(trim_seq(#[trigger] ps[k])).unwrap(),
        decreases pieces.len() - i,
    {
        assert(ps[i as int] == pieces@[i as int]@);
        match ElectiveCategory::from_str(pieces[i].as_str()) {
            Ok(c) => {
                cats.push(c);
            },
            Err(e) => {
                return Err(e);
            },
        }
        i += 1;
    }
    proof {
        lemma_unrecognized_from(ps, 0);
    }
    assert(cats@ =~= categories_of(ps));
    Ok(cats)
}

/// The credits text of an elective: the decimal comma made a point.
pub open spec fn credits_text(s: Seq<char>) -> Seq<char> {
    s.map_values(|c: char| if c == ',' { '.' } else { c })
}

/// What a row of the electives table fails on first, if anything but its categories.
pub open spec fn elective_row_error(args: Seq<Seq<char>>) -> Option<Error> {
    if args.len() < 1 {
        Some(Error::DepartmentNotFound)
    } else if args.len() < 2 {
        Some(Error::NameNotFound)
    } else if args.len() < 3 {
        Some(Error::HorariumNotFound)
    } else if args.len() < 4 {
        Some(Error::EctsNotFound)
    } else if args.len() < 5 {
        Some(Error::CategoryNotFound)
    } else {
        None
    }
}

/// What the credits cell gives: its decimal text, when that is a number.
pub open spec fn credits_of(cell: Seq<char>) -> Option<Seq<char>> {
    if float_text_ok(credits_text(cell)) {
        Some(credits_text(cell))
    } else {
        None
    }
}

/// The credits of an elective: the cell's decimal text, when that is a number.
pub fn credits(cell: &str) -> (r: Option<String>)
    ensures
        match credits_of(cell@) {
            Some(t) => r matches Some(s) && s@ == t,
            None => r is None,
        },
{
    let text = replace_char(&chars_of(cell), ',', '.');
    assert(text@ =~= credits_text(cell@));
    let text = string_of(&text);
    if is_float_text(text.as_str()) {
        Some(text)
    } else {
        None
    }
}

/// The categories that the categories cell lists.
pub fn categories_field(text: &str) -> (r: Result<Vec<ElectiveCategory>, Error>)
    ensures
        match regex_split_of(category_separator(), text@) {
            None => r matches Err(Error::InvalidPattern),
            Some(pieces) => match first_unrecognized(pieces) {
                Some(i) => r matches Err(Error::UnrecognizedCategory(given)) && given@ == pieces[i],
                None => r matches Ok(cats) && cats@ == categories_of(pieces),
            },
        },
{
    match regex_split("\\s*[/,]\\s*", text) {
        Some(pieces) => {
            let r = categories_from_pieces(&pieces);
            proof {
                let ps = strings_view(pieces@);
                lemma_unrecognized_from(ps, 0);
                if let Some(i) = first_unrecognized(ps) {
                    assert(ps[i] == pieces@[i]@);
                }
            }
            r
        },
        None => Err(Error::InvalidPattern),
    }
}

#[verifier::opaque]
/// Whether `r` is what reading the row `args` of the electives table gives: the first
/// missing cell, or the refused pattern, or the first unknown category, or else the course
/// with department, name, readable hours, numeric credits and categories of the row.
pub open spec fn elective_row_result(args: Seq<Seq<char>>, r: Result<ElectiveCourse, Error>) -> bool {
    match elective_row_error(args) {
        Some(e) => r == Err::<ElectiveCourse, Error>(e),
        None => match regex_split_of(category_separator(), args[4]) {
            None => r matches Err(Error::InvalidPattern),
            Some(pieces) => match first_unrecognized(pieces) {
                Some(i) => r matches Err(Error::UnrecognizedCategory(given)) && given@ == pieces[i],
                None => r matches Ok(course) && {
                    &&& course.department@ == args[0]
                    &&& course.name@ == args[1]
                    &&& course.horarium == (match horarium_of(args[2]) {
                        Ok(h) => Some(h),
                        Err(_) => None,
                    })
                    &&& match credits_of(args[3]) {
                        Some(t) => course.ects matches Some(e) && e@ == t,
                        None => course.ects is None,
                    }
                    &&& course.categories@ == categories_of(pieces)
                },
            },
        },
    }
}

#[verifier::opaque]
/// Whether reading the row `args` of the electives table fails.
pub open spec fn elective_row_fails(args: Seq<Seq<char>>) -> bool {
    elective_row_error(args) is Some || match regex_split_of(category_separator(), args[4]) {
        None => true,
        Some(pieces) => first_unrecognized(pieces) is Some,
    }
}

impl ElectiveCourse {
    /// The elective that a row of FMI's electives table describes: department, name,
    /// hours, credits and categories, in this order. Hours and credits that cannot be read
    /// are left out; the categories must all be known.
    pub fn from_fmi_site_row(args: Vec<String>) -> (r: Result<ElectiveCourse, Error>)
        ensures
            elective_row_result(strings_view(args@), r),
            r is Err <==> elective_row_fails(strings_view(args@)),
    {
        reveal(elective_row_result);
        reveal(elective_row_fails);
        let ghost a = strings_view(args@);
        assert(args@.len() >= 5 ==> a[0] == args@[0]@ && a[1] == args@[1]@ && a[2] == args@[2]@
            && a[3] == args@[3]@ && a[4] == args@[4]@);
        if args.len() < 1 {
            return Err(Error::DepartmentNotFound);
        }
        if args.len() < 2 {
            return Err(Error::NameNotFound);
        }
        if args.len() < 3 {
            return Err(Error::HorariumNotFound);
        }
        if args.len() < 4 {
            return Err(Error::EctsNotFound);
        }
        if args.len() < 5 {
            return Err(Error::CategoryNotFound);
        }
        let department = args[0].clone();
        let name = args[1].clone();
        let horarium = match ElectiveHorarium::from_str(args[2].as_str()) {
            Ok(h) => Some(h),
            Err(_) => None,
        };
        let ects = credits(args[3].as_str());
        let categories = match categories_field(args[4].as_str()) {
            Ok(c) => c,
            Err(e) => {
                return Err(e);
            },
        };
        Ok(ElectiveCourse { department, name, horarium, ects, categories })
    }
}

/// The first row, at or after position `i`, that cannot be read as an elective.
pub open spec fn failing_row_from(rows: Seq<Seq<Seq<char>>>, i: int) -> Option<int>
    decreases rows.len() - i,
{
    if i >= rows.len() {
        None
    } else if elective_row_fails(rows[i]) {
        Some(i)
    } else {
        failing_row_from(rows, i + 1)
    }
}

/// The rows of the electives table without its heading row.
pub open spec fn table_body(rows: Seq<Seq<Seq<char>>>) -> Seq<Seq<Seq<char>>> {
    if rows.len() > 0 {
        rows.drop_first()
    } else {
        rows
    }
}

/// The selector of the rows of the first table of an electives page.
pub open spec fn elective_rows_selector() -> Seq<char> {
    "table:first-of-type tr"@
}

/// The selector of the cells of a row.
pub open spec fn cells_selector() -> Seq<char> {
    "td"@
}

/// The electives on one of FMI's electives pages: every row of its first table but the
/// heading row, read with `ElectiveCourse::from_fmi_site_row`; the first row that cannot be
/// read makes the whole page fail.
pub fn electives_from_page(html: &str) -> (r: Result<Vec<ElectiveCourse>, Error>)
    ensures
        match selected_cell_texts(html@, elective_rows_selector(), cells_selector()) {
            None => r matches Err(Error::InvalidPattern),
            Some(rows) => match failing_row_from(table_body(rows), 0) {
                Some(k) => r matches Err(e) && elective_row_result(
                    table_body(rows)[k],
                    Err::<ElectiveCourse, Error>(e),
                ),
                None => r matches Ok(courses) && courses@.len() == table_body(rows).len() && forall|
                    k: int,
                | 0 <= k < courses@.len() ==> elective_row_result(
                    #[trigger] table_body(rows)[k],
                    Ok::<ElectiveCourse, Error>(courses@[k]),
                ),
            },
        },
{
    let rows = match select_cell_texts(html, "table:first-of-type tr", "td") {
        Some(rows) => rows,
        None => {
            return Err(Error::InvalidPattern);
        },
    };
    let ghost all = rows_view(rows@);
    let ghost body = table_body(all);
    let mut courses: Vec<ElectiveCourse> = Vec::new();
    if rows.len() == 0 {
        return Ok(courses);
    }
    let mut i: usize = 1;
    while i < rows.len()
        invariant
            all == rows_view(rows@),
            selected_cell_texts(html@, elective_rows_selector(), cells_selector()) == Some(all),
            body == table_body(all),
            1 <= i <= rows.len(),
            body.len() == rows.len() - 1,
            courses@.len() == i - 1,
            failing_row_from(body, 0) == failing_row_from(body, i - 1),
            forall|k: int|
                0 <= k < courses@.len() ==> elective_row_result(
                    #[trigger] body[k],
                    Ok::<ElectiveCourse, Error>(courses@[k]),
                ),
        decreases rows.len() - i,
    {
        let mut args: Vec<String> = Vec::new();
        let mut j: usize = 0;
        while j < rows[i].len()
            invariant
                i < rows.len(),
                j <= rows@[i as int]@.len(),
                args@.len() == j,
                forall|t: int| 0 <= t < j ==> #[trigger] args@[t] == rows@[i as int]@[t],
            decreases rows@[i as int]@.len() - j,
        {
            args.push(rows[i][j].clone());
            j += 1;
        }
        assert(strings_view(args@) =~= body[i - 1]);
        match ElectiveCourse::from_fmi_site_row(args) {
            Ok(course) => {
                courses.push(course);
            },
            Err(e) => {
                assert(elective_row_fails(body[i - 1]));
                assert(failing_row_from(body, i - 1) == Some((i - 1) as int));
                return Err(e);
            },
        }
        i += 1;
    }
    proof {
        lemma_failing_row_none(body, courses@.len() as int);
    }
    Ok(courses)
}

/// The row that a table fails on is the first that cannot be read: the rows before it can
/// all be read; where none is named, every row from `i` on can be read.
pub proof fn law_failing_row_is_first(rows: Seq<Seq<Seq<char>>>, i: int)
    requires
        0 <= i,
    ensures
        match failing_row_from(rows, i) {
            Some(k) => i <= k < rows.len() && elective_row_fails(rows[k]) && forall|t: int|
                i <= t < k ==> !elective_row_fails(#[trigger] rows[t]),
            None => forall|t: int| i <= t < rows.len() ==> !elective_row_fails(#[trigger] rows[t]),
        },
    decreases rows.len() - i,
{
    if i < rows.len() && !elective_row_fails(rows[i]) {
        law_failing_row_is_first(rows, i + 1);
    }
}

proof fn lemma_failing_row_none(rows: Seq<Seq<Seq<char>>>, i: int)
    requires
        0 <= i,
        i >= rows.len(),
    ensures
        failing_row_from(rows, i) is None,
{
}

/// The names of a list of electives.
pub open spec fn names(s: Seq<ElectiveCourse>) -> Seq<Seq<char>> {
    s.map_values(|c: ElectiveCourse| c.name@)
}

/// `kept` followed by the electives of `rest` whose name is new: of several electives with
/// one name, the first is kept.
pub open spec fn keep_new_names(kept: Seq<ElectiveCourse>, rest: Seq<ElectiveCourse>) -> Seq<ElectiveCourse>
    decreases rest.len(),
{
    if rest.len() == 0 {
        kept
    } else if names(kept).contains(rest[0].name@) {
        keep_new_names(kept, rest.drop_first())
    } else {
        keep_new_names(kept.push(rest[0]), rest.drop_first())
    }
}

/// The electives of all pages, page after page.
pub open spec fn all_electives(pages: Seq<Vec<ElectiveCourse>>) -> Seq<ElectiveCourse> {
    pages.map_values(|p: Vec<ElectiveCourse>| p@).flatten()
}

/// Whether some elective of `kept` has the name `name`.
fn has_name(kept: &Vec<ElectiveCourse>, name: &String) -> (b: bool)
    ensures
        b == names(kept@).contains(name@),
{
    let mut k: usize = 0;
    while k < kept.len()
        invariant
            k <= kept.len(),
            forall|t: int| 0 <= t < k ==> kept@[t].name@ != name@,
        decreases kept.len() - k,
    {
        if kept[k].name == *name {
            assert(names(kept@)[k as int] == name@);
            return true;
        }
        k += 1;
    }
    assert forall|t: int| 0 <= t < names(kept@).len() implies names(kept@)[t] != name@ by {
        assert(names(kept@)[t] == kept@[t].name@);
    }
    false
}

/// The electives of all pages, each name once: of several electives with one name, the
/// first is kept.
pub fn distinct_electives(pages: Vec<Vec<ElectiveCourse>>) -> (r: Vec<ElectiveCourse>)
    ensures
        r@ == keep_new_names(Seq::empty(), all_electives(pages@)),
{
    let ghost goal = keep_new_names(Seq::empty(), all_electives(pages@));
    let mut pages = pages;
    let mut out: Vec<ElectiveCourse> = Vec::new();
    while pages.len() > 0
        invariant
            goal == keep_new_names(out@, all_electives(pages@)),
        decreases pages.len(),
    {
        let ghost before = pages@;
        let mut page = pages.remove(0);
        assert(all_electives(before) =~= page@ + all_electives(pages@)) by {
            assert(before.map_values(|p: Vec<ElectiveCourse>| p@).drop_first() =~= pages@.map_values(
                |p: Vec<ElectiveCourse>| p@,
            ));
        }
        while page.len() > 0
            invariant
                goal == keep_new_names(out@, page@ + all_electives(pages@)),
            decreases page.len(),
        {
            let ghost rest = page@ + all_electives(pages@);
            let c = page.remove(0);
            assert(rest[0] == c);
            assert(rest.drop_first() =~= page@ + all_electives(pages@));
            if !has_name(&out, &c.name) {
                out.push(c);
            }
        }
        assert(page@ + all_electives(pages@) =~= all_electives(pages@));
    }
    assert(all_electives(pages@) =~= Seq::<ElectiveCourse>::empty());
    out
}

/// The position of the first elective with the given name.
pub fn find_elective(electives: &Vec<ElectiveCourse>, name: &str) -> (r: Option<usize>)
    ensures
        match r {
            Some(i) => i < electives@.len() && electives@[i as int].name@ == name@ && forall|j: int|
                0 <= j < i ==> #[trigger] electives@[j].name@ != name@,
            None => forall|j: int| 0 <= j < electives@.len() ==> #[trigger] electives@[j].name@ != name@,
        },
{
    let wanted = String::from_str(name);
    let mut i: usize = 0;
    while i < electives.len()
        invariant
            wanted@ == name@,
            i <= electives.len(),
            forall|j: int| 0 <= j < i ==> #[trigger] electives@[j].name@ != name@,
        decreases electives.len() - i,
    {
        if electives[i].name == wanted {
            return Some(i);
        }
        i += 1;
    }
    None
}

/// No two electives of `s` share a name.
pub open spec fn distinct_names(s: Seq<ElectiveCourse>) -> bool {
    forall|i: int, j: int| 0 <= i < j < s.len() ==> (#[trigger] s[i]).name@ != (#[trigger] s[j]).name@
}

proof fn lemma_keep_new_names(kept: Seq<ElectiveCourse>, rest: Seq<ElectiveCourse>)
    requires
        distinct_names(kept),
    ensures
        distinct_names(keep_new_names(kept, rest)),
        forall|x: ElectiveCourse| #[trigger] keep_new_names(kept, rest).contains(x) ==> kept.contains(x) || rest.contains(x),
        forall|x: ElectiveCourse|
            kept.contains(x) || rest.contains(x) ==> #[trigger] names(keep_new_names(kept, rest)).contains(x.name@),
    decreases rest.len(),
{
    if rest.len() > 0 {
        let c = rest[0];
        let tail = rest.drop_first();
        let next = if names(kept).contains(c.name@) { kept } else { kept.push(c) };
        assert(keep_new_names(kept, rest) == keep_new_names(next, tail));
        if !names(kept).contains(c.name@) {
            assert forall|i: int, j: int| 0 <= i < j < next.len() implies (#[trigger] next[i]).name@ != (#[trigger] next[j]).name@ by {
                if j == kept.len() {
                    assert(names(kept)[i] == kept[i].name@);
                } else {
                    assert(next[i] == kept[i] && next[j] == kept[j]);
                }
            }
        }
        lemma_keep_new_names(next, tail);
        let r = keep_new_names(kept, rest);
        assert forall|x: ElectiveCourse| #[trigger] r.contains(x) implies kept.contains(x) || rest.contains(x) by {
            if next.contains(x) && !kept.contains(x) {
                assert(x == c);
                assert(rest[0] == x);
            }
            if tail.contains(x) {
                let t = choose|t: int| 0 <= t < tail.len() && tail[t] == x;
                assert(rest[t + 1] == x);
            }
        }
        assert forall|x: ElectiveCourse| kept.contains(x) || rest.contains(x) implies #[trigger] names(r).contains(x.name@) by {
            if kept.contains(x) {
                let t = choose|t: int| 0 <= t < kept.len() && kept[t] == x;
                assert(next[t] == x);
                assert(next.contains(x));
                assert(names(keep_new_names(next, tail)).contains(x.name@));
            } else {
                let t = choose|t: int| 0 <= t < rest.len() && rest[t] == x;
                if t == 0 {
                    if names(kept).contains(c.name@) {
                        let u = choose|u: int| 0 <= u < names(kept).len() && names(kept)[u] == c.name@;
                        assert(kept.contains(kept[u]));
                        assert(kept[u].name@ == x.name@);
                        assert(next.contains(kept[u]));
                        assert(names(keep_new_names(next, tail)).contains(kept[u].name@));
                    } else {
                        assert(next[kept.len() as int] == x);
                        assert(next.contains(x));
                        assert(names(keep_new_names(next, tail)).contains(x.name@));
                    }
                } else {
                    assert(tail[t - 1] == x);
                    assert(tail.contains(x));
                    assert(names(keep_new_names(next, tail)).contains(x.name@));
                }
            }
        }
    } else {
        assert forall|x: ElectiveCourse| kept.contains(x) || rest.contains(x) implies #[trigger] names(
            keep_new_names(kept, rest),
        ).contains(x.name@) by {
            if kept.contains(x) {
                let t = choose|t: int| 0 <= t < kept.len() && kept[t] == x;
                assert(names(kept)[t] == x.name@);
            }
        }
    }
}

/// Electives are told apart by name: of all the electives of all pages, `distinct_electives`
/// keeps exactly one for every name. No two kept electives share a name, every name among
/// the pages' electives is kept, and every kept elective comes from the pages.
pub proof fn law_one_elective_per_name(pages: Seq<Vec<ElectiveCourse>>)
    ensures
        distinct_names(keep_new_names(Seq::empty(), all_electives(pages))),
        forall|x: ElectiveCourse|
            #[trigger] all_electives(pages).contains(x) ==> names(keep_new_names(Seq::empty(), all_electives(pages))).contains(x.name@),
        forall|x: ElectiveCourse|
            #[trigger] keep_new_names(Seq::empty(), all_electives(pages)).contains(x) ==> all_electives(pages).contains(x),
{
    lemma_keep_new_names(Seq::empty(), all_electives(pages));
}

} // verus!
