//! The report that the program prints about a distribution: the courses under each
//! requirement (requirements with fewer categories first), the requirements still open
//! and the courses left over.

use vstd::prelude::*;
use crate::category::{category_name, lemma_categories_deep_view};
use crate::course_arranger::{
    Arrangement, ArrangementView, CategoriesView, CategoryRequirements, CategorySet,
    CoursesView, CoursesWithCats, RequirementsView,
};
use crate::outside::strings_view;
use crate::susi_fetch::occurs_in;
use crate::text::{all_digits, decimal_value, is_digit};

verus! {

broadcast use lemma_categories_deep_view;

/// The first position, at or after `i`, whose category set has more than `size` categories.
pub open spec fn size_position(s: ArrangementView, size: nat, i: int) -> int
    decreases s.len() - i,
{
    if i < 0 || i >= s.len() || s[i].0.len() > size {
        i
    } else {
        size_position(s, size, i + 1)
    }
}

/// The groups of an arrangement stably sorted by the number of categories of their
/// requirement: groups of equal size keep their order.
pub open spec fn by_size(arr: ArrangementView) -> ArrangementView
    decreases arr.len(),
{
    if arr.len() == 0 {
        arr
    } else {
        let s = by_size(arr.drop_last());
        s.insert(size_position(s, arr.last().0.len(), 0), arr.last())
    }
}

/// The names of the categories, with `sep` between two names.
pub open spec fn category_list(cats: CategoriesView, sep: Seq<char>) -> Seq<char>
    decreases cats.len(),
{
    if cats.len() == 0 {
        Seq::empty()
    } else if cats.len() == 1 {
        category_name(cats[0])
    } else {
        category_list(cats.drop_last(), sep) + sep + category_name(cats.last())
    }
}

/// The character of a decimal digit.
pub open spec fn digit_char(d: int) -> char {
    if d == 0 {
        '0'
    } else if d == 1 {
        '1'
    } else if d == 2 {
        '2'
    } else if d == 3 {
        '3'
    } else if d == 4 {
        '4'
    } else if d == 5 {
        '5'
    } else if d == 6 {
        '6'
    } else if d == 7 {
        '7'
    } else if d == 8 {
        '8'
    } else {
        '9'
    }
}

/// The decimal digits of `n`, without leading zeros.
pub open spec fn decimal_text(n: nat) -> Seq<char>
    decreases n,
{
    if n < 10 {
        seq![digit_char(n as int)]
    } else {
        decimal_text(n / 10).push(digit_char((n % 10) as int))
    }
}

/// The line of a course under a requirement: its name in quotes, then its categories.
pub open spec fn course_line(names: Seq<Seq<char>>, c: (u64, CategoriesView)) -> Seq<char> {
    "  '"@ + names[c.0 as int] + "' ("@ + category_list(c.1, "|"@) + ")"@
}

/// The lines of the courses under a requirement, one below the other.
pub open spec fn course_lines(names: Seq<Seq<char>>, cs: CoursesView) -> Seq<char>
    decreases cs.len(),
{
    if cs.len() == 0 {
        Seq::empty()
    } else if cs.len() == 1 {
        course_line(names, cs[0])
    } else {
        course_lines(names, cs.drop_last()) + "\n"@ + course_line(names, cs.last())
    }
}

/// The text of one requirement and the courses under it.
pub open spec fn group_text(names: Seq<Seq<char>>, g: (CategoriesView, CoursesView)) -> Seq<char> {
    category_list(g.0, " | "@) + " ->\n"@ + course_lines(names, g.1) + "\n\n"@
}

/// The texts of the groups, one after the other.
pub open spec fn groups_text(names: Seq<Seq<char>>, gs: ArrangementView) -> Seq<char>
    decreases gs.len(),
{
    if gs.len() == 0 {
        Seq::empty()
    } else {
        groups_text(names, gs.drop_last()) + group_text(names, gs.last())
    }
}

/// The line of a requirement still open: its categories and how many courses it asks for.
pub open spec fn requirement_line(r: (CategoriesView, u8)) -> Seq<char> {
    "  "@ + category_list(r.0, " | "@) + " -> "@ + decimal_text(r.1 as nat) + "\n"@
}

/// The lines of the requirements still open.
pub open spec fn requirement_lines(rs: RequirementsView) -> Seq<char>
    decreases rs.len(),
{
    if rs.len() == 0 {
        Seq::empty()
    } else {
        requirement_lines(rs.drop_last()) + requirement_line(rs.last())
    }
}

/// The line of a course left over: its name, then its categories.
pub open spec fn left_line(names: Seq<Seq<char>>, c: (u64, CategoriesView)) -> Seq<char> {
    "  "@ + names[c.0 as int] + " ("@ + category_list(c.1, "|"@) + ")\n"@
}

/// The lines of the courses left over.
pub open spec fn left_lines(names: Seq<Seq<char>>, cs: CoursesView) -> Seq<char>
    decreases cs.len(),
{
    if cs.len() == 0 {
        Seq::empty()
    } else {
        left_lines(names, cs.drop_last()) + left_line(names, cs.last())
    }
}

/// The report of the distribution `arr`, with the requirements `reqs` still open and the
/// courses `left` left over; a course is shown by its name in `names`, at its identifier.
pub open spec fn arrangement_report(
    names: Seq<Seq<char>>,
    arr: ArrangementView,
    reqs: RequirementsView,
    left: CoursesView,
) -> Seq<char> {
    "\nYour optimal arrangement is:\n\n"@ + groups_text(names, by_size(arr)) + "\n"@ + (if reqs.len()
        == 0 {
        "Hurray! No requirements left!\n\n"@
    } else {
        "Requirements left:\n\n"@ + requirement_lines(reqs)
    }) + "\n\n"@ + (if left.len() == 0 {
        "You have no unmapped courses, i.e. no courses left that couldn't fit in a category requirement.\n\n"@
    } else {
        "Courses left:\n\n"@ + left_lines(names, left)
    })
}

proof fn lemma_occurs_itself(x: Seq<char>)
    ensures
        occurs_in(x, x),
{
    let z: int = 0;
    assert(x.subrange(z, z + x.len()) =~= x);
}

proof fn lemma_occurs_before(x: Seq<char>, a: Seq<char>, b: Seq<char>)
    requires
        occurs_in(x, a),
    ensures
        occurs_in(x, a + b),
{
    let i = choose|i: int| 0 <= i <= a.len() - x.len() && #[trigger] a.subrange(i, i + x.len()) == x;
    assert((a + b).subrange(i, i + x.len()) =~= a.subrange(i, i + x.len()));
}

proof fn lemma_occurs_after(x: Seq<char>, a: Seq<char>, b: Seq<char>)
    requires
        occurs_in(x, b),
    ensures
        occurs_in(x, a + b),
{
    let i = choose|i: int| 0 <= i <= b.len() - x.len() && #[trigger] b.subrange(i, i + x.len()) == x;
    assert((a + b).subrange(i + a.len(), i + a.len() + x.len()) =~= b.subrange(i, i + x.len()));
}

proof fn lemma_left_lines_hold(names: Seq<Seq<char>>, cs: CoursesView, k: int)
    requires
        0 <= k < cs.len(),
    ensures
        occurs_in(left_line(names, cs[k]), left_lines(names, cs)),
    decreases cs.len(),
{
    let d = cs.drop_last();
    if k == cs.len() - 1 {
        lemma_occurs_itself(left_line(names, cs[k]));
        lemma_occurs_after(left_line(names, cs[k]), left_lines(names, d), left_line(names, cs.last()));
    } else {
        lemma_left_lines_hold(names, d, k);
        assert(d[k] == cs[k]);
        lemma_occurs_before(left_line(names, cs[k]), left_lines(names, d), left_line(names, cs.last()));
    }
}

proof fn lemma_requirement_lines_hold(rs: RequirementsView, k: int)
    requires
        0 <= k < rs.len(),
    ensures
        occurs_in(requirement_line(rs[k]), requirement_lines(rs)),
    decreases rs.len(),
{
    let d = rs.drop_last();
    if k == rs.len() - 1 {
        lemma_occurs_itself(requirement_line(rs[k]));
        lemma_occurs_after(requirement_line(rs[k]), requirement_lines(d), requirement_line(rs.last()));
    } else {
        lemma_requirement_lines_hold(d, k);
        assert(d[k] == rs[k]);
        lemma_occurs_before(requirement_line(rs[k]), requirement_lines(d), requirement_line(rs.last()));
    }
}

proof fn lemma_size_position_bounds(s: ArrangementView, size: nat, i: int)
    requires
        0 <= i <= s.len(),
    ensures
        i <= size_position(s, size, i) <= s.len(),
    decreases s.len() - i,
{
    if i < s.len() && s[i].0.len() <= size {
        lemma_size_position_bounds(s, size, i + 1);
    }
}

proof fn lemma_by_size_keeps(arr: ArrangementView, e: int)
    requires
        0 <= e < arr.len(),
    ensures
        by_size(arr).len() == arr.len(),
        by_size(arr).contains(arr[e]),
    decreases arr.len(),
{
    let d = arr.drop_last();
    let s = by_size(d);
    if d.len() > 0 {
        lemma_by_size_keeps(d, 0);
    }
    assert(s.len() == d.len());
    let p = size_position(s, arr.last().0.len(), 0);
    lemma_size_position_bounds(s, arr.last().0.len(), 0);
    let r = s.insert(p, arr.last());
    assert(by_size(arr) == r);
    if e == arr.len() - 1 {
        assert(r[p] == arr[e]);
    } else {
        lemma_by_size_keeps(d, e);
        assert(d[e] == arr[e]);
        let m = choose|m: int| 0 <= m < s.len() && s[m] == arr[e];
        if m < p {
            assert(r[m] == arr[e]);
        } else {
            assert(r[m + 1] == arr[e]);
        }
    }
}

proof fn lemma_course_lines_hold(names: Seq<Seq<char>>, cs: CoursesView, j: int)
    requires
        0 <= j < cs.len(),
    ensures
        occurs_in(course_line(names, cs[j]), course_lines(names, cs)),
    decreases cs.len(),
{
    let x = course_line(names, cs[j]);
    let d = cs.drop_last();
    if cs.len() == 1 {
        lemma_occurs_itself(x);
    } else if j == cs.len() - 1 {
        lemma_occurs_itself(x);
        lemma_occurs_after(x, course_lines(names, d) + "\n"@, x);
    } else {
        lemma_course_lines_hold(names, d, j);
        assert(d[j] == cs[j]);
        lemma_occurs_before(x, course_lines(names, d), "\n"@);
        lemma_occurs_before(x, course_lines(names, d) + "\n"@, course_line(names, cs.last()));
    }
}

proof fn lemma_groups_text_hold(names: Seq<Seq<char>>, gs: ArrangementView, k: int)
    requires
        0 <= k < gs.len(),
    ensures
        occurs_in(group_text(names, gs[k]), groups_text(names, gs)),
    decreases gs.len(),
{
    let x = group_text(names, gs[k]);
    let d = gs.drop_last();
    if k == gs.len() - 1 {
        lemma_occurs_itself(x);
        lemma_occurs_after(x, groups_text(names, d), x);
    } else {
        lemma_groups_text_hold(names, d, k);
        assert(d[k] == gs[k]);
        lemma_occurs_before(x, groups_text(names, d), group_text(names, gs.last()));
    }
}

proof fn lemma_occurs_within(x: Seq<char>, y: Seq<char>, z: Seq<char>)
    requires
        occurs_in(x, y),
        occurs_in(y, z),
    ensures
        occurs_in(x, z),
{
    let i = choose|i: int| 0 <= i <= y.len() - x.len() && #[trigger] y.subrange(i, i + x.len()) == x;
    let j = choose|j: int| 0 <= j <= z.len() - y.len() && #[trigger] z.subrange(j, j + y.len()) == y;
    assert(z.subrange(j + i, j + i + x.len()) =~= y.subrange(i, i + x.len()));
}

/// Every requirement of the distribution is shown in the report, its categories separated
/// by ` | ` and followed by an arrow, and so is every course placed under it: two spaces,
/// its name in quotes, and its categories in brackets, separated by `|`.
pub proof fn law_every_placed_course_listed(
    names: Seq<Seq<char>>,
    arr: ArrangementView,
    reqs: RequirementsView,
    left: CoursesView,
    e: int,
    j: int,
)
    requires
        0 <= e < arr.len(),
        0 <= j < arr[e].1.len(),
    ensures
        occurs_in(category_list(arr[e].0, " | "@) + " ->\n"@, arrangement_report(names, arr, reqs, left)),
        occurs_in(
            "  '"@ + names[arr[e].1[j].0 as int] + "' ("@ + category_list(arr[e].1[j].1, "|"@) + ")"@,
            arrangement_report(names, arr, reqs, left),
        ),
{
    let g = arr[e];
    let sorted = by_size(arr);
    lemma_by_size_keeps(arr, e);
    let k = choose|k: int| 0 <= k < sorted.len() && sorted[k] == g;
    let gt = group_text(names, g);
    lemma_groups_text_hold(names, sorted, k);
    let head = category_list(g.0, " | "@) + " ->\n"@;
    let x = course_line(names, g.1[j]);
    lemma_occurs_itself(head);
    lemma_occurs_before(head, head, course_lines(names, g.1));
    lemma_occurs_before(head, head + course_lines(names, g.1), "\n\n"@);
    lemma_course_lines_hold(names, g.1, j);
    lemma_occurs_after(x, head, course_lines(names, g.1));
    lemma_occurs_before(x, head + course_lines(names, g.1), "\n\n"@);
    assert(gt == head + course_lines(names, g.1) + "\n\n"@);
    let report = arrangement_report(names, arr, reqs, left);
    let a = "\nYour optimal arrangement is:\n\n"@;
    let rest = report.subrange((a.len() + groups_text(names, sorted).len()) as int, report.len() as int);
    assert(report =~= a + groups_text(names, sorted) + rest);
    lemma_occurs_after(gt, a, groups_text(names, sorted));
    lemma_occurs_before(gt, a + groups_text(names, sorted), rest);
    lemma_occurs_within(head, gt, report);
    lemma_occurs_within(x, gt, report);
}

proof fn lemma_digit_char(d: int)
    requires
        0 <= d < 10,
    ensures
        is_digit(digit_char(d)),
        digit_char(d) as nat - '0' as nat == d,
        d > 0 ==> digit_char(d) != '0',
{
}

/// The decimal text of a number spells it: at least one digit, nothing but digits, no
/// leading zero unless the number is zero, and read back it is the number.
pub proof fn law_decimal_text_spells_number(n: nat)
    ensures
        decimal_text(n).len() > 0,
        all_digits(decimal_text(n)),
        decimal_value(decimal_text(n)) == n,
        decimal_text(n)[0] == '0' ==> n == 0,
    decreases n,
{
    let t = decimal_text(n);
    if n < 10 {
        lemma_digit_char(n as int);
        assert(t.drop_last() =~= Seq::<char>::empty());
        assert(decimal_value(Seq::<char>::empty()) == 0);
    } else {
        law_decimal_text_spells_number(n / 10);
        lemma_digit_char((n % 10) as int);
        let u = decimal_text(n / 10);
        assert(t.drop_last() =~= u);
        assert(t[0] == u[0]);
        assert forall|i: int| 0 <= i < t.len() implies is_digit(#[trigger] t[i]) by {
            if i < u.len() {
                assert(t[i] == u[i]);
            }
        }
        assert((n / 10) * 10 + n % 10 == n);
    }
}

/// The list of a set of categories names each of them.
pub proof fn law_category_list_names_each(cats: CategoriesView, sep: Seq<char>, k: int)
    requires
        0 <= k < cats.len(),
    ensures
        occurs_in(category_name(cats[k]), category_list(cats, sep)),
    decreases cats.len(),
{
    let x = category_name(cats[k]);
    let d = cats.drop_last();
    if cats.len() == 1 {
        lemma_occurs_itself(x);
    } else if k == cats.len() - 1 {
        lemma_occurs_itself(x);
        lemma_occurs_after(x, category_list(d, sep) + sep, x);
    } else {
        law_category_list_names_each(d, sep, k);
        assert(d[k] == cats[k]);
        lemma_occurs_before(x, category_list(d, sep), sep);
        lemma_occurs_before(x, category_list(d, sep) + sep, category_name(cats.last()));
    }
}

/// The part of a report that comes before the courses left over.
spec fn report_head(names: Seq<Seq<char>>, arr: ArrangementView, reqs: RequirementsView) -> Seq<char> {
    "\nYour optimal arrangement is:\n\n"@ + groups_text(names, by_size(arr)) + "\n"@ + (if reqs.len()
        == 0 {
        "Hurray! No requirements left!\n\n"@
    } else {
        "Requirements left:\n\n"@ + requirement_lines(reqs)
    }) + "\n\n"@
}

/// The report opens with its heading; it says that no requirement is left exactly where
/// none is, and lists the requirements left otherwise; it says that no course is left
/// over where none is, and lists the courses left over otherwise, last.
pub proof fn law_report_sections(
    names: Seq<Seq<char>>,
    arr: ArrangementView,
    reqs: RequirementsView,
    left: CoursesView,
)
    ensures
        arrangement_report(names, arr, reqs, left).take(31) == "\nYour optimal arrangement is:\n\n"@,
        reqs.len() == 0 ==> occurs_in("Hurray! No requirements left!\n\n"@, arrangement_report(names, arr, reqs, left)),
        reqs.len() > 0 ==> occurs_in("Requirements left:\n\n"@, arrangement_report(names, arr, reqs, left)),
        left.len() == 0 ==> occurs_in(
            "You have no unmapped courses, i.e. no courses left that couldn't fit in a category requirement.\n\n"@,
            arrangement_report(names, arr, reqs, left),
        ),
        left.len() > 0 ==> occurs_in("Courses left:\n\n"@, arrangement_report(names, arr, reqs, left)),
{
    let a = "\nYour optimal arrangement is:\n\n"@;
    let g = groups_text(names, by_size(arr)) + "\n"@;
    let mid = if reqs.len() == 0 {
        "Hurray! No requirements left!\n\n"@
    } else {
        "Requirements left:\n\n"@ + requirement_lines(reqs)
    };
    let rest = if left.len() == 0 {
        "You have no unmapped courses, i.e. no courses left that couldn't fit in a category requirement.\n\n"@
    } else {
        "Courses left:\n\n"@ + left_lines(names, left)
    };
    let r = arrangement_report(names, arr, reqs, left);
    assert(r =~= a + (g + (mid + ("\n\n"@ + rest))));
    reveal_strlit("\nYour optimal arrangement is:\n\n");
    assert(a.len() == 31);
    assert(r.take(31) =~= a);
    if reqs.len() == 0 {
        lemma_occurs_itself(mid);
    } else {
        lemma_occurs_itself("Requirements left:\n\n"@);
        lemma_occurs_before("Requirements left:\n\n"@, "Requirements left:\n\n"@, requirement_lines(reqs));
    }
    let x = if reqs.len() == 0 { "Hurray! No requirements left!\n\n"@ } else { "Requirements left:\n\n"@ };
    lemma_occurs_before(x, mid, "\n\n"@ + rest);
    lemma_occurs_after(x, a + g, mid + ("\n\n"@ + rest));
    assert(r =~= (a + g) + (mid + ("\n\n"@ + rest)));
    let y = if left.len() == 0 {
        "You have no unmapped courses, i.e. no courses left that couldn't fit in a category requirement.\n\n"@
    } else {
        "Courses left:\n\n"@
    };
    lemma_occurs_itself(y);
    if left.len() > 0 {
        lemma_occurs_before(y, y, left_lines(names, left));
    }
    lemma_occurs_after(y, report_head(names, arr, reqs), rest);
    assert(r =~= report_head(names, arr, reqs) + rest);
}

/// Every course left over has a line of its own in the report: two spaces, its name, and
/// its categories in brackets, separated by `|`.
pub proof fn law_every_left_course_listed(
    names: Seq<Seq<char>>,
    arr: ArrangementView,
    reqs: RequirementsView,
    left: CoursesView,
    k: int,
)
    requires
        0 <= k < left.len(),
    ensures
        occurs_in(
            "  "@ + names[left[k].0 as int] + " ("@ + category_list(left[k].1, "|"@) + ")\n"@,
            arrangement_report(names, arr, reqs, left),
        ),
{
    let x = left_line(names, left[k]);
    lemma_left_lines_hold(names, left, k);
    lemma_occurs_after(x, "Courses left:\n\n"@, left_lines(names, left));
    lemma_occurs_after(x, report_head(names, arr, reqs), "Courses left:\n\n"@ + left_lines(names, left));
}

/// One more course left over adds its line at the end of the report, and changes nothing
/// before it: the report lists the courses left over one line each, in their order.
pub proof fn law_left_course_adds_its_line(
    names: Seq<Seq<char>>,
    arr: ArrangementView,
    reqs: RequirementsView,
    left: CoursesView,
    c: (u64, CategoriesView),
)
    requires
        left.len() > 0,
    ensures
        arrangement_report(names, arr, reqs, left.push(c)) == arrangement_report(names, arr, reqs, left)
            + ("  "@ + names[c.0 as int] + " ("@ + category_list(c.1, "|"@) + ")\n"@),
{
    let l = left.push(c);
    assert(l.drop_last() =~= left);
    assert(l.last() == c);
    let h = report_head(names, arr, reqs) + "Courses left:\n\n"@;
    assert(arrangement_report(names, arr, reqs, l) =~= h + left_lines(names, l));
    assert(arrangement_report(names, arr, reqs, left) =~= h + left_lines(names, left));
    assert(h + left_lines(names, l) =~= (h + left_lines(names, left)) + left_line(names, c));
}

/// Every requirement still open has a line of its own in the report: two spaces, its
/// categories separated by ` | `, an arrow and the number of courses it still asks for.
pub proof fn law_every_open_requirement_listed(
    names: Seq<Seq<char>>,
    arr: ArrangementView,
    reqs: RequirementsView,
    left: CoursesView,
    k: int,
)
    requires
        0 <= k < reqs.len(),
    ensures
        occurs_in(
            "  "@ + category_list(reqs[k].0, " | "@) + " -> "@ + decimal_text(reqs[k].1 as nat) + "\n"@,
            arrangement_report(names, arr, reqs, left),
        ),
{
    let x = requirement_line(reqs[k]);
    let a = "\nYour optimal arrangement is:\n\n"@ + groups_text(names, by_size(arr)) + "\n"@;
    let rest = if left.len() == 0 {
        "You have no unmapped courses, i.e. no courses left that couldn't fit in a category requirement.\n\n"@
    } else {
        "Courses left:\n\n"@ + left_lines(names, left)
    };
    lemma_requirement_lines_hold(reqs, k);
    lemma_occurs_after(x, "Requirements left:\n\n"@, requirement_lines(reqs));
    lemma_occurs_after(x, a, "Requirements left:\n\n"@ + requirement_lines(reqs));
    lemma_occurs_before(x, a + ("Requirements left:\n\n"@ + requirement_lines(reqs)), "\n\n"@ + rest);
    assert(arrangement_report(names, arr, reqs, left) =~= (a + ("Requirements left:\n\n"@
        + requirement_lines(reqs))) + ("\n\n"@ + rest));
}

/// Appends the names of the categories, with `sep` between two names.
fn push_categories(s: &mut String, cats: &CategorySet, sep: &str)
    ensures
        final(s)@ == old(s)@ + category_list(cats@, sep@),
{
    let ghost start = s@;
    let mut i: usize = 0;
    assert(start + category_list(cats@.take(0), sep@) =~= start);
    while i < cats.len()
        invariant
            i <= cats.len(),
            s@ == start + category_list(cats@.take(i as int), sep@),
        decreases cats.len() - i,
    {
        let ghost before = category_list(cats@.take(i as int), sep@);
        if i > 0 {
            s.append(sep);
        }
        let name = cats[i].name();
        s.append(name.as_str());
        proof {
            let t = cats@.take(i + 1);
            assert(t.drop_last() =~= cats@.take(i as int));
            assert(t.last() == cats@[i as int]);
            if i == 0 {
                assert(s@ =~= start + category_list(t, sep@));
            } else {
                assert(s@ =~= start + (before + sep@ + category_name(cats@[i as int])));
            }
        }
        i += 1;
    }
    assert(cats@.take(cats.len() as int) =~= cats@);
}

/// The character of the decimal digit `d`.
fn digit(d: u8) -> (c: char)
    requires
        d < 10,
    ensures
        c == digit_char(d as int),
{
    match d {
        0 => '0',
        1 => '1',
        2 => '2',
        3 => '3',
        4 => '4',
        5 => '5',
        6 => '6',
        7 => '7',
        8 => '8',
        _ => '9',
    }
}

/// Appends the decimal digits of `n`.
fn push_decimal(s: &mut String, n: u8)
    ensures
        final(s)@ == old(s)@ + decimal_text(n as nat),
{
    let ghost start = s@;
    proof {
        reveal_with_fuel(decimal_text, 3);
    }
    if n >= 100 {
        s.push(digit(n / 100));
        s.push(digit((n / 10) % 10));
        s.push(digit(n % 10));
        assert((n as nat) / 10 / 10 == (n as nat) / 100);
        assert(decimal_text((n as nat) / 10) == seq![digit_char((n / 100) as int)].push(
            digit_char(((n / 10) % 10) as int),
        ));
        assert(s@ =~= start + decimal_text(n as nat));
    } else if n >= 10 {
        s.push(digit(n / 10));
        s.push(digit(n % 10));
        assert(s@ =~= start + decimal_text(n as nat));
    } else {
        s.push(digit(n));
        assert(s@ =~= start + decimal_text(n as nat));
    }
}

/// Appends the lines of the courses under a requirement.
fn push_course_lines(s: &mut String, names: &Vec<String>, cs: &CoursesWithCats)
    requires
        forall|j: int| 0 <= j < cs@.len() ==> (cs@[j].0 as int) < names@.len(),
    ensures
        final(s)@ == old(s)@ + course_lines(strings_view(names@), cs.deep_view()),
{
    let ghost start = s@;
    let ghost nv = strings_view(names@);
    let ghost cv = cs.deep_view();
    let mut k: usize = 0;
    assert(start + course_lines(nv, cv.take(0)) =~= start);
    while k < cs.len()
        invariant
            nv == strings_view(names@),
            cv == cs.deep_view(),
            forall|j: int| 0 <= j < cs@.len() ==> (cs@[j].0 as int) < names@.len(),
            k <= cs.len(),
            s@ == start + course_lines(nv, cv.take(k as int)),
        decreases cs.len() - k,
    {
        let ghost before = course_lines(nv, cv.take(k as int));
        if k > 0 {
            s.append("\n");
        }
        let ghost mid = s@;
        let id = cs[k].0;
        let count = names.len();
        assert((id as int) < count);
        assert((id as usize) as int == id as int);
        s.append("  '");
        s.append(names[id as usize].as_str());
        s.append("' (");
        push_categories(s, &cs[k].1, "|");
        s.append(")");
        proof {
            assert(cv[k as int] == (cs@[k as int].0, cs@[k as int].1@));
            assert(nv[id as int] == names@[id as int]@);
            assert(s@ =~= mid + course_line(nv, cv[k as int]));
            let t = cv.take(k + 1);
            assert(t.drop_last() =~= cv.take(k as int));
            assert(t.last() == cv[k as int]);
            if k == 0 {
                assert(s@ =~= start + course_lines(nv, t));
            } else {
                assert(s@ =~= start + (before + "\n"@ + course_line(nv, cv[k as int])));
            }
        }
        k += 1;
    }
    assert(cv.take(cs.len() as int) =~= cv);
}

/// The positions of the groups of an arrangement, stably sorted by the number of
/// categories of their requirement.
fn size_order(arrangement: &Arrangement) -> (order: Vec<usize>)
    ensures
        order@.len() == arrangement@.len(),
        forall|k: int| 0 <= k < order@.len() ==> (#[trigger] order@[k] as int) < arrangement@.len(),
        order@.map_values(|i: usize| arrangement.deep_view()[i as int]) == by_size(
            arrangement.deep_view(),
        ),
{
    let ghost av = arrangement.deep_view();
    let mut order: Vec<usize> = Vec::new();
    let mut i: usize = 0;
    assert(order@.map_values(|j: usize| av[j as int]) =~= by_size(av.take(0)));
    while i < arrangement.len()
        invariant
            av == arrangement.deep_view(),
            i <= arrangement.len(),
            order@.len() == i,
            forall|k: int| 0 <= k < order@.len() ==> (#[trigger] order@[k] as int) < i,
            order@.map_values(|j: usize| av[j as int]) == by_size(av.take(i as int)),
        decreases arrangement.len() - i,
    {
        let ghost s = by_size(av.take(i as int));
        let n = arrangement[i].0.len();
        assert(av[i as int].0.len() == n);
        let mut p: usize = 0;
        while p < order.len() && arrangement[order[p]].0.len() <= n
            invariant
                av == arrangement.deep_view(),
                s == order@.map_values(|j: usize| av[j as int]),
                forall|k: int| 0 <= k < order@.len() ==> (#[trigger] order@[k] as int) < i,
                i < arrangement.len(),
                p <= order.len(),
                size_position(s, n as nat, 0) == size_position(s, n as nat, p as int),
            decreases order.len() - p,
        {
            assert(s[p as int] == av[order@[p as int] as int]);
            assert(av[order@[p as int] as int].0.len() == arrangement@[order@[p as int] as int].0@.len());
            p += 1;
        }
        if p < order.len() {
            assert(s[p as int] == av[order@[p as int] as int]);
            assert(av[order@[p as int] as int].0.len() == arrangement@[order@[p as int] as int].0@.len());
        }
        let ghost before = order@;
        order.insert(p, i);
        proof {
            let t = av.take(i + 1);
            assert(t.drop_last() =~= av.take(i as int));
            assert(t.last() == av[i as int]);
            assert(order@.map_values(|j: usize| av[j as int]) =~= s.insert(p as int, av[i as int]));
        }
        i += 1;
    }
    assert(av.take(arrangement.len() as int) =~= av);
    order
}

/// The report of the distribution `arrangement`, with the requirements
/// `remaining_requirements` still open and the courses `remaining_courses` left over; a
/// course is shown by its name in `names`, at its identifier.
pub fn report_of_arrangement(
    names: &Vec<String>,
    arrangement: &Arrangement,
    remaining_requirements: &CategoryRequirements,
    remaining_courses: &CoursesWithCats,
) -> (r: String)
    requires
        forall|e: int, j: int|
            0 <= e < arrangement@.len() && 0 <= j < arrangement@[e].1@.len() ==> (
            #[trigger] arrangement@[e].1@[j].0 as int) < names@.len(),
        forall|j: int|
            0 <= j < remaining_courses@.len() ==> (#[trigger] remaining_courses@[j].0 as int)
                < names@.len(),
    ensures
        r@ == arrangement_report(
            strings_view(names@),
            arrangement.deep_view(),
            remaining_requirements.deep_view(),
            remaining_courses.deep_view(),
        ),
        forall|e: int, j: int|
            0 <= e < arrangement@.len() && 0 <= j < arrangement@[e].1@.len() ==> occurs_in(
                "  '"@ + names@[arrangement@[e].1@[j].0 as int]@ + "' ("@ + category_list(
                    (#[trigger] arrangement@[e].1@[j]).1@,
                    "|"@,
                ) + ")"@,
                r@,
            ),
        forall|k: int|
            0 <= k < remaining_courses@.len() ==> occurs_in(
                "  "@ + names@[remaining_courses@[k].0 as int]@ + " ("@ + category_list(
                    #[trigger] remaining_courses@[k].1@,
                    "|"@,
                ) + ")\n"@,
                r@,
            ),
        forall|k: int|
            0 <= k < remaining_requirements@.len() ==> occurs_in(
                "  "@ + category_list(#[trigger] remaining_requirements@[k].0@, " | "@) + " -> "@
                    + decimal_text(remaining_requirements@[k].1 as nat) + "\n"@,
                r@,
            ),
{
    let ghost nv = strings_view(names@);
    let ghost av = arrangement.deep_view();
    let mut s = String::new();
    s.append("\nYour optimal arrangement is:\n\n");
    let ghost head = s@;
    let order = size_order(arrangement);
    let ghost sorted = by_size(av);
    let mut k: usize = 0;
    assert(head + groups_text(nv, sorted.take(0)) =~= head);
    while k < order.len()
        invariant
            nv == strings_view(names@),
            av == arrangement.deep_view(),
            sorted == by_size(av),
            order@.len() == arrangement@.len(),
            forall|t: int| 0 <= t < order@.len() ==> (#[trigger] order@[t] as int) < arrangement@.len(),
            order@.map_values(|i: usize| av[i as int]) == sorted,
            forall|e: int, j: int|
                0 <= e < arrangement@.len() && 0 <= j < arrangement@[e].1@.len() ==> (
                #[trigger] arrangement@[e].1@[j].0 as int) < names@.len(),
            k <= order.len(),
            s@ == head + groups_text(nv, sorted.take(k as int)),
        decreases order.len() - k,
    {
        let e = order[k];
        let ghost before = s@;
        proof {
            assert(sorted[k as int] == av[e as int]);
            assert(av[e as int] == (arrangement@[e as int].0@, arrangement@[e as int].1.deep_view()));
        }
        push_categories(&mut s, &arrangement[e].0, " | ");
        s.append(" ->\n");
        push_course_lines(&mut s, names, &arrangement[e].1);
        s.append("\n\n");
        proof {
            assert(s@ =~= before + group_text(nv, sorted[k as int]));
            let t = sorted.take(k + 1);
            assert(t.drop_last() =~= sorted.take(k as int));
            assert(t.last() == sorted[k as int]);
            assert(s@ =~= head + groups_text(nv, t));
        }
        k += 1;
    }
    assert(sorted.take(order.len() as int) =~= sorted);
    s.append("\n");
    let ghost after_groups = s@;
    let ghost rv = remaining_requirements.deep_view();
    if remaining_requirements.len() == 0 {
        s.append("Hurray! No requirements left!\n\n");
    } else {
        s.append("Requirements left:\n\n");
        let ghost top = s@;
        let mut k: usize = 0;
        assert(top + requirement_lines(rv.take(0)) =~= top);
        while k < remaining_requirements.len()
            invariant
                rv == remaining_requirements.deep_view(),
                k <= remaining_requirements.len(),
                s@ == top + requirement_lines(rv.take(k as int)),
            decreases remaining_requirements.len() - k,
        {
            let ghost before = s@;
            s.append("  ");
            push_categories(&mut s, &remaining_requirements[k].0, " | ");
            s.append(" -> ");
            push_decimal(&mut s, remaining_requirements[k].1);
            s.append("\n");
            proof {
                assert(rv[k as int] == (remaining_requirements@[k as int].0@, remaining_requirements@[k as int].1));
                assert(s@ =~= before + requirement_line(rv[k as int]));
                let t = rv.take(k + 1);
                assert(t.drop_last() =~= rv.take(k as int));
                assert(t.last() == rv[k as int]);
                assert(s@ =~= top + requirement_lines(t));
            }
            k += 1;
        }
        assert(rv.take(remaining_requirements.len() as int) =~= rv);
    }
    s.append("\n\n");
    let ghost lv = remaining_courses.deep_view();
    if remaining_courses.len() == 0 {
        s.append("You have no unmapped courses, i.e. no courses left that couldn't fit in a category requirement.\n\n");
    } else {
        s.append("Courses left:\n\n");
        let ghost top = s@;
        let mut k: usize = 0;
        assert(top + left_lines(nv, lv.take(0)) =~= top);
        while k < remaining_courses.len()
            invariant
                nv == strings_view(names@),
                lv == remaining_courses.deep_view(),
                forall|j: int|
                    0 <= j < remaining_courses@.len() ==> (#[trigger] remaining_courses@[j].0 as int)
                        < names@.len(),
                k <= remaining_courses.len(),
                s@ == top + left_lines(nv, lv.take(k as int)),
            decreases remaining_courses.len() - k,
        {
            let ghost before = s@;
            let id = remaining_courses[k].0;
            let count = names.len();
            assert((id as int) < count);
            assert((id as usize) as int == id as int);
            s.append("  ");
            s.append(names[id as usize].as_str());
            s.append(" (");
            push_categories(&mut s, &remaining_courses[k].1, "|");
            s.append(")\n");
            proof {
                assert(lv[k as int] == (remaining_courses@[k as int].0, remaining_courses@[k as int].1@));
                assert(nv[id as int] == names@[id as int]@);
                assert(s@ =~= before + left_line(nv, lv[k as int]));
                let t = lv.take(k + 1);
                assert(t.drop_last() =~= lv.take(k as int));
                assert(t.last() == lv[k as int]);
                assert(s@ =~= top + left_lines(nv, t));
            }
            k += 1;
        }
        assert(lv.take(remaining_courses.len() as int) =~= lv);
    }
    assert(s@ =~= arrangement_report(nv, av, rv, lv));
    assert forall|e: int, j: int|
        0 <= e < arrangement@.len() && 0 <= j < arrangement@[e].1@.len() implies occurs_in(
        "  '"@ + names@[arrangement@[e].1@[j].0 as int]@ + "' ("@ + category_list(
            (#[trigger] arrangement@[e].1@[j]).1@,
            "|"@,
        ) + ")"@,
        s@,
    ) by {
        assert(av[e] == (arrangement@[e].0@, arrangement@[e].1.deep_view()));
        assert(av[e].1[j] == (arrangement@[e].1@[j].0, arrangement@[e].1@[j].1@));
        law_every_placed_course_listed(nv, av, rv, lv, e, j);
        assert(nv[arrangement@[e].1@[j].0 as int] == names@[arrangement@[e].1@[j].0 as int]@);
    }
    assert forall|k: int| 0 <= k < remaining_courses@.len() implies occurs_in(
        "  "@ + names@[remaining_courses@[k].0 as int]@ + " ("@ + category_list(
            #[trigger] remaining_courses@[k].1@,
            "|"@,
        ) + ")\n"@,
        s@,
    ) by {
        law_every_left_course_listed(nv, av, rv, lv, k);
        assert(lv[k] == (remaining_courses@[k].0, remaining_courses@[k].1@));
        assert(nv[remaining_courses@[k].0 as int] == names@[remaining_courses@[k].0 as int]@);
    }
    assert forall|k: int| 0 <= k < remaining_requirements@.len() implies occurs_in(
        "  "@ + category_list(#[trigger] remaining_requirements@[k].0@, " | "@) + " -> "@
            + decimal_text(remaining_requirements@[k].1 as nat) + "\n"@,
        s@,
    ) by {
        law_every_open_requirement_listed(nv, av, rv, lv, k);
        assert(rv[k] == (remaining_requirements@[k].0@, remaining_requirements@[k].1));
    }
    s
}

} // verus!
