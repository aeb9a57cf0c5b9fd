//! The student's passed electives, each with the categories of its elective, put in the
//! order in which the arranger takes them: by year, exam session and name, one course for
//! each such key.

use vstd::prelude::*;
use crate::arrangement_laws::{distinct_ids, ids_increasing};
use crate::category::lemma_categories_deep_view;
use crate::course_arranger::{CategoriesView, CategorySet, CoursesWithCats};
use crate::susi_course::{Course, ExamSession, Semester};
use crate::text::chars_of;

verus! {

broadcast use lemma_categories_deep_view;

/// The place of an exam session in the order of sessions: winter, summer, retakes.
pub open spec fn session_rank(s: ExamSession) -> int {
    match s {
        ExamSession::Regular(Semester::Winter) => 0,
        ExamSession::Regular(Semester::Summer) => 1,
        ExamSession::Elimination => 2,
    }
}

/// Whether the text `a` comes before the text `b`: character by character by code point,
/// a proper prefix first. This is the order of Rust's strings.
pub open spec fn text_less(a: Seq<char>, b: Seq<char>) -> bool
    decreases a.len(),
{
    if b.len() == 0 {
        false
    } else if a.len() == 0 {
        true
    } else if a[0] != b[0] {
        (a[0] as u32) < (b[0] as u32)
    } else {
        text_less(a.drop_first(), b.drop_first())
    }
}

/// The key by which courses are ordered and told apart: year, exam session and name.
pub open spec fn course_key(c: Course) -> (u16, ExamSession, Seq<char>) {
    (c.year, c.exam_session, c.name@)
}

/// Whether the course key `a` comes before the course key `b`: by year, then by exam
/// session, then by name.
pub open spec fn key_less(a: (u16, ExamSession, Seq<char>), b: (u16, ExamSession, Seq<char>)) -> bool {
    ||| a.0 < b.0
    ||| a.0 == b.0 && session_rank(a.1) < session_rank(b.1)
    ||| a.0 == b.0 && a.1 == b.1 && text_less(a.2, b.2)
}

/// The place of an exam session in the order of sessions.
fn session_place(s: ExamSession) -> (r: u8)
    ensures
        r as int == session_rank(s),
{
    match s {
        ExamSession::Regular(Semester::Winter) => 0,
        ExamSession::Regular(Semester::Summer) => 1,
        ExamSession::Elimination => 2,
    }
}

/// Whether the text `a` comes before the text `b`.
pub fn text_precedes(a: &str, b: &str) -> (r: bool)
    ensures
        r == text_less(a@, b@),
{
    let x = chars_of(a);
    let y = chars_of(b);
    let mut i: usize = 0;
    assert(x@.skip(0) =~= x@ && y@.skip(0) =~= y@);
    while i < x.len() && i < y.len()
        invariant
            i <= x.len(),
            i <= y.len(),
            x@ == a@,
            y@ == b@,
            text_less(a@, b@) == text_less(x@.skip(i as int), y@.skip(i as int)),
        decreases x.len() - i,
    {
        let ghost (xs, ys) = (x@.skip(i as int), y@.skip(i as int));
        assert(xs[0] == x@[i as int] && ys[0] == y@[i as int]);
        if x[i] != y[i] {
            return (x[i] as u32) < (y[i] as u32);
        }
        assert(xs.drop_first() =~= x@.skip(i + 1) && ys.drop_first() =~= y@.skip(i + 1));
        i += 1;
    }
    i < y.len()
}

/// Whether the course `a` comes before the course `b`: by year, exam session and name.
pub fn course_precedes(a: &Course, b: &Course) -> (r: bool)
    ensures
        r == key_less(course_key(*a), course_key(*b)),
{
    if a.year != b.year {
        return a.year < b.year;
    }
    let (sa, sb) = (session_place(a.exam_session), session_place(b.exam_session));
    if sa != sb {
        return sa < sb;
    }
    assert(a.exam_session == b.exam_session);
    text_precedes(a.name.as_str(), b.name.as_str())
}

/// Plain form of courses with their categories.
pub open spec fn pairs_view(items: Seq<(Course, CategorySet)>) -> Seq<(Course, CategoriesView)> {
    items.map_values(|p: (Course, CategorySet)| (p.0, p.1@))
}

/// The first position, at or after `i`, whose course does not come before the key.
pub open spec fn course_position(s: Seq<(Course, CategoriesView)>, key: (u16, ExamSession, Seq<char>), i: int) -> int
    decreases s.len() - i,
{
    if i < 0 || i >= s.len() || !key_less(course_key(s[i].0), key) {
        i
    } else {
        course_position(s, key, i + 1)
    }
}

/// `s` with the course `item` put in its place by key, replacing a course with the same key.
pub open spec fn put_course(s: Seq<(Course, CategoriesView)>, item: (Course, CategoriesView)) -> Seq<(Course, CategoriesView)> {
    let p = course_position(s, course_key(item.0), 0);
    if p < s.len() && course_key(s[p].0) == course_key(item.0) {
        s.update(p, item)
    } else {
        s.insert(p, item)
    }
}

/// The courses in order of their keys, one for each key: of several courses with one key,
/// the last is kept, as collecting into a map by key does.
pub open spec fn courses_in_order(items: Seq<(Course, CategoriesView)>) -> Seq<(Course, CategoriesView)>
    decreases items.len(),
{
    if items.len() == 0 {
        Seq::empty()
    } else {
        put_course(courses_in_order(items.drop_last()), items.last())
    }
}

proof fn lemma_course_position(s: Seq<(Course, CategoriesView)>, key: (u16, ExamSession, Seq<char>), i: int)
    requires
        0 <= i <= s.len(),
    ensures
        i <= course_position(s, key, i) <= s.len(),
    decreases s.len() - i,
{
    if i < s.len() && key_less(course_key(s[i].0), key) {
        lemma_course_position(s, key, i + 1);
    }
}

/// The courses in the order in which the arranger takes them, each with the categories of
/// its elective, and the same courses as the arranger knows them: by their position.
pub fn order_for_arranging(items: Vec<(Course, CategorySet)>) -> (r: (Vec<Course>, CoursesWithCats))
    ensures
        r.0@.len() == courses_in_order(pairs_view(items@)).len(),
        r.1@.len() == courses_in_order(pairs_view(items@)).len(),
        forall|k: int|
            0 <= k < r.0@.len() ==> #[trigger] r.0@[k] == courses_in_order(pairs_view(items@))[k].0,
        forall|k: int|
            0 <= k < r.1@.len() ==> #[trigger] r.1.deep_view()[k] == (
                k as u64,
                courses_in_order(pairs_view(items@))[k].1,
            ),
        distinct_ids(r.1.deep_view()),
        ids_increasing(r.1.deep_view()),
{
    let ghost all = pairs_view(items@);
    let mut items = items;
    let mut sorted: Vec<(Course, CategorySet)> = Vec::new();
    assert(all.take(0) =~= Seq::<(Course, CategoriesView)>::empty());
    assert(pairs_view(sorted@) =~= Seq::<(Course, CategoriesView)>::empty());
    while items.len() > 0
        invariant
            items@.len() <= all.len(),
            pairs_view(items@) == all.skip(all.len() - items@.len()),
            pairs_view(sorted@) == courses_in_order(all.take(all.len() - items@.len())),
        decreases items.len(),
    {
        let ghost done = all.len() - items@.len();
        let ghost before_items = items@;
        let item = items.remove(0);
        assert(pairs_view(items@) =~= all.skip(done + 1)) by {
            assert(pairs_view(before_items).drop_first() =~= pairs_view(items@));
        }
        assert(all[done] == (item.0, item.1@)) by {
            assert(pairs_view(before_items)[0] == all.skip(done)[0]);
        }
        assert(all.take(done + 1).drop_last() =~= all.take(done));
        let ghost s = pairs_view(sorted@);
        let ghost key = course_key(item.0);
        let mut p: usize = 0;
        while p < sorted.len() && course_precedes(&sorted[p].0, &item.0)
            invariant
                s == pairs_view(sorted@),
                key == course_key(item.0),
                p <= sorted.len(),
                course_position(s, key, 0) == course_position(s, key, p as int),
            decreases sorted.len() - p,
        {
            assert(s[p as int].0 == sorted@[p as int].0);
            p += 1;
        }
        proof {
            lemma_course_position(s, key, 0);
        }
        let same = p < sorted.len() && sorted[p].0.year == item.0.year && sorted[p].0.exam_session
            == item.0.exam_session && sorted[p].0.name == item.0.name;
        assert(p < sorted.len() ==> s[p as int].0 == sorted@[p as int].0);
        assert(same == (p < s.len() && course_key(s[p as int].0) == key));
        let ghost item_view = (item.0, item.1@);
        if same {
            sorted.set(p, item);
            assert(pairs_view(sorted@) =~= s.update(p as int, item_view));
        } else {
            sorted.insert(p, item);
            assert(pairs_view(sorted@) =~= s.insert(p as int, item_view));
        }
    }
    assert(all.take(all.len() as int) =~= all);
    let ghost ordered = pairs_view(sorted@);
    let mut courses: Vec<Course> = Vec::new();
    let mut with_cats: CoursesWithCats = Vec::new();
    let mut id: u64 = 0;
    let n = sorted.len();
    while sorted.len() > 0
        invariant
            ordered.len() == n,
            sorted@.len() <= n,
            id as int == n - sorted@.len(),
            pairs_view(sorted@) == ordered.skip(id as int),
            courses@.len() == id,
            with_cats@.len() == id,
            forall|k: int| 0 <= k < id ==> #[trigger] courses@[k] == ordered[k].0,
            forall|k: int| 0 <= k < id ==> #[trigger] with_cats.deep_view()[k] == (k as u64, ordered[k].1),
        decreases sorted.len(),
    {
        let ghost before = sorted@;
        let (course, cats) = sorted.remove(0);
        assert(ordered[id as int] == (course, cats@)) by {
            assert(pairs_view(before)[0] == ordered.skip(id as int)[0]);
        }
        assert(pairs_view(sorted@) =~= ordered.skip(id + 1)) by {
            assert(pairs_view(before).drop_first() =~= pairs_view(sorted@));
        }
        courses.push(course);
        let ghost old_cats = with_cats;
        with_cats.push((id, cats));
        proof {
            crate::seq_facts::lemma_push_deep_view(old_cats, with_cats, with_cats@[id as int]);
        }
        id += 1;
    }
    assert forall|i: int, j: int| 0 <= i < j < with_cats.deep_view().len() implies with_cats.deep_view()[i].0
        != with_cats.deep_view()[j].0 by {
        assert(with_cats.deep_view()[i].0 == i as u64 && with_cats.deep_view()[j].0 == j as u64);
    }
    assert forall|i: int, j: int| 0 <= i < j < with_cats.deep_view().len() implies (#[trigger] with_cats.deep_view()[i]).0
        < (#[trigger] with_cats.deep_view()[j]).0 by {
        assert(with_cats.deep_view()[i].0 == i as u64 && with_cats.deep_view()[j].0 == j as u64);
    }
    (courses, with_cats)
}

/// No text comes before itself.
pub proof fn lemma_text_irreflexive(a: Seq<char>)
    ensures
        !text_less(a, a),
    decreases a.len(),
{
    if a.len() > 0 {
        lemma_text_irreflexive(a.drop_first());
    }
}

/// Of two different texts, one comes before the other.
pub proof fn lemma_text_total(a: Seq<char>, b: Seq<char>)
    ensures
        a != b ==> text_less(a, b) || text_less(b, a),
    decreases a.len(),
{
    if a.len() > 0 && b.len() > 0 && a[0] == b[0] {
        lemma_text_total(a.drop_first(), b.drop_first());
        if a.drop_first() == b.drop_first() {
            assert(a =~= seq![a[0]] + a.drop_first());
            assert(b =~= seq![b[0]] + b.drop_first());
        }
    } else if a.len() == 0 && b.len() == 0 {
        assert(a =~= b);
    } else if a.len() > 0 && b.len() > 0 {
        vstd::utf8::char_u32_cast(a[0], a[0] as u32);
        vstd::utf8::char_u32_cast(b[0], b[0] as u32);
    }
}

/// The order of texts is transitive.
pub proof fn lemma_text_transitive(a: Seq<char>, b: Seq<char>, c: Seq<char>)
    requires
        text_less(a, b),
        text_less(b, c),
    ensures
        text_less(a, c),
    decreases a.len(),
{
    if a.len() > 0 && a[0] == b[0] && b[0] == c[0] {
        lemma_text_transitive(a.drop_first(), b.drop_first(), c.drop_first());
    }
}

proof fn lemma_session_rank_injective(a: ExamSession, b: ExamSession)
    ensures
        session_rank(a) == session_rank(b) ==> a == b,
{
    match a {
        ExamSession::Regular(Semester::Winter) => {},
        ExamSession::Regular(Semester::Summer) => {},
        ExamSession::Elimination => {},
    }
}

/// The courses come in strictly increasing order of their keys.
pub open spec fn keys_ordered(s: Seq<(Course, CategoriesView)>) -> bool {
    forall|i: int, j: int|
        0 <= i < j < s.len() ==> key_less(course_key(#[trigger] s[i].0), course_key(#[trigger] s[j].0))
}

proof fn lemma_key_order(
    a: (u16, ExamSession, Seq<char>),
    b: (u16, ExamSession, Seq<char>),
    c: (u16, ExamSession, Seq<char>),
)
    ensures
        !key_less(a, a),
        a != b ==> key_less(a, b) || key_less(b, a),
        key_less(a, b) && key_less(b, c) ==> key_less(a, c),
{
    lemma_text_irreflexive(a.2);
    lemma_text_total(a.2, b.2);
    lemma_session_rank_injective(a.1, b.1);
    if key_less(a, b) && key_less(b, c) && a.0 == b.0 && b.0 == c.0 && a.1 == b.1 && b.1 == c.1 {
        lemma_text_transitive(a.2, b.2, c.2);
    }
}

proof fn lemma_put_course_ordered(s: Seq<(Course, CategoriesView)>, item: (Course, CategoriesView))
    requires
        keys_ordered(s),
    ensures
        keys_ordered(put_course(s, item)),
{
    let key = course_key(item.0);
    lemma_course_position(s, key, 0);
    lemma_position_below(s, key, 0);
    let p = course_position(s, key, 0);
    let r = put_course(s, item);
    if p < s.len() && course_key(s[p].0) == key {
        assert forall|i: int, j: int| 0 <= i < j < r.len() implies key_less(
            course_key(#[trigger] r[i].0),
            course_key(#[trigger] r[j].0),
        ) by {
            assert(course_key(r[i].0) == course_key(s[i].0) && course_key(r[j].0) == course_key(s[j].0));
        }
    } else {
        if p < s.len() {
            lemma_key_order(course_key(s[p].0), key, key);
        }
        assert forall|i: int, j: int| 0 <= i < j < r.len() implies key_less(
            course_key(#[trigger] r[i].0),
            course_key(#[trigger] r[j].0),
        ) by {
            if j < p {
                assert(r[i] == s[i] && r[j] == s[j]);
            } else if j == p {
                assert(r[i] == s[i] && r[j] == item);
            } else if i < p {
                assert(r[i] == s[i] && r[j] == s[j - 1]);
                if j - 1 > p {
                    lemma_key_order(key, course_key(s[p].0), course_key(s[j - 1].0));
                }
                lemma_key_order(course_key(s[i].0), key, course_key(s[j - 1].0));
            } else if i == p {
                assert(r[i] == item && r[j] == s[j - 1]);
                if j - 1 > p {
                    lemma_key_order(key, course_key(s[p].0), course_key(s[j - 1].0));
                }
            } else {
                assert(r[i] == s[i - 1] && r[j] == s[j - 1]);
            }
        }
    }
}

proof fn lemma_position_below(s: Seq<(Course, CategoriesView)>, key: (u16, ExamSession, Seq<char>), i: int)
    requires
        0 <= i <= s.len(),
    ensures
        forall|t: int| i <= t < course_position(s, key, i) ==> key_less(course_key(#[trigger] s[t].0), key),
        course_position(s, key, i) < s.len() ==> !key_less(course_key(s[course_position(s, key, i)].0), key),
    decreases s.len() - i,
{
    if i < s.len() && key_less(course_key(s[i].0), key) {
        lemma_position_below(s, key, i + 1);
    }
}

proof fn lemma_put_course_keeps(
    s: Seq<(Course, CategoriesView)>,
    item: (Course, CategoriesView),
    x: (Course, CategoriesView),
)
    ensures
        put_course(s, item).contains(item),
        s.contains(x) && course_key(x.0) != course_key(item.0) ==> put_course(s, item).contains(x),
{
    lemma_course_position(s, course_key(item.0), 0);
    let p = course_position(s, course_key(item.0), 0);
    let r = put_course(s, item);
    assert(r[p] == item);
    if s.contains(x) && course_key(x.0) != course_key(item.0) {
        let m = choose|m: int| 0 <= m < s.len() && s[m] == x;
        if p < s.len() && course_key(s[p].0) == course_key(item.0) {
            assert(r[m] == x);
        } else if m < p {
            assert(r[m] == x);
        } else {
            assert(r[m + 1] == x);
        }
    }
}

/// Every course given to `order_for_arranging` that no later course shares year, exam
/// session and name with is among the courses it orders, with its categories: of several
/// courses with one key the last is kept, and nothing else is lost.
pub proof fn law_last_course_of_each_key_kept(items: Seq<(Course, CategoriesView)>, j: int)
    requires
        0 <= j < items.len(),
        forall|t: int| j < t < items.len() ==> course_key(#[trigger] items[t].0) != course_key(items[j].0),
    ensures
        courses_in_order(items).contains(items[j]),
    decreases items.len(),
{
    let d = items.drop_last();
    if j == items.len() - 1 {
        lemma_put_course_keeps(courses_in_order(d), items.last(), items[j]);
    } else {
        assert forall|t: int| j < t < d.len() implies course_key(#[trigger] d[t].0) != course_key(d[j].0) by {
            assert(d[t] == items[t] && d[j] == items[j]);
        }
        law_last_course_of_each_key_kept(d, j);
        assert(d[j] == items[j]);
        assert(course_key(items[items.len() - 1].0) != course_key(items[j].0));
        lemma_put_course_keeps(courses_in_order(d), items.last(), items[j]);
    }
}

/// The courses that `order_for_arranging` gives the arranger come in strictly increasing
/// order of year, exam session and name, so that no two share these, as in a map keyed by
/// them.
pub proof fn law_one_course_per_key(items: Seq<(Course, CategoriesView)>)
    ensures
        keys_ordered(courses_in_order(items)),
        forall|i: int, j: int|
            0 <= i < j < courses_in_order(items).len() ==> course_key(#[trigger] courses_in_order(items)[i].0)
                != course_key(#[trigger] courses_in_order(items)[j].0),
    decreases items.len(),
{
    let r = courses_in_order(items);
    if items.len() > 0 {
        law_one_course_per_key(items.drop_last());
        lemma_put_course_ordered(courses_in_order(items.drop_last()), items.last());
    }
    assert forall|i: int, j: int| 0 <= i < j < r.len() implies course_key(#[trigger] r[i].0) != course_key(
        #[trigger] r[j].0,
    ) by {
        lemma_key_order(course_key(r[i].0), course_key(r[j].0), course_key(r[j].0));
    }
}

/// Equality of courses (`==`: same year, exam session and name) agrees with their order:
/// two courses are equal exactly when neither comes before the other by
/// `course_precedes`, and the order is irreflexive and transitive.
pub proof fn law_course_equality_agrees_with_order(a: Course, b: Course, c: Course)
    ensures
        (a.year == b.year && a.exam_session == b.exam_session && a.name@ == b.name@) <==> (!key_less(
            course_key(a),
            course_key(b),
        ) && !key_less(course_key(b), course_key(a))),
        !key_less(course_key(a), course_key(a)),
        key_less(course_key(a), course_key(b)) && key_less(course_key(b), course_key(c)) ==> key_less(
            course_key(a),
            course_key(c),
        ),
{
    lemma_key_order(course_key(a), course_key(b), course_key(c));
    lemma_key_order(course_key(b), course_key(a), course_key(a));
}

} // verus!
