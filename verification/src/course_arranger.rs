//! Distribution of passed elective courses over the elective requirements of a specialty.
//!
//! A requirement is a set of categories together with the number of courses that must be
//! passed in any of them. Courses are known by an identifier and carry the set of
//! categories that they belong to. The search assigns courses one at a time, always
//! the first course (by identifier) that still fits an open requirement, and branches over
//! every requirement that the course fits, trying the requirements with the fewest courses
//! left first. Every branch ends when no requirement is open or no remaining course fits,
//! and each end is reported with what was assigned, what is still required and which
//! courses were not used.

use vstd::prelude::*;
use crate::category::{ElectiveCategory, category_rank, lemma_categories_deep_view, all_categories};
use crate::seq_facts::{
    lemma_push_deep_view, lemma_insert_deep_view, lemma_update_deep_view, lemma_remove_deep_view,
    lemma_filter_take_step, lemma_append_deep_view,
};

verus! {

broadcast use lemma_categories_deep_view;

/// A set of categories, kept in category order without repetitions (`category_set` makes
/// them so; `arrangement_laws::is_category_set` states the form).
pub type CategorySet = Vec<ElectiveCategory>;

/// Courses with their categories, kept in increasing order of the course identifier
/// (`pairing::order_for_arranging` makes them so; `arrangement_laws::arranger_input_ok`
/// states the form, and `law_search_keeps_its_forms` that the search keeps it).
pub type CoursesWithCats = Vec<(u64, CategorySet)>;

/// Requirements with the number of courses still needed in each, kept in increasing
/// (lexicographic) order of the category sets (`requirements_from` makes them so;
/// `arrangement_laws::arranger_input_ok` states the form, and `law_search_keeps_its_forms`
/// that the search keeps it).
pub type CategoryRequirements = Vec<(CategorySet, u8)>;

/// The courses assigned to each requirement, in increasing order of the category sets.
pub type Arrangement = Vec<(CategorySet, CoursesWithCats)>;

/// One finished branch of the search: what was assigned, and then what is still required
/// and which courses were left over.
pub type Outcome = (Arrangement, (CategoryRequirements, CoursesWithCats));

/// All finished branches of the search, in the order in which the search reaches them.
pub type Conclusion = Vec<Outcome>;

/// Mathematical form of a set of categories.
pub type CategoriesView = Seq<ElectiveCategory>;

/// Mathematical form of courses with their categories.
pub type CoursesView = Seq<(u64, CategoriesView)>;

/// Mathematical form of requirements.
pub type RequirementsView = Seq<(CategoriesView, u8)>;

/// Mathematical form of an arrangement.
pub type ArrangementView = Seq<(CategoriesView, CoursesView)>;

/// Mathematical form of an outcome.
pub type OutcomeView = (ArrangementView, (RequirementsView, CoursesView));

/// Whether two sets of categories share a category.
pub open spec fn intersects(a: CategoriesView, b: CategoriesView) -> bool {
    exists|i: int, j: int| 0 <= i < a.len() && 0 <= j < b.len() && a[i] == b[j]
}

/// Whether a course with categories `cats` fits some requirement in `reqs`.
pub open spec fn fits(cats: CategoriesView, reqs: RequirementsView) -> bool {
    exists|k: int| 0 <= k < reqs.len() && intersects(reqs[k].0, cats)
}

/// The first course, at or after position `i`, that fits a requirement.
pub open spec fn first_fit_from(courses: CoursesView, reqs: RequirementsView, i: int) -> Option<
    int,
>
    decreases courses.len() - i,
{
    if i >= courses.len() {
        None
    } else if fits(courses[i].1, reqs) {
        Some(i)
    } else {
        first_fit_from(courses, reqs, i + 1)
    }
}

/// The predicate "this requirement shares a category with `cats`".
pub open spec fn meets(cats: CategoriesView) -> spec_fn((CategoriesView, u8)) -> bool {
    |r: (CategoriesView, u8)| intersects(r.0, cats)
}

/// The predicate "this requirement has `c` courses left".
pub open spec fn has_count(c: int) -> spec_fn((CategoriesView, u8)) -> bool {
    |r: (CategoriesView, u8)| r.1 == c
}

/// The requirements that a course with categories `cats` could count towards.
pub open spec fn fitting_requirements(reqs: RequirementsView, cats: CategoriesView) -> RequirementsView {
    reqs.filter(meets(cats))
}

/// The requirements with fewer than `c` courses left, grouped by that number in
/// increasing order and otherwise in their given order.
pub open spec fn with_count_below(reqs: RequirementsView, c: int) -> RequirementsView
    decreases c,
{
    if c <= 0 {
        Seq::empty()
    } else {
        with_count_below(reqs, c - 1) + reqs.filter(has_count(c - 1))
    }
}

/// The requirements stably sorted by the number of courses left.
pub open spec fn sorted_by_count(reqs: RequirementsView) -> RequirementsView {
    with_count_below(reqs, 256)
}

/// The requirements after one more course counted towards the requirement `key`:
/// its number drops by one, and the requirement goes once nothing is left of it.
pub open spec fn decrement(reqs: RequirementsView, key: CategoriesView) -> RequirementsView
    decreases reqs.len(),
{
    if reqs.len() == 0 {
        reqs
    } else {
        let init = decrement(reqs.drop_last(), key);
        let r = reqs.last();
        if r.0 == key {
            if r.1 > 1 {
                init.push((r.0, (r.1 - 1) as u8))
            } else {
                init
            }
        } else {
            init.push(r)
        }
    }
}

/// Lexicographic order of category sets, categories compared by their rank.
pub open spec fn lex_less(a: CategoriesView, b: CategoriesView) -> bool
    decreases a.len(),
{
    if b.len() == 0 {
        false
    } else if a.len() == 0 {
        true
    } else if category_rank(a[0]) != category_rank(b[0]) {
        category_rank(a[0]) < category_rank(b[0])
    } else {
        lex_less(a.drop_first(), b.drop_first())
    }
}

/// The first position, at or after `i`, whose key is not below `key`.
pub open spec fn key_position(arr: ArrangementView, key: CategoriesView, i: int) -> int
    decreases arr.len() - i,
{
    if i >= arr.len() || !lex_less(arr[i].0, key) {
        i
    } else {
        key_position(arr, key, i + 1)
    }
}

/// The first position, at or after `i`, whose course identifier is not below `id`.
pub open spec fn id_position(m: CoursesView, id: u64, i: int) -> int
    decreases m.len() - i,
{
    if i >= m.len() || m[i].0 >= id {
        i
    } else {
        id_position(m, id, i + 1)
    }
}

/// `m` with `course` put in its place by identifier (replacing a course of the same identifier).
pub open spec fn add_course(m: CoursesView, course: (u64, CategoriesView)) -> CoursesView {
    let p = id_position(m, course.0, 0);
    if p < m.len() && m[p].0 == course.0 {
        m.update(p, course)
    } else {
        m.insert(p, course)
    }
}

/// `arr` with `course` assigned to the requirement `key`.
pub open spec fn assign(arr: ArrangementView, key: CategoriesView, course: (u64, CategoriesView)) -> ArrangementView {
    let p = key_position(arr, key, 0);
    if p < arr.len() && arr[p].0 == key {
        arr.update(p, (key, add_course(arr[p].1, course)))
    } else {
        arr.insert(p, (key, seq![course]))
    }
}

/// The first fitting course lies within the courses.
pub proof fn lemma_first_fit_range(courses: CoursesView, reqs: RequirementsView, j: int)
    requires
        0 <= j,
    ensures
        first_fit_from(courses, reqs, j) matches Some(i) ==> j <= i < courses.len() && fits(
            courses[i].1,
            reqs,
        ),
        first_fit_from(courses, reqs, j) is None ==> forall|i: int|
            j <= i < courses.len() ==> !fits(#[trigger] courses[i].1, reqs),
    decreases courses.len() - j,
{
    if j < courses.len() && !fits(courses[j].1, reqs) {
        lemma_first_fit_range(courses, reqs, j + 1);
        if first_fit_from(courses, reqs, j + 1) is None {
            assert forall|i: int| j <= i < courses.len() implies !fits(
                #[trigger] courses[i].1,
                reqs,
            ) by {
                if i > j {
                }
            }
        }
    }
}

/// Every way the search can go on from the arrangement `arr`, with the courses `courses`
/// still to place and the requirements `reqs` still open.
pub open spec fn arrangements(arr: ArrangementView, courses: CoursesView, reqs: RequirementsView) -> Seq<
    OutcomeView,
>
    decreases courses.len() + 1, 0int,
{
    if reqs.len() == 0 {
        seq![(arr, (reqs, courses))]
    } else {
        match first_fit_from(courses, reqs, 0) {
            None => seq![(arr, (reqs, courses))],
            Some(i) => {
                proof {
                    lemma_first_fit_range(courses, reqs, 0);
                }
                outcomes_over(
                    arr,
                    courses.remove(i),
                    reqs,
                    courses[i],
                    sorted_by_count(fitting_requirements(reqs, courses[i].1)),
                )
            },
        }
    }
}

/// The outcomes of assigning `course` to each requirement of `options` in turn,
/// and then going on with the courses `rest`.
pub open spec fn outcomes_over(
    arr: ArrangementView,
    rest: CoursesView,
    reqs: RequirementsView,
    course: (u64, CategoriesView),
    options: RequirementsView,
) -> Seq<OutcomeView>
    decreases rest.len() + 1, options.len() + 1,
{
    if options.len() == 0 {
        Seq::empty()
    } else {
        outcomes_over(arr, rest, reqs, course, options.drop_last()) + arrangements(
            assign(arr, options.last().0, course),
            rest,
            decrement(reqs, options.last().0),
        )
    }
}

/// A copy of a set of categories.
fn copy_categories(v: &CategorySet) -> (r: CategorySet)
    ensures
        r@ == v@,
{
    let mut r: CategorySet = Vec::new();
    let mut i: usize = 0;
    while i < v.len()
        invariant
            i <= v.len(),
            r@ == v@.take(i as int),
        decreases v.len() - i,
    {
        r.push(v[i]);
        i += 1;
        assert(r@ =~= v@.take(i as int));
    }
    assert(v@.take(v.len() as int) =~= v@);
    r
}

/// A copy of courses with their categories.
fn copy_courses(v: &CoursesWithCats) -> (r: CoursesWithCats)
    ensures
        r.deep_view() == v.deep_view(),
{
    let mut r: CoursesWithCats = Vec::new();
    let mut i: usize = 0;
    while i < v.len()
        invariant
            i <= v.len(),
            r.deep_view() == v.deep_view().take(i as int),
        decreases v.len() - i,
    {
        let cats = copy_categories(&v[i].1);
        let ghost before = r;
        r.push((v[i].0, cats));
        proof {
            lemma_push_deep_view(before, r, r@.last());
        }
        i += 1;
        assert(r.deep_view() =~= v.deep_view().take(i as int));
    }
    assert(v.deep_view().take(v.len() as int) =~= v.deep_view());
    r
}

/// A copy of requirements.
fn copy_requirements(v: &CategoryRequirements) -> (r: CategoryRequirements)
    ensures
        r.deep_view() == v.deep_view(),
{
    let mut r: CategoryRequirements = Vec::new();
    let mut i: usize = 0;
    while i < v.len()
        invariant
            i <= v.len(),
            r.deep_view() == v.deep_view().take(i as int),
        decreases v.len() - i,
    {
        let cats = copy_categories(&v[i].0);
        let ghost before = r;
        r.push((cats, v[i].1));
        proof {
            lemma_push_deep_view(before, r, r@.last());
        }
        i += 1;
        assert(r.deep_view() =~= v.deep_view().take(i as int));
    }
    assert(v.deep_view().take(v.len() as int) =~= v.deep_view());
    r
}

/// A copy of an arrangement.
fn copy_arrangement(v: &Arrangement) -> (r: Arrangement)
    ensures
        r.deep_view() == v.deep_view(),
{
    let mut r: Arrangement = Vec::new();
    let mut i: usize = 0;
    while i < v.len()
        invariant
            i <= v.len(),
            r.deep_view() == v.deep_view().take(i as int),
        decreases v.len() - i,
    {
        let cats = copy_categories(&v[i].0);
        let courses = copy_courses(&v[i].1);
        let ghost before = r;
        r.push((cats, courses));
        proof {
            lemma_push_deep_view(before, r, r@.last());
        }
        i += 1;
        assert(r.deep_view() =~= v.deep_view().take(i as int));
    }
    assert(v.deep_view().take(v.len() as int) =~= v.deep_view());
    r
}

/// Whether two sets of categories share a category.
pub fn categories_intersect(a: &CategorySet, b: &CategorySet) -> (r: bool)
    ensures
        r == intersects(a@, b@),
{
    let mut i: usize = 0;
    while i < a.len()
        invariant
            i <= a.len(),
            forall|x: int, y: int| 0 <= x < i && 0 <= y < b@.len() ==> a@[x] != b@[y],
        decreases a.len() - i,
    {
        let mut j: usize = 0;
        while j < b.len()
            invariant
                i < a.len(),
                j <= b.len(),
                forall|x: int, y: int| 0 <= x < i && 0 <= y < b@.len() ==> a@[x] != b@[y],
                forall|y: int| 0 <= y < j ==> a@[i as int] != b@[y],
            decreases b.len() - j,
        {
            if a[i] == b[j] {
                return true;
            }
            j += 1;
        }
        i += 1;
    }
    false
}

/// Whether a course with categories `cats` fits some requirement.
fn fits_requirements(cats: &CategorySet, reqs: &CategoryRequirements) -> (r: bool)
    ensures
        r == fits(cats@, reqs.deep_view()),
{
    let mut k: usize = 0;
    while k < reqs.len()
        invariant
            k <= reqs.len(),
            forall|x: int| 0 <= x < k ==> !intersects(#[trigger] reqs.deep_view()[x].0, cats@),
        decreases reqs.len() - k,
    {
        if categories_intersect(&reqs[k].0, cats) {
            assert(reqs.deep_view()[k as int].0 == reqs@[k as int].0@);
            return true;
        }
        assert(reqs.deep_view()[k as int].0 == reqs@[k as int].0@);
        k += 1;
    }
    false
}

/// The position of the first course that fits a requirement.
fn first_fitting(courses: &CoursesWithCats, reqs: &CategoryRequirements) -> (r: Option<usize>)
    ensures
        r matches Some(i) ==> i < courses.len(),
        r == (match first_fit_from(courses.deep_view(), reqs.deep_view(), 0) {
            Some(i) => Some(i as usize),
            None => None::<usize>,
        }),
{
    let mut i: usize = 0;
    while i < courses.len()
        invariant
            i <= courses.len(),
            first_fit_from(courses.deep_view(), reqs.deep_view(), 0) == first_fit_from(
                courses.deep_view(),
                reqs.deep_view(),
                i as int,
            ),
        decreases courses.len() - i,
    {
        assert(courses.deep_view()[i as int].1 == courses@[i as int].1@);
        if fits_requirements(&courses[i].1, reqs) {
            return Some(i);
        }
        i += 1;
    }
    None
}

/// Whether two sets of categories are the same.
pub fn categories_equal(a: &CategorySet, b: &CategorySet) -> (r: bool)
    ensures
        r == (a@ == b@),
{
    if a.len() != b.len() {
        return false;
    }
    let mut i: usize = 0;
    while i < a.len()
        invariant
            a.len() == b.len(),
            i <= a.len(),
            forall|k: int| 0 <= k < i ==> a@[k] == b@[k],
        decreases a.len() - i,
    {
        if a[i] != b[i] {
            return false;
        }
        i += 1;
    }
    assert(a@ =~= b@);
    true
}

/// Whether `a` comes before `b` in the lexicographic order of category sets.
pub fn categories_less(a: &CategorySet, b: &CategorySet) -> (r: bool)
    ensures
        r == lex_less(a@, b@),
{
    let mut i: usize = 0;
    assert(a@.skip(0) =~= a@ && b@.skip(0) =~= b@);
    while i < a.len() && i < b.len()
        invariant
            i <= a.len(),
            i <= b.len(),
            lex_less(a@, b@) == lex_less(a@.skip(i as int), b@.skip(i as int)),
        decreases a.len() - i,
    {
        let ra = a[i].rank();
        let rb = b[i].rank();
        assert(a@.skip(i as int)[0] == a@[i as int] && b@.skip(i as int)[0] == b@[i as int]);
        if ra != rb {
            return ra < rb;
        }
        assert(a@.skip(i as int).drop_first() =~= a@.skip(i + 1));
        assert(b@.skip(i as int).drop_first() =~= b@.skip(i + 1));
        i += 1;
    }
    i < b.len()
}

/// The requirements that share a category with `cats`, in their order.
fn fitting(reqs: &CategoryRequirements, cats: &CategorySet) -> (r: CategoryRequirements)
    ensures
        r.deep_view() == fitting_requirements(reqs.deep_view(), cats@),
{
    let ghost s = reqs.deep_view();
    let mut r: CategoryRequirements = Vec::new();
    let mut i: usize = 0;
    while i < reqs.len()
        invariant
            s == reqs.deep_view(),
            i <= reqs.len(),
            r.deep_view() == s.take(i as int).filter(meets(cats@)),
        decreases reqs.len() - i,
    {
        proof {
            lemma_filter_take_step(s, meets(cats@), i as int);
        }
        if categories_intersect(&reqs[i].0, cats) {
            let key = copy_categories(&reqs[i].0);
            let ghost before = r;
            r.push((key, reqs[i].1));
            proof {
                lemma_push_deep_view(before, r, r@.last());
            }
        }
        i += 1;
    }
    assert(s.take(reqs.len() as int) =~= s);
    r
}

/// The requirements stably sorted by the number of courses left.
fn sort_by_count(reqs: &CategoryRequirements) -> (r: CategoryRequirements)
    ensures
        r.deep_view() == sorted_by_count(reqs.deep_view()),
{
    let ghost s = reqs.deep_view();
    let mut r: CategoryRequirements = Vec::new();
    let mut c: u16 = 0;
    assert(r.deep_view() =~= with_count_below(s, 0));
    while c < 256
        invariant
            s == reqs.deep_view(),
            c <= 256,
            r.deep_view() == with_count_below(s, c as int),
        decreases 256 - c,
    {
        let ghost below = r.deep_view();
        let mut i: usize = 0;
        assert(s.take(0).filter(has_count(c as int)) =~= Seq::<(CategoriesView, u8)>::empty())
            by {
            reveal(Seq::filter);
        }
        assert(r.deep_view() =~= below + s.take(0).filter(has_count(c as int)));
        while i < reqs.len()
            invariant
                s == reqs.deep_view(),
                c < 256,
                i <= reqs.len(),
                r.deep_view() == below + s.take(i as int).filter(has_count(c as int)),
            decreases reqs.len() - i,
        {
            proof {
                lemma_filter_take_step(s, has_count(c as int), i as int);
            }
            if reqs[i].1 as u16 == c {
                let key = copy_categories(&reqs[i].0);
                let ghost before = r;
                r.push((key, reqs[i].1));
                proof {
                    lemma_push_deep_view(before, r, r@.last());
                    assert(r.deep_view() =~= below + s.take(i + 1).filter(has_count(c as int)));
                }
            }
            i += 1;
        }
        assert(s.take(reqs.len() as int) =~= s);
        c += 1;
    }
    r
}

/// The requirements after one more course counted towards the requirement `key`.
fn decrement_requirement(reqs: &CategoryRequirements, key: &CategorySet) -> (r: CategoryRequirements)
    ensures
        r.deep_view() == decrement(reqs.deep_view(), key@),
{
    let ghost s = reqs.deep_view();
    let mut r: CategoryRequirements = Vec::new();
    let mut i: usize = 0;
    assert(s.take(0) =~= Seq::<(CategoriesView, u8)>::empty());
    while i < reqs.len()
        invariant
            s == reqs.deep_view(),
            i <= reqs.len(),
            r.deep_view() == decrement(s.take(i as int), key@),
        decreases reqs.len() - i,
    {
        assert(s.take(i + 1).drop_last() =~= s.take(i as int));
        let cats = copy_categories(&reqs[i].0);
        let count = reqs[i].1;
        let ghost before = r;
        if categories_equal(&reqs[i].0, key) {
            if count > 1 {
                r.push((cats, count - 1));
                proof {
                    lemma_push_deep_view(before, r, r@.last());
                }
            }
        } else {
            r.push((cats, count));
            proof {
                lemma_push_deep_view(before, r, r@.last());
            }
        }
        i += 1;
    }
    assert(s.take(reqs.len() as int) =~= s);
    r
}

/// Where the requirement `key` goes in an arrangement.
fn position_of_key(arr: &Arrangement, key: &CategorySet) -> (p: usize)
    ensures
        p as int == key_position(arr.deep_view(), key@, 0),
        p <= arr.len(),
{
    let mut i: usize = 0;
    while i < arr.len() && categories_less(&arr[i].0, key)
        invariant
            i <= arr.len(),
            key_position(arr.deep_view(), key@, 0) == key_position(arr.deep_view(), key@, i as int),
        decreases arr.len() - i,
    {
        i += 1;
    }
    i
}

/// Where the course `id` goes among courses.
fn position_of_id(m: &CoursesWithCats, id: u64) -> (p: usize)
    ensures
        p as int == id_position(m.deep_view(), id, 0),
        p <= m.len(),
{
    let mut i: usize = 0;
    while i < m.len() && m[i].0 < id
        invariant
            i <= m.len(),
            id_position(m.deep_view(), id, 0) == id_position(m.deep_view(), id, i as int),
        decreases m.len() - i,
    {
        i += 1;
    }
    i
}

/// `m` with `course` put in its place by identifier.
fn with_course(m: &CoursesWithCats, course: &(u64, CategorySet)) -> (r: CoursesWithCats)
    ensures
        r.deep_view() == add_course(m.deep_view(), course.deep_view()),
{
    let p = position_of_id(m, course.0);
    let mut r = copy_courses(m);
    let entry = (course.0, copy_categories(&course.1));
    let ghost before = r;
    if p < m.len() && m[p].0 == course.0 {
        r.set(p, entry);
        proof {
            lemma_update_deep_view(before, r, p as int, entry);
        }
    } else {
        r.insert(p, entry);
        proof {
            lemma_insert_deep_view(before, r, p as int, entry);
        }
    }
    r
}

/// `arr` with `course` assigned to the requirement `key`.
fn assign_course(arr: &Arrangement, key: &CategorySet, course: &(u64, CategorySet)) -> (r: Arrangement)
    ensures
        r.deep_view() == assign(arr.deep_view(), key@, course.deep_view()),
{
    let p = position_of_key(arr, key);
    let mut r = copy_arrangement(arr);
    let ghost before = r;
    if p < arr.len() && categories_equal(&arr[p].0, key) {
        let inner = with_course(&arr[p].1, course);
        let entry = (copy_categories(key), inner);
        r.set(p, entry);
        proof {
            lemma_update_deep_view(before, r, p as int, entry);
        }
    } else {
        let single = vec![(course.0, copy_categories(&course.1))];
        assert(single.deep_view() =~= seq![course.deep_view()]);
        let entry = (copy_categories(key), single);
        r.insert(p, entry);
        proof {
            lemma_insert_deep_view(before, r, p as int, entry);
        }
    }
    r
}

/// The courses without the one at position `i`.
fn without_course(courses: &CoursesWithCats, i: usize) -> (r: CoursesWithCats)
    requires
        i < courses.len(),
    ensures
        r.deep_view() == courses.deep_view().remove(i as int),
{
    let mut r = copy_courses(courses);
    assert(r@.len() == r.deep_view().len() && courses@.len() == courses.deep_view().len());
    let ghost before = r;
    r.remove(i);
    proof {
        lemma_remove_deep_view(before, r, i as int);
    }
    r
}

/// The single outcome that stops the search where it stands.
fn stop_here(arr: &Arrangement, courses: &CoursesWithCats, reqs: &CategoryRequirements) -> (res:
    Conclusion)
    ensures
        res.deep_view() == seq![(arr.deep_view(), (reqs.deep_view(), courses.deep_view()))],
{
    let outcome = (copy_arrangement(arr), (copy_requirements(reqs), copy_courses(courses)));
    let res = vec![outcome];
    assert(res.deep_view() =~= seq![outcome.deep_view()]);
    res
}

/// Every way the search can go on from `arr`, with `courses` still to place and `reqs`
/// still open.
fn search(arr: &Arrangement, courses: &CoursesWithCats, reqs: &CategoryRequirements) -> (res:
    Conclusion)
    ensures
        res.deep_view() == arrangements(arr.deep_view(), courses.deep_view(), reqs.deep_view()),
    decreases courses.len(),
{
    if reqs.len() == 0 {
        return stop_here(arr, courses, reqs);
    }
    match first_fitting(courses, reqs) {
        None => stop_here(arr, courses, reqs),
        Some(i) => {
            proof {
                lemma_first_fit_range(courses.deep_view(), reqs.deep_view(), 0);
            }
            let rest = without_course(courses, i);
            assert(rest@.len() == rest.deep_view().len() && courses@.len()
                == courses.deep_view().len());
            let course = (courses[i].0, copy_categories(&courses[i].1));
            assert(course.deep_view() == courses.deep_view()[i as int]);
            let candidates = fitting(reqs, &courses[i].1);
            let options = sort_by_count(&candidates);
            let ghost opts = options.deep_view();
            let mut res: Conclusion = Vec::new();
            let mut k: usize = 0;
            assert(res.deep_view() =~= outcomes_over(
                arr.deep_view(),
                rest.deep_view(),
                reqs.deep_view(),
                course.deep_view(),
                opts.take(0),
            ));
            while k < options.len()
                invariant
                    k <= options.len(),
                    opts == options.deep_view(),
                    rest@.len() < courses@.len(),
                    res.deep_view() == outcomes_over(
                        arr.deep_view(),
                        rest.deep_view(),
                        reqs.deep_view(),
                        course.deep_view(),
                        opts.take(k as int),
                    ),
                decreases options.len() - k,
            {
                let new_arr = assign_course(arr, &options[k].0, &course);
                let new_reqs = decrement_requirement(reqs, &options[k].0);
                let mut sub = search(&new_arr, &rest, &new_reqs);
                let ghost before = res;
                let ghost sub_before = sub;
                res.append(&mut sub);
                proof {
                    lemma_append_deep_view(before, sub_before, res);
                    assert(opts.take(k + 1).drop_last() =~= opts.take(k as int));
                    assert(opts[k as int].0 == options@[k as int].0@);
                }
                k += 1;
            }
            assert(opts.take(options.len() as int) =~= opts);
            res
        },
    }
}

/// Every distribution that the search finds of the courses `courses_with_cats` over the
/// requirements `category_requirements`, starting from nothing assigned.
pub fn calculate_arrangements(
    courses_with_cats: CoursesWithCats,
    category_requirements: CategoryRequirements,
) -> (res: Conclusion)
    ensures
        res.deep_view() == arrangements(
            Seq::empty(),
            courses_with_cats.deep_view(),
            category_requirements.deep_view(),
        ),
{
    let empty: Arrangement = Vec::new();
    assert(empty.deep_view() =~= Seq::<(CategoriesView, CoursesView)>::empty());
    search(&empty, &courses_with_cats, &category_requirements)
}

/// The outcome with the fewest courses left over; of several such, the first.
pub fn optimal_outcome(conclusion: &Conclusion) -> (r: Option<usize>)
    ensures
        r is None <==> conclusion.len() == 0,
        r matches Some(i) ==> {
            &&& i < conclusion.len()
            &&& forall|j: int|
                0 <= j < conclusion.len() ==> conclusion@[i as int].1.1.len() <= #[trigger] conclusion@[j].1.1.len()
            &&& forall|j: int|
                0 <= j < i ==> conclusion@[i as int].1.1.len() < #[trigger] conclusion@[j].1.1.len()
        },
{
    if conclusion.len() == 0 {
        return None;
    }
    let mut best: usize = 0;
    let mut k: usize = 1;
    while k < conclusion.len()
        invariant
            0 <= best < k <= conclusion.len(),
            forall|j: int|
                0 <= j < k ==> conclusion@[best as int].1.1.len() <= #[trigger] conclusion@[j].1.1.len(),
            forall|j: int|
                0 <= j < best ==> conclusion@[best as int].1.1.len() < #[trigger] conclusion@[j].1.1.len(),
        decreases conclusion.len() - k,
    {
        if conclusion[k].1.1.len() < conclusion[best].1.1.len() {
            best = k;
        }
        k += 1;
    }
    Some(best)
}

/// The predicate "the category is among `cats`".
pub open spec fn among(cats: CategoriesView) -> spec_fn(ElectiveCategory) -> bool {
    |c: ElectiveCategory| cats.contains(c)
}

/// The set of the given categories: each once, in category order.
pub open spec fn category_set_of(cats: CategoriesView) -> CategoriesView {
    all_categories().filter(among(cats))
}

/// The set of the given categories: each once, in category order.
pub fn category_set(cats: &Vec<ElectiveCategory>) -> (r: CategorySet)
    ensures
        r@ == category_set_of(cats@),
{
    let all = ElectiveCategory::iterator();
    let mut r: CategorySet = Vec::new();
    let mut i: usize = 0;
    while i < all.len()
        invariant
            all@ == all_categories(),
            i <= all.len(),
            r@ == all@.take(i as int).filter(among(cats@)),
        decreases all.len() - i,
    {
        proof {
            lemma_filter_take_step(all@, among(cats@), i as int);
        }
        let mut j: usize = 0;
        let mut found = false;
        while j < cats.len()
            invariant
                i < all.len(),
                j <= cats.len(),
                found == exists|t: int| 0 <= t < j && cats@[t] == all@[i as int],
            decreases cats.len() - j,
        {
            if cats[j] == all[i] {
                found = true;
            }
            j += 1;
        }
        if found {
            r.push(all[i]);
        }
        i += 1;
    }
    assert(all@.take(all.len() as int) =~= all@);
    r
}

/// The first position, at or after `i`, whose requirement is not below `key`.
pub open spec fn requirement_position(reqs: RequirementsView, key: CategoriesView, i: int) -> int
    decreases reqs.len() - i,
{
    if i >= reqs.len() || !lex_less(reqs[i].0, key) {
        i
    } else {
        requirement_position(reqs, key, i + 1)
    }
}

/// `reqs` with the requirement `key` asking for `count` courses, put in its place by order
/// (replacing what `key` asked for before).
pub open spec fn put_requirement(reqs: RequirementsView, key: CategoriesView, count: u8) -> RequirementsView {
    let p = requirement_position(reqs, key, 0);
    if p < reqs.len() && reqs[p].0 == key {
        reqs.update(p, (key, count))
    } else {
        reqs.insert(p, (key, count))
    }
}

/// The requirements made of `entries`, each key made a set, later entries of the same set
/// replacing earlier ones.
pub open spec fn requirements_of(entries: Seq<(CategoriesView, u8)>) -> RequirementsView
    decreases entries.len(),
{
    if entries.len() == 0 {
        Seq::empty()
    } else {
        put_requirement(
            requirements_of(entries.drop_last()),
            category_set_of(entries.last().0),
            entries.last().1,
        )
    }
}

/// The requirements made of `entries`, each key made a set, later entries of the same set
/// replacing earlier ones.
pub fn requirements_from(entries: &Vec<(Vec<ElectiveCategory>, u8)>) -> (r: CategoryRequirements)
    ensures
        r.deep_view() == requirements_of(entries.deep_view()),
{
    let ghost e = entries.deep_view();
    let mut r: CategoryRequirements = Vec::new();
    let mut i: usize = 0;
    assert(e.take(0) =~= Seq::<(CategoriesView, u8)>::empty());
    assert(r.deep_view() =~= Seq::<(CategoriesView, u8)>::empty());
    while i < entries.len()
        invariant
            e == entries.deep_view(),
            i <= entries.len(),
            r.deep_view() == requirements_of(e.take(i as int)),
        decreases entries.len() - i,
    {
        assert(e.take(i + 1).drop_last() =~= e.take(i as int));
        assert(e[i as int].0 == entries@[i as int].0@);
        let key = category_set(&entries[i].0);
        let count = entries[i].1;
        let mut p: usize = 0;
        while p < r.len() && categories_less(&r[p].0, &key)
            invariant
                p <= r.len(),
                requirement_position(r.deep_view(), key@, 0) == requirement_position(
                    r.deep_view(),
                    key@,
                    p as int,
                ),
            decreases r.len() - p,
        {
            p += 1;
        }
        assert(r@.len() == r.deep_view().len());
        let ghost before = r;
        if p < r.len() && categories_equal(&r[p].0, &key) {
            r.set(p, (key, count));
            proof {
                lemma_update_deep_view(before, r, p as int, r@[p as int]);
            }
        } else {
            r.insert(p, (key, count));
            proof {
                lemma_insert_deep_view(before, r, p as int, r@[p as int]);
            }
        }
        i += 1;
    }
    assert(e.take(entries.len() as int) =~= e);
    r
}

/// The first position, at or after `i`, of the category `cat` among `counts`, or the number
/// of entries.
pub open spec fn count_position(counts: Seq<(ElectiveCategory, u8)>, cat: ElectiveCategory, i: int) -> int
    decreases counts.len() - i,
{
    if i < 0 || i >= counts.len() || counts[i].0 == cat {
        i
    } else {
        count_position(counts, cat, i + 1)
    }
}

/// What counting the courses one after the other against single-category requirements
/// leaves: a course whose category is still required uses up one of its places (the
/// requirement goes once nothing is left of it) and is done with; any other course stays.
pub open spec fn use_up_single(
    counts: Seq<(ElectiveCategory, u8)>,
    courses: Seq<(Seq<char>, ElectiveCategory)>,
) -> (Seq<(ElectiveCategory, u8)>, Seq<(Seq<char>, ElectiveCategory)>)
    decreases courses.len(),
{
    if courses.len() == 0 {
        (counts, Seq::empty())
    } else {
        let (left, kept) = use_up_single(counts, courses.drop_last());
        let course = courses.last();
        let p = count_position(left, course.1, 0);
        if p < left.len() {
            if left[p].1 > 1 {
                (left.update(p, (course.1, (left[p].1 - 1) as u8)), kept)
            } else {
                (left.remove(p), kept)
            }
        } else {
            (left, kept.push(course))
        }
    }
}

proof fn lemma_count_position(counts: Seq<(ElectiveCategory, u8)>, cat: ElectiveCategory, i: int)
    requires
        0 <= i <= counts.len(),
    ensures
        i <= count_position(counts, cat, i) <= counts.len(),
        count_position(counts, cat, i) < counts.len() ==> counts[count_position(counts, cat, i)].0 == cat,
    decreases counts.len() - i,
{
    if i < counts.len() && counts[i].0 != cat {
        lemma_count_position(counts, cat, i + 1);
    }
}

/// Whether some entry of `counts` is for the category `cat`.
pub open spec fn category_counted(counts: Seq<(ElectiveCategory, u8)>, cat: ElectiveCategory) -> bool {
    exists|t: int| 0 <= t < counts.len() && #[trigger] counts[t].0 == cat
}

proof fn lemma_count_position_absent(counts: Seq<(ElectiveCategory, u8)>, cat: ElectiveCategory, i: int)
    requires
        0 <= i <= counts.len(),
        count_position(counts, cat, i) == counts.len(),
    ensures
        forall|m: int| i <= m < counts.len() ==> (#[trigger] counts[m]).0 != cat,
    decreases counts.len() - i,
{
    if i < counts.len() {
        lemma_count_position_absent(counts, cat, i + 1);
    }
}

/// Counting courses against single-category requirements leaves over only courses whose
/// category no remaining requirement names, each one a course that was counted; what
/// remains of the requirements names only categories that were required to begin with.
pub proof fn law_single_category_leftovers(
    counts: Seq<(ElectiveCategory, u8)>,
    courses: Seq<(Seq<char>, ElectiveCategory)>,
)
    ensures
        forall|k: int, m: int|
            0 <= k < use_up_single(counts, courses).1.len() && 0 <= m < use_up_single(counts, courses).0.len()
                ==> (#[trigger] use_up_single(counts, courses).0[m]).0 != (
            #[trigger] use_up_single(counts, courses).1[k]).1,
        forall|k: int|
            0 <= k < use_up_single(counts, courses).1.len() ==> courses.contains(
                #[trigger] use_up_single(counts, courses).1[k],
            ),
        forall|m: int|
            0 <= m < use_up_single(counts, courses).0.len() ==> category_counted(
                counts,
                (#[trigger] use_up_single(counts, courses).0[m]).0,
            ),
    decreases courses.len(),
{
    if courses.len() == 0 {
        assert forall|m: int| 0 <= m < counts.len() implies category_counted(counts, (#[trigger] counts[m]).0) by {
            assert(counts[m].0 == counts[m].0);
        }
    } else {
        let d = courses.drop_last();
        law_single_category_leftovers(counts, d);
        let (left, kept) = use_up_single(counts, d);
        let course = courses.last();
        lemma_count_position(left, course.1, 0);
        let p = count_position(left, course.1, 0);
        let (l2, k2) = use_up_single(counts, courses);
        assert forall|k: int| 0 <= k < kept.len() implies courses.contains(#[trigger] kept[k]) by {
            let t = choose|t: int| 0 <= t < d.len() && d[t] == kept[k];
            assert(courses[t] == kept[k]);
        }
        if p < left.len() {
            assert(k2 == kept);
            assert forall|m: int| 0 <= m < l2.len() implies exists|i: int| 0 <= i < left.len() && left[i].0 == #[trigger] l2[m].0 by {
                if left[p].1 > 1 {
                    assert(left[m].0 == l2[m].0);
                } else if m < p {
                    assert(left[m].0 == l2[m].0);
                } else {
                    assert(left[m + 1].0 == l2[m].0);
                }
            }
            assert forall|m: int| 0 <= m < l2.len() implies category_counted(counts, (#[trigger] l2[m]).0) by {
                let i = choose|i: int| 0 <= i < left.len() && left[i].0 == l2[m].0;
                assert(category_counted(counts, left[i].0));
            }
            assert forall|k: int, m: int| 0 <= k < k2.len() && 0 <= m < l2.len() implies (#[trigger] l2[m]).0
                != (#[trigger] k2[k]).1 by {
                let i = choose|i: int| 0 <= i < left.len() && left[i].0 == l2[m].0;
                assert(left[i].0 != kept[k].1);
            }
        } else {
            lemma_count_position_absent(left, course.1, 0);
            assert(l2 == left);
            assert forall|k: int, m: int| 0 <= k < k2.len() && 0 <= m < l2.len() implies (#[trigger] l2[m]).0
                != (#[trigger] k2[k]).1 by {
                if k < kept.len() {
                    assert(k2[k] == kept[k]);
                } else {
                    assert(k2[k] == course);
                }
            }
            assert forall|k: int| 0 <= k < k2.len() implies courses.contains(#[trigger] k2[k]) by {
                if k < kept.len() {
                    assert(k2[k] == kept[k]);
                } else {
                    assert(courses[courses.len() - 1] == k2[k]);
                }
            }
        }
    }
}

/// Counts the courses one after the other against requirements of one category each: a
/// course whose category is still required uses up one of its places, and the requirement
/// goes once nothing is left of it; the other courses are returned in their order.
pub fn use_up_single_categories(
    counts: Vec<(ElectiveCategory, u8)>,
    courses: Vec<(String, ElectiveCategory)>,
) -> (r: (Vec<(ElectiveCategory, u8)>, Vec<(String, ElectiveCategory)>))
    ensures
        r.0@ == use_up_single(counts@, courses@.map_values(|c: (String, ElectiveCategory)| (c.0@, c.1))).0,
        r.1@.map_values(|c: (String, ElectiveCategory)| (c.0@, c.1)) == use_up_single(
            counts@,
            courses@.map_values(|c: (String, ElectiveCategory)| (c.0@, c.1)),
        ).1,
{
    let ghost all = courses@.map_values(|c: (String, ElectiveCategory)| (c.0@, c.1));
    let ghost start = counts@;
    let mut left = counts;
    let mut kept: Vec<(String, ElectiveCategory)> = Vec::new();
    let mut courses = courses;
    assert(all.take(0) =~= Seq::<(Seq<char>, ElectiveCategory)>::empty());
    assert(kept@.map_values(|c: (String, ElectiveCategory)| (c.0@, c.1)) =~= Seq::<(Seq<char>, ElectiveCategory)>::empty());
    while courses.len() > 0
        invariant
            courses@.len() <= all.len(),
            courses@.map_values(|c: (String, ElectiveCategory)| (c.0@, c.1)) == all.skip(all.len() - courses@.len()),
            left@ == use_up_single(start, all.take(all.len() - courses@.len())).0,
            kept@.map_values(|c: (String, ElectiveCategory)| (c.0@, c.1)) == use_up_single(
                start,
                all.take(all.len() - courses@.len()),
            ).1,
        decreases courses.len(),
    {
        let ghost done = all.len() - courses@.len();
        let ghost before = courses@;
        let course = courses.remove(0);
        assert(all[done] == (course.0@, course.1)) by {
            assert(before.map_values(|c: (String, ElectiveCategory)| (c.0@, c.1))[0] == all.skip(done)[0]);
        }
        assert(courses@.map_values(|c: (String, ElectiveCategory)| (c.0@, c.1)) =~= all.skip(done + 1)) by {
            assert(before.map_values(|c: (String, ElectiveCategory)| (c.0@, c.1)).drop_first()
                =~= courses@.map_values(|c: (String, ElectiveCategory)| (c.0@, c.1)));
        }
        assert(all.take(done + 1).drop_last() =~= all.take(done));
        proof {
            lemma_count_position(left@, course.1, 0);
        }
        let mut p: usize = 0;
        while p < left.len() && left[p].0 != course.1
            invariant
                p <= left.len(),
                count_position(left@, course.1, 0) == count_position(left@, course.1, p as int),
            decreases left.len() - p,
        {
            p += 1;
        }
        if p < left.len() {
            let n = left[p].1;
            if n > 1 {
                left.set(p, (course.1, n - 1));
            } else {
                left.remove(p);
            }
        } else {
            let ghost kept_before = kept@;
            kept.push(course);
            assert(kept@.map_values(|c: (String, ElectiveCategory)| (c.0@, c.1)) =~= kept_before.map_values(
                |c: (String, ElectiveCategory)| (c.0@, c.1),
            ).push(all[done]));
        }
    }
    assert(all.take(all.len() as int) =~= all);
    (left, kept)
}

} // verus!
