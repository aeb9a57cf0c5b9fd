//! What holds of the search in `course_arranger`: every outcome is a valid distribution
//! that cannot be extended, the best outcome is optimal among all distributions, and the
//! requirements built for the search name every set of categories once.

use vstd::prelude::*;
use crate::course_arranger::{
    ArrangementView, CategoriesView, CoursesView, OutcomeView, RequirementsView, arrangements,
    assign, decrement, fits, first_fit_from, fitting_requirements, has_count, intersects,
    lemma_first_fit_range, meets, outcomes_over, sorted_by_count, with_count_below, key_position,
    id_position, add_course, lex_less, requirement_position, put_requirement, requirements_of,
    category_set_of, among,
};
use crate::category::{all_categories, category_rank, ElectiveCategory};

verus! {

broadcast use vstd::seq_lib::group_seq_properties, vstd::seq_lib::group_filter_ensures;

/// An outcome of `outcomes_over` is an outcome of the search after one of the options.
proof fn lemma_outcomes_over_member(
    arr: ArrangementView,
    rest: CoursesView,
    reqs: RequirementsView,
    course: (u64, CategoriesView),
    options: RequirementsView,
    o: OutcomeView,
)
    requires
        outcomes_over(arr, rest, reqs, course, options).contains(o),
    ensures
        exists|k: int|
            0 <= k < options.len() && #[trigger] arrangements(
                assign(arr, options[k].0, course),
                rest,
                decrement(reqs, options[k].0),
            ).contains(o),
    decreases options.len(),
{
    let init = outcomes_over(arr, rest, reqs, course, options.drop_last());
    let last = arrangements(
        assign(arr, options.last().0, course),
        rest,
        decrement(reqs, options.last().0),
    );
    assert(outcomes_over(arr, rest, reqs, course, options) == init + last);
    if init.contains(o) {
        lemma_outcomes_over_member(arr, rest, reqs, course, options.drop_last(), o);
        let k = choose|k: int|
            0 <= k < options.drop_last().len() && #[trigger] arrangements(
                assign(arr, options.drop_last()[k].0, course),
                rest,
                decrement(reqs, options.drop_last()[k].0),
            ).contains(o);
        assert(options.drop_last()[k] == options[k]);
    } else {
        let j = choose|j: int| 0 <= j < (init + last).len() && (init + last)[j] == o;
        assert(last[j - init.len()] == o);
        assert(last.contains(o));
    }
}

/// The requirements with fewer than `c` courses left come from the given requirements.
proof fn lemma_with_count_below_member(s: RequirementsView, c: int, x: (CategoriesView, u8))
    requires
        with_count_below(s, c).contains(x),
    ensures
        s.contains(x),
    decreases c,
{
    if c > 0 {
        let a = with_count_below(s, c - 1);
        let b = s.filter(has_count(c - 1));
        if a.contains(x) {
            lemma_with_count_below_member(s, c - 1, x);
        } else {
            assert(b.contains(x));
            s.lemma_filter_contains_rev(has_count(c - 1), x);
        }
    }
}

/// Every given requirement has its place among the sorted requirements.
proof fn lemma_with_count_below_complete(s: RequirementsView, c: int, i: int)
    requires
        0 <= i < s.len(),
        s[i].1 < c,
    ensures
        with_count_below(s, c).contains(s[i]),
    decreases c,
{
    if s[i].1 < c - 1 {
        lemma_with_count_below_complete(s, c - 1, i);
    } else {
        s.lemma_filter_contains(has_count(c - 1), i);
    }
}

/// A requirement offered to the course at position `i` is one of the requirements, and
/// shares a category with that course.
proof fn lemma_option_member(reqs: RequirementsView, cats: CategoriesView, k: int)
    requires
        0 <= k < sorted_by_count(fitting_requirements(reqs, cats)).len(),
    ensures
        reqs.contains(sorted_by_count(fitting_requirements(reqs, cats))[k]),
        intersects(sorted_by_count(fitting_requirements(reqs, cats))[k].0, cats),
{
    let f = fitting_requirements(reqs, cats);
    let x = sorted_by_count(f)[k];
    lemma_with_count_below_member(f, 256, x);
    reqs.lemma_filter_contains_rev(meets(cats), x);
    let j = choose|j: int| 0 <= j < f.len() && f[j] == x;
    assert(meets(cats)(f[j]));
}

/// A course that fits some requirement is offered at least one requirement.
proof fn lemma_options_nonempty(reqs: RequirementsView, cats: CategoriesView)
    requires
        fits(cats, reqs),
    ensures
        sorted_by_count(fitting_requirements(reqs, cats)).len() > 0,
{
    let k = choose|k: int| 0 <= k < reqs.len() && intersects(reqs[k].0, cats);
    reqs.lemma_filter_contains(meets(cats), k);
    let f = fitting_requirements(reqs, cats);
    let j = choose|j: int| 0 <= j < f.len() && f[j] == reqs[k];
    lemma_with_count_below_complete(f, 256, j);
}

/// The search always ends in at least one outcome.
pub proof fn lemma_arrangements_nonempty(
    arr: ArrangementView,
    courses: CoursesView,
    reqs: RequirementsView,
)
    ensures
        arrangements(arr, courses, reqs).len() > 0,
    decreases courses.len(),
{
    if reqs.len() > 0 {
        lemma_first_fit_range(courses, reqs, 0);
        if let Some(i) = first_fit_from(courses, reqs, 0) {
            let options = sorted_by_count(fitting_requirements(reqs, courses[i].1));
            lemma_options_nonempty(reqs, courses[i].1);
            let rest = courses.remove(i);
            lemma_arrangements_nonempty(
                assign(arr, options.last().0, courses[i]),
                rest,
                decrement(reqs, options.last().0),
            );
        }
    }
}

/// Every outcome is final: either no requirement is left open, or none of the
/// courses left over fits any requirement that is still open.
pub proof fn lemma_outcome_is_final(
    arr: ArrangementView,
    courses: CoursesView,
    reqs: RequirementsView,
    o: OutcomeView,
)
    requires
        arrangements(arr, courses, reqs).contains(o),
    ensures
        o.1.0.len() == 0 || forall|i: int| 0 <= i < o.1.1.len() ==> !fits(#[trigger] o.1.1[i].1, o.1.0),
    decreases courses.len(),
{
    lemma_first_fit_range(courses, reqs, 0);
    if reqs.len() > 0 {
        if let Some(i) = first_fit_from(courses, reqs, 0) {
            let options = sorted_by_count(fitting_requirements(reqs, courses[i].1));
            lemma_outcomes_over_member(arr, courses.remove(i), reqs, courses[i], options, o);
            let k = choose|k: int|
                0 <= k < options.len() && #[trigger] arrangements(
                    assign(arr, options[k].0, courses[i]),
                    courses.remove(i),
                    decrement(reqs, options[k].0),
                ).contains(o);
            lemma_outcome_is_final(
                assign(arr, options[k].0, courses[i]),
                courses.remove(i),
                decrement(reqs, options[k].0),
                o,
            );
        }
    }
}

/// The sum of `f` over the elements of `s`.
pub open spec fn sum_of<A>(s: Seq<A>, f: spec_fn(A) -> int) -> int
    decreases s.len(),
{
    if s.len() == 0 {
        0
    } else {
        sum_of(s.drop_last(), f) + f(s.last())
    }
}

proof fn lemma_sum_concat<A>(a: Seq<A>, b: Seq<A>, f: spec_fn(A) -> int)
    ensures
        sum_of(a + b, f) == sum_of(a, f) + sum_of(b, f),
    decreases b.len(),
{
    if b.len() == 0 {
        assert(a + b =~= a);
    } else {
        lemma_sum_concat(a, b.drop_last(), f);
        assert((a + b).drop_last() =~= a + b.drop_last());
    }
}

proof fn lemma_sum_single<A>(x: A, f: spec_fn(A) -> int)
    ensures
        sum_of(seq![x], f) == f(x),
{
    assert(seq![x].drop_last() =~= Seq::<A>::empty());
    assert(sum_of(Seq::<A>::empty(), f) == 0);
}

proof fn lemma_sum_update<A>(s: Seq<A>, p: int, x: A, f: spec_fn(A) -> int)
    requires
        0 <= p < s.len(),
    ensures
        sum_of(s.update(p, x), f) == sum_of(s, f) - f(s[p]) + f(x),
{
    let a = s.take(p);
    let b = s.skip(p + 1);
    assert(s =~= a + seq![s[p]] + b);
    assert(s.update(p, x) =~= a + seq![x] + b);
    lemma_sum_concat(a + seq![s[p]], b, f);
    lemma_sum_concat(a, seq![s[p]], f);
    lemma_sum_concat(a + seq![x], b, f);
    lemma_sum_concat(a, seq![x], f);
    lemma_sum_single(s[p], f);
    lemma_sum_single(x, f);
}

proof fn lemma_sum_insert<A>(s: Seq<A>, p: int, x: A, f: spec_fn(A) -> int)
    requires
        0 <= p <= s.len(),
    ensures
        sum_of(s.insert(p, x), f) == sum_of(s, f) + f(x),
{
    let a = s.take(p);
    let b = s.skip(p);
    assert(s =~= a + b);
    assert(s.insert(p, x) =~= a + seq![x] + b);
    lemma_sum_concat(a, b, f);
    lemma_sum_concat(a + seq![x], b, f);
    lemma_sum_concat(a, seq![x], f);
    lemma_sum_single(x, f);
}

/// How many courses an arrangement entry holds for the requirement `k`.
pub open spec fn held_for(k: CategoriesView) -> spec_fn((CategoriesView, CoursesView)) -> int {
    |e: (CategoriesView, CoursesView)| if e.0 == k { e.1.len() as int } else { 0 }
}

/// How many courses an arrangement entry holds.
pub open spec fn held() -> spec_fn((CategoriesView, CoursesView)) -> int {
    |e: (CategoriesView, CoursesView)| e.1.len() as int
}

/// How many courses a requirement entry asks for under the requirement `k`.
pub open spec fn asked_for(k: CategoriesView) -> spec_fn((CategoriesView, u8)) -> int {
    |r: (CategoriesView, u8)| if r.0 == k { r.1 as int } else { 0 }
}

/// The number of courses assigned to the requirement `k`.
pub open spec fn assigned_count(arr: ArrangementView, k: CategoriesView) -> int {
    sum_of(arr, held_for(k))
}

/// The number of courses assigned in all.
pub open spec fn total_assigned(arr: ArrangementView) -> int {
    sum_of(arr, held())
}

/// The number of courses that the requirement `k` still asks for.
pub open spec fn required_count(reqs: RequirementsView, k: CategoriesView) -> int {
    sum_of(reqs, asked_for(k))
}

/// Whether a course with identifier `id` is among `cs`.
pub open spec fn has_id(cs: CoursesView, id: u64) -> bool {
    exists|j: int| 0 <= j < cs.len() && cs[j].0 == id
}

/// Whether a course with identifier `id` is assigned somewhere in `arr`.
pub open spec fn assigned_id(arr: ArrangementView, id: u64) -> bool {
    exists|e: int| 0 <= e < arr.len() && has_id(#[trigger] arr[e].1, id)
}

/// Whether the course `x` is assigned somewhere in `arr`.
pub open spec fn assigned_course(arr: ArrangementView, x: (u64, CategoriesView)) -> bool {
    exists|e: int| 0 <= e < arr.len() && #[trigger] arr[e].1.contains(x)
}

/// No identifier occurs twice among `cs`.
pub open spec fn distinct_ids(cs: CoursesView) -> bool {
    forall|i: int, j: int| 0 <= i < j < cs.len() ==> cs[i].0 != cs[j].0
}

/// No requirement occurs twice.
pub open spec fn distinct_keys(rs: RequirementsView) -> bool {
    forall|i: int, j: int| 0 <= i < j < rs.len() ==> rs[i].0 != rs[j].0
}

/// Every requirement still asks for at least one course.
pub open spec fn counts_positive(rs: RequirementsView) -> bool {
    forall|k: int| 0 <= k < rs.len() ==> #[trigger] rs[k].1 > 0
}

/// Whether the requirement `key` is among `rs`.
pub open spec fn has_key(rs: RequirementsView, key: CategoriesView) -> bool {
    exists|j: int| 0 <= j < rs.len() && rs[j].0 == key
}

/// Every course of the arrangement shares a category with the requirement it is assigned to.
pub open spec fn arrangement_fits(arr: ArrangementView) -> bool {
    forall|e: int, j: int|
        0 <= e < arr.len() && 0 <= j < arr[e].1.len() ==> intersects(arr[e].0, #[trigger] arr[e].1[j].1)
}

/// What the search keeps true from one step to the next.
pub open spec fn search_state_ok(arr: ArrangementView, courses: CoursesView, reqs: RequirementsView) -> bool {
    &&& distinct_keys(reqs)
    &&& counts_positive(reqs)
    &&& distinct_ids(courses)
    &&& forall|id: u64| !(assigned_id(arr, id) && has_id(courses, id))
}

proof fn lemma_key_position_range(arr: ArrangementView, key: CategoriesView, i: int)
    requires
        0 <= i <= arr.len(),
    ensures
        i <= key_position(arr, key, i) <= arr.len(),
    decreases arr.len() - i,
{
    if i < arr.len() && lex_less(arr[i].0, key) {
        lemma_key_position_range(arr, key, i + 1);
    }
}

proof fn lemma_id_position_range(m: CoursesView, id: u64, i: int)
    requires
        0 <= i <= m.len(),
    ensures
        i <= id_position(m, id, i) <= m.len(),
    decreases m.len() - i,
{
    if i < m.len() && m[i].0 < id {
        lemma_id_position_range(m, id, i + 1);
    }
}

/// Adding a course whose identifier is new puts it among the others.
proof fn lemma_add_new_course(m: CoursesView, course: (u64, CategoriesView))
    requires
        !has_id(m, course.0),
    ensures
        add_course(m, course) == m.insert(id_position(m, course.0, 0), course),
        0 <= id_position(m, course.0, 0) <= m.len(),
{
    lemma_id_position_range(m, course.0, 0);
    let p = id_position(m, course.0, 0);
    if p < m.len() {
        assert(m[p].0 != course.0);
    }
}

/// Assigning a course that is not yet assigned adds exactly that course, under `key`.
proof fn lemma_assign_new_course(
    arr: ArrangementView,
    key: CategoriesView,
    course: (u64, CategoriesView),
)
    requires
        !assigned_id(arr, course.0),
    ensures
        forall|k: CategoriesView|
            #[trigger] assigned_count(assign(arr, key, course), k) == assigned_count(arr, k) + (if k
                == key {
                1int
            } else {
                0int
            }),
        total_assigned(assign(arr, key, course)) == total_assigned(arr) + 1,
        forall|id: u64|
            #[trigger] assigned_id(assign(arr, key, course), id) <==> (assigned_id(arr, id) || id
                == course.0),
        forall|x: (u64, CategoriesView)|
            #[trigger] assigned_course(assign(arr, key, course), x) <==> (assigned_course(arr, x)
                || x == course),
        arrangement_fits(arr) && intersects(key, course.1) ==> arrangement_fits(
            assign(arr, key, course),
        ),
{
    lemma_key_position_range(arr, key, 0);
    let p = key_position(arr, key, 0);
    let new = assign(arr, key, course);
    if p < arr.len() && arr[p].0 == key {
        let m = arr[p].1;
        assert(!has_id(m, course.0)) by {
            if has_id(m, course.0) {
                assert(has_id(arr[p].1, course.0));
            }
        }
        lemma_add_new_course(m, course);
        let q = id_position(m, course.0, 0);
        let m2 = m.insert(q, course);
        m.insert_ensures(q, course);
        assert(new == arr.update(p, (key, m2)));
        assert forall|k: CategoriesView| #[trigger]
            assigned_count(new, k) == assigned_count(arr, k) + (if k == key {
                1int
            } else {
                0int
            }) by {
            lemma_sum_update(arr, p, (key, m2), held_for(k));
        }
        lemma_sum_update(arr, p, (key, m2), held());
        assert forall|x: (u64, CategoriesView)| #[trigger]
            assigned_course(new, x) <==> (assigned_course(arr, x) || x == course) by {
            if assigned_course(new, x) {
                let e = choose|e: int| 0 <= e < new.len() && #[trigger] new[e].1.contains(x);
                if e != p {
                    assert(arr[e].1.contains(x));
                } else if x != course {
                    let j = choose|j: int| 0 <= j < m2.len() && m2[j] == x;
                    if j < q {
                        assert(m[j] == x);
                    } else {
                        assert(m[j - 1] == x);
                    }
                    assert(arr[p].1.contains(x));
                }
            }
            if assigned_course(arr, x) {
                let e = choose|e: int| 0 <= e < arr.len() && #[trigger] arr[e].1.contains(x);
                if e != p {
                    assert(new[e].1.contains(x));
                } else {
                    let j = choose|j: int| 0 <= j < m.len() && m[j] == x;
                    if j < q {
                        assert(m2[j] == x);
                    } else {
                        assert(m2[j + 1] == x);
                    }
                    assert(new[p].1.contains(x));
                }
            }
            if x == course {
                assert(m2[q] == x);
                assert(new[p].1.contains(x));
            }
        }
        assert forall|id: u64| #[trigger]
            assigned_id(new, id) <==> (assigned_id(arr, id) || id == course.0) by {
            if assigned_id(new, id) {
                let e = choose|e: int| 0 <= e < new.len() && has_id(#[trigger] new[e].1, id);
                if e != p {
                    assert(has_id(arr[e].1, id));
                } else if id != course.0 {
                    let j = choose|j: int| 0 <= j < m2.len() && m2[j].0 == id;
                    if j < q {
                        assert(m[j].0 == id);
                    } else {
                        assert(m[j - 1].0 == id);
                    }
                    assert(has_id(arr[p].1, id));
                }
            }
            if assigned_id(arr, id) {
                let e = choose|e: int| 0 <= e < arr.len() && has_id(#[trigger] arr[e].1, id);
                if e != p {
                    assert(has_id(new[e].1, id));
                } else {
                    let j = choose|j: int| 0 <= j < m.len() && m[j].0 == id;
                    if j < q {
                        assert(m2[j].0 == id);
                    } else {
                        assert(m2[j + 1].0 == id);
                    }
                    assert(has_id(new[p].1, id));
                }
            }
            if id == course.0 {
                assert(m2[q].0 == id);
                assert(has_id(new[p].1, id));
            }
        }
        if arrangement_fits(arr) && intersects(key, course.1) {
            assert forall|e: int, j: int| 0 <= e < new.len() && 0 <= j < new[e].1.len() implies intersects(
                new[e].0,
                #[trigger] new[e].1[j].1,
            ) by {
                if e == p {
                    if j < q {
                        assert(m2[j] == m[j]);
                    } else if j > q {
                        assert(m2[j] == m[j - 1]);
                    }
                }
            }
        }
    } else {
        let entry = (key, seq![course]);
        let new2 = arr.insert(p, entry);
        arr.insert_ensures(p, entry);
        assert(new == new2);
        assert forall|k: CategoriesView| #[trigger]
            assigned_count(new, k) == assigned_count(arr, k) + (if k == key {
                1int
            } else {
                0int
            }) by {
            lemma_sum_insert(arr, p, entry, held_for(k));
        }
        lemma_sum_insert(arr, p, entry, held());
        assert forall|x: (u64, CategoriesView)| #[trigger]
            assigned_course(new, x) <==> (assigned_course(arr, x) || x == course) by {
            if assigned_course(new, x) {
                let e = choose|e: int| 0 <= e < new.len() && #[trigger] new[e].1.contains(x);
                if e < p {
                    assert(arr[e].1.contains(x));
                } else if e > p {
                    assert(arr[e - 1].1.contains(x));
                }
            }
            if assigned_course(arr, x) {
                let e = choose|e: int| 0 <= e < arr.len() && #[trigger] arr[e].1.contains(x);
                if e < p {
                    assert(new[e].1.contains(x));
                } else {
                    assert(new[e + 1].1.contains(x));
                }
            }
            if x == course {
                assert(new[p].1[0] == x);
                assert(new[p].1.contains(x));
            }
        }
        assert forall|id: u64| #[trigger]
            assigned_id(new, id) <==> (assigned_id(arr, id) || id == course.0) by {
            if assigned_id(new, id) {
                let e = choose|e: int| 0 <= e < new.len() && has_id(#[trigger] new[e].1, id);
                if e < p {
                    assert(has_id(arr[e].1, id));
                } else if e > p {
                    assert(has_id(arr[e - 1].1, id));
                }
            }
            if assigned_id(arr, id) {
                let e = choose|e: int| 0 <= e < arr.len() && has_id(#[trigger] arr[e].1, id);
                if e < p {
                    assert(has_id(new[e].1, id));
                } else {
                    assert(has_id(new[e + 1].1, id));
                }
            }
            if id == course.0 {
                assert(new[p].1[0].0 == id);
                assert(has_id(new[p].1, id));
            }
        }
        if arrangement_fits(arr) && intersects(key, course.1) {
            assert forall|e: int, j: int| 0 <= e < new.len() && 0 <= j < new[e].1.len() implies intersects(
                new[e].0,
                #[trigger] new[e].1[j].1,
            ) by {
                if e < p {
                    assert(new[e] == arr[e]);
                } else if e > p {
                    assert(new[e] == arr[e - 1]);
                }
            }
        }
    }
}

proof fn lemma_sum_push<A>(s: Seq<A>, x: A, f: spec_fn(A) -> int)
    ensures
        sum_of(s.push(x), f) == sum_of(s, f) + f(x),
{
    assert(s.push(x).drop_last() =~= s);
}

/// Counting one more course towards `key` lowers what `key` asks for by one, keeps the
/// requirements distinct and asking for something, and brings no new requirement.
proof fn lemma_decrement(s: RequirementsView, key: CategoriesView)
    requires
        distinct_keys(s),
        counts_positive(s),
    ensures
        forall|k: CategoriesView|
            #[trigger] required_count(decrement(s, key), k) == required_count(s, k) - (if k == key
                && has_key(s, key) {
                1int
            } else {
                0int
            }),
        distinct_keys(decrement(s, key)),
        counts_positive(decrement(s, key)),
        forall|k: CategoriesView| #[trigger] has_key(decrement(s, key), k) ==> has_key(s, k),
    decreases s.len(),
{
    let d = decrement(s, key);
    if s.len() > 0 {
        let init = s.drop_last();
        let last = s.last();
        assert(s == init.push(last));
        assert(distinct_keys(init)) by {
            assert forall|i: int, j: int| 0 <= i < j < init.len() implies init[i].0 != init[j].0 by {
                assert(init[i] == s[i] && init[j] == s[j]);
            }
        }
        assert(counts_positive(init)) by {
            assert forall|k: int| 0 <= k < init.len() implies #[trigger] init[k].1 > 0 by {
                assert(init[k] == s[k]);
            }
        }
        lemma_decrement(init, key);
        let di = decrement(init, key);
        assert(!has_key(init, last.0)) by {
            if has_key(init, last.0) {
                let j = choose|j: int| 0 <= j < init.len() && init[j].0 == last.0;
                assert(s[j].0 == s[s.len() - 1].0);
            }
        }
        assert(!has_key(di, last.0));
        if last.0 == key {
            if last.1 > 1 {
                let y = (last.0, (last.1 - 1) as u8);
                assert(d == di.push(y));
                assert forall|k: CategoriesView| #[trigger]
                    required_count(d, k) == required_count(s, k) - (if k == key && has_key(s, key) {
                        1int
                    } else {
                        0int
                    }) by {
                    lemma_sum_push(di, y, asked_for(k));
                    lemma_sum_push(init, last, asked_for(k));
                    assert(required_count(di, k) == required_count(init, k) - (if k == key
                        && has_key(init, key) {
                        1int
                    } else {
                        0int
                    }));
                    assert(has_key(s, key)) by {
                        assert(s[s.len() - 1].0 == key);
                    }
                }
                assert forall|k: CategoriesView| #[trigger] has_key(d, k) implies has_key(s, k) by {
                    let j = choose|j: int| 0 <= j < d.len() && d[j].0 == k;
                    if j < di.len() {
                        assert(d[j] == di[j]);
                        assert(has_key(di, k));
                        let i = choose|i: int| 0 <= i < init.len() && init[i].0 == k;
                        assert(s[i] == init[i]);
                    } else {
                        assert(s[s.len() - 1].0 == k);
                    }
                }
                assert forall|i: int, j: int| 0 <= i < j < d.len() implies d[i].0 != d[j].0 by {
                    if j == d.len() - 1 {
                        assert(d[i] == di[i]);
                        if d[i].0 == d[j].0 {
                            assert(has_key(di, last.0));
                        }
                    } else {
                        assert(d[i] == di[i] && d[j] == di[j]);
                    }
                }
                assert forall|k: int| 0 <= k < d.len() implies #[trigger] d[k].1 > 0 by {
                    if k < di.len() {
                        assert(d[k] == di[k]);
                    }
                }
            } else {
                assert(d == di);
                assert forall|k: CategoriesView| #[trigger]
                    required_count(d, k) == required_count(s, k) - (if k == key && has_key(s, key) {
                        1int
                    } else {
                        0int
                    }) by {
                    lemma_sum_push(init, last, asked_for(k));
                    assert(has_key(s, key)) by {
                        assert(s[s.len() - 1].0 == key);
                    }
                }
                assert forall|k: CategoriesView| #[trigger] has_key(d, k) implies has_key(s, k) by {
                    let i = choose|i: int| 0 <= i < init.len() && init[i].0 == k;
                    assert(s[i] == init[i]);
                }
            }
        } else {
            assert(d == di.push(last));
            assert forall|k: CategoriesView| #[trigger]
                required_count(d, k) == required_count(s, k) - (if k == key && has_key(s, key) {
                    1int
                } else {
                    0int
                }) by {
                lemma_sum_push(di, last, asked_for(k));
                lemma_sum_push(init, last, asked_for(k));
                assert(required_count(di, k) == required_count(init, k) - (if k == key && has_key(
                    init,
                    key,
                ) {
                    1int
                } else {
                    0int
                }));
                if has_key(s, key) {
                    let j = choose|j: int| 0 <= j < s.len() && s[j].0 == key;
                    assert(j < init.len());
                    assert(init[j] == s[j]);
                }
                if has_key(init, key) {
                    let j = choose|j: int| 0 <= j < init.len() && init[j].0 == key;
                    assert(s[j] == init[j]);
                }
            }
            assert forall|k: CategoriesView| #[trigger] has_key(d, k) implies has_key(s, k) by {
                let j = choose|j: int| 0 <= j < d.len() && d[j].0 == k;
                if j < di.len() {
                    assert(d[j] == di[j]);
                    assert(has_key(di, k));
                    let i = choose|i: int| 0 <= i < init.len() && init[i].0 == k;
                    assert(s[i] == init[i]);
                } else {
                    assert(s[s.len() - 1].0 == k);
                }
            }
            assert forall|i: int, j: int| 0 <= i < j < d.len() implies d[i].0 != d[j].0 by {
                if j == d.len() - 1 {
                    assert(d[i] == di[i]);
                    if d[i].0 == d[j].0 {
                        assert(has_key(di, last.0));
                    }
                } else {
                    assert(d[i] == di[i] && d[j] == di[j]);
                }
            }
            assert forall|k: int| 0 <= k < d.len() implies #[trigger] d[k].1 > 0 by {
                if k < di.len() {
                    assert(d[k] == di[k]);
                } else {
                    assert(s[s.len() - 1].1 > 0);
                }
            }
        }
    }
}

/// Taking a course out of courses with distinct identifiers.
proof fn lemma_remove_course(c: CoursesView, i: int)
    requires
        distinct_ids(c),
        0 <= i < c.len(),
    ensures
        distinct_ids(c.remove(i)),
        c.remove(i).len() == c.len() - 1,
        forall|id: u64| #[trigger] has_id(c.remove(i), id) <==> (has_id(c, id) && id != c[i].0),
        forall|x: (u64, CategoriesView)| #[trigger]
            c.remove(i).contains(x) <==> (c.contains(x) && x != c[i]),
{
    let r = c.remove(i);
    c.remove_ensures(i);
    assert forall|a: int, b: int| 0 <= a < b < r.len() implies r[a].0 != r[b].0 by {
        let a2 = if a < i { a } else { a + 1 };
        let b2 = if b < i { b } else { b + 1 };
        assert(r[a] == c[a2] && r[b] == c[b2]);
    }
    assert forall|id: u64| #[trigger] has_id(r, id) <==> (has_id(c, id) && id != c[i].0) by {
        if has_id(r, id) {
            let j = choose|j: int| 0 <= j < r.len() && r[j].0 == id;
            let j2 = if j < i { j } else { j + 1 };
            assert(r[j] == c[j2]);
        }
        if has_id(c, id) && id != c[i].0 {
            let j = choose|j: int| 0 <= j < c.len() && c[j].0 == id;
            if j < i {
                assert(r[j] == c[j]);
            } else {
                assert(r[j - 1] == c[j]);
            }
        }
    }
    assert forall|x: (u64, CategoriesView)| #[trigger] r.contains(x) <==> (c.contains(x) && x != c[i]) by {
        if r.contains(x) {
            let j = choose|j: int| 0 <= j < r.len() && r[j] == x;
            let j2 = if j < i { j } else { j + 1 };
            assert(r[j] == c[j2]);
            assert(c[j2].0 != c[i].0);
        }
        if c.contains(x) && x != c[i] {
            let j = choose|j: int| 0 <= j < c.len() && c[j] == x;
            if j < i {
                assert(r[j] == c[j]);
            } else {
                assert(r[j - 1] == c[j]);
            }
        }
    }
}

/// From any state that the search keeps well formed, every outcome keeps the count of
/// every requirement, keeps every course (assigned or left over, never both), only
/// assigns courses to requirements that they share a category with, and leaves only
/// requirements that were there.
pub proof fn lemma_outcome_accounts(
    arr: ArrangementView,
    courses: CoursesView,
    reqs: RequirementsView,
    o: OutcomeView,
)
    requires
        search_state_ok(arr, courses, reqs),
        arrangements(arr, courses, reqs).contains(o),
    ensures
        forall|k: CategoriesView|
            #[trigger] assigned_count(o.0, k) + required_count(o.1.0, k) == assigned_count(arr, k)
                + required_count(reqs, k),
        total_assigned(o.0) + o.1.1.len() == total_assigned(arr) + courses.len(),
        forall|x: (u64, CategoriesView)|
            (#[trigger] assigned_course(o.0, x) || o.1.1.contains(x)) <==> (assigned_course(arr, x)
                || courses.contains(x)),
        forall|id: u64| !(#[trigger] assigned_id(o.0, id) && has_id(o.1.1, id)),
        arrangement_fits(arr) ==> arrangement_fits(o.0),
        forall|k: CategoriesView| #[trigger] has_key(o.1.0, k) ==> has_key(reqs, k),
    decreases courses.len(),
{
    lemma_first_fit_range(courses, reqs, 0);
    if reqs.len() > 0 {
        if let Some(i) = first_fit_from(courses, reqs, 0) {
            let course = courses[i];
            let rest = courses.remove(i);
            let options = sorted_by_count(fitting_requirements(reqs, course.1));
            lemma_outcomes_over_member(arr, rest, reqs, course, options, o);
            let k = choose|k: int|
                0 <= k < options.len() && #[trigger] arrangements(
                    assign(arr, options[k].0, course),
                    rest,
                    decrement(reqs, options[k].0),
                ).contains(o);
            let key = options[k].0;
            lemma_option_member(reqs, course.1, k);
            assert(has_key(reqs, key)) by {
                let j = choose|j: int| 0 <= j < reqs.len() && reqs[j] == options[k];
            }
            assert(has_id(courses, course.0));
            assert(!assigned_id(arr, course.0));
            lemma_assign_new_course(arr, key, course);
            lemma_decrement(reqs, key);
            lemma_remove_course(courses, i);
            let arr2 = assign(arr, key, course);
            let reqs2 = decrement(reqs, key);
            assert forall|id: u64| !(assigned_id(arr2, id) && has_id(rest, id)) by {
                if assigned_id(arr2, id) && has_id(rest, id) {
                    assert(assigned_id(arr, id) || id == course.0);
                    assert(has_id(courses, id));
                }
            }
            lemma_outcome_accounts(arr2, rest, reqs2, o);
            assert forall|kk: CategoriesView| #[trigger]
                assigned_count(o.0, kk) + required_count(o.1.0, kk) == assigned_count(arr, kk)
                    + required_count(reqs, kk) by {
                assert(assigned_count(arr2, kk) == assigned_count(arr, kk) + (if kk == key {
                    1int
                } else {
                    0int
                }));
                assert(required_count(reqs2, kk) == required_count(reqs, kk) - (if kk == key
                    && has_key(reqs, key) {
                    1int
                } else {
                    0int
                }));
                assert(assigned_count(o.0, kk) + required_count(o.1.0, kk) == assigned_count(
                    arr2,
                    kk,
                ) + required_count(reqs2, kk));
            }
            assert forall|x: (u64, CategoriesView)|
                (#[trigger] assigned_course(o.0, x) || o.1.1.contains(x)) <==> (assigned_course(
                    arr,
                    x,
                ) || courses.contains(x)) by {
                assert(assigned_course(arr2, x) <==> (assigned_course(arr, x) || x == course));
                assert(rest.contains(x) <==> (courses.contains(x) && x != course));
                assert((assigned_course(o.0, x) || o.1.1.contains(x)) <==> (assigned_course(arr2, x)
                    || rest.contains(x)));
            }
            assert forall|kk: CategoriesView| #[trigger] has_key(o.1.0, kk) implies has_key(
                reqs,
                kk,
            ) by {
                assert(has_key(reqs2, kk));
            }
        }
    }
}

/// The search that `calculate_arrangements` runs always reports at least one outcome.
pub proof fn law_some_outcome(courses: CoursesView, reqs: RequirementsView)
    ensures
        arrangements(Seq::empty(), courses, reqs).len() > 0,
{
    lemma_arrangements_nonempty(Seq::empty(), courses, reqs);
}

/// Every outcome that `calculate_arrangements` reports, for courses with distinct
/// identifiers and distinct requirements that each ask for at least one course, is a
/// valid distribution that cannot be extended:
/// - for every requirement, the courses assigned to it and the courses it still asks for
///   add up to what it asked for at the start;
/// - every given course is either assigned or left over, never both, and nothing else is;
/// - every assigned course shares a category with the requirement it is assigned to;
/// - only given requirements are left, and either none is left or no left-over course
///   fits any of them.
pub proof fn law_outcome_is_valid_distribution(
    courses: CoursesView,
    reqs: RequirementsView,
    o: OutcomeView,
)
    requires
        distinct_ids(courses),
        distinct_keys(reqs),
        counts_positive(reqs),
        arrangements(Seq::empty(), courses, reqs).contains(o),
    ensures
        forall|k: CategoriesView|
            #[trigger] assigned_count(o.0, k) + required_count(o.1.0, k) == required_count(reqs, k),
        total_assigned(o.0) + o.1.1.len() == courses.len(),
        forall|x: (u64, CategoriesView)|
            (#[trigger] assigned_course(o.0, x) || o.1.1.contains(x)) <==> courses.contains(x),
        forall|id: u64| !(#[trigger] assigned_id(o.0, id) && has_id(o.1.1, id)),
        arrangement_fits(o.0),
        forall|k: CategoriesView| #[trigger] has_key(o.1.0, k) ==> has_key(reqs, k),
        o.1.0.len() == 0 || forall|i: int| 0 <= i < o.1.1.len() ==> !fits(#[trigger] o.1.1[i].1, o.1.0),
{
    let empty = Seq::<(CategoriesView, CoursesView)>::empty();
    assert forall|k: CategoriesView| #[trigger] assigned_count(empty, k) == 0 by {
    }
    assert(total_assigned(empty) == 0);
    lemma_outcome_accounts(empty, courses, reqs, o);
    lemma_outcome_is_final(empty, courses, reqs, o);
}

/// The count of one for a course placed under the requirement `k`.
pub open spec fn placed_under(k: CategoriesView) -> spec_fn(Option<CategoriesView>) -> int {
    |x: Option<CategoriesView>| if x == Some(k) { 1int } else { 0int }
}

/// The count of one for a course left out.
pub open spec fn left_out() -> spec_fn(Option<CategoriesView>) -> int {
    |x: Option<CategoriesView>| if x is None { 1int } else { 0int }
}

/// How many courses the distribution `d` places under the requirement `k`.
pub open spec fn placed_count(d: Seq<Option<CategoriesView>>, k: CategoriesView) -> int {
    sum_of(d, placed_under(k))
}

/// How many courses the distribution `d` leaves out.
pub open spec fn unplaced_count(d: Seq<Option<CategoriesView>>) -> int {
    sum_of(d, left_out())
}

/// Whether `d` distributes the courses over the requirements: for each course, at its
/// position, the requirement that it counts towards, or none. A course counts only towards
/// a requirement that it shares a category with, and no requirement gets more courses than
/// it asks for.
pub open spec fn is_distribution(courses: CoursesView, reqs: RequirementsView, d: Seq<Option<CategoriesView>>) -> bool {
    &&& d.len() == courses.len()
    &&& forall|i: int| 0 <= i < d.len() && (#[trigger] d[i]) is Some ==> intersects(d[i]->Some_0, courses[i].1)
    &&& forall|k: CategoriesView| #[trigger] placed_count(d, k) <= required_count(reqs, k)
}

proof fn lemma_sum_remove<A>(s: Seq<A>, i: int, f: spec_fn(A) -> int)
    requires
        0 <= i < s.len(),
    ensures
        sum_of(s.remove(i), f) == sum_of(s, f) - f(s[i]),
{
    let a = s.take(i);
    let b = s.skip(i + 1);
    assert(s =~= a + seq![s[i]] + b);
    assert(s.remove(i) =~= a + b);
    lemma_sum_concat(a + seq![s[i]], b, f);
    lemma_sum_concat(a, seq![s[i]], f);
    lemma_sum_concat(a, b, f);
    lemma_sum_single(s[i], f);
}

proof fn lemma_sum_witness<A>(s: Seq<A>, f: spec_fn(A) -> int)
    requires
        sum_of(s, f) != 0,
    ensures
        exists|j: int| 0 <= j < s.len() && f(#[trigger] s[j]) != 0,
    decreases s.len(),
{
    if s.len() > 0 {
        if sum_of(s.drop_last(), f) != 0 {
            lemma_sum_witness(s.drop_last(), f);
            let j = choose|j: int| 0 <= j < s.drop_last().len() && f(#[trigger] s.drop_last()[j]) != 0;
            assert(s[j] == s.drop_last()[j]);
        } else {
            assert(f(s[s.len() - 1]) != 0);
        }
    }
}

proof fn lemma_sum_at_least<A>(s: Seq<A>, f: spec_fn(A) -> int, j: int)
    requires
        forall|x: A| #[trigger] f(x) >= 0,
        0 <= j < s.len(),
    ensures
        sum_of(s, f) >= f(s[j]),
    decreases s.len(),
{
    if j < s.len() - 1 {
        lemma_sum_at_least(s.drop_last(), f, j);
        assert(s.drop_last()[j] == s[j]);
    } else {
        lemma_sum_nonneg(s.drop_last(), f);
    }
}

proof fn lemma_sum_nonneg<A>(s: Seq<A>, f: spec_fn(A) -> int)
    requires
        forall|x: A| #[trigger] f(x) >= 0,
    ensures
        sum_of(s, f) >= 0,
    decreases s.len(),
{
    if s.len() > 0 {
        lemma_sum_nonneg(s.drop_last(), f);
    }
}

proof fn lemma_sum_all_one<A>(s: Seq<A>, f: spec_fn(A) -> int)
    requires
        forall|j: int| 0 <= j < s.len() ==> f(#[trigger] s[j]) == 1,
    ensures
        sum_of(s, f) == s.len(),
    decreases s.len(),
{
    if s.len() > 0 {
        assert forall|j: int| 0 <= j < s.drop_last().len() implies f(#[trigger] s.drop_last()[j]) == 1 by {
            assert(s.drop_last()[j] == s[j]);
        }
        lemma_sum_all_one(s.drop_last(), f);
        assert(f(s[s.len() - 1]) == 1);
    }
}

/// A requirement that asks for courses is one of the requirements.
proof fn lemma_required_has_key(reqs: RequirementsView, k: CategoriesView)
    requires
        required_count(reqs, k) != 0,
    ensures
        has_key(reqs, k),
{
    lemma_sum_witness(reqs, asked_for(k));
    let j = choose|j: int| 0 <= j < reqs.len() && asked_for(k)(#[trigger] reqs[j]) != 0;
    assert(reqs[j].0 == k);
}

/// A requirement among requirements that each ask for something asks for something.
proof fn lemma_has_key_required(reqs: RequirementsView, k: CategoriesView)
    requires
        has_key(reqs, k),
        counts_positive(reqs),
    ensures
        required_count(reqs, k) >= 1,
{
    let j = choose|j: int| 0 <= j < reqs.len() && reqs[j].0 == k;
    assert forall|x: (CategoriesView, u8)| #[trigger] asked_for(k)(x) >= 0 by {}
    lemma_sum_at_least(reqs, asked_for(k), j);
    assert(reqs[j].1 > 0);
}

/// A distribution of no course leaves nothing out; one that places no course leaves every
/// course out.
proof fn lemma_nothing_placed(d: Seq<Option<CategoriesView>>)
    requires
        forall|j: int| 0 <= j < d.len() ==> (#[trigger] d[j]) is None,
    ensures
        unplaced_count(d) == d.len(),
{
    assert forall|j: int| 0 <= j < d.len() implies left_out()(#[trigger] d[j]) == 1 by {
        assert(d[j] is None);
    }
    lemma_sum_all_one(d, left_out());
}

/// An outcome of the search after one of the options is an outcome of `outcomes_over`.
proof fn lemma_outcomes_over_includes(
    arr: ArrangementView,
    rest: CoursesView,
    reqs: RequirementsView,
    course: (u64, CategoriesView),
    options: RequirementsView,
    k: int,
    o: OutcomeView,
)
    requires
        0 <= k < options.len(),
        arrangements(assign(arr, options[k].0, course), rest, decrement(reqs, options[k].0)).contains(o),
    ensures
        outcomes_over(arr, rest, reqs, course, options).contains(o),
    decreases options.len(),
{
    let init = outcomes_over(arr, rest, reqs, course, options.drop_last());
    let last = arrangements(
        assign(arr, options.last().0, course),
        rest,
        decrement(reqs, options.last().0),
    );
    assert(outcomes_over(arr, rest, reqs, course, options) == init + last);
    if k == options.len() - 1 {
        let j = choose|j: int| 0 <= j < last.len() && last[j] == o;
        assert((init + last)[init.len() + j] == o);
    } else {
        assert(options.drop_last()[k] == options[k]);
        lemma_outcomes_over_includes(arr, rest, reqs, course, options.drop_last(), k, o);
        let j = choose|j: int| 0 <= j < init.len() && init[j] == o;
        assert((init + last)[j] == o);
    }
}

/// The requirement `key` of `reqs`, when the course with categories `cats` shares a
/// category with it, is among the requirements offered to that course.
proof fn lemma_offered(reqs: RequirementsView, cats: CategoriesView, key: CategoriesView)
    requires
        has_key(reqs, key),
        intersects(key, cats),
    ensures
        exists|k: int|
            0 <= k < sorted_by_count(fitting_requirements(reqs, cats)).len()
                && (#[trigger] sorted_by_count(fitting_requirements(reqs, cats))[k]).0 == key,
{
    let j = choose|j: int| 0 <= j < reqs.len() && reqs[j].0 == key;
    reqs.lemma_filter_contains(meets(cats), j);
    let f = fitting_requirements(reqs, cats);
    let jj = choose|jj: int| 0 <= jj < f.len() && f[jj] == reqs[j];
    lemma_with_count_below_complete(f, 256, jj);
    let options = sorted_by_count(f);
    let k = choose|k: int| 0 <= k < options.len() && options[k] == reqs[j];
    assert(options[k].0 == key);
}

/// From every state of the search, for every distribution of the courses still to place
/// over the requirements still open, some outcome leaves at most as many courses out.
proof fn lemma_search_reaches(
    arr: ArrangementView,
    courses: CoursesView,
    reqs: RequirementsView,
    d: Seq<Option<CategoriesView>>,
)
    requires
        distinct_keys(reqs),
        counts_positive(reqs),
        is_distribution(courses, reqs, d),
    ensures
        exists|o: OutcomeView|
            #[trigger] arrangements(arr, courses, reqs).contains(o) && o.1.1.len() <= unplaced_count(d),
    decreases courses.len(),
{
    lemma_first_fit_range(courses, reqs, 0);
    let here = (arr, (reqs, courses));
    if reqs.len() == 0 || first_fit_from(courses, reqs, 0) is None {
        assert forall|j: int| 0 <= j < d.len() implies (#[trigger] d[j]) is None by {
            if d[j] is Some {
                let k = d[j]->Some_0;
                assert(placed_under(k)(d[j]) == 1);
                assert forall|x: Option<CategoriesView>| #[trigger] placed_under(k)(x) >= 0 by {}
                lemma_sum_at_least(d, placed_under(k), j);
                assert(placed_count(d, k) >= 1);
                lemma_required_has_key(reqs, k);
                let t = choose|t: int| 0 <= t < reqs.len() && reqs[t].0 == k;
                assert(intersects(reqs[t].0, courses[j].1));
                assert(fits(courses[j].1, reqs));
            }
        }
        lemma_nothing_placed(d);
        assert(arrangements(arr, courses, reqs) == seq![here]);
        assert(seq![here][0] == here);
        assert(arrangements(arr, courses, reqs).contains(here));
        assert(here.1.1.len() <= unplaced_count(d));
    } else {
        let i = first_fit_from(courses, reqs, 0)->Some_0;
        let course = courses[i];
        let rest = courses.remove(i);
        let options = sorted_by_count(fitting_requirements(reqs, course.1));
        assert(arrangements(arr, courses, reqs) == outcomes_over(arr, rest, reqs, course, options));
        assert forall|x: Option<CategoriesView>| #[trigger] left_out()(x) >= 0 by {}
        let key = if d[i] is Some {
            d[i]->Some_0
        } else {
            options[0].0
        };
        if d[i] is Some {
            assert(placed_under(key)(d[i]) == 1);
            assert forall|x: Option<CategoriesView>| #[trigger] placed_under(key)(x) >= 0 by {}
            lemma_sum_at_least(d, placed_under(key), i);
            assert(placed_count(d, key) <= required_count(reqs, key));
            lemma_required_has_key(reqs, key);
        } else {
            lemma_options_nonempty(reqs, course.1);
            lemma_option_member(reqs, course.1, 0);
            assert(has_key(reqs, key)) by {
                let t = choose|t: int| 0 <= t < reqs.len() && reqs[t] == options[0];
            }
            lemma_has_key_required(reqs, key);
        }
        let swap = d[i] is None && placed_count(d, key) >= required_count(reqs, key);
        let j = choose|j: int| 0 <= j < d.len() && placed_under(key)(#[trigger] d[j]) != 0;
        let d2 = if swap {
            d.update(j, None).remove(i)
        } else {
            d.remove(i)
        };
        if swap {
            assert(placed_count(d, key) <= required_count(reqs, key));
            lemma_sum_witness(d, placed_under(key));
            assert(d[j] == Some(key));
            lemma_swap_step(courses, reqs, d, i, key, j);
        } else {
            lemma_remove_step(courses, reqs, d, i, key);
        }
        lemma_offered(reqs, course.1, key);
        let k = choose|k: int| 0 <= k < options.len() && (#[trigger] options[k]).0 == key;
        lemma_decrement(reqs, key);
        let reqs2 = decrement(reqs, key);
        lemma_search_reaches(assign(arr, key, course), rest, reqs2, d2);
        let o = choose|o: OutcomeView|
            #[trigger] arrangements(assign(arr, key, course), rest, reqs2).contains(o) && o.1.1.len()
                <= unplaced_count(d2);
        lemma_outcomes_over_includes(arr, rest, reqs, course, options, k, o);
        assert(arrangements(arr, courses, reqs).contains(o));
        assert(unplaced_count(d2) <= unplaced_count(d));
        assert(o.1.1.len() <= unplaced_count(d));
    }
}

/// Placing the course at position `i` under `key`, where the distribution `d` placed it
/// there or left it out while `key` had room: what `d` does with the other courses is a
/// distribution of them over the requirements after the step, and leaves no more out.
proof fn lemma_remove_step(
    courses: CoursesView,
    reqs: RequirementsView,
    d: Seq<Option<CategoriesView>>,
    i: int,
    key: CategoriesView,
)
    requires
        distinct_keys(reqs),
        counts_positive(reqs),
        is_distribution(courses, reqs, d),
        0 <= i < courses.len(),
        has_key(reqs, key),
        d[i] == Some(key) || (d[i] is None && placed_count(d, key) < required_count(reqs, key)),
    ensures
        is_distribution(courses.remove(i), decrement(reqs, key), d.remove(i)),
        unplaced_count(d.remove(i)) <= unplaced_count(d),
{
    lemma_decrement(reqs, key);
    let d2 = d.remove(i);
    let rest = courses.remove(i);
    lemma_sum_remove(d, i, left_out());
    assert forall|k: CategoriesView| #[trigger] placed_count(d2, k) <= required_count(decrement(reqs, key), k) by {
        lemma_sum_remove(d, i, placed_under(k));
        assert(placed_count(d, k) <= required_count(reqs, k));
    }
    assert forall|t: int| 0 <= t < d2.len() && (#[trigger] d2[t]) is Some implies intersects(
        d2[t]->Some_0,
        rest[t].1,
    ) by {
        if t < i {
            assert(d2[t] == d[t] && rest[t] == courses[t]);
        } else {
            assert(d2[t] == d[t + 1] && rest[t] == courses[t + 1]);
        }
    }
}

/// Placing the course at position `i`, which the distribution `d` left out, under `key`,
/// which `d` filled, in place of the course at position `j`: what `d` does with the other
/// courses, the one at `j` left out, is a distribution of them over the requirements after
/// the step, and leaves no more out.
proof fn lemma_swap_step(
    courses: CoursesView,
    reqs: RequirementsView,
    d: Seq<Option<CategoriesView>>,
    i: int,
    key: CategoriesView,
    j: int,
)
    requires
        distinct_keys(reqs),
        counts_positive(reqs),
        is_distribution(courses, reqs, d),
        0 <= i < courses.len(),
        0 <= j < courses.len(),
        has_key(reqs, key),
        d[i] is None,
        d[j] == Some(key),
    ensures
        is_distribution(courses.remove(i), decrement(reqs, key), d.update(j, None).remove(i)),
        unplaced_count(d.update(j, None).remove(i)) <= unplaced_count(d),
{
    lemma_decrement(reqs, key);
    let d1 = d.update(j, None);
    let d2 = d1.remove(i);
    let rest = courses.remove(i);
    assert(i != j);
    assert(d1[i] == d[i]);
    lemma_sum_update(d, j, None, left_out());
    lemma_sum_remove(d1, i, left_out());
    assert forall|k: CategoriesView| #[trigger] placed_count(d2, k) <= required_count(decrement(reqs, key), k) by {
        lemma_sum_update(d, j, None, placed_under(k));
        lemma_sum_remove(d1, i, placed_under(k));
        assert(placed_count(d, k) <= required_count(reqs, k));
    }
    assert forall|t: int| 0 <= t < d2.len() && (#[trigger] d2[t]) is Some implies intersects(
        d2[t]->Some_0,
        rest[t].1,
    ) by {
        let t2 = if t < i { t } else { t + 1 };
        assert(d2[t] == d1[t2] && rest[t] == courses[t2]);
        assert(t2 != j);
        assert(d1[t2] == d[t2]);
    }
}

/// The search finds an optimal distribution: for courses and requirements that each ask
/// for at least one course, under distinct category sets, and for every way of distributing
/// the courses over the requirements (each course counting towards at most one
/// requirement that it shares a category with, and no requirement getting more courses
/// than it asks for), some outcome of `calculate_arrangements` leaves at most as many
/// courses out.
pub proof fn law_search_finds_an_optimal_distribution(
    courses: CoursesView,
    reqs: RequirementsView,
    d: Seq<Option<CategoriesView>>,
)
    requires
        distinct_keys(reqs),
        counts_positive(reqs),
        is_distribution(courses, reqs, d),
    ensures
        exists|o: OutcomeView|
            #[trigger] arrangements(Seq::empty(), courses, reqs).contains(o) && o.1.1.len()
                <= unplaced_count(d),
{
    lemma_search_reaches(Seq::empty(), courses, reqs, d);
}

/// The outcome that `optimal_outcome` picks, one with the fewest courses left over, leaves
/// no more courses out than any distribution of the courses over the requirements does.
pub proof fn law_optimal_outcome_is_optimal(
    courses: CoursesView,
    reqs: RequirementsView,
    best: int,
    d: Seq<Option<CategoriesView>>,
)
    requires
        distinct_keys(reqs),
        counts_positive(reqs),
        0 <= best < arrangements(Seq::empty(), courses, reqs).len(),
        forall|j: int|
            0 <= j < arrangements(Seq::empty(), courses, reqs).len() ==> arrangements(
                Seq::empty(),
                courses,
                reqs,
            )[best].1.1.len() <= (#[trigger] arrangements(Seq::empty(), courses, reqs)[j]).1.1.len(),
        is_distribution(courses, reqs, d),
    ensures
        arrangements(Seq::empty(), courses, reqs)[best].1.1.len() <= unplaced_count(d),
{
    let all = arrangements(Seq::empty(), courses, reqs);
    lemma_search_reaches(Seq::empty(), courses, reqs, d);
    let o = choose|o: OutcomeView| #[trigger] all.contains(o) && o.1.1.len() <= unplaced_count(d);
    let j = choose|j: int| 0 <= j < all.len() && all[j] == o;
    assert(all[best].1.1.len() <= all[j].1.1.len());
}

proof fn lemma_rank_injective(a: ElectiveCategory, b: ElectiveCategory)
    ensures
        category_rank(a) == category_rank(b) ==> a == b,
{
    match a {
        ElectiveCategory::Informatics => {},
        ElectiveCategory::Practicum => {},
        ElectiveCategory::Maths => {},
        ElectiveCategory::AppliedMaths => {},
        ElectiveCategory::CompSciFundamentals => {},
        ElectiveCategory::CompSciCore => {},
        ElectiveCategory::Statistics => {},
        ElectiveCategory::Seminar => {},
        ElectiveCategory::Humanitarian => {},
        ElectiveCategory::Other => {},
    }
}

/// No category set comes before itself.
pub proof fn lemma_lex_irreflexive(a: CategoriesView)
    ensures
        !lex_less(a, a),
    decreases a.len(),
{
    if a.len() > 0 {
        lemma_lex_irreflexive(a.drop_first());
    }
}

/// Of two different category sets, one comes before the other.
pub proof fn lemma_lex_total(a: CategoriesView, b: CategoriesView)
    ensures
        a != b ==> lex_less(a, b) || lex_less(b, a),
    decreases a.len(),
{
    if a.len() > 0 && b.len() > 0 && category_rank(a[0]) == category_rank(b[0]) {
        lemma_rank_injective(a[0], b[0]);
        lemma_lex_total(a.drop_first(), b.drop_first());
        if a.drop_first() == b.drop_first() {
            assert(a =~= seq![a[0]] + a.drop_first());
            assert(b =~= seq![b[0]] + b.drop_first());
        }
    } else if a.len() == 0 && b.len() == 0 {
        assert(a =~= b);
    }
}

/// The order of category sets is transitive.
pub proof fn lemma_lex_transitive(a: CategoriesView, b: CategoriesView, c: CategoriesView)
    requires
        lex_less(a, b),
        lex_less(b, c),
    ensures
        lex_less(a, c),
    decreases a.len(),
{
    if a.len() > 0 && category_rank(a[0]) == category_rank(b[0]) && category_rank(b[0]) == category_rank(c[0]) {
        lemma_lex_transitive(a.drop_first(), b.drop_first(), c.drop_first());
    }
}

/// The category sets of the requirements come in strictly increasing order.
pub open spec fn strictly_ordered(reqs: RequirementsView) -> bool {
    forall|i: int, j: int| 0 <= i < j < reqs.len() ==> lex_less(#[trigger] reqs[i].0, #[trigger] reqs[j].0)
}

proof fn lemma_requirement_position(reqs: RequirementsView, key: CategoriesView, i: int)
    requires
        0 <= i <= reqs.len(),
    ensures
        i <= requirement_position(reqs, key, i) <= reqs.len(),
        forall|t: int| i <= t < requirement_position(reqs, key, i) ==> lex_less(#[trigger] reqs[t].0, key),
        requirement_position(reqs, key, i) < reqs.len() ==> !lex_less(
            reqs[requirement_position(reqs, key, i)].0,
            key,
        ),
    decreases reqs.len() - i,
{
    if i < reqs.len() && lex_less(reqs[i].0, key) {
        lemma_requirement_position(reqs, key, i + 1);
    }
}

proof fn lemma_put_requirement_ordered(reqs: RequirementsView, key: CategoriesView, count: u8)
    requires
        strictly_ordered(reqs),
    ensures
        strictly_ordered(put_requirement(reqs, key, count)),
{
    lemma_requirement_position(reqs, key, 0);
    let p = requirement_position(reqs, key, 0);
    let r = put_requirement(reqs, key, count);
    if p < reqs.len() && reqs[p].0 == key {
        assert forall|i: int, j: int| 0 <= i < j < r.len() implies lex_less(#[trigger] r[i].0, #[trigger] r[j].0) by {
            assert(r[i].0 == reqs[i].0 && r[j].0 == reqs[j].0);
        }
    } else {
        if p < reqs.len() {
            lemma_lex_total(reqs[p].0, key);
        }
        assert forall|i: int, j: int| 0 <= i < j < r.len() implies lex_less(#[trigger] r[i].0, #[trigger] r[j].0) by {
            if j < p {
                assert(r[i] == reqs[i] && r[j] == reqs[j]);
            } else if j == p {
                assert(r[i] == reqs[i] && r[j].0 == key);
            } else if i < p {
                assert(r[i] == reqs[i] && r[j] == reqs[j - 1]);
                assert(lex_less(reqs[i].0, key));
                if j - 1 > p {
                    lemma_lex_transitive(key, reqs[p].0, reqs[j - 1].0);
                }
                lemma_lex_transitive(reqs[i].0, key, reqs[j - 1].0);
            } else if i == p {
                assert(r[i].0 == key && r[j] == reqs[j - 1]);
                if j - 1 > p {
                    lemma_lex_transitive(key, reqs[p].0, reqs[j - 1].0);
                }
            } else {
                assert(r[i] == reqs[i - 1] && r[j] == reqs[j - 1]);
            }
        }
    }
}

proof fn lemma_put_requirement_keeps(
    reqs: RequirementsView,
    key: CategoriesView,
    count: u8,
    x: (CategoriesView, u8),
)
    ensures
        put_requirement(reqs, key, count).contains((key, count)),
        reqs.contains(x) && x.0 != key ==> put_requirement(reqs, key, count).contains(x),
{
    lemma_requirement_position(reqs, key, 0);
    let p = requirement_position(reqs, key, 0);
    let r = put_requirement(reqs, key, count);
    if p < reqs.len() && reqs[p].0 == key {
        assert(r[p] == (key, count));
        if reqs.contains(x) && x.0 != key {
            let m = choose|m: int| 0 <= m < reqs.len() && reqs[m] == x;
            assert(r[m] == x);
        }
    } else {
        assert(r[p] == (key, count));
        if reqs.contains(x) && x.0 != key {
            let m = choose|m: int| 0 <= m < reqs.len() && reqs[m] == x;
            if m < p {
                assert(r[m] == x);
            } else {
                assert(r[m + 1] == x);
            }
        }
    }
}

/// Of the entries that `requirements_from` is given, each one whose set of categories no
/// later entry names again stands among the requirements with its count: a later entry of
/// the same set replaces an earlier one, and nothing else is lost.
pub proof fn law_last_entry_of_each_set_kept(entries: Seq<(CategoriesView, u8)>, j: int)
    requires
        0 <= j < entries.len(),
        forall|t: int|
            j < t < entries.len() ==> category_set_of(#[trigger] entries[t].0) != category_set_of(
                entries[j].0,
            ),
    ensures
        requirements_of(entries).contains((category_set_of(entries[j].0), entries[j].1)),
    decreases entries.len(),
{
    let d = entries.drop_last();
    let x = (category_set_of(entries[j].0), entries[j].1);
    let last = entries.last();
    if j == entries.len() - 1 {
        lemma_put_requirement_keeps(requirements_of(d), category_set_of(last.0), last.1, x);
    } else {
        assert forall|t: int| j < t < d.len() implies category_set_of(#[trigger] d[t].0) != category_set_of(
            d[j].0,
        ) by {
            assert(d[t] == entries[t] && d[j] == entries[j]);
        }
        law_last_entry_of_each_set_kept(d, j);
        assert(d[j] == entries[j]);
        assert(category_set_of(entries[entries.len() - 1].0) != category_set_of(entries[j].0));
        lemma_put_requirement_keeps(requirements_of(d), category_set_of(last.0), last.1, x);
    }
}

/// The requirements that `requirements_from` builds from any entries come in strictly
/// increasing order of their category sets, so that no set of categories occurs twice; and
/// when every entry asks for at least one course, so does every requirement.
pub proof fn law_requirements_distinct(entries: Seq<(CategoriesView, u8)>)
    ensures
        strictly_ordered(requirements_of(entries)),
        distinct_keys(requirements_of(entries)),
        (forall|k: int| 0 <= k < entries.len() ==> #[trigger] entries[k].1 > 0) ==> counts_positive(
            requirements_of(entries),
        ),
    decreases entries.len(),
{
    let r = requirements_of(entries);
    if entries.len() > 0 {
        let init = entries.drop_last();
        law_requirements_distinct(init);
        let prev = requirements_of(init);
        lemma_put_requirement_ordered(prev, crate::course_arranger::category_set_of(entries.last().0), entries.last().1);
        if forall|k: int| 0 <= k < entries.len() ==> #[trigger] entries[k].1 > 0 {
            assert forall|k: int| 0 <= k < init.len() implies #[trigger] init[k].1 > 0 by {
                assert(init[k] == entries[k]);
            }
            let key = crate::course_arranger::category_set_of(entries.last().0);
            let p = requirement_position(prev, key, 0);
            lemma_requirement_position(prev, key, 0);
            assert forall|k: int| 0 <= k < r.len() implies #[trigger] r[k].1 > 0 by {
                if p < prev.len() && prev[p].0 == key {
                    if k != p {
                        assert(r[k] == prev[k]);
                    }
                } else if k < p {
                    assert(r[k] == prev[k]);
                } else if k > p {
                    assert(r[k] == prev[k - 1]);
                }
            }
        }
    }
    assert forall|i: int, j: int| 0 <= i < j < r.len() implies r[i].0 != r[j].0 by {
        if r[i].0 == r[j].0 {
            lemma_lex_irreflexive(r[i].0);
        }
    }
}


/// The courses come in strictly increasing order of their identifiers.
pub open spec fn ids_increasing(cs: CoursesView) -> bool {
    forall|i: int, j: int| 0 <= i < j < cs.len() ==> (#[trigger] cs[i]).0 < (#[trigger] cs[j]).0
}

/// The categories come in strictly increasing order of rank, each once, as `category_set`
/// makes them.
pub open spec fn is_category_set(cats: CategoriesView) -> bool {
    forall|i: int, j: int|
        0 <= i < j < cats.len() ==> category_rank(#[trigger] cats[i]) < category_rank(#[trigger] cats[j])
}

/// The form that the lists handed to `calculate_arrangements` are kept in: courses in
/// strictly increasing order of identifier, each with a set of categories; requirements in
/// strictly increasing order of their sets of categories, each asking for at least one
/// course.
pub open spec fn arranger_input_ok(courses: CoursesView, reqs: RequirementsView) -> bool {
    &&& ids_increasing(courses)
    &&& forall|i: int| 0 <= i < courses.len() ==> is_category_set(#[trigger] courses[i].1)
    &&& strictly_ordered(reqs)
    &&& counts_positive(reqs)
    &&& forall|k: int| 0 <= k < reqs.len() ==> is_category_set(#[trigger] reqs[k].0)
}

/// Lists of that form have distinct identifiers and distinct requirements, which is what
/// the laws of validity and optimality ask for.
pub proof fn law_input_form_is_distinct(courses: CoursesView, reqs: RequirementsView)
    requires
        arranger_input_ok(courses, reqs),
    ensures
        distinct_ids(courses),
        distinct_keys(reqs),
{
    assert forall|i: int, j: int| 0 <= i < j < reqs.len() implies reqs[i].0 != reqs[j].0 by {
        if reqs[i].0 == reqs[j].0 {
            lemma_lex_irreflexive(reqs[i].0);
        }
    }
}

proof fn lemma_decrement_keys(s: RequirementsView, key: CategoriesView)
    ensures
        forall|k: CategoriesView| #[trigger] has_key(decrement(s, key), k) ==> has_key(s, k),
        strictly_ordered(s) ==> strictly_ordered(decrement(s, key)),
    decreases s.len(),
{
    if s.len() > 0 {
        let init = s.drop_last();
        let last = s.last();
        lemma_decrement_keys(init, key);
        let di = decrement(init, key);
        let d = decrement(s, key);
        assert forall|k: CategoriesView| #[trigger] has_key(d, k) implies has_key(s, k) by {
            let j = choose|j: int| 0 <= j < d.len() && d[j].0 == k;
            if j < di.len() {
                assert(d[j] == di[j]);
                assert(has_key(di, k));
                let t = choose|t: int| 0 <= t < init.len() && init[t].0 == k;
                assert(s[t] == init[t]);
            } else {
                assert(d[j].0 == last.0);
                assert(s[s.len() - 1].0 == k);
            }
        }
        if strictly_ordered(s) {
            assert(strictly_ordered(init)) by {
                assert forall|i: int, j: int| 0 <= i < j < init.len() implies lex_less(
                    #[trigger] init[i].0,
                    #[trigger] init[j].0,
                ) by {
                    assert(init[i] == s[i] && init[j] == s[j]);
                }
            }
            assert forall|i: int, j: int| 0 <= i < j < d.len() implies lex_less(
                #[trigger] d[i].0,
                #[trigger] d[j].0,
            ) by {
                if j < di.len() {
                    assert(d[i] == di[i] && d[j] == di[j]);
                } else {
                    assert(d[i] == di[i]);
                    assert(d[j].0 == last.0);
                    assert(has_key(di, di[i].0));
                    let t = choose|t: int| 0 <= t < init.len() && init[t].0 == di[i].0;
                    assert(s[t] == init[t]);
                    assert(lex_less(s[t].0, s[s.len() - 1].0));
                }
            }
        }
    }
}

/// The keys of the arrangement are among `reqs0`, and no requirement holds no course.
pub open spec fn buckets_ok(arr: ArrangementView, reqs0: RequirementsView) -> bool {
    forall|e: int| 0 <= e < arr.len() ==> has_key(reqs0, (#[trigger] arr[e]).0) && arr[e].1.len() > 0
}

proof fn lemma_assign_buckets(
    arr: ArrangementView,
    key: CategoriesView,
    course: (u64, CategoriesView),
    reqs0: RequirementsView,
)
    requires
        buckets_ok(arr, reqs0),
        has_key(reqs0, key),
    ensures
        buckets_ok(assign(arr, key, course), reqs0),
{
    lemma_key_position_range(arr, key, 0);
    let p = key_position(arr, key, 0);
    let r = assign(arr, key, course);
    if p < arr.len() && arr[p].0 == key {
        let m = arr[p].1;
        lemma_id_position_range(m, course.0, 0);
        assert(add_course(m, course).len() >= m.len());
        assert forall|e: int| 0 <= e < r.len() implies has_key(reqs0, (#[trigger] r[e]).0) && r[e].1.len() > 0 by {
            if e != p {
                assert(r[e] == arr[e]);
            }
        }
    } else {
        assert forall|e: int| 0 <= e < r.len() implies has_key(reqs0, (#[trigger] r[e]).0) && r[e].1.len() > 0 by {
            if e < p {
                assert(r[e] == arr[e]);
            } else if e > p {
                assert(r[e] == arr[e - 1]);
            }
        }
    }
}

proof fn lemma_search_shapes(
    arr: ArrangementView,
    courses: CoursesView,
    reqs: RequirementsView,
    reqs0: RequirementsView,
    o: OutcomeView,
)
    requires
        arrangements(arr, courses, reqs).contains(o),
        arranger_input_ok(courses, reqs),
        buckets_ok(arr, reqs0),
        forall|k: CategoriesView| #[trigger] has_key(reqs, k) ==> has_key(reqs0, k),
    ensures
        arranger_input_ok(o.1.1, o.1.0),
        buckets_ok(o.0, reqs0),
    decreases courses.len(),
{
    lemma_first_fit_range(courses, reqs, 0);
    if reqs.len() == 0 || first_fit_from(courses, reqs, 0) is None {
        assert(arrangements(arr, courses, reqs) == seq![(arr, (reqs, courses))]);
        let j = choose|j: int| 0 <= j < 1 && seq![(arr, (reqs, courses))][j] == o;
        assert(o == (arr, (reqs, courses)));
    } else {
        let i = first_fit_from(courses, reqs, 0)->Some_0;
        let course = courses[i];
        let rest = courses.remove(i);
        let options = sorted_by_count(fitting_requirements(reqs, course.1));
        lemma_outcomes_over_member(arr, rest, reqs, course, options, o);
        let k = choose|k: int|
            0 <= k < options.len() && #[trigger] arrangements(
                assign(arr, options[k].0, course),
                rest,
                decrement(reqs, options[k].0),
            ).contains(o);
        let key = options[k].0;
        lemma_option_member(reqs, course.1, k);
        assert(has_key(reqs, key)) by {
            let j = choose|j: int| 0 <= j < reqs.len() && reqs[j] == options[k];
        }
        law_input_form_is_distinct(courses, reqs);
        lemma_decrement(reqs, key);
        lemma_decrement_keys(reqs, key);
        lemma_assign_buckets(arr, key, course, reqs0);
        let reqs2 = decrement(reqs, key);
        courses.remove_ensures(i);
        assert(arranger_input_ok(rest, reqs2)) by {
            assert forall|a: int, b: int| 0 <= a < b < rest.len() implies (#[trigger] rest[a]).0 < (
            #[trigger] rest[b]).0 by {
                let a2 = if a < i { a } else { a + 1 };
                let b2 = if b < i { b } else { b + 1 };
                assert(rest[a] == courses[a2] && rest[b] == courses[b2]);
            }
            assert forall|a: int| 0 <= a < rest.len() implies is_category_set(#[trigger] rest[a].1) by {
                let a2 = if a < i { a } else { a + 1 };
                assert(rest[a] == courses[a2]);
            }
            assert forall|t: int| 0 <= t < reqs2.len() implies is_category_set(#[trigger] reqs2[t].0) by {
                assert(has_key(reqs2, reqs2[t].0));
                let u = choose|u: int| 0 <= u < reqs.len() && reqs[u].0 == reqs2[t].0;
            }
        }
        lemma_search_shapes(assign(arr, key, course), rest, reqs2, reqs0, o);
    }
}

/// The search keeps the form of its lists: from courses and requirements in the form that
/// `arranger_input_ok` describes, every outcome leaves requirements and courses in that
/// form too. Every requirement of an outcome's arrangement is one of the given
/// requirements, and holds at least one course.
pub proof fn law_search_keeps_its_forms(courses: CoursesView, reqs: RequirementsView, o: OutcomeView)
    requires
        arranger_input_ok(courses, reqs),
        arrangements(Seq::empty(), courses, reqs).contains(o),
    ensures
        arranger_input_ok(o.1.1, o.1.0),
        forall|e: int| 0 <= e < o.0.len() ==> has_key(reqs, (#[trigger] o.0[e]).0) && o.0[e].1.len() > 0,
{
    lemma_search_shapes(Seq::empty(), courses, reqs, reqs, o);
}


proof fn lemma_filter_ranked(s: CategoriesView, p: spec_fn(ElectiveCategory) -> bool)
    requires
        is_category_set(s),
    ensures
        is_category_set(s.filter(p)),
        forall|x: ElectiveCategory| #[trigger] s.filter(p).contains(x) ==> s.contains(x),
    decreases s.len(),
{
    reveal(Seq::filter);
    if s.len() > 0 {
        let init = s.drop_last();
        assert(is_category_set(init)) by {
            assert forall|i: int, j: int| 0 <= i < j < init.len() implies category_rank(#[trigger] init[i])
                < category_rank(#[trigger] init[j]) by {
                assert(init[i] == s[i] && init[j] == s[j]);
            }
        }
        lemma_filter_ranked(init, p);
        let fi = init.filter(p);
        let f = s.filter(p);
        assert forall|x: ElectiveCategory| #[trigger] f.contains(x) implies s.contains(x) by {
            if fi.contains(x) {
                let t = choose|t: int| 0 <= t < init.len() && init[t] == x;
                assert(s[t] == x);
            } else {
                assert(x == s.last());
                assert(s[s.len() - 1] == x);
            }
        }
        if p(s.last()) {
            assert forall|i: int, j: int| 0 <= i < j < f.len() implies category_rank(#[trigger] f[i])
                < category_rank(#[trigger] f[j]) by {
                if j < fi.len() {
                    assert(f[i] == fi[i] && f[j] == fi[j]);
                } else {
                    assert(f[i] == fi[i]);
                    assert(fi.contains(fi[i]));
                    let t = choose|t: int| 0 <= t < init.len() && init[t] == fi[i];
                    assert(s[t] == init[t]);
                }
            }
        }
    }
}

/// What `category_set` gives is a set of categories: each at most once, in increasing order
/// of rank.
pub proof fn law_category_set_is_a_set(cats: CategoriesView)
    ensures
        is_category_set(category_set_of(cats)),
{
    assert(is_category_set(all_categories()));
    lemma_filter_ranked(all_categories(), among(cats));
}

proof fn lemma_requirement_keys_are_sets(entries: Seq<(CategoriesView, u8)>)
    ensures
        forall|k: int|
            0 <= k < requirements_of(entries).len() ==> is_category_set(#[trigger] requirements_of(entries)[k].0),
    decreases entries.len(),
{
    if entries.len() > 0 {
        let prev = requirements_of(entries.drop_last());
        lemma_requirement_keys_are_sets(entries.drop_last());
        let key = category_set_of(entries.last().0);
        law_category_set_is_a_set(entries.last().0);
        lemma_requirement_position(prev, key, 0);
        let p = requirement_position(prev, key, 0);
        let r = requirements_of(entries);
        assert forall|k: int| 0 <= k < r.len() implies is_category_set(#[trigger] r[k].0) by {
            if p < prev.len() && prev[p].0 == key {
                if k != p {
                    assert(r[k] == prev[k]);
                }
            } else if k < p {
                assert(r[k] == prev[k]);
            } else if k > p {
                assert(r[k] == prev[k - 1]);
            }
        }
    }
}

/// The requirements that `requirements_from` builds from entries that each ask for at least
/// one course are in the form that the search keeps (`arranger_input_ok`), together with
/// any courses in that form.
pub proof fn law_requirements_in_form(entries: Seq<(CategoriesView, u8)>, courses: CoursesView)
    requires
        forall|k: int| 0 <= k < entries.len() ==> #[trigger] entries[k].1 > 0,
        ids_increasing(courses),
        forall|i: int| 0 <= i < courses.len() ==> is_category_set(#[trigger] courses[i].1),
    ensures
        arranger_input_ok(courses, requirements_of(entries)),
{
    law_requirements_distinct(entries);
    lemma_requirement_keys_are_sets(entries);
}


proof fn lemma_filter_no_duplicates<A>(s: Seq<A>, p: spec_fn(A) -> bool)
    requires
        s.no_duplicates(),
    ensures
        s.filter(p).no_duplicates(),
    decreases s.len(),
{
    reveal(Seq::filter);
    if s.len() > 0 {
        let init = s.drop_last();
        assert(init.no_duplicates()) by {
            assert forall|i: int, j: int| 0 <= i < init.len() && 0 <= j < init.len() && i != j implies init[i]
                != init[j] by {
                assert(init[i] == s[i] && init[j] == s[j]);
            }
        }
        lemma_filter_no_duplicates(init, p);
        let fi = init.filter(p);
        if p(s.last()) {
            assert(!fi.contains(s.last())) by {
                if fi.contains(s.last()) {
                    init.lemma_filter_contains_rev(p, s.last());
                    let t = choose|t: int| 0 <= t < init.len() && init[t] == s.last();
                    assert(s[t] == s[s.len() - 1]);
                }
            }
            let f = fi.push(s.last());
            assert forall|i: int, j: int| 0 <= i < f.len() && 0 <= j < f.len() && i != j implies f[i] != f[j] by {
                if i < fi.len() && j < fi.len() {
                } else if i < fi.len() {
                    assert(fi.contains(fi[i]));
                } else {
                    assert(fi.contains(fi[j]));
                }
            }
        }
    }
}

proof fn lemma_with_count_below_counts(s: RequirementsView, c: int, x: (CategoriesView, u8))
    requires
        with_count_below(s, c).contains(x),
    ensures
        x.1 < c,
    decreases c,
{
    if c > 0 {
        let a = with_count_below(s, c - 1);
        let b = s.filter(has_count(c - 1));
        if a.contains(x) {
            lemma_with_count_below_counts(s, c - 1, x);
        } else {
            assert(b.contains(x));
            let j = choose|j: int| 0 <= j < b.len() && b[j] == x;
            assert(has_count(c - 1)(b[j]));
        }
    }
}

proof fn lemma_with_count_below_no_duplicates(s: RequirementsView, c: int)
    requires
        s.no_duplicates(),
    ensures
        with_count_below(s, c).no_duplicates(),
    decreases c,
{
    if c > 0 {
        lemma_with_count_below_no_duplicates(s, c - 1);
        let a = with_count_below(s, c - 1);
        let b = s.filter(has_count(c - 1));
        lemma_filter_no_duplicates(s, has_count(c - 1));
        assert forall|i: int, j: int| 0 <= i < a.len() && 0 <= j < b.len() implies a[i] != b[j] by {
            assert(a.contains(a[i]));
            lemma_with_count_below_counts(s, c - 1, a[i]);
            assert(has_count(c - 1)(b[j]));
        }
        vstd::seq_lib::lemma_no_dup_in_concat(a, b);
    }
}

/// The requirements offered to a course, for distinct requirements, are distinct.
proof fn lemma_options_distinct(reqs: RequirementsView, cats: CategoriesView)
    requires
        distinct_keys(reqs),
    ensures
        forall|i: int, j: int|
            0 <= i < j < sorted_by_count(fitting_requirements(reqs, cats)).len() ==> (#[trigger] sorted_by_count(
                fitting_requirements(reqs, cats),
            )[i]).0 != (#[trigger] sorted_by_count(fitting_requirements(reqs, cats))[j]).0,
{
    assert(reqs.no_duplicates()) by {
        assert forall|i: int, j: int| 0 <= i < reqs.len() && 0 <= j < reqs.len() && i != j implies reqs[i]
            != reqs[j] by {
            if i < j {
                assert(reqs[i].0 != reqs[j].0);
            } else {
                assert(reqs[j].0 != reqs[i].0);
            }
        }
    }
    let f = fitting_requirements(reqs, cats);
    lemma_filter_no_duplicates(reqs, meets(cats));
    lemma_with_count_below_no_duplicates(f, 256);
    let options = sorted_by_count(f);
    assert forall|i: int, j: int| 0 <= i < j < options.len() implies (#[trigger] options[i]).0 != (
    #[trigger] options[j]).0 by {
        lemma_option_member(reqs, cats, i);
        lemma_option_member(reqs, cats, j);
        if options[i].0 == options[j].0 {
            let a = choose|a: int| 0 <= a < reqs.len() && reqs[a] == options[i];
            let b = choose|b: int| 0 <= b < reqs.len() && reqs[b] == options[j];
            if a != b {
                if a < b {
                    assert(reqs[a].0 != reqs[b].0);
                } else {
                    assert(reqs[b].0 != reqs[a].0);
                }
            }
            assert(options[i] == options[j]);
        }
    }
}

/// No course sits in two requirements of the arrangement.
pub open spec fn one_bucket_per_course(arr: ArrangementView) -> bool {
    forall|e1: int, e2: int, j1: int, j2: int|
        0 <= e1 < arr.len() && 0 <= e2 < arr.len() && e1 != e2 && 0 <= j1 < arr[e1].1.len() && 0 <= j2
            < arr[e2].1.len() ==> (#[trigger] arr[e1].1[j1]).0 != (#[trigger] arr[e2].1[j2]).0
}

/// Whether the course `c` sits in the arrangement under the requirement `key`.
pub open spec fn course_under(arr: ArrangementView, c: (u64, CategoriesView), key: CategoriesView) -> bool {
    exists|e: int, j: int| 0 <= e < arr.len() && 0 <= j < arr[e].1.len() && arr[e].0 == key && #[trigger] arr[e].1[j] == c
}

proof fn lemma_one_bucket_unique(arr: ArrangementView, c: (u64, CategoriesView), k1: CategoriesView, k2: CategoriesView)
    requires
        one_bucket_per_course(arr),
        course_under(arr, c, k1),
        course_under(arr, c, k2),
    ensures
        k1 == k2,
{
    let (e1, j1) = choose|e: int, j: int| 0 <= e < arr.len() && 0 <= j < arr[e].1.len() && arr[e].0 == k1 && #[trigger] arr[e].1[j] == c;
    let (e2, j2) = choose|e: int, j: int| 0 <= e < arr.len() && 0 <= j < arr[e].1.len() && arr[e].0 == k2 && #[trigger] arr[e].1[j] == c;
    if e1 != e2 {
        assert(arr[e1].1[j1].0 != arr[e2].1[j2].0);
    }
}

proof fn lemma_assign_keeps_buckets(
    arr: ArrangementView,
    key: CategoriesView,
    course: (u64, CategoriesView),
)
    requires
        one_bucket_per_course(arr),
        !assigned_id(arr, course.0),
    ensures
        one_bucket_per_course(assign(arr, key, course)),
        course_under(assign(arr, key, course), course, key),
        forall|c: (u64, CategoriesView), k: CategoriesView|
            #[trigger] course_under(arr, c, k) ==> course_under(assign(arr, key, course), c, k),
{
    lemma_key_position_range(arr, key, 0);
    let p = key_position(arr, key, 0);
    let r = assign(arr, key, course);
    if p < arr.len() && arr[p].0 == key {
        let m = arr[p].1;
        assert(!has_id(m, course.0)) by {
            if has_id(m, course.0) {
                assert(has_id(arr[p].1, course.0));
            }
        }
        lemma_add_new_course(m, course);
        let q = id_position(m, course.0, 0);
        let m2 = m.insert(q, course);
        m.insert_ensures(q, course);
        assert(r == arr.update(p, (key, m2)));
        assert(r[p].1[q] == course);
        assert forall|e1: int, e2: int, j1: int, j2: int|
            0 <= e1 < r.len() && 0 <= e2 < r.len() && e1 != e2 && 0 <= j1 < r[e1].1.len() && 0 <= j2
                < r[e2].1.len() implies (#[trigger] r[e1].1[j1]).0 != (#[trigger] r[e2].1[j2]).0 by {
            if e1 != p && e2 != p {
                assert(r[e1] == arr[e1] && r[e2] == arr[e2]);
            } else if e1 == p {
                assert(r[e2] == arr[e2]);
                if j1 == q {
                    if r[e1].1[j1].0 == r[e2].1[j2].0 {
                        assert(has_id(arr[e2].1, course.0));
                    }
                } else {
                    let j = if j1 < q { j1 } else { j1 - 1 };
                    assert(r[e1].1[j1] == arr[p].1[j]);
                }
            } else {
                assert(r[e1] == arr[e1]);
                if j2 == q {
                    if r[e1].1[j1].0 == r[e2].1[j2].0 {
                        assert(has_id(arr[e1].1, course.0));
                    }
                } else {
                    let j = if j2 < q { j2 } else { j2 - 1 };
                    assert(r[e2].1[j2] == arr[p].1[j]);
                }
            }
        }
        assert forall|c: (u64, CategoriesView), k: CategoriesView| #[trigger] course_under(arr, c, k) implies course_under(r, c, k) by {
            let (e, j) = choose|e: int, j: int| 0 <= e < arr.len() && 0 <= j < arr[e].1.len() && arr[e].0 == k && #[trigger] arr[e].1[j] == c;
            if e != p {
                assert(r[e].1[j] == c);
            } else {
                let j2 = if j < q { j } else { j + 1 };
                assert(r[p].1[j2] == c);
            }
        }
    } else {
        assert(r == arr.insert(p, (key, seq![course])));
        assert(r[p].1[0] == course);
        assert forall|e1: int, e2: int, j1: int, j2: int|
            0 <= e1 < r.len() && 0 <= e2 < r.len() && e1 != e2 && 0 <= j1 < r[e1].1.len() && 0 <= j2
                < r[e2].1.len() implies (#[trigger] r[e1].1[j1]).0 != (#[trigger] r[e2].1[j2]).0 by {
            let a1 = if e1 < p { e1 } else { e1 - 1 };
            let a2 = if e2 < p { e2 } else { e2 - 1 };
            if e1 != p && e2 != p {
                assert(r[e1] == arr[a1] && r[e2] == arr[a2]);
            } else if e1 == p {
                assert(r[e2] == arr[a2]);
                if r[e1].1[j1].0 == r[e2].1[j2].0 {
                    assert(has_id(arr[a2].1, course.0));
                }
            } else {
                assert(r[e1] == arr[a1]);
                if r[e1].1[j1].0 == r[e2].1[j2].0 {
                    assert(has_id(arr[a1].1, course.0));
                }
            }
        }
        assert forall|c: (u64, CategoriesView), k: CategoriesView| #[trigger] course_under(arr, c, k) implies course_under(r, c, k) by {
            let (e, j) = choose|e: int, j: int| 0 <= e < arr.len() && 0 <= j < arr[e].1.len() && arr[e].0 == k && #[trigger] arr[e].1[j] == c;
            let e2 = if e < p { e } else { e + 1 };
            assert(r[e2] == arr[e]);
            assert(r[e2].1[j] == c);
        }
    }
}

/// One step of the search keeps its state well formed.
proof fn lemma_step_ok(arr: ArrangementView, courses: CoursesView, reqs: RequirementsView, i: int, key: CategoriesView)
    requires
        search_state_ok(arr, courses, reqs),
        0 <= i < courses.len(),
    ensures
        search_state_ok(assign(arr, key, courses[i]), courses.remove(i), decrement(reqs, key)),
        !assigned_id(arr, courses[i].0),
        forall|id: u64| !(assigned_id(arr, id) && has_id(courses.remove(i), id)),
        !has_id(courses.remove(i), courses[i].0),
{
    let course = courses[i];
    let rest = courses.remove(i);
    assert(has_id(courses, course.0));
    lemma_assign_new_course(arr, key, course);
    lemma_decrement(reqs, key);
    lemma_remove_course(courses, i);
    let arr2 = assign(arr, key, course);
    assert forall|id: u64| !(assigned_id(arr2, id) && has_id(rest, id)) by {
        if assigned_id(arr2, id) && has_id(rest, id) {
            assert(assigned_id(arr, id) || id == course.0);
            assert(has_id(courses, id));
        }
    }
    assert forall|id: u64| !(assigned_id(arr, id) && has_id(rest, id)) by {
        if has_id(rest, id) {
            assert(has_id(courses, id));
        }
    }
}

/// A course that sits under a requirement stays there in every outcome, and no outcome puts
/// a course under two requirements.
proof fn lemma_buckets_persist(arr: ArrangementView, courses: CoursesView, reqs: RequirementsView, o: OutcomeView)
    requires
        search_state_ok(arr, courses, reqs),
        one_bucket_per_course(arr),
        arrangements(arr, courses, reqs).contains(o),
    ensures
        one_bucket_per_course(o.0),
        forall|c: (u64, CategoriesView), k: CategoriesView| #[trigger] course_under(arr, c, k) ==> course_under(o.0, c, k),
    decreases courses.len(),
{
    lemma_first_fit_range(courses, reqs, 0);
    if reqs.len() == 0 || first_fit_from(courses, reqs, 0) is None {
        assert(arrangements(arr, courses, reqs) == seq![(arr, (reqs, courses))]);
        let j = choose|j: int| 0 <= j < 1 && seq![(arr, (reqs, courses))][j] == o;
        assert(o == (arr, (reqs, courses)));
    } else {
        let i = first_fit_from(courses, reqs, 0)->Some_0;
        let course = courses[i];
        let rest = courses.remove(i);
        let options = sorted_by_count(fitting_requirements(reqs, course.1));
        lemma_outcomes_over_member(arr, rest, reqs, course, options, o);
        let k = choose|k: int|
            0 <= k < options.len() && #[trigger] arrangements(
                assign(arr, options[k].0, course),
                rest,
                decrement(reqs, options[k].0),
            ).contains(o);
        let key = options[k].0;
        lemma_step_ok(arr, courses, reqs, i, key);
        lemma_assign_keeps_buckets(arr, key, course);
        lemma_buckets_persist(assign(arr, key, course), rest, decrement(reqs, key), o);
    }
}

proof fn lemma_arrangements_no_duplicates(arr: ArrangementView, courses: CoursesView, reqs: RequirementsView)
    requires
        search_state_ok(arr, courses, reqs),
        one_bucket_per_course(arr),
    ensures
        arrangements(arr, courses, reqs).no_duplicates(),
    decreases courses.len() + 1, 0int,
{
    lemma_first_fit_range(courses, reqs, 0);
    if reqs.len() == 0 || first_fit_from(courses, reqs, 0) is None {
        assert(arrangements(arr, courses, reqs) == seq![(arr, (reqs, courses))]);
    } else {
        let i = first_fit_from(courses, reqs, 0)->Some_0;
        let course = courses[i];
        let rest = courses.remove(i);
        let options = sorted_by_count(fitting_requirements(reqs, course.1));
        lemma_step_ok(arr, courses, reqs, i, course.1);
        lemma_options_distinct(reqs, course.1);
        lemma_remove_course(courses, i);
        assert forall|k: int| 0 <= k < options.len() implies has_key(reqs, (#[trigger] options[k]).0) by {
            lemma_option_member(reqs, course.1, k);
            let j = choose|j: int| 0 <= j < reqs.len() && reqs[j] == options[k];
        }
        lemma_outcomes_over_no_duplicates(arr, rest, reqs, course, options);
    }
}

proof fn lemma_outcomes_over_no_duplicates(
    arr: ArrangementView,
    rest: CoursesView,
    reqs: RequirementsView,
    course: (u64, CategoriesView),
    options: RequirementsView,
)
    requires
        distinct_keys(reqs),
        counts_positive(reqs),
        distinct_ids(rest),
        forall|id: u64| !(assigned_id(arr, id) && has_id(rest, id)),
        !has_id(rest, course.0),
        !assigned_id(arr, course.0),
        one_bucket_per_course(arr),
        forall|k: int| 0 <= k < options.len() ==> has_key(reqs, (#[trigger] options[k]).0),
        forall|i: int, j: int| 0 <= i < j < options.len() ==> (#[trigger] options[i]).0 != (#[trigger] options[j]).0,
    ensures
        outcomes_over(arr, rest, reqs, course, options).no_duplicates(),
        forall|o: OutcomeView| #[trigger] outcomes_over(arr, rest, reqs, course, options).contains(o) ==> exists|k: int|
            0 <= k < options.len() && course_under(o.0, course, #[trigger] options[k].0),
    decreases rest.len() + 1, options.len() + 1,
{
    if options.len() > 0 {
        let init = options.drop_last();
        let key = options.last().0;
        assert forall|k: int| 0 <= k < init.len() implies has_key(reqs, (#[trigger] init[k]).0) by {
            assert(init[k] == options[k]);
        }
        assert forall|i: int, j: int| 0 <= i < j < init.len() implies (#[trigger] init[i]).0 != (#[trigger] init[j]).0 by {
            assert(init[i] == options[i] && init[j] == options[j]);
        }
        lemma_outcomes_over_no_duplicates(arr, rest, reqs, course, init);
        let a = outcomes_over(arr, rest, reqs, course, init);
        let arr2 = assign(arr, key, course);
        let reqs2 = decrement(reqs, key);
        let b = arrangements(arr2, rest, reqs2);
        lemma_assign_new_course(arr, key, course);
        lemma_decrement(reqs, key);
        assert(search_state_ok(arr2, rest, reqs2)) by {
            assert forall|id: u64| !(assigned_id(arr2, id) && has_id(rest, id)) by {
                if assigned_id(arr2, id) && has_id(rest, id) {
                    assert(assigned_id(arr, id) || id == course.0);
                }
            }
        }
        lemma_assign_keeps_buckets(arr, key, course);
        lemma_arrangements_no_duplicates(arr2, rest, reqs2);
        assert(outcomes_over(arr, rest, reqs, course, options) == a + b);
        assert forall|x: OutcomeView| #[trigger] b.contains(x) implies course_under(x.0, course, key) by {
            lemma_buckets_persist(arr2, rest, reqs2, x);
        }
        assert forall|i: int, j: int| 0 <= i < a.len() && 0 <= j < b.len() implies a[i] != b[j] by {
            assert(a.contains(a[i]));
            let k = choose|k: int| 0 <= k < init.len() && course_under(a[i].0, course, #[trigger] init[k].0);
            assert(b.contains(b[j]));
            if a[i] == b[j] {
                lemma_buckets_persist(arr2, rest, reqs2, b[j]);
                lemma_one_bucket_unique(b[j].0, course, init[k].0, key);
                assert(init[k] == options[k]);
                assert(options[k].0 != options[options.len() - 1].0);
            }
        }
        vstd::seq_lib::lemma_no_dup_in_concat(a, b);
        assert forall|o: OutcomeView| #[trigger] (a + b).contains(o) implies exists|k: int|
            0 <= k < options.len() && course_under(o.0, course, #[trigger] options[k].0) by {
            let t = choose|t: int| 0 <= t < (a + b).len() && (a + b)[t] == o;
            if t < a.len() {
                assert(a[t] == o);
                assert(a.contains(o));
                let k = choose|k: int| 0 <= k < init.len() && course_under(o.0, course, #[trigger] init[k].0);
                assert(init[k] == options[k]);
                assert(course_under(o.0, course, options[k].0));
            } else {
                assert(b[t - a.len()] == o);
                assert(b.contains(o));
                assert(course_under(o.0, course, options[options.len() - 1].0));
            }
        }
    }
}

/// The search reports no outcome twice: for courses with distinct identifiers and distinct
/// requirements that each ask for at least one course, the outcomes of
/// `calculate_arrangements` are pairwise different.
pub proof fn law_no_outcome_repeats(courses: CoursesView, reqs: RequirementsView)
    requires
        distinct_ids(courses),
        distinct_keys(reqs),
        counts_positive(reqs),
    ensures
        arrangements(Seq::empty(), courses, reqs).no_duplicates(),
{
    let empty = Seq::<(CategoriesView, CoursesView)>::empty();
    assert forall|id: u64| !(assigned_id(empty, id) && has_id(courses, id)) by {}
    lemma_arrangements_no_duplicates(empty, courses, reqs);
}

} // verus!
