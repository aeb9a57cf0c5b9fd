use susi::category::ElectiveCategory;
use susi::category::ElectiveCategory::{
    AppliedMaths, CompSciCore, CompSciFundamentals, Humanitarian, Informatics, Maths, Other,
    Practicum, Seminar, Statistics,
};
use susi::course_arranger::{
    calculate_arrangements, category_set, optimal_outcome, requirements_from,
    use_up_single_categories, CategoryRequirements, CoursesWithCats,
};

#[test]
fn test() {

    let category_requirements: CategoryRequirements =
        vec![(vec![AppliedMaths], 1), (vec![CompSciCore], 2)];

    let courses_with_cats: CoursesWithCats = vec![
        (1, vec![AppliedMaths, CompSciCore]),
        (2, vec![AppliedMaths]),
        (3, vec![CompSciCore]),
    ];

    let arrangements = calculate_arrangements(courses_with_cats, category_requirements);
    let optimal_arrangement = &arrangements[optimal_outcome(&arrangements).unwrap()];
    assert_eq!(0, optimal_arrangement.1 .1.len())
}

#[test]
fn search_branches_over_fitting_requirements() {
    let reqs: CategoryRequirements = vec![(vec![AppliedMaths], 1), (vec![CompSciCore], 2)];
    let courses: CoursesWithCats = vec![
        (1, vec![AppliedMaths, CompSciCore]),
        (2, vec![AppliedMaths]),
        (3, vec![CompSciCore]),
    ];
    let outcomes = calculate_arrangements(courses, reqs);
    // The first course goes either to the applied maths requirement (fewest left, tried
    // first) or to the core one.
    assert_eq!(outcomes.len(), 2);
    let (first_arr, (first_reqs, first_left)) = &outcomes[0];
    assert_eq!(first_arr.len(), 2);
    assert_eq!(first_arr[0].0, vec![AppliedMaths]);
    assert_eq!(first_arr[0].1.len(), 1);
    assert_eq!(first_arr[0].1[0].0, 1);
    assert_eq!(first_arr[1].0, vec![CompSciCore]);
    assert_eq!(first_arr[1].1.len(), 1);
    assert_eq!(first_arr[1].1[0].0, 3);
    assert_eq!(first_reqs.len(), 1);
    assert_eq!(first_reqs[0], (vec![CompSciCore], 1));
    assert_eq!(first_left.len(), 1);
    assert_eq!(first_left[0].0, 2);
    let (second_arr, (second_reqs, second_left)) = &outcomes[1];
    assert!(second_reqs.is_empty());
    assert_eq!(second_left.len(), 0);
    assert_eq!(second_arr.len(), 2);
    assert_eq!(second_arr[0].1.len(), 1);
    assert_eq!(second_arr[0].1[0].0, 2);
    assert_eq!(second_arr[1].1.len(), 2);
    assert_eq!(second_arr[1].1[0].0, 1);
    assert_eq!(second_arr[1].1[1].0, 3);
    assert_eq!(optimal_outcome(&outcomes), Some(1));
}

#[test]
fn search_without_requirements_keeps_every_course() {
    let courses: CoursesWithCats = vec![(7, vec![Maths]), (9, vec![Seminar])];
    let outcomes = calculate_arrangements(courses, Vec::new());
    assert_eq!(outcomes.len(), 1);
    assert!(outcomes[0].0.is_empty());
    assert!(outcomes[0].1 .0.is_empty());
    assert_eq!(outcomes[0].1 .1.len(), 2);
}

#[test]
fn search_leaves_courses_that_fit_nothing() {
    let reqs: CategoryRequirements = vec![(vec![Maths], 1)];
    let courses: CoursesWithCats = vec![(1, vec![Seminar]), (2, vec![Humanitarian])];
    let outcomes = calculate_arrangements(courses, reqs);
    assert_eq!(outcomes.len(), 1);
    assert!(outcomes[0].0.is_empty());
    assert_eq!(outcomes[0].1 .0, vec![(vec![Maths], 1)]);
    assert_eq!(outcomes[0].1 .1.len(), 2);
}

#[test]
fn every_outcome_conserves_counts_and_courses() {
    let reqs: CategoryRequirements = vec![
        (vec![Maths], 1),
        (vec![Maths, AppliedMaths], 2),
        (vec![CompSciFundamentals, CompSciCore], 1),
    ];
    let courses: CoursesWithCats = vec![
        (1, vec![Maths]),
        (2, vec![AppliedMaths]),
        (3, vec![Maths, CompSciCore]),
        (4, vec![Statistics]),
        (5, vec![AppliedMaths]),
    ];
    let outcomes = calculate_arrangements(courses.clone(), reqs.clone());
    assert!(!outcomes.is_empty());
    for (arr, (left_reqs, left_courses)) in &outcomes {
        for (key, asked) in &reqs {
            let assigned = arr.iter().filter(|(k, _)| k == key).map(|(_, cs)| cs.len()).sum::<usize>();
            let left = left_reqs.iter().filter(|(k, _)| k == key).map(|(_, n)| *n as usize).sum::<usize>();
            assert_eq!(assigned + left, *asked as usize);
        }
        let total: usize = arr.iter().map(|(_, cs)| cs.len()).sum();
        assert_eq!(total + left_courses.len(), courses.len());
        for (key, cs) in arr {
            for (_, cats) in cs {
                assert!(cats.iter().any(|c| key.contains(c)));
            }
        }
    }
}

#[test]
fn optimal_outcome_of_nothing_is_none() {
    assert_eq!(optimal_outcome(&Vec::new()), None);
}

#[test]
fn category_set_orders_and_dedups() {
    assert_eq!(category_set(&vec![Other, Maths, Other, Informatics]), vec![Informatics, Maths, Other]);
    assert_eq!(category_set(&vec![]), vec![]);
}

#[test]
fn requirements_from_sorts_sets_and_keeps_later_counts() {
    let entries = vec![
        (vec![CompSciCore], 2),
        (vec![AppliedMaths, Maths], 1),
        (vec![CompSciCore], 3),
        (vec![Maths, AppliedMaths], 4),
    ];
    let reqs = requirements_from(&entries);
    assert_eq!(reqs, vec![(vec![Maths, AppliedMaths], 4), (vec![CompSciCore], 3)]);
}

/// The fewest courses that a distribution of the courses from position `i` on leaves out,
/// with `left` places left in each requirement, found by trying every choice.
fn fewest_left_from(i: usize, courses: &CoursesWithCats, left: &mut Vec<u8>, reqs: &CategoryRequirements) -> usize {
    if i == courses.len() {
        return 0;
    }
    let mut best = 1 + fewest_left_from(i + 1, courses, left, reqs);
    for k in 0..reqs.len() {
        if left[k] > 0 && reqs[k].0.iter().any(|c| courses[i].1.contains(c)) {
            left[k] -= 1;
            best = best.min(fewest_left_from(i + 1, courses, left, reqs));
            left[k] += 1;
        }
    }
    best
}

/// The fewest courses that any distribution of the courses over the requirements leaves out.
fn fewest_left_by_brute_force(courses: &CoursesWithCats, reqs: &CategoryRequirements) -> usize {
    let mut left: Vec<u8> = reqs.iter().map(|(_, n)| *n).collect();
    fewest_left_from(0, courses, &mut left, reqs)
}

#[test]
fn optimal_outcome_leaves_no_more_than_any_distribution() {
    let reqs: CategoryRequirements = vec![
        (vec![Maths], 1),
        (vec![Maths, AppliedMaths], 1),
        (vec![CompSciFundamentals, CompSciCore], 2),
        (vec![Seminar], 1),
    ];
    let courses: CoursesWithCats = vec![
        (1, vec![Maths, AppliedMaths]),
        (2, vec![Maths]),
        (3, vec![AppliedMaths, CompSciCore]),
        (4, vec![CompSciCore]),
        (5, vec![CompSciFundamentals]),
        (6, vec![Maths, CompSciFundamentals]),
        (7, vec![Humanitarian]),
    ];
    let outcomes = calculate_arrangements(courses.clone(), reqs.clone());
    let best = &outcomes[optimal_outcome(&outcomes).unwrap()];
    assert_eq!(best.1 .1.len(), fewest_left_by_brute_force(&courses, &reqs));
    assert_eq!(best.1 .1.len(), 3);
}

#[test]
fn single_categories_use_up_their_places() {
    let counts = vec![(AppliedMaths, 1), (CompSciCore, 2)];
    let courses = vec![
        ("c1".to_string(), AppliedMaths),
        ("c2".to_string(), CompSciCore),
        ("c3".to_string(), AppliedMaths),
        ("c4".to_string(), Maths),
    ];
    let (left, kept) = use_up_single_categories(counts, courses);
    assert_eq!(left, vec![(CompSciCore, 1)]);
    assert_eq!(kept, vec![("c3".to_string(), AppliedMaths), ("c4".to_string(), Maths)]);
}

#[test]
fn outcomes_are_distinct_and_keep_their_forms() {
    let reqs: CategoryRequirements = vec![
        (vec![Maths], 1),
        (vec![Maths, AppliedMaths], 2),
        (vec![CompSciFundamentals, CompSciCore], 1),
    ];
    let courses: CoursesWithCats = vec![
        (1, vec![Maths]),
        (2, vec![Maths, AppliedMaths]),
        (3, vec![AppliedMaths, CompSciCore]),
        (4, vec![Maths]),
    ];
    let outcomes = calculate_arrangements(courses, reqs.clone());
    assert!(outcomes.len() > 1);
    for i in 0..outcomes.len() {
        for j in 0..i {
            assert!(outcomes[i] != outcomes[j]);
        }
        let (arr, (left_reqs, left_courses)) = &outcomes[i];
        for (key, cs) in arr {
            assert!(reqs.iter().any(|(k, _)| k == key));
            assert!(!cs.is_empty());
        }
        assert!(left_reqs.iter().all(|(_, n)| *n > 0));
        assert!(left_reqs.windows(2).all(|w| w[0].0 < w[1].0));
        assert!(left_courses.windows(2).all(|w| w[0].0 < w[1].0));
    }
}
