use set_solver::rules::{check_items, count_distinct, validate};
use set_solver::{find_valid_groups, parse_args, solve, Solver};

fn items_of(digits: &str, variant_count: usize) -> Vec<Vec<u8>> {
    let values: Vec<u8> = digits.bytes().map(|b| b - b'0').collect();
    values.chunks(variant_count).map(|row| row.to_vec()).collect()
}

const SAMPLE: &str = "100010202101122011210212011212210101102102112201";

/// All strictly increasing index tuples of `size` members over `0..count`,
/// in lexicographic order, built without the library.
fn combinations(count: usize, size: usize) -> Vec<Vec<usize>> {
    let mut all: Vec<Vec<usize>> = vec![vec![]];
    for _ in 0..size {
        let mut longer = Vec::new();
        for tuple in &all {
            let from = tuple.last().map_or(0, |last| last + 1);
            for next in from..count {
                let mut grown = tuple.clone();
                grown.push(next);
                longer.push(grown);
            }
        }
        all = longer;
    }
    all
}

/// The rule, written out without the library.
fn passes(items: &[Vec<u8>], group: &[usize], variant_count: usize) -> bool {
    (0..variant_count).all(|position| {
        let mut values: Vec<u8> = group.iter().map(|&i| items[i][position]).collect();
        values.sort();
        values.dedup();
        values.len() == 1 || values.len() == group.len()
    })
}

#[test]
fn test_simple() {
    let args = vec![String::new(), "100010202101122011210212011212210101102102112201".to_string()];
    let (items, set_size, variant_count) = parse_args(args);
    let solution = solve(items, set_size, variant_count);
    let expected = vec![
        vec![1, 2, 5],
        vec![1, 6, 11],
        vec![2, 9, 10],
        vec![3, 5, 11],
        vec![4, 7, 9],
        vec![7, 10, 11],
    ];
    assert_eq!(solution.0, expected);
}

#[test]
fn sample_groups_in_order() {
    let groups = find_valid_groups(items_of(SAMPLE, 4), 3, 4);
    let expected: Vec<Vec<usize>> = vec![
        vec![1, 2, 5],
        vec![1, 6, 11],
        vec![2, 9, 10],
        vec![3, 5, 11],
        vec![4, 7, 9],
        vec![7, 10, 11],
    ];
    assert_eq!(groups, expected);
}

#[test]
fn same_inputs_same_groups() {
    let first = find_valid_groups(items_of(SAMPLE, 4), 3, 4);
    let second = find_valid_groups(items_of(SAMPLE, 4), 3, 4);
    assert_eq!(first, second);
    assert_eq!(first.len(), 6);
}

#[test]
fn groups_hold_increasing_indices_in_range() {
    let items = items_of(SAMPLE, 4);
    let count = items.len();
    for size in 1..=3 {
        let groups = find_valid_groups(items.clone(), size, 4);
        assert!(!groups.is_empty());
        for group in &groups {
            assert_eq!(group.len(), size);
            assert!(group.iter().all(|&i| i < count));
            assert!(group.windows(2).all(|pair| pair[0] < pair[1]));
        }
    }
}

#[test]
fn groups_are_all_the_valid_combinations() {
    let items = items_of(SAMPLE, 4);
    assert_eq!(find_valid_groups(items.clone(), 4, 4), Vec::<Vec<usize>>::new());
    for size in 1..=5 {
        let expected: Vec<Vec<usize>> = combinations(items.len(), size)
            .into_iter()
            .filter(|group| passes(&items, group, 4))
            .collect();
        assert_eq!(find_valid_groups(items.clone(), size, 4), expected);
    }
}

#[test]
fn groups_ascend_lexicographically() {
    let groups = find_valid_groups(items_of(SAMPLE, 4), 3, 4);
    assert!(groups.len() > 1);
    assert!(groups.windows(2).all(|pair| pair[0] < pair[1]));
    let pairs = find_valid_groups(items_of("0123", 1), 2, 1);
    let expected: Vec<Vec<usize>> =
        vec![vec![0, 1], vec![0, 2], vec![0, 3], vec![1, 2], vec![1, 3], vec![2, 3]];
    assert_eq!(pairs, expected);
}

#[test]
fn no_group_larger_than_the_collection() {
    let items = items_of("000000", 2);
    assert_eq!(find_valid_groups(items.clone(), 3, 2), vec![vec![0usize, 1, 2]]);
    assert_eq!(find_valid_groups(items.clone(), 4, 2), Vec::<Vec<usize>>::new());
    assert_eq!(find_valid_groups(items, 100, 2), Vec::<Vec<usize>>::new());
}

#[test]
fn empty_collection_has_no_group() {
    assert_eq!(find_valid_groups(Vec::new(), 3, 4), Vec::<Vec<usize>>::new());
    assert_eq!(find_valid_groups(Vec::new(), 1, 4), Vec::<Vec<usize>>::new());
    assert_eq!(find_valid_groups(Vec::new(), 0, 4), Vec::<Vec<usize>>::new());
}

#[test]
fn no_group_without_members() {
    assert_eq!(find_valid_groups(items_of(SAMPLE, 4), 0, 4), Vec::<Vec<usize>>::new());
}

#[test]
fn uniform_single_attribute_makes_every_combination_valid() {
    let items: Vec<Vec<u8>> = vec![vec![7]; 6];
    for size in 1..=6 {
        assert_eq!(find_valid_groups(items.clone(), size, 1), combinations(6, size));
    }
    assert_eq!(find_valid_groups(items, 3, 1).len(), 20);
}

#[test]
fn two_values_among_three_members_are_rejected() {
    // The first attribute holds 0, 0, 1; the others are all alike or all different.
    let items: Vec<Vec<u8>> = vec![vec![0, 5, 1], vec![0, 5, 2], vec![1, 5, 3]];
    assert!(!validate(&items, &[0, 1, 2], 3));
    assert_eq!(count_distinct(&items, &[0, 1, 2], 0), 2);
    assert_eq!(find_valid_groups(items, 3, 3), Vec::<Vec<usize>>::new());
    // With the first attribute mended the same group is valid.
    let mended: Vec<Vec<u8>> = vec![vec![0, 5, 1], vec![0, 5, 2], vec![0, 5, 3]];
    assert!(validate(&mended, &[0, 1, 2], 3));
    assert_eq!(find_valid_groups(mended, 3, 3), vec![vec![0usize, 1, 2]]);
}

#[test]
fn every_pair_is_valid() {
    let items = items_of("0011223344", 2);
    assert_eq!(find_valid_groups(items, 2, 2), combinations(5, 2));
}

#[test]
fn every_single_item_is_valid() {
    let items = items_of("0011223344", 2);
    assert_eq!(find_valid_groups(items, 1, 2), combinations(5, 1));
}

#[test]
fn four_members_need_one_or_four_values() {
    // Position 0 holds 0, 1, 2, 3 (four values), position 1 holds 4 throughout.
    let items: Vec<Vec<u8>> = vec![vec![0, 4], vec![1, 4], vec![2, 4], vec![3, 4], vec![3, 4]];
    assert!(validate(&items, &[0, 1, 2, 3], 2));
    // Three values among four members fail.
    assert!(!validate(&items, &[1, 2, 3, 4], 2));
    assert_eq!(count_distinct(&items, &[1, 2, 3, 4], 0), 3);
    assert_eq!(find_valid_groups(items, 4, 2), vec![vec![0usize, 1, 2, 3], vec![0, 1, 2, 4]]);
}

#[test]
fn count_distinct_counts_values_not_members() {
    let items: Vec<Vec<u8>> = vec![vec![1, 9], vec![1, 8], vec![2, 9], vec![1, 7]];
    assert_eq!(count_distinct(&items, &[0, 1, 2, 3], 0), 2);
    assert_eq!(count_distinct(&items, &[0, 1, 2, 3], 1), 3);
    assert_eq!(count_distinct(&items, &[0, 1, 3], 0), 1);
    assert_eq!(count_distinct(&items, &[], 0), 0);
    // Only the members of the group have to hold the position.
    let ragged: Vec<Vec<u8>> = vec![vec![1, 9], vec![], vec![2, 9]];
    assert_eq!(count_distinct(&ragged, &[0, 2], 1), 1);
}

#[test]
fn validate_with_no_attribute_accepts() {
    let items: Vec<Vec<u8>> = vec![vec![], vec![], vec![]];
    assert!(validate(&items, &[0, 1, 2], 0));
    assert_eq!(find_valid_groups(items, 2, 0), combinations(3, 2));
}

#[test]
fn items_with_equal_values_are_told_apart_by_index() {
    let items: Vec<Vec<u8>> = vec![vec![1, 2], vec![1, 2], vec![1, 2]];
    assert_eq!(find_valid_groups(items, 3, 2), vec![vec![0usize, 1, 2]]);
}

#[test]
fn solver_appends_to_what_it_holds() {
    let mut solver = Solver {
        items: items_of(SAMPLE, 4),
        set_size: 3,
        variant_count: 4,
        sets: vec![vec![9, 9, 9]],
    };
    let sets = solver.solve();
    assert_eq!(sets.len(), 7);
    assert_eq!(sets[0], vec![9, 9, 9]);
    assert_eq!(sets[1], vec![1, 2, 5]);
    assert_eq!(sets[6], vec![7, 10, 11]);
    assert_eq!(solver.sets, sets);
    assert_eq!(solver.set_size, 3);
    assert_eq!(solver.variant_count, 4);
    assert_eq!(solver.items, items_of(SAMPLE, 4));
}

#[test]
fn solve_helper_extends_one_prefix() {
    let mut solver =
        Solver { items: items_of(SAMPLE, 4), set_size: 3, variant_count: 4, sets: vec![] };
    solver.solve_helper(&[], 1);
    assert_eq!(solver.sets, vec![vec![1usize, 2, 5], vec![1, 6, 11]]);
    solver.solve_helper(&[7], 10);
    assert_eq!(solver.sets, vec![vec![1usize, 2, 5], vec![1, 6, 11], vec![7, 10, 11]]);
    solver.solve_helper(&[7, 10], 11);
    assert_eq!(solver.sets.len(), 4);
    assert_eq!(solver.sets[3], vec![7, 10, 11]);
}

#[test]
fn solve_helper_past_the_end_or_too_long_adds_nothing() {
    let mut solver =
        Solver { items: items_of(SAMPLE, 4), set_size: 3, variant_count: 4, sets: vec![] };
    solver.solve_helper(&[], 12);
    solver.solve_helper(&[1, 2], 400);
    solver.solve_helper(&[1, 2, 5], 6);
    solver.solve_helper(&[1, 2, 500], 6);
    solver.solve_helper(&[1, 2], 3);
    assert!(solver.sets.is_empty());
}

#[test]
fn check_items_compares_every_length() {
    assert!(check_items(&items_of(SAMPLE, 4), 4));
    assert!(!check_items(&items_of(SAMPLE, 4), 3));
    assert!(check_items(&Vec::new(), 4));
    let ragged: Vec<Vec<u8>> = vec![vec![1, 2], vec![1, 2, 3], vec![1, 2]];
    assert!(!check_items(&ragged, 2));
    assert!(!check_items(&ragged, 3));
    let short_last: Vec<Vec<u8>> = vec![vec![1, 2], vec![1]];
    assert!(!check_items(&short_last, 2));
}
