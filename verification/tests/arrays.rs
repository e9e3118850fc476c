use dryip::arrays::{
    all_equal, all_unique, arithmetic_progression, bifurcate, bifurcate_by, chunk, compact,
    count_by, count_occurrences, deep_flatten, difference, every,
};
use std::collections::{HashMap, HashSet};

fn starts_with(item: &str) -> bool {
    item.starts_with('b')
}

fn len(item: &str) -> i32 {
    item.len() as i32
}

fn bigger(item: i32) -> bool {
    item > 1
}

#[test]
fn test_all_equal() {
    assert!(all_equal(vec![1, 1, 1, 1]));
    assert!(!all_equal(vec![1, 2, 3, 4, 5, 6]));
}

#[test]
fn all_equal_of_a_repeated_value() {
    for x in [0, 1, 7, u32::MAX] {
        assert!(all_equal(vec![x, x, x]));
    }
}

#[test]
fn all_equal_of_two_distinct_values() {
    for (x, y) in [(0, 1), (1, 0), (7, u32::MAX), (u32::MAX, 0)] {
        assert!(!all_equal(vec![x, y]));
    }
}

#[test]
fn all_equal_of_short_lists() {
    assert!(all_equal(vec![]));
    assert!(all_equal(vec![42]));
}

#[test]
fn all_equal_sees_a_late_difference() {
    assert!(!all_equal(vec![3, 3, 3, 4]));
    assert!(!all_equal(vec![4, 3, 3, 3]));
}

#[test]
fn test_all_unique() {
    assert!(all_unique(vec![1, 2, 3, 4, 5, 6]));
    assert!(!all_unique(vec![1, 2, 2, 3, 4, 5]));
}

#[test]
fn all_unique_of_a_repeated_first_value() {
    assert!(!all_unique(vec![1, 1, 3]));
}

#[test]
fn all_unique_counts_distinct_values() {
    let lists: Vec<Vec<u32>> = vec![
        vec![],
        vec![5],
        vec![5, 5],
        vec![1, 2, 3],
        vec![1, 2, 1],
        vec![9, 8, 7, 9],
        vec![0, u32::MAX],
    ];
    for list in lists {
        let distinct: HashSet<u32> = list.iter().copied().collect();
        assert_eq!(distinct.len() == list.len(), all_unique(list));
    }
}

#[test]
fn test_bifurcate() {
    let expected: Vec<Vec<&str>> = vec![vec!["beep", "boop", "bar"], vec!["foo"]];
    assert_eq!(
        Some(expected),
        bifurcate(
            ["beep", "boop", "foo", "bar"].as_ref(),
            [true, true, false, true].as_ref()
        )
    );
}

#[test]
fn bifurcate_of_nothing() {
    let expected: Vec<Vec<&str>> = vec![vec![], vec![]];
    assert_eq!(Some(expected), bifurcate(&[], &[]));
}

#[test]
fn bifurcate_keeps_the_order_of_both_groups() {
    let expected: Vec<Vec<&str>> = vec![vec!["b", "d"], vec!["a", "c", "e"]];
    assert_eq!(
        Some(expected),
        bifurcate(
            &["a", "b", "c", "d", "e"],
            &[false, true, false, true, false]
        )
    );
}

#[test]
fn bifurcate_refuses_unequal_lengths() {
    assert_eq!(None, bifurcate(&["beep", "boop"], &[true]));
    assert_eq!(None, bifurcate(&["beep"], &[true, false]));
    assert_eq!(None, bifurcate(&[], &[false]));
}

#[test]
fn test_bifurcate_by() {
    let expected: Vec<Vec<&str>> = vec![vec!["beep", "boop", "bar"], vec!["foo"]];
    assert_eq!(
        expected,
        bifurcate_by(["beep", "boop", "foo", "bar"].as_ref(), &starts_with)
    );
}

#[test]
fn bifurcate_by_agrees_with_bifurcate() {
    let items = ["bar", "foo", "baz", "", "b", "qux"];
    let flags: Vec<bool> = items.iter().map(|item| starts_with(item)).collect();
    assert_eq!(
        bifurcate(&items, &flags),
        Some(bifurcate_by(&items, &starts_with))
    );
}

#[test]
fn bifurcate_by_of_nothing() {
    let expected: Vec<Vec<&str>> = vec![vec![], vec![]];
    assert_eq!(expected, bifurcate_by(&[], &starts_with));
}

#[test]
fn test_chunk() {
    let input = vec![1, 2, 3, 4, 5];
    let expected = vec![vec![1, 2], vec![3, 4], vec![5]];
    assert_eq!(Some(expected), chunk(&input, 2));

    let input = vec![1, 2, 3, 4, 5];
    let expected = vec![vec![1], vec![2], vec![3], vec![4], vec![5]];
    assert_eq!(Some(expected), chunk(&input, 1));

    let input = vec![1, 2, 3, 4, 5];
    let expected = vec![vec![1, 2, 3, 4, 5]];
    assert_eq!(Some(expected), chunk(&input, 5));
}

#[test]
fn chunk_refuses_a_size_of_zero() {
    assert_eq!(None, chunk(&[1, 2, 3], 0));
    assert_eq!(None, chunk(&[], 0));
}

#[test]
fn chunk_of_nothing() {
    let expected: Vec<Vec<i32>> = vec![];
    assert_eq!(Some(expected), chunk(&[], 3));
}

#[test]
fn chunk_with_a_size_beyond_the_length() {
    assert_eq!(Some(vec![vec![1, 2, 3]]), chunk(&[1, 2, 3], 4));
    assert_eq!(Some(vec![vec![1, 2, 3]]), chunk(&[1, 2, 3], usize::MAX));
}

#[test]
fn chunk_with_full_groups_only() {
    assert_eq!(
        Some(vec![vec![1, 2, 3], vec![4, 5, 6]]),
        chunk(&[1, 2, 3, 4, 5, 6], 3)
    );
}

#[test]
fn chunks_flatten_to_the_list() {
    let input: Vec<i32> = (1..=17).collect();
    for size in 1..=20 {
        let groups = chunk(&input, size).unwrap();
        assert_eq!((input.len() + size - 1) / size, groups.len());
        assert_eq!(input, deep_flatten(groups));
    }
}

#[test]
fn test_compact() {
    let input = vec![None, Some(1), None, None];
    let expected = vec![Some(1)];
    assert_eq!(expected, compact(input));
}

#[test]
fn compact_keeps_order_and_repeats() {
    let input = vec![Some(3), None, Some(1), Some(3), None, Some(0)];
    assert_eq!(vec![Some(3), Some(1), Some(3), Some(0)], compact(input));
    let nothing: Vec<Option<i32>> = vec![];
    assert_eq!(nothing, compact(vec![None, None]));
    assert_eq!(nothing, compact(vec![]));
}

#[test]
fn test_count_by() {
    let expected = HashMap::from([(3, 2), (5, 1)]);
    let input = vec!["one", "two", "three"];
    assert_eq!(expected, count_by(input, &len));
}

#[test]
fn count_by_of_nothing() {
    let expected: HashMap<i32, i32> = HashMap::new();
    assert_eq!(expected, count_by(vec![], &len));
}

#[test]
fn count_by_with_one_key() {
    let expected = HashMap::from([(1, 4)]);
    assert_eq!(expected, count_by(vec!["a", "b", "c", "a"], &len));
}

#[test]
fn test_count_occurences() {
    let input = vec![1, 1, 2, 1, 2, 3];
    assert_eq!(3, count_occurrences(&input, 1));

    let input = vec![0, 100, 2, 1, 2, 3];
    assert_eq!(1, count_occurrences(&input, 0));
}

#[test]
fn count_occurrences_of_an_absent_value() {
    assert_eq!(0, count_occurrences(&[1, 2, 3], 4));
    assert_eq!(0, count_occurrences(&[], 4));
    assert_eq!(2, count_occurrences(&[i32::MIN, 0, i32::MIN], i32::MIN));
}

#[test]
fn test_deep_flatten() {
    let input = vec![vec![1], vec![2], vec![3, 4], vec![5]];
    let expected = vec![1, 2, 3, 4, 5];
    assert_eq!(expected, deep_flatten(input));

    let input = vec![vec![1, 2, 3, 4], vec![5, 6]];
    let expected = vec![1, 2, 3, 4, 5, 6];
    assert_eq!(expected, deep_flatten(input));
}

#[test]
fn deep_flatten_with_empty_lists() {
    let nothing: Vec<i32> = vec![];
    assert_eq!(nothing, deep_flatten(vec![]));
    assert_eq!(nothing, deep_flatten(vec![vec![], vec![]]));
    assert_eq!(vec![7, 8], deep_flatten(vec![vec![], vec![7], vec![], vec![8]]));
}

#[test]
fn test_difference() {
    let (a, b) = (&[1, 2, 3], &[1, 2, 4]);
    assert_eq!(vec![3], difference(a, b));
}

#[test]
fn difference_keeps_order_and_repeats() {
    assert_eq!(vec![3, 1, 1, 3], difference(&[3, 1, 2, 1, 2, 3], &[2, 2, 5]));
    assert_eq!(vec![1, 2, 3], difference(&[1, 2, 3], &[]));
    let nothing: Vec<i32> = vec![];
    assert_eq!(nothing, difference(&[], &[1]));
    assert_eq!(nothing, difference(&[4, 4], &[4]));
}

#[test]
fn test_every() {
    let input = &[4, 2, 3];
    assert_eq!(true, every(input, &bigger));
}

#[test]
fn every_needs_all_elements() {
    assert!(!every(&[4, 1, 3], &bigger));
    assert!(!every(&[0, 5], &bigger));
    assert!(!every(&[5, 0], &bigger));
    assert!(!every(&[0], &bigger));
}

#[test]
fn every_of_nothing() {
    assert!(every(&[], &bigger));
}

#[test]
fn test_arithmetic_progression() {
    assert_eq!(vec![5, 10, 15, 20, 25], arithmetic_progression(5, 25));
    assert_eq!(vec![2, 4, 6, 8, 10], arithmetic_progression(2, 10));
}

#[test]
fn arithmetic_progression_stops_below_the_limit() {
    assert_eq!(vec![5, 10, 15, 20, 25], arithmetic_progression(5, 29));
    assert_eq!(vec![5, 10, 15, 20, 25, 30], arithmetic_progression(5, 30));
    assert_eq!(vec![1, 2, 3], arithmetic_progression(1, 3));
    assert_eq!(vec![7], arithmetic_progression(7, 7));
}

#[test]
fn arithmetic_progression_under_the_first_multiple() {
    let nothing: Vec<i32> = vec![];
    assert_eq!(nothing, arithmetic_progression(5, 4));
    assert_eq!(nothing, arithmetic_progression(5, 0));
    assert_eq!(nothing, arithmetic_progression(1, -3));
}

#[test]
fn arithmetic_progression_near_the_greatest_number() {
    assert_eq!(vec![i32::MAX], arithmetic_progression(i32::MAX, i32::MAX));
    assert_eq!(vec![1 << 30], arithmetic_progression(1 << 30, i32::MAX));
    assert_eq!(
        vec![1_000_000_000, 2_000_000_000],
        arithmetic_progression(1_000_000_000, i32::MAX)
    );
}
