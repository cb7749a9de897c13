use charcount::bench::{benchmark, benchmark_all, mean_nanos, SweepPoint};
use charcount::counts::{count_chars, CharCounts};
use charcount::report::{above, at_least_one, at_least_one_run, top_entries};

fn table(texts: &[&str]) -> CharCounts {
    let input: Vec<String> = texts.iter().map(|t| t.to_string()).collect();
    count_chars(&input)
}

fn entries_sorted(counts: &CharCounts) -> Vec<(char, usize)> {
    let mut list = counts.entries();
    list.sort();
    list
}

#[test]
fn zero_options_are_raised_to_one() {
    assert_eq!(at_least_one(0), (1, true));
    assert_eq!(at_least_one(1), (1, false));
    assert_eq!(at_least_one(8), (8, false));
    assert_eq!(at_least_one(usize::MAX), (usize::MAX, false));
    assert_eq!(at_least_one_run(0), (1, true));
    assert_eq!(at_least_one_run(100), (100, false));
    assert_eq!(at_least_one_run(u32::MAX), (u32::MAX, false));
}

#[test]
fn above_orders_by_count_then_character() {
    assert!(above(('a', 3), ('z', 2)));
    assert!(!above(('z', 2), ('a', 3)));
    assert!(above(('b', 2), ('a', 2)));
    assert!(!above(('a', 2), ('b', 2)));
    assert!(!above(('a', 2), ('a', 2)));
}

#[test]
fn top_two_of_two_lines() {
    let counts = table(&["aab", "bbc"]);
    assert_eq!(top_entries(&counts, 2), vec![('b', 3), ('a', 2)]);
}

#[test]
fn top_rank_zero_reports_one() {
    let counts = table(&["aab", "bbc"]);
    assert_eq!(top_entries(&counts, 0), vec![('b', 3)]);
    assert_eq!(top_entries(&counts, 1), vec![('b', 3)]);
}

#[test]
fn top_rank_beyond_the_table_reports_all() {
    let counts = table(&["aab", "bbc"]);
    assert_eq!(top_entries(&counts, 3), vec![('b', 3), ('a', 2), ('c', 1)]);
    assert_eq!(top_entries(&counts, 10), vec![('b', 3), ('a', 2), ('c', 1)]);
    assert_eq!(top_entries(&counts, usize::MAX), vec![('b', 3), ('a', 2), ('c', 1)]);
}

#[test]
fn top_of_empty_table_is_empty() {
    let counts = CharCounts::new();
    assert!(top_entries(&counts, 0).is_empty());
    assert!(top_entries(&counts, 1).is_empty());
    assert!(top_entries(&counts, 5).is_empty());
}

#[test]
fn top_breaks_ties_by_higher_character() {
    let counts = table(&["abc", "cba", "d"]);
    assert_eq!(top_entries(&counts, 4), vec![('c', 2), ('b', 2), ('a', 2), ('d', 1)]);
    assert_eq!(top_entries(&counts, 2), vec![('c', 2), ('b', 2)]);
}

#[test]
fn mean_rounds_down() {
    assert_eq!(mean_nanos(1000, 3), 333);
    assert_eq!(mean_nanos(1000, 1), 1000);
    assert_eq!(mean_nanos(0, 100), 0);
    assert_eq!(mean_nanos(5, 10), 0);
    assert_eq!(mean_nanos(u128::MAX, u32::MAX), u128::MAX / (u32::MAX as u128));
}

#[test]
fn benchmark_returns_the_counts() {
    let input: Vec<String> = vec!["aab".to_string(), "bbc".to_string()];
    let (_, once) = benchmark(&input, 2, 1);
    assert_eq!(entries_sorted(&once), vec![('a', 2), ('b', 3), ('c', 1)]);
    let (_, often) = benchmark(&input, 1, 25);
    assert_eq!(entries_sorted(&often), vec![('a', 2), ('b', 3), ('c', 1)]);
}

#[test]
fn benchmark_of_empty_input() {
    let input: Vec<String> = Vec::new();
    let (_, counts) = benchmark(&input, 3, 2);
    assert!(counts.entries().is_empty());
}

#[test]
fn sweep_has_one_point_per_worker_count() {
    let input: Vec<String> = vec!["aab".to_string(), "bbc".to_string()];
    let (points, counts) = benchmark_all(&input, 2, 1);
    let levels: Vec<usize> = points.iter().map(|p: &SweepPoint| p.threads).collect();
    assert_eq!(levels, vec![1, 2]);
    assert_eq!(entries_sorted(&counts), vec![('a', 2), ('b', 3), ('c', 1)]);
    assert_eq!(top_entries(&counts, 2), vec![('b', 3), ('a', 2)]);
}

#[test]
fn sweep_of_one_line_with_one_worker() {
    let input: Vec<String> = vec!["x".to_string()];
    let (points, counts) = benchmark_all(&input, 1, 100);
    assert_eq!(points.len(), 1);
    assert_eq!(points[0].threads, 1);
    assert_eq!(entries_sorted(&counts), vec![('x', 1)]);
}

#[test]
fn sweep_of_empty_input() {
    let input: Vec<String> = Vec::new();
    let (points, counts) = benchmark_all(&input, 5, 3);
    let levels: Vec<usize> = points.iter().map(|p| p.threads).collect();
    assert_eq!(levels, vec![1, 2, 3, 4, 5]);
    assert!(counts.entries().is_empty());
    assert!(top_entries(&counts, 1).is_empty());
}
