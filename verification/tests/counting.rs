use charcount::counts::{count_chars, total_chars, CharCounts};
use charcount::parallel::{chunk_size, count_chars_parallel, merge_parts, split_chunks};

fn lines(texts: &[&str]) -> Vec<String> {
    texts.iter().map(|t| t.to_string()).collect()
}

fn sorted(counts: &CharCounts) -> Vec<(char, usize)> {
    let mut list = counts.entries();
    list.sort();
    list
}

#[test]
fn new_table_is_empty() {
    let counts = CharCounts::new();
    assert_eq!(counts.get('a'), 0);
    assert!(counts.entries().is_empty());
}

#[test]
fn add_raises_one_count() {
    let mut counts = CharCounts::new();
    counts.add('x', 2);
    counts.add('y', 1);
    counts.add('x', 5);
    assert_eq!(counts.get('x'), 7);
    assert_eq!(counts.get('y'), 1);
    assert_eq!(counts.get('z'), 0);
    assert_eq!(sorted(&counts), vec![('x', 7), ('y', 1)]);
}

#[test]
fn add_text_counts_each_character() {
    let mut counts = CharCounts::new();
    counts.add_text("banana");
    counts.add_text("nab");
    assert_eq!(sorted(&counts), vec![('a', 4), ('b', 2), ('n', 3)]);
}

#[test]
fn count_two_lines() {
    let input = lines(&["aab", "bbc"]);
    let counts = count_chars(&input);
    assert_eq!(counts.get('a'), 2);
    assert_eq!(counts.get('b'), 3);
    assert_eq!(counts.get('c'), 1);
    assert_eq!(counts.get('d'), 0);
    assert_eq!(sorted(&counts), vec![('a', 2), ('b', 3), ('c', 1)]);
}

#[test]
fn count_empty_input() {
    let input: Vec<String> = Vec::new();
    assert!(count_chars(&input).entries().is_empty());
    let blank = lines(&["", ""]);
    assert!(count_chars(&blank).entries().is_empty());
}

#[test]
fn count_is_per_character_not_per_byte() {
    let input = lines(&["héé", "日本日", "\u{10FFFF}\u{E000}\u{D7FF}"]);
    let counts = count_chars(&input);
    assert_eq!(counts.get('h'), 1);
    assert_eq!(counts.get('é'), 2);
    assert_eq!(counts.get('日'), 2);
    assert_eq!(counts.get('本'), 1);
    assert_eq!(counts.get('\u{10FFFF}'), 1);
    assert_eq!(counts.get('\u{E000}'), 1);
    assert_eq!(counts.get('\u{D7FF}'), 1);
    assert_eq!(counts.entries().len(), 7);
}

#[test]
fn entries_hold_characters_and_counts() {
    let input = lines(&["\u{1F600}\u{1F600}a"]);
    assert_eq!(sorted(&count_chars(&input)), vec![('a', 1), ('\u{1F600}', 2)]);
}

#[test]
fn counting_twice_gives_the_same() {
    let input = lines(&["hello world", "", "lorem ipsum", "ß"]);
    assert_eq!(sorted(&count_chars(&input)), sorted(&count_chars(&input)));
}

#[test]
fn total_chars_counts_characters() {
    assert_eq!(total_chars(&lines(&["aab", "bbc"])), Some(6));
    assert_eq!(total_chars(&lines(&["héé", "日本"])), Some(5));
    assert_eq!(total_chars(&lines(&[])), Some(0));
}

#[test]
fn chunk_size_rounds_up() {
    assert_eq!(chunk_size(10, 3), 4);
    assert_eq!(chunk_size(9, 3), 3);
    assert_eq!(chunk_size(1, 8), 1);
    assert_eq!(chunk_size(0, 5), 0);
    assert_eq!(chunk_size(7, 1), 7);
    assert_eq!(chunk_size(usize::MAX, 1), usize::MAX);
    assert_eq!(chunk_size(usize::MAX, 2), usize::MAX / 2 + 1);
    assert_eq!(chunk_size(usize::MAX, usize::MAX), 1);
}

#[test]
fn split_into_equal_chunks_but_the_last() {
    let input = lines(&["a", "b", "c", "d", "e", "f", "g"]);
    let chunks = split_chunks(&input, 3);
    assert_eq!(chunks.len(), 3);
    assert_eq!(chunks[0], &input[0..3]);
    assert_eq!(chunks[1], &input[3..6]);
    assert_eq!(chunks[2], &input[6..7]);
}

#[test]
fn split_may_give_fewer_chunks_than_workers() {
    let input = lines(&["1", "2", "3", "4", "5", "6", "7", "8", "9"]);
    let chunks = split_chunks(&input, 4);
    assert_eq!(chunks.len(), 3);
    assert!(chunks.iter().all(|c| c.len() == 3));
    let few = lines(&["1", "2"]);
    let chunks = split_chunks(&few, 8);
    assert_eq!(chunks.len(), 2);
    assert_eq!(chunks[0], &few[0..1]);
    assert_eq!(chunks[1], &few[1..2]);
}

#[test]
fn split_of_nothing_is_nothing() {
    let input: Vec<String> = Vec::new();
    assert!(split_chunks(&input, 1).is_empty());
    assert!(split_chunks(&input, 4).is_empty());
}

#[test]
fn split_for_one_worker_is_the_whole() {
    let input = lines(&["a", "b", "c"]);
    let chunks = split_chunks(&input, 1);
    assert_eq!(chunks.len(), 1);
    assert_eq!(chunks[0], &input[..]);
}

#[test]
fn chunks_partition_the_lines() {
    let input = lines(&["a", "b", "c", "d", "e", "f", "g", "h", "i", "j", "k"]);
    for n in 1..=13 {
        let chunks = split_chunks(&input, n);
        assert!(chunks.len() <= n);
        let joined: Vec<String> = chunks.iter().flat_map(|c| c.iter().cloned()).collect();
        assert_eq!(joined, input);
    }
}

#[test]
fn chunk_counts_sum_to_the_whole() {
    let input = lines(&["abc", "aab", "", "ccc", "xyz", "a"]);
    let whole = count_chars(&input);
    for n in 1..=7 {
        for c in ['a', 'b', 'c', 'x', 'y', 'z', 'q'] {
            let sum: usize = split_chunks(&input, n).iter().map(|chunk| count_chars(chunk).get(c)).sum();
            assert_eq!(sum, whole.get(c));
        }
    }
}

#[test]
fn merge_adds_counts() {
    let mut left = count_chars(&lines(&["aab"]));
    let right = count_chars(&lines(&["bbc"]));
    left.merge(&right);
    assert_eq!(sorted(&left), vec![('a', 2), ('b', 3), ('c', 1)]);
    assert_eq!(sorted(&right), vec![('b', 2), ('c', 1)]);
    left.merge(&CharCounts::new());
    assert_eq!(sorted(&left), vec![('a', 2), ('b', 3), ('c', 1)]);
}

#[test]
fn merge_parts_in_any_order() {
    let one = || count_chars(&lines(&["aab"]));
    let two = || count_chars(&lines(&["bbc"]));
    let three = || count_chars(&lines(&["cd"]));
    let forward = merge_parts(&[one(), two(), three()]);
    let backward = merge_parts(&[three(), two(), one()]);
    assert_eq!(sorted(&forward), vec![('a', 2), ('b', 3), ('c', 2), ('d', 1)]);
    assert_eq!(sorted(&forward), sorted(&backward));
    assert!(merge_parts(&[]).entries().is_empty());
}

#[test]
fn chunked_count_equals_plain_count() {
    let input = lines(&["the quick", "brown fox", "jumps", "", "over the", "lazy dog", "ünïcödé"]);
    let plain = sorted(&count_chars(&input));
    for n in 1..=10 {
        assert_eq!(sorted(&count_chars_parallel(&input, n)), plain);
    }
}

#[test]
fn chunked_count_does_not_depend_on_workers() {
    let input = lines(&["aab", "bbc"]);
    let one = sorted(&count_chars_parallel(&input, 1));
    let two = sorted(&count_chars_parallel(&input, 2));
    let many = sorted(&count_chars_parallel(&input, usize::MAX));
    assert_eq!(one, vec![('a', 2), ('b', 3), ('c', 1)]);
    assert_eq!(one, two);
    assert_eq!(one, many);
}

#[test]
fn chunked_count_of_empty_input() {
    let input: Vec<String> = Vec::new();
    for n in 1..=4 {
        assert!(count_chars_parallel(&input, n).entries().is_empty());
    }
}
