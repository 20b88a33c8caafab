use sorting::compare::is_sorted;
use sorting::flatten::IntoIter;
use sorting::heap_sort::{Comparable, SortError, Sortable};
use sorting::tree::Element;

/// A value ordered by its key alone, with a tag that tells equal keys apart.
#[derive(Debug, Clone, Copy, PartialEq, Eq)]
struct Keyed {
    key: i32,
    tag: u32,
}

impl Comparable for Keyed {
    fn compare_spec(&self, other: &Keyed) -> i64 {
        self.compare(other)
    }

    fn compare(&self, other: &Keyed) -> i64 {
        self.key.compare(&other.key)
    }
}

fn pseudo_random(n: usize, seed: u64, modulus: u64) -> Vec<i32> {
    let mut state = seed;
    let mut out = Vec::with_capacity(n);
    for _ in 0..n {
        state = state.wrapping_mul(6364136223846793005).wrapping_add(1442695040888963407);
        out.push(((state >> 33) % modulus) as i32);
    }
    out
}

#[test]
fn compare_i32_signs() {
    assert_eq!(3i32.compare(&7), -1);
    assert_eq!(7i32.compare(&3), 1);
    assert_eq!(99i32.compare(&99), 0);
    assert_eq!(i32::MIN.compare(&i32::MAX), -1);
}

#[test]
fn sort_mixed_with_duplicates() {
    let out = vec![5, 3, 5, 1, 4].heap_sort().unwrap();
    assert_eq!(out, vec![1, 3, 4, 5, 5]);
}

#[test]
fn sort_duplicates_keep_input_order() {
    let input = vec![
        Keyed { key: 5, tag: 0 },
        Keyed { key: 3, tag: 1 },
        Keyed { key: 5, tag: 2 },
        Keyed { key: 1, tag: 3 },
        Keyed { key: 4, tag: 4 },
    ];
    let out = input.heap_sort().unwrap();
    let tags: Vec<u32> = out.iter().map(|k| k.tag).collect();
    assert_eq!(tags, vec![3, 1, 4, 0, 2]);
}

#[test]
fn sort_many_equal_keys_is_stable() {
    let keys = pseudo_random(2000, 7, 10);
    let input: Vec<Keyed> = keys
        .iter()
        .enumerate()
        .map(|(i, &key)| Keyed { key, tag: i as u32 })
        .collect();
    let mut expected = input.clone();
    expected.sort_by_key(|k| k.key);
    assert_eq!(input.heap_sort().unwrap(), expected);
}

#[test]
fn sort_two_elements() {
    assert_eq!(vec![2, 1].heap_sort().unwrap(), vec![1, 2]);
}

#[test]
fn sort_single_element() {
    assert_eq!(vec![42].heap_sort().unwrap(), vec![42]);
}

#[test]
fn sort_empty_is_an_error() {
    let empty: Vec<i32> = Vec::new();
    assert_eq!(empty.heap_sort(), Err(SortError::EmptyInput));
}

#[test]
fn sort_small_sorted_unchanged() {
    assert_eq!(vec![1, 2, 3, 4, 5].heap_sort().unwrap(), vec![1, 2, 3, 4, 5]);
}

#[test]
fn sort_long_sorted_chain() {
    let input: Vec<i32> = (0..20_000).collect();
    let out = input.clone().heap_sort().unwrap();
    assert_eq!(out, input);
}

#[test]
fn sort_long_descending_chain() {
    let input: Vec<i32> = (0..20_000).rev().collect();
    let out = input.heap_sort().unwrap();
    let expected: Vec<i32> = (0..20_000).collect();
    assert_eq!(out, expected);
}

#[test]
fn sort_matches_std_sort() {
    let input = pseudo_random(100_000, 42, i32::MAX as u64);
    let mut expected = input.clone();
    expected.sort();
    let out = input.heap_sort().unwrap();
    assert_eq!(out.len(), expected.len());
    assert_eq!(out, expected);
}

#[test]
fn sort_twice_is_sort_once() {
    let input = pseudo_random(500, 3, 50);
    let once = input.heap_sort().unwrap();
    let twice = once.clone().heap_sort().unwrap();
    assert_eq!(once, twice);
}

#[test]
fn sort_extreme_values() {
    let out = vec![i32::MAX, 0, i32::MIN, -1, i32::MAX].heap_sort().unwrap();
    assert_eq!(out, vec![i32::MIN, -1, 0, i32::MAX, i32::MAX]);
}

#[test]
fn is_sorted_checks_each_pair() {
    assert!(is_sorted::<i32>(&[]));
    assert!(is_sorted(&[7]));
    assert!(is_sorted(&[1, 2, 2, 3]));
    assert!(!is_sorted(&[1, 3, 2]));
    assert!(!is_sorted(&[2, 1]));
}

#[test]
fn tree_add_routes_by_comparison() {
    let mut root = Element::new(5);
    root.add(3);
    root.add(5);
    root.add(8);
    assert_eq!(root.lesser.as_ref().unwrap().value, 3);
    let greater = root.greater.as_ref().unwrap();
    assert_eq!(greater.value, 5);
    assert!(greater.lesser.is_none());
    assert_eq!(greater.greater.as_ref().unwrap().value, 8);
}

#[test]
fn into_iter_hands_out_in_order() {
    let mut root = Element::new(4);
    for v in [2, 6, 1, 3, 5, 7] {
        root.add(v);
    }
    let mut it = IntoIter::new(root);
    let mut seen = Vec::new();
    while let Some(v) = it.next() {
        seen.push(v);
    }
    assert_eq!(seen, vec![1, 2, 3, 4, 5, 6, 7]);
    assert_eq!(it.next(), None);
}

#[test]
fn build_rec_appends_after_existing_values() {
    let mut it = IntoIter::new(Element::new(10));
    let mut second = Element::new(2);
    second.add(1);
    it.build_rec(second);
    assert_eq!(it.next(), Some(10));
    assert_eq!(it.next(), Some(1));
    assert_eq!(it.next(), Some(2));
    assert_eq!(it.next(), None);
}
