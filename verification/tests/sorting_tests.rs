use data_structures::binary_search::binary_search;
use data_structures::binary_search::binary_search2;
use data_structures::cnt_occurrences::cnt_occurrences;
use data_structures::insertion_sort::insertion_sort;
use data_structures::kth_smallest::kth_smallest;
use data_structures::quick_sort::quick_sort;
use data_structures::selection_sort::selection_sort;

#[test]
fn test_search() {
    let numbers = vec![2, 3, 5, 7, 11, 13, 17, 19, 23, 29, 31, 37, 41, 43, 47, 53, 59, 61, 67];
    assert_eq!(binary_search(&numbers, 43, 0, numbers.len()), Some(13));
    assert_eq!(binary_search(&numbers, 7, 0, numbers.len()), Some(3));
    assert_eq!(binary_search(&numbers, 14, 0, numbers.len()), None);
}

#[test]
fn test_search2() {
    let numbers = vec![2, 3, 5, 7, 11, 13, 17, 19, 23, 29, 31, 37, 41, 43, 47, 53, 59, 61, 67];
    assert_eq!(binary_search2(&numbers, 43), Some(13));
    assert_eq!(binary_search2(&numbers, 7), Some(3));
    assert_eq!(binary_search2(&numbers, 14), None);
}

#[test]
fn test_sorted_cnt() {
    let numbers = vec![1, 2, 3, 4, 5, 5, 6, 6, 6, 6, 8, 8, 8, 10];
    assert_eq!(cnt_occurrences(&numbers, 1), 1);
    assert_eq!(cnt_occurrences(&numbers, 6), 4);
    assert_eq!(cnt_occurrences(&numbers, 5), 2);
    assert_eq!(cnt_occurrences(&numbers, 9), 0);
}

#[test]
fn test_same() {
    let same = vec![1, 1, 1, 1, 1, 1, 1];
    assert_eq!(cnt_occurrences(&same, 1), 7);
}

#[test]
fn test_insertion_sort() {
    let mut array = vec![2, 5, 3, 2, 1, 10, 7, 5];
    insertion_sort(&mut array);
    assert_eq!(array, vec![1, 2, 2, 3, 5, 5, 7, 10]);
}

#[test]
fn test_selection_sort() {
    let numbers = vec![1, 7, 4, 3, 5, 2, 6];
    assert_eq!(selection_sort(&numbers), [1, 2, 3, 4, 5, 6, 7]);
}

#[test]
fn test_quick_sort() {
    let mut numbers = vec![1, 5, 2, 4, 3, 9, 7, 8, 6];
    quick_sort(&mut numbers, 0, 8);
    assert_eq!(numbers, [1, 2, 3, 4, 5, 6, 7, 8, 9])
}

#[test]
fn test_quick_sort2() {
    let mut numbers = vec![1, 1, 1, 1, 1, 1];
    quick_sort(&mut numbers, 0, 5);
    assert_eq!(numbers, [1, 1, 1, 1, 1, 1]);
}

#[test]
fn test_kth_smallest() {
    let numbers = vec![2, 5, 4, 3, 1, 8, 7, 6];
    assert_eq!(kth_smallest(&numbers, 0), 1);
    assert_eq!(kth_smallest(&numbers, 1), 2);
    assert_eq!(kth_smallest(&numbers, 2), 3);
    assert_eq!(kth_smallest(&numbers, 3), 4);
    assert_eq!(kth_smallest(&numbers, 4), 5);
    assert_eq!(kth_smallest(&numbers, 5), 6);
    assert_eq!(kth_smallest(&numbers, 6), 7);
    assert_eq!(kth_smallest(&numbers, 7), 8);
}

#[test]
fn test_duplicates() {
    let numbers = vec![1, 2, 1, 2, 3, 2, 3, 3];
    assert_eq!(kth_smallest(&numbers, 0), 1);
    assert_eq!(kth_smallest(&numbers, 1), 1);
    assert_eq!(kth_smallest(&numbers, 3), 2);
    assert_eq!(kth_smallest(&numbers, 2), 2);
    assert_eq!(kth_smallest(&numbers, 4), 2);
    assert_eq!(kth_smallest(&numbers, 5), 3);
    assert_eq!(kth_smallest(&numbers, 6), 3);
    assert_eq!(kth_smallest(&numbers, 7), 3);

    let same = vec![1, 1, 1, 1];
    assert_eq!(kth_smallest(&same, 0), 1);
    assert_eq!(kth_smallest(&same, 1), 1);
    assert_eq!(kth_smallest(&same, 2), 1);
    assert_eq!(kth_smallest(&same, 3), 1);
}

#[test]
fn test_sort_empty_and_single() {
    let mut empty: Vec<i64> = Vec::new();
    insertion_sort(&mut empty);
    assert!(empty.is_empty());
    assert_eq!(selection_sort(&vec![42]), vec![42]);
}

#[test]
fn test_merge_sort() {
    let numbers = vec![5, 3, 2, 98, 34, 23, 45, 234, 54, 3, 4, 2, 1];
    assert_eq!(
        data_structures::merge_sort::merge_sort(&numbers),
        vec![1, 2, 2, 3, 3, 4, 5, 23, 34, 45, 54, 98, 234],
    )
}

#[test]
fn test_merge_sort2() {
    let numbers = vec![1, 2, 3, 4, 5, 6, 7, 8, 9];
    assert_eq!(
        data_structures::merge_sort::merge_sort(&numbers),
        vec![1, 2, 3, 4, 5, 6, 7, 8, 9],
    );

    let numbers2 = vec![1, 1, 1, 1, 1, 1, 1];
    assert_eq!(
        data_structures::merge_sort::merge_sort(&numbers2),
        vec![1, 1, 1, 1, 1, 1, 1],
    );
}
