use os_exercises::messages::producer_message;
use os_exercises::sorting::{sort_ids, sort_texts};

#[test]
fn test_sort_ids_thread_ids() {
    assert_eq!(sort_ids(vec![3, 0, 4, 1, 2]), vec![0, 1, 2, 3, 4]);
}

#[test]
fn test_sort_ids_edge_cases() {
    assert_eq!(sort_ids(vec![]), Vec::<usize>::new());
    assert_eq!(sort_ids(vec![0]), vec![0]);
    assert_eq!(sort_ids(vec![2, 2, 1, 2, 0, 1]), vec![0, 1, 1, 2, 2, 2]);
    assert_eq!(sort_ids(vec![usize::MAX, 0, 7]), vec![0, 7, usize::MAX]);
}

#[test]
fn test_sort_ids_already_sorted_and_reversed() {
    let up: Vec<usize> = (0..50).collect();
    let down: Vec<usize> = (0..50).rev().collect();
    assert_eq!(sort_ids(up.clone()), up);
    assert_eq!(sort_ids(down), up);
}

#[test]
fn test_sort_texts_messages() {
    let mut msgs: Vec<String> = (0..12).rev().map(producer_message).collect();
    msgs.swap(0, 5);
    let sorted = sort_texts(msgs);
    let expected: Vec<String> = vec![
        "msg from 0", "msg from 1", "msg from 10", "msg from 11", "msg from 2", "msg from 3",
        "msg from 4", "msg from 5", "msg from 6", "msg from 7", "msg from 8", "msg from 9",
    ]
    .into_iter()
    .map(String::from)
    .collect();
    assert_eq!(sorted, expected);
}

#[test]
fn test_sort_texts_matches_std_order() {
    let input: Vec<String> = vec!["b", "abc", "", "ab", "é", "z", "ab", "Z"]
        .into_iter()
        .map(String::from)
        .collect();
    let mut expected = input.clone();
    expected.sort();
    assert_eq!(sort_texts(input), expected);
    assert_eq!(sort_texts(vec![]), Vec::<String>::new());
}
