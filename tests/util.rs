use grad::util::{take_subset, train_test_split};

#[test]
fn split_ten_items_at_eight_tenths() {
    let data: Vec<u32> = (0..10).collect();
    let (train, test) = train_test_split(&data, 4, 5);
    assert_eq!(train.len(), 8);
    assert_eq!(test.len(), 2);
    assert_eq!(train, vec![0, 1, 2, 3, 4, 5, 6, 7]);
    assert_eq!(test, vec![8, 9]);
}

#[test]
fn split_rounds_halves_up() {
    let data = vec!["a", "b", "c", "d", "e"];
    let (train, test) = train_test_split(&data, 1, 2);
    assert_eq!(train, vec!["a", "b", "c"]);
    assert_eq!(test, vec!["d", "e"]);
    let (train, _) = train_test_split(&data, 1, 3);
    assert_eq!(train.len(), 2);
}

#[test]
fn split_never_takes_more_than_all() {
    let data = vec![1, 2, 3];
    let (train, test) = train_test_split(&data, 3, 2);
    assert_eq!(train, vec![1, 2, 3]);
    assert!(test.is_empty());
    let (train, test) = train_test_split(&data, 0, 1);
    assert!(train.is_empty());
    assert_eq!(test, vec![1, 2, 3]);
}

#[test]
fn split_of_nothing_is_empty() {
    let data: Vec<String> = Vec::new();
    let (train, test) = train_test_split(&data, 4, 5);
    assert!(train.is_empty() && test.is_empty());
}

#[test]
fn take_subset_clips_at_the_end() {
    let data: Vec<u8> = (0..10).collect();
    assert_eq!(take_subset(&data, 2, 3), vec![2, 3, 4]);
    assert_eq!(take_subset(&data, 8, 5000), vec![8, 9]);
    assert_eq!(take_subset(&data, 10, 1), Vec::<u8>::new());
    assert_eq!(take_subset(&data, 0, usize::MAX), data);
}
