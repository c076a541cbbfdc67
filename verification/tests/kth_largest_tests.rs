use algo::kth_largest::{KthLargest, QuickSelect};

#[test]
fn kth_largest_simple() {
    let list = vec![5i64, 1, 4, 3, 2, 0];
    for i in 0..list.len() {
        assert_eq!(QuickSelect.kth_largest(&mut list.clone(), i), i as i64);
    }
}

#[test]
#[should_panic]
fn zero_length_list() {
    let mut empty: Vec<i64> = Vec::new();
    QuickSelect.kth_largest(&mut empty, 0);
}

#[test]
#[should_panic]
fn k_too_big() {
    let mut list = vec![0i64, 1, 2];
    QuickSelect.kth_largest(&mut list, 3);
}

#[test]
fn duplicates_and_negatives() {
    let list = vec![3i64, -1, 3, 0, -1, 7];
    // Ascending order: -1, -1, 0, 3, 3, 7.
    let expected = [-1i64, -1, 0, 3, 3, 7];
    for i in 0..list.len() {
        assert_eq!(QuickSelect.kth_largest(&mut list.clone(), i), expected[i]);
    }
}

#[test]
fn list_keeps_its_contents() {
    let mut list = vec![9i64, 4, 6, 2, 8];
    let r = QuickSelect.kth_largest(&mut list, 2);
    assert_eq!(r, 6);
    assert_eq!(list[2], 6);
    list.sort();
    assert_eq!(list, vec![2i64, 4, 6, 8, 9]);
}

#[test]
fn single_element() {
    let mut list = vec![42i64];
    assert_eq!(QuickSelect.kth_largest(&mut list, 0), 42);
}
