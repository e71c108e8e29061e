use bitmap_container::container::array::{count_runs, is_ascending, lower_bound, ArrayContainer};
use bitmap_container::container::merge::{all_merged, merge};
use bitmap_container::container::model::SetOp;

#[test]
fn array_starts_empty() {
    let a = ArrayContainer::new();
    assert_eq!(a.cardinality(), 0);
    assert!(a.is_empty());
    assert_eq!(a.min(), None);
    assert_eq!(a.max(), None);
    assert!(!a.contains(0));
    assert!(a.to_vec().is_empty());
    assert_eq!(a.number_of_runs(), 0);
}

#[test]
fn array_insert_keeps_order_and_rejects_duplicates() {
    let mut a = ArrayContainer::new();
    assert!(a.insert(50));
    assert!(a.insert(10));
    assert!(a.insert(65535));
    assert!(a.insert(0));
    assert!(a.insert(30));
    assert!(!a.insert(30));
    assert!(!a.insert(0));
    assert!(!a.insert(65535));
    assert_eq!(a.to_vec(), vec![0, 10, 30, 50, 65535]);
    assert_eq!(a.cardinality(), 5);
    assert_eq!(a.min(), Some(0));
    assert_eq!(a.max(), Some(65535));
    assert!(a.contains(30));
    assert!(!a.contains(31));
    assert!(!a.is_empty());
}

#[test]
fn array_remove_reports_presence() {
    let mut a = ArrayContainer::from_slice(&[4, 8, 15, 16, 23, 42]);
    assert!(a.remove(15));
    assert!(!a.remove(15));
    assert!(!a.remove(5));
    assert!(a.remove(4));
    assert!(a.remove(42));
    assert_eq!(a.to_vec(), vec![8, 16, 23]);
    assert_eq!(a.cardinality(), 3);
    assert_eq!(a.min(), Some(8));
    assert_eq!(a.max(), Some(23));
}

#[test]
fn array_from_slice_deduplicates() {
    let a = ArrayContainer::from_slice(&[5, 1, 5, 3, 1, 1, 2]);
    assert_eq!(a.to_vec(), vec![1, 2, 3, 5]);
    let b = ArrayContainer::from_sorted(vec![1, 2, 3, 5]);
    assert_eq!(b.to_vec(), vec![1, 2, 3, 5]);
    assert_eq!(b.cardinality(), 4);
}

#[test]
fn lower_bound_finds_the_first_element_not_below() {
    let v: Vec<u16> = vec![2, 4, 6, 8];
    assert_eq!(lower_bound(&v, 0), 0);
    assert_eq!(lower_bound(&v, 2), 0);
    assert_eq!(lower_bound(&v, 3), 1);
    assert_eq!(lower_bound(&v, 8), 3);
    assert_eq!(lower_bound(&v, 9), 4);
    assert_eq!(lower_bound(&Vec::new(), 9), 0);
}

#[test]
fn count_runs_counts_maximal_runs() {
    assert_eq!(count_runs(&vec![]), 0);
    assert_eq!(count_runs(&vec![7]), 1);
    assert_eq!(count_runs(&vec![0, 1, 2, 3]), 1);
    assert_eq!(count_runs(&vec![0, 2, 4, 6]), 4);
    assert_eq!(count_runs(&vec![0, 1, 3, 4, 5, 65534, 65535]), 3);
    let a = ArrayContainer::from_slice(&[10, 11, 12, 20, 30, 31]);
    assert_eq!(a.number_of_runs(), 3);
}

#[test]
fn merge_decides_ties_by_operation() {
    let a: Vec<u16> = vec![1, 2, 3, 7, 9];
    let b: Vec<u16> = vec![2, 3, 4, 9, 10];
    assert_eq!(merge(&a, &b, SetOp::Union), vec![1, 2, 3, 4, 7, 9, 10]);
    assert_eq!(merge(&a, &b, SetOp::Intersection), vec![2, 3, 9]);
    assert_eq!(merge(&a, &b, SetOp::Difference), vec![1, 7]);
    assert_eq!(merge(&b, &a, SetOp::Difference), vec![4, 10]);
    assert_eq!(merge(&a, &b, SetOp::SymmetricDifference), vec![1, 4, 7, 10]);
    let none: Vec<u16> = vec![];
    assert_eq!(merge(&a, &none, SetOp::Union), a);
    assert_eq!(merge(&none, &a, SetOp::Union), a);
    assert_eq!(merge(&a, &none, SetOp::Intersection), none);
    assert_eq!(merge(&none, &none, SetOp::SymmetricDifference), none);
}

#[test]
fn all_merged_tests_inclusion() {
    let a: Vec<u16> = vec![2, 3, 9];
    let b: Vec<u16> = vec![2, 3, 4, 9, 10];
    assert!(all_merged(&a, &b));
    assert!(!all_merged(&b, &a));
    assert!(all_merged(&vec![], &a));
    assert!(!all_merged(&a, &vec![]));
    assert!(all_merged(&a, &a));
}

#[test]
fn is_ascending_rejects_ties_and_descents() {
    assert!(is_ascending(&vec![]));
    assert!(is_ascending(&vec![9]));
    assert!(is_ascending(&vec![0, 1, 5, 65535]));
    assert!(!is_ascending(&vec![0, 1, 1, 5]));
    assert!(!is_ascending(&vec![0, 5, 4]));
    assert!(!is_ascending(&vec![2, 1]));
    assert!(ArrayContainer::from_slice(&[3, 1, 2]).is_valid());
    assert!(!ArrayContainer::from_sorted(vec![3, 1, 2]).is_valid());
}

#[test]
fn array_next_from_finds_the_least_member_not_below() {
    let a = ArrayContainer::from_slice(&[5, 9, 65535]);
    assert_eq!(a.next_from(0), Some(5));
    assert_eq!(a.next_from(5), Some(5));
    assert_eq!(a.next_from(6), Some(9));
    assert_eq!(a.next_from(10), Some(65535));
    assert_eq!(a.next_from(65535), Some(65535));
    let b = ArrayContainer::from_slice(&[5, 9]);
    assert_eq!(b.next_from(10), None);
    assert_eq!(ArrayContainer::new().next_from(0), None);
}
