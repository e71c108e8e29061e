use bitmap_container::container::array::ArrayContainer;
use bitmap_container::container::bitset::{count_bits, count_ones, BitsetContainer};
use bitmap_container::container::run::RunContainer;
use bitmap_container::container::merge::filter_by_bits;
use bitmap_container::container::model::SetOp;

#[test]
fn bitset_starts_empty() {
    let b = BitsetContainer::new();
    assert_eq!(b.cardinality(), 0);
    assert!(b.is_empty());
    assert_eq!(b.min(), None);
    assert_eq!(b.max(), None);
    assert!(!b.contains(0));
    assert!(!b.contains(65535));
    assert!(b.to_vec().is_empty());
    assert_eq!(b.number_of_runs(), 0);
}

#[test]
fn bitset_counter_moves_only_when_a_bit_flips() {
    let mut b = BitsetContainer::new();
    assert!(b.insert(100));
    assert_eq!(b.cardinality(), 1);
    assert!(!b.insert(100));
    assert_eq!(b.cardinality(), 1);
    assert!(b.insert(0));
    assert!(b.insert(63));
    assert!(b.insert(64));
    assert!(b.insert(65535));
    assert_eq!(b.cardinality(), 5);
    assert!(!b.remove(1));
    assert_eq!(b.cardinality(), 5);
    assert!(b.remove(63));
    assert_eq!(b.cardinality(), 4);
    assert!(!b.remove(63));
    assert_eq!(b.cardinality(), 4);
    assert_eq!(b.to_vec(), vec![0, 64, 100, 65535]);
    assert!(b.contains(64));
    assert!(!b.contains(63));
}

#[test]
fn bitset_min_and_max_cross_words() {
    let mut b = BitsetContainer::new();
    b.insert(4096);
    assert_eq!(b.min(), Some(4096));
    assert_eq!(b.max(), Some(4096));
    b.insert(127);
    b.insert(128);
    b.insert(60000);
    assert_eq!(b.min(), Some(127));
    assert_eq!(b.max(), Some(60000));
    b.insert(0);
    b.insert(65535);
    assert_eq!(b.min(), Some(0));
    assert_eq!(b.max(), Some(65535));
    b.remove(0);
    b.remove(65535);
    b.remove(127);
    assert_eq!(b.min(), Some(128));
    assert_eq!(b.max(), Some(60000));
}

#[test]
fn bitset_flip_toggles() {
    let mut b = BitsetContainer::from_slice(&[1, 2, 3]);
    b.flip(2);
    b.flip(9);
    assert_eq!(b.to_vec(), vec![1, 3, 9]);
    assert_eq!(b.cardinality(), 3);
}

#[test]
fn count_ones_counts_set_bits() {
    assert_eq!(count_ones(0), 0);
    assert_eq!(count_ones(1), 1);
    assert_eq!(count_ones(0x8000_0000_0000_0000), 1);
    assert_eq!(count_ones(0xF0F0), 8);
    assert_eq!(count_ones(u64::MAX), 64);
    let mut words = vec![0u64; 1024];
    assert_eq!(count_bits(&words), 0);
    words[0] = 0b1011;
    words[1023] = u64::MAX;
    assert_eq!(count_bits(&words), 67);
    let b = BitsetContainer::from_words(words);
    assert_eq!(b.cardinality(), 67);
    assert_eq!(b.min(), Some(0));
    assert_eq!(b.max(), Some(65535));
    assert!(b.contains(3));
    assert!(!b.contains(2));
}

#[test]
fn bitset_runs_are_counted_across_words() {
    let mut b = BitsetContainer::new();
    for v in 60u16..70 {
        b.insert(v);
    }
    assert_eq!(b.number_of_runs(), 1);
    b.insert(0);
    b.insert(128);
    b.insert(129);
    b.insert(65535);
    assert_eq!(b.number_of_runs(), 4);
    b.remove(64);
    assert_eq!(b.number_of_runs(), 5);
    b.remove(63);
    assert_eq!(b.number_of_runs(), 5);
}

#[test]
fn bitset_words_combine_in_parallel() {
    let a = BitsetContainer::from_slice(&[1, 2, 3, 700, 65535]);
    let b = BitsetContainer::from_slice(&[2, 3, 4, 800, 65535]);
    let union = a.combine_with(&b, SetOp::Union);
    assert_eq!(union.to_vec(), vec![1, 2, 3, 4, 700, 800, 65535]);
    assert_eq!(union.cardinality(), 7);
    let inter = a.combine_with(&b, SetOp::Intersection);
    assert_eq!(inter.to_vec(), vec![2, 3, 65535]);
    assert_eq!(inter.cardinality(), 3);
    let diff = a.combine_with(&b, SetOp::Difference);
    assert_eq!(diff.to_vec(), vec![1, 700]);
    assert_eq!(diff.cardinality(), 2);
    let xor = a.combine_with(&b, SetOp::SymmetricDifference);
    assert_eq!(xor.to_vec(), vec![1, 4, 700, 800]);
    assert_eq!(xor.cardinality(), 4);
}

#[test]
fn bitset_complement_and_inclusion() {
    let a = BitsetContainer::from_slice(&[0, 5, 65535]);
    let not_a = a.complement();
    assert_eq!(not_a.cardinality(), 65533);
    assert!(!not_a.contains(0));
    assert!(!not_a.contains(5));
    assert!(!not_a.contains(65535));
    assert!(not_a.contains(1));
    assert_eq!(not_a.min(), Some(1));
    assert_eq!(not_a.max(), Some(65534));
    assert_eq!(not_a.complement().to_vec(), vec![0, 5, 65535]);
    let b = BitsetContainer::from_slice(&[0, 5, 9, 65535]);
    assert!(a.is_subset(&b));
    assert!(!b.is_subset(&a));
    assert!(a.is_subset(&a));
    assert!(BitsetContainer::new().is_subset(&a));
    assert!(!a.is_subset(&not_a));
}

#[test]
fn bitset_meets_ascending_values() {
    let bits = BitsetContainer::from_slice(&[2, 4, 6, 8]);
    let values = ArrayContainer::from_slice(&[1, 2, 3, 4, 9]);
    assert_eq!(filter_by_bits(&values, &bits, true), vec![2, 4]);
    assert_eq!(filter_by_bits(&values, &bits, false), vec![1, 3, 9]);
    assert_eq!(bits.apply_intervals(&values, SetOp::Union).to_vec(), vec![1, 2, 3, 4, 6, 8, 9]);
    assert_eq!(bits.apply_intervals(&values, SetOp::Intersection).to_vec(), vec![2, 4]);
    assert_eq!(bits.apply_intervals(&values, SetOp::Difference).to_vec(), vec![6, 8]);
    assert_eq!(
        bits.apply_intervals(&values, SetOp::SymmetricDifference).to_vec(),
        vec![1, 3, 6, 8, 9]
    );
    assert!(bits.contains_all(&ArrayContainer::from_slice(&[2, 8])));
    assert!(!bits.contains_all(&ArrayContainer::from_slice(&[2, 3])));
    assert!(bits.contains_all(&ArrayContainer::new()));
    let runs = RunContainer::from_slice(&[3, 4, 5, 6, 7, 65535]);
    assert_eq!(filter_by_bits(&runs, &bits, true), vec![4, 6]);
    assert_eq!(filter_by_bits(&runs, &bits, false), vec![3, 5, 7, 65535]);
    assert_eq!(bits.apply_intervals(&runs, SetOp::Union).to_vec(), vec![2, 3, 4, 5, 6, 7, 8, 65535]);
    assert_eq!(bits.apply_intervals(&runs, SetOp::Intersection).to_vec(), vec![4, 6]);
    assert_eq!(bits.apply_intervals(&runs, SetOp::Difference).to_vec(), vec![2, 8]);
    assert_eq!(
        bits.apply_intervals(&runs, SetOp::SymmetricDifference).to_vec(),
        vec![2, 3, 5, 7, 8, 65535]
    );
    assert!(!bits.contains_all(&runs));
    assert!(bits.apply_intervals(&runs, SetOp::Union).contains_all(&runs));
}

#[test]
fn bitset_next_from_finds_the_least_member_not_below() {
    let b = BitsetContainer::from_slice(&[5, 63, 64, 200, 65535]);
    assert_eq!(b.next_from(0), Some(5));
    assert_eq!(b.next_from(5), Some(5));
    assert_eq!(b.next_from(6), Some(63));
    assert_eq!(b.next_from(63), Some(63));
    assert_eq!(b.next_from(64), Some(64));
    assert_eq!(b.next_from(65), Some(200));
    assert_eq!(b.next_from(201), Some(65535));
    assert_eq!(b.next_from(65535), Some(65535));
    let c = BitsetContainer::from_slice(&[5, 200]);
    assert_eq!(c.next_from(201), None);
    assert_eq!(c.next_from(65535), None);
    assert_eq!(BitsetContainer::new().next_from(0), None);
}

#[test]
fn bitset_validity_holds_of_what_is_built() {
    assert!(BitsetContainer::new().is_valid());
    assert!(BitsetContainer::from_slice(&[1, 2, 3]).is_valid());
    assert!(BitsetContainer::from_words(vec![u64::MAX; 1024]).is_valid());
    assert_eq!(BitsetContainer::from_words(vec![u64::MAX; 1024]).cardinality(), 65536);
}

#[test]
fn bitset_is_within_an_interval_list() {
    let bits = BitsetContainer::from_slice(&[4, 6, 65535]);
    assert!(bits.is_within(&RunContainer::from_slice(&[3, 4, 5, 6, 7, 65535])));
    assert!(!bits.is_within(&RunContainer::from_slice(&[3, 4, 5, 6, 7])));
    assert!(bits.is_within(&ArrayContainer::from_slice(&[4, 6, 9, 65535])));
    assert!(!bits.is_within(&ArrayContainer::from_slice(&[4, 9, 65535])));
    assert!(!bits.is_within(&ArrayContainer::new()));
    assert!(BitsetContainer::new().is_within(&ArrayContainer::new()));
    assert!(bits.is_within(&RunContainer::full()));
}
