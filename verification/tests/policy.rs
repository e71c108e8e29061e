use bitmap_container::container::array::ArrayContainer;
use bitmap_container::container::bitset::BitsetContainer;
use bitmap_container::container::run::RunContainer;
use bitmap_container::container::{prefer, Container, Kind, DEFAULT_MAX_SIZE};
use bitmap_container::container::{Negation, Union};

fn evens(n: usize) -> Vec<u16> {
    (0..n).map(|i| (2 * i) as u16).collect()
}

#[test]
fn is_none_tells_the_placeholder_apart() {
    assert!(Container::Vacant.is_none());
    assert!(!Container::Array(ArrayContainer::new()).is_none());
    assert!(!Container::Bitset(BitsetContainer::new()).is_none());
    assert!(!Container::Run(RunContainer::new()).is_none());
    assert_eq!(Container::Vacant.kind(), None);
    assert_eq!(Container::Array(ArrayContainer::new()).kind(), Some(Kind::Array));
    assert_eq!(Container::Bitset(BitsetContainer::new()).kind(), Some(Kind::Bitset));
    assert_eq!(Container::Run(RunContainer::new()).kind(), Some(Kind::Run));
}

#[test]
fn the_placeholder_is_the_empty_set() {
    let c = Container::Vacant;
    assert_eq!(c.cardinality(), 0);
    assert!(c.is_empty());
    assert!(!c.contains(7));
    assert_eq!(c.min(), None);
    assert_eq!(c.max(), None);
    assert!(c.to_vec().is_empty());
    assert_eq!(c.number_of_runs(), 0);
    let mut d = Container::Vacant;
    assert!(!d.remove(3));
    assert!(d.is_none());
    assert!(d.insert(3));
    assert_eq!(d.kind(), Some(Kind::Array));
    assert_eq!(d.to_vec(), vec![3]);
    let settled = Container::Vacant.settle(DEFAULT_MAX_SIZE);
    assert_eq!(settled.kind(), Some(Kind::Array));
    assert_eq!(settled.cardinality(), 0);
}

#[test]
fn prefer_picks_the_smallest_encoding() {
    assert_eq!(DEFAULT_MAX_SIZE, 4096);
    assert_eq!(prefer(0, 0, 4096), Kind::Array);
    assert_eq!(prefer(1, 1, 4096), Kind::Array);
    assert_eq!(prefer(2, 1, 4096), Kind::Array);
    assert_eq!(prefer(3, 1, 4096), Kind::Run);
    assert_eq!(prefer(10, 5, 4096), Kind::Array);
    assert_eq!(prefer(10, 4, 4096), Kind::Run);
    assert_eq!(prefer(20, 5, 4096), Kind::Run);
    assert_eq!(prefer(4096, 4096, 4096), Kind::Array);
    assert_eq!(prefer(4096, 2048, 4096), Kind::Array);
    assert_eq!(prefer(4096, 2047, 4096), Kind::Run);
    assert_eq!(prefer(4097, 4097, 4096), Kind::Bitset);
    assert_eq!(prefer(4097, 2048, 4096), Kind::Bitset);
    assert_eq!(prefer(4097, 2047, 4096), Kind::Run);
    assert_eq!(prefer(65536, 1, 4096), Kind::Run);
    assert_eq!(prefer(65536, 32768, 4096), Kind::Bitset);
    assert_eq!(prefer(usize::MAX, usize::MAX, usize::MAX), Kind::Array);
    assert_eq!(prefer(usize::MAX, usize::MAX / 2, usize::MAX), Kind::Run);
    assert_eq!(prefer(7, 3, 4096), Kind::Run);
    assert_eq!(prefer(7, 4, 4096), Kind::Array);
    assert_eq!(prefer(64, 64, 64), Kind::Array);
    assert_eq!(prefer(64, 32, 64), Kind::Array);
    assert_eq!(prefer(64, 31, 64), Kind::Run);
    assert_eq!(prefer(100, 100, 64), Kind::Run);
    assert_eq!(prefer(3000, 2047, 64), Kind::Run);
    assert_eq!(prefer(3000, 2048, 64), Kind::Bitset);
}

#[test]
fn an_array_becomes_a_bitset_above_the_limit() {
    let at_limit = Container::from_slice(&evens(4096));
    assert_eq!(at_limit.kind(), Some(Kind::Array));
    assert_eq!(at_limit.cardinality(), 4096);
    let above = Container::from_slice(&evens(4097));
    assert_eq!(above.kind(), Some(Kind::Bitset));
    assert_eq!(above.cardinality(), 4097);
    assert_eq!(above.to_vec(), evens(4097));
    let mut growing = Container::from_slice(&evens(4096));
    assert!(growing.insert(8192));
    assert_eq!(growing.kind(), Some(Kind::Array));
    assert_eq!(growing.cardinality(), 4097);
    growing.optimize();
    assert_eq!(growing.kind(), Some(Kind::Bitset));
    assert_eq!(growing.cardinality(), 4097);
    assert_eq!(growing.to_vec(), evens(4097));
}

#[test]
fn a_bitset_becomes_an_array_at_the_limit() {
    let mut shrinking = Container::from_slice(&evens(4097));
    assert_eq!(shrinking.kind(), Some(Kind::Bitset));
    assert!(shrinking.remove(0));
    assert_eq!(shrinking.kind(), Some(Kind::Bitset));
    shrinking.optimize();
    assert_eq!(shrinking.kind(), Some(Kind::Array));
    assert_eq!(shrinking.cardinality(), 4096);
    assert_eq!(shrinking.to_vec(), evens(4097)[1..].to_vec());
    assert_eq!(shrinking.min(), Some(2));
    assert_eq!(shrinking.max(), Some(8192));
}

#[test]
fn contiguous_data_becomes_a_run_list() {
    let data: Vec<u16> = (1000u16..7000).collect();
    let c = Container::from_slice(&data);
    assert_eq!(c.kind(), Some(Kind::Run));
    assert_eq!(c.number_of_runs(), 1);
    assert_eq!(c.cardinality(), 6000);
    assert_eq!(c.min(), Some(1000));
    assert_eq!(c.max(), Some(6999));
    let pair = Container::from_slice(&[7, 8]);
    assert_eq!(pair.kind(), Some(Kind::Array));
    let triple = Container::from_slice(&[7, 8, 9]);
    assert_eq!(triple.kind(), Some(Kind::Run));
    let mut scattered = Container::Run(RunContainer::from_slice(&[1, 5, 9]));
    scattered.optimize();
    assert_eq!(scattered.kind(), Some(Kind::Array));
    assert_eq!(scattered.to_vec(), vec![1, 5, 9]);
}

#[test]
fn settle_takes_the_limit_it_is_given() {
    let data = evens(2048);
    let small = Container::from_array(ArrayContainer::from_slice(&data), 64);
    assert_eq!(small.kind(), Some(Kind::Bitset));
    assert_eq!(small.to_vec(), data);
    let back = small.settle(2048);
    assert_eq!(back.kind(), Some(Kind::Array));
    assert_eq!(back.to_vec(), data);
    let fewer = Container::from_array(ArrayContainer::from_slice(&evens(100)), 64);
    assert_eq!(fewer.kind(), Some(Kind::Run));
    assert_eq!(fewer.number_of_runs(), 100);
    let from_bits = Container::from_bitset(BitsetContainer::from_slice(&[1, 2, 3, 4]), 4096);
    assert_eq!(from_bits.kind(), Some(Kind::Run));
    let from_run = Container::from_run(RunContainer::from_slice(&evens(5000)), 4096);
    assert_eq!(from_run.kind(), Some(Kind::Bitset));
    assert_eq!(from_run.cardinality(), 5000);
    let from_values = Container::from_values(vec![1, 3, 5], 4096);
    assert_eq!(from_values.kind(), Some(Kind::Array));
}

#[test]
fn results_of_operations_are_settled() {
    let left = ArrayContainer::from_slice(&evens(4000));
    let right = ArrayContainer::from_slice(&(0..4000).map(|i| (2 * i + 1) as u16).collect::<Vec<u16>>());
    let mut out = Container::Vacant;
    left.union_with(&right, &mut out);
    assert_eq!(out.kind(), Some(Kind::Run));
    assert_eq!(out.cardinality(), 8000);
    assert_eq!(out.number_of_runs(), 1);
    let far = ArrayContainer::from_slice(&(0..4000).map(|i| (10000 + 3 * i) as u16).collect::<Vec<u16>>());
    left.union_with(&far, &mut out);
    assert_eq!(out.kind(), Some(Kind::Bitset));
    assert_eq!(out.cardinality(), 8000);
    let nothing = ArrayContainer::new();
    nothing.negate(&mut out);
    assert_eq!(out.kind(), Some(Kind::Run));
    assert_eq!(out.cardinality(), 65536);
    let everything = RunContainer::full();
    everything.negate(&mut out);
    assert_eq!(out.kind(), Some(Kind::Array));
    assert_eq!(out.cardinality(), 0);
}

#[test]
fn container_mutation_keeps_the_encoding() {
    let mut c = Container::Run(RunContainer::from_slice(&[1, 2, 3]));
    assert!(c.insert(10));
    assert!(c.remove(2));
    assert_eq!(c.kind(), Some(Kind::Run));
    assert_eq!(c.to_vec(), vec![1, 3, 10]);
    let mut b = Container::Bitset(BitsetContainer::new());
    assert!(b.insert(9));
    assert!(!b.insert(9));
    assert_eq!(b.kind(), Some(Kind::Bitset));
    assert_eq!(b.cardinality(), 1);
    let copy = b.clone();
    assert_eq!(copy.kind(), Some(Kind::Bitset));
    assert_eq!(copy.to_vec(), vec![9]);
}
