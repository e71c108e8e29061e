use bitmap_container::container::array::ArrayContainer;
use bitmap_container::container::interval::{all_swept, gaps, sweep};
use bitmap_container::container::model::SetOp;
use bitmap_container::container::run::{runs_upto, Run, RunContainer};

fn runs_of(c: &RunContainer) -> Vec<(u16, u16)> {
    (0..c.number_of_runs()).map(|i| (c.run_at(i).start, c.run_at(i).length)).collect()
}

#[test]
fn run_starts_empty() {
    let r = RunContainer::new();
    assert_eq!(r.cardinality(), 0);
    assert!(r.is_empty());
    assert_eq!(r.min(), None);
    assert_eq!(r.max(), None);
    assert!(!r.contains(0));
    assert_eq!(r.number_of_runs(), 0);
    assert!(r.to_vec().is_empty());
}

#[test]
fn run_insert_before_after_and_between() {
    let mut r = RunContainer::new();
    assert!(r.insert(100));
    assert_eq!(runs_of(&r), vec![(100, 0)]);
    assert!(r.insert(50));
    assert_eq!(runs_of(&r), vec![(50, 0), (100, 0)]);
    assert!(r.insert(200));
    assert_eq!(runs_of(&r), vec![(50, 0), (100, 0), (200, 0)]);
    assert!(r.insert(150));
    assert_eq!(runs_of(&r), vec![(50, 0), (100, 0), (150, 0), (200, 0)]);
    assert!(!r.insert(150));
    assert_eq!(r.cardinality(), 4);
}

#[test]
fn run_insert_extends_the_run_it_touches() {
    let mut r = RunContainer::from_slice(&[10, 11, 12, 20, 21]);
    assert_eq!(runs_of(&r), vec![(10, 2), (20, 1)]);
    assert!(r.insert(13));
    assert_eq!(runs_of(&r), vec![(10, 3), (20, 1)]);
    assert!(r.insert(19));
    assert_eq!(runs_of(&r), vec![(10, 3), (19, 2)]);
    assert!(r.insert(9));
    assert_eq!(runs_of(&r), vec![(9, 4), (19, 2)]);
    assert!(r.insert(22));
    assert_eq!(runs_of(&r), vec![(9, 4), (19, 3)]);
    assert!(!r.insert(11));
    assert!(!r.insert(9));
    assert!(!r.insert(22));
    assert_eq!(r.cardinality(), 9);
}

#[test]
fn run_insert_joins_two_runs() {
    let mut r = RunContainer::from_slice(&[1, 2, 4, 5, 9]);
    assert_eq!(runs_of(&r), vec![(1, 1), (4, 1), (9, 0)]);
    assert!(r.insert(3));
    assert_eq!(runs_of(&r), vec![(1, 4), (9, 0)]);
    assert_eq!(r.cardinality(), 6);
    assert!(r.insert(7));
    assert_eq!(runs_of(&r), vec![(1, 4), (7, 0), (9, 0)]);
    assert!(r.insert(8));
    assert_eq!(runs_of(&r), vec![(1, 4), (7, 2)]);
    assert!(r.insert(6));
    assert_eq!(runs_of(&r), vec![(1, 8)]);
    assert_eq!(r.cardinality(), 9);
}

#[test]
fn run_insert_at_the_ends_of_the_universe() {
    let mut r = RunContainer::new();
    assert!(r.insert(65535));
    assert!(r.insert(0));
    assert_eq!(runs_of(&r), vec![(0, 0), (65535, 0)]);
    assert!(r.insert(65534));
    assert!(r.insert(1));
    assert_eq!(runs_of(&r), vec![(0, 1), (65534, 1)]);
    assert_eq!(r.min(), Some(0));
    assert_eq!(r.max(), Some(65535));
    assert!(r.contains(65535));
    assert!(r.contains(0));
    assert!(!r.contains(2));
    assert!(!r.contains(65533));
}

#[test]
fn run_remove_shrinks_deletes_and_splits() {
    let mut r = RunContainer::from_slice(&[10, 11, 12, 13, 14, 20, 30, 31]);
    assert_eq!(runs_of(&r), vec![(10, 4), (20, 0), (30, 1)]);
    assert!(r.remove(12));
    assert_eq!(runs_of(&r), vec![(10, 1), (13, 1), (20, 0), (30, 1)]);
    assert!(r.remove(10));
    assert_eq!(runs_of(&r), vec![(11, 0), (13, 1), (20, 0), (30, 1)]);
    assert!(r.remove(14));
    assert_eq!(runs_of(&r), vec![(11, 0), (13, 0), (20, 0), (30, 1)]);
    assert!(r.remove(20));
    assert_eq!(runs_of(&r), vec![(11, 0), (13, 0), (30, 1)]);
    assert!(!r.remove(20));
    assert!(!r.remove(0));
    assert!(!r.remove(65535));
    assert!(!r.remove(12));
    assert!(r.remove(31));
    assert!(r.remove(30));
    assert_eq!(runs_of(&r), vec![(11, 0), (13, 0)]);
    assert_eq!(r.cardinality(), 2);
    assert_eq!(r.to_vec(), vec![11, 13]);
}

#[test]
fn run_remove_inside_the_full_universe() {
    let mut r = RunContainer::full();
    assert_eq!(runs_of(&r), vec![(0, 65535)]);
    assert_eq!(r.cardinality(), 65536);
    assert!(r.remove(0));
    assert!(r.remove(65535));
    assert!(r.remove(1000));
    assert_eq!(runs_of(&r), vec![(1, 998), (1001, 64533)]);
    assert_eq!(r.cardinality(), 65533);
    assert!(r.insert(1000));
    assert_eq!(runs_of(&r), vec![(1, 65533)]);
}

#[test]
fn run_queries() {
    let r = RunContainer::from_slice(&[5, 6, 7, 100, 101, 65535]);
    assert_eq!(r.cardinality(), 6);
    assert_eq!(r.number_of_runs(), 3);
    assert_eq!(r.min(), Some(5));
    assert_eq!(r.max(), Some(65535));
    assert!(r.contains(6));
    assert!(r.contains(7));
    assert!(!r.contains(8));
    assert!(!r.contains(4));
    assert!(r.contains(100));
    assert!(!r.contains(99));
    assert_eq!(r.to_vec(), vec![5, 6, 7, 100, 101, 65535]);
    let run: Run = r.run_at(1);
    assert_eq!((run.start, run.length), (100, 1));
    let listed: Vec<Run> = (0..3).map(|i| r.run_at(i)).collect();
    assert_eq!(runs_upto(&listed, 4), 0);
    assert_eq!(runs_upto(&listed, 5), 1);
    assert_eq!(runs_upto(&listed, 99), 1);
    assert_eq!(runs_upto(&listed, 100), 2);
    assert_eq!(runs_upto(&listed, 65535), 3);
}

#[test]
fn run_append_range_grows_or_adds() {
    let mut r = RunContainer::new();
    r.append_range(3, 5);
    assert_eq!(runs_of(&r), vec![(3, 2)]);
    r.append_range(6, 6);
    assert_eq!(runs_of(&r), vec![(3, 3)]);
    r.append_range(8, 10);
    assert_eq!(runs_of(&r), vec![(3, 3), (8, 2)]);
    r.append_range(11, 65535);
    assert_eq!(runs_of(&r), vec![(3, 3), (8, 65527)]);
    assert_eq!(r.cardinality(), 4 + 65528);
    let s = RunContainer::from_sorted(&vec![0, 1, 2, 4, 6, 7]);
    assert_eq!(runs_of(&s), vec![(0, 2), (4, 0), (6, 1)]);
}

#[test]
fn sweep_combines_interval_lists() {
    let a = RunContainer::from_slice(&[0, 1, 2, 3, 10, 11, 12, 20, 65535]);
    let b = RunContainer::from_slice(&[2, 3, 4, 5, 12, 13, 30, 65534, 65535]);
    let union = sweep(&a, &b, SetOp::Union);
    assert_eq!(runs_of(&union), vec![(0, 5), (10, 3), (20, 0), (30, 0), (65534, 1)]);
    let inter = sweep(&a, &b, SetOp::Intersection);
    assert_eq!(runs_of(&inter), vec![(2, 1), (12, 0), (65535, 0)]);
    let diff = sweep(&a, &b, SetOp::Difference);
    assert_eq!(runs_of(&diff), vec![(0, 1), (10, 1), (20, 0)]);
    let xor = sweep(&a, &b, SetOp::SymmetricDifference);
    assert_eq!(runs_of(&xor), vec![(0, 1), (4, 1), (10, 1), (13, 0), (20, 0), (30, 0), (65534, 0)]);
    let values = ArrayContainer::from_slice(&[3, 4, 5, 11]);
    let mixed = sweep(&values, &a, SetOp::Union);
    assert_eq!(runs_of(&mixed), vec![(0, 5), (10, 2), (20, 0), (65535, 0)]);
    let mixed = sweep(&a, &values, SetOp::Difference);
    assert_eq!(runs_of(&mixed), vec![(0, 2), (10, 0), (12, 0), (20, 0), (65535, 0)]);
    let nothing = RunContainer::new();
    assert_eq!(runs_of(&sweep(&a, &nothing, SetOp::Union)), runs_of(&a));
    assert_eq!(runs_of(&sweep(&nothing, &a, SetOp::Union)), runs_of(&a));
    assert!(sweep(&nothing, &nothing, SetOp::Union).is_empty());
    assert!(sweep(&a, &nothing, SetOp::Intersection).is_empty());
}

#[test]
fn gaps_are_the_complement() {
    let a = RunContainer::from_slice(&[0, 1, 2, 10, 65535]);
    assert_eq!(runs_of(&gaps(&a)), vec![(3, 6), (11, 65523)]);
    let b = RunContainer::from_slice(&[5, 6]);
    assert_eq!(runs_of(&gaps(&b)), vec![(0, 4), (7, 65528)]);
    assert_eq!(runs_of(&gaps(&RunContainer::new())), vec![(0, 65535)]);
    assert!(gaps(&RunContainer::full()).is_empty());
    let values = ArrayContainer::from_slice(&[1, 3]);
    assert_eq!(runs_of(&gaps(&values)), vec![(0, 0), (2, 0), (4, 65531)]);
    assert_eq!(runs_of(&gaps(&gaps(&a))), runs_of(&a));
}

#[test]
fn all_swept_tests_inclusion() {
    let a = RunContainer::from_slice(&[2, 3, 12]);
    let b = RunContainer::from_slice(&[1, 2, 3, 4, 12, 13]);
    assert!(all_swept(&a, &b));
    assert!(!all_swept(&b, &a));
    assert!(all_swept(&a, &a));
    assert!(all_swept(&RunContainer::new(), &a));
    assert!(!all_swept(&a, &RunContainer::new()));
    let values = ArrayContainer::from_slice(&[2, 12]);
    assert!(all_swept(&values, &a));
    assert!(!all_swept(&a, &values));
}

#[test]
fn run_next_from_finds_the_least_member_not_below() {
    let r = RunContainer::from_slice(&[5, 6, 7, 100, 65535]);
    assert_eq!(r.next_from(0), Some(5));
    assert_eq!(r.next_from(5), Some(5));
    assert_eq!(r.next_from(6), Some(6));
    assert_eq!(r.next_from(7), Some(7));
    assert_eq!(r.next_from(8), Some(100));
    assert_eq!(r.next_from(101), Some(65535));
    assert_eq!(r.next_from(65535), Some(65535));
    let s = RunContainer::from_slice(&[5, 6, 7]);
    assert_eq!(s.next_from(8), None);
    assert_eq!(RunContainer::new().next_from(0), None);
}

#[test]
fn run_validity_rejects_touching_and_overlapping_runs() {
    assert!(RunContainer::new().is_valid());
    assert!(RunContainer::from_slice(&[1, 2, 4, 5, 65535]).is_valid());
    assert!(RunContainer::full().is_valid());
    let mut touching = RunContainer::new();
    touching.append_range(1, 2);
    touching.append_range(3, 4);
    assert!(touching.is_valid());
    assert_eq!(runs_of(&touching), vec![(1, 3)]);
}
