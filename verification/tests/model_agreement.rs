use bitmap_container::container::array::ArrayContainer;
use bitmap_container::container::bitset::BitsetContainer;
use bitmap_container::container::model::SetOp;
use bitmap_container::container::run::RunContainer;
use bitmap_container::container::{Container, Kind, DEFAULT_MAX_SIZE};
use bitmap_container::container::{Negation, Subset};
use bitmap_container::test::make_container;

/// A small generator of repeatable pseudo-random numbers.
struct Lcg(u64);

impl Lcg {
    fn next(&mut self) -> u32 {
        self.0 = self.0.wrapping_mul(6364136223846793005).wrapping_add(1442695040888963407);
        (self.0 >> 33) as u32
    }
}

fn scattered(seed: u64, count: usize) -> Vec<u16> {
    let mut g = Lcg(seed);
    (0..count).map(|_| g.next() as u16).collect()
}

fn stretches(seed: u64, count: usize, longest: u32) -> Vec<u16> {
    let mut g = Lcg(seed);
    let mut data = Vec::new();
    for _ in 0..count {
        let start = g.next() % 65536;
        let len = g.next() % longest;
        for v in start..(start + len + 1).min(65536) {
            data.push(v as u16);
        }
    }
    data
}

fn plain(data: &[u16]) -> Vec<bool> {
    let mut model = vec![false; 65536];
    for v in data {
        model[*v as usize] = true;
    }
    model
}

fn listing(model: &[bool]) -> Vec<u16> {
    (0..65536usize).filter(|v| model[*v]).map(|v| v as u16).collect()
}

fn runs_in(model: &[bool]) -> usize {
    (0..65536usize).filter(|v| model[*v] && (*v == 0 || !model[*v - 1])).count()
}

fn expected_kind(card: usize, runs: usize) -> Kind {
    let plain = if card <= DEFAULT_MAX_SIZE { card } else { 4096 };
    if 2 * runs < plain {
        Kind::Run
    } else if card <= DEFAULT_MAX_SIZE {
        Kind::Array
    } else {
        Kind::Bitset
    }
}

fn forms(data: &[u16]) -> [Container; 3] {
    [
        Container::Array(make_container::<ArrayContainer>(data)),
        Container::Bitset(make_container::<BitsetContainer>(data)),
        Container::Run(make_container::<RunContainer>(data)),
    ]
}

fn agree(a_data: &[u16], b_data: &[u16]) {
    let a_model = plain(a_data);
    let b_model = plain(b_data);
    let decide: [(SetOp, fn(bool, bool) -> bool); 4] = [
        (SetOp::Union, |x, y| x || y),
        (SetOp::Intersection, |x, y| x && y),
        (SetOp::Difference, |x, y| x && !y),
        (SetOp::SymmetricDifference, |x, y| x != y),
    ];
    let included = (0..65536).all(|v| !a_model[v] || b_model[v]);
    for a in forms(a_data).iter() {
        assert!(a.is_valid());
        assert_eq!(a.to_vec(), listing(&a_model));
        assert_eq!(a.number_of_runs(), runs_in(&a_model));
        for b in forms(b_data).iter() {
            for (op, rule) in decide.iter() {
                let model: Vec<bool> = (0..65536).map(|v| rule(a_model[v], b_model[v])).collect();
                let out = a.combine_with(b, *op);
                assert!(out.is_valid());
                assert_eq!(out.to_vec(), listing(&model));
                assert_eq!(out.cardinality(), listing(&model).len());
                assert_eq!(out.kind(), Some(expected_kind(out.cardinality(), runs_in(&model))));
            }
            assert_eq!(a.subset_of(b), included);
        }
        let mut not_a = Container::Vacant;
        a.negate(&mut not_a);
        let model: Vec<bool> = a_model.iter().map(|x| !x).collect();
        assert!(not_a.is_valid());
        assert_eq!(not_a.to_vec(), listing(&model));
        assert_eq!(not_a.kind(), Some(expected_kind(not_a.cardinality(), runs_in(&model))));
    }
}

#[test]
fn sparse_sets_agree_with_a_plain_model() {
    agree(&scattered(1, 300), &scattered(2, 500));
    agree(&scattered(3, 40), &scattered(3, 20));
}

#[test]
fn dense_sets_agree_with_a_plain_model() {
    agree(&scattered(4, 30000), &scattered(5, 50000));
}

#[test]
fn sparse_and_dense_sets_agree_with_a_plain_model() {
    agree(&scattered(6, 200), &scattered(7, 40000));
    agree(&scattered(8, 40000), &scattered(9, 200));
}

#[test]
fn sets_of_long_stretches_agree_with_a_plain_model() {
    agree(&stretches(10, 30, 2000), &stretches(11, 50, 1000));
    agree(&stretches(12, 300, 10), &scattered(13, 3000));
}

#[test]
fn empty_and_full_sets_agree_with_a_plain_model() {
    let all: Vec<u16> = (0..=65535u16).collect();
    let none: Vec<u16> = Vec::new();
    let edges: Vec<u16> = vec![0, 65535];
    agree(&none, &none);
    agree(&none, &all);
    agree(&all, &none);
    agree(&all, &all);
    agree(&edges, &all);
    agree(&all, &edges);
    agree(&edges, &none);
}

#[test]
fn neighbouring_sets_agree_with_a_plain_model() {
    let evens: Vec<u16> = (0..32768u32).map(|i| (2 * i) as u16).collect();
    let odds: Vec<u16> = (0..32768u32).map(|i| (2 * i + 1) as u16).collect();
    agree(&evens, &odds);
    let low: Vec<u16> = (0..=32767u16).collect();
    let high: Vec<u16> = (32768..=65535u16).collect();
    agree(&low, &high);
    agree(&high, &low);
}

#[test]
fn mutation_agrees_with_a_plain_model() {
    let mut g = Lcg(99);
    let mut model = vec![false; 65536];
    let mut holders = forms(&[]);
    for step in 0..6000 {
        let v = if step % 3 == 0 { g.next() % 65536 } else { g.next() % 600 } as u16;
        let adds = g.next() % 3 != 0;
        for holder in holders.iter_mut() {
            if adds {
                assert_eq!(holder.insert(v), !model[v as usize]);
            } else {
                assert_eq!(holder.remove(v), model[v as usize]);
            }
            assert_eq!(holder.contains(v), adds);
        }
        model[v as usize] = adds;
        if step % 500 == 0 {
            for holder in holders.iter() {
                assert!(holder.is_valid());
                assert_eq!(holder.to_vec(), listing(&model));
                assert_eq!(holder.cardinality(), listing(&model).len());
                assert_eq!(holder.number_of_runs(), runs_in(&model));
                assert_eq!(holder.min(), listing(&model).first().copied());
                assert_eq!(holder.max(), listing(&model).last().copied());
            }
        }
    }
    for holder in holders.iter() {
        assert!(holder.is_valid());
        assert_eq!(holder.to_vec(), listing(&model));
    }
}
