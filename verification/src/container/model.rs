//! The mathematical vocabulary shared by every encoding: a container is a set
//! of `u16` values, enumerated in ascending order.

use vstd::prelude::*;
use vstd::set_lib::*;
use vstd::seq_lib::*;

verus! {

/// What every encoding denotes: a set of 16-bit values, meaningful whenever
/// the encoding's own invariant `wf` holds.
pub trait SetModel {
    /// The invariant of the encoding.
    spec fn wf(&self) -> bool;

    /// The values that the container holds.
    spec fn members(&self) -> Set<u16>;
}

/// `s` is strictly increasing.
pub open spec fn ascending(s: Seq<u16>) -> bool {
    forall|i: int, j: int| 0 <= i < j < s.len() ==> s[i] < s[j]
}

/// `v` is in `s` and its predecessor is not: `v` opens a maximal run of `s`.
pub open spec fn is_run_start(s: Set<u16>, v: u16) -> bool {
    s.contains(v) && (v == 0 || !s.contains((v - 1) as u16))
}

/// The first values of the maximal runs of consecutive members of `s`.
pub open spec fn run_starts(s: Set<u16>) -> Set<u16> {
    Set::new(|v: u16| is_run_start(s, v))
}

/// The number of maximal runs of consecutive members of `s`.
pub open spec fn run_count(s: Set<u16>) -> nat {
    run_starts(s).len()
}

/// The closed interval `[lo, hi]`.
pub open spec fn span(lo: int, hi: int) -> Set<u16> {
    Set::new(|v: u16| lo <= v <= hi)
}

/// Every set of 16-bit values is finite and has at most 65536 members.
pub proof fn lemma_finite(s: Set<u16>)
    ensures
        s.finite(),
        s.len() <= 65536,
{
    let full = Set::<u16>::full();
    let below = Set::<u16>::range(0u16, 65535u16);
    range_set_properties::<u16>(0u16, 65535u16);
    assert(full =~= below.insert(65535u16));
    lemma_set_subset_finite(full, s);
    lemma_len_subset(s, full);
}

/// The whole universe has 65536 members.
pub proof fn lemma_full_len()
    ensures
        Set::<u16>::full().finite(),
        Set::<u16>::full().len() == 65536,
{
    let full = Set::<u16>::full();
    let below = Set::<u16>::range(0u16, 65535u16);
    range_set_properties::<u16>(0u16, 65535u16);
    assert(full =~= below.insert(65535u16));
}

/// A closed interval of 16-bit values has `hi - lo + 1` members.
pub proof fn lemma_span_len(lo: u16, hi: u16)
    requires
        lo <= hi,
    ensures
        span(lo as int, hi as int).finite(),
        span(lo as int, hi as int).len() == hi - lo + 1,
{
    let below = Set::<u16>::range(lo, hi);
    range_set_properties::<u16>(lo, hi);
    assert(span(lo as int, hi as int) =~= below.insert(hi));
}

/// An ascending sequence lists each of its elements once.
pub proof fn lemma_ascending_len(s: Seq<u16>)
    requires
        ascending(s),
    ensures
        s.no_duplicates(),
        s.to_set().finite(),
        s.to_set().len() == s.len(),
{
    lemma_finite(s.to_set());
    s.unique_seq_to_set();
}

/// Two ascending sequences with the same elements are the same sequence.
pub proof fn lemma_ascending_unique(a: Seq<u16>, b: Seq<u16>)
    requires
        ascending(a),
        ascending(b),
        a.to_set() == b.to_set(),
    ensures
        a == b,
{
    lemma_ascending_len(a);
    lemma_ascending_len(b);
    assert(a.len() == b.len());
    assert forall|k: int| 0 <= k < a.len() implies a[k] == b[k] by {
        // Exactly k members lie below a[k], and exactly k below b[k].
        lemma_ascending_rank(a, k);
        lemma_ascending_rank(b, k);
        if a[k] < b[k] {
            lemma_below_subset(a, k, b[k]);
        } else if b[k] < a[k] {
            lemma_below_subset(b, k, a[k]);
        }
    }
    assert(a =~= b);
}

/// The members of `s` that lie below `bound`.
pub open spec fn below_set(s: Set<u16>, bound: u16) -> Set<u16> {
    Set::new(|v: u16| s.contains(v) && v < bound)
}

/// In an ascending sequence exactly `k` elements lie below the one at index `k`.
pub proof fn lemma_ascending_rank(s: Seq<u16>, k: int)
    requires
        ascending(s),
        0 <= k < s.len(),
    ensures
        below_set(s.to_set(), s[k]).finite(),
        below_set(s.to_set(), s[k]).len() == k,
{
    let prefix = s.subrange(0, k);
    assert(ascending(prefix));
    lemma_ascending_len(prefix);
    assert forall|v: u16| prefix.to_set().contains(v) <==> below_set(s.to_set(), s[k]).contains(
        v,
    ) by {
        if prefix.to_set().contains(v) {
            let i = choose|i: int| 0 <= i < prefix.len() && prefix[i] == v;
            assert(s[i] == v);
        }
        if below_set(s.to_set(), s[k]).contains(v) {
            let i = choose|i: int| 0 <= i < s.len() && s[i] == v;
            assert(i < k);
            assert(prefix[i] == v);
        }
    }
    assert(prefix.to_set() =~= below_set(s.to_set(), s[k]));
}

/// Where `bound` exceeds the element at index `k`, more than `k` elements
/// lie below `bound`.
pub proof fn lemma_below_subset(s: Seq<u16>, k: int, bound: u16)
    requires
        ascending(s),
        0 <= k < s.len(),
        s[k] < bound,
    ensures
        below_set(s.to_set(), bound).finite(),
        below_set(s.to_set(), bound).len() > k,
{
    lemma_ascending_rank(s, k);
    let small = below_set(s.to_set(), s[k]);
    let large = below_set(s.to_set(), bound);
    lemma_finite(large);
    assert(s.to_set().contains(s[k]));
    assert(small.insert(s[k]).subset_of(large));
    lemma_len_subset(small.insert(s[k]), large);
}

/// `m` is the least member of `s`.
pub open spec fn is_min_of(s: Set<u16>, m: u16) -> bool {
    s.contains(m) && forall|v: u16| s.contains(v) ==> m <= v
}

/// `m` is the greatest member of `s`.
pub open spec fn is_max_of(s: Set<u16>, m: u16) -> bool {
    s.contains(m) && forall|v: u16| s.contains(v) ==> v <= m
}

/// The members of `s` that are not below `v`.
pub open spec fn at_least(s: Set<u16>, v: u16) -> Set<u16> {
    Set::new(|x: u16| s.contains(x) && x >= v)
}

/// Appending an element adds it to the set of elements.
pub proof fn lemma_push_to_set(s: Seq<u16>, v: u16)
    ensures
        s.push(v).to_set() =~= s.to_set().insert(v),
{
    let t = s.push(v);
    assert forall|x: u16| t.to_set().contains(x) <==> (s.to_set().contains(x) || x == v) by {
        if t.contains(x) {
            let k = choose|k: int| 0 <= k < t.len() && t[k] == x;
            if k < s.len() {
                assert(s[k] == x);
            }
        }
        if s.contains(x) {
            let k = choose|k: int| 0 <= k < s.len() && s[k] == x;
            assert(t[k] == x);
        }
        if x == v {
            assert(t[s.len() as int] == v);
        }
    }
}

/// Inserting an element anywhere adds it to the set of elements.
pub proof fn lemma_insert_to_set(s: Seq<u16>, i: int, v: u16)
    requires
        0 <= i <= s.len(),
    ensures
        s.insert(i, v).to_set() =~= s.to_set().insert(v),
{
    let t = s.insert(i, v);
    assert forall|x: u16| t.to_set().contains(x) <==> (s.to_set().contains(x) || x == v) by {
        if t.contains(x) {
            let k = choose|k: int| 0 <= k < t.len() && t[k] == x;
            if k < i {
                assert(s[k] == x);
            } else if k > i {
                assert(s[k - 1] == x);
            }
        }
        if s.contains(x) {
            let k = choose|k: int| 0 <= k < s.len() && s[k] == x;
            if k < i {
                assert(t[k] == x);
            } else {
                assert(t[k + 1] == x);
            }
        }
        if x == v {
            assert(t[i] == v);
        }
    }
}

/// Removing the element at an index of an ascending sequence removes it from
/// the set of elements.
pub proof fn lemma_remove_to_set(s: Seq<u16>, i: int)
    requires
        ascending(s),
        0 <= i < s.len(),
    ensures
        s.remove(i).to_set() =~= s.to_set().remove(s[i]),
        ascending(s.remove(i)),
{
    let t = s.remove(i);
    assert forall|x: u16| t.to_set().contains(x) <==> (s.to_set().contains(x) && x != s[i]) by {
        if t.contains(x) {
            let k = choose|k: int| 0 <= k < t.len() && t[k] == x;
            if k < i {
                assert(s[k] == x);
            } else {
                assert(s[k + 1] == x);
            }
        }
        if s.contains(x) && x != s[i] {
            let k = choose|k: int| 0 <= k < s.len() && s[k] == x;
            if k < i {
                assert(t[k] == x);
            } else {
                assert(t[k - 1] == x);
            }
        }
    }
}

/// Appending a value above every element keeps the sequence ascending.
pub proof fn lemma_push_ascending(s: Seq<u16>, v: u16)
    requires
        ascending(s),
        forall|x: u16| s.to_set().contains(x) ==> x < v,
    ensures
        ascending(s.push(v)),
        s.push(v).to_set() =~= s.to_set().insert(v),
{
    lemma_push_to_set(s, v);
    let t = s.push(v);
    assert forall|a: int, b: int| 0 <= a < b < t.len() implies t[a] < t[b] by {
        assert(s.to_set().contains(s[a])) by {
            assert(s.contains(s[a]));
        }
    }
}

/// The four binary operations of the set algebra.
#[derive(Clone, Copy, Debug, PartialEq, Eq, Structural)]
pub enum SetOp {
    Union,
    Intersection,
    Difference,
    SymmetricDifference,
}

/// Whether a value belongs to the result of `op`, given whether it belongs
/// to the left and to the right operand.
pub open spec fn keeps(op: SetOp, left: bool, right: bool) -> bool {
    match op {
        SetOp::Union => left || right,
        SetOp::Intersection => left && right,
        SetOp::Difference => left && !right,
        SetOp::SymmetricDifference => left != right,
    }
}

/// The result of `op` on two sets.
pub open spec fn combine(op: SetOp, a: Set<u16>, b: Set<u16>) -> Set<u16> {
    Set::new(|v: u16| keeps(op, a.contains(v), b.contains(v)))
}

/// The members of exactly one of two sets.
pub open spec fn symmetric_difference(a: Set<u16>, b: Set<u16>) -> Set<u16> {
    a.difference(b).union(b.difference(a))
}

/// `combine` is the set algebra of `vstd`.
pub proof fn lemma_combine(a: Set<u16>, b: Set<u16>)
    ensures
        combine(SetOp::Union, a, b) =~= a.union(b),
        combine(SetOp::Intersection, a, b) =~= a.intersect(b),
        combine(SetOp::Difference, a, b) =~= a.difference(b),
        combine(SetOp::SymmetricDifference, a, b) =~= symmetric_difference(a, b),
{
}

} // verus!
