//! The merge scan over two ascending vectors, and the loops that pair the
//! values of an interval list with a bitset.

use vstd::prelude::*;
use crate::container::bitset::BitsetContainer;
use crate::container::{Container, DEFAULT_MAX_SIZE};
use crate::container::interval::{selects, Intervals};
use crate::container::model::SetModel;
use crate::container::model::{ascending, combine, keeps, span, SetOp};
use crate::container::model::{lemma_ascending_len, lemma_finite, lemma_push_ascending};
use crate::container::run::{covers, lemma_prefix_below, lemma_runs_own, runs_members, span_of};
use crate::container::run::spaced;

verus! {

/// `v` lies below the element of `s` at index `i`, if there is one.
pub open spec fn low(s: Seq<u16>, i: int, v: u16) -> bool {
    i < s.len() ==> v < s[i]
}

/// The part of the result of `op` that the merge has decided when it
/// stands at index `i` of `a` and index `j` of `b`.
pub open spec fn merged(op: SetOp, a: Seq<u16>, b: Seq<u16>, i: int, j: int) -> Set<u16> {
    Set::new(
        |v: u16|
            keeps(op, a.to_set().contains(v), b.to_set().contains(v)) && low(a, i, v) && low(
                b,
                j,
                v,
            ),
    )
}

/// What has been consumed of either vector lies below what is left of the
/// other.
pub open spec fn crossed(a: Seq<u16>, b: Seq<u16>, i: int, j: int) -> bool {
    &&& (i > 0 && j < b.len() ==> a[i - 1] < b[j])
    &&& (j > 0 && i < a.len() ==> b[j - 1] < a[i])
}

/// In an ascending sequence, the elements below the one at index `i` are
/// those at the indices below `i`.
pub proof fn lemma_low(s: Seq<u16>, i: int, v: u16)
    requires
        ascending(s),
        0 <= i <= s.len(),
        s.to_set().contains(v),
    ensures
        low(s, i, v) == (exists|k: int| 0 <= k < i && s[k] == v),
        i < s.len() && !low(s, i, v) && low(s, i + 1, v) ==> v == s[i],
        i > 0 && low(s, i, v) ==> v <= s[i - 1],
{
    let k = choose|k: int| 0 <= k < s.len() && s[k] == v;
    if k < i {
        if i < s.len() {
            assert(s[k] < s[i]);
        }
        if k < i - 1 {
            assert(s[k] < s[i - 1]);
        }
    } else {
        if k > i {
            assert(s[i] < s[k]);
            if i + 1 < k {
                assert(s[i + 1] < s[k]);
            }
        }
        assert forall|m: int| 0 <= m < i implies s[m] != v by {
            assert(s[m] < s[k]);
        }
    }
}

/// One step of the merge: the element `x` is decided, its membership in
/// the operands is `left` and `right`, and the scan moves on to `i2`, `j2`.
pub proof fn lemma_merge_step(
    op: SetOp,
    a: Seq<u16>,
    b: Seq<u16>,
    i: int,
    j: int,
    i2: int,
    j2: int,
    x: u16,
)
    requires
        ascending(a),
        ascending(b),
        0 <= i <= i2 <= a.len(),
        0 <= j <= j2 <= b.len(),
        i2 <= i + 1,
        j2 <= j + 1,
        i2 + j2 > i + j,
        crossed(a, b, i, j),
        i2 > i ==> a[i] == x,
        j2 > j ==> b[j] == x,
        i2 == i && i < a.len() ==> x < a[i],
        j2 == j && j < b.len() ==> x < b[j],
    ensures
        crossed(a, b, i2, j2),
        a.to_set().contains(x) == (i2 > i),
        b.to_set().contains(x) == (j2 > j),
        merged(op, a, b, i2, j2) =~= if keeps(op, i2 > i, j2 > j) {
            merged(op, a, b, i, j).insert(x)
        } else {
            merged(op, a, b, i, j)
        },
        forall|v: u16| merged(op, a, b, i, j).contains(v) ==> v < x,
{
    if i2 > i {
        assert(a[i] == x);
        assert(a.to_set().contains(x));
        if i + 1 < a.len() {
            assert(a[i] < a[i + 1]);
        }
    }
    if j2 > j {
        assert(b[j] == x);
        assert(b.to_set().contains(x));
        if j + 1 < b.len() {
            assert(b[j] < b[j + 1]);
        }
    }
    if a.to_set().contains(x) {
        lemma_low(a, i, x);
        lemma_low(a, i2, x);
    }
    if b.to_set().contains(x) {
        lemma_low(b, j, x);
        lemma_low(b, j2, x);
    }
    assert forall|v: u16| merged(op, a, b, i, j).contains(v) implies v < x by {
        if a.to_set().contains(v) {
            lemma_low(a, i, v);
        }
        if b.to_set().contains(v) {
            lemma_low(b, j, v);
        }
    }
    assert forall|v: u16|
        merged(op, a, b, i2, j2).contains(v) <==> (merged(op, a, b, i, j).contains(v) || (v == x
            && keeps(op, i2 > i, j2 > j))) by {
        if a.to_set().contains(v) {
            lemma_low(a, i, v);
            lemma_low(a, i2, v);
        }
        if b.to_set().contains(v) {
            lemma_low(b, j, v);
            lemma_low(b, j2, v);
        }
    }
}

/// The result of `op` on two ascending vectors, by a merge scan: the
/// smaller head is decided at each step, equal heads together.
pub fn merge(a: &Vec<u16>, b: &Vec<u16>, op: SetOp) -> (out: Vec<u16>)
    requires
        ascending(a@),
        ascending(b@),
    ensures
        ascending(out@),
        out@.to_set() == combine(op, a@.to_set(), b@.to_set()),
{
    let na = a.len();
    let nb = b.len();
    let mut out: Vec<u16> = Vec::new();
    let mut i: usize = 0;
    let mut j: usize = 0;
    proof {
        assert forall|v: u16| !merged(op, a@, b@, 0, 0).contains(v) by {
            if a@.to_set().contains(v) {
                lemma_low(a@, 0, v);
            }
            if b@.to_set().contains(v) {
                lemma_low(b@, 0, v);
            }
        }
        assert(out@.to_set() =~= merged(op, a@, b@, 0, 0));
    }
    while i < na || j < nb
        invariant
            na == a.len(),
            nb == b.len(),
            i <= na,
            j <= nb,
            ascending(a@),
            ascending(b@),
            ascending(out@),
            crossed(a@, b@, i as int, j as int),
            out@.to_set() =~= merged(op, a@, b@, i as int, j as int),
        decreases (na - i) + (nb - j),
    {
        let takes_a: bool = i < na && (j == nb || a[i] <= b[j]);
        let takes_b: bool = j < nb && (i == na || b[j] <= a[i]);
        let x: u16 = if takes_a {
            a[i]
        } else {
            b[j]
        };
        let ghost i2 = if takes_a {
            i + 1
        } else {
            i as int
        };
        let ghost j2 = if takes_b {
            j + 1
        } else {
            j as int
        };
        proof {
            lemma_merge_step(op, a@, b@, i as int, j as int, i2, j2, x);
        }
        if selects(op, takes_a, takes_b) {
            proof {
                lemma_push_ascending(out@, x);
            }
            out.push(x);
        }
        if takes_a {
            i = i + 1;
        }
        if takes_b {
            j = j + 1;
        }
    }
    proof {
        assert(merged(op, a@, b@, i as int, j as int) =~= combine(op, a@.to_set(), b@.to_set()));
    }
    out
}

/// The values of an interval list that the bitset holds (`present`) or
/// lacks (`!present`), by one bit test per value.
pub fn filter_by_bits<A: Intervals>(a: &A, bits: &BitsetContainer, present: bool) -> (out: Vec<
    u16,
>)
    requires
        a.wf(),
        bits.wf(),
    ensures
        ascending(out@),
        out@.to_set() == combine(
            if present {
                SetOp::Intersection
            } else {
                SetOp::Difference
            },
            a.members(),
            bits.members(),
        ),
{
    let ghost op = if present {
        SetOp::Intersection
    } else {
        SetOp::Difference
    };
    let ghost s = a.intervals();
    proof {
        a.lemma_intervals();
    }
    let n = a.interval_count();
    let mut out: Vec<u16> = Vec::new();
    let mut i: usize = 0;
    proof {
        assert(runs_members(s.subrange(0, 0)) =~= Set::<u16>::empty());
        assert(out@.to_set() =~= combine(op, runs_members(s.subrange(0, 0)), bits.members()));
    }
    while i < n
        invariant
            i <= n,
            n == s.len(),
            s == a.intervals(),
            a.wf(),
            bits.wf(),
            spaced(s, 0),
            ascending(out@),
            op == if present {
                SetOp::Intersection
            } else {
                SetOp::Difference
            },
            out@.to_set() =~= combine(op, runs_members(s.subrange(0, i as int)), bits.members()),
        decreases n - i,
    {
        let run = a.interval_at(i);
        let first: u32 = run.start as u32;
        let last: u32 = run.start as u32 + run.length as u32;
        let ghost before = runs_members(s.subrange(0, i as int));
        proof {
            lemma_prefix_below(s, i as int);
            assert(before.union(span(first as int, first - 1)) =~= before);
        }
        let mut x: u32 = first;
        while x <= last
            invariant
                first <= x <= last + 1,
                last <= 65535,
                bits.wf(),
                ascending(out@),
                op == if present {
                    SetOp::Intersection
                } else {
                    SetOp::Difference
                },
                forall|v: u16| before.contains(v) ==> v < first,
                out@.to_set() =~= combine(
                    op,
                    before.union(span(first as int, x - 1)),
                    bits.members(),
                ),
            decreases last + 1 - x,
        {
            let v: u16 = x as u16;
            if bits.contains(v) == present {
                proof {
                    lemma_push_ascending(out@, v);
                }
                out.push(v);
            }
            proof {
                assert(out@.to_set() =~= combine(
                    op,
                    before.union(span(first as int, x as int)),
                    bits.members(),
                ));
            }
            x = x + 1;
        }
        proof {
            assert(before.union(span(first as int, last as int)) =~= runs_members(
                s.subrange(0, i + 1),
            ));
        }
        i = i + 1;
    }
    proof {
        assert(s.subrange(0, n as int) =~= s);
    }
    out
}

/// The result of `op` with an interval list on the left and a bitset on
/// the right. What can only shrink the list is filtered out of it; what
/// can grow past it is built on a copy of the bitset.
pub fn intervals_with_bits<A: Intervals>(a: &A, bits: &BitsetContainer, op: SetOp) -> (r:
    Container)
    requires
        a.wf(),
        bits.wf(),
    ensures
        r.settled(),
        r.members() == combine(op, a.members(), bits.members()),
{
    match op {
        SetOp::Union => {
            let b = bits.apply_intervals(a, SetOp::Union);
            proof {
                assert(b.members() =~= combine(op, a.members(), bits.members()));
            }
            Container::from_bitset(b, DEFAULT_MAX_SIZE)
        },
        SetOp::Intersection => {
            Container::from_values(filter_by_bits(a, bits, true), DEFAULT_MAX_SIZE)
        },
        SetOp::Difference => {
            Container::from_values(filter_by_bits(a, bits, false), DEFAULT_MAX_SIZE)
        },
        SetOp::SymmetricDifference => {
            let b = bits.apply_intervals(a, SetOp::SymmetricDifference);
            proof {
                assert(b.members() =~= combine(op, a.members(), bits.members()));
            }
            Container::from_bitset(b, DEFAULT_MAX_SIZE)
        },
    }
}

/// The result of `op` with a bitset on the left and an interval list on
/// the right.
pub fn bits_with_intervals<A: Intervals>(bits: &BitsetContainer, a: &A, op: SetOp) -> (r:
    Container)
    requires
        a.wf(),
        bits.wf(),
    ensures
        r.settled(),
        r.members() == combine(op, bits.members(), a.members()),
{
    match op {
        SetOp::Intersection => {
            let kept = filter_by_bits(a, bits, true);
            proof {
                assert(kept@.to_set() =~= combine(op, bits.members(), a.members()));
            }
            Container::from_values(kept, DEFAULT_MAX_SIZE)
        },
        _ => Container::from_bitset(bits.apply_intervals(a, op), DEFAULT_MAX_SIZE),
    }
}

/// Whether no element of `a` is missing from `b`, by a merge scan.
pub fn all_merged(a: &Vec<u16>, b: &Vec<u16>) -> (r: bool)
    requires
        ascending(a@),
        ascending(b@),
    ensures
        r == a@.to_set().subset_of(b@.to_set()),
{
    let rest = merge(a, b, SetOp::Difference);
    proof {
        if rest.len() > 0 {
            assert(rest@.to_set().contains(rest@[0])) by {
                assert(rest@.contains(rest@[0]));
            }
        } else {
            assert(rest@.to_set() =~= Set::<u16>::empty());
            assert forall|v: u16| a@.to_set().contains(v) implies b@.to_set().contains(v) by {
                assert(!rest@.to_set().contains(v));
            }
        }
    }
    rest.len() == 0
}

impl BitsetContainer {
    /// Adds `v` where it is absent and removes it where it is present.
    pub fn flip(&mut self, v: u16)
        requires
            old(self).wf(),
        ensures
            final(self).wf(),
            final(self).members() == if old(self).members().contains(v) {
                old(self).members().remove(v)
            } else {
                old(self).members().insert(v)
            },
    {
        if self.contains(v) {
            self.remove(v);
        } else {
            self.insert(v);
        }
    }

    /// The result of `op` on the bitset and the values of an interval list,
    /// by one bit operation per value.
    pub fn apply_intervals<A: Intervals>(&self, a: &A, op: SetOp) -> (r: BitsetContainer)
        requires
            self.wf(),
            a.wf(),
        ensures
            r.wf(),
            r.members() == combine(op, self.members(), a.members()),
    {
        let ghost s = a.intervals();
        proof {
            a.lemma_intervals();
        }
        let n = a.interval_count();
        let mut r = match op {
            SetOp::Intersection => BitsetContainer::new(),
            _ => self.clone(),
        };
        let mut i: usize = 0;
        proof {
            assert(runs_members(s.subrange(0, 0)) =~= Set::<u16>::empty());
            assert(r.members() =~= combine(op, self.members(), runs_members(s.subrange(0, 0))));
        }
        while i < n
            invariant
                i <= n,
                n == s.len(),
                s == a.intervals(),
                a.wf(),
                self.wf(),
                spaced(s, 0),
                r.wf(),
                r.members() =~= combine(op, self.members(), runs_members(s.subrange(0, i as int))),
            decreases n - i,
        {
            let run = a.interval_at(i);
            let first: u32 = run.start as u32;
            let last: u32 = run.start as u32 + run.length as u32;
            let ghost before = runs_members(s.subrange(0, i as int));
            proof {
                lemma_prefix_below(s, i as int);
                assert(before.union(span(first as int, first - 1)) =~= before);
            }
            let mut x: u32 = first;
            while x <= last
                invariant
                    first <= x <= last + 1,
                    last <= 65535,
                    self.wf(),
                    r.wf(),
                    forall|v: u16| before.contains(v) ==> v < first,
                    r.members() =~= combine(
                        op,
                        self.members(),
                        before.union(span(first as int, x - 1)),
                    ),
                decreases last + 1 - x,
            {
                let v: u16 = x as u16;
                match op {
                    SetOp::Union => {
                        r.insert(v);
                    },
                    SetOp::Intersection => {
                        if self.contains(v) {
                            r.insert(v);
                        }
                    },
                    SetOp::Difference => {
                        r.remove(v);
                    },
                    SetOp::SymmetricDifference => {
                        r.flip(v);
                    },
                }
                proof {
                    assert(r.members() =~= combine(
                        op,
                        self.members(),
                        before.union(span(first as int, x as int)),
                    ));
                }
                x = x + 1;
            }
            proof {
                assert(before.union(span(first as int, last as int)) =~= runs_members(
                    s.subrange(0, i + 1),
                ));
            }
            i = i + 1;
        }
        proof {
            assert(s.subrange(0, n as int) =~= s);
        }
        r
    }

    /// Whether every member of the bitset is a value of the interval list:
    /// the values of the list that the bitset holds, found by one bit test
    /// each, are as many as the bitset has members.
    pub fn is_within<A: Intervals>(&self, a: &A) -> (b: bool)
        requires
            self.wf(),
            a.wf(),
        ensures
            b == self.members().subset_of(a.members()),
    {
        let shared = filter_by_bits(a, self, true);
        proof {
            let both = a.members().intersect(self.members());
            assert(shared@.to_set() =~= both);
            lemma_ascending_len(shared@);
            lemma_finite(self.members());
            if self.members().subset_of(a.members()) {
                assert(both =~= self.members());
            }
            if shared.len() == self.cardinality {
                vstd::set_lib::lemma_subset_equality(both, self.members());
            }
        }
        shared.len() == self.cardinality()
    }

    /// Whether the bitset holds every value of an interval list, by one
    /// bit test per value.
    pub fn contains_all<A: Intervals>(&self, a: &A) -> (b: bool)
        requires
            self.wf(),
            a.wf(),
        ensures
            b == a.members().subset_of(self.members()),
    {
        let ghost s = a.intervals();
        proof {
            a.lemma_intervals();
        }
        let n = a.interval_count();
        let mut i: usize = 0;
        while i < n
            invariant
                i <= n,
                n == s.len(),
                s == a.intervals(),
                a.wf(),
                self.wf(),
                spaced(s, 0),
                a.members() == runs_members(s),
                forall|k: int, v: u16|
                    0 <= k < i && covers(#[trigger] s[k], v) ==> #[trigger] self.members().contains(
                        v,
                    ),
            decreases n - i,
        {
            let run = a.interval_at(i);
            let first: u32 = run.start as u32;
            let last: u32 = run.start as u32 + run.length as u32;
            let mut x: u32 = first;
            while x <= last
                invariant
                    first <= x <= last + 1,
                    last <= 65535,
                    self.wf(),
                    i < s.len(),
                    first == s[i as int].start,
                    last == s[i as int].start + s[i as int].length,
                    a.members() == runs_members(s),
                    forall|v: u16| first <= v < x ==> self.members().contains(v),
                decreases last + 1 - x,
            {
                if !self.contains(x as u16) {
                    proof {
                        lemma_runs_own(s, i as int);
                        assert(span_of(s[i as int]).contains(x as u16));
                    }
                    return false;
                }
                x = x + 1;
            }
            i = i + 1;
        }
        proof {
            assert forall|v: u16| a.members().contains(v) implies self.members().contains(v) by {
                let k = choose|k: int| 0 <= k < s.len() && covers(s[k], v);
                assert(covers(s[k], v));
            }
        }
        true
    }
}

} // verus!
