//! The sparse encoding: a sorted vector of distinct values.

use vstd::prelude::*;
use crate::container::model::SetModel;
use crate::container::model::{ascending, at_least, is_max_of, is_min_of, is_run_start};
use crate::container::model::{run_count, run_starts};
use crate::container::model::{
    lemma_ascending_len, lemma_insert_to_set, lemma_push_to_set, lemma_remove_to_set,
};

verus! {

/// A set of 16-bit values kept as a strictly increasing vector.
pub struct ArrayContainer {
    pub(crate) values: Vec<u16>,
}

impl SetModel for ArrayContainer {
    open(crate) spec fn wf(&self) -> bool {
        ascending(self.values@)
    }

    open(crate) spec fn members(&self) -> Set<u16> {
        self.values@.to_set()
    }
}

/// The first index of `values` whose element is not below `v`.
pub fn lower_bound(values: &Vec<u16>, v: u16) -> (i: usize)
    requires
        ascending(values@),
    ensures
        i <= values.len(),
        forall|k: int| 0 <= k < i ==> values[k] < v,
        forall|k: int| i <= k < values.len() ==> values[k] >= v,
{
    let mut lo: usize = 0;
    let mut hi: usize = values.len();
    while lo < hi
        invariant
            lo <= hi <= values.len(),
            ascending(values@),
            forall|k: int| 0 <= k < lo ==> values[k] < v,
            forall|k: int| hi <= k < values.len() ==> values[k] >= v,
        decreases hi - lo,
    {
        let mid: usize = lo + (hi - lo) / 2;
        if values[mid] < v {
            lo = mid + 1;
        } else {
            hi = mid;
        }
    }
    lo
}

/// Whether a vector is strictly increasing.
pub fn is_ascending(values: &Vec<u16>) -> (b: bool)
    ensures
        b == ascending(values@),
{
    let mut i: usize = 1;
    while i < values.len()
        invariant
            1 <= i,
            forall|a: int, b: int| 0 <= a < b < i && b < values.len() ==> values[a] < values[b],
        decreases values.len() - i,
    {
        if values[i - 1] >= values[i] {
            return false;
        }
        proof {
            assert forall|a: int, b: int| 0 <= a < b < i + 1 && b < values.len() implies values[a]
                < values[b] by {
                if b == i && a < i - 1 {
                    assert(values[a] < values[i - 1]);
                }
            }
        }
        i = i + 1;
    }
    true
}

/// The number of maximal runs of consecutive values in an ascending vector.
pub fn count_runs(values: &Vec<u16>) -> (n: usize)
    requires
        ascending(values@),
    ensures
        n == run_count(values@.to_set()),
        n <= values.len(),
{
    let ghost m = values@.to_set();
    let ghost mut starts: Seq<u16> = Seq::empty();
    let mut n: usize = 0;
    let mut i: usize = 0;
    proof {
        assert(starts.to_set() =~= Set::new(
            |x: u16| is_run_start(m, x) && (0 < values.len() ==> x < values[0]),
        )) by {
            assert forall|x: u16| is_run_start(m, x) && 0 < values.len() implies !(x
                < values[0]) by {
                let k = choose|k: int| 0 <= k < values.len() && values[k] == x;
                assert(values[0] <= values[k]);
            }
        }
    }
    while i < values.len()
        invariant
            i <= values.len(),
            ascending(values@),
            m == values@.to_set(),
            n == starts.len(),
            n <= i,
            ascending(starts),
            starts.to_set() =~= Set::new(
                |x: u16| is_run_start(m, x) && (i < values.len() ==> x < values[i as int]),
            ),
        decreases values.len() - i,
    {
        let x: u16 = values[i];
        let opens: bool = i == 0 || values[i - 1] != x - 1;
        let ghost next = Set::new(
            |y: u16| is_run_start(m, y) && (i + 1 < values.len() ==> y < values[i + 1]),
        );
        let ghost prev = starts.to_set();
        proof {
            assert(m.contains(x)) by {
                assert(values@[i as int] == x);
            }
            assert(opens <==> is_run_start(m, x)) by {
                if x > 0 && m.contains((x - 1) as u16) {
                    let k = choose|k: int| 0 <= k < values.len() && values[k] == (x - 1) as u16;
                    assert(k < i);
                    assert(k == i - 1);
                }
                if i > 0 && values[i - 1] == x - 1 {
                    assert(values@[i - 1] == (x - 1) as u16);
                }
            }
            assert forall|y: u16| next.contains(y) <==> (prev.contains(y) || (opens && y == x)) by {
                if is_run_start(m, y) {
                    let k = choose|k: int| 0 <= k < values.len() && values[k] == y;
                    if k < i {
                        assert(y < x);
                    } else if k > i {
                        assert(i + 1 < values.len());
                        assert(values[i + 1] <= values[k]);
                    }
                }
                if prev.contains(y) {
                    assert(y < x);
                    if i + 1 < values.len() {
                        assert(values[i as int] < values[i + 1]);
                    }
                }
                if i + 1 < values.len() {
                    assert(values[i as int] < values[i + 1]);
                }
            }
        }
        if opens {
            proof {
                assert forall|a: int, b: int| 0 <= a < b < starts.push(x).len() implies starts.push(
                    x,
                )[a] < starts.push(x)[b] by {
                    if b == starts.len() {
                        assert(prev.contains(starts[a]));
                    }
                }
                lemma_push_to_set(starts, x);
                starts = starts.push(x);
            }
            n = n + 1;
        }
        proof {
            assert(starts.to_set() =~= next);
        }
        i = i + 1;
    }
    proof {
        assert(starts.to_set() =~= run_starts(m));
        lemma_ascending_len(starts);
    }
    n
}

impl ArrayContainer {
    /// The stored values, in order.
    pub open(crate) spec fn elements(&self) -> Seq<u16> {
        self.values@
    }

    /// The stored values are the ascending listing of the members.
    pub proof fn lemma_elements(&self)
        requires
            self.wf(),
        ensures
            ascending(self.elements()),
            self.elements().to_set() == self.members(),
    {
    }

    /// Whether the invariant of the encoding holds: the stored values are
    /// strictly increasing.
    pub fn is_valid(&self) -> (b: bool)
        ensures
            b == self.wf(),
    {
        is_ascending(&self.values)
    }

    /// An empty container.
    pub fn new() -> (r: Self)
        ensures
            r.wf(),
            r.members() == Set::<u16>::empty(),
    {
        let r = ArrayContainer { values: Vec::new() };
        assert(r.values@.to_set() =~= Set::<u16>::empty());
        r
    }

    /// The container that holds the elements of an ascending vector.
    pub fn from_sorted(values: Vec<u16>) -> (r: Self)
        requires
            ascending(values@),
        ensures
            r.wf(),
            r.members() == values@.to_set(),
            r.elements() == values@,
    {
        ArrayContainer { values }
    }

    /// The container that holds the values of `data`, which may repeat and
    /// come in any order.
    pub fn from_slice(data: &[u16]) -> (r: Self)
        ensures
            r.wf(),
            r.members() == data@.to_set(),
    {
        let mut r = ArrayContainer::new();
        r.extend(data);
        proof {
            assert(Set::<u16>::empty().union(data@.to_set()) =~= data@.to_set());
        }
        r
    }

    /// Adds the values of `data`, which may repeat and come in any order.
    pub fn extend(&mut self, data: &[u16])
        requires
            old(self).wf(),
        ensures
            final(self).wf(),
            final(self).members() == old(self).members().union(data@.to_set()),
    {
        let ghost before = self.members();
        let mut i: usize = 0;
        proof {
            assert(data@.subrange(0, 0).to_set() =~= Set::<u16>::empty());
            assert(before.union(Set::<u16>::empty()) =~= before);
        }
        while i < data.len()
            invariant
                i <= data.len(),
                self.wf(),
                self.members() =~= before.union(data@.subrange(0, i as int).to_set()),
            decreases data.len() - i,
        {
            proof {
                lemma_push_to_set(data@.subrange(0, i as int), data@[i as int]);
                assert(data@.subrange(0, i + 1) =~= data@.subrange(0, i as int).push(
                    data@[i as int],
                ));
            }
            self.insert(data[i]);
            i = i + 1;
        }
        proof {
            assert(data@.subrange(0, i as int) =~= data@);
        }
    }

    /// The number of members.
    pub fn cardinality(&self) -> (n: usize)
        requires
            self.wf(),
        ensures
            n == self.members().len(),
    {
        proof {
            lemma_ascending_len(self.values@);
        }
        self.values.len()
    }

    /// Whether the container has no member.
    pub fn is_empty(&self) -> (b: bool)
        requires
            self.wf(),
        ensures
            b == (self.members() == Set::<u16>::empty()),
    {
        proof {
            if self.values.len() > 0 {
                assert(self.values@.to_set().contains(self.values@[0]));
            } else {
                assert(self.values@.to_set() =~= Set::<u16>::empty());
            }
        }
        self.values.len() == 0
    }

    /// Whether `v` is a member, by binary search.
    pub fn contains(&self, v: u16) -> (b: bool)
        requires
            self.wf(),
        ensures
            b == self.members().contains(v),
    {
        let i = lower_bound(&self.values, v);
        let b = i < self.values.len() && self.values[i] == v;
        proof {
            if b {
                assert(self.values@[i as int] == v);
            }
        }
        b
    }

    /// Adds `v`; returns whether it was absent before.
    pub fn insert(&mut self, v: u16) -> (added: bool)
        requires
            old(self).wf(),
        ensures
            final(self).wf(),
            final(self).members() == old(self).members().insert(v),
            added == !old(self).members().contains(v),
    {
        let i = lower_bound(&self.values, v);
        if i < self.values.len() && self.values[i] == v {
            proof {
                assert(self.values@[i as int] == v);
                assert(self.members() =~= self.members().insert(v));
            }
            false
        } else {
            proof {
                lemma_insert_to_set(self.values@, i as int, v);
            }
            self.values.insert(i, v);
            true
        }
    }

    /// Removes `v`; returns whether it was present before.
    pub fn remove(&mut self, v: u16) -> (removed: bool)
        requires
            old(self).wf(),
        ensures
            final(self).wf(),
            final(self).members() == old(self).members().remove(v),
            removed == old(self).members().contains(v),
    {
        let i = lower_bound(&self.values, v);
        if i < self.values.len() && self.values[i] == v {
            proof {
                assert(self.values@[i as int] == v);
                lemma_remove_to_set(self.values@, i as int);
            }
            self.values.remove(i);
            true
        } else {
            proof {
                assert(self.members() =~= self.members().remove(v));
            }
            false
        }
    }

    /// The least member, if there is one.
    pub fn min(&self) -> (m: Option<u16>)
        requires
            self.wf(),
        ensures
            match m {
                Some(x) => is_min_of(self.members(), x),
                None => self.members() == Set::<u16>::empty(),
            },
    {
        if self.values.len() == 0 {
            assert(self.values@.to_set() =~= Set::<u16>::empty());
            None
        } else {
            let x = self.values[0];
            proof {
                assert(self.values@[0] == x);
                assert forall|v: u16| self.members().contains(v) implies x <= v by {
                    let k = choose|k: int| 0 <= k < self.values.len() && self.values[k] == v;
                    assert(self.values[0] <= self.values[k]);
                }
            }
            Some(x)
        }
    }

    /// The greatest member, if there is one.
    pub fn max(&self) -> (m: Option<u16>)
        requires
            self.wf(),
        ensures
            match m {
                Some(x) => is_max_of(self.members(), x),
                None => self.members() == Set::<u16>::empty(),
            },
    {
        let n = self.values.len();
        if n == 0 {
            assert(self.values@.to_set() =~= Set::<u16>::empty());
            None
        } else {
            let x = self.values[n - 1];
            proof {
                assert(self.values@[n - 1] == x);
                assert forall|v: u16| self.members().contains(v) implies v <= x by {
                    let k = choose|k: int| 0 <= k < self.values.len() && self.values[k] == v;
                    assert(self.values[k] <= self.values[n - 1]);
                }
            }
            Some(x)
        }
    }

    /// The least member that is not below `v`, if there is one. Calling
    /// it again above each answer lists the members one at a time.
    pub fn next_from(&self, v: u16) -> (r: Option<u16>)
        requires
            self.wf(),
        ensures
            match r {
                Some(x) => is_min_of(at_least(self.members(), v), x),
                None => at_least(self.members(), v) == Set::<u16>::empty(),
            },
    {
        let i = lower_bound(&self.values, v);
        if i < self.values.len() {
            let x = self.values[i];
            proof {
                assert(self.values@[i as int] == x);
                assert forall|y: u16| at_least(self.members(), v).contains(y) implies x <= y by {
                    let k = choose|k: int| 0 <= k < self.values.len() && self.values[k] == y;
                    if k > i {
                        assert(self.values[i as int] < self.values[k]);
                    }
                }
            }
            Some(x)
        } else {
            proof {
                assert forall|y: u16| !at_least(self.members(), v).contains(y) by {
                    if self.members().contains(y) {
                        let k = choose|k: int| 0 <= k < self.values.len() && self.values[k] == y;
                    }
                }
                assert(at_least(self.members(), v) =~= Set::<u16>::empty());
            }
            None
        }
    }

    /// The members in ascending order.
    pub fn to_vec(&self) -> (r: Vec<u16>)
        requires
            self.wf(),
        ensures
            ascending(r@),
            r@.to_set() == self.members(),
            r@ == self.elements(),
    {
        let r = self.values.clone();
        assert(r@ =~= self.values@);
        r
    }

    /// The number of maximal runs of consecutive members.
    pub fn number_of_runs(&self) -> (n: usize)
        requires
            self.wf(),
        ensures
            n == run_count(self.members()),
    {
        count_runs(&self.values)
    }
}

} // verus!
