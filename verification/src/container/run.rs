//! The run-length encoding: a sorted list of runs that neither overlap nor
//! touch.

use vstd::prelude::*;
use vstd::set_lib::lemma_set_disjoint_lens;
use crate::container::model::SetModel;
use crate::container::model::{ascending, at_least, is_max_of, is_min_of, is_run_start};
use crate::container::model::run_count;
use crate::container::model::{run_starts, span};
use crate::container::model::{
    lemma_ascending_len, lemma_finite, lemma_push_ascending, lemma_push_to_set, lemma_span_len,
};

verus! {

/// The closed interval of the values `start ..= start + length`.
#[derive(Clone, Copy, Debug, PartialEq, Eq, Structural)]
pub struct Run {
    pub start: u16,
    pub length: u16,
}

/// The last value of a run.
pub open spec fn run_end(r: Run) -> int {
    r.start + r.length
}

/// `v` lies in the run `r`.
pub open spec fn covers(r: Run, v: u16) -> bool {
    r.start <= v && v <= r.start + r.length
}

/// `v` lies in one of `runs`.
pub open spec fn covered(runs: Seq<Run>, v: u16) -> bool {
    exists|i: int| 0 <= i < runs.len() && #[trigger] covers(runs[i], v)
}

/// The values of one run.
pub open spec fn span_of(r: Run) -> Set<u16> {
    span(r.start as int, r.start + r.length)
}

/// The values that lie in one of `runs`.
pub open spec fn runs_members(runs: Seq<Run>) -> Set<u16> {
    Set::new(|v: u16| covered(runs, v))
}

/// Every run ends within the universe, and each run ends more than `gap`
/// values before the next begins. With `gap` 0 the runs are sorted and
/// disjoint; with `gap` 1 they do not touch either.
pub open spec fn spaced(runs: Seq<Run>, gap: int) -> bool {
    &&& forall|i: int| 0 <= i < runs.len() ==> (#[trigger] runs[i]).start + runs[i].length <= 65535
    &&& forall|i: int, j: int|
        0 <= i < j < runs.len() ==> runs[i].start + runs[i].length + gap < runs[j].start
}

/// The sum of the sizes of `runs`.
pub open spec fn total(runs: Seq<Run>) -> nat
    decreases runs.len(),
{
    if runs.len() == 0 {
        0
    } else {
        total(runs.drop_last()) + runs.last().length as nat + 1
    }
}

/// The values of a run of the list are members.
pub proof fn lemma_runs_own(runs: Seq<Run>, k: int)
    requires
        0 <= k < runs.len(),
    ensures
        span_of(runs[k]).subset_of(runs_members(runs)),
{
    assert forall|v: u16| span_of(runs[k]).contains(v) implies runs_members(runs).contains(v) by {
        assert(covers(runs[k], v));
    }
}

/// Appending a run adds its values to the members.
pub proof fn lemma_runs_push(runs: Seq<Run>, r: Run)
    ensures
        runs_members(runs.push(r)) =~= runs_members(runs).union(span_of(r)),
{
    let t = runs.push(r);
    assert forall|v: u16| covered(t, v) <==> (covered(runs, v) || covers(r, v)) by {
        if covered(t, v) {
            let k = choose|k: int| 0 <= k < t.len() && covers(t[k], v);
            if k < runs.len() {
                assert(covers(runs[k], v));
            }
        }
        if covered(runs, v) {
            let k = choose|k: int| 0 <= k < runs.len() && covers(runs[k], v);
            assert(covers(t[k], v));
        }
        if covers(r, v) {
            assert(covers(t[runs.len() as int], v));
        }
    }
}

/// Inserting a run anywhere adds its values to the members.
pub proof fn lemma_runs_insert(runs: Seq<Run>, i: int, r: Run)
    requires
        0 <= i <= runs.len(),
    ensures
        runs_members(runs.insert(i, r)) =~= runs_members(runs).union(span_of(r)),
{
    let t = runs.insert(i, r);
    assert forall|v: u16| covered(t, v) <==> (covered(runs, v) || covers(r, v)) by {
        if covered(t, v) {
            let k = choose|k: int| 0 <= k < t.len() && covers(t[k], v);
            if k < i {
                assert(covers(runs[k], v));
            } else if k > i {
                assert(covers(runs[k - 1], v));
            }
        }
        if covered(runs, v) {
            let k = choose|k: int| 0 <= k < runs.len() && covers(runs[k], v);
            if k < i {
                assert(covers(t[k], v));
            } else {
                assert(covers(t[k + 1], v));
            }
        }
        if covers(r, v) {
            assert(covers(t[i], v));
        }
    }
}

/// Removing one of sorted disjoint runs removes its values from the
/// members.
pub proof fn lemma_runs_remove(runs: Seq<Run>, i: int)
    requires
        spaced(runs, 0),
        0 <= i < runs.len(),
    ensures
        runs_members(runs.remove(i)) =~= runs_members(runs).difference(span_of(runs[i])),
{
    let t = runs.remove(i);
    assert forall|v: u16| covered(t, v) <==> (covered(runs, v) && !covers(runs[i], v)) by {
        if covered(t, v) {
            let k = choose|k: int| 0 <= k < t.len() && covers(t[k], v);
            if k < i {
                assert(covers(runs[k], v));
            } else {
                assert(covers(runs[k + 1], v));
            }
        }
        if covered(runs, v) && !covers(runs[i], v) {
            let k = choose|k: int| 0 <= k < runs.len() && covers(runs[k], v);
            if k < i {
                assert(covers(t[k], v));
            } else {
                assert(covers(t[k - 1], v));
            }
        }
    }
}

/// Replacing a run removes it and adds the values of the new one.
pub proof fn lemma_runs_update(runs: Seq<Run>, i: int, r: Run)
    requires
        0 <= i < runs.len(),
    ensures
        runs_members(runs.update(i, r)) =~= runs_members(runs.remove(i)).union(span_of(r)),
{
    let t = runs.remove(i);
    let u = runs.update(i, r);
    assert forall|v: u16| covered(u, v) <==> (covered(t, v) || covers(r, v)) by {
        if covered(u, v) {
            let k = choose|k: int| 0 <= k < u.len() && covers(u[k], v);
            if k < i {
                assert(covers(t[k], v));
            } else if k > i {
                assert(covers(t[k - 1], v));
            }
        }
        if covered(t, v) {
            let k = choose|k: int| 0 <= k < t.len() && covers(t[k], v);
            if k < i {
                assert(covers(u[k], v));
            } else {
                assert(covers(u[k + 1], v));
            }
        }
        if covers(r, v) {
            assert(covers(u[i], v));
        }
    }
}

/// Replacing a run by one that fits between its neighbours keeps the spacing.
pub proof fn lemma_spaced_update(runs: Seq<Run>, i: int, r: Run, gap: int)
    requires
        spaced(runs, gap),
        gap >= 0,
        0 <= i < runs.len(),
        r.start + r.length <= 65535,
        i > 0 ==> runs[i - 1].start + runs[i - 1].length + gap < r.start,
        i + 1 < runs.len() ==> r.start + r.length + gap < runs[i + 1].start,
    ensures
        spaced(runs.update(i, r), gap),
{
    let u = runs.update(i, r);
    assert forall|a: int, b: int| 0 <= a < b < u.len() implies u[a].start + u[a].length + gap
        < u[b].start by {
        if a == i {
            assert(runs[i + 1].start <= runs[b].start);
        } else if b == i {
            assert(runs[a].start + runs[a].length <= runs[i - 1].start + runs[i - 1].length);
        }
    }
}

/// Inserting a run that fits between its neighbours keeps the spacing.
pub proof fn lemma_spaced_insert(runs: Seq<Run>, i: int, r: Run, gap: int)
    requires
        spaced(runs, gap),
        gap >= 0,
        0 <= i <= runs.len(),
        r.start + r.length <= 65535,
        i > 0 ==> runs[i - 1].start + runs[i - 1].length + gap < r.start,
        i < runs.len() ==> r.start + r.length + gap < runs[i].start,
    ensures
        spaced(runs.insert(i, r), gap),
{
    let u = runs.insert(i, r);
    assert forall|a: int| 0 <= a < u.len() implies (#[trigger] u[a]).start + u[a].length
        <= 65535 by {
        if a < i {
            assert(u[a] == runs[a]);
        } else if a > i {
            assert(u[a] == runs[a - 1]);
        }
    }
    assert forall|a: int, b: int| 0 <= a < b < u.len() implies u[a].start + u[a].length + gap
        < u[b].start by {
        if a < i {
            assert(u[a] == runs[a]);
            assert(runs[a].start + runs[a].length <= runs[i - 1].start + runs[i - 1].length);
        } else if a > i {
            assert(u[a] == runs[a - 1]);
        }
        if b < i {
            assert(u[b] == runs[b]);
        } else if b > i {
            assert(u[b] == runs[b - 1]);
            assert(runs[i].start <= runs[b - 1].start);
        }
    }
}

/// Removing a run keeps the spacing.
pub proof fn lemma_spaced_remove(runs: Seq<Run>, i: int, gap: int)
    requires
        spaced(runs, gap),
        0 <= i < runs.len(),
    ensures
        spaced(runs.remove(i), gap),
{
    let u = runs.remove(i);
    assert forall|a: int| 0 <= a < u.len() implies (#[trigger] u[a]).start + u[a].length
        <= 65535 by {
        if a < i {
            assert(u[a] == runs[a]);
        } else {
            assert(u[a] == runs[a + 1]);
        }
    }
    assert forall|a: int, b: int| 0 <= a < b < u.len() implies u[a].start + u[a].length + gap
        < u[b].start by {
        if a < i {
            assert(u[a] == runs[a]);
        } else {
            assert(u[a] == runs[a + 1]);
        }
        if b < i {
            assert(u[b] == runs[b]);
        } else {
            assert(u[b] == runs[b + 1]);
        }
    }
}

/// The members of the runs before index `i` lie below run `i`.
pub proof fn lemma_prefix_below(runs: Seq<Run>, i: int)
    requires
        spaced(runs, 0),
        0 <= i < runs.len(),
    ensures
        spaced(runs.subrange(0, i), 0),
        forall|v: u16| runs_members(runs.subrange(0, i)).contains(v) ==> v < runs[i].start,
        runs_members(runs.subrange(0, i + 1)) =~= runs_members(runs.subrange(0, i)).union(
            span_of(runs[i]),
        ),
{
    let p = runs.subrange(0, i);
    assert forall|v: u16| runs_members(p).contains(v) implies v < runs[i].start by {
        let k = choose|k: int| 0 <= k < p.len() && covers(p[k], v);
        assert(p[k] == runs[k]);
    }
    assert(runs.subrange(0, i + 1) =~= p.push(runs[i]));
    lemma_runs_push(p, runs[i]);
}

/// Sorted disjoint runs hold as many values as their sizes add up to.
pub proof fn lemma_runs_total(runs: Seq<Run>)
    requires
        spaced(runs, 0),
    ensures
        runs_members(runs).finite(),
        runs_members(runs).len() == total(runs),
    decreases runs.len(),
{
    lemma_finite(runs_members(runs));
    if runs.len() == 0 {
        assert(runs_members(runs) =~= Set::<u16>::empty());
    } else {
        let n = runs.len() - 1;
        let init = runs.drop_last();
        let last = runs.last();
        assert(init =~= runs.subrange(0, n));
        assert(runs =~= runs.subrange(0, n + 1));
        lemma_prefix_below(runs, n);
        lemma_runs_total(init);
        lemma_span_len(last.start, (last.start + last.length) as u16);
        assert(runs_members(init).disjoint(span_of(last)));
        lemma_set_disjoint_lens(runs_members(init), span_of(last));
    }
}

/// The first values of the runs, in order.
pub open spec fn starts_of(runs: Seq<Run>) -> Seq<u16> {
    Seq::new(runs.len(), |i: int| runs[i].start)
}

/// Runs that do not touch are the maximal runs of their members.
pub proof fn lemma_runs_starts(runs: Seq<Run>)
    requires
        spaced(runs, 1),
    ensures
        ascending(starts_of(runs)),
        starts_of(runs).to_set() == run_starts(runs_members(runs)),
        run_count(runs_members(runs)) == runs.len(),
{
    let m = runs_members(runs);
    let s = starts_of(runs);
    assert(ascending(s));
    lemma_ascending_len(s);
    assert forall|v: u16| s.to_set().contains(v) <==> is_run_start(m, v) by {
        if s.contains(v) {
            let i = choose|i: int| 0 <= i < s.len() && s[i] == v;
            assert(covers(runs[i], v));
            if v > 0 {
                let u = (v - 1) as u16;
                assert forall|j: int| 0 <= j < runs.len() implies !covers(#[trigger] runs[j], u) by {
                    if j < i {
                        assert(runs[j].start + runs[j].length + 1 < runs[i].start);
                    } else if j > i {
                        assert(runs[i].start + runs[i].length + 1 < runs[j].start);
                    }
                }
            }
        }
        if is_run_start(m, v) {
            let i = choose|i: int| 0 <= i < runs.len() && covers(runs[i], v);
            if v > runs[i].start {
                assert(covers(runs[i], (v - 1) as u16));
            }
            assert(s[i] == v);
        }
    }
    assert(s.to_set() =~= run_starts(m));
}

/// The value just above a run is in none of the runs, where runs do not
/// touch.
pub proof fn lemma_beyond(runs: Seq<Run>, i: int)
    requires
        spaced(runs, 1),
        0 <= i < runs.len(),
        run_end(runs[i]) < 65535,
    ensures
        !covered(runs, (run_end(runs[i]) + 1) as u16),
{
    let v = (run_end(runs[i]) + 1) as u16;
    assert forall|j: int| 0 <= j < runs.len() implies !covers(#[trigger] runs[j], v) by {
        if j < i {
            assert(runs[j].start + runs[j].length + 1 < runs[i].start);
        } else if j > i {
            assert(runs[i].start + runs[i].length + 1 < runs[j].start);
        }
    }
}

/// Two lists of runs that do not touch, with the same members, are the
/// same list.
pub proof fn lemma_runs_unique(a: Seq<Run>, b: Seq<Run>)
    requires
        spaced(a, 1),
        spaced(b, 1),
        runs_members(a) == runs_members(b),
    ensures
        a == b,
{
    lemma_runs_starts(a);
    lemma_runs_starts(b);
    crate::container::model::lemma_ascending_unique(starts_of(a), starts_of(b));
    assert(a.len() == b.len());
    assert forall|i: int| 0 <= i < a.len() implies a[i] == b[i] by {
        assert(starts_of(a)[i] == starts_of(b)[i]);
        if a[i].length < b[i].length {
            lemma_beyond(a, i);
            let v = (run_end(a[i]) + 1) as u16;
            assert(covers(b[i], v));
            assert(runs_members(b).contains(v));
            assert(runs_members(a).contains(v));
        } else if b[i].length < a[i].length {
            lemma_beyond(b, i);
            let v = (run_end(b[i]) + 1) as u16;
            assert(covers(a[i], v));
            assert(runs_members(a).contains(v));
            assert(runs_members(b).contains(v));
        }
    }
    assert(a =~= b);
}

/// A set of 16-bit values kept as the list of its maximal runs.
pub struct RunContainer {
    pub(crate) runs: Vec<Run>,
}

impl SetModel for RunContainer {
    open(crate) spec fn wf(&self) -> bool {
        spaced(self.runs@, 1)
    }

    open(crate) spec fn members(&self) -> Set<u16> {
        runs_members(self.runs@)
    }
}

/// The number of runs that begin at or below `v`, by binary search on the
/// first values.
pub fn runs_upto(runs: &Vec<Run>, v: u16) -> (i: usize)
    requires
        spaced(runs@, 0),
    ensures
        i <= runs.len(),
        forall|k: int| 0 <= k < i ==> runs[k].start <= v,
        forall|k: int| i <= k < runs.len() ==> runs[k].start > v,
{
    let mut lo: usize = 0;
    let mut hi: usize = runs.len();
    while lo < hi
        invariant
            lo <= hi <= runs.len(),
            spaced(runs@, 0),
            forall|k: int| 0 <= k < lo ==> runs[k].start <= v,
            forall|k: int| hi <= k < runs.len() ==> runs[k].start > v,
        decreases hi - lo,
    {
        let mid: usize = lo + (hi - lo) / 2;
        if runs[mid].start <= v {
            proof {
                assert forall|k: int| 0 <= k < mid + 1 implies runs[k].start <= v by {
                    if k < mid {
                        assert(runs[k].start + runs[k].length < runs[mid as int].start);
                    }
                }
            }
            lo = mid + 1;
        } else {
            proof {
                assert forall|k: int| mid <= k < runs.len() implies runs[k].start > v by {
                    if k > mid {
                        assert(runs[mid as int].start + runs[mid as int].length < runs[k].start);
                    }
                }
            }
            hi = mid;
        }
    }
    lo
}

/// Where `i` runs begin at or below `v`, only the last of them can hold `v`.
pub proof fn lemma_only_candidate(runs: Seq<Run>, i: int, v: u16)
    requires
        spaced(runs, 0),
        0 <= i <= runs.len(),
        forall|k: int| 0 <= k < i ==> runs[k].start <= v,
        forall|k: int| i <= k < runs.len() ==> runs[k].start > v,
    ensures
        covered(runs, v) == (i > 0 && covers(runs[i - 1], v)),
{
    if covered(runs, v) {
        let k = choose|k: int| 0 <= k < runs.len() && covers(runs[k], v);
        assert(k < i);
        if k < i - 1 {
            assert(runs[k].start + runs[k].length < runs[i - 1].start);
        }
    }
}

impl RunContainer {
    /// Whether the invariant of the encoding holds: every run ends within
    /// the universe, and each run begins at least two values after the run
    /// before it ends.
    pub fn is_valid(&self) -> (b: bool)
        ensures
            b == self.wf(),
    {
        let mut i: usize = 0;
        while i < self.runs.len()
            invariant
                i <= self.runs.len(),
                forall|a: int| 0 <= a < i ==> (#[trigger] self.runs@[a]).start + self.runs@[a].length
                    <= 65535,
                forall|a: int, b: int|
                    0 <= a < b < i ==> self.runs@[a].start + self.runs@[a].length + 1
                        < self.runs@[b].start,
            decreases self.runs.len() - i,
        {
            let r = self.runs[i];
            if r.start as u32 + r.length as u32 > 65535 {
                proof {
                    assert(self.runs@[i as int].start + self.runs@[i as int].length > 65535);
                }
                return false;
            }
            if i > 0 {
                let p = self.runs[i - 1];
                if p.start as u32 + p.length as u32 + 1 >= r.start as u32 {
                    proof {
                        assert(!(self.runs@[i - 1].start + self.runs@[i - 1].length + 1
                            < self.runs@[i as int].start));
                    }
                    return false;
                }
            }
            proof {
                assert forall|a: int, b: int| 0 <= a < b < i + 1 implies self.runs@[a].start
                    + self.runs@[a].length + 1 < self.runs@[b].start by {
                    if b == i && a < i - 1 {
                        assert(self.runs@[a].start + self.runs@[a].length + 1 < self.runs@[i
                            - 1].start);
                    }
                }
            }
            i = i + 1;
        }
        true
    }

    /// An empty container.
    pub fn new() -> (r: Self)
        ensures
            r.wf(),
            r.members() == Set::<u16>::empty(),
    {
        let r = RunContainer { runs: Vec::new() };
        assert(r.members() =~= Set::<u16>::empty());
        r
    }

    /// Adds the interval `lo ..= hi`, which lies above every member; where
    /// it touches the last run, that run grows.
    pub fn append_range(&mut self, lo: u16, hi: u16)
        requires
            old(self).wf(),
            lo <= hi,
            forall|v: u16| old(self).members().contains(v) ==> v < lo,
        ensures
            final(self).wf(),
            final(self).members() == old(self).members().union(span(lo as int, hi as int)),
    {
        let n = self.runs.len();
        let ghost s = self.runs@;
        if n > 0 {
            let last = self.runs[n - 1];
            proof {
                assert(covers(s[n - 1], (last.start + last.length) as u16));
                assert(self.members().contains((last.start + last.length) as u16));
            }
            if last.start + last.length + 1 == lo {
                let grown = Run { start: last.start, length: last.length + (hi - lo) + 1 };
                self.runs.set(n - 1, grown);
                proof {
                    lemma_runs_update(s, n - 1, grown);
                    lemma_runs_remove(s, n - 1);
                    lemma_runs_own(s, n - 1);
                    lemma_spaced_update(s, n - 1, grown, 1);
                    assert(runs_members(s.update(n - 1, grown)) =~= runs_members(s).union(
                        span(lo as int, hi as int),
                    ));
                }
                return ;
            }
        }
        let fresh = Run { start: lo, length: hi - lo };
        self.runs.push(fresh);
        proof {
            lemma_runs_push(s, fresh);
            assert(s.push(fresh) =~= s.insert(n as int, fresh));
            lemma_spaced_insert(s, n as int, fresh, 1);
        }
    }

    /// The container that holds the elements of an ascending vector.
    pub fn from_sorted(values: &Vec<u16>) -> (r: Self)
        requires
            ascending(values@),
        ensures
            r.wf(),
            r.members() == values@.to_set(),
    {
        let mut r = RunContainer::new();
        let mut i: usize = 0;
        proof {
            assert(values@.subrange(0, 0).to_set() =~= Set::<u16>::empty());
        }
        while i < values.len()
            invariant
                i <= values.len(),
                ascending(values@),
                r.wf(),
                r.members() == values@.subrange(0, i as int).to_set(),
            decreases values.len() - i,
        {
            let x = values[i];
            proof {
                let p = values@.subrange(0, i as int);
                assert forall|v: u16| p.to_set().contains(v) implies v < x by {
                    let k = choose|k: int| 0 <= k < p.len() && p[k] == v;
                    assert(values@[k] < values@[i as int]);
                }
                lemma_push_to_set(p, x);
                assert(values@.subrange(0, i + 1) =~= p.push(x));
                assert(span(x as int, x as int) =~= Set::<u16>::empty().insert(x));
                assert(p.to_set().union(span(x as int, x as int)) =~= p.to_set().insert(x));
            }
            r.append_range(x, x);
            i = i + 1;
        }
        assert(values@.subrange(0, i as int) =~= values@);
        r
    }

    /// The container that holds the values of `data`, which may repeat and
    /// come in any order.
    pub fn from_slice(data: &[u16]) -> (r: Self)
        ensures
            r.wf(),
            r.members() == data@.to_set(),
    {
        let mut r = RunContainer::new();
        r.extend(data);
        proof {
            assert(Set::<u16>::empty().union(data@.to_set()) =~= data@.to_set());
        }
        r
    }

    /// Adds the values of `data`, which may repeat and come in any order.
    pub fn extend(&mut self, data: &[u16])
        requires
            old(self).wf(),
        ensures
            final(self).wf(),
            final(self).members() == old(self).members().union(data@.to_set()),
    {
        let ghost before = self.members();
        let mut i: usize = 0;
        proof {
            assert(data@.subrange(0, 0).to_set() =~= Set::<u16>::empty());
            assert(before.union(Set::<u16>::empty()) =~= before);
        }
        while i < data.len()
            invariant
                i <= data.len(),
                self.wf(),
                self.members() =~= before.union(data@.subrange(0, i as int).to_set()),
            decreases data.len() - i,
        {
            proof {
                lemma_push_to_set(data@.subrange(0, i as int), data@[i as int]);
                assert(data@.subrange(0, i + 1) =~= data@.subrange(0, i as int).push(
                    data@[i as int],
                ));
            }
            self.insert(data[i]);
            i = i + 1;
        }
        proof {
            assert(data@.subrange(0, i as int) =~= data@);
        }
    }

    /// The number of runs, which is the number of maximal runs of members.
    pub fn number_of_runs(&self) -> (n: usize)
        requires
            self.wf(),
        ensures
            n == run_count(self.members()),
            n == self.run_list().len(),
    {
        proof {
            lemma_runs_starts(self.runs@);
        }
        self.runs.len()
    }

    /// The runs, in order.
    pub open(crate) spec fn run_list(&self) -> Seq<Run> {
        self.runs@
    }

    /// The runs neither overlap nor touch, and hold exactly the members.
    pub proof fn lemma_run_list(&self)
        requires
            self.wf(),
        ensures
            spaced(self.run_list(), 1),
            self.members() == runs_members(self.run_list()),
    {
    }

    /// The run at index `i`.
    pub fn run_at(&self, i: usize) -> (r: Run)
        requires
            i < self.run_list().len(),
        ensures
            r == self.run_list()[i as int],
    {
        self.runs[i]
    }

    /// The number of members: the sizes of the runs added up.
    pub fn cardinality(&self) -> (n: usize)
        requires
            self.wf(),
        ensures
            n == self.members().len(),
            n == total(self.run_list()),
    {
        let mut n: usize = 0;
        let mut i: usize = 0;
        while i < self.runs.len()
            invariant
                i <= self.runs.len(),
                spaced(self.runs@, 1),
                n == total(self.runs@.subrange(0, i as int)),
                n <= 65536,
            decreases self.runs.len() - i,
        {
            proof {
                let p = self.runs@.subrange(0, i + 1);
                assert(p.drop_last() =~= self.runs@.subrange(0, i as int));
                assert(p.last() == self.runs@[i as int]);
                assert(spaced(p, 0));
                lemma_runs_total(p);
                lemma_finite(runs_members(p));
            }
            n = n + self.runs[i].length as usize + 1;
            i = i + 1;
        }
        proof {
            assert(self.runs@.subrange(0, i as int) =~= self.runs@);
            lemma_runs_total(self.runs@);
        }
        n
    }

    /// Whether the container has no member.
    pub fn is_empty(&self) -> (b: bool)
        requires
            self.wf(),
        ensures
            b == (self.members() == Set::<u16>::empty()),
    {
        proof {
            if self.runs.len() > 0 {
                assert(covers(self.runs@[0], self.runs@[0].start));
                assert(self.members().contains(self.runs@[0].start));
            } else {
                assert(self.members() =~= Set::<u16>::empty());
            }
        }
        self.runs.len() == 0
    }

    /// Whether `v` is a member, by binary search for the one run that can
    /// hold it.
    pub fn contains(&self, v: u16) -> (b: bool)
        requires
            self.wf(),
        ensures
            b == self.members().contains(v),
    {
        let i = runs_upto(&self.runs, v);
        proof {
            lemma_only_candidate(self.runs@, i as int, v);
        }
        if i == 0 {
            false
        } else {
            let r = self.runs[i - 1];
            v - r.start <= r.length
        }
    }

    /// Adds `v`; returns whether it was absent before. The value extends the
    /// run it touches, joins the two runs it lies between, or becomes a run
    /// of its own.
    pub fn insert(&mut self, v: u16) -> (added: bool)
        requires
            old(self).wf(),
        ensures
            final(self).wf(),
            final(self).members() == old(self).members().insert(v),
            added == !old(self).members().contains(v),
    {
        let i = runs_upto(&self.runs, v);
        let n = self.runs.len();
        let ghost s = self.runs@;
        let ghost m = self.members();
        proof {
            lemma_only_candidate(s, i as int, v);
        }
        if i > 0 {
            let l = self.runs[i - 1];
            if v - l.start <= l.length {
                proof {
                    assert(m.insert(v) =~= m);
                }
                return false;
            }
        }
        let ghost single = Set::<u16>::empty().insert(v);
        let joins_left: bool = i > 0 && self.runs[i - 1].start + self.runs[i - 1].length + 1 == v;
        let joins_right: bool = i < n && self.runs[i].start == v + 1;
        if joins_left && joins_right {
            let l = self.runs[i - 1];
            let r = self.runs[i];
            let merged = Run { start: l.start, length: l.length + r.length + 2 };
            self.runs.remove(i);
            self.runs.set(i - 1, merged);
            proof {
                let s1 = s.remove(i as int);
                lemma_runs_own(s, i - 1);
                lemma_runs_own(s, i as int);
                lemma_runs_remove(s, i as int);
                lemma_spaced_remove(s, i as int, 1);
                lemma_runs_update(s1, i - 1, merged);
                lemma_runs_remove(s1, i - 1);
                lemma_spaced_update(s1, i - 1, merged, 1);
                assert(span_of(merged) =~= span_of(l).union(single).union(span_of(r)));
                assert(runs_members(s1.update(i - 1, merged)) =~= m.insert(v));
            }
        } else if joins_left {
            let l = self.runs[i - 1];
            let grown = Run { start: l.start, length: l.length + 1 };
            self.runs.set(i - 1, grown);
            proof {
                lemma_runs_own(s, i - 1);
                lemma_runs_update(s, i - 1, grown);
                lemma_runs_remove(s, i - 1);
                lemma_spaced_update(s, i - 1, grown, 1);
                assert(span_of(grown) =~= span_of(l).union(single));
                assert(runs_members(s.update(i - 1, grown)) =~= m.insert(v));
            }
        } else if joins_right {
            let r = self.runs[i];
            let grown = Run { start: v, length: r.length + 1 };
            self.runs.set(i, grown);
            proof {
                lemma_runs_own(s, i as int);
                lemma_runs_update(s, i as int, grown);
                lemma_runs_remove(s, i as int);
                lemma_spaced_update(s, i as int, grown, 1);
                assert(span_of(grown) =~= span_of(r).union(single));
                assert(runs_members(s.update(i as int, grown)) =~= m.insert(v));
            }
        } else {
            let fresh = Run { start: v, length: 0 };
            self.runs.insert(i, fresh);
            proof {
                lemma_runs_insert(s, i as int, fresh);
                lemma_spaced_insert(s, i as int, fresh, 1);
                assert(span_of(fresh) =~= single);
                assert(runs_members(s.insert(i as int, fresh)) =~= m.insert(v));
            }
        }
        true
    }

    /// Removes `v`; returns whether it was present before. The run that
    /// holds the value shrinks at one end, disappears, or splits in two.
    pub fn remove(&mut self, v: u16) -> (removed: bool)
        requires
            old(self).wf(),
        ensures
            final(self).wf(),
            final(self).members() == old(self).members().remove(v),
            removed == old(self).members().contains(v),
    {
        let i = runs_upto(&self.runs, v);
        let ghost s = self.runs@;
        let ghost m = self.members();
        proof {
            lemma_only_candidate(s, i as int, v);
        }
        if i == 0 {
            proof {
                assert(m.remove(v) =~= m);
            }
            return false;
        }
        let k: usize = i - 1;
        let r = self.runs[k];
        if v - r.start > r.length {
            proof {
                assert(m.remove(v) =~= m);
            }
            return false;
        }
        let ghost single = Set::<u16>::empty().insert(v);
        proof {
            lemma_runs_own(s, k as int);
            lemma_runs_remove(s, k as int);
        }
        if r.length == 0 {
            self.runs.remove(k);
            proof {
                lemma_spaced_remove(s, k as int, 1);
                assert(span_of(r) =~= single);
                assert(runs_members(s.remove(k as int)) =~= m.remove(v));
            }
        } else if v == r.start {
            let rest = Run { start: v + 1, length: r.length - 1 };
            self.runs.set(k, rest);
            proof {
                lemma_runs_update(s, k as int, rest);
                lemma_spaced_update(s, k as int, rest, 1);
                assert(span_of(r) =~= span_of(rest).union(single));
                assert(runs_members(s.update(k as int, rest)) =~= m.remove(v));
            }
        } else if v - r.start == r.length {
            let rest = Run { start: r.start, length: r.length - 1 };
            self.runs.set(k, rest);
            proof {
                lemma_runs_update(s, k as int, rest);
                lemma_spaced_update(s, k as int, rest, 1);
                assert(span_of(r) =~= span_of(rest).union(single));
                assert(runs_members(s.update(k as int, rest)) =~= m.remove(v));
            }
        } else {
            let low = Run { start: r.start, length: v - r.start - 1 };
            let high = Run { start: v + 1, length: r.length - (v - r.start) - 1 };
            self.runs.set(k, low);
            self.runs.insert(k + 1, high);
            proof {
                let s1 = s.update(k as int, low);
                lemma_runs_update(s, k as int, low);
                lemma_spaced_update(s, k as int, low, 1);
                lemma_runs_insert(s1, k + 1, high);
                lemma_spaced_insert(s1, k + 1, high, 1);
                assert(span_of(r) =~= span_of(low).union(single).union(span_of(high)));
                assert(runs_members(s1.insert(k + 1, high)) =~= m.remove(v));
            }
        }
        true
    }

    /// The least member, if there is one.
    pub fn min(&self) -> (m: Option<u16>)
        requires
            self.wf(),
        ensures
            match m {
                Some(x) => is_min_of(self.members(), x),
                None => self.members() == Set::<u16>::empty(),
            },
    {
        if self.runs.len() == 0 {
            assert(self.members() =~= Set::<u16>::empty());
            None
        } else {
            let x = self.runs[0].start;
            proof {
                assert(covers(self.runs@[0], x));
                assert forall|v: u16| self.members().contains(v) implies x <= v by {
                    let k = choose|k: int| 0 <= k < self.runs.len() && covers(self.runs@[k], v);
                    if k > 0 {
                        assert(self.runs@[0].start + self.runs@[0].length < self.runs@[k].start);
                    }
                }
            }
            Some(x)
        }
    }

    /// The greatest member, if there is one.
    pub fn max(&self) -> (m: Option<u16>)
        requires
            self.wf(),
        ensures
            match m {
                Some(x) => is_max_of(self.members(), x),
                None => self.members() == Set::<u16>::empty(),
            },
    {
        let n = self.runs.len();
        if n == 0 {
            assert(self.members() =~= Set::<u16>::empty());
            None
        } else {
            let r = self.runs[n - 1];
            let x = r.start + r.length;
            proof {
                assert(covers(self.runs@[n - 1], x));
                assert forall|v: u16| self.members().contains(v) implies v <= x by {
                    let k = choose|k: int| 0 <= k < self.runs.len() && covers(self.runs@[k], v);
                    if k < n - 1 {
                        assert(self.runs@[k].start + self.runs@[k].length < self.runs@[n
                            - 1].start);
                    }
                }
            }
            Some(x)
        }
    }

    /// The least member that is not below `v`, if there is one. Calling
    /// it again above each answer lists the members one at a time.
    pub fn next_from(&self, v: u16) -> (r: Option<u16>)
        requires
            self.wf(),
        ensures
            match r {
                Some(x) => is_min_of(at_least(self.members(), v), x),
                None => at_least(self.members(), v) == Set::<u16>::empty(),
            },
    {
        let i = runs_upto(&self.runs, v);
        let ghost s = self.runs@;
        proof {
            lemma_only_candidate(s, i as int, v);
        }
        if i > 0 && v - self.runs[i - 1].start <= self.runs[i - 1].length {
            Some(v)
        } else if i < self.runs.len() {
            let x = self.runs[i].start;
            proof {
                assert(covers(s[i as int], x));
                assert forall|y: u16| at_least(self.members(), v).contains(y) implies x <= y by {
                    let k = choose|k: int| 0 <= k < s.len() && covers(s[k], y);
                    if k > i {
                        assert(s[i as int].start + s[i as int].length < s[k].start);
                    } else if k < i {
                        if k < i - 1 {
                            assert(s[k].start + s[k].length < s[i - 1].start);
                        }
                    }
                }
            }
            Some(x)
        } else {
            proof {
                assert forall|y: u16| !at_least(self.members(), v).contains(y) by {
                    if self.members().contains(y) {
                        let k = choose|k: int| 0 <= k < s.len() && covers(s[k], y);
                        if k < i - 1 {
                            assert(s[k].start + s[k].length < s[i - 1].start);
                        }
                    }
                }
                assert(at_least(self.members(), v) =~= Set::<u16>::empty());
            }
            None
        }
    }

    /// The members in ascending order.
    pub fn to_vec(&self) -> (r: Vec<u16>)
        requires
            self.wf(),
        ensures
            ascending(r@),
            r@.to_set() == self.members(),
    {
        let mut r: Vec<u16> = Vec::new();
        let mut i: usize = 0;
        proof {
            assert(r@.to_set() =~= runs_members(self.runs@.subrange(0, 0)));
        }
        while i < self.runs.len()
            invariant
                i <= self.runs.len(),
                spaced(self.runs@, 1),
                ascending(r@),
                r@.to_set() =~= runs_members(self.runs@.subrange(0, i as int)),
            decreases self.runs.len() - i,
        {
            let run = self.runs[i];
            let first: u32 = run.start as u32;
            let last: u32 = run.start as u32 + run.length as u32;
            let mut x: u32 = first;
            let ghost before = runs_members(self.runs@.subrange(0, i as int));
            proof {
                lemma_prefix_below(self.runs@, i as int);
                assert(span(first as int, first - 1) =~= Set::<u16>::empty());
            }
            while x <= last
                invariant
                    first <= x <= last + 1,
                    last <= 65535,
                    ascending(r@),
                    forall|v: u16| before.contains(v) ==> v < first,
                    r@.to_set() =~= before.union(span(first as int, x - 1)),
                decreases last + 1 - x,
            {
                proof {
                    lemma_push_ascending(r@, x as u16);
                    assert(span(first as int, x as int) =~= span(first as int, x - 1).insert(
                        x as u16,
                    ));
                }
                r.push(x as u16);
                x = x + 1;
            }
            i = i + 1;
        }
        proof {
            assert(self.runs@.subrange(0, i as int) =~= self.runs@);
        }
        r
    }
}

} // verus!
