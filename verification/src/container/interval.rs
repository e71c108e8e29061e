//! The sweep over run boundaries that serves every pairing of the array and
//! the run encoding.

use vstd::prelude::*;
use crate::container::array::ArrayContainer;
use crate::container::model::SetModel;
use crate::container::model::{combine, keeps, SetOp};
use crate::container::run::{covered, covers, run_end, runs_members, spaced, Run, RunContainer};

verus! {

/// An encoding that can hand out its members as sorted disjoint intervals.
pub trait Intervals: SetModel {
    /// The intervals, in order.
    spec fn intervals(&self) -> Seq<Run>;

    /// The intervals are sorted and disjoint, and hold exactly the members.
    proof fn lemma_intervals(&self)
        requires
            self.wf(),
        ensures
            spaced(self.intervals(), 0),
            self.members() == runs_members(self.intervals()),
    ;

    /// The number of intervals.
    fn interval_count(&self) -> (n: usize)
        requires
            self.wf(),
        ensures
            n == self.intervals().len(),
    ;

    /// The interval at index `i`.
    fn interval_at(&self, i: usize) -> (r: Run)
        requires
            self.wf(),
            i < self.intervals().len(),
        ensures
            r == self.intervals()[i as int],
    ;
}

impl Intervals for ArrayContainer {
    open(crate) spec fn intervals(&self) -> Seq<Run> {
        Seq::new(self.values@.len(), |i: int| Run { start: self.values@[i], length: 0 })
    }

    proof fn lemma_intervals(&self) {
        let s = self.intervals();
        assert forall|v: u16| self.values@.contains(v) <==> covered(s, v) by {
            if self.values@.contains(v) {
                let k = choose|k: int| 0 <= k < self.values@.len() && self.values@[k] == v;
                assert(covers(s[k], v));
            }
            if covered(s, v) {
                let k = choose|k: int| 0 <= k < s.len() && covers(s[k], v);
                assert(self.values@[k] == v);
            }
        }
        assert(self.members() =~= runs_members(s));
    }

    fn interval_count(&self) -> (n: usize) {
        self.values.len()
    }

    fn interval_at(&self, i: usize) -> (r: Run) {
        Run { start: self.values[i], length: 0 }
    }
}

impl Intervals for RunContainer {
    open(crate) spec fn intervals(&self) -> Seq<Run> {
        self.runs@
    }

    proof fn lemma_intervals(&self) {
    }

    fn interval_count(&self) -> (n: usize) {
        self.runs.len()
    }

    fn interval_at(&self, i: usize) -> (r: Run) {
        self.runs[i]
    }
}

/// The sweep stands at position `p` with `i` intervals behind it: those end
/// below `p`, the others at or above it.
pub open spec fn passed(s: Seq<Run>, i: int, p: int) -> bool {
    &&& forall|k: int| 0 <= k < i ==> run_end(#[trigger] s[k]) < p
    &&& forall|k: int| i <= k < s.len() ==> run_end(#[trigger] s[k]) >= p
}

/// The part of the result of `op` that lies below `p`.
pub open spec fn swept(op: SetOp, sa: Seq<Run>, sb: Seq<Run>, p: int) -> Set<u16> {
    Set::new(|v: u16| v < p && keeps(op, covered(sa, v), covered(sb, v)))
}

/// Whether `op` keeps a value, given whether each operand holds it.
pub fn selects(op: SetOp, left: bool, right: bool) -> (k: bool)
    ensures
        k == keeps(op, left, right),
{
    match op {
        SetOp::Union => left || right,
        SetOp::Intersection => left && right,
        SetOp::Difference => left && !right,
        SetOp::SymmetricDifference => left != right,
    }
}

/// Whether position `p` lies in interval `i`, and the next position at
/// which that changes.
fn next_edge<A: Intervals>(a: &A, i: usize, p: u32) -> (r: (bool, u32))
    requires
        a.wf(),
        spaced(a.intervals(), 0),
        i <= a.intervals().len(),
        p < 65536,
        passed(a.intervals(), i as int, p as int),
    ensures
        p < r.1 <= 65536,
        r.0 == (i < a.intervals().len() && a.intervals()[i as int].start <= p),
        r.0 ==> r.1 == run_end(a.intervals()[i as int]) + 1,
        !r.0 && i < a.intervals().len() ==> r.1 == a.intervals()[i as int].start,
        !r.0 && i == a.intervals().len() ==> r.1 == 65536,
        forall|v: u16| p <= v < r.1 ==> covered(a.intervals(), v) == r.0,
{
    let ghost s = a.intervals();
    let n = a.interval_count();
    if i < n {
        let run = a.interval_at(i);
        if run.start as u32 <= p {
            let q: u32 = run.start as u32 + run.length as u32 + 1;
            proof {
                assert(run_end(s[i as int]) >= p);
                assert forall|v: u16| p <= v < q implies covered(s, v) by {
                    assert(covers(s[i as int], v));
                }
            }
            (true, q)
        } else {
            let q: u32 = run.start as u32;
            proof {
                assert forall|v: u16| p <= v < q implies !covered(s, v) by {
                    assert forall|k: int| 0 <= k < s.len() implies !covers(#[trigger] s[k], v) by {
                        if k < i {
                            assert(run_end(s[k]) < p);
                        } else if k > i {
                            assert(s[i as int].start + s[i as int].length < s[k].start);
                        }
                    }
                }
            }
            (false, q)
        }
    } else {
        proof {
            assert forall|v: u16| p <= v < 65536 implies !covered(s, v) by {
                assert forall|k: int| 0 <= k < s.len() implies !covers(#[trigger] s[k], v) by {
                    assert(run_end(s[k]) < p);
                }
            }
        }
        (false, 65536)
    }
}

/// The result of `op` on two interval lists, by one pass over their
/// boundaries: between two neighbouring boundaries membership in either
/// operand is constant, so each such stretch is kept or dropped as a whole.
pub fn sweep<A: Intervals, B: Intervals>(a: &A, b: &B, op: SetOp) -> (out: RunContainer)
    requires
        a.wf(),
        b.wf(),
    ensures
        out.wf(),
        out.members() == combine(op, a.members(), b.members()),
{
    let na = a.interval_count();
    let nb = b.interval_count();
    let ghost sa = a.intervals();
    let ghost sb = b.intervals();
    proof {
        a.lemma_intervals();
        b.lemma_intervals();
    }
    let mut out = RunContainer::new();
    let mut i: usize = 0;
    let mut j: usize = 0;
    let mut p: u32 = 0;
    proof {
        assert(out.members() =~= swept(op, sa, sb, 0));
    }
    while p < 65536 && (i < na || j < nb)
        invariant
            a.wf(),
            b.wf(),
            sa == a.intervals(),
            sb == b.intervals(),
            na == sa.len(),
            nb == sb.len(),
            spaced(sa, 0),
            spaced(sb, 0),
            i <= na,
            j <= nb,
            p <= 65536,
            passed(sa, i as int, p as int),
            passed(sb, j as int, p as int),
            out.wf(),
            out.members() =~= swept(op, sa, sb, p as int),
        decreases 65536 - p,
    {
        let (in_a, next_a) = next_edge(a, i, p);
        let (in_b, next_b) = next_edge(b, j, p);
        let q: u32 = if next_a < next_b {
            next_a
        } else {
            next_b
        };
        if selects(op, in_a, in_b) {
            out.append_range(p as u16, (q - 1) as u16);
            proof {
                assert(out.members() =~= swept(op, sa, sb, q as int));
            }
        } else {
            proof {
                assert(out.members() =~= swept(op, sa, sb, q as int));
            }
        }
        if in_a && next_a == q {
            proof {
                assert forall|k: int| i + 1 <= k < sa.len() implies run_end(#[trigger] sa[k])
                    >= q by {
                    assert(sa[i as int].start + sa[i as int].length < sa[k].start);
                }
            }
            i = i + 1;
        } else {
            proof {
                assert forall|k: int| i <= k < sa.len() implies run_end(#[trigger] sa[k]) >= q by {
                    if k > i {
                        assert(sa[i as int].start + sa[i as int].length < sa[k].start);
                    }
                }
            }
        }
        if in_b && next_b == q {
            proof {
                assert forall|k: int| j + 1 <= k < sb.len() implies run_end(#[trigger] sb[k])
                    >= q by {
                    assert(sb[j as int].start + sb[j as int].length < sb[k].start);
                }
            }
            j = j + 1;
        } else {
            proof {
                assert forall|k: int| j <= k < sb.len() implies run_end(#[trigger] sb[k]) >= q by {
                    if k > j {
                        assert(sb[j as int].start + sb[j as int].length < sb[k].start);
                    }
                }
            }
        }
        p = q;
    }
    proof {
        assert forall|v: u16| v >= p implies !covered(sa, v) && !covered(sb, v) by {
            assert forall|k: int| 0 <= k < sa.len() implies !covers(#[trigger] sa[k], v) by {
                assert(run_end(sa[k]) < p);
            }
            assert forall|k: int| 0 <= k < sb.len() implies !covers(#[trigger] sb[k], v) by {
                assert(run_end(sb[k]) < p);
            }
        }
        assert(out.members() =~= combine(op, a.members(), b.members()));
    }
    out
}

impl RunContainer {
    /// The container of all 65536 values.
    pub fn full() -> (r: Self)
        ensures
            r.wf(),
            r.members() == Set::<u16>::full(),
    {
        let mut r = RunContainer::new();
        r.append_range(0, 65535);
        proof {
            assert(r.members() =~= Set::<u16>::full());
        }
        r
    }
}

/// Whether every member of `a` is a member of `b`: the sweep leaves
/// nothing of `a` outside `b`.
pub fn all_swept<A: Intervals, B: Intervals>(a: &A, b: &B) -> (r: bool)
    requires
        a.wf(),
        b.wf(),
    ensures
        r == a.members().subset_of(b.members()),
{
    let rest = sweep(a, b, SetOp::Difference);
    let r = rest.is_empty();
    proof {
        if r {
            assert forall|v: u16| a.members().contains(v) implies b.members().contains(v) by {
                assert(!rest.members().contains(v));
            }
        } else {
            assert(rest.members() !== Set::<u16>::empty());
            if a.members().subset_of(b.members()) {
                assert(rest.members() =~= Set::<u16>::empty());
            }
        }
    }
    r
}

/// The values that an interval list lacks: what the sweep leaves of the
/// whole universe, which is the list of the gaps.
pub fn gaps<A: Intervals>(a: &A) -> (out: RunContainer)
    requires
        a.wf(),
    ensures
        out.wf(),
        out.members() == a.members().complement(),
{
    let all = RunContainer::full();
    let out = sweep(&all, a, SetOp::Difference);
    proof {
        assert(out.members() =~= a.members().complement());
    }
    out
}

} // verus!
