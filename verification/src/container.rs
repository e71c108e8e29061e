//! The container: one set of 16-bit values in one of three encodings, the
//! policy that picks the encoding, and the set algebra between containers.

pub mod model;
pub mod array;
pub mod bitset;
pub mod run;
pub mod interval;
pub mod merge;
pub mod array_ops;
pub mod bitset_ops;
pub mod run_ops;
pub mod laws;

use vstd::prelude::*;
use crate::container::array::{count_runs, ArrayContainer};
use crate::container::bitset::BitsetContainer;
use crate::container::model::SetModel;
use crate::container::model::{ascending, at_least, combine, is_max_of, is_min_of};
use crate::container::model::{run_count, run_starts};
use crate::container::model::{symmetric_difference, SetOp};
use crate::container::model::{lemma_ascending_len, lemma_combine};
use crate::container::run::RunContainer;

verus! {

/// The greatest cardinality at which a container is kept as an array rather
/// than as a bitset, unless another limit is given.
pub const DEFAULT_MAX_SIZE: usize = 4096;

/// The size of a bitset, counted in 16-bit units.
pub const BITSET_UNITS: usize = 4096;

/// The three encodings.
#[derive(Clone, Copy, Debug, PartialEq, Eq, Structural)]
pub enum Kind {
    Array,
    Bitset,
    Run,
}

/// A set of 16-bit values in one of three encodings, or no container at all.
pub enum Container {
    /// No container: stands for the empty set, and is never the result of
    /// an operation.
    Vacant,
    /// Array container
    Array(ArrayContainer),
    /// Bitset container
    Bitset(BitsetContainer),
    /// Run container
    Run(RunContainer),
}

/// The encoding that the policy picks for a set of `card` values in `runs`
/// maximal runs. Sizes are counted in 16-bit units: an array takes one per
/// value, a run list two per run, a bitset 4096. Without runs the set is an
/// array up to `max_size` values and a bitset above. The run list is
/// picked only where it is strictly smaller than that; on equal sizes the
/// array or the bitset stays.
pub open spec fn preferred(card: nat, runs: nat, max_size: nat) -> Kind {
    let plain: nat = if card <= max_size {
        card
    } else {
        4096
    };
    if 2 * runs < plain {
        Kind::Run
    } else if card <= max_size {
        Kind::Array
    } else {
        Kind::Bitset
    }
}

/// The encoding that the policy picks; see [`preferred`].
pub fn prefer(card: usize, runs: usize, max_size: usize) -> (k: Kind)
    ensures
        k == preferred(card as nat, runs as nat, max_size as nat),
{
    let plain: usize = if card <= max_size {
        card
    } else {
        BITSET_UNITS
    };
    // twice the runs are below `plain` where the runs are below its half,
    // rounded up
    if runs < plain / 2 + plain % 2 {
        Kind::Run
    } else if card <= max_size {
        Kind::Array
    } else {
        Kind::Bitset
    }
}

/// The set union operation
pub trait Union<T: SetModel>: SetModel {
    type Output: SetModel;

    fn union_with(&self, other: &T, out: &mut Self::Output)
        requires
            self.wf(),
            other.wf(),
        ensures
            final(out).wf(),
            final(out).members() == self.members().union(other.members()),
    ;
}

/// The set intersection operation
pub trait Intersection<T: SetModel>: SetModel {
    type Output: SetModel;

    fn intersect_with(&self, other: &T, out: &mut Self::Output)
        requires
            self.wf(),
            other.wf(),
        ensures
            final(out).wf(),
            final(out).members() == self.members().intersect(other.members()),
    ;
}

/// The set difference operation
pub trait Difference<T: SetModel>: SetModel {
    type Output: SetModel;

    fn difference_with(&self, other: &T, out: &mut Self::Output)
        requires
            self.wf(),
            other.wf(),
        ensures
            final(out).wf(),
            final(out).members() == self.members().difference(other.members()),
    ;
}

/// The set symmetric difference operation
pub trait SymmetricDifference<T: SetModel>: SetModel {
    type Output: SetModel;

    fn symmetric_difference_with(&self, other: &T, out: &mut Self::Output)
        requires
            self.wf(),
            other.wf(),
        ensures
            final(out).wf(),
            final(out).members() == symmetric_difference(self.members(), other.members()),
    ;
}

/// The set subset operation
pub trait Subset<T: SetModel>: SetModel {
    fn subset_of(&self, other: &T) -> (b: bool)
        requires
            self.wf(),
            other.wf(),
        ensures
            b == self.members().subset_of(other.members()),
    ;
}

/// The inverse set operation
pub trait Negation: SetModel {
    fn negate(&self, out: &mut Container)
        requires
            self.wf(),
        ensures
            final(out).wf(),
            final(out).members() == self.members().complement(),
    ;
}

impl SetModel for Container {
    open spec fn wf(&self) -> bool {
        match self {
            Container::Vacant => true,
            Container::Array(a) => a.wf(),
            Container::Bitset(b) => b.wf(),
            Container::Run(r) => r.wf(),
        }
    }

    open spec fn members(&self) -> Set<u16> {
        match self {
            Container::Vacant => Set::<u16>::empty(),
            Container::Array(a) => a.members(),
            Container::Bitset(b) => b.members(),
            Container::Run(r) => r.members(),
        }
    }
}

impl Clone for ArrayContainer {
    fn clone(&self) -> (r: Self)
        ensures
            r.wf() == self.wf(),
            r.members() == self.members(),
            r.elements() == self.elements(),
    {
        let values = self.values.clone();
        assert(values@ =~= self.values@);
        ArrayContainer { values }
    }
}

impl Clone for BitsetContainer {
    fn clone(&self) -> (r: Self)
        ensures
            r.wf() == self.wf(),
            r.members() == self.members(),
            r.word_list() == self.word_list(),
    {
        let words = self.words.clone();
        assert(words@ =~= self.words@);
        BitsetContainer { words, cardinality: self.cardinality }
    }
}

impl Clone for RunContainer {
    fn clone(&self) -> (r: Self)
        ensures
            r.wf() == self.wf(),
            r.members() == self.members(),
            r.run_list() == self.run_list(),
    {
        let runs = self.runs.clone();
        assert(runs@ =~= self.runs@);
        RunContainer { runs }
    }
}

impl Clone for Container {
    fn clone(&self) -> (r: Self)
        ensures
            r.wf() == self.wf(),
            r.members() == self.members(),
            r.repr() == self.repr(),
    {
        match self {
            Container::Vacant => Container::Vacant,
            Container::Array(a) => Container::Array(a.clone()),
            Container::Bitset(b) => Container::Bitset(b.clone()),
            Container::Run(r) => Container::Run(r.clone()),
        }
    }
}

/// The empty set has no run.
pub proof fn lemma_no_runs()
    ensures
        run_count(Set::<u16>::empty()) == 0,
{
    assert(run_starts(Set::<u16>::empty()) =~= Set::<u16>::empty());
}

impl Container {
    /// The encoding in use, if there is a container.
    pub open spec fn repr(&self) -> Option<Kind> {
        match self {
            Container::Vacant => None,
            Container::Array(_) => Some(Kind::Array),
            Container::Bitset(_) => Some(Kind::Bitset),
            Container::Run(_) => Some(Kind::Run),
        }
    }

    /// The container is valid and its encoding is the one that the policy
    /// picks for its members, with `max_size` as the limit of an array.
    pub open spec fn settled_for(&self, max_size: nat) -> bool {
        &&& self.wf()
        &&& self.repr() == Some(
            preferred(self.members().len(), run_count(self.members()), max_size),
        )
    }

    /// The container is settled for the default limit of an array.
    pub open spec fn settled(&self) -> bool {
        self.settled_for(DEFAULT_MAX_SIZE as nat)
    }

    /// Whether the invariant of the encoding in use holds.
    pub fn is_valid(&self) -> (b: bool)
        ensures
            b == self.wf(),
    {
        match self {
            Container::Vacant => true,
            Container::Array(a) => a.is_valid(),
            Container::Bitset(b) => b.is_valid(),
            Container::Run(r) => r.is_valid(),
        }
    }

    /// Check if there is no container
    pub fn is_none(&self) -> (b: bool)
        ensures
            b == (self.repr() == None::<Kind>),
    {
        match self {
            Container::Vacant => true,
            _ => false,
        }
    }

    /// The encoding in use, if there is a container.
    pub fn kind(&self) -> (k: Option<Kind>)
        ensures
            k == self.repr(),
    {
        match self {
            Container::Vacant => None,
            Container::Array(_) => Some(Kind::Array),
            Container::Bitset(_) => Some(Kind::Bitset),
            Container::Run(_) => Some(Kind::Run),
        }
    }

    /// The settled container of the elements of an ascending vector.
    pub fn from_values(values: Vec<u16>, max_size: usize) -> (r: Container)
        requires
            ascending(values@),
        ensures
            r.settled_for(max_size as nat),
            r.members() == values@.to_set(),
    {
        proof {
            lemma_ascending_len(values@);
        }
        let card = values.len();
        let runs = count_runs(&values);
        match prefer(card, runs, max_size) {
            Kind::Array => Container::Array(ArrayContainer::from_sorted(values)),
            Kind::Bitset => Container::Bitset(BitsetContainer::from_slice(values.as_slice())),
            Kind::Run => Container::Run(RunContainer::from_sorted(&values)),
        }
    }

    /// The settled container of the members of an array container.
    pub fn from_array(a: ArrayContainer, max_size: usize) -> (r: Container)
        requires
            a.wf(),
        ensures
            r.settled_for(max_size as nat),
            r.members() == a.members(),
    {
        Container::from_values(a.values, max_size)
    }

    /// The settled container of the members of a bitset container.
    pub fn from_bitset(b: BitsetContainer, max_size: usize) -> (r: Container)
        requires
            b.wf(),
        ensures
            r.settled_for(max_size as nat),
            r.members() == b.members(),
    {
        let card = b.cardinality();
        let runs = b.number_of_runs();
        match prefer(card, runs, max_size) {
            Kind::Array => Container::Array(ArrayContainer::from_sorted(b.to_vec())),
            Kind::Bitset => Container::Bitset(b),
            Kind::Run => {
                let values = b.to_vec();
                Container::Run(RunContainer::from_sorted(&values))
            },
        }
    }

    /// The settled container of the members of a run container.
    pub fn from_run(r: RunContainer, max_size: usize) -> (c: Container)
        requires
            r.wf(),
        ensures
            c.settled_for(max_size as nat),
            c.members() == r.members(),
    {
        let card = r.cardinality();
        let runs = r.number_of_runs();
        match prefer(card, runs, max_size) {
            Kind::Array => Container::Array(ArrayContainer::from_sorted(r.to_vec())),
            Kind::Bitset => {
                let values = r.to_vec();
                Container::Bitset(BitsetContainer::from_slice(values.as_slice()))
            },
            Kind::Run => Container::Run(r),
        }
    }

    /// The settled container of the values of `data`, which may repeat and
    /// come in any order.
    pub fn from_slice(data: &[u16]) -> (r: Container)
        ensures
            r.settled(),
            r.members() == data@.to_set(),
    {
        Container::from_array(ArrayContainer::from_slice(data), DEFAULT_MAX_SIZE)
    }

    /// The same set in the encoding that the policy picks for it, with
    /// `max_size` as the limit of an array.
    pub fn settle(self, max_size: usize) -> (r: Container)
        requires
            self.wf(),
        ensures
            r.settled_for(max_size as nat),
            r.members() == self.members(),
    {
        match self {
            Container::Vacant => {
                proof {
                    lemma_no_runs();
                }
                Container::Array(ArrayContainer::new())
            },
            Container::Array(a) => Container::from_array(a, max_size),
            Container::Bitset(b) => Container::from_bitset(b, max_size),
            Container::Run(r) => Container::from_run(r, max_size),
        }
    }

    /// Re-encodes the container as the policy asks, with the default limit
    /// of an array. The members stay as they are.
    pub fn optimize(&mut self)
        requires
            old(self).wf(),
        ensures
            final(self).settled(),
            final(self).members() == old(self).members(),
    {
        let mut taken = Container::Vacant;
        core::mem::swap(self, &mut taken);
        *self = taken.settle(DEFAULT_MAX_SIZE);
    }

    /// The number of members.
    pub fn cardinality(&self) -> (n: usize)
        requires
            self.wf(),
        ensures
            n == self.members().len(),
    {
        match self {
            Container::Vacant => 0,
            Container::Array(a) => a.cardinality(),
            Container::Bitset(b) => b.cardinality(),
            Container::Run(r) => r.cardinality(),
        }
    }

    /// Whether the container has no member.
    pub fn is_empty(&self) -> (b: bool)
        requires
            self.wf(),
        ensures
            b == (self.members() == Set::<u16>::empty()),
    {
        match self {
            Container::Vacant => true,
            Container::Array(a) => a.is_empty(),
            Container::Bitset(b) => b.is_empty(),
            Container::Run(r) => r.is_empty(),
        }
    }

    /// Whether `v` is a member.
    pub fn contains(&self, v: u16) -> (b: bool)
        requires
            self.wf(),
        ensures
            b == self.members().contains(v),
    {
        match self {
            Container::Vacant => false,
            Container::Array(a) => a.contains(v),
            Container::Bitset(b) => b.contains(v),
            Container::Run(r) => r.contains(v),
        }
    }

    /// The least member, if there is one.
    pub fn min(&self) -> (m: Option<u16>)
        requires
            self.wf(),
        ensures
            match m {
                Some(x) => is_min_of(self.members(), x),
                None => self.members() == Set::<u16>::empty(),
            },
    {
        match self {
            Container::Vacant => None,
            Container::Array(a) => a.min(),
            Container::Bitset(b) => b.min(),
            Container::Run(r) => r.min(),
        }
    }

    /// The greatest member, if there is one.
    pub fn max(&self) -> (m: Option<u16>)
        requires
            self.wf(),
        ensures
            match m {
                Some(x) => is_max_of(self.members(), x),
                None => self.members() == Set::<u16>::empty(),
            },
    {
        match self {
            Container::Vacant => None,
            Container::Array(a) => a.max(),
            Container::Bitset(b) => b.max(),
            Container::Run(r) => r.max(),
        }
    }

    /// The least member that is not below `v`, if there is one. Calling
    /// it again above each answer lists the members one at a time.
    pub fn next_from(&self, v: u16) -> (r: Option<u16>)
        requires
            self.wf(),
        ensures
            match r {
                Some(x) => is_min_of(at_least(self.members(), v), x),
                None => at_least(self.members(), v) == Set::<u16>::empty(),
            },
    {
        match self {
            Container::Vacant => {
                proof {
                    assert(at_least(self.members(), v) =~= Set::<u16>::empty());
                }
                None
            },
            Container::Array(a) => a.next_from(v),
            Container::Bitset(b) => b.next_from(v),
            Container::Run(r) => r.next_from(v),
        }
    }

    /// The members in ascending order.
    pub fn to_vec(&self) -> (r: Vec<u16>)
        requires
            self.wf(),
        ensures
            ascending(r@),
            r@.to_set() == self.members(),
    {
        match self {
            Container::Vacant => {
                let r: Vec<u16> = Vec::new();
                assert(r@.to_set() =~= Set::<u16>::empty());
                r
            },
            Container::Array(a) => a.to_vec(),
            Container::Bitset(b) => b.to_vec(),
            Container::Run(r) => r.to_vec(),
        }
    }

    /// The number of maximal runs of consecutive members.
    pub fn number_of_runs(&self) -> (n: usize)
        requires
            self.wf(),
        ensures
            n == run_count(self.members()),
    {
        match self {
            Container::Vacant => {
                proof {
                    lemma_no_runs();
                }
                0
            },
            Container::Array(a) => a.number_of_runs(),
            Container::Bitset(b) => b.number_of_runs(),
            Container::Run(r) => r.number_of_runs(),
        }
    }

    /// Adds `v` in the encoding in use; returns whether it was absent
    /// before. Where there is no container, an array is made.
    pub fn insert(&mut self, v: u16) -> (added: bool)
        requires
            old(self).wf(),
        ensures
            final(self).wf(),
            final(self).members() == old(self).members().insert(v),
            added == !old(self).members().contains(v),
            final(self).repr() == if old(self).repr() == None::<Kind> {
                Some(Kind::Array)
            } else {
                old(self).repr()
            },
    {
        match self {
            Container::Vacant => {
                let mut a = ArrayContainer::new();
                let added = a.insert(v);
                *self = Container::Array(a);
                added
            },
            Container::Array(a) => a.insert(v),
            Container::Bitset(b) => b.insert(v),
            Container::Run(r) => r.insert(v),
        }
    }

    /// Removes `v` in the encoding in use; returns whether it was present
    /// before.
    pub fn remove(&mut self, v: u16) -> (removed: bool)
        requires
            old(self).wf(),
        ensures
            final(self).wf(),
            final(self).members() == old(self).members().remove(v),
            removed == old(self).members().contains(v),
            final(self).repr() == old(self).repr(),
    {
        match self {
            Container::Vacant => {
                proof {
                    assert(Set::<u16>::empty().remove(v) =~= Set::<u16>::empty());
                }
                false
            },
            Container::Array(a) => a.remove(v),
            Container::Bitset(b) => b.remove(v),
            Container::Run(r) => r.remove(v),
        }
    }

    /// The same set as an array container.
    pub fn to_array(&self) -> (r: ArrayContainer)
        requires
            self.wf(),
        ensures
            r.wf(),
            r.members() == self.members(),
    {
        ArrayContainer::from_sorted(self.to_vec())
    }

    /// The same set as a bitset container.
    pub fn to_bitset(&self) -> (r: BitsetContainer)
        requires
            self.wf(),
        ensures
            r.wf(),
            r.members() == self.members(),
    {
        match self {
            Container::Bitset(b) => b.clone(),
            _ => {
                let values = self.to_vec();
                BitsetContainer::from_slice(values.as_slice())
            },
        }
    }

    /// The same set as a run container: one run for each maximal run of
    /// consecutive members.
    pub fn to_run(&self) -> (r: RunContainer)
        requires
            self.wf(),
        ensures
            r.wf(),
            r.members() == self.members(),
    {
        match self {
            Container::Run(r) => r.clone(),
            _ => {
                let values = self.to_vec();
                RunContainer::from_sorted(&values)
            },
        }
    }

    /// The settled result of `op` on two containers, by the algorithm of
    /// their pair of encodings. No container counts as the empty set.
    pub fn combine_with(&self, other: &Container, op: SetOp) -> (r: Container)
        requires
            self.wf(),
            other.wf(),
        ensures
            r.settled(),
            r.members() == combine(op, self.members(), other.members()),
    {
        let empty = ArrayContainer::new();
        match self {
            Container::Vacant => match other {
                Container::Vacant => empty.op_array(&empty, op),
                Container::Array(y) => empty.op_array(y, op),
                Container::Bitset(y) => empty.op_bitset(y, op),
                Container::Run(y) => empty.op_run(y, op),
            },
            Container::Array(x) => match other {
                Container::Vacant => x.op_array(&empty, op),
                Container::Array(y) => x.op_array(y, op),
                Container::Bitset(y) => x.op_bitset(y, op),
                Container::Run(y) => x.op_run(y, op),
            },
            Container::Bitset(x) => match other {
                Container::Vacant => x.op_array(&empty, op),
                Container::Array(y) => x.op_array(y, op),
                Container::Bitset(y) => x.op_bitset(y, op),
                Container::Run(y) => x.op_run(y, op),
            },
            Container::Run(x) => match other {
                Container::Vacant => x.op_array(&empty, op),
                Container::Array(y) => x.op_array(y, op),
                Container::Bitset(y) => x.op_bitset(y, op),
                Container::Run(y) => x.op_run(y, op),
            },
        }
    }

    /// Whether every member of `self` is a member of `other`, by the
    /// algorithm of their pair of encodings.
    pub fn is_subset(&self, other: &Container) -> (b: bool)
        requires
            self.wf(),
            other.wf(),
        ensures
            b == self.members().subset_of(other.members()),
    {
        let empty = ArrayContainer::new();
        match self {
            Container::Vacant => true,
            Container::Array(x) => match other {
                Container::Vacant => x.subset_array(&empty),
                Container::Array(y) => x.subset_array(y),
                Container::Bitset(y) => x.subset_bitset(y),
                Container::Run(y) => x.subset_run(y),
            },
            Container::Bitset(x) => match other {
                Container::Vacant => x.subset_array(&empty),
                Container::Array(y) => x.subset_array(y),
                Container::Bitset(y) => x.is_subset(y),
                Container::Run(y) => x.subset_run(y),
            },
            Container::Run(x) => match other {
                Container::Vacant => x.subset_array(&empty),
                Container::Array(y) => x.subset_array(y),
                Container::Bitset(y) => x.subset_bitset(y),
                Container::Run(y) => x.subset_run(y),
            },
        }
    }

    /// The settled container of the values that `self` lacks.
    pub fn complement(&self) -> (r: Container)
        requires
            self.wf(),
        ensures
            r.settled(),
            r.members() == self.members().complement(),
    {
        match self {
            Container::Vacant => {
                let empty = ArrayContainer::new();
                empty.complement()
            },
            Container::Array(x) => x.complement(),
            Container::Bitset(x) => {
                Container::from_bitset(x.complement(), DEFAULT_MAX_SIZE)
            },
            Container::Run(x) => x.complement(),
        }
    }
}

impl Union<Container> for Container {
    type Output = Container;

    fn union_with(&self, other: &Container, out: &mut Container)
        ensures
            final(out).settled(),
    {
        proof {
            lemma_combine(self.members(), other.members());
        }
        *out = self.combine_with(other, SetOp::Union);
    }
}

impl Intersection<Container> for Container {
    type Output = Container;

    fn intersect_with(&self, other: &Container, out: &mut Container)
        ensures
            final(out).settled(),
    {
        proof {
            lemma_combine(self.members(), other.members());
        }
        *out = self.combine_with(other, SetOp::Intersection);
    }
}

impl Difference<Container> for Container {
    type Output = Container;

    fn difference_with(&self, other: &Container, out: &mut Container)
        ensures
            final(out).settled(),
    {
        proof {
            lemma_combine(self.members(), other.members());
        }
        *out = self.combine_with(other, SetOp::Difference);
    }
}

impl SymmetricDifference<Container> for Container {
    type Output = Container;

    fn symmetric_difference_with(&self, other: &Container, out: &mut Container)
        ensures
            final(out).settled(),
    {
        proof {
            lemma_combine(self.members(), other.members());
        }
        *out = self.combine_with(other, SetOp::SymmetricDifference);
    }
}

impl Subset<Container> for Container {
    fn subset_of(&self, other: &Container) -> (b: bool) {
        self.is_subset(other)
    }
}

impl Negation for Container {
    fn negate(&self, out: &mut Container)
        ensures
            final(out).settled(),
    {
        *out = self.complement();
    }
}

} // verus!
