//! The set algebra with an array container on the left.

use vstd::prelude::*;
use crate::container::array::ArrayContainer;
use crate::container::bitset::BitsetContainer;
use crate::container::interval::{all_swept, gaps, sweep};
use crate::container::merge::{all_merged, intervals_with_bits, merge};
use crate::container::model::SetModel;
use crate::container::model::{combine, SetOp};
use crate::container::model::lemma_combine;
use crate::container::run::RunContainer;
use crate::container::{Container, DEFAULT_MAX_SIZE};
use crate::container::{Difference, Intersection, Negation, Subset, SymmetricDifference, Union};

verus! {

impl ArrayContainer {
    /// The settled result of `op` on two arrays, by a merge scan.
    pub fn op_array(&self, other: &ArrayContainer, op: SetOp) -> (r: Container)
        requires
            self.wf(),
            other.wf(),
        ensures
            r.settled(),
            r.members() == combine(op, self.members(), other.members()),
    {
        Container::from_values(merge(&self.values, &other.values, op), DEFAULT_MAX_SIZE)
    }

    /// The settled result of `op` on an array and a bitset, by one bit test
    /// or bit operation per element of the array.
    pub fn op_bitset(&self, other: &BitsetContainer, op: SetOp) -> (r: Container)
        requires
            self.wf(),
            other.wf(),
        ensures
            r.settled(),
            r.members() == combine(op, self.members(), other.members()),
    {
        intervals_with_bits(self, other, op)
    }

    /// The settled result of `op` on an array and a run list, by a sweep over
    /// the run boundaries.
    pub fn op_run(&self, other: &RunContainer, op: SetOp) -> (r: Container)
        requires
            self.wf(),
            other.wf(),
        ensures
            r.settled(),
            r.members() == combine(op, self.members(), other.members()),
    {
        Container::from_run(sweep(self, other, op), DEFAULT_MAX_SIZE)
    }

    /// Whether `other` holds every member, by a merge scan.
    pub fn subset_array(&self, other: &ArrayContainer) -> (b: bool)
        requires
            self.wf(),
            other.wf(),
        ensures
            b == self.members().subset_of(other.members()),
    {
        all_merged(&self.values, &other.values)
    }

    /// Whether `other` holds every member, by one bit test per member.
    pub fn subset_bitset(&self, other: &BitsetContainer) -> (b: bool)
        requires
            self.wf(),
            other.wf(),
        ensures
            b == self.members().subset_of(other.members()),
    {
        other.contains_all(self)
    }

    /// Whether `other` holds every member, by a sweep over the run
    /// boundaries.
    pub fn subset_run(&self, other: &RunContainer) -> (b: bool)
        requires
            self.wf(),
            other.wf(),
        ensures
            b == self.members().subset_of(other.members()),
    {
        all_swept(self, other)
    }

    /// The settled container of the values that `self` lacks: the
    /// list of the gaps between its members.
    pub fn complement(&self) -> (r: Container)
        requires
            self.wf(),
        ensures
            r.settled(),
            r.members() == self.members().complement(),
    {
        Container::from_run(gaps(self), DEFAULT_MAX_SIZE)
    }
}

impl Union<ArrayContainer> for ArrayContainer {
    type Output = Container;

    fn union_with(&self, other: &ArrayContainer, out: &mut Container)
        ensures
            final(out).settled(),
    {
        proof {
            lemma_combine(self.members(), other.members());
        }
        *out = self.op_array(other, SetOp::Union);
    }
}

impl Intersection<ArrayContainer> for ArrayContainer {
    type Output = Container;

    fn intersect_with(&self, other: &ArrayContainer, out: &mut Container)
        ensures
            final(out).settled(),
    {
        proof {
            lemma_combine(self.members(), other.members());
        }
        *out = self.op_array(other, SetOp::Intersection);
    }
}

impl Difference<ArrayContainer> for ArrayContainer {
    type Output = Container;

    fn difference_with(&self, other: &ArrayContainer, out: &mut Container)
        ensures
            final(out).settled(),
    {
        proof {
            lemma_combine(self.members(), other.members());
        }
        *out = self.op_array(other, SetOp::Difference);
    }
}

impl SymmetricDifference<ArrayContainer> for ArrayContainer {
    type Output = Container;

    fn symmetric_difference_with(&self, other: &ArrayContainer, out: &mut Container)
        ensures
            final(out).settled(),
    {
        proof {
            lemma_combine(self.members(), other.members());
        }
        *out = self.op_array(other, SetOp::SymmetricDifference);
    }
}

impl Subset<ArrayContainer> for ArrayContainer {
    fn subset_of(&self, other: &ArrayContainer) -> (b: bool) {
        self.subset_array(other)
    }
}

impl Union<BitsetContainer> for ArrayContainer {
    type Output = Container;

    fn union_with(&self, other: &BitsetContainer, out: &mut Container)
        ensures
            final(out).settled(),
    {
        proof {
            lemma_combine(self.members(), other.members());
        }
        *out = self.op_bitset(other, SetOp::Union);
    }
}

impl Intersection<BitsetContainer> for ArrayContainer {
    type Output = Container;

    fn intersect_with(&self, other: &BitsetContainer, out: &mut Container)
        ensures
            final(out).settled(),
    {
        proof {
            lemma_combine(self.members(), other.members());
        }
        *out = self.op_bitset(other, SetOp::Intersection);
    }
}

impl Difference<BitsetContainer> for ArrayContainer {
    type Output = Container;

    fn difference_with(&self, other: &BitsetContainer, out: &mut Container)
        ensures
            final(out).settled(),
    {
        proof {
            lemma_combine(self.members(), other.members());
        }
        *out = self.op_bitset(other, SetOp::Difference);
    }
}

impl SymmetricDifference<BitsetContainer> for ArrayContainer {
    type Output = Container;

    fn symmetric_difference_with(&self, other: &BitsetContainer, out: &mut Container)
        ensures
            final(out).settled(),
    {
        proof {
            lemma_combine(self.members(), other.members());
        }
        *out = self.op_bitset(other, SetOp::SymmetricDifference);
    }
}

impl Subset<BitsetContainer> for ArrayContainer {
    fn subset_of(&self, other: &BitsetContainer) -> (b: bool) {
        self.subset_bitset(other)
    }
}

impl Union<RunContainer> for ArrayContainer {
    type Output = Container;

    fn union_with(&self, other: &RunContainer, out: &mut Container)
        ensures
            final(out).settled(),
    {
        proof {
            lemma_combine(self.members(), other.members());
        }
        *out = self.op_run(other, SetOp::Union);
    }
}

impl Intersection<RunContainer> for ArrayContainer {
    type Output = Container;

    fn intersect_with(&self, other: &RunContainer, out: &mut Container)
        ensures
            final(out).settled(),
    {
        proof {
            lemma_combine(self.members(), other.members());
        }
        *out = self.op_run(other, SetOp::Intersection);
    }
}

impl Difference<RunContainer> for ArrayContainer {
    type Output = Container;

    fn difference_with(&self, other: &RunContainer, out: &mut Container)
        ensures
            final(out).settled(),
    {
        proof {
            lemma_combine(self.members(), other.members());
        }
        *out = self.op_run(other, SetOp::Difference);
    }
}

impl SymmetricDifference<RunContainer> for ArrayContainer {
    type Output = Container;

    fn symmetric_difference_with(&self, other: &RunContainer, out: &mut Container)
        ensures
            final(out).settled(),
    {
        proof {
            lemma_combine(self.members(), other.members());
        }
        *out = self.op_run(other, SetOp::SymmetricDifference);
    }
}

impl Subset<RunContainer> for ArrayContainer {
    fn subset_of(&self, other: &RunContainer) -> (b: bool) {
        self.subset_run(other)
    }
}

impl Negation for ArrayContainer {
    fn negate(&self, out: &mut Container)
        ensures
            final(out).settled(),
    {
        *out = self.complement();
    }
}

} // verus!
