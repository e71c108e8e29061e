//! The set algebra with a bitset container on the left.

use vstd::prelude::*;
use crate::container::array::ArrayContainer;
use crate::container::bitset::BitsetContainer;
use crate::container::merge::bits_with_intervals;
use crate::container::model::SetModel;
use crate::container::model::{combine, SetOp};
use crate::container::model::lemma_combine;
use crate::container::run::RunContainer;
use crate::container::{Container, DEFAULT_MAX_SIZE};
use crate::container::{Difference, Intersection, Negation, Subset, SymmetricDifference, Union};

verus! {

impl BitsetContainer {
    /// The settled result of `op` on a bitset and an array, by one bit test
    /// or bit operation per element of the array.
    pub fn op_array(&self, other: &ArrayContainer, op: SetOp) -> (r: Container)
        requires
            self.wf(),
            other.wf(),
        ensures
            r.settled(),
            r.members() == combine(op, self.members(), other.members()),
    {
        bits_with_intervals(self, other, op)
    }

    /// The settled result of `op` on two bitsets, word by word.
    pub fn op_bitset(&self, other: &BitsetContainer, op: SetOp) -> (r: Container)
        requires
            self.wf(),
            other.wf(),
        ensures
            r.settled(),
            r.members() == combine(op, self.members(), other.members()),
    {
        Container::from_bitset(self.combine_with(other, op), DEFAULT_MAX_SIZE)
    }

    /// The settled result of `op` on a bitset and a run list, by one bit test
    /// or bit operation per value of the runs.
    pub fn op_run(&self, other: &RunContainer, op: SetOp) -> (r: Container)
        requires
            self.wf(),
            other.wf(),
        ensures
            r.settled(),
            r.members() == combine(op, self.members(), other.members()),
    {
        bits_with_intervals(self, other, op)
    }

    /// Whether `other` holds every member: the members that the array
    /// shares with the bitset are as many as the bitset has.
    pub fn subset_array(&self, other: &ArrayContainer) -> (b: bool)
        requires
            self.wf(),
            other.wf(),
        ensures
            b == self.members().subset_of(other.members()),
    {
        self.is_within(other)
    }

    /// Whether `other` holds every member: the members that the run list
    /// shares with the bitset are as many as the bitset has.
    pub fn subset_run(&self, other: &RunContainer) -> (b: bool)
        requires
            self.wf(),
            other.wf(),
        ensures
            b == self.members().subset_of(other.members()),
    {
        self.is_within(other)
    }
}

impl Union<ArrayContainer> for BitsetContainer {
    type Output = Container;

    fn union_with(&self, other: &ArrayContainer, out: &mut Container)
        ensures
            final(out).settled(),
    {
        proof {
            lemma_combine(self.members(), other.members());
        }
        *out = self.op_array(other, SetOp::Union);
    }
}

impl Intersection<ArrayContainer> for BitsetContainer {
    type Output = Container;

    fn intersect_with(&self, other: &ArrayContainer, out: &mut Container)
        ensures
            final(out).settled(),
    {
        proof {
            lemma_combine(self.members(), other.members());
        }
        *out = self.op_array(other, SetOp::Intersection);
    }
}

impl Difference<ArrayContainer> for BitsetContainer {
    type Output = Container;

    fn difference_with(&self, other: &ArrayContainer, out: &mut Container)
        ensures
            final(out).settled(),
    {
        proof {
            lemma_combine(self.members(), other.members());
        }
        *out = self.op_array(other, SetOp::Difference);
    }
}

impl SymmetricDifference<ArrayContainer> for BitsetContainer {
    type Output = Container;

    fn symmetric_difference_with(&self, other: &ArrayContainer, out: &mut Container)
        ensures
            final(out).settled(),
    {
        proof {
            lemma_combine(self.members(), other.members());
        }
        *out = self.op_array(other, SetOp::SymmetricDifference);
    }
}

impl Subset<ArrayContainer> for BitsetContainer {
    fn subset_of(&self, other: &ArrayContainer) -> (b: bool) {
        self.subset_array(other)
    }
}

impl Union<BitsetContainer> for BitsetContainer {
    type Output = Container;

    fn union_with(&self, other: &BitsetContainer, out: &mut Container)
        ensures
            final(out).settled(),
    {
        proof {
            lemma_combine(self.members(), other.members());
        }
        *out = self.op_bitset(other, SetOp::Union);
    }
}

impl Intersection<BitsetContainer> for BitsetContainer {
    type Output = Container;

    fn intersect_with(&self, other: &BitsetContainer, out: &mut Container)
        ensures
            final(out).settled(),
    {
        proof {
            lemma_combine(self.members(), other.members());
        }
        *out = self.op_bitset(other, SetOp::Intersection);
    }
}

impl Difference<BitsetContainer> for BitsetContainer {
    type Output = Container;

    fn difference_with(&self, other: &BitsetContainer, out: &mut Container)
        ensures
            final(out).settled(),
    {
        proof {
            lemma_combine(self.members(), other.members());
        }
        *out = self.op_bitset(other, SetOp::Difference);
    }
}

impl SymmetricDifference<BitsetContainer> for BitsetContainer {
    type Output = Container;

    fn symmetric_difference_with(&self, other: &BitsetContainer, out: &mut Container)
        ensures
            final(out).settled(),
    {
        proof {
            lemma_combine(self.members(), other.members());
        }
        *out = self.op_bitset(other, SetOp::SymmetricDifference);
    }
}

impl Subset<BitsetContainer> for BitsetContainer {
    fn subset_of(&self, other: &BitsetContainer) -> (b: bool) {
        self.is_subset(other)
    }
}

impl Union<RunContainer> for BitsetContainer {
    type Output = Container;

    fn union_with(&self, other: &RunContainer, out: &mut Container)
        ensures
            final(out).settled(),
    {
        proof {
            lemma_combine(self.members(), other.members());
        }
        *out = self.op_run(other, SetOp::Union);
    }
}

impl Intersection<RunContainer> for BitsetContainer {
    type Output = Container;

    fn intersect_with(&self, other: &RunContainer, out: &mut Container)
        ensures
            final(out).settled(),
    {
        proof {
            lemma_combine(self.members(), other.members());
        }
        *out = self.op_run(other, SetOp::Intersection);
    }
}

impl Difference<RunContainer> for BitsetContainer {
    type Output = Container;

    fn difference_with(&self, other: &RunContainer, out: &mut Container)
        ensures
            final(out).settled(),
    {
        proof {
            lemma_combine(self.members(), other.members());
        }
        *out = self.op_run(other, SetOp::Difference);
    }
}

impl SymmetricDifference<RunContainer> for BitsetContainer {
    type Output = Container;

    fn symmetric_difference_with(&self, other: &RunContainer, out: &mut Container)
        ensures
            final(out).settled(),
    {
        proof {
            lemma_combine(self.members(), other.members());
        }
        *out = self.op_run(other, SetOp::SymmetricDifference);
    }
}

impl Subset<RunContainer> for BitsetContainer {
    fn subset_of(&self, other: &RunContainer) -> (b: bool) {
        self.subset_run(other)
    }
}

impl Negation for BitsetContainer {
    fn negate(&self, out: &mut Container)
        ensures
            final(out).settled(),
    {
        *out = Container::from_bitset(self.complement(), DEFAULT_MAX_SIZE);
    }
}

} // verus!
