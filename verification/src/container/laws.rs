//! What holds of the set algebra whatever the encodings: the laws that
//! relate one operation to another, stated over the members.

use vstd::prelude::*;
use crate::container::array::ArrayContainer;
use crate::container::bitset::{lemma_words_unique, BitsetContainer};
use crate::container::run::{lemma_runs_unique, RunContainer};
use crate::container::Container;
use crate::container::model::SetModel;
use crate::container::model::{ascending, symmetric_difference};
use crate::container::model::{lemma_ascending_len, lemma_ascending_unique, lemma_full_len};

verus! {

/// Two containers with the same members, in whatever encodings, have the
/// same ascending listing and the same cardinality.
pub proof fn law_encoding_independence<A: SetModel, B: SetModel>(
    a: &A,
    b: &B,
    listing_a: Seq<u16>,
    listing_b: Seq<u16>,
)
    requires
        a.members() == b.members(),
        ascending(listing_a),
        listing_a.to_set() == a.members(),
        ascending(listing_b),
        listing_b.to_set() == b.members(),
    ensures
        listing_a == listing_b,
        a.members().len() == b.members().len(),
        listing_a.len() == a.members().len(),
{
    lemma_ascending_unique(listing_a, listing_b);
    lemma_ascending_len(listing_a);
}

/// A set united or intersected with itself is itself; its difference and
/// its symmetric difference with itself are empty.
pub proof fn law_idempotence<A: SetModel>(a: &A)
    ensures
        a.members().union(a.members()) == a.members(),
        a.members().intersect(a.members()) == a.members(),
        a.members().difference(a.members()) == Set::<u16>::empty(),
        symmetric_difference(a.members(), a.members()) == Set::<u16>::empty(),
{
    let m = a.members();
    assert(m.union(m) =~= m);
    assert(m.intersect(m) =~= m);
    assert(m.difference(m) =~= Set::<u16>::empty());
    assert(symmetric_difference(m, m) =~= Set::<u16>::empty());
}

/// The complement of the complement is the set itself; a set and its
/// complement make up the whole universe of 65536 values and share nothing.
pub proof fn law_complement<A: SetModel>(a: &A)
    ensures
        a.members().complement().complement() == a.members(),
        a.members().union(a.members().complement()) == Set::<u16>::full(),
        a.members().union(a.members().complement()).len() == 65536,
        a.members().intersect(a.members().complement()) == Set::<u16>::empty(),
{
    let m = a.members();
    assert(m.complement().complement() =~= m);
    assert(m.union(m.complement()) =~= Set::<u16>::full());
    assert(m.intersect(m.complement()) =~= Set::<u16>::empty());
    lemma_full_len();
}

/// Inclusion is reflexive and transitive, and the empty set is included in
/// every set.
pub proof fn law_subset_order<A: SetModel, B: SetModel, C: SetModel>(a: &A, b: &B, c: &C)
    ensures
        a.members().subset_of(a.members()),
        Set::<u16>::empty().subset_of(a.members()),
        a.members().subset_of(b.members()) && b.members().subset_of(c.members())
            ==> a.members().subset_of(c.members()),
{
}

/// The policy looks at the members alone: two settled containers with the
/// same members are in the same encoding.
pub proof fn law_settled_encoding(a: &Container, b: &Container)
    requires
        a.settled(),
        b.settled(),
        a.members() == b.members(),
    ensures
        a.repr() == b.repr(),
{
}

/// Two array containers with the same members store the same values: an
/// array that was converted to another encoding and back is the array
/// that it was.
pub proof fn law_conversion_stability(before: &ArrayContainer, after: &ArrayContainer)
    requires
        before.wf(),
        after.wf(),
        before.members() == after.members(),
    ensures
        before.elements() == after.elements(),
        before.members().len() == after.members().len(),
{
    before.lemma_elements();
    after.lemma_elements();
    lemma_ascending_unique(before.elements(), after.elements());
}

/// Two bitset containers with the same members hold the same words.
pub proof fn law_bitset_canonical(before: &BitsetContainer, after: &BitsetContainer)
    requires
        before.wf(),
        after.wf(),
        before.members() == after.members(),
    ensures
        before.word_list() == after.word_list(),
{
    before.lemma_word_list();
    after.lemma_word_list();
    lemma_words_unique(before.word_list(), after.word_list());
}

/// Two run containers with the same members hold the same runs.
pub proof fn law_run_canonical(before: &RunContainer, after: &RunContainer)
    requires
        before.wf(),
        after.wf(),
        before.members() == after.members(),
    ensures
        before.run_list() == after.run_list(),
{
    before.lemma_run_list();
    after.lemma_run_list();
    lemma_runs_unique(before.run_list(), after.run_list());
}

} // verus!
