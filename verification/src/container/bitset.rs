//! The dense encoding: 1024 words of 64 bits and a cached cardinality.

use vstd::prelude::*;
use vstd::std_specs::bits::{axiom_u64_leading_zeros, axiom_u64_trailing_zeros};
use vstd::std_specs::bits::{u64_leading_zeros, u64_trailing_zeros};
use crate::container::model::SetModel;
use crate::container::model::{ascending, at_least, combine, is_max_of, is_min_of};
use crate::container::model::{is_run_start, keeps};
use crate::container::model::{run_count, run_starts, SetOp};
use crate::container::model::{lemma_finite, lemma_push_ascending, lemma_push_to_set};

verus! {

/// The number of 64-bit words of a bitset.
pub const BITSET_WORDS: usize = 1024;

/// Bit `j` of `w` is set.
pub open spec fn bit(w: u64, j: u64) -> bool {
    (w >> j) & 1u64 == 1u64
}

/// The bit of value `v` is set in `words`.
pub open spec fn has_bit(words: Seq<u64>, v: u16) -> bool {
    bit(words[(v / 64) as int], (v % 64) as u64)
}

/// The values whose bits are set in `words`.
pub open spec fn bits_of(words: Seq<u64>) -> Set<u16> {
    Set::new(|v: u16| has_bit(words, v))
}

/// The values below `n` whose bits are set in `words`.
pub open spec fn bits_below(words: Seq<u64>, n: nat) -> Set<u16> {
    Set::new(|v: u16| v < n && has_bit(words, v))
}

/// The number of set bits among the lowest `n` bits of `w`.
pub open spec fn popcount_below(w: u64, n: nat) -> nat
    decreases n,
{
    if n == 0 {
        0
    } else {
        popcount_below(w, (n - 1) as nat) + if bit(w, (n - 1) as u64) {
            1nat
        } else {
            0nat
        }
    }
}

/// The number of set bits of `w`.
pub open spec fn popcount(w: u64) -> nat {
    popcount_below(w, 64)
}

/// The number of set bits among the lowest `n` bit positions of `words`.
pub open spec fn count_below(words: Seq<u64>, n: nat) -> nat
    decreases n,
{
    if n == 0 {
        0
    } else {
        count_below(words, (n - 1) as nat) + if has_bit(words, (n - 1) as u16) {
            1nat
        } else {
            0nat
        }
    }
}

/// The word that `op` makes of two words.
pub open spec fn word_op(op: SetOp, x: u64, y: u64) -> u64 {
    match op {
        SetOp::Union => x | y,
        SetOp::Intersection => x & y,
        SetOp::Difference => x & !y,
        SetOp::SymmetricDifference => x ^ y,
    }
}

/// The word whose set bits are those set bits of `w` that have no set bit
/// just below them; `carry` is the top bit of the word before.
pub open spec fn start_word(w: u64, carry: u64) -> u64 {
    w & !((w << 1u64) | carry)
}

/// Bit by bit, the word operation is the operation on membership.
pub proof fn lemma_word_op(op: SetOp, x: u64, y: u64, k: u64)
    requires
        k < 64,
    ensures
        bit(word_op(op, x, y), k) == keeps(op, bit(x, k), bit(y, k)),
{
    assert(bit(x | y, k) == (bit(x, k) || bit(y, k))) by (bit_vector)
        requires
            k < 64,
    ;
    assert(bit(x & y, k) == (bit(x, k) && bit(y, k))) by (bit_vector)
        requires
            k < 64,
    ;
    assert(bit(x & !y, k) == (bit(x, k) && !bit(y, k))) by (bit_vector)
        requires
            k < 64,
    ;
    assert(bit(x ^ y, k) == (bit(x, k) != bit(y, k))) by (bit_vector)
        requires
            k < 64,
    ;
}

/// Negating a word negates each bit.
pub proof fn lemma_word_not(x: u64, k: u64)
    requires
        k < 64,
    ensures
        bit(!x, k) == !bit(x, k),
{
    assert(bit(!x, k) == !bit(x, k)) by (bit_vector)
        requires
            k < 64,
    ;
}

/// The zero word has no bit set.
pub proof fn lemma_word_zero(k: u64)
    requires
        k < 64,
    ensures
        !bit(0u64, k),
{
    assert(!bit(0u64, k)) by (bit_vector)
        requires
            k < 64,
    ;
}

/// Setting, clearing, flipping and testing one bit.
pub proof fn lemma_word_single(w: u64, j: u64, k: u64)
    requires
        j < 64,
        k < 64,
    ensures
        bit(w | (1u64 << j), k) == (bit(w, k) || k == j),
        bit(w & !(1u64 << j), k) == (bit(w, k) && k != j),
        bit(w ^ (1u64 << j), k) == (bit(w, k) != (k == j)),
        (w & (1u64 << j) != 0) == bit(w, j),
{
    assert(bit(w | (1u64 << j), k) == (bit(w, k) || k == j)) by (bit_vector)
        requires
            j < 64,
            k < 64,
    ;
    assert(bit(w & !(1u64 << j), k) == (bit(w, k) && k != j)) by (bit_vector)
        requires
            j < 64,
            k < 64,
    ;
    assert(bit(w ^ (1u64 << j), k) == (bit(w, k) != (k == j))) by (bit_vector)
        requires
            j < 64,
            k < 64,
    ;
    assert((w & (1u64 << j) != 0) == bit(w, j)) by (bit_vector)
        requires
            j < 64,
    ;
}

/// Shifting a word down by `j` moves bit `j + k` to bit `k`.
pub proof fn lemma_word_shift(x: u64, j: u64, k: u64)
    requires
        j < 64,
        k < 64,
    ensures
        bit(x >> j, k) == (j + k < 64 && bit(x, (j + k) as u64)),
{
    assert(bit(x >> j, k) == (j + k < 64 && bit(x, (j + k) as u64))) by (bit_vector)
        requires
            j < 64,
            k < 64,
    ;
}

/// A bit of the start word is set where the bit of `w` is set and the bit
/// below it, in `w` or at the top of the word before, is clear.
pub proof fn lemma_start_word(w: u64, p: u64, k: u64)
    requires
        k < 64,
    ensures
        bit(start_word(w, p >> 63u64), k) == (bit(w, k) && !(if k == 0 {
            bit(p, 63)
        } else {
            bit(w, (k - 1) as u64)
        })),
        bit(start_word(w, 0), k) == (bit(w, k) && !(k > 0 && bit(w, (k - 1) as u64))),
{
    assert(bit(start_word(w, p >> 63u64), k) == (bit(w, k) && !(if k == 0 {
        bit(p, 63)
    } else {
        bit(w, (k - 1) as u64)
    }))) by (bit_vector)
        requires
            k < 64,
    ;
    assert(bit(start_word(w, 0), k) == (bit(w, k) && !(k > 0 && bit(w, (k - 1) as u64))))
        by (bit_vector)
        requires
            k < 64,
    ;
}

/// The lowest set bit of a word that is not zero.
pub proof fn lemma_lowest_bit(w: u64)
    requires
        w != 0,
    ensures
        u64_trailing_zeros(w) < 64,
        bit(w, u64_trailing_zeros(w) as u64),
        forall|k: u64| k < u64_trailing_zeros(w) ==> !bit(w, k),
{
    axiom_u64_trailing_zeros(w);
    assert forall|k: u64| k < u64_trailing_zeros(w) implies !bit(w, k) by {
        assert((w >> k) & 1u64 == 0u64);
    }
}

/// The highest set bit of a word that is not zero.
pub proof fn lemma_highest_bit(w: u64)
    requires
        w != 0,
    ensures
        0 <= u64_leading_zeros(w) < 64,
        bit(w, (63 - u64_leading_zeros(w)) as u64),
        forall|k: u64| 63 - u64_leading_zeros(w) < k < 64 ==> !bit(w, k),
{
    axiom_u64_leading_zeros(w);
    let j = (63 - u64_leading_zeros(w)) as u64;
    assert((w >> j) & 1u64 != 0u64);
    assert((w >> j) & 1u64 != 0u64 ==> (w >> j) & 1u64 == 1u64) by (bit_vector);
    assert forall|k: u64| 63 - u64_leading_zeros(w) < k < 64 implies !bit(w, k) by {
        assert((w >> k) & 1u64 == 0u64);
    }
}

/// The bits counted below `n` are the members below `n`.
pub proof fn lemma_count_below(words: Seq<u64>, n: nat)
    requires
        n <= 65536,
    ensures
        bits_below(words, n).finite(),
        bits_below(words, n).len() == count_below(words, n),
    decreases n,
{
    lemma_finite(bits_below(words, n));
    if n == 0 {
        assert(bits_below(words, n) =~= Set::<u16>::empty());
    } else {
        let m = (n - 1) as nat;
        lemma_count_below(words, m);
        let v = m as u16;
        if has_bit(words, v) {
            assert(bits_below(words, n) =~= bits_below(words, m).insert(v));
        } else {
            assert(bits_below(words, n) =~= bits_below(words, m));
        }
    }
}

/// Counting bit by bit through word `k` adds up the bits of that word.
pub proof fn lemma_count_word(words: Seq<u64>, k: nat, j: nat)
    requires
        k < 1024,
        j <= 64,
    ensures
        count_below(words, 64 * k + j) == count_below(words, 64 * k) + popcount_below(
            words[k as int],
            j,
        ),
    decreases j,
{
    if j > 0 {
        lemma_count_word(words, k, (j - 1) as nat);
        let n = 64 * k + j;
        let v = (n - 1) as u16;
        assert(v / 64 == k && v % 64 == j - 1);
        assert(has_bit(words, v) == bit(words[k as int], (j - 1) as u64));
    }
}

/// A bitset over all 65536 values has as many members as set bits.
pub proof fn lemma_count_all(words: Seq<u64>)
    ensures
        bits_of(words).finite(),
        bits_of(words).len() == count_below(words, 65536),
{
    lemma_count_below(words, 65536);
    assert(bits_of(words) =~= bits_below(words, 65536));
}

/// Word-wise `op` is `op` on the sets of members.
pub proof fn lemma_combine_words(op: SetOp, a: Seq<u64>, b: Seq<u64>, out: Seq<u64>)
    requires
        a.len() == 1024,
        b.len() == 1024,
        out.len() == 1024,
        forall|i: int| 0 <= i < 1024 ==> out[i] == word_op(op, a[i], b[i]),
    ensures
        bits_of(out) =~= combine(op, bits_of(a), bits_of(b)),
{
    assert forall|v: u16| has_bit(out, v) == keeps(op, has_bit(a, v), has_bit(b, v)) by {
        let i = (v / 64) as int;
        lemma_word_op(op, a[i], b[i], (v % 64) as u64);
    }
}

/// Word-wise negation is the complement of the set of members.
pub proof fn lemma_negate_words(a: Seq<u64>, out: Seq<u64>)
    requires
        a.len() == 1024,
        out.len() == 1024,
        forall|i: int| 0 <= i < 1024 ==> out[i] == !a[i],
    ensures
        bits_of(out) =~= bits_of(a).complement(),
{
    assert forall|v: u16| has_bit(out, v) == !has_bit(a, v) by {
        let i = (v / 64) as int;
        lemma_word_not(a[i], (v % 64) as u64);
    }
}

/// The start words of a bitset hold the run starts of its members.
pub proof fn lemma_start_words(a: Seq<u64>, out: Seq<u64>)
    requires
        a.len() == 1024,
        out.len() == 1024,
        out[0] == start_word(a[0], 0),
        forall|i: int| 1 <= i < 1024 ==> out[i] == start_word(a[i], a[i - 1] >> 63u64),
    ensures
        bits_of(out) =~= run_starts(bits_of(a)),
{
    assert forall|v: u16| has_bit(out, v) == is_run_start(bits_of(a), v) by {
        let i = (v / 64) as int;
        let k = (v % 64) as u64;
        if i == 0 {
            lemma_start_word(a[0], 0, k);
            if v > 0 {
                let u = (v - 1) as u16;
                assert(u / 64 == 0 && u % 64 == k - 1);
            }
        } else {
            lemma_start_word(a[i], a[i - 1], k);
            let u = (v - 1) as u16;
            if k == 0 {
                assert(u / 64 == i - 1 && u % 64 == 63);
            } else {
                assert(u / 64 == i && u % 64 == k - 1);
            }
        }
    }
}

/// Two bitsets with the same members have the same words.
pub proof fn lemma_words_unique(a: Seq<u64>, b: Seq<u64>)
    requires
        a.len() == 1024,
        b.len() == 1024,
        bits_of(a) == bits_of(b),
    ensures
        a == b,
{
    assert forall|i: int| 0 <= i < 1024 implies a[i] == b[i] by {
        let x = a[i];
        let y = b[i];
        let z = x ^ y;
        if z != 0 {
            lemma_lowest_bit(z);
            let k = u64_trailing_zeros(z) as u64;
            lemma_word_op(SetOp::SymmetricDifference, x, y, k);
            let v = (64 * i + k) as u16;
            assert(v / 64 == i && v % 64 == k);
            assert(bits_of(a).contains(v) == has_bit(a, v));
            assert(bits_of(b).contains(v) == has_bit(b, v));
        } else {
            assert(x ^ y == 0 ==> x == y) by (bit_vector);
        }
    }
    assert(a =~= b);
}

/// The effect of changing the one bit of `v` on the set of members.
pub proof fn lemma_update_bit(words: Seq<u64>, v: u16)
    requires
        words.len() == 1024,
    ensures
        ({
            let i = (v / 64) as int;
            let w = words[i];
            let mask = 1u64 << ((v % 64) as u64);
            &&& bits_of(words.update(i, w | mask)) =~= bits_of(words).insert(v)
            &&& bits_of(words.update(i, w & !mask)) =~= bits_of(words).remove(v)
            &&& (w & mask != 0) == bits_of(words).contains(v)
        }),
{
    let i = (v / 64) as int;
    let j = (v % 64) as u64;
    let w = words[i];
    let mask = 1u64 << j;
    lemma_word_single(w, j, j);
    assert forall|u: u16|
        has_bit(words.update(i, w | mask), u) == (has_bit(words, u) || u == v) by {
        if u / 64 == v / 64 {
            lemma_word_single(w, j, (u % 64) as u64);
        }
    }
    assert forall|u: u16|
        has_bit(words.update(i, w & !mask), u) == (has_bit(words, u) && u != v) by {
        if u / 64 == v / 64 {
            lemma_word_single(w, j, (u % 64) as u64);
        }
    }
}

/// No more than `n` bits are set among the lowest `n`, and none in the
/// zero word.
pub proof fn lemma_popcount_bound(w: u64, n: nat)
    requires
        n <= 64,
    ensures
        popcount_below(w, n) <= n,
        popcount_below(0, n) == 0,
    decreases n,
{
    if n > 0 {
        lemma_popcount_bound(w, (n - 1) as nat);
        lemma_word_zero((n - 1) as u64);
    }
}

/// Where no bit below `k` is set, the lowest `k` bits make up zero.
pub proof fn lemma_low_bits_clear(w: u64, k: u64)
    requires
        k < 64,
        forall|j: u64| j < k ==> !bit(w, j),
    ensures
        w & (((1u64 << k) - 1) as u64) == 0,
    decreases k,
{
    if k == 0 {
        assert(w & (((1u64 << 0u64) - 1) as u64) == 0) by (bit_vector);
    } else {
        let j = (k - 1) as u64;
        lemma_low_bits_clear(w, j);
        assert(!bit(w, j));
        assert(w & (((1u64 << k) - 1) as u64) == 0) by (bit_vector)
            requires
                0 < k < 64,
                j == k - 1,
                w & (((1u64 << j) - 1) as u64) == 0,
                !bit(w, j),
        ;
    }
}

/// Where `x` is `w` without its set bit `t`, it has one set bit fewer
/// among the lowest `n` if `t` is one of them.
pub proof fn lemma_one_bit_fewer(w: u64, x: u64, t: u64, n: nat)
    requires
        t < 64,
        n <= 64,
        bit(w, t),
        forall|k: u64| k < 64 ==> bit(x, k) == (bit(w, k) && k != t),
    ensures
        popcount_below(w, n) == popcount_below(x, n) + if t < n {
            1nat
        } else {
            0nat
        },
    decreases n,
{
    if n > 0 {
        lemma_one_bit_fewer(w, x, t, (n - 1) as nat);
        assert(bit(x, (n - 1) as u64) == (bit(w, (n - 1) as u64) && (n - 1) as u64 != t));
    }
}

/// `w & (w - 1)` is `w` without its lowest set bit.
pub proof fn lemma_clear_lowest(w: u64)
    requires
        w != 0,
    ensures
        popcount(w) == popcount(w & ((w - 1) as u64)) + 1,
{
    lemma_lowest_bit(w);
    let t = u64_trailing_zeros(w) as u64;
    let x = w & ((w - 1) as u64);
    assert forall|k: u64| k < 64 implies bit(x, k) == (bit(w, k) && k != t) by {
        // a bit of `w` stays where a lower bit of `w` is set
        assert(bit(w & ((w - 1) as u64), k) == (bit(w, k) && w & (((1u64 << k) - 1) as u64)
            != 0)) by (bit_vector)
            requires
                k < 64,
                w != 0,
        ;
        if k <= t {
            assert forall|j: u64| j < k implies !bit(w, j) by {}
            lemma_low_bits_clear(w, k);
        } else {
            assert(w & (((1u64 << k) - 1) as u64) != 0) by (bit_vector)
                requires
                    t < k < 64,
                    bit(w, t),
            ;
        }
    }
    lemma_one_bit_fewer(w, x, t, 64);
}

/// The number of set bits of `w`: the lowest set bit is cleared until none
/// is left.
pub fn count_ones(w: u64) -> (c: usize)
    ensures
        c == popcount(w),
        c <= 64,
{
    let mut x: u64 = w;
    let mut c: usize = 0;
    proof {
        lemma_popcount_bound(w, 64);
    }
    while x != 0
        invariant
            c + popcount(x) == popcount(w),
            popcount(w) <= 64,
        decreases popcount(x),
    {
        proof {
            lemma_clear_lowest(x);
        }
        x = x & (x - 1);
        c = c + 1;
    }
    proof {
        lemma_popcount_bound(0, 64);
    }
    c
}

/// The number of set bits of a whole bitset.
pub fn count_bits(words: &Vec<u64>) -> (n: usize)
    requires
        words.len() == BITSET_WORDS,
    ensures
        n == bits_of(words@).len(),
        n <= 65536,
{
    let mut n: usize = 0;
    let mut i: usize = 0;
    while i < 1024
        invariant
            i <= 1024,
            words.len() == 1024,
            n <= 64 * i,
            n == count_below(words@, (64 * i) as nat),
        decreases 1024 - i,
    {
        let c = count_ones(words[i]);
        proof {
            lemma_count_word(words@, i as nat, 64);
        }
        n = n + c;
        i = i + 1;
    }
    proof {
        lemma_count_all(words@);
    }
    n
}

/// A set of 16-bit values kept as one bit per value.
pub struct BitsetContainer {
    pub(crate) words: Vec<u64>,
    pub(crate) cardinality: usize,
}

impl SetModel for BitsetContainer {
    open(crate) spec fn wf(&self) -> bool {
        &&& self.words.len() == BITSET_WORDS
        &&& self.cardinality == bits_of(self.words@).len()
    }

    open(crate) spec fn members(&self) -> Set<u16> {
        bits_of(self.words@)
    }
}

impl BitsetContainer {
    /// The words, in order: bit `v % 64` of word `v / 64` stands for `v`.
    pub open(crate) spec fn word_list(&self) -> Seq<u64> {
        self.words@
    }

    /// The cached cardinality.
    pub open(crate) spec fn counter(&self) -> nat {
        self.cardinality as nat
    }

    /// There are 1024 words, and their set bits are exactly the members.
    pub proof fn lemma_word_list(&self)
        requires
            self.wf(),
        ensures
            self.word_list().len() == 1024,
            self.members() == bits_of(self.word_list()),
    {
    }

    /// Whether the invariant of the encoding holds: there are 1024 words,
    /// and the cached cardinality is the number of their set bits.
    pub fn is_valid(&self) -> (b: bool)
        ensures
            b == self.wf(),
    {
        self.words.len() == BITSET_WORDS && self.cardinality == count_bits(&self.words)
    }

    /// An empty container.
    pub fn new() -> (r: Self)
        ensures
            r.wf(),
            r.members() == Set::<u16>::empty(),
    {
        let mut words: Vec<u64> = Vec::new();
        let mut i: usize = 0;
        while i < 1024
            invariant
                i <= 1024,
                words.len() == i,
                forall|k: int| 0 <= k < i ==> words[k] == 0,
            decreases 1024 - i,
        {
            words.push(0u64);
            i = i + 1;
        }
        proof {
            assert forall|v: u16| !has_bit(words@, v) by {
                lemma_word_zero((v % 64) as u64);
            }
            assert(bits_of(words@) =~= Set::<u16>::empty());
        }
        BitsetContainer { words, cardinality: 0 }
    }

    /// The container with the given words, its cardinality counted anew.
    pub fn from_words(words: Vec<u64>) -> (r: Self)
        requires
            words.len() == BITSET_WORDS,
        ensures
            r.wf(),
            r.members() == bits_of(words@),
    {
        let cardinality = count_bits(&words);
        BitsetContainer { words, cardinality }
    }

    /// The container that holds the values of `data`, which may repeat and
    /// come in any order.
    pub fn from_slice(data: &[u16]) -> (r: Self)
        ensures
            r.wf(),
            r.members() == data@.to_set(),
    {
        let mut r = BitsetContainer::new();
        r.extend(data);
        proof {
            assert(Set::<u16>::empty().union(data@.to_set()) =~= data@.to_set());
        }
        r
    }

    /// Adds the values of `data`, which may repeat and come in any order.
    pub fn extend(&mut self, data: &[u16])
        requires
            old(self).wf(),
        ensures
            final(self).wf(),
            final(self).members() == old(self).members().union(data@.to_set()),
    {
        let ghost before = self.members();
        let mut i: usize = 0;
        proof {
            assert(data@.subrange(0, 0).to_set() =~= Set::<u16>::empty());
            assert(before.union(Set::<u16>::empty()) =~= before);
        }
        while i < data.len()
            invariant
                i <= data.len(),
                self.wf(),
                self.members() =~= before.union(data@.subrange(0, i as int).to_set()),
            decreases data.len() - i,
        {
            proof {
                lemma_push_to_set(data@.subrange(0, i as int), data@[i as int]);
                assert(data@.subrange(0, i + 1) =~= data@.subrange(0, i as int).push(
                    data@[i as int],
                ));
            }
            self.insert(data[i]);
            i = i + 1;
        }
        proof {
            assert(data@.subrange(0, i as int) =~= data@);
        }
    }

    /// The number of members, read from the cached counter.
    pub fn cardinality(&self) -> (n: usize)
        requires
            self.wf(),
        ensures
            n == self.members().len(),
            n == self.counter(),
    {
        self.cardinality
    }

    /// Whether the container has no member.
    pub fn is_empty(&self) -> (b: bool)
        requires
            self.wf(),
        ensures
            b == (self.members() == Set::<u16>::empty()),
    {
        proof {
            lemma_finite(self.members());
            if self.cardinality == 0 {
                assert(self.members() =~= Set::<u16>::empty());
            }
        }
        self.cardinality == 0
    }

    /// Whether `v` is a member, by testing its bit.
    pub fn contains(&self, v: u16) -> (b: bool)
        requires
            self.wf(),
        ensures
            b == self.members().contains(v),
    {
        let i: usize = (v / 64) as usize;
        let j: u64 = (v % 64) as u64;
        (self.words[i] >> j) & 1u64 == 1u64
    }

    /// Adds `v`; returns whether it was absent before. The counter moves
    /// only when the bit flips.
    pub fn insert(&mut self, v: u16) -> (added: bool)
        requires
            old(self).wf(),
        ensures
            final(self).wf(),
            final(self).members() == old(self).members().insert(v),
            added == !old(self).members().contains(v),
            final(self).counter() == old(self).counter() + if added {
                1nat
            } else {
                0nat
            },
    {
        let i: usize = (v / 64) as usize;
        let j: u64 = (v % 64) as u64;
        let w: u64 = self.words[i];
        let mask: u64 = 1u64 << j;
        proof {
            lemma_update_bit(self.words@, v);
            lemma_finite(self.members());
            lemma_finite(self.members().insert(v));
        }
        if w & mask == 0 {
            self.words.set(i, w | mask);
            self.cardinality = self.cardinality + 1;
            true
        } else {
            proof {
                assert(self.members().insert(v) =~= self.members());
            }
            false
        }
    }

    /// Removes `v`; returns whether it was present before. The counter moves
    /// only when the bit flips.
    pub fn remove(&mut self, v: u16) -> (removed: bool)
        requires
            old(self).wf(),
        ensures
            final(self).wf(),
            final(self).members() == old(self).members().remove(v),
            removed == old(self).members().contains(v),
            old(self).counter() == final(self).counter() + if removed {
                1nat
            } else {
                0nat
            },
    {
        let i: usize = (v / 64) as usize;
        let j: u64 = (v % 64) as u64;
        let w: u64 = self.words[i];
        let mask: u64 = 1u64 << j;
        proof {
            lemma_update_bit(self.words@, v);
            lemma_finite(self.members());
        }
        if w & mask != 0 {
            self.words.set(i, w & !mask);
            self.cardinality = self.cardinality - 1;
            true
        } else {
            proof {
                assert(self.members().remove(v) =~= self.members());
            }
            false
        }
    }

    /// The least member, if there is one.
    pub fn min(&self) -> (m: Option<u16>)
        requires
            self.wf(),
        ensures
            match m {
                Some(x) => is_min_of(self.members(), x),
                None => self.members() == Set::<u16>::empty(),
            },
    {
        let mut i: usize = 0;
        while i < 1024
            invariant
                i <= 1024,
                self.words.len() == 1024,
                forall|k: int| 0 <= k < i ==> self.words[k] == 0,
            decreases 1024 - i,
        {
            let w: u64 = self.words[i];
            if w != 0 {
                let j: u32 = w.trailing_zeros();
                let x: u16 = (i * 64 + j as usize) as u16;
                proof {
                    lemma_lowest_bit(w);
                    assert(x / 64 == i && x % 64 == j);
                    assert forall|v: u16| self.members().contains(v) implies x <= v by {
                        if v / 64 < i {
                            lemma_word_zero((v % 64) as u64);
                        }
                    }
                }
                return Some(x);
            }
            i = i + 1;
        }
        proof {
            assert forall|v: u16| !has_bit(self.words@, v) by {
                lemma_word_zero((v % 64) as u64);
            }
            assert(self.members() =~= Set::<u16>::empty());
        }
        None
    }

    /// The greatest member, if there is one.
    pub fn max(&self) -> (m: Option<u16>)
        requires
            self.wf(),
        ensures
            match m {
                Some(x) => is_max_of(self.members(), x),
                None => self.members() == Set::<u16>::empty(),
            },
    {
        let mut i: usize = 1024;
        while i > 0
            invariant
                i <= 1024,
                self.words.len() == 1024,
                forall|k: int| i <= k < 1024 ==> self.words[k] == 0,
            decreases i,
        {
            let w: u64 = self.words[i - 1];
            if w != 0 {
                let j: u32 = 63 - w.leading_zeros();
                let x: u16 = ((i - 1) * 64 + j as usize) as u16;
                proof {
                    lemma_highest_bit(w);
                    assert(x / 64 == i - 1 && x % 64 == j);
                    assert forall|v: u16| self.members().contains(v) implies v <= x by {
                        if v / 64 >= i {
                            lemma_word_zero((v % 64) as u64);
                        }
                    }
                }
                return Some(x);
            }
            i = i - 1;
        }
        proof {
            assert forall|v: u16| !has_bit(self.words@, v) by {
                lemma_word_zero((v % 64) as u64);
            }
            assert(self.members() =~= Set::<u16>::empty());
        }
        None
    }

    /// The least member that is not below `v`, if there is one. Calling
    /// it again above each answer lists the members one at a time.
    pub fn next_from(&self, v: u16) -> (r: Option<u16>)
        requires
            self.wf(),
        ensures
            match r {
                Some(x) => is_min_of(at_least(self.members(), v), x),
                None => at_least(self.members(), v) == Set::<u16>::empty(),
            },
    {
        let first: usize = (v / 64) as usize;
        let j: u64 = (v % 64) as u64;
        let word: u64 = self.words[first];
        let head: u64 = word >> j;
        if head != 0 {
            let t: u32 = head.trailing_zeros();
            proof {
                lemma_lowest_bit(head);
                lemma_word_shift(word, j, t as u64);
            }
            let x: u16 = v + t as u16;
            proof {
                assert(x / 64 == first && x % 64 == j + t);
                assert forall|y: u16| at_least(self.members(), v).contains(y) implies x <= y by {
                    if y / 64 == first && y < x {
                        lemma_word_shift(word, j, (y % 64 - j) as u64);
                    }
                }
            }
            return Some(x);
        }
        let mut i: usize = first + 1;
        while i < 1024
            invariant
                first < i <= 1024,
                self.words.len() == 1024,
                first == v / 64,
                j == v % 64,
                word == self.words[first as int],
                word >> j == 0,
                forall|k: int| first < k < i ==> self.words[k] == 0,
            decreases 1024 - i,
        {
            let w: u64 = self.words[i];
            if w != 0 {
                let t: u32 = w.trailing_zeros();
                let x: u16 = (i * 64 + t as usize) as u16;
                proof {
                    lemma_lowest_bit(w);
                    assert(x / 64 == i && x % 64 == t);
                    assert forall|y: u16| at_least(self.members(), v).contains(y) implies x
                        <= y by {
                        if y / 64 == first {
                            lemma_word_shift(word, j, (y % 64 - j) as u64);
                            lemma_word_zero((y % 64 - j) as u64);
                        } else if y / 64 < i {
                            lemma_word_zero((y % 64) as u64);
                        }
                    }
                }
                return Some(x);
            }
            i = i + 1;
        }
        proof {
            assert forall|y: u16| !at_least(self.members(), v).contains(y) by {
                if y >= v {
                    if y / 64 == first {
                        lemma_word_shift(word, j, (y % 64 - j) as u64);
                        lemma_word_zero((y % 64 - j) as u64);
                    } else {
                        lemma_word_zero((y % 64) as u64);
                    }
                }
            }
            assert(at_least(self.members(), v) =~= Set::<u16>::empty());
        }
        None
    }

    /// The members in ascending order.
    pub fn to_vec(&self) -> (r: Vec<u16>)
        requires
            self.wf(),
        ensures
            ascending(r@),
            r@.to_set() == self.members(),
    {
        let mut r: Vec<u16> = Vec::new();
        let mut i: usize = 0;
        proof {
            assert(r@.to_set() =~= bits_below(self.words@, 0));
        }
        while i < 1024
            invariant
                i <= 1024,
                self.words.len() == 1024,
                ascending(r@),
                r@.to_set() =~= bits_below(self.words@, (64 * i) as nat),
            decreases 1024 - i,
        {
            let w: u64 = self.words[i];
            if w != 0 {
                let mut j: u64 = 0;
                while j < 64
                    invariant
                        j <= 64,
                        i < 1024,
                        self.words.len() == 1024,
                        w == self.words[i as int],
                        ascending(r@),
                        r@.to_set() =~= bits_below(self.words@, (64 * i + j) as nat),
                    decreases 64 - j,
                {
                    let ghost n = (64 * i + j) as nat;
                    let x: u16 = (i * 64 + j as usize) as u16;
                    proof {
                        assert(x / 64 == i && x % 64 == j);
                        assert(has_bit(self.words@, x) == bit(w, j));
                    }
                    if (w >> j) & 1u64 == 1u64 {
                        proof {
                            lemma_push_ascending(r@, x);
                            assert(bits_below(self.words@, n + 1) =~= bits_below(
                                self.words@,
                                n,
                            ).insert(x));
                        }
                        r.push(x);
                    } else {
                        proof {
                            assert(bits_below(self.words@, n + 1) =~= bits_below(self.words@, n));
                        }
                    }
                    j = j + 1;
                }
            } else {
                proof {
                    assert forall|v: u16| v / 64 == i implies !has_bit(self.words@, v) by {
                        lemma_word_zero((v % 64) as u64);
                    }
                    assert(bits_below(self.words@, (64 * (i + 1)) as nat) =~= bits_below(
                        self.words@,
                        (64 * i) as nat,
                    ));
                }
            }
            i = i + 1;
        }
        proof {
            assert(bits_below(self.words@, 65536) =~= bits_of(self.words@));
        }
        r
    }

    /// The number of maximal runs of consecutive members, counted word by
    /// word: a member opens a run where the bit below it is clear.
    pub fn number_of_runs(&self) -> (n: usize)
        requires
            self.wf(),
        ensures
            n == run_count(self.members()),
    {
        let mut starts: Vec<u64> = Vec::new();
        let mut carry: u64 = 0;
        let mut i: usize = 0;
        while i < 1024
            invariant
                i <= 1024,
                self.words.len() == 1024,
                starts.len() == i,
                i > 0 ==> starts[0] == start_word(self.words[0], 0),
                i > 0 ==> carry == self.words[i - 1] >> 63u64,
                i == 0 ==> carry == 0,
                forall|k: int|
                    1 <= k < i ==> starts[k] == start_word(
                        self.words[k],
                        self.words[k - 1] >> 63u64,
                    ),
            decreases 1024 - i,
        {
            let w: u64 = self.words[i];
            starts.push(w & !((w << 1u64) | carry));
            carry = w >> 63u64;
            i = i + 1;
        }
        proof {
            lemma_start_words(self.words@, starts@);
        }
        count_bits(&starts)
    }

    /// The container of `op` applied to `self` and `other`, word by word;
    /// the cardinality is counted over the result.
    pub fn combine_with(&self, other: &BitsetContainer, op: SetOp) -> (r: BitsetContainer)
        requires
            self.wf(),
            other.wf(),
        ensures
            r.wf(),
            r.members() == combine(op, self.members(), other.members()),
    {
        let mut words: Vec<u64> = Vec::new();
        let mut i: usize = 0;
        while i < 1024
            invariant
                i <= 1024,
                self.words.len() == 1024,
                other.words.len() == 1024,
                words.len() == i,
                forall|k: int|
                    0 <= k < i ==> words[k] == word_op(op, self.words[k], other.words[k]),
            decreases 1024 - i,
        {
            let x: u64 = self.words[i];
            let y: u64 = other.words[i];
            let w: u64 = match op {
                SetOp::Union => x | y,
                SetOp::Intersection => x & y,
                SetOp::Difference => x & !y,
                SetOp::SymmetricDifference => x ^ y,
            };
            words.push(w);
            i = i + 1;
        }
        proof {
            lemma_combine_words(op, self.words@, other.words@, words@);
        }
        BitsetContainer::from_words(words)
    }

    /// The container of the values that `self` lacks.
    pub fn complement(&self) -> (r: BitsetContainer)
        requires
            self.wf(),
        ensures
            r.wf(),
            r.members() == self.members().complement(),
    {
        let mut words: Vec<u64> = Vec::new();
        let mut i: usize = 0;
        while i < 1024
            invariant
                i <= 1024,
                self.words.len() == 1024,
                words.len() == i,
                forall|k: int| 0 <= k < i ==> words[k] == !self.words[k],
            decreases 1024 - i,
        {
            words.push(!self.words[i]);
            i = i + 1;
        }
        proof {
            lemma_negate_words(self.words@, words@);
        }
        BitsetContainer::from_words(words)
    }

    /// Whether every member of `self` is a member of `other`: no word of
    /// `self` has a bit that the same word of `other` lacks.
    pub fn is_subset(&self, other: &BitsetContainer) -> (b: bool)
        requires
            self.wf(),
            other.wf(),
        ensures
            b == self.members().subset_of(other.members()),
    {
        let mut i: usize = 0;
        while i < 1024
            invariant
                i <= 1024,
                self.words.len() == 1024,
                other.words.len() == 1024,
                forall|k: int| 0 <= k < i ==> self.words[k] & !other.words[k] == 0,
            decreases 1024 - i,
        {
            let z: u64 = self.words[i] & !other.words[i];
            if z != 0 {
                proof {
                    lemma_lowest_bit(z);
                    let j = u64_trailing_zeros(z) as u64;
                    lemma_word_op(SetOp::Difference, self.words[i as int], other.words[i as int], j);
                    let x = (64 * i + j) as u16;
                    assert(x / 64 == i && x % 64 == j);
                    assert(self.members().contains(x) && !other.members().contains(x));
                }
                return false;
            }
            i = i + 1;
        }
        proof {
            assert forall|v: u16| self.members().contains(v) implies other.members().contains(
                v,
            ) by {
                let k = (v / 64) as int;
                let j = (v % 64) as u64;
                lemma_word_op(SetOp::Difference, self.words[k], other.words[k], j);
                lemma_word_zero(j);
            }
        }
        true
    }
}

} // verus!
