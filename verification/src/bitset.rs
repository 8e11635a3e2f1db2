//! A packed bit array over 64-bit storage words.
//!
//! The array keeps a logical length and a *tail mask*: the mask of the bits
//! of the final storage word that are inside the logical range.  The
//! invariant that every bit outside the logical range is clear in the final
//! word lets the bulk operations (`set_all`, `clear_all`, `count_ones`) work
//! word by word without per-call boundary cases; only `set_all` has to
//! reapply the tail mask.  `truncate` shrinks the logical length in place
//! and deliberately leaves stale bits behind, so reads are only trusted
//! again after the next bulk write; the contracts below encode that
//! discipline through the two well-formedness predicates.

use vstd::prelude::*;
use vstd::pervasive::VecAdditionalExecFns;
use vstd::arithmetic::div_mod::{
    lemma_div_is_ordered, lemma_fundamental_div_mod, lemma_fundamental_div_mod_converse,
};

verus! {

/// Whether bit `j` of word `w` is set (meaningful for `0 <= j < 64`).
pub open spec fn nth_bit(w: u64, j: int) -> bool {
    (w >> (j as u64)) & 1u64 == 1u64
}

/// The word whose bits `0..=r` are set and whose bits above `r` are clear
/// (for `r < 64`): the shape of the final word's tail mask when the last
/// logical bit falls at position `r`.
pub open spec fn spec_tail_mask(r: u64) -> u64 {
    !(0xffff_ffff_ffff_fffeu64 << r)
}

/// Number of set bits of `w` among the bit positions `0..k`.
pub open spec fn count_bits(w: u64, k: int) -> nat
    decreases k,
{
    if k <= 0 {
        0
    } else {
        count_bits(w, k - 1) + if nth_bit(w, k - 1) {
            1nat
        } else {
            0nat
        }
    }
}

/// Number of `true` entries of a boolean sequence.
pub open spec fn count_set(s: Seq<bool>) -> nat
    decreases s.len(),
{
    if s.len() == 0 {
        0
    } else {
        count_set(s.drop_last()) + if s.last() {
            1nat
        } else {
            0nat
        }
    }
}

pub proof fn lemma_tail_mask_bits(r: u64)
    requires
        r < 64,
    ensures
        forall|j: int| 0 <= j < 64 ==> (nth_bit(spec_tail_mask(r), j) <==> j <= r),
{
    assert forall|j: int| 0 <= j < 64 implies (nth_bit(spec_tail_mask(r), j) <==> j <= r) by {
        let ju = j as u64;
        assert(r < 64 && ju < 64 ==> (((!(0xffff_ffff_ffff_fffeu64 << r)) >> ju) & 1u64 == 1u64
            <==> ju <= r)) by (bit_vector);
    }
}

proof fn lemma_zero_word_bits()
    ensures
        forall|j: int| 0 <= j < 64 ==> !nth_bit(0u64, j),
{
    assert forall|j: int| 0 <= j < 64 implies !nth_bit(0u64, j) by {
        let ju = j as u64;
        assert(((0u64 >> ju) & 1u64) != 1u64) by (bit_vector);
    }
}

proof fn lemma_full_word_bits()
    ensures
        forall|j: int| 0 <= j < 64 ==> nth_bit(u64::MAX, j),
{
    assert forall|j: int| 0 <= j < 64 implies nth_bit(u64::MAX, j) by {
        let ju = j as u64;
        assert(ju < 64 ==> (u64::MAX >> ju) & 1u64 == 1u64) by (bit_vector);
    }
}

/// Two indices in the same word compare on their bit positions as they do
/// as numbers.
proof fn lemma_same_word_bit_order(a: int, b: int)
    requires
        0 <= a <= b,
        a / 64 == b / 64,
    ensures
        a % 64 <= b % 64,
{
    lemma_fundamental_div_mod(a, 64);
    lemma_fundamental_div_mod(b, 64);
}

pub proof fn lemma_count_set_le(s: Seq<bool>)
    ensures
        count_set(s) <= s.len(),
    decreases s.len(),
{
    if s.len() > 0 {
        lemma_count_set_le(s.drop_last());
    }
}

pub proof fn lemma_count_set_take_succ(s: Seq<bool>, k: int)
    requires
        0 <= k < s.len(),
    ensures
        count_set(s.take(k + 1)) == count_set(s.take(k)) + if s[k] {
            1nat
        } else {
            0nat
        },
{
    assert(s.take(k + 1).drop_last() =~= s.take(k));
    assert(s.take(k + 1).last() == s[k]);
}

/// Counting over a stretch of clear entries does not change.
pub proof fn lemma_count_take_clear_range(s: Seq<bool>, a: int, b: int)
    requires
        0 <= a <= b <= s.len(),
        forall|i: int| a <= i < b ==> !s[i],
    ensures
        count_set(s.take(b)) == count_set(s.take(a)),
    decreases b - a,
{
    if a < b {
        lemma_count_take_clear_range(s, a, b - 1);
        lemma_count_set_take_succ(s, b - 1);
    }
}

/// The count of set entries is the cardinality of the set of their indices:
/// marking exactly the positions of a finite index set and counting gives
/// that set's size back.
pub proof fn lemma_count_set_is_cardinality(s: Seq<bool>)
    ensures
        Set::new(|i: int| 0 <= i < s.len() && s[i]).finite(),
        count_set(s) == Set::new(|i: int| 0 <= i < s.len() && s[i]).len(),
    decreases s.len(),
{
    let whole = Set::new(|i: int| 0 <= i < s.len() && s[i]);
    if s.len() == 0 {
        assert(whole =~= Set::empty());
    } else {
        lemma_count_set_is_cardinality(s.drop_last());
        let sub = Set::new(|i: int| 0 <= i < s.drop_last().len() && s.drop_last()[i]);
        if s.last() {
            assert(whole =~= sub.insert(s.len() - 1));
            assert(!sub.contains(s.len() - 1));
        } else {
            assert(whole =~= sub);
        }
    }
}

/// Entirely true sequences count their own length.
pub proof fn lemma_count_set_all_true(s: Seq<bool>)
    requires
        forall|i: int| 0 <= i < s.len() ==> s[i],
    ensures
        count_set(s) == s.len(),
    decreases s.len(),
{
    if s.len() > 0 {
        lemma_count_set_all_true(s.drop_last());
    }
}

/// The bits of one word, seen through a window of the sequence, count the
/// same both ways.
proof fn lemma_count_bits_chunk(s: Seq<bool>, w: u64, off: int, k: int)
    requires
        0 <= off,
        0 <= k <= 64,
        off + k <= s.len(),
        forall|j: int| 0 <= j < k ==> s[off + j] == nth_bit(w, j),
    ensures
        count_set(s.take(off + k)) == count_set(s.take(off)) + count_bits(w, k),
    decreases k,
{
    if k > 0 {
        lemma_count_bits_chunk(s, w, off, k - 1);
        lemma_count_set_take_succ(s, off + k - 1);
    }
}

proof fn lemma_count_bits_clear_above(w: u64, a: int, b: int)
    requires
        0 <= a <= b <= 64,
        forall|j: int| a <= j < b ==> !nth_bit(w, j),
    ensures
        count_bits(w, b) == count_bits(w, a),
    decreases b - a,
{
    if a < b {
        lemma_count_bits_clear_above(w, a, b - 1);
    }
}

/// The portion of the sequence that the words before word `wi` cover.
spec fn word_bound(len: int, wi: int) -> int {
    if 64 * wi <= len {
        64 * wi
    } else {
        len
    }
}

/// `r` lists, in ascending order, exactly the indices of the set entries of
/// `s` below `bound`.
spec fn ones_prefix(r: Seq<usize>, s: Seq<bool>, bound: int) -> bool {
    &&& forall|a: int, b: int| 0 <= a < b < r.len() ==> r[a] < r[b]
    &&& forall|a: int| 0 <= a < r.len() ==> (r[a] as int) < bound && s[r[a] as int]
    &&& forall|i: int| 0 <= i < bound && s[i] ==> r.contains(i as usize)
    &&& r.len() == count_set(s.take(bound))
}

proof fn lemma_ones_prefix_push(r: Seq<usize>, s: Seq<bool>, bound: int, q: int)
    requires
        ones_prefix(r, s, bound),
        0 <= bound <= q < s.len(),
        q <= usize::MAX,
        forall|i: int| bound <= i < q ==> !s[i],
        s[q],
    ensures
        ones_prefix(r.push(q as usize), s, q + 1),
{
    lemma_count_take_clear_range(s, bound, q);
    lemma_count_set_take_succ(s, q);
    let r2 = r.push(q as usize);
    assert forall|i: int| 0 <= i < q + 1 && s[i] implies r2.contains(i as usize) by {
        if i < bound {
            let a = choose|a: int| 0 <= a < r.len() && r[a] == i as usize;
            assert(r2[a] == i as usize);
        } else {
            assert(i == q);
            assert(r2[r.len() as int] == q as usize);
        }
    }
}

proof fn lemma_ones_prefix_extend(r: Seq<usize>, s: Seq<bool>, a: int, b: int)
    requires
        ones_prefix(r, s, a),
        0 <= a <= b <= s.len(),
        forall|i: int| a <= i < b ==> !s[i],
    ensures
        ones_prefix(r, s, b),
{
    lemma_count_take_clear_range(s, a, b);
}

/// Clearing the lowest set bit of `w`: every other bit is kept.
proof fn lemma_clear_lowest_bit(w: u64, tz: u64)
    requires
        tz < 64,
        w != 0,
        (w >> tz) & 1u64 == 1u64,
        w << ((64 - tz) as u64) == 0,
    ensures
        forall|j: int|
            0 <= j < 64 ==> (nth_bit(w & ((w - 1) as u64), j) <==> (nth_bit(w, j) && j
                != tz)),
        (w & ((w - 1) as u64)) < w,
{
    assert forall|j: int|
        0 <= j < 64 implies (nth_bit(w & ((w - 1) as u64), j) <==> (nth_bit(w, j) && j
        != tz)) by {
        let ju = j as u64;
        assert(tz < 64 && ju < 64 && (w >> tz) & 1u64 == 1u64 && w << ((64 - tz) as u64) == 0
            ==> (((w & ((w - 1) as u64)) >> ju) & 1u64 == 1u64 <==> ((w >> ju) & 1u64 == 1u64
            && ju != tz))) by (bit_vector);
    }
    assert(w != 0 ==> (w & ((w - 1) as u64)) < w) by (bit_vector);
}

/// Counts the set bits among the bit positions `0..64` of `w`.
fn popcount(w: u64) -> (c: u64)
    ensures
        c == count_bits(w, 64),
{
    let mut c: u64 = 0;
    let mut j: u64 = 0;
    while j < 64
        invariant
            j <= 64,
            c == count_bits(w, j as int),
            c <= j,
        decreases 64 - j,
    {
        if (w >> j) & 1u64 == 1u64 {
            c = c + 1;
        }
        j = j + 1;
    }
    c
}

/// A packed bit array: `len` logical bits stored in 64-bit words, with the
/// mask of the final word's in-range bits kept alongside.
pub struct BitSet {
    words: Vec<u64>,
    last_word_set: u64,
    len: usize,
}

impl View for BitSet {
    type V = Seq<bool>;

    closed spec fn view(&self) -> Seq<bool> {
        Seq::new(self.len as nat, |i: int| nth_bit(self.words@[i / 64], i % 64))
    }
}

impl BitSet {
    /// The storage shape matches the logical length: the right number of
    /// words, and the recorded tail mask is the one the length dictates.
    /// After `truncate` this is all that is known: stale bits may sit above
    /// the logical range in the final word until the next bulk write.
    pub closed spec fn frame_valid(self) -> bool {
        &&& self.len >= 1
        &&& self.words@.len() == (self.len - 1) / 64 + 1
        &&& self.last_word_set == spec_tail_mask((((self.len - 1) as int) % 64) as u64)
    }

    /// Every bit of the final word above the last logical position is clear.
    pub closed spec fn tail_clear(self) -> bool {
        forall|j: int|
            ((self.len - 1) as int) % 64 < j < 64 ==> !nth_bit(self.words@.last(), j)
    }

    /// The full invariant under which reads are trusted.
    pub open spec fn well_formed(self) -> bool {
        self.frame_valid() && self.tail_clear()
    }

    /// The logical length in bits.
    pub fn len(&self) -> (r: usize)
        ensures
            r == self@.len(),
    {
        self.len
    }

    /// Creates a bit array of `len` bits, each set to `initial_v`.
    pub fn new(len: usize, initial_v: bool) -> (r: BitSet)
        requires
            1 <= len,
        ensures
            r.well_formed(),
            r@.len() == len,
            forall|i: int| 0 <= i < len ==> r@[i] == initial_v,
    {
        let word_count = (len - 1) / 64 + 1;
        let last_bit: u64 = ((len - 1) % 64) as u64;
        let last_word_set: u64 = !(0xffff_ffff_ffff_fffeu64 << last_bit);
        let mut words: Vec<u64> = Vec::new();
        let mut k: usize = 0;
        while k < word_count
            invariant
                k <= word_count,
                word_count == (len - 1) / 64 + 1,
                last_bit == ((len - 1) as int) % 64,
                last_word_set == spec_tail_mask(last_bit),
                words@.len() == k,
                forall|w: int|
                    0 <= w < k ==> words@[w] == (if initial_v {
                        if w == word_count - 1 {
                            last_word_set
                        } else {
                            u64::MAX
                        }
                    } else {
                        0u64
                    }),
            decreases word_count - k,
        {
            let w: u64 = if initial_v {
                if k == word_count - 1 {
                    last_word_set
                } else {
                    u64::MAX
                }
            } else {
                0u64
            };
            words.push(w);
            k += 1;
        }
        let r = BitSet { words, last_word_set, len };
        proof {
            lemma_tail_mask_bits(last_bit);
            lemma_zero_word_bits();
            lemma_full_word_bits();
            assert forall|i: int| 0 <= i < len implies r@[i] == initial_v by {
                lemma_div_is_ordered(i, len - 1, 64);
                lemma_fundamental_div_mod(i, 64);
                if i / 64 == word_count - 1 {
                    lemma_same_word_bit_order(i, len - 1);
                }
            }
            assert(r.tail_clear());
        }
        r
    }

    /// The word index and single-bit mask of logical index `i`.
    fn locate(&self, i: usize) -> (r: (usize, u64))
        requires
            self.frame_valid(),
            i < self@.len(),
        ensures
            r.0 == i as int / 64,
            r.0 < self.words@.len(),
            r.1 == (1u64 << ((i as int % 64) as u64)),
    {
        let word_i = i / 64;
        let mask: u64 = 1u64 << ((i % 64) as u64);
        proof {
            lemma_div_is_ordered(i as int, self.len - 1, 64);
        }
        (word_i, mask)
    }

    /// Reads bit `i`.
    pub fn get(&self, i: usize) -> (r: bool)
        requires
            self.well_formed(),
            i < self@.len(),
        ensures
            r == self@[i as int],
    {
        let (word_i, mask) = self.locate(i);
        let r = (self.words[word_i] & mask) != 0;
        proof {
            let w = self.words@[i as int / 64];
            let b = ((i as int) % 64) as u64;
            assert(b < 64 ==> ((w & (1u64 << b)) != 0 <==> (w >> b) & 1u64 == 1u64))
                by (bit_vector);
        }
        r
    }

    /// Sets bit `i`.
    pub fn set(&mut self, i: usize)
        requires
            old(self).well_formed(),
            i < old(self)@.len(),
        ensures
            final(self).well_formed(),
            final(self)@ == old(self)@.update(i as int, true),
    {
        let (word_i, mask) = self.locate(i);
        let w = self.words[word_i];
        self.words.set(word_i, w | mask);
        proof {
            let b = ((i as int) % 64) as u64;
            let nw = w | (1u64 << b);
            assert forall|j: int| 0 <= j < 64 implies nth_bit(nw, j) == (j == b || nth_bit(
                w,
                j,
            )) by {
                let ju = j as u64;
                assert(b < 64 && ju < 64 ==> (((w | (1u64 << b)) >> ju) & 1u64 == 1u64 <==> (ju
                    == b || (w >> ju) & 1u64 == 1u64))) by (bit_vector);
            }
            assert(self.words@ == old(self).words@.update(i as int / 64, nw));
            assert forall|k: int| 0 <= k < self@.len() implies self@[k] == old(self)@.update(
                i as int,
                true,
            )[k] by {
                lemma_div_is_ordered(k, self.len - 1, 64);
                assert(self@[k] == nth_bit(self.words@[k / 64], k % 64));
                if k / 64 == i as int / 64 {
                    assert(self.words@[k / 64] == nw);
                    if k != i as int {
                        lemma_fundamental_div_mod(k, 64);
                        lemma_fundamental_div_mod(i as int, 64);
                        assert(k % 64 != b);
                    }
                } else {
                    assert(self.words@[k / 64] == old(self).words@[k / 64]);
                }
            }
            assert(self@ =~= old(self)@.update(i as int, true));
            let last = self.words@.len() - 1;
            if i as int / 64 == last {
                lemma_same_word_bit_order(i as int, self.len - 1);
                assert(b <= ((self.len - 1) as int) % 64);
                assert(self.words@.last() == nw);
            } else {
                assert(self.words@.last() == old(self).words@.last());
            }
            assert forall|j: int|
                ((self.len - 1) as int) % 64 < j < 64 implies !nth_bit(
                self.words@.last(),
                j,
            ) by {
                if i as int / 64 == last {
                    assert(nth_bit(nw, j) == (j == b || nth_bit(w, j)));
                    assert(!nth_bit(old(self).words@.last(), j));
                } else {
                    assert(!nth_bit(old(self).words@.last(), j));
                }
            }
            assert(self.tail_clear());
        }
    }

    /// Clears bit `i`.
    pub fn clear(&mut self, i: usize)
        requires
            old(self).well_formed(),
            i < old(self)@.len(),
        ensures
            final(self).well_formed(),
            final(self)@ == old(self)@.update(i as int, false),
    {
        let (word_i, mask) = self.locate(i);
        let w = self.words[word_i];
        self.words.set(word_i, w & !mask);
        proof {
            let b = ((i as int) % 64) as u64;
            let nw = w & !(1u64 << b);
            assert forall|j: int| 0 <= j < 64 implies nth_bit(nw, j) == (j != b && nth_bit(
                w,
                j,
            )) by {
                let ju = j as u64;
                assert(b < 64 && ju < 64 ==> (((w & !(1u64 << b)) >> ju) & 1u64 == 1u64 <==> (ju
                    != b && (w >> ju) & 1u64 == 1u64))) by (bit_vector);
            }
            assert(self.words@ == old(self).words@.update(i as int / 64, nw));
            assert forall|k: int| 0 <= k < self@.len() implies self@[k] == old(self)@.update(
                i as int,
                false,
            )[k] by {
                lemma_div_is_ordered(k, self.len - 1, 64);
                assert(self@[k] == nth_bit(self.words@[k / 64], k % 64));
                if k / 64 == i as int / 64 {
                    assert(self.words@[k / 64] == nw);
                    if k != i as int {
                        lemma_fundamental_div_mod(k, 64);
                        lemma_fundamental_div_mod(i as int, 64);
                        assert(k % 64 != b);
                    }
                } else {
                    assert(self.words@[k / 64] == old(self).words@[k / 64]);
                }
            }
            assert(self@ =~= old(self)@.update(i as int, false));
            let last = self.words@.len() - 1;
            if i as int / 64 == last {
                assert(self.words@.last() == nw);
            } else {
                assert(self.words@.last() == old(self).words@.last());
            }
            assert forall|j: int|
                ((self.len - 1) as int) % 64 < j < 64 implies !nth_bit(
                self.words@.last(),
                j,
            ) by {
                if i as int / 64 == last {
                    assert(nth_bit(nw, j) == (j != b && nth_bit(w, j)));
                    assert(!nth_bit(old(self).words@.last(), j));
                } else {
                    assert(!nth_bit(old(self).words@.last(), j));
                }
            }
            assert(self.tail_clear());
        }
    }

    /// Sets every logical bit, reapplying the tail mask to the final word.
    pub fn set_all(&mut self)
        requires
            old(self).frame_valid(),
        ensures
            final(self).well_formed(),
            final(self)@.len() == old(self)@.len(),
            forall|i: int| 0 <= i < final(self)@.len() ==> final(self)@[i],
    {
        let n = self.words.len();
        let mut k: usize = 0;
        while k < n
            invariant
                self.frame_valid(),
                self.len == old(self).len,
                self.last_word_set == old(self).last_word_set,
                n == self.words@.len(),
                k <= n,
                forall|t: int|
                    0 <= t < k ==> self.words@[t] == (if t == n - 1 {
                        self.last_word_set
                    } else {
                        u64::MAX
                    }),
            decreases n - k,
        {
            let w: u64 = if k == n - 1 {
                self.last_word_set
            } else {
                u64::MAX
            };
            self.words.set(k, w);
            k += 1;
        }
        proof {
            let r = (((self.len - 1) as int) % 64) as u64;
            lemma_tail_mask_bits(r);
            lemma_full_word_bits();
            assert forall|i: int| 0 <= i < self@.len() implies self@[i] by {
                lemma_div_is_ordered(i, self.len - 1, 64);
                if i / 64 == self.words@.len() - 1 {
                    lemma_same_word_bit_order(i, self.len - 1);
                }
            }
            assert(self.tail_clear());
        }
    }

    /// Clears every logical bit.
    pub fn clear_all(&mut self)
        requires
            old(self).frame_valid(),
        ensures
            final(self).well_formed(),
            final(self)@.len() == old(self)@.len(),
            forall|i: int| 0 <= i < final(self)@.len() ==> !final(self)@[i],
    {
        let n = self.words.len();
        let mut k: usize = 0;
        while k < n
            invariant
                self.frame_valid(),
                self.len == old(self).len,
                self.last_word_set == old(self).last_word_set,
                n == self.words@.len(),
                k <= n,
                forall|t: int| 0 <= t < k ==> self.words@[t] == 0u64,
            decreases n - k,
        {
            self.words.set(k, 0u64);
            k += 1;
        }
        proof {
            lemma_zero_word_bits();
            assert forall|i: int| 0 <= i < self@.len() implies !self@[i] by {
                lemma_div_is_ordered(i, self.len - 1, 64);
            }
            assert(self.tail_clear());
        }
    }

    /// Shrinks the logical length in place, recomputing the tail mask.
    ///
    /// Stale bits above the new length may remain in the final word, so only
    /// the storage shape is promised; call `set_all` or `clear_all` before
    /// trusting any read again.
    pub fn truncate(&mut self, new_len: usize)
        requires
            old(self).frame_valid(),
            1 <= new_len <= old(self)@.len(),
        ensures
            final(self).frame_valid(),
            final(self)@.len() == new_len,
    {
        let word_count = (new_len - 1) / 64 + 1;
        let last_bit: u64 = ((new_len - 1) % 64) as u64;
        proof {
            lemma_div_is_ordered(new_len - 1, self.len - 1, 64);
        }
        self.words.truncate(word_count);
        self.last_word_set = !(0xffff_ffff_ffff_fffeu64 << last_bit);
        self.len = new_len;
    }

    /// The number of set logical bits, summed word by word.
    pub fn count_ones(&self) -> (r: usize)
        requires
            self.well_formed(),
        ensures
            r == count_set(self@),
    {
        let ghost s = self@;
        let wc = self.words.len();
        let mut total: usize = 0;
        let mut i: usize = 0;
        while i < wc
            invariant
                self.well_formed(),
                s == self@,
                wc == self.words@.len(),
                i <= wc,
                total == count_set(s.take(word_bound(s.len() as int, i as int))),
            decreases wc - i,
        {
            let w = self.words[i];
            let c = popcount(w);
            proof {
                lemma_fundamental_div_mod(self.len - 1, 64);
                let off = 64 * (i as int);
                assert(off <= self.len - 1);
                let used: int = if i as int == wc - 1 {
                    s.len() - off
                } else {
                    64
                };
                assert(0 < used <= 64);
                assert forall|j: int| 0 <= j < used implies s[off + j] == nth_bit(w, j) by {
                    lemma_fundamental_div_mod_converse(off + j, 64, i as int, j);
                }
                if i as int == wc - 1 {
                    assert(used == ((self.len - 1) as int) % 64 + 1);
                    assert(w == self.words@.last());
                    assert forall|j: int| used <= j < 64 implies !nth_bit(w, j) by {
                        assert(((self.len - 1) as int) % 64 < j < 64);
                    }
                    lemma_count_bits_clear_above(w, used, 64);
                } else {
                    assert(off + used == 64 * (i as int + 1));
                    assert(i as int + 1 <= wc - 1);
                    assert(64 * (i as int + 1) <= 64 * ((self.len - 1) / 64));
                    assert(off + used <= self.len - 1);
                }
                lemma_count_bits_chunk(s, w, off, used);
                lemma_count_set_le(s.take(off + used));
                assert(word_bound(s.len() as int, i as int) == off);
                assert(word_bound(s.len() as int, i as int + 1) == off + used);
            }
            total = total + (c as usize);
            i += 1;
        }
        proof {
            assert(s.take(word_bound(s.len() as int, wc as int)) =~= s);
        }
        total
    }

    /// Starts a lazy iteration over the indices of the set logical bits, in
    /// ascending order.
    pub fn iter_ones(&self) -> (it: IterOnes<'_>)
        requires
            self.well_formed(),
        ensures
            it.wf(),
            it.bits() == self@,
            it.pos() == 0,
    {
        IterOnes { bs: self, wi: 0, word: self.words[0], cur: Ghost(0) }
    }

    /// The indices of the set logical bits, collected in ascending order.
    pub(crate) fn ones(&self) -> (r: Vec<usize>)
        requires
            self.well_formed(),
        ensures
            r@.len() == count_set(self@),
            forall|a: int, b: int| 0 <= a < b < r@.len() ==> r@[a] < r@[b],
            forall|a: int|
                0 <= a < r@.len() ==> (r@[a] as int) < self@.len() && self@[r@[a] as int],
            forall|i: int| 0 <= i < self@.len() && self@[i] ==> r@.contains(i as usize),
    {
        let ghost s = self@;
        let mut it = self.iter_ones();
        let mut r: Vec<usize> = Vec::new();
        loop
            invariant_except_break
                it.wf(),
                it.bits() == s,
                s == self@,
                0 <= it.pos() <= s.len(),
                ones_prefix(r@, s, it.pos()),
            ensures
                ones_prefix(r@, s, s.len() as int),
            decreases s.len() - it.pos(),
        {
            let ghost p0 = it.pos();
            match it.next() {
                Some(i) => {
                    proof {
                        lemma_ones_prefix_push(r@, s, p0, i as int);
                    }
                    r.push(i);
                },
                None => {
                    proof {
                        lemma_ones_prefix_extend(r@, s, p0, s.len() as int);
                    }
                    break ;
                },
            }
        }
        proof {
            assert(s.take(s.len() as int) =~= s);
        }
        r
    }
}

/// A lazy, non-restartable iterator over the indices of the set bits of a
/// `BitSet`, ascending.
///
/// The cursor scans words left to right, skipping an all-zero word outright;
/// within a nonzero word the lowest set bit is located by its trailing-zero
/// count, emitted, and cleared from a scratch copy of the word, so no
/// individual bit is ever tested.
pub struct IterOnes<'a> {
    bs: &'a BitSet,
    wi: usize,
    word: u64,
    cur: Ghost<int>,
}

impl<'a> IterOnes<'a> {
    /// The bit sequence being iterated.
    pub closed spec fn bits(self) -> Seq<bool> {
        self.bs@
    }

    /// The cursor: every set bit below it has been yielded, none at or
    /// above it has.
    pub closed spec fn pos(self) -> int {
        self.cur@
    }

    pub closed spec fn wf(self) -> bool {
        &&& self.bs.well_formed()
        &&& 0 <= self.cur@ <= self.bs@.len()
        &&& self.wi <= self.bs.words@.len()
        &&& if self.wi < self.bs.words@.len() {
            &&& 64 * self.wi <= self.cur@ <= 64 * self.wi + 64
            &&& forall|j: int|
                0 <= j < 64 ==> (nth_bit(self.word, j) <==> (64 * self.wi + j >= self.cur@
                    && nth_bit(self.bs.words@[self.wi as int], j)))
        } else {
            self.word == 0 && self.cur@ == self.bs@.len()
        }
    }

    /// The next set-bit index at or after the cursor, if any remains.
    pub fn next(&mut self) -> (r: Option<usize>)
        requires
            old(self).wf(),
        ensures
            final(self).wf(),
            final(self).bits() == old(self).bits(),
            r matches Some(i) ==> {
                &&& old(self).pos() <= i < old(self).bits().len()
                &&& old(self).bits()[i as int]
                &&& (forall|p: int| old(self).pos() <= p < i ==> !old(self).bits()[p])
                &&& final(self).pos() == i + 1
            },
            r is None ==> {
                &&& (forall|p: int|
                    old(self).pos() <= p < old(self).bits().len() ==> !old(self).bits()[p])
                &&& final(self).pos() == old(self).bits().len()
            },
    {
        let ghost s = self.bs@;
        let ghost c0 = self.cur@;
        let wc = self.bs.words.len();
        if self.wi == wc {
            return None;
        }
        while self.word == 0
            invariant
                self.bs == old(self).bs,
                self.bs.well_formed(),
                s == self.bs@,
                s == old(self).bits(),
                c0 == old(self).pos(),
                wc == self.bs.words@.len(),
                self.wi < wc,
                64 * self.wi <= self.cur@ <= 64 * self.wi + 64,
                self.cur@ <= s.len(),
                c0 <= self.cur@,
                forall|p: int| c0 <= p < self.cur@ ==> !s[p],
                forall|j: int|
                    0 <= j < 64 ==> (nth_bit(self.word, j) <==> (64 * self.wi + j >= self.cur@
                        && nth_bit(self.bs.words@[self.wi as int], j))),
            decreases wc - self.wi,
        {
            proof {
                lemma_zero_word_bits();
                lemma_fundamental_div_mod(self.bs.len - 1, 64);
                let b2 = word_bound(s.len() as int, self.wi as int + 1);
                assert(self.cur@ <= b2);
                assert forall|p: int| self.cur@ <= p < b2 implies !s[p] by {
                    let j = p - 64 * (self.wi as int);
                    lemma_fundamental_div_mod_converse(p, 64, self.wi as int, j);
                    assert(!nth_bit(self.word, j));
                }
            }
            let wi2 = self.wi + 1;
            if wi2 == wc {
                proof {
                    lemma_fundamental_div_mod(self.bs.len - 1, 64);
                    assert(s.len() <= 64 * (wi2 as int));
                    assert(word_bound(s.len() as int, self.wi as int + 1) == s.len() as int);
                    assert forall|p: int| c0 <= p < s.len() implies !s[p] by {
                        assert(p < self.cur@ || self.cur@ <= p < s.len());
                    }
                }
                self.wi = wi2;
                proof {
                    self.cur@ = s.len() as int;
                }
                return None;
            }
            self.wi = wi2;
            self.word = self.bs.words[wi2];
            proof {
                self.cur@ = 64 * (wi2 as int);
                lemma_fundamental_div_mod(self.bs.len - 1, 64);
                assert(64 * (wi2 as int) <= self.bs.len - 1);
            }
        }
        proof {
            vstd::std_specs::bits::axiom_u64_trailing_zeros(self.word);
        }
        let tz = self.word.trailing_zeros();
        let ghost tzi = tz as int;
        let ghost q = 64 * (self.wi as int) + tzi;
        proof {
            assert(tz < 64);
            assert(nth_bit(self.word, tzi));
            assert(q >= self.cur@ && nth_bit(self.bs.words@[self.wi as int], tzi));
            lemma_fundamental_div_mod(self.bs.len - 1, 64);
            if self.wi as int == wc - 1 {
                assert(self.bs.words@[self.wi as int] == self.bs.words@.last());
                assert(tzi <= ((self.bs.len - 1) as int) % 64);
                assert(q <= self.bs.len - 1);
            } else {
                assert(self.wi as int + 1 <= wc - 1);
                assert(64 * (self.wi as int + 1) <= 64 * ((self.bs.len - 1) / 64));
                assert(q < 64 * (self.wi as int + 1));
            }
            assert(q < s.len());
            lemma_fundamental_div_mod_converse(q, 64, self.wi as int, tzi);
            assert(s[q]);
            assert forall|p: int| c0 <= p < q implies !s[p] by {
                if p >= self.cur@ {
                    let j = p - 64 * (self.wi as int);
                    lemma_fundamental_div_mod_converse(p, 64, self.wi as int, j);
                    let ju = j as u64;
                    assert(0 <= ju < tz ==> (self.word >> ju) & 1u64 == 0u64);
                    assert(!nth_bit(self.word, j));
                }
            }
            assert(64 * (self.wi as int) <= self.bs.len - 1);
        }
        let i = self.wi * 64 + tz as usize;
        proof {
            assert(i as int == q);
            lemma_clear_lowest_bit(self.word, tz as u64);
        }
        let ghost oldw = self.word;
        self.word = self.word & (self.word - 1);
        proof {
            self.cur@ = q + 1;
            assert forall|j: int|
                0 <= j < 64 implies (nth_bit(self.word, j) <==> (64 * self.wi + j >= self.cur@
                    && nth_bit(self.bs.words@[self.wi as int], j))) by {
                assert(nth_bit(self.word, j) == (nth_bit(oldw, j) && j != tzi));
                if j < tzi {
                    let ju = j as u64;
                    assert(0 <= ju < tz ==> (oldw >> ju) & 1u64 == 0u64);
                    assert(!nth_bit(oldw, j));
                }
            }
        }
        Some(i)
    }
}

} // verus!
