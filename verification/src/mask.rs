use vstd::prelude::*;

verus! {

use crate::bits::{
    lemma_word_bit_and, lemma_word_bit_not, lemma_word_bit_or, lemma_word_bit_set,
    lemma_word_bit_tail_mask, lemma_word_bit_test, lemma_word_bit_zero, tail_ok, word_bit,
};
use crate::error::{is_index_out_of_range, is_shape_mismatch, Error};
use crate::layout::{
    compute_word_count, compute_words_per_row, copy_vec, elem_count, filled,
    lemma_element_position, lemma_lane_in_tail, lemma_row_major, lane_index, row_count, same_shape,
    shape_vec, size_ok, word_count, word_index, words_per_row,
};

/// A same-shaped boolean companion of an `Array`: truth values are packed
/// one bit per lane into 16-bit register words, with each row padded to a
/// whole number of words exactly like the array rows.  Any bit beyond the
/// true row length must read false once a public operation returns: the
/// tail-zero invariant, on which flattening and reductions rely.
#[derive(Clone)]
pub struct Mask<const D: usize> {
    masks: Vec<u16>,
    shape: [usize; D],
}

impl<const D: usize> Mask<D> {
    /// The packed register words.
    pub closed spec fn words(&self) -> Seq<u16> {
        self.masks@
    }

    /// The axis sizes.
    pub closed spec fn spec_shape(&self) -> Seq<usize> {
        self.shape@
    }

    /// Length of the innermost axis: the row length.
    pub open spec fn spec_cols(&self) -> usize {
        self.spec_shape().last()
    }

    /// Truth value of logical element `k`, read through the packed layout.
    pub open spec fn bit_at(&self, k: int) -> bool {
        word_bit(
            self.words()[word_index(self.spec_cols(), k)],
            lane_index(self.spec_cols(), k) as u16,
        )
    }

    /// Structural part of the invariant: positive rank, addressable size,
    /// and one register word per 16 lanes of each padded row.
    pub open spec fn len_ok(&self) -> bool {
        &&& D >= 1
        &&& self.spec_shape().len() == D
        &&& size_ok(self.spec_shape())
        &&& self.words().len() == word_count(self.spec_shape())
    }

    /// Tail-zero invariant: in every word that closes a row, the lanes at
    /// and beyond the row length read false.
    pub open spec fn tails_zero(&self) -> bool {
        self.spec_cols() % 16 == 0 || (forall|w: int|
            0 <= w < self.words().len() && (w + 1) % (words_per_row(self.spec_cols()) as int) == 0
                ==> tail_ok(#[trigger] self.words()[w], (self.spec_cols() % 16) as int))
    }

    /// The full invariant of a mask between public operations.
    pub open spec fn wf(&self) -> bool {
        self.len_ok() && self.tails_zero()
    }
}

impl<const D: usize> View for Mask<D> {
    type V = Seq<bool>;

    /// A mask denotes its flat row-major sequence of truth values, free of
    /// any padding.
    open spec fn view(&self) -> Seq<bool> {
        Seq::new(elem_count(self.spec_shape()), |k: int| self.bit_at(k))
    }
}

impl<const D: usize> Mask<D> {
    /// A mask of the given shape with every element false.
    pub fn zeros(shape: &[usize; D]) -> (r: Self)
        requires
            D >= 1,
            size_ok(shape@),
        ensures
            r.wf(),
            r.spec_shape() == shape@,
            r@.len() == elem_count(shape@),
            forall|k: int| 0 <= k < r@.len() ==> !r@[k],
    {
        let n = compute_word_count(shape);
        let r = Mask { masks: filled(n, 0u16), shape: *shape };
        proof {
            assert forall|k: int| 0 <= k < elem_count(shape@) implies !r.bit_at(k) by {
                lemma_element_position(shape@, k);
                lemma_word_bit_zero(lane_index(shape@.last(), k) as u16);
            }
            assert forall|w: int|
                0 <= w < r.words().len() && (w + 1) % (words_per_row(r.spec_cols()) as int)
                    == 0 implies tail_ok(#[trigger] r.words()[w], (r.spec_cols() % 16) as int) by {
                assert forall|i: u16| (r.spec_cols() % 16) as int <= i < 16 implies !word_bit(
                    r.words()[w],
                    i,
                ) by {
                    lemma_word_bit_zero(i);
                }
            }
        }
        r
    }

    /// A mask built from already-packed register words; the tail lanes of
    /// the given words are cleared so the invariant holds whatever they
    /// contained.
    pub fn new_from_data(shape: [usize; D], masks: Vec<u16>) -> (r: Mask<D>)
        requires
            D >= 1,
            size_ok(shape@),
            masks@.len() == word_count(shape@),
        ensures
            r.wf(),
            r.spec_shape() == shape@,
            r@.len() == elem_count(shape@),
            forall|k: int|
                0 <= k < r@.len() ==> r@[k] == word_bit(
                    masks@[word_index(shape@.last(), k)],
                    lane_index(shape@.last(), k) as u16,
                ),
    {
        let mut r = Mask { masks, shape };
        r.zero_out_unused_elements();
        r
    }

    /// The shape this mask was built with.
    pub fn get_shape(&self) -> (r: &[usize; D])
        ensures
            r@ == self.spec_shape(),
    {
        &self.shape
    }

    /// Read-only access to the packed register words.
    pub fn get_masks(&self) -> (r: &Vec<u16>)
        ensures
            r@ == self.words(),
    {
        &self.masks
    }

    /// The invariants hold of every mask the public operations hand out;
    /// calling this puts that fact in front of the verifier as an
    /// obligation on the caller's value.
    pub fn assert_invariants_satisfied(&self)
        requires
            self.wf(),
    {
    }

    /// Clear every lane beyond the row length, in each word that closes a
    /// row.  The logical elements are untouched; afterwards the tail-zero
    /// invariant holds again whatever the words held before.
    pub fn zero_out_unused_elements(&mut self)
        requires
            old(self).len_ok(),
        ensures
            final(self).wf(),
            final(self).spec_shape() == old(self).spec_shape(),
            final(self)@.len() == old(self)@.len(),
            forall|k: int| 0 <= k < final(self)@.len() ==> final(self)@[k] == old(self)@[k],
            forall|k: int|
                0 <= k < elem_count(old(self).spec_shape()) ==> final(self).bit_at(k) == old(
                    self,
                ).bit_at(k),
    {
        let cols = self.shape[D - 1];
        if cols % 16 == 0 {
            return ;
        }
        let shift: u16 = (16 - cols % 16) as u16;
        let keep: u16 = 0xFFFFu16 >> shift;
        let ghost rvalid: u16 = (cols % 16) as u16;
        proof {
            assert(keep == 0xFFFFu16 >> ((16 - rvalid) as u16));
        }
        let wpr = compute_words_per_row(cols);
        let ghost orig = self.masks@;
        let n = self.masks.len();
        let mut w: usize = 0;
        while w < n
            invariant
                0 <= w <= n,
                n == self.masks@.len(),
                self.shape@ == old(self).spec_shape(),
                cols == self.spec_cols(),
                cols % 16 != 0,
                rvalid == (cols % 16) as u16,
                keep == 0xFFFFu16 >> ((16 - rvalid) as u16),
                wpr == words_per_row(cols),
                orig == old(self).words(),
                orig.len() == n,
                forall|j: int|
                    0 <= j < w && (j + 1) % (wpr as int) == 0 ==> #[trigger] self.masks@[j] == (
                    orig[j] & keep),
                forall|j: int|
                    0 <= j < n && !(j < w && (j + 1) % (wpr as int) == 0)
                        ==> #[trigger] self.masks@[j] == orig[j],
            decreases n - w,
        {
            if (w + 1) % wpr == 0 {
                let word = self.masks[w];
                self.masks.set(w, word & keep);
            }
            w += 1;
        }
        proof {
            assert forall|j: int|
                0 <= j < self.words().len() && (j + 1) % (words_per_row(self.spec_cols()) as int)
                    == 0 implies tail_ok(
                #[trigger] self.words()[j],
                (self.spec_cols() % 16) as int,
            ) by {
                assert(self.words()[j] == orig[j] & keep);
                assert forall|i: u16| (self.spec_cols() % 16) as int <= i < 16 implies !word_bit(
                    self.words()[j],
                    i,
                ) by {
                    lemma_word_bit_tail_mask(orig[j], rvalid, i);
                }
            }
            assert forall|k: int| 0 <= k < elem_count(old(self).spec_shape()) implies self.bit_at(
                k,
            ) == old(self).bit_at(k) by {
                lemma_element_position(self.spec_shape(), k);
                let wi = word_index(cols, k);
                if (wi + 1) % (wpr as int) == 0 {
                    lemma_lane_in_tail(cols, k);
                    lemma_word_bit_tail_mask(orig[wi], rvalid, lane_index(cols, k) as u16);
                }
            }
        }
    }
    /// Lane-wise conjunction with an equally shaped mask, as a new mask;
    /// differing shapes are rejected.
    pub fn and(&self, other: &Self) -> (r: Result<Self, Error>)
        requires
            self.wf(),
            other.wf(),
        ensures
            match r {
                Ok(m) => {
                    &&& self.spec_shape() == other.spec_shape()
                    &&& m.wf()
                    &&& m.spec_shape() == self.spec_shape()
                    &&& m@.len() == self@.len()
                    &&& forall|k: int|
                        0 <= k < m@.len() ==> #[trigger] m@[k] == (self@[k] && other@[k])
                },
                Err(e) => self.spec_shape() != other.spec_shape() && is_shape_mismatch(
                    e,
                    self.spec_shape(),
                    other.spec_shape(),
                ),
            },
    {
        let mut m = Mask { masks: copy_vec(&self.masks), shape: self.shape };
        proof {
            assert(m@ =~= self@);
        }
        match m.and_in_place(other) {
            Ok(_) => Ok(m),
            Err(e) => Err(e),
        }
    }

    /// Lane-wise conjunction in place; on a shape mismatch nothing is
    /// changed.
    pub fn and_in_place(&mut self, other: &Self) -> (r: Result<(), Error>)
        requires
            old(self).wf(),
            other.wf(),
        ensures
            final(self).spec_shape() == old(self).spec_shape(),
            match r {
                Ok(_) => {
                    &&& old(self).spec_shape() == other.spec_shape()
                    &&& final(self).wf()
                    &&& final(self)@.len() == old(self)@.len()
                    &&& forall|k: int|
                        0 <= k < final(self)@.len() ==> #[trigger] final(self)@[k] == (old(
                            self,
                        )@[k] && other@[k])
                },
                Err(e) => {
                    &&& old(self).spec_shape() != other.spec_shape()
                    &&& is_shape_mismatch(e, old(self).spec_shape(), other.spec_shape())
                    &&& *final(self) == *old(self)
                },
            },
    {
        if !same_shape(&self.shape, other.get_shape()) {
            return Err(
                Error::ShapeMismatch {
                    expected: shape_vec(&self.shape),
                    actual: shape_vec(other.get_shape()),
                },
            );
        }
        let ghost orig = *self;
        let n = self.masks.len();
        let mut w: usize = 0;
        while w < n
            invariant
                0 <= w <= n,
                n == self.masks@.len(),
                self.shape@ == orig.spec_shape(),
                other.words().len() == n,
                orig.words().len() == n,
                forall|j: int|
                    0 <= j < w ==> #[trigger] self.masks@[j] == (orig.words()[j]
                        & other.words()[j]),
                forall|j: int| w <= j < n ==> #[trigger] self.masks@[j] == orig.words()[j],
            decreases n - w,
        {
            let word = self.masks[w] & other.get_masks()[w];
            self.masks.set(w, word);
            w += 1;
        }
        proof {
            self.lemma_pointwise_and(&orig, other);
        }
        Ok(())
    }

    /// Lane-wise disjunction with an equally shaped mask, as a new mask;
    /// differing shapes are rejected.
    pub fn or(&self, other: &Self) -> (r: Result<Self, Error>)
        requires
            self.wf(),
            other.wf(),
        ensures
            match r {
                Ok(m) => {
                    &&& self.spec_shape() == other.spec_shape()
                    &&& m.wf()
                    &&& m.spec_shape() == self.spec_shape()
                    &&& m@.len() == self@.len()
                    &&& forall|k: int|
                        0 <= k < m@.len() ==> #[trigger] m@[k] == (self@[k] || other@[k])
                },
                Err(e) => self.spec_shape() != other.spec_shape() && is_shape_mismatch(
                    e,
                    self.spec_shape(),
                    other.spec_shape(),
                ),
            },
    {
        let mut m = Mask { masks: copy_vec(&self.masks), shape: self.shape };
        proof {
            assert(m@ =~= self@);
        }
        match m.or_in_place(other) {
            Ok(_) => Ok(m),
            Err(e) => Err(e),
        }
    }

    /// Lane-wise disjunction in place; on a shape mismatch nothing is
    /// changed.
    pub fn or_in_place(&mut self, other: &Self) -> (r: Result<(), Error>)
        requires
            old(self).wf(),
            other.wf(),
        ensures
            final(self).spec_shape() == old(self).spec_shape(),
            match r {
                Ok(_) => {
                    &&& old(self).spec_shape() == other.spec_shape()
                    &&& final(self).wf()
                    &&& final(self)@.len() == old(self)@.len()
                    &&& forall|k: int|
                        0 <= k < final(self)@.len() ==> #[trigger] final(self)@[k] == (old(
                            self,
                        )@[k] || other@[k])
                },
                Err(e) => {
                    &&& old(self).spec_shape() != other.spec_shape()
                    &&& is_shape_mismatch(e, old(self).spec_shape(), other.spec_shape())
                    &&& *final(self) == *old(self)
                },
            },
    {
        if !same_shape(&self.shape, other.get_shape()) {
            return Err(
                Error::ShapeMismatch {
                    expected: shape_vec(&self.shape),
                    actual: shape_vec(other.get_shape()),
                },
            );
        }
        let ghost orig = *self;
        let n = self.masks.len();
        let mut w: usize = 0;
        while w < n
            invariant
                0 <= w <= n,
                n == self.masks@.len(),
                self.shape@ == orig.spec_shape(),
                other.words().len() == n,
                orig.words().len() == n,
                forall|j: int|
                    0 <= j < w ==> #[trigger] self.masks@[j] == (orig.words()[j]
                        | other.words()[j]),
                forall|j: int| w <= j < n ==> #[trigger] self.masks@[j] == orig.words()[j],
            decreases n - w,
        {
            let word = self.masks[w] | other.get_masks()[w];
            self.masks.set(w, word);
            w += 1;
        }
        proof {
            self.lemma_pointwise_or(&orig, other);
        }
        Ok(())
    }

    /// Lane-wise negation as a new mask.  The word-wise complement would
    /// raise the padding bits, so the tails are cleared before the result
    /// is handed out.
    pub fn not(&self) -> (r: Self)
        requires
            self.wf(),
        ensures
            r.wf(),
            r.spec_shape() == self.spec_shape(),
            r@.len() == self@.len(),
            forall|k: int| 0 <= k < r@.len() ==> r@[k] == !self@[k],
    {
        let mut m = Mask { masks: copy_vec(&self.masks), shape: self.shape };
        proof {
            assert(m@ =~= self@);
        }
        m.not_in_place();
        m
    }

    /// Lane-wise negation in place, re-clearing the tails afterwards.
    pub fn not_in_place(&mut self)
        requires
            old(self).wf(),
        ensures
            final(self).wf(),
            final(self).spec_shape() == old(self).spec_shape(),
            final(self)@.len() == old(self)@.len(),
            forall|k: int| 0 <= k < final(self)@.len() ==> final(self)@[k] == !old(self)@[k],
    {
        let ghost orig = *self;
        let n = self.masks.len();
        let mut w: usize = 0;
        while w < n
            invariant
                0 <= w <= n,
                n == self.masks@.len(),
                self.shape@ == orig.spec_shape(),
                orig.words().len() == n,
                forall|j: int| 0 <= j < w ==> #[trigger] self.masks@[j] == !orig.words()[j],
                forall|j: int| w <= j < n ==> #[trigger] self.masks@[j] == orig.words()[j],
            decreases n - w,
        {
            let word = !self.masks[w];
            self.masks.set(w, word);
            w += 1;
        }
        proof {
            assert forall|k: int| 0 <= k < elem_count(orig.spec_shape()) implies self.bit_at(k)
                == !orig.bit_at(k) by {
                lemma_element_position(orig.spec_shape(), k);
                lemma_word_bit_not(
                    orig.words()[word_index(orig.spec_cols(), k)],
                    lane_index(orig.spec_cols(), k) as u16,
                );
            }
        }
        self.zero_out_unused_elements();
    }

    /// Overwrite this mask with an equally shaped one; on a shape mismatch
    /// nothing is changed.
    pub fn copy(&mut self, other: &Self) -> (r: Result<(), Error>)
        requires
            old(self).wf(),
            other.wf(),
        ensures
            final(self).spec_shape() == old(self).spec_shape(),
            match r {
                Ok(_) => {
                    &&& old(self).spec_shape() == other.spec_shape()
                    &&& final(self).wf()
                    &&& final(self)@ == other@
                },
                Err(e) => {
                    &&& old(self).spec_shape() != other.spec_shape()
                    &&& is_shape_mismatch(e, old(self).spec_shape(), other.spec_shape())
                    &&& *final(self) == *old(self)
                },
            },
    {
        if !same_shape(&self.shape, other.get_shape()) {
            return Err(
                Error::ShapeMismatch {
                    expected: shape_vec(&self.shape),
                    actual: shape_vec(other.get_shape()),
                },
            );
        }
        self.masks = copy_vec(&other.masks);
        proof {
            assert(self@ =~= other@);
        }
        Ok(())
    }

    /// Word-wise conjunction gives lane-wise conjunction of the flattened
    /// values, and keeps the tails clear.
    proof fn lemma_pointwise_and(&self, a: &Self, b: &Self)
        requires
            a.wf(),
            b.wf(),
            a.spec_shape() == b.spec_shape(),
            self.spec_shape() == a.spec_shape(),
            self.words().len() == a.words().len(),
            forall|j: int|
                0 <= j < self.words().len() ==> #[trigger] self.words()[j] == (a.words()[j]
                    & b.words()[j]),
        ensures
            self.wf(),
            forall|k: int|
                0 <= k < elem_count(self.spec_shape()) ==> #[trigger] self.bit_at(k) == (a.bit_at(k)
                    && b.bit_at(k)),
    {
        assert forall|k: int| 0 <= k < elem_count(self.spec_shape()) implies #[trigger] self.bit_at(
            k,
        ) == (a.bit_at(k) && b.bit_at(k)) by {
            lemma_element_position(self.spec_shape(), k);
            lemma_word_bit_and(
                a.words()[word_index(self.spec_cols(), k)],
                b.words()[word_index(self.spec_cols(), k)],
                lane_index(self.spec_cols(), k) as u16,
            );
        }
        if self.spec_cols() % 16 != 0 {
            assert forall|w: int|
                0 <= w < self.words().len() && (w + 1) % (words_per_row(self.spec_cols()) as int)
                    == 0 implies tail_ok(
                #[trigger] self.words()[w],
                (self.spec_cols() % 16) as int,
            ) by {
                assert forall|i: u16| (self.spec_cols() % 16) as int <= i < 16 implies !word_bit(
                    self.words()[w],
                    i,
                ) by {
                    lemma_word_bit_and(a.words()[w], b.words()[w], i);
                }
            }
        }
    }

    /// Word-wise disjunction gives lane-wise disjunction of the flattened
    /// values, and keeps the tails clear.
    proof fn lemma_pointwise_or(&self, a: &Self, b: &Self)
        requires
            a.wf(),
            b.wf(),
            a.spec_shape() == b.spec_shape(),
            self.spec_shape() == a.spec_shape(),
            self.words().len() == a.words().len(),
            forall|j: int|
                0 <= j < self.words().len() ==> #[trigger] self.words()[j] == (a.words()[j]
                    | b.words()[j]),
        ensures
            self.wf(),
            forall|k: int|
                0 <= k < elem_count(self.spec_shape()) ==> #[trigger] self.bit_at(k) == (a.bit_at(k)
                    || b.bit_at(k)),
    {
        assert forall|k: int| 0 <= k < elem_count(self.spec_shape()) implies #[trigger] self.bit_at(
            k,
        ) == (a.bit_at(k) || b.bit_at(k)) by {
            lemma_element_position(self.spec_shape(), k);
            lemma_word_bit_or(
                a.words()[word_index(self.spec_cols(), k)],
                b.words()[word_index(self.spec_cols(), k)],
                lane_index(self.spec_cols(), k) as u16,
            );
        }
        if self.spec_cols() % 16 != 0 {
            assert forall|w: int|
                0 <= w < self.words().len() && (w + 1) % (words_per_row(self.spec_cols()) as int)
                    == 0 implies tail_ok(
                #[trigger] self.words()[w],
                (self.spec_cols() % 16) as int,
            ) by {
                assert forall|i: u16| (self.spec_cols() % 16) as int <= i < 16 implies !word_bit(
                    self.words()[w],
                    i,
                ) by {
                    lemma_word_bit_or(a.words()[w], b.words()[w], i);
                }
            }
        }
    }
}

/// A handle for arbitrary per-word mutation of a mask's packed registers.
/// Taking it moves the words out of their mask, which is left empty and
/// unusable; the one way back is `Mask::restore_masks`, which re-applies
/// the tail-clearing pass before the words can be read again.  However
/// control leaves the mutation scope, no mask violating the tail-zero
/// invariant can be observed.
pub struct MutableMasks<const D: usize> {
    words: Vec<u16>,
}

impl<const D: usize> MutableMasks<D> {
    /// The register words under mutation.
    pub closed spec fn spec_words(&self) -> Seq<u16> {
        self.words@
    }

    /// How many register words the handle holds.
    pub fn word_count(&self) -> (n: usize)
        ensures
            n == self.spec_words().len(),
    {
        self.words.len()
    }

    /// Read one register word.
    pub fn get_word(&self, i: usize) -> (w: u16)
        requires
            i < self.spec_words().len(),
        ensures
            w == self.spec_words()[i as int],
    {
        self.words[i]
    }

    /// Overwrite one register word with an arbitrary bit pattern.
    pub fn set_word(&mut self, i: usize, w: u16)
        requires
            i < old(self).spec_words().len(),
        ensures
            final(self).spec_words() == old(self).spec_words().update(i as int, w),
    {
        self.words.set(i, w);
    }
}

impl<const D: usize> Mask<D> {
    /// Take the register words out for arbitrary mutation through the
    /// returned handle.  Until `restore_masks` puts them back, this mask
    /// holds no words and satisfies no invariant, so no operation accepts
    /// it.
    pub fn get_masks_mut(&mut self) -> (g: MutableMasks<D>)
        requires
            old(self).len_ok(),
        ensures
            g.spec_words() == old(self).words(),
            final(self).spec_shape() == old(self).spec_shape(),
            final(self).words().len() == 0,
    {
        let mut words: Vec<u16> = Vec::new();
        core::mem::swap(&mut self.masks, &mut words);
        MutableMasks { words }
    }

    /// Put mutated register words back, clearing every tail lane exactly
    /// once so the tail-zero invariant holds whatever was written.
    pub fn restore_masks(&mut self, g: MutableMasks<D>)
        requires
            D >= 1,
            old(self).spec_shape().len() == D,
            crate::layout::size_ok(old(self).spec_shape()),
            g.spec_words().len() == word_count(old(self).spec_shape()),
        ensures
            final(self).wf(),
            final(self).spec_shape() == old(self).spec_shape(),
            final(self)@.len() == elem_count(old(self).spec_shape()),
            forall|k: int|
                0 <= k < final(self)@.len() ==> final(self)@[k] == word_bit(
                    g.spec_words()[word_index(old(self).spec_shape().last(), k)],
                    lane_index(old(self).spec_shape().last(), k) as u16,
                ),
    {
        let MutableMasks { words } = g;
        self.masks = words;
        self.zero_out_unused_elements();
    }
}

/// Truth value of logical element `k` in a packed word sequence whose rows
/// are `cols` long.
spec fn packed_bit(words: Seq<u16>, cols: usize, k: int) -> bool {
    word_bit(words[word_index(cols, k)], lane_index(cols, k) as u16)
}

/// The word whose every lane carries lane `s % 16` of `words[s / 16]`.
spec fn spread_word(words: Seq<u16>, s: int) -> u16 {
    (((words[s / 16] >> ((s % 16) as u16)) & 1) * 0xFFFF) as u16
}

impl<const D: usize> Mask<D> {
    /// The flat row-major sequence of truth values, with the padding
    /// dropped.
    pub fn to_flat(&self) -> (r: Vec<bool>)
        requires
            self.wf(),
        ensures
            r@ == self@,
    {
        let total = crate::layout::compute_elem_count(&self.shape);
        let cols = self.shape[D - 1];
        let wpr = compute_words_per_row(cols);
        let mut out: Vec<bool> = Vec::new();
        let mut k: usize = 0;
        while k < total
            invariant
                self.wf(),
                0 <= k <= total,
                total == elem_count(self.spec_shape()),
                cols == self.spec_cols(),
                wpr == words_per_row(cols),
                out@.len() == k,
                forall|j: int| 0 <= j < k ==> out@[j] == self.bit_at(j),
            decreases total - k,
        {
            proof {
                if cols == 0 {
                    crate::layout::lemma_prod_prefix_zero(
                        self.spec_shape(),
                        self.spec_shape().len() as int,
                    );
                    crate::layout::lemma_elem_count_rows(self.spec_shape());
                    assert(row_count(self.spec_shape()) * 0 == 0) by (nonlinear_arith);
                }
                lemma_element_position(self.spec_shape(), k as int);
            }
            let row = k / cols;
            let c = k % cols;
            let w = self.masks[row * wpr + c / 16];
            let b = (w & (1u16 << ((c % 16) as u16))) > 0;
            proof {
                lemma_word_bit_test(w, (c % 16) as u16);
            }
            out.push(b);
            k += 1;
        }
        proof {
            assert(out@ =~= self@);
        }
        out
    }

    /// Pack a flat row-major sequence of truth values into register words.
    fn pack_from_flat(data: &Vec<bool>, shape: [usize; D]) -> (r: Mask<D>)
        requires
            D >= 1,
            size_ok(shape@),
            data@.len() == elem_count(shape@),
        ensures
            r.wf(),
            r.spec_shape() == shape@,
            r@ == data@,
    {
        let total = data.len();
        let wc = compute_word_count(&shape);
        let cols = shape[D - 1];
        let wpr = compute_words_per_row(cols);
        let mut masks = filled(wc, 0u16);
        proof {
            assert forall|j: int| 0 <= j < total implies !packed_bit(masks@, cols, j) by {
                lemma_element_position(shape@, j);
                lemma_word_bit_zero(lane_index(cols, j) as u16);
            }
            if cols % 16 != 0 {
                assert forall|x: int|
                    0 <= x < wc && (x + 1) % (wpr as int) == 0 implies tail_ok(
                    #[trigger] masks@[x],
                    (cols % 16) as int,
                ) by {
                    assert forall|i: u16| (cols % 16) as int <= i < 16 implies !word_bit(
                        masks@[x],
                        i,
                    ) by {
                        lemma_word_bit_zero(i);
                    }
                }
            }
        }
        let mut k: usize = 0;
        while k < total
            invariant
                0 <= k <= total,
                D >= 1,
                size_ok(shape@),
                total == elem_count(shape@),
                total == data@.len(),
                cols == shape@.last(),
                wpr == words_per_row(cols),
                wc == word_count(shape@),
                masks@.len() == wc,
                forall|j: int| 0 <= j < k ==> packed_bit(masks@, cols, j) == data@[j],
                forall|j: int| k <= j < total ==> !packed_bit(masks@, cols, j),
                cols % 16 == 0 || (forall|x: int|
                    0 <= x < wc && (x + 1) % (wpr as int) == 0 ==> tail_ok(
                        #[trigger] masks@[x],
                        (cols % 16) as int,
                    )),
            decreases total - k,
        {
            proof {
                if cols == 0 {
                    crate::layout::lemma_prod_prefix_zero(shape@, shape@.len() as int);
                    crate::layout::lemma_elem_count_rows(shape@);
                    assert(row_count(shape@) * 0 == 0) by (nonlinear_arith);
                }
                lemma_element_position(shape@, k as int);
            }
            if data[k] {
                let row = k / cols;
                let c = k % cols;
                let x = row * wpr + c / 16;
                let ghost before = masks@;
                let word = masks[x];
                let lane = (c % 16) as u16;
                masks.set(x, word | (1u16 << lane));
                proof {
                    let ghost ki = k as int;
                    lemma_word_bit_set(word, lane, lane);
                    assert(packed_bit(masks@, cols, ki) == data@[ki]);
                    assert forall|j: int| 0 <= j < total && j != ki implies packed_bit(
                        masks@,
                        cols,
                        j,
                    ) == packed_bit(before, cols, j) by {
                        lemma_element_position(shape@, j);
                        if word_index(cols, j) == x as int {
                            if lane_index(cols, j) == lane_index(cols, ki) {
                                crate::layout::lemma_position_unique(cols, j, ki);
                            }
                            lemma_word_bit_set(word, lane, lane_index(cols, j) as u16);
                        }
                    }
                    assert forall|j: int| k + 1 <= j < total implies !packed_bit(
                        masks@,
                        cols,
                        j,
                    ) by {
                        assert(packed_bit(masks@, cols, j) == packed_bit(before, cols, j));
                    }
                    if cols % 16 != 0 {
                        assert forall|y: int|
                            0 <= y < wc && (y + 1) % (wpr as int) == 0 implies tail_ok(
                            #[trigger] masks@[y],
                            (cols % 16) as int,
                        ) by {
                            if y == x as int {
                                lemma_lane_in_tail(cols, ki);
                                assert forall|i: u16| (cols % 16) as int <= i < 16 implies !word_bit(
                                    masks@[y],
                                    i,
                                ) by {
                                    lemma_word_bit_set(word, lane, i);
                                }
                            }
                        }
                    }
                }
            }
            k += 1;
        }
        let r = Mask { masks, shape };
        proof {
            assert(r@ =~= data@);
        }
        r
    }
}

impl Mask<1> {
    /// A rank-1 mask packed from a flat sequence of truth values; its shape
    /// is the sequence's length.
    pub fn from_flat(data: &Vec<bool>) -> (r: Mask<1>)
        requires
            data@.len() + 15 <= usize::MAX,
        ensures
            r.wf(),
            r.spec_shape().len() == 1,
            r.spec_shape()[0] == data@.len(),
            r@ == data@,
    {
        let len = data.len();
        let shape: [usize; 1] = [len];
        proof {
            crate::layout::lemma_counts_1d(shape@);
            crate::layout::lemma_cols_le_words(len);
        }
        Mask::<1>::pack_from_flat(data, shape)
    }
}

impl Mask<2> {
    /// A rank-2 mask packed row-major from a flat sequence of truth values.
    pub fn from_vec(data: &Vec<bool>, shape: [usize; 2]) -> (r: Self)
        requires
            shape@[0] > 0,
            shape@[1] > 0,
            data@.len() == shape@[0] * shape@[1],
            size_ok(shape@),
        ensures
            r.wf(),
            r.spec_shape() == shape@,
            r@ == data@,
    {
        proof {
            crate::layout::lemma_counts_2d(shape@);
        }
        Mask::<2>::pack_from_flat(data, shape)
    }
}

impl Mask<1> {
    /// Copy the whole mask `k` times end to end into `output`.  The number
    /// of elements must be a multiple of 16, so whole registers repeat;
    /// `output` must hold exactly `k` copies or the call is rejected.
    pub fn tile_in_place(&self, k: usize, output: &mut Mask<1>) -> (r: Result<(), Error>)
        requires
            self.wf(),
            old(output).wf(),
            self.spec_shape()[0] % 16 == 0,
            self.spec_shape()[0] * k <= usize::MAX,
        ensures
            final(output).spec_shape() == old(output).spec_shape(),
            match r {
                Ok(_) => {
                    &&& old(output).spec_shape()[0] == self.spec_shape()[0] * k
                    &&& final(output).wf()
                    &&& final(output)@.len() == self@.len() * k
                    &&& forall|i: int|
                        0 <= i < final(output)@.len() ==> #[trigger] final(output)@[i] == self@[i
                            % (self.spec_shape()[0] as int)]
                },
                Err(e) => {
                    &&& old(output).spec_shape()[0] != self.spec_shape()[0] * k
                    &&& is_shape_mismatch(
                        e,
                        seq![(self.spec_shape()[0] * k) as usize],
                        old(output).spec_shape(),
                    )
                    &&& *final(output) == *old(output)
                },
            },
    {
        let n = self.shape[0];
        let total = n * k;
        if output.shape[0] != total {
            let mut expected: Vec<usize> = Vec::new();
            expected.push(total);
            proof {
                assert(expected@ =~= seq![total]);
            }
            return Err(Error::ShapeMismatch { expected, actual: shape_vec(&output.shape) });
        }
        proof {
            crate::layout::lemma_counts_1d(self.spec_shape());
            crate::layout::lemma_counts_1d(output.spec_shape());
        }
        let sw = self.masks.len();
        let ow = output.masks.len();
        let ghost oshape = output.spec_shape();
        let mut w: usize = 0;
        while w < ow
            invariant
                0 <= w <= ow,
                self.wf(),
                n == self.spec_shape()[0],
                n % 16 == 0,
                sw == self.words().len(),
                sw == words_per_row(n),
                output.spec_shape() == oshape,
                oshape.len() == 1,
                oshape[0] == total,
                total == n * k,
                ow == output.masks@.len(),
                ow == words_per_row(total),
                forall|j: int|
                    0 <= j < w ==> #[trigger] output.masks@[j] == self.words()[j % (sw as int)],
            decreases ow - w,
        {
            proof {
                assert(total > 0) by {
                    if total == 0 {
                        assert(words_per_row(0usize) == 0);
                    }
                }
                assert(n > 0) by (nonlinear_arith)
                    requires n * k > 0;
                assert(sw >= 1) by {
                    crate::layout::lemma_cols_le_words(n);
                }
            }
            let word = self.masks[w % sw];
            output.masks.set(w, word);
            w += 1;
        }
        proof {
            assert(n == 16 * (sw as int)) by (nonlinear_arith)
                requires
                    n % 16 == 0,
                    sw == (n + 15) / 16,
            ;
            assert(total == ((sw as int) * (k as int)) * 16) by (nonlinear_arith)
                requires
                    total == n * k,
                    n == 16 * (sw as int),
            ;
            vstd::arithmetic::div_mod::lemma_mod_multiples_basic((sw as int) * (k as int), 16);
            assert forall|i: int| 0 <= i < elem_count(oshape) implies #[trigger] output.bit_at(i)
                == self@[i % (n as int)] by {
                crate::layout::lemma_position_1d(total, i);
                lemma_element_position(oshape, i);
                if sw as int > 0 {
                    vstd::arithmetic::div_mod::lemma_mod_bound(i, n as int);
                    vstd::arithmetic::div_mod::lemma_mod_breakdown(i, 16, sw as int);
                    vstd::arithmetic::div_mod::lemma_mod_bound(i, 16);
                    vstd::arithmetic::div_mod::lemma_div_pos_is_pos(i, 16);
                    vstd::arithmetic::div_mod::lemma_mod_bound(i / 16, sw as int);
                    vstd::arithmetic::div_mod::lemma_div_multiples_vanish_fancy(
                        (i / 16) % (sw as int),
                        i % 16,
                        16,
                    );
                    vstd::arithmetic::div_mod::lemma_mod_multiples_vanish(
                        (i / 16) % (sw as int),
                        i % 16,
                        16,
                    );
                    vstd::arithmetic::div_mod::lemma_small_mod((i % 16) as nat, 16);
                    assert(i % (n as int) == 16 * ((i / 16) % (sw as int)) + i % 16);
                    vstd::arithmetic::div_mod::lemma_mod_bound(i, n as int);
                    crate::layout::lemma_position_1d(n, i % (n as int));
                }
            }
        }
        Ok(())
    }

    /// Repeat this row as each of the `k` rows of the rank-2 `output`; the
    /// output shape must be `[k, len]` or the call is rejected.
    pub fn repeat_as_row_in_place(&self, k: usize, output: &mut Mask<2>) -> (r: Result<(), Error>)
        requires
            self.wf(),
            old(output).wf(),
        ensures
            final(output).spec_shape() == old(output).spec_shape(),
            match r {
                Ok(_) => {
                    &&& old(output).spec_shape() =~= seq![k, self.spec_shape()[0]]
                    &&& final(output).wf()
                    &&& final(output)@.len() == (k as nat) * self@.len()
                    &&& forall|i: int|
                        0 <= i < final(output)@.len() ==> #[trigger] final(output)@[i] == self@[i
                            % (self.spec_shape()[0] as int)]
                },
                Err(e) => {
                    &&& !(old(output).spec_shape() =~= seq![k, self.spec_shape()[0]])
                    &&& is_shape_mismatch(
                        e,
                        seq![k, self.spec_shape()[0]],
                        old(output).spec_shape(),
                    )
                    &&& *final(output) == *old(output)
                },
            },
    {
        let n = self.shape[0];
        if output.shape[0] != k || output.shape[1] != n {
            let mut expected: Vec<usize> = Vec::new();
            expected.push(k);
            expected.push(n);
            proof {
                assert(expected@ =~= seq![k, n]);
                assert(!(output.spec_shape() =~= seq![k, n]));
            }
            return Err(Error::ShapeMismatch { expected, actual: shape_vec(&output.shape) });
        }
        proof {
            assert(output.spec_shape() =~= seq![k, n]);
            crate::layout::lemma_counts_1d(self.spec_shape());
            crate::layout::lemma_counts_2d(output.spec_shape());
        }
        let sw = self.masks.len();
        let ow = output.masks.len();
        let ghost oshape = output.spec_shape();
        let mut w: usize = 0;
        while w < ow
            invariant
                0 <= w <= ow,
                self.wf(),
                n == self.spec_shape()[0],
                sw == self.words().len(),
                sw == words_per_row(n),
                output.spec_shape() == oshape,
                oshape.len() == 2,
                oshape[0] == k,
                oshape[1] == n,
                ow == output.masks@.len(),
                ow == (k as nat) * words_per_row(n),
                forall|j: int|
                    0 <= j < w ==> #[trigger] output.masks@[j] == self.words()[j % (sw as int)],
            decreases ow - w,
        {
            proof {
                assert(sw > 0) by (nonlinear_arith)
                    requires
                        ow == (k as nat) * (sw as nat),
                        ow > 0,
                ;
            }
            let word = self.masks[w % sw];
            output.masks.set(w, word);
            w += 1;
        }
        proof {
            assert forall|i: int| 0 <= i < elem_count(oshape) implies #[trigger] output.bit_at(i)
                == self@[i % (n as int)] by {
                assert(n > 0) by (nonlinear_arith)
                    requires (k as nat) * (n as nat) > 0;
                crate::layout::lemma_cols_le_words(n);
                lemma_element_position(oshape, i);
                let c = i % (n as int);
                let row = i / (n as int);
                vstd::arithmetic::div_mod::lemma_mod_bound(i, n as int);
                vstd::arithmetic::div_mod::lemma_div_pos_is_pos(i, n as int);
                vstd::arithmetic::div_mod::lemma_fundamental_div_mod(c, 16);
                vstd::arithmetic::div_mod::lemma_mod_bound(c, 16);
                vstd::arithmetic::div_mod::lemma_div_pos_is_pos(c, 16);
                vstd::arithmetic::mul::lemma_mul_is_commutative(row, sw as int);
                vstd::arithmetic::div_mod::lemma_mod_multiples_vanish(row, c / 16, sw as int);
                vstd::arithmetic::div_mod::lemma_small_mod((c / 16) as nat, sw as nat);
                assert((row * (sw as int) + c / 16) % (sw as int) == c / 16);
                crate::layout::lemma_position_1d(n, c);
            }
            if n % 16 != 0 {
            assert forall|x: int|
                0 <= x < ow && (x + 1) % (words_per_row(oshape.last()) as int) == 0 implies tail_ok(
                #[trigger] output.words()[x],
                (oshape.last() % 16) as int,
            ) by {
                assert(sw > 0) by (nonlinear_arith)
                    requires
                        ow == (k as nat) * (sw as nat),
                        ow > x >= 0,
                ;
                vstd::arithmetic::div_mod::lemma_mod_bound(x, sw as int);
                vstd::arithmetic::div_mod::lemma_fundamental_div_mod(x, sw as int);
                assert((x % (sw as int) + 1) % (sw as int) == 0) by {
                    vstd::arithmetic::div_mod::lemma_mod_multiples_vanish(
                        x / (sw as int),
                        x % (sw as int) + 1,
                        sw as int,
                    );
                    assert(x + 1 == (sw as int) * (x / (sw as int)) + (x % (sw as int) + 1));
                }
                assert(output.words()[x] == self.words()[x % (sw as int)]);
            }
            }
        }
        Ok(())
    }

    /// Repeat each element of the mask `k` times in a row and store the
    /// result in `output`, whose length must be `k` times this mask's.
    /// Both the length and `k` must be multiples of 16, so the result is
    /// built from whole broadcast registers.
    pub fn repeat_in_place(&self, k: usize, output: &mut Mask<1>) -> (r: Result<(), Error>)
        requires
            self.wf(),
            old(output).wf(),
            self.spec_shape()[0] % 16 == 0,
            k % 16 == 0,
            self.spec_shape()[0] * k <= usize::MAX,
        ensures
            final(output).spec_shape() == old(output).spec_shape(),
            match r {
                Ok(_) => {
                    &&& old(output).spec_shape()[0] == self.spec_shape()[0] * k
                    &&& final(output).wf()
                    &&& final(output)@.len() == self@.len() * k
                    &&& forall|i: int|
                        0 <= i < final(output)@.len() ==> #[trigger] final(output)@[i] == self@[i
                            / (k as int)]
                },
                Err(e) => {
                    &&& old(output).spec_shape()[0] != self.spec_shape()[0] * k
                    &&& is_shape_mismatch(
                        e,
                        seq![(self.spec_shape()[0] * k) as usize],
                        old(output).spec_shape(),
                    )
                    &&& *final(output) == *old(output)
                },
            },
    {
        let n = self.shape[0];
        let total = n * k;
        if output.shape[0] != total {
            let mut expected: Vec<usize> = Vec::new();
            expected.push(total);
            proof {
                assert(expected@ =~= seq![total]);
            }
            return Err(Error::ShapeMismatch { expected, actual: shape_vec(&output.shape) });
        }
        proof {
            crate::layout::lemma_counts_1d(self.spec_shape());
            crate::layout::lemma_counts_1d(output.spec_shape());
        }
        let kd16 = k / 16;
        let sw = self.masks.len();
        let ow = output.masks.len();
        let ghost oshape = output.spec_shape();
        proof {
            vstd::arithmetic::div_mod::lemma_fundamental_div_mod(k as int, 16);
            assert(k == 16 * (kd16 as int));
            vstd::arithmetic::div_mod::lemma_fundamental_div_mod(n as int, 16);
            vstd::arithmetic::div_mod::lemma_div_multiples_vanish_fancy(n as int / 16, 15, 16);
            assert((n as int) + 15 == 16 * (n as int / 16) + 15);
            assert(sw as int == n as int / 16);
            assert((n as int) == 16 * (sw as int));
            assert((total as int) == 16 * (16 * ((sw as int) * (kd16 as int))))
                by (nonlinear_arith)
                requires
                    total == n * k,
                    (n as int) == 16 * (sw as int),
                    k == 16 * (kd16 as int),
            ;
            let ghost m = 16 * ((sw as int) * (kd16 as int));
            vstd::arithmetic::div_mod::lemma_div_multiples_vanish_fancy(m, 15, 16);
            assert((total as int) + 15 == 16 * m + 15);
            assert(ow as int == m);
            assert((total as int) == 16 * (ow as int));
        }
        let mut index: usize = 0;
        proof {
            assert(0int * 16 * (kd16 as int) == 0) by (nonlinear_arith);
        }
        let mut i: usize = 0;
        while i < sw
            invariant
                0 <= i <= sw,
                self.wf(),
                n == self.spec_shape()[0],
                sw == self.words().len(),
                output.spec_shape() == oshape,
                oshape.len() == 1,
                oshape[0] == total,
                ow == output.masks@.len(),
                kd16 == k / 16,
                k == 16 * (kd16 as int),
                (ow as int) == 16 * ((sw as int) * (kd16 as int)),
                index == (i as int) * 16 * (kd16 as int),
                index <= ow,
                forall|x: int|
                    0 <= x < index ==> #[trigger] output.masks@[x] == spread_word(
                        self.words(),
                        x / (kd16 as int),
                    ),
            decreases sw - i,
        {
            let word = self.masks[i];
            let mut j: usize = 0;
            while j < 16
                invariant
                    0 <= j <= 16,
                    0 <= i < sw,
                    self.wf(),
                    sw == self.words().len(),
                    word == self.words()[i as int],
                    output.spec_shape() == oshape,
                    ow == output.masks@.len(),
                    kd16 == k / 16,
                    k == 16 * (kd16 as int),
                    (ow as int) == 16 * ((sw as int) * (kd16 as int)),
                    index == ((i as int) * 16 + j) * (kd16 as int),
                    index <= ow,
                    forall|x: int|
                        0 <= x < index ==> #[trigger] output.masks@[x] == spread_word(
                            self.words(),
                            x / (kd16 as int),
                        ),
                decreases 16 - j,
            {
                proof {
                    crate::bits::lemma_lane_extract_le_one(word, j as u16);
                    crate::layout::lemma_row_major(16, i as int, j as int);
                    assert(((i as int) * 16 + j + 1) * (kd16 as int) <= 16 * ((sw as int) * (
                    kd16 as int))) by (nonlinear_arith)
                        requires
                            0 <= i < sw,
                            0 <= j < 16,
                    ;
                }
                let new_mask = ((word >> (j as u16)) & 1) * 0xFFFF;
                let mut t: usize = 0;
                while t < kd16
                    invariant
                        0 <= t <= kd16,
                        0 <= i < sw,
                        sw == self.words().len(),
                        word == self.words()[i as int],
                        new_mask == spread_word(self.words(), (i as int) * 16 + j),
                        0 <= j < 16,
                        output.spec_shape() == oshape,
                        ow == output.masks@.len(),
                        index == ((i as int) * 16 + j) * (kd16 as int) + t,
                        ((i as int) * 16 + j + 1) * (kd16 as int) <= ow,
                        forall|x: int|
                            0 <= x < index ==> #[trigger] output.masks@[x] == spread_word(
                                self.words(),
                                x / (kd16 as int),
                            ),
                    decreases kd16 - t,
                {
                    proof {
                        assert(((i as int) * 16 + j + 1) * (kd16 as int) == ((i as int) * 16 + j)
                            * (kd16 as int) + (kd16 as int)) by (nonlinear_arith);
                    }
                    output.masks.set(index, new_mask);
                    proof {
                        vstd::arithmetic::div_mod::lemma_div_multiples_vanish_fancy(
                            (i as int) * 16 + j,
                            t as int,
                            kd16 as int,
                        );
                        vstd::arithmetic::mul::lemma_mul_is_commutative(
                            (i as int) * 16 + j,
                            kd16 as int,
                        );
                        assert(output.masks@[index as int] == spread_word(
                            self.words(),
                            (index as int) / (kd16 as int),
                        ));
                    }
                    index += 1;
                    t += 1;
                }
                j += 1;
                proof {
                    assert(((i as int) * 16 + (j - 1)) * (kd16 as int) + kd16 == ((i as int) * 16
                        + j) * (kd16 as int)) by (nonlinear_arith);
                }
            }
            i += 1;
            proof {
                assert(((i - 1) as int * 16 + 16) * (kd16 as int) == (i as int) * 16 * (
                kd16 as int)) by (nonlinear_arith);
                assert((i as int) * 16 * (kd16 as int) <= 16 * ((sw as int) * (kd16 as int)))
                    by (nonlinear_arith)
                    requires 0 <= i <= sw;
            }
        }
        proof {
            assert(index == ow) by (nonlinear_arith)
                requires
                    index == (sw as int) * 16 * (kd16 as int),
                    (ow as int) == 16 * ((sw as int) * (kd16 as int)),
            ;
            vstd::arithmetic::div_mod::lemma_mod_multiples_basic((ow as int), 16);
            assert((total as int) == (ow as int) * 16) by (nonlinear_arith)
                requires (total as int) == 16 * (ow as int);
            assert forall|e: int| 0 <= e < elem_count(oshape) implies #[trigger] output.bit_at(e)
                == self@[e / (k as int)] by {
                crate::layout::lemma_position_1d(total, e);
                lemma_element_position(oshape, e);
                assert(kd16 as int > 0) by (nonlinear_arith)
                    requires
                        (total as int) == 16 * (16 * ((sw as int) * (kd16 as int))),
                        0 <= e < total,
                ;
                let s = (e / 16) / (kd16 as int);
                vstd::arithmetic::div_mod::lemma_div_pos_is_pos(e, 16);
                vstd::arithmetic::div_mod::lemma_div_denominator(e, 16, kd16 as int);
                assert(s == e / (16 * (kd16 as int)));
                assert(output.masks@[e / 16] == spread_word(self.words(), s));
                vstd::arithmetic::div_mod::lemma_div_pos_is_pos(e / 16, kd16 as int);
                vstd::arithmetic::div_mod::lemma_mod_bound(s, 16);
                vstd::arithmetic::div_mod::lemma_div_pos_is_pos(s, 16);
                crate::bits::lemma_word_bit_spread(
                    self.words()[s / 16],
                    (s % 16) as u16,
                    (e % 16) as u16,
                );
                assert(s < n) by (nonlinear_arith)
                    requires
                        0 <= e < total,
                        total == n * k,
                        k == 16 * (kd16 as int),
                        s == e / (16 * (kd16 as int)),
                        (n as int) == 16 * (sw as int),
                ;
                crate::layout::lemma_position_1d(n, s);
            }
        }
        Ok(())
    }

    /// Repeat this mask as each of the `k` columns of the rank-2 `output`:
    /// element `(r, c)` of the output is element `r` of this mask.  The
    /// output shape must be `[len, k]` or the call is rejected.
    pub fn repeat_as_column_in_place(&self, k: usize, output: &mut Mask<2>) -> (r: Result<
        (),
        Error,
    >)
        requires
            self.wf(),
            old(output).wf(),
        ensures
            final(output).spec_shape() == old(output).spec_shape(),
            match r {
                Ok(_) => {
                    &&& old(output).spec_shape() =~= seq![self.spec_shape()[0], k]
                    &&& final(output).wf()
                    &&& final(output)@.len() == self@.len() * (k as nat)
                    &&& forall|e: int|
                        0 <= e < final(output)@.len() ==> #[trigger] final(output)@[e] == self@[e
                            / (k as int)]
                },
                Err(e) => {
                    &&& !(old(output).spec_shape() =~= seq![self.spec_shape()[0], k])
                    &&& is_shape_mismatch(
                        e,
                        seq![self.spec_shape()[0], k],
                        old(output).spec_shape(),
                    )
                    &&& *final(output) == *old(output)
                },
            },
    {
        let n = self.shape[0];
        if output.shape[0] != n || output.shape[1] != k {
            let mut expected: Vec<usize> = Vec::new();
            expected.push(n);
            expected.push(k);
            proof {
                assert(expected@ =~= seq![n, k]);
                assert(!(output.spec_shape() =~= seq![n, k]));
            }
            return Err(Error::ShapeMismatch { expected, actual: shape_vec(&output.shape) });
        }
        proof {
            assert(output.spec_shape() =~= seq![n, k]);
            crate::layout::lemma_counts_1d(self.spec_shape());
            crate::layout::lemma_counts_2d(output.spec_shape());
        }
        let wpr = compute_words_per_row(k);
        let ow = output.masks.len();
        let ghost oshape = output.spec_shape();
        let mut i: usize = 0;
        while i < n
            invariant
                0 <= i <= n,
                self.wf(),
                n == self.spec_shape()[0],
                n == elem_count(self.spec_shape()),
                output.spec_shape() == oshape,
                oshape.len() == 2,
                oshape[0] == n,
                oshape[1] == k,
                wpr == words_per_row(k),
                ow == output.masks@.len(),
                ow == (n as nat) * (wpr as nat),
                forall|x: int|
                    0 <= x < (i as int) * (wpr as int) ==> #[trigger] output.masks@[x] == (if self
                        .bit_at(x / (wpr as int)) {
                        0xFFFFu16
                    } else {
                        0u16
                    }),
            decreases n - i,
        {
            proof {
                crate::layout::lemma_position_1d(n, i as int);
                lemma_element_position(self.spec_shape(), i as int);
            }
            let word = self.masks[i / 16];
            let b = (word & (1u16 << ((i % 16) as u16))) > 0;
            proof {
                lemma_word_bit_test(word, (i % 16) as u16);
            }
            let fill: u16 = if b {
                0xFFFF
            } else {
                0
            };
            proof {
                assert(((i as int) + 1) * (wpr as int) <= (n as int) * (wpr as int))
                    by (nonlinear_arith)
                    requires 0 <= i < n;
                assert(((i as int) + 1) * (wpr as int) == (i as int) * (wpr as int) + (wpr as int))
                    by (nonlinear_arith);
                vstd::arithmetic::mul::lemma_mul_nonnegative(i as int, wpr as int);
            }
            let mut j: usize = 0;
            while j < wpr
                invariant
                    0 <= j <= wpr,
                    0 <= i < n,
                    self.wf(),
                    n == self.spec_shape()[0],
                    n == elem_count(self.spec_shape()),
                    fill == (if self.bit_at(i as int) {
                        0xFFFFu16
                    } else {
                        0u16
                    }),
                    output.spec_shape() == oshape,
                    ow == output.masks@.len(),
                    ow == (n as nat) * (wpr as nat),
                    ((i as int) + 1) * (wpr as int) <= (n as nat) * (wpr as nat),
                    ((i as int) + 1) * (wpr as int) == (i as int) * (wpr as int) + (wpr as int),
                    forall|x: int|
                        0 <= x < (i as int) * (wpr as int) + j ==> #[trigger] output.masks@[x] == (
                        if self.bit_at(x / (wpr as int)) {
                            0xFFFFu16
                        } else {
                            0u16
                        }),
                decreases wpr - j,
            {
                let x = i * wpr + j;
                proof {
                    vstd::arithmetic::mul::lemma_mul_nonnegative(i as int, wpr as int);
                }
                output.masks.set(x, fill);
                proof {
                    vstd::arithmetic::div_mod::lemma_div_multiples_vanish_fancy(
                        i as int,
                        j as int,
                        wpr as int,
                    );
                    vstd::arithmetic::mul::lemma_mul_is_commutative(i as int, wpr as int);
                    assert((x as int) / (wpr as int) == i as int);
                }
                j += 1;
            }
            i += 1;
            proof {
                assert((i as int) * (wpr as int) == ((i - 1) as int) * (wpr as int) + (
                wpr as int)) by (nonlinear_arith);
            }
        }
        proof {
            assert forall|e: int| 0 <= e < elem_count(oshape) implies output.bit_at(e) == self@[e
                / (k as int)] by {
                assert(k > 0) by (nonlinear_arith)
                    requires (n as nat) * (k as nat) > 0;
                crate::layout::lemma_cols_le_words(k);
                lemma_element_position(oshape, e);
                let r = e / (k as int);
                let c = e % (k as int);
                vstd::arithmetic::div_mod::lemma_mod_bound(e, k as int);
                vstd::arithmetic::div_mod::lemma_div_pos_is_pos(e, k as int);
                vstd::arithmetic::div_mod::lemma_div_pos_is_pos(c, 16);
                vstd::arithmetic::div_mod::lemma_fundamental_div_mod(e, k as int);
                assert(r < n) by (nonlinear_arith)
                    requires
                        0 <= e < (n as nat) * (k as nat),
                        e == (k as int) * r + c,
                        0 <= c < k,
                        0 <= r,
                ;
                vstd::arithmetic::div_mod::lemma_div_multiples_vanish_fancy(
                    r,
                    c / 16,
                    wpr as int,
                );
                vstd::arithmetic::mul::lemma_mul_is_commutative(r, wpr as int);
                assert((r * (wpr as int) + c / 16) / (wpr as int) == r);
                assert(output.masks@[word_index(k, e)] == (if self.bit_at(r) {
                    0xFFFFu16
                } else {
                    0u16
                }));
                if self.bit_at(r) {
                    crate::bits::lemma_word_bit_ones(lane_index(k, e) as u16);
                } else {
                    lemma_word_bit_zero(lane_index(k, e) as u16);
                }
            }
        }
        output.zero_out_unused_elements();
        Ok(())
    }

    /// The truth value at `index`, or the offending index and bound.
    pub fn get(&self, index: usize) -> (r: Result<bool, Error>)
        requires
            self.wf(),
        ensures
            match r {
                Ok(b) => index < self.spec_shape()[0] && b == self@[index as int],
                Err(e) => index >= self.spec_shape()[0] && is_index_out_of_range(
                    e,
                    index,
                    self.spec_shape()[0],
                ),
            },
    {
        let n = self.shape[0];
        if index >= n {
            return Err(Error::IndexOutOfRange { index, bound: n });
        }
        proof {
            crate::layout::lemma_counts_1d(self.spec_shape());
            lemma_element_position(self.spec_shape(), index as int);
            vstd::arithmetic::div_mod::lemma_basic_div(index as int, n as int);
            vstd::arithmetic::div_mod::lemma_small_mod(index as nat, n as nat);
        }
        let w = self.masks[index / 16];
        let b = (w & (1u16 << ((index % 16) as u16))) > 0;
        proof {
            lemma_word_bit_test(w, (index % 16) as u16);
        }
        Ok(b)
    }
}

impl Mask<2> {
    /// The truth value at `(row, column)`, or the offending index and its
    /// bound.
    pub fn get(&self, row: usize, column: usize) -> (r: Result<bool, Error>)
        requires
            self.wf(),
        ensures
            match r {
                Ok(b) => {
                    &&& row < self.spec_shape()[0]
                    &&& column < self.spec_shape()[1]
                    &&& b == self@[row * self.spec_shape()[1] + column]
                },
                Err(e) => {
                    ||| (row >= self.spec_shape()[0] && is_index_out_of_range(
                        e,
                        row,
                        self.spec_shape()[0],
                    ))
                    ||| (row < self.spec_shape()[0] && column >= self.spec_shape()[1]
                        && is_index_out_of_range(e, column, self.spec_shape()[1]))
                },
            },
    {
        let rows = self.shape[0];
        let cols = self.shape[1];
        if row >= rows {
            return Err(Error::IndexOutOfRange { index: row, bound: rows });
        }
        if column >= cols {
            return Err(Error::IndexOutOfRange { index: column, bound: cols });
        }
        let wpr = compute_words_per_row(cols);
        let ghost k = row * (cols as int) + column;
        proof {
            crate::layout::lemma_counts_2d(self.spec_shape());
            assert(0 <= k < (rows as nat) * (cols as nat)) by (nonlinear_arith)
                requires
                    0 <= row < rows,
                    0 <= column < cols,
                    k == row * (cols as int) + column,
            ;
            lemma_element_position(self.spec_shape(), k);
            lemma_row_major(cols, row as int, column as int);
        }
        let w = self.masks[row * wpr + column / 16];
        let b = (w & (1u16 << ((column % 16) as u16))) > 0;
        proof {
            lemma_word_bit_test(w, (column % 16) as u16);
        }
        Ok(b)
    }
}

} // verus!
