use vstd::prelude::*;

verus! {

use crate::bits::lemma_word_bit_test;
use crate::error::{is_index_out_of_range, is_shape_mismatch, Error};
use crate::mask::Mask;
use crate::layout::{
    compute_elem_count, compute_word_count, compute_words_per_row, copy_vec, data_index,
    elem_count, filled, lemma_counts_1d, lemma_counts_2d, lemma_data_index_bounds,
    lemma_data_index_unique, lemma_element_position, lemma_row_major, same_shape, shape_vec,
    size_ok, word_count, words_per_row,
};

/// A dense, row-major, rank-`D` tensor of 32-bit elements, stored in
/// 16-lane registers: the innermost axis is padded to a whole number of
/// registers, and the padding lanes are never read by any public
/// operation.  An element is an opaque 32-bit payload; callers give the
/// payloads their numeric meaning.
#[derive(Clone)]
pub struct Array<const D: usize> {
    data: Vec<u32>,
    shape: [usize; D],
}

impl<const D: usize> Array<D> {
    /// The flat register buffer, padding included.
    pub closed spec fn elems(&self) -> Seq<u32> {
        self.data@
    }

    /// The axis sizes.
    pub closed spec fn spec_shape(&self) -> Seq<usize> {
        self.shape@
    }

    /// Length of the innermost axis: the row length.
    pub open spec fn spec_cols(&self) -> usize {
        self.spec_shape().last()
    }

    /// The payload of logical element `k`, read through the padded layout.
    pub open spec fn val_at(&self, k: int) -> u32 {
        self.elems()[data_index(self.spec_cols(), k)]
    }

    /// Invariant: positive rank, addressable size, and sixteen buffer slots
    /// per register.
    pub open spec fn wf(&self) -> bool {
        &&& D >= 1
        &&& self.spec_shape().len() == D
        &&& size_ok(self.spec_shape())
        &&& self.elems().len() == word_count(self.spec_shape()) * 16
    }
}

impl<const D: usize> View for Array<D> {
    type V = Seq<u32>;

    /// An array denotes its flat row-major sequence of element payloads,
    /// free of any padding.
    open spec fn view(&self) -> Seq<u32> {
        Seq::new(elem_count(self.spec_shape()), |k: int| self.val_at(k))
    }
}

impl<const D: usize> Array<D> {
    /// An array of the given shape with every element zero.
    pub fn zeros(shape: &[usize; D]) -> (r: Self)
        requires
            D >= 1,
            size_ok(shape@),
        ensures
            r.wf(),
            r.spec_shape() == shape@,
            r@.len() == elem_count(shape@),
            forall|k: int| 0 <= k < r@.len() ==> r@[k] == 0u32,
    {
        Self::new_from_value(shape, 0)
    }

    /// An array of the given shape with every element equal to `value`.
    pub fn new_from_value(shape: &[usize; D], value: u32) -> (r: Self)
        requires
            D >= 1,
            size_ok(shape@),
        ensures
            r.wf(),
            r.spec_shape() == shape@,
            r@.len() == elem_count(shape@),
            forall|k: int| 0 <= k < r@.len() ==> r@[k] == value,
    {
        let wc = compute_word_count(shape);
        let r = Array { data: filled(wc * 16, value), shape: *shape };
        proof {
            assert forall|k: int| 0 <= k < elem_count(shape@) implies r.val_at(k) == value by {
                lemma_data_index_bounds(shape@, k);
            }
        }
        r
    }

    /// The shape this array was built with.
    pub fn get_shape(&self) -> (r: &[usize; D])
        ensures
            r@ == self.spec_shape(),
    {
        &self.shape
    }

    /// The number of logical elements: the product of the axis sizes.
    pub fn number_of_elements(&self) -> (n: usize)
        requires
            self.wf(),
        ensures
            n == elem_count(self.spec_shape()),
            n == self@.len(),
    {
        compute_elem_count(&self.shape)
    }

    /// A fresh 16-lane seed vector for the parallel generator, drawn from
    /// the process entropy source.
    pub fn random_seed() -> [u32; 16] {
        let mut rng = crate::rng::entropy_rng();
        let mut seed: [u32; 16] = [0; 16];
        let mut i: usize = 0;
        while i < 16
            invariant
                0 <= i <= 16,
            decreases 16 - i,
        {
            let v = crate::rng::rng_next_u32(&mut rng);
            seed[i] = v;
            i += 1;
        }
        seed
    }

    /// The invariants hold of every array the public operations hand out;
    /// calling this puts that fact in front of the verifier as an
    /// obligation on the caller's value.
    pub fn assert_invariants_satisfied(&self)
        requires
            self.wf(),
    {
    }

    /// The flat row-major sequence of element payloads, with the padding
    /// dropped.
    pub fn to_flat(&self) -> (r: Vec<u32>)
        requires
            self.wf(),
        ensures
            r@ == self@,
    {
        let total = compute_elem_count(&self.shape);
        let cols = self.shape[D - 1];
        let wpr = compute_words_per_row(cols);
        let mut out: Vec<u32> = Vec::new();
        let mut k: usize = 0;
        while k < total
            invariant
                self.wf(),
                0 <= k <= total,
                total == elem_count(self.spec_shape()),
                cols == self.spec_cols(),
                wpr == words_per_row(cols),
                out@.len() == k,
                forall|j: int| 0 <= j < k ==> out@[j] == self.val_at(j),
            decreases total - k,
        {
            proof {
                if cols == 0 {
                    crate::layout::lemma_prod_prefix_zero(
                        self.spec_shape(),
                        self.spec_shape().len() as int,
                    );
                    crate::layout::lemma_elem_count_rows(self.spec_shape());
                    assert(crate::layout::row_count(self.spec_shape()) * 0 == 0)
                        by (nonlinear_arith);
                }
                lemma_element_position(self.spec_shape(), k as int);
                lemma_data_index_bounds(self.spec_shape(), k as int);
            }
            let row = k / cols;
            let c = k % cols;
            let v = self.data[(row * wpr + c / 16) * 16 + c % 16];
            out.push(v);
            k += 1;
        }
        proof {
            assert(out@ =~= self@);
        }
        out
    }

    /// Pack a flat row-major sequence of payloads into the padded buffer;
    /// the padding lanes are left zero.
    fn pack_from_flat(data: &Vec<u32>, shape: [usize; D]) -> (r: Array<D>)
        requires
            D >= 1,
            size_ok(shape@),
            data@.len() == elem_count(shape@),
        ensures
            r.wf(),
            r.spec_shape() == shape@,
            r@ == data@,
    {
        let total = data.len();
        let wc = compute_word_count(&shape);
        let cols = shape[D - 1];
        let wpr = compute_words_per_row(cols);
        let mut buf = filled(wc * 16, 0u32);
        let mut k: usize = 0;
        while k < total
            invariant
                0 <= k <= total,
                D >= 1,
                size_ok(shape@),
                total == elem_count(shape@),
                total == data@.len(),
                cols == shape@.last(),
                wpr == words_per_row(cols),
                wc == word_count(shape@),
                buf@.len() == wc * 16,
                forall|j: int|
                    0 <= j < k ==> buf@[data_index(cols, j)] == data@[j],
            decreases total - k,
        {
            proof {
                if cols == 0 {
                    crate::layout::lemma_prod_prefix_zero(shape@, shape@.len() as int);
                    crate::layout::lemma_elem_count_rows(shape@);
                    assert(crate::layout::row_count(shape@) * 0 == 0) by (nonlinear_arith);
                }
                lemma_element_position(shape@, k as int);
                lemma_data_index_bounds(shape@, k as int);
            }
            let row = k / cols;
            let c = k % cols;
            let ghost before = buf@;
            buf.set((row * wpr + c / 16) * 16 + c % 16, data[k]);
            proof {
                assert forall|j: int| 0 <= j < k implies buf@[data_index(cols, j)] == data@[j] by {
                    lemma_element_position(shape@, j);
                    lemma_data_index_bounds(shape@, j);
                    if data_index(cols, j) == data_index(cols, k as int) {
                        lemma_data_index_unique(cols, j, k as int);
                    }
                }
            }
            k += 1;
        }
        let r = Array { data: buf, shape };
        proof {
            assert forall|j: int| 0 <= j < total implies r@[j] == data@[j] by {
                lemma_element_position(shape@, j);
            }
            assert(r@ =~= data@);
        }
        r
    }

    /// Overwrite this array with an equally shaped one; on a shape mismatch
    /// nothing is changed.
    pub fn copy(&mut self, other: &Self) -> (r: Result<(), Error>)
        requires
            old(self).wf(),
            other.wf(),
        ensures
            final(self).spec_shape() == old(self).spec_shape(),
            match r {
                Ok(_) => {
                    &&& old(self).spec_shape() == other.spec_shape()
                    &&& final(self).wf()
                    &&& final(self)@ == other@
                },
                Err(e) => {
                    &&& old(self).spec_shape() != other.spec_shape()
                    &&& is_shape_mismatch(e, old(self).spec_shape(), other.spec_shape())
                    &&& *final(self) == *old(self)
                },
            },
    {
        if !same_shape(&self.shape, other.get_shape()) {
            return Err(
                Error::ShapeMismatch {
                    expected: shape_vec(&self.shape),
                    actual: shape_vec(other.get_shape()),
                },
            );
        }
        self.data = copy_vec(&other.data);
        proof {
            assert(self@ =~= other@);
        }
        Ok(())
    }
}

impl<const D: usize> Array<D> {
    /// Blend from `other`: wherever the mask is true the element is taken
    /// from `other`, elsewhere it keeps its prior value.  All three shapes
    /// must agree or nothing is changed.
    pub fn copy_masked(&mut self, other: &Array<D>, mask: &Mask<D>) -> (r: Result<(), Error>)
        requires
            old(self).wf(),
            other.wf(),
            mask.wf(),
        ensures
            final(self).spec_shape() == old(self).spec_shape(),
            match r {
                Ok(_) => {
                    &&& old(self).spec_shape() == other.spec_shape()
                    &&& old(self).spec_shape() == mask.spec_shape()
                    &&& final(self).wf()
                    &&& final(self)@.len() == old(self)@.len()
                    &&& forall|k: int|
                        0 <= k < final(self)@.len() ==> #[trigger] final(self)@[k] == (if mask@[k] {
                            other@[k]
                        } else {
                            old(self)@[k]
                        })
                },
                Err(e) => {
                    &&& *final(self) == *old(self)
                    &&& ((old(self).spec_shape() != other.spec_shape() && is_shape_mismatch(
                        e,
                        old(self).spec_shape(),
                        other.spec_shape(),
                    )) || (old(self).spec_shape() == other.spec_shape() && old(self).spec_shape()
                        != mask.spec_shape() && is_shape_mismatch(
                        e,
                        old(self).spec_shape(),
                        mask.spec_shape(),
                    )))
                },
            },
    {
        if !same_shape(&self.shape, other.get_shape()) {
            return Err(
                Error::ShapeMismatch {
                    expected: shape_vec(&self.shape),
                    actual: shape_vec(other.get_shape()),
                },
            );
        }
        if !same_shape(&self.shape, mask.get_shape()) {
            return Err(
                Error::ShapeMismatch {
                    expected: shape_vec(&self.shape),
                    actual: shape_vec(mask.get_shape()),
                },
            );
        }
        let total = compute_elem_count(&self.shape);
        let cols = self.shape[D - 1];
        let wpr = compute_words_per_row(cols);
        let ghost orig = *self;
        let mut e: usize = 0;
        while e < total
            invariant
                0 <= e <= total,
                D >= 1,
                self.shape@ == orig.spec_shape(),
                orig.wf(),
                other.wf(),
                mask.wf(),
                other.spec_shape() == orig.spec_shape(),
                mask.spec_shape() == orig.spec_shape(),
                total == elem_count(orig.spec_shape()),
                cols == orig.spec_cols(),
                wpr == words_per_row(cols),
                self.data@.len() == orig.elems().len(),
                forall|j: int|
                    0 <= j < e ==> #[trigger] self.data@[data_index(cols, j)] == (if mask@[j] {
                        other@[j]
                    } else {
                        orig@[j]
                    }),
                forall|j: int|
                    e <= j < total ==> #[trigger] self.data@[data_index(cols, j)]
                        == orig.elems()[data_index(cols, j)],
            decreases total - e,
        {
            proof {
                if cols == 0 {
                    crate::layout::lemma_prod_prefix_zero(
                        orig.spec_shape(),
                        orig.spec_shape().len() as int,
                    );
                    crate::layout::lemma_elem_count_rows(orig.spec_shape());
                    assert(crate::layout::row_count(orig.spec_shape()) * 0 == 0)
                        by (nonlinear_arith);
                }
                lemma_element_position(orig.spec_shape(), e as int);
                lemma_data_index_bounds(orig.spec_shape(), e as int);
            }
            let row = e / cols;
            let c = e % cols;
            let mw = mask.get_masks()[row * wpr + c / 16];
            let b = (mw & (1u16 << ((c % 16) as u16))) > 0;
            proof {
                lemma_word_bit_test(mw, (c % 16) as u16);
            }
            if b {
                let v = other.data[(row * wpr + c / 16) * 16 + c % 16];
                let ghost before = self.data@;
                self.data.set((row * wpr + c / 16) * 16 + c % 16, v);
                proof {
                    assert forall|j: int| 0 <= j < total && j != e implies #[trigger] self.data@[data_index(
                        cols,
                        j,
                    )] == before[data_index(cols, j)] by {
                        lemma_element_position(orig.spec_shape(), j);
                        lemma_data_index_bounds(orig.spec_shape(), j);
                        if data_index(cols, j) == data_index(cols, e as int) {
                            lemma_data_index_unique(cols, j, e as int);
                        }
                    }
                }
            }
            proof {
                assert(mask@[e as int] == mask.bit_at(e as int));
                assert(b == mask.bit_at(e as int));
                assert(self.data@[data_index(cols, e as int)] == (if mask@[e as int] {
                    other@[e as int]
                } else {
                    orig@[e as int]
                }));
            }
            e += 1;
        }
        proof {
            assert forall|k: int| 0 <= k < elem_count(orig.spec_shape()) implies #[trigger] self@[k]
                == (if mask@[k] {
                other@[k]
            } else {
                orig@[k]
            }) by {
                lemma_element_position(orig.spec_shape(), k);
            }
        }
        Ok(())
    }

    /// Blend from two sources: wherever the mask is true the element comes
    /// from `other2`, elsewhere from `other1`.  All four shapes must agree
    /// or nothing is changed.
    pub fn copy_masked2(&mut self, other1: &Array<D>, other2: &Array<D>, mask: &Mask<D>) -> (r:
        Result<(), Error>)
        requires
            old(self).wf(),
            other1.wf(),
            other2.wf(),
            mask.wf(),
        ensures
            final(self).spec_shape() == old(self).spec_shape(),
            match r {
                Ok(_) => {
                    &&& old(self).spec_shape() == other1.spec_shape()
                    &&& old(self).spec_shape() == other2.spec_shape()
                    &&& old(self).spec_shape() == mask.spec_shape()
                    &&& final(self).wf()
                    &&& final(self)@.len() == old(self)@.len()
                    &&& forall|k: int|
                        0 <= k < final(self)@.len() ==> #[trigger] final(self)@[k] == (if mask@[k] {
                            other2@[k]
                        } else {
                            other1@[k]
                        })
                },
                Err(_) => *final(self) == *old(self) && (old(self).spec_shape()
                    != other1.spec_shape() || old(self).spec_shape() != other2.spec_shape() || old(
                    self,
                ).spec_shape() != mask.spec_shape()),
            },
    {
        if !same_shape(&self.shape, other1.get_shape()) {
            return Err(
                Error::ShapeMismatch {
                    expected: shape_vec(&self.shape),
                    actual: shape_vec(other1.get_shape()),
                },
            );
        }
        if !same_shape(&self.shape, other2.get_shape()) {
            return Err(
                Error::ShapeMismatch {
                    expected: shape_vec(&self.shape),
                    actual: shape_vec(other2.get_shape()),
                },
            );
        }
        if !same_shape(&self.shape, mask.get_shape()) {
            return Err(
                Error::ShapeMismatch {
                    expected: shape_vec(&self.shape),
                    actual: shape_vec(mask.get_shape()),
                },
            );
        }
        let total = compute_elem_count(&self.shape);
        let cols = self.shape[D - 1];
        let wpr = compute_words_per_row(cols);
        let ghost orig = *self;
        let mut e: usize = 0;
        while e < total
            invariant
                0 <= e <= total,
                D >= 1,
                self.shape@ == orig.spec_shape(),
                orig.wf(),
                other1.wf(),
                other2.wf(),
                mask.wf(),
                other1.spec_shape() == orig.spec_shape(),
                other2.spec_shape() == orig.spec_shape(),
                mask.spec_shape() == orig.spec_shape(),
                total == elem_count(orig.spec_shape()),
                cols == orig.spec_cols(),
                wpr == words_per_row(cols),
                self.data@.len() == orig.elems().len(),
                forall|j: int|
                    0 <= j < e ==> #[trigger] self.data@[data_index(cols, j)] == (if mask@[j] {
                        other2@[j]
                    } else {
                        other1@[j]
                    }),
            decreases total - e,
        {
            proof {
                if cols == 0 {
                    crate::layout::lemma_prod_prefix_zero(
                        orig.spec_shape(),
                        orig.spec_shape().len() as int,
                    );
                    crate::layout::lemma_elem_count_rows(orig.spec_shape());
                    assert(crate::layout::row_count(orig.spec_shape()) * 0 == 0)
                        by (nonlinear_arith);
                }
                lemma_element_position(orig.spec_shape(), e as int);
                lemma_data_index_bounds(orig.spec_shape(), e as int);
            }
            let row = e / cols;
            let c = e % cols;
            let mw = mask.get_masks()[row * wpr + c / 16];
            let b = (mw & (1u16 << ((c % 16) as u16))) > 0;
            proof {
                lemma_word_bit_test(mw, (c % 16) as u16);
            }
            let slot = (row * wpr + c / 16) * 16 + c % 16;
            let v = if b {
                other2.data[slot]
            } else {
                other1.data[slot]
            };
            let ghost before = self.data@;
            self.data.set(slot, v);
            proof {
                assert forall|j: int| 0 <= j < e implies #[trigger] self.data@[data_index(
                    cols,
                    j,
                )] == before[data_index(cols, j)] by {
                    lemma_element_position(orig.spec_shape(), j);
                    lemma_data_index_bounds(orig.spec_shape(), j);
                    if data_index(cols, j) == data_index(cols, e as int) {
                        lemma_data_index_unique(cols, j, e as int);
                    }
                }
            }
            e += 1;
        }
        proof {
            assert forall|k: int| 0 <= k < elem_count(orig.spec_shape()) implies #[trigger] self@[k]
                == (if mask@[k] {
                other2@[k]
            } else {
                other1@[k]
            }) by {
                lemma_element_position(orig.spec_shape(), k);
            }
        }
        Ok(())
    }

    /// Set the elements to `value` wherever the mask is true; the mask's
    /// shape must agree or nothing is changed.
    pub fn set_masked(&mut self, value: u32, mask: &Mask<D>) -> (r: Result<(), Error>)
        requires
            old(self).wf(),
            mask.wf(),
        ensures
            final(self).spec_shape() == old(self).spec_shape(),
            match r {
                Ok(_) => {
                    &&& old(self).spec_shape() == mask.spec_shape()
                    &&& final(self).wf()
                    &&& final(self)@.len() == old(self)@.len()
                    &&& forall|k: int|
                        0 <= k < final(self)@.len() ==> #[trigger] final(self)@[k] == (if mask@[k] {
                            value
                        } else {
                            old(self)@[k]
                        })
                },
                Err(e) => {
                    &&& *final(self) == *old(self)
                    &&& old(self).spec_shape() != mask.spec_shape()
                    &&& is_shape_mismatch(e, old(self).spec_shape(), mask.spec_shape())
                },
            },
    {
        if !same_shape(&self.shape, mask.get_shape()) {
            return Err(
                Error::ShapeMismatch {
                    expected: shape_vec(&self.shape),
                    actual: shape_vec(mask.get_shape()),
                },
            );
        }
        let total = compute_elem_count(&self.shape);
        let cols = self.shape[D - 1];
        let wpr = compute_words_per_row(cols);
        let ghost orig = *self;
        let mut e: usize = 0;
        while e < total
            invariant
                0 <= e <= total,
                D >= 1,
                self.shape@ == orig.spec_shape(),
                orig.wf(),
                mask.wf(),
                mask.spec_shape() == orig.spec_shape(),
                total == elem_count(orig.spec_shape()),
                cols == orig.spec_cols(),
                wpr == words_per_row(cols),
                self.data@.len() == orig.elems().len(),
                forall|j: int|
                    0 <= j < e ==> #[trigger] self.data@[data_index(cols, j)] == (if mask@[j] {
                        value
                    } else {
                        orig@[j]
                    }),
                forall|j: int|
                    e <= j < total ==> #[trigger] self.data@[data_index(cols, j)]
                        == orig.elems()[data_index(cols, j)],
            decreases total - e,
        {
            proof {
                if cols == 0 {
                    crate::layout::lemma_prod_prefix_zero(
                        orig.spec_shape(),
                        orig.spec_shape().len() as int,
                    );
                    crate::layout::lemma_elem_count_rows(orig.spec_shape());
                    assert(crate::layout::row_count(orig.spec_shape()) * 0 == 0)
                        by (nonlinear_arith);
                }
                lemma_element_position(orig.spec_shape(), e as int);
                lemma_data_index_bounds(orig.spec_shape(), e as int);
            }
            let row = e / cols;
            let c = e % cols;
            let mw = mask.get_masks()[row * wpr + c / 16];
            let b = (mw & (1u16 << ((c % 16) as u16))) > 0;
            proof {
                lemma_word_bit_test(mw, (c % 16) as u16);
            }
            if b {
                let ghost before = self.data@;
                self.data.set((row * wpr + c / 16) * 16 + c % 16, value);
                proof {
                    assert forall|j: int| 0 <= j < total && j != e implies #[trigger] self.data@[data_index(
                        cols,
                        j,
                    )] == before[data_index(cols, j)] by {
                        lemma_element_position(orig.spec_shape(), j);
                        lemma_data_index_bounds(orig.spec_shape(), j);
                        if data_index(cols, j) == data_index(cols, e as int) {
                            lemma_data_index_unique(cols, j, e as int);
                        }
                    }
                }
            }
            e += 1;
        }
        proof {
            assert forall|k: int| 0 <= k < elem_count(orig.spec_shape()) implies #[trigger] self@[k]
                == (if mask@[k] {
                value
            } else {
                orig@[k]
            }) by {
                lemma_element_position(orig.spec_shape(), k);
            }
        }
        Ok(())
    }

    /// Set every element to `v1` where the mask is false and to `v2` where
    /// it is true; the mask's shape must agree or nothing is changed.
    pub fn set_masked2(&mut self, v1: u32, v2: u32, mask: &Mask<D>) -> (r: Result<(), Error>)
        requires
            old(self).wf(),
            mask.wf(),
        ensures
            final(self).spec_shape() == old(self).spec_shape(),
            match r {
                Ok(_) => {
                    &&& old(self).spec_shape() == mask.spec_shape()
                    &&& final(self).wf()
                    &&& final(self)@.len() == old(self)@.len()
                    &&& forall|k: int|
                        0 <= k < final(self)@.len() ==> #[trigger] final(self)@[k] == (if mask@[k] {
                            v2
                        } else {
                            v1
                        })
                },
                Err(e) => {
                    &&& *final(self) == *old(self)
                    &&& old(self).spec_shape() != mask.spec_shape()
                    &&& is_shape_mismatch(e, old(self).spec_shape(), mask.spec_shape())
                },
            },
    {
        if !same_shape(&self.shape, mask.get_shape()) {
            return Err(
                Error::ShapeMismatch {
                    expected: shape_vec(&self.shape),
                    actual: shape_vec(mask.get_shape()),
                },
            );
        }
        let total = compute_elem_count(&self.shape);
        let cols = self.shape[D - 1];
        let wpr = compute_words_per_row(cols);
        let ghost orig = *self;
        let mut e: usize = 0;
        while e < total
            invariant
                0 <= e <= total,
                D >= 1,
                self.shape@ == orig.spec_shape(),
                orig.wf(),
                mask.wf(),
                mask.spec_shape() == orig.spec_shape(),
                total == elem_count(orig.spec_shape()),
                cols == orig.spec_cols(),
                wpr == words_per_row(cols),
                self.data@.len() == orig.elems().len(),
                forall|j: int|
                    0 <= j < e ==> #[trigger] self.data@[data_index(cols, j)] == (if mask@[j] {
                        v2
                    } else {
                        v1
                    }),
            decreases total - e,
        {
            proof {
                if cols == 0 {
                    crate::layout::lemma_prod_prefix_zero(
                        orig.spec_shape(),
                        orig.spec_shape().len() as int,
                    );
                    crate::layout::lemma_elem_count_rows(orig.spec_shape());
                    assert(crate::layout::row_count(orig.spec_shape()) * 0 == 0)
                        by (nonlinear_arith);
                }
                lemma_element_position(orig.spec_shape(), e as int);
                lemma_data_index_bounds(orig.spec_shape(), e as int);
            }
            let row = e / cols;
            let c = e % cols;
            let mw = mask.get_masks()[row * wpr + c / 16];
            let b = (mw & (1u16 << ((c % 16) as u16))) > 0;
            proof {
                lemma_word_bit_test(mw, (c % 16) as u16);
            }
            let v = if b {
                v2
            } else {
                v1
            };
            let ghost before = self.data@;
            self.data.set((row * wpr + c / 16) * 16 + c % 16, v);
            proof {
                assert forall|j: int| 0 <= j < e implies #[trigger] self.data@[data_index(
                    cols,
                    j,
                )] == before[data_index(cols, j)] by {
                    lemma_element_position(orig.spec_shape(), j);
                    lemma_data_index_bounds(orig.spec_shape(), j);
                    if data_index(cols, j) == data_index(cols, e as int) {
                        lemma_data_index_unique(cols, j, e as int);
                    }
                }
            }
            e += 1;
        }
        proof {
            assert forall|k: int| 0 <= k < elem_count(orig.spec_shape()) implies #[trigger] self@[k]
                == (if mask@[k] {
                v2
            } else {
                v1
            }) by {
                lemma_element_position(orig.spec_shape(), k);
            }
        }
        Ok(())
    }
}

impl Array<1> {
    /// An array packed from a flat sequence of payloads; its shape is the
    /// sequence's length.
    pub fn from_flat(data: &Vec<u32>) -> (r: Array<1>)
        requires
            data@.len() + 15 <= usize::MAX,
            (data@.len() + 15) * 16 <= usize::MAX,
        ensures
            r.wf(),
            r.spec_shape().len() == 1,
            r.spec_shape()[0] == data@.len(),
            r@ == data@,
    {
        let len = data.len();
        let shape: [usize; 1] = [len];
        proof {
            lemma_counts_1d(shape@);
            crate::layout::lemma_cols_le_words(len);
        }
        Array::<1>::pack_from_flat(data, shape)
    }

    /// The payload at `index`, or the offending index and bound.
    pub fn get(&self, index: usize) -> (r: Result<u32, Error>)
        requires
            self.wf(),
        ensures
            match r {
                Ok(v) => index < self.spec_shape()[0] && v == self@[index as int],
                Err(e) => index >= self.spec_shape()[0] && is_index_out_of_range(
                    e,
                    index,
                    self.spec_shape()[0],
                ),
            },
    {
        let n = self.shape[0];
        if index >= n {
            return Err(Error::IndexOutOfRange { index, bound: n });
        }
        proof {
            lemma_counts_1d(self.spec_shape());
            lemma_element_position(self.spec_shape(), index as int);
            lemma_data_index_bounds(self.spec_shape(), index as int);
            vstd::arithmetic::div_mod::lemma_basic_div(index as int, n as int);
            vstd::arithmetic::div_mod::lemma_small_mod(index as nat, n as nat);
            vstd::arithmetic::div_mod::lemma_fundamental_div_mod(index as int, 16);
            assert((0int) * (words_per_row(n) as int) == 0) by (nonlinear_arith);
        }
        Ok(self.data[(index / 16) * 16 + index % 16])
    }

    /// Replace the payload at `index`, or report the offending index.
    pub fn set(&mut self, index: usize, value: u32) -> (r: Result<(), Error>)
        requires
            old(self).wf(),
        ensures
            final(self).spec_shape() == old(self).spec_shape(),
            final(self).wf(),
            match r {
                Ok(_) => {
                    &&& index < old(self).spec_shape()[0]
                    &&& final(self)@ == old(self)@.update(index as int, value)
                },
                Err(e) => {
                    &&& index >= old(self).spec_shape()[0]
                    &&& is_index_out_of_range(e, index, old(self).spec_shape()[0])
                    &&& *final(self) == *old(self)
                },
            },
    {
        let n = self.shape[0];
        if index >= n {
            return Err(Error::IndexOutOfRange { index, bound: n });
        }
        proof {
            lemma_counts_1d(self.spec_shape());
            lemma_element_position(self.spec_shape(), index as int);
            lemma_data_index_bounds(self.spec_shape(), index as int);
            vstd::arithmetic::div_mod::lemma_basic_div(index as int, n as int);
            vstd::arithmetic::div_mod::lemma_small_mod(index as nat, n as nat);
            vstd::arithmetic::div_mod::lemma_fundamental_div_mod(index as int, 16);
            assert((0int) * (words_per_row(n) as int) == 0) by (nonlinear_arith);
        }
        self.data.set((index / 16) * 16 + index % 16, value);
        proof {
            assert forall|j: int| 0 <= j < elem_count(self.spec_shape()) implies self.val_at(j)
                == old(self)@.update(index as int, value)[j] by {
                lemma_element_position(self.spec_shape(), j);
                lemma_data_index_bounds(self.spec_shape(), j);
                if data_index(self.spec_cols(), j) == data_index(self.spec_cols(), index as int) {
                    lemma_data_index_unique(self.spec_cols(), j, index as int);
                }
            }
            assert(self@ =~= old(self)@.update(index as int, value));
        }
        Ok(())
    }

    /// Copy the whole array `k` times end to end into `output`, whose
    /// length must be `k` times this array's.  The number of elements must
    /// be a multiple of 16, so whole registers repeat.
    pub fn tile_in_place(&self, k: usize, output: &mut Array<1>) -> (r: Result<(), Error>)
        requires
            self.wf(),
            old(output).wf(),
            self.spec_shape()[0] % 16 == 0,
            self.spec_shape()[0] * k <= usize::MAX,
        ensures
            final(output).spec_shape() == old(output).spec_shape(),
            match r {
                Ok(_) => {
                    &&& old(output).spec_shape()[0] == self.spec_shape()[0] * k
                    &&& final(output).wf()
                    &&& final(output)@.len() == self@.len() * k
                    &&& forall|i: int|
                        0 <= i < final(output)@.len() ==> #[trigger] final(output)@[i] == self@[i
                            % (self.spec_shape()[0] as int)]
                },
                Err(e) => {
                    &&& old(output).spec_shape()[0] != self.spec_shape()[0] * k
                    &&& is_shape_mismatch(
                        e,
                        seq![(self.spec_shape()[0] * k) as usize],
                        old(output).spec_shape(),
                    )
                    &&& *final(output) == *old(output)
                },
            },
    {
        let n = self.shape[0];
        let total = n * k;
        if output.shape[0] != total {
            let mut expected: Vec<usize> = Vec::new();
            expected.push(total);
            proof {
                assert(expected@ =~= seq![total]);
            }
            return Err(Error::ShapeMismatch { expected, actual: shape_vec(&output.shape) });
        }
        proof {
            lemma_counts_1d(self.spec_shape());
            lemma_counts_1d(output.spec_shape());
            crate::layout::lemma_cols_le_words(n);
            crate::layout::lemma_cols_le_words(total);
        }
        let ghost oshape = output.spec_shape();
        let mut e: usize = 0;
        while e < total
            invariant
                0 <= e <= total,
                self.wf(),
                n == self.spec_shape()[0],
                n <= self.data@.len(),
                output.spec_shape() == oshape,
                oshape.len() == 1,
                oshape[0] == total,
                total == n * k,
                total <= output.data@.len(),
                output.data@.len() == word_count(oshape) * 16,
                forall|j: int| 0 <= j < e ==> #[trigger] output.data@[j] == self.data@[j % (
                n as int)],
            decreases total - e,
        {
            proof {
                assert(n > 0) by (nonlinear_arith)
                    requires n * k > 0;
            }
            let v = self.data[e % n];
            output.data.set(e, v);
            e += 1;
        }
        proof {
            assert forall|i: int| 0 <= i < elem_count(oshape) implies #[trigger] output.val_at(i)
                == self@[i % (n as int)] by {
                assert(n > 0) by (nonlinear_arith)
                    requires (n as nat) * k > 0 || 0 < 0;
                crate::layout::lemma_data_index_1d(total, i);
                vstd::arithmetic::div_mod::lemma_mod_bound(i, n as int);
                crate::layout::lemma_data_index_1d(n, i % (n as int));
            }
        }
        Ok(())
    }

    /// Repeat each element of the array `k` times in a row and store the
    /// result in `output`, whose length must be `k` times this array's.
    /// Both the length and `k` must be multiples of 16.
    pub fn repeat_in_place(&self, k: usize, output: &mut Array<1>) -> (r: Result<(), Error>)
        requires
            self.wf(),
            old(output).wf(),
            self.spec_shape()[0] % 16 == 0,
            k % 16 == 0,
            self.spec_shape()[0] * k <= usize::MAX,
        ensures
            final(output).spec_shape() == old(output).spec_shape(),
            match r {
                Ok(_) => {
                    &&& old(output).spec_shape()[0] == self.spec_shape()[0] * k
                    &&& final(output).wf()
                    &&& final(output)@.len() == self@.len() * k
                    &&& forall|i: int|
                        0 <= i < final(output)@.len() ==> #[trigger] final(output)@[i] == self@[i
                            / (k as int)]
                },
                Err(e) => {
                    &&& old(output).spec_shape()[0] != self.spec_shape()[0] * k
                    &&& is_shape_mismatch(
                        e,
                        seq![(self.spec_shape()[0] * k) as usize],
                        old(output).spec_shape(),
                    )
                    &&& *final(output) == *old(output)
                },
            },
    {
        let n = self.shape[0];
        let total = n * k;
        if output.shape[0] != total {
            let mut expected: Vec<usize> = Vec::new();
            expected.push(total);
            proof {
                assert(expected@ =~= seq![total]);
            }
            return Err(Error::ShapeMismatch { expected, actual: shape_vec(&output.shape) });
        }
        proof {
            lemma_counts_1d(self.spec_shape());
            lemma_counts_1d(output.spec_shape());
            crate::layout::lemma_cols_le_words(n);
            crate::layout::lemma_cols_le_words(total);
        }
        let ghost oshape = output.spec_shape();
        let mut e: usize = 0;
        while e < total
            invariant
                0 <= e <= total,
                self.wf(),
                n == self.spec_shape()[0],
                n <= self.data@.len(),
                total == n * k,
                output.spec_shape() == oshape,
                oshape.len() == 1,
                oshape[0] == total,
                total <= output.data@.len(),
                output.data@.len() == word_count(oshape) * 16,
                forall|j: int| 0 <= j < e ==> #[trigger] output.data@[j] == self.data@[j / (
                k as int)],
            decreases total - e,
        {
            proof {
                assert(k > 0 && (e as int) / (k as int) < n) by (nonlinear_arith)
                    requires
                        0 <= e < total,
                        total == n * k,
                ;
                vstd::arithmetic::div_mod::lemma_div_pos_is_pos(e as int, k as int);
            }
            let v = self.data[e / k];
            output.data.set(e, v);
            e += 1;
        }
        proof {
            assert forall|i: int| 0 <= i < elem_count(oshape) implies #[trigger] output.val_at(i)
                == self@[i / (k as int)] by {
                assert(k > 0 && i / (k as int) < n) by (nonlinear_arith)
                    requires
                        0 <= i < (n as nat) * k,
                        elem_count(oshape) == (n as nat) * k,
                ;
                crate::layout::lemma_data_index_1d(total, i);
                vstd::arithmetic::div_mod::lemma_div_pos_is_pos(i, k as int);
                crate::layout::lemma_data_index_1d(n, i / (k as int));
            }
        }
        Ok(())
    }

    /// Repeat this row as each of the `k` rows of the rank-2 `output`; the
    /// output shape must be `[k, len]` or the call is rejected.
    pub fn repeat_as_row_in_place(&self, k: usize, output: &mut Array<2>) -> (r: Result<(), Error>)
        requires
            self.wf(),
            old(output).wf(),
        ensures
            final(output).spec_shape() == old(output).spec_shape(),
            match r {
                Ok(_) => {
                    &&& old(output).spec_shape() =~= seq![k, self.spec_shape()[0]]
                    &&& final(output).wf()
                    &&& final(output)@.len() == (k as nat) * self@.len()
                    &&& forall|i: int|
                        0 <= i < final(output)@.len() ==> #[trigger] final(output)@[i] == self@[i
                            % (self.spec_shape()[0] as int)]
                },
                Err(e) => {
                    &&& !(old(output).spec_shape() =~= seq![k, self.spec_shape()[0]])
                    &&& is_shape_mismatch(
                        e,
                        seq![k, self.spec_shape()[0]],
                        old(output).spec_shape(),
                    )
                    &&& *final(output) == *old(output)
                },
            },
    {
        let n = self.shape[0];
        if output.shape[0] != k || output.shape[1] != n {
            let mut expected: Vec<usize> = Vec::new();
            expected.push(k);
            expected.push(n);
            proof {
                assert(expected@ =~= seq![k, n]);
                assert(!(output.spec_shape() =~= seq![k, n]));
            }
            return Err(Error::ShapeMismatch { expected, actual: shape_vec(&output.shape) });
        }
        proof {
            assert(output.spec_shape() =~= seq![k, n]);
            lemma_counts_1d(self.spec_shape());
            lemma_counts_2d(output.spec_shape());
            crate::layout::lemma_cols_le_words(n);
        }
        let total = compute_elem_count(output.get_shape());
        let wpr = compute_words_per_row(n);
        let ghost oshape = output.spec_shape();
        let mut e: usize = 0;
        while e < total
            invariant
                0 <= e <= total,
                self.wf(),
                output.wf(),
                n == self.spec_shape()[0],
                n <= self.data@.len(),
                output.spec_shape() == oshape,
                oshape.len() == 2,
                oshape[0] == k,
                oshape[1] == n,
                total == elem_count(oshape),
                elem_count(oshape) == (k as nat) * (n as nat),
                wpr == words_per_row(n),
                forall|j: int|
                    0 <= j < e ==> #[trigger] output.data@[data_index(n, j)] == self.data@[j % (
                    n as int)],
            decreases total - e,
        {
            proof {
                assert(n > 0) by (nonlinear_arith)
                    requires (k as nat) * (n as nat) > 0;
                lemma_element_position(oshape, e as int);
                lemma_data_index_bounds(oshape, e as int);
            }
            let row = e / n;
            let c = e % n;
            let v = self.data[c];
            let ghost before = output.data@;
            output.data.set((row * wpr + c / 16) * 16 + c % 16, v);
            proof {
                assert forall|j: int| 0 <= j < e implies #[trigger] output.data@[data_index(n, j)]
                    == before[data_index(n, j)] by {
                    lemma_element_position(oshape, j);
                    lemma_data_index_bounds(oshape, j);
                    if data_index(n, j) == data_index(n, e as int) {
                        lemma_data_index_unique(n, j, e as int);
                    }
                }
            }
            e += 1;
        }
        proof {
            assert forall|i: int| 0 <= i < elem_count(oshape) implies #[trigger] output.val_at(i)
                == self@[i % (n as int)] by {
                assert(n > 0) by (nonlinear_arith)
                    requires (k as nat) * (n as nat) > 0;
                vstd::arithmetic::div_mod::lemma_mod_bound(i, n as int);
                crate::layout::lemma_data_index_1d(n, i % (n as int));
            }
        }
        Ok(())
    }

    /// Repeat this array as each of the `k` columns of the rank-2
    /// `output`: element `(r, c)` of the output is element `r` of this
    /// array.  The output shape must be `[len, k]` or the call is rejected.
    pub fn repeat_as_column_in_place(&self, k: usize, output: &mut Array<2>) -> (r: Result<
        (),
        Error,
    >)
        requires
            self.wf(),
            old(output).wf(),
        ensures
            final(output).spec_shape() == old(output).spec_shape(),
            match r {
                Ok(_) => {
                    &&& old(output).spec_shape() =~= seq![self.spec_shape()[0], k]
                    &&& final(output).wf()
                    &&& final(output)@.len() == self@.len() * (k as nat)
                    &&& forall|e: int|
                        0 <= e < final(output)@.len() ==> #[trigger] final(output)@[e] == self@[e
                            / (k as int)]
                },
                Err(e) => {
                    &&& !(old(output).spec_shape() =~= seq![self.spec_shape()[0], k])
                    &&& is_shape_mismatch(
                        e,
                        seq![self.spec_shape()[0], k],
                        old(output).spec_shape(),
                    )
                    &&& *final(output) == *old(output)
                },
            },
    {
        let n = self.shape[0];
        if output.shape[0] != n || output.shape[1] != k {
            let mut expected: Vec<usize> = Vec::new();
            expected.push(n);
            expected.push(k);
            proof {
                assert(expected@ =~= seq![n, k]);
                assert(!(output.spec_shape() =~= seq![n, k]));
            }
            return Err(Error::ShapeMismatch { expected, actual: shape_vec(&output.shape) });
        }
        proof {
            assert(output.spec_shape() =~= seq![n, k]);
            lemma_counts_1d(self.spec_shape());
            lemma_counts_2d(output.spec_shape());
            crate::layout::lemma_cols_le_words(n);
        }
        let total = compute_elem_count(output.get_shape());
        let wpr = compute_words_per_row(k);
        let ghost oshape = output.spec_shape();
        let mut e: usize = 0;
        while e < total
            invariant
                0 <= e <= total,
                self.wf(),
                output.wf(),
                n == self.spec_shape()[0],
                n <= self.data@.len(),
                output.spec_shape() == oshape,
                oshape.len() == 2,
                oshape[0] == n,
                oshape[1] == k,
                total == elem_count(oshape),
                total == (n as nat) * (k as nat),
                wpr == words_per_row(k),
                forall|j: int|
                    0 <= j < e ==> #[trigger] output.data@[data_index(k, j)] == self.data@[j / (
                    k as int)],
            decreases total - e,
        {
            proof {
                assert(k > 0 && (e as int) / (k as int) < n) by (nonlinear_arith)
                    requires
                        0 <= e < total,
                        total == (n as nat) * (k as nat),
                ;
                vstd::arithmetic::div_mod::lemma_div_pos_is_pos(e as int, k as int);
                lemma_element_position(oshape, e as int);
                lemma_data_index_bounds(oshape, e as int);
            }
            let row = e / k;
            let c = e % k;
            let v = self.data[row];
            let ghost before = output.data@;
            output.data.set((row * wpr + c / 16) * 16 + c % 16, v);
            proof {
                assert forall|j: int| 0 <= j < e implies #[trigger] output.data@[data_index(k, j)]
                    == before[data_index(k, j)] by {
                    lemma_element_position(oshape, j);
                    lemma_data_index_bounds(oshape, j);
                    if data_index(k, j) == data_index(k, e as int) {
                        lemma_data_index_unique(k, j, e as int);
                    }
                }
            }
            e += 1;
        }
        proof {
            assert forall|i: int| 0 <= i < elem_count(oshape) implies #[trigger] output.val_at(i)
                == self@[i / (k as int)] by {
                assert(k > 0 && i / (k as int) < n) by (nonlinear_arith)
                    requires
                        0 <= i < (n as nat) * (k as nat),
                        elem_count(oshape) == (n as nat) * (k as nat),
                ;
                vstd::arithmetic::div_mod::lemma_div_pos_is_pos(i, k as int);
                crate::layout::lemma_data_index_1d(n, i / (k as int));
            }
        }
        Ok(())
    }

    /// Set every element to `value`.
    pub fn set_all(&mut self, value: u32)
        requires
            old(self).wf(),
        ensures
            final(self).wf(),
            final(self).spec_shape() == old(self).spec_shape(),
            final(self)@.len() == old(self)@.len(),
            forall|k: int| 0 <= k < final(self)@.len() ==> final(self)@[k] == value,
    {
        let n = self.data.len();
        let mut i: usize = 0;
        while i < n
            invariant
                0 <= i <= n,
                n == self.data@.len(),
                self.shape@ == old(self).spec_shape(),
                forall|j: int| 0 <= j < i ==> self.data@[j] == value,
            decreases n - i,
        {
            self.data.set(i, value);
            i += 1;
        }
        proof {
            assert forall|k: int| 0 <= k < elem_count(self.spec_shape()) implies self.val_at(k)
                == value by {
                lemma_data_index_bounds(self.spec_shape(), k);
            }
        }
    }
}

impl Array<2> {
    /// The transposed matrix: element `(i, j)` of the result is element
    /// `(j, i)` of this matrix.  The transposed layout must itself be
    /// addressable, since its padding differs from this matrix's.
    pub fn transpose(&self) -> (r: Self)
        requires
            self.wf(),
            size_ok(seq![self.spec_shape()[1], self.spec_shape()[0]]),
        ensures
            r.wf(),
            r.spec_shape() =~= seq![self.spec_shape()[1], self.spec_shape()[0]],
            r@.len() == self@.len(),
            forall|i: int, j: int|
                0 <= i < self.spec_shape()[1] && 0 <= j < self.spec_shape()[0] ==> r@[#[trigger] crate::layout::pair_index(
                    self.spec_shape()[0],
                    i,
                    j,
                )] == self@[crate::layout::pair_index(self.spec_shape()[1], j, i)],
    {
        let rows = self.shape[0];
        let cols = self.shape[1];
        let tshape: [usize; 2] = [cols, rows];
        proof {
            assert(tshape@ =~= seq![cols, rows]);
            lemma_counts_2d(self.spec_shape());
            lemma_counts_2d(tshape@);
        }
        let wc = compute_word_count(&tshape);
        let wpr_s = compute_words_per_row(cols);
        let wpr_t = compute_words_per_row(rows);
        let total = compute_elem_count(&tshape);
        let mut buf = filled(wc * 16, 0u32);
        let mut e: usize = 0;
        while e < total
            invariant
                0 <= e <= total,
                self.wf(),
                rows == self.spec_shape()[0],
                cols == self.spec_shape()[1],
                tshape@.len() == 2,
                tshape@[0] == cols,
                tshape@[1] == rows,
                size_ok(tshape@),
                total == elem_count(tshape@),
                total == (cols as nat) * (rows as nat),
                elem_count(self.spec_shape()) == (rows as nat) * (cols as nat),
                wc == word_count(tshape@),
                wpr_s == words_per_row(cols),
                wpr_t == words_per_row(rows),
                buf@.len() == wc * 16,
                forall|p: int|
                    0 <= p < e ==> #[trigger] buf@[data_index(rows, p)] == self.val_at(
                        (p % (rows as int)) * (cols as int) + p / (rows as int),
                    ),
            decreases total - e,
        {
            proof {
                assert(rows > 0 && cols > 0) by (nonlinear_arith)
                    requires
                        0 <= e < total,
                        total == (cols as nat) * (rows as nat),
                ;
                lemma_element_position(tshape@, e as int);
                lemma_data_index_bounds(tshape@, e as int);
                vstd::arithmetic::div_mod::lemma_fundamental_div_mod(e as int, rows as int);
                vstd::arithmetic::div_mod::lemma_mod_bound(e as int, rows as int);
                vstd::arithmetic::div_mod::lemma_div_pos_is_pos(e as int, rows as int);
            }
            let i = e / rows;
            let j = e % rows;
            let ghost src = (j as int) * (cols as int) + i;
            proof {
                assert(i < cols) by (nonlinear_arith)
                    requires
                        0 <= e < total,
                        total == (cols as nat) * (rows as nat),
                        e as int == (rows as int) * (i as int) + j,
                        0 <= j < rows,
                        0 <= i,
                ;
                assert(0 <= src < (rows as nat) * (cols as nat)) by (nonlinear_arith)
                    requires
                        0 <= j < rows,
                        0 <= i < cols,
                        src == (j as int) * (cols as int) + i,
                ;
                lemma_element_position(self.spec_shape(), src);
                lemma_data_index_bounds(self.spec_shape(), src);
                lemma_row_major(cols, j as int, i as int);
            }
            let v = self.data[(j * wpr_s + i / 16) * 16 + i % 16];
            let ghost before = buf@;
            buf.set((i * wpr_t + j / 16) * 16 + j % 16, v);
            proof {
                assert forall|p: int| 0 <= p < e implies #[trigger] buf@[data_index(rows, p)]
                    == before[data_index(rows, p)] by {
                    lemma_element_position(tshape@, p);
                    lemma_data_index_bounds(tshape@, p);
                    if data_index(rows, p) == data_index(rows, e as int) {
                        lemma_data_index_unique(rows, p, e as int);
                    }
                }
            }
            e += 1;
        }
        let r = Array { data: buf, shape: tshape };
        proof {
            assert(elem_count(tshape@) == elem_count(self.spec_shape())) by (nonlinear_arith)
                requires
                    elem_count(tshape@) == (cols as nat) * (rows as nat),
                    elem_count(self.spec_shape()) == (rows as nat) * (cols as nat),
            ;
            assert forall|i: int, j: int| 0 <= i < cols && 0 <= j < rows implies r@[#[trigger] crate::layout::pair_index(
                rows,
                i,
                j,
            )] == self@[crate::layout::pair_index(cols, j, i)] by {
                let p = i * (rows as int) + j;
                lemma_row_major(rows, i, j);
                assert(0 <= p < total) by (nonlinear_arith)
                    requires
                        0 <= i < cols,
                        0 <= j < rows,
                        p == i * (rows as int) + j,
                        total == (cols as nat) * (rows as nat),
                ;
                let src = j * (cols as int) + i;
                assert(0 <= src < (rows as nat) * (cols as nat)) by (nonlinear_arith)
                    requires
                        0 <= i < cols,
                        0 <= j < rows,
                        src == j * (cols as int) + i,
                ;
                assert(r@[p] == r.val_at(p));
                assert(buf@[data_index(rows, p)] == self.val_at(src));
            }
        }
        r
    }

    /// A rank-2 array packed row-major from a flat sequence of payloads.
    pub fn from_vec(data: &Vec<u32>, shape: [usize; 2]) -> (r: Self)
        requires
            shape@[0] > 0,
            shape@[1] > 0,
            data@.len() == shape@[0] * shape@[1],
            size_ok(shape@),
        ensures
            r.wf(),
            r.spec_shape() == shape@,
            r@ == data@,
    {
        proof {
            lemma_counts_2d(shape@);
        }
        Array::<2>::pack_from_flat(data, shape)
    }

    /// The payload at `(row, column)`, or the offending index and bound.
    pub fn get(&self, row: usize, column: usize) -> (r: Result<u32, Error>)
        requires
            self.wf(),
        ensures
            match r {
                Ok(v) => {
                    &&& row < self.spec_shape()[0]
                    &&& column < self.spec_shape()[1]
                    &&& v == self@[row * self.spec_shape()[1] + column]
                },
                Err(e) => {
                    ||| (row >= self.spec_shape()[0] && is_index_out_of_range(
                        e,
                        row,
                        self.spec_shape()[0],
                    ))
                    ||| (row < self.spec_shape()[0] && column >= self.spec_shape()[1]
                        && is_index_out_of_range(e, column, self.spec_shape()[1]))
                },
            },
    {
        let rows = self.shape[0];
        let cols = self.shape[1];
        if row >= rows {
            return Err(Error::IndexOutOfRange { index: row, bound: rows });
        }
        if column >= cols {
            return Err(Error::IndexOutOfRange { index: column, bound: cols });
        }
        let wpr = compute_words_per_row(cols);
        let ghost k = row * (cols as int) + column;
        proof {
            lemma_counts_2d(self.spec_shape());
            assert(0 <= k < (rows as nat) * (cols as nat)) by (nonlinear_arith)
                requires
                    0 <= row < rows,
                    0 <= column < cols,
                    k == row * (cols as int) + column,
            ;
            lemma_element_position(self.spec_shape(), k);
            lemma_data_index_bounds(self.spec_shape(), k);
            lemma_row_major(cols, row as int, column as int);
        }
        Ok(self.data[(row * wpr + column / 16) * 16 + column % 16])
    }

    /// Replace the payload at `(row, column)`, or report the offending
    /// index.
    pub fn set(&mut self, row: usize, column: usize, value: u32) -> (r: Result<(), Error>)
        requires
            old(self).wf(),
        ensures
            final(self).spec_shape() == old(self).spec_shape(),
            final(self).wf(),
            match r {
                Ok(_) => {
                    &&& row < old(self).spec_shape()[0]
                    &&& column < old(self).spec_shape()[1]
                    &&& final(self)@ == old(self)@.update(
                        row * old(self).spec_shape()[1] + column,
                        value,
                    )
                },
                Err(e) => {
                    &&& (row >= old(self).spec_shape()[0] && is_index_out_of_range(
                        e,
                        row,
                        old(self).spec_shape()[0],
                    )) || (row < old(self).spec_shape()[0] && column >= old(self).spec_shape()[1]
                        && is_index_out_of_range(e, column, old(self).spec_shape()[1]))
                    &&& *final(self) == *old(self)
                },
            },
    {
        let rows = self.shape[0];
        let cols = self.shape[1];
        if row >= rows {
            return Err(Error::IndexOutOfRange { index: row, bound: rows });
        }
        if column >= cols {
            return Err(Error::IndexOutOfRange { index: column, bound: cols });
        }
        let wpr = compute_words_per_row(cols);
        let ghost k = row * (cols as int) + column;
        proof {
            lemma_counts_2d(self.spec_shape());
            assert(0 <= k < (rows as nat) * (cols as nat)) by (nonlinear_arith)
                requires
                    0 <= row < rows,
                    0 <= column < cols,
                    k == row * (cols as int) + column,
            ;
            lemma_element_position(self.spec_shape(), k);
            lemma_data_index_bounds(self.spec_shape(), k);
            lemma_row_major(cols, row as int, column as int);
        }
        self.data.set((row * wpr + column / 16) * 16 + column % 16, value);
        proof {
            assert forall|j: int| 0 <= j < elem_count(self.spec_shape()) implies self.val_at(j)
                == old(self)@.update(k, value)[j] by {
                lemma_element_position(self.spec_shape(), j);
                lemma_data_index_bounds(self.spec_shape(), j);
                if data_index(self.spec_cols(), j) == data_index(self.spec_cols(), k) {
                    lemma_data_index_unique(self.spec_cols(), j, k);
                }
            }
            assert(self@ =~= old(self)@.update(k, value));
        }
        Ok(())
    }
}

} // verus!
