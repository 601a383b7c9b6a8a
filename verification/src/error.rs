use vstd::prelude::*;

verus! {

/// The recoverable failure conditions of the engine: an operation was given
/// operands whose shapes do not agree, or a scalar access lay outside the
/// bounds of its axis.
#[derive(Debug, Clone, PartialEq, Eq)]
pub enum Error {
    ShapeMismatch { expected: Vec<usize>, actual: Vec<usize> },
    IndexOutOfRange { index: usize, bound: usize },
}

/// Holds exactly when `e` reports a shape mismatch between the two given
/// shape sequences.
pub open spec fn is_shape_mismatch(e: Error, expected: Seq<usize>, actual: Seq<usize>) -> bool {
    e matches Error::ShapeMismatch { expected: x, actual: a } && x@ == expected && a@ == actual
}

/// Holds exactly when `e` reports an access at `index` into an axis of
/// length `bound`.
pub open spec fn is_index_out_of_range(e: Error, index: usize, bound: usize) -> bool {
    e == (Error::IndexOutOfRange { index, bound })
}

} // verus!
