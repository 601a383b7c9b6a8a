//! A dense numeric tensor engine with a register-based storage layout:
//! elements are grouped into 16-lane registers, the innermost axis is padded
//! to a whole number of registers, and boolean masks are bit-packed one bit
//! per lane.  This crate owns the layout and indexing discipline, the mask
//! engine with its tail-zero invariant, the data-movement operations of the
//! array type, and the lane-parallel linear-congruential generator; the
//! floating-point interpretation of the stored 32-bit elements is left to
//! the callers.

pub mod array;
pub mod bits;
pub mod error;
pub mod laws;
pub mod layout;
pub mod mask;
pub mod rng;

pub use array::Array;
pub use error::Error;
pub use laws::{array_round_trip, array_round_trip_2d, mask_round_trip, mask_round_trip_2d};
pub use layout::LANES;
pub use mask::Mask;
pub use mask::MutableMasks;
pub use rng::{lcg_fill, lcg_step};
