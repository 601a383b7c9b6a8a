use vstd::prelude::*;

verus! {

use crate::array::Array;
use crate::layout::size_ok;
use crate::mask::Mask;

/// Round-trip law for rank-1 masks: packing any flat sequence of truth
/// values and flattening again yields the sequence unchanged.
pub fn mask_round_trip(data: &Vec<bool>) -> (r: Vec<bool>)
    requires
        data@.len() + 15 <= usize::MAX,
    ensures
        r@ == data@,
{
    Mask::from_flat(data).to_flat()
}

/// Round-trip law for rank-2 masks: packing any flat sequence of matching
/// length under any positive shape and flattening again yields the
/// sequence unchanged.
pub fn mask_round_trip_2d(data: &Vec<bool>, shape: [usize; 2]) -> (r: Vec<bool>)
    requires
        shape@[0] > 0,
        shape@[1] > 0,
        data@.len() == shape@[0] * shape@[1],
        size_ok(shape@),
    ensures
        r@ == data@,
{
    Mask::from_vec(data, shape).to_flat()
}

/// Round-trip law for rank-1 arrays: packing any flat sequence of element
/// payloads and flattening again yields the sequence unchanged.
pub fn array_round_trip(data: &Vec<u32>) -> (r: Vec<u32>)
    requires
        data@.len() + 15 <= usize::MAX,
        (data@.len() + 15) * 16 <= usize::MAX,
    ensures
        r@ == data@,
{
    Array::from_flat(data).to_flat()
}

/// Round-trip law for rank-2 arrays: packing any flat sequence of matching
/// length under any positive shape and flattening again yields the
/// sequence unchanged.
pub fn array_round_trip_2d(data: &Vec<u32>, shape: [usize; 2]) -> (r: Vec<u32>)
    requires
        shape@[0] > 0,
        shape@[1] > 0,
        data@.len() == shape@[0] * shape@[1],
        size_ok(shape@),
    ensures
        r@ == data@,
{
    Array::from_vec(data, shape).to_flat()
}

} // verus!
