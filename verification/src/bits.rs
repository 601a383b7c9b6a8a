use vstd::prelude::*;

verus! {

/// Truth value of lane `i` of a packed register word.
pub open spec fn word_bit(w: u16, i: u16) -> bool {
    (w >> i) & 1 == 1
}

/// Holds when every lane of `w` from `valid` upward reads false.
pub open spec fn tail_ok(w: u16, valid: int) -> bool {
    forall|i: u16| valid <= i < 16 ==> !(#[trigger] word_bit(w, i))
}

/// The zero word has no lane set.
pub proof fn lemma_word_bit_zero(i: u16)
    by (bit_vector)
    ensures
        !word_bit(0u16, i),
{
}

/// The all-ones word has every lane set.
pub proof fn lemma_word_bit_ones(i: u16)
    by (bit_vector)
    ensures
        i < 16 ==> word_bit(0xFFFFu16, i),
{
}

/// Bitwise or sets exactly the lanes set on either side.
pub proof fn lemma_word_bit_or(a: u16, b: u16, i: u16)
    by (bit_vector)
    ensures
        word_bit(a | b, i) == (word_bit(a, i) || word_bit(b, i)),
{
}

/// Bitwise and sets exactly the lanes set on both sides.
pub proof fn lemma_word_bit_and(a: u16, b: u16, i: u16)
    by (bit_vector)
    ensures
        word_bit(a & b, i) == (word_bit(a, i) && word_bit(b, i)),
{
}

/// Bitwise complement flips every lane.
pub proof fn lemma_word_bit_not(a: u16, i: u16)
    by (bit_vector)
    ensures
        i < 16 ==> word_bit(!a, i) == !word_bit(a, i),
{
}

/// Setting one lane leaves all other lanes as they were.
pub proof fn lemma_word_bit_set(a: u16, i: u16, j: u16)
    by (bit_vector)
    ensures
        i < 16 && j < 16 ==> word_bit(a | (1u16 << i), j) == (i == j || word_bit(a, j)),
{
}

/// Testing a lane against its one-hot word agrees with `word_bit`.
pub proof fn lemma_word_bit_test(w: u16, i: u16)
    by (bit_vector)
    ensures
        i < 16 ==> ((w & (1u16 << i) > 0) == word_bit(w, i)),
{
}

/// Masking with the tail mask keeps the low `r` lanes and clears the rest.
pub proof fn lemma_word_bit_tail_mask(w: u16, r: u16, i: u16)
    by (bit_vector)
    ensures
        0 < r < 16 && i < 16 ==> word_bit(w & (0xFFFFu16 >> ((16 - r) as u16)), i) == (word_bit(
            w,
            i,
        ) && i < r),
{
}

/// A single extracted lane is zero or one.
pub proof fn lemma_lane_extract_le_one(w: u16, j: u16)
    by (bit_vector)
    ensures
        ((w >> j) & 1) <= 1,
{
}

/// Broadcasting one lane of `w` fills a word with that lane's truth value.
pub proof fn lemma_word_bit_spread(w: u16, j: u16, i: u16)
    by (bit_vector)
    ensures
        j < 16 && i < 16 ==> word_bit((((w >> j) & 1) * 0xFFFF) as u16, i) == word_bit(w, j),
{
}

} // verus!
