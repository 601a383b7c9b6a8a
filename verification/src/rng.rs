use rand::RngCore;
use rand::SeedableRng;
use vstd::prelude::*;

verus! {

use crate::layout::pair_index;

#[verifier::external_type_specification]
#[verifier::external_body]
pub struct ExSmallRng(rand::rngs::SmallRng);

/// Relies on rand's SmallRng::from_entropy: a small, fast generator
/// freshly seeded from the operating system's entropy source.
#[verifier::external_body]
pub(crate) fn entropy_rng() -> rand::rngs::SmallRng {
    rand::rngs::SmallRng::from_entropy()
}

/// Relies on rand's RngCore::next_u32: one draw from the generator;
/// nothing is assumed of the value drawn.
#[verifier::external_body]
pub(crate) fn rng_next_u32(rng: &mut rand::rngs::SmallRng) -> u32 {
    rng.next_u32()
}

/// One step of the linear-congruential generator: the next state of one
/// lane's stream, kept within 31 bits.
pub open spec fn lcg_next(seed: u32) -> u32 {
    (((1103515245 * (seed as int) + 12345) % 0x8000_0000) as u32)
}

/// The state of one lane's stream after `n` steps.
pub open spec fn lcg_iter(seed: u32, n: nat) -> u32
    decreases n,
{
    if n == 0 {
        seed
    } else {
        lcg_next(lcg_iter(seed, (n - 1) as nat))
    }
}

/// Advance one lane of the generator by one step.
pub fn lcg_step(seed: u32) -> (r: u32)
    ensures
        r == lcg_next(seed),
{
    let product = seed.wrapping_mul(1103515245);
    let sum = product.wrapping_add(12345);
    let r = sum & 0x7fffffff;
    proof {
        let a = 1103515245int;
        let s = seed as int;
        let m = 0x1_0000_0000int;
        vstd::arithmetic::div_mod::lemma_add_mod_noop(a * s, 12345, m);
        vstd::arithmetic::div_mod::lemma_small_mod(12345nat, m as nat);
        vstd::arithmetic::div_mod::lemma_mod_bound(a * s, m);
        assert(sum == (a * s + 12345) % m);
        assert(sum & 0x7fffffffu32 == sum % 0x80000000) by (bit_vector);
        vstd::arithmetic::div_mod::lemma_mod_mod(a * s + 12345, 0x8000_0000, 2);
    }
    r
}

/// Run the sixteen interleaved generator streams for `registers` steps,
/// collecting every intermediate state in register order: slot `16*j + l`
/// of the result holds the `j+1`-st state of lane `l`'s stream.  The final
/// states come back so further draws can be chained deterministically.
pub fn lcg_fill(seed: &[u32; 16], registers: usize) -> (r: (Vec<u32>, [u32; 16]))
    requires
        registers * 16 <= usize::MAX,
    ensures
        r.0@.len() == registers * 16,
        forall|j: int, l: int|
            0 <= j < registers && 0 <= l < 16 ==> r.0@[#[trigger] pair_index(16, j, l)]
                == lcg_iter(seed@[l], (j + 1) as nat),
        forall|l: int| 0 <= l < 16 ==> r.1@[l] == lcg_iter(seed@[l], registers as nat),
{
    let mut state: [u32; 16] = *seed;
    let mut out: Vec<u32> = Vec::new();
    let mut j: usize = 0;
    while j < registers
        invariant
            0 <= j <= registers,
            registers * 16 <= usize::MAX,
            out@.len() == j * 16,
            forall|l: int| 0 <= l < 16 ==> state@[l] == lcg_iter(seed@[l], j as nat),
            forall|jj: int, l: int|
                0 <= jj < j && 0 <= l < 16 ==> out@[#[trigger] pair_index(16, jj, l)] == lcg_iter(
                    seed@[l],
                    (jj + 1) as nat,
                ),
        decreases registers - j,
    {
        proof {
            assert((j + 1) * 16 <= registers * 16 && (j + 1) * 16 == j * 16 + 16)
                by (nonlinear_arith)
                requires 0 <= j < registers;
        }
        let mut l: usize = 0;
        while l < 16
            invariant
                0 <= l <= 16,
                0 <= j < registers,
                out@.len() == j * 16 + l,
                forall|ll: int|
                    0 <= ll < l ==> state@[ll] == lcg_iter(seed@[ll], (j + 1) as nat),
                forall|ll: int| l <= ll < 16 ==> state@[ll] == lcg_iter(seed@[ll], j as nat),
                forall|jj: int, ll: int|
                    0 <= jj < j && 0 <= ll < 16 ==> out@[#[trigger] pair_index(16, jj, ll)]
                        == lcg_iter(seed@[ll], (jj + 1) as nat),
                forall|ll: int|
                    0 <= ll < l ==> out@[j * 16 + ll] == lcg_iter(seed@[ll], (j + 1) as nat),
            decreases 16 - l,
        {
            let next = lcg_step(state[l]);
            state[l] = next;
            out.push(next);
            l += 1;
        }
        proof {
            assert forall|jj: int, ll: int| 0 <= jj < j + 1 && 0 <= ll < 16 implies out@[#[trigger] pair_index(
                16,
                jj,
                ll,
            )] == lcg_iter(seed@[ll], (jj + 1) as nat) by {
                if jj == j as int {
                    assert(pair_index(16, jj, ll) == j * 16 + ll);
                }
            }
        }
        j += 1;
    }
    (out, state)
}

} // verus!
