use fast_arrays::{array_round_trip, array_round_trip_2d, lcg_fill, lcg_step, mask_round_trip,
    mask_round_trip_2d, Array, Mask, LANES};
use rand::Rng;
use rand::SeedableRng;
use rand_chacha::ChaCha20Rng;

fn get_random_bool_vec(seed: u64, len: usize) -> Vec<bool> {
    let mut rng = ChaCha20Rng::seed_from_u64(seed);
    let mut data = Vec::with_capacity(len);

    for _ in 0..len {
        data.push(rng.gen_bool(0.5));
    }

    data
}

fn get_random_u32_vec(seed: u64, len: usize) -> Vec<u32> {
    let mut rng = ChaCha20Rng::seed_from_u64(seed);
    let mut data = Vec::with_capacity(len);

    for _ in 0..len {
        data.push(rng.gen::<u32>());
    }

    data
}

#[test]
fn round_trip_across_register_boundaries() {
    for len in [0usize, 1, 15, 16, 17, 32, 33] {
        let bools = get_random_bool_vec(7, len);
        assert_eq!(mask_round_trip(&bools), bools);

        let words = get_random_u32_vec(8, len);
        assert_eq!(array_round_trip(&words), words);
    }
}

#[test]
fn round_trip_2d_across_register_boundaries() {
    for rows in [1usize, 2, 16, 17] {
        for columns in [1usize, 15, 16, 17, 33] {
            let bools = get_random_bool_vec(9, rows * columns);
            assert_eq!(mask_round_trip_2d(&bools, [rows, columns]), bools);

            let words = get_random_u32_vec(10, rows * columns);
            assert_eq!(array_round_trip_2d(&words, [rows, columns]), words);
        }
    }
}

#[test]
fn lanes_is_sixteen() {
    assert_eq!(LANES, 16);
}

#[test]
fn lcg_step_exact_values() {
    assert_eq!(lcg_step(0), 12345);
    assert_eq!(lcg_step(1), 1103527590 % 0x8000_0000);
    // Two steps of the recurrence, reduced to 31 bits at each step.
    let one = lcg_step(12345);
    let expected = ((1103515245u64 * 12345 + 12345) % 0x8000_0000) as u32;
    assert_eq!(one, expected);
}

#[test]
fn lcg_fill_interleaves_sixteen_streams() {
    let mut seed = [0u32; 16];
    for (l, s) in seed.iter_mut().enumerate() {
        *s = l as u32;
    }

    let (draws, final_seed) = lcg_fill(&seed, 3);
    assert_eq!(draws.len(), 48);

    for l in 0..16 {
        let mut expected = seed[l];
        for j in 0..3 {
            expected = lcg_step(expected);
            assert_eq!(draws[16 * j + l], expected);
        }
        assert_eq!(final_seed[l], expected);
    }
}

#[test]
fn random_seed_has_sixteen_lanes() {
    let seed = Array::<1>::random_seed();
    assert_eq!(seed.len(), 16);
}

#[test]
fn number_of_elements_matches_product() {
    let array = Array::<2>::zeros(&[6, 7]);
    assert_eq!(array.number_of_elements(), 42);

    let mask = Mask::<2>::zeros(&[6, 7]);
    assert_eq!(mask.get_shape(), &[6, 7]);
}
