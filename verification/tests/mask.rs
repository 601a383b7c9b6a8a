use fast_arrays::{Error, Mask};
use rand::Rng;
use rand::SeedableRng;
use rand_chacha::ChaCha20Rng;

fn get_random_bool_vec(seed: u64, len: usize) -> Vec<bool> {
    let mut rng = ChaCha20Rng::seed_from_u64(seed);
    let mut data = Vec::with_capacity(len);

    for _ in 0..len {
        data.push(rng.gen_bool(0.5));
    }

    data
}

#[test]
fn convert() {
    for i in 0..64 {
        let data = get_random_bool_vec(0, i);
        let converted = Mask::<1>::from_flat(&data);
        converted.assert_invariants_satisfied();
        let converted_back: Vec<bool> = converted.to_flat();

        assert_eq!(converted_back, data);
    }
}

#[test]
fn mask_copy() {
    for i in 0..64 {
        let data = get_random_bool_vec(0, i);
        let mask1 = Mask::<1>::from_flat(&data);
        mask1.assert_invariants_satisfied();

        let mut mask2 = Mask::<1>::zeros(mask1.get_shape());
        mask2.copy(&mask1).unwrap();

        let copied_data: Vec<bool> = mask2.to_flat();

        assert_eq!(copied_data, data);
    }
}

#[test]
fn mask_get() {
    for i in 1..64 {
        let data = get_random_bool_vec(0, i);
        let converted = Mask::<1>::from_flat(&data);
        converted.assert_invariants_satisfied();

        for j in 0..i {
            assert_eq!(data[j], converted.get(j).unwrap());
        }
    }
}

#[test]
fn mask_get_out_of_bounds_is_reported() {
    let data = get_random_bool_vec(0, 5);
    let mask = Mask::<1>::from_flat(&data);

    assert_eq!(
        mask.get(5),
        Err(Error::IndexOutOfRange { index: 5, bound: 5 })
    );
}

#[test]
fn not_in_place() {
    for i in 0..64 {
        let data = get_random_bool_vec(0, i);
        let mut mask = Mask::<1>::from_flat(&data);
        mask.assert_invariants_satisfied();

        mask.not_in_place();
        mask.assert_invariants_satisfied();

        let result: Vec<bool> = mask.to_flat();

        for (d, r) in data.iter().zip(result.iter()) {
            assert_eq!(*r, !*d);
        }
    }
}

#[test]
fn and_or_in_place() {
    for i in 0..64 {
        let data1 = get_random_bool_vec(0, i);
        let data2 = get_random_bool_vec(1, i);

        let mut anded = Mask::<1>::from_flat(&data1);
        anded.and_in_place(&Mask::<1>::from_flat(&data2)).unwrap();
        anded.assert_invariants_satisfied();

        let mut ored = Mask::<1>::from_flat(&data1);
        ored.or_in_place(&Mask::<1>::from_flat(&data2)).unwrap();
        ored.assert_invariants_satisfied();

        let and_result: Vec<bool> = anded.to_flat();
        let or_result: Vec<bool> = ored.to_flat();

        for (((d1, d2), a), o) in data1
            .iter()
            .zip(data2.iter())
            .zip(and_result.iter())
            .zip(or_result.iter())
        {
            assert_eq!(*a, *d1 & *d2);
            assert_eq!(*o, *d1 | *d2);
        }
    }
}

#[test]
fn and_or_out_of_place() {
    for i in 0..64 {
        let data1 = get_random_bool_vec(0, i);
        let data2 = get_random_bool_vec(1, i);

        let mask1 = Mask::<1>::from_flat(&data1);
        let mask2 = Mask::<1>::from_flat(&data2);

        let and_result: Vec<bool> = mask1.and(&mask2).unwrap().to_flat();
        let or_result: Vec<bool> = mask1.or(&mask2).unwrap().to_flat();
        let not_result: Vec<bool> = mask1.not().to_flat();

        for (((d1, d2), a), o) in data1
            .iter()
            .zip(data2.iter())
            .zip(and_result.iter())
            .zip(or_result.iter())
        {
            assert_eq!(*a, *d1 & *d2);
            assert_eq!(*o, *d1 | *d2);
        }

        for (d1, n) in data1.iter().zip(not_result.iter()) {
            assert_eq!(*n, !*d1);
        }
    }
}

#[test]
fn two_inputs_mismatched_shape_is_reported() {
    let data1 = get_random_bool_vec(0, 4);
    let data2 = get_random_bool_vec(1, 5);

    let mut mask1 = Mask::<1>::from_flat(&data1);
    let mask2 = Mask::<1>::from_flat(&data2);

    assert_eq!(
        mask1.and_in_place(&mask2),
        Err(Error::ShapeMismatch { expected: vec![4], actual: vec![5] })
    );
    assert_eq!(
        mask1.or_in_place(&mask2),
        Err(Error::ShapeMismatch { expected: vec![4], actual: vec![5] })
    );
    assert!(matches!(mask1.and(&mask2), Err(Error::ShapeMismatch { .. })));
    assert!(matches!(mask1.or(&mask2), Err(Error::ShapeMismatch { .. })));
    let unchanged: Vec<bool> = mask1.to_flat();
    assert_eq!(unchanged, data1);
}

#[test]
fn mask_tile_in_place() {
    for i in 1..5 {
        for j in 1..5 {
            let n = i * 16;
            let k = j * 16;
            let data = get_random_bool_vec(0, n);
            let mask = Mask::<1>::from_flat(&data);
            mask.assert_invariants_satisfied();
            let mut output = Mask::<1>::zeros(&[n * k]);
            output.assert_invariants_satisfied();

            mask.tile_in_place(k, &mut output).unwrap();
            output.assert_invariants_satisfied();

            let output_data: Vec<bool> = output.to_flat();

            for (i, m) in output_data.iter().enumerate() {
                assert_eq!(*m, data[i % n]);
            }
        }
    }
}

#[test]
fn mask_repeat_in_place() {
    for i in 1..5 {
        for j in 1..5 {
            let n = i * 16;
            let k = j * 16;
            let data = get_random_bool_vec(0, n);
            let mask = Mask::<1>::from_flat(&data);
            mask.assert_invariants_satisfied();
            let mut output = Mask::<1>::zeros(&[n * k]);
            output.assert_invariants_satisfied();

            mask.repeat_in_place(k, &mut output).unwrap();
            output.assert_invariants_satisfied();

            let output_data: Vec<bool> = output.to_flat();

            for (i, m) in output_data.iter().enumerate() {
                assert_eq!(*m, data[i / k]);
            }
        }
    }
}

#[test]
fn mask_repeat_as_row_in_place() {
    for columns in 1..32 {
        for rows in 1..32 {
            let data = get_random_bool_vec(0, columns);
            let mask_1d = Mask::<1>::from_flat(&data);
            let mut output = Mask::<2>::zeros(&[rows, columns]);

            mask_1d.repeat_as_row_in_place(rows, &mut output).unwrap();

            for i in 0..columns {
                for j in 0..rows {
                    assert_eq!(output.get(j, i).unwrap(), data[i]);
                }
            }
        }
    }
}

#[test]
fn mask_repeat_as_row_in_place_shape_mismatch() {
    for columns in 1..32 {
        for rows in 1..32 {
            let data = get_random_bool_vec(0, rows);
            let array_1d = Mask::<1>::from_flat(&data);
            let mut output = Mask::<2>::zeros(&[rows, columns]);

            array_1d
                .repeat_as_column_in_place(columns, &mut output)
                .unwrap();

            for k in 0..columns {
                for l in 0..rows {
                    assert_eq!(output.get(l, k).unwrap(), data[l]);
                }
            }
        }
    }
}

#[test]
fn tile_rejects_wrong_output_length() {
    let data = get_random_bool_vec(0, 16);
    let mask = Mask::<1>::from_flat(&data);
    let mut output = Mask::<1>::zeros(&[40]);

    assert_eq!(
        mask.tile_in_place(2, &mut output),
        Err(Error::ShapeMismatch { expected: vec![32], actual: vec![40] })
    );
}

#[test]
fn repeat_as_row_rejects_wrong_shape() {
    let data = get_random_bool_vec(0, 5);
    let mask_1d = Mask::<1>::from_flat(&data);
    let mut output = Mask::<2>::zeros(&[3, 7]);

    assert_eq!(
        mask_1d.repeat_as_row_in_place(3, &mut output),
        Err(Error::ShapeMismatch { expected: vec![3, 5], actual: vec![3, 7] })
    );
}

#[test]
fn from_vec_2d_round_trip() {
    for i in 1..32 {
        for j in 1..32 {
            let data = get_random_bool_vec(0, i * j);
            let mask = Mask::<2>::from_vec(&data, [i, j]);
            mask.assert_invariants_satisfied();

            for r in 0..i {
                for c in 0..j {
                    assert_eq!(mask.get(r, c).unwrap(), data[r * j + c]);
                }
            }
        }
    }
}

#[test]
fn zero_out_unused_elements_1d() {
    for i in 1..64usize {
        let n_masks = i.div_ceil(16);
        let mut mask = Mask::<1>::zeros(&[i]);

        let mut g = mask.get_masks_mut();
        for w in 0..g.word_count() {
            g.set_word(w, 0xFFFF);
        }
        mask.restore_masks(g);

        mask.zero_out_unused_elements();

        for j in 0..n_masks * 16 {
            let expected_bit = if j < i { 1 } else { 0 };

            let actual_bit = (mask.get_masks()[j / 16] >> (j % 16)) & 1;

            assert_eq!(expected_bit, actual_bit);
        }
    }
}

#[test]
fn zero_out_unused_elements_2d() {
    for i in 1..64usize {
        for j in 1..64usize {
            let masks_per_row = j.div_ceil(16);
            let mut mask = Mask::<2>::zeros(&[i, j]);

            let mut g = mask.get_masks_mut();
            for w in 0..g.word_count() {
                g.set_word(w, 0xFFFF);
            }
            mask.restore_masks(g);

            mask.zero_out_unused_elements();

            for k in 0..i {
                for l in 0..masks_per_row * 16 {
                    let expected_bit = if l < j { 1 } else { 0 };

                    let actual_bit = (mask.get_masks()[k * masks_per_row + (l / 16)] >> (l % 16)) & 1;

                    assert_eq!(expected_bit, actual_bit);
                }
            }
        }
    }
}

#[test]
fn get_masks_mut_1d() {
    for i in 1..64usize {
        let n_masks = i.div_ceil(16);
        let mut mask = Mask::<1>::zeros(&[i]);

        let mut g = mask.get_masks_mut();
        for w in 0..g.word_count() {
            g.set_word(w, 0xFFFF);
        }
        mask.restore_masks(g);

        for j in 0..n_masks * 16 {
            let expected_bit = if j < i { 1 } else { 0 };

            let actual_bit = (mask.get_masks()[j / 16] >> (j % 16)) & 1;

            assert_eq!(expected_bit, actual_bit);
        }
    }
}

#[test]
fn get_masks_mut_2d() {
    for i in 1..64usize {
        for j in 1..64usize {
            let masks_per_row = j.div_ceil(16);
            let mut mask = Mask::<2>::zeros(&[i, j]);

            let mut g = mask.get_masks_mut();
            for w in 0..g.word_count() {
                g.set_word(w, 0xFFFF);
            }
            mask.restore_masks(g);

            for k in 0..i {
                for l in 0..masks_per_row * 16 {
                    let expected_bit = if l < j { 1 } else { 0 };

                    let actual_bit = (mask.get_masks()[k * masks_per_row + (l / 16)] >> (l % 16)) & 1;

                    assert_eq!(expected_bit, actual_bit);
                }
            }
        }
    }
}

#[test]
fn not_scenario() {
    let mask = Mask::<1>::from_flat(&vec![true, false, true]);
    assert_eq!(mask.get(1).unwrap(), false);

    let negated = mask.not();
    assert_eq!(negated.get(1).unwrap(), true);
    assert_eq!(negated.get(0).unwrap(), false);
    assert_eq!(negated.get(2).unwrap(), false);
}

#[test]
fn tail_stays_zero_after_mutation() {
    for i in [1usize, 3, 15, 17, 31, 33] {
        let data = get_random_bool_vec(0, i);
        let mut mask = Mask::<1>::from_flat(&data);
        mask.not_in_place();

        let words = mask.get_masks();
        let valid_in_last = if i % 16 == 0 { 16 } else { i % 16 };
        let last = words[words.len() - 1];
        for bit in valid_in_last..16 {
            assert_eq!((last >> bit) & 1, 0);
        }
    }
}
