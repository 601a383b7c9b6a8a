use fast_arrays::{Array, Error, Mask};
use rand::distributions::{Distribution, Uniform};
use rand::Rng;
use rand::SeedableRng;
use rand_chacha::ChaCha20Rng;

fn get_random_f32_vec(seed: u64, len: usize) -> Vec<f32> {
    let mut rng = ChaCha20Rng::seed_from_u64(seed);
    let distribution = Uniform::new(-10.0f32, 10.0f32);
    let mut data = Vec::with_capacity(len);

    for _ in 0..len {
        data.push(distribution.sample(&mut rng));
    }

    data
}

fn get_random_bool_vec(seed: u64, len: usize) -> Vec<bool> {
    let mut rng = ChaCha20Rng::seed_from_u64(seed);
    let mut data = Vec::with_capacity(len);

    for _ in 0..len {
        data.push(rng.gen_bool(0.5));
    }

    data
}

fn to_bits(data: &[f32]) -> Vec<u32> {
    data.iter().map(|v| v.to_bits()).collect()
}

fn from_bits(data: &[u32]) -> Vec<f32> {
    data.iter().map(|v| f32::from_bits(*v)).collect()
}

fn array1(data: &[f32]) -> Array<1> {
    Array::<1>::from_flat(&to_bits(data))
}

fn mask1(data: &[bool]) -> Mask<1> {
    Mask::<1>::from_flat(&data.to_vec())
}

#[test]
fn conversion1d() {
    for i in 0..64 {
        let data = get_random_f32_vec(0, i);
        let converted = array1(&data);
        let converted_back: Vec<f32> = from_bits(&converted.to_flat());

        assert_eq!(converted_back, data);
    }
}

#[test]
fn conversion2d() {
    for i in 1..32 {
        for j in 1..32 {
            let data = get_random_f32_vec(0, i * j);
            let converted: Array<2> = Array::<2>::from_vec(&to_bits(&data), [i, j]);
            let converted_back: Vec<f32> = from_bits(&converted.to_flat());

            assert_eq!(converted_back, data);
        }
    }
}

#[test]
fn zeros1d() {
    for i in 0..64 {
        let zeros: Vec<f32> = from_bits(&Array::<1>::zeros(&[i]).to_flat());

        assert_eq!(zeros, vec![0.0; i]);
    }
}

#[test]
fn zeros2d() {
    for i in 0..32 {
        for j in 0..32 {
            let zeros: Vec<f32> = from_bits(&Array::<2>::zeros(&[i, j]).to_flat());

            assert_eq!(zeros, vec![0.0; i * j]);
        }
    }
}

#[test]
fn from_value1d() {
    for i in 0..64 {
        let array: Vec<f32> = from_bits(&Array::<1>::new_from_value(&[i], 42.0f32.to_bits()).to_flat());

        assert_eq!(array, vec![42.0; i]);
    }
}

#[test]
fn from_value2d() {
    for i in 0..32 {
        for j in 0..32 {
            let array: Vec<f32> =
                from_bits(&Array::<2>::new_from_value(&[i, j], 42.0f32.to_bits()).to_flat());

            assert_eq!(array, vec![42.0; i * j]);
        }
    }
}

#[test]
fn basic_get() {
    for i in 0..64 {
        let data = get_random_f32_vec(0, i);
        let array = array1(&data);

        for j in 0..i {
            assert_eq!(f32::from_bits(array.get(j).unwrap()), *data.get(j).unwrap());
        }
    }
}

#[test]
fn get_out_of_bounds_is_reported() {
    let data = get_random_f32_vec(0, 64);
    let array = array1(&data);

    assert_eq!(
        array.get(64),
        Err(Error::IndexOutOfRange { index: 64, bound: 64 })
    );
}

#[test]
fn set_1d() {
    for i in 0..64 {
        let data = get_random_f32_vec(0, i);
        let mut array = array1(&data);

        for j in 0..i {
            array.set(j, ((j + 10) as f32).to_bits()).unwrap();
            assert_eq!(f32::from_bits(array.get(j).unwrap()), (j + 10) as f32);
        }
    }
}

#[test]
fn set_1d_out_of_bounds_is_reported() {
    let data = get_random_f32_vec(0, 64);
    let mut array = array1(&data);

    assert_eq!(
        array.set(64, 42.0f32.to_bits()),
        Err(Error::IndexOutOfRange { index: 64, bound: 64 })
    );
}

#[test]
fn get_set_2d() {
    for rows in 1..32 {
        for columns in 1..32 {
            let data = get_random_f32_vec(0, rows * columns);
            let mut array: Array<2> = Array::<2>::zeros(&[rows, columns]);

            for row in 0..rows {
                for column in 0..columns {
                    array
                        .set(row, column, data[row * columns + column].to_bits())
                        .unwrap();
                }
            }

            for row in 0..rows {
                for column in 0..columns {
                    assert_eq!(
                        f32::from_bits(array.get(row, column).unwrap()),
                        data[row * columns + column]
                    );
                }
            }
        }
    }
}

#[test]
fn get_2d_out_of_bounds_is_reported() {
    let array = Array::<2>::zeros(&[3, 4]);

    assert_eq!(
        array.get(4, 4),
        Err(Error::IndexOutOfRange { index: 4, bound: 3 })
    );
    assert_eq!(
        array.get(2, 4),
        Err(Error::IndexOutOfRange { index: 4, bound: 4 })
    );
}

#[test]
fn set_2d_out_of_bounds_is_reported() {
    let mut array = Array::<2>::zeros(&[3, 4]);

    assert_eq!(
        array.set(4, 4, 42.0f32.to_bits()),
        Err(Error::IndexOutOfRange { index: 4, bound: 3 })
    );
}

#[test]
fn set_all() {
    for i in 0..64 {
        let data = get_random_f32_vec(0, i);
        let mut array = array1(&data);

        array.set_all(42.0f32.to_bits());
        let new_data: Vec<f32> = from_bits(&array.to_flat());

        assert_eq!(new_data, vec![42.0f32; i]);
    }
}

#[test]
fn set_masked() {
    for i in 0..64 {
        let data = get_random_f32_vec(0, i);
        let mask_data = get_random_bool_vec(1, i);
        let mut array = array1(&data);
        let mask = mask1(&mask_data);

        array.set_masked(42.0f32.to_bits(), &mask).unwrap();

        let result: Vec<f32> = from_bits(&array.to_flat());

        for ((r, d), m) in result.iter().zip(data.iter()).zip(mask_data.iter()) {
            if *m {
                assert_eq!(*r, 42.0);
            } else {
                assert_eq!(r, d);
            }
        }
    }
}

#[test]
fn set_masked_mismatched_shapes_are_reported() {
    let data = get_random_f32_vec(0, 3);
    let mask_data = get_random_bool_vec(1, 4);
    let mut array = array1(&data);
    let mask = mask1(&mask_data);

    assert_eq!(
        array.set_masked(42.0f32.to_bits(), &mask),
        Err(Error::ShapeMismatch { expected: vec![3], actual: vec![4] })
    );
}

#[test]
fn set_masked2() {
    for i in 0..64 {
        let data1 = get_random_f32_vec(0, i);
        let mask_data = get_random_bool_vec(1, i);

        let mut array1v = array1(&data1);
        let mask = mask1(&mask_data);

        array1v
            .set_masked2(42.0f32.to_bits(), 43.0f32.to_bits(), &mask)
            .unwrap();

        let result: Vec<f32> = from_bits(&array1v.to_flat());

        for (r, m) in result.iter().zip(mask_data.iter()) {
            if *m {
                assert_eq!(*r, 43.0);
            } else {
                assert_eq!(*r, 42.0);
            }
        }
    }
}

#[test]
fn basic_copy() {
    for i in 0..64 {
        let data1 = get_random_f32_vec(0, i);
        let data2 = get_random_f32_vec(1, i);

        let mut array1v = array1(&data1);
        let array2 = array1(&data2);

        array1v.copy(&array2).unwrap();

        let result: Vec<f32> = from_bits(&array1v.to_flat());

        for (r, d) in result.iter().zip(data2.iter()) {
            assert_eq!(r, d);
        }
    }
}

#[test]
fn copy_mismatched_shapes_are_reported() {
    let data1 = get_random_f32_vec(0, 3);
    let data2 = get_random_f32_vec(1, 4);

    let mut array1v = array1(&data1);
    let array2 = array1(&data2);

    assert_eq!(
        array1v.copy(&array2),
        Err(Error::ShapeMismatch { expected: vec![3], actual: vec![4] })
    );
}

#[test]
fn copy_masked() {
    for i in 0..64 {
        let data1 = get_random_f32_vec(0, i);
        let data2 = get_random_f32_vec(1, i);
        let mask_data = get_random_bool_vec(2, i);

        let mut array1v = array1(&data1);
        let array2 = array1(&data2);
        let mask = mask1(&mask_data);

        array1v.copy_masked(&array2, &mask).unwrap();

        let result: Vec<f32> = from_bits(&array1v.to_flat());

        for (((r, m), d1), d2) in result
            .iter()
            .zip(mask_data.iter())
            .zip(data1.iter())
            .zip(data2.iter())
        {
            if *m {
                assert_eq!(*r, *d2);
            } else {
                assert_eq!(*r, *d1);
            }
        }
    }
}

#[test]
fn copy_masked_mismatched_shapes_are_reported() {
    let data1 = get_random_f32_vec(0, 3);
    let data2 = get_random_f32_vec(1, 4);
    let mask_data = get_random_bool_vec(2, 5);

    let mut array1v = array1(&data1);
    let array2 = array1(&data2);
    let mask = mask1(&mask_data);

    assert!(matches!(
        array1v.copy_masked(&array2, &mask),
        Err(Error::ShapeMismatch { .. })
    ));
}

#[test]
fn copy_masked2() {
    for i in 0..64 {
        let data1 = get_random_f32_vec(0, i);
        let data2 = get_random_f32_vec(1, i);
        let data3 = get_random_f32_vec(2, i);
        let mask_data = get_random_bool_vec(3, i);

        let mut array1v = array1(&data1);
        let array2 = array1(&data2);
        let array3 = array1(&data3);
        let mask = mask1(&mask_data);

        array1v.copy_masked2(&array2, &array3, &mask).unwrap();

        let result: Vec<f32> = from_bits(&array1v.to_flat());

        for (((r, m), d2), d3) in result
            .iter()
            .zip(mask_data.iter())
            .zip(data2.iter())
            .zip(data3.iter())
        {
            if *m {
                assert_eq!(*r, *d3);
            } else {
                assert_eq!(*r, *d2);
            }
        }
    }
}

#[test]
fn basic_tile_in_place() {
    for i in 1..5 {
        for j in 1..5 {
            let n = i * 16;
            let k = j * 16;
            let data = get_random_f32_vec(0, n);
            let array = array1(&data);
            let mut output = Array::<1>::zeros(&[n * k]);

            array.tile_in_place(k, &mut output).unwrap();

            let output_data: Vec<f32> = from_bits(&output.to_flat());

            for (i, m) in output_data.iter().enumerate() {
                assert_eq!(*m, data[i % n]);
            }
        }
    }
}

#[test]
fn basic_repeat_in_place() {
    for i in 1..5 {
        for j in 1..5 {
            let n = i * 16;
            let k = j * 16;
            let data = get_random_f32_vec(0, n);
            let array = array1(&data);
            let mut output = Array::<1>::zeros(&[n * k]);

            array.repeat_in_place(k, &mut output).unwrap();

            let output_data: Vec<f32> = from_bits(&output.to_flat());

            for (i, m) in output_data.iter().enumerate() {
                assert_eq!(*m, data[i / k]);
            }
        }
    }
}

#[test]
fn incremental_fill_scenario() {
    let mut array = Array::<2>::zeros(&[3, 4]);

    for i in 0..3 {
        for j in 0..4 {
            array.set(i, j, ((i * 4 + j) as f32).to_bits()).unwrap();
        }
    }

    assert_eq!(f32::from_bits(array.get(2, 3).unwrap()), 11.0);

    let flattened: Vec<f32> = from_bits(&array.to_flat());
    let expected: Vec<f32> = (0..12).map(|x| x as f32).collect();
    assert_eq!(flattened, expected);
}
