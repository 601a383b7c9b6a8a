use fast_arrays::{Array, Error};
use rand::distributions::{Distribution, Uniform};
use rand::SeedableRng;
use rand_chacha::ChaCha20Rng;

fn get_random_f32_vec(seed: u64, len: usize) -> Vec<f32> {
    let mut rng = ChaCha20Rng::seed_from_u64(seed);
    let distribution = Uniform::new(-10.0f32, 10.0f32);
    let mut data = Vec::with_capacity(len);

    for _ in 0..len {
        data.push(distribution.sample(&mut rng));
    }

    data
}

fn to_bits(data: &[f32]) -> Vec<u32> {
    data.iter().map(|v| v.to_bits()).collect()
}

fn array1(data: &[f32]) -> Array<1> {
    Array::<1>::from_flat(&to_bits(data))
}

#[test]
fn repeat_as_row_in_place() {
    for columns in 1..32 {
        for rows in 1..32 {
            let data = get_random_f32_vec(0, columns);
            let array_1d = array1(&data);
            let mut output = Array::<2>::zeros(&[rows, columns]);

            array_1d.repeat_as_row_in_place(rows, &mut output).unwrap();

            for i in 0..columns {
                for j in 0..rows {
                    assert_eq!(f32::from_bits(output.get(j, i).unwrap()), data[i]);
                }
            }
        }
    }
}

#[test]
fn repeat_as_row_in_place_shape_mismatch() {
    for columns in 1..32 {
        for rows in 1..32 {
            let data = get_random_f32_vec(0, rows);
            let array_1d = array1(&data);
            let mut output = Array::<2>::zeros(&[rows, columns]);

            array_1d
                .repeat_as_column_in_place(columns, &mut output)
                .unwrap();

            for k in 0..columns {
                for l in 0..rows {
                    assert_eq!(f32::from_bits(output.get(l, k).unwrap()), data[l]);
                }
            }
        }
    }
}

#[test]
fn repeat_as_column_rejects_wrong_shape() {
    let data = get_random_f32_vec(0, 4);
    let array_1d = array1(&data);
    let mut output = Array::<2>::zeros(&[5, 6]);

    assert_eq!(
        array_1d.repeat_as_column_in_place(6, &mut output),
        Err(Error::ShapeMismatch { expected: vec![4, 6], actual: vec![5, 6] })
    );
}

#[test]
fn transpose_matches_index_swap() {
    for rows in 1..24 {
        for columns in 1..24 {
            let data = get_random_f32_vec(0, rows * columns);
            let matrix = Array::<2>::from_vec(&to_bits(&data), [rows, columns]);
            let transposed = matrix.transpose();

            assert_eq!(*transposed.get_shape(), [columns, rows]);

            for i in 0..columns {
                for j in 0..rows {
                    assert_eq!(
                        f32::from_bits(transposed.get(i, j).unwrap()),
                        data[j * columns + i]
                    );
                }
            }
        }
    }
}
