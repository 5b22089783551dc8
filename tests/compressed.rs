use matrix::{Compressed, Conventional, Diagonal, Multiply, MultiplyInto, MultiplySelf, Transpose, Variant};

fn dense_example() -> Conventional<i64> {
    Conventional::from_vec((2, 3), vec![1, 4, 2, 5, 3, 6])
}

fn dense_resize_fewer_columns() {
    let mut matrix = dense_example();
    matrix.resize((2, 2));
    // 1 2
    // 4 5
    assert_eq!(matrix, Conventional::from_vec((2, 2), vec![1, 4, 2, 5]));
}

fn dense_resize_fewer_rows() {
    let mut matrix = dense_example();
    matrix.resize((1, 3));
    // 1 2 3
    assert_eq!(matrix, Conventional::from_vec((1, 3), vec![1, 2, 3]));
}

fn dense_resize_more_columns() {
    let mut matrix = dense_example();
    matrix.resize((2, 4));
    // 1 2 3 0
    // 4 5 6 0
    assert_eq!(matrix, Conventional::from_vec((2, 4), vec![1, 4, 2, 5, 3, 6, 0, 0]));
}

fn dense_resize_more_rows() {
    let mut matrix = dense_example();
    matrix.resize((3, 3));
    // 1 2 3
    // 4 5 6
    // 0 0 0
    assert_eq!(matrix, Conventional::from_vec((3, 3), vec![1, 4, 0, 2, 5, 0, 3, 6, 0]));
}

fn sparse(
    rows: usize,
    columns: usize,
    nonzeros: usize,
    variant: Variant,
    values: Vec<i64>,
    indices: Vec<usize>,
    offsets: Vec<usize>,
) -> Compressed<i64> {
    Compressed { rows, columns, nonzeros, variant, values, indices, offsets }
}

fn example() -> Compressed<i64> {
    sparse(5, 7, 5, Variant::Column, vec![1, 2, 3, 4, 5], vec![1, 0, 3, 1, 4], vec![0, 0, 0, 1, 2, 2, 3, 5])
}

fn example_dense() -> Conventional<i64> {
    Conventional::from_vec((5, 3), vec![
        0, 1, 0, 0, 0,
        0, 0, 0, 2, 3,
        0, 0, 0, 0, 4,
    ])
}

fn check_get(conventional: &Conventional<i64>) {
    let matrix = Compressed::from_conventional(conventional);
    assert_eq!(matrix.nonzeros, 4);
    for i in 0..5 {
        for j in 0..3 {
            assert_eq!(conventional.get((i, j)), matrix.get((i, j)));
        }
    }
}

fn check_set(mut conventional: Conventional<i64>) {
    let mut matrix = Compressed::from_conventional(&conventional);
    assert_eq!(matrix.nonzeros, 4);

    conventional.set((0, 0), 42);
    conventional.set((3, 1), 69);

    matrix.set((0, 0), 42);
    matrix.set((3, 1), 69);
    matrix.set((4, 0), 0);

    assert_eq!(matrix.nonzeros, 4 + 1 + (1 - 1) + 1);
    assert_eq!(conventional, Conventional::from_compressed(&matrix));

    for i in 0..5 {
        for j in 0..3 {
            conventional.set((i, j), (j * 5 + i) as i64);
            matrix.set((i, j), (j * 5 + i) as i64);
        }
    }

    assert_eq!(matrix.nonzeros, 5 * 3);
    assert_eq!(conventional, Conventional::from_compressed(&matrix));
}

fn check_iter(matrix: &Compressed<i64>) {
    let mut rows = vec![];
    let mut columns = vec![];
    let mut values = vec![];
    let mut iterator = matrix.iter();
    while let Some((i, j, &value)) = iterator.next() {
        rows.push(i);
        columns.push(j);
        values.push(value);
    }
    assert_eq!(&rows, &vec![1, 0, 3, 1, 4]);
    assert_eq!(&columns, &vec![2, 3, 5, 6, 6]);
    assert_eq!(&values, &vec![1, 2, 3, 4, 5]);
}

fn check_resize_fewer_columns() {
    let mut matrix = example();

    matrix.resize((5, 5));
    assert_eq!(matrix, sparse(5, 5, 2, Variant::Column, vec![1, 2], vec![1, 0], vec![0, 0, 0, 1, 2, 2]));

    matrix.resize((5, 3));
    assert_eq!(matrix, sparse(5, 3, 1, Variant::Column, vec![1], vec![1], vec![0, 0, 0, 1]));

    matrix.resize((5, 1));
    assert_eq!(matrix, sparse(5, 1, 0, Variant::Column, vec![], vec![], vec![0, 0]));
}

fn check_resize_fewer_rows() {
    let mut matrix = example();

    matrix.resize((3, 7));
    assert_eq!(matrix, sparse(3, 7, 3, Variant::Column, vec![1, 2, 4], vec![1, 0, 1], vec![0, 0, 0, 1, 2, 2, 2, 3]));

    matrix.resize((1, 7));
    assert_eq!(matrix, sparse(1, 7, 1, Variant::Column, vec![2], vec![0], vec![0, 0, 0, 0, 1, 1, 1, 1]));
}

fn check_resize_more_columns() {
    let mut matrix = sparse(5, 7, 4, Variant::Column, vec![1, 2, 3, 4], vec![1, 1, 3, 4], vec![0, 0, 0, 1, 2, 2, 3, 4]);

    matrix.resize((5, 9));
    assert_eq!(matrix, sparse(5, 9, 4, Variant::Column, vec![1, 2, 3, 4], vec![1, 1, 3, 4], vec![0, 0, 0, 1, 2, 2, 3, 4, 4, 4]));

    matrix.resize((5, 11));
    assert_eq!(matrix, sparse(5, 11, 4, Variant::Column, vec![1, 2, 3, 4], vec![1, 1, 3, 4], vec![0, 0, 0, 1, 2, 2, 3, 4, 4, 4, 4, 4]));
}

fn check_resize_more_rows() {
    let mut matrix = sparse(5, 7, 4, Variant::Column, vec![1, 2, 3, 4], vec![1, 1, 3, 4], vec![0, 0, 0, 1, 2, 2, 3, 4]);

    matrix.resize((7, 7));
    assert_eq!(matrix, sparse(7, 7, 4, Variant::Column, vec![1, 2, 3, 4], vec![1, 1, 3, 4], vec![0, 0, 0, 1, 2, 2, 3, 4]));

    matrix.resize((9, 7));
    assert_eq!(matrix, sparse(9, 7, 4, Variant::Column, vec![1, 2, 3, 4], vec![1, 1, 3, 4], vec![0, 0, 0, 1, 2, 2, 3, 4]));
}

fn check_from_conventional() {
    // The dense matrix, row by row:
    //     0 0 0
    //     1 0 0
    //     0 0 0
    //     0 2 0
    //     0 3 4
    let matrix = Compressed::from_conventional(&example_dense());
    assert_eq!(matrix, sparse(5, 3, 4, Variant::Column, vec![1, 2, 3, 4], vec![1, 3, 4, 4], vec![0, 1, 3, 4]));
}

fn check_into_conventional() {
    let matrix = sparse(5, 3, 3, Variant::Column, vec![1, 2, 3], vec![0, 1, 2], vec![0, 1, 2, 3]);
    let matrix = Conventional::from_compressed(&matrix);
    assert_eq!(&matrix.values, &vec![
        1, 0, 0, 0, 0,
        0, 2, 0, 0, 0,
        0, 0, 3, 0, 0,
    ]);
}

fn check_nonzeros() {
    let matrix = sparse(5, 7, 5, Variant::Column, vec![1, 0, 3, 0, 5], vec![1, 0, 3, 1, 4], vec![0, 0, 0, 1, 2, 2, 3, 5]);
    assert_eq!(matrix.nonzeros, 5);
    assert_eq!(matrix.nonzeros(), 3);
}

fn check_transpose() {
    let matrix = example().transpose();
    assert_eq!(matrix, sparse(7, 5, 5, Variant::Column, vec![2, 1, 4, 3, 5], vec![3, 2, 6, 5, 6], vec![0, 1, 3, 3, 4, 5]));
}

fn left() -> Conventional<i64> {
    Conventional::from_vec((4, 3), vec![
        1, 2, 3, 4,
        5, 6, 6, 5,
        4, 3, 2, 1,
    ])
}

fn right() -> Conventional<i64> {
    Conventional::from_vec((3, 2), vec![
        1, 2, 3,
        4, 5, 6,
    ])
}

fn seeded() -> Conventional<i64> {
    Conventional::from_vec((4, 2), vec![
        1, 1, 1, 1,
        1, 1, 1, 1,
    ])
}

#[test]
fn compressed_get() {
    check_get(&example_dense());
}

#[test]
fn get() {
    check_get(&example_dense());
}

#[test]
fn mod_get() {
    check_get(&example_dense());
}

#[test]
fn compressed_set() {
    check_set(example_dense());
}

#[test]
fn set() {
    check_set(example_dense());
}

#[test]
fn mod_set() {
    check_set(example_dense());
}

#[test]
fn compressed_iter() {
    check_iter(&example());
}

#[test]
fn iter() {
    check_iter(&example());
}

#[test]
fn mod_iter() {
    check_iter(&example());
}

#[test]
fn compressed_resize_fewer_columns() {
    check_resize_fewer_columns();
}

#[test]
fn resize_fewer_columns() {
    check_resize_fewer_columns();
}

#[test]
fn mod_resize_fewer_columns() {
    check_resize_fewer_columns();
    dense_resize_fewer_columns();
}

#[test]
fn compressed_resize_fewer_rows() {
    check_resize_fewer_rows();
}

#[test]
fn resize_fewer_rows() {
    check_resize_fewer_rows();
}

#[test]
fn mod_resize_fewer_rows() {
    check_resize_fewer_rows();
    dense_resize_fewer_rows();
}

#[test]
fn compressed_resize_more_columns() {
    check_resize_more_columns();
}

#[test]
fn resize_more_columns() {
    check_resize_more_columns();
}

#[test]
fn mod_resize_more_columns() {
    check_resize_more_columns();
    dense_resize_more_columns();
}

#[test]
fn compressed_resize_more_rows() {
    check_resize_more_rows();
}

#[test]
fn resize_more_rows() {
    check_resize_more_rows();
}

#[test]
fn mod_resize_more_rows() {
    check_resize_more_rows();
    dense_resize_more_rows();
}

#[test]
fn from_dense() {
    check_from_conventional();
}

#[test]
fn compressed_from_conventional() {
    check_from_conventional();
}

#[test]
fn convert_from_conventional() {
    check_from_conventional();
}

#[test]
fn from_conventional() {
    check_from_conventional();
}

#[test]
fn into_dense() {
    check_into_conventional();
}

#[test]
fn compressed_into_conventional() {
    check_into_conventional();
}

#[test]
fn convert_into_conventional() {
    check_into_conventional();
}

#[test]
fn compressed_nonzeros() {
    check_nonzeros();
}

#[test]
fn mod_nonzeros() {
    check_nonzeros();
    let band = matrix::format::banded::Banded {
        rows: 7,
        columns: 4,
        superdiagonals: 2,
        subdiagonals: 2,
        values: vec![7, 7, 1, 4, 8, 7, 2, 5, 9, 12, 3, 6, 10, 0, 15, 7, 11, 0, 16, 17],
    };
    assert_eq!(band.nonzeros(), 17 - 2);
    assert_eq!(Conventional::from_vec(2, vec![1, 2, 3, 0]).nonzeros(), 3);
    let packed = matrix::format::packed::Packed {
        size: 4,
        variant: matrix::format::packed::Variant::Lower,
        values: vec![1, 0, 3, 0, 5, 0, 7, 8, 9, 10],
    };
    assert_eq!(packed.nonzeros(), 7);
}

#[test]
fn compressed_transpose() {
    check_transpose();
}

#[test]
fn operation_transpose() {
    check_transpose();
    let band = matrix::format::banded::Banded {
        rows: 4,
        columns: 8,
        superdiagonals: 3,
        subdiagonals: 1,
        values: vec![
            0, 0, 0, 1, 5, 0, 0, 2, 6, 10, 0, 3, 7, 11, 15, 4, 8, 12, 16, 0, 9, 13, 17, 0, 0, 14,
            18, 0, 0, 0, 19, 0, 0, 0, 0, 0, 0, 0, 0, 0,
        ],
    };
    let band = band.transpose();
    assert_eq!(band.values, (0..20).collect::<Vec<i64>>());
}

#[test]
fn multiply_into_left() {
    let matrix = Compressed::from_conventional(&left());
    let mut result = seeded();
    matrix.multiply_into(&right(), &mut result);
    assert_eq!(&result.values, &vec![
        24, 24, 22, 18,
        54, 57, 55, 48,
    ]);
}

#[test]
fn multiply_into_right() {
    let matrix = left();
    let right = Compressed::from_conventional(&right());
    let mut result = seeded();
    matrix.multiply_into(&right, &mut result);
    assert_eq!(&result.values, &vec![
        24, 24, 22, 18,
        54, 57, 55, 48,
    ]);
}

#[test]
fn operation_multiply_self() {
    let mut matrix = sparse(3, 2, 3, Variant::Column, vec![1, 2, 3], vec![1, 0, 2], vec![0, 1, 3]);
    let right = Diagonal::from_vec((2, 4), vec![4, 5]);
    matrix.multiply_self(&right);
    assert_eq!(matrix, sparse(3, 4, 3, Variant::Column, vec![4, 10, 15], vec![1, 0, 2], vec![0, 1, 3, 3, 3]));
}

#[test]
fn into_compressed_tall() {
    let matrix = Compressed::from_diagonal(&Diagonal::from_vec((5, 3), vec![1, 2, 0]));
    assert_eq!(matrix, sparse(5, 3, 3, Variant::Column, vec![1, 2, 0], vec![0, 1, 2], vec![0, 1, 2, 3]));
}

#[test]
fn into_compressed_wide() {
    let matrix = Compressed::from_diagonal(&Diagonal::from_vec((3, 5), vec![1, 0, 3]));
    assert_eq!(matrix, sparse(3, 5, 3, Variant::Column, vec![1, 0, 3], vec![0, 1, 2], vec![0, 1, 2, 3, 3, 3]));
}

#[test]
fn from_diagonal_tall() {
    let matrix = Compressed::from_diagonal(&Diagonal::from_vec((5, 3), vec![1, 2, 0]));
    assert_eq!(matrix, sparse(5, 3, 3, Variant::Column, vec![1, 2, 0], vec![0, 1, 2], vec![0, 1, 2, 3]));
}

#[test]
fn from_diagonal_wide() {
    let matrix = Compressed::from_diagonal(&Diagonal::from_vec((3, 5), vec![1, 0, 3]));
    assert_eq!(matrix, sparse(3, 5, 3, Variant::Column, vec![1, 0, 3], vec![0, 1, 2], vec![0, 1, 2, 3, 3, 3]));
}

#[test]
fn compressed_from_diagonal_tall() {
    let matrix = Compressed::from_diagonal(&Diagonal::from_vec((5, 3), vec![1, 2, 0]));
    assert_eq!(matrix, sparse(5, 3, 3, Variant::Column, vec![1, 2, 0], vec![0, 1, 2], vec![0, 1, 2, 3]));
}

#[test]
fn compressed_from_diagonal_wide() {
    let matrix = Compressed::from_diagonal(&Diagonal::from_vec((3, 5), vec![1, 0, 3]));
    assert_eq!(matrix, sparse(3, 5, 3, Variant::Column, vec![1, 0, 3], vec![0, 1, 2], vec![0, 1, 2, 3, 3, 3]));
}

#[test]
fn explicit_zero_is_stored() {
    let mut matrix = Compressed::from_conventional(&example_dense());
    assert_eq!(matrix.nonzeros, 4);
    matrix.set((4, 0), 0);
    assert_eq!(matrix.nonzeros, 5);
    assert_eq!(matrix.get((4, 0)), 0);
    assert_eq!(matrix.indices, vec![1, 4, 3, 4, 4]);
    assert_eq!(matrix.offsets, vec![0, 2, 4, 5]);
    assert_eq!(matrix.nonzeros(), 4);
}

#[test]
fn round_trip_keeps_every_value() {
    let zero = Conventional::from_vec((2, 3), vec![0i64; 6]);
    let sparse = Compressed::from_conventional(&zero);
    assert_eq!(sparse.nonzeros, 0);
    assert_eq!(sparse.offsets, vec![0, 0, 0, 0]);
    assert_eq!(Conventional::from_compressed(&sparse), zero);

    let full = Conventional::from_vec((2, 3), vec![1i64, -2, 3, -4, 5, -6]);
    let sparse = Compressed::from_conventional(&full);
    assert_eq!(sparse.nonzeros, 6);
    assert_eq!(sparse.indices, vec![0, 1, 0, 1, 0, 1]);
    assert_eq!(Conventional::from_compressed(&sparse), full);

    assert_eq!(Conventional::from_compressed(&Compressed::from_conventional(&example_dense())), example_dense());
}

#[test]
fn write_then_read() {
    let mut matrix: Compressed<i64> = Compressed::new((3, 4), Variant::Column);
    for i in 0..3 {
        for j in 0..4 {
            let value = (i * 10 + j) as i64 - 5;
            matrix.set((i, j), value);
            assert_eq!(matrix.get((i, j)), value);
        }
    }
    assert_eq!(matrix.nonzeros, 12);
}

#[test]
fn overwrite_does_not_duplicate() {
    let mut matrix: Compressed<i64> = Compressed::new((3, 3), Variant::Row);
    matrix.set((1, 2), 7);
    assert_eq!(matrix.nonzeros, 1);
    matrix.set((1, 2), 8);
    assert_eq!(matrix.nonzeros, 1);
    assert_eq!(matrix.get((1, 2)), 8);
    assert_eq!(matrix.values, vec![8]);
}

#[test]
fn row_variant_layout() {
    let mut matrix: Compressed<i64> = Compressed::with_capacity((3, 4), Variant::Row, 4);
    matrix.set((2, 1), 5);
    matrix.set((0, 3), 6);
    matrix.set((2, 0), 7);
    matrix.set((0, 1), 8);
    assert_eq!(matrix.offsets, vec![0, 2, 2, 4]);
    assert_eq!(matrix.indices, vec![1, 3, 0, 1]);
    assert_eq!(matrix.values, vec![8, 6, 7, 5]);
    assert_eq!(matrix.get((2, 0)), 7);
    assert_eq!(matrix.get((1, 1)), 0);

    let mut rows = vec![];
    let mut columns = vec![];
    let mut iterator = matrix.iter();
    while let Some((i, j, _)) = iterator.next() {
        rows.push(i);
        columns.push(j);
    }
    assert_eq!(rows, vec![0, 0, 2, 2]);
    assert_eq!(columns, vec![1, 3, 0, 1]);

    let dense = Conventional::from_compressed(&matrix);
    assert_eq!(dense.values, vec![0, 0, 7, 8, 0, 5, 0, 0, 0, 6, 0, 0]);

    let transposed = matrix.transpose();
    assert_eq!(transposed.rows, 4);
    assert_eq!(transposed.columns, 3);
    assert_eq!(transposed.variant, Variant::Row);
    assert_eq!(transposed.get((3, 0)), 6);
    assert_eq!(transposed.get((1, 2)), 5);
    assert_eq!(transposed.offsets, vec![0, 1, 3, 3, 4]);
}

#[test]
fn row_variant_resize() {
    let mut matrix: Compressed<i64> = Compressed::new((3, 4), Variant::Row);
    matrix.set((2, 1), 5);
    matrix.set((0, 3), 6);
    matrix.set((1, 2), 9);
    matrix.resize((2, 3));
    assert_eq!(matrix, sparse(2, 3, 1, Variant::Row, vec![9], vec![2], vec![0, 0, 1]));
    matrix.resize((4, 5));
    assert_eq!(matrix, sparse(4, 5, 1, Variant::Row, vec![9], vec![2], vec![0, 0, 1, 1, 1]));
    assert_eq!(matrix.get((1, 2)), 9);
}

#[test]
fn resize_to_nothing() {
    let mut matrix = example();
    matrix.resize((0, 7));
    assert_eq!(matrix, sparse(0, 7, 0, Variant::Column, vec![], vec![], vec![0; 8]));
    let mut matrix = example();
    matrix.resize((5, 0));
    assert_eq!(matrix, sparse(5, 0, 0, Variant::Column, vec![], vec![], vec![0]));
}

#[test]
fn growing_keeps_values() {
    let mut matrix = example();
    let before = Conventional::from_compressed(&matrix);
    matrix.resize((6, 9));
    for i in 0..5 {
        for j in 0..7 {
            assert_eq!(matrix.get((i, j)), before.get((i, j)));
        }
    }
    assert_eq!(matrix.nonzeros, 5);
}

#[test]
fn retain_keeps_what_the_condition_accepts() {
    let mut matrix = example();
    matrix.retain(|i, j, value| *value % 2 == 1 && i + j != 10);
    assert_eq!(matrix, sparse(5, 7, 2, Variant::Column, vec![1, 3], vec![1, 3], vec![0, 0, 0, 1, 1, 1, 2, 2]));
    let mut empty: Compressed<i64> = Compressed::new((2, 2), Variant::Row);
    empty.retain(|_, _, _| false);
    assert_eq!(empty.offsets, vec![0, 0, 0]);
    let mut all = example();
    all.retain(|_, _, _| false);
    assert_eq!(all, sparse(5, 7, 0, Variant::Column, vec![], vec![], vec![0; 8]));
}

#[test]
fn multiply_returns_a_new_matrix() {
    let matrix = sparse(3, 2, 3, Variant::Column, vec![1, 2, 3], vec![1, 0, 2], vec![0, 1, 3]);
    let right = Diagonal::from_vec((2, 1), vec![4]);
    let product = matrix.multiply(&right);
    assert_eq!(product, sparse(3, 1, 1, Variant::Column, vec![4], vec![1], vec![0, 1]));
    assert_eq!(matrix.nonzeros, 3);
}

#[test]
fn multiply_into_wraps_around() {
    let left = Compressed::from_conventional(&Conventional::from_vec((1, 1), vec![200u8]));
    let right = Conventional::from_vec((1, 1), vec![2u8]);
    let mut result = Conventional::from_vec((1, 1), vec![10u8]);
    left.multiply_into(&right, &mut result);
    assert_eq!(result.values, vec![10u8.wrapping_add(200u8.wrapping_mul(2))]);
}

#[test]
fn multiply_into_skips_absent_elements() {
    // 0 3
    // 4 0
    let left = Compressed::from_conventional(&Conventional::from_vec((2, 2), vec![0i32, 4, 3, 0]));
    let right = Conventional::from_vec((2, 1), vec![5, 7]);
    let mut result = Conventional::from_vec((2, 1), vec![100, 200]);
    left.multiply_into(&right, &mut result);
    assert_eq!(result.values, vec![121, 220]);

    let dense = Conventional::from_vec((1, 2), vec![5i32, 7]);
    let mut result = Conventional::from_vec((1, 2), vec![1, 1]);
    dense.multiply_into(&left, &mut result);
    assert_eq!(result.values, vec![29, 16]);
}
