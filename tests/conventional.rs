use matrix::{Conventional, Diagonal, MultiplySelf, Transpose};

#[test]
fn resize_more_columns_rows() {
    let mut matrix = Conventional::from_vec((2, 3), vec![1, 4, 2, 5, 3, 6]);
    matrix.resize((3, 4));
    // 1 2 3 0
    // 4 5 6 0
    // 0 0 0 0
    assert_eq!(matrix, Conventional::from_vec((3, 4), vec![1, 4, 0, 2, 5, 0, 3, 6, 0, 0, 0, 0]));
}

#[test]
fn nonzeros() {
    let matrix = Conventional::from_vec(2, vec![1, 2, 3, 0]);
    assert_eq!(matrix.nonzeros(), 3);
}

#[test]
fn conventional_nonzeros() {
    let matrix = Conventional::from_vec(2, vec![1, 2, 3, 0]);
    assert_eq!(matrix.nonzeros(), 3);
}

#[test]
fn conventional_transpose() {
    let mut matrix = Conventional::from_vec((3, 2), vec![1, 2, 3, 4, 5, 6]);
    matrix = matrix.transpose();
    assert_eq!(matrix, Conventional::from_vec((2, 3), vec![1, 4, 2, 5, 3, 6]));
}

#[test]
fn mod_transpose() {
    // 1 4
    // 2 5
    // 3 6
    let matrix = Conventional::from_vec((3, 2), vec![1, 2, 3, 4, 5, 6]);
    // 1 2 3
    // 4 5 6
    assert_eq!(matrix.transpose(), Conventional::from_vec((2, 3), vec![1, 4, 2, 5, 3, 6]));
}

#[test]
fn diagonal_into_conventional() {
    let matrix = Diagonal::from_vec((3, 5), vec![1, 2, 3]);
    let matrix = Conventional::from_diagonal(&matrix);
    // 1 0 0 0 0
    // 0 2 0 0 0
    // 0 0 3 0 0
    assert_eq!(matrix, Conventional::from_vec((3, 5), vec![
        1, 0, 0,
        0, 2, 0,
        0, 0, 3,
        0, 0, 0,
        0, 0, 0,
    ]));
}

#[test]
fn into_conventional() {
    let matrix = Conventional::from_diagonal(&Diagonal::from_vec((3, 5), vec![1, 2, 3]));
    assert_eq!(matrix, Conventional::from_vec((3, 5), vec![
        1, 0, 0,
        0, 2, 0,
        0, 0, 3,
        0, 0, 0,
        0, 0, 0,
    ]));
}

#[test]
fn from_slice_copies_values() {
    let values = [7, 0, 9, 1];
    let matrix = Conventional::from_slice((2, 2), &values);
    assert_eq!(matrix.get((0, 1)), 9);
    assert_eq!(matrix.get((1, 0)), 0);
    assert_eq!(matrix.values, vec![7, 0, 9, 1]);
}

#[test]
fn new_is_zero() {
    let matrix: Conventional<i32> = Conventional::new((2, 3));
    assert_eq!(matrix.values, vec![0; 6]);
    assert_eq!(matrix.nonzeros(), 0);
}

#[test]
fn mod_multiply_self() {
    // 1 4
    // 2 5
    // 3 6
    let mut matrix = Conventional::from_vec((3, 2), vec![1, 2, 3, 4, 5, 6]);
    let right = Diagonal::from_vec((2, 4), vec![2, 3]);
    matrix.multiply_self(&right);
    //  2 12 0 0
    //  4 15 0 0
    //  6 18 0 0
    assert_eq!(&matrix.values, &vec![2, 4, 6, 12, 15, 18, 0, 0, 0, 0, 0, 0]);
}

#[test]
fn diagonal_nonzeros() {
    let matrix = Diagonal::from_vec(4, vec![1, 2, 0, 3]);
    assert_eq!(matrix.nonzeros(), 3);
}

#[test]
fn diagonal_new_and_from_slice() {
    let zero: Diagonal<i16> = Diagonal::new((2, 5));
    assert_eq!(zero.values, vec![0, 0]);
    let matrix = Diagonal::from_slice((3, 2), &[4i16, 0]);
    assert_eq!(matrix.values, vec![4, 0]);
    assert_eq!(matrix.nonzeros(), 1);
}
