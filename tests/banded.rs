use matrix::format::banded::Banded;
use matrix::{Conventional, Diagonal, Transpose};

fn banded(rows: usize, columns: usize, superdiagonals: usize, subdiagonals: usize, values: Vec<i64>) -> Banded<i64> {
    Banded { rows, columns, superdiagonals, subdiagonals, values }
}

fn nonzeros_example() -> Banded<i64> {
    banded(7, 4, 2, 2, vec![
        7, 7, 1, 4, 8,
        7, 2, 5, 9, 12,
        3, 6, 10, 0, 15,
        7, 11, 0, 16, 17,
    ])
}

fn tall() -> Banded<i64> {
    banded(7, 4, 2, 2, vec![
        0, 0, 1, 4, 8,
        0, 2, 5, 9, 12,
        3, 6, 10, 13, 15,
        7, 11, 14, 16, 17,
    ])
}

fn wide() -> Banded<i64> {
    banded(4, 7, 2, 2, vec![
        0, 0, 1, 4, 8,
        0, 2, 5, 9, 13,
        3, 6, 10, 14, 0,
        7, 11, 15, 0, 0,
        12, 16, 0, 0, 0,
        17, 0, 0, 0, 0,
        0, 0, 0, 0, 0,
    ])
}

fn collect(matrix: &Banded<i64>) -> (Vec<usize>, Vec<usize>, Vec<i64>) {
    let (mut rows, mut columns, mut values) = (vec![], vec![], vec![]);
    let mut iterator = matrix.iter();
    while let Some((i, j, &value)) = iterator.next() {
        rows.push(i);
        columns.push(j);
        values.push(value);
    }
    (rows, columns, values)
}

fn check_nonzeros() {
    assert_eq!(nonzeros_example().nonzeros(), 17 - 2);
}

fn check_iter_tall() {
    let (rows, columns, values) = collect(&tall());
    assert_eq!(&rows, &vec![0, 1, 2, 0, 1, 2, 3, 0, 1, 2, 3, 4, 1, 2, 3, 4, 5]);
    assert_eq!(&columns, &vec![0, 0, 0, 1, 1, 1, 1, 2, 2, 2, 2, 2, 3, 3, 3, 3, 3]);
    assert_eq!(&values, &vec![1, 4, 8, 2, 5, 9, 12, 3, 6, 10, 13, 15, 7, 11, 14, 16, 17]);
}

fn check_iter_wide() {
    let (rows, columns, values) = collect(&wide());
    assert_eq!(&rows, &vec![0, 1, 2, 0, 1, 2, 3, 0, 1, 2, 3, 1, 2, 3, 2, 3, 3]);
    assert_eq!(&columns, &vec![0, 0, 0, 1, 1, 1, 1, 2, 2, 2, 2, 3, 3, 3, 4, 4, 5]);
    assert_eq!(&values, &vec![1, 4, 8, 2, 5, 9, 13, 3, 6, 10, 14, 7, 11, 15, 12, 16, 17]);
}

fn check_into_conventional_tall() {
    let matrix = Conventional::from_banded(&tall());
    //  1  2  3  0
    //  4  5  6  7
    //  8  9 10 11
    //  0 12 13 14
    //  0  0 15 16
    //  0  0  0 17
    //  0  0  0  0
    assert_eq!(&matrix.values, &vec![
        1, 4, 8, 0, 0, 0, 0,
        2, 5, 9, 12, 0, 0, 0,
        3, 6, 10, 13, 15, 0, 0,
        0, 7, 11, 14, 16, 17, 0,
    ]);
}

fn check_into_conventional_wide() {
    let matrix = Conventional::from_banded(&wide());
    //  1  2  3  0  0  0  0
    //  4  5  6  7  0  0  0
    //  8  9 10 11 12  0  0
    //  0 13 14 15 16 17  0
    assert_eq!(&matrix.values, &vec![
        1, 4, 8, 0,
        2, 5, 9, 13,
        3, 6, 10, 14,
        0, 7, 11, 15,
        0, 0, 12, 16,
        0, 0, 0, 17,
        0, 0, 0, 0,
    ]);
}

fn check_transpose() {
    let matrix = banded(4, 8, 3, 1, vec![
        0, 0, 0, 1, 5,
        0, 0, 2, 6, 10,
        0, 3, 7, 11, 15,
        4, 8, 12, 16, 0,
        9, 13, 17, 0, 0,
        14, 18, 0, 0, 0,
        19, 0, 0, 0, 0,
        0, 0, 0, 0, 0,
    ]);
    let matrix = matrix.transpose();
    assert_eq!(matrix, banded(8, 4, 1, 3, vec![
        0, 1, 2, 3, 4,
        5, 6, 7, 8, 9,
        10, 11, 12, 13, 14,
        15, 16, 17, 18, 19,
    ]));
}

#[test]
fn banded_nonzeros() {
    check_nonzeros();
}

#[test]
fn banded_transpose() {
    check_transpose();
}

#[test]
fn banded_iter_tall() {
    check_iter_tall();
}

#[test]
fn banded_iter_wide() {
    check_iter_wide();
}

#[test]
fn mod_iter_tall() {
    check_iter_tall();
}

#[test]
fn mod_iter_wide() {
    check_iter_wide();
}

#[test]
fn banded_into_conventional_tall() {
    check_into_conventional_tall();
}

#[test]
fn banded_into_conventional_wide() {
    check_into_conventional_wide();
}

#[test]
fn convert_into_conventional_tall() {
    check_into_conventional_tall();
}

#[test]
fn convert_into_conventional_wide() {
    check_into_conventional_wide();
}

#[test]
fn transpose() {
    check_transpose();
}

#[test]
fn banded_new_is_zero() {
    let matrix: Banded<i64> = Banded::new((3, 4), 1, 2);
    assert_eq!(matrix.diagonals(), 4);
    assert_eq!(matrix.values, vec![0; 16]);
    assert_eq!(matrix.nonzeros(), 0);
}

#[test]
fn into_banded_tall() {
    let matrix = Banded::from_diagonal(&Diagonal::from_vec((5, 3), vec![1, 2, 3]));
    assert_eq!(&matrix.values, &vec![1, 2, 3]);
}

#[test]
fn into_banded_wide() {
    let matrix = Banded::from_diagonal(&Diagonal::from_vec((3, 5), vec![1, 2, 3]));
    assert_eq!(&matrix.values, &vec![1, 2, 3, 0, 0]);
}

#[test]
fn convert_from_diagonal_tall() {
    let matrix = Banded::from_diagonal(&Diagonal::from_vec((5, 3), vec![1, 2, 3]));
    assert_eq!(&matrix.values, &vec![1, 2, 3]);
}

#[test]
fn convert_from_diagonal_wide() {
    let matrix = Banded::from_diagonal(&Diagonal::from_vec((3, 5), vec![1, 2, 3]));
    assert_eq!(&matrix.values, &vec![1, 2, 3, 0, 0]);
}

#[test]
fn banded_from_diagonal_tall() {
    let matrix = Banded::from_diagonal(&Diagonal::from_vec((5, 3), vec![1, 2, 3]));
    assert_eq!(&matrix.values, &vec![1, 2, 3]);
    assert_eq!(Conventional::from_banded(&matrix).values, vec![1, 0, 0, 0, 0, 0, 2, 0, 0, 0, 0, 0, 3, 0, 0]);
}

#[test]
fn banded_from_diagonal_wide() {
    let matrix = Banded::from_diagonal(&Diagonal::from_vec((3, 5), vec![1, 2, 3]));
    assert_eq!(&matrix.values, &vec![1, 2, 3, 0, 0]);
    assert_eq!(matrix.nonzeros(), 3);
}
