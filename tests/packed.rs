use matrix::format::packed::{Packed, Variant};
use matrix::{Banded, Compressed, Conventional, Diagonal, Size, Transpose};

fn packed(size: usize, variant: Variant, values: Vec<i64>) -> Packed<i64> {
    Packed { size, variant, values }
}

fn ten() -> Vec<i64> {
    vec![1, 2, 3, 4, 5, 6, 7, 8, 9, 10]
}

fn check_nonzeros() {
    let matrix = packed(4, Variant::Lower, vec![1, 0, 3, 0, 5, 0, 7, 8, 9, 10]);
    assert_eq!(matrix.nonzeros(), 7);
}

fn check_transpose_lower() {
    let matrix = packed(4, Variant::Lower, ten()).transpose();
    assert_eq!(matrix, packed(4, Variant::Upper, vec![1, 2, 5, 3, 6, 8, 4, 7, 9, 10]));
}

fn check_transpose_upper() {
    let matrix = packed(4, Variant::Upper, ten()).transpose();
    assert_eq!(matrix, packed(4, Variant::Lower, vec![1, 2, 4, 7, 3, 5, 8, 6, 9, 10]));
}

fn check_into_conventional_lower() {
    let matrix = Conventional::from_packed(&packed(4, Variant::Lower, ten()));
    // 1 0 0  0
    // 2 5 0  0
    // 3 6 8  0
    // 4 7 9 10
    assert_eq!(&matrix.values, &vec![
        1, 2, 3, 4,
        0, 5, 6, 7,
        0, 0, 8, 9,
        0, 0, 0, 10,
    ]);
}

fn check_into_conventional_upper() {
    let matrix = Conventional::from_packed(&packed(4, Variant::Upper, ten()));
    // 1 2 4  7
    // 0 3 5  8
    // 0 0 6  9
    // 0 0 0 10
    assert_eq!(&matrix.values, &vec![
        1, 0, 0, 0,
        2, 3, 0, 0,
        4, 5, 6, 0,
        7, 8, 9, 10,
    ]);
}

#[test]
fn packed_nonzeros() {
    check_nonzeros();
}

#[test]
fn triangular_nonzeros() {
    check_nonzeros();
}

#[test]
fn packed_transpose_lower() {
    check_transpose_lower();
}

#[test]
fn packed_transpose_upper() {
    check_transpose_upper();
}

#[test]
fn operation_transpose_lower() {
    check_transpose_lower();
}

#[test]
fn operation_transpose_upper() {
    check_transpose_upper();
}

#[test]
fn mod_transpose_lower() {
    check_transpose_lower();
}

#[test]
fn mod_transpose_upper() {
    check_transpose_upper();
}

#[test]
fn transpose_lower() {
    check_transpose_lower();
}

#[test]
fn transpose_upper() {
    check_transpose_upper();
}

#[test]
fn triangular_transpose_lower() {
    check_transpose_lower();
}

#[test]
fn triangular_transpose_upper() {
    check_transpose_upper();
}

#[test]
fn packed_into_dense_lower() {
    check_into_conventional_lower();
}

#[test]
fn packed_into_dense_upper() {
    check_into_conventional_upper();
}

#[test]
fn triangular_into_dense_lower() {
    check_into_conventional_lower();
}

#[test]
fn triangular_into_dense_upper() {
    check_into_conventional_upper();
}

#[test]
fn convert_into_conventional_lower() {
    check_into_conventional_lower();
}

#[test]
fn convert_into_conventional_upper() {
    check_into_conventional_upper();
}

#[test]
fn into_conventional_lower() {
    check_into_conventional_lower();
}

#[test]
fn into_conventional_upper() {
    check_into_conventional_upper();
}

#[test]
fn packed_new_is_zero_and_flips() {
    let matrix: Packed<u8> = Packed::new(3, Variant::Upper);
    assert_eq!(matrix.values, vec![0; 6]);
    assert_eq!(Variant::Upper.flip(), Variant::Lower);
    assert_eq!(Variant::Lower.flip(), Variant::Upper);
}

#[test]
fn every_format_has_a_size() {
    let packed: Packed<i64> = Packed::new(3, Variant::Lower);
    assert_eq!(packed.dimensions(), (3, 3));
    let sparse: Compressed<i64> = Compressed::new((2, 5), matrix::Variant::Row);
    assert_eq!(sparse.dimensions(), (2, 5));
    let dense: Conventional<i64> = Conventional::new(sparse.dimensions());
    assert_eq!((dense.rows(), dense.columns()), (2, 5));
    let band: Banded<i64> = Banded::new((4, 6), 1, 0);
    assert_eq!(band.dimensions(), (4, 6));
    let diagonal: Diagonal<i64> = Diagonal::new((6, 4));
    assert_eq!(diagonal.dimensions(), (6, 4));
}
