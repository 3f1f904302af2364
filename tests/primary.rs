use mtrs::Matrix;

#[test]
fn test_addition() {
    let m1 = Matrix::from_slice((3, 3), &[3, 4, 7, 1, 2, 6, 9, 5, 7]);
    let m2 = Matrix::identity(3);

    assert_eq!(
        m1.add(m2),
        Matrix::from_slice((3, 3), &[4, 4, 7, 1, 3, 6, 9, 5, 8])
    );
}

#[test]
fn test_subtraction() {
    let m1 = Matrix::from_slice((3, 3), &[3, 4, 7, 1, 2, 6, 9, 5, 7]);
    let m2 = Matrix::identity(3);

    assert_eq!(
        m1.sub(m2),
        Matrix::from_slice((3, 3), &[2, 4, 7, 1, 1, 6, 9, 5, 6])
    );
}

#[test]
fn test_display() {
    let matrix = Matrix::from_slice((2, 2), &[1, 2, 3, 4]);

    assert_eq!(matrix.to_string(), "1 2 \n3 4 \n".to_string());
}

#[test]
fn display_of_a_rectangle_with_negatives() {
    let matrix = Matrix::from_slice((2, 3), &[-10, 0, 7, 123, -4, 5]);

    assert_eq!(matrix.to_string(), "-10 0 7 \n123 -4 5 \n".to_string());
    assert_eq!(Matrix::zeros(0).to_string(), String::new());
}

#[test]
fn test_transpose() {
    let mut matrix = Matrix::from_slice((2, 2), &[1, 2, 3, 4]);
    let mut matrix2 = Matrix::from_slice((3, 3), &[3, 4, 7, 1, 2, 6, 9, 5, 7]);

    matrix.transpose();
    matrix2.transpose();

    assert_eq!(matrix, Matrix::from_slice((2, 2), &[1, 3, 2, 4]));
    assert_eq!(matrix2, Matrix::from_slice((3, 3), &[3, 1, 9, 4, 2, 5, 7, 6, 7]));
}

#[test]
fn transpose_of_a_rectangle_twice() {
    let start = Matrix::from_slice((2, 3), &[1, 2, 3, 4, 5, 6]);
    let mut matrix = start.clone();

    matrix.transpose();
    assert_eq!(matrix.size(), (3, 2));
    assert_eq!(matrix.as_slice(), &[1, 4, 2, 5, 3, 6]);

    matrix.transpose();
    assert_eq!(matrix, start);

    let mut empty = Matrix::zeros((0, 3));
    empty.transpose();
    assert_eq!(empty.size(), (3, 0));
}

#[test]
fn test_multiplication() {
    let matrix = Matrix::from_slice((2, 3), &[2, 3, 4, 1, 0, 0]);
    let matrix2 = Matrix::from_slice((3, 2), &[0, 1000, 1, 100, 0, 10]);

    assert_eq!(
        matrix.mul(matrix2),
        Matrix::from_slice((2, 2), &[3, 2340, 0, 1000])
    );
}

#[test]
fn multiplication_by_identity_keeps_the_matrix() {
    let a = Matrix::from_slice((2, 3), &[1, -2, 3, 4, 5, -6]);

    assert_eq!(a.clone().mul(Matrix::identity(3)), a);
    assert_eq!(Matrix::identity(2).mul(a.clone()), a);
}

#[test]
fn multiplication_with_an_empty_inner_dimension() {
    let a = Matrix::zeros((2, 0));
    let b = Matrix::zeros((0, 3));

    assert_eq!(a.mul(b), Matrix::zeros((2, 3)));
}

#[test]
fn test_scalars() {
    let norm_matrix = Matrix::from_slice((2, 2), &[1, 2, 3, 4]);

    assert_eq!(
        norm_matrix.scalar_add(3),
        Matrix::from_slice((2, 2), &[4, 5, 6, 7])
    );
    assert_eq!(
        norm_matrix.scalar_sub(1),
        Matrix::from_slice((2, 2), &[0, 1, 2, 3])
    );
    assert_eq!(
        norm_matrix.scalar_mul(2),
        Matrix::from_slice((2, 2), &[2, 4, 6, 8])
    );
}

#[test]
fn scalar_division_rounds_toward_zero() {
    let m = Matrix::from_slice((1, 4), &[7, -7, 6, 0]);

    assert_eq!(m.scalar_div(2), Matrix::from_slice((1, 4), &[3, -3, 3, 0]));
    assert_eq!(m.scalar_div(-2), Matrix::from_slice((1, 4), &[-3, 3, -3, 0]));
}

#[test]
fn adding_the_zero_matrix_keeps_the_matrix() {
    let a = Matrix::from_slice((2, 3), &[1, -2, 3, 4, 5, -6]);

    assert_eq!(a.clone().add(Matrix::zeros((2, 3))), a);
}

#[test]
fn test_determinant() {
    let matrix2x2 = Matrix::from_slice((2, 2), &[1, 2, 3, 4]);
    let matrix3x3 = Matrix::from_slice((3, 3), &[1, 2, 3, 4, 5, 6, 7, 8, 9]);
    let matrix4x4 = Matrix::from_slice(
        (4, 4),
        &[1, 0, 2, -1, 3, 0, 0, 5, 2, 1, 4, -3, 1, 0, 5, 0],
    );

    assert_eq!(matrix2x2.determinant(), Some(-2));
    assert_eq!(matrix3x3.determinant(), Some(0));
    assert_eq!(matrix4x4.determinant(), Some(30));
}

#[test]
fn determinant_of_a_rank_deficient_four_by_four() {
    let a = Matrix::from_slice(
        (4, 4),
        &[1, 2, 3, 4, 5, 6, 7, 8, 9, 10, 11, 12, 13, 14, 15, 16],
    );

    assert_eq!(a.determinant(), Some(0));
}

#[test]
fn determinant_of_identity_and_empty_matrix() {
    assert_eq!(Matrix::identity(5).determinant(), Some(1));
    assert_eq!(Matrix::zeros(0).determinant(), Some(1));
    assert_eq!(Matrix::from_slice((1, 1), &[-7]).determinant(), Some(-7));
}

#[test]
fn determinant_needs_a_square_matrix() {
    assert_eq!(Matrix::zeros((2, 3)).determinant(), None);
}

#[test]
fn determinant_with_zero_row_or_repeated_row() {
    let zero_row = Matrix::from_slice((3, 3), &[1, 2, 3, 0, 0, 0, 4, 5, 6]);
    let repeated = Matrix::from_slice((3, 3), &[1, 2, 3, 4, 5, 6, 1, 2, 3]);

    assert_eq!(zero_row.determinant(), Some(0));
    assert_eq!(repeated.determinant(), Some(0));
}

#[test]
fn determinant_after_pivot_exchanges() {
    // The first column is zero above the last row, so the pivot for column 0
    // comes from two rows down: one exchange, determinant -1.
    let anti = Matrix::from_slice((3, 3), &[0, 0, 1, 0, 1, 0, 1, 0, 0]);
    assert_eq!(anti.determinant(), Some(-1));

    let swapped = Matrix::from_slice((2, 2), &[3, 4, 1, 2]);
    assert_eq!(swapped.determinant(), Some(2));

    let cycle = Matrix::from_slice((3, 3), &[0, 1, 0, 0, 0, 1, 1, 0, 0]);
    assert_eq!(cycle.determinant(), Some(1));
}

#[test]
fn determinant_keeps_value_when_a_row_multiple_is_added() {
    let a = Matrix::from_slice((3, 3), &[2, -1, 0, 1, 3, 4, 0, 5, -2]);
    let b = Matrix::from_slice((3, 3), &[2, -1, 0, 1, 3, 4, 4, 3, -2]);

    assert_eq!(a.determinant(), Some(-54));
    assert_eq!(b.determinant(), Some(-54));
}

#[test]
fn determinant_is_absent_when_intermediates_overflow() {
    let big = i64::MAX / 2;
    let a = Matrix::from_slice((2, 2), &[big, big, big, 1]);

    assert_eq!(a.determinant(), None);
}

#[test]
fn inverse_divides_by_the_determinant() {
    let a = Matrix::from_slice((2, 2), &[2, 4, 6, 8]);
    assert_eq!(a.determinant(), Some(-8));
    assert_eq!(
        a.inverse().expect("Could not take inverse"),
        Matrix::from_slice((2, 2), &[0, 0, 0, -1])
    );

    let minus_identity = Matrix::from_slice((2, 2), &[-1, 0, 0, -1]);
    let inv = minus_identity.inverse().expect("Could not take inverse");
    assert_eq!(inv.clone(), minus_identity);
    assert_eq!(inv.mul(minus_identity), Matrix::identity(2));
}

#[test]
fn inverse_is_absent_for_singular_or_non_square() {
    let singular = Matrix::from_slice((2, 2), &[1, 2, 2, 4]);

    assert_eq!(singular.inverse(), None);
    assert_eq!(Matrix::ones((2, 3)).inverse(), None);
}

#[test]
fn scalar_operations_on_a_row() {
    let matrix = Matrix::from_slice((1, 3), &[1, 4, 7]);

    assert_eq!(matrix.scalar_add(3), Matrix::from_slice((1, 3), &[4, 7, 10]));
    assert_eq!(matrix.scalar_sub(1), Matrix::from_slice((1, 3), &[0, 3, 6]));
    assert_eq!(matrix.scalar_div(2), Matrix::from_slice((1, 3), &[0, 2, 3]));
    assert_eq!(matrix.scalar_mul(2), Matrix::from_slice((1, 3), &[2, 8, 14]));
}

#[test]
fn transpose_of_an_empty_column() {
    let mut m = Matrix::zeros((3, 0));
    m.transpose();
    assert_eq!(m.size(), (0, 3));
    m.transpose();
    assert_eq!(m, Matrix::zeros((3, 0)));
}
