use mtrs::{Matrix, MatrixError, Size};

#[test]
fn test_values() {
    let mut matrix = Matrix::from_slice((2, 3), &[1, 2, 3, 4, 5, 6]);

    assert_eq!(matrix.size().0, 2);
    assert_eq!(matrix.size().1, 3);

    matrix.resize((3, 3));

    assert_eq!(matrix.size().0, 3);
    assert_eq!(matrix.size().1, 3);
    assert_eq!(matrix.as_slice().to_vec(), vec![1, 2, 3, 4, 5, 6, 0, 0, 0]);
}

#[test]
fn test_cols() {
    let matrix1: Matrix = Matrix::identity(1);
    let matrix2: Matrix = Matrix::identity(2);
    let matrix3: Matrix = Matrix::identity(3);

    assert_eq!(matrix1.get_col(0), Some(vec![1]));
    assert_eq!(matrix2.get_col(0), Some(vec![1, 0]));
    assert_eq!(matrix2.get_col(1), Some(vec![0, 1]));
    assert_eq!(matrix3.get_col(0), Some(vec![1, 0, 0]));
    assert_eq!(matrix3.get_col(1), Some(vec![0, 1, 0]));
    assert_eq!(matrix3.get_col(2), Some(vec![0, 0, 1]));

    assert_eq!(matrix1.cols(), vec![vec![1]]);
    assert_eq!(matrix2.cols(), vec![vec![1, 0], vec![0, 1]]);
    assert_eq!(
        matrix3.cols(),
        vec![vec![1, 0, 0], vec![0, 1, 0], vec![0, 0, 1]]
    );
}

#[test]
fn test_empty_matrix() {
    let matrix0: Matrix = Matrix::zeros(0);

    assert_eq!(matrix0.size(), (0, 0));
    assert_eq!(matrix0.get_col(0), None);
    assert_eq!(matrix0.as_slice(), &[] as &[i64]);
    assert_eq!(matrix0.scalar_add(0), matrix0);
    assert_eq!(matrix0.as_vec(), Vec::<Vec<i64>>::new());
}

#[test]
fn test_erase() {
    let mut matrix: Matrix = Matrix::ones(2);
    matrix.erase();

    assert_eq!(matrix, Matrix::zeros(2));
}

#[test]
fn test_diagonal() {
    let matrix = Matrix::diag(vec![3, 7, 8, 1]);

    assert_eq!(matrix.get_col(1), Some(vec![0, 7, 0, 0]));
    assert_eq!(matrix.size(), (4, 4));
    assert_eq!(matrix.get(2), Some(&8));
}

#[test]
fn test_resize() {
    let mut matrix: Matrix = Matrix::identity(2);

    assert_eq!(matrix.size(), (2, 2));
    matrix.resize((3, 4));
    assert_eq!(matrix.size(), (3, 4));
    assert_eq!(matrix.as_slice(), &[1, 0, 0, 0, 0, 1, 0, 0, 0, 0, 0, 0]);
}

#[test]
fn test_get_set() {
    let mut matrix: Matrix = Matrix::identity(3);

    assert!(matrix.set(5, 3).is_err());
    assert!(matrix.set(1, 2).is_ok());
    assert_eq!(matrix.get(1), Some(&2));
    assert_eq!(matrix.get(0), Some(&1));
    assert_eq!(matrix.get((1, 2)), Some(&0));
}

#[test]
fn set_refuses_each_axis_and_keeps_the_matrix() {
    let mut matrix = Matrix::from_slice((2, 3), &[1, 2, 3, 4, 5, 6]);
    let before = matrix.clone();

    assert_eq!(matrix.set((2, 0), 9), Err(MatrixError::OutOfBounds));
    assert_eq!(matrix.set((0, 3), 9), Err(MatrixError::OutOfBounds));
    assert_eq!(matrix, before);
    assert_eq!(matrix.set((1, 2), 9), Ok(()));
    assert_eq!(matrix.as_slice(), &[1, 2, 3, 4, 5, 9]);
}

#[test]
fn get_reads_flat_index_and_is_absent_past_the_end() {
    let matrix = Matrix::from_slice((2, 3), &[1, 2, 3, 4, 5, 6]);

    assert_eq!(matrix.get((1, 0)), Some(&4));
    assert_eq!(matrix.get((0, 4)), Some(&5));
    assert_eq!(matrix.get((2, 0)), None);
    assert_eq!(matrix.get((usize::MAX, usize::MAX)), None);
}

#[test]
fn as_vec_and_columns_of_a_rectangle() {
    let matrix = Matrix::from_vec((3, 2), vec![1, 2, 3, 4, 5, 6]);

    assert_eq!(matrix.as_vec(), vec![vec![1, 2], vec![3, 4], vec![5, 6]]);
    assert_eq!(matrix.get_col(0), Some(vec![1, 3, 5]));
    assert_eq!(matrix.get_col(2), None);
    assert_eq!(matrix.cols(), vec![vec![1, 3, 5], vec![2, 4, 6]]);
}

#[test]
fn resize_shrinks_rows_and_columns() {
    let mut matrix = Matrix::from_slice((2, 3), &[1, 2, 3, 4, 5, 6]);
    matrix.resize((2, 2));
    assert_eq!(matrix.as_vec(), vec![vec![1, 2], vec![4, 5]]);

    let mut tall = Matrix::from_slice((3, 2), &[1, 2, 3, 4, 5, 6]);
    tall.resize((1, 3));
    assert_eq!(tall.size(), (1, 3));
    assert_eq!(tall.as_slice(), &[1, 2, 0]);
}

#[test]
fn resize_identity_to_three_by_four() {
    let mut matrix = Matrix::identity(2);
    matrix.resize((3, 4));
    assert_eq!(
        matrix.as_vec(),
        vec![vec![1, 0, 0, 0], vec![0, 1, 0, 0], vec![0, 0, 0, 0]]
    );
}

#[test]
fn constructors_fill_their_shape() {
    let ones = Matrix::ones((2, 3));
    assert_eq!(ones.size(), (2, 3));
    assert_eq!(ones.as_slice(), &[1, 1, 1, 1, 1, 1]);

    let zeros = Matrix::zeros((3, 1));
    assert_eq!(zeros.as_slice(), &[0, 0, 0]);

    let identity = Matrix::identity(3);
    assert_eq!(identity.as_slice(), &[1, 0, 0, 0, 1, 0, 0, 0, 1]);
}

#[test]
fn size_trait_normalises_shapes() {
    assert_eq!(4usize.dimensions(), (4, 4));
    assert_eq!((2usize, 5usize).dimensions(), (2, 5));
    assert_eq!((2usize, 5usize).height(), 2);
    assert_eq!((2usize, 5usize).width(), 5);
}

#[test]
fn index_reads_pairs_and_flat_positions() {
    let matrix = Matrix::identity(3);

    assert_eq!(*matrix.index((1, 1)), 1);
    assert_eq!(*matrix.index(1), *matrix.index((1, 1)));
    assert_eq!(*matrix.index((0, 2)), 0);
}

#[test]
fn writes_through_the_mutable_slice_land_in_the_matrix() {
    let mut matrix = Matrix::zeros((2, 2));
    matrix.as_mut_slice()[3] = 9;

    assert_eq!(matrix.as_vec(), vec![vec![0, 0], vec![0, 9]]);
}

#[test]
fn erase_keeps_the_shape_of_a_rectangle() {
    let mut matrix = Matrix::from_slice((2, 3), &[1, -2, 3, 4, 5, 6]);
    matrix.erase();

    assert_eq!(matrix, Matrix::zeros((2, 3)));
}
