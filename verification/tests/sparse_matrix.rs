use grph::utils::SparseMatrix;

#[test]
fn sparse_matrix_insert_and_get() {
    let mut matrix = SparseMatrix::with_capacity(5, 5);

    matrix.insert(0, 0, 1);
    matrix.insert(1, 1, 2);
    matrix.insert(2, 2, 3);

    assert_eq!(matrix.get(0, 0), Some(&1));
    assert_eq!(matrix.get(1, 1), Some(&2));
    assert_eq!(matrix.get(2, 2), Some(&3));
    assert_eq!(matrix.get(0, 1), None);
    assert_eq!(matrix.get(1, 0), None);
}

#[test]
fn sparse_matrix_transpose() {
    let mut matrix = SparseMatrix::with_capacity(10, 10);

    matrix.insert(0, 0, 1);
    matrix.insert(0, 1, 2);
    matrix.insert(1, 1, 3);
    matrix.insert(2, 0, 4);
    matrix.insert(2, 2, 5);

    let transposed = matrix.transpose();

    // Transposing swaps rows and columns: the entry at (0, 1) lands at (1, 0).
    assert_eq!(transposed.get(0, 0), Some(&1));
    assert_eq!(transposed.get(1, 0), Some(&2));
    assert_eq!(transposed.get(1, 1), Some(&3));
    assert_eq!(transposed.get(2, 0), None);
    assert_eq!(transposed.get(2, 1), None);
    assert_eq!(transposed.get(2, 2), Some(&5));
    assert_eq!(transposed.get(0, 2), Some(&4));
}

#[test]
fn sparse_matrix_transpose_keeps_its_counts() {
    let mut matrix = SparseMatrix::with_capacity(2, 3);
    matrix.insert(2, 1, 7);
    let transposed = matrix.transpose();
    assert_eq!(transposed.row_count(), 3);
    assert_eq!(transposed.col_count(), 2);
    assert_eq!(transposed.get(1, 2), Some(&7));
    assert_eq!(transposed.get(2, 1), None);
}
