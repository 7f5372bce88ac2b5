use sparsers::matrix::coo::CooContainer;
use sparsers::matrix::dense::DenseMatrix;

fn dense(shape: (usize, usize), data: Vec<i32>) -> DenseMatrix<i32> {
    DenseMatrix::from_shape_vec(shape, data).expect("shape matches data")
}

#[test]
fn test_coo_from_ndarray() {
    let array = dense((3, 3), vec![0, 0, 3, 4, 0, 0, 0, 5, 6]);
    let coo: CooContainer<u32, i32> = CooContainer::from_ndarray(&array);

    assert_eq!(coo.row_indices, vec![0, 1, 2, 2]);
    assert_eq!(coo.col_indices, vec![2, 0, 1, 2]);
    assert_eq!(coo.values, vec![3, 4, 5, 6]);
    assert_eq!(coo.shape, (3, 3));
}

#[test]
fn test_all_zero_matrix() {
    let array: DenseMatrix<i32> = DenseMatrix::zeros((4, 4));
    let coo: CooContainer<u32, i32> = CooContainer::from_ndarray(&array);

    assert_eq!(coo.values.len(), 0);
    assert_eq!(coo.row_indices.len(), 0);
    assert_eq!(coo.shape, (4, 4));
}

#[test]
fn test_single_element_at_boundary() {
    // non zero value in the last loc of (2, 2) matrix
    let array = dense((2, 2), vec![0, 0, 0, 99]);
    let coo: CooContainer<u32, i32> = CooContainer::from_ndarray(&array);

    assert_eq!(coo.values, vec![99]);
    assert_eq!(coo.row_indices, vec![1]);
    assert_eq!(coo.col_indices, vec![1]);
}

#[test]
fn test_non_square_matrix() {
    // 3x2 Matrix
    let array = dense((3, 2), vec![1, 0, 0, 0, 0, 2]);
    let coo: CooContainer<u32, i32> = CooContainer::from_ndarray(&array);

    assert_eq!(coo.shape, (3, 2));
    assert_eq!(coo.values, vec![1, 2]);
    assert_eq!(coo.row_indices, vec![0, 2]);
    assert_eq!(coo.col_indices, vec![0, 1]);
}

#[test]
fn coo_new_keeps_its_lists() {
    let coo: CooContainer<u64, i64> = CooContainer::new(vec![1, 0], vec![0, 2], vec![7, -3], (2, 3));
    assert_eq!(coo.row_indices, vec![1, 0]);
    assert_eq!(coo.col_indices, vec![0, 2]);
    assert_eq!(coo.values, vec![7, -3]);
    assert_eq!(coo.shape, (2, 3));
}

#[test]
fn coo_from_ndarray_with_signed_indices() {
    let array = dense((2, 3), vec![0, -1, 0, 2, 0, 0]);
    let coo: CooContainer<i64, i32> = CooContainer::from_ndarray(&array);
    assert_eq!(coo.row_indices, vec![0i64, 1]);
    assert_eq!(coo.col_indices, vec![1i64, 0]);
    assert_eq!(coo.values, vec![-1, 2]);
}
