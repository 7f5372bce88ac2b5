use sparsers::matrix::common::SparseMatrix;
use sparsers::matrix::coo::CooContainer;
use sparsers::matrix::csr::{CsrContainer, CsrView};
use sparsers::matrix::dense::DenseMatrix;

fn dense(shape: (usize, usize), data: Vec<i32>) -> DenseMatrix<i32> {
    DenseMatrix::from_shape_vec(shape, data).expect("shape matches data")
}

#[test]
fn test_build_csr_from_ndarray_pass() {
    let sparse = dense((3, 3), vec![0, 0, 3, 4, 0, 0, 0, 5, 6]);

    let csr: CsrContainer<u32, i32> = CsrContainer::from_ndarray(&sparse);

    assert_eq!(csr.shape, (3, 3));
    assert_eq!(csr.row_ptrs, vec![0u32, 1, 2, 4]);
    assert_eq!(csr.col_indices, vec![2u32, 0, 1, 2]);
    assert_eq!(csr.values, vec![3, 4, 5, 6]);
}

#[test]
fn test_build_csr_from_ndarray_empty() {
    let sparse = dense((3, 3), vec![0; 9]);

    let csr: CsrContainer<u32, i32> = CsrContainer::from_ndarray(&sparse);

    assert_eq!(csr.shape, (3, 3));
    assert_eq!(csr.row_ptrs, vec![0u32, 0, 0, 0]);
    assert_eq!(csr.col_indices, Vec::<u32>::new());
    assert_eq!(csr.values, Vec::<i32>::new());
}

#[test]
fn test_build_csr_from_ndarray_full() {
    let sparse = dense((3, 3), vec![1, 2, 3, 4, 5, 6, 7, 8, 9]);
    let csr: CsrContainer<u32, i32> = CsrContainer::from_ndarray(&sparse);
    assert_eq!(csr.shape, (3, 3));
    assert_eq!(csr.row_ptrs, vec![0u32, 3, 6, 9]);
    assert_eq!(csr.col_indices, vec![0u32, 1, 2, 0, 1, 2, 0, 1, 2]);
    assert_eq!(csr.values, vec![1, 2, 3, 4, 5, 6, 7, 8, 9]);
}

#[test]
fn test_csr_row_access() {
    // 1. a simple 2x3 CSR matrix
    // [1, 0, 2]
    // [0, 0, 3]
    let row_ptrs = vec![0u32, 2, 3];
    let col_indices = vec![0u32, 2, 2];
    let values = vec![1i32, 2, 3];

    let csr = CsrContainer { row_ptrs, col_indices, values, shape: (2, 3) };

    // 2. verify 1st row: [1, 0, 2] -> 0th, 2nd column have values
    let Some((cols, vals)) = csr.outer_slice(0) else { panic!("Row not found") };
    assert_eq!(cols, &[0, 2]);
    assert_eq!(vals, &[1, 2]);

    // 3. verify second row: [0, 0, 3] -> only 2nd column has a value
    let Some((cols, vals)) = csr.outer_slice(1) else { panic!("Row not found") };
    assert_eq!(cols, &[2]);
    assert_eq!(vals, &[3]);
}

#[test]
fn test_empty_row() {
    // A 2x2 CSR matrix with an empty first row
    let row_ptrs = vec![0u32, 0, 0];
    let csr = CsrContainer { row_ptrs, col_indices: vec![], values: vec![] as Vec<i32>, shape: (2, 2) };

    let Some((cols, vals)) = csr.outer_slice(0) else { panic!("Row not found") };
    assert!(cols.is_empty());
    assert!(vals.is_empty());
}

#[test]
fn test_csr_row_access_view() {
    // [1, 0, 2]
    // [0, 0, 3]
    let row_ptrs = vec![0u32, 2, 3];
    let col_indices = vec![0u32, 2, 2];
    let values = vec![1i32, 2, 3];

    let csr_view = CsrView { row_ptrs: &row_ptrs, col_indices: &col_indices, values: &values, shape: (2, 3) };

    let Some((cols, vals)) = csr_view.row(0) else { panic!("Row not found") };
    assert_eq!(cols, &[0, 2]);
    assert_eq!(vals, &[1, 2]);

    let Some((cols, vals)) = csr_view.row(1) else { panic!("Row not found") };
    assert_eq!(cols, &[2]);
    assert_eq!(vals, &[3]);
}

#[test]
fn test_empty_row_view() {
    let row_ptrs = vec![0u32, 0, 0];
    let csr_view = CsrView { row_ptrs: &row_ptrs, col_indices: &vec![], values: &vec![] as &Vec<i32>, shape: (2, 2) };

    let Some((cols, vals)) = csr_view.row(0) else { panic!("Row not found") };
    assert!(cols.is_empty());
    assert!(vals.is_empty());
}

#[test]
fn test_invalid_index_returns_none() {
    let row_ptrs = vec![0u32, 2];
    let csr = CsrContainer { row_ptrs, col_indices: vec![0, 1], values: vec![1i32, 2], shape: (1, 2) };

    // confirm that returns None for out-of-bounds indices
    assert!(csr.outer_slice(1).is_none());
    assert!(csr.outer_slice(100).is_none());

    // valid index returns Some
    assert!(csr.outer_slice(0).is_some());
}

#[test]
fn csr_from_coo_groups_entries_by_row() {
    // entries given out of row order: (2,1)=5, (0,2)=3, (2,2)=6, (1,0)=4
    let coo: CooContainer<u32, i32> =
        CooContainer::new(vec![2, 0, 2, 1], vec![1, 2, 2, 0], vec![5, 3, 6, 4], (3, 3));
    let csr = CsrContainer::from_coo(&coo);
    assert_eq!(csr.shape, (3, 3));
    assert_eq!(csr.row_ptrs, vec![0u32, 1, 2, 4]);
    assert_eq!(csr.col_indices[0], 2);
    assert_eq!(csr.values[0], 3);
    assert_eq!(csr.col_indices[1], 0);
    assert_eq!(csr.values[1], 4);
    // row 2 holds its two entries in some order
    let mut last_row: Vec<(u32, i32)> =
        vec![(csr.col_indices[2], csr.values[2]), (csr.col_indices[3], csr.values[3])];
    last_row.sort();
    assert_eq!(last_row, vec![(1, 5), (2, 6)]);
}

#[test]
fn csr_from_coo_with_empty_rows_and_no_entries() {
    let coo: CooContainer<u64, i64> = CooContainer::new(vec![], vec![], vec![], (3, 2));
    let csr = CsrContainer::from_coo(&coo);
    assert_eq!(csr.row_ptrs, vec![0u64, 0, 0, 0]);
    assert!(csr.col_indices.is_empty());
    assert!(csr.values.is_empty());
}

#[test]
fn both_conversions_from_dense_agree() {
    let a = dense((3, 4), vec![0, 1, 0, 2, 0, 0, 0, 0, 3, 0, 4, 5]);
    let direct: CsrContainer<u32, i32> = CsrContainer::from_ndarray(&a);
    let via_coo = CsrContainer::from_coo(&CooContainer::<u32, i32>::from_ndarray(&a));
    assert_eq!(direct.row_ptrs, via_coo.row_ptrs);
    assert_eq!(direct.row_ptrs, vec![0u32, 2, 2, 5]);
    let sorted = |c: &CsrContainer<u32, i32>, lo: usize, hi: usize| {
        let mut v: Vec<(u32, i32)> = (lo..hi).map(|k| (c.col_indices[k], c.values[k])).collect();
        v.sort();
        v
    };
    for (lo, hi) in [(0usize, 2usize), (2, 2), (2, 5)] {
        assert_eq!(sorted(&direct, lo, hi), sorted(&via_coo, lo, hi));
    }
}

#[test]
fn view_shares_the_container_arrays() {
    let csr = CsrContainer::new((2, 3), vec![0u32, 2, 3], vec![0u32, 2, 2], vec![1i32, 2, 3]);
    let view = csr.view();
    assert_eq!(view.shape(), (2, 3));
    assert_eq!(view.row_ptrs, &[0u32, 2, 3]);
    assert_eq!(view.col_indices, &[0u32, 2, 2]);
    assert_eq!(view.values, &[1, 2, 3]);
    assert_eq!(SparseMatrix::nnz(&view), 3);
    assert_eq!(SparseMatrix::rows(&view), 2);
}

#[test]
fn row_offset_of_container_and_view() {
    let csr = CsrContainer::new((2, 3), vec![0u32, 2, 3], vec![0u32, 2, 2], vec![1i32, 2, 3]);
    assert_eq!(csr.row_offset(0), 0);
    assert_eq!(csr.row_offset(1), 2);
    let view = csr.view();
    // a view also answers for the end offset
    assert_eq!(view.row_offset(2), 3);
    assert_eq!(csr.nnz(), 3);
    assert_eq!(SparseMatrix::shape(&csr), (2, 3));
}
