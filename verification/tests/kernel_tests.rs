use sparsers::matrix::csr::CsrView;
use sparsers::matrix::kernel::{sddmm, spmm_dense};

////////////////////////////////
/// Test cases for spmm_dense///
////////////////////////////////
#[test]
fn test_spmm_dense_happy_path() {
    // A (2x3): [[1, 0, 2], [0, 0, 3]]
    // B (3x2): [[1, 2], [3, 4], [5, 6]]
    // C = A * B = [[11, 14], [15, 18]]
    let row_ptr = vec![0u32, 2, 3];
    let col_idx = vec![0u32, 2, 2];
    let vals = vec![1i32, 2, 3];
    let a = CsrView::new((2, 3), &row_ptr, &col_idx, &vals);

    let b = vec![1i32, 2, 3, 4, 5, 6];
    let mut c = vec![0i32; 2 * 2];

    spmm_dense(&a, &b, &mut c, 2);

    assert_eq!(c, vec![11, 14, 15, 18]);
}

#[test]
fn test_spmm_dense_empty_row() {
    // A (3x2): [[1, 2], [0, 0], [3, 4]] -> Middle row is empty
    // B (2x1): [[10], [20]]
    // Expected C: [[50], [0], [110]]
    let row_ptr = vec![0u32, 2, 2, 4];
    let col_idx = vec![0u32, 1, 0, 1];
    let vals = vec![1i32, 2, 3, 4];
    let a = CsrView::new((3, 2), &row_ptr, &col_idx, &vals);

    let b = vec![10i32, 20];
    let mut c = vec![0i32; 3 * 1];

    spmm_dense(&a, &b, &mut c, 1);

    assert_eq!(c, vec![50, 0, 110]);
}

#[test]
fn test_spmm_dense_padding_safety() {
    // verify that spmm_dense only reads up to b_cols in B rows
    let row_ptr = vec![0u32, 1];
    let col_idx = vec![0u32];
    let vals = vec![2i32];
    let a = CsrView::new((1, 1), &row_ptr, &col_idx, &vals);

    let b = vec![10i32, 99, 99]; // 99 are noise values
    let mut c = vec![0i32; 1];

    spmm_dense(&a, &b, &mut c, 1);

    assert_eq!(c[0], 20);
}

////////////////////////////
/// Test cases for sddmm ///
////////////////////////////
#[test]
fn test_sddmm_happy_path() {
    // S (2x3): [[1, 0, 2], [0, 0, 3]]
    // D1 (2x2): [[1, 2], [3, 4]]
    // D2 (3x2): [[5, 6], [7, 8], [9, 10]]
    let row_ptr = vec![0u32, 2, 3];
    let col_idx = vec![0u32, 2, 2];
    let vals = vec![1i32, 2, 3];
    let s = CsrView::new((2, 3), &row_ptr, &col_idx, &vals);

    let d1 = vec![1i32, 2, 3, 4];
    let d2 = vec![5i32, 6, 7, 8, 9, 10];
    let mut out = vec![0i32; vals.len()];

    sddmm(&s, &d1, &d2, &mut out, 2);

    assert_eq!(out[0], 17); // 1 * (1*5 + 2*6) = 17
    assert_eq!(out[1], 58); // 2 * (1*9 + 2*10) = 58
    assert_eq!(out[2], 201); // 3 * (3*9 + 4*10) = 201
}

#[test]
fn test_sddmm_empty_row() {
    // S (3x2): [[1, 2], [0, 0], [3, 4]] -> Middle row is empty
    // D1 (3x2): [[1, 2], [3, 4], [5, 6]]
    // D2 (2x2): [[7, 8], [9, 10]]
    let row_ptr = vec![0u32, 2, 2, 4];
    let col_idx = vec![0u32, 1, 0, 1];
    let vals = vec![1i32, 2, 3, 4];
    let s = CsrView::new((3, 2), &row_ptr, &col_idx, &vals);
    let d1 = vec![1i32, 2, 3, 4, 5, 6];
    let d2 = vec![7i32, 8, 9, 10];
    let mut out = vec![0i32; vals.len()];

    sddmm(&s, &d1, &d2, &mut out, 2);

    assert_eq!(out[0], 23); // 1 * (1*7 + 2*8) = 23
    assert_eq!(out[1], 58); // 2 * (1*9 + 2*10) = 58
    assert_eq!(out[2], 249); // 3 * (5*7 + 6*8) = 249
    assert_eq!(out[3], 420); // 4 * (5*9 + 6*10) = 420
}

#[test]
fn spmm_dense_overwrites_stale_output() {
    let row_ptr = vec![0u64, 1, 2];
    let col_idx = vec![1u64, 0];
    let vals = vec![-2i64, 3];
    let a = CsrView::new((2, 2), &row_ptr, &col_idx, &vals);
    // B = [[1, 2], [3, 4]]
    let b = vec![1i64, 2, 3, 4];
    let mut c = vec![77i64; 4];
    spmm_dense(&a, &b, &mut c, 2);
    // row 0 = -2 * [3, 4]; row 1 = 3 * [1, 2]
    assert_eq!(c, vec![-6, -8, 3, 6]);
}

#[test]
fn spmm_dense_with_a_container() {
    let a = sparsers::matrix::csr::CsrContainer::new((1, 3), vec![0u32, 2], vec![0u32, 2], vec![2u64, 5]);
    let b = vec![1u64, 1, 1, 1, 7, 9];
    let mut c = vec![0u64; 2];
    spmm_dense(&a, &b, &mut c, 2);
    assert_eq!(c, vec![2 + 35, 2 + 45]);
}

#[test]
fn sddmm_with_zero_inner_dimension_gives_zeros() {
    let row_ptr = vec![0u32, 1];
    let col_idx = vec![0u32];
    let vals = vec![9i32];
    let s = CsrView::new((1, 1), &row_ptr, &col_idx, &vals);
    let mut out = vec![5i32; 1];
    sddmm(&s, &[], &[], &mut out, 0);
    assert_eq!(out, vec![0]);
}

#[test]
fn spmm_dense_result_ignores_old_output_and_b_padding() {
    // A (2x2) = [[0, 0], [3, 1]]: first row stores nothing
    let row_ptr = vec![0u32, 0, 2];
    let col_idx = vec![0u32, 1];
    let vals = vec![3i64, 1];
    let a = CsrView::new((2, 2), &row_ptr, &col_idx, &vals);
    let b1 = vec![1i64, 2, 3, 4];
    let b2 = vec![1i64, 2, 3, 4, -50, 60];
    let mut c1 = vec![9i64; 4];
    let mut c2 = vec![-7i64; 4];
    spmm_dense(&a, &b1, &mut c1, 2);
    spmm_dense(&a, &b2, &mut c2, 2);
    assert_eq!(c1, c2);
    assert_eq!(c1, vec![0, 0, 6, 10]);
}

#[test]
fn sddmm_result_ignores_old_output() {
    let row_ptr = vec![0u32, 1, 2];
    let col_idx = vec![1u32, 0];
    let vals = vec![2i32, -1];
    let s = CsrView::new((2, 2), &row_ptr, &col_idx, &vals);
    let d1 = vec![1i32, 2, 3, 4];
    let d2 = vec![5i32, 6, 7, 8];
    let mut out1 = vec![100i32; 2];
    let mut out2 = vec![-3i32; 2];
    sddmm(&s, &d1, &d2, &mut out1, 2);
    sddmm(&s, &d1, &d2, &mut out2, 2);
    assert_eq!(out1, out2);
    // 2 * (1*7 + 2*8) = 46; -1 * (3*5 + 4*6) = -39
    assert_eq!(out1, vec![46, -39]);
}
