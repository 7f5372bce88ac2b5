use sparsers::matrix::dense::DenseMatrix;
use sparsers::{spmm_ndarray, Index, Scalar, SparsersError};

fn dense(shape: (usize, usize), data: Vec<i64>) -> DenseMatrix<i64> {
    DenseMatrix::from_shape_vec(shape, data).expect("shape matches data")
}

#[test]
fn spmm_ndarray_multiplies() {
    // A (2x3) = [[1, 0, 2], [0, 0, 3]], B (3x2) = [[1, 2], [3, 4], [5, 6]]
    let a = dense((2, 3), vec![1, 0, 2, 0, 0, 3]);
    let b = dense((3, 2), vec![1, 2, 3, 4, 5, 6]);
    let c = spmm_ndarray::<u32, i64>(&a, &b).expect("dimensions agree");
    assert_eq!(c.dim(), (2, 2));
    assert_eq!(c.as_slice(), &[11, 14, 15, 18]);
}

#[test]
fn spmm_ndarray_reports_dimension_mismatch() {
    let a = dense((2, 3), vec![1, 0, 2, 0, 0, 3]);
    let b = dense((2, 2), vec![1, 2, 3, 4]);
    let r = spmm_ndarray::<u32, i64>(&a, &b);
    assert!(matches!(r, Err(SparsersError::DimensionMismatch { sparse_cols: 3, dense_rows: 2 })));
}

#[test]
fn spmm_ndarray_all_zero_sparse() {
    let a = dense((2, 2), vec![0, 0, 0, 0]);
    let b = dense((2, 3), vec![1, 2, 3, 4, 5, 6]);
    let c = spmm_ndarray::<u64, i64>(&a, &b).expect("dimensions agree");
    assert_eq!(c.as_slice(), &[0, 0, 0, 0, 0, 0]);
}

#[test]
fn dense_from_shape_vec_checks_length() {
    assert!(DenseMatrix::<i32>::from_shape_vec((2, 3), vec![0; 5]).is_none());
    assert!(DenseMatrix::<i32>::from_shape_vec((usize::MAX, 2), vec![]).is_none());
    let m = DenseMatrix::<i32>::from_shape_vec((2, 3), vec![0; 6]).unwrap();
    assert_eq!(m.dim(), (2, 3));
    let z: DenseMatrix<u32> = DenseMatrix::zeros((2, 2));
    assert_eq!(z.as_slice(), &[0, 0, 0, 0]);
}

#[test]
fn index_round_trip_and_truncation() {
    assert_eq!(<u32 as Index>::from_usize(7).to_usize(), 7);
    assert_eq!(<i64 as Index>::from_usize(123).to_usize(), 123);
    assert_eq!(<u64 as Index>::from_usize(5), 5u64);
    assert_eq!(<i32 as Index>::from_usize(9), 9i32);
    // positions beyond the type's range are cut to its width
    assert_eq!(<u32 as Index>::from_usize(1usize << 32 | 3), 3u32);
}

#[test]
fn scalar_arithmetic() {
    assert_eq!(<i32 as Scalar>::zero(), 0);
    assert!(Scalar::is_zero(&0u64));
    assert!(!Scalar::is_zero(&-1i64));
    assert_eq!(Scalar::plus(2i32, 3), 5);
    assert_eq!(Scalar::times(-4i64, 3), -12);
}
