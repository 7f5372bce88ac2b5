# sparsers

Sparse matrix kernels with machine-checked contracts.

- `src/matrix/common.rs`: the `Index` and `Scalar` value traits, the `SparseMatrix` read
  interface, the execution policies that cut the output buffer into per-row chunks, and the
  row-block producer/worker that hands rows out with their own pieces of the output buffer.
- `src/matrix/dense.rs`: a row-major dense matrix and the specification of its nonzeros.
- `src/matrix/coo.rs`, `src/matrix/csr.rs`: coordinate-list and compressed-row containers and
  the conversions between them and from dense matrices.
- `src/matrix/counting.rs`: counting lemmas behind the coordinate-to-row conversion.
- `src/matrix/kernel.rs`: sparse-times-dense (`spmm_dense`) and sampled dense-dense
  (`sddmm`) products.
- `src/interface`: the dense-facing entry point `spmm_ndarray` and the error type.
- `app/`: conversions from and to `ndarray` arrays and the error type with its messages.

Values are integers (`i32`, `i64`, `u32`, `u64`); every kernel states its exact result, and
its preconditions say that no running sum leaves the value type's range.
