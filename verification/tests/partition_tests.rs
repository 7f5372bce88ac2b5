use sparsers::matrix::common::{ExecutionPolicy, RowChunkProducer, SddmmPolicy, SpmmPolicy};
use sparsers::matrix::csr::CsrView;

#[test]
fn sddmm_policy_cuts_where_entries_halve() {
    // rows hold 1, 3, 0, 2 entries
    let row_ptr = vec![0u32, 1, 4, 4, 6];
    let col_idx = vec![0u32; 6];
    let vals = vec![1i32; 6];
    let m = CsrView::new((4, 1), &row_ptr, &col_idx, &vals);
    // target = 0 + (6 - 0) / 2 = 3: first row whose offset reaches 3 is row 2 (offset 4)
    assert_eq!(SddmmPolicy.split_info(&m, 0, 4, 2), (2, 4));
    // rows 1..4: offsets 1, 4, 4, 6 -> target 1 + 5 / 2 = 3 -> row 2, 3 slots before it
    assert_eq!(SddmmPolicy.split_info(&m, 1, 3, 0), (1, 3));
    assert_eq!(SddmmPolicy.chunk_size(&col_idx[1..4]), 3);
}

#[test]
fn spmm_policy_cuts_at_the_asked_row() {
    let row_ptr = vec![0u32, 1, 1];
    let col_idx = vec![0u32];
    let vals = vec![1i32];
    let m = CsrView::new((2, 1), &row_ptr, &col_idx, &vals);
    let p = SpmmPolicy { k: 4 };
    assert_eq!(p.split_info(&m, 0, 2, 1), (1, 4));
    assert_eq!(p.chunk_size(&col_idx), 4);
}

#[test]
fn producer_split_and_walk() {
    // rows hold 2, 0, 1 entries
    let row_ptr = vec![0u32, 2, 2, 3];
    let col_idx = vec![0u32, 2, 1];
    let vals = vec![1i32, 2, 3];
    let m = CsrView::new((3, 3), &row_ptr, &col_idx, &vals);

    let mut buf = vec![0i32; 3];
    let whole = m.par_zip_out(&mut buf, SddmmPolicy);
    assert_eq!(whole.len(), 3);
    let (left, right) = whole.split_at(1);
    assert_eq!((left.start_row, left.num_rows, left.out.len()), (0, 1, 2));
    assert_eq!((right.start_row, right.num_rows, right.out.len()), (1, 2, 1));
    left.out.copy_from_slice(&[10, 11]);

    let mut w = right.into_iter();
    assert_eq!(w.size_hint(), (2, Some(2)));
    let (row, cols, vals_row, out) = w.next_back().unwrap();
    assert_eq!((row, cols, vals_row, out.len()), (2, &[1u32][..], &[3i32][..], 1));
    out[0] = 12;
    let (row, cols, _, out) = w.next().unwrap();
    assert_eq!((row, cols.len(), out.len()), (1, 0, 0));
    assert!(w.next().is_none());
    assert_eq!(w.len(), 0);
    // every row handed out: the block's buffer is used up
    assert!(w.out.is_empty());
    // the two halves and the pieces handed out write the caller's buffer, in order
    assert_eq!(buf, vec![10, 11, 12]);
}

#[test]
fn spmm_producer_walks_fixed_chunks() {
    let row_ptr = vec![0u32, 1, 2];
    let col_idx = vec![0u32, 0];
    let vals = vec![1i32, 1];
    let m = CsrView::new((2, 1), &row_ptr, &col_idx, &vals);
    let mut buf = vec![0i32; 6];
    let mut w = RowChunkProducer::new(&m, &mut buf, 0, 2, SpmmPolicy { k: 3 }).into_iter();
    let first = w.next().unwrap().3;
    assert_eq!(first.len(), 3);
    first.fill(1);
    let second = w.next().unwrap().3;
    assert_eq!(second.len(), 3);
    second.fill(2);
    assert!(w.next().is_none());
    assert_eq!(buf, vec![1, 1, 1, 2, 2, 2]);
}

#[test]
fn interleaved_walk_tiles_the_output() {
    // rows hold 1, 2, 0, 3 entries
    let row_ptr = vec![0u32, 1, 3, 3, 6];
    let col_idx = vec![0u32; 6];
    let vals = vec![1i32; 6];
    let m = CsrView::new((4, 1), &row_ptr, &col_idx, &vals);
    let mut buf = vec![0i32; 6];
    let mut w = m.par_zip_out(&mut buf, SddmmPolicy).into_iter();
    let a = w.next_back().unwrap();
    let b = w.next().unwrap();
    let c = w.next_back().unwrap();
    let d = w.next().unwrap();
    assert!(w.next().is_none());
    assert!(w.next_back().is_none());
    assert_eq!([a.0, b.0, c.0, d.0], [3, 0, 2, 1]);
    assert_eq!([a.3.len(), b.3.len(), c.3.len(), d.3.len()], [3, 1, 0, 2]);
    // each row marks its own piece: the pieces tile the buffer in row order
    for (row, piece) in [(a.0, a.3), (b.0, b.3), (c.0, c.3), (d.0, d.3)] {
        piece.fill(row as i32 + 1);
    }
    assert_eq!(buf, vec![1, 2, 2, 4, 4, 4]);
}
