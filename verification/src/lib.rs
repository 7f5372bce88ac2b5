pub mod interface;
pub mod matrix;

pub use crate::interface::array::spmm_ndarray;
pub use crate::interface::error::{SparsersError, SparsersResult};
pub use crate::matrix::common::{Index, Scalar};
