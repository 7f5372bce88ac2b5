pub mod common;
pub mod coo;
pub mod counting;
pub mod csr;
pub mod dense;
pub mod kernel;
