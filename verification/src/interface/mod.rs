pub mod array;
pub mod error;
