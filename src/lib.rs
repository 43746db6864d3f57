//! Exact rational numbers kept in lowest terms, and a dense rectangular
//! matrix of them.
pub mod utils;
pub mod rnum;
pub mod mat;
