//! Dense row-major matrix multiplication, `C += A * B`: the index arithmetic
//! of a cache-blocked engine, the data movement that feeds its register-tile
//! kernels, engine selection and the partitioning of work across threads.
pub mod dispatch;
pub mod matrix;
pub mod packing;
pub mod plan;
pub mod schedule;
pub mod threading;
pub mod tiling;
