//! Bookkeeping for a tensor-allocation stress run.
//!
//! A run over a buffer of `len` zeros places that buffer on a device once for
//! every index in `1..len` and records the shape that comes back. The
//! placement itself is the caller's business; this crate decides which
//! placement is due next, numbers the shapes that return, and restores the
//! order of samples that workers delivered concurrently.

pub mod device;
pub mod error;
pub mod sample;
pub mod generate;
pub mod aggregate;
pub mod laws;

pub use crate::aggregate::{aggregate, SharedBuffer};
pub use crate::device::Device;
pub use crate::error::LoadTestError;
pub use crate::generate::{
    cpu_load_test, cpu_load_test_rayon, fan_out, gpu_load_test, gpu_load_test_rayon, Generator,
    Request,
};
pub use crate::sample::{matches_expected, zero_buffer, Sample};
