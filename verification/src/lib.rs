//! Performance core for a tensor-computation engine's matrix-multiply
//! subsystem: micro-kernel descriptors, panel packing and output addressing,
//! CPU microarchitecture detection, a regression-based latency cost model,
//! the benchmark harness arithmetic that feeds it, and the dispatcher that
//! picks the cheapest kernel for a problem shape.

pub mod arch;
pub mod dispatch;
pub mod bench;
pub mod dataset;
pub mod kernel;
pub mod model;
pub mod packing;
pub mod storage;
