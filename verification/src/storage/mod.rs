//! Cache-side value types, the admission filter and the per-key fill gate.

pub mod admission;
pub mod gate_laws;
pub mod singleflight;
pub mod types;
