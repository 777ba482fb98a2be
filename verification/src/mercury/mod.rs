//! Transport over a fabric that moves whole chunks.

pub mod transport;
