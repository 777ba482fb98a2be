//! Verified core of a content-addressed storage node: the buffer pool that
//! pulls stripe pages through single-flight fetches, the cache-side key and
//! checksum types, the admission filter and the per-key fill gate.
//!
//! Every type here is plain data driven by explicit calls. Executors, locks,
//! wakers and device I/O live around the library: they perform the requests
//! that the state machines hand out and feed the outcomes back in.

pub mod bufferpool;
pub mod mercury;
pub mod power;
pub mod storage;
mod table;
pub mod text;
pub mod wakers;
