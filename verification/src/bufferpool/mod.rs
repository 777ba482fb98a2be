//! Pages shared between concurrent readers, fetched at most once at a time.

pub mod byte_laws;
pub mod chunks;
pub mod fetch;
pub mod free_list;
pub mod inflight;
pub mod null;
pub mod pool;
pub mod pool_laws;
pub mod replies;
pub mod stream;
pub mod traits;
pub mod types;
