//! What an embedder plugs into the pool, and what it gets from it.

use crate::bufferpool::stream::ReadStream;
use crate::bufferpool::types::{Error, StripeKey};
use vstd::prelude::*;

verus! {

/// A request: the pool only asks which stripe it is about.
pub trait Req {
    fn key(&self) -> StripeKey;
}

/// Local tier behind the pool.
pub trait BlockStore {
    /// Called once with the pool's backing: `page_count` pages of
    /// `page_size` bytes from the address `base` on. Stores that don't need
    /// pre-registration (plain writes on a regular file) can do nothing;
    /// stores that do (fixed buffers, DMA mapping) record their per-page
    /// handles here.
    fn register_pages(&self, base: usize, page_size: usize, page_count: usize) -> Result<
        (),
        Error,
    >;
}

/// So that one store can be shared by several pools, each with its own
/// handle.
impl<T: BlockStore + ?Sized> BlockStore for std::sync::Arc<T> {
    fn register_pages(&self, base: usize, page_size: usize, page_count: usize) -> (r: Result<
        (),
        Error,
    >)
        ensures
            call_ensures(T::register_pages, (&**self, base, page_size, page_count), r),
    {
        (**self).register_pages(base, page_size, page_count)
    }
}

/// A pool that serves requests of type `R` as streams of pages.
pub trait BufferPool<R: Req> {
    /// Whether the pool can be read from.
    spec fn ready(&self) -> bool;

    /// Opens a stream over the `len` bytes from `offset` on of the stripe
    /// that `req` is about.
    fn read(&mut self, req: &R, offset: u64, len: u64) -> (r: Result<ReadStream, Error>)
        requires
            old(self).ready(),
        ensures
            final(self).ready(),
    ;
}

} // verus!
