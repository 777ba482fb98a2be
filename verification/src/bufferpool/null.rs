//! Placeholder block store and transport for embedders that have no local
//! cache tier or peer transport wired up yet. Every disk lookup reports a
//! miss, so the pool always falls through to the transport; writes are
//! dropped. The transport reports every requested page as populated without
//! ever touching the destination buffers, and every peer as holding every
//! range.

use crate::bufferpool::replies::PageReplies;
use crate::bufferpool::traits::{BlockStore, Req};
use crate::bufferpool::types::{Error, PageRange, PageRef, PageReply, PeerId, StripeKey};
use vstd::prelude::*;

verus! {

/// Block store that keeps nothing.
pub struct NullBlockStore;

impl NullBlockStore {
    pub fn new() -> (r: Self)
        ensures
            r == NullBlockStore,
    {
        Self
    }

    /// Local-disk lookup: always a miss.
    pub fn read_page(&self, key: StripeKey, stripe_off: u64, dst: PageRef) -> (r: Result<
        bool,
        Error,
    >)
        ensures
            r == Ok::<bool, Error>(false),
    {
        Ok(false)
    }

    /// Drops the page silently.
    pub fn write_page(&self, key: StripeKey, stripe_off: u64, page: PageRef) -> (r: Result<
        (),
        Error,
    >)
        ensures
            r == Ok::<(), Error>(()),
    {
        Ok(())
    }
}

impl Default for NullBlockStore {
    fn default() -> (r: Self)
        ensures
            r == NullBlockStore,
    {
        Self
    }
}

impl BlockStore for NullBlockStore {
    /// Accepts any backing.
    fn register_pages(&self, base: usize, page_size: usize, page_count: usize) -> (r: Result<
        (),
        Error,
    >)
        ensures
            r == Ok::<(), Error>(()),
    {
        Ok(())
    }
}

/// Transport that reports every requested page as populated without
/// touching the destination buffers.
pub struct NullTransport {
    page_size: u32,
}

impl NullTransport {
    /// Size that every page is reported with.
    pub closed spec fn page_size(self) -> u32 {
        self.page_size
    }

    pub fn new(page_size: u32) -> (r: Self)
        ensures
            r.page_size() == page_size,
    {
        Self { page_size }
    }

    /// One reply per destination page, in their order. There must be as many
    /// destination pages as the range has pages, and few enough for the
    /// reply list to hold.
    pub fn bulk_get<R: Req>(&self, req: &R, range: PageRange, dst_pages: &[PageRef]) -> (r: Result<
        PageReplies,
        Error,
    >)
        requires
            range.start_page <= range.end_page,
            dst_pages@.len() == range.end_page - range.start_page,
            32 * dst_pages@.len() <= usize::MAX,
        ensures
            r is Ok,
            r->Ok_0@ == Seq::new(
                dst_pages@.len(),
                |i: int|
                    PageReply { page_idx: dst_pages@[i].page_idx, byte_len: self.page_size() },
            ),
    {
        let mut out = PageReplies::new();
        let mut i: usize = 0;
        while i < dst_pages.len()
            invariant
                i <= dst_pages@.len(),
                32 * dst_pages@.len() <= usize::MAX,
                out@ == Seq::new(
                    i as nat,
                    |j: int|
                        PageReply { page_idx: dst_pages@[j].page_idx, byte_len: self.page_size },
                ),
            decreases dst_pages@.len() - i,
        {
            out.push(PageReply { page_idx: dst_pages[i].page_idx, byte_len: self.page_size });
            i += 1;
        }
        Ok(out)
    }

    /// Presence check against a peer: always present.
    pub fn probe<R: Req>(&self, req: &R, range: PageRange, peer: PeerId) -> (r: Result<bool, Error>)
        ensures
            r == Ok::<bool, Error>(true),
    {
        Ok(true)
    }
}

} // verus!
