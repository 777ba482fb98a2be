//! Binding of a transport to a fabric class, a peer router and a page size.

use crate::power;
use vstd::prelude::*;

verus! {

/// Transport bound to the class `C` of its shard. `P` selects the peer per
/// request.
pub struct MercuryTransport<C, P> {
    class: C,
    router: P,
    page_size: usize,
}

impl<C, P> MercuryTransport<C, P> {
    /// The class that the backing was registered with.
    pub closed spec fn bound_class(self) -> C {
        self.class
    }

    /// What selects the peers.
    pub closed spec fn bound_router(self) -> P {
        self.router
    }

    /// Size of the pages of the backing.
    pub closed spec fn bound_page_size(self) -> usize {
        self.page_size
    }

    /// Builds a transport bound to `class` and `page_size`. The caller has
    /// already registered the pool's backing with `class`; `page_size` is
    /// the page size of that backing, a power of two.
    pub fn new(class: C, router: P, page_size: usize) -> (r: Self)
        requires
            power::power_of_two(page_size as nat),
        ensures
            r.bound_class() == class,
            r.bound_router() == router,
            r.bound_page_size() == page_size,
    {
        MercuryTransport { class, router, page_size }
    }

    /// Size of the pages of the backing.
    pub fn page_size(&self) -> (r: usize)
        ensures
            r == self.bound_page_size(),
    {
        self.page_size
    }
}

} // verus!
