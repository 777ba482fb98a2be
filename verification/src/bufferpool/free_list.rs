//! Pages of the backing that nobody uses, and the readers that wait for one.

use crate::wakers;
use vstd::prelude::*;

verus! {

/// Unused pages, each once, and the wakers of those that found none.
pub struct FreeList {
    pages: Vec<u32>,
    waiters: Vec<u64>,
}

impl FreeList {
    /// The unused pages.
    pub closed spec fn free(&self) -> Set<u32> {
        self.pages@.to_set()
    }

    /// Wakers of those that wait for a page.
    pub closed spec fn waiting(&self) -> Seq<u64> {
        self.waiters@
    }

    /// No page is listed twice.
    pub closed spec fn wf(&self) -> bool {
        self.pages@.no_duplicates()
    }

    /// The pages `0..page_count`, all unused.
    pub fn new(page_count: u32) -> (r: Self)
        ensures
            r.wf(),
            r.free() == Set::new(|p: u32| p < page_count),
            r.waiting() == Seq::<u64>::empty(),
    {
        let mut pages: Vec<u32> = Vec::new();
        let mut i: u32 = page_count;
        while i > 0
            invariant
                i <= page_count,
                pages@.len() == page_count - i,
                forall|j: int| 0 <= j < pages@.len() ==> #[trigger] pages@[j] == page_count - 1 - j,
            decreases i,
        {
            i -= 1;
            pages.push(i);
        }
        let r = FreeList { pages, waiters: Vec::new() };
        proof {
            assert forall|p: u32| p < page_count implies r.free().contains(p) by {
                assert(pages@[page_count - 1 - p] == p);
            }
            assert(r.free() =~= Set::new(|p: u32| p < page_count));
        }
        r
    }

    /// Number of unused pages.
    pub fn available(&self) -> (r: usize)
        requires
            self.wf(),
        ensures
            self.free().finite(),
            r == self.free().len(),
    {
        proof {
            self.pages@.unique_seq_to_set();
        }
        self.pages.len()
    }

    /// Takes an unused page, where there is one.
    pub fn take(&mut self) -> (r: Option<u32>)
        requires
            old(self).wf(),
        ensures
            final(self).wf(),
            final(self).waiting() == old(self).waiting(),
            match r {
                Some(p) => {
                    &&& old(self).free().contains(p)
                    &&& final(self).free() == old(self).free().remove(p)
                },
                None => {
                    &&& old(self).free() == Set::<u32>::empty()
                    &&& final(self).free() == old(self).free()
                },
            },
    {
        let r = self.pages.pop();
        proof {
            let before = old(self).pages@;
            match r {
                Some(p) => {
                    assert(before.last() == p);
                    assert(before.to_set().contains(p));
                    assert forall|q: u32|
                        self.free().contains(q) <==> old(self).free().remove(p).contains(q) by {
                        if before.contains(q) && q != p {
                            let i = choose|i: int| 0 <= i < before.len() && before[i] == q;
                            assert(self.pages@[i] == q);
                        }
                        if self.pages@.contains(q) {
                            let i = choose|i: int|
                                0 <= i < self.pages@.len() && self.pages@[i] == q;
                            assert(before[i] == q);
                        }
                    }
                    assert(self.free() =~= old(self).free().remove(p));
                },
                None => {
                    assert(self.free() =~= Set::<u32>::empty());
                },
            }
        }
        r
    }

    /// Leaves the waker of one that found no page.
    pub fn wait(&mut self, waker: u64)
        requires
            old(self).wf(),
        ensures
            final(self).wf(),
            final(self).free() == old(self).free(),
            final(self).waiting() == wakers::with_waker(old(self).waiting(), waker),
    {
        if !wakers::holds_waker(&self.waiters, waker) {
            self.waiters.push(waker);
        }
    }

    /// Takes a page back and hands out the wakers of all that wait.
    pub fn release(&mut self, page: u32) -> (r: Vec<u64>)
        requires
            old(self).wf(),
            !old(self).free().contains(page),
        ensures
            final(self).wf(),
            final(self).free() == old(self).free().insert(page),
            final(self).waiting() == Seq::<u64>::empty(),
            r@ == old(self).waiting(),
    {
        proof {
            assert(forall|i: int| 0 <= i < self.pages@.len() ==> self.pages@[i] != page) by {
                assert(!self.pages@.contains(page));
            }
        }
        self.pages.push(page);
        let mut woken: Vec<u64> = Vec::new();
        woken.append(&mut self.waiters);
        proof {
            let before = old(self).pages@;
            assert forall|q: u32|
                self.free().contains(q) <==> old(self).free().insert(page).contains(q) by {
                if before.contains(q) {
                    let i = choose|i: int| 0 <= i < before.len() && before[i] == q;
                    assert(self.pages@[i] == q);
                }
                assert(self.pages@.last() == page);
            }
            assert(self.free() =~= old(self).free().insert(page));
            assert(woken@ =~= old(self).waiters@);
        }
        woken
    }
}

} // verus!
