//! Single-flight fetch of a page.
//!
//! Leadership is cooperative: the first reader to find a page idle becomes
//! its leader and runs the I/O; later readers park on the slot. If the
//! leader gives up before the bytes arrived, the slot is idle again, parked
//! readers are woken and the next one takes over.
//!
//! Each step hands out what is needed next: a page of the backing, a disk
//! lookup, a bulk get from a peer, a write to the block store, or a wait for
//! the leader. The caller does that and hands the outcome back with the
//! ticket, or cancels the ticket.

use crate::bufferpool::chunks;
use crate::bufferpool::chunks::RangeFetch;
use crate::bufferpool::inflight::PhaseView;
use crate::bufferpool::pool;
use crate::bufferpool::pool::{Pool, PoolView, Progress, SlotId};
use crate::bufferpool::replies::PageReplies;
use crate::bufferpool::stream::{PageWindow, ReadStream};
use crate::bufferpool::types::{Backing, Error, PageRange, PageRef, StripeKey};
use vstd::arithmetic::mul;
use vstd::prelude::*;

verus! {

/// What comes of one step of a fetch.
pub enum FetchStep {
    /// The bytes are in the page, which stays pinned until the guard is
    /// given back.
    Ready(PageGuard),
    /// The fetch failed.
    Failed(Error),
    /// The leader waits for a page of the backing.
    NeedPage(PageWait),
    /// The leader looks the page up on disk.
    ReadDisk(DiskRead),
    /// The leader gets the page from a peer.
    GetPeer(PeerGet),
    /// The leader writes the page to the block store.
    WriteTee(TeeWrite),
    /// Somebody else leads.
    Parked(SlotWait),
}

/// A pinned page whose bytes have arrived.
pub struct PageGuard {
    key: StripeKey,
    page_no: u64,
    page_idx: u32,
}

/// Held by a leader that waits for a page of the backing.
pub struct PageWait {
    key: StripeKey,
    page_no: u64,
}

/// Held by a leader while it looks a page up on disk.
pub struct DiskRead {
    key: StripeKey,
    page_no: u64,
    stripe_off: u64,
    dst: PageRef,
}

/// Held by a leader while it gets a page from a peer.
pub struct PeerGet {
    key: StripeKey,
    page_no: u64,
    stripe_off: u64,
    dst: PageRef,
    fetch: RangeFetch,
}

/// Held by a leader while it writes a page to the block store.
pub struct TeeWrite {
    key: StripeKey,
    page_no: u64,
    stripe_off: u64,
    dst: PageRef,
}

/// Held by a reader that waits for the leader of its page.
pub struct SlotWait {
    key: StripeKey,
    page_no: u64,
}

/// The whole of a page of the backing.
pub open spec fn whole_page(page_idx: u32, page_size: usize) -> PageRef {
    PageRef { page_idx, offset: 0, len: page_size as u32 }
}

/// The range that holds one page of a stripe.
pub open spec fn page_range(id: SlotId) -> PageRange {
    PageRange { stripe: id.0, start_page: id.1 as u32, end_page: (id.1 + 1) as u32 }
}

impl PoolView {
    /// Whether a leader fetches the slot `id` into the page `p`.
    pub open spec fn loads(self, id: SlotId, p: u32) -> bool {
        self.leads(id) && self.slots[id].page == Some(p)
    }
}

/// What a leader that has the page `p` does next: look it up on disk, unless
/// it lies beyond the last offset of a stripe.
pub open spec fn disk_step(pre: PoolView, id: SlotId, p: u32, r: FetchStep, post: PoolView) -> bool {
    let off = id.1 * pre.backing.page_size;
    if off > u64::MAX {
        &&& r == FetchStep::Failed(Error::OffsetOutOfRange)
        &&& post == pre.abandoned(id)
    } else {
        &&& r matches FetchStep::ReadDisk(t)
        &&& t.id() == id
        &&& t.offset() == off
        &&& t.page() == whole_page(p, pre.backing.page_size)
        &&& post == pre
    }
}

/// What a leader does next: get a page of the backing where the slot has
/// none, or wait for one where none is free. Which free page it gets is left
/// open.
pub open spec fn lead_step(
    pre: PoolView,
    id: SlotId,
    waker: u64,
    r: FetchStep,
    post: PoolView,
) -> bool {
    match pre.slots[id].page {
        Some(p) => disk_step(pre, id, p, r, post),
        None => if pre.free == Set::<u32>::empty() {
            &&& r matches FetchStep::NeedPage(t)
            &&& t.id() == id
            &&& post == pre.queued(waker)
        } else {
            exists|p: u32| #[trigger]
                pre.free.contains(p) && disk_step(pre.given(id, p), id, p, r, post)
        },
    }
}

/// The range that is asked of a peer for a page holds that page alone, of
/// its own stripe: in bytes it starts at the offset of the page.
pub proof fn law_peer_is_asked_for_the_page(id: SlotId, page_size: usize)
    requires
        id.1 < u32::MAX,
    ensures
        page_range(id).stripe == id.0,
        page_range(id).start_page == id.1,
        page_range(id).end_page == id.1 + 1,
        page_range(id).start_page * page_size == id.1 * page_size,
{
}

/// A destination page is a page of the backing from its first byte to its
/// last.
pub proof fn law_destination_is_the_whole_page(page_idx: u32, page_size: usize)
    requires
        page_size <= u32::MAX,
    ensures
        whole_page(page_idx, page_size).page_idx == page_idx,
        whole_page(page_idx, page_size).offset == 0,
        whole_page(page_idx, page_size).len == page_size,
{
}

/// What a leader meets when it goes on. It looks its page up on disk, at the
/// page's own offset in the stripe and into a whole page of the backing:
/// the one its slot had, or a free one. It waits, with its waker listed,
/// exactly where its slot has no page and none is free. It fails exactly
/// where it has a page to fill and the offset does not fit in 64 bits.
pub proof fn law_leader_looks_up_its_page(
    pre: PoolView,
    id: SlotId,
    waker: u64,
    r: FetchStep,
    post: PoolView,
)
    requires
        pre.wf(),
        pre.leads(id),
        lead_step(pre, id, waker, r, post),
    ensures
        ({
            let starved = pre.slots[id].page is None && forall|p: u32| !pre.free.contains(p);
            let in_range = id.1 * pre.backing.page_size <= 0xffff_ffff_ffff_ffff;
            &&& r is NeedPage <==> starved
            &&& r is ReadDisk <==> !starved && in_range
            &&& r is Failed <==> !starved && !in_range
            &&& r matches FetchStep::NeedPage(t) ==> t.id() == id && post.parked.contains(waker)
                && post.slots == pre.slots && post.free == pre.free
            &&& r matches FetchStep::Failed(e) ==> e == Error::OffsetOutOfRange
            &&& r matches FetchStep::ReadDisk(t) ==> {
                &&& t.id() == id
                &&& t.offset() == id.1 * pre.backing.page_size
                &&& t.page().offset == 0
                &&& pre.backing.page_size <= u32::MAX ==> t.page().len == pre.backing.page_size
                &&& t.page().page_idx < pre.backing.page_count
                &&& pre.slots[id].page == Some(t.page().page_idx) || (pre.slots[id].page is None
                    && pre.free.contains(t.page().page_idx))
                &&& post.slots.contains_key(id)
                &&& post.slots[id].page == Some(t.page().page_idx)
                &&& post.slots[id].phase == pre.slots[id].phase
                &&& !post.free.contains(t.page().page_idx)
            }
        }),
{
    if forall|p: u32| !pre.free.contains(p) {
        assert(pre.free =~= Set::<u32>::empty());
    }
    if !pre.parked.contains(waker) {
        assert(pre.parked.push(waker).last() == waker);
    }
}

/// What a reader meets that asks for a page. Bytes that have arrived are
/// shown to it in the page that holds them; a failure is told to it as it
/// happened; behind a leader it waits, pinned and with its waker listed; and
/// where nobody fetches the page it leads.
pub proof fn law_reader_meets_the_state_of_its_page(
    pre: PoolView,
    id: SlotId,
    waker: u64,
    r: FetchStep,
    post: PoolView,
)
    requires
        pre.wf(),
        first_step(pre, id, waker, r, post),
    ensures
        r is Ready <==> pre.slots.contains_key(id) && pre.slots[id].phase is Ready,
        r matches FetchStep::Ready(g) ==> {
            &&& g.id() == id
            &&& pre.slots[id].page == Some(g.page())
            &&& post.slots[id].page == Some(g.page())
            &&& post.slots[id].phase is Ready
            &&& post.slots[id].holds == pre.slots[id].holds + 1
        },
        pre.slots.contains_key(id) ==> (pre.slots[id].phase matches PhaseView::Failed(e) ==> r
            == FetchStep::Failed(e) && post == pre),
        r is Parked <==> pre.slots.contains_key(id) && pre.slots[id].phase is Loading,
        r matches FetchStep::Parked(t) ==> {
            &&& t.id() == id
            &&& post.slots[id].waiters().contains(waker)
            &&& forall|w: u64| #[trigger]
                pre.slots[id].waiters().contains(w) ==> post.slots[id].waiters().contains(w)
            &&& post.slots[id].holds == pre.slots[id].holds + 1
        },
        r is ReadDisk || r is NeedPage ==> {
            &&& !pre.slots.contains_key(id) || pre.slots[id].phase is Idle
            &&& post.slots.contains_key(id)
            &&& post.slots[id].phase is Loading
            &&& post.slots[id].waiters().len() == 0
            &&& post.slots[id].holds == pre.slot(id).holds + 1
        },
        r matches FetchStep::ReadDisk(t) ==> t.id() == id && t.offset() == id.1
            * pre.backing.page_size && post.slots[id].page == Some(t.page().page_idx),
        !(r is GetPeer) && !(r is WriteTee),
{
    let before = pre.slots[id].waiters();
    assert(before.push(waker).last() == waker);
    assert forall|w: u64| #[trigger] before.contains(w) implies before.push(waker).contains(w) by {
        let i = choose|i: int| 0 <= i < before.len() && before[i] == w;
        assert(before.push(waker)[i] == w);
    }
    if pre.slot(id).phase is Idle {
        pool::lemma_led_keeps_shape(pre, id);
        law_leader_looks_up_its_page(pre.led(id), id, waker, r, post);
    }
}

/// What a reader that asks for a page meets: its bytes, its failure, a
/// leader at work, or nobody, in which case it leads.
pub open spec fn first_step(
    pre: PoolView,
    id: SlotId,
    waker: u64,
    r: FetchStep,
    post: PoolView,
) -> bool {
    match pre.slot(id).phase {
        PhaseView::Ready => {
            &&& r matches FetchStep::Ready(g)
            &&& g.id() == id
            &&& pre.owns(id, g.page())
            &&& post == pre.held(id)
        },
        PhaseView::Failed(e) => {
            &&& r == FetchStep::Failed(e)
            &&& post == pre
        },
        PhaseView::Loading(_) => {
            &&& r matches FetchStep::Parked(t)
            &&& t.id() == id
            &&& post == pre.joined(id, waker)
        },
        PhaseView::Idle => lead_step(pre.led(id), id, waker, r, post),
    }
}

impl Pool {
    /// Starts to fetch the page that a stream reads next, or nothing at the
    /// end of the stream.
    pub fn next_page(&mut self, stream: &ReadStream, waker: u64) -> (r: Option<FetchStep>)
        requires
            old(self).wf(),
            stream@.page_size > 0,
            stream@.window() matches Some(w) ==> old(self)@.slot(
                (stream@.key, w.page_no),
            ).holds < usize::MAX,
        ensures
            final(self).wf(),
            match stream@.window() {
                None => r is None && final(self)@ == old(self)@,
                Some(w) => r is Some && first_step(
                    old(self)@,
                    (stream@.key, w.page_no),
                    waker,
                    r->0,
                    final(self)@,
                ),
            },
            r is Some <==> stream@.pos < stream@.end,
            r is Some ==> first_step(
                old(self)@,
                (stream@.key, (stream@.pos as int / stream@.page_size as int) as u64),
                waker,
                r->0,
                final(self)@,
            ),
    {
        match stream.window() {
            None => None,
            Some(w) => Some(self.fetch_page(stream.key(), w.page_no, waker)),
        }
    }

    /// Starts to fetch a page of a stripe. A reader that has to wait is
    /// woken by `waker`.
    pub fn fetch_page(&mut self, key: StripeKey, page_no: u64, waker: u64) -> (r: FetchStep)
        requires
            old(self).wf(),
            old(self)@.slot((key, page_no)).holds < usize::MAX,
        ensures
            final(self).wf(),
            first_step(old(self)@, (key, page_no), waker, r, final(self)@),
    {
        match self.progress(key, page_no) {
            Progress::Ready(page_idx) => {
                self.hold(key, page_no);
                FetchStep::Ready(PageGuard { key, page_no, page_idx })
            },
            Progress::Failed(e) => FetchStep::Failed(e),
            Progress::Loading => {
                self.join(key, page_no, waker);
                FetchStep::Parked(SlotWait { key, page_no })
            },
            Progress::Idle => {
                self.lead(key, page_no);
                self.go_on(key, page_no, waker)
            },
        }
    }

    /// Next step of the leader of a slot that has not looked it up yet.
    fn go_on(&mut self, key: StripeKey, page_no: u64, waker: u64) -> (r: FetchStep)
        requires
            old(self).wf(),
            old(self)@.leads((key, page_no)),
        ensures
            final(self).wf(),
            lead_step(old(self)@, (key, page_no), waker, r, final(self)@),
    {
        let ghost id = (key, page_no);
        let page_idx: u32 = match self.page_for(key, page_no) {
            Some(p) => p,
            None => {
                self.queue(waker);
                return FetchStep::NeedPage(PageWait { key, page_no });
            },
        };
        let ghost mid = self@;
        let page_size = self.backing().page_size;
        let r = match page_no.checked_mul(page_size as u64) {
            None => {
                self.abandon(key, page_no);
                FetchStep::Failed(Error::OffsetOutOfRange)
            },
            Some(stripe_off) => {
                let dst = PageRef { page_idx, offset: 0, len: page_size as u32 };
                FetchStep::ReadDisk(DiskRead { key, page_no, stripe_off, dst })
            },
        };
        assert(disk_step(mid, id, page_idx, r, self@));
        r
    }
}

impl PageGuard {
    /// The page of the stripe.
    pub closed spec fn id(self) -> SlotId {
        (self.key, self.page_no)
    }

    /// The page of the backing.
    pub closed spec fn page(self) -> u32 {
        self.page_idx
    }

    /// The page of the stripe.
    pub fn page_no(&self) -> (r: u64)
        ensures
            r == self.id().1,
    {
        self.page_no
    }

    /// The page of the backing that holds the bytes.
    pub fn page_idx(&self) -> (r: u32)
        ensures
            r == self.page(),
    {
        self.page_idx
    }

    /// Where the bytes of a window on the page lie in the backing: the
    /// offset of the first one and their number.
    pub fn span(&self, backing: Backing, window: PageWindow) -> (r: (usize, usize))
        requires
            self.page() < backing.page_count,
            window.offset + window.len <= backing.page_size,
            backing.page_count * backing.page_size <= usize::MAX,
        ensures
            r.0 == self.page() * backing.page_size + window.offset,
            r.1 == window.len,
            r.0 + r.1 <= (self.page() + 1) * backing.page_size,
            r.0 + r.1 <= backing.page_count * backing.page_size,
    {
        proof {
            let page = self.page_idx as int;
            let size = backing.page_size as int;
            mul::lemma_mul_inequality(page + 1, backing.page_count as int, size);
            mul::lemma_mul_is_distributive_add_other_way(size, page, 1);
        }
        (self.page_idx as usize * backing.page_size + window.offset, window.len)
    }

    /// Gives the page back.
    pub fn release(self, pool: &mut Pool)
        requires
            old(pool).wf(),
        ensures
            final(pool).wf(),
            final(pool)@ == old(pool)@.released(self.id()),
    {
        pool.release_guard(self.key, self.page_no);
    }
}

impl PageWait {
    /// The page of the stripe.
    pub closed spec fn id(self) -> SlotId {
        (self.key, self.page_no)
    }

    /// Tries again to get a page of the backing.
    pub fn on_wake(self, pool: &mut Pool, waker: u64) -> (r: FetchStep)
        requires
            old(pool).wf(),
            old(pool)@.leads(self.id()),
        ensures
            final(pool).wf(),
            lead_step(old(pool)@, self.id(), waker, r, final(pool)@),
    {
        pool.go_on(self.key, self.page_no, waker)
    }

    /// Gives up the lead.
    pub fn cancel(self, pool: &mut Pool)
        requires
            old(pool).wf(),
            old(pool)@.leads(self.id()),
        ensures
            final(pool).wf(),
            final(pool)@ == old(pool)@.abandoned(self.id()),
    {
        pool.abandon(self.key, self.page_no);
    }
}

impl DiskRead {
    /// The page of the stripe.
    pub closed spec fn id(self) -> SlotId {
        (self.key, self.page_no)
    }

    /// Offset of the page within the stripe.
    pub closed spec fn offset(self) -> u64 {
        self.stripe_off
    }

    /// Where the bytes go.
    pub closed spec fn page(self) -> PageRef {
        self.dst
    }

    /// The stripe to look up.
    pub fn key(&self) -> (r: StripeKey)
        ensures
            r == self.id().0,
    {
        self.key
    }

    /// Offset of the page within the stripe.
    pub fn stripe_off(&self) -> (r: u64)
        ensures
            r == self.offset(),
    {
        self.stripe_off
    }

    /// Where the bytes go.
    pub fn dst(&self) -> (r: PageRef)
        ensures
            r == self.page(),
    {
        self.dst
    }

    /// Whether a miss can be handled. The one page number that fits a
    /// range but leaves no room for its end cannot be asked for.
    pub fn can_miss(&self) -> (r: bool)
        ensures
            r == (self.id().1 != u32::MAX),
    {
        self.page_no != u32::MAX as u64
    }

    /// Takes the outcome of the lookup: whether the page was there.
    pub fn on_read(self, pool: &mut Pool, outcome: Result<bool, Error>) -> (r: FetchStep)
        requires
            old(pool).wf(),
            old(pool)@.loads(self.id(), self.page().page_idx),
            outcome == Ok::<bool, Error>(false) ==> self.id().1 != u32::MAX,
        ensures
            final(pool).wf(),
            match outcome {
                Err(e) => {
                    &&& r == FetchStep::Failed(e)
                    &&& final(pool)@ == old(pool)@.failed(self.id(), e)
                },
                Ok(true) => {
                    &&& r matches FetchStep::Ready(g)
                    &&& g.id() == self.id()
                    &&& g.page() == self.page().page_idx
                    &&& final(pool)@ == old(pool)@.landed(self.id(), false)
                },
                Ok(false) => if self.id().1 > u32::MAX {
                    &&& r == FetchStep::Failed(Error::OffsetOutOfRange)
                    &&& final(pool)@ == old(pool)@.failed(self.id(), Error::OffsetOutOfRange)
                } else {
                    &&& r matches FetchStep::GetPeer(t)
                    &&& t.wf()
                    &&& t.id() == self.id()
                    &&& t.offset() == self.offset()
                    &&& t.page() == self.page()
                    &&& final(pool)@ == old(pool)@
                },
            },
    {
        proof {
            pool::law_pool_keeps_its_shape(*pool);
        }
        match outcome {
            Err(e) => {
                pool.fail(self.key, self.page_no, e.clone());
                FetchStep::Failed(e)
            },
            Ok(true) => {
                pool.land(self.key, self.page_no, false);
                FetchStep::Ready(
                    PageGuard {
                        key: self.key,
                        page_no: self.page_no,
                        page_idx: self.dst.page_idx,
                    },
                )
            },
            Ok(false) => {
                if self.page_no > u32::MAX as u64 {
                    pool.fail(self.key, self.page_no, Error::OffsetOutOfRange);
                    return FetchStep::Failed(Error::OffsetOutOfRange);
                }
                let range = PageRange {
                    stripe: self.key,
                    start_page: self.page_no as u32,
                    end_page: (self.page_no + 1) as u32,
                };
                        let fetch = RangeFetch::new(range, 1, pool.config().pages_per_chunk);
                FetchStep::GetPeer(
                    PeerGet {
                        key: self.key,
                        page_no: self.page_no,
                        stripe_off: self.stripe_off,
                        dst: self.dst,
                        fetch,
                    },
                )
            },
        }
    }

    /// Gives up the lead.
    pub fn cancel(self, pool: &mut Pool)
        requires
            old(pool).wf(),
            old(pool)@.leads(self.id()),
        ensures
            final(pool).wf(),
            final(pool)@ == old(pool)@.abandoned(self.id()),
    {
        pool.abandon(self.key, self.page_no);
    }
}

impl PeerGet {
    /// The page of the stripe.
    pub closed spec fn id(self) -> SlotId {
        (self.key, self.page_no)
    }

    /// Offset of the page within the stripe.
    pub closed spec fn offset(self) -> u64 {
        self.stripe_off
    }

    /// Where the bytes go.
    pub closed spec fn page(self) -> PageRef {
        self.dst
    }

    /// Well-formedness of the ticket: it gets the one page.
    pub closed spec fn wf(self) -> bool {
        &&& self.fetch.wf()
        &&& self.page_no < u32::MAX
        &&& self.fetch@.range == page_range(self.id())
        &&& self.fetch@.pages_per_chunk > 0
        &&& self.fetch@.done == 0
    }

    /// The range to get.
    pub fn range(&self) -> (r: PageRange)
        requires
            self.wf(),
        ensures
            r == page_range(self.id()),
            r.stripe == self.id().0,
            r.start_page == self.id().1,
            r.end_page == self.id().1 + 1,
    {
        proof {
            chunks::law_single_page_is_one_chunk(self.fetch@.range, self.fetch@.pages_per_chunk);
        }
        match self.fetch.next_call() {
            Some(call) => call.range,
            None => {
                assert(false);
                PageRange { stripe: self.key, start_page: 0, end_page: 0 }
            },
        }
    }

    /// Where the bytes go.
    pub fn dst(&self) -> (r: PageRef)
        ensures
            r == self.page(),
    {
        self.dst
    }

    /// Takes the outcome of the bulk get. A reply for no page is a failure.
    pub fn on_replies(self, pool: &mut Pool, replies: Result<PageReplies, Error>) -> (r: FetchStep)
        requires
            self.wf(),
            old(pool).wf(),
            old(pool)@.loads(self.id(), self.page().page_idx),
        ensures
            final(pool).wf(),
            match replies {
                Err(e) => {
                    &&& r == FetchStep::Failed(e)
                    &&& final(pool)@ == old(pool)@.failed(self.id(), e)
                },
                Ok(list) => if list@.len() < 1 {
                    &&& r == FetchStep::Failed(Error::Io(0))
                    &&& final(pool)@ == old(pool)@.failed(self.id(), Error::Io(0))
                } else {
                    &&& r matches FetchStep::WriteTee(t)
                    &&& t.id() == self.id()
                    &&& t.offset() == self.offset()
                    &&& t.page() == self.page()
                    &&& final(pool)@ == old(pool)@.landed(self.id(), true)
                },
            },
    {
        proof {
            chunks::law_single_page_is_one_chunk(self.fetch@.range, self.fetch@.pages_per_chunk);
        }
        let PeerGet { key, page_no, stripe_off, dst, fetch } = self;
        let mut fetch = fetch;
        match fetch.on_replies(replies) {
            Err(e) => {
                pool.fail(key, page_no, e.clone());
                FetchStep::Failed(e)
            },
            Ok(_) => {
                pool.land(key, page_no, true);
                FetchStep::WriteTee(TeeWrite { key, page_no, stripe_off, dst })
            },
        }
    }

    /// Gives up the lead.
    pub fn cancel(self, pool: &mut Pool)
        requires
            old(pool).wf(),
            old(pool)@.leads(self.id()),
        ensures
            final(pool).wf(),
            final(pool)@ == old(pool)@.abandoned(self.id()),
    {
        pool.abandon(self.key, self.page_no);
    }
}

impl TeeWrite {
    /// The page of the stripe.
    pub closed spec fn id(self) -> SlotId {
        (self.key, self.page_no)
    }

    /// Offset of the page within the stripe.
    pub closed spec fn offset(self) -> u64 {
        self.stripe_off
    }

    /// The page to write.
    pub closed spec fn page(self) -> PageRef {
        self.dst
    }

    /// The stripe to write.
    pub fn key(&self) -> (r: StripeKey)
        ensures
            r == self.id().0,
    {
        self.key
    }

    /// Offset of the page within the stripe.
    pub fn stripe_off(&self) -> (r: u64)
        ensures
            r == self.offset(),
    {
        self.stripe_off
    }

    /// The page to write.
    pub fn dst(&self) -> (r: PageRef)
        ensures
            r == self.page(),
    {
        self.dst
    }

    /// Takes the outcome of the write, which is best effort: the reader gets
    /// the page either way.
    pub fn on_written(self, pool: &mut Pool, outcome: Result<(), Error>) -> (r: FetchStep)
        requires
            old(pool).wf(),
            old(pool)@.pinned(self.id()),
        ensures
            final(pool).wf(),
            r matches FetchStep::Ready(g) && g.id() == self.id() && g.page()
                == self.page().page_idx,
            final(pool)@ == old(pool)@.teed(self.id()),
    {
        pool.end_tee(self.key, self.page_no);
        FetchStep::Ready(
            PageGuard { key: self.key, page_no: self.page_no, page_idx: self.dst.page_idx },
        )
    }

    /// Leaves the write and lets go of the page.
    pub fn cancel(self, pool: &mut Pool)
        requires
            old(pool).wf(),
            old(pool)@.pinned(self.id()),
        ensures
            final(pool).wf(),
            final(pool)@ == old(pool)@.teed(self.id()).let_go(self.id()),
    {
        pool.end_tee(self.key, self.page_no);
        pool.drop_hold(self.key, self.page_no);
    }
}

impl SlotWait {
    /// The page of the stripe.
    pub closed spec fn id(self) -> SlotId {
        (self.key, self.page_no)
    }

    /// Looks what became of the page. Where its leader gave up, this reader
    /// takes the lead. Where somebody leads, it keeps waiting and sees to it
    /// that this leader knows its waker.
    pub fn on_wake(self, pool: &mut Pool, waker: u64) -> (r: FetchStep)
        requires
            old(pool).wf(),
            old(pool)@.pinned(self.id()),
        ensures
            final(pool).wf(),
            match old(pool)@.slots[self.id()].phase {
                PhaseView::Loading(_) => {
                    &&& r == FetchStep::Parked(self)
                    &&& final(pool)@ == old(pool)@.relisted(self.id(), waker)
                },
                PhaseView::Ready => {
                    &&& r matches FetchStep::Ready(g)
                    &&& g.id() == self.id()
                    &&& old(pool)@.owns(self.id(), g.page())
                    &&& final(pool)@ == old(pool)@
                },
                PhaseView::Failed(e) => {
                    &&& r == FetchStep::Failed(e)
                    &&& final(pool)@ == old(pool)@.let_go(self.id())
                },
                PhaseView::Idle => lead_step(
                    old(pool)@.let_go(self.id()).led(self.id()),
                    self.id(),
                    waker,
                    r,
                    final(pool)@,
                ),
            },
    {
        proof {
            pool::law_pool_keeps_its_shape(*pool);
        }
        let key = self.key;
        let page_no = self.page_no;
        match pool.progress(key, page_no) {
            Progress::Loading => {
                pool.relist(key, page_no, waker);
                FetchStep::Parked(self)
            },
            Progress::Ready(page_idx) => FetchStep::Ready(PageGuard { key, page_no, page_idx }),
            Progress::Failed(e) => {
                pool.drop_hold(key, page_no);
                FetchStep::Failed(e)
            },
            Progress::Idle => {
                pool.drop_hold(key, page_no);
                pool.lead(key, page_no);
                pool.go_on(key, page_no, waker)
            },
        }
    }

    /// Stops waiting.
    pub fn cancel(self, pool: &mut Pool)
        requires
            old(pool).wf(),
            old(pool)@.pinned(self.id()),
        ensures
            final(pool).wf(),
            final(pool)@ == old(pool)@.let_go(self.id()),
    {
        pool.drop_hold(self.key, self.page_no);
    }
}

} // verus!
