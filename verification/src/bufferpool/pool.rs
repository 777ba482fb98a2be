//! The buffer pool: pages of a fixed backing, shared between the readers of
//! a stripe and handed back once nobody holds them.
//!
//! One pool serves one shard and is driven from one thread. It never waits:
//! whatever has to be awaited is handed out as a ticket
//! ([`crate::bufferpool::fetch`]), and what became of it is handed back with
//! the ticket. Wakers are named by numbers; [`Pool::take_wakes`] gives those
//! that are due.

use crate::bufferpool::free_list::FreeList;
use crate::bufferpool::inflight::{PageSlot, PhaseView, SlotState, SlotView, StripeFetch};
use crate::bufferpool::stream::{ReadStream, StreamView};
use crate::bufferpool::traits::{BlockStore, BufferPool, Req};
use crate::bufferpool::types::{Backing, Error, PoolConfig, StripeKey};
use crate::power;
use crate::table::Table;
use crate::wakers;
use vstd::arithmetic::power2;
use vstd::multiset::Multiset;
use vstd::prelude::*;

verus! {

/// A page of a stripe.
pub type SlotId = (StripeKey, u64);

/// Abstract state of the pool.
pub struct PoolView {
    pub cfg: PoolConfig,
    pub backing: Backing,
    /// Pages of the backing that nobody uses.
    pub free: Set<u32>,
    /// Wakers of the leaders that wait for a page of the backing.
    pub parked: Seq<u64>,
    /// Pages being fetched or held.
    pub slots: Map<SlotId, SlotView>,
    /// Open streams, by stripe.
    pub streams: Multiset<StripeKey>,
    /// Wakers that are due.
    pub wakes: Seq<u64>,
}

impl PoolView {
    /// A pool that nobody uses yet.
    pub open spec fn fresh(cfg: PoolConfig, backing: Backing) -> PoolView {
        PoolView {
            cfg,
            backing,
            free: Set::new(|p: u32| p < backing.page_count),
            parked: Seq::empty(),
            slots: Map::empty(),
            streams: Multiset::empty(),
            wakes: Seq::empty(),
        }
    }

    /// Shape that every operation keeps. Every page of the backing is either
    /// free or in exactly one slot, a slot whose bytes have arrived has a
    /// page, and no slot whose fetch is over stays without being pinned.
    pub open spec fn wf(self) -> bool {
        &&& bad_config(self.cfg, self.backing) is None
        &&& self.streams.len() <= self.cfg.max_concurrent_streams
        &&& forall|p: u32| #[trigger] self.free.contains(p) ==> p < self.backing.page_count
        &&& forall|id: SlotId| #[trigger]
            self.slots.contains_key(id) ==> {
                &&& self.slots[id].page matches Some(p) ==> p < self.backing.page_count
                    && !self.free.contains(p)
                &&& self.slots[id].phase is Ready ==> self.slots[id].page is Some
                &&& self.slots[id].terminal() ==> !self.slots[id].recyclable()
            }
        &&& forall|a: SlotId, b: SlotId|
            #![trigger self.slots[a], self.slots[b]]
            self.slots.contains_key(a) && self.slots.contains_key(b) && self.slots[a].page is Some
                && self.slots[a].page == self.slots[b].page ==> a == b
        &&& forall|p: u32|
            p < self.backing.page_count && !self.free.contains(p) ==> exists|id: SlotId| #[trigger]
                self.owns(id, p)
    }

    /// Whether the slot `id` has the page `p`.
    pub open spec fn owns(self, id: SlotId, p: u32) -> bool {
        self.slots.contains_key(id) && self.slots[id].page == Some(p)
    }

    /// Whether the pool keeps anything about a stripe: a stream or a page.
    pub open spec fn in_flight(self, key: StripeKey) -> bool {
        self.streams.count(key) > 0 || exists|page_no: u64| #[trigger]
            self.slots.contains_key((key, page_no))
    }

    /// The stripes that the pool keeps anything about.
    pub open spec fn stripes(self) -> Set<StripeKey> {
        Set::new(|key: StripeKey| self.in_flight(key))
    }

    /// The slot of a page, fresh where the page has none yet.
    pub open spec fn slot(self, id: SlotId) -> SlotView {
        if self.slots.contains_key(id) {
            self.slots[id]
        } else {
            SlotView::fresh()
        }
    }

    /// The pool with `slot` as the slot of `id`.
    pub open spec fn with_slot(self, id: SlotId, slot: SlotView) -> PoolView {
        PoolView { slots: self.slots.insert(id, slot), ..self }
    }

    /// The pool after a stream was opened.
    pub open spec fn opened(self, key: StripeKey) -> PoolView {
        PoolView { streams: self.streams.insert(key), ..self }
    }

    /// The pool after a stream was closed.
    pub open spec fn closed(self, key: StripeKey) -> PoolView {
        PoolView { streams: self.streams.remove(key), ..self }
    }

    /// The pool after one more reader pinned a slot.
    pub open spec fn held(self, id: SlotId) -> PoolView {
        let slot = self.slot(id);
        self.with_slot(id, SlotView { holds: slot.holds + 1, ..slot })
    }

    /// The pool after a reader found a slot being fetched: it pins the slot
    /// and leaves its waker.
    pub open spec fn joined(self, id: SlotId, waker: u64) -> PoolView {
        let slot = self.slot(id);
        self.with_slot(
            id,
            SlotView {
                phase: PhaseView::Loading(slot.waiters().push(waker)),
                holds: slot.holds + 1,
                ..slot
            },
        )
    }

    /// The pool after a reader that waits for a slot looked at it while it is
    /// being fetched: its waker is listed.
    pub open spec fn relisted(self, id: SlotId, waker: u64) -> PoolView {
        let slot = self.slots[id];
        if slot.waiters().contains(waker) {
            self
        } else {
            self.with_slot(
                id,
                SlotView { phase: PhaseView::Loading(slot.waiters().push(waker)), ..slot },
            )
        }
    }

    /// The pool after a reader found a slot idle and leads its fetch.
    pub open spec fn led(self, id: SlotId) -> PoolView {
        let slot = self.slot(id);
        self.with_slot(
            id,
            SlotView {
                phase: PhaseView::Loading(Seq::empty()),
                holds: slot.holds + 1,
                ..slot
            },
        )
    }

    /// The pool after the leader of a slot got the free page `p`.
    pub open spec fn given(self, id: SlotId, p: u32) -> PoolView {
        PoolView {
            free: self.free.remove(p),
            ..self.with_slot(id, SlotView { page: Some(p), ..self.slots[id] })
        }
    }

    /// The pool after a leader found no free page and left its waker.
    pub open spec fn queued(self, waker: u64) -> PoolView {
        PoolView { parked: wakers::with_waker(self.parked, waker), ..self }
    }

    /// The pool after the fetch of a slot moved on to `phase`; whoever
    /// waited for it is woken.
    pub open spec fn settled(self, id: SlotId, phase: PhaseView) -> PoolView {
        PoolView {
            wakes: self.wakes + self.slots[id].waiters(),
            ..self.with_slot(id, SlotView { phase, ..self.slots[id] })
        }
    }

    /// The pool after a slot went away if its fetch is over and nobody pins
    /// it. Its page is free again, and whoever waits for a page is woken.
    pub open spec fn recycled(self, id: SlotId) -> PoolView {
        let slot = self.slots[id];
        if self.slots.contains_key(id) && slot.terminal() && slot.recyclable() {
            match slot.page {
                Some(p) => PoolView {
                    slots: self.slots.remove(id),
                    free: self.free.insert(p),
                    parked: Seq::empty(),
                    wakes: self.wakes + self.parked,
                    ..self
                },
                None => PoolView { slots: self.slots.remove(id), ..self },
            }
        } else {
            self
        }
    }

    /// The pool after one reader let go of a slot.
    pub open spec fn let_go(self, id: SlotId) -> PoolView {
        let slot = self.slots[id];
        let holds = if slot.holds == 0 {
            0
        } else {
            (slot.holds - 1) as nat
        };
        self.with_slot(id, SlotView { holds, ..slot }).recycled(id)
    }

    /// The pool after a guard on a page was given back.
    pub open spec fn released(self, id: SlotId) -> PoolView {
        if self.slots.contains_key(id) {
            self.let_go(id)
        } else {
            self
        }
    }

    /// The pool after the bytes of a slot arrived. Whoever waited is woken
    /// before the page is written to the block store (`tee`).
    pub open spec fn landed(self, id: SlotId, tee: bool) -> PoolView {
        let slot = self.slots[id];
        self.with_slot(id, SlotView { tee, ..slot }).settled(id, PhaseView::Ready)
    }

    /// The pool after the fetch of a slot failed and its leader left.
    pub open spec fn failed(self, id: SlotId, e: Error) -> PoolView {
        self.settled(id, PhaseView::Failed(e)).let_go(id)
    }

    /// The pool after the leader of a slot left without an outcome. The slot
    /// keeps its page for the next leader.
    pub open spec fn abandoned(self, id: SlotId) -> PoolView {
        self.settled(id, PhaseView::Idle).let_go(id)
    }

    /// The pool after the write to the block store is over.
    pub open spec fn teed(self, id: SlotId) -> PoolView {
        self.with_slot(id, SlotView { tee: false, ..self.slots[id] })
    }

    /// Whether a leader fetches the slot `id`.
    pub open spec fn leads(self, id: SlotId) -> bool {
        &&& self.slots.contains_key(id)
        &&& self.slots[id].phase is Loading
        &&& self.slots[id].holds >= 1
    }

    /// Whether the slot `id` is pinned.
    pub open spec fn pinned(self, id: SlotId) -> bool {
        self.slots.contains_key(id) && self.slots[id].holds >= 1
    }
}

/// Why a pool cannot be made from `cfg` and `backing`, where it cannot.
pub open spec fn bad_config(cfg: PoolConfig, backing: Backing) -> Option<&'static str> {
    if !power::power_of_two(backing.page_size as nat) {
        Some("page_size must be a power of two")
    } else if backing.page_count == 0 {
        Some("page_count must be > 0")
    } else if backing.page_count > u32::MAX {
        Some("page_count exceeds u32 (see design)")
    } else if backing.base == 0 {
        Some("backing.base is null")
    } else if cfg.pages_per_chunk == 0 {
        Some("pages_per_chunk must be non-zero")
    } else {
        None
    }
}

/// A pool is refused for a reason exactly where one of the conditions on its
/// configuration fails: the page size is a power of two, there are between
/// one and 2^32 - 1 pages, the backing has an address, and chunks have
/// pages.
pub proof fn law_pool_is_made_for_sound_configurations(cfg: PoolConfig, backing: Backing)
    ensures
        bad_config(cfg, backing) is None <==> {
            &&& exists|k: nat| backing.page_size == #[trigger] power2::pow2(k)
            &&& 1 <= backing.page_count <= 0xffff_ffff
            &&& backing.base != 0
            &&& cfg.pages_per_chunk != 0
        },
{
    power::law_power_of_two_is_a_power(backing.page_size as nat);
}

/// The reason names the first condition that fails, in the order page size,
/// page count, address, chunk size.
pub proof fn law_reason_names_the_first_fault(cfg: PoolConfig, backing: Backing)
    ensures
        ({
            let fits = exists|k: nat| backing.page_size == #[trigger] power2::pow2(k);
            let reason = bad_config(cfg, backing);
            &&& !fits ==> reason == Some("page_size must be a power of two")
            &&& fits && backing.page_count == 0 ==> reason == Some("page_count must be > 0")
            &&& fits && backing.page_count > 0xffff_ffff ==> reason == Some(
                "page_count exceeds u32 (see design)",
            )
            &&& fits && 1 <= backing.page_count <= 0xffff_ffff && backing.base == 0 ==> reason
                == Some("backing.base is null")
            &&& fits && 1 <= backing.page_count <= 0xffff_ffff && backing.base != 0
                && cfg.pages_per_chunk == 0 ==> reason == Some("pages_per_chunk must be non-zero")
        }),
{
    power::law_power_of_two_is_a_power(backing.page_size as nat);
}

/// A new pool has every page of its backing free, as many as the backing
/// has, and nothing else in it.
pub proof fn law_new_pool_has_every_page_free(cfg: PoolConfig, backing: Backing)
    requires
        backing.page_count <= 0xffff_ffff,
    ensures
        ({
            let v = PoolView::fresh(cfg, backing);
            &&& v.cfg == cfg
            &&& v.backing == backing
            &&& forall|p: u32| #[trigger] v.free.contains(p) <==> p < backing.page_count
            &&& v.free.finite()
            &&& v.free.len() == backing.page_count
            &&& v.slots.dom() == Set::<SlotId>::empty()
            &&& v.stripes() == Set::<StripeKey>::empty()
            &&& v.streams.len() == 0
            &&& v.parked.len() == 0
            &&& v.wakes.len() == 0
        }),
{
    broadcast use vstd::multiset::group_multiset_axioms;

    let v = PoolView::fresh(cfg, backing);
    lemma_first_pages(backing.page_count as nat);
    assert(v.free =~= Set::new(|p: u32| p < backing.page_count as nat));
    assert(v.stripes() =~= Set::<StripeKey>::empty());
}

/// There are `n` page numbers below `n`.
proof fn lemma_first_pages(n: nat)
    requires
        n <= 0xffff_ffff,
    ensures
        Set::new(|p: u32| p < n).finite(),
        Set::new(|p: u32| p < n).len() == n,
    decreases n,
{
    let all = Set::new(|p: u32| p < n);
    if n == 0 {
        assert(all =~= Set::<u32>::empty());
    } else {
        let m = (n - 1) as nat;
        let most = Set::new(|p: u32| p < m);
        lemma_first_pages(m);
        assert(all =~= most.insert(m as u32));
    }
}

/// A stripe is in flight exactly while a stream is open on it or a page of it
/// has a slot.
pub proof fn law_stripe_is_in_flight_with_a_stream_or_a_page(v: PoolView, key: StripeKey)
    ensures
        v.stripes().contains(key) <==> (v.streams.count(key) > 0 || exists|page_no: u64|
         #[trigger]
            v.slots.contains_key((key, page_no))),
{
}

/// Opening a stream adds one stream of its stripe to both counts and touches
/// nothing else.
pub proof fn law_opening_counts_one_stream(v: PoolView, key: StripeKey, other: StripeKey)
    requires
        other != key,
    ensures
        v.opened(key).streams.len() == v.streams.len() + 1,
        v.opened(key).streams.count(key) == v.streams.count(key) + 1,
        v.opened(key).streams.count(other) == v.streams.count(other),
        v.opened(key) == (PoolView { streams: v.opened(key).streams, ..v }),
{
    broadcast use vstd::multiset::group_multiset_axioms;

}

/// How far the fetch of a page has come, with its page or its failure.
pub(crate) enum Progress {
    Idle,
    Loading,
    Ready(u32),
    Failed(Error),
}

/// The pool. Streams, tickets and guards of a pool are handed back to the
/// pool that gave them out.
pub struct Pool {
    cfg: PoolConfig,
    backing: Backing,
    free: FreeList,
    inflight: Table<StripeKey, StripeFetch>,
    stream_count: usize,
    streams: Ghost<Multiset<StripeKey>>,
    wakes: Vec<u64>,
}

/// The slots of all stripes.
spec fn slots_of(inflight: Map<StripeKey, StripeFetch>) -> Map<SlotId, SlotView> {
    Map::new(
        |id: SlotId| inflight.contains_key(id.0) && inflight[id.0].pages@.contains_key(id.1),
        |id: SlotId| inflight[id.0].pages@[id.1].model(),
    )
}

impl View for Pool {
    type V = PoolView;

    closed spec fn view(&self) -> PoolView {
        PoolView {
            cfg: self.cfg,
            backing: self.backing,
            free: self.free.free(),
            parked: self.free.waiting(),
            slots: slots_of(self.inflight@),
            streams: self.streams@,
            wakes: self.wakes@,
        }
    }
}

/// What comes of making a pool over a sound configuration when registering
/// its pages came out as `outcome`.
pub open spec fn made(
    cfg: PoolConfig,
    backing: Backing,
    outcome: Result<(), Error>,
    r: Result<Pool, Error>,
) -> bool {
    match outcome {
        Err(e) => r == Err::<Pool, Error>(e),
        Ok(_) => {
            &&& r is Ok
            &&& r->Ok_0.wf()
            &&& r->Ok_0@ == PoolView::fresh(cfg, backing)
        },
    }
}

/// A stream that is about to read the `len` bytes from `offset` on, or as
/// many as have an offset.
pub open spec fn stream_over(key: StripeKey, offset: u64, len: u64, page_size: usize) -> StreamView {
    StreamView {
        key,
        pos: offset,
        end: if offset + len > u64::MAX {
            u64::MAX
        } else {
            (offset + len) as u64
        },
        page_size,
    }
}

/// Whether `inflight` counts the open streams and keeps no stripe without a
/// stream or a page.
spec fn counts(inflight: Map<StripeKey, StripeFetch>, streams: Multiset<StripeKey>) -> bool {
    &&& forall|k: StripeKey| #[trigger]
        inflight.contains_key(k) ==> {
            &&& inflight[k].pages.wf()
            &&& inflight[k].stream_refcount == streams.count(k)
            &&& inflight[k].stream_refcount > 0 || inflight[k].pages@ != Map::<
                u64,
                PageSlot,
            >::empty()
        }
    &&& forall|k: StripeKey| #[trigger] streams.count(k) > 0 ==> inflight.contains_key(k)
}

/// Whether `after` is `before` with `slot` as the slot of a page.
spec fn slot_set(
    before: Map<StripeKey, StripeFetch>,
    after: Map<StripeKey, StripeFetch>,
    id: SlotId,
    slot: PageSlot,
) -> bool {
    &&& before.contains_key(id.0)
    &&& after == before.insert(id.0, after[id.0])
    &&& after[id.0].stream_refcount == before[id.0].stream_refcount
    &&& after[id.0].pages.wf()
    &&& after[id.0].pages@ == before[id.0].pages@.insert(id.1, slot)
}

proof fn lemma_slot_set(
    before: Map<StripeKey, StripeFetch>,
    after: Map<StripeKey, StripeFetch>,
    id: SlotId,
    slot: PageSlot,
    streams: Multiset<StripeKey>,
)
    requires
        slot_set(before, after, id, slot),
        counts(before, streams),
    ensures
        counts(after, streams),
        slots_of(after) == slots_of(before).insert(id, slot.model()),
{
    assert(after[id.0].pages@.contains_key(id.1));
    assert forall|k: StripeKey| #[trigger] after.contains_key(k) implies {
        &&& after[k].pages.wf()
        &&& after[k].stream_refcount == streams.count(k)
        &&& after[k].stream_refcount > 0 || after[k].pages@ != Map::<u64, PageSlot>::empty()
    } by {
        assert(before.contains_key(k));
        if k != id.0 {
            assert(after[k] == before[k]);
        }
    }
    assert forall|k: StripeKey| #[trigger] streams.count(k) > 0 implies after.contains_key(k) by {
        assert(before.contains_key(k));
    }
    assert(slots_of(after) =~= slots_of(before).insert(id, slot.model()));
}

/// The slot of a page; no other slot changes through it.
fn slot_mut(inflight: &mut Table<StripeKey, StripeFetch>, key: StripeKey, page_no: u64) -> (r:
    &mut PageSlot)
    requires
        old(inflight).wf(),
        old(inflight)@.contains_key(key),
        old(inflight)@[key].pages.wf(),
        old(inflight)@[key].pages@.contains_key(page_no),
    ensures
        *r == old(inflight)@[key].pages@[page_no],
        final(inflight).wf(),
        slot_set(old(inflight)@, final(inflight)@, (key, page_no), *final(r)),
{
    let fetch = inflight.get_mut(&key);
    fetch.pages.get_mut(&page_no)
}

impl Pool {
    /// Well-formedness of the pool.
    pub closed spec fn wf(&self) -> bool {
        &&& self@.wf()
        &&& self.shape()
    }

    spec fn shape(&self) -> bool {
        &&& self.free.wf()
        &&& self.inflight.wf()
        &&& counts(self.inflight@, self.streams@)
        &&& self.stream_count == self.streams@.len()
    }

    /// Carves `backing` into pages and registers them with `blockstore`,
    /// exactly once and only if the configuration is sound.
    pub fn new<S: BlockStore>(cfg: PoolConfig, backing: Backing, blockstore: &S) -> (r: Result<
        Self,
        Error,
    >)
        ensures
            match bad_config(cfg, backing) {
                Some(reason) => r == Err::<Pool, Error>(Error::BadConfig(reason)),
                None => exists|outcome: Result<(), Error>|
                    {
                        &&& #[trigger] call_ensures(
                            S::register_pages,
                            (blockstore, backing.base, backing.page_size, backing.page_count),
                            outcome,
                        )
                        &&& made(cfg, backing, outcome, r)
                    },
            },
            (exists|k: nat| backing.page_size == #[trigger] power2::pow2(k)) && 1
                <= backing.page_count <= 0xffff_ffff && backing.base != 0 && cfg.pages_per_chunk
                != 0 ==> exists|outcome: Result<(), Error>|
                {
                    &&& #[trigger] call_ensures(
                        S::register_pages,
                        (blockstore, backing.base, backing.page_size, backing.page_count),
                        outcome,
                    )
                    &&& r is Ok <==> outcome is Ok
                },
            r matches Ok(pool) ==> {
                &&& exists|k: nat| backing.page_size == #[trigger] power2::pow2(k)
                &&& 1 <= backing.page_count <= 0xffff_ffff
                &&& backing.base != 0
                &&& cfg.pages_per_chunk != 0
                &&& pool@.cfg == cfg
                &&& pool@.backing == backing
                &&& forall|p: u32| #[trigger] pool@.free.contains(p) <==> p < backing.page_count
            },
    {
        proof {
            law_pool_is_made_for_sound_configurations(cfg, backing);
        }
        if !power::is_power_of_two(backing.page_size) {
            return Err(Error::BadConfig("page_size must be a power of two"));
        }
        if backing.page_count == 0 {
            return Err(Error::BadConfig("page_count must be > 0"));
        }
        if backing.page_count as u64 > u32::MAX as u64 {
            return Err(Error::BadConfig("page_count exceeds u32 (see design)"));
        }
        if backing.base == 0 {
            return Err(Error::BadConfig("backing.base is null"));
        }
        if cfg.pages_per_chunk == 0 {
            return Err(Error::BadConfig("pages_per_chunk must be non-zero"));
        }
        let outcome = blockstore.register_pages(
            backing.base,
            backing.page_size,
            backing.page_count,
        );
        Pool::registered(cfg, backing, outcome)
    }

    /// The pool over a backing whose registration came out as `outcome`.
    pub fn registered(cfg: PoolConfig, backing: Backing, outcome: Result<(), Error>) -> (r: Result<
        Self,
        Error,
    >)
        requires
            bad_config(cfg, backing) is None,
        ensures
            made(cfg, backing, outcome, r),
            r is Ok <==> outcome is Ok,
            outcome matches Err(e) ==> r == Err::<Pool, Error>(e),
            r matches Ok(pool) ==> {
                &&& pool@.cfg == cfg
                &&& pool@.backing == backing
                &&& forall|p: u32| #[trigger] pool@.free.contains(p) <==> p < backing.page_count
                &&& pool@.slots == Map::<SlotId, SlotView>::empty()
                &&& pool@.streams.len() == 0
                &&& pool@.parked.len() == 0
                &&& pool@.wakes.len() == 0
            },
    {
        if let Err(e) = outcome {
            return Err(e);
        }
        let pool = Pool {
            cfg,
            backing,
            free: FreeList::new(backing.page_count as u32),
            inflight: Table::new(),
            stream_count: 0,
            streams: Ghost(Multiset::empty()),
            wakes: Vec::new(),
        };
        proof {
            broadcast use vstd::multiset::group_multiset_axioms;

            assert(pool@.free =~= PoolView::fresh(cfg, backing).free);
            assert(pool@.slots =~= Map::<SlotId, SlotView>::empty());
            assert(pool@ == PoolView::fresh(cfg, backing));
        }
        Ok(pool)
    }

    /// Tunables of the pool.
    pub fn config(&self) -> (r: PoolConfig)
        ensures
            r == self@.cfg,
    {
        self.cfg
    }

    /// The backing that the pages lie in.
    pub fn backing(&self) -> (r: Backing)
        ensures
            r == self@.backing,
    {
        self.backing
    }

    /// Number of pages that nobody uses.
    pub fn free_pages(&self) -> (r: usize)
        requires
            self.wf(),
        ensures
            self@.free.finite(),
            r == self@.free.len(),
    {
        self.free.available()
    }

    /// Number of stripes that have a stream or a page.
    pub fn inflight_entries(&self) -> (r: usize)
        requires
            self.wf(),
        ensures
            self@.stripes().finite(),
            r == self@.stripes().len(),
    {
        let r = self.inflight.len();
        proof {
            assert forall|k: StripeKey|
                self@.stripes().contains(k) <==> self.inflight@.dom().contains(k) by {
                if self@.in_flight(k) && self@.streams.count(k) == 0 {
                    let page_no = choose|page_no: u64| #[trigger]
                        self@.slots.contains_key((k, page_no));
                    assert(self@.slots.contains_key((k, page_no)));
                }
                if self.inflight@.contains_key(k) && self@.streams.count(k) == 0 {
                    let pages = self.inflight@[k].pages@;
                    if forall|page_no: u64| !#[trigger] pages.contains_key(page_no) {
                        assert(pages =~= Map::<u64, PageSlot>::empty());
                    }
                    let page_no = choose|page_no: u64| #[trigger] pages.contains_key(page_no);
                    assert(self@.slots.contains_key((k, page_no)));
                }
            }
            assert(self@.stripes() =~= self.inflight@.dom());
        }
        r
    }

    /// Number of readers that pin the slot of a page.
    pub fn consumer_holds(&self, key: StripeKey, page_no: u64) -> (r: usize)
        requires
            self.wf(),
        ensures
            r == self@.slot((key, page_no)).holds,
    {
        match self.slot_at(key, page_no) {
            Some(slot) => slot.consumer_holds,
            None => 0,
        }
    }

    /// Whether another stream can be opened.
    pub fn has_room(&self) -> (r: bool)
        requires
            self.wf(),
        ensures
            r == (self@.streams.len() < self@.cfg.max_concurrent_streams),
    {
        self.stream_count < self.cfg.max_concurrent_streams
    }

    /// Takes out the wakers that are due.
    pub fn take_wakes(&mut self) -> (r: Vec<u64>)
        requires
            old(self).wf(),
        ensures
            final(self).wf(),
            r@ == old(self)@.wakes,
            final(self)@ == (PoolView { wakes: Seq::empty(), ..old(self)@ }),
    {
        let mut out: Vec<u64> = Vec::new();
        out.append(&mut self.wakes);
        proof {
            assert(out@ =~= old(self)@.wakes);
            lemma_wakes_keep_shape(old(self)@, Seq::empty());
        }
        out
    }

    /// Opens a stream over the `len` bytes from `offset` on of the stripe
    /// `key`, unless the limit on streams is reached.
    pub fn open(&mut self, key: StripeKey, offset: u64, len: u64) -> (r: Result<ReadStream, Error>)
        requires
            old(self).wf(),
        ensures
            final(self).wf(),
            if old(self)@.streams.len() >= old(self)@.cfg.max_concurrent_streams {
                &&& r == Err::<ReadStream, Error>(Error::StreamLimit)
                &&& final(self)@ == old(self)@
            } else {
                &&& r is Ok
                &&& r->Ok_0@ == stream_over(key, offset, len, old(self)@.backing.page_size)
                &&& r->Ok_0@.key == key
                &&& r->Ok_0@.pos == offset
                &&& offset + len <= u64::MAX ==> r->Ok_0@.end == offset + len
                &&& offset + len > u64::MAX ==> r->Ok_0@.end == u64::MAX
                &&& r->Ok_0@.page_size == old(self)@.backing.page_size
                &&& r->Ok_0@.page_size > 0
                &&& final(self)@ == old(self)@.opened(key)
            },
    {
        proof {
            power::lemma_power_is_positive(self.backing.page_size as nat);
        }
        if !self.has_room() {
            return Err(Error::StreamLimit);
        }
        self.stream_count = self.stream_count + 1;
        if !self.inflight.contains(&key) {
            self.inflight.insert(key, StripeFetch::new());
        }
        proof {
            broadcast use vstd::multiset::group_multiset_axioms;

            assert(self.inflight@[key].stream_refcount == old(self).streams@.count(key));
            assert(old(self).streams@.count(key) <= old(self).streams@.len());
        }
        let ghost mid = self.inflight@;
        let fetch = self.inflight.get_mut(&key);
        fetch.stream_refcount = fetch.stream_refcount + 1;
        self.streams = Ghost(self.streams@.insert(key));
        proof {
            broadcast use vstd::multiset::group_multiset_axioms;

            assert(counts(self.inflight@, self.streams@));
            assert(slots_of(self.inflight@) =~= slots_of(old(self).inflight@));
            lemma_opened_keeps_shape(old(self)@, key);
        }
        Ok(ReadStream::new(key, offset, offset.saturating_add(len), self.backing.page_size))
    }

    /// Closes a stream. A stripe without pages goes with its last stream.
    /// There is no page to sweep up here: one whose fetch is over goes with
    /// its last holder, and one whose leader gave up stays for the next.
    pub fn close(&mut self, stream: ReadStream)
        requires
            old(self).wf(),
            old(self)@.streams.count(stream@.key) >= 1,
        ensures
            final(self).wf(),
            final(self)@ == old(self)@.closed(stream@.key),
    {
        let key = stream.key();
        proof {
            broadcast use vstd::multiset::group_multiset_axioms;

            assert(old(self).streams@.count(key) <= old(self).streams@.len());
        }
        self.stream_count = self.stream_count.saturating_sub(1);
        let fetch = self.inflight.get_mut(&key);
        fetch.stream_refcount = fetch.stream_refcount.saturating_sub(1);
        let gone: bool = fetch.stream_refcount == 0 && fetch.pages.is_empty();
        let ghost mid = self.inflight@;
        if gone {
            let _ = self.inflight.remove(&key);
        }
        self.streams = Ghost(self.streams@.remove(key));
        proof {
            broadcast use vstd::multiset::group_multiset_axioms;

            assert(slots_of(mid) =~= slots_of(old(self).inflight@));
            if gone {
                assert(mid[key].pages@ == Map::<u64, PageSlot>::empty());
                assert(slots_of(self.inflight@) =~= slots_of(mid));
            }
            assert(counts(self.inflight@, self.streams@));
            lemma_closed_keeps_shape(old(self)@, key);
        }
    }

    /// Gives a guard on a page back.
    pub(crate) fn release_guard(&mut self, key: StripeKey, page_no: u64)
        requires
            old(self).wf(),
        ensures
            final(self).wf(),
            final(self)@ == old(self)@.released((key, page_no)),
    {
        if self.slot_at(key, page_no).is_some() {
            self.drop_hold(key, page_no);
        }
    }

    /// How far the fetch of a page has come.
    pub(crate) fn progress(&self, key: StripeKey, page_no: u64) -> (r: Progress)
        requires
            self.wf(),
        ensures
            match self@.slot((key, page_no)).phase {
                PhaseView::Idle => r is Idle,
                PhaseView::Loading(_) => r is Loading,
                PhaseView::Ready => r matches Progress::Ready(p) && self@.owns((key, page_no), p),
                PhaseView::Failed(e) => r == Progress::Failed(e),
            },
    {
        match self.slot_at(key, page_no) {
            None => Progress::Idle,
            Some(slot) => match &slot.state {
                SlotState::Idle => Progress::Idle,
                SlotState::Loading(_) => Progress::Loading,
                SlotState::Error(e) => Progress::Failed(e.clone()),
                SlotState::Ready => match slot.page_idx {
                    Some(p) => Progress::Ready(p),
                    None => {
                        assert(false);
                        Progress::Idle
                    },
                },
            },
        }
    }

    /// Pins a slot.
    pub(crate) fn hold(&mut self, key: StripeKey, page_no: u64)
        requires
            old(self).wf(),
            old(self)@.slots.contains_key((key, page_no)),
            old(self)@.slots[(key, page_no)].holds < usize::MAX,
        ensures
            final(self).wf(),
            final(self)@ == old(self)@.held((key, page_no)),
    {
        let slot = slot_mut(&mut self.inflight, key, page_no);
        slot.hold();
        proof {
            let id = (key, page_no);
            let after = self.inflight@[key].pages@[page_no];
            lemma_slot_set(old(self).inflight@, self.inflight@, id, after, self.streams@);
            lemma_held_keeps_shape(old(self)@, id);
        }
    }

    /// Pins a slot that is being fetched and leaves a waker on it.
    pub(crate) fn join(&mut self, key: StripeKey, page_no: u64, waker: u64)
        requires
            old(self).wf(),
            old(self)@.slots.contains_key((key, page_no)),
            old(self)@.slots[(key, page_no)].phase is Loading,
            old(self)@.slots[(key, page_no)].holds < usize::MAX,
        ensures
            final(self).wf(),
            final(self)@ == old(self)@.joined((key, page_no), waker),
    {
        let slot = slot_mut(&mut self.inflight, key, page_no);
        if let SlotState::Loading(waiters) = &mut slot.state {
            waiters.push(waker);
        }
        slot.hold();
        proof {
            let id = (key, page_no);
            let after = self.inflight@[key].pages@[page_no];
            lemma_slot_set(old(self).inflight@, self.inflight@, id, after, self.streams@);
            lemma_joined_keeps_shape(old(self)@, id, waker);
        }
    }

    /// Leaves a waker on a slot that is being fetched, unless it is there.
    pub(crate) fn relist(&mut self, key: StripeKey, page_no: u64, waker: u64)
        requires
            old(self).wf(),
            old(self)@.slots.contains_key((key, page_no)),
            old(self)@.slots[(key, page_no)].phase is Loading,
        ensures
            final(self).wf(),
            final(self)@ == old(self)@.relisted((key, page_no), waker),
    {
        let slot = slot_mut(&mut self.inflight, key, page_no);
        if let SlotState::Loading(waiters) = &mut slot.state {
            if !wakers::holds_waker(waiters, waker) {
                waiters.push(waker);
            }
        }
        proof {
            let id = (key, page_no);
            let after = self.inflight@[key].pages@[page_no];
            lemma_slot_set(old(self).inflight@, self.inflight@, id, after, self.streams@);
            assert(self@.slots =~= old(self)@.relisted(id, waker).slots);
            lemma_relisted_keeps_shape(old(self)@, id, waker);
        }
    }

    /// Takes the lead on an idle slot, making it where there is none.
    pub(crate) fn lead(&mut self, key: StripeKey, page_no: u64)
        requires
            old(self).wf(),
            old(self)@.slot((key, page_no)).phase is Idle,
            old(self)@.slot((key, page_no)).holds < usize::MAX,
        ensures
            final(self).wf(),
            final(self)@ == old(self)@.led((key, page_no)),
    {
        let ghost id = (key, page_no);
        let leading = SlotState::Loading(Vec::new());
        if self.slot_at(key, page_no).is_some() {
            let slot = slot_mut(&mut self.inflight, key, page_no);
            slot.state = leading;
            slot.hold();
            proof {
                let after = self.inflight@[key].pages@[page_no];
                lemma_slot_set(old(self).inflight@, self.inflight@, id, after, self.streams@);
            }
        } else {
            let mut slot = PageSlot::new();
            slot.state = leading;
            slot.hold();
            if !self.inflight.contains(&key) {
                self.inflight.insert(key, StripeFetch::new());
            }
            let ghost made = slot;
            let fetch = self.inflight.get_mut(&key);
            fetch.pages.insert(page_no, slot);
            proof {
                assert(slots_of(self.inflight@) =~= slots_of(old(self).inflight@).insert(
                    id,
                    made.model(),
                ));
                assert(self.inflight@[key].pages@.contains_key(page_no));
                assert(counts(self.inflight@, self.streams@));
            }
        }
        proof {
            lemma_led_keeps_shape(old(self)@, id);
        }
    }

    /// The page of a led slot, taken from the free list where it has none
    /// yet and one is free.
    pub(crate) fn page_for(&mut self, key: StripeKey, page_no: u64) -> (r: Option<u32>)
        requires
            old(self).wf(),
            old(self)@.leads((key, page_no)),
        ensures
            final(self).wf(),
            match (old(self)@.slots[(key, page_no)].page, r) {
                (Some(p), _) => r == Some(p) && final(self)@ == old(self)@,
                (None, Some(p)) => {
                    &&& old(self)@.free.contains(p)
                    &&& final(self)@ == old(self)@.given((key, page_no), p)
                },
                (None, None) => {
                    &&& old(self)@.free == Set::<u32>::empty()
                    &&& final(self)@ == old(self)@
                },
            },
    {
        let had: Option<u32> = match self.slot_at(key, page_no) {
            Some(slot) => slot.page_idx,
            None => None,
        };
        if had.is_some() {
            return had;
        }
        match self.free.take() {
            None => None,
            Some(p) => {
                let slot = slot_mut(&mut self.inflight, key, page_no);
                slot.page_idx = Some(p);
                proof {
                    let id = (key, page_no);
                    let after = self.inflight@[key].pages@[page_no];
                    lemma_slot_set(old(self).inflight@, self.inflight@, id, after, self.streams@);
                    lemma_given_keeps_shape(old(self)@, id, p);
                }
                Some(p)
            },
        }
    }

    /// Leaves the waker of a leader that found no page.
    pub(crate) fn queue(&mut self, waker: u64)
        requires
            old(self).wf(),
        ensures
            final(self).wf(),
            final(self)@ == old(self)@.queued(waker),
    {
        self.free.wait(waker);
        proof {
            lemma_queued_keeps_shape(old(self)@, waker);
        }
    }

    /// The bytes of a led slot have arrived; `tee` tells whether they are
    /// to be written to the block store.
    pub(crate) fn land(&mut self, key: StripeKey, page_no: u64, tee: bool)
        requires
            old(self).wf(),
            old(self)@.leads((key, page_no)),
            old(self)@.slots[(key, page_no)].page is Some,
        ensures
            final(self).wf(),
            final(self)@ == old(self)@.landed((key, page_no), tee),
    {
        let ghost id = (key, page_no);
        let slot = slot_mut(&mut self.inflight, key, page_no);
        slot.tee_pending = tee;
        proof {
            let after = self.inflight@[key].pages@[page_no];
            lemma_slot_set(old(self).inflight@, self.inflight@, id, after, self.streams@);
        }
        self.settle(key, page_no, SlotState::Ready);
        proof {
            lemma_landed_keeps_shape(old(self)@, id, tee);
        }
    }

    /// The fetch of a led slot failed; its leader lets go.
    pub(crate) fn fail(&mut self, key: StripeKey, page_no: u64, e: Error)
        requires
            old(self).wf(),
            old(self)@.leads((key, page_no)),
        ensures
            final(self).wf(),
            final(self)@ == old(self)@.failed((key, page_no), e),
    {
        self.settle(key, page_no, SlotState::Error(e));
        proof {
            lemma_settled_keeps_shape(old(self)@, (key, page_no), PhaseView::Failed(e));
        }
        self.drop_hold(key, page_no);
    }

    /// The leader of a slot leaves without an outcome.
    pub(crate) fn abandon(&mut self, key: StripeKey, page_no: u64)
        requires
            old(self).wf(),
            old(self)@.leads((key, page_no)),
        ensures
            final(self).wf(),
            final(self)@ == old(self)@.abandoned((key, page_no)),
    {
        self.settle(key, page_no, SlotState::Idle);
        proof {
            lemma_settled_keeps_shape(old(self)@, (key, page_no), PhaseView::Idle);
        }
        self.drop_hold(key, page_no);
    }

    /// The write of a page to the block store is over.
    pub(crate) fn end_tee(&mut self, key: StripeKey, page_no: u64)
        requires
            old(self).wf(),
            old(self)@.pinned((key, page_no)),
        ensures
            final(self).wf(),
            final(self)@ == old(self)@.teed((key, page_no)),
    {
        let slot = slot_mut(&mut self.inflight, key, page_no);
        slot.tee_pending = false;
        proof {
            let id = (key, page_no);
            let after = self.inflight@[key].pages@[page_no];
            lemma_slot_set(old(self).inflight@, self.inflight@, id, after, self.streams@);
            lemma_teed_keeps_shape(old(self)@, id);
        }
    }

    /// The slot of a page, where it has one.
    fn slot_at(&self, key: StripeKey, page_no: u64) -> (r: Option<&PageSlot>)
        requires
            self.shape(),
        ensures
            match r {
                Some(slot) => {
                    &&& self@.slots.contains_key((key, page_no))
                    &&& slot.model() == self@.slots[(key, page_no)]
                },
                None => !self@.slots.contains_key((key, page_no)),
            },
    {
        match self.inflight.get(&key) {
            Some(fetch) => {
                fetch.pages.get(&page_no)
            },
            None => None,
        }
    }

    /// Moves a slot on; whoever waited for it is due to be woken.
    fn settle(&mut self, key: StripeKey, page_no: u64, state: SlotState)
        requires
            old(self).shape(),
            old(self)@.slots.contains_key((key, page_no)),
        ensures
            final(self).shape(),
            final(self)@ == old(self)@.settled((key, page_no), state.model()),
    {
        let slot = slot_mut(&mut self.inflight, key, page_no);
        let mut woken = slot.settle(state);
        self.wakes.append(&mut woken);
        proof {
            let id = (key, page_no);
            let after = self.inflight@[key].pages@[page_no];
            lemma_slot_set(old(self).inflight@, self.inflight@, id, after, self.streams@);
        }
    }

    /// Drops a slot whose fetch is over and that nobody pins. Its page goes
    /// back to the free list, and the stripe goes once it has neither pages
    /// nor streams.
    fn recycle_if_terminal(&mut self, key: StripeKey, page_no: u64)
        requires
            old(self).shape(),
            old(self)@.slot((key, page_no)).page matches Some(p) ==> !old(self)@.free.contains(p),
        ensures
            final(self).shape(),
            final(self)@ == old(self)@.recycled((key, page_no)),
    {
        let over: bool = match self.slot_at(key, page_no) {
            Some(slot) => slot.is_recyclable() && slot.is_terminal(),
            None => false,
        };
        if !over {
            return;
        }
        let fetch = self.inflight.get_mut(&key);
        let slot = fetch.pages.remove(&page_no);
        let gone: bool = fetch.stream_refcount == 0 && fetch.pages.is_empty();
        let ghost mid = self.inflight@;
        if gone {
            let _ = self.inflight.remove(&key);
        }
        proof {
            let before = old(self).inflight@;
            let after = self.inflight@;
            assert(slots_of(mid) =~= slots_of(before).remove((key, page_no)));
            if gone {
                assert(mid[key].pages@ == Map::<u64, PageSlot>::empty());
                assert(slots_of(after) =~= slots_of(mid));
            }
            assert forall|k: StripeKey| #[trigger] after.contains_key(k) implies {
                &&& after[k].pages.wf()
                &&& after[k].stream_refcount == self.streams@.count(k)
                &&& after[k].stream_refcount > 0 || after[k].pages@ != Map::<
                    u64,
                    PageSlot,
                >::empty()
            } by {
                assert(before.contains_key(k));
            }
            assert(counts(after, self.streams@));
        }
        if let Some(page) = slot.page_idx {
            let mut woken = self.free.release(page);
            self.wakes.append(&mut woken);
        }
    }

    /// Lets go of a slot once.
    pub(crate) fn drop_hold(&mut self, key: StripeKey, page_no: u64)
        requires
            old(self).wf(),
            old(self)@.slots.contains_key((key, page_no)),
        ensures
            final(self).wf(),
            final(self)@ == old(self)@.let_go((key, page_no)),
    {
        let ghost id = (key, page_no);
        let slot = slot_mut(&mut self.inflight, key, page_no);
        slot.consumer_holds = slot.consumer_holds.saturating_sub(1);
        proof {
            let after = self.inflight@[key].pages@[page_no];
            lemma_slot_set(old(self).inflight@, self.inflight@, id, after, self.streams@);
        }
        self.recycle_if_terminal(key, page_no);
        proof {
            lemma_let_go_keeps_shape(old(self)@, id);
        }
    }
}

/// A pool has the shape that its operations keep, and counts the readers of
/// each slot in a machine word.
pub proof fn law_pool_keeps_its_shape(pool: Pool)
    requires
        pool.wf(),
    ensures
        pool@.wf(),
        forall|id: SlotId| #[trigger] pool@.slot(id).holds <= usize::MAX,
{
}

impl<R: Req> BufferPool<R> for Pool {
    open spec fn ready(&self) -> bool {
        self.wf()
    }

    /// Opens a stream over the `len` bytes from `offset` on of the stripe
    /// that `req` is about, unless the limit on streams is reached.
    fn read(&mut self, req: &R, offset: u64, len: u64) -> (r: Result<ReadStream, Error>)
        ensures
            if old(self)@.streams.len() >= old(self)@.cfg.max_concurrent_streams {
                &&& r == Err::<ReadStream, Error>(Error::StreamLimit)
                &&& final(self)@ == old(self)@
            } else {
                exists|key: StripeKey|
                    {
                        &&& #[trigger] call_ensures(R::key, (req,), key)
                        &&& r is Ok
                        &&& r->Ok_0@ == stream_over(key, offset, len, old(self)@.backing.page_size)
                        &&& r->Ok_0@.page_size > 0
                        &&& final(self)@ == old(self)@.opened(key)
                    }
            },
    {
        if !self.has_room() {
            return Err(Error::StreamLimit);
        }
        let key = req.key();
        self.open(key, offset, len)
    }
}

/// Which wakers are due has no part in the shape of the pool.
pub(crate) proof fn lemma_wakes_keep_shape(v: PoolView, wakes: Seq<u64>)
    requires
        v.wf(),
    ensures
        (PoolView { wakes, ..v }).wf(),
{
    let w = PoolView { wakes, ..v };
    assert forall|p: u32| p < w.backing.page_count && !w.free.contains(p) implies exists|a: SlotId|
     #[trigger]
        w.owns(a, p) by {
        let a = choose|a: SlotId| #[trigger] v.owns(a, p);
        assert(w.owns(a, p));
    }
}

/// Changing a slot keeps the shape of the pool where the slot keeps its page,
/// has one if its bytes arrived, and is pinned if its fetch is over.
proof fn lemma_slot_change(v: PoolView, w: PoolView, id: SlotId, slot: SlotView)
    requires
        v.wf(),
        w.cfg == v.cfg,
        w.backing == v.backing,
        w.free == v.free,
        w.streams == v.streams,
        w.slots == v.slots.insert(id, slot),
        slot.page == v.slot(id).page,
        slot.phase is Ready ==> slot.page is Some,
        slot.terminal() ==> !slot.recyclable(),
    ensures
        w.wf(),
{
    assert forall|a: SlotId| #[trigger] w.slots.contains_key(a) implies {
        &&& w.slots[a].page matches Some(p) ==> p < w.backing.page_count && !w.free.contains(p)
        &&& w.slots[a].phase is Ready ==> w.slots[a].page is Some
        &&& w.slots[a].terminal() ==> !w.slots[a].recyclable()
    } by {
        if a != id {
            assert(v.slots.contains_key(a));
        } else if v.slots.contains_key(id) {
            assert(v.slots[id].page == slot.page);
        }
    }
    assert forall|a: SlotId, b: SlotId|
        #![trigger w.slots[a], w.slots[b]]
        w.slots.contains_key(a) && w.slots.contains_key(b) && w.slots[a].page is Some
            && w.slots[a].page == w.slots[b].page implies a == b by {
        assert(v.slot(a).page == w.slots[a].page);
        assert(v.slot(b).page == w.slots[b].page);
        assert(v.slots.contains_key(a) && v.slots.contains_key(b));
        assert(v.slots[a].page == v.slots[b].page);
    }
    assert forall|p: u32| p < w.backing.page_count && !w.free.contains(p) implies exists|a: SlotId|
     #[trigger]
        w.owns(a, p) by {
        let a = choose|a: SlotId| #[trigger] v.owns(a, p);
        assert(v.owns(a, p));
        assert(w.owns(a, p));
    }
}

/// Opening a stream keeps the shape of the pool, below the limit.
pub(crate) proof fn lemma_opened_keeps_shape(v: PoolView, key: StripeKey)
    requires
        v.wf(),
        v.streams.len() < v.cfg.max_concurrent_streams,
    ensures
        v.opened(key).wf(),
{
    broadcast use vstd::multiset::group_multiset_axioms;

    let w = v.opened(key);
    assert(forall|id: SlotId, p: u32| v.owns(id, p) == #[trigger] w.owns(id, p));
    assert forall|p: u32| p < w.backing.page_count && !w.free.contains(p) implies exists|a: SlotId|
     #[trigger]
        w.owns(a, p) by {
        let a = choose|a: SlotId| #[trigger] v.owns(a, p);
        assert(w.owns(a, p));
    }
}

/// Closing a stream keeps the shape of the pool.
pub(crate) proof fn lemma_closed_keeps_shape(v: PoolView, key: StripeKey)
    requires
        v.wf(),
        v.streams.count(key) >= 1,
    ensures
        v.closed(key).wf(),
{
    broadcast use vstd::multiset::group_multiset_axioms;

    let w = v.closed(key);
    assert forall|p: u32| p < w.backing.page_count && !w.free.contains(p) implies exists|a: SlotId|
     #[trigger]
        w.owns(a, p) by {
        let a = choose|a: SlotId| #[trigger] v.owns(a, p);
        assert(w.owns(a, p));
    }
}

/// Pinning a slot keeps the shape of the pool.
pub(crate) proof fn lemma_held_keeps_shape(v: PoolView, id: SlotId)
    requires
        v.wf(),
    ensures
        v.held(id).wf(),
{
    let slot = v.slot(id);
    lemma_slot_change(v, v.held(id), id, SlotView { holds: slot.holds + 1, ..slot });
}

/// Waiting for a leader keeps the shape of the pool.
pub(crate) proof fn lemma_joined_keeps_shape(v: PoolView, id: SlotId, waker: u64)
    requires
        v.wf(),
    ensures
        v.joined(id, waker).wf(),
{
    lemma_slot_change(v, v.joined(id, waker), id, v.joined(id, waker).slots[id]);
}

/// Listing a waker again keeps the shape of the pool.
pub(crate) proof fn lemma_relisted_keeps_shape(v: PoolView, id: SlotId, waker: u64)
    requires
        v.wf(),
        v.slots.contains_key(id),
        v.slots[id].phase is Loading,
    ensures
        v.relisted(id, waker).wf(),
{
    if !v.slots[id].waiters().contains(waker) {
        lemma_slot_change(v, v.relisted(id, waker), id, v.relisted(id, waker).slots[id]);
    }
}

/// Taking the lead keeps the shape of the pool.
pub(crate) proof fn lemma_led_keeps_shape(v: PoolView, id: SlotId)
    requires
        v.wf(),
    ensures
        v.led(id).wf(),
{
    lemma_slot_change(v, v.led(id), id, v.led(id).slots[id]);
}

/// Giving a free page to a leader that has none keeps the shape of the pool.
pub(crate) proof fn lemma_given_keeps_shape(v: PoolView, id: SlotId, p: u32)
    requires
        v.wf(),
        v.leads(id),
        v.slots[id].page is None,
        v.free.contains(p),
    ensures
        v.given(id, p).wf(),
{
    let w = v.given(id, p);
    assert forall|a: SlotId| #[trigger] w.slots.contains_key(a) implies {
        &&& w.slots[a].page matches Some(q) ==> q < w.backing.page_count && !w.free.contains(q)
        &&& w.slots[a].phase is Ready ==> w.slots[a].page is Some
        &&& w.slots[a].terminal() ==> !w.slots[a].recyclable()
    } by {
        assert(v.slots.contains_key(a));
    }
    assert forall|a: SlotId, b: SlotId|
        #![trigger w.slots[a], w.slots[b]]
        w.slots.contains_key(a) && w.slots.contains_key(b) && w.slots[a].page is Some
            && w.slots[a].page == w.slots[b].page implies a == b by {
        assert(v.slots.contains_key(a) && v.slots.contains_key(b));
        if a != id && b != id {
            assert(v.slots[a].page == v.slots[b].page);
        }
    }
    assert forall|q: u32| q < w.backing.page_count && !w.free.contains(q) implies exists|a: SlotId|
     #[trigger]
        w.owns(a, q) by {
        if q == p {
            assert(w.owns(id, q));
        } else {
            let a = choose|a: SlotId| #[trigger] v.owns(a, q);
            assert(v.owns(a, q));
            assert(w.owns(a, q));
        }
    }
}

/// Waiting for a page keeps the shape of the pool.
pub(crate) proof fn lemma_queued_keeps_shape(v: PoolView, waker: u64)
    requires
        v.wf(),
    ensures
        v.queued(waker).wf(),
{
    let w = v.queued(waker);
    assert forall|p: u32| p < w.backing.page_count && !w.free.contains(p) implies exists|a: SlotId|
     #[trigger]
        w.owns(a, p) by {
        let a = choose|a: SlotId| #[trigger] v.owns(a, p);
        assert(w.owns(a, p));
    }
}

/// Letting go of a slot keeps the shape of the pool.
pub(crate) proof fn lemma_let_go_keeps_shape(v: PoolView, id: SlotId)
    requires
        v.wf(),
        v.slots.contains_key(id),
    ensures
        v.let_go(id).wf(),
{
    let slot = v.slots[id];
    let holds = if slot.holds == 0 {
        0
    } else {
        (slot.holds - 1) as nat
    };
    let less = SlotView { holds, ..slot };
    let mid = v.with_slot(id, less);
    let w = v.let_go(id);
    assert(mid.slots[id] == less);
    if less.terminal() && less.recyclable() {
        assert(w.slots =~= v.slots.remove(id));
        assert forall|a: SlotId| #[trigger] w.slots.contains_key(a) implies {
            &&& w.slots[a].page matches Some(q) ==> q < w.backing.page_count && !w.free.contains(q)
            &&& w.slots[a].phase is Ready ==> w.slots[a].page is Some
            &&& w.slots[a].terminal() ==> !w.slots[a].recyclable()
        } by {
            assert(v.slots.contains_key(a));
            assert(w.slots[a] == v.slots[a]);
            if v.slots[a].page is Some && v.slots[a].page == v.slots[id].page {
                assert(a == id);
            }
        }
        assert forall|a: SlotId, b: SlotId|
            #![trigger w.slots[a], w.slots[b]]
            w.slots.contains_key(a) && w.slots.contains_key(b) && w.slots[a].page is Some
                && w.slots[a].page == w.slots[b].page implies a == b by {
            assert(v.slots[a].page == v.slots[b].page);
        }
        assert forall|q: u32|
            q < w.backing.page_count && !w.free.contains(q) implies exists|a: SlotId| #[trigger]
            w.owns(a, q) by {
            assert(!v.free.contains(q));
            let a = choose|a: SlotId| #[trigger] v.owns(a, q);
            assert(v.owns(a, q));
            assert(a != id);
            assert(w.owns(a, q));
        }
    } else {
        lemma_slot_change(v, w, id, less);
    }
}

/// Giving a guard back keeps the shape of the pool.
pub(crate) proof fn lemma_released_keeps_shape(v: PoolView, id: SlotId)
    requires
        v.wf(),
    ensures
        v.released(id).wf(),
{
    if v.slots.contains_key(id) {
        lemma_let_go_keeps_shape(v, id);
    }
}

/// The arrival of a slot's bytes keeps the shape of the pool.
pub(crate) proof fn lemma_landed_keeps_shape(v: PoolView, id: SlotId, tee: bool)
    requires
        v.wf(),
        v.leads(id),
        v.slots[id].page is Some,
    ensures
        v.landed(id, tee).wf(),
{
    let slot = v.slots[id];
    let w = v.landed(id, tee);
    assert(w.slots =~= v.slots.insert(id, SlotView { tee, phase: PhaseView::Ready, ..slot }));
    lemma_slot_change(v, w, id, SlotView { tee, phase: PhaseView::Ready, ..slot });
}

/// Moving a led slot on to failure or back to idle keeps the shape of the
/// pool while the leader still pins it.
proof fn lemma_settled_keeps_shape(v: PoolView, id: SlotId, phase: PhaseView)
    requires
        v.wf(),
        v.leads(id),
        !(phase is Ready),
    ensures
        v.settled(id, phase).wf(),
        v.settled(id, phase).slots.contains_key(id),
{
    lemma_slot_change(v, v.settled(id, phase), id, SlotView { phase, ..v.slots[id] });
}

/// A failed fetch keeps the shape of the pool.
pub(crate) proof fn lemma_failed_keeps_shape(v: PoolView, id: SlotId, e: Error)
    requires
        v.wf(),
        v.leads(id),
    ensures
        v.failed(id, e).wf(),
{
    lemma_settled_keeps_shape(v, id, PhaseView::Failed(e));
    lemma_let_go_keeps_shape(v.settled(id, PhaseView::Failed(e)), id);
}

/// A leader that leaves keeps the shape of the pool.
pub(crate) proof fn lemma_abandoned_keeps_shape(v: PoolView, id: SlotId)
    requires
        v.wf(),
        v.leads(id),
    ensures
        v.abandoned(id).wf(),
{
    lemma_settled_keeps_shape(v, id, PhaseView::Idle);
    lemma_let_go_keeps_shape(v.settled(id, PhaseView::Idle), id);
}

/// The end of the write to the block store keeps the shape of the pool while
/// the leader still pins the slot.
pub(crate) proof fn lemma_teed_keeps_shape(v: PoolView, id: SlotId)
    requires
        v.wf(),
        v.pinned(id),
    ensures
        v.teed(id).wf(),
{
    lemma_slot_change(v, v.teed(id), id, SlotView { tee: false, ..v.slots[id] });
}

} // verus!
