//! What holds of a pool over any sequence of calls, for callers that hand
//! each ticket and each guard back once.

use crate::bufferpool::fetch;
use crate::bufferpool::fetch::FetchStep;
use crate::bufferpool::inflight::{PhaseView, SlotView};
use crate::bufferpool::pool;
use crate::bufferpool::pool::{PoolView, SlotId};
use crate::bufferpool::types::{Backing, Error, PoolConfig, StripeKey};
use vstd::multiset::Multiset;
use vstd::prelude::*;

verus! {

/// A pool together with the tickets and guards that are out, by page.
pub struct PoolUse {
    pub pool: PoolView,
    /// Leaders that wait for a page of the backing, a disk or a peer.
    pub leads: Multiset<SlotId>,
    /// Leaders that write to the block store.
    pub tees: Multiset<SlotId>,
    /// Readers that wait for a leader.
    pub parks: Multiset<SlotId>,
    /// Guards.
    pub guards: Multiset<SlotId>,
}

/// One thing that happens to a pool. `Pool::fetch_page` is `Share`, `Join`,
/// nothing (where the fetch failed) or `Lead`; whoever leads goes on with
/// `Give` or `Queue`, and with `Abandon` where the page has no offset.
pub enum PoolCall {
    /// `Pool::open` and `read` below the limit on streams.
    Open(StripeKey),
    /// `Pool::close`.
    Close(StripeKey),
    /// A reader finds the bytes of a page and gets a guard.
    Share(SlotId),
    /// A reader finds a leader at work and waits, with a waker.
    Join(SlotId, u64),
    /// `SlotWait::on_wake` finds a leader at work; the reader keeps waiting,
    /// with a waker.
    Relist(SlotId, u64),
    /// A reader finds a page idle and leads.
    Lead(SlotId),
    /// A leader gets a free page of the backing.
    Give(SlotId, u32),
    /// A leader finds no free page and waits, with a waker.
    Queue(u64),
    /// The bytes arrive: from disk (`DiskRead::on_read`), or from a peer
    /// (`PeerGet::on_replies`), which is followed by a write to the block
    /// store.
    Land(SlotId, bool),
    /// The fetch fails, in `DiskRead::on_read` or `PeerGet::on_replies`.
    Fail(SlotId, Error),
    /// The leader gives up: `cancel` of a ticket that it held before the
    /// bytes arrived.
    Abandon(SlotId),
    /// `TeeWrite::on_written`.
    EndTee(SlotId),
    /// `TeeWrite::cancel`.
    DropTee(SlotId),
    /// `SlotWait::on_wake` finds the bytes; the reader gets its guard.
    Take(SlotId),
    /// `SlotWait::cancel`; also `SlotWait::on_wake` where the fetch failed,
    /// and where the leader gave up, before this reader leads.
    Leave(SlotId),
    /// `PageGuard::release`.
    Release(SlotId),
    /// `Pool::take_wakes`.
    Wake,
}

impl PoolUse {
    /// A new pool that nobody uses yet.
    pub open spec fn start(cfg: PoolConfig, backing: Backing) -> PoolUse {
        PoolUse {
            pool: PoolView::fresh(cfg, backing),
            leads: Multiset::empty(),
            tees: Multiset::empty(),
            parks: Multiset::empty(),
            guards: Multiset::empty(),
        }
    }

    /// Whether the pool is in the state that the call is about and the
    /// caller holds what the call takes.
    pub open spec fn allows(self, call: PoolCall) -> bool {
        match call {
            PoolCall::Open(_) => self.pool.streams.len() < self.pool.cfg.max_concurrent_streams,
            PoolCall::Close(key) => self.pool.streams.count(key) >= 1,
            PoolCall::Share(id) => self.pool.slot(id).phase is Ready,
            PoolCall::Join(id, _) => self.pool.slot(id).phase is Loading,
            PoolCall::Relist(id, _) => {
                self.parks.count(id) >= 1 && self.pool.slots[id].phase is Loading
            },
            PoolCall::Lead(id) => self.pool.slot(id).phase is Idle,
            PoolCall::Give(id, p) => {
                &&& self.leads.count(id) >= 1
                &&& self.pool.slots[id].page is None
                &&& self.pool.free.contains(p)
            },
            PoolCall::Queue(_) => true,
            PoolCall::Land(id, _) => self.leads.count(id) >= 1 && self.pool.slots[id].page is Some,
            PoolCall::Fail(id, _) => self.leads.count(id) >= 1,
            PoolCall::Abandon(id) => self.leads.count(id) >= 1,
            PoolCall::EndTee(id) => self.tees.count(id) >= 1,
            PoolCall::DropTee(id) => self.tees.count(id) >= 1,
            PoolCall::Take(id) => self.parks.count(id) >= 1 && self.pool.slots[id].phase is Ready,
            PoolCall::Leave(id) => self.parks.count(id) >= 1,
            PoolCall::Release(id) => self.guards.count(id) >= 1,
            PoolCall::Wake => true,
        }
    }

    /// State after the call.
    pub open spec fn after(self, call: PoolCall) -> PoolUse {
        match call {
            PoolCall::Open(key) => PoolUse { pool: self.pool.opened(key), ..self },
            PoolCall::Close(key) => PoolUse { pool: self.pool.closed(key), ..self },
            PoolCall::Share(id) => PoolUse {
                pool: self.pool.held(id),
                guards: self.guards.insert(id),
                ..self
            },
            PoolCall::Join(id, waker) => PoolUse {
                pool: self.pool.joined(id, waker),
                parks: self.parks.insert(id),
                ..self
            },
            PoolCall::Relist(id, waker) => PoolUse {
                pool: self.pool.relisted(id, waker),
                ..self
            },
            PoolCall::Lead(id) => PoolUse {
                pool: self.pool.led(id),
                leads: self.leads.insert(id),
                ..self
            },
            PoolCall::Give(id, p) => PoolUse { pool: self.pool.given(id, p), ..self },
            PoolCall::Queue(waker) => PoolUse { pool: self.pool.queued(waker), ..self },
            PoolCall::Land(id, tee) => PoolUse {
                pool: self.pool.landed(id, tee),
                leads: self.leads.remove(id),
                tees: if tee {
                    self.tees.insert(id)
                } else {
                    self.tees
                },
                guards: if tee {
                    self.guards
                } else {
                    self.guards.insert(id)
                },
                ..self
            },
            PoolCall::Fail(id, e) => PoolUse {
                pool: self.pool.failed(id, e),
                leads: self.leads.remove(id),
                ..self
            },
            PoolCall::Abandon(id) => PoolUse {
                pool: self.pool.abandoned(id),
                leads: self.leads.remove(id),
                ..self
            },
            PoolCall::EndTee(id) => PoolUse {
                pool: self.pool.teed(id),
                tees: self.tees.remove(id),
                guards: self.guards.insert(id),
                ..self
            },
            PoolCall::DropTee(id) => PoolUse {
                pool: self.pool.teed(id).let_go(id),
                tees: self.tees.remove(id),
                ..self
            },
            PoolCall::Take(id) => PoolUse {
                parks: self.parks.remove(id),
                guards: self.guards.insert(id),
                ..self
            },
            PoolCall::Leave(id) => PoolUse {
                pool: self.pool.let_go(id),
                parks: self.parks.remove(id),
                ..self
            },
            PoolCall::Release(id) => PoolUse {
                pool: self.pool.released(id),
                guards: self.guards.remove(id),
                ..self
            },
            PoolCall::Wake => PoolUse {
                pool: PoolView { wakes: Seq::empty(), ..self.pool },
                ..self
            },
        }
    }

    /// Whether every call of a sequence is allowed where it stands.
    pub open spec fn allows_all(self, calls: Seq<PoolCall>) -> bool
        decreases calls.len(),
    {
        calls.len() == 0 || (self.allows_all(calls.drop_last()) && self.after_all(
            calls.drop_last(),
        ).allows(calls.last()))
    }

    /// State after a sequence of calls.
    pub open spec fn after_all(self, calls: Seq<PoolCall>) -> PoolUse
        decreases calls.len(),
    {
        if calls.len() == 0 {
            self
        } else {
            self.after_all(calls.drop_last()).after(calls.last())
        }
    }

    /// Tickets and guards that are out on a page.
    pub open spec fn holders(self, id: SlotId) -> nat {
        self.leads.count(id) + self.tees.count(id) + self.parks.count(id) + self.guards.count(id)
    }

    /// What holds of one page: it has a leader exactly while it is being
    /// fetched and a writer exactly while it is being written, both at most
    /// once; guards are out only on arrived bytes; and its slot, which is
    /// there while anybody holds it, counts the holders.
    pub open spec fn page_consistent(self, id: SlotId) -> bool {
        let slot = self.pool.slot(id);
        &&& self.leads.count(id) == if slot.phase is Loading {
            1nat
        } else {
            0nat
        }
        &&& self.tees.count(id) == if slot.tee {
            1nat
        } else {
            0nat
        }
        &&& slot.tee ==> slot.phase is Ready
        &&& self.guards.count(id) >= 1 ==> slot.phase is Ready
        &&& self.holders(id) == slot.holds
    }

    /// The pool is well formed and every page is consistent.
    pub open spec fn consistent(self) -> bool {
        &&& self.pool.wf()
        &&& forall|id: SlotId| #[trigger] self.page_consistent(id)
    }
}

/// A new pool is consistent.
pub proof fn law_new_pool_is_consistent(cfg: PoolConfig, backing: Backing)
    requires
        pool::bad_config(cfg, backing) is None,
    ensures
        PoolUse::start(cfg, backing).consistent(),
{
    broadcast use vstd::multiset::group_multiset_axioms;

    let s = PoolUse::start(cfg, backing);
    assert forall|p: u32| p < backing.page_count implies s.pool.free.contains(p) by {}
}

/// A call keeps the pool well formed.
proof fn lemma_call_keeps_shape(s: PoolUse, call: PoolCall)
    requires
        s.consistent(),
        s.allows(call),
    ensures
        s.after(call).pool.wf(),
{
    match call {
        PoolCall::Open(key) => pool::lemma_opened_keeps_shape(s.pool, key),
        PoolCall::Close(key) => pool::lemma_closed_keeps_shape(s.pool, key),
        PoolCall::Share(id) => pool::lemma_held_keeps_shape(s.pool, id),
        PoolCall::Join(id, waker) => pool::lemma_joined_keeps_shape(s.pool, id, waker),
        PoolCall::Relist(id, waker) => {
            assert(s.page_consistent(id));
            pool::lemma_relisted_keeps_shape(s.pool, id, waker);
        },
        PoolCall::Lead(id) => pool::lemma_led_keeps_shape(s.pool, id),
        PoolCall::Give(id, p) => {
            assert(s.page_consistent(id));
            pool::lemma_given_keeps_shape(s.pool, id, p);
        },
        PoolCall::Queue(waker) => pool::lemma_queued_keeps_shape(s.pool, waker),
        PoolCall::Land(id, tee) => {
            assert(s.page_consistent(id));
            pool::lemma_landed_keeps_shape(s.pool, id, tee);
        },
        PoolCall::Fail(id, e) => {
            assert(s.page_consistent(id));
            pool::lemma_failed_keeps_shape(s.pool, id, e);
        },
        PoolCall::Abandon(id) => {
            assert(s.page_consistent(id));
            pool::lemma_abandoned_keeps_shape(s.pool, id);
        },
        PoolCall::EndTee(id) => {
            assert(s.page_consistent(id));
            pool::lemma_teed_keeps_shape(s.pool, id);
        },
        PoolCall::DropTee(id) => {
            assert(s.page_consistent(id));
            pool::lemma_teed_keeps_shape(s.pool, id);
            pool::lemma_let_go_keeps_shape(s.pool.teed(id), id);
        },
        PoolCall::Take(id) => {},
        PoolCall::Leave(id) => {
            assert(s.page_consistent(id));
            pool::lemma_let_go_keeps_shape(s.pool, id);
        },
        PoolCall::Release(id) => pool::lemma_released_keeps_shape(s.pool, id),
        PoolCall::Wake => pool::lemma_wakes_keep_shape(s.pool, Seq::empty()),
    }
}

/// A call keeps every page consistent.
proof fn lemma_call_keeps_page(s: PoolUse, call: PoolCall, id: SlotId)
    requires
        s.consistent(),
        s.allows(call),
    ensures
        s.after(call).page_consistent(id),
{
    broadcast use vstd::multiset::group_multiset_axioms;

    assert(s.page_consistent(id));
    match call {
        PoolCall::Relist(other, _) => {
            assert(s.page_consistent(other));
        },
        PoolCall::Give(other, _) => {
            assert(s.page_consistent(other));
        },
        PoolCall::Land(other, _) => {
            assert(s.page_consistent(other));
        },
        PoolCall::Fail(other, _) => {
            assert(s.page_consistent(other));
        },
        PoolCall::Abandon(other) => {
            assert(s.page_consistent(other));
        },
        PoolCall::EndTee(other) => {
            assert(s.page_consistent(other));
        },
        PoolCall::DropTee(other) => {
            assert(s.page_consistent(other));
        },
        PoolCall::Take(other) => {
            assert(s.page_consistent(other));
        },
        PoolCall::Leave(other) => {
            assert(s.page_consistent(other));
        },
        PoolCall::Release(other) => {
            assert(s.page_consistent(other));
        },
        _ => {},
    }
}

/// Every call keeps the pool consistent.
pub proof fn law_calls_keep_pool_consistent(s: PoolUse, call: PoolCall)
    requires
        s.consistent(),
        s.allows(call),
    ensures
        s.after(call).consistent(),
{
    lemma_call_keeps_shape(s, call);
    assert forall|id: SlotId| #[trigger] s.after(call).page_consistent(id) by {
        lemma_call_keeps_page(s, call, id);
    }
}

/// A pool stays consistent over any sequence of calls.
pub proof fn law_pool_stays_consistent(s: PoolUse, calls: Seq<PoolCall>)
    requires
        s.consistent(),
        s.allows_all(calls),
    ensures
        s.after_all(calls).consistent(),
    decreases calls.len(),
{
    if calls.len() > 0 {
        law_pool_stays_consistent(s, calls.drop_last());
        law_calls_keep_pool_consistent(s.after_all(calls.drop_last()), calls.last());
    }
}

/// At any time a page has at most one leader and at most one writer, never
/// both, and it has the one exactly while it is being fetched: no two fetches
/// of a page overlap.
pub proof fn law_one_fetch_per_page(s: PoolUse, id: SlotId)
    requires
        s.consistent(),
    ensures
        s.leads.count(id) + s.tees.count(id) <= 1,
        s.leads.count(id) == 1 <==> s.pool.slots.contains_key(id)
            && s.pool.slots[id].phase is Loading,
{
    assert(s.page_consistent(id));
}

/// Whoever holds a ticket or a guard can hand it back: the page is in the
/// state that the ticket is about.
pub proof fn law_holders_can_call(s: PoolUse, id: SlotId)
    requires
        s.consistent(),
    ensures
        s.leads.count(id) >= 1 ==> s.pool.leads(id),
        s.tees.count(id) >= 1 ==> s.pool.pinned(id) && s.pool.slots[id].phase is Ready,
        s.parks.count(id) >= 1 ==> s.pool.pinned(id),
        s.guards.count(id) >= 1 ==> s.pool.pinned(id) && s.pool.slots[id].phase is Ready,
{
    assert(s.page_consistent(id));
}

/// Every page of the backing is free or in exactly one slot.
pub proof fn law_pages_are_conserved(s: PoolUse, p: u32)
    requires
        s.consistent(),
        p < s.pool.backing.page_count,
    ensures
        s.pool.free.contains(p) <==> !exists|id: SlotId| #[trigger] s.pool.owns(id, p),
        forall|a: SlotId, b: SlotId| #[trigger]
            s.pool.owns(a, p) && #[trigger] s.pool.owns(b, p) ==> a == b,
{
    assert forall|a: SlotId, b: SlotId| #[trigger]
        s.pool.owns(a, p) && #[trigger] s.pool.owns(b, p) implies a == b by {
        assert(s.pool.slots[a].page == s.pool.slots[b].page);
    }
}

/// A page whose bytes have arrived had them before a call, in the same page
/// of the backing, or they arrive with it.
pub(crate) proof fn lemma_ready_page_was_ready_or_lands(s: PoolUse, call: PoolCall, id: SlotId)
    requires
        s.consistent(),
        s.allows(call),
        s.after(call).pool.slot(id).phase is Ready,
    ensures
        s.pool.slot(id).phase is Ready || (call matches PoolCall::Land(landed, _) && landed == id),
        s.pool.slots.contains_key(id),
        s.after(call).pool.slots.contains_key(id),
        s.after(call).pool.slots[id].page == s.pool.slots[id].page,
{
    assert(s.page_consistent(id));
    match call {
        PoolCall::Relist(other, _) => {
            assert(s.page_consistent(other));
        },
        PoolCall::Give(other, _) => {
            assert(s.page_consistent(other));
        },
        PoolCall::Land(other, _) => {
            assert(s.page_consistent(other));
        },
        PoolCall::Fail(other, _) => {
            assert(s.page_consistent(other));
        },
        PoolCall::Abandon(other) => {
            assert(s.page_consistent(other));
        },
        PoolCall::EndTee(other) => {
            assert(s.page_consistent(other));
        },
        PoolCall::DropTee(other) => {
            assert(s.page_consistent(other));
        },
        PoolCall::Leave(other) => {
            assert(s.page_consistent(other));
        },
        PoolCall::Release(other) => {
            assert(s.page_consistent(other));
        },
        _ => {},
    }
}

/// A leader that has a page of the backing keeps that page until its fetch
/// ends, whatever else happens: the page that its tickets name is the page
/// of its slot.
pub proof fn law_leader_keeps_its_page(s: PoolUse, calls: Seq<PoolCall>, id: SlotId, p: u32)
    requires
        s.consistent(),
        s.allows_all(calls),
        s.pool.loads(id, p),
        forall|i: int| 0 <= i < calls.len() ==> !ends_fetch(#[trigger] calls[i], id),
    ensures
        s.after_all(calls).pool.loads(id, p),
    decreases calls.len(),
{
    broadcast use vstd::multiset::group_multiset_axioms;

    if calls.len() > 0 {
        let most = calls.drop_last();
        let last = calls.last();
        assert forall|i: int| 0 <= i < most.len() implies !ends_fetch(#[trigger] most[i], id) by {
            assert(most[i] == calls[i]);
        }
        law_leader_keeps_its_page(s, most, id, p);
        law_pool_stays_consistent(s, most);
        let u = s.after_all(most);
        assert(!ends_fetch(calls[calls.len() - 1], id));
        assert(u.page_consistent(id));
        lemma_call_keeps_page(u, last, id);
        match last {
            PoolCall::Relist(other, _) => {
                assert(u.page_consistent(other));
            },
            PoolCall::Give(other, _) => {
                assert(u.page_consistent(other));
            },
            PoolCall::EndTee(other) => {
                assert(u.page_consistent(other));
            },
            PoolCall::DropTee(other) => {
                assert(u.page_consistent(other));
            },
            PoolCall::Leave(other) => {
                assert(u.page_consistent(other));
            },
            PoolCall::Release(other) => {
                assert(u.page_consistent(other));
            },
            _ => {},
        }
    }
}

/// One call keeps the outcome of a page that somebody holds before and
/// after it.
proof fn lemma_call_keeps_outcome(s: PoolUse, call: PoolCall, id: SlotId)
    requires
        s.consistent(),
        s.allows(call),
        s.pool.slot(id).terminal(),
        s.holders(id) >= 1,
        s.after(call).holders(id) >= 1,
    ensures
        s.after(call).pool.slots.contains_key(id),
        s.after(call).pool.slots[id].phase == s.pool.slots[id].phase,
        s.after(call).pool.slots[id].page == s.pool.slots[id].page,
{
    broadcast use vstd::multiset::group_multiset_axioms;

    assert(s.page_consistent(id));
    lemma_call_keeps_page(s, call, id);
    match call {
        PoolCall::Relist(other, _) => {
            assert(s.page_consistent(other));
        },
        PoolCall::Give(other, _) => {
            assert(s.page_consistent(other));
        },
        PoolCall::Land(other, _) => {
            assert(s.page_consistent(other));
        },
        PoolCall::Fail(other, _) => {
            assert(s.page_consistent(other));
        },
        PoolCall::Abandon(other) => {
            assert(s.page_consistent(other));
        },
        PoolCall::DropTee(other) => {
            assert(s.page_consistent(other));
        },
        PoolCall::Leave(other) => {
            assert(s.page_consistent(other));
        },
        PoolCall::Release(other) => {
            assert(s.page_consistent(other));
        },
        _ => {},
    }
}

/// Once the fetch of a page is over, its outcome and its page of the backing
/// stay as they are while anybody holds it, whatever else happens: a guard
/// keeps seeing the bytes it was given, a reader that waited finds the bytes
/// or the failure that woke it, and a page being written to the block store
/// is not reused.
pub proof fn law_outcome_stays_while_held(s: PoolUse, calls: Seq<PoolCall>, id: SlotId)
    requires
        s.consistent(),
        s.allows_all(calls),
        s.pool.slot(id).terminal(),
        forall|n: int|
            0 <= n <= calls.len() ==> #[trigger] s.after_all(calls.take(n)).holders(id) >= 1,
    ensures
        s.after_all(calls).pool.slots.contains_key(id),
        s.after_all(calls).pool.slots[id].phase == s.pool.slots[id].phase,
        s.after_all(calls).pool.slots[id].page == s.pool.slots[id].page,
    decreases calls.len(),
{
    assert(s.page_consistent(id));
    assert(calls.take(0) =~= Seq::<PoolCall>::empty());
    assert(s.after_all(calls.take(0)).holders(id) >= 1);
    if calls.len() > 0 {
        let most = calls.drop_last();
        assert forall|n: int| 0 <= n <= most.len() implies #[trigger] s.after_all(
            most.take(n),
        ).holders(id) >= 1 by {
            assert(most.take(n) =~= calls.take(n));
        }
        law_outcome_stays_while_held(s, most, id);
        law_pool_stays_consistent(s, most);
        assert(most.take(most.len() as int) =~= most);
        assert(calls.take(calls.len() as int) =~= calls);
        assert(s.after_all(most.take(most.len() as int)).holders(id) >= 1);
        assert(s.after_all(calls.take(calls.len() as int)).holders(id) >= 1);
        lemma_call_keeps_outcome(s.after_all(most), calls.last(), id);
    }
}

/// A page that a guard was given for is in no other slot and is not free
/// until the guard is given back.
pub proof fn law_guarded_page_is_not_shared(s: PoolUse, id: SlotId, other: SlotId, p: u32)
    requires
        s.consistent(),
        s.guards.count(id) >= 1,
        s.pool.owns(id, p),
        other != id,
    ensures
        !s.pool.free.contains(p),
        !s.pool.owns(other, p),
{
    if s.pool.owns(other, p) {
        assert(s.pool.slots[id].page == s.pool.slots[other].page);
    }
}

/// Readers that wait while a page is written to the block store get their
/// guards without waiting for the write.
pub proof fn law_readers_do_not_wait_for_the_write(s: PoolUse, id: SlotId)
    requires
        s.consistent(),
        s.allows(PoolCall::Land(id, true)),
        s.parks.count(id) >= 1,
    ensures
        s.after(PoolCall::Land(id, true)).tees.count(id) == 1,
        s.after(PoolCall::Land(id, true)).allows(PoolCall::Take(id)),
{
    broadcast use vstd::multiset::group_multiset_axioms;

    assert(s.page_consistent(id));
}

/// When a leader gives up, every waker listed with the page is due, the page
/// is idle and keeps its page of the backing, and the next reader leads.
pub proof fn law_abandoned_page_gets_a_new_leader(s: PoolUse, id: SlotId, waker: u64)
    requires
        s.consistent(),
        s.allows(PoolCall::Abandon(id)),
    ensures
        s.after(PoolCall::Abandon(id)).allows(PoolCall::Lead(id)),
        s.after(PoolCall::Abandon(id)).pool.slot(id).page == s.pool.slots[id].page,
        s.pool.slots[id].waiters().contains(waker) ==> s.after(
            PoolCall::Abandon(id),
        ).pool.wakes.contains(waker),
{
    assert(s.page_consistent(id));
    let waiters = s.pool.slots[id].waiters();
    if waiters.contains(waker) {
        lemma_in_tail(s.pool.wakes, waiters, waker);
    }
}

proof fn lemma_in_tail(a: Seq<u64>, b: Seq<u64>, w: u64)
    requires
        b.contains(w),
    ensures
        (a + b).contains(w),
{
    let i = choose|i: int| 0 <= i < b.len() && b[i] == w;
    assert((a + b)[a.len() + i] == w);
}

proof fn lemma_in_head(a: Seq<u64>, b: Seq<u64>, w: u64)
    requires
        a.contains(w),
    ensures
        (a + b).contains(w),
{
    let i = choose|i: int| 0 <= i < a.len() && a[i] == w;
    assert((a + b)[i] == w);
}

/// Whether the call ends the fetch of a page, well or badly or not at all.
pub open spec fn ends_fetch(call: PoolCall, id: SlotId) -> bool {
    match call {
        PoolCall::Land(other, _) => other == id,
        PoolCall::Fail(other, _) => other == id,
        PoolCall::Abandon(other) => other == id,
        _ => false,
    }
}

/// A reader that joins a fetch, or looks at it again and finds a leader at
/// work, has its waker listed with the page.
pub proof fn law_waiting_reader_is_listed(s: PoolUse, call: PoolCall, id: SlotId, waker: u64)
    requires
        s.consistent(),
        s.allows(call),
        call == PoolCall::Join(id, waker) || call == PoolCall::Relist(id, waker),
    ensures
        s.after(call).pool.slots.contains_key(id),
        s.after(call).pool.slots[id].waiters().contains(waker),
{
    assert(s.page_consistent(id));
    let before = s.pool.slots[id].waiters();
    assert(before.push(waker).last() == waker);
}

/// A listed waker stays with its page until the fetch ends.
pub proof fn law_listed_reader_stays_listed(
    s: PoolUse,
    calls: Seq<PoolCall>,
    id: SlotId,
    waker: u64,
)
    requires
        s.consistent(),
        s.pool.slots.contains_key(id),
        s.pool.slots[id].waiters().contains(waker),
        s.allows_all(calls),
        forall|i: int| 0 <= i < calls.len() ==> !ends_fetch(#[trigger] calls[i], id),
    ensures
        s.after_all(calls).pool.slots.contains_key(id),
        s.after_all(calls).pool.slots[id].waiters().contains(waker),
    decreases calls.len(),
{
    broadcast use vstd::multiset::group_multiset_axioms;

    if calls.len() > 0 {
        let most = calls.drop_last();
        let last = calls.last();
        assert forall|i: int| 0 <= i < most.len() implies !ends_fetch(#[trigger] most[i], id) by {
            assert(most[i] == calls[i]);
        }
        law_listed_reader_stays_listed(s, most, id, waker);
        law_pool_stays_consistent(s, most);
        let u = s.after_all(most);
        let before = u.pool.slots[id].waiters();
        assert(u.page_consistent(id));
        assert(!ends_fetch(calls[calls.len() - 1], id));
        lemma_call_keeps_page(u, last, id);
        match last {
            PoolCall::Join(_, w) => {
                lemma_in_head(before, seq![w], waker);
                assert(before + seq![w] =~= before.push(w));
            },
            PoolCall::Relist(other, w) => {
                assert(u.page_consistent(other));
                lemma_in_head(before, seq![w], waker);
                assert(before + seq![w] =~= before.push(w));
            },
            PoolCall::Give(other, _) => {
                assert(u.page_consistent(other));
            },
            PoolCall::EndTee(other) => {
                assert(u.page_consistent(other));
            },
            PoolCall::DropTee(other) => {
                assert(u.page_consistent(other));
            },
            PoolCall::Take(other) => {
                assert(u.page_consistent(other));
            },
            PoolCall::Leave(other) => {
                assert(u.page_consistent(other));
            },
            PoolCall::Release(other) => {
                assert(u.page_consistent(other));
            },
            _ => {},
        }
    }
}

/// Whoever was told to wait for a leader, the first time or again, is due to
/// be woken when that leader's fetch ends, whatever happens in between.
pub proof fn law_waiting_reader_is_woken(
    s: PoolUse,
    wait: PoolCall,
    calls: Seq<PoolCall>,
    end: PoolCall,
    id: SlotId,
    waker: u64,
)
    requires
        s.consistent(),
        s.allows(wait),
        wait == PoolCall::Join(id, waker) || wait == PoolCall::Relist(id, waker),
        s.after(wait).allows_all(calls),
        forall|i: int| 0 <= i < calls.len() ==> !ends_fetch(#[trigger] calls[i], id),
        s.after(wait).after_all(calls).allows(end),
        ends_fetch(end, id),
    ensures
        s.after(wait).after_all(calls).after(end).pool.wakes.contains(waker),
{
    let t = s.after(wait);
    law_calls_keep_pool_consistent(s, wait);
    law_waiting_reader_is_listed(s, wait, id, waker);
    law_listed_reader_stays_listed(t, calls, id, waker);
    law_pool_stays_consistent(t, calls);
    law_end_of_fetch_wakes(t.after_all(calls), end, id, waker);
}

/// The end of a fetch makes every waker listed with the page due.
pub proof fn law_end_of_fetch_wakes(s: PoolUse, call: PoolCall, id: SlotId, waker: u64)
    requires
        s.consistent(),
        s.allows(call),
        ends_fetch(call, id),
        s.pool.slots[id].waiters().contains(waker),
    ensures
        s.after(call).pool.wakes.contains(waker),
{
    assert(s.page_consistent(id));
    let waiters = s.pool.slots[id].waiters();
    lemma_in_tail(s.pool.wakes, waiters, waker);
    let woken = s.pool.wakes + waiters;
    lemma_in_head(woken, s.pool.parked, waker);
    match call {
        PoolCall::Land(_, tee) => {
            assert(s.after(call).pool.wakes =~= woken);
        },
        PoolCall::Fail(_, e) => {
            assert(s.pool.settled(id, PhaseView::Failed(e)).wakes =~= woken);
        },
        PoolCall::Abandon(_) => {
            assert(s.pool.settled(id, PhaseView::Idle).wakes =~= woken);
        },
        _ => {},
    }
}

/// A call that sets a page of the backing free makes everybody that waits
/// for one due to be woken.
pub proof fn law_freed_page_wakes(s: PoolUse, call: PoolCall, p: u32, waker: u64)
    requires
        s.consistent(),
        s.allows(call),
        s.pool.parked.contains(waker),
        !s.pool.free.contains(p),
        s.after(call).pool.free.contains(p),
    ensures
        s.after(call).pool.wakes.contains(waker),
{
    let woken = s.pool.wakes;
    lemma_in_tail(woken, s.pool.parked, waker);
    match call {
        PoolCall::Fail(id, e) => {
            lemma_in_tail(woken + s.pool.slots[id].waiters(), s.pool.parked, waker);
        },
        PoolCall::Abandon(id) => {
            lemma_in_tail(woken + s.pool.slots[id].waiters(), s.pool.parked, waker);
        },
        _ => {},
    }
}

/// A leader that waits for a page of the backing is listed or due to be
/// woken, until the wakers that are due are taken out.
pub proof fn law_queued_leader_is_not_lost(s: PoolUse, calls: Seq<PoolCall>, waker: u64)
    requires
        s.consistent(),
        s.after(PoolCall::Queue(waker)).allows_all(calls),
        forall|i: int| 0 <= i < calls.len() ==> !(#[trigger] calls[i] is Wake),
    ensures
        ({
            let u = s.after(PoolCall::Queue(waker)).after_all(calls);
            u.pool.parked.contains(waker) || u.pool.wakes.contains(waker)
        }),
    decreases calls.len(),
{
    let t = s.after(PoolCall::Queue(waker));
    law_calls_keep_pool_consistent(s, PoolCall::Queue(waker));
    if calls.len() == 0 {
        if !s.pool.parked.contains(waker) {
            assert(s.pool.parked.push(waker).last() == waker);
        }
    } else {
        let most = calls.drop_last();
        let last = calls.last();
        assert forall|i: int| 0 <= i < most.len() implies !(#[trigger] most[i] is Wake) by {
            assert(most[i] == calls[i]);
        }
        law_queued_leader_is_not_lost(s, most, waker);
        law_pool_stays_consistent(t, most);
        let u = t.after_all(most);
        assert(!(calls[calls.len() - 1] is Wake));
        lemma_call_keeps_waker(u, last, waker);
    }
}

/// A call other than taking them out loses no waker that is listed for a
/// page of the backing or due.
proof fn lemma_call_keeps_waker(s: PoolUse, call: PoolCall, waker: u64)
    requires
        s.pool.parked.contains(waker) || s.pool.wakes.contains(waker),
        !(call is Wake),
    ensures
        s.after(call).pool.parked.contains(waker) || s.after(call).pool.wakes.contains(waker),
{
    let wakes = s.pool.wakes;
    let parked = s.pool.parked;
    if parked.contains(waker) {
        lemma_in_tail(wakes, parked, waker);
    } else {
        lemma_in_head(wakes, parked, waker);
    }
    match call {
        PoolCall::Queue(w) => {
            if parked.contains(waker) && !parked.contains(w) {
                lemma_in_head(parked, seq![w], waker);
                assert(parked + seq![w] =~= parked.push(w));
            }
        },
        PoolCall::Land(id, tee) => {
            let waiters = s.pool.with_slot(id, SlotView { tee, ..s.pool.slots[id] }).slots[id].waiters();
            if wakes.contains(waker) {
                lemma_in_head(wakes, waiters, waker);
            }
        },
        PoolCall::Fail(id, _) => {
            let waiters = s.pool.slots[id].waiters();
            if wakes.contains(waker) {
                lemma_in_head(wakes, waiters, waker);
                lemma_in_head(wakes + waiters, parked, waker);
            } else {
                lemma_in_tail(wakes + waiters, parked, waker);
            }
        },
        PoolCall::Abandon(id) => {
            let waiters = s.pool.slots[id].waiters();
            if wakes.contains(waker) {
                lemma_in_head(wakes, waiters, waker);
                lemma_in_head(wakes + waiters, parked, waker);
            } else {
                lemma_in_tail(wakes + waiters, parked, waker);
            }
        },
        _ => {},
    }
}

/// No more streams are open than the limit says, and closing one makes room
/// for another.
pub proof fn law_streams_stay_within_the_limit(s: PoolUse, closed: StripeKey, opened: StripeKey)
    requires
        s.consistent(),
    ensures
        s.pool.streams.len() <= s.pool.cfg.max_concurrent_streams,
        s.allows(PoolCall::Close(closed)) ==> s.after(PoolCall::Close(closed)).allows(
            PoolCall::Open(opened),
        ),
{
    broadcast use vstd::multiset::group_multiset_axioms;

}

/// Closing a stream takes one stream of its stripe off both counts and
/// touches nothing else: no other stripe's streams, no page and no waker.
/// A stream is closed at most once, because closing it uses it up.
pub proof fn law_closing_counts_one_stream(v: PoolView, key: StripeKey, other: StripeKey)
    requires
        v.streams.count(key) >= 1,
        other != key,
    ensures
        v.closed(key).streams.len() == v.streams.len() - 1,
        v.closed(key).streams.count(key) == v.streams.count(key) - 1,
        v.closed(key).streams.count(other) == v.streams.count(other),
        v.closed(key) == (PoolView { streams: v.closed(key).streams, ..v }),
{
    broadcast use vstd::multiset::group_multiset_axioms;

}

/// Recycling takes a slot away exactly where its fetch is over and nobody
/// pins it. Its page of the backing, if it has one, is free then, and its
/// stripe is in flight exactly if it has a stream or another page. Otherwise
/// nothing changes. Doing it again changes nothing, so no page is freed
/// twice.
pub proof fn law_recycling_is_done_once(v: PoolView, id: SlotId)
    ensures
        ({
            let w = v.recycled(id);
            let slot = v.slots[id];
            &&& if v.slots.contains_key(id) && slot.terminal() && slot.recyclable() {
                &&& w.slots == v.slots.remove(id)
                &&& w.free == match slot.page {
                    Some(p) => v.free.insert(p),
                    None => v.free,
                }
                &&& w.in_flight(id.0) <==> v.streams.count(id.0) > 0 || exists|page_no: u64|
                    page_no != id.1 && #[trigger] v.slots.contains_key((id.0, page_no))
            } else {
                w == v
            }
            &&& w.recycled(id) == w
        }),
{
    let w = v.recycled(id);
    if v.slots.contains_key(id) && v.slots[id].terminal() && v.slots[id].recyclable() {
        assert(w.slots == v.slots.remove(id));
        assert forall|page_no: u64|
            page_no != id.1 && v.slots.contains_key((id.0, page_no)) <==> #[trigger]
            w.slots.contains_key((id.0, page_no)) by {}
        if exists|page_no: u64|
            page_no != id.1 && #[trigger] v.slots.contains_key((id.0, page_no)) {
            let page_no = choose|page_no: u64|
                page_no != id.1 && #[trigger] v.slots.contains_key((id.0, page_no));
            assert(w.slots.contains_key((id.0, page_no)));
        }
    }
}

/// When the slot of a page goes, its page of the backing is free.
pub proof fn law_page_of_a_gone_slot_is_free(s: PoolUse, call: PoolCall, id: SlotId, p: u32)
    requires
        s.consistent(),
        s.allows(call),
        s.pool.owns(id, p),
        !s.after(call).pool.slots.contains_key(id),
    ensures
        s.after(call).pool.free.contains(p),
{
}

/// When the last holder of a page whose fetch is over leaves, the slot goes:
/// after a failure, a guard, or a write that was left.
pub proof fn law_last_holder_frees_the_page(s: PoolUse, call: PoolCall, id: SlotId)
    requires
        s.consistent(),
        s.allows(call),
        s.after(call).holders(id) == 0,
        s.pool.slot(id).terminal() || (call matches PoolCall::Fail(failed, _) && failed == id),
    ensures
        !s.after(call).pool.slots.contains_key(id),
{
    law_calls_keep_pool_consistent(s, call);
    if s.after(call).pool.slots.contains_key(id) {
        assert(s.page_consistent(id));
        assert(s.after(call).page_consistent(id));
        law_quiet_pool_keeps_only_idle_pages(s.after(call), id);
        match call {
            PoolCall::Abandon(other) => {
                assert(s.page_consistent(other));
            },
            _ => {},
        }
    }
}

/// Once every ticket and guard has been handed back, only pages whose leader
/// gave up are left, and nobody pins them.
pub proof fn law_quiet_pool_keeps_only_idle_pages(s: PoolUse, id: SlotId)
    requires
        s.consistent(),
        s.holders(id) == 0,
        s.pool.slots.contains_key(id),
    ensures
        s.pool.slots[id].phase is Idle,
        s.pool.slots[id].holds == 0,
        !s.pool.slots[id].tee,
{
    assert(s.page_consistent(id));
}

/// Once every ticket and guard has been handed back and no page is left idle
/// by a leader that gave up, all pages are free; with every stream closed
/// nothing is in flight either.
pub proof fn law_pool_drains(s: PoolUse)
    requires
        s.consistent(),
        forall|id: SlotId| #[trigger] s.holders(id) == 0,
        forall|id: SlotId| #[trigger]
            s.pool.slots.contains_key(id) ==> !(s.pool.slots[id].phase is Idle),
    ensures
        s.pool.slots == Map::<SlotId, SlotView>::empty(),
        s.pool.free == PoolView::fresh(s.pool.cfg, s.pool.backing).free,
        s.pool.streams == Multiset::<StripeKey>::empty() ==> s.pool.stripes() == Set::<
            StripeKey,
        >::empty(),
{
    broadcast use vstd::multiset::group_multiset_axioms;

    assert forall|id: SlotId| !s.pool.slots.contains_key(id) by {
        if s.pool.slots.contains_key(id) {
            assert(s.holders(id) == 0);
            law_quiet_pool_keeps_only_idle_pages(s, id);
        }
    }
    assert(s.pool.slots =~= Map::<SlotId, SlotView>::empty());
    assert forall|p: u32| s.pool.free.contains(p) <==> p < s.pool.backing.page_count by {
        if p < s.pool.backing.page_count && !s.pool.free.contains(p) {
            let id = choose|id: SlotId| #[trigger] s.pool.owns(id, p);
            assert(s.pool.owns(id, p));
        }
    }
    assert(s.pool.free =~= PoolView::fresh(s.pool.cfg, s.pool.backing).free);
    if s.pool.streams == Multiset::<StripeKey>::empty() {
        assert(s.pool.stripes() =~= Set::<StripeKey>::empty());
    }
}

/// A pool whose leaders never gave up drains once every ticket and guard has
/// been handed back.
pub proof fn law_unabandoned_pool_drains(cfg: PoolConfig, backing: Backing, calls: Seq<PoolCall>)
    requires
        pool::bad_config(cfg, backing) is None,
        PoolUse::start(cfg, backing).allows_all(calls),
        forall|i: int| 0 <= i < calls.len() ==> !(#[trigger] calls[i] is Abandon),
        forall|id: SlotId| #[trigger]
            PoolUse::start(cfg, backing).after_all(calls).holders(id) == 0,
    ensures
        ({
            let v = PoolUse::start(cfg, backing).after_all(calls).pool;
            &&& v.slots == Map::<SlotId, SlotView>::empty()
            &&& v.free == PoolView::fresh(cfg, backing).free
            &&& v.streams == Multiset::<StripeKey>::empty() ==> v.stripes() == Set::<
                StripeKey,
            >::empty()
        }),
{
    law_new_pool_is_consistent(cfg, backing);
    law_pool_stays_consistent(PoolUse::start(cfg, backing), calls);
    lemma_no_page_is_idle(cfg, backing, calls);
    law_pool_drains(PoolUse::start(cfg, backing).after_all(calls));
}

/// Where no leader ever gave up, no page is idle, and the configuration is
/// what it was.
proof fn lemma_no_page_is_idle(cfg: PoolConfig, backing: Backing, calls: Seq<PoolCall>)
    requires
        pool::bad_config(cfg, backing) is None,
        PoolUse::start(cfg, backing).allows_all(calls),
        forall|i: int| 0 <= i < calls.len() ==> !(#[trigger] calls[i] is Abandon),
    ensures
        ({
            let v = PoolUse::start(cfg, backing).after_all(calls).pool;
            &&& v.backing == backing
            &&& forall|id: SlotId| #[trigger]
                v.slots.contains_key(id) ==> !(v.slots[id].phase is Idle)
        }),
    decreases calls.len(),
{
    if calls.len() > 0 {
        let s = PoolUse::start(cfg, backing);
        let most = calls.drop_last();
        let last = calls.last();
        assert forall|i: int| 0 <= i < most.len() implies !(#[trigger] most[i] is Abandon) by {
            assert(most[i] == calls[i]);
        }
        lemma_no_page_is_idle(cfg, backing, most);
        law_new_pool_is_consistent(cfg, backing);
        law_pool_stays_consistent(s, most);
        let u = s.after_all(most);
        let w = u.after(last);
        assert(!(calls[calls.len() - 1] is Abandon));
        assert forall|id: SlotId| #[trigger] w.pool.slots.contains_key(id) implies !(
        w.pool.slots[id].phase is Idle) by {
            lemma_call_makes_no_idle(u, last, id);
        }
    }
}

/// A call other than giving up leaves no page idle that was not.
proof fn lemma_call_makes_no_idle(s: PoolUse, call: PoolCall, id: SlotId)
    requires
        s.consistent(),
        s.allows(call),
        !(call is Abandon),
        s.pool.slots.contains_key(id) ==> !(s.pool.slots[id].phase is Idle),
        s.after(call).pool.slots.contains_key(id),
    ensures
        !(s.after(call).pool.slots[id].phase is Idle),
{
    assert(s.page_consistent(id));
    match call {
        PoolCall::Relist(other, _) => {
            assert(s.page_consistent(other));
        },
        PoolCall::Give(other, _) => {
            assert(s.page_consistent(other));
        },
        PoolCall::Land(other, _) => {
            assert(s.page_consistent(other));
        },
        PoolCall::Fail(other, _) => {
            assert(s.page_consistent(other));
        },
        PoolCall::EndTee(other) => {
            assert(s.page_consistent(other));
        },
        PoolCall::DropTee(other) => {
            assert(s.page_consistent(other));
        },
        PoolCall::Leave(other) => {
            assert(s.page_consistent(other));
        },
        PoolCall::Release(other) => {
            assert(s.page_consistent(other));
        },
        _ => {},
    }
}

/// What the caller of a fetch step gets: a ticket or a guard on the page,
/// which the pool counts from now on.
pub open spec fn handed_out(s: PoolUse, t: PoolUse, id: SlotId, r: FetchStep) -> bool {
    match r {
        FetchStep::Ready(g) => {
            &&& t.guards == s.guards.insert(id)
            &&& t.leads == s.leads && t.tees == s.tees && t.parks == s.parks
            &&& t.pool.owns(id, g.page())
        },
        FetchStep::Failed(_) => {
            t.leads == s.leads && t.tees == s.tees && t.parks == s.parks && t.guards == s.guards
        },
        FetchStep::NeedPage(_) => {
            &&& t.leads == s.leads.insert(id)
            &&& t.tees == s.tees && t.parks == s.parks && t.guards == s.guards
        },
        FetchStep::ReadDisk(read) => {
            &&& t.leads == s.leads.insert(id)
            &&& t.tees == s.tees && t.parks == s.parks && t.guards == s.guards
            &&& t.pool.loads(id, read.page().page_idx)
        },
        FetchStep::Parked(_) => {
            &&& t.parks == s.parks.insert(id)
            &&& t.leads == s.leads && t.tees == s.tees && t.guards == s.guards
        },
        _ => false,
    }
}

/// A leader that goes on is made of calls: it gets a page or waits for one,
/// and gives up where the page has no offset. It hands its lead in for what
/// it gets.
pub proof fn law_lead_step_is_made_of_calls(
    s: PoolUse,
    id: SlotId,
    waker: u64,
    r: FetchStep,
    post: PoolView,
) -> (calls: Seq<PoolCall>)
    requires
        s.consistent(),
        s.leads.count(id) >= 1,
        fetch::lead_step(s.pool, id, waker, r, post),
    ensures
        s.allows_all(calls),
        s.after_all(calls).pool == post,
        handed_out(PoolUse { leads: s.leads.remove(id), ..s }, s.after_all(calls), id, r),
        s.after_all(calls).consistent(),
{
    broadcast use vstd::multiset::group_multiset_axioms;

    reveal_with_fuel(PoolUse::allows_all, 2);
    reveal_with_fuel(PoolUse::after_all, 2);
    let v = s.pool;
    assert(s.page_consistent(id));
    assert(s.leads.remove(id).insert(id) =~= s.leads);
    let calls = match v.slots[id].page {
        Some(p) => lemma_disk_step(s, id, p, r, post),
        None => if v.free == Set::<u32>::empty() {
            let calls = seq![PoolCall::Queue(waker)];
            assert(calls.drop_last() =~= Seq::<PoolCall>::empty());
            calls
        } else {
            let p = choose|p: u32| #[trigger]
                v.free.contains(p) && fetch::disk_step(v.given(id, p), id, p, r, post);
            let give = PoolCall::Give(id, p);
            law_calls_keep_pool_consistent(s, give);
            let rest = lemma_disk_step(s.after(give), id, p, r, post);
            lemma_first_call(s, give, rest);
            seq![give] + rest
        },
    };
    law_pool_stays_consistent(s, calls);
    calls
}

proof fn lemma_disk_step(
    s: PoolUse,
    id: SlotId,
    p: u32,
    r: FetchStep,
    post: PoolView,
) -> (calls: Seq<PoolCall>)
    requires
        s.consistent(),
        s.pool.loads(id, p),
        fetch::disk_step(s.pool, id, p, r, post),
    ensures
        s.allows_all(calls),
        s.after_all(calls).pool == post,
        handed_out(PoolUse { leads: s.leads.remove(id), ..s }, s.after_all(calls), id, r),
{
    broadcast use vstd::multiset::group_multiset_axioms;

    reveal_with_fuel(PoolUse::allows_all, 2);
    reveal_with_fuel(PoolUse::after_all, 2);
    assert(s.page_consistent(id));
    assert(s.leads.remove(id).insert(id) =~= s.leads);
    if id.1 * s.pool.backing.page_size > u64::MAX {
        let calls = seq![PoolCall::Abandon(id)];
        assert(calls.drop_last() =~= Seq::<PoolCall>::empty());
        calls
    } else {
        Seq::empty()
    }
}

/// A reader that leads and goes on.
proof fn lemma_lead_and_go_on(
    s: PoolUse,
    id: SlotId,
    waker: u64,
    r: FetchStep,
    post: PoolView,
) -> (rest: Seq<PoolCall>)
    requires
        s.consistent(),
        s.allows(PoolCall::Lead(id)),
        fetch::lead_step(s.pool.led(id), id, waker, r, post),
    ensures
        s.allows_all(seq![PoolCall::Lead(id)] + rest),
        s.after_all(seq![PoolCall::Lead(id)] + rest).pool == post,
        handed_out(s, s.after_all(seq![PoolCall::Lead(id)] + rest), id, r),
{
    broadcast use vstd::multiset::group_multiset_axioms;

    let led = s.after(PoolCall::Lead(id));
    law_calls_keep_pool_consistent(s, PoolCall::Lead(id));
    let rest = law_lead_step_is_made_of_calls(led, id, waker, r, post);
    assert(led.leads.remove(id) =~= s.leads);
    lemma_first_call(s, PoolCall::Lead(id), rest);
    rest
}

/// Asking for a page that nobody asked for, with a page of the backing free,
/// gives the lead and a free page to look it up into.
pub proof fn law_first_reader_looks_on_disk(
    v: PoolView,
    id: SlotId,
    waker: u64,
    r: FetchStep,
    post: PoolView,
)
    requires
        !v.slots.contains_key(id),
        exists|p: u32| v.free.contains(p),
        id.1 * v.backing.page_size <= u64::MAX,
        fetch::first_step(v, id, waker, r, post),
    ensures
        r matches FetchStep::ReadDisk(t) && t.id() == id && t.offset() == id.1
            * v.backing.page_size && exists|p: u32| #[trigger]
            v.free.contains(p) && t.page() == fetch::whole_page(p, v.backing.page_size) && post
                == v.led(id).given(id, p),
{
    let led = v.led(id);
    assert(led.slots[id].page is None);
    assert(led.free != Set::<u32>::empty());
    let p = choose|p: u32| #[trigger]
        led.free.contains(p) && fetch::disk_step(led.given(id, p), id, p, r, post);
    assert(v.free.contains(p));
}

/// Asking for a page is made of calls that the pool allows, so everything
/// that holds over calls holds of it.
pub proof fn law_fetch_is_made_of_calls(
    s: PoolUse,
    id: SlotId,
    waker: u64,
    r: FetchStep,
    post: PoolView,
) -> (calls: Seq<PoolCall>)
    requires
        s.consistent(),
        fetch::first_step(s.pool, id, waker, r, post),
    ensures
        s.allows_all(calls),
        s.after_all(calls).pool == post,
        handed_out(s, s.after_all(calls), id, r),
        s.after_all(calls).consistent(),
{
    reveal_with_fuel(PoolUse::allows_all, 2);
    reveal_with_fuel(PoolUse::after_all, 2);
    let calls = match s.pool.slot(id).phase {
        PhaseView::Ready => {
            let calls = seq![PoolCall::Share(id)];
            assert(calls.drop_last() =~= Seq::<PoolCall>::empty());
            calls
        },
        PhaseView::Failed(_) => Seq::empty(),
        PhaseView::Loading(_) => {
            let calls = seq![PoolCall::Join(id, waker)];
            assert(calls.drop_last() =~= Seq::<PoolCall>::empty());
            calls
        },
        PhaseView::Idle => {
            let rest = lemma_lead_and_go_on(s, id, waker, r, post);
            seq![PoolCall::Lead(id)] + rest
        },
    };
    law_pool_stays_consistent(s, calls);
    calls
}

/// A reader that takes over from a leader that gave up leaves its wait and
/// leads: that too is made of calls.
pub proof fn law_takeover_is_made_of_calls(
    s: PoolUse,
    id: SlotId,
    waker: u64,
    r: FetchStep,
    post: PoolView,
) -> (calls: Seq<PoolCall>)
    requires
        s.consistent(),
        s.parks.count(id) >= 1,
        s.pool.slots[id].phase is Idle,
        fetch::lead_step(s.pool.let_go(id).led(id), id, waker, r, post),
    ensures
        s.allows_all(calls),
        s.after_all(calls).pool == post,
        handed_out(s.after(PoolCall::Leave(id)), s.after_all(calls), id, r),
        s.after_all(calls).consistent(),
{
    assert(s.page_consistent(id));
    let left = s.after(PoolCall::Leave(id));
    law_calls_keep_pool_consistent(s, PoolCall::Leave(id));
    let rest = lemma_lead_and_go_on(left, id, waker, r, post);
    let led = seq![PoolCall::Lead(id)] + rest;
    lemma_first_call(s, PoolCall::Leave(id), led);
    let calls = seq![PoolCall::Leave(id)] + led;
    law_pool_stays_consistent(s, calls);
    calls
}

/// A call followed by a sequence of calls.
proof fn lemma_first_call(s: PoolUse, first: PoolCall, rest: Seq<PoolCall>)
    requires
        s.allows(first),
        s.after(first).allows_all(rest),
    ensures
        s.allows_all(seq![first] + rest),
        s.after_all(seq![first] + rest) == s.after(first).after_all(rest),
    decreases rest.len(),
{
    let calls = seq![first] + rest;
    if rest.len() == 0 {
        reveal_with_fuel(PoolUse::allows_all, 2);
        reveal_with_fuel(PoolUse::after_all, 2);
        assert(calls =~= seq![first]);
        assert(calls.drop_last() =~= Seq::<PoolCall>::empty());
    } else {
        lemma_first_call(s, first, rest.drop_last());
        assert(calls.drop_last() =~= seq![first] + rest.drop_last());
        assert(calls.last() == rest.last());
    }
}

/// The page that a call is about, where it is about one.
pub open spec fn page_of(call: PoolCall) -> Option<SlotId> {
    match call {
        PoolCall::Open(_) | PoolCall::Close(_) | PoolCall::Queue(_) | PoolCall::Wake => None,
        PoolCall::Share(id) => Some(id),
        PoolCall::Join(id, _) => Some(id),
        PoolCall::Relist(id, _) => Some(id),
        PoolCall::Lead(id) => Some(id),
        PoolCall::Give(id, _) => Some(id),
        PoolCall::Land(id, _) => Some(id),
        PoolCall::Fail(id, _) => Some(id),
        PoolCall::Abandon(id) => Some(id),
        PoolCall::EndTee(id) => Some(id),
        PoolCall::DropTee(id) => Some(id),
        PoolCall::Take(id) => Some(id),
        PoolCall::Leave(id) => Some(id),
        PoolCall::Release(id) => Some(id),
    }
}

/// A call leaves every page alone but the one it is about, and never changes
/// how the pool was set up.
pub proof fn law_calls_touch_one_page(s: PoolUse, call: PoolCall, other: SlotId)
    requires
        s.consistent(),
        s.allows(call),
        page_of(call) != Some(other),
    ensures
        s.after(call).pool.slots.contains_key(other) == s.pool.slots.contains_key(other),
        s.pool.slots.contains_key(other) ==> s.after(call).pool.slots[other]
            == s.pool.slots[other],
        s.after(call).holders(other) == s.holders(other),
        s.after(call).pool.cfg == s.pool.cfg,
        s.after(call).pool.backing == s.pool.backing,
{
    broadcast use vstd::multiset::group_multiset_axioms;

    assert(s.page_consistent(other));
    if let Some(id) = page_of(call) {
        assert(s.page_consistent(id));
    }
}

/// Streams are opened and closed by those calls alone, which touch nothing
/// else.
pub proof fn law_streams_and_pages_are_apart(s: PoolUse, call: PoolCall)
    requires
        s.consistent(),
        s.allows(call),
    ensures
        !(call is Open) && !(call is Close) ==> s.after(call).pool.streams == s.pool.streams,
        call is Open || call is Close ==> {
            &&& s.after(call).pool.slots == s.pool.slots
            &&& s.after(call).pool.free == s.pool.free
            &&& s.after(call).pool.parked == s.pool.parked
            &&& s.after(call).pool.wakes == s.pool.wakes
        },
{
}

/// A waker that is due stays due until the due ones are taken out, and new
/// ones come behind it. Only those become due that were listed with the page
/// of the call or for a page of the backing.
pub proof fn law_due_wakers_stay_due(s: PoolUse, call: PoolCall, waker: u64)
    requires
        s.consistent(),
        s.allows(call),
        !(call is Wake),
    ensures
        s.pool.wakes.is_prefix_of(s.after(call).pool.wakes),
        s.after(call).pool.wakes.contains(waker) && !s.pool.wakes.contains(waker) ==> {
            ||| s.pool.parked.contains(waker)
            ||| page_of(call) matches Some(id) && s.pool.slot(id).waiters().contains(waker)
        },
{
    let before = s.pool.wakes;
    let after = s.after(call).pool.wakes;
    let parked = s.pool.parked;
    let waiters = match page_of(call) {
        Some(id) => s.pool.slot(id).waiters(),
        None => Seq::<u64>::empty(),
    };
    if let Some(id) = page_of(call) {
        assert(s.page_consistent(id));
    }
    assert(after =~= before || after =~= before + waiters || after =~= before + parked || after
        =~= before + waiters + parked);
    if after.contains(waker) && !before.contains(waker) {
        let i = choose|i: int| 0 <= i < after.len() && after[i] == waker;
        if i < before.len() {
            assert(before[i] == waker);
        } else if after =~= before + waiters {
            assert(waiters[i - before.len()] == waker);
        } else if after =~= before + parked {
            assert(parked[i - before.len()] == waker);
        } else if i < before.len() + waiters.len() {
            assert(waiters[i - before.len()] == waker);
        } else {
            assert(parked[i - before.len() - waiters.len()] == waker);
        }
    }
}

/// A failed fetch leaves its own failure for whoever still holds the page,
/// and for whoever asks before they have left.
pub proof fn law_failure_is_kept_as_it_happened(s: PoolUse, id: SlotId, e: Error)
    requires
        s.consistent(),
        s.allows(PoolCall::Fail(id, e)),
    ensures
        ({
            let t = s.after(PoolCall::Fail(id, e));
            &&& t.pool.slots.contains_key(id) <==> s.holders(id) > 1
            &&& t.pool.slots.contains_key(id) ==> t.pool.slots[id].phase == PhaseView::Failed(e)
        }),
{
    assert(s.page_consistent(id));
}

/// Bytes that arrived are shown in the page of the backing that was filled.
pub proof fn law_arrived_bytes_stay_where_they_are(s: PoolUse, id: SlotId, tee: bool)
    requires
        s.consistent(),
        s.allows(PoolCall::Land(id, tee)),
    ensures
        ({
            let t = s.after(PoolCall::Land(id, tee));
            &&& t.pool.slots.contains_key(id)
            &&& t.pool.slots[id].phase is Ready
            &&& t.pool.slots[id].page == s.pool.slots[id].page
            &&& t.tees.count(id) == if tee {
                1nat
            } else {
                0nat
            }
            &&& t.guards.count(id) == s.guards.count(id) + (if tee {
                0nat
            } else {
                1nat
            })
        }),
{
    broadcast use vstd::multiset::group_multiset_axioms;

    assert(s.page_consistent(id));
}

/// A page of the backing that a leader gets is its own and no longer free;
/// no other page is taken.
pub proof fn law_given_page_is_taken(s: PoolUse, id: SlotId, p: u32, q: u32)
    requires
        s.consistent(),
        s.allows(PoolCall::Give(id, p)),
    ensures
        s.after(PoolCall::Give(id, p)).pool.owns(id, p),
        s.after(PoolCall::Give(id, p)).pool.free.contains(q) <==> s.pool.free.contains(q) && q
            != p,
{
    assert(s.page_consistent(id));
}

} // verus!
