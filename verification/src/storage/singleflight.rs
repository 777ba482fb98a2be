//! Per-key single-flight gate.
//!
//! Concurrent fills for the same [`PageKey`] collapse onto a single
//! in-flight operation. The leader holds a [`LeaseGuard`] and is
//! responsible for either publishing a result or giving up, which answers
//! followers with `None` so that they fall back to their normal "treat as
//! miss" path.
//!
//! The table is sharded by key hash. Sharding is independent of the
//! semantics for any one key: all callers for the same key always land on
//! the same shard.
//!
//! Wakers are named by numbers of the caller's choosing: settling a lease
//! hands back the numbers to wake. Callers that share a gate between
//! threads put it behind a lock.

use crate::storage::types::{same_bytes, LeafEntry, PageKey};
use crate::table::{Table, TableKey};
use crate::wakers;
use vstd::prelude::*;

verus! {

/// Outcome of a fill: `Some(entry)` if the leader published a
/// successful result, `None` if the leader gave up without
/// publishing (treated as a miss by callers).
pub type FillResult = Option<LeafEntry>;

/// Domain tag of the shard selector.
pub const SHARD_DOMAIN: u32 = 0;

impl TableKey for PageKey {
    fn same(&self, other: &Self) -> (r: bool) {
        self.page_index == other.page_index && same_bytes(&self.value_hash, &other.value_hash)
    }
}

/// Abstract state of one lease.
pub struct LeaseView {
    /// What the leader settled on, once it has.
    pub result: Option<FillResult>,
    /// Wakers of the followers that wait, each once.
    pub waiters: Seq<u64>,
    /// Leader and followers that can still reach the lease.
    pub handles: nat,
}

/// Abstract state of the fill gate.
pub struct GateView {
    /// Number of shards.
    pub shards: nat,
    /// The lease of every key in flight.
    pub table: Map<PageKey, usize>,
    /// Every lease that someone can still reach.
    pub leases: Map<usize, LeaseView>,
}

/// Answer to a follower that asks for the result.
pub enum LeasePoll {
    /// The leader has not settled yet; the waker will be called.
    Pending,
    /// The leader settled.
    Ready(FillResult),
}

/// The leases after one holder of the lease `id` let go of it. The lease goes
/// with its last holder.
pub open spec fn let_go(leases: Map<usize, LeaseView>, id: usize) -> Map<usize, LeaseView> {
    let lease = leases[id];
    if lease.handles <= 1 {
        leases.remove(id)
    } else {
        leases.insert(id, LeaseView { handles: (lease.handles - 1) as nat, ..lease })
    }
}

impl GateView {
    /// A gate with nothing in flight.
    pub open spec fn idle(shards: nat) -> GateView {
        GateView { shards, table: Map::empty(), leases: Map::empty() }
    }

    /// Shape that every operation keeps: the keys in flight have leases of
    /// their own, which are exactly the leases not settled yet.
    pub open spec fn wf(self) -> bool {
        &&& self.shards >= 1
        &&& forall|k: PageKey| #[trigger]
            self.table.contains_key(k) ==> {
                &&& self.leases.contains_key(self.table[k])
                &&& self.leases[self.table[k]].result is None
            }
        &&& forall|j: PageKey, k: PageKey|
            self.table.contains_key(j) && self.table.contains_key(k) && #[trigger] self.table[j]
                == #[trigger] self.table[k] ==> j == k
        &&& forall|id: usize| #[trigger]
            self.leases.contains_key(id) ==> {
                &&& self.leases[id].handles >= 1
                &&& self.leases[id].waiters.no_duplicates()
                &&& self.leases[id].result is Some ==> self.leases[id].waiters.len() == 0
                &&& self.leases[id].result is None ==> exists|k: PageKey| #[trigger]
                    self.table.contains_key(k) && self.table[k] == id
            }
    }

    /// Whether `key` is being filled through the lease `id`.
    pub open spec fn leads(self, key: PageKey, id: usize) -> bool {
        self.table.contains_key(key) && self.table[key] == id
    }

    /// The fill gate after `key` got a leader, on the unused lease `id`.
    pub open spec fn led(self, key: PageKey, id: usize) -> GateView {
        GateView {
            table: self.table.insert(key, id),
            leases: self.leases.insert(
                id,
                LeaseView { result: None, waiters: Seq::empty(), handles: 1 },
            ),
            ..self
        }
    }

    /// The fill gate after one more follower joined the lease of `key`.
    pub open spec fn followed(self, key: PageKey) -> GateView {
        let id = self.table[key];
        let lease = self.leases[id];
        GateView {
            leases: self.leases.insert(id, LeaseView { handles: lease.handles + 1, ..lease }),
            ..self
        }
    }

    /// The fill gate after the leader of `key` settled on `value` and left.
    pub open spec fn settled(self, key: PageKey, value: FillResult) -> GateView {
        let id = self.table[key];
        let lease = self.leases[id];
        let leases = self.leases.insert(
            id,
            LeaseView { result: Some(value), waiters: Seq::empty(), ..lease },
        );
        GateView { table: self.table.remove(key), leases: let_go(leases, id), ..self }
    }

    /// What a follower of the lease `id` is told.
    pub open spec fn told(self, id: usize) -> LeasePoll {
        match self.leases[id].result {
            Some(value) => LeasePoll::Ready(value),
            None => LeasePoll::Pending,
        }
    }

    /// The fill gate after a follower of the lease `id` asked, leaving its waker
    /// where the result is still out and the waker is not known yet.
    pub open spec fn asked(self, id: usize, waker: u64) -> GateView {
        let lease = self.leases[id];
        if lease.result is Some || lease.waiters.contains(waker) {
            self
        } else {
            GateView {
                leases: self.leases.insert(
                    id,
                    LeaseView { waiters: lease.waiters.push(waker), ..lease },
                ),
                ..self
            }
        }
    }

    /// The fill gate after a follower of the lease `id` left.
    pub open spec fn left(self, id: usize) -> GateView {
        GateView { leases: let_go(self.leases, id), ..self }
    }
}

/// Shard that holds `key` among `shards`.
pub open spec fn shard_of(key: PageKey, shards: nat) -> int {
    (key.mixed(SHARD_DOMAIN) as usize) as int % shards as int
}

struct Lease {
    result: Option<FillResult>,
    waiters: Vec<u64>,
    handles: usize,
}

impl Lease {
    spec fn model(self) -> LeaseView {
        LeaseView {
            result: self.result,
            waiters: self.waiters@,
            handles: self.handles as nat,
        }
    }
}

/// The fill gate: which keys are being filled, and what became of each fill.
pub struct Singleflight {
    shards: Vec<Table<PageKey, usize>>,
    leases: Vec<Option<Lease>>,
}

/// Held by the leader. Call [`LeaseGuard::publish`] to hand a result to
/// followers; [`LeaseGuard::abandon`] and [`LeaseGuard::dismiss`] signal
/// "give up" and followers receive `None`.
pub struct LeaseGuard {
    key: PageKey,
    lease: usize,
    armed: bool,
}

/// Held by a follower. It is told the result once the leader settles.
pub struct LeaseWait {
    lease: usize,
}

/// Result of [`Singleflight::acquire`]: either you're the leader
/// and must do the work, or you're a follower waiting for
/// someone else's result.
pub enum Acquire {
    Leader(LeaseGuard),
    Follower(LeaseWait),
}

impl LeaseGuard {
    /// The key being filled.
    pub closed spec fn key(self) -> PageKey {
        self.key
    }

    /// The lease being filled.
    pub closed spec fn lease(self) -> usize {
        self.lease
    }

    /// Whether the lease is still to be settled.
    pub closed spec fn armed(self) -> bool {
        self.armed
    }
}

impl LeaseWait {
    /// The lease waited for.
    pub closed spec fn lease(self) -> usize {
        self.lease
    }
}

impl View for Singleflight {
    type V = GateView;

    closed spec fn view(&self) -> GateView {
        let n = self.shards@.len();
        GateView {
            shards: n,
            table: Map::new(
                |k: PageKey| self.shards@[shard_of(k, n)]@.contains_key(k),
                |k: PageKey| self.shards@[shard_of(k, n)]@[k],
            ),
            leases: leases_of(self.leases@),
        }
    }
}

/// The leases in use among a list of lease slots.
spec fn leases_of(slots: Seq<Option<Lease>>) -> Map<usize, LeaseView> {
    Map::new(
        |id: usize| id < slots.len() && slots[id as int] is Some,
        |id: usize| slots[id as int]->0.model(),
    )
}

impl Singleflight {
    /// Well-formedness of the fill gate.
    pub closed spec fn wf(&self) -> bool {
        &&& self@.wf()
        &&& self.sharded()
    }

    /// Every key is in the shard its hash selects.
    spec fn sharded(&self) -> bool {
        let n = self.shards@.len();
        &&& n >= 1
        &&& forall|i: int| 0 <= i < n ==> (#[trigger] self.shards@[i]).wf()
        &&& forall|i: int, k: PageKey|
            0 <= i < n && #[trigger] self.shards@[i]@.contains_key(k) ==> shard_of(k, n) == i
    }

    /// A gate with `shards` shards, or one where `shards` is zero.
    pub fn new(shards: usize) -> (r: Self)
        ensures
            r.wf(),
            r@ == GateView::idle(if shards == 0 {
                1
            } else {
                shards as nat
            }),
    {
        let count: usize = if shards == 0 {
            1
        } else {
            shards
        };
        let mut list: Vec<Table<PageKey, usize>> = Vec::new();
        let mut i: usize = 0;
        while i < count
            invariant
                i <= count,
                list@.len() == i,
                forall|j: int|
                    0 <= j < i ==> (#[trigger] list@[j]).wf() && list@[j]@ == Map::<
                        PageKey,
                        usize,
                    >::empty(),
            decreases count - i,
        {
            list.push(Table::new());
            i += 1;
        }
        let r = Singleflight { shards: list, leases: Vec::new() };
        assert(r@.table =~= Map::<PageKey, usize>::empty()) by {
            assert forall|k: PageKey| !r@.table.contains_key(k) by {
                lemma_shard_in_range(k, count as nat);
            }
        }
        assert(r@.leases =~= Map::<usize, LeaseView>::empty());
        r
    }

    /// Shard that holds `key`.
    fn shard(&self, key: &PageKey) -> (r: usize)
        requires
            self.shards@.len() >= 1,
        ensures
            r == shard_of(*key, self.shards@.len()),
            r < self.shards@.len(),
    {
        let h = key.mix(SHARD_DOMAIN);
        (h as usize) % self.shards.len()
    }

    /// An unused lease slot, made where there is none.
    fn fresh_lease(&mut self) -> (id: usize)
        requires
            old(self).wf(),
        ensures
            final(self).wf(),
            final(self)@ == old(self)@,
            final(self).shards == old(self).shards,
            id < final(self).leases@.len(),
            final(self).leases@[id as int] is None,
    {
        let mut i: usize = 0;
        while i < self.leases.len()
            invariant
                i <= self.leases@.len(),
                *self == *old(self),
                old(self).wf(),
            decreases self.leases@.len() - i,
        {
            if self.leases[i].is_none() {
                return i;
            }
            i += 1;
        }
        self.leases.push(None);
        assert(self@.leases =~= old(self)@.leases);
        assert(self@.table =~= old(self)@.table);
        i
    }

    /// Whether one more caller can join the fill of `key`, as far as its
    /// holders are counted.
    pub fn can_acquire(&self, key: PageKey) -> (r: bool)
        requires
            self.wf(),
        ensures
            r == (self@.table.contains_key(key) ==> self@.leases[self@.table[key]].handles
                < usize::MAX),
    {
        let at = self.shard(&key);
        assert(self.shards@[at as int].wf());
        match self.shards[at].get(&key) {
            None => true,
            Some(id) => {
                assert(self@.table.contains_key(key) && self@.table[key] == *id);
                assert(self@.leases.contains_key(*id));
                match &self.leases[*id] {
                    Some(lease) => lease.handles < usize::MAX,
                    None => {
                        assert(false);
                        true
                    },
                }
            },
        }
    }

    /// Joins the fill of `key`: as its leader if nobody is filling it, as a
    /// follower otherwise.
    pub fn acquire(&mut self, key: PageKey) -> (r: Acquire)
        requires
            old(self).wf(),
            old(self)@.table.contains_key(key) ==> old(self)@.leases[old(
                self,
            )@.table[key]].handles < usize::MAX,
        ensures
            final(self).wf(),
            match r {
                Acquire::Leader(guard) => {
                    &&& !old(self)@.table.contains_key(key)
                    &&& !old(self)@.leases.contains_key(guard.lease())
                    &&& guard.key() == key
                    &&& guard.armed()
                    &&& final(self)@ == old(self)@.led(key, guard.lease())
                },
                Acquire::Follower(wait) => {
                    &&& old(self)@.table.contains_key(key)
                    &&& wait.lease() == old(self)@.table[key]
                    &&& final(self)@ == old(self)@.followed(key)
                },
            },
    {
        let at = self.shard(&key);
        assert(self.shards@[at as int].wf());
        let existing: Option<usize> = match self.shards[at].get(&key) {
            Some(id) => Some(*id),
            None => None,
        };
        if let Some(id) = existing {
            assert(self@.table.contains_key(key) && self@.table[key] == id);
            assert(self@.leases.contains_key(id));
            if let Some(lease) = &mut self.leases[id] {
                lease.handles = lease.handles + 1;
            }
            proof {
                assert(self@.leases =~= old(self)@.followed(key).leases);
                assert(self@.table =~= old(self)@.table);
                lemma_followed_keeps_shape(old(self)@, key);
            }
            return Acquire::Follower(LeaseWait { lease: id });
        }
        let id = self.fresh_lease();
        let ghost before = self@;
        self.leases[id] = Some(Lease { result: None, waiters: Vec::new(), handles: 1 });
        self.shards[at].insert(key, id);
        proof {
            assert(self@.leases =~= before.led(key, id).leases);
            assert(self@.table =~= before.led(key, id).table) by {
                assert forall|k: PageKey| self@.table.contains_key(k) <==> before.led(
                    key,
                    id,
                ).table.contains_key(k) by {}
            }
            lemma_led_keeps_shape(before, key, id);
        }
        Acquire::Leader(LeaseGuard { key, lease: id, armed: true })
    }
}

impl Singleflight {
    /// Takes `key` out of its shard.
    fn remove(&mut self, key: &PageKey)
        requires
            old(self).sharded(),
            old(self)@.table.contains_key(*key),
        ensures
            final(self).sharded(),
            final(self).leases == old(self).leases,
            final(self)@.shards == old(self)@.shards,
            final(self)@.table == old(self)@.table.remove(*key),
    {
        let at = self.shard(key);
        assert(self.shards@[at as int].wf());
        let _ = self.shards[at].remove(key);
        assert(self@.table =~= old(self)@.table.remove(*key));
    }

    /// Drops one holder of a lease, and the lease with its last holder.
    fn drop_handle(&mut self, id: usize)
        requires
            old(self).sharded(),
            old(self)@.leases.contains_key(id),
        ensures
            final(self).sharded(),
            final(self)@ == old(self)@.left(id),
    {
        let mut last = false;
        if let Some(lease) = &mut self.leases[id] {
            if lease.handles <= 1 {
                last = true;
            } else {
                lease.handles = lease.handles - 1;
            }
        }
        if last {
            self.leases[id] = None;
        }
        assert(self@.leases =~= old(self)@.left(id).leases);
        assert(self@.table =~= old(self)@.table);
    }

    /// Number of keys in flight.
    pub fn in_flight(&self) -> (r: usize)
        requires
            self.wf(),
        ensures
            self@.table.dom().finite(),
            r == self@.table.len(),
    {
        let mut total: usize = 0;
        let mut i: usize = 0;
        proof {
            assert(self.keys_below(0) =~= Set::<PageKey>::empty());
        }
        while i < self.shards.len()
            invariant
                i <= self.shards@.len(),
                self.wf(),
                self.keys_below(i as int).finite(),
                total == self.keys_below(i as int).len(),
            decreases self.shards@.len() - i,
        {
            assert(self.shards@[i as int].wf());
            let n = self.shards[i].len();
            proof {
                self.lemma_keys_below_next(i as int);
                self.lemma_keys_below_fit(i as int + 1);
                assert(self.leases.len() <= usize::MAX);
            }
            total = total + n;
            i += 1;
        }
        assert(self.keys_below(i as int) =~= self@.table.dom()) by {
            assert forall|k: PageKey| self@.table.contains_key(k) implies #[trigger]
                self.keys_below(i as int).contains(k) by {
                lemma_shard_in_range(k, self.shards@.len());
            }
        }
        total
    }

    /// Keys in flight in the first `i` shards.
    spec fn keys_below(&self, i: int) -> Set<PageKey> {
        Set::new(
            |k: PageKey| self@.table.contains_key(k) && shard_of(k, self.shards@.len()) < i,
        )
    }

    proof fn lemma_keys_below_next(&self, i: int)
        requires
            self.wf(),
            0 <= i < self.shards@.len(),
            self.keys_below(i).finite(),
            self.shards@[i]@.dom().finite(),
        ensures
            self.keys_below(i + 1).finite(),
            self.keys_below(i + 1).len() == self.keys_below(i).len() + self.shards@[i]@.len(),
    {
        let here = self.shards@[i]@.dom();
        let below = self.keys_below(i);
        assert(below.disjoint(here));
        assert(self.keys_below(i + 1) =~= below + here);
        vstd::set_lib::lemma_set_disjoint_lens(below, here);
    }

    proof fn lemma_keys_below_fit(&self, i: int)
        requires
            self.wf(),
            self.keys_below(i).finite(),
        ensures
            self.keys_below(i).len() <= self.leases@.len(),
    {
        let keys = self.keys_below(i);
        let to_lease = |k: PageKey| self@.table[k] as int;
        let ids = keys.map(to_lease);
        let slots = vstd::set_lib::set_int_range(0, self.leases@.len() as int);
        assert(vstd::relations::injective_on(to_lease, keys));
        vstd::set_lib::lemma_map_size(keys, ids, to_lease);
        vstd::set_lib::lemma_int_range(0, self.leases@.len() as int);
        assert(ids.subset_of(slots)) by {
            assert forall|x: int| ids.contains(x) implies slots.contains(x) by {
                let k = choose|k: PageKey| keys.contains(k) && x == to_lease(k);
                assert(self@.leases.contains_key(self@.table[k]));
            }
        }
        vstd::set_lib::lemma_len_subset(ids, slots);
    }
}

/// A fill gate has the shape that its operations keep.
pub proof fn law_gate_keeps_its_shape(gate: Singleflight)
    requires
        gate.wf(),
    ensures
        gate@.wf(),
{
}

impl LeaseGuard {
    /// Hands `value` to the followers and returns the wakers to call.
    pub fn publish(self, gate: &mut Singleflight, value: LeafEntry) -> (wakers: Vec<u64>)
        requires
            old(gate).wf(),
            self.armed(),
            old(gate)@.leads(self.key(), self.lease()),
        ensures
            final(gate).wf(),
            final(gate)@ == old(gate)@.settled(self.key(), Some(value)),
            wakers@ == old(gate)@.leases[self.lease()].waiters,
    {
        let mut guard = self;
        guard.settle(gate, Some(value))
    }

    /// Gives up: the followers get `None`. Returns the wakers to call.
    pub fn abandon(self, gate: &mut Singleflight) -> (wakers: Vec<u64>)
        requires
            old(gate).wf(),
            self.armed(),
            old(gate)@.leads(self.key(), self.lease()),
        ensures
            final(gate).wf(),
            final(gate)@ == old(gate)@.settled(self.key(), None),
            wakers@ == old(gate)@.leases[self.lease()].waiters,
    {
        let mut guard = self;
        guard.settle(gate, None)
    }

    /// Settles the lease on `value` and leaves it.
    fn settle(&mut self, gate: &mut Singleflight, value: FillResult) -> (wakers: Vec<u64>)
        requires
            old(gate).wf(),
            old(self).armed(),
            old(gate)@.leads(old(self).key(), old(self).lease()),
        ensures
            final(gate).wf(),
            final(gate)@ == old(gate)@.settled(old(self).key(), value),
            wakers@ == old(gate)@.leases[old(self).lease()].waiters,
            !final(self).armed(),
    {
        let id = self.lease;
        let ghost before = gate@;
        assert(gate@.leases.contains_key(id));
        let mut wakers: Vec<u64> = Vec::new();
        if let Some(lease) = &mut gate.leases[id] {
            lease.result = Some(value);
            wakers.append(&mut lease.waiters);
        }
        let ghost answered = before.leases.insert(
            id,
            LeaseView { result: Some(value), waiters: Seq::empty(), ..before.leases[id] },
        );
        assert(gate@.leases =~= answered);
        assert(gate@.table =~= before.table);
        gate.remove(&self.key);
        gate.drop_handle(id);
        self.armed = false;
        proof {
            assert(gate@ == before.settled(self.key, value));
            lemma_settled_keeps_shape(before, self.key, value);
        }
        wakers
    }

    /// Called when the leader lets the guard go: gives up unless the lease
    /// is settled. Returns the wakers to call.
    pub fn dismiss(self, gate: &mut Singleflight) -> (wakers: Vec<u64>)
        requires
            old(gate).wf(),
            self.armed() ==> old(gate)@.leads(self.key(), self.lease()),
        ensures
            final(gate).wf(),
            self.armed() ==> {
                &&& final(gate)@ == old(gate)@.settled(self.key(), None)
                &&& wakers@ == old(gate)@.leases[self.lease()].waiters
            },
            !self.armed() ==> final(gate)@ == old(gate)@ && wakers@.len() == 0,
    {
        let mut guard = self;
        if guard.armed {
            guard.settle(gate, None)
        } else {
            Vec::new()
        }
    }
}

impl LeaseWait {
    /// Asks for the result, leaving `waker` to be called where it is out.
    pub fn poll(&self, gate: &mut Singleflight, waker: u64) -> (r: LeasePoll)
        requires
            old(gate).wf(),
            old(gate)@.leases.contains_key(self.lease()),
        ensures
            final(gate).wf(),
            r == old(gate)@.told(self.lease()),
            final(gate)@ == old(gate)@.asked(self.lease(), waker),
    {
        let id = self.lease;
        let mut r = LeasePoll::Pending;
        if let Some(lease) = &mut gate.leases[id] {
            match lease.result {
                Some(value) => {
                    r = LeasePoll::Ready(value);
                },
                None => {
                    if !wakers::holds_waker(&lease.waiters, waker) {
                        lease.waiters.push(waker);
                    }
                },
            }
        }
        proof {
            assert(gate@.leases =~= old(gate)@.asked(id, waker).leases);
            assert(gate@.table =~= old(gate)@.table);
            lemma_asked_keeps_shape(old(gate)@, id, waker);
        }
        r
    }

    /// Called when the follower lets the lease go.
    pub fn release(self, gate: &mut Singleflight)
        requires
            old(gate).wf(),
            old(gate)@.leases.contains_key(self.lease()),
            old(gate)@.leases[self.lease()].result is None ==> old(gate)@.leases[self.lease()].handles
                > 1,
        ensures
            final(gate).wf(),
            final(gate)@ == old(gate)@.left(self.lease()),
    {
        gate.drop_handle(self.lease);
        proof {
            lemma_left_keeps_shape(old(gate)@, self.lease);
        }
    }
}

pub(crate) proof fn lemma_settled_keeps_shape(v: GateView, key: PageKey, value: FillResult)
    requires
        v.wf(),
        v.table.contains_key(key),
    ensures
        v.settled(key, value).wf(),
{
    let w = v.settled(key, value);
    assert forall|i: usize| #[trigger] w.leases.contains_key(i) && w.leases[i].result is None implies
        exists|k: PageKey| #[trigger] w.table.contains_key(k) && w.table[k] == i by {
        let k = choose|k: PageKey| #[trigger] v.table.contains_key(k) && v.table[k] == i;
        assert(w.table.contains_key(k) && w.table[k] == i);
    }
}

pub(crate) proof fn lemma_asked_keeps_shape(v: GateView, id: usize, waker: u64)
    requires
        v.wf(),
        v.leases.contains_key(id),
    ensures
        v.asked(id, waker).wf(),
{
    let w = v.asked(id, waker);
    assert forall|i: usize| #[trigger] w.leases.contains_key(i) && w.leases[i].result is None implies
        exists|k: PageKey| #[trigger] w.table.contains_key(k) && w.table[k] == i by {
        let k = choose|k: PageKey| #[trigger] v.table.contains_key(k) && v.table[k] == i;
        assert(w.table.contains_key(k) && w.table[k] == i);
    }
}

pub(crate) proof fn lemma_left_keeps_shape(v: GateView, id: usize)
    requires
        v.wf(),
        v.leases.contains_key(id),
        v.leases[id].result is None ==> v.leases[id].handles > 1,
    ensures
        v.left(id).wf(),
{
    let w = v.left(id);
    assert forall|i: usize| #[trigger] w.leases.contains_key(i) && w.leases[i].result is None implies
        exists|k: PageKey| #[trigger] w.table.contains_key(k) && w.table[k] == i by {
        let k = choose|k: PageKey| #[trigger] v.table.contains_key(k) && v.table[k] == i;
        assert(w.table.contains_key(k) && w.table[k] == i);
    }
}

proof fn lemma_shard_in_range(key: PageKey, shards: nat)
    requires
        shards >= 1,
    ensures
        0 <= shard_of(key, shards) < shards,
{
}

pub(crate) proof fn lemma_led_keeps_shape(v: GateView, key: PageKey, id: usize)
    requires
        v.wf(),
        !v.table.contains_key(key),
        !v.leases.contains_key(id),
    ensures
        v.led(key, id).wf(),
{
    let w = v.led(key, id);
    assert forall|i: usize| #[trigger] w.leases.contains_key(i) && w.leases[i].result is None implies
        exists|k: PageKey| #[trigger] w.table.contains_key(k) && w.table[k] == i by {
        if i == id {
            assert(w.table.contains_key(key) && w.table[key] == i);
        } else {
            let k = choose|k: PageKey| #[trigger] v.table.contains_key(k) && v.table[k] == i;
            assert(w.table.contains_key(k) && w.table[k] == i);
        }
    }
}

pub(crate) proof fn lemma_followed_keeps_shape(v: GateView, key: PageKey)
    requires
        v.wf(),
        v.table.contains_key(key),
    ensures
        v.followed(key).wf(),
{
    let w = v.followed(key);
    assert forall|i: usize| #[trigger] w.leases.contains_key(i) && w.leases[i].result is None implies
        exists|k: PageKey| #[trigger] w.table.contains_key(k) && w.table[k] == i by {
        let k = choose|k: PageKey| #[trigger] v.table.contains_key(k) && v.table[k] == i;
        assert(w.table.contains_key(k) && w.table[k] == i);
    }
}

} // verus!
