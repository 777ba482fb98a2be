//! What holds of a fill gate over any sequence of calls, for callers that
//! use each guard and each wait once.

use crate::storage::singleflight;
use crate::storage::singleflight::{FillResult, GateView, LeasePoll};
use crate::storage::types::PageKey;
use vstd::multiset::Multiset;
use vstd::prelude::*;

verus! {

/// A gate together with the guards and waits that are out.
pub struct GateUse {
    pub gate: GateView,
    /// Guards out, by key and lease.
    pub guards: Multiset<(PageKey, usize)>,
    /// Waits out, by lease.
    pub waits: Multiset<usize>,
}

/// One call on a gate.
pub enum GateCall {
    /// `acquire` of a key that nobody fills, on an unused lease.
    Lead(PageKey, usize),
    /// `acquire` of a key that somebody fills.
    Follow(PageKey),
    /// `publish` (with a result) or `abandon` or `dismiss` (without).
    Settle(PageKey, usize, FillResult),
    /// `poll` of a wait, with a waker.
    Ask(usize, u64),
    /// `release` of a wait.
    Leave(usize),
}

impl GateUse {
    /// A new gate that nobody uses yet.
    pub open spec fn start(shards: nat) -> GateUse {
        GateUse {
            gate: GateView::idle(shards),
            guards: Multiset::empty(),
            waits: Multiset::empty(),
        }
    }

    /// Whether the caller holds what the call takes.
    pub open spec fn allows(self, call: GateCall) -> bool {
        match call {
            GateCall::Lead(key, id) => {
                &&& !self.gate.table.contains_key(key)
                &&& !self.gate.leases.contains_key(id)
            },
            GateCall::Follow(key) => self.gate.table.contains_key(key),
            GateCall::Settle(key, id, _) => self.guards.count((key, id)) >= 1,
            GateCall::Ask(id, _) => self.waits.count(id) >= 1,
            GateCall::Leave(id) => self.waits.count(id) >= 1,
        }
    }

    /// State after the call.
    pub open spec fn after(self, call: GateCall) -> GateUse {
        match call {
            GateCall::Lead(key, id) => GateUse {
                gate: self.gate.led(key, id),
                guards: self.guards.insert((key, id)),
                ..self
            },
            GateCall::Follow(key) => GateUse {
                gate: self.gate.followed(key),
                waits: self.waits.insert(self.gate.table[key]),
                ..self
            },
            GateCall::Settle(key, id, value) => GateUse {
                gate: self.gate.settled(key, value),
                guards: self.guards.remove((key, id)),
                ..self
            },
            GateCall::Ask(id, waker) => GateUse { gate: self.gate.asked(id, waker), ..self },
            GateCall::Leave(id) => GateUse {
                gate: self.gate.left(id),
                waits: self.waits.remove(id),
                ..self
            },
        }
    }

    /// Whether every call of a sequence is allowed where it stands.
    pub open spec fn allows_all(self, calls: Seq<GateCall>) -> bool
        decreases calls.len(),
    {
        calls.len() == 0 || (self.allows_all(calls.drop_last()) && self.after_all(
            calls.drop_last(),
        ).allows(calls.last()))
    }

    /// State after a sequence of calls.
    pub open spec fn after_all(self, calls: Seq<GateCall>) -> GateUse
        decreases calls.len(),
    {
        if calls.len() == 0 {
            self
        } else {
            self.after_all(calls.drop_last()).after(calls.last())
        }
    }

    /// The fill gate is well formed, there is one guard for every key in flight
    /// and no other, and every lease is counted once for its guard and once
    /// for each of its waits.
    pub open spec fn consistent(self) -> bool {
        &&& self.gate.wf()
        &&& forall|key: PageKey, id: usize| #[trigger]
            self.guards.count((key, id)) == if self.gate.leads(key, id) {
                1nat
            } else {
                0nat
            }
        &&& forall|id: usize| #[trigger]
            self.waits.count(id) >= 1 ==> self.gate.leases.contains_key(id)
        &&& forall|id: usize| #[trigger]
            self.gate.leases.contains_key(id) ==> self.gate.leases[id].handles
                == self.waits.count(id) + (if self.gate.leases[id].result is None {
                1nat
            } else {
                0nat
            })
    }
}

/// A new gate is consistent.
pub proof fn law_new_gate_is_consistent(shards: nat)
    requires
        shards >= 1,
    ensures
        GateUse::start(shards).consistent(),
{
}

proof fn lemma_lead(s: GateUse, key: PageKey, id: usize)
    requires
        s.consistent(),
        s.allows(GateCall::Lead(key, id)),
    ensures
        s.after(GateCall::Lead(key, id)).consistent(),
{
    broadcast use vstd::multiset::group_multiset_axioms;

    let t = s.after(GateCall::Lead(key, id));
    singleflight::lemma_led_keeps_shape(s.gate, key, id);
    assert forall|k: PageKey, i: usize| #[trigger] t.guards.count((k, i)) == if t.gate.leads(k, i) {
        1nat
    } else {
        0nat
    } by {
        assert(s.guards.count((k, i)) == if s.gate.leads(k, i) {
            1nat
        } else {
            0nat
        });
    }
    assert(s.waits.count(id) == 0);
}

proof fn lemma_follow(s: GateUse, key: PageKey)
    requires
        s.consistent(),
        s.allows(GateCall::Follow(key)),
    ensures
        s.after(GateCall::Follow(key)).consistent(),
{
    broadcast use vstd::multiset::group_multiset_axioms;

    let t = s.after(GateCall::Follow(key));
    singleflight::lemma_followed_keeps_shape(s.gate, key);
    assert forall|k: PageKey, i: usize| #[trigger] t.guards.count((k, i)) == if t.gate.leads(k, i) {
        1nat
    } else {
        0nat
    } by {
        assert(t.gate.leads(k, i) == s.gate.leads(k, i));
    }
}

proof fn lemma_settle(s: GateUse, key: PageKey, id: usize, value: FillResult)
    requires
        s.consistent(),
        s.allows(GateCall::Settle(key, id, value)),
    ensures
        s.after(GateCall::Settle(key, id, value)).consistent(),
{
    broadcast use vstd::multiset::group_multiset_axioms;

    let t = s.after(GateCall::Settle(key, id, value));
    assert(s.gate.leads(key, id));
    singleflight::lemma_settled_keeps_shape(s.gate, key, value);
    assert forall|k: PageKey, i: usize| #[trigger] t.guards.count((k, i)) == if t.gate.leads(k, i) {
        1nat
    } else {
        0nat
    } by {
        assert(s.guards.count((k, i)) == if s.gate.leads(k, i) {
            1nat
        } else {
            0nat
        });
    }
}

proof fn lemma_ask(s: GateUse, id: usize, waker: u64)
    requires
        s.consistent(),
        s.allows(GateCall::Ask(id, waker)),
    ensures
        s.after(GateCall::Ask(id, waker)).consistent(),
{
    let t = s.after(GateCall::Ask(id, waker));
    singleflight::lemma_asked_keeps_shape(s.gate, id, waker);
    assert forall|k: PageKey, i: usize| #[trigger] t.guards.count((k, i)) == if t.gate.leads(k, i) {
        1nat
    } else {
        0nat
    } by {
        assert(t.gate.leads(k, i) == s.gate.leads(k, i));
    }
}

proof fn lemma_leave(s: GateUse, id: usize)
    requires
        s.consistent(),
        s.allows(GateCall::Leave(id)),
    ensures
        s.after(GateCall::Leave(id)).consistent(),
{
    broadcast use vstd::multiset::group_multiset_axioms;

    let t = s.after(GateCall::Leave(id));
    singleflight::lemma_left_keeps_shape(s.gate, id);
    assert forall|k: PageKey, i: usize| #[trigger] t.guards.count((k, i)) == if t.gate.leads(k, i) {
        1nat
    } else {
        0nat
    } by {
        assert(t.gate.leads(k, i) == s.gate.leads(k, i));
    }
}

/// Every call keeps the fill gate consistent.
pub proof fn law_calls_keep_gate_consistent(s: GateUse, call: GateCall)
    requires
        s.consistent(),
        s.allows(call),
    ensures
        s.after(call).consistent(),
{
    match call {
        GateCall::Lead(key, id) => lemma_lead(s, key, id),
        GateCall::Follow(key) => lemma_follow(s, key),
        GateCall::Settle(key, id, value) => lemma_settle(s, key, id, value),
        GateCall::Ask(id, waker) => lemma_ask(s, id, waker),
        GateCall::Leave(id) => lemma_leave(s, id),
    }
}

/// A gate stays consistent over any sequence of calls.
pub proof fn law_gate_stays_consistent(s: GateUse, calls: Seq<GateCall>)
    requires
        s.consistent(),
        s.allows_all(calls),
    ensures
        s.after_all(calls).consistent(),
    decreases calls.len(),
{
    if calls.len() > 0 {
        law_gate_stays_consistent(s, calls.drop_last());
        law_calls_keep_gate_consistent(s.after_all(calls.drop_last()), calls.last());
    }
}

/// At any time a key has at most one leader, and a key with a leader is in
/// flight.
pub proof fn law_one_leader_per_key(s: GateUse, key: PageKey, a: usize, b: usize)
    requires
        s.consistent(),
        s.guards.count((key, a)) >= 1,
        s.guards.count((key, b)) >= 1,
    ensures
        a == b,
        s.guards.count((key, a)) == 1,
        s.gate.leads(key, a),
{
}

/// Whoever holds a guard can settle its lease, and whoever holds a wait can
/// ask and leave.
pub proof fn law_holders_can_call(s: GateUse, key: PageKey, id: usize)
    requires
        s.consistent(),
    ensures
        s.guards.count((key, id)) >= 1 ==> s.gate.leads(key, id),
        s.waits.count(id) >= 1 ==> {
            &&& s.gate.leases.contains_key(id)
            &&& s.gate.leases[id].result is None ==> s.gate.leases[id].handles > 1
        },
{
}

/// Once a lease is settled every follower that still holds it is told the
/// value, whatever calls come in between.
pub proof fn law_followers_hear_the_leader(
    s: GateUse,
    key: PageKey,
    id: usize,
    value: FillResult,
    calls: Seq<GateCall>,
)
    requires
        s.consistent(),
        s.allows(GateCall::Settle(key, id, value)),
        s.after(GateCall::Settle(key, id, value)).allows_all(calls),
        forall|n: int|
            0 <= n <= calls.len() ==> #[trigger] s.after(
                GateCall::Settle(key, id, value),
            ).after_all(calls.take(n)).waits.count(id) >= 1,
    ensures
        s.after(GateCall::Settle(key, id, value)).after_all(calls).gate.told(id)
            == LeasePoll::Ready(value),
    decreases calls.len(),
{
    broadcast use vstd::multiset::group_multiset_axioms;

    let t = s.after(GateCall::Settle(key, id, value));
    law_calls_keep_gate_consistent(s, GateCall::Settle(key, id, value));
    assert(calls.take(calls.len() as int) =~= calls);
    assert(calls.take(0) =~= Seq::<GateCall>::empty());
    if calls.len() == 0 {
        assert(t.after_all(calls.take(0)) == t);
        assert(s.waits.count(id) >= 1);
        assert(s.gate.leads(key, id));
    } else {
        let most = calls.drop_last();
        let last = calls.last();
        assert forall|n: int| 0 <= n <= most.len() implies #[trigger] t.after_all(
            most.take(n),
        ).waits.count(id) >= 1 by {
            assert(most.take(n) =~= calls.take(n));
        }
        law_followers_hear_the_leader(s, key, id, value, most);
        law_gate_stays_consistent(t, most);
        let u = t.after_all(most);
        assert(most.take(most.len() as int) =~= most);
        assert(u.waits.count(id) >= 1);
        assert(u.gate.leases[id].result == Some(value));
        assert(t.after_all(calls).waits.count(id) >= 1) by {
            assert(t.after_all(calls.take(calls.len() as int)).waits.count(id) >= 1);
        }
        match last {
            GateCall::Settle(k, i, _) => {
                assert(u.gate.leads(k, i));
                assert(i != id);
            },
            GateCall::Follow(k) => {
                assert(u.gate.table[k] != id);
            },
            _ => {},
        }
    }
}

/// A key whose fill is settled is free again: the next caller leads it.
/// Other keys are in flight exactly as before.
pub proof fn law_settled_key_is_free(v: GateView, key: PageKey, other: PageKey, value: FillResult)
    requires
        v.wf(),
        v.table.contains_key(key),
        other != key,
    ensures
        !v.settled(key, value).table.contains_key(key),
        v.settled(key, value).table.contains_key(other) == v.table.contains_key(other),
{
}

/// Leading one key does not put another in flight or settle it.
pub proof fn law_keys_do_not_collide(v: GateView, key: PageKey, id: usize, other: PageKey)
    requires
        v.wf(),
        !v.table.contains_key(key),
        !v.leases.contains_key(id),
        other != key,
    ensures
        v.led(key, id).table.contains_key(other) == v.table.contains_key(other),
        v.table.contains_key(other) ==> v.led(key, id).leases[v.table[other]]
            == v.leases[v.table[other]],
{
}

/// A follower that was told to wait has its waker on the lease, and it stays
/// there until the lease is settled, which hands it out.
pub proof fn law_waiting_follower_is_woken(
    s: GateUse,
    id: usize,
    waker: u64,
    calls: Seq<GateCall>,
)
    requires
        s.consistent(),
        s.allows(GateCall::Ask(id, waker)),
        s.gate.told(id) is Pending,
        s.after(GateCall::Ask(id, waker)).allows_all(calls),
        forall|i: int| 0 <= i < calls.len() ==> !(#[trigger] calls[i] matches GateCall::Settle(
            _,
            settled_id,
            _,
        ) && settled_id == id),
    ensures
        s.after(GateCall::Ask(id, waker)).after_all(calls).gate.leases.contains_key(id),
        s.after(GateCall::Ask(id, waker)).after_all(calls).gate.leases[id].result is None,
        s.after(GateCall::Ask(id, waker)).after_all(calls).gate.leases[id].waiters.contains(waker),
    decreases calls.len(),
{
    let t = s.after(GateCall::Ask(id, waker));
    law_calls_keep_gate_consistent(s, GateCall::Ask(id, waker));
    if calls.len() == 0 {
        let old_waiters = s.gate.leases[id].waiters;
        if !old_waiters.contains(waker) {
            assert(old_waiters.push(waker).last() == waker);
        }
    } else {
        let most = calls.drop_last();
        let last = calls.last();
        assert forall|i: int| 0 <= i < most.len() implies !(#[trigger] most[i] matches GateCall::Settle(
            _,
            settled_id,
            _,
        ) && settled_id == id) by {
            assert(most[i] == calls[i]);
        }
        law_waiting_follower_is_woken(s, id, waker, most);
        law_gate_stays_consistent(t, most);
        let u = t.after_all(most);
        assert(last == calls[calls.len() - 1]);
        match last {
            GateCall::Settle(k, i, _) => {
                assert(u.gate.leads(k, i));
                assert(i != id);
            },
            GateCall::Ask(i, w) => {
                if i == id {
                    let ws = u.gate.leases[id].waiters;
                    let p = choose|p: int| 0 <= p < ws.len() && ws[p] == waker;
                    assert(ws.push(w)[p] == waker);
                }
            },
            _ => {},
        }
    }
}

/// Settling a lease answers everybody at once. The wakers that wait for it
/// are handed out, each of them once; the key is free, so that the next
/// `acquire` leads on any unused lease; one key fewer is in flight; no other
/// key's lease changes; the guard is used up; and every follower is told the
/// value, now and, whatever calls come in between, for as long as it holds
/// the lease.
pub proof fn law_settling_answers_everyone(
    s: GateUse,
    key: PageKey,
    id: usize,
    value: FillResult,
    calls: Seq<GateCall>,
)
    requires
        s.consistent(),
        s.allows(GateCall::Settle(key, id, value)),
    ensures
        ({
            let t = s.after(GateCall::Settle(key, id, value));
            &&& s.gate.leases[id].waiters.no_duplicates()
            &&& forall|fresh: usize|
                !t.gate.leases.contains_key(fresh) ==> #[trigger] t.allows(
                    GateCall::Lead(key, fresh),
                )
            &&& s.gate.table.dom().finite() ==> t.gate.table.len() == s.gate.table.len() - 1
            &&& forall|other: PageKey|
                other != key ==> #[trigger] t.gate.table.contains_key(other)
                    == s.gate.table.contains_key(other)
            &&& forall|other: PageKey|
                other != key && #[trigger] s.gate.table.contains_key(other) ==> {
                    &&& t.gate.table[other] == s.gate.table[other]
                    &&& t.gate.leases[t.gate.table[other]] == s.gate.leases[s.gate.table[other]]
                }
            &&& t.guards.count((key, id)) == 0
            &&& s.waits.count(id) >= 1 ==> t.gate.told(id) == LeasePoll::Ready(value)
            &&& t.allows_all(calls) && (forall|n: int|
                0 <= n <= calls.len() ==> #[trigger] t.after_all(calls.take(n)).waits.count(id)
                    >= 1) ==> t.after_all(calls).gate.told(id) == LeasePoll::Ready(value)
        }),
{
    broadcast use vstd::multiset::group_multiset_axioms;

    let t = s.after(GateCall::Settle(key, id, value));
    law_calls_keep_gate_consistent(s, GateCall::Settle(key, id, value));
    assert(s.gate.leads(key, id));
    assert(s.gate.leases.contains_key(id));
    assert(t.gate.table.dom() =~= s.gate.table.dom().remove(key));
    assert(!t.gate.leads(key, id));
    if t.allows_all(calls) && (forall|n: int|
        0 <= n <= calls.len() ==> #[trigger] t.after_all(calls.take(n)).waits.count(id) >= 1) {
        law_followers_hear_the_leader(s, key, id, value, calls);
    }
}

/// A gate in use with another number of shards.
pub open spec fn resharded(s: GateUse, shards: nat) -> GateUse {
    GateUse { gate: GateView { shards, ..s.gate }, ..s }
}

/// Sharding does not touch the semantics: over gates with any two numbers of
/// shards the same sequences of calls are allowed, and they lead to the same
/// keys in flight, leases, guards and waits.
pub proof fn law_sharding_does_not_matter(a: nat, b: nat, calls: Seq<GateCall>)
    ensures
        GateUse::start(a).allows_all(calls) == GateUse::start(b).allows_all(calls),
        ({
            let s = GateUse::start(a).after_all(calls);
            let t = GateUse::start(b).after_all(calls);
            &&& t == resharded(s, b)
            &&& t.gate.table == s.gate.table
            &&& t.gate.leases == s.gate.leases
            &&& t.guards == s.guards
            &&& t.waits == s.waits
        }),
    decreases calls.len(),
{
    if calls.len() > 0 {
        law_sharding_does_not_matter(a, b, calls.drop_last());
    }
}

/// Leading a key puts that key in flight and no other, one key more than
/// before, on a lease that nobody has settled and nobody waits for.
pub proof fn law_leading_puts_one_key_in_flight(s: GateUse, key: PageKey, id: usize, other: PageKey)
    requires
        s.consistent(),
        s.allows(GateCall::Lead(key, id)),
    ensures
        ({
            let t = s.after(GateCall::Lead(key, id));
            &&& t.gate.leads(key, id)
            &&& t.gate.table.contains_key(other) <==> s.gate.table.contains_key(other) || other
                == key
            &&& s.gate.table.dom().finite() ==> t.gate.table.len() == s.gate.table.len() + 1
            &&& t.gate.leases[id].result is None
            &&& t.gate.leases[id].waiters.len() == 0
            &&& t.guards.count((key, id)) == 1
            &&& t.gate.told(id) is Pending
        }),
{
    broadcast use vstd::multiset::group_multiset_axioms;

    let t = s.after(GateCall::Lead(key, id));
    law_calls_keep_gate_consistent(s, GateCall::Lead(key, id));
    assert(t.gate.table.dom() =~= s.gate.table.dom().insert(key));
    assert(t.gate.leads(key, id));
}

/// Following, asking and leaving change neither the keys in flight nor what
/// anybody is told, and touch one lease alone.
pub proof fn law_followers_change_nothing_for_others(
    s: GateUse,
    call: GateCall,
    id: usize,
    other: usize,
)
    requires
        s.consistent(),
        s.allows(call),
        match call {
            GateCall::Follow(key) => id == s.gate.table[key],
            GateCall::Ask(asked, _) => id == asked,
            GateCall::Leave(left) => id == left,
            _ => false,
        },
        other != id,
    ensures
        s.after(call).gate.table == s.gate.table,
        s.after(call).guards == s.guards,
        s.after(call).gate.leases.contains_key(other) == s.gate.leases.contains_key(other),
        s.after(call).gate.leases[other] == s.gate.leases[other],
        s.after(call).gate.leases.contains_key(id) ==> {
            &&& s.after(call).gate.leases[id].result == s.gate.leases[id].result
            &&& s.gate.leases[id].waiters.is_prefix_of(s.after(call).gate.leases[id].waiters)
        },
{
}

/// A follower joins the very lease that is being filled for its key.
pub proof fn law_follower_joins_the_fill_of_its_key(s: GateUse, key: PageKey, leader: usize)
    requires
        s.consistent(),
        s.guards.count((key, leader)) >= 1,
    ensures
        s.allows(GateCall::Follow(key)),
        s.after(GateCall::Follow(key)).waits.count(leader) == s.waits.count(leader) + 1,
{
    broadcast use vstd::multiset::group_multiset_axioms;

    assert(s.gate.leads(key, leader));
}

} // verus!
