//! What readers see: the bytes that were fetched for their page, and over a
//! whole stream the bytes of the range that was asked for.

use crate::bufferpool::inflight::{PhaseView, SlotView};
use crate::bufferpool::pool;
use crate::bufferpool::pool::{PoolView, SlotId};
use crate::bufferpool::pool_laws;
use crate::bufferpool::pool_laws::{PoolCall, PoolUse};
use crate::bufferpool::stream;
use crate::bufferpool::stream::{PageWindow, StreamView};
use crate::bufferpool::types::{Backing, PoolConfig, StripeKey};
use crate::power;
use vstd::multiset::Multiset;
use vstd::prelude::*;

verus! {

/// A pool in use together with what its pages hold.
pub struct PoolBytes {
    pub users: PoolUse,
    /// Content of every page of the backing.
    pub memory: Map<u32, Seq<u8>>,
}

/// Something that happens to a pool or to its pages.
pub enum ByteEvent {
    /// A call on the pool.
    Call(PoolCall),
    /// A disk or a peer writes to the page that it was given to fill for a
    /// page of a stripe.
    Fill(SlotId, Seq<u8>),
}

impl PoolBytes {
    /// A new pool over pages with any content.
    pub open spec fn start(cfg: PoolConfig, backing: Backing, memory: Map<u32, Seq<u8>>) -> PoolBytes {
        PoolBytes { users: PoolUse::start(cfg, backing), memory }
    }

    /// Whether the event can happen. Only the page of a leader is filled,
    /// and bytes are said to have arrived only where they did: `bytes` says
    /// what the pages of the stripes are.
    pub open spec fn allows(self, event: ByteEvent, bytes: spec_fn(SlotId) -> Seq<u8>) -> bool {
        match event {
            ByteEvent::Call(call) => {
                &&& self.users.allows(call)
                &&& call matches PoolCall::Land(id, _) ==> self.memory[self.users.pool.slots[id].page->0]
                    == bytes(id)
            },
            ByteEvent::Fill(id, _) => {
                &&& self.users.leads.count(id) >= 1
                &&& self.users.pool.slots[id].page is Some
            },
        }
    }

    /// State after the event.
    pub open spec fn after(self, event: ByteEvent) -> PoolBytes {
        match event {
            ByteEvent::Call(call) => PoolBytes { users: self.users.after(call), ..self },
            ByteEvent::Fill(id, content) => PoolBytes {
                memory: self.memory.insert(self.users.pool.slots[id].page->0, content),
                ..self
            },
        }
    }

    /// Whether every event of a sequence can happen where it stands.
    pub open spec fn allows_all(
        self,
        events: Seq<ByteEvent>,
        bytes: spec_fn(SlotId) -> Seq<u8>,
    ) -> bool
        decreases events.len(),
    {
        events.len() == 0 || (self.allows_all(events.drop_last(), bytes) && self.after_all(
            events.drop_last(),
        ).allows(events.last(), bytes))
    }

    /// State after a sequence of events.
    pub open spec fn after_all(self, events: Seq<ByteEvent>) -> PoolBytes
        decreases events.len(),
    {
        if events.len() == 0 {
            self
        } else {
            self.after_all(events.drop_last()).after(events.last())
        }
    }

    /// Whether every page that readers are shown holds the bytes of its page
    /// of the stripe.
    pub open spec fn faithful(self, bytes: spec_fn(SlotId) -> Seq<u8>) -> bool {
        &&& self.users.consistent()
        &&& forall|id: SlotId| #[trigger]
            self.users.pool.slot(id).phase is Ready
                ==> self.memory[self.users.pool.slots[id].page->0] == bytes(id)
    }
}

/// One event keeps every page that readers are shown as it has to be.
pub proof fn law_events_keep_pages_faithful(
    s: PoolBytes,
    event: ByteEvent,
    bytes: spec_fn(SlotId) -> Seq<u8>,
)
    requires
        s.faithful(bytes),
        s.allows(event, bytes),
    ensures
        s.after(event).faithful(bytes),
{
    let t = s.after(event);
    match event {
        ByteEvent::Call(call) => {
            pool_laws::law_calls_keep_pool_consistent(s.users, call);
            assert forall|id: SlotId| #[trigger] t.users.pool.slot(id).phase is Ready implies
                t.memory[t.users.pool.slots[id].page->0] == bytes(id) by {
                pool_laws::lemma_ready_page_was_ready_or_lands(s.users, call, id);
            }
        },
        ByteEvent::Fill(filled, _) => {
            assert forall|id: SlotId| #[trigger] t.users.pool.slot(id).phase is Ready implies
                t.memory[t.users.pool.slots[id].page->0] == bytes(id) by {
                assert(s.users.page_consistent(filled));
                assert(s.users.pool.slot(id).phase is Ready);
                assert(s.users.pool.slots.contains_key(id));
                assert(id != filled);
                if s.users.pool.slots[id].page == s.users.pool.slots[filled].page {
                    assert(id == filled);
                }
            }
        },
    }
}

/// Whatever happens to a pool, a reader that holds a guard is shown the
/// bytes of its page of the stripe: no page is overwritten under a reader.
pub proof fn law_guards_show_the_bytes(
    cfg: PoolConfig,
    backing: Backing,
    memory: Map<u32, Seq<u8>>,
    events: Seq<ByteEvent>,
    bytes: spec_fn(SlotId) -> Seq<u8>,
    id: SlotId,
)
    requires
        pool::bad_config(cfg, backing) is None,
        PoolBytes::start(cfg, backing, memory).allows_all(events, bytes),
        PoolBytes::start(cfg, backing, memory).after_all(events).users.guards.count(id) >= 1,
    ensures
        ({
            let t = PoolBytes::start(cfg, backing, memory).after_all(events);
            &&& t.users.pool.slots.contains_key(id)
            &&& t.users.pool.slots[id].page is Some
            &&& t.memory[t.users.pool.slots[id].page->0] == bytes(id)
        }),
{
    let s = PoolBytes::start(cfg, backing, memory);
    let t = s.after_all(events);
    pool_laws::law_new_pool_is_consistent(cfg, backing);
    assert(s.faithful(bytes));
    lemma_pages_stay_faithful(s, events, bytes);
    assert(t.users.page_consistent(id));
    assert(t.users.pool.slot(id).phase is Ready);
}

proof fn lemma_pages_stay_faithful(
    s: PoolBytes,
    events: Seq<ByteEvent>,
    bytes: spec_fn(SlotId) -> Seq<u8>,
)
    requires
        s.faithful(bytes),
        s.allows_all(events, bytes),
    ensures
        s.after_all(events).faithful(bytes),
    decreases events.len(),
{
    if events.len() > 0 {
        lemma_pages_stay_faithful(s, events.drop_last(), bytes);
        law_events_keep_pages_faithful(s.after_all(events.drop_last()), events.last(), bytes);
    }
}

/// Bytes of one page of a stripe.
pub open spec fn page_bytes(stripe: spec_fn(int) -> u8, page_no: int, page_size: int) -> Seq<u8> {
    Seq::new(page_size as nat, |i: int| stripe(page_no * page_size + i))
}

/// What a window shows of its page.
pub open spec fn shown(stripe: spec_fn(int) -> u8, w: PageWindow, page_size: int) -> Seq<u8> {
    page_bytes(stripe, w.page_no as int, page_size).subrange(
        w.offset as int,
        w.offset + w.len,
    )
}

/// What a stream shows from here to its end, window by window.
pub open spec fn read_out(stripe: spec_fn(int) -> u8, windows: Seq<PageWindow>, page_size: int) -> Seq<
    u8,
>
    decreases windows.len(),
{
    if windows.len() == 0 {
        Seq::empty()
    } else {
        shown(stripe, windows[0], page_size) + read_out(
            stripe,
            windows.skip(1),
            page_size,
        )
    }
}

/// A stream shows the bytes of its range, each once and in order.
pub proof fn law_stream_shows_its_range(stripe: spec_fn(int) -> u8, v: StreamView)
    requires
        v.page_size > 0,
    ensures
        read_out(stripe, v.windows(), v.page_size as int) == Seq::new(
            (if v.pos < v.end {
                v.end - v.pos
            } else {
                0
            }) as nat,
            |i: int| stripe(v.pos + i),
        ),
    decreases v.end - v.pos,
{
    let size = v.page_size as int;
    let ws = v.windows();
    stream::law_windows_tile_the_stream(v);
    if v.pos < v.end {
        let w = v.window()->0;
        let rest = v.advanced();
        assert(ws =~= seq![w] + rest.windows());
        assert(ws[0] == w);
        assert(ws.skip(1) =~= rest.windows());
        law_stream_shows_its_range(stripe, rest);
        stream::law_windows_tile_the_stream(rest);
        let first = shown(stripe, w, size);
        assert(first.len() == w.len);
        assert forall|i: int| 0 <= i < w.len implies #[trigger] first[i] == stripe(v.pos + i) by {
            assert(first[i] == stripe(w.page_no * size + (w.offset + i)));
        }
        assert(read_out(stripe, ws, size) =~= Seq::new(
            (v.end - v.pos) as nat,
            |i: int| stripe(v.pos + i),
        ));
    } else {
        assert(ws.len() == 0);
    }
}

/// What the page of the backing behind a page of a stripe holds.
pub open spec fn held_bytes(s: PoolBytes, id: SlotId) -> Seq<u8> {
    s.memory[s.users.pool.slots[id].page->0]
}

/// The page of a stripe that the first of some windows is on.
pub open spec fn first_page(key: StripeKey, windows: Seq<PageWindow>) -> SlotId {
    (key, windows[0].page_no)
}

/// Whether a stream reads its windows page by page: for each, `turns` gives
/// what happens to the pool until the guard on its page is out, and the
/// guard is given back before the next. Other readers may use the pool in
/// between.
pub open spec fn reads(
    s: PoolBytes,
    key: StripeKey,
    windows: Seq<PageWindow>,
    turns: Seq<Seq<ByteEvent>>,
    bytes: spec_fn(SlotId) -> Seq<u8>,
) -> bool
    decreases windows.len(),
{
    &&& turns.len() == windows.len()
    &&& windows.len() > 0 ==> {
        let id = first_page(key, windows);
        let t = s.after_all(turns[0]);
        &&& s.allows_all(turns[0], bytes)
        &&& t.users.guards.count(id) >= 1
        &&& reads(
            t.after(ByteEvent::Call(PoolCall::Release(id))),
            key,
            windows.skip(1),
            turns.skip(1),
            bytes,
        )
    }
}

/// The slices that the guards of such a read show, joined.
pub open spec fn joined_slices(
    s: PoolBytes,
    key: StripeKey,
    windows: Seq<PageWindow>,
    turns: Seq<Seq<ByteEvent>>,
) -> Seq<u8>
    decreases windows.len(),
{
    if windows.len() == 0 {
        Seq::empty()
    } else {
        let id = first_page(key, windows);
        let t = s.after_all(turns[0]);
        let w = windows[0];
        held_bytes(t, id).subrange(w.offset as int, w.offset + w.len) + joined_slices(
            t.after(ByteEvent::Call(PoolCall::Release(id))),
            key,
            windows.skip(1),
            turns.skip(1),
        )
    }
}

/// State after such a read, with its last guard given back.
pub open spec fn read_end(
    s: PoolBytes,
    key: StripeKey,
    windows: Seq<PageWindow>,
    turns: Seq<Seq<ByteEvent>>,
) -> PoolBytes
    decreases windows.len(),
{
    if windows.len() == 0 {
        s
    } else {
        let id = first_page(key, windows);
        let t = s.after_all(turns[0]);
        read_end(
            t.after(ByteEvent::Call(PoolCall::Release(id))),
            key,
            windows.skip(1),
            turns.skip(1),
        )
    }
}

/// Page by page, the slices are what the windows show of the stripe.
proof fn lemma_slices_are_shown(
    s: PoolBytes,
    key: StripeKey,
    windows: Seq<PageWindow>,
    turns: Seq<Seq<ByteEvent>>,
    bytes: spec_fn(SlotId) -> Seq<u8>,
    stripe: spec_fn(int) -> u8,
    page_size: int,
)
    requires
        s.faithful(bytes),
        reads(s, key, windows, turns, bytes),
        forall|n: u64| #[trigger] bytes((key, n)) == page_bytes(stripe, n as int, page_size),
    ensures
        joined_slices(s, key, windows, turns) == read_out(stripe, windows, page_size),
        read_end(s, key, windows, turns).faithful(bytes),
    decreases windows.len(),
{
    if windows.len() > 0 {
        let id = first_page(key, windows);
        let t = s.after_all(turns[0]);
        let release = ByteEvent::Call(PoolCall::Release(id));
        lemma_pages_stay_faithful(s, turns[0], bytes);
        assert(t.users.page_consistent(id));
        assert(t.users.pool.slot(id).phase is Ready);
        assert(held_bytes(t, id) == bytes((key, windows[0].page_no)));
        law_events_keep_pages_faithful(t, release, bytes);
        lemma_slices_are_shown(
            t.after(release),
            key,
            windows.skip(1),
            turns.skip(1),
            bytes,
            stripe,
            page_size,
        );
    }
}

/// A stream read page by page, each guard given back before the next, shows
/// the bytes of its range: the joined slices are the range, whichever pages
/// came from disk, from a peer or from another reader. If nobody else is
/// left and no leader left a page idle, closing the stream leaves all pages
/// free and nothing in flight.
pub proof fn law_whole_read_shows_the_range(
    s: PoolBytes,
    v: StreamView,
    turns: Seq<Seq<ByteEvent>>,
    bytes: spec_fn(SlotId) -> Seq<u8>,
    stripe: spec_fn(int) -> u8,
)
    requires
        s.faithful(bytes),
        s.users.allows(PoolCall::Open(v.key)),
        v.page_size == s.users.pool.backing.page_size,
        v.page_size > 0,
        forall|n: u64| #[trigger]
            bytes((v.key, n)) == page_bytes(stripe, n as int, v.page_size as int),
        reads(
            s.after(ByteEvent::Call(PoolCall::Open(v.key))),
            v.key,
            v.windows(),
            turns,
            bytes,
        ),
    ensures
        ({
            let opened = s.after(ByteEvent::Call(PoolCall::Open(v.key)));
            let end = read_end(opened, v.key, v.windows(), turns);
            let closed = end.users.after(PoolCall::Close(v.key));
            &&& joined_slices(opened, v.key, v.windows(), turns) == Seq::new(
                (if v.pos < v.end {
                    v.end - v.pos
                } else {
                    0
                }) as nat,
                |i: int| stripe(v.pos + i),
            )
            &&& end.faithful(bytes)
            &&& {
                &&& end.users.pool.streams == Multiset::singleton(v.key)
                &&& forall|id: SlotId| #[trigger] closed.holders(id) == 0
                &&& forall|id: SlotId| #[trigger]
                    closed.pool.slots.contains_key(id) ==> !(closed.pool.slots[id].phase is Idle)
            } ==> {
                &&& closed.pool.slots == Map::<SlotId, SlotView>::empty()
                &&& closed.pool.free == PoolView::fresh(
                    closed.pool.cfg,
                    closed.pool.backing,
                ).free
                &&& closed.pool.stripes() == Set::<StripeKey>::empty()
            }
        }),
{
    broadcast use vstd::multiset::group_multiset_axioms;

    let open = ByteEvent::Call(PoolCall::Open(v.key));
    let opened = s.after(open);
    let end = read_end(opened, v.key, v.windows(), turns);
    law_events_keep_pages_faithful(s, open, bytes);
    lemma_slices_are_shown(
        opened,
        v.key,
        v.windows(),
        turns,
        bytes,
        stripe,
        v.page_size as int,
    );
    law_stream_shows_its_range(stripe, v);
    if end.users.pool.streams == Multiset::singleton(v.key) {
        let close = PoolCall::Close(v.key);
        let closed = end.users.after(close);
        pool_laws::law_calls_keep_pool_consistent(end.users, close);
        assert(closed.pool.streams =~= Multiset::<StripeKey>::empty());
        if {
            &&& forall|id: SlotId| #[trigger] closed.holders(id) == 0
            &&& forall|id: SlotId| #[trigger]
                closed.pool.slots.contains_key(id) ==> !(closed.pool.slots[id].phase is Idle)
        } {
            pool_laws::law_pool_drains(closed);
        }
    }
}

/// What happens while a lone reader gets a page: it leads, gets the free page
/// `p`, has it filled with `content`, and gets its guard, after a write to
/// the block store where the page was no hit on disk.
pub open spec fn lone_turn(id: SlotId, p: u32, hit: bool, content: Seq<u8>) -> Seq<ByteEvent> {
    let landed = seq![
        ByteEvent::Call(PoolCall::Lead(id)),
        ByteEvent::Call(PoolCall::Give(id, p)),
        ByteEvent::Fill(id, content),
        ByteEvent::Call(PoolCall::Land(id, !hit)),
    ];
    if hit {
        landed
    } else {
        landed.push(ByteEvent::Call(PoolCall::EndTee(id)))
    }
}

/// The turns of a lone reader over its windows, with the page of the backing
/// that each gets and whether it was a hit on disk.
pub open spec fn lone_turns(
    key: StripeKey,
    windows: Seq<PageWindow>,
    pages: Seq<u32>,
    hits: Seq<bool>,
    bytes: spec_fn(SlotId) -> Seq<u8>,
) -> Seq<Seq<ByteEvent>> {
    Seq::new(
        windows.len(),
        |i: int|
            lone_turn(
                (key, windows[i].page_no),
                pages[i],
                hits[i],
                bytes((key, windows[i].page_no)),
            ),
    )
}

proof fn lemma_one_more_event(
    s: PoolBytes,
    events: Seq<ByteEvent>,
    event: ByteEvent,
    bytes: spec_fn(SlotId) -> Seq<u8>,
)
    ensures
        s.after_all(events.push(event)) == s.after_all(events).after(event),
        s.allows_all(events.push(event), bytes) == (s.allows_all(events, bytes) && s.after_all(
            events,
        ).allows(event, bytes)),
{
    assert(events.push(event).drop_last() =~= events);
}

/// A lone reader's turn can happen, shows it the bytes, and leaves the pool
/// as it was once the guard is given back.
proof fn lemma_lone_turn(
    s: PoolBytes,
    cfg: PoolConfig,
    backing: Backing,
    id: SlotId,
    p: u32,
    hit: bool,
    bytes: spec_fn(SlotId) -> Seq<u8>,
)
    requires
        s.users == PoolUse::start(cfg, backing).after(PoolCall::Open(id.0)),
        p < backing.page_count,
    ensures
        ({
            let turn = lone_turn(id, p, hit, bytes(id));
            let t = s.after_all(turn);
            &&& s.allows_all(turn, bytes)
            &&& t.users.guards.count(id) >= 1
            &&& t.after(ByteEvent::Call(PoolCall::Release(id))).users == s.users
        }),
{
    broadcast use vstd::multiset::group_multiset_axioms;

    let content = bytes(id);
    let e0 = Seq::<ByteEvent>::empty();
    let lead = ByteEvent::Call(PoolCall::Lead(id));
    let give = ByteEvent::Call(PoolCall::Give(id, p));
    let fill = ByteEvent::Fill(id, content);
    let land = ByteEvent::Call(PoolCall::Land(id, !hit));
    let end = ByteEvent::Call(PoolCall::EndTee(id));
    let release = ByteEvent::Call(PoolCall::Release(id));
    let e1 = e0.push(lead);
    let e2 = e1.push(give);
    let e3 = e2.push(fill);
    let e4 = e3.push(land);
    lemma_one_more_event(s, e0, lead, bytes);
    lemma_one_more_event(s, e1, give, bytes);
    lemma_one_more_event(s, e2, fill, bytes);
    lemma_one_more_event(s, e3, land, bytes);
    lemma_one_more_event(s, e4, end, bytes);
    let v = s.users.pool;
    let s1 = s.after(lead);
    let s2 = s1.after(give);
    let s3 = s2.after(fill);
    let s4 = s3.after(land);
    let s5 = if hit {
        s4
    } else {
        s4.after(end)
    };
    let s6 = s5.after(release);
    assert(s1.users.leads.count(id) == 1);
    assert(s2.users.pool.slots[id].page == Some(p));
    let ready = SlotView { phase: PhaseView::Ready, page: Some(p), holds: 1, tee: false };
    assert(s5.users.pool.slots =~= v.slots.insert(id, ready));
    assert(s5.users.guards.count(id) == 1);
    assert(s6.users.pool.slots =~= v.slots);
    assert(s6.users.pool.free =~= v.free);
    assert(s6.users.pool.wakes =~= v.wakes);
    assert(s6.users.pool.parked =~= v.parked);
    assert(s6.users.pool == v);
    assert(s6.users.leads =~= s.users.leads);
    assert(s6.users.tees =~= s.users.tees);
    assert(s6.users.guards =~= s.users.guards);
    assert(s6.users == s.users);
    assert(s.after_all(e0) == s);
    assert(s.allows_all(e0, bytes));
    assert(s.allows(lead, bytes));
    assert(s1.allows(give, bytes));
    assert(s2.allows(fill, bytes));
    assert(s3.allows(land, bytes));
    assert(hit || s4.allows(end, bytes));
    assert(lone_turn(id, p, hit, content) == if hit {
        e4
    } else {
        e4.push(end)
    });
}

proof fn lemma_lone_reader(
    s: PoolBytes,
    cfg: PoolConfig,
    backing: Backing,
    key: StripeKey,
    windows: Seq<PageWindow>,
    pages: Seq<u32>,
    hits: Seq<bool>,
    bytes: spec_fn(SlotId) -> Seq<u8>,
)
    requires
        s.users == PoolUse::start(cfg, backing).after(PoolCall::Open(key)),
        pages.len() == windows.len(),
        hits.len() == windows.len(),
        forall|i: int| 0 <= i < pages.len() ==> (#[trigger] pages[i]) < backing.page_count,
    ensures
        reads(s, key, windows, lone_turns(key, windows, pages, hits, bytes), bytes),
        read_end(s, key, windows, lone_turns(key, windows, pages, hits, bytes)).users == s.users,
    decreases windows.len(),
{
    let turns = lone_turns(key, windows, pages, hits, bytes);
    if windows.len() > 0 {
        let id = first_page(key, windows);
        lemma_lone_turn(s, cfg, backing, id, pages[0], hits[0], bytes);
        let next = s.after_all(turns[0]).after(ByteEvent::Call(PoolCall::Release(id)));
        lemma_lone_reader(
            next,
            cfg,
            backing,
            key,
            windows.skip(1),
            pages.skip(1),
            hits.skip(1),
            bytes,
        );
        assert(turns.skip(1) =~= lone_turns(
            key,
            windows.skip(1),
            pages.skip(1),
            hits.skip(1),
            bytes,
        ));
    }
}

/// A lone reader of a new pool reads its whole range: whichever pages of the
/// backing it gets and whichever pages were hits on disk, every turn can
/// happen, the joined slices are the bytes of the range, and after the
/// stream is closed the pool is as new.
pub proof fn law_lone_read_returns_the_range(
    cfg: PoolConfig,
    backing: Backing,
    memory: Map<u32, Seq<u8>>,
    v: StreamView,
    pages: Seq<u32>,
    hits: Seq<bool>,
    bytes: spec_fn(SlotId) -> Seq<u8>,
    stripe: spec_fn(int) -> u8,
)
    requires
        pool::bad_config(cfg, backing) is None,
        cfg.max_concurrent_streams >= 1,
        v.page_size == backing.page_size,
        pages.len() == v.windows().len(),
        hits.len() == v.windows().len(),
        forall|i: int| 0 <= i < pages.len() ==> (#[trigger] pages[i]) < backing.page_count,
        forall|n: u64| #[trigger]
            bytes((v.key, n)) == page_bytes(stripe, n as int, v.page_size as int),
    ensures
        ({
            let opened = PoolBytes::start(cfg, backing, memory).after(
                ByteEvent::Call(PoolCall::Open(v.key)),
            );
            let turns = lone_turns(v.key, v.windows(), pages, hits, bytes);
            let end = read_end(opened, v.key, v.windows(), turns);
            &&& reads(opened, v.key, v.windows(), turns, bytes)
            &&& joined_slices(opened, v.key, v.windows(), turns) == Seq::new(
                (if v.pos < v.end {
                    v.end - v.pos
                } else {
                    0
                }) as nat,
                |i: int| stripe(v.pos + i),
            )
            &&& end.users.allows(PoolCall::Close(v.key))
            &&& end.users.after(PoolCall::Close(v.key)) == PoolUse::start(cfg, backing)
        }),
{
    broadcast use vstd::multiset::group_multiset_axioms;

    let s = PoolBytes::start(cfg, backing, memory);
    let opened = s.after(ByteEvent::Call(PoolCall::Open(v.key)));
    let turns = lone_turns(v.key, v.windows(), pages, hits, bytes);
    let end = read_end(opened, v.key, v.windows(), turns);
    power::lemma_power_is_positive(backing.page_size as nat);
    pool_laws::law_new_pool_is_consistent(cfg, backing);
    assert(s.faithful(bytes));
    lemma_lone_reader(opened, cfg, backing, v.key, v.windows(), pages, hits, bytes);
    law_whole_read_shows_the_range(s, v, turns, bytes, stripe);
    let closed = end.users.after(PoolCall::Close(v.key));
    assert(closed.pool.streams =~= s.users.pool.streams);
    assert(closed.pool == s.users.pool);
}

/// The stream that is opened for `len` bytes from `offset` on shows exactly
/// those bytes, where their offsets fit in 64 bits.
pub proof fn law_opened_stream_shows_what_was_asked_for(
    stripe: spec_fn(int) -> u8,
    key: StripeKey,
    offset: u64,
    len: u64,
    page_size: usize,
)
    requires
        page_size > 0,
        offset + len <= 0xffff_ffff_ffff_ffff,
    ensures
        ({
            let v = pool::stream_over(key, offset, len, page_size);
            &&& v.key == key
            &&& v.pos == offset
            &&& v.end == offset + len
            &&& v.page_size == page_size
            &&& read_out(stripe, v.windows(), page_size as int) == Seq::new(
                len as nat,
                |i: int| stripe(offset + i),
            )
        }),
{
    let v = pool::stream_over(key, offset, len, page_size);
    law_stream_shows_its_range(stripe, v);
    assert(read_out(stripe, v.windows(), page_size as int) =~= Seq::new(
        len as nat,
        |i: int| stripe(offset + i),
    ));
}

/// A stream whose range would leave the 64-bit offsets ends at the last one.
pub proof fn law_opened_stream_ends_at_the_last_offset(
    key: StripeKey,
    offset: u64,
    len: u64,
    page_size: usize,
)
    requires
        offset + len > 0xffff_ffff_ffff_ffff,
    ensures
        pool::stream_over(key, offset, len, page_size).key == key,
        pool::stream_over(key, offset, len, page_size).pos == offset,
        pool::stream_over(key, offset, len, page_size).end == 0xffff_ffff_ffff_ffffu64,
        pool::stream_over(key, offset, len, page_size).page_size == page_size,
{
}

/// A lone reader that asks a new pool for `len` bytes from `offset` on gets
/// those bytes, each once and in order.
pub proof fn law_lone_read_returns_what_was_asked_for(
    cfg: PoolConfig,
    backing: Backing,
    memory: Map<u32, Seq<u8>>,
    key: StripeKey,
    offset: u64,
    len: u64,
    pages: Seq<u32>,
    hits: Seq<bool>,
    bytes: spec_fn(SlotId) -> Seq<u8>,
    stripe: spec_fn(int) -> u8,
)
    requires
        pool::bad_config(cfg, backing) is None,
        cfg.max_concurrent_streams >= 1,
        offset + len <= 0xffff_ffff_ffff_ffff,
        pages.len() == pool::stream_over(key, offset, len, backing.page_size).windows().len(),
        hits.len() == pages.len(),
        forall|i: int| 0 <= i < pages.len() ==> (#[trigger] pages[i]) < backing.page_count,
        forall|n: u64| #[trigger]
            bytes((key, n)) == page_bytes(stripe, n as int, backing.page_size as int),
    ensures
        ({
            let windows = pool::stream_over(key, offset, len, backing.page_size).windows();
            let opened = PoolBytes::start(cfg, backing, memory).after(
                ByteEvent::Call(PoolCall::Open(key)),
            );
            let turns = lone_turns(key, windows, pages, hits, bytes);
            &&& reads(opened, key, windows, turns, bytes)
            &&& joined_slices(opened, key, windows, turns) == Seq::new(
                len as nat,
                |i: int| stripe(offset + i),
            )
        }),
{
    let v = pool::stream_over(key, offset, len, backing.page_size);
    power::lemma_power_is_positive(backing.page_size as nat);
    law_opened_stream_shows_what_was_asked_for(stripe, key, offset, len, backing.page_size);
    law_lone_read_returns_the_range(cfg, backing, memory, v, pages, hits, bytes, stripe);
    let opened = PoolBytes::start(cfg, backing, memory).after(ByteEvent::Call(PoolCall::Open(key)));
    let turns = lone_turns(key, v.windows(), pages, hits, bytes);
    assert(joined_slices(opened, key, v.windows(), turns) =~= Seq::new(
        len as nat,
        |i: int| stripe(offset + i),
    ));
}

} // verus!
