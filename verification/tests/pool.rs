//! Reads through a pool, driven by hand: mock services that take a number of
//! polls to answer, and readers that are polled in turn.

use std::cell::Cell;
use std::collections::HashMap;

use unbounded_storage::bufferpool::chunks::RangeFetch;
use unbounded_storage::bufferpool::fetch::{FetchStep, PageGuard};
use unbounded_storage::bufferpool::pool::Pool;
use unbounded_storage::bufferpool::replies::PageReplies;
use unbounded_storage::bufferpool::stream::{PageWindow, ReadStream};
use unbounded_storage::bufferpool::traits::{BlockStore, BufferPool, Req};
use unbounded_storage::bufferpool::types::{
    Backing, Cause, Error, PageRange, PageRef, PageReply, PoolConfig, StripeKey,
};

#[derive(Clone, Debug)]
struct TestReq {
    key: StripeKey,
}

impl Req for TestReq {
    fn key(&self) -> StripeKey {
        self.key
    }
}

struct MockTransport {
    stripes: HashMap<StripeKey, Vec<u8>>,
    calls: u32,
    seen_ranges: Vec<PageRange>,
    pend_polls: usize,
    error_mode: bool,
}

impl MockTransport {
    fn bulk_get(
        &mut self,
        memory: &mut [u8],
        page_size: usize,
        range: PageRange,
        dst_pages: &[PageRef],
    ) -> Result<PageReplies, Error> {
        if self.error_mode {
            return Err(Error::from("forced error"));
        }
        assert_eq!(dst_pages.len(), range.len() as usize);
        self.seen_ranges.push(range);
        let bytes = self.stripes.get(&range.stripe).expect("stripe not configured");
        let mut out = PageReplies::new();
        for (i, dst) in dst_pages.iter().enumerate() {
            let start = (range.start_page as usize + i) * page_size;
            let len = dst.len as usize;
            assert!(start + len <= bytes.len(), "src out of range");
            let at = dst.page_idx as usize * page_size + dst.offset as usize;
            memory[at..at + len].copy_from_slice(&bytes[start..start + len]);
            out.push(PageReply { page_idx: dst.page_idx, byte_len: len as u32 });
        }
        self.calls += 1;
        Ok(out)
    }
}

#[derive(Default)]
struct MockBlockStore {
    cache: HashMap<(StripeKey, u64), Vec<u8>>,
    reads: u32,
    writes: u32,
    write_pend_polls: usize,
    registered: Cell<Option<(usize, usize, usize)>>,
    refuse: Cell<bool>,
}

impl BlockStore for MockBlockStore {
    fn register_pages(&self, base: usize, page_size: usize, page_count: usize) -> Result<(), Error> {
        if self.refuse.get() {
            return Err(Error::Io(12));
        }
        self.registered.set(Some((base, page_size, page_count)));
        Ok(())
    }
}

impl MockBlockStore {
    fn read_page(&mut self, memory: &mut [u8], page_size: usize, key: StripeKey, off: u64, dst: PageRef) -> Result<bool, Error> {
        self.reads += 1;
        let Some(bytes) = self.cache.get(&(key, off)) else {
            return Ok(false);
        };
        let at = dst.page_idx as usize * page_size + dst.offset as usize;
        memory[at..at + bytes.len()].copy_from_slice(bytes);
        Ok(true)
    }

    fn write_page(&mut self, memory: &[u8], page_size: usize, key: StripeKey, off: u64, page: PageRef) -> Result<(), Error> {
        self.writes += 1;
        let at = page.page_idx as usize * page_size + page.offset as usize;
        self.cache.insert((key, off), memory[at..at + page.len as usize].to_vec());
        Ok(())
    }
}

struct Sim {
    pool: Pool,
    memory: Vec<u8>,
    transport: MockTransport,
    store: MockBlockStore,
}

impl Sim {
    fn with_cfg(page_size: usize, page_count: usize, cfg: PoolConfig) -> Sim {
        let memory = vec![0u8; page_size * page_count];
        let backing = Backing { base: memory.as_ptr() as usize, page_size, page_count };
        let store = MockBlockStore::default();
        let pool = match Pool::new(cfg, backing, &store) {
            Ok(p) => p,
            Err(e) => panic!("pool refused: {e:?}"),
        };
        assert_eq!(store.registered.get(), Some((backing.base, page_size, page_count)));
        let transport = MockTransport {
            stripes: HashMap::new(),
            calls: 0,
            seen_ranges: Vec::new(),
            pend_polls: 0,
            error_mode: false,
        };
        Sim { pool, memory, transport, store }
    }

    fn new(page_size: usize, page_count: usize) -> Sim {
        Sim::with_cfg(page_size, page_count, PoolConfig::default())
    }

    fn page_size(&self) -> usize {
        self.pool.backing().page_size
    }
}

/// A stream with the fetch it waits for.
struct Reader {
    stream: ReadStream,
    step: Option<FetchStep>,
    pends: Option<usize>,
    waker: u64,
}

enum Next {
    Pending,
    End,
    Page(PageGuard),
    Failed(Error),
}

impl Reader {
    fn open(sim: &mut Sim, key: StripeKey, offset: u64, len: u64, waker: u64) -> Result<Reader, Error> {
        let req = TestReq { key };
        let stream = sim.pool.read(&req, offset, len)?;
        Ok(Reader { stream, step: None, pends: None, waker })
    }

    /// One poll of the next page.
    fn next_page(&mut self, sim: &mut Sim) -> Next {
        let page_size = sim.page_size();
        let mut step = match self.step.take() {
            Some(step) => step,
            None => match sim.pool.next_page(&self.stream, self.waker) {
                Some(step) => step,
                None => return Next::End,
            },
        };
        loop {
            step = match step {
                FetchStep::Ready(g) => return Next::Page(g),
                FetchStep::Failed(e) => return Next::Failed(e),
                FetchStep::NeedPage(t) => match t.on_wake(&mut sim.pool, self.waker) {
                    FetchStep::NeedPage(t) => {
                        self.step = Some(FetchStep::NeedPage(t));
                        return Next::Pending;
                    }
                    other => other,
                },
                FetchStep::Parked(t) => match t.on_wake(&mut sim.pool, self.waker) {
                    FetchStep::Parked(t) => {
                        self.step = Some(FetchStep::Parked(t));
                        return Next::Pending;
                    }
                    other => other,
                },
                FetchStep::ReadDisk(t) => {
                    let found = sim.store.read_page(&mut sim.memory, page_size, t.key(), t.stripe_off(), t.dst());
                    t.on_read(&mut sim.pool, found)
                }
                FetchStep::GetPeer(t) => {
                    let left = self.pends.unwrap_or(sim.transport.pend_polls);
                    if left > 0 {
                        self.pends = Some(left - 1);
                        self.step = Some(FetchStep::GetPeer(t));
                        return Next::Pending;
                    }
                    self.pends = None;
                    sim.transport.pend_polls = 0;
                    let replies = sim.transport.bulk_get(&mut sim.memory, page_size, t.range(), &[t.dst()]);
                    t.on_replies(&mut sim.pool, replies)
                }
                FetchStep::WriteTee(t) => {
                    let left = self.pends.unwrap_or(sim.store.write_pend_polls);
                    if left > 0 {
                        self.pends = Some(left - 1);
                        self.step = Some(FetchStep::WriteTee(t));
                        return Next::Pending;
                    }
                    self.pends = None;
                    sim.store.write_pend_polls = 0;
                    let outcome = sim.store.write_page(&sim.memory, page_size, t.key(), t.stripe_off(), t.dst());
                    t.on_written(&mut sim.pool, outcome)
                }
            };
        }
    }

    /// What the guard shows of its page; moves on behind it.
    fn take(&mut self, sim: &mut Sim, g: PageGuard) -> Vec<u8> {
        let window = self.stream.window().expect("a page arrived");
        let (start, len) = g.span(sim.pool.backing(), window);
        let bytes = sim.memory[start..start + len].to_vec();
        self.stream.advance();
        g.release(&mut sim.pool);
        bytes
    }

    /// Ends the reader where it stands.
    fn drop_now(self, sim: &mut Sim) {
        match self.step {
            None => {}
            Some(FetchStep::Ready(g)) => g.release(&mut sim.pool),
            Some(FetchStep::Failed(_)) => {}
            Some(FetchStep::NeedPage(t)) => t.cancel(&mut sim.pool),
            Some(FetchStep::ReadDisk(t)) => t.cancel(&mut sim.pool),
            Some(FetchStep::GetPeer(t)) => t.cancel(&mut sim.pool),
            Some(FetchStep::WriteTee(t)) => t.cancel(&mut sim.pool),
            Some(FetchStep::Parked(t)) => t.cancel(&mut sim.pool),
        }
        sim.pool.close(self.stream);
    }
}

/// Polls until the next page is there.
fn block_on_page(r: &mut Reader, sim: &mut Sim) -> Next {
    for _ in 0..1_000_000 {
        match r.next_page(sim) {
            Next::Pending => {}
            other => return other,
        }
    }
    panic!("stuck (no progress)");
}

/// Reads a whole range.
fn read_range(sim: &mut Sim, key: StripeKey, offset: u64, len: u64) -> Result<Vec<u8>, Error> {
    let mut r = Reader::open(sim, key, offset, len, 1)?;
    let mut out = Vec::new();
    loop {
        match block_on_page(&mut r, sim) {
            Next::Page(g) => out.extend(r.take(sim, g)),
            Next::End => {
                r.drop_now(sim);
                return Ok(out);
            }
            Next::Failed(e) => {
                r.drop_now(sim);
                return Err(e);
            }
            Next::Pending => unreachable!(),
        }
    }
}

fn key(b: u8) -> StripeKey {
    StripeKey([b; 32])
}

fn ramp(len: usize, first: usize) -> Vec<u8> {
    (0..len).map(|i| ((i + first) & 0xff) as u8).collect()
}

#[test]
fn disk_hit_returns_bytes_no_transport_call() {
    const P: usize = 4096;
    let mut sim = Sim::new(P, 4);
    let k = key(0xAA);
    let data = ramp(P, 0);
    sim.store.cache.insert((k, 0), data.clone());

    let mut r = Reader::open(&mut sim, k, 0, P as u64, 1).unwrap();
    let bytes = match block_on_page(&mut r, &mut sim) {
        Next::Page(g) => r.take(&mut sim, g),
        _ => panic!("expected a page"),
    };
    assert!(matches!(r.next_page(&mut sim), Next::End), "EOF");
    r.drop_now(&mut sim);
    assert_eq!(bytes, data);
    assert_eq!(sim.transport.calls, 0, "no transport call on disk hit");
    assert_eq!(sim.store.reads, 1);
    assert_eq!(sim.store.writes, 0);
    assert_eq!(sim.pool.free_pages(), 4, "all pages returned");
    assert_eq!(sim.pool.inflight_entries(), 0, "inflight cleaned up");
}

#[test]
fn disk_miss_peer_fetch_with_tee_writes_blockstore() {
    const P: usize = 4096;
    let mut sim = Sim::new(P, 4);
    let k = key(0xBB);
    let stripe = ramp(P * 2, 7);
    sim.transport.stripes.insert(k, stripe.clone());

    let bytes = read_range(&mut sim, k, 0, P as u64).unwrap();
    assert_eq!(bytes, stripe[..P]);
    assert_eq!(sim.transport.calls, 1);
    assert_eq!(sim.store.writes, 1, "tee landed");
    assert_eq!(sim.pool.free_pages(), 4);
    assert_eq!(sim.pool.inflight_entries(), 0);
}

#[test]
fn multi_page_window_with_intra_page_offsets() {
    const P: usize = 1024;
    let mut sim = Sim::new(P, 8);
    let k = key(0xCC);
    let stripe = ramp(P * 4, 0);
    sim.transport.stripes.insert(k, stripe.clone());

    let off = (P / 2) as u64;
    let len = (P + P) as u64;
    let bytes = read_range(&mut sim, k, off, len).unwrap();
    assert_eq!(bytes.len(), len as usize);
    assert_eq!(bytes, stripe[off as usize..(off + len) as usize]);
    assert_eq!(sim.transport.calls, 3);
    assert_eq!(sim.pool.free_pages(), 8);
}

#[test]
fn single_flight_coalesces_concurrent_reads() {
    const P: usize = 4096;
    let mut sim = Sim::new(P, 4);
    let k = key(0xDD);
    let stripe = ramp(P, 0);
    sim.transport.stripes.insert(k, stripe.clone());
    sim.transport.pend_polls = 2;

    let mut r1 = Reader::open(&mut sim, k, 0, P as u64, 1).unwrap();
    let mut r2 = Reader::open(&mut sim, k, 0, P as u64, 2).unwrap();
    let mut b1: Option<Vec<u8>> = None;
    let mut b2: Option<Vec<u8>> = None;
    for _ in 0..1000 {
        if b1.is_none() {
            if let Next::Page(g) = r1.next_page(&mut sim) {
                b1 = Some(r1.take(&mut sim, g));
            }
        }
        if b2.is_none() {
            if let Next::Page(g) = r2.next_page(&mut sim) {
                b2 = Some(r2.take(&mut sim, g));
            }
        }
    }
    r1.drop_now(&mut sim);
    r2.drop_now(&mut sim);
    assert_eq!(b1.unwrap(), stripe);
    assert_eq!(b2.unwrap(), stripe);
    assert_eq!(sim.transport.calls, 1, "single-flight coalesced");
    assert_eq!(sim.pool.free_pages(), 4);
    assert_eq!(sim.pool.inflight_entries(), 0);
}

#[test]
fn eof_terminates_with_none() {
    const P: usize = 4096;
    let mut sim = Sim::new(P, 4);
    let k = key(1);
    sim.store.cache.insert((k, 0), vec![9u8; P]);
    let mut r = Reader::open(&mut sim, k, 0, P as u64, 1).unwrap();
    match block_on_page(&mut r, &mut sim) {
        Next::Page(g) => assert_eq!(r.take(&mut sim, g).len(), P),
        _ => panic!("expected a page"),
    }
    assert!(matches!(r.next_page(&mut sim), Next::End));
}

#[test]
fn transport_error_propagates_and_recycles_pages() {
    const P: usize = 4096;
    let mut sim = Sim::new(P, 4);
    let k = key(2);
    sim.transport.stripes.insert(k, vec![0u8; P]);
    sim.transport.error_mode = true;
    let r = read_range(&mut sim, k, 0, P as u64);
    match r {
        Err(Error::Transport(_)) => {}
        other => panic!("expected transport error, got {other:?}"),
    }
    assert_eq!(sim.pool.free_pages(), 4, "page returned after error");
    assert_eq!(sim.pool.inflight_entries(), 0);
}

#[test]
fn dropped_leader_promotes_new_leader() {
    const P: usize = 4096;
    let mut sim = Sim::new(P, 4);
    let k = key(3);
    let stripe = ramp(P, 0);
    sim.transport.stripes.insert(k, stripe.clone());
    sim.transport.pend_polls = 2;

    let mut r1 = Reader::open(&mut sim, k, 0, P as u64, 1).unwrap();
    for _ in 0..2 {
        match r1.next_page(&mut sim) {
            Next::Pending => {}
            _ => panic!("should be pending"),
        }
    }
    r1.drop_now(&mut sim);

    sim.transport.pend_polls = 2;
    let bytes = read_range(&mut sim, k, 0, P as u64).unwrap();
    assert_eq!(bytes, stripe);
    assert_eq!(sim.pool.free_pages(), 4);
    assert_eq!(sim.pool.inflight_entries(), 0);
}

#[test]
fn free_list_parking_unblocks_on_release() {
    const P: usize = 4096;
    let mut sim = Sim::new(P, 1);
    let k1 = key(0x10);
    let k2 = key(0x20);
    sim.store.cache.insert((k1, 0), vec![1u8; P]);
    sim.store.cache.insert((k2, 0), vec![2u8; P]);

    let mut r1 = Reader::open(&mut sim, k1, 0, P as u64, 1).unwrap();
    let mut r2 = Reader::open(&mut sim, k2, 0, P as u64, 2).unwrap();
    let g1 = match r1.next_page(&mut sim) {
        Next::Page(g) => g,
        _ => panic!("expected a page"),
    };
    for _ in 0..3 {
        assert!(matches!(r2.next_page(&mut sim), Next::Pending), "no page is free");
    }
    assert!(sim.pool.take_wakes().is_empty());
    assert_eq!(r1.take(&mut sim, g1), vec![1u8; P]);
    assert_eq!(sim.pool.take_wakes(), vec![2], "the waiting reader is woken");
    r1.drop_now(&mut sim);

    let v2 = match r2.next_page(&mut sim) {
        Next::Page(g) => r2.take(&mut sim, g),
        _ => panic!("expected a page"),
    };
    r2.drop_now(&mut sim);
    assert_eq!(v2, vec![2u8; P]);
    assert_eq!(sim.pool.free_pages(), 1);
}

#[test]
fn stream_limit_enforced() {
    const P: usize = 4096;
    let cfg = PoolConfig { max_concurrent_streams: 1, ..PoolConfig::default() };
    let mut sim = Sim::with_cfg(P, 2, cfg);
    sim.store.cache.insert((key(0), 0), vec![0u8; P]);
    let req = TestReq { key: key(0) };
    let s1 = sim.pool.read(&req, 0, P as u64).unwrap_or_else(|e| panic!("{e:?}"));
    match sim.pool.read(&req, 0, P as u64) {
        Err(Error::StreamLimit) => {}
        _ => panic!("expected StreamLimit"),
    }
    sim.pool.close(s1);
    // After closing s1 a new stream is admissible.
    assert!(sim.pool.read(&req, 0, P as u64).is_ok());
}

#[test]
fn rejects_bad_backing() {
    let backing = Backing { base: 0x1000, page_size: 0, page_count: 1 };
    let r = Pool::new(PoolConfig::default(), backing, &MockBlockStore::default());
    assert!(matches!(r, Err(Error::BadConfig(_))));
}

#[test]
fn non_leader_consumes_concurrently_with_tee() {
    const P: usize = 4096;
    let mut sim = Sim::new(P, 4);
    let k = key(0xEE);
    let stripe = ramp(P, 0);
    sim.transport.stripes.insert(k, stripe.clone());
    sim.store.write_pend_polls = 8;

    let mut r1 = Reader::open(&mut sim, k, 0, P as u64, 1).unwrap();
    let mut r2 = Reader::open(&mut sim, k, 0, P as u64, 2).unwrap();
    let mut o2: Option<Vec<u8>> = None;
    let mut spins = 0u64;
    while o2.is_none() {
        assert!(matches!(r1.next_page(&mut sim), Next::Pending));
        if let Next::Page(g) = r2.next_page(&mut sim) {
            o2 = Some(r2.take(&mut sim, g));
        }
        spins += 1;
        assert!(spins < 1_000_000, "reader 2 stuck behind tee");
    }
    r2.drop_now(&mut sim);
    assert_eq!(o2.unwrap(), stripe);
    assert_eq!(sim.store.writes, 0, "tee should not have completed yet");

    let v1 = match block_on_page(&mut r1, &mut sim) {
        Next::Page(g) => r1.take(&mut sim, g),
        _ => panic!("expected a page"),
    };
    r1.drop_now(&mut sim);
    assert_eq!(v1, stripe);
    assert_eq!(sim.store.writes, 1);
    assert_eq!(sim.transport.calls, 1);
    assert_eq!(sim.pool.free_pages(), 4);
    assert_eq!(sim.pool.inflight_entries(), 0);
}

#[test]
fn page_pinned_across_tee_until_subscriber_drops() {
    const P: usize = 4096;
    let mut sim = Sim::new(P, 1);
    let k = key(0xAB);
    sim.transport.stripes.insert(k, vec![0xAAu8; P]);
    sim.store.write_pend_polls = 4;

    let mut r1 = Reader::open(&mut sim, k, 0, P as u64, 1).unwrap();
    let mut r2 = Reader::open(&mut sim, k, 0, P as u64, 2).unwrap();
    let mut o2: Option<Vec<u8>> = None;
    let mut spins = 0u64;
    while o2.is_none() {
        assert!(matches!(r1.next_page(&mut sim), Next::Pending));
        if let Next::Page(g) = r2.next_page(&mut sim) {
            o2 = Some(r2.take(&mut sim, g));
        }
        spins += 1;
        assert!(spins < 1_000_000, "reader 2 stuck");
    }
    r2.drop_now(&mut sim);
    assert_eq!(o2.unwrap(), vec![0xAAu8; P]);
    assert_eq!(sim.pool.free_pages(), 0, "page must stay pinned across tee");

    let v1 = match block_on_page(&mut r1, &mut sim) {
        Next::Page(g) => r1.take(&mut sim, g),
        _ => panic!("expected a page"),
    };
    r1.drop_now(&mut sim);
    assert_eq!(v1, vec![0xAAu8; P]);
    assert_eq!(sim.store.writes, 1);
    assert_eq!(sim.pool.free_pages(), 1);
    assert_eq!(sim.pool.inflight_entries(), 0);
}

#[test]
fn leader_drop_during_tee_releases_page() {
    const P: usize = 4096;
    let mut sim = Sim::new(P, 1);
    let k = key(0xCD);
    sim.transport.stripes.insert(k, vec![0xCDu8; P]);
    sim.store.write_pend_polls = 8;

    let mut r = Reader::open(&mut sim, k, 0, P as u64, 1).unwrap();
    for _ in 0..3 {
        assert!(matches!(r.next_page(&mut sim), Next::Pending));
    }
    r.drop_now(&mut sim);

    assert_eq!(sim.pool.free_pages(), 1, "page recycled after leader drop");
    assert_eq!(sim.pool.inflight_entries(), 0);
    assert_eq!(sim.transport.calls, 1);
    assert_eq!(sim.store.writes, 0);
}

#[test]
fn chunk_splitter_issues_one_bulk_get_per_chunk() {
    const P: usize = 256;
    let cfg = PoolConfig { max_concurrent_streams: 1024, pages_per_chunk: 4 };
    let mut sim = Sim::with_cfg(P, 16, cfg);
    let k = key(0xF0);
    let stripe = ramp(16 * P, 0);
    sim.transport.stripes.insert(k, stripe.clone());

    let dst: Vec<PageRef> =
        (0..10u32).map(|pi| PageRef { page_idx: pi, offset: 0, len: P as u32 }).collect();
    let range = PageRange { stripe: k, start_page: 2, end_page: 12 };
    let mut fetch = RangeFetch::new(range, dst.len(), cfg.pages_per_chunk);
    while let Some(call) = fetch.next_call() {
        let slice = &dst[call.slice_start..call.slice_end];
        let replies = sim.transport.bulk_get(&mut sim.memory, P, call.range, slice);
        fetch.on_replies(replies).unwrap_or_else(|e| panic!("{e:?}"));
    }

    let seen = &sim.transport.seen_ranges;
    assert_eq!(seen.len(), 3, "expected 3 chunks, got {:?}", seen);
    assert_eq!(seen[0], PageRange { stripe: k, start_page: 2, end_page: 4 });
    assert_eq!(seen[1], PageRange { stripe: k, start_page: 4, end_page: 8 });
    assert_eq!(seen[2], PageRange { stripe: k, start_page: 8, end_page: 12 });
    assert_eq!(sim.transport.calls, 3);
    assert_eq!(sim.memory[..10 * P], stripe[2 * P..12 * P], "page i of the range in page i");
}

#[test]
fn pool_refuses_each_unsound_configuration() {
    let good = Backing { base: 0x1000, page_size: 4096, page_count: 1 };
    let cfg = PoolConfig::default();
    let refusal = |cfg: PoolConfig, backing: Backing| {
        let store = MockBlockStore::default();
        match Pool::new(cfg, backing, &store) {
            Err(Error::BadConfig(reason)) => {
                assert_eq!(store.registered.get(), None, "nothing is registered");
                reason
            }
            _ => panic!("expected BadConfig"),
        }
    };
    for size in [0, 3, 4095, 4097, 6144] {
        let backing = Backing { page_size: size, ..good };
        assert_eq!(refusal(cfg, backing), "page_size must be a power of two");
    }
    assert_eq!(refusal(cfg, Backing { page_count: 0, ..good }), "page_count must be > 0");
    let many = Backing { page_count: 1 << 32, ..good };
    assert_eq!(refusal(cfg, many), "page_count exceeds u32 (see design)");
    assert_eq!(refusal(cfg, Backing { base: 0, ..good }), "backing.base is null");
    let none = PoolConfig { pages_per_chunk: 0, ..cfg };
    assert_eq!(refusal(none, good), "pages_per_chunk must be non-zero");
    // The first reason counts.
    let all = Backing { base: 0, page_size: 0, page_count: 0 };
    assert_eq!(refusal(none, all), "page_size must be a power of two");
}

#[test]
fn pool_accepts_powers_of_two() {
    for size in [1usize, 2, 64, 1 << 31] {
        let backing = Backing { base: 1, page_size: size, page_count: 3 };
        let pool = match Pool::new(PoolConfig::default(), backing, &MockBlockStore::default()) {
            Ok(p) => p,
            Err(e) => panic!("{e:?}"),
        };
        assert_eq!(pool.free_pages(), 3);
        assert_eq!(pool.inflight_entries(), 0);
        assert_eq!(pool.backing(), backing);
        assert_eq!(pool.config(), PoolConfig::default());
    }
}

#[test]
fn failed_registration_fails_the_pool() {
    let store = MockBlockStore::default();
    store.refuse.set(true);
    let backing = Backing { base: 1, page_size: 64, page_count: 1 };
    let r = Pool::new(PoolConfig::default(), backing, &store);
    assert!(matches!(r, Err(Error::Io(12))));
    assert!(matches!(
        Pool::registered(PoolConfig::default(), backing, Err(Error::BackingFull)),
        Err(Error::BackingFull)
    ));
    assert!(Pool::registered(PoolConfig::default(), backing, Ok(())).is_ok());
}

#[test]
fn shared_store_registers_through_its_handle() {
    let store = std::sync::Arc::new(MockBlockStore::default());
    let backing = Backing { base: 7, page_size: 64, page_count: 2 };
    assert!(Pool::new(PoolConfig::default(), backing, &store).is_ok());
    assert_eq!(store.registered.get(), Some((7, 64, 2)));
}

#[test]
fn short_reply_is_a_failure() {
    let mut sim = Sim::new(64, 1);
    let k = key(5);
    let stream = sim.pool.open(k, 0, 64).unwrap_or_else(|e| panic!("{e:?}"));
    let t = match sim.pool.fetch_page(k, 0, 1) {
        FetchStep::ReadDisk(t) => t,
        _ => panic!("expected a lookup"),
    };
    assert_eq!((t.key(), t.stripe_off()), (k, 0));
    assert_eq!(t.dst(), PageRef { page_idx: t.dst().page_idx, offset: 0, len: 64 });
    assert!(t.can_miss());
    let t = match t.on_read(&mut sim.pool, Ok(false)) {
        FetchStep::GetPeer(t) => t,
        _ => panic!("expected a bulk get"),
    };
    assert_eq!(t.range(), PageRange { stripe: k, start_page: 0, end_page: 1 });
    match t.on_replies(&mut sim.pool, Ok(PageReplies::new())) {
        FetchStep::Failed(Error::Io(0)) => {}
        _ => panic!("expected an I/O failure"),
    }
    assert_eq!(sim.pool.free_pages(), 1);
    sim.pool.close(stream);
    assert_eq!(sim.pool.inflight_entries(), 0);
}

#[test]
fn disk_failure_reaches_every_reader() {
    let mut sim = Sim::new(64, 2);
    let k = key(6);
    let t = match sim.pool.fetch_page(k, 3, 1) {
        FetchStep::ReadDisk(t) => t,
        _ => panic!("expected a lookup"),
    };
    assert_eq!(t.stripe_off(), 192);
    let w = match sim.pool.fetch_page(k, 3, 2) {
        FetchStep::Parked(w) => w,
        _ => panic!("expected to wait"),
    };
    assert_eq!(sim.pool.consumer_holds(k, 3), 2);
    match t.on_read(&mut sim.pool, Err(Error::Io(5))) {
        FetchStep::Failed(Error::Io(5)) => {}
        _ => panic!("expected the failure"),
    }
    assert_eq!(sim.pool.take_wakes(), vec![2]);
    assert_eq!(sim.pool.free_pages(), 1, "the waiting reader still pins the page");
    // Whoever comes before the last reader left meets the failure too.
    assert!(matches!(sim.pool.fetch_page(k, 3, 3), FetchStep::Failed(Error::Io(5))));
    match w.on_wake(&mut sim.pool, 2) {
        FetchStep::Failed(Error::Io(5)) => {}
        _ => panic!("expected the failure"),
    }
    assert_eq!(sim.pool.free_pages(), 2);
    assert_eq!(sim.pool.inflight_entries(), 0);
    // After that the page is fetched anew.
    assert!(matches!(sim.pool.fetch_page(k, 3, 4), FetchStep::ReadDisk(_)));
}

#[test]
fn waiting_reader_takes_over_from_a_leader_that_gave_up() {
    let mut sim = Sim::new(64, 1);
    let k = key(7);
    let t = match sim.pool.fetch_page(k, 0, 1) {
        FetchStep::ReadDisk(t) => t,
        _ => panic!("expected a lookup"),
    };
    let page = t.dst().page_idx;
    let w = match sim.pool.fetch_page(k, 0, 2) {
        FetchStep::Parked(w) => w,
        _ => panic!("expected to wait"),
    };
    // Nothing has happened yet: the reader keeps waiting.
    let w = match w.on_wake(&mut sim.pool, 2) {
        FetchStep::Parked(w) => w,
        _ => panic!("expected to wait"),
    };
    t.cancel(&mut sim.pool);
    assert_eq!(sim.pool.take_wakes(), vec![2]);
    assert_eq!(sim.pool.free_pages(), 0, "the page stays for the next leader");
    let t = match w.on_wake(&mut sim.pool, 2) {
        FetchStep::ReadDisk(t) => t,
        _ => panic!("expected to lead"),
    };
    assert_eq!(t.dst().page_idx, page);
    assert_eq!(sim.pool.consumer_holds(k, 0), 1);
    let g = match t.on_read(&mut sim.pool, Ok(true)) {
        FetchStep::Ready(g) => g,
        _ => panic!("expected the page"),
    };
    assert_eq!((g.page_no(), g.page_idx()), (0, page));
    g.release(&mut sim.pool);
    assert_eq!(sim.pool.free_pages(), 1);
    assert_eq!(sim.pool.inflight_entries(), 0);
}

#[test]
fn reader_that_waits_for_a_second_leader_is_woken() {
    let mut sim = Sim::new(64, 1);
    let k = key(12);
    let leader = match sim.pool.fetch_page(k, 0, 1) {
        FetchStep::ReadDisk(t) => t,
        _ => panic!("expected a lookup"),
    };
    let park = |sim: &mut Sim, waker: u64| match sim.pool.fetch_page(k, 0, waker) {
        FetchStep::Parked(w) => w,
        _ => panic!("expected to wait"),
    };
    let w2 = park(&mut sim, 2);
    let w3 = park(&mut sim, 3);
    leader.cancel(&mut sim.pool);
    assert_eq!(sim.pool.take_wakes(), vec![2, 3]);
    // The first takes the lead, the second finds it at work, twice.
    let t = match w2.on_wake(&mut sim.pool, 2) {
        FetchStep::ReadDisk(t) => t,
        _ => panic!("expected to lead"),
    };
    let mut w3 = w3;
    for _ in 0..2 {
        w3 = match w3.on_wake(&mut sim.pool, 3) {
            FetchStep::Parked(w) => w,
            _ => panic!("expected to wait"),
        };
    }
    let g2 = match t.on_read(&mut sim.pool, Ok(true)) {
        FetchStep::Ready(g) => g,
        _ => panic!("expected the page"),
    };
    assert_eq!(sim.pool.take_wakes(), vec![3], "woken once by the second leader");
    let g3 = match w3.on_wake(&mut sim.pool, 3) {
        FetchStep::Ready(g) => g,
        _ => panic!("expected the page"),
    };
    g2.release(&mut sim.pool);
    g3.release(&mut sim.pool);
    assert_eq!(sim.pool.free_pages(), 1);
    assert_eq!(sim.pool.inflight_entries(), 0);
}

#[test]
fn whole_read_returns_the_range_and_leaves_the_pool_as_new() {
    const P: usize = 64;
    let mut sim = Sim::new(P, 3);
    let k = key(13);
    let stripe = ramp(P * 6, 11);
    sim.transport.stripes.insert(k, stripe.clone());
    // Some pages are hits on disk, the others come from the peer.
    for n in [1usize, 4] {
        sim.store.cache.insert((k, (n * P) as u64), stripe[n * P..(n + 1) * P].to_vec());
    }
    let bytes = read_range(&mut sim, k, 30, 290).unwrap();
    assert_eq!(bytes, stripe[30..320]);
    assert_eq!(sim.transport.calls, 3);
    assert_eq!(sim.pool.free_pages(), 3);
    assert_eq!(sim.pool.inflight_entries(), 0);
    // A page whose leader gave up drains too, once it is fetched again.
    let t = match sim.pool.fetch_page(k, 5, 1) {
        FetchStep::ReadDisk(t) => t,
        _ => panic!("expected a lookup"),
    };
    t.cancel(&mut sim.pool);
    assert_eq!(sim.pool.free_pages(), 2);
    assert_eq!(read_range(&mut sim, k, 320, 64).unwrap(), stripe[320..384]);
    assert_eq!(sim.pool.free_pages(), 3);
    assert_eq!(sim.pool.inflight_entries(), 0);
}

#[test]
fn page_beyond_the_last_offset_is_out_of_range() {
    let mut sim = Sim::new(64, 1);
    let k = key(8);
    let first_beyond = 1u64 << 58;
    assert!(matches!(
        sim.pool.fetch_page(k, first_beyond, 1),
        FetchStep::Failed(Error::OffsetOutOfRange)
    ));
    match sim.pool.fetch_page(k, first_beyond, 1) {
        FetchStep::Failed(Error::OffsetOutOfRange) => {}
        _ => panic!("still out of range"),
    }
    assert_eq!(sim.pool.free_pages(), 0, "the idle slot keeps its page");
    assert_eq!(sim.pool.consumer_holds(k, first_beyond), 0);
}

#[test]
fn page_number_beyond_a_range_is_out_of_range_on_a_miss() {
    let mut sim = Sim::new(64, 1);
    let k = key(9);
    let page_no = 1u64 << 32;
    let t = match sim.pool.fetch_page(k, page_no, 1) {
        FetchStep::ReadDisk(t) => t,
        _ => panic!("expected a lookup"),
    };
    assert_eq!(t.stripe_off(), page_no * 64);
    assert!(t.can_miss());
    match t.on_read(&mut sim.pool, Ok(false)) {
        FetchStep::Failed(Error::OffsetOutOfRange) => {}
        _ => panic!("expected out of range"),
    }
    assert_eq!(sim.pool.free_pages(), 1);
    // The last page that a range can hold is asked for like any other.
    let t = match sim.pool.fetch_page(k, u32::MAX as u64 - 1, 1) {
        FetchStep::ReadDisk(t) => t,
        _ => panic!("expected a lookup"),
    };
    assert!(t.can_miss());
    match t.on_read(&mut sim.pool, Ok(false)) {
        FetchStep::GetPeer(t) => {
            let range = PageRange { stripe: k, start_page: u32::MAX - 1, end_page: u32::MAX };
            assert_eq!(t.range(), range);
            match t.on_replies(&mut sim.pool, Err(Error::Io(2))) {
                FetchStep::Failed(Error::Io(2)) => {}
                _ => panic!("expected the failure"),
            }
        }
        _ => panic!("expected a bulk get"),
    }
    assert_eq!(sim.pool.free_pages(), 1);
    // The page behind it has a number, but its range has no end.
    let last = u32::MAX as u64;
    let t = match sim.pool.fetch_page(k, last, 1) {
        FetchStep::ReadDisk(t) => t,
        _ => panic!("expected a lookup"),
    };
    assert!(!t.can_miss());
    let g = match t.on_read(&mut sim.pool, Ok(true)) {
        FetchStep::Ready(g) => g,
        _ => panic!("a hit needs no peer"),
    };
    g.release(&mut sim.pool);
}

#[test]
fn write_failure_does_not_fail_the_read() {
    let mut sim = Sim::new(64, 1);
    let k = key(10);
    let t = match sim.pool.fetch_page(k, 0, 1) {
        FetchStep::ReadDisk(t) => t,
        _ => panic!("expected a lookup"),
    };
    let dst = t.dst();
    let t = match t.on_read(&mut sim.pool, Ok(false)) {
        FetchStep::GetPeer(t) => t,
        _ => panic!("expected a bulk get"),
    };
    assert_eq!(t.dst(), dst);
    let mut replies = PageReplies::new();
    replies.push(PageReply { page_idx: dst.page_idx, byte_len: 64 });
    let t = match t.on_replies(&mut sim.pool, Ok(replies)) {
        FetchStep::WriteTee(t) => t,
        _ => panic!("expected a write"),
    };
    assert_eq!((t.key(), t.stripe_off(), t.dst()), (k, 0, dst));
    let g = match t.on_written(&mut sim.pool, Err(Error::Io(28))) {
        FetchStep::Ready(g) => g,
        _ => panic!("expected the page"),
    };
    assert_eq!(g.page_idx(), dst.page_idx);
    g.release(&mut sim.pool);
    assert_eq!(sim.pool.free_pages(), 1);
}

#[test]
fn two_guards_pin_a_page_until_both_are_back() {
    let mut sim = Sim::new(64, 1);
    let k = key(11);
    let t = match sim.pool.fetch_page(k, 0, 1) {
        FetchStep::ReadDisk(t) => t,
        _ => panic!("expected a lookup"),
    };
    let g1 = match t.on_read(&mut sim.pool, Ok(true)) {
        FetchStep::Ready(g) => g,
        _ => panic!("expected the page"),
    };
    let g2 = match sim.pool.fetch_page(k, 0, 2) {
        FetchStep::Ready(g) => g,
        _ => panic!("expected the page"),
    };
    assert_eq!(g1.page_idx(), g2.page_idx());
    assert_eq!(sim.pool.consumer_holds(k, 0), 2);
    g1.release(&mut sim.pool);
    assert_eq!(sim.pool.free_pages(), 0);
    assert_eq!(sim.pool.inflight_entries(), 1);
    g2.release(&mut sim.pool);
    assert_eq!(sim.pool.free_pages(), 1);
    assert_eq!(sim.pool.inflight_entries(), 0);
}

#[test]
fn every_waiting_leader_is_woken_by_a_free_page() {
    let mut sim = Sim::new(64, 1);
    let t = match sim.pool.fetch_page(key(1), 0, 1) {
        FetchStep::ReadDisk(t) => t,
        _ => panic!("expected a lookup"),
    };
    let w2 = match sim.pool.fetch_page(key(2), 0, 2) {
        FetchStep::NeedPage(w) => w,
        _ => panic!("expected to wait for a page"),
    };
    let w3 = match sim.pool.fetch_page(key(3), 0, 3) {
        FetchStep::NeedPage(w) => w,
        _ => panic!("expected to wait for a page"),
    };
    let w2 = match w2.on_wake(&mut sim.pool, 2) {
        FetchStep::NeedPage(w) => w,
        _ => panic!("expected to wait for a page"),
    };
    assert_eq!(sim.pool.inflight_entries(), 3);
    match t.on_read(&mut sim.pool, Err(Error::Io(1))) {
        FetchStep::Failed(Error::Io(1)) => {}
        _ => panic!("expected the failure"),
    }
    assert_eq!(sim.pool.take_wakes(), vec![2, 3]);
    assert!(sim.pool.take_wakes().is_empty(), "each once");
    w3.cancel(&mut sim.pool);
    match w2.on_wake(&mut sim.pool, 2) {
        FetchStep::ReadDisk(t) => assert_eq!(t.key(), key(2)),
        _ => panic!("expected a lookup"),
    }
    assert_eq!(sim.pool.free_pages(), 0);
}

#[test]
fn windows_tile_a_range() {
    let mut sim = Sim::new(256, 1);
    let mut s = sim.pool.open(key(0), 100, 500).unwrap_or_else(|e| panic!("{e:?}"));
    assert_eq!(s.key(), key(0));
    assert_eq!(s.window(), Some(PageWindow { page_no: 0, offset: 100, len: 156 }));
    s.advance();
    assert_eq!(s.window(), Some(PageWindow { page_no: 1, offset: 0, len: 256 }));
    s.advance();
    assert_eq!(s.window(), Some(PageWindow { page_no: 2, offset: 0, len: 88 }));
    s.advance();
    assert_eq!(s.window(), None);
    s.advance();
    assert_eq!(s.window(), None);
    // A window within one page, nothing at all, and a range that would end
    // beyond the last offset.
    let s = sim.pool.open(key(0), 300, 10).unwrap_or_else(|e| panic!("{e:?}"));
    assert_eq!(s.window(), Some(PageWindow { page_no: 1, offset: 44, len: 10 }));
    let s = sim.pool.open(key(0), 300, 0).unwrap_or_else(|e| panic!("{e:?}"));
    assert_eq!(s.window(), None);
    let s = sim.pool.open(key(0), u64::MAX - 5, 100).unwrap_or_else(|e| panic!("{e:?}"));
    assert_eq!(s.window(), Some(PageWindow { page_no: u64::MAX >> 8, offset: 250, len: 5 }));
}

#[test]
fn guard_tells_where_its_bytes_lie() {
    let mut sim = Sim::new(64, 3);
    let mut guards = Vec::new();
    for n in 0..3u64 {
        match sim.pool.fetch_page(key(1), n, 1) {
            FetchStep::ReadDisk(t) => match t.on_read(&mut sim.pool, Ok(true)) {
                FetchStep::Ready(g) => guards.push(g),
                _ => panic!("expected the page"),
            },
            _ => panic!("expected a lookup"),
        }
    }
    let backing = sim.pool.backing();
    let whole = PageWindow { page_no: 0, offset: 0, len: 64 };
    let mut starts: Vec<usize> = guards.iter().map(|g| g.span(backing, whole).0).collect();
    starts.sort();
    assert_eq!(starts, vec![0, 64, 128], "no two guards share a page");
    let part = PageWindow { page_no: 0, offset: 10, len: 20 };
    let g = &guards[0];
    assert_eq!(g.span(backing, part), (g.page_idx() as usize * 64 + 10, 20));
}

#[test]
fn errors_compare_by_cause() {
    match Error::from("forced error") {
        Error::Transport(Cause::Str(s)) => assert_eq!(s, "forced error"),
        other => panic!("got {other:?}"),
    }
}
