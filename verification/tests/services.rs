//! Placeholder services, the chunk splitter and the pool's value types.

use unbounded_storage::bufferpool::chunks::{split_into_chunks, RangeFetch};
use unbounded_storage::bufferpool::null::{NullBlockStore, NullTransport};
use unbounded_storage::bufferpool::replies::PageReplies;
use unbounded_storage::bufferpool::traits::{BlockStore, Req};
use unbounded_storage::bufferpool::types::{
    Cause, Error, NodeId, PageRange, PageRef, PageReply, PeerId, PoolConfig, StripeKey,
    INLINE_PAGES,
};
use unbounded_storage::mercury::transport::MercuryTransport;
use unbounded_storage::power::is_power_of_two;

struct K;

impl Req for K {
    fn key(&self) -> StripeKey {
        StripeKey([0; 32])
    }
}

fn stripe() -> StripeKey {
    StripeKey([7u8; 32])
}

#[test]
fn read_always_misses_write_is_noop() {
    let s = NullBlockStore::new();
    let key = StripeKey([0; 32]);
    let dst = PageRef { page_idx: 0, offset: 0, len: 0 };
    assert!(matches!(s.read_page(key, 0, dst), Ok(false)));
    assert!(s.write_page(key, 0, dst).is_ok());
}

#[test]
fn register_pages_accepts_anything() {
    let s = NullBlockStore::new();
    assert!(s.register_pages(0, 4096, 0).is_ok());
    assert!(NullBlockStore::default().register_pages(1, 3, usize::MAX).is_ok());
}

#[test]
fn transport_bulk_get_returns_one_reply_per_page() {
    let t = NullTransport::new(4096);
    let range = PageRange { stripe: StripeKey([1; 32]), start_page: 10, end_page: 13 };
    let dst = vec![
        PageRef { page_idx: 100, offset: 0, len: 4096 },
        PageRef { page_idx: 101, offset: 0, len: 4096 },
        PageRef { page_idx: 102, offset: 0, len: 4096 },
    ];
    let replies = match t.bulk_get(&K, range, &dst) {
        Ok(r) => r,
        Err(e) => panic!("{e:?}"),
    };
    assert_eq!(replies.len(), 3);
    let first = replies.get(0).unwrap();
    assert_eq!(first.page_idx, 100);
    assert_eq!(first.byte_len, 4096);
    assert_eq!(replies.get(2), Some(PageReply { page_idx: 102, byte_len: 4096 }));
    assert_eq!(replies.get(3), None);
}

#[test]
fn transport_probe_reports_presence() {
    let t = NullTransport::new(4096);
    let range = PageRange { stripe: StripeKey([1; 32]), start_page: 0, end_page: 1 };
    assert!(matches!(t.probe(&K, range, PeerId(0)), Ok(true)));
}

#[test]
fn splitter_single_chunk_when_aligned_and_small() {
    let r = PageRange { stripe: stripe(), start_page: 0, end_page: 5 };
    let chunks = split_into_chunks(r, 512);
    assert_eq!(chunks.len(), 1);
    assert_eq!(chunks[0], r);
}

#[test]
fn splitter_spans_two_chunks_across_boundary() {
    let r = PageRange { stripe: stripe(), start_page: 500, end_page: 530 };
    let chunks = split_into_chunks(r, 512);
    assert_eq!(chunks.len(), 2);
    assert_eq!(chunks[0].start_page, 500);
    assert_eq!(chunks[0].end_page, 512);
    assert_eq!(chunks[1].start_page, 512);
    assert_eq!(chunks[1].end_page, 530);
}

#[test]
fn splitter_spans_three_chunks() {
    let r = PageRange { stripe: stripe(), start_page: 500, end_page: 1100 };
    let chunks = split_into_chunks(r, 512);
    assert_eq!(chunks.len(), 3);
    assert_eq!((chunks[0].start_page, chunks[0].end_page), (500, 512));
    assert_eq!((chunks[1].start_page, chunks[1].end_page), (512, 1024));
    assert_eq!((chunks[2].start_page, chunks[2].end_page), (1024, 1100));
}

#[test]
fn splitter_empty_range_yields_nothing() {
    let r = PageRange { stripe: stripe(), start_page: 10, end_page: 10 };
    assert!(split_into_chunks(r, 4).is_empty());
}

#[test]
fn chunks_tile_and_stay_aligned() {
    let r = PageRange { stripe: stripe(), start_page: 5, end_page: 23 };
    let chunks = split_into_chunks(r, 7);
    let bounds: Vec<(u32, u32)> = chunks.iter().map(|c| (c.start_page, c.end_page)).collect();
    assert_eq!(bounds, vec![(5, 7), (7, 14), (14, 21), (21, 23)]);
    assert!(chunks.iter().all(|c| c.stripe == stripe() && c.len() <= 7));
    let one = PageRange { stripe: stripe(), start_page: 9, end_page: 10 };
    assert_eq!(split_into_chunks(one, 1), vec![one]);
}

#[test]
fn splitter_reaches_the_last_page_number() {
    // The block behind the last page ends beyond the page numbers.
    let r = PageRange { stripe: stripe(), start_page: 4294967290, end_page: 4294967295 };
    assert_eq!(split_into_chunks(r, 512), vec![r]);
    assert_eq!(split_into_chunks(r, u32::MAX), vec![r]);
    let r = PageRange { stripe: stripe(), start_page: 4294966695, end_page: 4294967295 };
    let bounds: Vec<(u32, u32)> =
        split_into_chunks(r, 512).iter().map(|c| (c.start_page, c.end_page)).collect();
    assert_eq!(bounds, vec![(4294966695, 4294966784), (4294966784, 4294967295)]);
    let mut fetch = RangeFetch::new(r, 600, 512);
    let call = fetch.next_call().unwrap();
    assert_eq!((call.slice_start, call.slice_end), (0, 89));
    assert!(matches!(fetch.on_replies(Ok(PageReplies::new())), Err(Error::Io(0))));
}

#[test]
fn chunk_lengths_add_up() {
    for (start_page, end_page, size) in [(0, 0, 3), (2, 12, 4), (500, 1100, 512), (7, 8, 1)] {
        let r = PageRange { stripe: stripe(), start_page, end_page };
        let total: u32 = split_into_chunks(r, size).iter().map(|c| c.len()).sum();
        assert_eq!(total, end_page - start_page);
    }
}

#[test]
fn range_fetch_walks_its_chunks() {
    let range = PageRange { stripe: stripe(), start_page: 3, end_page: 9 };
    let mut fetch = RangeFetch::new(range, 6, 4);
    let filled = |n: u32| {
        let mut list = PageReplies::new();
        for i in 0..n {
            list.push(PageReply { page_idx: i, byte_len: 1 });
        }
        list
    };
    let call = fetch.next_call().unwrap();
    assert_eq!((call.range.start_page, call.range.end_page), (3, 4));
    assert_eq!((call.slice_start, call.slice_end), (0, 1));
    assert!(fetch.on_replies(Ok(filled(1))).is_ok());
    let call = fetch.next_call().unwrap();
    assert_eq!((call.range.start_page, call.range.end_page), (4, 8));
    assert_eq!((call.slice_start, call.slice_end), (1, 5));
    // A partial reply fails and does not move on; neither does a failure.
    assert!(matches!(fetch.on_replies(Ok(filled(3))), Err(Error::Io(0))));
    assert!(matches!(fetch.on_replies(Err(Error::BackingFull)), Err(Error::BackingFull)));
    assert_eq!(fetch.next_call(), Some(call));
    assert!(fetch.on_replies(Ok(filled(5))).is_ok());
    let call = fetch.next_call().unwrap();
    assert_eq!((call.range.start_page, call.range.end_page), (8, 9));
    assert_eq!((call.slice_start, call.slice_end), (5, 6));
    assert!(fetch.on_replies(Ok(filled(1))).is_ok());
    assert_eq!(fetch.next_call(), None);
}

#[test]
fn reply_list_grows_beyond_its_inline_part() {
    let mut list = PageReplies::new();
    assert_eq!(list.len(), 0);
    for i in 0..3 * INLINE_PAGES as u32 {
        list.push(PageReply { page_idx: i, byte_len: 2 * i });
    }
    assert_eq!(list.len(), 3 * INLINE_PAGES);
    assert_eq!(list.get(40), Some(PageReply { page_idx: 40, byte_len: 80 }));
    assert_eq!(list.get(48), None);
}

#[test]
fn page_range_len_and_emptiness() {
    let range = |start_page: u32, end_page: u32| PageRange { stripe: stripe(), start_page, end_page };
    assert_eq!(range(3, 10).len(), 7);
    assert_eq!(range(3, 3).len(), 0);
    assert!(range(3, 3).is_empty());
    assert!(range(4, 3).is_empty());
    assert!(!range(3, 4).is_empty());
    assert_eq!(range(3, 4), range(3, 4));
    assert_ne!(range(3, 4), range(3, 5));
    assert_ne!(range(3, 4), PageRange { stripe: StripeKey([8; 32]), ..range(3, 4) });
    assert_ne!(PeerId(1), PeerId(2));
    assert_eq!(NodeId(4), NodeId(4));
}

#[test]
fn pool_config_rejects_empty_chunks() {
    assert!(matches!(
        PoolConfig::new(8, 0),
        Err(Error::BadConfig("pages_per_chunk must be non-zero"))
    ));
    let cfg = match PoolConfig::new(8, 4) {
        Ok(c) => c,
        Err(e) => panic!("{e:?}"),
    };
    assert_eq!(cfg, PoolConfig { max_concurrent_streams: 8, pages_per_chunk: 4 });
    let cfg = PoolConfig::default();
    assert_eq!((cfg.max_concurrent_streams, cfg.pages_per_chunk), (1024, 512));
}

#[test]
fn pool_errors_read_well() {
    assert_eq!(Error::BadConfig("x").message(), "bad config: x");
    assert_eq!(Error::Io(-5).message(), "io error: errno=-5");
    assert_eq!(Error::Io(i32::MIN).message(), "io error: errno=-2147483648");
    assert_eq!(Error::BackingFull.message(), "backing full");
    assert_eq!(Error::PageOutOfRange.message(), "page index out of range");
    assert_eq!(Error::OffsetOutOfRange.message(), "read offset out of range");
    assert_eq!(Error::StreamLimit.message(), "max_concurrent_streams reached");
    assert_eq!(Error::from("down").message(), "transport error: down");
    assert_eq!(Error::transport(17u32).message(), "transport error: 17");
    assert_eq!(Error::blockstore("full").message(), "block store error: full");
    match Error::transport("gone").clone() {
        Error::Transport(Cause::Text(s)) => assert_eq!(s, "gone"),
        other => panic!("got {other:?}"),
    }
}

#[test]
fn powers_of_two() {
    let powers: Vec<usize> = (0..70).filter(|n| is_power_of_two(*n)).collect();
    assert_eq!(powers, vec![1, 2, 4, 8, 16, 32, 64]);
    assert!(is_power_of_two(1 << (usize::BITS - 1)));
    assert!(!is_power_of_two(usize::MAX));
}

#[test]
fn mercury_transport_keeps_its_page_size() {
    let t = MercuryTransport::new("class", "router", 4096);
    assert_eq!(t.page_size(), 4096);
}
