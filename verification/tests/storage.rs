//! Keys, admission and the fill gate.

use std::collections::HashSet;

use unbounded_storage::storage::admission::AdmissionFilter;
use unbounded_storage::storage::singleflight::{
    Acquire, LeaseGuard, LeasePoll, LeaseWait, Singleflight,
};
use unbounded_storage::storage::types::{Checksum, DiskId, Error, Lba, LeafEntry, PageKey};

fn key(i: u32) -> PageKey {
    PageKey::new([0u8; 32], i)
}

fn entry(lba: u64) -> LeafEntry {
    LeafEntry { lba: Lba(lba), data_checksum: Checksum(0), byte_len: 0 }
}

fn lead(sf: &mut Singleflight, k: PageKey) -> LeaseGuard {
    match sf.acquire(k) {
        Acquire::Leader(g) => g,
        Acquire::Follower(_) => panic!("expected leader"),
    }
}

fn follow(sf: &mut Singleflight, k: PageKey) -> LeaseWait {
    match sf.acquire(k) {
        Acquire::Follower(f) => f,
        Acquire::Leader(_) => panic!("expected follower"),
    }
}

#[test]
fn leader_followers_get_published_value() {
    let mut sf = Singleflight::new(4);
    let leader = lead(&mut sf, key(1));
    let follower = follow(&mut sf, key(1));
    leader.publish(&mut sf, entry(42));
    match follower.poll(&mut sf, 0) {
        LeasePoll::Ready(Some(e)) => assert_eq!(e.lba.0, 42),
        _ => panic!("expected the entry"),
    }
    assert_eq!(sf.in_flight(), 0);
}

#[test]
fn leader_drop_signals_none() {
    let mut sf = Singleflight::new(4);
    let leader = lead(&mut sf, key(7));
    let follower = follow(&mut sf, key(7));
    leader.dismiss(&mut sf);
    match follower.poll(&mut sf, 0) {
        LeasePoll::Ready(None) => {}
        _ => panic!("expected a miss"),
    }
}

#[test]
fn different_keys_dont_collide() {
    let mut sf = Singleflight::new(4);
    let a = sf.acquire(key(1));
    let b = sf.acquire(key(2));
    assert!(matches!(a, Acquire::Leader(_)));
    assert!(matches!(b, Acquire::Leader(_)));
    assert_eq!(sf.in_flight(), 2);
}

#[test]
fn second_acquire_after_settle_is_leader_again() {
    let mut sf = Singleflight::new(4);
    let l1 = lead(&mut sf, key(3));
    l1.publish(&mut sf, entry(1));
    // After publish, the table entry is gone and a new acquire becomes the
    // leader.
    let l2 = sf.acquire(key(3));
    assert!(matches!(l2, Acquire::Leader(_)));
}

#[test]
fn settling_hands_out_each_waker_once() {
    let mut sf = Singleflight::new(0);
    let leader = lead(&mut sf, key(1));
    let f1 = follow(&mut sf, key(1));
    let f2 = follow(&mut sf, key(1));
    assert!(matches!(f1.poll(&mut sf, 10), LeasePoll::Pending));
    assert!(matches!(f2.poll(&mut sf, 20), LeasePoll::Pending));
    assert!(matches!(f1.poll(&mut sf, 10), LeasePoll::Pending));
    assert_eq!(leader.abandon(&mut sf), vec![10, 20]);
    assert!(matches!(f1.poll(&mut sf, 10), LeasePoll::Ready(None)));
    f1.release(&mut sf);
    // A follower that is left still hears the outcome, and keeps hearing it.
    assert!(matches!(f2.poll(&mut sf, 20), LeasePoll::Ready(None)));
    assert!(matches!(f2.poll(&mut sf, 20), LeasePoll::Ready(None)));
    f2.release(&mut sf);
    assert_eq!(sf.in_flight(), 0);
}

#[test]
fn late_follower_of_a_new_fill_does_not_hear_the_old_one() {
    let mut sf = Singleflight::new(1);
    let first = lead(&mut sf, key(1));
    let old = follow(&mut sf, key(1));
    first.publish(&mut sf, entry(5));
    let second = lead(&mut sf, key(1));
    let new = follow(&mut sf, key(1));
    assert!(matches!(new.poll(&mut sf, 1), LeasePoll::Pending));
    assert!(matches!(old.poll(&mut sf, 2), LeasePoll::Ready(Some(e)) if e == entry(5)));
    assert_eq!(second.publish(&mut sf, entry(6)), vec![1]);
    assert!(matches!(new.poll(&mut sf, 1), LeasePoll::Ready(Some(e)) if e == entry(6)));
    assert!(matches!(old.poll(&mut sf, 2), LeasePoll::Ready(Some(e)) if e == entry(5)));
}

#[test]
fn follower_that_leaves_early_does_not_disturb_the_rest() {
    let mut sf = Singleflight::new(2);
    let leader = lead(&mut sf, key(9));
    let f1 = follow(&mut sf, key(9));
    let f2 = follow(&mut sf, key(9));
    assert!(matches!(f2.poll(&mut sf, 2), LeasePoll::Pending));
    f1.release(&mut sf);
    assert_eq!(sf.in_flight(), 1);
    assert_eq!(leader.publish(&mut sf, entry(3)), vec![2]);
    assert!(matches!(f2.poll(&mut sf, 2), LeasePoll::Ready(Some(e)) if e == entry(3)));
}

#[test]
fn gate_counts_keys_over_all_shards() {
    let mut sf = Singleflight::new(3);
    let mut guards: Vec<LeaseGuard> = (0..20).map(|i| lead(&mut sf, key(i))).collect();
    assert_eq!(sf.in_flight(), 20);
    while let Some(g) = guards.pop() {
        g.abandon(&mut sf);
        assert_eq!(sf.in_flight(), guards.len());
    }
}

#[test]
fn page_key_round_trips() {
    let k = PageKey::new([7u8; 32], 0xdead_beef);
    let bytes = k.encode();
    let back = PageKey::decode(&bytes).unwrap();
    assert_eq!(k, back);
}

#[test]
fn page_key_orders_lexicographically_by_index_within_value() {
    let a = PageKey::new([1u8; 32], 1).encode();
    let b = PageKey::new([1u8; 32], 2).encode();
    let c = PageKey::new([2u8; 32], 0).encode();
    assert!(a < b);
    assert!(b < c);
}

#[test]
fn page_key_decode_rejects_wrong_length() {
    assert!(PageKey::decode(&[0u8; 35]).is_none());
    assert!(PageKey::decode(&[0u8; 37]).is_none());
}

#[test]
fn page_key_encoding_is_big_endian() {
    let mut hash = [0u8; 32];
    for (i, b) in hash.iter_mut().enumerate() {
        *b = i as u8;
    }
    let bytes = PageKey::new(hash, 0x0102_0304).encode();
    assert_eq!(bytes[..32], hash);
    assert_eq!(bytes[32..], [1, 2, 3, 4]);
    let back = PageKey::decode(&bytes).unwrap();
    assert_eq!((back.value_hash, back.page_index), (hash, 0x0102_0304));
    assert_eq!(PageKey::decode(&[0xff; 36]).unwrap().encode(), [0xff; 36]);
    assert!(PageKey::decode(&[]).is_none());
    // 256 sorts behind 255, which little-endian bytes would not give.
    assert!(PageKey::new(hash, 255).encode() < PageKey::new(hash, 256).encode());
    assert_ne!(PageKey::new(hash, 1).encode(), PageKey::new(hash, 2).encode());
}

#[test]
fn mix_matches_known_values() {
    let mut hash = [0u8; 32];
    assert_eq!(PageKey::new(hash, 0).mix(0), 0xcbf7a16bc31f675f);
    for (i, b) in hash.iter_mut().enumerate() {
        *b = i as u8;
    }
    assert_eq!(PageKey::new(hash, 0xdead_beef).mix(0), 0xe4bce77246b3a35e);
    assert_eq!(PageKey::new(hash, 0xdead_beef).mix(3), 0x93a618bd80b48b4f);
}

#[test]
fn mix_keeps_domains_and_pages_apart() {
    let k = PageKey::new([9u8; 32], 5);
    let lanes: HashSet<u64> = (0..200).map(|domain| k.mix(domain)).collect();
    assert_eq!(lanes.len(), 200);
    assert_ne!(k.mix(0), k.mix(u32::MAX));
    for domain in [0, 1, 4] {
        let pages: HashSet<u64> =
            (0..200).map(|i| PageKey::new([9u8; 32], i).mix(domain)).collect();
        assert_eq!(pages.len(), 200);
    }
}

#[test]
fn shards_do_not_change_what_callers_see() {
    let mut seen = Vec::new();
    for shards in [0, 1, 3, 64] {
        let mut sf = Singleflight::new(shards);
        let mut log = Vec::new();
        let guards: Vec<LeaseGuard> = (0..6).map(|i| lead(&mut sf, key(i))).collect();
        let waits: Vec<LeaseWait> = (0..6).map(|i| follow(&mut sf, key(i))).collect();
        log.push(sf.in_flight());
        for (i, w) in waits.iter().enumerate() {
            assert!(matches!(w.poll(&mut sf, i as u64), LeasePoll::Pending));
        }
        for (i, g) in guards.into_iter().enumerate() {
            assert_eq!(g.publish(&mut sf, entry(i as u64)), vec![i as u64]);
            log.push(sf.in_flight());
        }
        for (i, w) in waits.iter().enumerate() {
            let told = w.poll(&mut sf, 0);
            assert!(matches!(told, LeasePoll::Ready(Some(e)) if e == entry(i as u64)));
        }
        seen.push(log);
    }
    assert!(seen.iter().all(|log| *log == vec![6, 5, 4, 3, 2, 1, 0]));
}

#[test]
fn gate_has_room_for_another_holder() {
    let mut sf = Singleflight::new(2);
    assert!(sf.can_acquire(key(1)));
    let _leader = lead(&mut sf, key(1));
    assert!(sf.can_acquire(key(1)));
    assert!(sf.can_acquire(key(2)));
}

#[test]
fn lba_invalid_is_max() {
    assert!(!Lba::invalid().is_valid());
    assert!(Lba(0).is_valid());
    assert_eq!(Lba::invalid(), Lba(u64::MAX));
    assert!(Lba(u64::MAX - 1).is_valid());
}

#[test]
fn storage_values_read_well() {
    assert_eq!(Lba(0).message(), "lba:0");
    assert_eq!(Lba(u64::MAX).message(), "lba:18446744073709551615");
    assert_eq!(Error::Io(5).message(), "storage io error: errno=5");
    assert_eq!(Error::Io(0).message(), "storage io error: errno=0");
    assert_eq!(Error::Corrupt.message(), "storage corruption detected");
    assert_eq!(Error::OutOfSpace.message(), "storage allocator out of space");
    assert_eq!(Error::Cancelled.message(), "storage operation cancelled");
    assert_eq!(Error::OutOfRange.message(), "storage offset out of range");
    assert_eq!(Checksum::zero(), Checksum(0));
    assert_eq!(Checksum::default(), Checksum::zero());
    assert_ne!(DiskId(1), DiskId(2));
}

#[test]
fn first_touch_is_refused_second_admitted() {
    let mut f = AdmissionFilter::new(1000, 4);
    for i in 0..5 {
        assert!(!f.should_admit(&key(i)), "first touch of {i}");
    }
    for i in 0..5 {
        assert!(f.should_admit(&key(i)), "second touch of {i}");
        assert!(f.should_admit(&key(i)), "third touch of {i}");
    }
}

#[test]
fn refused_offer_does_not_count() {
    let mut f = AdmissionFilter::new(8, 4);
    assert!(f.can_offer(&key(1)));
    assert!(!f.should_admit(&key(1)));
    assert!(f.can_offer(&key(1)), "the sketch has counters");
    assert_eq!(f.frequency(&key(1)), 0);
    assert!(f.should_admit(&key(1)));
    assert_eq!(f.frequency(&key(1)), 1);
    f.record_frequency(&key(1));
    assert_eq!(f.frequency(&key(1)), 2);
    assert_eq!(f.frequency(&key(2)), 0);
}

#[test]
fn reset_forgets_everything() {
    let mut f = AdmissionFilter::new(8, 4);
    assert!(!f.should_admit(&key(1)));
    assert!(f.should_admit(&key(1)));
    f.reset();
    assert_eq!(f.frequency(&key(1)), 0);
    assert!(!f.should_admit(&key(1)));
    assert!(f.should_admit(&key(1)));
}

#[test]
fn sketch_ages_after_ten_admissions_per_page() {
    // One page: the sketch has one counter per row and is halved at every
    // tenth admission.
    let mut f = AdmissionFilter::new(0, 0);
    assert!(!f.should_admit(&key(1)));
    for n in 1..10u8 {
        assert!(f.should_admit(&key(1)));
        assert_eq!(f.frequency(&key(1)), n);
    }
    assert!(f.should_admit(&key(1)));
    assert_eq!(f.frequency(&key(1)), 5);
    for n in 6..15u8 {
        assert!(f.should_admit(&key(1)));
        assert_eq!(f.frequency(&key(1)), n);
    }
    assert!(f.should_admit(&key(1)));
    assert_eq!(f.frequency(&key(1)), 7);
    // The doorkeeper does not age, and the one counter is shared.
    assert_eq!(f.frequency(&key(2)), 7);
}

#[test]
fn counters_stick_at_their_maximum() {
    let mut f = AdmissionFilter::new(16, 16);
    for _ in 0..300 {
        f.record_frequency(&key(3));
    }
    assert_eq!(f.frequency(&key(3)), 255);
    f.record_frequency(&key(3));
    assert_eq!(f.frequency(&key(3)), 255);
}

#[test]
fn estimate_never_undercounts() {
    // Sixteen counters per row and forty keys: collisions only ever add.
    let mut f = AdmissionFilter::new(16, 1);
    for i in 0..40 {
        for _ in 0..=i % 3 {
            f.record_frequency(&key(i));
        }
    }
    for i in 0..40 {
        assert!(f.frequency(&key(i)) as u32 >= 1 + i % 3);
    }
}

#[test]
fn estimate_lies_between_touches_of_the_key_and_of_all() {
    // Offers and records, fewer than would age the sketch.
    let mut f = AdmissionFilter::new(16, 1);
    assert!(f.has_counters());
    let mut own = [0u32; 8];
    let mut all = 0;
    for round in 0..4 {
        for i in 0..8 {
            if f.should_admit(&key(i)) {
                own[i as usize] += 1;
                all += 1;
            }
            if i % 3 == round % 3 {
                f.record_frequency(&key(i));
                own[i as usize] += 1;
                all += 1;
            }
        }
    }
    for i in 0..8u32 {
        let estimate = f.frequency(&key(i)) as u32;
        assert!(own[i as usize] <= estimate && estimate <= all);
    }
    // Alone in the sketch, a key is counted exactly.
    let mut f = AdmissionFilter::new(16, 1);
    for _ in 0..5 {
        f.should_admit(&key(3));
    }
    f.record_frequency(&key(3));
    assert_eq!(f.frequency(&key(3)), 5);
}

#[test]
fn crowded_doorkeeper_takes_a_new_key_for_a_known_one() {
    // 64 bits: the three of key 18 are all set by the keys before it.
    let mut f = AdmissionFilter::new(8, 4);
    for i in 0..18 {
        assert!(!f.should_admit(&key(i)), "key {i}");
    }
    assert!(f.should_admit(&key(18)));
}
