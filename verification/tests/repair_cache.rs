use std::sync::Arc;

use bytes::Bytes;
use irohsion::protocol::RepairRequest;
use irohsion::repair_cache::{CachedFragment, RepairCache};

const SECOND: u64 = 1_000_000_000;
const MILLISECOND: u64 = 1_000_000;

fn fragment(bytes: &'static [u8]) -> CachedFragment {
    CachedFragment {
        packet: Arc::new(Bytes::from_static(bytes)),
        payload_len: bytes.len() as u64,
    }
}

fn request(sequence: u64, missing_mask: u8) -> RepairRequest {
    RepairRequest {
        sequence,
        missing_mask,
    }
}

#[test]
fn repair_cache_returns_requested_split_fragments() {
    let mut cache = RepairCache::new(SECOND, 8);
    cache.insert(
        7,
        vec![
            CachedFragment {
                packet: Arc::new(Bytes::from_static(b"first")),
                payload_len: 5,
            },
            CachedFragment {
                packet: Arc::new(Bytes::from_static(b"second")),
                payload_len: 6,
            },
        ],
        0,
    );

    let fragments = cache.fragments_for(
        RepairRequest {
            sequence: 7,
            missing_mask: 0b0000_0010,
        },
        0,
    );

    assert_eq!(fragments.len(), 1);
    assert_eq!(&fragments[0].packet[..], b"second");
    assert_eq!(fragments[0].payload_len, 6);
}

#[test]
fn repair_cache_uses_full_packet_for_any_fragment_request() {
    let mut cache = RepairCache::new(SECOND, 8);
    cache.insert(
        9,
        vec![CachedFragment {
            packet: Arc::new(Bytes::from_static(b"full")),
            payload_len: 4,
        }],
        0,
    );

    let fragments = cache.fragments_for(
        RepairRequest {
            sequence: 9,
            missing_mask: 0b0000_0100,
        },
        0,
    );

    assert_eq!(fragments.len(), 1);
    assert_eq!(&fragments[0].packet[..], b"full");
}

#[test]
fn packets_are_forgotten_after_their_time() {
    let mut cache = RepairCache::new(SECOND, 8);
    cache.insert(1, vec![fragment(b"one")], 0);
    assert_eq!(cache.fragments_for(request(1, 1), SECOND - 1).len(), 1);
    assert_eq!(cache.fragments_for(request(1, 2), SECOND).len(), 0);
}

#[test]
fn the_oldest_packet_makes_room() {
    let mut cache = RepairCache::new(SECOND, 2);
    cache.insert(1, vec![fragment(b"one")], 0);
    cache.insert(2, vec![fragment(b"two")], 0);
    cache.insert(3, vec![fragment(b"three")], 0);
    assert_eq!(cache.fragments_for(request(1, 1), 0).len(), 0);
    assert_eq!(cache.fragments_for(request(2, 1), 0).len(), 1);
    assert_eq!(cache.fragments_for(request(3, 1), 0).len(), 1);
}

#[test]
fn the_same_request_is_answered_once_in_a_while() {
    let mut cache = RepairCache::new(SECOND, 8);
    cache.insert(4, vec![fragment(b"four")], 0);
    assert_eq!(cache.fragments_for(request(4, 1), MILLISECOND).len(), 1);
    assert_eq!(cache.fragments_for(request(4, 1), 5 * MILLISECOND).len(), 0);
    assert_eq!(cache.fragments_for(request(4, 3), 5 * MILLISECOND).len(), 1);
    assert_eq!(cache.fragments_for(request(4, 1), 11 * MILLISECOND).len(), 1);
}

#[test]
fn a_packet_that_was_never_sent_is_not_answered() {
    let mut cache = RepairCache::new(SECOND, 8);
    cache.insert(4, Vec::new(), 0);
    assert_eq!(cache.fragments_for(request(4, 1), 0).len(), 0);
    assert_eq!(cache.fragments_for(request(5, 1), 0).len(), 0);
}

#[test]
fn a_packet_that_is_sent_again_replaces_the_first() {
    let mut cache = RepairCache::new(SECOND, 8);
    cache.insert(6, vec![fragment(b"a"), fragment(b"b")], 0);
    cache.insert(6, vec![fragment(b"ab")], 0);
    let answer = cache.fragments_for(request(6, 2), 0);
    assert_eq!(answer.len(), 1);
    assert_eq!(&answer[0].packet[..], b"ab");
}

#[test]
fn repeats_do_not_prolong_the_wait_for_an_answer() {
    let mut cache = RepairCache::new(SECOND, 8);
    cache.insert(4, vec![fragment(b"a"), fragment(b"b"), fragment(b"c")], 0);
    let start = 2 * MILLISECOND;
    let first = cache.fragments_for(request(4, 0b101), start);
    assert_eq!(first.len(), 2);
    for step in 1..=9 {
        let again = cache.fragments_for(request(4, 0b101), start + step * MILLISECOND);
        assert!(again.is_empty());
    }
    assert!(cache
        .fragments_for(request(4, 0b101), start + 10 * MILLISECOND - 1)
        .is_empty());
    let second = cache.fragments_for(request(4, 0b101), start + 10 * MILLISECOND);
    assert_eq!(second.len(), 2);
    assert_eq!(&second[0].packet[..], b"a");
    assert_eq!(&second[1].packet[..], b"c");
}

#[test]
fn the_packets_that_came_last_are_remembered() {
    let mut cache = RepairCache::new(SECOND, 3);
    for sequence in [9, 2, 7, 5, 1] {
        cache.insert(sequence, vec![fragment(b"payload")], sequence);
    }
    cache.insert(8, Vec::new(), 20);
    for sequence in [9, 2, 8, 6] {
        assert!(cache.fragments_for(request(sequence, 1), 20).is_empty());
    }
    for sequence in [7, 5, 1] {
        assert_eq!(cache.fragments_for(request(sequence, 1), 20).len(), 1);
    }
}
