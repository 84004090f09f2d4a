//! The packets that the client sent lately, for the server to ask for again.

use crate::buffers;
use crate::ordered;
use crate::ordered::{evict, NumberMap};
use crate::protocol::RepairRequest;
use crate::time;
use crate::time::time_since;
use bytes::Bytes;
use std::collections::{BTreeMap, VecDeque};
use std::sync::Arc;
use vstd::prelude::*;

verus! {

/// How long a repeated request is not answered, in nanoseconds.
pub const REPAIR_REQUEST_DEDUP_WINDOW: u64 = 10_000_000;

/// A fragment as it was sent, and the length of its payload.
#[derive(Debug)]
pub struct CachedFragment {
    pub packet: Arc<Bytes>,
    pub payload_len: u64,
}

#[verifier::ext_equal]
pub struct FragmentModel {
    pub packet: Seq<u8>,
    pub payload_len: u64,
}

impl View for CachedFragment {
    type V = FragmentModel;

    open spec fn view(&self) -> FragmentModel {
        FragmentModel { packet: buffers::contents(*self.packet), payload_len: self.payload_len }
    }
}

impl Clone for CachedFragment {
    fn clone(&self) -> (copy: CachedFragment)
        ensures
            copy == *self,
    {
        CachedFragment { packet: buffers::share(&self.packet), payload_len: self.payload_len }
    }
}

/// The fragments that a list holds.
pub open spec fn fragment_models(list: Seq<CachedFragment>) -> Seq<FragmentModel> {
    list.map_values(|fragment: CachedFragment| fragment@)
}

/// The fragments of a packet and when they were sent.
#[derive(Debug)]
pub struct CachedPacket {
    fragments: Vec<CachedFragment>,
    stored_at: u64,
}

#[verifier::ext_equal]
pub struct CachedModel {
    pub fragments: Seq<FragmentModel>,
    pub stored_at: u64,
}

impl View for CachedPacket {
    type V = CachedModel;

    closed spec fn view(&self) -> CachedModel {
        CachedModel { fragments: fragment_models(self.fragments@), stored_at: self.stored_at }
    }
}

/// The packets and the requests that are remembered, each with the order in which they came.
#[verifier::ext_equal]
pub struct CacheModel {
    pub packets: Map<u64, CachedModel>,
    pub order: Seq<u64>,
    pub requests: Map<u128, u64>,
    pub request_order: Seq<u128>,
}

/// A request as one number.
pub open spec fn request_key(request: RepairRequest) -> u128 {
    (request.sequence * 256 + request.missing_mask) as u128
}

/// Different requests have different numbers.
pub proof fn law_request_keys_differ(a: RepairRequest, b: RepairRequest)
    requires
        request_key(a) == request_key(b),
    ensures
        a == b,
{
}

/// The packets without those at the front of the order that are too old. A packet that is no
/// longer there is dropped from the order in passing.
pub open spec fn unexpired(
    packets: Map<u64, CachedModel>,
    order: Seq<u64>,
    now: u64,
    ttl: u64,
) -> (Map<u64, CachedModel>, Seq<u64>)
    decreases order.len(),
{
    if order.len() > 0 && (!packets.contains_key(order[0]) || time::elapsed(
        now,
        packets[order[0]].stored_at,
    ) >= ttl) {
        unexpired(packets.remove(order[0]), order.drop_first(), now, ttl)
    } else {
        (packets, order)
    }
}

/// The requests without those at the front of the order that are too old.
pub open spec fn unexpired_requests(
    requests: Map<u128, u64>,
    order: Seq<u128>,
    now: u64,
) -> (Map<u128, u64>, Seq<u128>)
    decreases order.len(),
{
    if order.len() > 0 && (!requests.contains_key(order[0]) || time::elapsed(
        now,
        requests[order[0]],
    ) >= REPAIR_REQUEST_DEDUP_WINDOW) {
        unexpired_requests(requests.remove(order[0]), order.drop_first(), now)
    } else {
        (requests, order)
    }
}

/// How many requests are remembered.
pub open spec fn request_limit(max_packets: usize) -> nat {
    if max_packets == 0 {
        1
    } else if 4 * max_packets > usize::MAX {
        usize::MAX as nat
    } else {
        (4 * max_packets) as nat
    }
}

/// The fragments whose bits are set in a mask.
pub open spec fn requested(fragments: Seq<FragmentModel>, mask: u8, count: nat) -> Seq<
    FragmentModel,
>
    decreases count,
{
    if count == 0 {
        Seq::empty()
    } else {
        let before = requested(fragments, mask, (count - 1) as nat);
        if mask & (1u8 << ((count - 1) as u8)) != 0 {
            before.push(fragments[count - 1])
        } else {
            before
        }
    }
}

/// What answers a request for fragments of a packet: a packet that was sent whole is sent whole.
pub open spec fn answer_of(fragments: Seq<FragmentModel>, mask: u8) -> Seq<FragmentModel> {
    if fragments.len() == 1 {
        fragments
    } else {
        requested(fragments, mask, fragments.len())
    }
}

/// Whether the keys of a map are those in an order, each once.
pub open spec fn is_listed_once<K, V>(map: Map<K, V>, order: Seq<K>) -> bool {
    &&& map.dom().finite()
    &&& map.dom() == order.to_set()
    &&& order.no_duplicates()
}

impl CacheModel {
    /// Nothing is remembered.
    pub open spec fn empty() -> CacheModel {
        CacheModel {
            packets: Map::empty(),
            order: Seq::empty(),
            requests: Map::empty(),
            request_order: Seq::empty(),
        }
    }

    /// Each packet and each request is in its order once, there are no more of them than there is
    /// room for, and no packet has more fragments than a mask has bits.
    pub open spec fn well_formed(self, max_packets: usize) -> bool {
        &&& is_listed_once(self.packets, self.order)
        &&& self.order.len() <= max_packets
        &&& is_listed_once(self.requests, self.request_order)
        &&& self.request_order.len() <= request_limit(max_packets)
        &&& forall|s: u64| #[trigger]
            self.packets.contains_key(s) ==> 0 < self.packets[s].fragments.len() <= 8
    }

    /// A packet is remembered; the packets that came first make room.
    pub open spec fn with_packet(
        self,
        sequence: u64,
        fragments: Seq<FragmentModel>,
        max_packets: usize,
        ttl: u64,
        now: u64,
    ) -> CacheModel {
        if fragments.len() == 0 {
            self
        } else {
            let (packets, order) = unexpired(self.packets, self.order, now, ttl);
            let (packets, order) = ordered::evicted(
                packets.insert(sequence, CachedModel { fragments, stored_at: now }),
                if packets.contains_key(sequence) {
                    order
                } else {
                    order.push(sequence)
                },
                max_packets as nat,
            );
            CacheModel { packets, order, ..self }
        }
    }

    /// What is remembered once old packets and requests are forgotten.
    pub open spec fn refreshed(self, ttl: u64, now: u64) -> CacheModel {
        let (packets, order) = unexpired(self.packets, self.order, now, ttl);
        let (requests, request_order) = unexpired_requests(
            self.requests,
            self.request_order,
            now,
        );
        CacheModel { packets, order, requests, request_order }
    }

    /// Whether a request is answered: its packet is there, and the same request was not answered
    /// just before.
    pub open spec fn answers(self, request: RepairRequest, now: u64) -> bool {
        &&& self.packets.contains_key(request.sequence)
        &&& self.requests.contains_key(request_key(request)) ==> time::elapsed(
            now,
            self.requests[request_key(request)],
        ) >= REPAIR_REQUEST_DEDUP_WINDOW
    }

    /// A request is remembered; the requests that came first make room.
    pub open spec fn with_request(
        self,
        request: RepairRequest,
        max_packets: usize,
        now: u64,
    ) -> CacheModel {
        let key = request_key(request);
        let (requests, request_order) = ordered::evicted(
            self.requests.insert(key, now),
            if self.requests.contains_key(key) {
                self.request_order
            } else {
                self.request_order.push(key)
            },
            request_limit(max_packets),
        );
        CacheModel { requests, request_order, ..self }
    }
}

/// Forgetting old packets keeps each packet in the order once, and every packet that is not old.
proof fn lemma_unexpired(packets: Map<u64, CachedModel>, order: Seq<u64>, now: u64, ttl: u64)
    requires
        is_listed_once(packets, order),
    ensures
        ({
            let (kept, left) = unexpired(packets, order, now, ttl);
            &&& is_listed_once(kept, left)
            &&& left.len() <= order.len()
            &&& forall|s: u64| #[trigger]
                kept.contains_key(s) ==> packets.contains_key(s) && kept[s] == packets[s]
            &&& forall|s: u64| #[trigger]
                packets.contains_key(s) && time::elapsed(now, packets[s].stored_at) < ttl
                    ==> kept.contains_key(s)
        }),
    decreases order.len(),
{
    if order.len() > 0 && (!packets.contains_key(order[0]) || time::elapsed(
        now,
        packets[order[0]].stored_at,
    ) >= ttl) {
        let rest = order.drop_first();
        let fewer = packets.remove(order[0]);
        lemma_drop_first(packets, order);
        lemma_unexpired(fewer, rest, now, ttl);
        let (kept, left) = unexpired(packets, order, now, ttl);
        assert forall|s: u64| #[trigger] kept.contains_key(s) implies packets.contains_key(s)
            && kept[s] == packets[s] by {
            assert(fewer.contains_key(s));
        }
        assert forall|s: u64| #[trigger]
            packets.contains_key(s) && time::elapsed(now, packets[s].stored_at)
                < ttl implies kept.contains_key(s) by {
            assert(fewer.contains_key(s));
        }
    }
}

/// Forgetting old requests keeps each request in the order once, and every request that is not
/// old.
proof fn lemma_unexpired_requests(requests: Map<u128, u64>, order: Seq<u128>, now: u64)
    requires
        is_listed_once(requests, order),
    ensures
        ({
            let (kept, left) = unexpired_requests(requests, order, now);
            &&& is_listed_once(kept, left)
            &&& left.len() <= order.len()
            &&& forall|key: u128| #[trigger]
                kept.contains_key(key) ==> requests.contains_key(key) && kept[key] == requests[key]
            &&& forall|key: u128| #[trigger]
                requests.contains_key(key) && time::elapsed(now, requests[key])
                    < REPAIR_REQUEST_DEDUP_WINDOW ==> kept.contains_key(key)
        }),
    decreases order.len(),
{
    if order.len() > 0 && (!requests.contains_key(order[0]) || time::elapsed(
        now,
        requests[order[0]],
    ) >= REPAIR_REQUEST_DEDUP_WINDOW) {
        let rest = order.drop_first();
        let fewer = requests.remove(order[0]);
        lemma_drop_first(requests, order);
        lemma_unexpired_requests(fewer, rest, now);
        let (kept, left) = unexpired_requests(requests, order, now);
        assert forall|key: u128| #[trigger] kept.contains_key(key) implies requests.contains_key(
            key,
        ) && kept[key] == requests[key] by {
            assert(fewer.contains_key(key));
        }
        assert forall|key: u128| #[trigger]
            requests.contains_key(key) && time::elapsed(now, requests[key])
                < REPAIR_REQUEST_DEDUP_WINDOW implies kept.contains_key(key) by {
            assert(fewer.contains_key(key));
        }
    }
}

/// Dropping the first key of the order from both keeps each key in the order once.
proof fn lemma_drop_first<K, V>(map: Map<K, V>, order: Seq<K>)
    requires
        order.len() > 0,
        is_listed_once(map, order),
    ensures
        is_listed_once(map.remove(order[0]), order.drop_first()),
{
    let rest = order.drop_first();
    let fewer = map.remove(order[0]);
    assert forall|s: K| fewer.dom().contains(s) == rest.to_set().contains(s) by {
        if rest.contains(s) {
            let i = choose|i: int| 0 <= i < rest.len() && rest[i] == s;
            assert(order[i + 1] == s);
            assert(order.to_set().contains(s));
        }
        if fewer.dom().contains(s) {
            assert(order.to_set().contains(s));
            let i = choose|i: int| 0 <= i < order.len() && order[i] == s;
            assert(rest[i - 1] == s);
        }
    }
    assert(fewer.dom() =~= rest.to_set());
}

/// Entering a key keeps each key in the order once; where there was no room, the first key goes.
proof fn lemma_entered<K, V>(map: Map<K, V>, order: Seq<K>, key: K, value: V, limit: nat)
    requires
        is_listed_once(map, order),
        order.len() <= limit,
    ensures
        ({
            let all = map.insert(key, value);
            let longer = if map.contains_key(key) {
                order
            } else {
                order.push(key)
            };
            let (kept, left) = ordered::evicted(all, longer, limit);
            &&& is_listed_once(kept, left)
            &&& left.len() <= limit
            &&& (kept, left) == (if longer.len() <= limit {
                (all, longer)
            } else {
                (all.remove(longer[0]), longer.drop_first())
            })
            &&& limit > 0 ==> kept.contains_key(key) && kept[key] == value
        }),
{
    let all = map.insert(key, value);
    let longer = if map.contains_key(key) {
        order
    } else {
        order.push(key)
    };
    assert forall|s: K| all.dom().contains(s) == longer.to_set().contains(s) by {
        if map.contains_key(s) {
            assert(order.to_set().contains(s));
            let i = choose|i: int| 0 <= i < order.len() && order[i] == s;
            assert(longer[i] == s);
        }
        if s == key {
            if !map.contains_key(key) {
                assert(longer[order.len() as int] == s);
            }
        } else if longer.contains(s) {
            let i = choose|i: int| 0 <= i < longer.len() && longer[i] == s;
            assert(order[i] == s);
            assert(order.to_set().contains(s));
        }
    }
    assert(all.dom() =~= longer.to_set());
    assert(longer.no_duplicates()) by {
        if !map.contains_key(key) {
            assert forall|i: int, j: int|
                0 <= i < longer.len() && 0 <= j < longer.len() && i != j implies longer[i]
                != longer[j] by {
                if i == order.len() {
                    assert(order.to_set().contains(order[j]));
                } else if j == order.len() {
                    assert(order.to_set().contains(order[i]));
                }
            }
        }
    }
    longer.unique_seq_to_set();
    if longer.len() > limit {
        let fewer = all.remove(longer[0]);
        let rest = longer.drop_first();
        lemma_drop_first(all, longer);
        rest.unique_seq_to_set();
        assert(ordered::evicted(fewer, rest, limit) == (fewer, rest));
        if limit > 0 {
            assert(longer[0] != longer[order.len() as int]);
        }
    }
}

/// Remembering a packet keeps within the limits, and the packet is there if there is room for any.
pub proof fn lemma_with_packet(
    cache: CacheModel,
    sequence: u64,
    fragments: Seq<FragmentModel>,
    max_packets: usize,
    ttl: u64,
    now: u64,
)
    requires
        cache.well_formed(max_packets),
        fragments.len() <= 8,
    ensures
        cache.with_packet(sequence, fragments, max_packets, ttl, now).well_formed(max_packets),
        fragments.len() > 0 && max_packets > 0 ==> {
            let after = cache.with_packet(sequence, fragments, max_packets, ttl, now);
            &&& after.packets.contains_key(sequence)
            &&& after.packets[sequence] == (CachedModel { fragments, stored_at: now })
        },
{
    if fragments.len() > 0 {
        lemma_unexpired(cache.packets, cache.order, now, ttl);
        let (kept, left) = unexpired(cache.packets, cache.order, now, ttl);
        let packet = CachedModel { fragments, stored_at: now };
        lemma_entered(kept, left, sequence, packet, max_packets as nat);
        let after = cache.with_packet(sequence, fragments, max_packets, ttl, now);
        assert forall|s: u64| #[trigger] after.packets.contains_key(s) implies 0
            < after.packets[s].fragments.len() <= 8 by {
            if s != sequence {
                assert(kept.contains_key(s));
                assert(cache.packets.contains_key(s));
            }
        }
    }
}

/// Forgetting what is old keeps within the limits, and keeps what is not old.
proof fn lemma_refreshed(cache: CacheModel, max_packets: usize, ttl: u64, now: u64)
    requires
        cache.well_formed(max_packets),
    ensures
        ({
            let known = cache.refreshed(ttl, now);
            &&& known.well_formed(max_packets)
            &&& forall|s: u64| #[trigger]
                known.packets.contains_key(s) ==> cache.packets.contains_key(s) && known.packets[s]
                    == cache.packets[s]
            &&& forall|s: u64| #[trigger]
                cache.packets.contains_key(s) && time::elapsed(now, cache.packets[s].stored_at)
                    < ttl ==> known.packets.contains_key(s)
            &&& forall|key: u128| #[trigger]
                known.requests.contains_key(key) ==> cache.requests.contains_key(key)
                    && known.requests[key] == cache.requests[key]
            &&& forall|key: u128| #[trigger]
                cache.requests.contains_key(key) && time::elapsed(now, cache.requests[key])
                    < REPAIR_REQUEST_DEDUP_WINDOW ==> known.requests.contains_key(key)
        }),
{
    lemma_unexpired(cache.packets, cache.order, now, ttl);
    lemma_unexpired_requests(cache.requests, cache.request_order, now);
}

/// Remembering a request keeps within the limits, and the request is there.
proof fn lemma_with_request(
    cache: CacheModel,
    request: RepairRequest,
    max_packets: usize,
    now: u64,
)
    requires
        cache.well_formed(max_packets),
    ensures
        ({
            let after = cache.with_request(request, max_packets, now);
            &&& after.well_formed(max_packets)
            &&& after.requests.contains_key(request_key(request))
            &&& after.requests[request_key(request)] == now
        }),
{
    lemma_entered(
        cache.requests,
        cache.request_order,
        request_key(request),
        now,
        request_limit(max_packets),
    );
}

/// The packets that the client sent lately.
pub struct RepairCache {
    ttl: u64,
    max_packets: usize,
    packets: NumberMap<CachedPacket>,
    order: VecDeque<u64>,
    recent_requests: BTreeMap<u128, u64>,
    request_order: VecDeque<u128>,
}

impl View for RepairCache {
    type V = CacheModel;

    closed spec fn view(&self) -> CacheModel {
        CacheModel {
            packets: self.packets@,
            order: self.order@,
            requests: self.recent_requests@,
            request_order: self.request_order@,
        }
    }
}

impl RepairCache {
    /// How long a packet is remembered.
    pub closed spec fn ttl(self) -> u64 {
        self.ttl
    }

    /// How many packets are remembered.
    pub closed spec fn max_packets(self) -> usize {
        self.max_packets
    }

    pub open spec fn well_formed(self) -> bool {
        self@.well_formed(self.max_packets())
    }

    pub fn new(ttl: u64, max_packets: usize) -> (cache: RepairCache)
        ensures
            cache.well_formed(),
            cache.ttl() == ttl,
            cache.max_packets() == max_packets,
            cache@ == CacheModel::empty(),
    {
        let cache = RepairCache {
            ttl,
            max_packets,
            packets: NumberMap::new(),
            order: VecDeque::new(),
            recent_requests: BTreeMap::new(),
            request_order: VecDeque::new(),
        };
        proof {
            assert(cache@ =~= CacheModel::empty());
            assert(cache@.packets.dom() =~= cache@.order.to_set());
            assert(cache@.requests.dom() =~= cache@.request_order.to_set());
        }
        cache
    }

    /// Forgets old packets.
    fn expire(&mut self, now: u64)
        ensures
            final(self).ttl() == old(self).ttl(),
            final(self).max_packets() == old(self).max_packets(),
            (final(self)@.packets, final(self)@.order) == unexpired(
                old(self)@.packets,
                old(self)@.order,
                now,
                old(self).ttl(),
            ),
            final(self)@.requests == old(self)@.requests,
            final(self)@.request_order == old(self)@.request_order,
    {
        let ttl: u64 = self.ttl;
        let mut done: bool = false;
        while !done && self.order.len() > 0
            invariant
                ttl == old(self).ttl(),
                self.ttl() == old(self).ttl(),
                self.max_packets() == old(self).max_packets(),
                self@.requests == old(self)@.requests,
                self@.request_order == old(self)@.request_order,
                done ==> (self@.packets, self@.order) == unexpired(
                    old(self)@.packets,
                    old(self)@.order,
                    now,
                    ttl,
                ),
                !done ==> unexpired(self@.packets, self@.order, now, ttl) == unexpired(
                    old(self)@.packets,
                    old(self)@.order,
                    now,
                    ttl,
                ),
            decreases self@.order.len(), (if done {
                0int
            } else {
                1int
            }),
        {
            let sequence: u64 = self.order[0];
            let expired = match self.packets.get(sequence) {
                Some(packet) => time_since(now, packet.stored_at) >= ttl,
                None => true,
            };
            if expired {
                let _ = self.order.pop_front();
                self.packets.remove(sequence);
            } else {
                done = true;
            }
        }
    }

    /// Remembers a packet that was sent.
    pub fn insert(&mut self, sequence: u64, fragments: Vec<CachedFragment>, now: u64)
        requires
            old(self).well_formed(),
            fragments@.len() <= 8,
        ensures
            final(self).well_formed(),
            final(self).ttl() == old(self).ttl(),
            final(self).max_packets() == old(self).max_packets(),
            final(self)@ == old(self)@.with_packet(
                sequence,
                fragment_models(fragments@),
                old(self).max_packets(),
                old(self).ttl(),
                now,
            ),
            fragments@.len() == 0 ==> final(self)@ == old(self)@,
    {
        proof {
            lemma_with_packet(
                self@,
                sequence,
                fragment_models(fragments@),
                self.max_packets(),
                self.ttl(),
                now,
            );
        }
        if fragments.len() == 0 {
            return;
        }
        self.expire(now);
        if !self.packets.contains_key(sequence) {
            self.order.push_back(sequence);
        }
        self.packets.insert(sequence, CachedPacket { fragments, stored_at: now });
        evict(&mut self.packets, &mut self.order, self.max_packets);
    }

    /// Forgets old requests.
    fn expire_requests(&mut self, now: u64)
        ensures
            final(self).ttl() == old(self).ttl(),
            final(self).max_packets() == old(self).max_packets(),
            (final(self)@.requests, final(self)@.request_order) == unexpired_requests(
                old(self)@.requests,
                old(self)@.request_order,
                now,
            ),
            final(self)@.packets == old(self)@.packets,
            final(self)@.order == old(self)@.order,
    {
        broadcast use vstd::std_specs::btree::group_btree_axioms;

        let mut done: bool = false;
        while !done && self.request_order.len() > 0
            invariant
                self.ttl() == old(self).ttl(),
                self.max_packets() == old(self).max_packets(),
                self@.packets == old(self)@.packets,
                self@.order == old(self)@.order,
                done ==> (self@.requests, self@.request_order) == unexpired_requests(
                    old(self)@.requests,
                    old(self)@.request_order,
                    now,
                ),
                !done ==> unexpired_requests(self@.requests, self@.request_order, now)
                    == unexpired_requests(old(self)@.requests, old(self)@.request_order, now),
            decreases self@.request_order.len(), (if done {
                0int
            } else {
                1int
            }),
        {
            let key: u128 = self.request_order[0];
            let expired = match self.recent_requests.get(&key) {
                Some(last) => time_since(now, *last) >= REPAIR_REQUEST_DEDUP_WINDOW,
                None => true,
            };
            if expired {
                let _ = self.request_order.pop_front();
                self.recent_requests.remove(&key);
            } else {
                done = true;
            }
        }
    }

    /// Remembers a request.
    fn note_request(&mut self, request: RepairRequest, now: u64)
        ensures
            final(self).ttl() == old(self).ttl(),
            final(self).max_packets() == old(self).max_packets(),
            final(self)@ == old(self)@.with_request(request, old(self).max_packets(), now),
    {
        broadcast use vstd::std_specs::btree::group_btree_axioms;

        let key: u128 = (request.sequence as u128) * 256 + (request.missing_mask as u128);
        if !self.recent_requests.contains_key(&key) {
            self.request_order.push_back(key);
        }
        self.recent_requests.insert(key, now);
        let limit: usize = if self.max_packets == 0 {
            1
        } else if self.max_packets > usize::MAX / 4 {
            usize::MAX
        } else {
            self.max_packets * 4
        };
        let ghost requests = self.recent_requests@;
        let ghost order = self.request_order@;
        while self.recent_requests.len() > limit
            invariant
                self.ttl() == old(self).ttl(),
                self.max_packets() == old(self).max_packets(),
                self@.packets == old(self)@.packets,
                self@.order == old(self)@.order,
                ordered::evicted(requests, order, limit as nat) == ordered::evicted(
                    self@.requests,
                    self@.request_order,
                    limit as nat,
                ),
            ensures
                (self@.requests, self@.request_order) == ordered::evicted(
                    requests,
                    order,
                    limit as nat,
                ),
            decreases self@.request_order.len(),
        {
            match self.request_order.pop_front() {
                Some(first) => {
                    self.recent_requests.remove(&first);
                },
                None => {
                    break;
                },
            }
        }
    }

    /// The fragments that answer a request. A request that was answered just before is not
    /// answered again.
    pub fn fragments_for(&mut self, request: RepairRequest, now: u64) -> (fragments: Vec<
        CachedFragment,
    >)
        requires
            old(self).well_formed(),
        ensures
            final(self).well_formed(),
            final(self).ttl() == old(self).ttl(),
            final(self).max_packets() == old(self).max_packets(),
            ({
                let known = old(self)@.refreshed(old(self).ttl(), now);
                if known.answers(request, now) {
                    &&& final(self)@ == known.with_request(request, old(self).max_packets(), now)
                    &&& fragment_models(fragments@) == answer_of(
                        known.packets[request.sequence].fragments,
                        request.missing_mask,
                    )
                } else {
                    final(self)@ == known && fragments@.len() == 0
                }
            }),
    {
        broadcast use vstd::std_specs::btree::group_btree_axioms;

        let ghost known = self@.refreshed(self.ttl(), now);
        proof {
            lemma_refreshed(self@, self.max_packets(), self.ttl(), now);
            lemma_with_request(known, request, self.max_packets(), now);
        }
        self.expire(now);
        self.expire_requests(now);
        assert(self@ =~= known);
        if !self.packets.contains_key(request.sequence) {
            return Vec::new();
        }
        let key: u128 = (request.sequence as u128) * 256 + (request.missing_mask as u128);
        if let Some(last) = self.recent_requests.get(&key) {
            if time_since(now, *last) < REPAIR_REQUEST_DEDUP_WINDOW {
                return Vec::new();
            }
        }
        self.note_request(request, now);
        let mut answer: Vec<CachedFragment> = Vec::new();
        if let Some(packet) = self.packets.get(request.sequence) {
            let ghost all = known.packets[request.sequence].fragments;
            let whole = packet.fragments.len() == 1;
            for index in 0..packet.fragments.len()
                invariant
                    packet@.fragments == all,
                    all == fragment_models(packet.fragments@),
                    0 < all.len() <= 8,
                    whole == (all.len() == 1),
                    fragment_models(answer@) == (if whole {
                        all.take(index as int)
                    } else {
                        requested(all, request.missing_mask, index as nat)
                    }),
            {
                let ghost before = answer@;
                if whole || request.missing_mask & (1u8 << (index as u8)) != 0 {
                    answer.push(packet.fragments[index].clone());
                    assert(fragment_models(answer@) =~= fragment_models(before).push(
                        all[index as int],
                    ));
                }
                if whole {
                    assert(all.take(index + 1) =~= all.take(index as int).push(all[index as int]));
                }
            }
            proof {
                assert(all.take(all.len() as int) =~= all);
            }
        }
        answer
    }
}

/// A packet that was remembered answers a request until it is too old: the first request for it
/// gets the fragments it asks for, and the whole packet if it was sent whole.
pub proof fn law_cached_packet_is_returned(
    cache: CacheModel,
    sequence: u64,
    fragments: Seq<FragmentModel>,
    max_packets: usize,
    ttl: u64,
    stored_at: u64,
    request: RepairRequest,
    now: u64,
)
    requires
        cache.well_formed(max_packets),
        0 < fragments.len() <= 8,
        max_packets > 0,
        request.sequence == sequence,
        !cache.requests.contains_key(request_key(request)),
        time::elapsed(now, stored_at) < ttl,
    ensures
        ({
            let known = cache.with_packet(sequence, fragments, max_packets, ttl, stored_at)
                .refreshed(ttl, now);
            &&& known.answers(request, now)
            &&& known.packets[sequence].fragments == fragments
        }),
{
    lemma_with_packet(cache, sequence, fragments, max_packets, ttl, stored_at);
    let after = cache.with_packet(sequence, fragments, max_packets, ttl, stored_at);
    lemma_refreshed(after, max_packets, ttl, now);
    assert(after.packets.contains_key(sequence));
}

/// What is remembered after requests at these times that were not answered.
pub open spec fn after_repeats(cache: CacheModel, ttl: u64, times: Seq<u64>) -> CacheModel
    decreases times.len(),
{
    if times.len() == 0 {
        cache
    } else {
        after_repeats(cache, ttl, times.drop_last()).refreshed(ttl, times.last())
    }
}

/// A request that was answered is not answered again until the window has passed, however often it
/// is repeated, and is answered as before once it has: repeats that were not answered do not
/// prolong the window. The packet is not too old all the while.
pub proof fn law_repeated_request_waits(
    cache: CacheModel,
    request: RepairRequest,
    max_packets: usize,
    ttl: u64,
    answered_at: u64,
    repeats: Seq<u64>,
    now: u64,
)
    requires
        cache.well_formed(max_packets),
        cache.refreshed(ttl, answered_at).answers(request, answered_at),
        forall|i: int|
            0 <= i < repeats.len() ==> time::elapsed(#[trigger] repeats[i], answered_at)
                < REPAIR_REQUEST_DEDUP_WINDOW && time::elapsed(
                repeats[i],
                cache.packets[request.sequence].stored_at,
            ) < ttl,
        time::elapsed(now, cache.packets[request.sequence].stored_at) < ttl,
    ensures
        ({
            let answered = cache.refreshed(ttl, answered_at).with_request(
                request,
                max_packets,
                answered_at,
            );
            let again = after_repeats(answered, ttl, repeats).refreshed(ttl, now);
            &&& forall|i: int|
                0 <= i < repeats.len() ==> !after_repeats(
                    answered,
                    ttl,
                    #[trigger] repeats.take(i),
                ).refreshed(ttl, repeats[i]).answers(request, repeats[i])
            &&& again.answers(request, now) <==> time::elapsed(now, answered_at)
                >= REPAIR_REQUEST_DEDUP_WINDOW
            &&& again.packets[request.sequence].fragments == cache.refreshed(
                ttl,
                answered_at,
            ).packets[request.sequence].fragments
        }),
{
    let known = cache.refreshed(ttl, answered_at);
    let answered = known.with_request(request, max_packets, answered_at);
    lemma_refreshed(cache, max_packets, ttl, answered_at);
    lemma_with_request(known, request, max_packets, answered_at);
    assert(known.packets.contains_key(request.sequence));
    assert forall|i: int| 0 <= i < repeats.len() implies !after_repeats(
        answered,
        ttl,
        #[trigger] repeats.take(i),
    ).refreshed(ttl, repeats[i]).answers(request, repeats[i]) by {
        let times = repeats.take(i);
        assert forall|j: int| 0 <= j < times.len() implies time::elapsed(
            #[trigger] times[j],
            answered_at,
        ) < REPAIR_REQUEST_DEDUP_WINDOW && time::elapsed(
            times[j],
            answered.packets[request.sequence].stored_at,
        ) < ttl by {
            assert(times[j] == repeats[j]);
        }
        lemma_after_repeats(answered, request, max_packets, ttl, answered_at, times);
        let before = after_repeats(answered, ttl, times);
        lemma_refreshed(before, max_packets, ttl, repeats[i]);
        assert(before.requests.contains_key(request_key(request)));
    }
    lemma_after_repeats(answered, request, max_packets, ttl, answered_at, repeats);
    let before = after_repeats(answered, ttl, repeats);
    lemma_refreshed(before, max_packets, ttl, now);
    assert(before.requests.contains_key(request_key(request)));
    assert(before.packets.contains_key(request.sequence));
}

/// A packet and a request stay as they are while neither is too old.
proof fn lemma_after_repeats(
    cache: CacheModel,
    request: RepairRequest,
    max_packets: usize,
    ttl: u64,
    answered_at: u64,
    times: Seq<u64>,
)
    requires
        cache.well_formed(max_packets),
        cache.packets.contains_key(request.sequence),
        cache.requests.contains_key(request_key(request)),
        cache.requests[request_key(request)] == answered_at,
        forall|i: int|
            0 <= i < times.len() ==> time::elapsed(#[trigger] times[i], answered_at)
                < REPAIR_REQUEST_DEDUP_WINDOW && time::elapsed(
                times[i],
                cache.packets[request.sequence].stored_at,
            ) < ttl,
    ensures
        ({
            let after = after_repeats(cache, ttl, times);
            &&& after.well_formed(max_packets)
            &&& after.packets.contains_key(request.sequence)
            &&& after.packets[request.sequence] == cache.packets[request.sequence]
            &&& after.requests.contains_key(request_key(request))
            &&& after.requests[request_key(request)] == answered_at
        }),
    decreases times.len(),
{
    if times.len() > 0 {
        let earlier = times.drop_last();
        assert forall|i: int| 0 <= i < earlier.len() implies time::elapsed(
            #[trigger] earlier[i],
            answered_at,
        ) < REPAIR_REQUEST_DEDUP_WINDOW && time::elapsed(
            earlier[i],
            cache.packets[request.sequence].stored_at,
        ) < ttl by {
            assert(times[i] == earlier[i]);
        }
        lemma_after_repeats(cache, request, max_packets, ttl, answered_at, earlier);
        let before = after_repeats(cache, ttl, earlier);
        assert(times[times.len() - 1] == times.last());
        lemma_refreshed(before, max_packets, ttl, times.last());
        assert(before.requests.contains_key(request_key(request)));
        assert(before.packets.contains_key(request.sequence));
    }
}

/// A packet that is remembered: its sequence number, its fragments and when it was sent.
pub type SentModel = (u64, Seq<FragmentModel>, u64);

/// What is remembered after these packets, where nothing was remembered before.
pub open spec fn filled(sent: Seq<SentModel>, max_packets: usize, ttl: u64) -> CacheModel
    decreases sent.len(),
{
    if sent.len() == 0 {
        CacheModel::empty()
    } else {
        filled(sent.drop_last(), max_packets, ttl).with_packet(
            sent.last().0,
            sent.last().1,
            max_packets,
            ttl,
            sent.last().2,
        )
    }
}

/// The sequence numbers of packets.
pub open spec fn sequences(sent: Seq<SentModel>) -> Seq<u64> {
    sent.map_values(|packet: SentModel| packet.0)
}

/// How many of the first packets are forgotten for want of room.
pub open spec fn forgotten(sent: Seq<SentModel>, max_packets: usize) -> int {
    if sent.len() > max_packets {
        sent.len() - max_packets
    } else {
        0
    }
}

/// Of packets with different sequence numbers that are sent one after the other, none of which is
/// too old, those that came last are remembered, as many as there is room for: a request is
/// answered exactly when it asks for one of them, and then with the fragments of that one.
pub proof fn law_last_packets_are_remembered(
    sent: Seq<SentModel>,
    max_packets: usize,
    ttl: u64,
    request: RepairRequest,
    now: u64,
)
    requires
        max_packets > 0,
        sequences(sent).no_duplicates(),
        forall|i: int| 0 <= i < sent.len() ==> 0 < (#[trigger] sent[i]).1.len() <= 8,
        forall|i: int, j: int|
            0 <= i <= j < sent.len() ==> time::elapsed(
                (#[trigger] sent[j]).2,
                (#[trigger] sent[i]).2,
            ) < ttl,
        forall|i: int| 0 <= i < sent.len() ==> time::elapsed(now, (#[trigger] sent[i]).2) < ttl,
    ensures
        ({
            let known = filled(sent, max_packets, ttl).refreshed(ttl, now);
            let first = forgotten(sent, max_packets);
            &&& known.order == sequences(sent).skip(first)
            &&& known.answers(request, now) <==> exists|i: int|
                first <= i < sent.len() && (#[trigger] sent[i]).0 == request.sequence
            &&& forall|i: int|
                first <= i < sent.len() && (#[trigger] sent[i]).0 == request.sequence
                    ==> known.packets[request.sequence].fragments == sent[i].1
        }),
{
    lemma_filled(sent, max_packets, ttl);
    let cache = filled(sent, max_packets, ttl);
    let first = forgotten(sent, max_packets);
    let all = sequences(sent);
    let known = cache.refreshed(ttl, now);
    if sent.len() > 0 {
        assert(cache.order[0] == all[first] && all[first] == sent[first].0);
        assert(cache.packets[sent[first].0].stored_at == sent[first].2);
    }
    assert(unexpired(cache.packets, cache.order, now, ttl) == (cache.packets, cache.order));
    if known.packets.contains_key(request.sequence) {
        assert(known.order.to_set().contains(request.sequence));
        let k = choose|k: int| 0 <= k < known.order.len() && known.order[k] == request.sequence;
        assert(all[first + k] == sent[first + k].0);
    }
}

/// What is remembered after packets none of which is too old.
proof fn lemma_filled(sent: Seq<SentModel>, max_packets: usize, ttl: u64)
    requires
        max_packets > 0,
        sequences(sent).no_duplicates(),
        forall|i: int| 0 <= i < sent.len() ==> 0 < (#[trigger] sent[i]).1.len() <= 8,
        forall|i: int, j: int|
            0 <= i <= j < sent.len() ==> time::elapsed(
                (#[trigger] sent[j]).2,
                (#[trigger] sent[i]).2,
            ) < ttl,
    ensures
        ({
            let cache = filled(sent, max_packets, ttl);
            let first = forgotten(sent, max_packets);
            &&& cache.well_formed(max_packets)
            &&& cache.order == sequences(sent).skip(first)
            &&& cache.requests == Map::<u128, u64>::empty()
            &&& cache.request_order == Seq::<u128>::empty()
            &&& forall|i: int|
                first <= i < sent.len() ==> cache.packets.contains_key((#[trigger] sent[i]).0)
                    && cache.packets[sent[i].0] == (CachedModel {
                    fragments: sent[i].1,
                    stored_at: sent[i].2,
                })
        }),
    decreases sent.len(),
{
    let cache = filled(sent, max_packets, ttl);
    let all = sequences(sent);
    if sent.len() == 0 {
        assert(cache.packets.dom() =~= cache.order.to_set());
        assert(cache.requests.dom() =~= cache.request_order.to_set());
        assert(cache.order =~= all.skip(0));
    } else {
        let earlier = sent.drop_last();
        let last = sent.last();
        let n = sent.len() as int;
        assert(sequences(earlier) =~= all.drop_last());
        assert forall|i: int, j: int|
            0 <= i <= j < earlier.len() implies time::elapsed(
            (#[trigger] earlier[j]).2,
            (#[trigger] earlier[i]).2,
        ) < ttl by {
            assert(sent[i] == earlier[i] && sent[j] == earlier[j]);
        }
        assert forall|i: int| 0 <= i < earlier.len() implies 0 < (#[trigger] earlier[i]).1.len()
            <= 8 by {
            assert(sent[i] == earlier[i]);
        }
        lemma_filled(earlier, max_packets, ttl);
        let before = filled(earlier, max_packets, ttl);
        let first = forgotten(earlier, max_packets);
        assert(sent[n - 1] == last);
        if before.order.len() > 0 {
            assert(before.order[0] == all[first] && all[first] == earlier[first].0);
            assert(sent[first] == earlier[first]);
            assert(time::elapsed(sent[n - 1].2, sent[first].2) < ttl);
        }
        assert(unexpired(before.packets, before.order, last.2, ttl) == (
            before.packets,
            before.order,
        ));
        assert(!before.packets.contains_key(last.0)) by {
            if before.packets.contains_key(last.0) {
                assert(before.order.to_set().contains(last.0));
                let k = choose|k: int| 0 <= k < before.order.len() && before.order[k] == last.0;
                assert(all[first + k] == all[n - 1]);
            }
        }
        let packet = CachedModel { fragments: last.1, stored_at: last.2 };
        lemma_entered(before.packets, before.order, last.0, packet, max_packets as nat);
        lemma_with_packet(before, last.0, last.1, max_packets, ttl, last.2);
        let now_first = forgotten(sent, max_packets);
        let longer = before.order.push(last.0);
        assert(longer =~= all.skip(first));
        assert(cache.order =~= all.skip(now_first));
        assert forall|i: int| now_first <= i < sent.len() implies cache.packets.contains_key(
            (#[trigger] sent[i]).0,
        ) && cache.packets[sent[i].0] == (CachedModel {
            fragments: sent[i].1,
            stored_at: sent[i].2,
        }) by {
            assert(all[i] == sent[i].0);
            if i < n - 1 {
                assert(sent[i] == earlier[i]);
                assert(before.packets.contains_key(earlier[i].0));
                assert(all[i] != all[n - 1]);
                assert(longer[0] == all[first]);
                if longer.len() > max_packets {
                    assert(all[i] != all[first]);
                }
            }
        }
    }
}

/// The places of the fragments that answer a request.
pub open spec fn is_selection(places: Seq<int>, fragments: Seq<FragmentModel>, mask: u8) -> bool {
    &&& forall|i: int|
        #![trigger places.contains(i)]
        places.contains(i) <==> 0 <= i < fragments.len() && mask & (1u8 << (i as u8)) != 0
    &&& forall|i: int, j: int|
        0 <= i < j < places.len() ==> #[trigger] places[i] < #[trigger] places[j]
}

proof fn lemma_requested(fragments: Seq<FragmentModel>, mask: u8, count: nat) -> (places: Seq<int>)
    requires
        count <= fragments.len(),
    ensures
        is_selection(places, fragments.take(count as int), mask),
        requested(fragments, mask, count) == places.map_values(|i: int| fragments[i]),
    decreases count,
{
    if count == 0 {
        let places = Seq::<int>::empty();
        assert(requested(fragments, mask, count) =~= places.map_values(|i: int| fragments[i]));
        places
    } else {
        let last = count - 1;
        let before = lemma_requested(fragments, mask, last as nat);
        let fewer = fragments.take(last);
        assert forall|i: int| 0 <= i < before.len() implies #[trigger] before[i] < last by {
            assert(before.contains(before[i]));
        }
        if mask & (1u8 << (last as u8)) != 0 {
            let places = before.push(last);
            assert forall|i: int|
                #![trigger places.contains(i)]
                places.contains(i) <==> 0 <= i < count && mask & (1u8 << (i as u8)) != 0 by {
                if before.contains(i) {
                    let k = choose|k: int| 0 <= k < before.len() && before[k] == i;
                    assert(places[k] == i);
                }
                if places.contains(i) && i != last {
                    let k = choose|k: int| 0 <= k < places.len() && places[k] == i;
                    assert(before[k] == i);
                }
                assert(places[before.len() as int] == last);
                assert(before.contains(i) <==> 0 <= i < last && mask & (1u8 << (i as u8)) != 0);
            }
            assert(requested(fragments, mask, count) =~= places.map_values(
                |i: int| fragments[i],
            ));
            places
        } else {
            assert forall|i: int|
                #![trigger before.contains(i)]
                before.contains(i) <==> 0 <= i < count && mask & (1u8 << (i as u8)) != 0 by {
                assert(before.contains(i) <==> 0 <= i < last && mask & (1u8 << (i as u8)) != 0);
            }
            before
        }
    }
}

/// A request is answered with the fragments whose bits are set, each once and in order. A packet
/// that was sent whole is sent whole, whichever bits are set.
pub proof fn law_requested_fragments_are_sent(fragments: Seq<FragmentModel>, mask: u8) -> (places:
    Seq<int>)
    ensures
        fragments.len() == 1 ==> answer_of(fragments, mask) == fragments,
        fragments.len() != 1 ==> is_selection(places, fragments, mask) && answer_of(
            fragments,
            mask,
        ) == places.map_values(|i: int| fragments[i]),
{
    let places = lemma_requested(fragments, mask, fragments.len());
    assert(fragments.take(fragments.len() as int) =~= fragments);
    places
}

/// Forgetting stops at the first packet that is not old.
proof fn lemma_old_are_forgotten(
    packets: Map<u64, CachedModel>,
    order: Seq<u64>,
    now: u64,
    ttl: u64,
)
    requires
        is_listed_once(packets, order),
        forall|i: int, j: int|
            0 <= i < j < order.len() ==> packets[#[trigger] order[i]].stored_at
                <= packets[#[trigger] order[j]].stored_at,
    ensures
        forall|s: u64| #[trigger]
            unexpired(packets, order, now, ttl).0.contains_key(s) ==> time::elapsed(
                now,
                packets[s].stored_at,
            ) < ttl,
    decreases order.len(),
{
    if order.len() > 0 && time::elapsed(now, packets[order[0]].stored_at) >= ttl {
        let rest = order.drop_first();
        let fewer = packets.remove(order[0]);
        lemma_drop_first(packets, order);
        assert(order.to_set().contains(order[0]));
        assert forall|i: int, j: int| 0 <= i < j < rest.len() implies fewer[#[trigger] rest[i]].stored_at
            <= fewer[#[trigger] rest[j]].stored_at by {
            assert(rest[i] == order[i + 1] && rest[j] == order[j + 1]);
            assert(order[i + 1] != order[0] && order[j + 1] != order[0]);
        }
        lemma_old_are_forgotten(fewer, rest, now, ttl);
        lemma_unexpired(fewer, rest, now, ttl);
        assert forall|s: u64| #[trigger]
            unexpired(packets, order, now, ttl).0.contains_key(s) implies time::elapsed(
            now,
            packets[s].stored_at,
        ) < ttl by {
            assert(unexpired(fewer, rest, now, ttl).0.contains_key(s));
            assert(fewer.contains_key(s));
        }
    } else {
        assert forall|s: u64| #[trigger]
            unexpired(packets, order, now, ttl).0.contains_key(s) implies time::elapsed(
            now,
            packets[s].stored_at,
        ) < ttl by {
            assert(order.to_set().contains(s));
            let k = choose|k: int| 0 <= k < order.len() && order[k] == s;
            if order.len() > 0 {
                assert(order.to_set().contains(order[0]));
            }
            if k > 0 {
                assert(packets[order[0]].stored_at <= packets[order[k]].stored_at);
            }
        }
    }
}

/// A packet is remembered for as long as it is not too old and no longer, if the packets came in
/// the order of their times.
pub proof fn law_packets_are_remembered_for_a_time(
    cache: CacheModel,
    max_packets: usize,
    ttl: u64,
    now: u64,
    sequence: u64,
)
    requires
        cache.well_formed(max_packets),
        forall|i: int, j: int|
            0 <= i < j < cache.order.len() ==> cache.packets[#[trigger] cache.order[i]].stored_at
                <= cache.packets[#[trigger] cache.order[j]].stored_at,
    ensures
        cache.refreshed(ttl, now).packets.contains_key(sequence) <==> cache.packets.contains_key(
            sequence,
        ) && time::elapsed(now, cache.packets[sequence].stored_at) < ttl,
        cache.refreshed(ttl, now).packets.contains_key(sequence) ==> cache.refreshed(
            ttl,
            now,
        ).packets[sequence] == cache.packets[sequence],
        REPAIR_REQUEST_DEDUP_WINDOW == 10_000_000,
{
    lemma_refreshed(cache, max_packets, ttl, now);
    lemma_old_are_forgotten(cache.packets, cache.order, now, ttl);
}

/// Four requests are remembered for each packet that is, and one at least.
pub proof fn law_four_requests_are_remembered_for_each_packet(max_packets: usize)
    ensures
        max_packets == 0 ==> request_limit(max_packets) == 1,
        0 < max_packets && 4 * max_packets <= usize::MAX ==> request_limit(max_packets) == 4
            * max_packets,
        4 * max_packets > usize::MAX ==> request_limit(max_packets) == usize::MAX,
{
}

} // verus!
