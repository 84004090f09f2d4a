//! Into how many parts a payload is divided, and what is shown of it.

use crate::fec;
use crate::fec::GroupScan;
use crate::protocol::FecFrameView;
use crate::receive::BufferedModel;
use crate::sending;
use crate::sending::{PlanKind, SendOptions, SendPath};
use crate::sequence;
use crate::split;
use crate::strategy::{PathStrategy, StrategyMode};
use vstd::prelude::*;

verus! {

/// A packet makes as few chunks of a size as hold it.
pub proof fn law_chunks_are_as_few_as_hold_the_packet(packet_len: usize, max_payload: usize)
    requires
        max_payload > 0,
    ensures
        ({
            let count = split::chunk_count(packet_len, max_payload);
            &&& packet_len <= count * max_payload
            &&& packet_len > 0 ==> (count - 1) * max_payload < packet_len
            &&& packet_len == 0 ==> count == 0
        }),
{
    if packet_len > 0 {
        let q = (packet_len - 1) / (max_payload as int);
        assert(q * max_payload <= packet_len - 1 && packet_len - 1 < (q + 1) * max_payload)
            by (nonlinear_arith)
            requires
                q == (packet_len - 1) / (max_payload as int),
                max_payload > 0,
                packet_len > 0,
        ;
    } else {
        assert(0 * max_payload == 0) by (nonlinear_arith);
    }
}

/// A packet that reaches the greatest size is divided into chunks of that size, unless it is longer
/// than seven of them. One that does not is divided among at most seven paths in any case.
#[verifier::spinoff_prover]
pub proof fn law_division_has_at_most_seven_parts(
    packet_len: usize,
    cuts: Seq<usize>,
    mtu: Option<usize>,
)
    requires
        mtu matches Some(limit) ==> limit > 0,
    ensures
        (mtu matches Some(limit) && packet_len >= limit) ==> (split::division_of(
            packet_len,
            cuts,
            mtu,
        ) is None <==> packet_len > 7 * mtu->0),
        !(mtu matches Some(limit) && packet_len >= limit) && cuts.len() <= 7 ==> split::division_of(
            packet_len,
            cuts,
            mtu,
        ) is Some,
        !(mtu matches Some(limit) && packet_len >= limit) ==> (split::division_of(
            packet_len,
            cuts,
            mtu,
        ) matches Some(parts) ==> parts.len() <= 7),
{
    if let Some(limit) = mtu {
        if packet_len >= limit {
            law_chunks_are_as_few_as_hold_the_packet(packet_len, limit);
            let count = split::chunk_count(packet_len, limit);
            assert(count > 7 <==> packet_len > 7 * limit) by (nonlinear_arith)
                requires
                    packet_len <= count * limit,
                    (count - 1) * limit < packet_len,
                    limit > 0,
            ;
        }
    }
    lemma_ranges(packet_len, cuts, cuts.len());
    let ranges = split::ranges_of(packet_len, cuts, cuts.len());
    lemma_filled(ranges, ranges.len());
}

proof fn lemma_ranges(packet_len: usize, cuts: Seq<usize>, count: nat)
    ensures
        split::ranges_of(packet_len, cuts, count).len() == count,
    decreases count,
{
    if count > 0 {
        lemma_ranges(packet_len, cuts, (count - 1) as nat);
    }
}

proof fn lemma_filled(ranges: Seq<(usize, usize)>, count: nat)
    ensures
        split::filled_ranges(ranges, count).len() <= count,
    decreases count,
{
    if count > 0 {
        lemma_filled(ranges, (count - 1) as nat);
    }
}

/// The paths that are shown as in use are those that take shares while packets are split, and all
/// connected ones otherwise. None are shown anew for a payload that is not sent, nor for one in
/// chunks that are not shared.
pub proof fn law_paths_in_use_are_shown(
    payload: Seq<u8>,
    options: SendOptions,
    paths: Seq<SendPath>,
    mode: StrategyMode,
    strategy: PathStrategy,
    split_names: Seq<Seq<char>>,
    rescue_names: Seq<Seq<char>>,
)
    ensures
        ({
            let plan = sending::plan_of(
                payload,
                options,
                paths,
                mode,
                strategy,
                split_names,
                rescue_names,
            );
            let chunked = options.mpeg_ts_chunk_bytes matches Some(chunk) && payload.len() > chunk
                && split::is_mpeg_ts(payload);
            let connected = sending::active_paths(paths);
            let sharing = sending::named_paths(paths, split_names);
            &&& plan.active == connected
            &&& plan.split == sharing
            &&& plan.rescue == sending::named_paths(paths, rescue_names)
            &&& chunked && plan.kind == PlanKind::SplitChunks ==> plan.shown == Some(sharing)
            &&& chunked && plan.kind != PlanKind::SplitChunks ==> plan.shown is None
            &&& !chunked && connected.len() == 0 ==> plan.shown is None
            &&& !chunked && connected.len() > 0 && strategy == PathStrategy::Split ==> plan.shown
                == Some(sharing)
            &&& !chunked && connected.len() > 0 && strategy != PathStrategy::Split ==> plan.shown
                == Some(connected)
        }),
{
}

/// What is shared among the paths is counted: the chunks of a payload that is sent in chunks, or
/// that reaches the greatest size, and otherwise its bytes. Nothing is counted if nothing is shared.
#[verifier::spinoff_prover]
pub proof fn law_what_is_shared_is_counted(
    payload: Seq<u8>,
    options: SendOptions,
    paths: Seq<SendPath>,
    mode: StrategyMode,
    strategy: PathStrategy,
    split_names: Seq<Seq<char>>,
    rescue_names: Seq<Seq<char>>,
)
    requires
        options.well_formed(),
        payload.len() <= usize::MAX,
    ensures
        ({
            let plan = sending::plan_of(
                payload,
                options,
                paths,
                mode,
                strategy,
                split_names,
                rescue_names,
            );
            let units = plan.units as int;
            &&& plan.kind == PlanKind::SplitChunks ==> {
                let chunk = options.mpeg_ts_chunk_bytes->0 as int;
                (units - 1) * chunk < payload.len() <= units * chunk
            }
            &&& plan.kind == PlanKind::SplitPacket && (options.mtu matches Some(mtu)
                && payload.len() >= mtu) ==> {
                let mtu = options.mtu->0 as int;
                (units - 1) * mtu < payload.len() <= units * mtu
            }
            &&& plan.kind == PlanKind::SplitPacket && !(options.mtu matches Some(mtu)
                && payload.len() >= mtu) ==> units == payload.len()
            &&& plan.kind != PlanKind::SplitChunks && plan.kind != PlanKind::SplitPacket ==> units
                == 0
        }),
{
    let len = payload.len() as usize;
    if let Some(chunk) = options.mpeg_ts_chunk_bytes {
        if chunk > 0 {
            law_chunks_are_as_few_as_hold_the_packet(len, chunk);
            lemma_count_is_small(len, chunk);
        }
    }
    if let Some(mtu) = options.mtu {
        law_chunks_are_as_few_as_hold_the_packet(len, mtu);
        lemma_count_is_small(len, mtu);
    }
}

proof fn lemma_count_is_small(packet_len: usize, max_payload: usize)
    requires
        max_payload > 0,
    ensures
        split::chunk_count(packet_len, max_payload) <= packet_len,
{
    if packet_len > 0 {
        assert((packet_len - 1) / (max_payload as int) <= packet_len - 1) by (nonlinear_arith)
            requires
                max_payload > 0,
                packet_len > 0,
        ;
    }
}

/// The scan of a group from a place on finds nothing to recover if a payload behind it has not the
/// length that the frame tells.
proof fn lemma_scan_of_mismatch(
    frame: FecFrameView,
    payloads: Map<u64, Seq<u8>>,
    buffered: Map<u64, BufferedModel>,
    index: int,
    parity: Seq<u8>,
    missing: Option<(u64, usize)>,
    wrong: int,
)
    requires
        0 <= index <= wrong < frame.payload_lengths.len(),
        fec::known_payload(
            payloads,
            buffered,
            sequence::following_by(frame.base_sequence, wrong as nat),
        ) matches Some(payload) && payload.len() != frame.payload_lengths[wrong],
    ensures
        fec::scan_from(frame, payloads, buffered, index, parity, missing) is Unusable
            || fec::scan_from(frame, payloads, buffered, index, parity, missing) is Waiting,
    decreases frame.payload_lengths.len() - index,
{
    if index < wrong {
        let length = frame.payload_lengths[index];
        let at = sequence::following_by(frame.base_sequence, index as nat);
        match fec::known_payload(payloads, buffered, at) {
            Some(payload) => {
                lemma_scan_of_mismatch(
                    frame,
                    payloads,
                    buffered,
                    index + 1,
                    fec::combined(parity, payload),
                    missing,
                    wrong,
                );
            },
            None => {
                lemma_scan_of_mismatch(
                    frame,
                    payloads,
                    buffered,
                    index + 1,
                    parity,
                    Some((at, length)),
                    wrong,
                );
            },
        }
    }
}

/// Nothing is recovered by a frame that does not fit the payloads at hand: if one of them has not
/// the length that the frame tells of it, no payload is made up.
pub proof fn law_frame_that_does_not_fit_recovers_nothing(
    frame: FecFrameView,
    payloads: Map<u64, Seq<u8>>,
    buffered: Map<u64, BufferedModel>,
    wrong: int,
)
    requires
        0 <= wrong < frame.payload_lengths.len(),
        fec::known_payload(
            payloads,
            buffered,
            sequence::following_by(frame.base_sequence, wrong as nat),
        ) matches Some(payload) && payload.len() != frame.payload_lengths[wrong],
    ensures
        !(fec::scan(frame, payloads, buffered) is Missing),
        !(fec::scan(frame, payloads, buffered) is Whole),
{
    lemma_scan_of_mismatch(frame, payloads, buffered, 0, frame.parity, None, wrong);
}

/// A payload that is recovered was not at hand, belongs to the group, and has the length that the
/// frame tells of it, and every other payload of the group was at hand.
pub proof fn law_recovered_payload_was_missing(
    frame: FecFrameView,
    payloads: Map<u64, Seq<u8>>,
    buffered: Map<u64, BufferedModel>,
    place: int,
)
    requires
        fec::scan(frame, payloads, buffered) is Missing,
        0 <= place < frame.payload_lengths.len(),
    ensures
        ({
            let found = fec::scan(frame, payloads, buffered);
            let at = sequence::following_by(frame.base_sequence, place as nat);
            &&& fec::known_payload(payloads, buffered, found->sequence) is None
            &&& fec::known_payload(payloads, buffered, at) is None ==> found->sequence == at
                && found->payload.len() == frame.payload_lengths[place]
        }),
{
    lemma_scan_of_missing(frame, payloads, buffered, 0, frame.parity, None, place);
}

proof fn lemma_scan_of_missing(
    frame: FecFrameView,
    payloads: Map<u64, Seq<u8>>,
    buffered: Map<u64, BufferedModel>,
    index: int,
    parity: Seq<u8>,
    missing: Option<(u64, usize)>,
    place: int,
)
    requires
        0 <= index <= frame.payload_lengths.len(),
        0 <= place < frame.payload_lengths.len(),
        fec::scan_from(frame, payloads, buffered, index, parity, missing) is Missing,
        missing matches Some((at, length)) ==> fec::known_payload(payloads, buffered, at) is None
            && length <= parity.len(),
    ensures
        ({
            let found = fec::scan_from(frame, payloads, buffered, index, parity, missing);
            let at = sequence::following_by(frame.base_sequence, place as nat);
            &&& fec::known_payload(payloads, buffered, found->sequence) is None
            &&& missing matches Some((earlier, length)) ==> found->sequence == earlier
                && found->payload.len() == length
            &&& place >= index && fec::known_payload(payloads, buffered, at) is None
                ==> found->sequence == at && found->payload.len() == frame.payload_lengths[place]
        }),
    decreases frame.payload_lengths.len() - index,
{
    if index < frame.payload_lengths.len() {
        let length = frame.payload_lengths[index];
        let at = sequence::following_by(frame.base_sequence, index as nat);
        match fec::known_payload(payloads, buffered, at) {
            Some(payload) => {
                lemma_scan_of_missing(
                    frame,
                    payloads,
                    buffered,
                    index + 1,
                    fec::combined(parity, payload),
                    missing,
                    place,
                );
            },
            None => {
                if missing is None {
                    lemma_scan_of_missing(
                        frame,
                        payloads,
                        buffered,
                        index + 1,
                        parity,
                        Some((at, length)),
                        place,
                    );
                }
            },
        }
    }
}

/// Each path gets the bytes from where the path before it stopped to its cut. A cut that lies before
/// that leaves it none, one beyond the packet gives it the rest, and the last path gets the rest in
/// any case.
pub proof fn law_each_range_ends_at_its_cut(packet_len: usize, cuts: Seq<usize>, place: int)
    requires
        0 <= place < cuts.len(),
    ensures
        ({
            let ranges = split::ranges_of(packet_len, cuts, cuts.len());
            let (start, end) = ranges[place];
            &&& ranges.len() == cuts.len()
            &&& start == if place == 0 {
                0
            } else {
                ranges[place - 1].1
            }
            &&& start <= end <= packet_len
            &&& place == cuts.len() - 1 ==> end == packet_len
            &&& place < cuts.len() - 1 && cuts[place] <= start ==> end == start
            &&& place < cuts.len() - 1 && start <= cuts[place] <= packet_len ==> end == cuts[place]
            &&& place < cuts.len() - 1 && cuts[place] >= packet_len ==> end == packet_len
        }),
{
    lemma_range_at(packet_len, cuts, cuts.len(), place);
}

proof fn lemma_range_at(packet_len: usize, cuts: Seq<usize>, count: nat, place: int)
    requires
        0 <= place < count <= cuts.len(),
    ensures
        ({
            let ranges = split::ranges_of(packet_len, cuts, count);
            let (start, end) = ranges[place];
            &&& ranges.len() == count
            &&& start == if place == 0 {
                0
            } else {
                ranges[place - 1].1
            }
            &&& start <= end <= packet_len
            &&& place == cuts.len() - 1 ==> end == packet_len
            &&& place < cuts.len() - 1 && cuts[place] <= start ==> end == start
            &&& place < cuts.len() - 1 && start <= cuts[place] <= packet_len ==> end == cuts[place]
            &&& place < cuts.len() - 1 && cuts[place] >= packet_len ==> end == packet_len
        }),
    decreases count,
{
    lemma_ranges(packet_len, cuts, count);
    let before = split::ranges_of(packet_len, cuts, (count - 1) as nat);
    let ranges = split::ranges_of(packet_len, cuts, count);
    lemma_ranges(packet_len, cuts, (count - 1) as nat);
    if place < count - 1 {
        lemma_range_at(packet_len, cuts, (count - 1) as nat, place);
        assert(ranges[place] == before[place]);
        if place > 0 {
            assert(ranges[place - 1] == before[place - 1]);
        }
    } else if count > 1 {
        lemma_range_at(packet_len, cuts, (count - 1) as nat, count - 2);
        assert(before.last() == before[count - 2]);
        assert(ranges[place - 1] == before[place - 1]);
    }
}

/// A payload that is sent in chunks has each chunk sent over every path if packets are sent
/// redundantly, or the mode asks for it, over one path in turn if the paths take turns, and over the
/// path whose share it is otherwise. Without a connected path, or one that takes a share, it is not
/// sent.
pub proof fn law_kinds_of_chunks(
    mode: StrategyMode,
    strategy: PathStrategy,
    active: Seq<usize>,
    sharing: Seq<usize>,
)
    ensures
        ({
            let kind = sending::chunk_kind(mode, strategy, active, sharing);
            let some = active.len() > 0;
            let turns = strategy == PathStrategy::RoundRobin;
            let all = strategy == PathStrategy::Redundant || mode == StrategyMode::Redundant;
            &&& kind == PlanKind::RoundRobinChunks <==> some && turns
            &&& kind == PlanKind::RedundantChunks <==> some && !turns && all
            &&& kind == PlanKind::SplitChunks <==> some && !turns && !all && sharing.len() > 0
            &&& kind == PlanKind::Held <==> !some || !turns && !all && sharing.len() == 0
        }),
{
}

/// A payload that is sent as one packet is not sent without a connected path, is divided if it is to
/// be, goes over one path in turn if the paths take turns, and over every path otherwise.
pub proof fn law_kinds_of_packets(
    packet_len: usize,
    options: SendOptions,
    mode: StrategyMode,
    strategy: PathStrategy,
    active: Seq<usize>,
    sharing: Seq<usize>,
)
    ensures
        ({
            let kind = sending::packet_kind(packet_len, options, mode, strategy, active, sharing);
            let some = active.len() > 0;
            let turns = strategy == PathStrategy::RoundRobin;
            let divided = split::splits(
                packet_len,
                options.split_threshold_bytes,
                options.mtu,
                sharing.len() as usize,
                mode,
                strategy,
            );
            &&& kind == PlanKind::Dropped <==> !some
            &&& kind == PlanKind::SplitPacket <==> some && divided
            &&& kind == PlanKind::RoundRobinPacket <==> some && !divided && turns
            &&& kind == PlanKind::RedundantPacket <==> some && !divided && !turns
        }),
{
}

} // verus!
