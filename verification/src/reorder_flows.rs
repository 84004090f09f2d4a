//! That packets which come over one connection make one flow, as long as it is not forgotten.

use crate::fec;
use crate::fec::{FecModel, GroupScan, SourceModel};
use crate::ordered;
use crate::protocol::{
    FecFrameView, RepairRequest, MAX_MEDIA_SEQUENCE, REPAIR_ALL_FRAGMENTS_MASK,
};
use crate::receive;
use crate::receive::{AssemblyModel, BufferedModel, FecModelFrame, FrameModel, PacketModel};
use crate::reorder_laws;
use crate::reorder_laws::Event;
use crate::reorder_model;
use crate::reorder_model::{
    ActionModel, ReorderModel, ReorderOptions, SkipReason, MAX_REPAIR_REQUESTS_PER_TICK,
};
use crate::sequence;
use crate::time;
use crate::tracking;
use vstd::prelude::*;

verus! {

/// Whether a parity frame covers sequence numbers below the greatest alone.
pub open spec fn stays_below(frame: FecFrameView) -> bool {
    frame.base_sequence + frame.payload_lengths.len() <= MAX_MEDIA_SEQUENCE
}

/// Whether an event brings no packet of another connection.
pub open spec fn comes_over(event: Event, connection: usize) -> bool {
    event matches Some(FrameModel::Packet(packet)) ==> packet.connection_id == connection
}

/// Whether an event brings or covers sequence numbers below the greatest alone.
pub open spec fn is_below(event: Event) -> bool {
    match event {
        Some(FrameModel::Packet(packet)) => packet.header.sequence < MAX_MEDIA_SEQUENCE,
        Some(FrameModel::Fec(fec)) => stays_below(fec.frame),
        None => true,
    }
}

/// Whether the flow is never forgotten: whenever nothing comes in time, something waits.
pub open spec fn is_never_forgotten(events: Seq<(Event, u64)>, options: ReorderOptions) -> bool {
    forall|k: int|
        0 <= k < events.len() && (#[trigger] events[k]).0 is None ==> {
            let before = reorder_laws::run(events.take(k), options);
            !before.initialized || before.has_pending_state()
        }
}

/// The sequence number of the first packet, if any came.
pub open spec fn first_sequence(events: Seq<(Event, u64)>) -> Option<u64>
    decreases events.len(),
{
    if events.len() == 0 {
        None
    } else {
        match first_sequence(events.drop_last()) {
            Some(first) => Some(first),
            None => match events.last().0 {
                Some(FrameModel::Packet(packet)) => Some(packet.header.sequence),
                _ => None,
            },
        }
    }
}

/// A flow: its connection, the sequence number of its first packet, and whether all of its sequence
/// numbers stay below the greatest.
struct FlowModel {
    connection: usize,
    first: u64,
    below: bool,
}

/// Whether an action starts no flow, and passes no sequence number that the flow does not have.
spec fn is_plain(action: ActionModel, below: bool) -> bool {
    &&& reorder_laws::started(action) is None
    &&& below ==> (reorder_laws::passed(action) matches Some(sequence) ==> sequence
        < MAX_MEDIA_SEQUENCE)
}

/// Whether the frames that are kept cover sequence numbers below the greatest alone.
spec fn frames_stay_below(fec: FecModel) -> bool {
    forall|base: u64| #[trigger] fec.frames.contains_key(base) ==> stays_below(fec.frames[base])
}

/// Whether what waits is not behind, and no sequence number waits both whole and in part.
spec fn is_ahead(state: ReorderModel) -> bool {
    &&& forall|s: u64| #[trigger]
        state.buffered.contains_key(s) ==> state.next_seq <= s < MAX_MEDIA_SEQUENCE
            && !state.fragments.contains_key(s)
    &&& forall|s: u64| #[trigger]
        state.fragments.contains_key(s) ==> state.next_seq <= s < MAX_MEDIA_SEQUENCE
}

/// Whether the actions start one flow, with the first packet, and no other.
spec fn starts_once(actions: Seq<ActionModel>, flow: FlowModel) -> bool {
    &&& actions.len() > 2
    &&& actions[0] is Received
    &&& actions[1] is ReplyRoute
    &&& actions[2] == (ActionModel::FlowStart { next_seq: flow.first })
    &&& forall|i: int| 2 < i < actions.len() ==> is_plain(#[trigger] actions[i], flow.below)
}

/// Whether a state is that of one flow over one connection.
spec fn is_steady(state: ReorderModel, flow: FlowModel) -> bool {
    &&& state.initialized
    &&& state.connections.contains(flow.connection)
    &&& flow.below ==> is_ahead(state) && frames_stay_below(state.fec)
    &&& starts_once(state.actions, flow)
}

/// Whether a state is that before any packet.
spec fn is_fresh(state: ReorderModel, below: bool) -> bool {
    &&& !state.initialized
    &&& state.buffered == Map::<u64, BufferedModel>::empty()
    &&& state.fragments == Map::<u64, AssemblyModel>::empty()
    &&& below ==> frames_stay_below(state.fec)
    &&& state.actions.len() == 0
}

/// A plain action keeps a flow as it is.
proof fn lemma_act(state: ReorderModel, action: ActionModel, flow: FlowModel)
    requires
        is_steady(state, flow),
        is_plain(action, flow.below),
    ensures
        is_steady(state.act(action), flow),
{
    let after = state.act(action);
    assert forall|i: int| 2 < i < after.actions.len() implies is_plain(
        #[trigger] after.actions[i],
        flow.below,
    ) by {
        if i < state.actions.len() {
            assert(after.actions[i] == state.actions[i]);
        }
    }
}

proof fn lemma_delivered(
    state: ReorderModel,
    payload: Seq<u8>,
    flow: FlowModel,
)
    requires
        is_steady(state, flow),
        flow.below ==> state.next_seq < MAX_MEDIA_SEQUENCE && !state.buffered.contains_key(
            state.next_seq,
        ) && !state.fragments.contains_key(state.next_seq),
    ensures
        is_steady(state.delivered(payload), flow),
{
    let next = sequence::following(state.next_seq);
    let moved = ReorderModel {
        next_seq: next,
        seen: state.seen.remove(state.next_seq),
        gap_requests: state.gap_requests.remove(state.next_seq),
        fec: state.fec.with_payload(state.next_seq, payload),
        ..state
    };
    assert(moved.fec.frames == state.fec.frames);
    assert(flow.below ==> frames_stay_below(moved.fec));
    assert(flow.below ==> is_ahead(moved));
    lemma_act(
        moved,
        ActionModel::Forward {
            sequence: state.next_seq,
            payload,
            buffered: state.waiting(),
            next_seq: next,
        },
        flow,
    );
}

proof fn lemma_drained(state: ReorderModel, flow: FlowModel)
    requires
        is_steady(state, flow),
        state.buffered.dom().finite(),
    ensures
        is_steady(state.drained(), flow),
    decreases state.buffered.dom().len(),
{
    if state.buffered.contains_key(state.next_seq) {
        let rest = ReorderModel { buffered: state.buffered.remove(state.next_seq), ..state };
        if flow.below {
            assert(is_ahead(rest)) by {
                assert forall|s: u64| #[trigger] rest.buffered.contains_key(s) implies rest.next_seq
                    <= s < MAX_MEDIA_SEQUENCE && !rest.fragments.contains_key(s) by {
                    assert(state.buffered.contains_key(s));
                }
            }
        }
        let payload = state.buffered[state.next_seq].payload;
        lemma_delivered(rest, payload, flow);
        lemma_drained(rest.delivered(payload), flow);
    }
}

proof fn lemma_accepted(
    state: ReorderModel,
    sequence: u64,
    payload: Seq<u8>,
    now: u64,
    flow: FlowModel,
)
    requires
        is_steady(state, flow),
        state.buffered.dom().finite(),
        flow.below ==> state.next_seq <= sequence < MAX_MEDIA_SEQUENCE
            && !state.buffered.contains_key(sequence) && !state.fragments.contains_key(sequence),
    ensures
        is_steady(state.accepted(sequence, payload, now), flow),
{
    if sequence == state.next_seq {
        lemma_delivered(state, payload, flow);
        lemma_drained(state.delivered(payload), flow);
    } else {
        let waiting = ReorderModel {
            buffered: state.buffered.insert(
                sequence,
                BufferedModel { payload, received_at: now },
            ),
            seen: state.seen.insert(sequence),
            fec: state.fec.with_payload(sequence, payload),
            ..state
        };
        assert(waiting.fec.frames == state.fec.frames);
        assert(flow.below ==> frames_stay_below(waiting.fec));
        if flow.below {
            assert(is_ahead(waiting)) by {
                assert forall|s: u64| #[trigger]
                    waiting.buffered.contains_key(s) implies waiting.next_seq <= s < MAX_MEDIA_SEQUENCE
                    && !waiting.fragments.contains_key(s) by {
                    if s != sequence {
                        assert(state.buffered.contains_key(s));
                    }
                }
            }
        }
        lemma_act(
            waiting,
            ActionModel::Buffered { buffered: waiting.waiting(), next_seq: state.next_seq },
            flow,
        );
    }
}

/// Dropping the fragments of a packet keeps a flow as it is.
proof fn lemma_without_fragments(
    state: ReorderModel,
    sequence: u64,
    flow: FlowModel,
)
    requires
        is_steady(state, flow),
    ensures
        is_steady(
            ReorderModel { fragments: state.fragments.remove(sequence), ..state },
            flow,
        ),
{
    let rest = ReorderModel { fragments: state.fragments.remove(sequence), ..state };
    if flow.below {
        assert forall|s: u64| #[trigger] rest.fragments.contains_key(s) implies rest.next_seq <= s
            < MAX_MEDIA_SEQUENCE by {
            assert(state.fragments.contains_key(s));
        }
    }
}

proof fn lemma_accepted_each(
    state: ReorderModel,
    list: Seq<SourceModel>,
    now: u64,
    flow: FlowModel,
)
    requires
        state.well_formed(),
        is_steady(state, flow),
        forall|i: int| 0 <= i < list.len() ==> (#[trigger] list[i]).0 <= MAX_MEDIA_SEQUENCE,
        flow.below ==> forall|i: int|
            0 <= i < list.len() ==> (#[trigger] list[i]).0 < MAX_MEDIA_SEQUENCE,
    ensures
        is_steady(state.accepted_each(list, now), flow),
    decreases list.len(),
{
    if list.len() > 0 {
        let (sequence, payload) = list[0];
        assert(list[0].0 <= MAX_MEDIA_SEQUENCE);
        state.lemma_accepted_recovered(sequence, payload, now, 0);
        if sequence < state.next_seq || state.seen.contains(sequence)
            || state.buffered.contains_key(sequence) {
        } else {
            lemma_without_fragments(state, sequence, flow);
            let rest = ReorderModel { fragments: state.fragments.remove(sequence), ..state };
            let action = ActionModel::FecRecovered { sequence, bytes: payload.len() as u64 };
            lemma_act(rest, action, flow);
            lemma_accepted(rest.act(action), sequence, payload, now, flow);
        }
        lemma_accepted_each(
            state.accepted_recovered(sequence, payload, now),
            list.drop_first(),
            now,
            flow,
        );
    }
}

/// As long as they do not wrap around, sequence numbers are counted up.
proof fn lemma_counted_up(base: u64, offset: nat)
    requires
        base + offset <= MAX_MEDIA_SEQUENCE,
    ensures
        sequence::following_by(base, offset) == base + offset,
    decreases offset,
{
    if offset > 0 {
        lemma_counted_up(base, (offset - 1) as nat);
    }
}

/// What parity frames recover has sequence numbers below the greatest if what they cover has.
proof fn lemma_recovered(state: ReorderModel, bases: Seq<u64>)
    requires
        frames_stay_below(state.fec),
        forall|i: int|
            0 <= i < bases.len() ==> state.fec.frames.contains_key(#[trigger] bases[i]),
    ensures
        forall|i: int|
            0 <= i < state.fec.recovered(state.buffered, state.next_seq, bases).len() ==> (
            #[trigger] state.fec.recovered(state.buffered, state.next_seq, bases)[i]).0
                < MAX_MEDIA_SEQUENCE,
    decreases bases.len(),
{
    if bases.len() > 0 {
        let shorter = bases.drop_last();
        assert forall|i: int| 0 <= i < shorter.len() implies state.fec.frames.contains_key(
            #[trigger] shorter[i],
        ) by {
            assert(bases[i] == shorter[i]);
        }
        lemma_recovered(state, shorter);
        assert(state.fec.frames.contains_key(bases[bases.len() - 1]));
        let frame = state.fec.frames[bases.last()];
        let before = state.fec.recovered(state.buffered, state.next_seq, shorter);
        let all = state.fec.recovered(state.buffered, state.next_seq, bases);
        if let GroupScan::Missing { sequence, .. } = fec::scan(
            frame,
            state.fec.payloads,
            state.buffered,
        ) {
            fec::lemma_missing_is_unknown(
                frame,
                state.fec.payloads,
                state.buffered,
                0,
                frame.parity,
                None,
            );
            let i = choose|i: int|
                0 <= i < frame.payload_lengths.len() && #[trigger] sequence::following_by(
                    frame.base_sequence,
                    i as nat,
                ) == sequence && fec::known_payload(
                    state.fec.payloads,
                    state.buffered,
                    sequence,
                ) is None;
            lemma_counted_up(frame.base_sequence, i as nat);
        }
        assert forall|i: int| 0 <= i < all.len() implies (#[trigger] all[i]).0
            < MAX_MEDIA_SEQUENCE by {
            if i < before.len() {
                assert(all[i] == before[i]);
            }
        }
    }
}

proof fn lemma_recovered_all(state: ReorderModel, now: u64, flow: FlowModel)
    requires
        state.well_formed(),
        is_steady(state, flow),
    ensures
        is_steady(state.recovered_all(now), flow),
    decreases state.fec.frames.dom().len(),
{
    state.lemma_recoverable();
    state.lemma_round(now);
    let kept = state.with_waiting_frames();
    if flow.below {
        assert(frames_stay_below(kept.fec)) by {
            assert forall|base: u64| #[trigger] kept.fec.frames.contains_key(base) implies stays_below(
                kept.fec.frames[base],
            ) by {
                assert(state.fec.frames.contains_key(base));
            }
        }
    }
    assert(flow.below ==> is_ahead(kept));
    let list = state.recoverable();
    if list.len() > 0 {
        let bases = ordered::ascending(state.fec.frames.dom());
        ordered::lemma_ascending_exists(state.fec.frames.dom());
        assert forall|i: int| 0 <= i < bases.len() implies state.fec.frames.contains_key(
            #[trigger] bases[i],
        ) by {
            assert(bases.to_set().contains(bases[i]));
        }
        if flow.below {
            lemma_recovered(state, bases);
        }
        kept.lemma_accepted_each(list, now, 0);
        lemma_accepted_each(kept, list, now, flow);
        lemma_recovered_all(kept.accepted_each(list, now), now, flow);
    }
}

proof fn lemma_fragments_requested(
    state: ReorderModel,
    keys: Seq<u64>,
    sent: nat,
    interval: u64,
    now: u64,
    flow: FlowModel,
)
    requires
        is_steady(state, flow),
        forall|i: int|
            0 <= i < keys.len() ==> state.fragments.contains_key(#[trigger] keys[i]),
    ensures
        is_steady(state.fragments_requested(keys, sent, interval, now), flow),
    decreases keys.len(),
{
    if keys.len() > 0 && sent < MAX_REPAIR_REQUESTS_PER_TICK {
        let rest = keys.drop_first();
        assert(state.fragments.contains_key(keys[0]));
        assert forall|i: int| 0 <= i < rest.len() implies state.fragments.contains_key(
            #[trigger] rest[i],
        ) by {
            assert(keys[i + 1] == rest[i]);
        }
        if state.fragments_are_due(keys[0], interval, now) {
            let assembly = state.fragments[keys[0]];
            let asked = ReorderModel {
                fragments: state.fragments.insert(
                    keys[0],
                    AssemblyModel { last_repair_request: Some(now), ..assembly },
                ),
                ..state
            };
            if flow.below {
                assert(is_ahead(asked)) by {
                    assert forall|s: u64| #[trigger]
                        asked.fragments.contains_key(s) implies asked.next_seq <= s
                        < MAX_MEDIA_SEQUENCE by {
                        assert(state.fragments.contains_key(s));
                    }
                    assert forall|s: u64| #[trigger]
                        asked.buffered.contains_key(s) implies asked.next_seq <= s < MAX_MEDIA_SEQUENCE
                        && !asked.fragments.contains_key(s) by {
                        assert(state.buffered.contains_key(s));
                    }
                }
            }
            let action = ActionModel::Repair {
                request: RepairRequest {
                    sequence: keys[0],
                    missing_mask: receive::missing_bits(assembly.parts),
                },
            };
            lemma_act(asked, action, flow);
            lemma_fragments_requested(
                asked.act(action),
                rest,
                sent + 1,
                interval,
                now,
                flow,
            );
        } else {
            lemma_fragments_requested(state, rest, sent, interval, now, flow);
        }
    }
}

proof fn lemma_repairs_requested(
    state: ReorderModel,
    interval: u64,
    now: u64,
    flow: FlowModel,
)
    requires
        state.well_formed(),
        is_steady(state, flow),
    ensures
        is_steady(state.repairs_requested(interval, now), flow),
{
    let keys = ordered::ascending(state.fragments.dom());
    ordered::lemma_ascending_exists(state.fragments.dom());
    assert forall|i: int| 0 <= i < keys.len() implies state.fragments.contains_key(
        #[trigger] keys[i],
    ) by {
        assert(keys.to_set().contains(keys[i]));
    }
    let asked = ReorderModel {
        gap_requests: state.gap_requests.insert(state.next_seq, now),
        ..state
    };
    assert(flow.below ==> is_ahead(asked));
    let action = ActionModel::Repair {
        request: RepairRequest {
            sequence: state.next_seq,
            missing_mask: REPAIR_ALL_FRAGMENTS_MASK,
        },
    };
    lemma_act(asked, action, flow);
    lemma_fragments_requested(asked.act(action), keys, 1, interval, now, flow);
    lemma_fragments_requested(state, keys, 0, interval, now, flow);
}

proof fn lemma_skip(
    state: ReorderModel,
    reason: SkipReason,
    flow: FlowModel,
)
    requires
        is_steady(state, flow),
        flow.below ==> state.next_seq < MAX_MEDIA_SEQUENCE && !state.buffered.contains_key(
            state.next_seq,
        ) && !state.fragments.contains_key(state.next_seq),
    ensures
        is_steady(state.skip(reason), flow),
{
    let next = sequence::following(state.next_seq);
    let moved = ReorderModel {
        next_seq: next,
        gap_requests: state.gap_requests.remove(state.next_seq),
        skipped: tracking::with_skipped(state.skipped, state.next_seq),
        ..state
    };
    assert(flow.below ==> is_ahead(moved));
    lemma_act(
        moved,
        ActionModel::Skipped {
            reason,
            sequence: state.next_seq,
            buffered: state.pending(),
            next_seq: next,
        },
        flow,
    );
}

proof fn lemma_expired(
    state: ReorderModel,
    delay: u64,
    now: u64,
    flow: FlowModel,
)
    requires
        state.well_formed(),
        is_steady(state, flow),
    ensures
        is_steady(state.expired(delay, now), flow),
    decreases
        state.fragments.dom().len(),
        reorder_model::steps_to(state.next_seq, state.some_pending()),
{
    state.lemma_skip(delay, now);
    state.lemma_skip_incomplete();
    if state.buffered.contains_key(state.next_seq) {
    } else if state.fragments.contains_key(state.next_seq) {
        if time::elapsed(now, state.fragments[state.next_seq].first_seen) >= delay {
            lemma_without_fragments(state, state.next_seq, flow);
            let rest = state.without_due();
            assert(flow.below ==> is_ahead(rest));
            lemma_skip(rest, SkipReason::FragmentIncomplete, flow);
            lemma_expired(
                rest.skip(SkipReason::FragmentIncomplete),
                delay,
                now,
                flow,
            );
        }
    } else if state.is_overdue(delay, now) {
        assert(flow.below ==> state.next_seq < MAX_MEDIA_SEQUENCE);
        lemma_skip(state, SkipReason::NeverReceived, flow);
        lemma_expired(
            state.skip(SkipReason::NeverReceived),
            delay,
            now,
            flow,
        );
    }
}

proof fn lemma_advanced(
    state: ReorderModel,
    options: ReorderOptions,
    now: u64,
    flow: FlowModel,
)
    requires
        state.well_formed(),
        is_steady(state, flow),
    ensures
        is_steady(state.advanced(options, now), flow),
{
    state.lemma_recovered_all(now, 0);
    lemma_recovered_all(state, now, flow);
    let recovered = state.recovered_all(now);
    let requested = match options.repair_request_interval {
        Some(interval) => {
            recovered.lemma_repairs_requested(interval, now, 0);
            lemma_repairs_requested(recovered, interval, now, flow);
            recovered.repairs_requested(interval, now)
        },
        None => recovered,
    };
    requested.lemma_expired(options.max_reorder_delay, now, 0);
    lemma_expired(requested, options.max_reorder_delay, now, flow);
    lemma_drained(requested.expired(options.max_reorder_delay, now), flow);
}

proof fn lemma_completed(
    state: ReorderModel,
    sequence: u64,
    payload: Seq<u8>,
    options: ReorderOptions,
    now: u64,
    flow: FlowModel,
)
    requires
        state.well_formed(),
        is_steady(state, flow),
        sequence <= MAX_MEDIA_SEQUENCE,
        flow.below ==> state.next_seq <= sequence < MAX_MEDIA_SEQUENCE
            && !state.buffered.contains_key(sequence) && !state.fragments.contains_key(sequence),
    ensures
        is_steady(state.completed(sequence, payload, options, now), flow),
{
    state.lemma_accepted(sequence, payload, now, 0);
    lemma_accepted(state, sequence, payload, now, flow);
    let accepted = state.accepted(sequence, payload, now);
    accepted.lemma_recovered_all(now, 0);
    lemma_recovered_all(accepted, now, flow);
    lemma_advanced(accepted.recovered_all(now), options, now, flow);
}

proof fn lemma_admitted(
    state: ReorderModel,
    packet: PacketModel,
    options: ReorderOptions,
    now: u64,
    flow: FlowModel,
)
    requires
        state.well_formed(),
        packet.header.is_media(),
        is_steady(state, flow),
        state.next_seq <= packet.header.sequence,
        flow.below ==> packet.header.sequence < MAX_MEDIA_SEQUENCE,
    ensures
        is_steady(state.admitted(packet, options, now), flow),
{
    let sequence = packet.header.sequence;
    let fragment = packet.header.fragment as int;
    let rest = ReorderModel { fragments: state.fragments.remove(sequence), ..state };
    state.lemma_without_fragments(sequence);
    lemma_without_fragments(state, sequence, flow);
    lemma_act(
        state,
        ActionModel::Duplicate { buffered: state.waiting(), next_seq: state.next_seq },
        flow,
    );
    if state.seen.contains(sequence) || state.buffered.contains_key(sequence) {
    } else if packet.header.fragments == 1 {
        lemma_completed(rest, sequence, packet.payload, options, now, flow);
    } else {
        let assembly = state.assembly_for(packet, now);
        if assembly.parts.len() != packet.header.fragments || assembly.parts[fragment] is Some {
        } else {
            let parts = assembly.parts.update(fragment, Some(packet.payload));
            if receive::complete(parts) {
                lemma_completed(
                    rest,
                    sequence,
                    receive::joined_parts(parts),
                    options,
                    now,
                    flow,
                );
            } else {
                state.lemma_with_parts(packet, now);
                let longer = state.with_parts(packet, parts, now);
                if flow.below {
                    assert(is_ahead(longer)) by {
                        assert forall|s: u64| #[trigger]
                            longer.fragments.contains_key(s) implies longer.next_seq <= s
                            < MAX_MEDIA_SEQUENCE by {
                            if s != sequence {
                                assert(state.fragments.contains_key(s));
                            }
                        }
                    }
                }
                let action = ActionModel::Buffered {
                    buffered: longer.pending(),
                    next_seq: state.next_seq,
                };
                lemma_act(longer, action, flow);
                let noted = longer.act(action);
                lemma_stays_well_formed(longer, noted);
                lemma_advanced(noted, options, now, flow);
            }
        }
    }
}

/// A state that holds what a well-formed state holds is well-formed.
proof fn lemma_stays_well_formed(state: ReorderModel, other: ReorderModel)
    requires
        state.well_formed(),
        other.buffered == state.buffered,
        other.fragments == state.fragments,
        other.fec == state.fec,
        other.skipped == state.skipped,
        other.next_seq <= MAX_MEDIA_SEQUENCE,
    ensures
        other.well_formed(),
{
    assert forall|s: u64| #[trigger] other.fragments.contains_key(s) implies s
        <= MAX_MEDIA_SEQUENCE && other.assembly_is_valid(s) by {
        assert(state.fragments.contains_key(s));
        assert(state.assembly_is_valid(s));
    }
}

proof fn lemma_on_packet(
    state: ReorderModel,
    packet: PacketModel,
    options: ReorderOptions,
    now: u64,
    flow: FlowModel,
)
    requires
        state.well_formed(),
        packet.header.is_media(),
        packet.connection_id == flow.connection,
        flow.below ==> packet.header.sequence < MAX_MEDIA_SEQUENCE,
        is_steady(state, flow) || is_fresh(state, flow.below) && packet.header.sequence
            == flow.first,
    ensures
        is_steady(state.on_packet(packet, options, now), flow),
{
    let begun = state.begun(packet);
    let sequence = packet.header.sequence;
    if state.initialized {
        let received = ActionModel::Received { bytes: packet.payload.len() as u64 };
        lemma_act(state, received, flow);
        lemma_act(
            state.act(received),
            ActionModel::ReplyRoute { remote: packet.remote, reset: false },
            flow,
        );
    }
    assert(is_steady(begun, flow));
    lemma_stays_well_formed(state, begun);
    if sequence >= begun.next_seq {
        let joined = ReorderModel {
            restart: tracking::no_restart(),
            connections: begun.connections.insert(packet.connection_id),
            ..begun
        };
        lemma_stays_well_formed(begun, joined);
        assert(flow.below ==> is_ahead(joined));
        assert(is_steady(joined, flow));
        lemma_admitted(joined, packet, options, now, flow);
    } else {
        lemma_act(
            begun,
            ActionModel::LateAfterSkip {
                sequence,
                buffered: begun.pending(),
                next_seq: begun.next_seq,
            },
            flow,
        );
        lemma_act(
            begun,
            ActionModel::Duplicate { buffered: begun.waiting(), next_seq: begun.next_seq },
            flow,
        );
    }
}

/// Keeping a parity frame that stays below the greatest sequence number.
proof fn lemma_with_frame(fec: FecModel, frame: FecFrameView)
    requires
        frames_stay_below(fec),
        stays_below(frame),
    ensures
        frames_stay_below(fec.with_frame(frame)),
{
    let base = frame.base_sequence;
    let all = fec.frames.insert(base, frame);
    let order = if fec.frames.contains_key(base) {
        fec.frame_order
    } else {
        fec.frame_order.push(base)
    };
    ordered::lemma_evicted_is_smaller(all, order, fec::FEC_FRAME_TRACK_LIMIT as nat);
    let after = fec.with_frame(frame);
    assert forall|key: u64| #[trigger] after.frames.contains_key(key) implies stays_below(
        after.frames[key],
    ) by {
        assert(all.contains_key(key));
        if key != base {
            assert(fec.frames.contains_key(key));
        }
    }
}

proof fn lemma_on_fec(
    state: ReorderModel,
    fec: FecModelFrame,
    options: ReorderOptions,
    now: u64,
    flow: FlowModel,
)
    requires
        state.well_formed(),
        fec.frame.base_sequence <= MAX_MEDIA_SEQUENCE,
        flow.below ==> stays_below(fec.frame),
        is_steady(state, flow) || is_fresh(state, flow.below),
    ensures
        is_steady(state, flow) ==> is_steady(
            state.on_fec(fec, options, now),
            flow,
        ),
        is_fresh(state, flow.below) ==> is_fresh(state.on_fec(fec, options, now), flow.below),
{
    fec::lemma_with_frame(state.fec, fec.frame);
    if flow.below {
        lemma_with_frame(state.fec, fec.frame);
    }
    let kept = ReorderModel { fec: state.fec.with_frame(fec.frame), ..state };
    if state.initialized {
        assert(kept.well_formed()) by {
            assert forall|s: u64| #[trigger] kept.fragments.contains_key(s) implies s
                <= MAX_MEDIA_SEQUENCE && kept.assembly_is_valid(s) by {
                assert(state.fragments.contains_key(s));
                assert(state.assembly_is_valid(s));
            }
        }
        assert(flow.below ==> is_ahead(kept));
        let route = ActionModel::ReplyRoute { remote: fec.remote, reset: false };
        lemma_act(kept, route, flow);
        let routed = kept.act(route);
        lemma_stays_well_formed(kept, routed);
        routed.lemma_recovered_all(now, 0);
        lemma_recovered_all(routed, now, flow);
        lemma_advanced(routed.recovered_all(now), options, now, flow);
    }
}

/// What a run of events over one connection leaves.
proof fn lemma_run(
    events: Seq<(Event, u64)>,
    options: ReorderOptions,
    connection: usize,
    below: bool,
)
    requires
        forall|i: int| 0 <= i < events.len() ==> reorder_laws::is_valid((#[trigger] events[i]).0),
        forall|i: int| 0 <= i < events.len() ==> comes_over((#[trigger] events[i]).0, connection),
        below ==> forall|i: int| 0 <= i < events.len() ==> is_below((#[trigger] events[i]).0),
        is_never_forgotten(events, options),
    ensures
        match first_sequence(events) {
            Some(first) => is_steady(
                reorder_laws::run(events, options),
                FlowModel { connection, first, below },
            ),
            None => is_fresh(reorder_laws::run(events, options), below),
        },
    decreases events.len(),
{
    if events.len() > 0 {
        let earlier = events.drop_last();
        let last = events.len() - 1;
        assert forall|i: int| 0 <= i < earlier.len() implies reorder_laws::is_valid(
            (#[trigger] earlier[i]).0,
        ) && comes_over(earlier[i].0, connection) && (below ==> is_below(earlier[i].0)) by {
            assert(events[i] == earlier[i]);
        }
        assert(is_never_forgotten(earlier, options)) by {
            assert forall|k: int|
                0 <= k < earlier.len() && (#[trigger] earlier[k]).0 is None implies {
                let before = reorder_laws::run(earlier.take(k), options);
                !before.initialized || before.has_pending_state()
            } by {
                assert(events[k] == earlier[k]);
                assert(events.take(k) =~= earlier.take(k));
            }
        }
        lemma_run(earlier, options, connection, below);
        reorder_laws::law_forwarding_is_in_order(earlier, options);
        let before = reorder_laws::run(earlier, options);
        let (event, now) = events[last];
        assert(reorder_laws::is_valid(events[last].0) && comes_over(events[last].0, connection));
        assert(below ==> is_below(events[last].0));
        match event {
            Some(FrameModel::Packet(packet)) => {
                let first = match first_sequence(earlier) {
                    Some(first) => first,
                    None => packet.header.sequence,
                };
                let flow = FlowModel { connection, first, below };
                lemma_on_packet(before, packet, options, now, flow);
            },
            Some(FrameModel::Fec(fec)) => {
                let first = match first_sequence(earlier) {
                    Some(first) => first,
                    None => 0,
                };
                let flow = FlowModel { connection, first, below };
                lemma_on_fec(before, fec, options, now, flow);
            },
            None => {
                assert(events[last].0 is None);
                assert(events.take(last) =~= earlier);
                if let Some(first) = first_sequence(earlier) {
                    let flow = FlowModel { connection, first, below };
                    lemma_advanced(before, options, now, flow);
                }
            },
        }
    }
}

/// Packets that all come over one connection make one flow, as long as it is not forgotten for want
/// of packets: it starts once, with the first packet, and never starts over.
pub proof fn law_one_connection_makes_one_flow(
    events: Seq<(Event, u64)>,
    options: ReorderOptions,
    connection: usize,
)
    requires
        forall|i: int| 0 <= i < events.len() ==> reorder_laws::is_valid((#[trigger] events[i]).0),
        forall|i: int| 0 <= i < events.len() ==> comes_over((#[trigger] events[i]).0, connection),
        is_never_forgotten(events, options),
    ensures
        ({
            let actions = reorder_laws::run(events, options).actions;
            &&& forall|i: int| 0 <= i < actions.len() ==> !((#[trigger] actions[i]) is FlowReset)
            &&& forall|i: int, j: int|
                0 <= i < j < actions.len() ==> !((#[trigger] actions[i]) is FlowStart && (
                #[trigger] actions[j]) is FlowStart)
            &&& forall|i: int|
                0 <= i < actions.len() ==> (#[trigger] actions[i] matches ActionModel::FlowStart {
                    next_seq,
                } ==> first_sequence(events) == Some(next_seq))
            &&& first_sequence(events) is Some ==> exists|i: int|
                0 <= i < actions.len() && (#[trigger] actions[i]) is FlowStart
        }),
{
    lemma_run(events, options, connection, false);
    let actions = reorder_laws::run(events, options).actions;
    if first_sequence(events) is Some {
        assert(actions[2] is FlowStart);
        assert forall|i: int| 0 <= i < actions.len() && i != 2 implies reorder_laws::started(
            #[trigger] actions[i],
        ) is None by {
            if i > 2 {
                assert(is_plain(actions[i], false));
            }
        }
    }
}

/// Over the whole of a flow over one connection that is not forgotten, and whose sequence numbers
/// stay below the greatest, what is forwarded rises: no sequence number is before that of the first
/// packet, and none is forwarded twice, however often its packet or its fragments come.
pub proof fn law_forwards_of_one_connection_rise(
    events: Seq<(Event, u64)>,
    options: ReorderOptions,
    connection: usize,
)
    requires
        forall|i: int| 0 <= i < events.len() ==> reorder_laws::is_valid((#[trigger] events[i]).0),
        forall|i: int| 0 <= i < events.len() ==> comes_over((#[trigger] events[i]).0, connection),
        forall|i: int| 0 <= i < events.len() ==> is_below((#[trigger] events[i]).0),
        is_never_forgotten(events, options),
    ensures
        ({
            let actions = reorder_laws::run(events, options).actions;
            &&& forall|i: int|
                0 <= i < actions.len() ==> (#[trigger] actions[i] matches ActionModel::Forward {
                    sequence,
                    ..
                } ==> (first_sequence(events) matches Some(first) && first <= sequence))
            &&& forall|i: int, j: int|
                0 <= i < j < actions.len() && (#[trigger] actions[i]) is Forward && (
                #[trigger] actions[j]) is Forward ==> actions[i]->Forward_sequence
                    < actions[j]->Forward_sequence
        }),
{
    lemma_run(events, options, connection, true);
    let actions = reorder_laws::run(events, options).actions;
    if let Some(first) = first_sequence(events) {
        assert forall|i: int, j: int|
            2 <= i < j < actions.len() && (#[trigger] actions[j]) is Forward && (i == 2 || (
            #[trigger] actions[i]) is Forward) implies reorder_laws::passed(actions[j]) matches Some(
            later,
        ) && (i == 2 ==> first <= later) && (reorder_laws::passed(actions[i]) matches Some(earlier)
            ==> earlier < later) by {
            assert forall|k: int| i < k < j implies reorder_laws::started(
                #[trigger] actions[k],
            ) is None by {
                assert(is_plain(actions[k], true));
            }
            assert forall|k: int| i <= k < j implies (reorder_laws::passed(
                #[trigger] actions[k],
            ) matches Some(sequence) ==> sequence < MAX_MEDIA_SEQUENCE) by {
                if k > 2 {
                    assert(is_plain(actions[k], true));
                }
            }
            reorder_laws::law_forwarded_sequences_rise(events, options, i, j);
        }
        assert(actions[2] is FlowStart);
    }
}

} // verus!
