//! What holds of every flow that is put back in order.

use crate::fec;
use crate::fec::{SourceModel, FEC_FRAME_TRACK_LIMIT};
use crate::ordered;
use crate::protocol::MAX_MEDIA_SEQUENCE;
use crate::receive::{FrameModel, PacketModel};
use crate::reorder_model;
use crate::reorder_model::{ActionModel, ReorderModel, ReorderOptions};
use crate::sequence;
use crate::time;
use crate::tracking;
use vstd::prelude::*;

verus! {

/// A frame that came, or none if nothing came in time.
pub type Event = Option<FrameModel>;

/// Whether an event is one that parsing can give.
pub open spec fn is_valid(event: Event) -> bool {
    match event {
        Some(FrameModel::Packet(packet)) => packet.header.is_media(),
        Some(FrameModel::Fec(fec)) => fec.frame.base_sequence <= MAX_MEDIA_SEQUENCE,
        None => true,
    }
}

/// The state after an event.
pub open spec fn stepped(
    state: ReorderModel,
    event: Event,
    options: ReorderOptions,
    now: u64,
) -> ReorderModel {
    match event {
        Some(FrameModel::Packet(packet)) => state.on_packet(packet, options, now),
        Some(FrameModel::Fec(fec)) => state.on_fec(fec, options, now),
        None => state.on_timeout(options, now),
    }
}

/// The state after a run of events, each with its time, that starts before any flow.
pub open spec fn run(events: Seq<(Event, u64)>, options: ReorderOptions) -> ReorderModel
    decreases events.len(),
{
    if events.len() == 0 {
        ReorderModel::initial()
    } else {
        stepped(run(events.drop_last(), options), events.last().0, options, events.last().1)
    }
}

/// Whatever comes, and whenever it comes, payloads are forwarded in the order of their sequence
/// numbers: from the start of a flow on, each sequence number in turn is forwarded once or skipped
/// once, and none is passed over or repeated.
pub proof fn law_forwarding_is_in_order(events: Seq<(Event, u64)>, options: ReorderOptions)
    requires
        forall|i: int| 0 <= i < events.len() ==> is_valid((#[trigger] events[i]).0),
    ensures
        run(events, options).well_formed(),
        reorder_model::cursor_after(0, run(events, options).actions) is Some,
        run(events, options).initialized ==> reorder_model::cursor_after(
            0,
            run(events, options).actions,
        ) == Some(run(events, options).next_seq),
    decreases events.len(),
{
    if events.len() > 0 {
        let earlier = events.drop_last();
        assert forall|i: int| 0 <= i < earlier.len() implies is_valid((#[trigger] earlier[i]).0) by {
            assert(events[i] == earlier[i]);
        }
        law_forwarding_is_in_order(earlier, options);
        let before = run(earlier, options);
        let now = events.last().1;
        assert(is_valid(events[events.len() - 1].0));
        match events.last().0 {
            Some(FrameModel::Packet(packet)) => {
                before.lemma_on_packet(packet, options, now, 0);
            },
            Some(FrameModel::Fec(fec)) => {
                before.lemma_on_fec(fec, options, now, 0);
            },
            None => {
                before.lemma_advanced(options, now, 0);
            },
        }
    }
}

/// The sequence number that an action passes, if it passes one.
pub open spec fn passed(action: ActionModel) -> Option<u64> {
    match action {
        ActionModel::Forward { sequence, .. } => Some(sequence),
        ActionModel::Skipped { sequence, .. } => Some(sequence),
        _ => None,
    }
}

/// The sequence number at which an action starts a flow, if it starts one.
pub open spec fn started(action: ActionModel) -> Option<u64> {
    match action {
        ActionModel::FlowStart { next_seq } => Some(next_seq),
        ActionModel::FlowReset { next_seq } => Some(next_seq),
        _ => None,
    }
}

/// Within a flow, and as long as its sequence numbers stay below the greatest, after which they wrap
/// around, what is forwarded rises: nothing is forwarded before the start of the flow, and no
/// sequence number is forwarded twice, however often its packet or its fragments come.
pub proof fn law_forwarded_sequences_rise(
    events: Seq<(Event, u64)>,
    options: ReorderOptions,
    from: int,
    to: int,
)
    requires
        forall|i: int| 0 <= i < events.len() ==> is_valid((#[trigger] events[i]).0),
        0 <= from < to < run(events, options).actions.len(),
        run(events, options).actions[to] is Forward,
        forall|k: int|
            from < k < to ==> started(#[trigger] run(events, options).actions[k]) is None,
        forall|k: int|
            from <= k < to ==> (passed(#[trigger] run(events, options).actions[k]) matches Some(
                sequence,
            ) ==> sequence < MAX_MEDIA_SEQUENCE),
    ensures
        passed(run(events, options).actions[from]) matches Some(earlier) ==> passed(
            run(events, options).actions[to],
        ) matches Some(later) && earlier < later,
        started(run(events, options).actions[from]) matches Some(first) ==> passed(
            run(events, options).actions[to],
        ) matches Some(later) && first <= later,
{
    law_forwarding_is_in_order(events, options);
    let actions = run(events, options).actions;
    if passed(actions[from]) is Some || started(actions[from]) is Some {
        lemma_cursor_rises(actions, from, to);
        lemma_cursor_of_prefix(actions, to + 1);
        assert(actions.take(to + 1).drop_last() =~= actions.take(to));
    }
}

/// A prefix of actions in order is in order.
proof fn lemma_cursor_of_prefix(actions: Seq<ActionModel>, count: int)
    requires
        reorder_model::cursor_after(0, actions) is Some,
        0 <= count <= actions.len(),
    ensures
        reorder_model::cursor_after(0, actions.take(count)) is Some,
    decreases actions.len() - count,
{
    if count == actions.len() {
        assert(actions.take(count) =~= actions);
    } else {
        lemma_cursor_of_prefix(actions, count + 1);
        assert(actions.take(count + 1).drop_last() =~= actions.take(count));
    }
}

/// What is due rises until a flow starts or the sequence numbers wrap around.
proof fn lemma_cursor_rises(actions: Seq<ActionModel>, from: int, to: int)
    requires
        reorder_model::cursor_after(0, actions) is Some,
        0 <= from < to < actions.len(),
        passed(actions[from]) is Some || started(actions[from]) is Some,
        forall|k: int| from < k < to ==> started(#[trigger] actions[k]) is None,
        forall|k: int|
            from <= k < to ==> (passed(#[trigger] actions[k]) matches Some(sequence) ==> sequence
                < MAX_MEDIA_SEQUENCE),
    ensures
        reorder_model::cursor_after(0, actions.take(to)) matches Some(due) && (passed(
            actions[from],
        ) matches Some(earlier) ==> earlier < due) && (started(actions[from]) matches Some(first)
            ==> first <= due),
    decreases to,
{
    lemma_cursor_of_prefix(actions, to);
    lemma_cursor_of_prefix(actions, to - 1);
    assert(actions.take(to).drop_last() =~= actions.take(to - 1));
    assert(actions.take(to).last() == actions[to - 1]);
    if from < to - 1 {
        lemma_cursor_rises(actions, from, to - 1);
        assert(started(actions[to - 1]) is None);
    }
    assert(passed(actions[to - 1]) matches Some(sequence) ==> sequence < MAX_MEDIA_SEQUENCE);
}

/// A whole packet that is due, or that begins a flow, is forwarded as it is as soon as it comes,
/// unless its payload is there already.
pub proof fn law_due_packet_is_forwarded(
    state: ReorderModel,
    packet: PacketModel,
    options: ReorderOptions,
    now: u64,
)
    requires
        state.well_formed(),
        packet.header.is_media(),
        packet.header.fragments == 1,
        state.initialized ==> packet.header.sequence == state.next_seq,
        !state.seen.contains(packet.header.sequence),
        !state.buffered.contains_key(packet.header.sequence),
    ensures
        exists|i: int|
            state.actions.len() <= i < state.on_packet(packet, options, now).actions.len() && (
            #[trigger] state.on_packet(packet, options, now).actions[i]) == (ActionModel::Forward {
                sequence: packet.header.sequence,
                payload: packet.payload,
                buffered: state.waiting(),
                next_seq: sequence::following(packet.header.sequence),
            }),
{
    let sequence = packet.header.sequence;
    let begun = state.begun(packet);
    let joined = ReorderModel {
        restart: tracking::no_restart(),
        connections: begun.connections.insert(packet.connection_id),
        ..begun
    };
    let rest = ReorderModel { fragments: joined.fragments.remove(sequence), ..joined };
    assert(joined.well_formed()) by {
        assert forall|s: u64| #[trigger] joined.fragments.contains_key(s) implies s
            <= MAX_MEDIA_SEQUENCE && joined.assembly_is_valid(s) by {
            assert(state.fragments.contains_key(s));
            assert(state.assembly_is_valid(s));
        }
    }
    joined.lemma_without_fragments(sequence);
    let delivered = rest.delivered(packet.payload);
    rest.lemma_delivered(packet.payload, 0);
    delivered.lemma_drained(0);
    let accepted = rest.accepted(sequence, packet.payload, now);
    accepted.lemma_recovered_all(now, 0);
    accepted.recovered_all(now).lemma_advanced(options, now, 0);
    let after = state.on_packet(packet, options, now);
    assert(after == rest.completed(sequence, packet.payload, options, now));
    let i = rest.actions.len() as int;
    assert(delivered.actions[i] == (ActionModel::Forward {
        sequence,
        payload: packet.payload,
        buffered: state.waiting(),
        next_seq: sequence::following(sequence),
    }));
    assert(accepted.actions[i] == delivered.actions[i]);
    assert(accepted.recovered_all(now).actions[i] == accepted.actions[i]);
    assert(after.actions[i] == accepted.recovered_all(now).actions[i]);
    assert(state.actions.len() <= i < after.actions.len());
}

/// A packet whose sequence number was skipped lately, and that comes over a connection of the
/// flow, is reported as late and has no other effect.
pub proof fn law_late_packet_is_dropped(
    state: ReorderModel,
    packet: PacketModel,
    options: ReorderOptions,
    now: u64,
)
    requires
        state.initialized,
        packet.header.sequence < state.next_seq,
        state.connections.contains(packet.connection_id),
        state.skipped.contains(packet.header.sequence),
    ensures
        state.on_packet(packet, options, now) == state.act(
            ActionModel::Received { bytes: packet.payload.len() as u64 },
        ).act(ActionModel::ReplyRoute { remote: packet.remote, reset: false }).act(
            ActionModel::LateAfterSkip {
                sequence: packet.header.sequence,
                buffered: state.pending(),
                next_seq: state.next_seq,
            },
        ),
{
}

/// A packet whose payload waits already is reported as a duplicate, and neither the payloads that
/// wait nor the sequence number that is due change.
pub proof fn law_duplicate_is_dropped(
    state: ReorderModel,
    packet: PacketModel,
    options: ReorderOptions,
    now: u64,
)
    requires
        state.initialized,
        packet.header.sequence >= state.next_seq,
        state.seen.contains(packet.header.sequence) || state.buffered.contains_key(
            packet.header.sequence,
        ),
    ensures
        state.on_packet(packet, options, now) == (ReorderModel {
            restart: tracking::no_restart(),
            connections: state.connections.insert(packet.connection_id),
            ..state
        }).act(ActionModel::Received { bytes: packet.payload.len() as u64 }).act(
            ActionModel::ReplyRoute { remote: packet.remote, reset: false },
        ).act(
            ActionModel::Duplicate { buffered: state.waiting(), next_seq: state.next_seq },
        ),
{
}

/// Once a payload has waited for the greatest delay, sequence numbers are given up until a payload
/// that waits is due, and so is forwarded, unless the packet that is due has fragments that have
/// not waited that long. No payload that waits is given up.
pub proof fn law_gap_tolerance(state: ReorderModel, waiting: u64, delay: u64, now: u64)
    requires
        state.well_formed(),
        state.buffered.contains_key(waiting),
        time::elapsed(now, state.buffered[waiting].received_at) >= delay,
    ensures
        state.expired(delay, now).buffered == state.buffered,
        ({
            let after = state.expired(delay, now);
            ||| state.buffered.contains_key(after.next_seq)
            ||| after.fragments.contains_key(after.next_seq) && time::elapsed(
                now,
                after.fragments[after.next_seq].first_seen,
            ) < delay
        }),
{
    state.lemma_expired(delay, now, 0);
    assert(state.expired(delay, now).buffered.contains_key(waiting));
}

/// After whatever can move on has done so, the payload that is due is not among those that wait.
pub proof fn law_nothing_due_waits(state: ReorderModel, options: ReorderOptions, now: u64)
    requires
        state.well_formed(),
    ensures
        !state.advanced(options, now).buffered.contains_key(state.advanced(options, now).next_seq),
{
    state.lemma_recovered_all(now, 0);
    let recovered = state.recovered_all(now);
    let requested = match options.repair_request_interval {
        Some(interval) => {
            recovered.lemma_repairs_requested(interval, now, 0);
            recovered.repairs_requested(interval, now)
        },
        None => recovered,
    };
    requested.lemma_expired(options.max_reorder_delay, now, 0);
    requested.expired(options.max_reorder_delay, now).lemma_drained(0);
}

/// A flow in which nothing waits is forgotten when nothing comes in time, and the next packet
/// begins a new flow at its own sequence number, whatever that is.
pub proof fn law_idle_flow_starts_over(
    state: ReorderModel,
    packet: PacketModel,
    options: ReorderOptions,
    now: u64,
)
    requires
        state.well_formed(),
        !state.has_pending_state(),
        packet.header.is_media(),
    ensures
        !state.initialized || !state.on_timeout(options, now).initialized,
        state.initialized ==> state.on_timeout(options, now).begun(packet).next_seq
            == packet.header.sequence,
{
}

/// When the parity frame of a group of consecutive packets comes, and every payload of the group
/// but one is at hand, that one can be recovered, unless its turn has passed or there is no room
/// for the frame.
pub proof fn law_frame_recovers_single_loss(
    state: ReorderModel,
    group: Seq<SourceModel>,
    lost: int,
)
    requires
        state.well_formed(),
        state.fec.frames.dom().len() < FEC_FRAME_TRACK_LIMIT,
        0 <= lost < group.len(),
        group[0].0 <= MAX_MEDIA_SEQUENCE,
        forall|i: int|
            0 <= i < group.len() ==> (#[trigger] group[i]).0 == sequence::following_by(
                group[0].0,
                i as nat,
            ) && group[i].1.len() <= 0xffff,
        forall|i: int|
            0 <= i < group.len() && i != lost ==> fec::known_payload(
                state.fec.payloads,
                state.buffered,
                (#[trigger] group[i]).0,
            ) == Some(group[i].1),
        fec::known_payload(state.fec.payloads, state.buffered, group[lost].0) is None,
        group[lost].0 >= state.next_seq,
    ensures
        (ReorderModel {
            fec: state.fec.with_frame(fec::group_frame(group)),
            ..state
        }).recoverable().contains((group[lost].0, group[lost].1)),
{
    let frame = fec::group_frame(group);
    let kept = ReorderModel { fec: state.fec.with_frame(frame), ..state };
    let frames = state.fec.frames.insert(frame.base_sequence, frame);
    assert(kept.fec.frames == frames);
    assert(kept.fec.payloads == state.fec.payloads);
    fec::lemma_with_frame(state.fec, frame);
    fec::law_single_loss_is_recovered(group, lost, state.fec.payloads, state.buffered);
    let bases = ordered::ascending(frames.dom());
    ordered::lemma_ascending_exists(frames.dom());
    assert(frames.dom().contains(frame.base_sequence));
    assert(bases.to_set().contains(frame.base_sequence));
    lemma_recovered_contains(
        kept,
        bases,
        frame.base_sequence,
        (group[lost].0, group[lost].1),
    );
}

/// What the frame of one base recovers is among what all of them recover.
pub proof fn lemma_recovered_contains(
    state: ReorderModel,
    bases: Seq<u64>,
    base: u64,
    found: SourceModel,
)
    requires
        bases.contains(base),
        found.0 >= state.next_seq,
        fec::scan(state.fec.frames[base], state.fec.payloads, state.buffered) == (
        fec::GroupScan::Missing { sequence: found.0, payload: found.1 }),
    ensures
        state.fec.recovered(state.buffered, state.next_seq, bases).contains(found),
    decreases bases.len(),
{
    let all = state.fec.recovered(state.buffered, state.next_seq, bases);
    let shorter = bases.drop_last();
    let before = state.fec.recovered(state.buffered, state.next_seq, shorter);
    if bases.last() == base {
        assert(all == before.push(found));
        assert(all[before.len() as int] == found);
    } else {
        let i = choose|i: int| 0 <= i < bases.len() && bases[i] == base;
        assert(shorter[i] == base);
        lemma_recovered_contains(state, shorter, base, found);
        let j = choose|j: int| 0 <= j < before.len() && before[j] == found;
        assert(all[j] == found);
    }
}

} // verus!
