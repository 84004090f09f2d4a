//! What holds when a sender starts over, comes late or stays away.

use crate::receive::PacketModel;
use crate::reorder_model::{ActionModel, ReorderModel, ReorderOptions};
use crate::sequence;
use crate::tracking;
use crate::tracking::{
    RESTART_BACKWARD_GAP, RESTART_CONFIRM_PACKETS, SKIPPED_SEQUENCE_TRACK_LIMIT,
};
use vstd::prelude::*;

verus! {

/// Without parity frames nothing is recovered.
proof fn lemma_nothing_to_recover(state: ReorderModel, now: u64)
    requires
        state.well_formed(),
        state.fec.frames.dom() == Set::<u64>::empty(),
    ensures
        state.recovered_all(now) == state,
{
    let keys = Seq::<u64>::empty();
    assert(keys.to_set() =~= Set::<u64>::empty());
    crate::ordered::lemma_is_ascending_order(keys);
    assert(state.recoverable() =~= Seq::empty());
    let kept = state.with_waiting_frames();
    assert(kept.fec.frames =~= state.fec.frames) by {
        assert forall|base: u64| !kept.fec.frames.contains_key(base) by {
            assert(!state.fec.frames.dom().contains(base));
        }
        assert forall|base: u64| !state.fec.frames.contains_key(base) by {
            assert(!state.fec.frames.dom().contains(base));
        }
    }
    assert(kept == state);
}

/// Where nothing waits, nothing moves on.
proof fn lemma_nothing_to_advance(state: ReorderModel, options: ReorderOptions, now: u64)
    requires
        state.well_formed(),
        state.fec.frames.dom() == Set::<u64>::empty(),
        state.buffered.dom() == Set::<u64>::empty(),
        state.fragments.dom() == Set::<u64>::empty(),
    ensures
        state.advanced(options, now) == state,
{
    lemma_nothing_to_recover(state, now);
    let keys = Seq::<u64>::empty();
    assert(keys.to_set() =~= Set::<u64>::empty());
    crate::ordered::lemma_is_ascending_order(keys);
    assert forall|s: u64| !state.buffered.contains_key(s) by {
        assert(!state.buffered.dom().contains(s));
    }
    assert forall|s: u64| !state.fragments.contains_key(s) by {
        assert(!state.fragments.dom().contains(s));
    }
    assert(!state.is_overdue(options.max_reorder_delay, now));
    assert(state.expired(options.max_reorder_delay, now) == state);
    assert(state.drained() == state);
}

/// A whole packet that confirms that the sender started over begins a new flow at its own sequence
/// number: it is forwarded, replies go to its sender only, and nothing of the old flow is left,
/// neither what waited nor what was skipped nor the connections nor the parity frames.
pub proof fn law_restart_begins_a_new_flow(
    state: ReorderModel,
    packet: PacketModel,
    options: ReorderOptions,
    now: u64,
)
    requires
        state.well_formed(),
        state.initialized,
        packet.header.is_media(),
        packet.header.fragments == 1,
        packet.header.sequence < state.next_seq,
        !state.connections.contains(packet.connection_id),
        state.restart.observed(packet.header.sequence, state.next_seq).confirmed(),
    ensures
        ({
            let after = state.on_packet(packet, options, now);
            let first = packet.header.sequence;
            &&& after.initialized
            &&& after.next_seq == sequence::following(first)
            &&& after.buffered.dom() == Set::<u64>::empty()
            &&& after.fragments.dom() == Set::<u64>::empty()
            &&& after.seen == Set::<u64>::empty()
            &&& after.skipped.len() == 0
            &&& after.gap_requests.dom() == Set::<u64>::empty()
            &&& after.connections == Set::<usize>::empty().insert(packet.connection_id)
            &&& after.fec.frames.dom() == Set::<u64>::empty()
            &&& after.fec.payloads == Map::<u64, Seq<u8>>::empty().insert(first, packet.payload)
            &&& after.actions == state.actions + seq![
                ActionModel::Received { bytes: packet.payload.len() as u64 },
                ActionModel::ReplyRoute { remote: packet.remote, reset: false },
                ActionModel::ReplyRoute { remote: packet.remote, reset: true },
                ActionModel::FlowReset { next_seq: first },
                ActionModel::Forward {
                    sequence: first,
                    payload: packet.payload,
                    buffered: 0,
                    next_seq: sequence::following(first),
                },
            ]
        }),
{
    let first = packet.header.sequence;
    let begun = state.begun(packet);
    let observed = ReorderModel {
        restart: begun.restart.observed(first, begun.next_seq),
        ..begun
    };
    let fresh = observed.restarted(packet);
    let rest = ReorderModel { fragments: fresh.fragments.remove(first), ..fresh };
    assert(rest.fragments =~= Map::empty());
    assert(rest.fec.well_formed()) by {
        assert(rest.fec.frame_order.to_set() =~= Set::<u64>::empty());
        assert(rest.fec.payload_order.to_set() =~= Set::<u64>::empty());
    }
    assert(rest.well_formed());
    let delivered = rest.delivered(packet.payload);
    rest.lemma_delivered(packet.payload, 0);
    let payloads = Map::<u64, Seq<u8>>::empty().insert(first, packet.payload);
    assert(payloads.dom() =~= Set::<u64>::empty().insert(first));
    assert(delivered.fec.payloads == payloads) by {
        reveal_with_fuel(crate::ordered::evicted, 1);
    }
    assert(delivered.seen =~= Set::<u64>::empty());
    assert(delivered.gap_requests.dom() =~= Set::<u64>::empty());
    assert(delivered.drained() == delivered);
    lemma_nothing_to_recover(delivered, now);
    lemma_nothing_to_advance(delivered, options, now);
    let after = state.on_packet(packet, options, now);
    assert(after == delivered);
    assert(after.actions =~= state.actions + seq![
        ActionModel::Received { bytes: packet.payload.len() as u64 },
        ActionModel::ReplyRoute { remote: packet.remote, reset: false },
        ActionModel::ReplyRoute { remote: packet.remote, reset: true },
        ActionModel::FlowReset { next_seq: first },
        ActionModel::Forward {
            sequence: first,
            payload: packet.payload,
            buffered: 0,
            next_seq: sequence::following(first),
        },
    ]);
}

/// A packet that is behind and does not confirm a restart has no effect but that it is counted, as
/// late if its sequence number was skipped lately and as a duplicate otherwise, and, over a
/// connection that is not of the flow, that it may speak for a restart.
pub proof fn law_packet_behind_changes_nothing(
    state: ReorderModel,
    packet: PacketModel,
    options: ReorderOptions,
    now: u64,
)
    requires
        state.well_formed(),
        state.initialized,
        packet.header.is_media(),
        packet.header.sequence < state.next_seq,
        state.connections.contains(packet.connection_id) || !state.restart.observed(
            packet.header.sequence,
            state.next_seq,
        ).confirmed(),
    ensures
        ({
            let after = state.on_packet(packet, options, now);
            let sequence = packet.header.sequence;
            &&& after == (ReorderModel {
                restart: after.restart,
                actions: after.actions,
                ..state
            })
            &&& state.connections.contains(packet.connection_id) ==> after.restart == state.restart
            &&& after.actions.len() == state.actions.len() + 3
            &&& after.actions.take(state.actions.len() as int) == state.actions
            &&& after.actions.last() == if state.skipped.contains(sequence) {
                ActionModel::LateAfterSkip {
                    sequence,
                    buffered: state.pending(),
                    next_seq: state.next_seq,
                }
            } else {
                ActionModel::Duplicate { buffered: state.waiting(), next_seq: state.next_seq }
            }
            &&& state.next_seq - sequence < 4096 && !state.connections.contains(
                packet.connection_id,
            ) ==> after.restart.count == 0
        }),
{
    let after = state.on_packet(packet, options, now);
    assert(after.actions.take(state.actions.len() as int) =~= state.actions);
}

/// Eight packets in a row over a connection that is not of the flow, each at least 4096 behind,
/// confirm a restart; a sequence number that was skipped is remembered until 4096 others were.
pub proof fn law_restart_takes_eight_packets(packets: Seq<(u64, u64)>)
    requires
        packets.len() == 8,
        forall|i: int|
            0 <= i < 8 ==> (#[trigger] packets[i]).1 - packets[i].0 >= 4096,
        forall|i: int, j: int|
            0 <= i <= j < 8 ==> (#[trigger] packets[i]).0 <= (#[trigger] packets[j]).0,
    ensures
        tracking::observed_run(packets).confirmed(),
        !tracking::observed_run(packets.drop_last()).confirmed(),
        RESTART_BACKWARD_GAP == 4096,
        RESTART_CONFIRM_PACKETS == 8,
        SKIPPED_SEQUENCE_TRACK_LIMIT == 4096,
{
    tracking::law_restart_is_confirmed(packets);
    tracking::law_restart_is_confirmed(packets.drop_last());
    assert(tracking::ends_in_restart(packets, 8));
}

/// Skipping a sequence number keeps those that were skipped before it, but for the oldest once
/// there is no more room.
pub proof fn law_skipped_numbers_stay(order: Seq<u64>, sequence: u64, other: u64)
    requires
        order.no_duplicates(),
        order.len() <= SKIPPED_SEQUENCE_TRACK_LIMIT,
        order.contains(other),
        order.contains(sequence) || order.len() < SKIPPED_SEQUENCE_TRACK_LIMIT || order[0]
            != other,
    ensures
        tracking::with_skipped(order, sequence).contains(other),
        tracking::with_skipped(order, sequence).no_duplicates(),
        forall|s: u64| #[trigger]
            tracking::with_skipped(order, sequence).contains(s) ==> s == sequence || order.contains(
                s,
            ),
{
    let after = tracking::with_skipped(order, sequence);
    let longer = order.push(sequence);
    let i = choose|i: int| 0 <= i < order.len() && order[i] == other;
    if order.contains(sequence) {
        assert(after == order);
    } else if longer.len() > SKIPPED_SEQUENCE_TRACK_LIMIT {
        assert(after == longer.drop_first());
        assert(after[i - 1] == other);
        assert forall|s: u64| #[trigger] after.contains(s) implies s == sequence || order.contains(
            s,
        ) by {
            let k = choose|k: int| 0 <= k < after.len() && after[k] == s;
            assert(longer[k + 1] == s);
            if k + 1 < order.len() {
                assert(order[k + 1] == s);
            }
        }
    } else {
        assert(after == longer);
        assert(after[i] == other);
        assert forall|s: u64| #[trigger] after.contains(s) implies s == sequence || order.contains(
            s,
        ) by {
            let k = choose|k: int| 0 <= k < after.len() && after[k] == s;
            if k < order.len() {
                assert(order[k] == s);
            }
        }
    }
}

/// A flow in which nothing waits is forgotten whole when nothing comes in time: its place, what
/// was skipped and requested, its connections and its parity. One in which something waits is not
/// forgotten. Nothing is asked for by forgetting.
pub proof fn law_idle_flow_is_forgotten(state: ReorderModel, options: ReorderOptions, now: u64)
    requires
        state.well_formed(),
        state.initialized,
    ensures
        ({
            let after = state.on_timeout(options, now);
            let waits = state.buffered.dom() != Set::<u64>::empty() || state.fragments.dom()
                != Set::<u64>::empty() || state.seen != Set::<u64>::empty();
            &&& !waits ==> after == (ReorderModel {
                actions: state.actions,
                buffered: state.buffered,
                fragments: state.fragments,
                seen: state.seen,
                ..ReorderModel::initial()
            })
            &&& waits ==> after == state.advanced(options, now)
        }),
        ReorderModel::initial().skipped.len() == 0,
        !ReorderModel::initial().initialized,
        ReorderModel::initial().connections == Set::<usize>::empty(),
        ReorderModel::initial().gap_requests == Map::<u64, u64>::empty(),
        ReorderModel::initial().restart.count == 0,
        ReorderModel::initial().fec.frames == Map::<u64, crate::protocol::FecFrameView>::empty(),
        ReorderModel::initial().fec.payloads == Map::<u64, Seq<u8>>::empty(),
{
}

/// The server waits no longer for a frame than until the next thing is to be done: while something
/// waits, until a request may be due or something may be overdue, whichever comes first, and
/// otherwise until the flow is forgotten.
pub proof fn law_server_wakes_in_time(state: ReorderModel, options: ReorderOptions)
    ensures
        ({
            let waits = state.buffered.dom() != Set::<u64>::empty() || state.fragments.dom()
                != Set::<u64>::empty() || state.seen != Set::<u64>::empty();
            let patience = state.patience(options);
            &&& !waits ==> patience == options.flow_idle_reset
            &&& waits ==> patience <= options.max_reorder_delay
            &&& waits ==> (options.repair_request_interval matches Some(interval) ==> patience
                <= interval)
            &&& waits && patience < options.max_reorder_delay ==> options.repair_request_interval
                == Some(patience)
        }),
{
}

} // verus!
