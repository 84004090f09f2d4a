//! What a flow tells of what happens to it, and what it knows of itself.

use crate::fec;
use crate::fec::{FecModel, SourceModel};
use crate::ordered;
use crate::protocol::MAX_MEDIA_SEQUENCE;
use crate::receive;
use crate::receive::{AssemblyModel, BufferedModel, FecModelFrame, FrameModel, PacketModel};
use crate::reorder_laws;
use crate::reorder_laws::Event;
use crate::reorder_model;
use crate::reorder_model::{ActionModel, ReorderModel, ReorderOptions, SkipReason};
use crate::reorder_progress;
use crate::sequence;
use crate::time;
use crate::tracking;
use vstd::prelude::*;

verus! {

/// Whether the sequence numbers whose payloads came and were not forwarded are those of the
/// payloads that wait, and no packet waits both whole and in part.
pub open spec fn knows_what_waits(state: ReorderModel) -> bool {
    &&& state.seen == state.buffered.dom()
    &&& forall|s: u64| #[trigger]
        state.fragments.contains_key(s) ==> !state.buffered.contains_key(s)
}

/// Whether a later state is of the same flow: over the same connections, with the same signs of a
/// restart, and knowing what waits if it was known.
pub open spec fn same_flow(before: ReorderModel, after: ReorderModel) -> bool {
    &&& after.initialized == before.initialized
    &&& after.connections == before.connections
    &&& after.restart == before.restart
    &&& knows_what_waits(before) ==> knows_what_waits(after)
}

proof fn lemma_drained(state: ReorderModel)
    requires
        state.buffered.dom().finite(),
    ensures
        same_flow(state, state.drained()),
    decreases state.buffered.dom().len(),
{
    let due = state.next_seq;
    if state.buffered.contains_key(due) {
        let rest = ReorderModel { buffered: state.buffered.remove(due), ..state };
        let middle = rest.delivered(state.buffered[due].payload);
        if knows_what_waits(state) {
            assert(middle.seen =~= middle.buffered.dom());
        }
        lemma_drained(middle);
    }
}

proof fn lemma_accepted(state: ReorderModel, sequence: u64, payload: Seq<u8>, now: u64)
    requires
        state.well_formed(),
        !state.buffered.contains_key(sequence),
        !state.fragments.contains_key(sequence),
    ensures
        same_flow(state, state.accepted(sequence, payload, now)),
{
    if sequence == state.next_seq {
        let middle = state.delivered(payload);
        if knows_what_waits(state) {
            assert(middle.seen =~= middle.buffered.dom());
        }
        lemma_drained(middle);
    } else if knows_what_waits(state) {
        let after = state.accepted(sequence, payload, now);
        assert(after.seen =~= after.buffered.dom());
    }
}

proof fn lemma_accepted_each(state: ReorderModel, list: Seq<SourceModel>, now: u64)
    requires
        state.well_formed(),
        forall|i: int| 0 <= i < list.len() ==> (#[trigger] list[i]).0 <= MAX_MEDIA_SEQUENCE,
    ensures
        same_flow(state, state.accepted_each(list, now)),
    decreases list.len(),
{
    if list.len() > 0 {
        let (sequence, payload) = list[0];
        assert(list[0].0 <= MAX_MEDIA_SEQUENCE);
        let middle = state.accepted_recovered(sequence, payload, now);
        state.lemma_accepted_recovered(sequence, payload, now, 0);
        if !(sequence < state.next_seq || state.seen.contains(sequence)
            || state.buffered.contains_key(sequence)) {
            state.lemma_without_fragments(sequence);
            let rest = ReorderModel { fragments: state.fragments.remove(sequence), ..state };
            let told = rest.act(
                ActionModel::FecRecovered { sequence, bytes: payload.len() as u64 },
            );
            lemma_same_parts(rest, told);
            lemma_accepted(told, sequence, payload, now);
        }
        lemma_accepted_each(middle, list.drop_first(), now);
    }
}

/// A state that holds what a well-formed state holds is well-formed.
proof fn lemma_same_parts(state: ReorderModel, other: ReorderModel)
    requires
        state.well_formed(),
        other.buffered == state.buffered,
        other.fragments == state.fragments,
        other.fec == state.fec,
        other.skipped == state.skipped,
        other.next_seq <= MAX_MEDIA_SEQUENCE,
    ensures
        other.well_formed(),
{
    assert forall|s: u64| #[trigger] other.fragments.contains_key(s) implies s
        <= MAX_MEDIA_SEQUENCE && other.assembly_is_valid(s) by {
        assert(state.fragments.contains_key(s));
        assert(state.assembly_is_valid(s));
    }
}

proof fn lemma_recovered_all(state: ReorderModel, now: u64)
    requires
        state.well_formed(),
    ensures
        same_flow(state, state.recovered_all(now)),
    decreases state.fec.frames.dom().len(),
{
    state.lemma_recoverable();
    state.lemma_round(now);
    let kept = state.with_waiting_frames();
    let list = state.recoverable();
    if list.len() > 0 {
        kept.lemma_accepted_each(list, now, 0);
        lemma_accepted_each(kept, list, now);
        lemma_recovered_all(kept.accepted_each(list, now), now);
    }
}

proof fn lemma_fragments_requested(
    state: ReorderModel,
    keys: Seq<u64>,
    sent: nat,
    interval: u64,
    now: u64,
)
    requires
        forall|i: int| 0 <= i < keys.len() ==> state.fragments.contains_key(#[trigger] keys[i]),
    ensures
        same_flow(state, state.fragments_requested(keys, sent, interval, now)),
    decreases keys.len(),
{
    if keys.len() == 0 || sent >= reorder_model::MAX_REPAIR_REQUESTS_PER_TICK {
    } else {
        let rest = keys.drop_first();
        assert(state.fragments.contains_key(keys[0]));
        assert forall|i: int| 0 <= i < rest.len() implies state.fragments.contains_key(
            #[trigger] rest[i],
        ) by {
            assert(rest[i] == keys[i + 1]);
        }
        if state.fragments_are_due(keys[0], interval, now) {
            let assembly = state.fragments[keys[0]];
            let noted = ReorderModel {
                fragments: state.fragments.insert(
                    keys[0],
                    AssemblyModel { last_repair_request: Some(now), ..assembly },
                ),
                ..state
            }.act(reorder_progress::part_repair(keys[0], assembly.parts));
            if knows_what_waits(state) {
                assert forall|s: u64| #[trigger]
                    noted.fragments.contains_key(s) implies !noted.buffered.contains_key(s) by {
                    assert(state.fragments.contains_key(s));
                }
            }
            lemma_fragments_requested(noted, rest, sent + 1, interval, now);
        } else {
            lemma_fragments_requested(state, rest, sent, interval, now);
        }
    }
}

proof fn lemma_repairs_requested(state: ReorderModel, interval: u64, now: u64)
    requires
        state.well_formed(),
    ensures
        same_flow(state, state.repairs_requested(interval, now)),
{
    let keys = ordered::ascending(state.fragments.dom());
    ordered::lemma_ascending_exists(state.fragments.dom());
    assert forall|i: int| 0 <= i < keys.len() implies state.fragments.contains_key(
        #[trigger] keys[i],
    ) by {
        assert(keys.to_set().contains(keys[i]));
    }
    if state.gap_is_due(interval, now) {
        let noted = ReorderModel {
            gap_requests: state.gap_requests.insert(state.next_seq, now),
            ..state
        }.act(reorder_progress::whole_repair(state.next_seq));
        lemma_fragments_requested(noted, keys, 1, interval, now);
    } else {
        lemma_fragments_requested(state, keys, 0, interval, now);
    }
}

proof fn lemma_expired(state: ReorderModel, delay: u64, now: u64)
    requires
        state.well_formed(),
    ensures
        same_flow(state, state.expired(delay, now)),
    decreases
        state.fragments.dom().len(),
        reorder_model::steps_to(state.next_seq, state.some_pending()),
{
    state.lemma_skip(delay, now);
    state.lemma_skip_incomplete();
    if state.buffered.contains_key(state.next_seq) {
    } else if state.fragments.contains_key(state.next_seq) {
        if time::elapsed(now, state.fragments[state.next_seq].first_seen) >= delay {
            let rest = state.without_due();
            if knows_what_waits(state) {
                assert(rest.seen =~= rest.buffered.dom());
            }
            lemma_expired(rest.skip(SkipReason::FragmentIncomplete), delay, now);
        }
    } else if state.is_overdue(delay, now) {
        lemma_expired(state.skip(SkipReason::NeverReceived), delay, now);
    }
}

proof fn lemma_advanced(state: ReorderModel, options: ReorderOptions, now: u64)
    requires
        state.well_formed(),
    ensures
        same_flow(state, state.advanced(options, now)),
{
    lemma_recovered_all(state, now);
    state.lemma_recovered_all(now, 0);
    let recovered = state.recovered_all(now);
    let requested = match options.repair_request_interval {
        Some(interval) => {
            recovered.lemma_repairs_requested(interval, now, 0);
            lemma_repairs_requested(recovered, interval, now);
            recovered.repairs_requested(interval, now)
        },
        None => recovered,
    };
    lemma_expired(requested, options.max_reorder_delay, now);
    requested.lemma_expired(options.max_reorder_delay, now, 0);
    lemma_drained(requested.expired(options.max_reorder_delay, now));
}

proof fn lemma_completed(
    state: ReorderModel,
    sequence: u64,
    payload: Seq<u8>,
    options: ReorderOptions,
    now: u64,
)
    requires
        state.well_formed(),
        sequence <= MAX_MEDIA_SEQUENCE,
        !state.buffered.contains_key(sequence),
        !state.fragments.contains_key(sequence),
    ensures
        same_flow(state, state.completed(sequence, payload, options, now)),
{
    state.lemma_accepted(sequence, payload, now, 0);
    lemma_accepted(state, sequence, payload, now);
    let accepted = state.accepted(sequence, payload, now);
    accepted.lemma_recovered_all(now, 0);
    lemma_recovered_all(accepted, now);
    lemma_advanced(accepted.recovered_all(now), options, now);
}

proof fn lemma_admitted(
    state: ReorderModel,
    packet: PacketModel,
    options: ReorderOptions,
    now: u64,
)
    requires
        state.well_formed(),
        packet.header.is_media(),
    ensures
        same_flow(state, state.admitted(packet, options, now)),
{
    let sequence = packet.header.sequence;
    if !(state.seen.contains(sequence) || state.buffered.contains_key(sequence)) {
        state.lemma_without_fragments(sequence);
        let rest = ReorderModel { fragments: state.fragments.remove(sequence), ..state };
        if packet.header.fragments == 1 {
            lemma_completed(rest, sequence, packet.payload, options, now);
        } else {
            let assembly = state.assembly_for(packet, now);
            let fragment = packet.header.fragment as int;
            if !(assembly.parts.len() != packet.header.fragments || assembly.parts[fragment]
                is Some) {
                let parts = assembly.parts.update(fragment, Some(packet.payload));
                if receive::complete(parts) {
                    lemma_completed(rest, sequence, receive::joined_parts(parts), options, now);
                } else {
                    state.lemma_with_parts(packet, now);
                    let longer = state.with_parts(packet, parts, now);
                    let noted = longer.act(
                        ActionModel::Buffered {
                            buffered: longer.pending(),
                            next_seq: state.next_seq,
                        },
                    );
                    lemma_same_parts(longer, noted);
                    lemma_advanced(noted, options, now);
                }
            }
        }
    }
}

/// The connection of a packet that is not behind, or that begins a flow, belongs to the flow from
/// then on, beside those that did before, and nothing speaks for a restart any more.
pub proof fn law_connection_joins_the_flow(
    state: ReorderModel,
    packet: PacketModel,
    options: ReorderOptions,
    now: u64,
)
    requires
        state.well_formed(),
        packet.header.is_media(),
        state.initialized ==> packet.header.sequence >= state.next_seq,
    ensures
        ({
            let after = state.on_packet(packet, options, now);
            &&& after.initialized
            &&& after.connections == state.connections.insert(packet.connection_id)
            &&& after.restart.count == 0
        }),
{
    let begun = state.begun(packet);
    let joined = ReorderModel {
        restart: tracking::no_restart(),
        connections: begun.connections.insert(packet.connection_id),
        ..begun
    };
    lemma_same_parts(state, joined);
    lemma_admitted(joined, packet, options, now);
    assert(joined.connections =~= state.connections.insert(packet.connection_id));
}

/// Neither a parity frame nor silence changes the connections of a flow, unless it is forgotten.
pub proof fn law_connections_stay(
    state: ReorderModel,
    fec: FecModelFrame,
    options: ReorderOptions,
    now: u64,
)
    requires
        state.well_formed(),
        fec.frame.base_sequence <= MAX_MEDIA_SEQUENCE,
    ensures
        state.on_fec(fec, options, now).connections == state.connections,
        state.on_fec(fec, options, now).initialized == state.initialized,
        state.on_fec(fec, options, now).restart == state.restart,
        state.has_pending_state() ==> state.on_timeout(options, now).connections
            == state.connections && state.on_timeout(options, now).initialized
            == state.initialized,
        knows_what_waits(state) ==> knows_what_waits(state.on_fec(fec, options, now)),
{
    crate::fec::lemma_with_frame(state.fec, fec.frame);
    let kept = ReorderModel { fec: state.fec.with_frame(fec.frame), ..state };
    assert(kept.well_formed()) by {
        assert forall|s: u64| #[trigger] kept.fragments.contains_key(s) implies s
            <= MAX_MEDIA_SEQUENCE && kept.assembly_is_valid(s) by {
            assert(state.fragments.contains_key(s));
            assert(state.assembly_is_valid(s));
        }
    }
    let routed = kept.act(ActionModel::ReplyRoute { remote: fec.remote, reset: false });
    lemma_same_parts(kept, routed);
    lemma_recovered_all(routed, now);
    routed.lemma_recovered_all(now, 0);
    lemma_advanced(routed.recovered_all(now), options, now);
    lemma_advanced(state, options, now);
}

/// Whatever comes, and whenever it comes, the sequence numbers that count as there are exactly
/// those of the payloads that wait: once a payload was forwarded nothing is left of it, and a flow
/// from which everything was forwarded or given up has nothing that waits. No packet of which the
/// whole payload waits is still being put together.
pub proof fn law_what_waits_is_known(events: Seq<(Event, u64)>, options: ReorderOptions)
    requires
        forall|i: int|
            0 <= i < events.len() ==> reorder_laws::is_valid((#[trigger] events[i]).0),
    ensures
        reorder_laws::run(events, options).seen == reorder_laws::run(events, options).buffered.dom(),
        forall|s: u64| #[trigger]
            reorder_laws::run(events, options).fragments.contains_key(s) ==> !reorder_laws::run(
                events,
                options,
            ).buffered.contains_key(s),
    decreases events.len(),
{
    let after = reorder_laws::run(events, options);
    if events.len() == 0 {
        assert(after.seen =~= after.buffered.dom());
    } else {
        let earlier = events.drop_last();
        assert forall|i: int| 0 <= i < earlier.len() implies reorder_laws::is_valid(
            (#[trigger] earlier[i]).0,
        ) by {
            assert(events[i] == earlier[i]);
        }
        law_what_waits_is_known(earlier, options);
        reorder_laws::law_forwarding_is_in_order(earlier, options);
        let state = reorder_laws::run(earlier, options);
        let (event, now) = events.last();
        assert(reorder_laws::is_valid(events[events.len() - 1].0));
        match event {
            None => {
                lemma_advanced(state, options, now);
            },
            Some(FrameModel::Fec(fec)) => {
                law_connections_stay(state, fec, options, now);
            },
            Some(FrameModel::Packet(packet)) => {
                let begun = state.begun(packet);
                lemma_same_parts(state, begun);
                if packet.header.sequence >= begun.next_seq {
                    let joined = ReorderModel {
                        restart: tracking::no_restart(),
                        connections: begun.connections.insert(packet.connection_id),
                        ..begun
                    };
                    lemma_same_parts(state, joined);
                    lemma_admitted(joined, packet, options, now);
                } else if !begun.connections.contains(packet.connection_id) {
                    let restart = begun.restart.observed(packet.header.sequence, begun.next_seq);
                    let observed = ReorderModel { restart, ..begun };
                    let fresh = observed.restarted(packet);
                    assert(fresh.seen =~= fresh.buffered.dom());
                    assert(fresh.fec.well_formed()) by {
                        assert(fresh.fec.frame_order.to_set() =~= Set::<u64>::empty());
                        assert(fresh.fec.payload_order.to_set() =~= Set::<u64>::empty());
                    }
                    assert(fresh.well_formed());
                    lemma_admitted(fresh, packet, options, now);
                }
            },
        }
    }
}

/// Every packet is told of as received, with its bytes, and replies may go to where it came from;
/// they go only there once it begins a flow, which starts at its sequence number. A parity frame of
/// a flow tells where replies may go as well, and one that comes before any flow is kept.
pub proof fn law_what_comes_is_told(
    state: ReorderModel,
    packet: PacketModel,
    fec: FecModelFrame,
    options: ReorderOptions,
    now: u64,
)
    requires
        state.well_formed(),
        packet.header.is_media(),
        fec.frame.base_sequence <= MAX_MEDIA_SEQUENCE,
    ensures
        ({
            let after = state.on_packet(packet, options, now);
            let told = state.actions.len() as int;
            &&& after.actions.len() > told + 1
            &&& after.actions[told] == (ActionModel::Received {
                bytes: packet.payload.len() as u64,
            })
            &&& after.actions[told + 1] == (ActionModel::ReplyRoute {
                remote: packet.remote,
                reset: !state.initialized,
            })
            &&& !state.initialized ==> after.actions.len() > told + 2 && after.actions[told + 2]
                == (ActionModel::FlowStart { next_seq: packet.header.sequence })
        }),
        ({
            let after = state.on_fec(fec, options, now);
            let told = state.actions.len() as int;
            &&& state.initialized ==> after.actions.len() > told && after.actions[told] == (
            ActionModel::ReplyRoute { remote: fec.remote, reset: false })
            &&& !state.initialized ==> after.actions == state.actions && after.buffered
                == state.buffered && after.next_seq == state.next_seq && !after.initialized
            &&& !state.initialized && state.fec.frames.dom().len() < 256
                ==> after.fec.frames.contains_key(fec.frame.base_sequence)
                && after.fec.frames[fec.frame.base_sequence] == fec.frame
        }),
{
    state.lemma_on_packet(packet, options, now, 0);
    let begun = state.begun(packet);
    let after = state.on_packet(packet, options, now);
    let told = state.actions.len() as int;
    assert(after.actions[told] == begun.actions[told]);
    assert(after.actions[told + 1] == begun.actions[told + 1]);
    if !state.initialized {
        assert(after.actions[told + 2] == begun.actions[told + 2]);
    }
    crate::fec::lemma_with_frame(state.fec, fec.frame);
    let kept = ReorderModel { fec: state.fec.with_frame(fec.frame), ..state };
    assert(kept.well_formed()) by {
        assert forall|s: u64| #[trigger] kept.fragments.contains_key(s) implies s
            <= MAX_MEDIA_SEQUENCE && kept.assembly_is_valid(s) by {
            assert(state.fragments.contains_key(s));
            assert(state.assembly_is_valid(s));
        }
    }
    if state.initialized {
        let routed = kept.act(ActionModel::ReplyRoute { remote: fec.remote, reset: false });
        lemma_same_parts(kept, routed);
        routed.lemma_recovered_all(now, 0);
        let first = routed.recovered_all(now);
        first.lemma_advanced(options, now, 0);
        assert(first.actions[told] == routed.actions[told]);
        assert(state.on_fec(fec, options, now).actions[told] == first.actions[told]);
    } else if state.fec.frames.dom().len() < 256 {
        let all = state.fec.frames.insert(fec.frame.base_sequence, fec.frame);
        assert(all.dom() =~= state.fec.frames.dom().insert(fec.frame.base_sequence));
    }
}

/// Whether a later state tells in turn what was given up, from the number that was due on: as
/// incomplete if fragments of it had come, and as never received otherwise, each with the number
/// that is due after it. The last that was given up is remembered as skipped, and the fragments of
/// all are gone.
pub open spec fn tells_what_is_given_up(before: ReorderModel, after: ReorderModel) -> bool {
    let told = before.actions.len() as int;
    let count = after.actions.len() - told;
    &&& count >= 0
    &&& after.next_seq == sequence::following_by(before.next_seq, count as nat)
    &&& forall|k: int|
        told <= k < after.actions.len() ==> is_told(
            before,
            after,
            sequence::following_by(before.next_seq, (k - told) as nat),
            #[trigger] after.actions[k],
        )
    &&& count <= MAX_MEDIA_SEQUENCE ==> forall|k: int|
        told <= k < after.actions.len() ==> is_told_why(before, #[trigger] after.actions[k])
    &&& count > 0 ==> after.skipped.contains(after.actions.last()->Skipped_sequence)
    &&& count == 0 ==> after.skipped == before.skipped
    &&& forall|s: u64| #[trigger]
        after.fragments.contains_key(s) ==> before.fragments.contains_key(s)
}

/// Whether an action tells that a sequence number is given up, and its fragments are gone.
pub open spec fn is_told(
    before: ReorderModel,
    after: ReorderModel,
    given_up: u64,
    action: ActionModel,
) -> bool {
    &&& action matches ActionModel::Skipped { reason, sequence, next_seq, .. }
    &&& sequence == given_up
    &&& next_seq == sequence::following(given_up)
    &&& reason == SkipReason::FragmentIncomplete ==> before.fragments.contains_key(given_up)
    &&& !after.fragments.contains_key(given_up)
}

/// Whether what is given up is told as incomplete exactly if fragments of it had come.
pub open spec fn is_told_why(before: ReorderModel, action: ActionModel) -> bool {
    action matches ActionModel::Skipped { reason, sequence, .. } && (reason
        == SkipReason::FragmentIncomplete <==> before.fragments.contains_key(sequence))
}

/// What is given up because it is overdue is told in turn, by its reason, and the last is
/// remembered, so that its packet is told of as late should it come.
#[verifier::spinoff_prover]
pub proof fn law_what_is_given_up_is_told(state: ReorderModel, delay: u64, now: u64)
    requires
        state.well_formed(),
    ensures
        tells_what_is_given_up(state, state.expired(delay, now)),
    decreases
        state.fragments.dom().len(),
        reorder_model::steps_to(state.next_seq, state.some_pending()),
{
    state.lemma_skip(delay, now);
    state.lemma_skip_incomplete();
    let due = state.next_seq;
    let after = state.expired(delay, now);
    tracking::law_skipped_is_remembered(state.skipped, due);
    if state.buffered.contains_key(due) {
    } else if state.fragments.contains_key(due) {
        if time::elapsed(now, state.fragments[due].first_seen) >= delay {
            let rest = state.without_due().skip(SkipReason::FragmentIncomplete);
            law_what_is_given_up_is_told(rest, delay, now);
            rest.lemma_expired(delay, now, 0);
            lemma_one_more_is_told(state, rest, after);
        }
    } else if state.is_overdue(delay, now) {
        let rest = state.skip(SkipReason::NeverReceived);
        law_what_is_given_up_is_told(rest, delay, now);
        rest.lemma_expired(delay, now, 0);
        assert(rest.fragments =~= state.fragments.remove(due));
        lemma_one_more_is_told(state, rest, after);
    }
}

/// Counting on from the next sequence number is counting on from this one.
proof fn lemma_following_by(sequence: u64, count: nat)
    ensures
        sequence::following_by(sequence::following(sequence), count) == sequence::following_by(
            sequence,
            count + 1,
        ),
    decreases count,
{
    reveal_with_fuel(sequence::following_by, 2);
    if count > 0 {
        lemma_following_by(sequence, (count - 1) as nat);
    }
}

#[verifier::spinoff_prover]
proof fn lemma_one_more_is_told(state: ReorderModel, rest: ReorderModel, after: ReorderModel)
    requires
        state.next_seq <= MAX_MEDIA_SEQUENCE,
        rest.next_seq == sequence::following(state.next_seq),
        rest.fragments == state.fragments.remove(state.next_seq),
        rest.actions.len() == state.actions.len() + 1,
        rest.actions.last() matches ActionModel::Skipped { reason, sequence, next_seq, .. }
            && sequence == state.next_seq && next_seq == rest.next_seq && (reason
            == SkipReason::FragmentIncomplete <==> state.fragments.contains_key(state.next_seq)),
        rest.skipped.contains(state.next_seq),
        rest.is_extended_by(after),
        tells_what_is_given_up(rest, after),
    ensures
        tells_what_is_given_up(state, after),
{
    let due = state.next_seq;
    let told = state.actions.len() as int;
    let count = after.actions.len() - told;
    assert(after.actions[told] == rest.actions[told]);
    lemma_following_by(due, (count - 1) as nat);
    assert(sequence::following_by(due, 0) == due);
    assert(!after.fragments.contains_key(due));
    assert forall|k: int| told <= k < after.actions.len() implies is_told(
        state,
        after,
        sequence::following_by(due, (k - told) as nat),
        #[trigger] after.actions[k],
    ) by {
        if k > told {
            lemma_following_by(due, (k - told - 1) as nat);
            assert(is_told(
                rest,
                after,
                sequence::following_by(rest.next_seq, (k - told - 1) as nat),
                after.actions[k],
            ));
        }
    }
    if count <= MAX_MEDIA_SEQUENCE {
        assert forall|k: int| told <= k < after.actions.len() implies is_told_why(
            state,
            #[trigger] after.actions[k],
        ) by {
            if k > told {
                let i = k - told;
                assert(is_told_why(rest, after.actions[k]));
                assert(is_told(
                    state,
                    after,
                    sequence::following_by(due, i as nat),
                    after.actions[k],
                ));
                let given_up = sequence::following_by(due, i as nat);
                sequence::law_sequence_wraps(due, i as nat);
                assert(given_up != due) by (nonlinear_arith)
                    requires
                        given_up == (due + i) % (MAX_MEDIA_SEQUENCE + 1),
                        0 < i <= MAX_MEDIA_SEQUENCE,
                        0 <= due <= MAX_MEDIA_SEQUENCE,
                        MAX_MEDIA_SEQUENCE == 67_108_862,
                ;
            }
        }
    }
    if count == 1 {
        assert(after.actions.last() == rest.actions.last());
        assert(after.skipped == rest.skipped);
    }
    assert forall|s: u64| #[trigger] after.fragments.contains_key(s) implies state.fragments.contains_key(
        s,
    ) by {
        assert(rest.fragments.contains_key(s));
    }
}

/// A fragment that does not fit its packet, because it tells of another number of fragments, or that
/// came before, is told of as a duplicate and changes nothing of what waits.
pub proof fn law_odd_fragment_is_dropped(
    state: ReorderModel,
    packet: PacketModel,
    options: ReorderOptions,
    now: u64,
)
    requires
        state.initialized,
        packet.header.sequence >= state.next_seq,
        packet.header.fragments > 1,
        !state.seen.contains(packet.header.sequence),
        !state.buffered.contains_key(packet.header.sequence),
        state.fragments.contains_key(packet.header.sequence),
        ({
            let parts = state.fragments[packet.header.sequence].parts;
            parts.len() != packet.header.fragments || parts[packet.header.fragment as int] is Some
        }),
    ensures
        ({
            let after = state.on_packet(packet, options, now);
            &&& after.fragments == state.fragments
            &&& after.buffered == state.buffered
            &&& after.next_seq == state.next_seq
            &&& after.fec == state.fec
            &&& after.actions.len() == state.actions.len() + 3
            &&& after.actions.last() == (ActionModel::Duplicate {
                buffered: state.waiting(),
                next_seq: state.next_seq,
            })
        }),
{
}

/// The missing fragments of packets are requested by their sequence numbers, the lowest first, and
/// one that is due is left out only once 64 requests were sent. The request for a packet that is
/// missing as a whole comes before them.
pub proof fn law_requests_go_in_order(state: ReorderModel, interval: u64, now: u64)
    requires
        state.well_formed(),
    ensures
        ({
            let after = state.repairs_requested(interval, now);
            let told = state.actions.len() as int;
            let from = if state.gap_is_due(interval, now) {
                told + 1
            } else {
                told
            };
            &&& from <= after.actions.len() <= told + 64
            &&& state.gap_is_due(interval, now) ==> after.actions[told]
                == reorder_progress::whole_repair(state.next_seq)
            &&& forall|i: int|
                from <= i < after.actions.len() ==> #[trigger] after.actions[i] is Repair
            &&& forall|i: int, j: int|
                from <= i < j < after.actions.len() ==> requested_of(#[trigger] after.actions[i])
                    < requested_of(#[trigger] after.actions[j])
            &&& forall|s: u64| #[trigger]
                state.fragments.contains_key(s) && state.fragments_are_due(s, interval, now)
                    ==> after.actions.len() == told + 64 || exists|i: int|
                    from <= i < after.actions.len() && #[trigger] after.actions[i]
                        == reorder_progress::part_repair(s, state.fragments[s].parts)
        }),
{
    let keys = ordered::ascending(state.fragments.dom());
    ordered::lemma_ascending_exists(state.fragments.dom());
    assert forall|i: int| 0 <= i < keys.len() implies state.fragments.contains_key(
        #[trigger] keys[i],
    ) by {
        assert(keys.to_set().contains(keys[i]));
    }
    let after = state.repairs_requested(interval, now);
    let gap = state.gap_is_due(interval, now);
    let start = if gap {
        ReorderModel {
            gap_requests: state.gap_requests.insert(state.next_seq, now),
            ..state
        }.act(reorder_progress::whole_repair(state.next_seq))
    } else {
        state
    };
    let sent: nat = if gap {
        1
    } else {
        0
    };
    assert(start.fragments == state.fragments);
    lemma_requests_in_order(start, keys, sent, interval, now);
    assert forall|s: u64| #[trigger]
        state.fragments.contains_key(s) && state.fragments_are_due(
            s,
            interval,
            now,
        ) implies after.actions.len() == state.actions.len() + 64 || exists|i: int|
        start.actions.len() <= i < after.actions.len() && #[trigger] after.actions[i]
            == reorder_progress::part_repair(s, state.fragments[s].parts) by {
        assert(keys.to_set().contains(s));
        let k = choose|k: int| 0 <= k < keys.len() && keys[k] == s;
        assert(start.fragments_are_due(keys[k], interval, now));
    }
}

/// The sequence number that a request names.
pub open spec fn requested_of(action: ActionModel) -> u64 {
    action->request.sequence
}

#[verifier::spinoff_prover]
proof fn lemma_requests_in_order(
    state: ReorderModel,
    keys: Seq<u64>,
    sent: nat,
    interval: u64,
    now: u64,
)
    requires
        ordered::is_ascending(keys),
        sent <= 64,
        forall|i: int| 0 <= i < keys.len() ==> state.fragments.contains_key(#[trigger] keys[i]),
    ensures
        ({
            let after = state.fragments_requested(keys, sent, interval, now);
            let told = state.actions.len() as int;
            &&& told <= after.actions.len() <= told + 64 - sent
            &&& forall|i: int| 0 <= i < told ==> #[trigger] after.actions[i] == state.actions[i]
            &&& forall|i: int|
                told <= i < after.actions.len() ==> #[trigger] after.actions[i] is Repair
                    && keys.contains(requested_of(after.actions[i]))
            &&& forall|i: int, j: int|
                told <= i < j < after.actions.len() ==> requested_of(#[trigger] after.actions[i])
                    < requested_of(#[trigger] after.actions[j])
            &&& forall|k: int|
                0 <= k < keys.len() && state.fragments_are_due(#[trigger] keys[k], interval, now)
                    ==> after.actions.len() == told + 64 - sent || exists|i: int|
                    told <= i < after.actions.len() && #[trigger] after.actions[i]
                        == reorder_progress::part_repair(keys[k], state.fragments[keys[k]].parts)
        }),
    decreases keys.len(),
{
    let after = state.fragments_requested(keys, sent, interval, now);
    let told = state.actions.len() as int;
    if keys.len() == 0 || sent >= 64 {
    } else {
        let rest = keys.drop_first();
        assert forall|i: int, j: int| 0 <= i < j < rest.len() implies #[trigger] rest[i]
            < #[trigger] rest[j] by {
            assert(rest[i] == keys[i + 1] && rest[j] == keys[j + 1]);
        }
        let due = state.fragments_are_due(keys[0], interval, now);
        let assembly = state.fragments[keys[0]];
        assert(state.fragments.contains_key(keys[0]));
        let request = reorder_progress::part_repair(keys[0], assembly.parts);
        let next = if due {
            ReorderModel {
                fragments: state.fragments.insert(
                    keys[0],
                    AssemblyModel { last_repair_request: Some(now), ..assembly },
                ),
                ..state
            }.act(request)
        } else {
            state
        };
        let more: nat = if due {
            sent + 1
        } else {
            sent
        };
        assert forall|i: int| 0 <= i < rest.len() implies next.fragments.contains_key(
            #[trigger] rest[i],
        ) by {
            assert(rest[i] == keys[i + 1]);
        }
        lemma_requests_in_order(next, rest, more, interval, now);
        assert(after == next.fragments_requested(rest, more, interval, now));
        assert forall|s: u64| #[trigger] rest.contains(s) implies keys.contains(s) && s > keys[0] by {
            let k = choose|k: int| 0 <= k < rest.len() && rest[k] == s;
            assert(keys[k + 1] == s);
        }
        if due {
            assert(after.actions[told] == next.actions[told]);
            assert(next.actions[told] == request);
            assert(keys.contains(keys[0]));
        }
        assert forall|i: int| 0 <= i < told implies #[trigger] after.actions[i]
            == state.actions[i] by {
            assert(after.actions[i] == next.actions[i]);
        }
        assert forall|i: int| told <= i < after.actions.len() implies #[trigger] after.actions[i]
            is Repair && keys.contains(requested_of(after.actions[i])) by {
            if i >= next.actions.len() {
                assert(rest.contains(requested_of(after.actions[i])));
            }
        }
        assert forall|i: int, j: int| told <= i < j < after.actions.len() implies requested_of(
            #[trigger] after.actions[i],
        ) < requested_of(#[trigger] after.actions[j]) by {
            assert(rest.contains(requested_of(after.actions[j])));
            if i >= next.actions.len() {
                assert(requested_of(after.actions[i]) < requested_of(after.actions[j]));
            }
        }
        assert forall|k: int|
            0 <= k < keys.len() && state.fragments_are_due(
                #[trigger] keys[k],
                interval,
                now,
            ) implies after.actions.len() == told + 64 - sent || exists|i: int|
            told <= i < after.actions.len() && #[trigger] after.actions[i]
                == reorder_progress::part_repair(keys[k], state.fragments[keys[k]].parts) by {
            if k > 0 {
                assert(rest[k - 1] == keys[k]);
                assert(keys[0] < keys[k]);
                assert(next.fragments[keys[k]] == state.fragments[keys[k]]);
                assert(next.fragments_are_due(rest[k - 1], interval, now));
                if after.actions.len() != told + 64 - sent {
                    let i = choose|i: int|
                        next.actions.len() <= i < after.actions.len()
                            && #[trigger] after.actions[i] == reorder_progress::part_repair(
                            rest[k - 1],
                            next.fragments[rest[k - 1]].parts,
                        );
                    assert(told <= i < after.actions.len());
                }
            } else {
                assert(after.actions[told] == request);
            }
        }
    }
}

/// Frames of which more than one payload is missing recover nothing.
proof fn lemma_waiting_recover_nothing(
    fec: FecModel,
    buffered: Map<u64, BufferedModel>,
    next_seq: u64,
    bases: Seq<u64>,
)
    requires
        forall|i: int|
            0 <= i < bases.len() ==> fec::scan(
                fec.frames[#[trigger] bases[i]],
                fec.payloads,
                buffered,
            ) is Waiting,
    ensures
        fec.recovered(buffered, next_seq, bases).len() == 0,
    decreases bases.len(),
{
    if bases.len() > 0 {
        let fewer = bases.drop_last();
        assert forall|i: int| 0 <= i < fewer.len() implies fec::scan(
            fec.frames[#[trigger] fewer[i]],
            fec.payloads,
            buffered,
        ) is Waiting by {
            assert(fewer[i] == bases[i]);
        }
        lemma_waiting_recover_nothing(fec, buffered, next_seq, fewer);
        assert(bases[bases.len() - 1] == bases.last());
    }
}

/// Recovery goes on until nothing more can be recovered, also with the help of what was recovered
/// before: no frame that is left lacks just one payload, and each that is left lacks more.
pub proof fn law_nothing_recoverable_is_left(state: ReorderModel, now: u64)
    requires
        state.well_formed(),
    ensures
        state.recovered_all(now).recoverable().len() == 0,
        forall|base: u64| #[trigger]
            state.recovered_all(now).fec.frames.contains_key(base) ==> fec::scan(
                state.recovered_all(now).fec.frames[base],
                state.recovered_all(now).fec.payloads,
                state.recovered_all(now).buffered,
            ) is Waiting,
    decreases state.fec.frames.dom().len(),
{
    state.lemma_recoverable();
    state.lemma_round(now);
    let kept = state.with_waiting_frames();
    let list = state.recoverable();
    if list.len() > 0 {
        kept.lemma_accepted_each(list, now, 0);
        law_nothing_recoverable_is_left(kept.accepted_each(list, now), now);
    } else {
        let bases = ordered::ascending(kept.fec.frames.dom());
        assert(kept.fec.frames.dom().finite());
        ordered::lemma_ascending_exists(kept.fec.frames.dom());
        assert forall|i: int| 0 <= i < bases.len() implies fec::scan(
            kept.fec.frames[#[trigger] bases[i]],
            kept.fec.payloads,
            kept.buffered,
        ) is Waiting by {
            assert(bases.to_set().contains(bases[i]));
            assert(kept.fec.frames.contains_key(bases[i]));
        }
        lemma_waiting_recover_nothing(kept.fec, kept.buffered, kept.next_seq, bases);
    }
}

/// Every action that tells how many packets wait tells how many do after it: those that wait whole
/// when a payload was forwarded or waits, and those that wait whole or in part when a sequence number
/// was given up. It tells the number that is due after it as well.
pub proof fn law_waiting_packets_are_counted(
    state: ReorderModel,
    sequence: u64,
    payload: Seq<u8>,
    now: u64,
    reason: SkipReason,
)
    ensures
        ({
            let after = state.delivered(payload);
            &&& after.actions.last() == (ActionModel::Forward {
                sequence: state.next_seq,
                payload,
                buffered: after.buffered.dom().len() as u64,
                next_seq: after.next_seq,
            })
            &&& after.next_seq == sequence::following(state.next_seq)
        }),
        sequence != state.next_seq ==> ({
            let after = state.accepted(sequence, payload, now);
            &&& after.actions.last() == (ActionModel::Buffered {
                buffered: after.buffered.dom().len() as u64,
                next_seq: after.next_seq,
            })
            &&& after.next_seq == state.next_seq
            &&& after.buffered.contains_key(sequence)
            &&& after.buffered[sequence].payload == payload
            &&& after.buffered[sequence].received_at == now
        }),
        ({
            let after = state.skip(reason);
            after.actions.last() == (ActionModel::Skipped {
                reason,
                sequence: state.next_seq,
                buffered: (after.buffered.dom().len() + after.fragments.dom().len()) as u64,
                next_seq: after.next_seq,
            })
        }),
{
}

} // verus!
