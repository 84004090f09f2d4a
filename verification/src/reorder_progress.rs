//! What a step owes: what waits is forwarded in the end, what is missing is asked for, and what is
//! recovered is kept.

use crate::fec;
use crate::fec::SourceModel;
use crate::ordered;
use crate::protocol::{FecFrameView, RepairRequest, MAX_MEDIA_SEQUENCE};
use crate::receive;
use crate::receive::{AssemblyModel, BufferedModel, FecModelFrame, FrameModel, PacketModel};
use crate::reorder_laws;
use crate::reorder_laws::Event;
use crate::reorder_model;
use crate::reorder_model::{ActionModel, ReorderModel, ReorderOptions, SkipReason};
use crate::sequence;
use crate::time;
use crate::tracking;
use vstd::prelude::*;

verus! {

/// Whether an action is among those that a step added.
pub open spec fn adds(before: ReorderModel, after: ReorderModel, action: ActionModel) -> bool {
    exists|i: int|
        before.actions.len() <= i < after.actions.len() && #[trigger] after.actions[i] == action
}

/// Whether a step forwarded a sequence number.
pub open spec fn forwards(before: ReorderModel, after: ReorderModel, sequence: u64) -> bool {
    exists|i: int|
        before.actions.len() <= i < after.actions.len() && (
        #[trigger] after.actions[i] matches ActionModel::Forward { sequence: s, .. } && s
            == sequence)
}

/// Whether a step forwarded a payload under a sequence number.
pub open spec fn forwards_payload(
    before: ReorderModel,
    after: ReorderModel,
    sequence: u64,
    payload: Seq<u8>,
) -> bool {
    exists|i: int|
        before.actions.len() <= i < after.actions.len() && (
        #[trigger] after.actions[i] matches ActionModel::Forward { sequence: s, payload: p, .. }
            && s == sequence && p == payload)
}

/// Whether a step gave up a sequence number.
pub open spec fn skips_any(before: ReorderModel, after: ReorderModel) -> bool {
    exists|i: int|
        before.actions.len() <= i < after.actions.len() && #[trigger] after.actions[i] is Skipped
}

/// Whether a step gave up a sequence number, and forwarded one after that.
pub open spec fn skips_to_a_payload(before: ReorderModel, after: ReorderModel) -> bool {
    exists|i: int, j: int|
        before.actions.len() <= i < j < after.actions.len() && #[trigger] after.actions[i] is Skipped
            && #[trigger] after.actions[j] is Forward
}

/// Whether an event moves a flow on: a parity frame, a packet that is neither behind nor there
/// already, or that nothing came while something waits.
pub open spec fn moves_on(state: ReorderModel, event: Event) -> bool {
    match event {
        None => !(state.buffered.dom() == Set::<u64>::empty() && state.fragments.dom() == Set::<
            u64,
        >::empty() && state.seen == Set::<u64>::empty()),
        Some(FrameModel::Fec(_)) => true,
        Some(FrameModel::Packet(packet)) => {
            let sequence = packet.header.sequence;
            &&& sequence >= state.next_seq
            &&& !state.seen.contains(sequence)
            &&& !state.buffered.contains_key(sequence)
            &&& packet.header.fragments > 1 && state.fragments.contains_key(sequence) ==> {
                let parts = state.fragments[sequence].parts;
                parts.len() == packet.header.fragments && parts[packet.header.fragment as int]
                    is None
            }
        },
    }
}

/// Whether what came last is kept from a state to a later one: a payload that waits still does, as
/// it is, or was forwarded as it is, and nothing that was to be done is taken back.
pub open spec fn keeps(before: ReorderModel, after: ReorderModel) -> bool {
    &&& before.is_extended_by(after)
    &&& forall|s: u64| #[trigger]
        before.buffered.contains_key(s) ==> (after.buffered.contains_key(s) && after.buffered[s]
            == before.buffered[s]) || forwards_payload(before, after, s, before.buffered[s].payload)
}

proof fn lemma_forwards_later(
    first: ReorderModel,
    before: ReorderModel,
    after: ReorderModel,
    later: ReorderModel,
    sequence: u64,
)
    requires
        first.actions.len() <= before.actions.len(),
        forwards(before, after, sequence),
        after.is_extended_by(later),
    ensures
        forwards(first, later, sequence),
{
    let i = choose|i: int|
        before.actions.len() <= i < after.actions.len() && (
        #[trigger] after.actions[i] matches ActionModel::Forward { sequence: s, .. } && s
            == sequence);
    assert(later.actions[i] == after.actions[i]);
}

proof fn lemma_forwards_payload_later(
    first: ReorderModel,
    before: ReorderModel,
    after: ReorderModel,
    later: ReorderModel,
    sequence: u64,
    payload: Seq<u8>,
)
    requires
        first.actions.len() <= before.actions.len(),
        forwards_payload(before, after, sequence, payload),
        after.is_extended_by(later),
    ensures
        forwards_payload(first, later, sequence, payload),
        forwards(first, later, sequence),
{
    let i = choose|i: int|
        before.actions.len() <= i < after.actions.len() && (
        #[trigger] after.actions[i] matches ActionModel::Forward { sequence: s, payload: p, .. }
            && s == sequence && p == payload);
    assert(later.actions[i] == after.actions[i]);
}

proof fn lemma_extended(first: ReorderModel, middle: ReorderModel, last: ReorderModel)
    requires
        first.is_extended_by(middle),
        middle.is_extended_by(last),
    ensures
        first.is_extended_by(last),
{
    assert forall|i: int| 0 <= i < first.actions.len() implies #[trigger] last.actions[i]
        == first.actions[i] by {
        assert(middle.actions[i] == first.actions[i]);
    }
}

proof fn lemma_keeps(first: ReorderModel, middle: ReorderModel, last: ReorderModel)
    requires
        keeps(first, middle),
        keeps(middle, last),
    ensures
        keeps(first, last),
{
    lemma_extended(first, middle, last);
    assert forall|s: u64| #[trigger] first.buffered.contains_key(s) implies (
    last.buffered.contains_key(s) && last.buffered[s] == first.buffered[s]) || forwards_payload(
        first,
        last,
        s,
        first.buffered[s].payload,
    ) by {
        let payload = first.buffered[s].payload;
        if forwards_payload(first, middle, s, payload) {
            lemma_forwards_payload_later(first, first, middle, last, s, payload);
        } else {
            assert(middle.buffered.contains_key(s));
            if forwards_payload(middle, last, s, payload) {
                lemma_forwards_payload_later(first, middle, last, last, s, payload);
            }
        }
    }
}

/// Whether the payload that is due is not among those that wait.
pub open spec fn is_clear(state: ReorderModel) -> bool {
    !state.buffered.contains_key(state.next_seq)
}

/// Whether an action is one that taking up recovered payloads may add.
spec fn is_recovery(action: ActionModel) -> bool {
    action is Forward || action is Buffered || action is FecRecovered
}

/// Whether a later state comes from taking up payloads, and the sequence number that is due is
/// either forwarded or as it was.
spec fn takes_up(before: ReorderModel, after: ReorderModel, now: u64) -> bool {
    &&& keeps(before, after)
    &&& is_clear(before) ==> is_clear(after)
    &&& forall|i: int|
        before.actions.len() <= i < after.actions.len() ==> is_recovery(#[trigger] after.actions[i])
    &&& forall|s: u64| #[trigger]
        after.buffered.contains_key(s) ==> (before.buffered.contains_key(s) && after.buffered[s]
            == before.buffered[s]) || after.buffered[s].received_at == now
    &&& forall|s: u64| #[trigger]
        after.fragments.contains_key(s) ==> before.fragments.contains_key(s) && after.fragments[s]
            == before.fragments[s]
    &&& forall|s: u64| #[trigger]
        before.fragments.contains_key(s) ==> after.fragments.contains_key(s)
            || after.buffered.contains_key(s) || forwards(before, after, s)
    &&& is_clear(before) ==> forwards(before, after, before.next_seq) || {
        &&& after.next_seq == before.next_seq
        &&& after.gap_requests == before.gap_requests
        &&& forall|i: int|
            before.actions.len() <= i < after.actions.len() ==> !(
            #[trigger] after.actions[i] is Forward)
        &&& forall|s: u64| #[trigger]
            before.buffered.contains_key(s) ==> after.buffered.contains_key(s)
        &&& forall|s: u64| #[trigger]
            before.fragments.contains_key(s) ==> after.fragments.contains_key(s)
                || after.buffered.contains_key(s)
    }
}

proof fn lemma_takes_up_self(state: ReorderModel, other: ReorderModel, now: u64)
    requires
        other.buffered == state.buffered,
        other.fragments == state.fragments,
        other.next_seq == state.next_seq,
        other.gap_requests == state.gap_requests,
        other.actions == state.actions,
    ensures
        takes_up(state, other, now),
{
}

#[verifier::spinoff_prover]
proof fn lemma_takes_up(first: ReorderModel, middle: ReorderModel, last: ReorderModel, now: u64)
    requires
        takes_up(first, middle, now),
        takes_up(middle, last, now),
    ensures
        takes_up(first, last, now),
{
    lemma_keeps(first, middle, last);
    assert forall|i: int| first.actions.len() <= i < last.actions.len() implies is_recovery(
        #[trigger] last.actions[i],
    ) by {
        if i < middle.actions.len() {
            assert(last.actions[i] == middle.actions[i]);
        }
    }
    assert forall|s: u64| #[trigger] last.buffered.contains_key(s) implies (
    first.buffered.contains_key(s) && last.buffered[s] == first.buffered[s])
        || last.buffered[s].received_at == now by {
        if last.buffered[s].received_at != now {
            assert(middle.buffered.contains_key(s));
        }
    }
    assert forall|s: u64| #[trigger]
        last.fragments.contains_key(s) implies first.fragments.contains_key(s) && last.fragments[s]
        == first.fragments[s] by {
        assert(middle.fragments.contains_key(s));
    }
    assert forall|s: u64| #[trigger]
        first.fragments.contains_key(s) implies last.fragments.contains_key(s)
        || last.buffered.contains_key(s) || forwards(first, last, s) by {
        if middle.fragments.contains_key(s) {
            if forwards(middle, last, s) {
                lemma_forwards_later(first, middle, last, last, s);
            }
        } else if middle.buffered.contains_key(s) {
            if !last.buffered.contains_key(s) {
                lemma_forwards_payload_later(
                    first,
                    middle,
                    last,
                    last,
                    s,
                    middle.buffered[s].payload,
                );
            }
        } else {
            lemma_forwards_later(first, first, middle, last, s);
        }
    }
    if is_clear(first) {
        if forwards(first, middle, first.next_seq) {
            lemma_forwards_later(first, first, middle, last, first.next_seq);
        } else if forwards(middle, last, middle.next_seq) {
            lemma_forwards_later(first, middle, last, last, first.next_seq);
        } else {
            assert forall|i: int| first.actions.len() <= i < last.actions.len() implies !(
            #[trigger] last.actions[i] is Forward) by {
                if i < middle.actions.len() {
                    assert(last.actions[i] == middle.actions[i]);
                }
            }
            assert forall|s: u64| #[trigger]
                first.buffered.contains_key(s) implies last.buffered.contains_key(s) by {
                assert(middle.buffered.contains_key(s));
            }
            assert forall|s: u64| #[trigger]
                first.fragments.contains_key(s) implies last.fragments.contains_key(s)
                || last.buffered.contains_key(s) by {
                if middle.fragments.contains_key(s) {
                } else {
                    assert(middle.buffered.contains_key(s));
                }
            }
        }
    }
}

proof fn lemma_drained(state: ReorderModel, now: u64)
    requires
        state.buffered.dom().finite(),
    ensures
        takes_up(state, state.drained(), now),
        is_clear(state.drained()),
        state.drained().fragments == state.fragments,
        forall|s: u64| #[trigger]
            state.drained().buffered.contains_key(s) ==> state.buffered.contains_key(s)
                && state.drained().buffered[s] == state.buffered[s],
        state.buffered.contains_key(state.next_seq) ==> forwards_payload(
            state,
            state.drained(),
            state.next_seq,
            state.buffered[state.next_seq].payload,
        ),
        is_clear(state) ==> state.drained() == state,
    decreases state.buffered.dom().len(),
{
    if state.buffered.contains_key(state.next_seq) {
        let rest = ReorderModel { buffered: state.buffered.remove(state.next_seq), ..state };
        let payload = state.buffered[state.next_seq].payload;
        let middle = rest.delivered(payload);
        let last = middle.drained();
        lemma_drained(middle, now);
        assert(middle.actions[state.actions.len() as int] == last.actions[state.actions.len() as int]);
        assert(forwards_payload(state, middle, state.next_seq, payload));
        assert(state.is_extended_by(middle));
        lemma_forwards_payload_later(state, state, middle, last, state.next_seq, payload);
        assert(keeps(state, middle)) by {
            assert forall|s: u64| #[trigger] state.buffered.contains_key(s) implies (
            middle.buffered.contains_key(s) && middle.buffered[s] == state.buffered[s])
                || forwards_payload(state, middle, s, state.buffered[s].payload) by {}
        }
        lemma_keeps(state, middle, last);
        assert forall|i: int| state.actions.len() <= i < last.actions.len() implies is_recovery(
            #[trigger] last.actions[i],
        ) by {
            if i < middle.actions.len() {
                assert(last.actions[i] == middle.actions[i]);
            }
        }
    } else {
        lemma_takes_up_self(state, state, now);
    }
}

/// A payload that is taken up is forwarded or waits.
#[verifier::spinoff_prover]
proof fn lemma_accepted(state: ReorderModel, sequence: u64, payload: Seq<u8>, now: u64)
    requires
        state.buffered.dom().finite(),
        !state.buffered.contains_key(sequence),
    ensures
        takes_up(state, state.accepted(sequence, payload, now), now),
        ({
            let after = state.accepted(sequence, payload, now);
            forwards_payload(state, after, sequence, payload) || (after.buffered.contains_key(
                sequence,
            ) && after.buffered[sequence].payload == payload)
        }),
        state.accepted(sequence, payload, now).fragments == state.fragments,
        is_clear(state) && sequence == state.next_seq ==> forwards(
            state,
            state.accepted(sequence, payload, now),
            state.next_seq,
        ),
{
    let after = state.accepted(sequence, payload, now);
    if sequence == state.next_seq {
        let middle = state.delivered(payload);
        assert(middle.actions[state.actions.len() as int] is Forward);
        assert(forwards_payload(state, middle, sequence, payload));
        assert(forwards(state, middle, sequence));
        assert(keeps(state, middle));
        lemma_drained(middle, now);
        lemma_forwards_payload_later(state, state, middle, after, sequence, payload);
        lemma_keeps(state, middle, after);
        assert forall|i: int| state.actions.len() <= i < after.actions.len() implies is_recovery(
            #[trigger] after.actions[i],
        ) by {
            if i < middle.actions.len() {
                assert(after.actions[i] == middle.actions[i]);
            }
        }
    } else {
        assert(after.actions.len() == state.actions.len() + 1);
        assert(keeps(state, after));
    }
}

#[verifier::spinoff_prover]
proof fn lemma_accepted_recovered(state: ReorderModel, sequence: u64, payload: Seq<u8>, now: u64)
    requires
        state.well_formed(),
    ensures
        takes_up(state, state.accepted_recovered(sequence, payload, now), now),
        is_open(state, sequence) ==> is_at_hand(
            state,
            state.accepted_recovered(sequence, payload, now),
            sequence,
        ),
        is_open(state, sequence) ==> has_payload(
            state,
            state.accepted_recovered(sequence, payload, now),
            sequence,
            payload,
        ),
{
    let after = state.accepted_recovered(sequence, payload, now);
    if sequence < state.next_seq || state.seen.contains(sequence) || state.buffered.contains_key(
        sequence,
    ) {
        lemma_takes_up_self(state, after, now);
    } else {
        let middle = ReorderModel { fragments: state.fragments.remove(sequence), ..state }.act(
            ActionModel::FecRecovered { sequence, bytes: payload.len() as u64 },
        );
        assert(keeps(state, middle));
        lemma_accepted(middle, sequence, payload, now);
        lemma_keeps(state, middle, after);
        if forwards_payload(middle, after, sequence, payload) {
            lemma_forwards_payload_later(state, middle, after, after, sequence, payload);
        }
        assert forall|i: int| state.actions.len() <= i < after.actions.len() implies is_recovery(
            #[trigger] after.actions[i],
        ) by {
            if i < middle.actions.len() {
                assert(after.actions[i] == middle.actions[i]);
            }
        }
        assert forall|s: u64| #[trigger]
            after.buffered.contains_key(s) implies (state.buffered.contains_key(s)
            && after.buffered[s] == state.buffered[s]) || after.buffered[s].received_at == now by {}
        assert forall|s: u64| #[trigger]
            after.fragments.contains_key(s) implies state.fragments.contains_key(s)
            && after.fragments[s] == state.fragments[s] by {
            assert(middle.fragments.contains_key(s));
        }
        assert forall|s: u64| #[trigger]
            state.fragments.contains_key(s) implies after.fragments.contains_key(s)
            || after.buffered.contains_key(s) || forwards(state, after, s) by {
            if s != sequence {
                assert(middle.fragments.contains_key(s));
            }
        }
        if is_clear(state) && sequence != state.next_seq {
            assert(after.next_seq == state.next_seq);
            assert(after.gap_requests == state.gap_requests);
            assert(after.actions.len() == state.actions.len() + 2);
        }
    }
}

/// Whether a sequence number is neither passed nor at hand.
pub open spec fn is_open(state: ReorderModel, sequence: u64) -> bool {
    &&& sequence >= state.next_seq
    &&& !state.seen.contains(sequence)
    &&& !state.buffered.contains_key(sequence)
}

/// Whether the payload of a sequence number waits or was forwarded in the meantime.
pub open spec fn is_at_hand(before: ReorderModel, after: ReorderModel, sequence: u64) -> bool {
    after.buffered.contains_key(sequence) || forwards(before, after, sequence)
}

/// Whether a payload waits under its sequence number or was forwarded in the meantime.
pub open spec fn has_payload(
    before: ReorderModel,
    after: ReorderModel,
    sequence: u64,
    payload: Seq<u8>,
) -> bool {
    (after.buffered.contains_key(sequence) && after.buffered[sequence].payload == payload)
        || forwards_payload(before, after, sequence, payload)
}

/// A payload that is at hand stays so.
proof fn lemma_payload_stays(
    first: ReorderModel,
    before: ReorderModel,
    after: ReorderModel,
    sequence: u64,
    payload: Seq<u8>,
)
    requires
        first.actions.len() <= before.actions.len(),
        has_payload(first, before, sequence, payload),
        keeps(before, after),
    ensures
        has_payload(first, after, sequence, payload),
{
    if before.buffered.contains_key(sequence) && before.buffered[sequence].payload == payload {
        if forwards_payload(before, after, sequence, payload) {
            lemma_forwards_payload_later(first, before, after, after, sequence, payload);
        }
    } else {
        lemma_forwards_payload_later(first, first, before, after, sequence, payload);
    }
}

/// What is at hand stays so.
proof fn lemma_stays_at_hand(
    first: ReorderModel,
    before: ReorderModel,
    after: ReorderModel,
    sequence: u64,
)
    requires
        first.actions.len() <= before.actions.len(),
        is_at_hand(first, before, sequence),
        keeps(before, after),
    ensures
        is_at_hand(first, after, sequence),
{
    if before.buffered.contains_key(sequence) {
        if !after.buffered.contains_key(sequence) {
            lemma_forwards_payload_later(
                first,
                before,
                after,
                after,
                sequence,
                before.buffered[sequence].payload,
            );
        }
    } else {
        lemma_forwards_later(first, first, before, after, sequence);
    }
}

proof fn lemma_drained_keeps_open(state: ReorderModel, sequence: u64)
    requires
        state.buffered.dom().finite(),
        sequence <= MAX_MEDIA_SEQUENCE,
        is_open(state, sequence),
    ensures
        is_open(state.drained(), sequence),
    decreases state.buffered.dom().len(),
{
    if state.buffered.contains_key(state.next_seq) {
        let rest = ReorderModel { buffered: state.buffered.remove(state.next_seq), ..state };
        lemma_drained_keeps_open(
            rest.delivered(state.buffered[state.next_seq].payload),
            sequence,
        );
    }
}

/// Taking up another payload leaves a sequence number open.
proof fn lemma_accepted_recovered_keeps_open(
    state: ReorderModel,
    other: u64,
    payload: Seq<u8>,
    now: u64,
    sequence: u64,
)
    requires
        state.well_formed(),
        sequence <= MAX_MEDIA_SEQUENCE,
        other != sequence,
        is_open(state, sequence),
    ensures
        is_open(state.accepted_recovered(other, payload, now), sequence),
{
    let middle = ReorderModel { fragments: state.fragments.remove(other), ..state }.act(
        ActionModel::FecRecovered { sequence: other, bytes: payload.len() as u64 },
    );
    if other == state.next_seq {
        lemma_drained_keeps_open(middle.delivered(payload), sequence);
    }
}

#[verifier::spinoff_prover]
proof fn lemma_accepted_each(state: ReorderModel, list: Seq<SourceModel>, now: u64)
    requires
        state.well_formed(),
        forall|i: int| 0 <= i < list.len() ==> (#[trigger] list[i]).0 <= MAX_MEDIA_SEQUENCE,
    ensures
        takes_up(state, state.accepted_each(list, now), now),
        forall|i: int|
            0 <= i < list.len() && is_open(state, (#[trigger] list[i]).0) ==> is_at_hand(
                state,
                state.accepted_each(list, now),
                list[i].0,
            ),
    decreases list.len(),
{
    if list.len() == 0 {
        lemma_takes_up_self(state, state, now);
    } else {
        let (sequence, payload) = list[0];
        assert(list[0].0 <= MAX_MEDIA_SEQUENCE);
        state.lemma_accepted_recovered(sequence, payload, now, 0);
        lemma_accepted_recovered(state, sequence, payload, now);
        let middle = state.accepted_recovered(sequence, payload, now);
        let rest = list.drop_first();
        let after = middle.accepted_each(rest, now);
        lemma_accepted_each(middle, rest, now);
        lemma_takes_up(state, middle, after, now);
        assert forall|i: int|
            0 <= i < list.len() && is_open(state, (#[trigger] list[i]).0) implies is_at_hand(
            state,
            after,
            list[i].0,
        ) by {
            let s = list[i].0;
            if s == sequence {
                lemma_stays_at_hand(state, middle, after, s);
            } else {
                lemma_accepted_recovered_keeps_open(state, sequence, payload, now, s);
                assert(rest[i - 1] == list[i]);
                assert(is_at_hand(middle, after, s));
                if forwards(middle, after, s) {
                    lemma_forwards_later(state, middle, after, after, s);
                }
            }
        }
    }
}

proof fn lemma_recovered_all(state: ReorderModel, now: u64)
    requires
        state.well_formed(),
    ensures
        takes_up(state, state.recovered_all(now), now),
        forall|i: int|
            0 <= i < state.recoverable().len() && is_open(
                state,
                (#[trigger] state.recoverable()[i]).0,
            ) ==> is_at_hand(state, state.recovered_all(now), state.recoverable()[i].0),
    decreases state.fec.frames.dom().len(),
{
    state.lemma_recoverable();
    state.lemma_round(now);
    let kept = state.with_waiting_frames();
    lemma_takes_up_self(state, kept, now);
    let list = state.recoverable();
    if list.len() > 0 {
        kept.lemma_accepted_each(list, now, 0);
        lemma_accepted_each(kept, list, now);
        let middle = kept.accepted_each(list, now);
        lemma_recovered_all(middle, now);
        let after = middle.recovered_all(now);
        lemma_takes_up(state, kept, middle, now);
        lemma_takes_up(state, middle, after, now);
        assert forall|i: int| 0 <= i < list.len() && is_open(state, (#[trigger] list[i]).0) implies
            is_at_hand(state, after, list[i].0) by {
            let s = list[i].0;
            assert(is_open(kept, s));
            assert(is_at_hand(kept, middle, s));
            assert(is_at_hand(state, middle, s)) by {
                if forwards(kept, middle, s) {
                    lemma_forwards_later(state, kept, middle, middle, s);
                }
            }
            lemma_stays_at_hand(state, middle, after, s);
        }
    }
}

/// Whether the repair of fragments is due: it was not requested yet, or long enough ago.
spec fn is_due(assembly: AssemblyModel, interval: u64, now: u64) -> bool {
    assembly.last_repair_request matches Some(last) ==> time::elapsed(now, last) >= interval
}

/// The request for the fragments that a packet lacks.
spec fn repair_of(sequence: u64, assembly: AssemblyModel) -> ActionModel {
    part_repair(sequence, assembly.parts)
}

/// Whether a later state differs in what was requested alone.
spec fn requests_only(before: ReorderModel, after: ReorderModel) -> bool {
    &&& before.is_extended_by(after)
    &&& after.buffered == before.buffered
    &&& after.next_seq == before.next_seq
    &&& after.seen == before.seen
    &&& after.skipped == before.skipped
    &&& after.fragments.dom() == before.fragments.dom()
    &&& forall|s: u64| #[trigger]
        after.fragments.contains_key(s) ==> after.fragments[s].parts == before.fragments[s].parts
            && after.fragments[s].first_seen == before.fragments[s].first_seen
    &&& forall|i: int|
        before.actions.len() <= i < after.actions.len() ==> #[trigger] after.actions[i] is Repair
}

/// Whether the requests for fragments that were added are those that are due.
spec fn asks_for_due(
    before: ReorderModel,
    after: ReorderModel,
    keys: Seq<u64>,
    room: int,
    interval: u64,
    now: u64,
) -> bool {
    &&& after.actions.len() - before.actions.len() <= room
    &&& forall|i: int|
        before.actions.len() <= i < after.actions.len() ==> exists|k: int|
            0 <= k < keys.len() && #[trigger] after.actions[i] == repair_of(
                #[trigger] keys[k],
                before.fragments[keys[k]],
            ) && is_due(before.fragments[keys[k]], interval, now)
    &&& keys.len() <= room ==> forall|k: int|
        #![trigger keys[k]]
        0 <= k < keys.len() && is_due(before.fragments[keys[k]], interval, now)
            && receive::missing_bits(before.fragments[keys[k]].parts) != 0 ==> adds(
            before,
            after,
            repair_of(keys[k], before.fragments[keys[k]]),
        ) && after.fragments[keys[k]].last_repair_request == Some(now)
    &&& forall|s: u64|
        #![trigger after.fragments[s]]
        after.fragments.contains_key(s) && (!keys.contains(s) || !is_due(
            before.fragments[s],
            interval,
            now,
        )) ==> after.fragments[s] == before.fragments[s]
}

#[verifier::spinoff_prover]
proof fn lemma_fragments_requested(
    state: ReorderModel,
    keys: Seq<u64>,
    sent: nat,
    interval: u64,
    now: u64,
)
    requires
        sent <= 64,
        ordered::is_ascending(keys),
        forall|i: int| 0 <= i < keys.len() ==> state.fragments.contains_key(#[trigger] keys[i]),
    ensures
        requests_only(state, state.fragments_requested(keys, sent, interval, now)),
        state.fragments_requested(keys, sent, interval, now).gap_requests == state.gap_requests,
        asks_for_due(
            state,
            state.fragments_requested(keys, sent, interval, now),
            keys,
            64 - sent,
            interval,
            now,
        ),
    decreases keys.len(),
{
    let after = state.fragments_requested(keys, sent, interval, now);
    if keys.len() == 0 || sent >= 64 {
        assert(after == state);
    } else {
        let key = keys[0];
        let rest = keys.drop_first();
        assert(state.fragments.contains_key(key));
        assert forall|i: int| 0 <= i < rest.len() implies state.fragments.contains_key(
            #[trigger] rest[i],
        ) && rest[i] != key by {
            assert(keys[i + 1] == rest[i]);
            assert(keys[0] < keys[i + 1]);
        }
        assert(ordered::is_ascending(rest)) by {
            assert forall|i: int, j: int| 0 <= i < j < rest.len() implies #[trigger] rest[i]
                < #[trigger] rest[j] by {
                assert(keys[i + 1] < keys[j + 1]);
            }
        }
        let due = state.fragments_are_due(key, interval, now);
        let assembly = state.fragments[key];
        let middle = if due {
            ReorderModel {
                fragments: state.fragments.insert(
                    key,
                    AssemblyModel { last_repair_request: Some(now), ..assembly },
                ),
                ..state
            }.act(repair_of(key, assembly))
        } else {
            state
        };
        let more: nat = if due {
            sent + 1
        } else {
            sent
        };
        assert forall|i: int| 0 <= i < rest.len() implies middle.fragments.contains_key(
            #[trigger] rest[i],
        ) by {
            assert(state.fragments.contains_key(rest[i]));
        }
        lemma_fragments_requested(middle, rest, more, interval, now);
        assert(after == middle.fragments_requested(rest, more, interval, now));
        assert(middle.fragments.dom() =~= state.fragments.dom());
        lemma_extended(state, middle, after);
        assert forall|i: int| state.actions.len() <= i < after.actions.len() implies (
        #[trigger] after.actions[i] is Repair) && exists|k: int|
            0 <= k < keys.len() && after.actions[i] == repair_of(
                #[trigger] keys[k],
                state.fragments[keys[k]],
            ) && is_due(state.fragments[keys[k]], interval, now) by {
            if i < middle.actions.len() {
                assert(after.actions[i] == middle.actions[i]);
                assert(after.actions[i] == repair_of(keys[0], state.fragments[keys[0]]));
            } else {
                let k = choose|k: int|
                    0 <= k < rest.len() && after.actions[i] == repair_of(
                        #[trigger] rest[k],
                        middle.fragments[rest[k]],
                    ) && is_due(middle.fragments[rest[k]], interval, now);
                assert(keys[k + 1] == rest[k]);
                assert(rest[k] != key);
            }
        }
        if keys.len() <= 64 - sent {
            assert forall|k: int|
                #![trigger keys[k]]
                0 <= k < keys.len() && is_due(state.fragments[keys[k]], interval, now)
                    && receive::missing_bits(state.fragments[keys[k]].parts) != 0 implies adds(
                state,
                after,
                repair_of(keys[k], state.fragments[keys[k]]),
            ) && after.fragments[keys[k]].last_repair_request == Some(now) by {
                if k == 0 {
                    assert(due);
                    let i = state.actions.len() as int;
                    assert(middle.actions[i] == repair_of(key, assembly));
                    assert(after.actions[i] == middle.actions[i]);
                    assert(!rest.contains(key));
                    assert(after.fragments[key] == middle.fragments[key]);
                } else {
                    assert(rest[k - 1] == keys[k]);
                    assert(adds(middle, after, repair_of(rest[k - 1], middle.fragments[rest[k - 1]])));
                    let i = choose|i: int|
                        middle.actions.len() <= i < after.actions.len()
                            && #[trigger] after.actions[i] == repair_of(
                            rest[k - 1],
                            middle.fragments[rest[k - 1]],
                        );
                    assert(after.actions[i] == repair_of(keys[k], state.fragments[keys[k]]));
                }
            }
        }
        assert forall|s: u64|
            #![trigger after.fragments[s]]
            after.fragments.contains_key(s) && (!keys.contains(s) || !is_due(
                state.fragments[s],
                interval,
                now,
            )) implies after.fragments[s] == state.fragments[s] by {
            assert(keys.contains(key));
            if rest.contains(s) {
                let j = choose|j: int| 0 <= j < rest.len() && rest[j] == s;
                assert(keys[j + 1] == s);
            }
            assert(middle.fragments[s] == state.fragments[s]);
        }
    }
}

/// Repairs are requested if the server requests any.
spec fn asked(state: ReorderModel, options: ReorderOptions, now: u64) -> ReorderModel {
    match options.repair_request_interval {
        Some(interval) => state.repairs_requested(interval, now),
        None => state,
    }
}

/// What follows once payloads have been recovered.
spec fn finished(state: ReorderModel, options: ReorderOptions, now: u64) -> ReorderModel {
    asked(state, options, now).expired(options.max_reorder_delay, now).drained()
}

/// Whether the packet that is due is missing as a whole while something waits.
spec fn has_gap(state: ReorderModel) -> bool {
    &&& !state.buffered.contains_key(state.next_seq)
    &&& !state.fragments.contains_key(state.next_seq)
    &&& !(state.buffered.dom() == Set::<u64>::empty() && state.fragments.dom() == Set::<
        u64,
    >::empty())
}

/// Whether the repair of the packet that is due was not requested yet, or long enough ago.
pub open spec fn may_ask(state: ReorderModel, interval: u64, now: u64) -> bool {
    state.gap_requests.contains_key(state.next_seq) ==> time::elapsed(
        now,
        state.gap_requests[state.next_seq],
    ) >= interval
}

/// The request for a whole packet.
pub open spec fn whole_repair(sequence: u64) -> ActionModel {
    ActionModel::Repair { request: RepairRequest { sequence, missing_mask: 0x7f } }
}

/// The request for the missing fragments of a packet.
pub open spec fn part_repair(sequence: u64, parts: Seq<Option<Seq<u8>>>) -> ActionModel {
    ActionModel::Repair {
        request: RepairRequest { sequence, missing_mask: receive::missing_bits(parts) },
    }
}

#[verifier::spinoff_prover]
proof fn lemma_asked(state: ReorderModel, options: ReorderOptions, now: u64)
    requires
        state.well_formed(),
    ensures
        asked(state, options, now).well_formed(),
        requests_only(state, asked(state, options, now)),
        options.repair_request_interval is None ==> asked(state, options, now) == state,
        options.repair_request_interval matches Some(interval) ==> {
            let after = asked(state, options, now);
            &&& has_gap(state) ==> (adds(state, after, whole_repair(state.next_seq)) <==> may_ask(
                state,
                interval,
                now,
            ))
            &&& !has_gap(state) && !state.fragments.contains_key(state.next_seq) ==> !adds(
                state,
                after,
                whole_repair(state.next_seq),
            )
            &&& after.gap_requests == (if has_gap(state) && may_ask(state, interval, now) {
                state.gap_requests.insert(state.next_seq, now)
            } else {
                state.gap_requests
            })
            &&& after.actions.len() - state.actions.len() <= 64
            &&& forall|i: int|
                state.actions.len() <= i < after.actions.len() ==> {
                    let request = (#[trigger] after.actions[i])->Repair_request;
                    ||| has_gap(state) && may_ask(state, interval, now) && after.actions[i]
                        == whole_repair(state.next_seq)
                    ||| state.fragments.contains_key(request.sequence) && after.actions[i]
                        == part_repair(
                        request.sequence,
                        state.fragments[request.sequence].parts,
                    ) && is_due(state.fragments[request.sequence], interval, now)
                }
            &&& state.fragments.dom().len() < 64 ==> forall|s: u64| #[trigger]
                state.fragments.contains_key(s) && is_due(state.fragments[s], interval, now)
                    ==> adds(state, after, part_repair(s, state.fragments[s].parts))
                    && after.fragments[s].last_repair_request == Some(now)
            &&& forall|s: u64| #[trigger]
                state.fragments.contains_key(s) && !is_due(state.fragments[s], interval, now)
                    ==> after.fragments[s] == state.fragments[s]
        },
{
    if let Some(interval) = options.repair_request_interval {
        state.lemma_repairs_requested(interval, now, 0);
        let after = asked(state, options, now);
        let keys = ordered::ascending(state.fragments.dom());
        ordered::lemma_ascending_exists(state.fragments.dom());
        assert forall|i: int| 0 <= i < keys.len() implies state.fragments.contains_key(
            #[trigger] keys[i],
        ) by {
            assert(keys.to_set().contains(keys[i]));
        }
        assert(keys.no_duplicates()) by {
            assert forall|i: int, j: int|
                0 <= i < keys.len() && 0 <= j < keys.len() && i != j implies keys[i]
                != keys[j] by {
                if i < j {
                    assert(keys[i] < keys[j]);
                } else {
                    assert(keys[j] < keys[i]);
                }
            }
        }
        keys.unique_seq_to_set();
        let asks = has_gap(state) && may_ask(state, interval, now);
        let middle = if asks {
            ReorderModel {
                gap_requests: state.gap_requests.insert(state.next_seq, now),
                ..state
            }.act(whole_repair(state.next_seq))
        } else {
            state
        };
        let sent: nat = if asks {
            1
        } else {
            0
        };
        assert(after == middle.fragments_requested(keys, sent, interval, now));
        lemma_fragments_requested(middle, keys, sent, interval, now);
        lemma_extended(state, middle, after);
        assert forall|i: int| state.actions.len() <= i < after.actions.len() implies (
        #[trigger] after.actions[i] is Repair) && {
            let request = after.actions[i]->Repair_request;
            ||| asks && after.actions[i] == whole_repair(state.next_seq)
            ||| state.fragments.contains_key(request.sequence) && after.actions[i] == part_repair(
                request.sequence,
                state.fragments[request.sequence].parts,
            ) && is_due(state.fragments[request.sequence], interval, now)
        } by {
            if i < middle.actions.len() {
                assert(after.actions[i] == middle.actions[i]);
            } else {
                let k = choose|k: int|
                    0 <= k < keys.len() && after.actions[i] == repair_of(
                        #[trigger] keys[k],
                        middle.fragments[keys[k]],
                    ) && is_due(middle.fragments[keys[k]], interval, now);
                assert(state.fragments.contains_key(keys[k]));
            }
        }
        if asks {
            let i = state.actions.len() as int;
            assert(middle.actions[i] == whole_repair(state.next_seq));
            assert(after.actions[i] == middle.actions[i]);
        } else if !state.fragments.contains_key(state.next_seq) {
            assert(!adds(state, after, whole_repair(state.next_seq)));
        }
        if state.fragments.dom().len() < 64 {
            assert forall|s: u64| #[trigger]
                state.fragments.contains_key(s) && is_due(
                    state.fragments[s],
                    interval,
                    now,
                ) implies adds(state, after, part_repair(s, state.fragments[s].parts))
                && after.fragments[s].last_repair_request == Some(now) by {
                assert(keys.to_set().contains(s));
                let k = choose|k: int| 0 <= k < keys.len() && keys[k] == s;
                assert(state.assembly_is_valid(s));
                receive::law_complete_has_no_missing_bits(state.fragments[s].parts);
                assert(adds(middle, after, repair_of(keys[k], middle.fragments[keys[k]])));
                let i = choose|i: int|
                    middle.actions.len() <= i < after.actions.len() && #[trigger] after.actions[i]
                        == repair_of(keys[k], middle.fragments[keys[k]]);
                assert(after.actions[i] == part_repair(s, state.fragments[s].parts));
            }
        }
        assert forall|s: u64| #[trigger]
            state.fragments.contains_key(s) && !is_due(
                state.fragments[s],
                interval,
                now,
            ) implies after.fragments[s] == state.fragments[s] by {
            assert(middle.fragments.dom().contains(s));
            assert(after.fragments.dom().contains(s));
        }
    }
}

/// Whether a later state comes from giving up sequence numbers that are not there.
spec fn gives_up(before: ReorderModel, after: ReorderModel, delay: u64, now: u64) -> bool {
    &&& before.is_extended_by(after)
    &&& after.buffered == before.buffered
    &&& after == before || (after.actions.len() > before.actions.len()
        && after.actions[before.actions.len() as int] is Skipped)
    &&& forall|i: int|
        before.actions.len() <= i < after.actions.len() ==> (
        #[trigger] after.actions[i] matches ActionModel::Skipped { sequence, .. }
            && !before.buffered.contains_key(sequence))
    &&& forall|s: u64| #[trigger]
        after.fragments.contains_key(s) ==> before.fragments.contains_key(s) && after.fragments[s]
            == before.fragments[s]
    &&& forall|s: u64| #[trigger]
        before.fragments.contains_key(s) && time::elapsed(now, before.fragments[s].first_seen)
            < delay ==> after.fragments.contains_key(s)
}

/// Whether nothing has waited too long.
pub open spec fn is_young(state: ReorderModel, delay: u64, now: u64) -> bool {
    &&& forall|s: u64| #[trigger]
        state.buffered.contains_key(s) ==> time::elapsed(now, state.buffered[s].received_at) < delay
    &&& forall|s: u64| #[trigger]
        state.fragments.contains_key(s) ==> time::elapsed(now, state.fragments[s].first_seen)
            < delay
}

/// Whether fragments of the packet that is due have come, and have not waited too long.
pub open spec fn has_young_fragments(state: ReorderModel, delay: u64, now: u64) -> bool {
    &&& state.fragments.contains_key(state.next_seq)
    &&& time::elapsed(now, state.fragments[state.next_seq].first_seen) < delay
}

#[verifier::spinoff_prover]
proof fn lemma_expired(state: ReorderModel, delay: u64, now: u64)
    requires
        state.well_formed(),
    ensures
        gives_up(state, state.expired(delay, now), delay, now),
        is_young(state, delay, now) ==> state.expired(delay, now) == state,
        is_young(state.expired(delay, now), delay, now) || has_young_fragments(
            state.expired(delay, now),
            delay,
            now,
        ) || state.buffered.contains_key(state.expired(delay, now).next_seq),
    decreases
        state.fragments.dom().len(),
        reorder_model::steps_to(state.next_seq, state.some_pending()),
{
    state.lemma_skip(delay, now);
    state.lemma_skip_incomplete();
    let after = state.expired(delay, now);
    if state.buffered.contains_key(state.next_seq) {
    } else if state.fragments.contains_key(state.next_seq) {
        if time::elapsed(now, state.fragments[state.next_seq].first_seen) >= delay {
            let rest = state.without_due().skip(SkipReason::FragmentIncomplete);
            lemma_expired(rest, delay, now);
            lemma_gives_up_more(state, rest, after, delay, now);
        }
    } else if state.is_overdue(delay, now) {
        let rest = state.skip(SkipReason::NeverReceived);
        lemma_expired(rest, delay, now);
        assert(rest.fragments =~= state.fragments.remove(state.next_seq));
        lemma_gives_up_more(state, rest, after, delay, now);
    }
}

proof fn lemma_gives_up_more(
    state: ReorderModel,
    rest: ReorderModel,
    after: ReorderModel,
    delay: u64,
    now: u64,
)
    requires
        gives_up(rest, after, delay, now),
        rest.actions.len() == state.actions.len() + 1,
        state.is_extended_by(rest),
        rest.actions[state.actions.len() as int] matches ActionModel::Skipped { sequence, .. }
            && sequence == state.next_seq,
        !state.buffered.contains_key(state.next_seq),
        rest.buffered == state.buffered,
        rest.fragments == state.fragments.remove(state.next_seq),
        state.fragments.contains_key(state.next_seq) ==> time::elapsed(
            now,
            state.fragments[state.next_seq].first_seen,
        ) >= delay,
    ensures
        gives_up(state, after, delay, now),
{
    lemma_extended(state, rest, after);
    let first = state.actions.len() as int;
    assert(after.actions[first] == rest.actions[first]);
    assert forall|i: int| state.actions.len() <= i < after.actions.len() implies (
    #[trigger] after.actions[i] matches ActionModel::Skipped { sequence, .. }
        && !state.buffered.contains_key(sequence)) by {
        if i < rest.actions.len() {
            assert(after.actions[i] == rest.actions[i]);
        }
    }
    assert forall|s: u64| #[trigger]
        after.fragments.contains_key(s) implies state.fragments.contains_key(s)
        && after.fragments[s] == state.fragments[s] by {
        assert(rest.fragments.contains_key(s));
    }
    assert forall|s: u64| #[trigger]
        state.fragments.contains_key(s) && time::elapsed(now, state.fragments[s].first_seen)
            < delay implies after.fragments.contains_key(s) by {
        assert(rest.fragments.contains_key(s));
    }
}

#[verifier::spinoff_prover]
proof fn lemma_finished(state: ReorderModel, options: ReorderOptions, now: u64)
    requires
        state.well_formed(),
        is_clear(state),
    ensures
        ({
            let after = finished(state, options, now);
            let delay = options.max_reorder_delay;
            &&& keeps(state, after)
            &&& is_clear(after)
            &&& is_young(after, delay, now) || has_young_fragments(after, delay, now)
                || skips_to_a_payload(state, after)
            &&& is_young(state, delay, now) ==> !skips_any(state, after)
            &&& !skips_any(state, after) ==> after == asked(state, options, now)
            &&& forall|i: int|
                state.actions.len() <= i < after.actions.len() ==> (
                #[trigger] after.actions[i] is Repair ==> adds(
                    state,
                    asked(state, options, now),
                    after.actions[i],
                ))
            &&& asked(state, options, now).is_extended_by(after)
            &&& forall|i: int|
                state.actions.len() <= i < after.actions.len() ==> (
                #[trigger] after.actions[i] matches ActionModel::Skipped { sequence, .. }
                    ==> !state.buffered.contains_key(sequence))
            &&& forall|s: u64| #[trigger]
                state.fragments.contains_key(s) && time::elapsed(now, state.fragments[s].first_seen)
                    < delay ==> after.fragments.contains_key(s) && after.fragments[s].parts
                    == state.fragments[s].parts && after.fragments[s].first_seen
                    == state.fragments[s].first_seen
        }),
{
    let delay = options.max_reorder_delay;
    let first = asked(state, options, now);
    let second = first.expired(delay, now);
    let after = second.drained();
    lemma_asked(state, options, now);
    first.lemma_expired(delay, now, 0);
    lemma_expired(first, delay, now);
    lemma_drained(second, now);
    assert(keeps(state, first));
    assert(keeps(first, second));
    lemma_keeps(state, first, second);
    lemma_keeps(state, second, after);
    lemma_extended(first, second, after);
    if !is_young(after, delay, now) && !has_young_fragments(after, delay, now) {
        assert(!is_young(second, delay, now)) by {
            if is_young(second, delay, now) {
                assert forall|s: u64| #[trigger] after.buffered.contains_key(s) implies
                    time::elapsed(now, after.buffered[s].received_at) < delay by {
                    assert(second.buffered.contains_key(s));
                }
            }
        }
        if second.buffered.contains_key(second.next_seq) {
            let payload = second.buffered[second.next_seq].payload;
            assert(forwards_payload(second, after, second.next_seq, payload));
            let j = choose|j: int|
                second.actions.len() <= j < after.actions.len() && (
                #[trigger] after.actions[j] matches ActionModel::Forward {
                    sequence: s,
                    payload: p,
                    ..
                } && s == second.next_seq && p == payload);
            let i = first.actions.len() as int;
            assert(second != first);
            assert(second.actions[i] is Skipped);
            assert(after.actions[i] == second.actions[i]);
            assert(after.actions[j] is Forward);
        } else {
            assert(after == second);
        }
    }
    assert(is_young(state, delay, now) ==> is_young(first, delay, now)) by {
        if is_young(state, delay, now) {
            assert forall|s: u64| #[trigger] first.fragments.contains_key(s) implies time::elapsed(
                now,
                first.fragments[s].first_seen,
            ) < delay by {
                assert(first.fragments.dom().contains(s));
                assert(state.fragments.dom().contains(s));
                assert(state.fragments.contains_key(s));
            }
        }
    }
    assert forall|i: int| state.actions.len() <= i < after.actions.len() implies {
        &&& #[trigger] after.actions[i] is Repair ==> i < first.actions.len()
        &&& i < first.actions.len() ==> after.actions[i] == first.actions[i]
        &&& after.actions[i] matches ActionModel::Skipped { sequence, .. } ==> first.actions.len()
            <= i && !state.buffered.contains_key(sequence)
    } by {
        if i < first.actions.len() {
            assert(after.actions[i] == first.actions[i]);
            assert(first.actions[i] is Repair);
        } else if i < second.actions.len() {
            assert(after.actions[i] == second.actions[i]);
        } else {
            assert(is_recovery(after.actions[i]));
        }
    }
    if !skips_any(state, after) {
        if second != first {
            let i = first.actions.len() as int;
            assert(second.actions[i] is Skipped);
            assert(after.actions[i] == second.actions[i]);
        }
        assert(is_clear(first));
        assert(after == first);
    }
    if is_young(state, delay, now) {
        assert(second == first);
        assert(is_clear(first));
        assert(after == first);
    }
    assert forall|s: u64| #[trigger]
        state.fragments.contains_key(s) && time::elapsed(now, state.fragments[s].first_seen)
            < delay implies after.fragments.contains_key(s) && after.fragments[s].parts
        == state.fragments[s].parts && after.fragments[s].first_seen
        == state.fragments[s].first_seen by {
        assert(state.fragments.dom().contains(s));
        assert(first.fragments.dom().contains(s));
        assert(first.fragments.contains_key(s));
    }
}

/// The packet that an event brings, if it brings one.
spec fn own(event: Event) -> Option<u64> {
    match event {
        Some(FrameModel::Packet(packet)) => Some(packet.header.sequence),
        _ => None,
    }
}

/// Whether a later state is that in which an event is about to be taken up.
spec fn begins(before: ReorderModel, after: ReorderModel, event: Event, now: u64) -> bool {
    &&& before.is_extended_by(after)
    &&& after.buffered == before.buffered
    &&& after.next_seq == before.next_seq
    &&& after.gap_requests == before.gap_requests
    &&& after.seen == before.seen
    &&& forall|i: int|
        before.actions.len() <= i < after.actions.len() ==> {
            let action = #[trigger] after.actions[i];
            action is Received || action is ReplyRoute || action is Buffered
        }
    &&& forall|s: u64|
        #![trigger after.fragments.contains_key(s)]
        #![trigger before.fragments.contains_key(s)]
        own(event) != Some(s) ==> (after.fragments.contains_key(s)
            <==> before.fragments.contains_key(s)) && (before.fragments.contains_key(s)
            ==> after.fragments[s] == before.fragments[s])
    &&& own(event) matches Some(s) ==> (after.fragments.contains_key(s) ==> (
    if before.fragments.contains_key(s) {
        after.fragments[s].first_seen == before.fragments[s].first_seen
            && after.fragments[s].last_repair_request == before.fragments[s].last_repair_request
    } else {
        after.fragments[s].first_seen == now && after.fragments[s].last_repair_request is None
    }))
}

/// A state that holds what a well-formed state holds is well-formed.
proof fn lemma_stays_well_formed(state: ReorderModel, other: ReorderModel)
    requires
        state.well_formed(),
        other.buffered == state.buffered,
        other.fragments == state.fragments,
        other.fec == state.fec,
        other.skipped == state.skipped,
        other.next_seq <= MAX_MEDIA_SEQUENCE,
    ensures
        other.well_formed(),
{
    assert forall|s: u64| #[trigger] other.fragments.contains_key(s) implies s
        <= MAX_MEDIA_SEQUENCE && other.assembly_is_valid(s) by {
        assert(state.fragments.contains_key(s));
        assert(state.assembly_is_valid(s));
    }
}

/// The fragments of the packet that a fragment belongs to, with that fragment.
pub open spec fn parts_with(state: ReorderModel, packet: PacketModel) -> Seq<Option<Seq<u8>>> {
    let sequence = packet.header.sequence;
    let before: Seq<Option<Seq<u8>>> = if state.fragments.contains_key(sequence) {
        state.fragments[sequence].parts
    } else {
        Seq::new(packet.header.fragments as nat, |i: int| None)
    };
    before.update(packet.header.fragment as int, Some(packet.payload))
}

/// A payload is taken up, and what follows from it is recovered.
proof fn lemma_completed(
    state: ReorderModel,
    sequence: u64,
    payload: Seq<u8>,
    now: u64,
) -> (ready: ReorderModel)
    requires
        state.well_formed(),
        sequence <= MAX_MEDIA_SEQUENCE,
        !state.buffered.contains_key(sequence),
    ensures
        ready == state.accepted(sequence, payload, now).recovered_all(now).recovered_all(now),
        ready.well_formed(),
        takes_up(state, ready, now),
        is_at_hand(state, ready, sequence),
        has_payload(state, ready, sequence, payload),
{
    state.lemma_accepted(sequence, payload, now, 0);
    lemma_accepted(state, sequence, payload, now);
    let first = state.accepted(sequence, payload, now);
    first.lemma_recovered_all(now, 0);
    lemma_recovered_all(first, now);
    let second = first.recovered_all(now);
    second.lemma_recovered_all(now, 0);
    lemma_recovered_all(second, now);
    let ready = second.recovered_all(now);
    lemma_takes_up(state, first, second, now);
    lemma_takes_up(state, second, ready, now);
    if forwards_payload(state, first, sequence, payload) {
        lemma_forwards_payload_later(state, state, first, first, sequence, payload);
    }
    lemma_stays_at_hand(state, first, second, sequence);
    lemma_stays_at_hand(state, second, ready, sequence);
    lemma_payload_stays(state, first, second, sequence, payload);
    lemma_payload_stays(state, second, ready, sequence, payload);
    ready
}

/// A step that moves a flow on, in two parts: the event is taken up, and what can be recovered is;
/// then comes what follows.
#[verifier::spinoff_prover]
proof fn lemma_step(
    state: ReorderModel,
    event: Event,
    options: ReorderOptions,
    now: u64,
) -> (parts: (ReorderModel, ReorderModel))
    requires
        state.well_formed(),
        state.initialized,
        reorder_laws::is_valid(event),
        moves_on(state, event),
        is_clear(state),
    ensures
        reorder_laws::stepped(state, event, options, now) == finished(parts.1, options, now),
        parts.0.well_formed(),
        parts.1.well_formed(),
        is_clear(parts.1),
        begins(state, parts.0, event, now),
        takes_up(parts.0, parts.1, now),
        own(event) matches Some(s) ==> is_at_hand(parts.0, parts.1, s)
            || parts.1.fragments.contains_key(s),
        event matches Some(FrameModel::Packet(packet)) ==> {
            let filled = parts_with(state, packet);
            let sequence = packet.header.sequence;
            if packet.header.fragments == 1 {
                has_payload(parts.0, parts.1, sequence, packet.payload)
            } else if receive::complete(filled) {
                has_payload(parts.0, parts.1, sequence, receive::joined_parts(filled))
            } else {
                parts.0.fragments.contains_key(sequence) && parts.0.fragments[sequence].parts
                    == filled
            }
        },
        event matches Some(FrameModel::Fec(fec)) ==> parts.0.fec == state.fec.with_frame(fec.frame)
            && parts.1 == parts.0.recovered_all(now).recovered_all(now),
{
    match event {
        None => {
            state.lemma_recovered_all(now, 0);
            lemma_recovered_all(state, now);
            (state, state.recovered_all(now))
        },
        Some(FrameModel::Fec(fec)) => {
            fec::lemma_with_frame(state.fec, fec.frame);
            let kept = ReorderModel { fec: state.fec.with_frame(fec.frame), ..state };
            assert(kept.well_formed()) by {
                assert forall|s: u64| #[trigger] kept.fragments.contains_key(s) implies s
                    <= MAX_MEDIA_SEQUENCE && kept.assembly_is_valid(s) by {
                    assert(state.fragments.contains_key(s));
                    assert(state.assembly_is_valid(s));
                }
            }
            let routed = kept.act(ActionModel::ReplyRoute { remote: fec.remote, reset: false });
            lemma_stays_well_formed(kept, routed);
            routed.lemma_recovered_all(now, 0);
            lemma_recovered_all(routed, now);
            let first = routed.recovered_all(now);
            first.lemma_recovered_all(now, 0);
            lemma_recovered_all(first, now);
            lemma_takes_up(routed, first, first.recovered_all(now), now);
            (routed, first.recovered_all(now))
        },
        Some(FrameModel::Packet(packet)) => {
            let sequence = packet.header.sequence;
            let begun = state.begun(packet);
            let joined = ReorderModel {
                restart: tracking::no_restart(),
                connections: begun.connections.insert(packet.connection_id),
                ..begun
            };
            lemma_stays_well_formed(state, joined);
            joined.lemma_without_fragments(sequence);
            let rest = ReorderModel { fragments: joined.fragments.remove(sequence), ..joined };
            assert(begins(state, rest, event, now));
            if packet.header.fragments == 1 {
                let ready = lemma_completed(rest, sequence, packet.payload, now);
                (rest, ready)
            } else {
                let assembly = joined.assembly_for(packet, now);
                let fragment = packet.header.fragment as int;
                assert(assembly.parts.len() == packet.header.fragments);
                assert(assembly.parts[fragment] is None);
                let parts = assembly.parts.update(fragment, Some(packet.payload));
                if receive::complete(parts) {
                    let ready = lemma_completed(
                        rest,
                        sequence,
                        receive::joined_parts(parts),
                        now,
                    );
                    (rest, ready)
                } else {
                    joined.lemma_with_parts(packet, now);
                    let longer = joined.with_parts(packet, parts, now);
                    let noted = longer.act(
                        ActionModel::Buffered {
                            buffered: longer.pending(),
                            next_seq: joined.next_seq,
                        },
                    );
                    lemma_stays_well_formed(longer, noted);
                    noted.lemma_recovered_all(now, 0);
                    lemma_recovered_all(noted, now);
                    assert(noted.fragments.contains_key(sequence));
                    (noted, noted.recovered_all(now))
                }
            }
        },
    }
}

/// What a step did, seen from the state before it.
proof fn lemma_whole_step(
    state: ReorderModel,
    parts: (ReorderModel, ReorderModel),
    after: ReorderModel,
    event: Event,
    options: ReorderOptions,
    now: u64,
)
    requires
        parts.1.well_formed(),
        is_clear(parts.1),
        begins(state, parts.0, event, now),
        takes_up(parts.0, parts.1, now),
        after == finished(parts.1, options, now),
    ensures
        keeps(state, after),
        state.actions.len() <= parts.0.actions.len() <= parts.1.actions.len(),
        parts.1.is_extended_by(after),
        parts.0.is_extended_by(after),
        forall|i: int|
            state.actions.len() <= i < parts.1.actions.len() ==> {
                let action = #[trigger] after.actions[i];
                !(action is Skipped) && !(action is Repair)
            },
        forall|action: ActionModel|
            action is Repair ==> (#[trigger] adds(state, after, action) <==> adds(
                parts.1,
                asked(parts.1, options, now),
                action,
            )),
        skips_any(state, after) ==> skips_any(parts.1, after),
{
    let (begun, ready) = parts;
    lemma_finished(ready, options, now);
    lemma_keeps(begun, ready, after);
    assert(keeps(state, begun));
    lemma_keeps(state, begun, after);
    assert forall|i: int| state.actions.len() <= i < ready.actions.len() implies {
        let action = #[trigger] after.actions[i];
        !(action is Skipped) && !(action is Repair)
    } by {
        assert(after.actions[i] == ready.actions[i]);
        if i < begun.actions.len() {
            assert(ready.actions[i] == begun.actions[i]);
        } else {
            assert(is_recovery(ready.actions[i]));
        }
    }
    let requested = asked(ready, options, now);
    assert forall|action: ActionModel| action is Repair implies (#[trigger] adds(
        state,
        after,
        action,
    ) <==> adds(ready, requested, action)) by {
        if adds(state, after, action) {
            let i = choose|i: int|
                state.actions.len() <= i < after.actions.len() && #[trigger] after.actions[i]
                    == action;
            assert(i >= ready.actions.len());
        }
        if adds(ready, requested, action) {
            let i = choose|i: int|
                ready.actions.len() <= i < requested.actions.len()
                    && #[trigger] requested.actions[i] == action;
            assert(after.actions[i] == action);
        }
    }
    if skips_any(state, after) {
        let i = choose|i: int|
            state.actions.len() <= i < after.actions.len() && #[trigger] after.actions[i]
                is Skipped;
        assert(i >= ready.actions.len());
    }
}

/// Whatever moves a flow on, and whether or not repairs are requested, nothing waits longer than the
/// greatest delay: after the step nothing that waits is too old, or fragments of the packet that is
/// due are there and not too old, or sequence numbers were given up in this step until a payload
/// that waited was due, and forwarded. And no payload that waits is lost: it still waits as it is,
/// or was forwarded as it is.
pub proof fn law_nothing_waits_too_long(
    state: ReorderModel,
    event: Event,
    options: ReorderOptions,
    now: u64,
)
    requires
        state.well_formed(),
        state.initialized,
        reorder_laws::is_valid(event),
        moves_on(state, event),
        !state.buffered.contains_key(state.next_seq),
    ensures
        ({
            let after = reorder_laws::stepped(state, event, options, now);
            let delay = options.max_reorder_delay;
            &&& is_young(after, delay, now) || has_young_fragments(after, delay, now)
                || skips_to_a_payload(state, after)
            &&& keeps(state, after)
            &&& !after.buffered.contains_key(after.next_seq)
        }),
{
    let parts = lemma_step(state, event, options, now);
    let after = reorder_laws::stepped(state, event, options, now);
    lemma_whole_step(state, parts, after, event, options, now);
    lemma_finished(parts.1, options, now);
    if skips_to_a_payload(parts.1, after) {
        let (i, j) = choose|i: int, j: int|
            parts.1.actions.len() <= i < j < after.actions.len() && #[trigger] after.actions[i]
                is Skipped && #[trigger] after.actions[j] is Forward;
        assert(after.actions[i] is Skipped && after.actions[j] is Forward);
    }
}

/// Nothing is given up before its time: as long as nothing has waited for the greatest delay, a step
/// gives up no sequence number. And no sequence number is given up whose payload waits.
pub proof fn law_nothing_is_given_up_early(
    state: ReorderModel,
    event: Event,
    options: ReorderOptions,
    now: u64,
)
    requires
        state.well_formed(),
        state.initialized,
        reorder_laws::is_valid(event),
        moves_on(state, event),
        !state.buffered.contains_key(state.next_seq),
        options.max_reorder_delay > 0,
    ensures
        ({
            let after = reorder_laws::stepped(state, event, options, now);
            &&& is_young(state, options.max_reorder_delay, now) ==> !skips_any(state, after)
            &&& forall|i: int|
                state.actions.len() <= i < after.actions.len() ==> (
                #[trigger] after.actions[i] matches ActionModel::Skipped { sequence, .. }
                    ==> !state.buffered.contains_key(sequence) || forwards(state, after, sequence))
        }),
{
    let parts = lemma_step(state, event, options, now);
    let (begun, ready) = parts;
    let after = reorder_laws::stepped(state, event, options, now);
    let delay = options.max_reorder_delay;
    lemma_whole_step(state, parts, after, event, options, now);
    lemma_finished(ready, options, now);
    if is_young(state, delay, now) {
        assert(is_young(ready, delay, now)) by {
            assert forall|s: u64| #[trigger] ready.buffered.contains_key(s) implies time::elapsed(
                now,
                ready.buffered[s].received_at,
            ) < delay by {
                if ready.buffered[s].received_at != now {
                    assert(begun.buffered.contains_key(s));
                }
            }
            assert forall|s: u64| #[trigger] ready.fragments.contains_key(s) implies time::elapsed(
                now,
                ready.fragments[s].first_seen,
            ) < delay by {
                assert(begun.fragments.contains_key(s));
                if own(event) == Some(s) && !state.fragments.contains_key(s) {
                    assert(begun.fragments[s].first_seen == now);
                } else {
                    assert(state.fragments.contains_key(s));
                }
            }
        }
    }
    assert forall|i: int| state.actions.len() <= i < after.actions.len() implies (
    #[trigger] after.actions[i] matches ActionModel::Skipped { sequence, .. }
        ==> !state.buffered.contains_key(sequence) || forwards(state, after, sequence)) by {
        if let ActionModel::Skipped { sequence, .. } = after.actions[i] {
            assert(i >= ready.actions.len());
            assert(!ready.buffered.contains_key(sequence));
            if state.buffered.contains_key(sequence) {
                assert(begun.buffered.contains_key(sequence));
                let payload = begun.buffered[sequence].payload;
                assert(forwards_payload(begun, ready, sequence, payload));
                lemma_forwards_payload_later(state, begun, ready, after, sequence, payload);
            }
        }
    }
}

/// As long as the packet that is due is missing as a whole and something waits behind it, every step
/// that moves the flow on requests its repair, all fragments of it, if that was not requested yet
/// or the interval has passed since, and does not otherwise. When it was requested is remembered, so
/// that requests recur at the interval until the packet comes or is given up.
pub proof fn law_missing_packet_is_requested(
    state: ReorderModel,
    event: Event,
    options: ReorderOptions,
    now: u64,
)
    requires
        state.well_formed(),
        state.initialized,
        reorder_laws::is_valid(event),
        moves_on(state, event),
        !state.buffered.contains_key(state.next_seq),
        !state.fragments.contains_key(state.next_seq),
        event matches Some(FrameModel::Packet(packet)) ==> packet.header.sequence
            != state.next_seq,
        event is Some && event->0 is Packet || !(state.buffered.dom() == Set::<u64>::empty()
            && state.fragments.dom() == Set::<u64>::empty()),
    ensures
        ({
            let after = reorder_laws::stepped(state, event, options, now);
            let missing = state.next_seq;
            forwards(state, after, missing) || match options.repair_request_interval {
                Some(interval) => {
                    let due = !state.gap_requests.contains_key(missing) || time::elapsed(
                        now,
                        state.gap_requests[missing],
                    ) >= interval;
                    &&& adds(state, after, whole_repair(missing)) <==> due
                    &&& !skips_any(state, after) ==> after.next_seq == missing
                        && after.gap_requests.contains_key(missing) && after.gap_requests[missing]
                        == (if due {
                        now
                    } else {
                        state.gap_requests[missing]
                    })
                },
                None => !adds(state, after, whole_repair(missing)),
            }
        }),
{
    let parts = lemma_step(state, event, options, now);
    let (begun, ready) = parts;
    let after = reorder_laws::stepped(state, event, options, now);
    let missing = state.next_seq;
    lemma_whole_step(state, parts, after, event, options, now);
    lemma_finished(ready, options, now);
    lemma_asked(ready, options, now);
    if forwards(begun, ready, missing) {
        lemma_forwards_later(state, begun, ready, after, missing);
    } else {
        assert(ready.next_seq == missing);
        assert(!ready.fragments.contains_key(missing)) by {
            if ready.fragments.contains_key(missing) {
                assert(begun.fragments.contains_key(missing));
            }
        }
        assert(has_gap(ready)) by {
            if let Some(s) = own(event) {
                assert(!forwards(begun, ready, s));
                assert(ready.buffered.dom().contains(s) || ready.fragments.dom().contains(s));
            } else if state.buffered.dom() != Set::<u64>::empty() {
                let s = choose|s: u64| state.buffered.dom().contains(s);
                if !(exists|s: u64| state.buffered.dom().contains(s)) {
                    assert(state.buffered.dom() =~= Set::empty());
                }
                assert(begun.buffered.contains_key(s));
                assert(ready.buffered.dom().contains(s));
            } else {
                let s = choose|s: u64| state.fragments.dom().contains(s);
                if !(exists|s: u64| state.fragments.dom().contains(s)) {
                    assert(state.fragments.dom() =~= Set::empty());
                }
                assert(state.fragments.contains_key(s));
                assert(begun.fragments.contains_key(s));
                assert(ready.buffered.dom().contains(s) || ready.fragments.dom().contains(s));
            }
        }
        assert(adds(state, after, whole_repair(missing)) <==> adds(
            ready,
            asked(ready, options, now),
            whole_repair(missing),
        ));
        if !skips_any(state, after) {
            assert(!skips_any(ready, after)) by {
                if skips_any(ready, after) {
                    let i = choose|i: int|
                        ready.actions.len() <= i < after.actions.len()
                            && #[trigger] after.actions[i] is Skipped;
                    assert(after.actions[i] is Skipped);
                }
            }
            assert(after == asked(ready, options, now));
        }
    }
}

/// Whether the requests that a step added are among so many actions in a row.
pub open spec fn requests_few(before: ReorderModel, after: ReorderModel, from: int) -> bool {
    forall|i: int|
        before.actions.len() <= i < after.actions.len() && (#[trigger] after.actions[i]) is Repair
            ==> from <= i < from + 64
}

/// Every step that moves a flow on requests the missing fragments of a packet of which fragments have
/// come, those and no others, if they were not requested yet or the interval has passed since, and
/// does not otherwise, unless the packet was recovered or the greatest number of requests is used
/// up. When they were requested is remembered. No step sends more than that number of requests, and
/// a server that requests no repairs sends none.
pub proof fn law_missing_fragments_are_requested(
    state: ReorderModel,
    event: Event,
    options: ReorderOptions,
    now: u64,
    sequence: u64,
)
    requires
        state.well_formed(),
        state.initialized,
        reorder_laws::is_valid(event),
        moves_on(state, event),
        !state.buffered.contains_key(state.next_seq),
        state.fragments.contains_key(sequence),
        event matches Some(FrameModel::Packet(packet)) ==> packet.header.sequence != sequence,
    ensures
        ({
            let after = reorder_laws::stepped(state, event, options, now);
            let assembly = state.fragments[sequence];
            &&& exists|from: int| #[trigger] requests_few(state, after, from)
            &&& match options.repair_request_interval {
                Some(interval) => {
                    let due = assembly.last_repair_request is None || time::elapsed(
                        now,
                        assembly.last_repair_request->0,
                    ) >= interval;
                    let request = part_repair(sequence, assembly.parts);
                    &&& is_at_hand(state, after, sequence) || (adds(state, after, request) ==> due)
                    &&& is_at_hand(state, after, sequence) || (due && state.fragments.dom().len()
                        < 63 ==> adds(state, after, request))
                    &&& !is_at_hand(state, after, sequence) && !skips_any(state, after)
                        && state.fragments.dom().len() < 63
                        ==> after.fragments.contains_key(sequence)
                        && after.fragments[sequence].parts == assembly.parts
                        && after.fragments[sequence].last_repair_request == (if due {
                        Some(now)
                    } else {
                        assembly.last_repair_request
                    })
                },
                None => forall|i: int|
                    state.actions.len() <= i < after.actions.len() ==> !(
                    #[trigger] after.actions[i] is Repair),
            }
        }),
{
    let parts = lemma_step(state, event, options, now);
    let (begun, ready) = parts;
    let after = reorder_laws::stepped(state, event, options, now);
    let assembly = state.fragments[sequence];
    lemma_whole_step(state, parts, after, event, options, now);
    lemma_finished(ready, options, now);
    lemma_asked(ready, options, now);
    let requested = asked(ready, options, now);
    let from = ready.actions.len() as int;
    assert forall|i: int|
        state.actions.len() <= i < after.actions.len() && (
        #[trigger] after.actions[i]) is Repair implies from <= i < from + 64
        && options.repair_request_interval is Some by {
        assert(i >= ready.actions.len());
        if i >= requested.actions.len() {
            lemma_no_later_repair(ready, options, now, i);
        }
    }
    assert(requests_few(state, after, from));
    assert(begun.fragments.contains_key(sequence) && begun.fragments[sequence] == assembly);
    if ready.buffered.contains_key(sequence) {
        assert(is_at_hand(state, ready, sequence));
        lemma_stays_at_hand(state, ready, after, sequence);
    } else if forwards(begun, ready, sequence) {
        lemma_forwards_later(state, begun, ready, after, sequence);
    } else {
        assert(ready.fragments.contains_key(sequence) && ready.fragments[sequence] == assembly);
        if let Some(interval) = options.repair_request_interval {
            let request = part_repair(sequence, assembly.parts);
            assert(adds(state, after, request) <==> adds(ready, requested, request));
            if adds(ready, requested, request) {
                let i = choose|i: int|
                    ready.actions.len() <= i < requested.actions.len()
                        && #[trigger] requested.actions[i] == request;
                assert(requested.actions[i]->Repair_request.sequence == sequence);
            }
            if state.fragments.dom().len() < 63 {
                lemma_few_fragments(state, begun, ready, event, now);
            }
            if !skips_any(state, after) {
                assert(!skips_any(ready, after)) by {
                    if skips_any(ready, after) {
                        let i = choose|i: int|
                            ready.actions.len() <= i < after.actions.len()
                                && #[trigger] after.actions[i] is Skipped;
                        assert(after.actions[i] is Skipped);
                    }
                }
                assert(after == requested);
                assert(ready.fragments.dom().contains(sequence));
                assert(requested.fragments.dom().contains(sequence));
                assert(requested.fragments.contains_key(sequence));
            }
        }
    }
}

/// After the requests of a step come no others.
proof fn lemma_no_later_repair(
    state: ReorderModel,
    options: ReorderOptions,
    now: u64,
    index: int,
)
    requires
        state.well_formed(),
        asked(state, options, now).actions.len() <= index < finished(
            state,
            options,
            now,
        ).actions.len(),
    ensures
        !(finished(state, options, now).actions[index] is Repair),
{
    let first = asked(state, options, now);
    lemma_asked(state, options, now);
    first.lemma_expired(options.max_reorder_delay, now, 0);
    lemma_expired(first, options.max_reorder_delay, now);
    let second = first.expired(options.max_reorder_delay, now);
    lemma_drained(second, now);
    let after = second.drained();
    if index < second.actions.len() {
        assert(after.actions[index] == second.actions[index]);
    } else {
        assert(is_recovery(after.actions[index]));
    }
}

/// A step adds at most one packet to those of which fragments are there.
proof fn lemma_few_fragments(
    state: ReorderModel,
    begun: ReorderModel,
    ready: ReorderModel,
    event: Event,
    now: u64,
)
    requires
        state.well_formed(),
        begins(state, begun, event, now),
        takes_up(begun, ready, now),
        state.fragments.dom().len() < 63,
    ensures
        ready.fragments.dom().len() < 64,
{
    let all = match own(event) {
        Some(s) => state.fragments.dom().insert(s),
        None => state.fragments.dom(),
    };
    assert forall|s: u64| ready.fragments.dom().contains(s) implies all.contains(s) by {
        assert(ready.fragments.contains_key(s));
        assert(begun.fragments.contains_key(s));
        if own(event) != Some(s) {
            assert(state.fragments.contains_key(s));
        }
    }
    vstd::set_lib::lemma_len_subset(ready.fragments.dom(), all);
}

/// A packet that is neither behind nor there already is taken up, whether or not it is due: a whole
/// payload is forwarded or waits as it came, and so is what the fragments of a packet make once the
/// last of them has come. A fragment that is not the last is kept with those that came before it,
/// unless the packet was recovered, or its first fragment has waited too long.
pub proof fn law_packet_is_taken_up(
    state: ReorderModel,
    packet: PacketModel,
    options: ReorderOptions,
    now: u64,
)
    requires
        state.well_formed(),
        state.initialized,
        packet.header.is_media(),
        moves_on(state, Some(FrameModel::Packet(packet))),
        !state.buffered.contains_key(state.next_seq),
    ensures
        ({
            let after = state.on_packet(packet, options, now);
            let sequence = packet.header.sequence;
            let parts = parts_with(state, packet);
            let first_seen = if state.fragments.contains_key(sequence) {
                state.fragments[sequence].first_seen
            } else {
                now
            };
            if packet.header.fragments == 1 {
                has_payload(state, after, sequence, packet.payload)
            } else if receive::complete(parts) {
                has_payload(state, after, sequence, receive::joined_parts(parts))
            } else {
                ||| is_at_hand(state, after, sequence)
                ||| time::elapsed(now, first_seen) >= options.max_reorder_delay
                ||| after.fragments.contains_key(sequence) && after.fragments[sequence].parts
                    == parts && after.fragments[sequence].first_seen == first_seen
            }
        }),
{
    let event = Some(FrameModel::Packet(packet));
    let both = lemma_step(state, event, options, now);
    let (begun, ready) = both;
    let after = reorder_laws::stepped(state, event, options, now);
    let sequence = packet.header.sequence;
    lemma_whole_step(state, both, after, event, options, now);
    lemma_finished(ready, options, now);
    let parts = parts_with(state, packet);
    let whole = if packet.header.fragments == 1 {
        packet.payload
    } else {
        receive::joined_parts(parts)
    };
    if packet.header.fragments == 1 || receive::complete(parts) {
        if forwards_payload(begun, ready, sequence, whole) {
            lemma_forwards_payload_later(state, begun, ready, after, sequence, whole);
        } else {
            assert(has_payload(state, ready, sequence, whole));
            lemma_payload_stays(state, ready, after, sequence, whole);
        }
    } else {
        assert(begun.fragments.contains_key(sequence));
        if ready.buffered.contains_key(sequence) {
            lemma_stays_at_hand(state, ready, after, sequence);
        } else if forwards(begun, ready, sequence) {
            lemma_forwards_later(state, begun, ready, after, sequence);
        } else {
            assert(ready.fragments.contains_key(sequence));
        }
    }
}

/// When the parity frame of a group of consecutive packets comes to a flow, and every payload of the
/// group but one is at hand, that one is at hand after the step, whether or not it is due: it was
/// forwarded or waits. Where no other frame could have recovered it, it is the payload of the group.
/// Its turn has not passed, and there is room for the frame.
pub proof fn law_recovered_payload_is_kept(
    state: ReorderModel,
    fec: FecModelFrame,
    options: ReorderOptions,
    now: u64,
    group: Seq<SourceModel>,
    lost: int,
)
    requires
        state.well_formed(),
        state.initialized,
        !state.buffered.contains_key(state.next_seq),
        fec.frame == fec::group_frame(group),
        fec::is_group(group),
        group[0].0 <= MAX_MEDIA_SEQUENCE,
        state.fec.frames.dom().len() < fec::FEC_FRAME_TRACK_LIMIT,
        fec::lacks_only(state.fec.payloads, state.buffered, state.next_seq, group, lost),
        !state.seen.contains(group[lost].0),
    ensures
        is_at_hand(state, state.on_fec(fec, options, now), group[lost].0),
        state.fec.frames.dom() == Set::<u64>::empty() ==> has_payload(
            state,
            state.on_fec(fec, options, now),
            group[lost].0,
            group[lost].1,
        ),
{
    let event = Some(FrameModel::Fec(fec));
    let (sequence, payload) = group[lost];
    let both = lemma_step(state, event, options, now);
    let (begun, ready) = both;
    let after = reorder_laws::stepped(state, event, options, now);
    lemma_whole_step(state, both, after, event, options, now);
    lemma_finished(ready, options, now);
    fec::lemma_with_frame(state.fec, fec.frame);
    reorder_laws::law_frame_recovers_single_loss(state, group, lost);
    let kept = ReorderModel { fec: state.fec.with_frame(fec.frame), ..state };
    let list = begun.recoverable();
    assert(list == kept.recoverable());
    let i = choose|i: int| 0 <= i < list.len() && list[i] == (sequence, payload);
    lemma_recovered_all(begun, now);
    begun.lemma_recovered_all(now, 0);
    let first = begun.recovered_all(now);
    assert(is_open(begun, list[i].0));
    assert(is_at_hand(begun, first, sequence));
    first.lemma_recovered_all(now, 0);
    lemma_recovered_all(first, now);
    lemma_stays_at_hand(begun, first, ready, sequence);
    lemma_stays_at_hand(begun, ready, after, sequence);
    if forwards(begun, after, sequence) {
        lemma_forwards_later(state, begun, after, after, sequence);
    }
    if state.fec.frames.dom() == Set::<u64>::empty() {
        lemma_only_frame(state, begun, fec.frame, group);
        fec::law_recovery_happens_once(
            begun.fec,
            begun.buffered,
            begun.next_seq,
            group,
            lost,
            begun.buffered,
            begun.next_seq,
        );
        begun.lemma_recoverable();
        begun.lemma_round(now);
        let waiting = begun.with_waiting_frames();
        assert(list =~= seq![(sequence, payload)]);
        lemma_accepted_recovered(waiting, sequence, payload, now);
        waiting.lemma_accepted_recovered(sequence, payload, now, 0);
        let taken = waiting.accepted_recovered(sequence, payload, now);
        assert(list.drop_first() =~= Seq::empty());
        assert(waiting.accepted_each(list, now) == taken.accepted_each(list.drop_first(), now));
        assert(taken.accepted_each(list.drop_first(), now) == taken);
        assert(first == taken.recovered_all(now));
        lemma_recovered_all(taken, now);
        assert(has_payload(begun, taken, sequence, payload)) by {
            if forwards_payload(waiting, taken, sequence, payload) {
                lemma_forwards_payload_later(begun, waiting, taken, taken, sequence, payload);
            }
        }
        lemma_payload_stays(begun, taken, first, sequence, payload);
        lemma_payload_stays(begun, first, ready, sequence, payload);
        lemma_payload_stays(begun, ready, after, sequence, payload);
        if forwards_payload(begun, after, sequence, payload) {
            lemma_forwards_payload_later(state, begun, after, after, sequence, payload);
        }
    }
}

/// The first frame is the only one.
proof fn lemma_only_frame(
    state: ReorderModel,
    begun: ReorderModel,
    frame: FecFrameView,
    group: Seq<SourceModel>,
)
    requires
        state.well_formed(),
        state.fec.frames.dom() == Set::<u64>::empty(),
        begun.fec == state.fec.with_frame(frame),
        frame == fec::group_frame(group),
    ensures
        fec::keeps_only(begun.fec, group),
        begun.fec.payloads == state.fec.payloads,
{
    let all = state.fec.frames.insert(frame.base_sequence, frame);
    assert(all.dom() =~= Set::<u64>::empty().insert(frame.base_sequence));
    assert(all.dom().len() == 1);
    assert(begun.fec.frames == all);
}

/// The payload that a flow still knows of a sequence number.
pub open spec fn known(state: ReorderModel, sequence: u64) -> Option<Seq<u8>> {
    fec::known_payload(state.fec.payloads, state.buffered, sequence)
}

/// Whether so many more payloads can be known without one being forgotten.
pub open spec fn has_room(state: ReorderModel, more: nat) -> bool {
    state.fec.payloads.dom().union(state.buffered.dom()).len() + more <= 4096
}

/// Forwarding what waits forgets no payload as long as there is room.
proof fn lemma_drained_known(state: ReorderModel)
    requires
        state.well_formed(),
        has_room(state, 0),
    ensures
        forall|s: u64| #[trigger] known(state.drained(), s) == known(state, s),
        state.drained().fec.frames == state.fec.frames,
    decreases state.buffered.dom().len(),
{
    let due = state.next_seq;
    if state.buffered.contains_key(due) {
        let payload = state.buffered[due].payload;
        let rest = ReorderModel { buffered: state.buffered.remove(due), ..state };
        let middle = rest.delivered(payload);
        rest.lemma_delivered(payload, 0);
        lemma_remembered(rest, due, payload, state.fec.payloads.dom().union(state.buffered.dom()));
        let all = state.fec.payloads.dom().union(state.buffered.dom());
        let fewer = middle.fec.payloads.dom().union(middle.buffered.dom());
        assert(fewer.subset_of(all)) by {
            assert forall|s: u64| fewer.contains(s) implies all.contains(s) by {
                if middle.fec.payloads.contains_key(s) && s != due {
                    assert(state.fec.payloads.contains_key(s));
                }
            }
        }
        vstd::set_lib::lemma_len_subset(fewer, all);
        lemma_drained_known(middle);
        assert forall|s: u64| #[trigger] known(state.drained(), s) == known(state, s) by {
            assert(known(middle, s) == known(state, s));
        }
    }
}

/// A payload that is remembered pushes out no other as long as there is room.
proof fn lemma_remembered(state: ReorderModel, sequence: u64, payload: Seq<u8>, all: Set<u64>)
    requires
        state.well_formed(),
        sequence <= MAX_MEDIA_SEQUENCE,
        all.finite(),
        all.len() <= 4096,
        state.fec.payloads.dom().insert(sequence).subset_of(all),
    ensures
        state.fec.with_payload(sequence, payload).payloads == (if state.fec.payloads.contains_key(
            sequence,
        ) {
            state.fec.payloads
        } else {
            state.fec.payloads.insert(sequence, payload)
        }),
        state.fec.with_payload(sequence, payload).frames == state.fec.frames,
{
    let longer = state.fec.payloads.insert(sequence, payload);
    assert(longer.dom() =~= state.fec.payloads.dom().insert(sequence));
    vstd::set_lib::lemma_len_subset(longer.dom(), all);
}

/// A payload that is taken up is known, and what is known of others stays, as long as there is
/// room.
proof fn lemma_accepted_known(state: ReorderModel, sequence: u64, payload: Seq<u8>, now: u64)
    requires
        state.well_formed(),
        sequence <= MAX_MEDIA_SEQUENCE,
        known(state, sequence) is None,
        has_room(state, 1),
    ensures
        ({
            let after = state.accepted(sequence, payload, now);
            &&& known(after, sequence) == Some(payload)
            &&& forall|s: u64| s != sequence ==> #[trigger] known(after, s) == known(state, s)
            &&& after.fec.frames == state.fec.frames
        }),
{
    let held = state.fec.payloads.dom().union(state.buffered.dom());
    let all = held.insert(sequence);
    lemma_remembered(state, sequence, payload, all);
    if sequence == state.next_seq {
        let middle = state.delivered(payload);
        state.lemma_delivered(payload, 0);
        let more = middle.fec.payloads.dom().union(middle.buffered.dom());
        assert(more =~= all);
        lemma_drained_known(middle);
        assert(known(middle, sequence) == Some(payload));
        assert forall|s: u64| s != sequence implies #[trigger] known(
            state.accepted(sequence, payload, now),
            s,
        ) == known(state, s) by {
            assert(known(middle, s) == known(state, s));
        }
    }
}

/// When the last payload but one of a group comes to a flow that keeps the parity frame of the
/// group, the one that is lost is at hand after the step: it was forwarded or waits. What came
/// before, and was forwarded, counts as well as what waits. The turn of the lost one has not passed.
pub proof fn law_later_packet_completes_a_group(
    state: ReorderModel,
    packet: PacketModel,
    options: ReorderOptions,
    now: u64,
    group: Seq<SourceModel>,
    lost: int,
    last: int,
)
    requires
        state.well_formed(),
        state.initialized,
        packet.header.is_media(),
        packet.header.fragments == 1,
        moves_on(state, Some(FrameModel::Packet(packet))),
        !state.buffered.contains_key(state.next_seq),
        has_room(state, 1),
        fec::is_group(group),
        group[0].0 <= MAX_MEDIA_SEQUENCE,
        state.fec.frames.contains_key(group[0].0),
        state.fec.frames[group[0].0] == fec::group_frame(group),
        0 <= lost < group.len(),
        0 <= last < group.len(),
        group[last].0 != group[lost].0,
        packet.header.sequence == group[last].0,
        packet.payload == group[last].1,
        known(state, group[last].0) is None,
        known(state, group[lost].0) is None,
        is_open(state, group[lost].0),
        forall|i: int|
            0 <= i < group.len() && i != lost && i != last ==> known(state, (#[trigger] group[i]).0)
                == Some(group[i].1) && group[i].0 != group[lost].0 && group[i].0 != group[last].0,
    ensures
        is_at_hand(state, state.on_packet(packet, options, now), group[lost].0),
{
    let event = Some(FrameModel::Packet(packet));
    let missing = group[lost].0;
    let sequence = packet.header.sequence;
    let both = lemma_step(state, event, options, now);
    let (start, ready) = both;
    let after = reorder_laws::stepped(state, event, options, now);
    lemma_whole_step(state, both, after, event, options, now);
    lemma_finished(ready, options, now);
    let begun = state.begun(packet);
    let joined = ReorderModel {
        restart: tracking::no_restart(),
        connections: begun.connections.insert(packet.connection_id),
        ..begun
    };
    lemma_stays_well_formed(state, joined);
    joined.lemma_without_fragments(sequence);
    let rest = ReorderModel { fragments: joined.fragments.remove(sequence), ..joined };
    assert(rest.fec == state.fec && rest.buffered == state.buffered);
    assert forall|s: u64| #[trigger] known(rest, s) == known(state, s) by {}
    rest.lemma_accepted(sequence, packet.payload, now, 0);
    lemma_accepted(rest, sequence, packet.payload, now);
    lemma_accepted_known(rest, sequence, packet.payload, now);
    let first = rest.accepted(sequence, packet.payload, now);
    assert(missing <= MAX_MEDIA_SEQUENCE) by {
        sequence::law_sequence_wraps(group[0].0, lost as nat);
    }
    assert(is_open(first, missing)) by {
        if sequence == rest.next_seq {
            let middle = rest.delivered(packet.payload);
            lemma_drained_keeps_open(middle, missing);
        }
    }
    assert forall|i: int| 0 <= i < group.len() && i != lost implies fec::known_payload(
        first.fec.payloads,
        first.buffered,
        (#[trigger] group[i]).0,
    ) == Some(group[i].1) by {
        assert(known(first, group[i].0) == Some(group[i].1));
    }
    assert(known(first, missing) is None);
    fec::law_single_loss_is_recovered(group, lost, first.fec.payloads, first.buffered);
    let bases = ordered::ascending(first.fec.frames.dom());
    ordered::lemma_ascending_exists(first.fec.frames.dom());
    assert(first.fec.frames.dom().contains(group[0].0));
    assert(bases.to_set().contains(group[0].0));
    reorder_laws::lemma_recovered_contains(first, bases, group[0].0, (missing, group[lost].1));
    let list = first.recoverable();
    let i = choose|i: int| 0 <= i < list.len() && list[i] == (missing, group[lost].1);
    assert(is_open(first, list[i].0));
    lemma_recovered_all(first, now);
    first.lemma_recovered_all(now, 0);
    let second = first.recovered_all(now);
    assert(is_at_hand(first, second, missing));
    second.lemma_recovered_all(now, 0);
    lemma_recovered_all(second, now);
    let third = second.recovered_all(now);
    lemma_stays_at_hand(first, second, third, missing);
    lemma_finished(third, options, now);
    assert(after == finished(third, options, now));
    lemma_stays_at_hand(first, third, after, missing);
    if forwards(first, after, missing) {
        lemma_forwards_later(state, first, after, after, missing);
    }
}

/// A step after what could be recovered was recovered keeps the parity frames.
proof fn lemma_finished_keeps_frames(state: ReorderModel, options: ReorderOptions, now: u64)
    requires
        state.well_formed(),
    ensures
        finished(state, options, now).fec.frames == state.fec.frames,
{
    let first = asked(state, options, now);
    lemma_asked(state, options, now);
    lemma_asked_keeps_frames(state, options, now);
    first.lemma_expired(options.max_reorder_delay, now, 0);
    lemma_expired_keeps_frames(first, options.max_reorder_delay, now);
    first.expired(options.max_reorder_delay, now).lemma_drained(0);
}

proof fn lemma_asked_keeps_frames(state: ReorderModel, options: ReorderOptions, now: u64)
    ensures
        asked(state, options, now).fec == state.fec,
{
    if let Some(interval) = options.repair_request_interval {
        let keys = ordered::ascending(state.fragments.dom());
        if state.gap_is_due(interval, now) {
            let noted = ReorderModel {
                gap_requests: state.gap_requests.insert(state.next_seq, now),
                ..state
            }.act(whole_repair(state.next_seq));
            lemma_fragments_requested_keeps_frames(noted, keys, 1, interval, now);
        } else {
            lemma_fragments_requested_keeps_frames(state, keys, 0, interval, now);
        }
    }
}

proof fn lemma_fragments_requested_keeps_frames(
    state: ReorderModel,
    keys: Seq<u64>,
    sent: nat,
    interval: u64,
    now: u64,
)
    ensures
        state.fragments_requested(keys, sent, interval, now).fec == state.fec,
    decreases keys.len(),
{
    if keys.len() == 0 || sent >= reorder_model::MAX_REPAIR_REQUESTS_PER_TICK {
    } else if state.fragments_are_due(keys[0], interval, now) {
        let assembly = state.fragments[keys[0]];
        let noted = ReorderModel {
            fragments: state.fragments.insert(
                keys[0],
                AssemblyModel { last_repair_request: Some(now), ..assembly },
            ),
            ..state
        }.act(part_repair(keys[0], assembly.parts));
        lemma_fragments_requested_keeps_frames(noted, keys.drop_first(), sent + 1, interval, now);
    } else {
        lemma_fragments_requested_keeps_frames(state, keys.drop_first(), sent, interval, now);
    }
}

proof fn lemma_expired_keeps_frames(state: ReorderModel, delay: u64, now: u64)
    requires
        state.well_formed(),
    ensures
        state.expired(delay, now).fec == state.fec,
    decreases
        state.fragments.dom().len(),
        reorder_model::steps_to(state.next_seq, state.some_pending()),
{
    state.lemma_skip(delay, now);
    state.lemma_skip_incomplete();
    if state.buffered.contains_key(state.next_seq) {
    } else if state.fragments.contains_key(state.next_seq) {
        if time::elapsed(now, state.fragments[state.next_seq].first_seen) >= delay {
            lemma_expired_keeps_frames(
                state.without_due().skip(SkipReason::FragmentIncomplete),
                delay,
                now,
            );
        }
    } else if state.is_overdue(delay, now) {
        lemma_expired_keeps_frames(state.skip(SkipReason::NeverReceived), delay, now);
    }
}

/// A parity frame of which two payloads are lost is kept for when one of them comes, whatever else
/// the step does.
pub proof fn law_frame_is_kept_for_later(
    state: ReorderModel,
    fec: FecModelFrame,
    options: ReorderOptions,
    now: u64,
    group: Seq<SourceModel>,
    first: int,
    second: int,
)
    requires
        state.well_formed(),
        state.initialized,
        !state.buffered.contains_key(state.next_seq),
        state.fec.frames.dom() == Set::<u64>::empty(),
        fec.frame == fec::group_frame(group),
        fec::is_group(group),
        group[0].0 <= MAX_MEDIA_SEQUENCE,
        0 <= first < second < group.len(),
        known(state, group[first].0) is None,
        known(state, group[second].0) is None,
        forall|i: int|
            0 <= i < group.len() ==> (known(state, (#[trigger] group[i]).0) matches Some(payload)
                ==> payload == group[i].1),
    ensures
        fec::keeps_only(state.on_fec(fec, options, now).fec, group),
        !is_at_hand(state, state.on_fec(fec, options, now), group[first].0),
        !is_at_hand(state, state.on_fec(fec, options, now), group[second].0),
{
    let event = Some(FrameModel::Fec(fec));
    let both = lemma_step(state, event, options, now);
    let (begun, ready) = both;
    let after = reorder_laws::stepped(state, event, options, now);
    lemma_only_frame(state, begun, fec.frame, group);
    assert forall|i: int| 0 <= i < group.len() implies {
        let at_hand = fec::known_payload(
            begun.fec.payloads,
            begun.buffered,
            (#[trigger] group[i]).0,
        );
        at_hand is None || at_hand == Some(group[i].1)
    } by {
        assert(known(state, group[i].0) == fec::known_payload(
            begun.fec.payloads,
            begun.buffered,
            group[i].0,
        ));
    }
    lemma_two_losses_wait(begun, now, group, first, second);
    assert(ready == begun);
    lemma_finished_keeps_frames(ready, options, now);
    lemma_whole_step(state, both, after, event, options, now);
    assert forall|lost: u64| lost == group[first].0 || lost == group[second].0 implies !is_at_hand(
        state,
        after,
        lost,
    ) by {
        lemma_not_at_hand(state, both, after, event, options, now, lost);
    }
}

/// While two payloads are lost, nothing is recovered.
proof fn lemma_two_losses_wait(
    state: ReorderModel,
    now: u64,
    group: Seq<SourceModel>,
    first: int,
    second: int,
)
    requires
        state.well_formed(),
        fec::keeps_only(state.fec, group),
        fec::is_group(group),
        0 <= first < second < group.len(),
        known(state, group[first].0) is None,
        known(state, group[second].0) is None,
        forall|i: int|
            0 <= i < group.len() ==> {
                let at_hand = fec::known_payload(
                    state.fec.payloads,
                    state.buffered,
                    (#[trigger] group[i]).0,
                );
                at_hand is None || at_hand == Some(group[i].1)
            },
    ensures
        state.recovered_all(now) == state,
{
    fec::lemma_two_lost(state.fec, state.buffered, state.next_seq, group, first, second);
    assert(state.recoverable() =~= Seq::empty());
    assert(state.with_waiting_frames() == state);
}

/// What does not wait and is not brought or recovered is not forwarded.
proof fn lemma_not_at_hand(
    state: ReorderModel,
    parts: (ReorderModel, ReorderModel),
    after: ReorderModel,
    event: Event,
    options: ReorderOptions,
    now: u64,
    sequence: u64,
)
    requires
        parts.1 == parts.0,
        parts.0.well_formed(),
        begins(state, parts.0, event, now),
        after == finished(parts.1, options, now),
        !parts.0.buffered.contains_key(sequence),
    ensures
        !is_at_hand(state, after, sequence),
{
    let ready = parts.1;
    let requested = asked(ready, options, now);
    lemma_asked(ready, options, now);
    requested.lemma_expired(options.max_reorder_delay, now, 0);
    lemma_expired(requested, options.max_reorder_delay, now);
    let skipped = requested.expired(options.max_reorder_delay, now);
    lemma_drained_forwards(skipped, sequence);
    lemma_drained(skipped, now);
    if forwards(state, after, sequence) {
        let i = choose|i: int|
            state.actions.len() <= i < after.actions.len() && (
            #[trigger] after.actions[i] matches ActionModel::Forward { sequence: s, .. } && s
                == sequence);
        if i < ready.actions.len() {
            assert(after.actions[i] == skipped.actions[i]);
            assert(skipped.actions[i] == requested.actions[i]);
            assert(requested.actions[i] == ready.actions[i]);
        } else if i < requested.actions.len() {
            assert(after.actions[i] == skipped.actions[i]);
            assert(skipped.actions[i] == requested.actions[i]);
        } else if i < skipped.actions.len() {
            assert(after.actions[i] == skipped.actions[i]);
        } else {
            assert(forwards(skipped, after, sequence));
        }
    }
}

/// What does not wait is not forwarded from among what waits.
proof fn lemma_drained_forwards(state: ReorderModel, sequence: u64)
    requires
        state.buffered.dom().finite(),
        !state.buffered.contains_key(sequence),
    ensures
        !forwards(state, state.drained(), sequence),
        !state.drained().buffered.contains_key(sequence),
    decreases state.buffered.dom().len(),
{
    if state.buffered.contains_key(state.next_seq) {
        let rest = ReorderModel { buffered: state.buffered.remove(state.next_seq), ..state };
        let middle = rest.delivered(state.buffered[state.next_seq].payload);
        lemma_drained_forwards(middle, sequence);
        let after = middle.drained();
        lemma_drained(middle, 0);
        if forwards(state, after, sequence) {
            let i = choose|i: int|
                state.actions.len() <= i < after.actions.len() && (
                #[trigger] after.actions[i] matches ActionModel::Forward { sequence: s, .. } && s
                    == sequence);
            if i < middle.actions.len() {
                assert(after.actions[i] == middle.actions[i]);
            } else {
                assert(forwards(middle, after, sequence));
            }
        }
    }
}

} // verus!
