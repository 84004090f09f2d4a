//! Where the payloads of a flow come from: none is forwarded that was not received, put together
//! from what was received, or recovered from it.

use crate::fec;
use crate::fec::{FecModel, GroupScan, SourceModel};
use crate::ordered;
use crate::protocol::{
    FecFrameView, RepairRequest, MAX_MEDIA_SEQUENCE, REPAIR_ALL_FRAGMENTS_MASK,
};
use crate::receive;
use crate::receive::{AssemblyModel, BufferedModel, FecModelFrame, FrameModel, PacketModel};
use crate::reorder_laws;
use crate::reorder_laws::Event;
use crate::reorder_model;
use crate::reorder_model::{
    ActionModel, ReorderModel, ReorderOptions, SkipReason, MAX_REPAIR_REQUESTS_PER_TICK,
};
use crate::sequence;
use crate::time;
use crate::tracking;
use vstd::prelude::*;

verus! {

/// Whether a fragment of a packet is among the events.
pub open spec fn fragment_came(
    events: Seq<(Event, u64)>,
    sequence: u64,
    fragment: int,
    fragments: nat,
    payload: Seq<u8>,
) -> bool {
    exists|k: int|
        0 <= k < events.len() && ((#[trigger] events[k]).0 matches Some(FrameModel::Packet(packet))
            && packet.header.sequence == sequence && packet.header.fragment == fragment
            && packet.header.fragments == fragments && packet.payload == payload)
}

/// Whether a parity frame is among the events.
pub open spec fn parity_came(events: Seq<(Event, u64)>, frame: FecFrameView) -> bool {
    exists|k: int|
        0 <= k < events.len() && ((#[trigger] events[k]).0 matches Some(FrameModel::Fec(fec))
            && fec.frame == frame)
}

/// Whether the fragments of a packet, in their order, are all among the events.
pub open spec fn fragments_came(
    events: Seq<(Event, u64)>,
    sequence: u64,
    payloads: Seq<Seq<u8>>,
) -> bool {
    forall|i: int|
        0 <= i < payloads.len() ==> fragment_came(
            events,
            sequence,
            i,
            payloads.len(),
            #[trigger] payloads[i],
        )
}

/// Whether a payload was received whole, or is what its fragments make one after the other.
pub open spec fn was_received(events: Seq<(Event, u64)>, sequence: u64, payload: Seq<u8>) -> bool {
    exists|payloads: Seq<Seq<u8>>|
        payloads.len() > 0 && #[trigger] fragments_came(events, sequence, payloads)
            && payloads.flatten() == payload
}

/// Whether a payload was received, or is recovered from a parity frame that was received and from
/// payloads of which this holds too, over at most `depth` recoveries.
#[verifier::opaque]
pub open spec fn has_source(
    events: Seq<(Event, u64)>,
    sequence: u64,
    payload: Seq<u8>,
    depth: nat,
) -> bool
    decreases depth,
{
    ||| was_received(events, sequence, payload)
    ||| depth > 0 && exists|frame: FecFrameView, known: Map<u64, Seq<u8>>|
        parity_came(events, frame) && (forall|s: u64| #[trigger]
            known.contains_key(s) ==> has_source(events, s, known[s], (depth - 1) as nat))
            && #[trigger] fec::scan(frame, known, Map::empty()) == (GroupScan::Missing {
            sequence,
            payload,
        })
}

/// Whether a payload has its source in the events, over whatever recoveries.
pub open spec fn is_sourced(events: Seq<(Event, u64)>, sequence: u64, payload: Seq<u8>) -> bool {
    exists|depth: nat| #[trigger] has_source(events, sequence, payload, depth)
}

/// Whether the fragments that are there came with the events.
spec fn parts_came(
    events: Seq<(Event, u64)>,
    sequence: u64,
    parts: Seq<Option<Seq<u8>>>,
) -> bool {
    forall|i: int|
        0 <= i < parts.len() && (#[trigger] parts[i]) is Some ==> fragment_came(
            events,
            sequence,
            i,
            parts.len(),
            parts[i]->0,
        )
}

/// Whether what an action forwards has its source in the events.
spec fn action_is_sound(events: Seq<(Event, u64)>, action: ActionModel, depth: nat) -> bool {
    action matches ActionModel::Forward { sequence, payload, .. } ==> has_source(
        events,
        sequence,
        payload,
        depth,
    )
}

/// Whether whatever is kept for recovery has its source in the events.
spec fn fec_is_sound(events: Seq<(Event, u64)>, fec: FecModel, depth: nat) -> bool {
    &&& forall|s: u64| #[trigger]
        fec.payloads.contains_key(s) ==> has_source(events, s, fec.payloads[s], depth)
    &&& forall|base: u64| #[trigger]
        fec.frames.contains_key(base) ==> parity_came(events, fec.frames[base])
}

/// Whether whatever a state holds has its source in the events.
spec fn is_sound(events: Seq<(Event, u64)>, state: ReorderModel, depth: nat) -> bool {
    &&& forall|s: u64| #[trigger]
        state.buffered.contains_key(s) ==> has_source(events, s, state.buffered[s].payload, depth)
    &&& forall|s: u64| #[trigger]
        state.fragments.contains_key(s) ==> parts_came(events, s, state.fragments[s].parts)
    &&& fec_is_sound(events, state.fec, depth)
    &&& forall|i: int|
        0 <= i < state.actions.len() ==> action_is_sound(
            events,
            #[trigger] state.actions[i],
            depth,
        )
}

/// What has a source over few recoveries and events has one over more of both.
proof fn lemma_source_grows(
    events: Seq<(Event, u64)>,
    more: Seq<(Event, u64)>,
    sequence: u64,
    payload: Seq<u8>,
    depth: nat,
    deeper: nat,
)
    requires
        has_source(events, sequence, payload, depth),
        depth <= deeper,
        events.len() <= more.len(),
        more.take(events.len() as int) == events,
    ensures
        has_source(more, sequence, payload, deeper),
    decreases depth,
{
    reveal_with_fuel(has_source, 1);
    if was_received(events, sequence, payload) {
        let payloads = choose|payloads: Seq<Seq<u8>>|
            payloads.len() > 0 && #[trigger] fragments_came(events, sequence, payloads)
                && payloads.flatten() == payload;
        assert(fragments_came(more, sequence, payloads)) by {
            assert forall|i: int| 0 <= i < payloads.len() implies fragment_came(
                more,
                sequence,
                i,
                payloads.len(),
                #[trigger] payloads[i],
            ) by {
                lemma_fragment_stays(events, more, sequence, i, payloads.len(), payloads[i]);
            }
        }
    } else {
        let (frame, known) = choose|frame: FecFrameView, known: Map<u64, Seq<u8>>|
            parity_came(events, frame) && (forall|s: u64| #[trigger]
                known.contains_key(s) ==> has_source(events, s, known[s], (depth - 1) as nat))
                && #[trigger] fec::scan(frame, known, Map::empty()) == (GroupScan::Missing {
                sequence,
                payload,
            });
        lemma_parity_stays(events, more, frame);
        assert forall|s: u64| #[trigger] known.contains_key(s) implies has_source(
            more,
            s,
            known[s],
            (deeper - 1) as nat,
        ) by {
            lemma_source_grows(
                events,
                more,
                s,
                known[s],
                (depth - 1) as nat,
                (deeper - 1) as nat,
            );
        }
    }
}

/// A fragment that came is still among more events.
proof fn lemma_fragment_stays(
    events: Seq<(Event, u64)>,
    more: Seq<(Event, u64)>,
    sequence: u64,
    fragment: int,
    fragments: nat,
    payload: Seq<u8>,
)
    requires
        fragment_came(events, sequence, fragment, fragments, payload),
        events.len() <= more.len(),
        more.take(events.len() as int) == events,
    ensures
        fragment_came(more, sequence, fragment, fragments, payload),
{
    let k = choose|k: int|
        0 <= k < events.len() && ((#[trigger] events[k]).0 matches Some(FrameModel::Packet(packet))
            && packet.header.sequence == sequence && packet.header.fragment == fragment
            && packet.header.fragments == fragments && packet.payload == payload);
    assert(more.take(events.len() as int)[k] == more[k]);
}

/// A parity frame that came is still among more events.
proof fn lemma_parity_stays(
    events: Seq<(Event, u64)>,
    more: Seq<(Event, u64)>,
    frame: FecFrameView,
)
    requires
        parity_came(events, frame),
        events.len() <= more.len(),
        more.take(events.len() as int) == events,
    ensures
        parity_came(more, frame),
{
    let k = choose|k: int|
        0 <= k < events.len() && ((#[trigger] events[k]).0 matches Some(FrameModel::Fec(fec))
            && fec.frame == frame);
    assert(more.take(events.len() as int)[k] == more[k]);
}

/// A state that is sound stays so over more recoveries and events.
proof fn lemma_sound_grows(
    events: Seq<(Event, u64)>,
    more: Seq<(Event, u64)>,
    state: ReorderModel,
    depth: nat,
    deeper: nat,
)
    requires
        is_sound(events, state, depth),
        depth <= deeper,
        events.len() <= more.len(),
        more.take(events.len() as int) == events,
    ensures
        is_sound(more, state, deeper),
{
    assert forall|s: u64| #[trigger] state.buffered.contains_key(s) implies has_source(
        more,
        s,
        state.buffered[s].payload,
        deeper,
    ) by {
        lemma_source_grows(events, more, s, state.buffered[s].payload, depth, deeper);
    }
    assert forall|s: u64| #[trigger] state.fragments.contains_key(s) implies parts_came(
        more,
        s,
        state.fragments[s].parts,
    ) by {
        let parts = state.fragments[s].parts;
        assert(parts_came(events, s, parts));
        assert forall|i: int|
            0 <= i < parts.len() && (#[trigger] parts[i]) is Some implies fragment_came(
            more,
            s,
            i,
            parts.len(),
            parts[i]->0,
        ) by {
            lemma_fragment_stays(events, more, s, i, parts.len(), parts[i]->0);
        }
    }
    assert forall|s: u64| #[trigger] state.fec.payloads.contains_key(s) implies has_source(
        more,
        s,
        state.fec.payloads[s],
        deeper,
    ) by {
        lemma_source_grows(events, more, s, state.fec.payloads[s], depth, deeper);
    }
    assert forall|base: u64| #[trigger] state.fec.frames.contains_key(base) implies parity_came(
        more,
        state.fec.frames[base],
    ) by {
        lemma_parity_stays(events, more, state.fec.frames[base]);
    }
    assert forall|i: int| 0 <= i < state.actions.len() implies action_is_sound(
        more,
        #[trigger] state.actions[i],
        deeper,
    ) by {
        assert(action_is_sound(events, state.actions[i], depth));
        if let ActionModel::Forward { sequence, payload, .. } = state.actions[i] {
            lemma_source_grows(events, more, sequence, payload, depth, deeper);
        }
    }
}

/// Keeping a payload for recovery keeps what is kept sound.
proof fn lemma_with_payload(
    events: Seq<(Event, u64)>,
    fec: FecModel,
    sequence: u64,
    payload: Seq<u8>,
    depth: nat,
)
    requires
        fec_is_sound(events, fec, depth),
        has_source(events, sequence, payload, depth),
    ensures
        fec_is_sound(events, fec.with_payload(sequence, payload), depth),
{
    if sequence <= MAX_MEDIA_SEQUENCE && !fec.payloads.contains_key(sequence) {
        let all = fec.payloads.insert(sequence, payload);
        let limit = fec::FEC_PAYLOAD_TRACK_LIMIT as nat;
        ordered::lemma_evicted_is_smaller(all, fec.payload_order.push(sequence), limit);
        let after = fec.with_payload(sequence, payload);
        assert forall|s: u64| #[trigger] after.payloads.contains_key(s) implies has_source(
            events,
            s,
            after.payloads[s],
            depth,
        ) by {
            assert(all.contains_key(s));
            if s != sequence {
                assert(fec.payloads.contains_key(s));
            }
        }
    }
}

/// Keeping a parity frame keeps what is kept sound.
proof fn lemma_with_frame(
    events: Seq<(Event, u64)>,
    fec: FecModel,
    frame: FecFrameView,
    depth: nat,
)
    requires
        fec_is_sound(events, fec, depth),
        parity_came(events, frame),
    ensures
        fec_is_sound(events, fec.with_frame(frame), depth),
{
    let base = frame.base_sequence;
    let all = fec.frames.insert(base, frame);
    let order = if fec.frames.contains_key(base) {
        fec.frame_order
    } else {
        fec.frame_order.push(base)
    };
    ordered::lemma_evicted_is_smaller(all, order, fec::FEC_FRAME_TRACK_LIMIT as nat);
    let after = fec.with_frame(frame);
    assert forall|key: u64| #[trigger] after.frames.contains_key(key) implies parity_came(
        events,
        after.frames[key],
    ) by {
        assert(all.contains_key(key));
        if key != base {
            assert(fec.frames.contains_key(key));
        }
    }
}

/// An action that forwards nothing without a source keeps a state sound.
proof fn lemma_act(
    events: Seq<(Event, u64)>,
    state: ReorderModel,
    action: ActionModel,
    depth: nat,
)
    requires
        is_sound(events, state, depth),
        action_is_sound(events, action, depth),
    ensures
        is_sound(events, state.act(action), depth),
{
    let after = state.act(action);
    assert forall|i: int| 0 <= i < after.actions.len() implies action_is_sound(
        events,
        #[trigger] after.actions[i],
        depth,
    ) by {
        if i < state.actions.len() {
            assert(after.actions[i] == state.actions[i]);
        }
    }
}

proof fn lemma_delivered(
    events: Seq<(Event, u64)>,
    state: ReorderModel,
    payload: Seq<u8>,
    depth: nat,
)
    requires
        is_sound(events, state, depth),
        has_source(events, state.next_seq, payload, depth),
    ensures
        is_sound(events, state.delivered(payload), depth),
{
    lemma_with_payload(events, state.fec, state.next_seq, payload, depth);
    let next = sequence::following(state.next_seq);
    let moved = ReorderModel {
        next_seq: next,
        seen: state.seen.remove(state.next_seq),
        gap_requests: state.gap_requests.remove(state.next_seq),
        fec: state.fec.with_payload(state.next_seq, payload),
        ..state
    };
    assert(is_sound(events, moved, depth));
    lemma_act(
        events,
        moved,
        ActionModel::Forward {
            sequence: state.next_seq,
            payload,
            buffered: state.waiting(),
            next_seq: next,
        },
        depth,
    );
}

proof fn lemma_drained(events: Seq<(Event, u64)>, state: ReorderModel, depth: nat)
    requires
        is_sound(events, state, depth),
        state.buffered.dom().finite(),
    ensures
        is_sound(events, state.drained(), depth),
    decreases state.buffered.dom().len(),
{
    if state.buffered.contains_key(state.next_seq) {
        let rest = ReorderModel { buffered: state.buffered.remove(state.next_seq), ..state };
        assert forall|s: u64| #[trigger] rest.buffered.contains_key(s) implies has_source(
            events,
            s,
            rest.buffered[s].payload,
            depth,
        ) by {
            assert(state.buffered.contains_key(s));
        }
        assert(is_sound(events, rest, depth));
        let payload = state.buffered[state.next_seq].payload;
        lemma_delivered(events, rest, payload, depth);
        lemma_drained(events, rest.delivered(payload), depth);
    }
}

proof fn lemma_accepted(
    events: Seq<(Event, u64)>,
    state: ReorderModel,
    sequence: u64,
    payload: Seq<u8>,
    now: u64,
    depth: nat,
)
    requires
        is_sound(events, state, depth),
        state.buffered.dom().finite(),
        has_source(events, sequence, payload, depth),
    ensures
        is_sound(events, state.accepted(sequence, payload, now), depth),
{
    if sequence == state.next_seq {
        lemma_delivered(events, state, payload, depth);
        lemma_drained(events, state.delivered(payload), depth);
    } else {
        lemma_with_payload(events, state.fec, sequence, payload, depth);
        let waiting = ReorderModel {
            buffered: state.buffered.insert(
                sequence,
                BufferedModel { payload, received_at: now },
            ),
            seen: state.seen.insert(sequence),
            fec: state.fec.with_payload(sequence, payload),
            ..state
        };
        assert forall|s: u64| #[trigger] waiting.buffered.contains_key(s) implies has_source(
            events,
            s,
            waiting.buffered[s].payload,
            depth,
        ) by {
            if s != sequence {
                assert(state.buffered.contains_key(s));
            }
        }
        assert(is_sound(events, waiting, depth));
        lemma_act(
            events,
            waiting,
            ActionModel::Buffered { buffered: waiting.waiting(), next_seq: state.next_seq },
            depth,
        );
    }
}

/// Dropping the fragments of a packet keeps a state sound.
proof fn lemma_without_fragments(
    events: Seq<(Event, u64)>,
    state: ReorderModel,
    sequence: u64,
    depth: nat,
)
    requires
        is_sound(events, state, depth),
    ensures
        is_sound(
            events,
            ReorderModel { fragments: state.fragments.remove(sequence), ..state },
            depth,
        ),
{
    let rest = ReorderModel { fragments: state.fragments.remove(sequence), ..state };
    assert forall|s: u64| #[trigger] rest.fragments.contains_key(s) implies parts_came(
        events,
        s,
        rest.fragments[s].parts,
    ) by {
        assert(state.fragments.contains_key(s));
    }
}

proof fn lemma_accepted_each(
    events: Seq<(Event, u64)>,
    state: ReorderModel,
    list: Seq<SourceModel>,
    now: u64,
    depth: nat,
)
    requires
        state.well_formed(),
        is_sound(events, state, depth),
        forall|i: int| 0 <= i < list.len() ==> (#[trigger] list[i]).0 <= MAX_MEDIA_SEQUENCE,
        forall|i: int|
            0 <= i < list.len() ==> has_source(
                events,
                (#[trigger] list[i]).0,
                list[i].1,
                depth,
            ),
    ensures
        is_sound(events, state.accepted_each(list, now), depth),
    decreases list.len(),
{
    if list.len() > 0 {
        let (sequence, payload) = list[0];
        assert(has_source(events, list[0].0, list[0].1, depth));
        state.lemma_accepted_recovered(sequence, payload, now, 0);
        let after = state.accepted_recovered(sequence, payload, now);
        if sequence < state.next_seq || state.seen.contains(sequence)
            || state.buffered.contains_key(sequence) {
        } else {
            lemma_without_fragments(events, state, sequence, depth);
            let rest = ReorderModel { fragments: state.fragments.remove(sequence), ..state };
            let action = ActionModel::FecRecovered { sequence, bytes: payload.len() as u64 };
            lemma_act(events, rest, action, depth);
            lemma_accepted(events, rest.act(action), sequence, payload, now, depth);
        }
        lemma_accepted_each(events, after, list.drop_first(), now, depth);
    }
}

/// The payloads that are at hand, whether kept for recovery or waiting for their turn.
spec fn at_hand(payloads: Map<u64, Seq<u8>>, buffered: Map<u64, BufferedModel>) -> Map<
    u64,
    Seq<u8>,
> {
    Map::new(
        |s: u64| fec::known_payload(payloads, buffered, s) is Some,
        |s: u64| fec::known_payload(payloads, buffered, s)->0,
    )
}

/// A scan depends on the payloads that are at hand alone.
proof fn lemma_scan_at_hand(
    frame: FecFrameView,
    payloads: Map<u64, Seq<u8>>,
    buffered: Map<u64, BufferedModel>,
    index: int,
    parity: Seq<u8>,
    missing: Option<(u64, usize)>,
)
    ensures
        fec::scan_from(frame, payloads, buffered, index, parity, missing) == fec::scan_from(
            frame,
            at_hand(payloads, buffered),
            Map::empty(),
            index,
            parity,
            missing,
        ),
    decreases frame.payload_lengths.len() - index,
{
    if 0 <= index < frame.payload_lengths.len() {
        let length = frame.payload_lengths[index];
        let sequence = sequence::following_by(frame.base_sequence, index as nat);
        let known = at_hand(payloads, buffered);
        assert(fec::known_payload(known, Map::empty(), sequence) == fec::known_payload(
            payloads,
            buffered,
            sequence,
        ));
        match fec::known_payload(payloads, buffered, sequence) {
            Some(payload) => lemma_scan_at_hand(
                frame,
                payloads,
                buffered,
                index + 1,
                fec::combined(parity, payload),
                missing,
            ),
            None => lemma_scan_at_hand(
                frame,
                payloads,
                buffered,
                index + 1,
                parity,
                Some((sequence, length)),
            ),
        }
    }
}

/// What parity frames recover has its source in the events, over one recovery more.
proof fn lemma_recovered(
    events: Seq<(Event, u64)>,
    state: ReorderModel,
    bases: Seq<u64>,
    depth: nat,
)
    requires
        is_sound(events, state, depth),
        forall|i: int|
            0 <= i < bases.len() ==> state.fec.frames.contains_key(#[trigger] bases[i]),
    ensures
        forall|i: int|
            0 <= i < state.fec.recovered(state.buffered, state.next_seq, bases).len()
                ==> has_source(
                events,
                (#[trigger] state.fec.recovered(state.buffered, state.next_seq, bases)[i]).0,
                state.fec.recovered(state.buffered, state.next_seq, bases)[i].1,
                depth + 1,
            ),
    decreases bases.len(),
{
    if bases.len() > 0 {
        let shorter = bases.drop_last();
        assert forall|i: int| 0 <= i < shorter.len() implies state.fec.frames.contains_key(
            #[trigger] shorter[i],
        ) by {
            assert(bases[i] == shorter[i]);
        }
        lemma_recovered(events, state, shorter, depth);
        let base = bases.last();
        assert(state.fec.frames.contains_key(bases[bases.len() - 1]));
        let frame = state.fec.frames[base];
        let before = state.fec.recovered(state.buffered, state.next_seq, shorter);
        let all = state.fec.recovered(state.buffered, state.next_seq, bases);
        if let GroupScan::Missing { sequence, payload } = fec::scan(
            frame,
            state.fec.payloads,
            state.buffered,
        ) {
            let known = at_hand(state.fec.payloads, state.buffered);
            lemma_scan_at_hand(
                frame,
                state.fec.payloads,
                state.buffered,
                0,
                frame.parity,
                None,
            );
            assert forall|s: u64| #[trigger] known.contains_key(s) implies has_source(
                events,
                s,
                known[s],
                depth,
            ) by {
                if state.fec.payloads.contains_key(s) {
                } else {
                    assert(state.buffered.contains_key(s));
                }
            }
            assert(has_source(events, sequence, payload, depth + 1)) by {
                reveal_with_fuel(has_source, 1);
                assert(fec::scan(frame, known, Map::empty()) == (GroupScan::Missing {
                    sequence,
                    payload,
                }));
                assert(parity_came(events, frame));
            }
        }
        assert forall|i: int| 0 <= i < all.len() implies has_source(
            events,
            (#[trigger] all[i]).0,
            all[i].1,
            depth + 1,
        ) by {
            if i < before.len() {
                assert(all[i] == before[i]);
            }
        }
    }
}

proof fn lemma_recovered_all(
    events: Seq<(Event, u64)>,
    state: ReorderModel,
    now: u64,
    depth: nat,
) -> (deeper: nat)
    requires
        state.well_formed(),
        is_sound(events, state, depth),
    ensures
        depth <= deeper,
        is_sound(events, state.recovered_all(now), deeper),
    decreases state.fec.frames.dom().len(),
{
    state.lemma_recoverable();
    state.lemma_round(now);
    let kept = state.with_waiting_frames();
    assert(is_sound(events, kept, depth)) by {
        assert forall|base: u64| #[trigger] kept.fec.frames.contains_key(base) implies parity_came(
            events,
            kept.fec.frames[base],
        ) by {
            assert(state.fec.frames.contains_key(base));
        }
    }
    let list = state.recoverable();
    if list.len() == 0 {
        depth
    } else {
        let bases = ordered::ascending(state.fec.frames.dom());
        ordered::lemma_ascending_exists(state.fec.frames.dom());
        assert forall|i: int| 0 <= i < bases.len() implies state.fec.frames.contains_key(
            #[trigger] bases[i],
        ) by {
            assert(bases.to_set().contains(bases[i]));
        }
        lemma_recovered(events, state, bases, depth);
        assert(events.take(events.len() as int) =~= events);
        lemma_sound_grows(events, events, kept, depth, depth + 1);
        kept.lemma_accepted_each(list, now, 0);
        lemma_accepted_each(events, kept, list, now, depth + 1);
        lemma_recovered_all(events, kept.accepted_each(list, now), now, depth + 1)
    }
}

proof fn lemma_fragments_requested(
    events: Seq<(Event, u64)>,
    state: ReorderModel,
    keys: Seq<u64>,
    sent: nat,
    interval: u64,
    now: u64,
    depth: nat,
)
    requires
        is_sound(events, state, depth),
        forall|i: int|
            0 <= i < keys.len() ==> state.fragments.contains_key(#[trigger] keys[i]),
    ensures
        is_sound(events, state.fragments_requested(keys, sent, interval, now), depth),
    decreases keys.len(),
{
    if keys.len() > 0 && sent < MAX_REPAIR_REQUESTS_PER_TICK {
        let rest = keys.drop_first();
        assert(state.fragments.contains_key(keys[0]));
        assert forall|i: int| 0 <= i < rest.len() implies state.fragments.contains_key(
            #[trigger] rest[i],
        ) by {
            assert(keys[i + 1] == rest[i]);
        }
        if state.fragments_are_due(keys[0], interval, now) {
            let assembly = state.fragments[keys[0]];
            let asked = ReorderModel {
                fragments: state.fragments.insert(
                    keys[0],
                    AssemblyModel { last_repair_request: Some(now), ..assembly },
                ),
                ..state
            };
            assert forall|s: u64| #[trigger] asked.fragments.contains_key(s) implies parts_came(
                events,
                s,
                asked.fragments[s].parts,
            ) by {
                assert(state.fragments.contains_key(s));
            }
            assert(is_sound(events, asked, depth));
            let action = ActionModel::Repair {
                request: RepairRequest {
                    sequence: keys[0],
                    missing_mask: receive::missing_bits(assembly.parts),
                },
            };
            lemma_act(events, asked, action, depth);
            lemma_fragments_requested(
                events,
                asked.act(action),
                rest,
                sent + 1,
                interval,
                now,
                depth,
            );
        } else {
            lemma_fragments_requested(events, state, rest, sent, interval, now, depth);
        }
    }
}

proof fn lemma_repairs_requested(
    events: Seq<(Event, u64)>,
    state: ReorderModel,
    interval: u64,
    now: u64,
    depth: nat,
)
    requires
        state.well_formed(),
        is_sound(events, state, depth),
    ensures
        is_sound(events, state.repairs_requested(interval, now), depth),
{
    let keys = ordered::ascending(state.fragments.dom());
    ordered::lemma_ascending_exists(state.fragments.dom());
    assert forall|i: int| 0 <= i < keys.len() implies state.fragments.contains_key(
        #[trigger] keys[i],
    ) by {
        assert(keys.to_set().contains(keys[i]));
    }
    let asked = ReorderModel {
        gap_requests: state.gap_requests.insert(state.next_seq, now),
        ..state
    };
    assert(is_sound(events, asked, depth));
    let action = ActionModel::Repair {
        request: RepairRequest {
            sequence: state.next_seq,
            missing_mask: REPAIR_ALL_FRAGMENTS_MASK,
        },
    };
    lemma_act(events, asked, action, depth);
    lemma_fragments_requested(events, asked.act(action), keys, 1, interval, now, depth);
    lemma_fragments_requested(events, state, keys, 0, interval, now, depth);
}

proof fn lemma_skip(
    events: Seq<(Event, u64)>,
    state: ReorderModel,
    reason: SkipReason,
    depth: nat,
)
    requires
        is_sound(events, state, depth),
    ensures
        is_sound(events, state.skip(reason), depth),
{
    let next = sequence::following(state.next_seq);
    let moved = ReorderModel {
        next_seq: next,
        gap_requests: state.gap_requests.remove(state.next_seq),
        skipped: tracking::with_skipped(state.skipped, state.next_seq),
        ..state
    };
    assert(is_sound(events, moved, depth));
    lemma_act(
        events,
        moved,
        ActionModel::Skipped {
            reason,
            sequence: state.next_seq,
            buffered: state.pending(),
            next_seq: next,
        },
        depth,
    );
}

proof fn lemma_expired(
    events: Seq<(Event, u64)>,
    state: ReorderModel,
    delay: u64,
    now: u64,
    depth: nat,
)
    requires
        state.well_formed(),
        is_sound(events, state, depth),
    ensures
        is_sound(events, state.expired(delay, now), depth),
    decreases
        state.fragments.dom().len(),
        reorder_model::steps_to(state.next_seq, state.some_pending()),
{
    state.lemma_skip(delay, now);
    state.lemma_skip_incomplete();
    if state.buffered.contains_key(state.next_seq) {
    } else if state.fragments.contains_key(state.next_seq) {
        if time::elapsed(now, state.fragments[state.next_seq].first_seen) >= delay {
            lemma_without_fragments(events, state, state.next_seq, depth);
            let rest = state.without_due();
            assert(is_sound(events, rest, depth));
            lemma_skip(events, rest, SkipReason::FragmentIncomplete, depth);
            lemma_expired(events, rest.skip(SkipReason::FragmentIncomplete), delay, now, depth);
        }
    } else if state.is_overdue(delay, now) {
        lemma_skip(events, state, SkipReason::NeverReceived, depth);
        lemma_expired(events, state.skip(SkipReason::NeverReceived), delay, now, depth);
    }
}

proof fn lemma_advanced(
    events: Seq<(Event, u64)>,
    state: ReorderModel,
    options: ReorderOptions,
    now: u64,
    depth: nat,
) -> (deeper: nat)
    requires
        state.well_formed(),
        is_sound(events, state, depth),
    ensures
        depth <= deeper,
        is_sound(events, state.advanced(options, now), deeper),
{
    state.lemma_recovered_all(now, 0);
    let deeper = lemma_recovered_all(events, state, now, depth);
    let recovered = state.recovered_all(now);
    let requested = match options.repair_request_interval {
        Some(interval) => {
            recovered.lemma_repairs_requested(interval, now, 0);
            lemma_repairs_requested(events, recovered, interval, now, deeper);
            recovered.repairs_requested(interval, now)
        },
        None => recovered,
    };
    requested.lemma_expired(options.max_reorder_delay, now, 0);
    lemma_expired(events, requested, options.max_reorder_delay, now, deeper);
    lemma_drained(events, requested.expired(options.max_reorder_delay, now), deeper);
    deeper
}

proof fn lemma_completed(
    events: Seq<(Event, u64)>,
    state: ReorderModel,
    sequence: u64,
    payload: Seq<u8>,
    options: ReorderOptions,
    now: u64,
    depth: nat,
) -> (deeper: nat)
    requires
        state.well_formed(),
        sequence <= MAX_MEDIA_SEQUENCE,
        is_sound(events, state, depth),
        has_source(events, sequence, payload, depth),
    ensures
        depth <= deeper,
        is_sound(events, state.completed(sequence, payload, options, now), deeper),
{
    state.lemma_accepted(sequence, payload, now, 0);
    lemma_accepted(events, state, sequence, payload, now, depth);
    let accepted = state.accepted(sequence, payload, now);
    accepted.lemma_recovered_all(now, 0);
    let deeper = lemma_recovered_all(events, accepted, now, depth);
    lemma_advanced(events, accepted.recovered_all(now), options, now, deeper)
}

/// A payload whose fragments came has its source in the events.
proof fn lemma_received(
    events: Seq<(Event, u64)>,
    sequence: u64,
    parts: Seq<Option<Seq<u8>>>,
    depth: nat,
)
    requires
        parts.len() > 0,
        receive::complete(parts),
        parts_came(events, sequence, parts),
    ensures
        has_source(events, sequence, receive::joined_parts(parts), depth),
{
    let payloads = Seq::new(parts.len(), |i: int| parts[i]->0);
    assert forall|i: int| 0 <= i < parts.len() implies #[trigger] parts[i] == Some(payloads[i]) by {
        assert(parts[i] is Some);
    }
    receive::lemma_joined_payloads(parts, payloads);
    payloads.lemma_flatten_and_flatten_alt_are_equivalent();
    assert(fragments_came(events, sequence, payloads)) by {
        assert forall|i: int| 0 <= i < payloads.len() implies fragment_came(
            events,
            sequence,
            i,
            payloads.len(),
            #[trigger] payloads[i],
        ) by {
            assert(parts[i] is Some);
        }
    }
    reveal_with_fuel(has_source, 1);
}

proof fn lemma_admitted(
    events: Seq<(Event, u64)>,
    state: ReorderModel,
    packet: PacketModel,
    options: ReorderOptions,
    now: u64,
    depth: nat,
) -> (deeper: nat)
    requires
        state.well_formed(),
        packet.header.is_media(),
        is_sound(events, state, depth),
        fragment_came(
            events,
            packet.header.sequence,
            packet.header.fragment as int,
            packet.header.fragments as nat,
            packet.payload,
        ),
    ensures
        depth <= deeper,
        is_sound(events, state.admitted(packet, options, now), deeper),
{
    let sequence = packet.header.sequence;
    let fragment = packet.header.fragment as int;
    let rest = ReorderModel { fragments: state.fragments.remove(sequence), ..state };
    state.lemma_without_fragments(sequence);
    lemma_without_fragments(events, state, sequence, depth);
    lemma_act(
        events,
        state,
        ActionModel::Duplicate { buffered: state.waiting(), next_seq: state.next_seq },
        depth,
    );
    if state.seen.contains(sequence) || state.buffered.contains_key(sequence) {
        depth
    } else if packet.header.fragments == 1 {
        let parts = seq![Some(packet.payload)];
        assert(parts_came(events, sequence, parts));
        lemma_received(events, sequence, parts, depth);
        assert(receive::joined_parts(parts.drop_last()) =~= Seq::empty());
        assert(receive::joined_parts(parts) =~= packet.payload);
        lemma_completed(events, rest, sequence, packet.payload, options, now, depth)
    } else {
        let assembly = state.assembly_for(packet, now);
        if assembly.parts.len() != packet.header.fragments || assembly.parts[fragment] is Some {
            depth
        } else {
            let parts = assembly.parts.update(fragment, Some(packet.payload));
            assert(parts_came(events, sequence, assembly.parts));
            assert(parts_came(events, sequence, parts)) by {
                assert forall|i: int|
                    0 <= i < parts.len() && (#[trigger] parts[i]) is Some implies fragment_came(
                    events,
                    sequence,
                    i,
                    parts.len(),
                    parts[i]->0,
                ) by {
                    if i != fragment {
                        assert(assembly.parts[i] is Some);
                    }
                }
            }
            if receive::complete(parts) {
                lemma_received(events, sequence, parts, depth);
                lemma_completed(
                    events,
                    rest,
                    sequence,
                    receive::joined_parts(parts),
                    options,
                    now,
                    depth,
                )
            } else {
                state.lemma_with_parts(packet, now);
                let longer = state.with_parts(packet, parts, now);
                assert forall|s: u64| #[trigger]
                    longer.fragments.contains_key(s) implies parts_came(
                    events,
                    s,
                    longer.fragments[s].parts,
                ) by {
                    if s != sequence {
                        assert(state.fragments.contains_key(s));
                    }
                }
                assert(is_sound(events, longer, depth));
                let action = ActionModel::Buffered {
                    buffered: longer.pending(),
                    next_seq: state.next_seq,
                };
                lemma_act(events, longer, action, depth);
                let noted = longer.act(action);
                assert(noted.well_formed()) by {
                    assert forall|s: u64| #[trigger] noted.fragments.contains_key(s) implies s
                        <= MAX_MEDIA_SEQUENCE && noted.assembly_is_valid(s) by {
                        assert(longer.fragments.contains_key(s));
                        assert(longer.assembly_is_valid(s));
                    }
                }
                lemma_advanced(events, noted, options, now, depth)
            }
        }
    }
}

/// A state that holds what a sound state holds is sound.
proof fn lemma_holds_the_same(
    events: Seq<(Event, u64)>,
    state: ReorderModel,
    other: ReorderModel,
    depth: nat,
)
    requires
        state.well_formed(),
        is_sound(events, state, depth),
        other.buffered == state.buffered,
        other.fragments == state.fragments,
        other.fec == state.fec,
        other.skipped == state.skipped,
        other.actions == state.actions,
        other.next_seq <= MAX_MEDIA_SEQUENCE,
    ensures
        other.well_formed(),
        is_sound(events, other, depth),
{
    assert forall|s: u64| #[trigger] other.fragments.contains_key(s) implies s
        <= MAX_MEDIA_SEQUENCE && other.assembly_is_valid(s) by {
        assert(state.fragments.contains_key(s));
        assert(state.assembly_is_valid(s));
    }
}

/// An action that forwards nothing keeps a state well-formed and sound.
proof fn lemma_note(
    events: Seq<(Event, u64)>,
    state: ReorderModel,
    action: ActionModel,
    depth: nat,
)
    requires
        state.well_formed(),
        is_sound(events, state, depth),
        !(action is Forward),
    ensures
        state.act(action).well_formed(),
        is_sound(events, state.act(action), depth),
{
    lemma_act(events, state, action, depth);
    let after = state.act(action);
    assert forall|s: u64| #[trigger] after.fragments.contains_key(s) implies s
        <= MAX_MEDIA_SEQUENCE && after.assembly_is_valid(s) by {
        assert(state.fragments.contains_key(s));
        assert(state.assembly_is_valid(s));
    }
}

proof fn lemma_begun(
    events: Seq<(Event, u64)>,
    state: ReorderModel,
    packet: PacketModel,
    depth: nat,
)
    requires
        state.well_formed(),
        packet.header.is_media(),
        is_sound(events, state, depth),
    ensures
        state.begun(packet).well_formed(),
        is_sound(events, state.begun(packet), depth),
{
    let action = ActionModel::Received { bytes: packet.payload.len() as u64 };
    lemma_note(events, state, action, depth);
    let received = state.act(action);
    if state.initialized {
        lemma_note(
            events,
            received,
            ActionModel::ReplyRoute { remote: packet.remote, reset: false },
            depth,
        );
    } else {
        let started = ReorderModel {
            initialized: true,
            next_seq: packet.header.sequence,
            connections: state.connections.insert(packet.connection_id),
            ..received
        };
        lemma_holds_the_same(events, received, started, depth);
        let route = ActionModel::ReplyRoute { remote: packet.remote, reset: true };
        lemma_note(events, started, route, depth);
        lemma_note(
            events,
            started.act(route),
            ActionModel::FlowStart { next_seq: packet.header.sequence },
            depth,
        );
    }
}

proof fn lemma_restarted(
    events: Seq<(Event, u64)>,
    state: ReorderModel,
    packet: PacketModel,
    depth: nat,
)
    requires
        state.well_formed(),
        packet.header.is_media(),
        is_sound(events, state, depth),
    ensures
        state.restarted(packet).well_formed(),
        is_sound(events, state.restarted(packet), depth),
{
    let emptied = ReorderModel {
        next_seq: packet.header.sequence,
        buffered: Map::empty(),
        fragments: Map::empty(),
        seen: Set::empty(),
        skipped: Seq::empty(),
        gap_requests: Map::empty(),
        connections: Set::<usize>::empty().insert(packet.connection_id),
        fec: fec::no_fec(),
        ..state
    };
    assert(is_sound(events, emptied, depth));
    let route = ActionModel::ReplyRoute { remote: packet.remote, reset: true };
    lemma_note(events, emptied, route, depth);
    lemma_note(
        events,
        emptied.act(route),
        ActionModel::FlowReset { next_seq: packet.header.sequence },
        depth,
    );
}

proof fn lemma_on_packet(
    events: Seq<(Event, u64)>,
    state: ReorderModel,
    packet: PacketModel,
    options: ReorderOptions,
    now: u64,
    depth: nat,
) -> (deeper: nat)
    requires
        state.well_formed(),
        packet.header.is_media(),
        is_sound(events, state, depth),
        fragment_came(
            events,
            packet.header.sequence,
            packet.header.fragment as int,
            packet.header.fragments as nat,
            packet.payload,
        ),
    ensures
        is_sound(events, state.on_packet(packet, options, now), deeper),
{
    lemma_begun(events, state, packet, depth);
    let begun = state.begun(packet);
    let sequence = packet.header.sequence;
    if sequence >= begun.next_seq {
        let joined = ReorderModel {
            restart: tracking::no_restart(),
            connections: begun.connections.insert(packet.connection_id),
            ..begun
        };
        lemma_holds_the_same(events, begun, joined, depth);
        lemma_admitted(events, joined, packet, options, now, depth)
    } else {
        let restart = begun.restart.observed(sequence, begun.next_seq);
        let observed = if begun.connections.contains(packet.connection_id) {
            begun
        } else {
            ReorderModel { restart, ..begun }
        };
        lemma_holds_the_same(events, begun, observed, depth);
        if !begun.connections.contains(packet.connection_id) && restart.confirmed() {
            lemma_restarted(events, observed, packet, depth);
            lemma_admitted(events, observed.restarted(packet), packet, options, now, depth)
        } else {
            lemma_act(
                events,
                observed,
                ActionModel::LateAfterSkip {
                    sequence,
                    buffered: observed.pending(),
                    next_seq: observed.next_seq,
                },
                depth,
            );
            lemma_act(
                events,
                observed,
                ActionModel::Duplicate {
                    buffered: observed.waiting(),
                    next_seq: observed.next_seq,
                },
                depth,
            );
            depth
        }
    }
}

proof fn lemma_on_fec(
    events: Seq<(Event, u64)>,
    state: ReorderModel,
    fec: FecModelFrame,
    options: ReorderOptions,
    now: u64,
    depth: nat,
) -> (deeper: nat)
    requires
        state.well_formed(),
        fec.frame.base_sequence <= MAX_MEDIA_SEQUENCE,
        is_sound(events, state, depth),
        parity_came(events, fec.frame),
    ensures
        is_sound(events, state.on_fec(fec, options, now), deeper),
{
    fec::lemma_with_frame(state.fec, fec.frame);
    lemma_with_frame(events, state.fec, fec.frame, depth);
    let kept = ReorderModel { fec: state.fec.with_frame(fec.frame), ..state };
    assert(is_sound(events, kept, depth));
    assert(kept.well_formed()) by {
        assert forall|s: u64| #[trigger] kept.fragments.contains_key(s) implies s
            <= MAX_MEDIA_SEQUENCE && kept.assembly_is_valid(s) by {
            assert(state.fragments.contains_key(s));
            assert(state.assembly_is_valid(s));
        }
    }
    if state.initialized {
        let route = ActionModel::ReplyRoute { remote: fec.remote, reset: false };
        lemma_note(events, kept, route, depth);
        let routed = kept.act(route);
        routed.lemma_recovered_all(now, 0);
        let deeper = lemma_recovered_all(events, routed, now, depth);
        lemma_advanced(events, routed.recovered_all(now), options, now, deeper)
    } else {
        depth
    }
}

/// What a run of events leaves has its source in the events.
proof fn lemma_run(events: Seq<(Event, u64)>, options: ReorderOptions) -> (depth: nat)
    requires
        forall|i: int| 0 <= i < events.len() ==> reorder_laws::is_valid((#[trigger] events[i]).0),
    ensures
        is_sound(events, reorder_laws::run(events, options), depth),
    decreases events.len(),
{
    if events.len() == 0 {
        0
    } else {
        let earlier = events.drop_last();
        assert forall|i: int| 0 <= i < earlier.len() implies reorder_laws::is_valid(
            (#[trigger] earlier[i]).0,
        ) by {
            assert(events[i] == earlier[i]);
        }
        let shallow = lemma_run(earlier, options);
        reorder_laws::law_forwarding_is_in_order(earlier, options);
        let before = reorder_laws::run(earlier, options);
        let (event, now) = events.last();
        assert(events.take(earlier.len() as int) =~= earlier);
        lemma_sound_grows(earlier, events, before, shallow, shallow);
        assert(reorder_laws::is_valid(events[events.len() - 1].0));
        match event {
            Some(FrameModel::Packet(packet)) => {
                assert(events[events.len() - 1].0 == event);
                lemma_on_packet(events, before, packet, options, now, shallow)
            },
            Some(FrameModel::Fec(fec)) => {
                assert(events[events.len() - 1].0 == event);
                lemma_on_fec(events, before, fec, options, now, shallow)
            },
            None => {
                if before.initialized && before.has_pending_state() {
                    lemma_advanced(events, before, options, now, shallow)
                } else {
                    shallow
                }
            },
        }
    }
}

/// Whatever comes, and whenever it comes, a payload that is forwarded was received under its
/// sequence number, whole or in fragments that make it in their order, or is recovered from a
/// parity frame that was received and from payloads of which the same holds.
pub proof fn law_forwarded_payloads_are_sourced(
    events: Seq<(Event, u64)>,
    options: ReorderOptions,
    index: int,
)
    requires
        forall|i: int| 0 <= i < events.len() ==> reorder_laws::is_valid((#[trigger] events[i]).0),
        0 <= index < reorder_laws::run(events, options).actions.len(),
    ensures
        reorder_laws::run(events, options).actions[index] matches ActionModel::Forward {
            sequence,
            payload,
            ..
        } ==> is_sourced(events, sequence, payload),
{
    let depth = lemma_run(events, options);
    let action = reorder_laws::run(events, options).actions[index];
    assert(action_is_sound(events, action, depth));
}

/// What a sender sends: the fragments of each packet, by its sequence number.
pub type SentPackets = Map<u64, Seq<Seq<u8>>>;

/// Whether a parity frame is that of a group of packets that were sent.
pub open spec fn is_parity_of_sent(frame: FecFrameView, sent: SentPackets) -> bool {
    exists|group: Seq<SourceModel>|
        fec::is_group(group) && frame == #[trigger] fec::group_frame(group) && forall|i: int|
            0 <= i < group.len() ==> sent.contains_key((#[trigger] group[i]).0)
                && sent[group[i].0].flatten() == group[i].1
}

/// Whether an event brings what was sent, or nothing.
pub open spec fn is_genuine(event: Event, sent: SentPackets) -> bool {
    match event {
        Some(FrameModel::Packet(packet)) => {
            &&& sent.contains_key(packet.header.sequence)
            &&& sent[packet.header.sequence].len() == packet.header.fragments
            &&& sent[packet.header.sequence][packet.header.fragment as int] == packet.payload
        },
        Some(FrameModel::Fec(fec)) => is_parity_of_sent(fec.frame, sent),
        None => true,
    }
}

/// However packets and parity frames are lost, repeated, delayed and put out of order on their way,
/// a payload that is forwarded is the one that was sent under its sequence number.
pub proof fn law_forwarded_payloads_are_as_sent(
    events: Seq<(Event, u64)>,
    options: ReorderOptions,
    sent: SentPackets,
    index: int,
)
    requires
        forall|i: int| 0 <= i < events.len() ==> reorder_laws::is_valid((#[trigger] events[i]).0),
        forall|i: int| 0 <= i < events.len() ==> is_genuine((#[trigger] events[i]).0, sent),
        0 <= index < reorder_laws::run(events, options).actions.len(),
    ensures
        reorder_laws::run(events, options).actions[index] matches ActionModel::Forward {
            sequence,
            payload,
            ..
        } ==> sent.contains_key(sequence) && payload == sent[sequence].flatten(),
{
    law_forwarded_payloads_are_sourced(events, options, index);
    if let ActionModel::Forward { sequence, payload, .. } = reorder_laws::run(
        events,
        options,
    ).actions[index] {
        let depth = choose|depth: nat| #[trigger] has_source(events, sequence, payload, depth);
        lemma_genuine_source(events, sent, sequence, payload, depth);
    }
}

/// What has its source in genuine events is what was sent.
proof fn lemma_genuine_source(
    events: Seq<(Event, u64)>,
    sent: SentPackets,
    sequence: u64,
    payload: Seq<u8>,
    depth: nat,
)
    requires
        forall|i: int| 0 <= i < events.len() ==> is_genuine((#[trigger] events[i]).0, sent),
        has_source(events, sequence, payload, depth),
    ensures
        sent.contains_key(sequence) && payload == sent[sequence].flatten(),
    decreases depth,
{
    reveal_with_fuel(has_source, 1);
    if was_received(events, sequence, payload) {
        let payloads = choose|payloads: Seq<Seq<u8>>|
            payloads.len() > 0 && #[trigger] fragments_came(events, sequence, payloads)
                && payloads.flatten() == payload;
        assert(fragment_came(events, sequence, 0, payloads.len(), payloads[0]));
        assert(sent[sequence].len() == payloads.len());
        assert forall|i: int| 0 <= i < payloads.len() implies payloads[i] == sent[sequence][i] by {
            assert(fragment_came(events, sequence, i, payloads.len(), payloads[i]));
        }
        assert(payloads =~= sent[sequence]);
    } else {
        let (frame, known) = choose|frame: FecFrameView, known: Map<u64, Seq<u8>>|
            parity_came(events, frame) && (forall|s: u64| #[trigger]
                known.contains_key(s) ==> has_source(events, s, known[s], (depth - 1) as nat))
                && #[trigger] fec::scan(frame, known, Map::empty()) == (GroupScan::Missing {
                sequence,
                payload,
            });
        assert(is_parity_of_sent(frame, sent));
        let group = choose|group: Seq<SourceModel>|
            fec::is_group(group) && frame == #[trigger] fec::group_frame(group) && forall|i: int|
                0 <= i < group.len() ==> sent.contains_key((#[trigger] group[i]).0)
                    && sent[group[i].0].flatten() == group[i].1;
        assert forall|i: int| 0 <= i < group.len() implies {
            let found = fec::known_payload(known, Map::empty(), (#[trigger] group[i]).0);
            found is None || found == Some(group[i].1)
        } by {
            if known.contains_key(group[i].0) {
                lemma_genuine_source(
                    events,
                    sent,
                    group[i].0,
                    known[group[i].0],
                    (depth - 1) as nat,
                );
            }
        }
        fec::law_recovery_is_faithful(group, known, Map::empty());
        let i = choose|i: int| 0 <= i < group.len() && group[i] == (sequence, payload);
        assert(sent[group[i].0].flatten() == group[i].1);
    }
}

} // verus!
