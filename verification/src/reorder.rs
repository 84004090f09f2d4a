//! The server's reordering of packets: what came in, and what is to be done about it.

use crate::fec;
use crate::fec::FecState;
use crate::ordered;
use crate::ordered::NumberMap;
use crate::protocol::{RepairRequest, MAX_MEDIA_SEQUENCE, REPAIR_ALL_FRAGMENTS_MASK};
use crate::receive;
use crate::receive::{
    BufferedPacket, FragmentAssembly, ReceivedFecFrame, ReceivedFrame, ReceivedPacket,
};
use crate::reorder_laws;
use crate::reorder_model;
use crate::reorder_model::{
    ActionModel, ReorderModel, ReorderOptions, SkipReason, MAX_REPAIR_REQUESTS_PER_TICK,
};
use crate::sequence::next_sequence;
use crate::time;
use crate::time::time_since;
use crate::tracking::{RecentSkippedSequences, RestartDetector};
use std::collections::HashSet;
use vstd::prelude::*;

verus! {

/// What the server is to do.
#[derive(Debug)]
pub enum ReorderAction {
    /// A packet with so many bytes came.
    Received { bytes: u64 },
    /// Replies go to this client too, or to it alone.
    ReplyRoute { remote: String, reset: bool },
    /// A flow begins.
    FlowStart { next_seq: u64 },
    /// The flow starts over.
    FlowReset { next_seq: u64 },
    /// A packet came after it was given up.
    LateAfterSkip { sequence: u64, buffered: u64, next_seq: u64 },
    /// A packet came that is not needed.
    Duplicate { buffered: u64, next_seq: u64 },
    /// A packet waits.
    Buffered { buffered: u64, next_seq: u64 },
    /// A payload is to be forwarded.
    Forward { sequence: u64, payload: Vec<u8>, buffered: u64, next_seq: u64 },
    /// A payload was recovered.
    FecRecovered { sequence: u64, bytes: u64 },
    /// A repair is to be requested.
    Repair { request: RepairRequest },
    /// A packet was given up.
    Skipped { reason: SkipReason, sequence: u64, buffered: u64, next_seq: u64 },
}

impl View for ReorderAction {
    type V = ActionModel;

    open spec fn view(&self) -> ActionModel {
        match *self {
            ReorderAction::Received { bytes } => ActionModel::Received { bytes },
            ReorderAction::ReplyRoute { remote, reset } => ActionModel::ReplyRoute {
                remote: remote@,
                reset,
            },
            ReorderAction::FlowStart { next_seq } => ActionModel::FlowStart { next_seq },
            ReorderAction::FlowReset { next_seq } => ActionModel::FlowReset { next_seq },
            ReorderAction::LateAfterSkip { sequence, buffered, next_seq } =>
                ActionModel::LateAfterSkip { sequence, buffered, next_seq },
            ReorderAction::Duplicate { buffered, next_seq } => ActionModel::Duplicate {
                buffered,
                next_seq,
            },
            ReorderAction::Buffered { buffered, next_seq } => ActionModel::Buffered {
                buffered,
                next_seq,
            },
            ReorderAction::Forward { sequence, payload, buffered, next_seq } =>
                ActionModel::Forward { sequence, payload: payload@, buffered, next_seq },
            ReorderAction::FecRecovered { sequence, bytes } => ActionModel::FecRecovered {
                sequence,
                bytes,
            },
            ReorderAction::Repair { request } => ActionModel::Repair { request },
            ReorderAction::Skipped { reason, sequence, buffered, next_seq } =>
                ActionModel::Skipped { reason, sequence, buffered, next_seq },
        }
    }
}

/// The actions that a list holds.
pub open spec fn action_models(actions: Seq<ReorderAction>) -> Seq<ActionModel> {
    actions.map_values(|action: ReorderAction| action@)
}

/// A flow that is being put back in order. Everything that happens in the handling of one event
/// happens at the time of that event.
pub struct ReorderState {
    initialized: bool,
    next_seq: u64,
    buffered: NumberMap<BufferedPacket>,
    fragments: NumberMap<FragmentAssembly>,
    seen: HashSet<u64>,
    skipped_sequences: RecentSkippedSequences,
    gap_repair_requests: NumberMap<u64>,
    restart_detector: RestartDetector,
    flow_connections: HashSet<usize>,
    fec_state: FecState,
    actions: Vec<ReorderAction>,
}

impl View for ReorderState {
    type V = ReorderModel;

    closed spec fn view(&self) -> ReorderModel {
        ReorderModel {
            initialized: self.initialized,
            next_seq: self.next_seq,
            buffered: self.buffered@,
            fragments: self.fragments@,
            seen: self.seen@,
            skipped: self.skipped_sequences@,
            gap_requests: self.gap_repair_requests@,
            restart: self.restart_detector,
            connections: self.flow_connections@,
            fec: self.fec_state@,
            actions: action_models(self.actions@),
        }
    }
}

impl ReorderState {
    pub closed spec fn well_formed(self) -> bool {
        &&& self@.well_formed()
        &&& self.skipped_sequences.well_formed()
    }

    pub fn new() -> (state: ReorderState)
        ensures
            state.well_formed(),
            state@ == ReorderModel::initial(),
    {
        let state = ReorderState {
            initialized: false,
            next_seq: 0,
            buffered: NumberMap::new(),
            fragments: NumberMap::new(),
            seen: HashSet::new(),
            skipped_sequences: RecentSkippedSequences::new(),
            gap_repair_requests: NumberMap::new(),
            restart_detector: RestartDetector::new(),
            flow_connections: HashSet::new(),
            fec_state: FecState::new(),
            actions: Vec::new(),
        };
        assert(state@ =~= ReorderModel::initial());
        state
    }

    /// Hands over the actions that have been asked for.
    pub fn take_actions(&mut self) -> (actions: Vec<ReorderAction>)
        requires
            old(self).well_formed(),
        ensures
            final(self).well_formed(),
            action_models(actions@) == old(self)@.actions,
            final(self)@ == (ReorderModel { actions: Seq::empty(), ..old(self)@ }),
    {
        let mut actions: Vec<ReorderAction> = Vec::new();
        std::mem::swap(&mut actions, &mut self.actions);
        assert(action_models(self.actions@) =~= Seq::empty());
        proof {
            assert forall|s: u64| #[trigger] self@.fragments.contains_key(s) implies s
                <= MAX_MEDIA_SEQUENCE && self@.assembly_is_valid(s) by {
                assert(old(self)@.fragments.contains_key(s));
                assert(old(self)@.assembly_is_valid(s));
            }
        }
        actions
    }

    /// Asks for one more action.
    fn act(&mut self, action: ReorderAction)
        ensures
            final(self)@ == old(self)@.act(action@),
            final(self).skipped_sequences == old(self).skipped_sequences,
    {
        self.actions.push(action);
        assert(action_models(self.actions@) =~= action_models(old(self).actions@).push(action@));
    }

    /// How many packets wait, whole or in part.
    fn pending(&self) -> (count: u64)
        requires
            self@.well_formed(),
        ensures
            count == self@.pending(),
    {
        proof {
            ordered::lemma_bounded_set(self@.buffered.dom(), MAX_MEDIA_SEQUENCE);
            ordered::lemma_bounded_set(self@.fragments.dom(), MAX_MEDIA_SEQUENCE);
        }
        self.buffered.len() as u64 + self.fragments.len() as u64
    }

    pub fn has_pending_state(&self) -> (result: bool)
        ensures
            result == self@.has_pending_state(),
    {
        !(self.buffered.is_empty() && self.fragments.is_empty() && self.seen.is_empty())
    }

    /// How long to wait for a frame.
    pub fn timeout_duration(&self, options: &ReorderOptions) -> (duration: u64)
        ensures
            duration == self@.patience(*options),
    {
        if self.has_pending_state() {
            match options.repair_request_interval {
                Some(interval) => if interval < options.max_reorder_delay {
                    interval
                } else {
                    options.max_reorder_delay
                },
                None => options.max_reorder_delay,
            }
        } else {
            options.flow_idle_reset
        }
    }

    /// Forwards the payload that is due.
    fn deliver(&mut self, payload: Vec<u8>)
        requires
            old(self).well_formed(),
        ensures
            final(self).well_formed(),
            final(self)@ == old(self)@.delivered(payload@),
    {
        broadcast use vstd::std_specs::hash::group_hash_axioms;

        proof {
            self@.lemma_delivered(payload@, 0);
        }
        let sequence: u64 = self.next_seq;
        let next: u64 = next_sequence(sequence);
        self.gap_repair_requests.remove(sequence);
        self.fec_state.insert_payload(sequence, payload.clone());
        self.seen.remove(&sequence);
        self.next_seq = next;
        let buffered: u64 = self.buffered.len() as u64;
        self.act(ReorderAction::Forward { sequence, payload, buffered, next_seq: next });
        assert(self@ =~= old(self)@.delivered(payload@));
    }

    /// Forwards payloads that wait as long as the one that is due is among them.
    fn drain_ready(&mut self)
        requires
            old(self).well_formed(),
        ensures
            final(self).well_formed(),
            final(self)@ == old(self)@.drained(),
    {
        while self.buffered.contains_key(self.next_seq)
            invariant
                self.well_formed(),
                self@.drained() == old(self)@.drained(),
            decreases self@.buffered.dom().len(),
        {
            let ghost before = self@;
            let ghost rest = ReorderModel {
                buffered: before.buffered.remove(before.next_seq),
                ..before
            };
            if let Some(packet) = self.buffered.remove(self.next_seq) {
                proof {
                    assert(self@ =~= rest);
                    assert forall|s: u64| #[trigger] rest.fragments.contains_key(s) implies s
                        <= MAX_MEDIA_SEQUENCE && rest.assembly_is_valid(s) by {
                        assert(before.fragments.contains_key(s));
                        assert(before.assembly_is_valid(s));
                    }
                }
                self.deliver(packet.payload);
            }
        }
    }

    /// Takes up a whole payload: forwards it if it is due, with those that waited for it.
    fn accept_complete_payload(&mut self, sequence: u64, payload: Vec<u8>, now: u64)
        requires
            old(self).well_formed(),
            sequence <= MAX_MEDIA_SEQUENCE,
        ensures
            final(self).well_formed(),
            final(self)@ == old(self)@.accepted(sequence, payload@, now),
    {
        broadcast use vstd::std_specs::hash::group_hash_axioms;

        proof {
            self@.lemma_accepted(sequence, payload@, now, 0);
        }
        if sequence == self.next_seq {
            self.deliver(payload);
            self.drain_ready();
        } else {
            self.seen.insert(sequence);
            self.fec_state.insert_payload(sequence, payload.clone());
            self.buffered.insert(sequence, BufferedPacket { payload, received_at: now });
            let buffered: u64 = self.buffered.len() as u64;
            let next_seq: u64 = self.next_seq;
            self.act(ReorderAction::Buffered { buffered, next_seq });
            assert(self@ =~= old(self)@.accepted(sequence, payload@, now));
        }
    }

    /// Takes up a payload that was recovered, unless it is late or came by itself.
    fn accept_recovered(&mut self, sequence: u64, payload: Vec<u8>, now: u64)
        requires
            old(self).well_formed(),
            sequence <= MAX_MEDIA_SEQUENCE,
        ensures
            final(self).well_formed(),
            final(self)@ == old(self)@.accepted_recovered(sequence, payload@, now),
    {
        broadcast use vstd::std_specs::hash::group_hash_axioms;

        if sequence < self.next_seq || self.seen.contains(&sequence) || self.buffered.contains_key(
            sequence,
        ) {
            return;
        }
        let ghost before = self@;
        proof {
            before.lemma_without_fragments(sequence);
        }
        self.fragments.remove(sequence);
        let bytes: u64 = payload.len() as u64;
        self.act(ReorderAction::FecRecovered { sequence, bytes });
        proof {
            let rest = ReorderModel { fragments: before.fragments.remove(sequence), ..before };
            assert(self@ =~= rest.act(ActionModel::FecRecovered { sequence, bytes }));
            self.lemma_fragments_like(rest);
        }
        self.accept_complete_payload(sequence, payload, now);
    }

    /// A state is well-formed if it differs from a well-formed one in nothing that matters.
    proof fn lemma_fragments_like(&self, other: ReorderModel)
        requires
            other.well_formed(),
            self@.next_seq <= MAX_MEDIA_SEQUENCE,
            self@.buffered == other.buffered,
            self@.fragments == other.fragments,
            self@.skipped == other.skipped,
            self@.fec == other.fec,
        ensures
            self@.well_formed(),
    {
        assert forall|s: u64| #[trigger] self@.fragments.contains_key(s) implies s
            <= MAX_MEDIA_SEQUENCE && self@.assembly_is_valid(s) by {
            assert(other.fragments.contains_key(s));
            assert(other.assembly_is_valid(s));
        }
    }

    /// Recovers payloads until nothing more can be recovered.
    fn recover_fec_ready(&mut self, now: u64)
        requires
            old(self).well_formed(),
        ensures
            final(self).well_formed(),
            final(self)@ == old(self)@.recovered_all(now),
    {
        let mut done: bool = false;
        while !done
            invariant
                self.well_formed(),
                done ==> self@ == old(self)@.recovered_all(now),
                !done ==> self@.recovered_all(now) == old(self)@.recovered_all(now),
            decreases self@.fec.frames.dom().len(), (if done {
                0int
            } else {
                1int
            }),
        {
            let ghost before = self@;
            proof {
                before.lemma_recoverable();
                before.lemma_round(now);
            }
            let recovered = self.fec_state.recover_ready(self.next_seq, &self.buffered);
            proof {
                assert(self@ =~= before.with_waiting_frames());
                fec::lemma_waiting_frames(before.fec, before.buffered);
                assert(fec::source_models(recovered@) == before.recoverable());
            }
            if recovered.len() == 0 {
                done = true;
            } else {
                self.accept_each(recovered, now);
            }
        }
    }

    /// Takes up payloads that were recovered, one after the other.
    fn accept_each(&mut self, list: Vec<(u64, Vec<u8>)>, now: u64)
        requires
            old(self).well_formed(),
            forall|i: int|
                0 <= i < fec::source_models(list@).len() ==> (#[trigger] fec::source_models(
                    list@,
                )[i]).0 <= MAX_MEDIA_SEQUENCE,
        ensures
            final(self).well_formed(),
            final(self)@ == old(self)@.accepted_each(fec::source_models(list@), now),
    {
        let ghost all = fec::source_models(list@);
        assert(all.skip(0) =~= all);
        for i in 0..list.len()
            invariant
                self.well_formed(),
                all == fec::source_models(list@),
                forall|j: int| 0 <= j < all.len() ==> (#[trigger] all[j]).0 <= MAX_MEDIA_SEQUENCE,
                old(self)@.accepted_each(all, now) == self@.accepted_each(
                    all.skip(i as int),
                    now,
                ),
        {
            proof {
                assert(all.skip(i as int).drop_first() =~= all.skip(i + 1));
                assert(all[i as int].0 <= MAX_MEDIA_SEQUENCE);
            }
            let sequence: u64 = list[i].0;
            self.accept_recovered(sequence, list[i].1.clone(), now);
        }
    }

    /// Requests the repairs that are due.
    fn request_due_repairs(&mut self, interval: u64, now: u64)
        requires
            old(self).well_formed(),
        ensures
            final(self).well_formed(),
            final(self)@ == old(self)@.repairs_requested(interval, now),
    {
        let ghost before = self@;
        proof {
            before.lemma_repairs_requested(interval, now, 0);
        }
        let mut sent: usize = 0;
        let next_seq: u64 = self.next_seq;
        if !self.buffered.contains_key(next_seq) && !self.fragments.contains_key(next_seq) && (
        !self.buffered.is_empty() || !self.fragments.is_empty()) && (
        match self.gap_repair_requests.get(next_seq) {
            Some(last) => time_since(now, *last) >= interval,
            None => true,
        }) {
            self.gap_repair_requests.insert(next_seq, now);
            self.act(
                ReorderAction::Repair {
                    request: RepairRequest {
                        sequence: next_seq,
                        missing_mask: REPAIR_ALL_FRAGMENTS_MASK,
                    },
                },
            );
            sent = 1;
        }
        proof {
            self.lemma_fragments_like(before);
        }
        let keys = self.fragments.keys();
        let ghost goal = before.repairs_requested(interval, now);
        assert(goal == self@.fragments_requested(keys@, sent as nat, interval, now));
        let mut i: usize = 0;
        assert(keys@.skip(0) =~= keys@);
        while i < keys.len() && sent < MAX_REPAIR_REQUESTS_PER_TICK
            invariant
                self.well_formed(),
                i <= keys@.len(),
                sent <= MAX_REPAIR_REQUESTS_PER_TICK,
                keys@.to_set() == self@.fragments.dom(),
                goal == self@.fragments_requested(
                    keys@.skip(i as int),
                    sent as nat,
                    interval,
                    now,
                ),
            decreases keys@.len() - i,
        {
            let ghost current = self@;
            let key: u64 = keys[i];
            proof {
                assert(keys@.skip(i as int)[0] == key);
                assert(keys@.skip(i as int).drop_first() =~= keys@.skip(i + 1));
                assert(keys@.contains(key));
                assert(keys@.to_set().contains(key));
                assert(self@.fragments.contains_key(key));
                assert(self@.assembly_is_valid(key));
            }
            let mut mask: u8 = 0;
            if let Some(assembly) = self.fragments.get(key) {
                let recent = match assembly.last_repair_request() {
                    Some(last) => time_since(now, last) < interval,
                    None => false,
                };
                if !recent {
                    mask = assembly.missing_mask();
                }
            }
            proof {
                receive::law_complete_has_no_missing_bits(self@.fragments[key].parts);
            }
            if mask != 0 {
                if let Some(mut assembly) = self.fragments.remove(key) {
                    let ghost held = assembly@;
                    assembly.set_last_repair_request(now);
                    self.fragments.insert(key, assembly);
                    proof {
                        assert(self@.fragments =~= current.fragments.insert(key, assembly@));
                        assert(self@.fragments.dom() =~= current.fragments.dom());
                    }
                }
                self.act(
                    ReorderAction::Repair {
                        request: RepairRequest { sequence: key, missing_mask: mask },
                    },
                );
                sent += 1;
                proof {
                    assert forall|s: u64| #[trigger] self@.fragments.contains_key(s) implies s
                        <= MAX_MEDIA_SEQUENCE && self@.assembly_is_valid(s) by {
                        assert(current.fragments.contains_key(s));
                        assert(current.assembly_is_valid(s));
                    }
                }
            }
            i += 1;
        }
    }

    /// Whether a payload or a fragment has waited too long.
    fn is_overdue(&self, delay: u64, now: u64) -> (overdue: bool)
        ensures
            overdue == self@.is_overdue(delay, now),
    {
        let keys = self.buffered.keys();
        for i in 0..keys.len()
            invariant
                keys@.to_set() == self@.buffered.dom(),
                forall|j: int|
                    0 <= j < i ==> time::elapsed(
                        now,
                        self@.buffered[#[trigger] keys@[j]].received_at,
                    ) < delay,
        {
            proof {
                assert(keys@.contains(keys@[i as int]));
                assert(keys@.to_set().contains(keys@[i as int]));
            }
            if let Some(packet) = self.buffered.get(keys[i]) {
                if time_since(now, packet.received_at) >= delay {
                    assert(self@.buffered.contains_key(keys@[i as int]));
                    return true;
                }
            }
        }
        assert forall|s: u64| #[trigger] self@.buffered.contains_key(s) implies
            time::elapsed(now, self@.buffered[s].received_at) < delay by {
            assert(keys@.to_set().contains(s));
            let j = choose|j: int| 0 <= j < keys@.len() && keys@[j] == s;
            assert(keys@[j] == s);
        }
        let keys = self.fragments.keys();
        for i in 0..keys.len()
            invariant
                keys@.to_set() == self@.fragments.dom(),
                forall|j: int|
                    0 <= j < i ==> time::elapsed(
                        now,
                        self@.fragments[#[trigger] keys@[j]].first_seen,
                    ) < delay,
        {
            proof {
                assert(keys@.contains(keys@[i as int]));
                assert(keys@.to_set().contains(keys@[i as int]));
            }
            if let Some(assembly) = self.fragments.get(keys[i]) {
                if time_since(now, assembly.first_seen()) >= delay {
                    assert(self@.fragments.contains_key(keys@[i as int]));
                    return true;
                }
            }
        }
        assert forall|s: u64| #[trigger] self@.fragments.contains_key(s) implies
            time::elapsed(now, self@.fragments[s].first_seen) < delay by {
            assert(keys@.to_set().contains(s));
            let j = choose|j: int| 0 <= j < keys@.len() && keys@[j] == s;
            assert(keys@[j] == s);
        }
        false
    }

    /// Gives up the sequence number that is due.
    fn skip_sequence(&mut self, reason: SkipReason)
        requires
            old(self).well_formed(),
        ensures
            final(self).well_formed(),
            final(self)@ == old(self)@.skip(reason),
    {
        proof {
            self@.lemma_skip_keeps(reason, 0);
        }
        let skipped: u64 = self.next_seq;
        let next: u64 = next_sequence(skipped);
        let buffered: u64 = self.pending();
        self.next_seq = next;
        self.gap_repair_requests.remove(skipped);
        self.skipped_sequences.insert(skipped);
        self.act(
            ReorderAction::Skipped { reason, sequence: skipped, buffered, next_seq: next },
        );
        assert(self@ =~= old(self)@.skip(reason));
    }

    /// Gives up sequence numbers for which the wait has been too long.
    fn expire_reorder_gap(&mut self, delay: u64, now: u64)
        requires
            old(self).well_formed(),
        ensures
            final(self).well_formed(),
            final(self)@ == old(self)@.expired(delay, now),
    {
        broadcast use vstd::std_specs::hash::group_hash_axioms;

        let mut overdue: bool = self.is_overdue(delay, now);
        while !self.buffered.contains_key(self.next_seq) && overdue
            invariant_except_break
                overdue == self@.is_overdue(delay, now),
                self@.expired(delay, now) == old(self)@.expired(delay, now),
            invariant
                self.well_formed(),
            ensures
                self@ == old(self)@.expired(delay, now),
            decreases
                    self@.fragments.dom().len(),
                    reorder_model::steps_to(self@.next_seq, self@.some_pending()),
        {
            let ghost before = self@;
            proof {
                before.lemma_skip(delay, now);
                before.lemma_skip_incomplete();
            }
            let young = match self.fragments.get(self.next_seq) {
                Some(assembly) => Some(time_since(now, assembly.first_seen()) < delay),
                None => None,
            };
            match young {
                Some(true) => {
                    break;
                },
                Some(false) => {
                    self.fragments.remove(self.next_seq);
                    self.seen.remove(&self.next_seq);
                    proof {
                        assert(self@ =~= before.without_due());
                    }
                    self.skip_sequence(SkipReason::FragmentIncomplete);
                    overdue = self.is_overdue(delay, now);
                },
                None => {
                    self.skip_sequence(SkipReason::NeverReceived);
                    assert(self@.is_overdue(delay, now) == before.is_overdue(delay, now));
                },
            }
        }
    }

    /// Moves on as far as possible.
    fn advance_reorder_window(&mut self, options: &ReorderOptions, now: u64)
        requires
            old(self).well_formed(),
        ensures
            final(self).well_formed(),
            final(self)@ == old(self)@.advanced(*options, now),
    {
        self.recover_fec_ready(now);
        if let Some(interval) = options.repair_request_interval {
            self.request_due_repairs(interval, now);
        }
        self.expire_reorder_gap(options.max_reorder_delay, now);
        self.drain_ready();
    }

    /// Drops a packet that is not needed.
    fn drop_duplicate(&mut self)
        requires
            old(self).well_formed(),
        ensures
            final(self).well_formed(),
            final(self)@ == old(self)@.dropped_duplicate(),
    {
        let buffered: u64 = self.buffered.len() as u64;
        let next_seq: u64 = self.next_seq;
        self.act(ReorderAction::Duplicate { buffered, next_seq });
        proof {
            self.lemma_fragments_like(old(self)@);
        }
    }

    /// Drops a packet that came after its sequence number was passed.
    fn drop_late(&mut self, sequence: u64)
        requires
            old(self).well_formed(),
        ensures
            final(self).well_formed(),
            final(self)@ == old(self)@.dropped_late(sequence),
    {
        if self.skipped_sequences.contains(sequence) {
            let buffered: u64 = self.pending();
            let next_seq: u64 = self.next_seq;
            self.act(ReorderAction::LateAfterSkip { sequence, buffered, next_seq });
            proof {
                self.lemma_fragments_like(old(self)@);
            }
        } else {
            self.drop_duplicate();
        }
    }

    /// Takes up a payload that is whole, and moves on.
    fn complete(&mut self, sequence: u64, payload: Vec<u8>, options: &ReorderOptions, now: u64)
        requires
            old(self).well_formed(),
            sequence <= MAX_MEDIA_SEQUENCE,
        ensures
            final(self).well_formed(),
            final(self)@ == old(self)@.completed(sequence, payload@, *options, now),
    {
        self.accept_complete_payload(sequence, payload, now);
        self.recover_fec_ready(now);
        self.advance_reorder_window(options, now);
    }

    /// Adds a fragment to its packet.
    fn add_fragment(&mut self, packet: ReceivedPacket, options: &ReorderOptions, now: u64)
        requires
            old(self).well_formed(),
            packet.header.is_media(),
            packet.header.fragments != 1,
        ensures
            final(self).well_formed(),
            final(self)@ == old(self)@.with_fragment(packet@, *options, now),
    {
        let ghost before = self@;
        let sequence: u64 = packet.header.sequence;
        let fragment: u8 = packet.header.fragment;
        let existing = self.fragments.remove(sequence);
        proof {
            if before.fragments.contains_key(sequence) {
                assert(before.assembly_is_valid(sequence));
            }
        }
        let ghost known = existing is Some;
        let mut assembly = match existing {
            Some(assembly) => assembly,
            None => FragmentAssembly::new(packet.header.fragments, now),
        };
        assert(assembly@ =~= before.assembly_for(packet@, now));
        if assembly.fragments() != packet.header.fragments {
            self.fragments.insert(sequence, assembly);
            proof {
                assert(known);
                assert(self@.fragments =~= before.fragments);
                assert(self@ =~= before);
            }
            self.drop_duplicate();
            return;
        }
        let ghost parts = assembly@.parts.update(fragment as int, Some(packet.payload@));
        proof {
            before.lemma_with_parts(packet@, now);
            before.lemma_without_fragments(sequence);
        }
        if !assembly.insert(fragment, packet.payload) {
            self.fragments.insert(sequence, assembly);
            proof {
                assert(known);
                assert(self@.fragments =~= before.fragments);
                assert(self@ =~= before);
            }
            self.drop_duplicate();
            return;
        }
        if assembly.is_complete() {
            proof {
                let rest = ReorderModel { fragments: before.fragments.remove(sequence), ..before };
                assert(self@ =~= rest);
            }
            self.complete(sequence, assembly.into_payload(), options, now);
        } else {
            self.fragments.insert(sequence, assembly);
            let ghost longer = before.with_parts(packet@, parts, now);
            proof {
                assert(self@.fragments =~= longer.fragments);
                assert(self@ =~= longer);
            }
            let buffered: u64 = self.pending();
            let next_seq: u64 = self.next_seq;
            self.act(ReorderAction::Buffered { buffered, next_seq });
            proof {
                self.lemma_fragments_like(longer);
            }
            self.advance_reorder_window(options, now);
        }
    }

    /// Takes up a packet that is not behind, unless its payload is there already.
    fn take_up(&mut self, packet: ReceivedPacket, options: &ReorderOptions, now: u64)
        requires
            old(self).well_formed(),
            packet.header.is_media(),
        ensures
            final(self).well_formed(),
            final(self)@ == old(self)@.admitted(packet@, *options, now),
    {
        broadcast use vstd::std_specs::hash::group_hash_axioms;

        let sequence: u64 = packet.header.sequence;
        if self.seen.contains(&sequence) || self.buffered.contains_key(sequence) {
            self.drop_duplicate();
        } else if packet.header.fragments == 1 {
            proof {
                self@.lemma_without_fragments(sequence);
            }
            self.fragments.remove(sequence);
            assert(self@ =~= ReorderModel {
                fragments: old(self)@.fragments.remove(sequence),
                ..old(self)@
            });
            self.complete(sequence, packet.payload, options, now);
        } else {
            self.add_fragment(packet, options, now);
        }
    }

    /// Takes a packet for a part of the flow; the first packet begins it.
    fn begin(&mut self, packet: &ReceivedPacket)
        requires
            old(self).well_formed(),
            packet.header.is_media(),
        ensures
            final(self).well_formed(),
            final(self)@ == old(self)@.begun(packet@),
    {
        broadcast use vstd::std_specs::hash::group_hash_axioms;

        let bytes: u64 = packet.payload.len() as u64;
        self.act(ReorderAction::Received { bytes });
        if self.initialized {
            self.act(ReorderAction::ReplyRoute { remote: packet.remote.clone(), reset: false });
        } else {
            self.initialized = true;
            self.next_seq = packet.header.sequence;
            self.flow_connections.insert(packet.connection_id);
            self.act(ReorderAction::ReplyRoute { remote: packet.remote.clone(), reset: true });
            let next_seq: u64 = packet.header.sequence;
            self.act(ReorderAction::FlowStart { next_seq });
        }
        proof {
            assert(self@ =~= old(self)@.begun(packet@));
            self.lemma_fragments_like(old(self)@);
        }
    }

    /// Drops everything of the old flow: the sender started over.
    fn restart(&mut self, packet: &ReceivedPacket)
        requires
            old(self).well_formed(),
            packet.header.is_media(),
        ensures
            final(self).well_formed(),
            final(self)@ == old(self)@.restarted(packet@),
    {
        broadcast use vstd::std_specs::hash::group_hash_axioms;

        self.buffered.clear();
        self.fragments.clear();
        self.seen.clear();
        self.skipped_sequences.clear();
        self.gap_repair_requests.clear();
        self.fec_state.clear();
        self.flow_connections.clear();
        self.flow_connections.insert(packet.connection_id);
        self.next_seq = packet.header.sequence;
        self.act(ReorderAction::ReplyRoute { remote: packet.remote.clone(), reset: true });
        let next_seq: u64 = packet.header.sequence;
        self.act(ReorderAction::FlowReset { next_seq });
        assert(self@ =~= old(self)@.restarted(packet@));
    }

    /// A packet came.
    pub fn on_packet(&mut self, packet: ReceivedPacket, options: &ReorderOptions, now: u64)
        requires
            old(self).well_formed(),
            packet.header.is_media(),
        ensures
            final(self).well_formed(),
            final(self)@ == old(self)@.on_packet(packet@, *options, now),
    {
        broadcast use vstd::std_specs::hash::group_hash_axioms;

        self.begin(&packet);
        let ghost begun = self@;
        let sequence: u64 = packet.header.sequence;
        if sequence >= self.next_seq {
            self.restart_detector.clear();
            self.flow_connections.insert(packet.connection_id);
            proof {
                self.lemma_fragments_like(begun);
            }
            self.take_up(packet, options, now);
        } else if self.flow_connections.contains(&packet.connection_id) {
            self.drop_late(sequence);
        } else {
            let confirmed = self.restart_detector.observe(sequence, self.next_seq);
            proof {
                self.lemma_fragments_like(begun);
            }
            if confirmed {
                self.restart(&packet);
                self.take_up(packet, options, now);
            } else {
                self.drop_late(sequence);
            }
        }
    }

    /// A parity frame came.
    pub fn on_fec(&mut self, fec: ReceivedFecFrame, options: &ReorderOptions, now: u64)
        requires
            old(self).well_formed(),
            fec.frame@.base_sequence <= MAX_MEDIA_SEQUENCE,
        ensures
            final(self).well_formed(),
            final(self)@ == old(self)@.on_fec(fec@, *options, now),
    {
        let ghost kept = ReorderModel { fec: self@.fec.with_frame(fec.frame@), ..self@ };
        self.fec_state.insert_frame(fec.frame);
        proof {
            assert(self@ =~= kept);
            assert forall|s: u64| #[trigger] kept.fragments.contains_key(s) implies s
                <= MAX_MEDIA_SEQUENCE && kept.assembly_is_valid(s) by {
                assert(old(self)@.fragments.contains_key(s));
                assert(old(self)@.assembly_is_valid(s));
            }
        }
        if self.initialized {
            self.act(ReorderAction::ReplyRoute { remote: fec.remote, reset: false });
            proof {
                self.lemma_fragments_like(kept);
            }
            self.recover_fec_ready(now);
            self.advance_reorder_window(options, now);
        }
    }

    /// Nothing came in time.
    pub fn on_timeout(&mut self, options: &ReorderOptions, now: u64)
        requires
            old(self).well_formed(),
        ensures
            final(self).well_formed(),
            final(self)@ == old(self)@.on_timeout(*options, now),
    {
        if !self.initialized {
            return;
        }
        if self.has_pending_state() {
            self.advance_reorder_window(options, now);
        } else {
            self.initialized = false;
            self.next_seq = 0;
            self.restart_detector.clear();
            self.skipped_sequences.clear();
            self.gap_repair_requests.clear();
            self.flow_connections.clear();
            self.fec_state.clear();
            assert(self@ =~= old(self)@.on_timeout(*options, now));
        }
    }

    /// A frame came.
    pub fn on_frame(&mut self, frame: ReceivedFrame, options: &ReorderOptions, now: u64)
        requires
            old(self).well_formed(),
            reorder_laws::is_valid(Some(frame@)),
        ensures
            final(self).well_formed(),
            final(self)@ == reorder_laws::stepped(old(self)@, Some(frame@), *options, now),
    {
        match frame {
            ReceivedFrame::Packet(packet) => self.on_packet(packet, options, now),
            ReceivedFrame::Fec(fec) => self.on_fec(fec, options, now),
        }
    }
}

} // verus!
