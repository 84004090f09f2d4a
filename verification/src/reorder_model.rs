//! How the server puts packets back in order, as a step from state to state.
//!
//! A state holds the sequence number that is due, the payloads and fragments that came early, and
//! the actions that the steps so far ask for, in order.

use crate::fec;
use crate::fec::{FecModel, SourceModel};
use crate::ordered;
use crate::protocol::{
    RepairRequest, MAX_FRAGMENTS, MAX_MEDIA_SEQUENCE, REPAIR_ALL_FRAGMENTS_MASK,
};
use crate::receive;
use crate::receive::{AssemblyModel, BufferedModel, FecModelFrame, PacketModel};
use crate::sequence;
use crate::time;
use crate::tracking;
use crate::tracking::{RestartDetector, SKIPPED_SEQUENCE_TRACK_LIMIT};
use vstd::prelude::*;

verus! {

/// How many repair requests one step sends.
pub const MAX_REPAIR_REQUESTS_PER_TICK: usize = 64;

/// How patient the server is. Times are in nanoseconds.
#[derive(Debug, Clone, Copy, PartialEq, Eq)]
pub struct ReorderOptions {
    /// How long without a packet until the flow is forgotten.
    pub flow_idle_reset: u64,
    /// How long a payload waits for those before it.
    pub max_reorder_delay: u64,
    /// How long until a repair request is repeated; none if the server requests no repairs.
    pub repair_request_interval: Option<u64>,
}

/// Why a sequence number was skipped.
#[derive(Debug, Clone, Copy, PartialEq, Eq, Structural)]
pub enum SkipReason {
    NeverReceived,
    FragmentIncomplete,
}

/// What a step asks the server to do.
#[verifier::ext_equal]
pub enum ActionModel {
    Received { bytes: u64 },
    ReplyRoute { remote: Seq<char>, reset: bool },
    FlowStart { next_seq: u64 },
    FlowReset { next_seq: u64 },
    LateAfterSkip { sequence: u64, buffered: u64, next_seq: u64 },
    Duplicate { buffered: u64, next_seq: u64 },
    Buffered { buffered: u64, next_seq: u64 },
    Forward { sequence: u64, payload: Seq<u8>, buffered: u64, next_seq: u64 },
    FecRecovered { sequence: u64, bytes: u64 },
    Repair { request: RepairRequest },
    Skipped { reason: SkipReason, sequence: u64, buffered: u64, next_seq: u64 },
}

#[verifier::ext_equal]
pub struct ReorderModel {
    /// Whether a flow has begun.
    pub initialized: bool,
    /// The sequence number that is due.
    pub next_seq: u64,
    /// Whole payloads that came early.
    pub buffered: Map<u64, BufferedModel>,
    /// Packets of which fragments are missing.
    pub fragments: Map<u64, AssemblyModel>,
    /// Sequence numbers whose payload came and was not forwarded yet.
    pub seen: Set<u64>,
    /// The sequence numbers that were skipped lately.
    pub skipped: Seq<u64>,
    /// When the repair of a missing packet was last requested.
    pub gap_requests: Map<u64, u64>,
    pub restart: RestartDetector,
    /// The connections that belong to the flow.
    pub connections: Set<usize>,
    pub fec: FecModel,
    /// What is to be done.
    pub actions: Seq<ActionModel>,
}

/// How many steps lead from a sequence number to another, around the wrap if need be.
pub open spec fn steps_to(from: u64, to: u64) -> int {
    if to >= from {
        to - from
    } else {
        to + MAX_MEDIA_SEQUENCE + 1 - from
    }
}

impl ReorderModel {
    /// The sequence numbers in the state are those of media packets, a packet that is being put
    /// together has at least two fragments and one is missing, and what is remembered is bounded.
    pub open spec fn well_formed(self) -> bool {
        &&& self.next_seq <= MAX_MEDIA_SEQUENCE
        &&& self.buffered.dom().finite()
        &&& self.fragments.dom().finite()
        &&& forall|s: u64| #[trigger] self.buffered.contains_key(s) ==> s <= MAX_MEDIA_SEQUENCE
        &&& forall|s: u64| #[trigger]
            self.fragments.contains_key(s) ==> s <= MAX_MEDIA_SEQUENCE
                && self.assembly_is_valid(s)
        &&& self.skipped.len() <= SKIPPED_SEQUENCE_TRACK_LIMIT
        &&& self.fec.well_formed()
    }

    /// A packet that is being put together has at least two fragments, and one is missing.
    pub open spec fn assembly_is_valid(self, sequence: u64) -> bool {
        &&& 2 <= self.fragments[sequence].parts.len() <= MAX_FRAGMENTS
        &&& !receive::complete(self.fragments[sequence].parts)
    }

    /// A flow that has not begun.
    pub open spec fn initial() -> ReorderModel {
        ReorderModel {
            initialized: false,
            next_seq: 0,
            buffered: Map::empty(),
            fragments: Map::empty(),
            seen: Set::empty(),
            skipped: Seq::empty(),
            gap_requests: Map::empty(),
            restart: tracking::no_restart(),
            connections: Set::empty(),
            fec: fec::no_fec(),
            actions: Seq::empty(),
        }
    }

    /// One more action is asked for.
    pub open spec fn act(self, action: ActionModel) -> ReorderModel {
        ReorderModel { actions: self.actions.push(action), ..self }
    }

    /// How many whole payloads wait.
    pub open spec fn waiting(self) -> u64 {
        self.buffered.dom().len() as u64
    }

    /// How many packets wait, whole or in part.
    pub open spec fn pending(self) -> u64 {
        (self.buffered.dom().len() + self.fragments.dom().len()) as u64
    }

    /// Whether anything waits.
    pub open spec fn has_pending_state(self) -> bool {
        !(self.buffered.dom() == Set::<u64>::empty() && self.fragments.dom() == Set::<u64>::empty()
            && self.seen == Set::<u64>::empty())
    }

    /// The payload that is due is forwarded.
    pub open spec fn delivered(self, payload: Seq<u8>) -> ReorderModel {
        let next = sequence::following(self.next_seq);
        ReorderModel {
            next_seq: next,
            seen: self.seen.remove(self.next_seq),
            gap_requests: self.gap_requests.remove(self.next_seq),
            fec: self.fec.with_payload(self.next_seq, payload),
            ..self
        }.act(
            ActionModel::Forward {
                sequence: self.next_seq,
                payload,
                buffered: self.waiting(),
                next_seq: next,
            },
        )
    }

    /// The payloads that wait are forwarded as long as the one that is due is among them.
    pub open spec fn drained(self) -> ReorderModel
        decreases self.buffered.dom().len(),
        when self.buffered.dom().finite()
    {
        if self.buffered.contains_key(self.next_seq) {
            ReorderModel {
                buffered: self.buffered.remove(self.next_seq),
                ..self
            }.delivered(self.buffered[self.next_seq].payload).drained()
        } else {
            self
        }
    }

    /// A whole payload came: it is forwarded, with those that waited for it, if it is due, and
    /// waits otherwise.
    pub open spec fn accepted(self, sequence: u64, payload: Seq<u8>, now: u64) -> ReorderModel {
        if sequence == self.next_seq {
            self.delivered(payload).drained()
        } else {
            let waiting = ReorderModel {
                buffered: self.buffered.insert(
                    sequence,
                    BufferedModel { payload, received_at: now },
                ),
                seen: self.seen.insert(sequence),
                fec: self.fec.with_payload(sequence, payload),
                ..self
            };
            waiting.act(
                ActionModel::Buffered { buffered: waiting.waiting(), next_seq: self.next_seq },
            )
        }
    }

    /// A payload was recovered: it counts unless it is late or came by itself.
    pub open spec fn accepted_recovered(
        self,
        sequence: u64,
        payload: Seq<u8>,
        now: u64,
    ) -> ReorderModel {
        if sequence < self.next_seq || self.seen.contains(sequence) || self.buffered.contains_key(
            sequence,
        ) {
            self
        } else {
            ReorderModel { fragments: self.fragments.remove(sequence), ..self }.act(
                ActionModel::FecRecovered { sequence, bytes: payload.len() as u64 },
            ).accepted(sequence, payload, now)
        }
    }

    /// Payloads were recovered, and are taken up one after the other.
    pub open spec fn accepted_each(self, list: Seq<SourceModel>, now: u64) -> ReorderModel
        decreases list.len(),
    {
        if list.len() == 0 {
            self
        } else {
            self.accepted_recovered(list[0].0, list[0].1, now).accepted_each(list.drop_first(), now)
        }
    }

    /// The payloads that the parity frames recover now.
    pub open spec fn recoverable(self) -> Seq<SourceModel> {
        fec::recovery(self.fec, self.buffered, self.next_seq)
    }

    /// Only the parity frames that may still recover a payload are kept.
    pub open spec fn with_waiting_frames(self) -> ReorderModel {
        ReorderModel { fec: fec::after_recovery(self.fec, self.buffered), ..self }
    }

    /// Payloads are recovered, also with the help of those that were recovered before, until
    /// nothing more can be.
    pub open spec fn recovered_all(self, now: u64) -> ReorderModel
        decreases self.fec.frames.dom().len(),
        when self.well_formed()
    {
        proof {
            self.lemma_round(now);
        }
        if self.recoverable().len() == 0 {
            self.with_waiting_frames()
        } else {
            self.with_waiting_frames().accepted_each(self.recoverable(), now).recovered_all(now)
        }
    }

    /// Whether the repair of the packet that is due is to be requested.
    pub open spec fn gap_is_due(self, interval: u64, now: u64) -> bool {
        &&& !self.buffered.contains_key(self.next_seq)
        &&& !self.fragments.contains_key(self.next_seq)
        &&& !(self.buffered.dom() == Set::<u64>::empty() && self.fragments.dom() == Set::<
            u64,
        >::empty())
        &&& self.gap_requests.contains_key(self.next_seq) ==> time::elapsed(
            now,
            self.gap_requests[self.next_seq],
        ) >= interval
    }

    /// Whether the repair of a packet's missing fragments is to be requested.
    pub open spec fn fragments_are_due(self, sequence: u64, interval: u64, now: u64) -> bool {
        let assembly = self.fragments[sequence];
        &&& assembly.last_repair_request matches Some(last) ==> time::elapsed(now, last) >= interval
        &&& receive::missing_bits(assembly.parts) != 0
    }

    /// The missing fragments of these packets are requested, as far as they are due and fewer than
    /// the greatest number of requests have been sent.
    pub open spec fn fragments_requested(
        self,
        keys: Seq<u64>,
        sent: nat,
        interval: u64,
        now: u64,
    ) -> ReorderModel
        decreases keys.len(),
    {
        if keys.len() == 0 || sent >= MAX_REPAIR_REQUESTS_PER_TICK {
            self
        } else if self.fragments_are_due(keys[0], interval, now) {
            let assembly = self.fragments[keys[0]];
            ReorderModel {
                fragments: self.fragments.insert(
                    keys[0],
                    AssemblyModel { last_repair_request: Some(now), ..assembly },
                ),
                ..self
            }.act(
                ActionModel::Repair {
                    request: RepairRequest {
                        sequence: keys[0],
                        missing_mask: receive::missing_bits(assembly.parts),
                    },
                },
            ).fragments_requested(keys.drop_first(), sent + 1, interval, now)
        } else {
            self.fragments_requested(keys.drop_first(), sent, interval, now)
        }
    }

    /// The repairs that are due are requested: first that of the packet that is due and missing as
    /// a whole, then those of the packets with missing fragments, by their sequence numbers.
    pub open spec fn repairs_requested(self, interval: u64, now: u64) -> ReorderModel {
        if self.gap_is_due(interval, now) {
            ReorderModel {
                gap_requests: self.gap_requests.insert(self.next_seq, now),
                ..self
            }.act(
                ActionModel::Repair {
                    request: RepairRequest {
                        sequence: self.next_seq,
                        missing_mask: REPAIR_ALL_FRAGMENTS_MASK,
                    },
                },
            ).fragments_requested(ordered::ascending(self.fragments.dom()), 1, interval, now)
        } else {
            self.fragments_requested(ordered::ascending(self.fragments.dom()), 0, interval, now)
        }
    }

    /// The sequence number that is due is given up.
    pub open spec fn skip(self, reason: SkipReason) -> ReorderModel {
        let next = sequence::following(self.next_seq);
        ReorderModel {
            next_seq: next,
            gap_requests: self.gap_requests.remove(self.next_seq),
            skipped: tracking::with_skipped(self.skipped, self.next_seq),
            ..self
        }.act(
            ActionModel::Skipped {
                reason,
                sequence: self.next_seq,
                buffered: self.pending(),
                next_seq: next,
            },
        )
    }

    /// Whether a payload or a fragment has waited too long.
    pub open spec fn is_overdue(self, delay: u64, now: u64) -> bool {
        ||| exists|s: u64| #[trigger]
            self.buffered.contains_key(s) && time::elapsed(now, self.buffered[s].received_at) >= delay
        ||| exists|s: u64| #[trigger]
            self.fragments.contains_key(s) && time::elapsed(now, self.fragments[s].first_seen) >= delay
    }

    /// A sequence number that waits, if there is one.
    pub open spec fn some_pending(self) -> u64 {
        self.buffered.dom().union(self.fragments.dom()).choose()
    }

    /// The sequence number that is due is given up, again and again, as long as it has not come
    /// and something behind it has waited too long, or its own fragments have.
    pub open spec fn expired(self, delay: u64, now: u64) -> ReorderModel
        decreases self.fragments.dom().len(), steps_to(self.next_seq, self.some_pending()),
        when self.well_formed()
    {
        proof {
            self.lemma_skip(delay, now);
            self.lemma_skip_incomplete();
        }
        if self.buffered.contains_key(self.next_seq) {
            self
        } else if self.fragments.contains_key(self.next_seq) {
            if time::elapsed(now, self.fragments[self.next_seq].first_seen) < delay {
                self
            } else {
                self.without_due().skip(SkipReason::FragmentIncomplete).expired(delay, now)
            }
        } else if self.is_overdue(delay, now) {
            self.skip(SkipReason::NeverReceived).expired(delay, now)
        } else {
            self
        }
    }

    /// The fragments of the packet that is due are dropped.
    pub open spec fn without_due(self) -> ReorderModel {
        ReorderModel {
            fragments: self.fragments.remove(self.next_seq),
            seen: self.seen.remove(self.next_seq),
            ..self
        }
    }

    /// Whatever can move on does: payloads are recovered, repairs are requested, what is overdue
    /// is given up, and what is due is forwarded.
    pub open spec fn advanced(self, options: ReorderOptions, now: u64) -> ReorderModel {
        let recovered = self.recovered_all(now);
        let requested = match options.repair_request_interval {
            Some(interval) => recovered.repairs_requested(interval, now),
            None => recovered,
        };
        requested.expired(options.max_reorder_delay, now).drained()
    }

    /// A packet belongs to the flow; the first packet begins it.
    pub open spec fn begun(self, packet: PacketModel) -> ReorderModel {
        let received = self.act(ActionModel::Received { bytes: packet.payload.len() as u64 });
        if self.initialized {
            received.act(ActionModel::ReplyRoute { remote: packet.remote, reset: false })
        } else {
            ReorderModel {
                initialized: true,
                next_seq: packet.header.sequence,
                connections: self.connections.insert(packet.connection_id),
                ..received
            }.act(ActionModel::ReplyRoute { remote: packet.remote, reset: true }).act(
                ActionModel::FlowStart { next_seq: packet.header.sequence },
            )
        }
    }

    /// The sender started over: everything of the old flow is dropped.
    pub open spec fn restarted(self, packet: PacketModel) -> ReorderModel {
        ReorderModel {
            next_seq: packet.header.sequence,
            buffered: Map::empty(),
            fragments: Map::empty(),
            seen: Set::empty(),
            skipped: Seq::empty(),
            gap_requests: Map::empty(),
            connections: Set::<usize>::empty().insert(packet.connection_id),
            fec: fec::no_fec(),
            ..self
        }.act(ActionModel::ReplyRoute { remote: packet.remote, reset: true }).act(
            ActionModel::FlowReset { next_seq: packet.header.sequence },
        )
    }

    /// A packet came after its sequence number was passed.
    pub open spec fn dropped_late(self, sequence: u64) -> ReorderModel {
        if self.skipped.contains(sequence) {
            self.act(
                ActionModel::LateAfterSkip {
                    sequence,
                    buffered: self.pending(),
                    next_seq: self.next_seq,
                },
            )
        } else {
            self.dropped_duplicate()
        }
    }

    /// A packet came that is not needed.
    pub open spec fn dropped_duplicate(self) -> ReorderModel {
        self.act(
            ActionModel::Duplicate { buffered: self.waiting(), next_seq: self.next_seq },
        )
    }

    /// A payload is whole.
    pub open spec fn completed(
        self,
        sequence: u64,
        payload: Seq<u8>,
        options: ReorderOptions,
        now: u64,
    ) -> ReorderModel {
        self.accepted(sequence, payload, now).recovered_all(now).advanced(options, now)
    }

    /// The packet that a fragment belongs to, before the fragment is added.
    pub open spec fn assembly_for(self, packet: PacketModel, now: u64) -> AssemblyModel {
        if self.fragments.contains_key(packet.header.sequence) {
            self.fragments[packet.header.sequence]
        } else {
            AssemblyModel {
                parts: Seq::new(packet.header.fragments as nat, |i: int| None),
                first_seen: now,
                last_repair_request: None,
            }
        }
    }

    /// A fragment is added to its packet.
    pub open spec fn with_fragment(
        self,
        packet: PacketModel,
        options: ReorderOptions,
        now: u64,
    ) -> ReorderModel {
        let sequence = packet.header.sequence;
        let fragment = packet.header.fragment as int;
        let assembly = self.assembly_for(packet, now);
        if assembly.parts.len() != packet.header.fragments || assembly.parts[fragment] is Some {
            self.dropped_duplicate()
        } else {
            let parts = assembly.parts.update(fragment, Some(packet.payload));
            if receive::complete(parts) {
                ReorderModel { fragments: self.fragments.remove(sequence), ..self }.completed(
                    sequence,
                    receive::joined_parts(parts),
                    options,
                    now,
                )
            } else {
                let longer = ReorderModel {
                    fragments: self.fragments.insert(sequence, AssemblyModel { parts, ..assembly }),
                    ..self
                };
                longer.act(
                    ActionModel::Buffered { buffered: longer.pending(), next_seq: self.next_seq },
                ).advanced(options, now)
            }
        }
    }

    /// A packet that is not behind is taken up, unless its payload is there already.
    pub open spec fn admitted(
        self,
        packet: PacketModel,
        options: ReorderOptions,
        now: u64,
    ) -> ReorderModel {
        let sequence = packet.header.sequence;
        if self.seen.contains(sequence) || self.buffered.contains_key(sequence) {
            self.dropped_duplicate()
        } else if packet.header.fragments == 1 {
            ReorderModel { fragments: self.fragments.remove(sequence), ..self }.completed(
                sequence,
                packet.payload,
                options,
                now,
            )
        } else {
            self.with_fragment(packet, options, now)
        }
    }

    /// A packet came.
    pub open spec fn on_packet(
        self,
        packet: PacketModel,
        options: ReorderOptions,
        now: u64,
    ) -> ReorderModel {
        let begun = self.begun(packet);
        let sequence = packet.header.sequence;
        if sequence >= begun.next_seq {
            ReorderModel {
                restart: tracking::no_restart(),
                connections: begun.connections.insert(packet.connection_id),
                ..begun
            }.admitted(packet, options, now)
        } else if begun.connections.contains(packet.connection_id) {
            begun.dropped_late(sequence)
        } else {
            let restart = begun.restart.observed(sequence, begun.next_seq);
            let observed = ReorderModel { restart, ..begun };
            if restart.confirmed() {
                observed.restarted(packet).admitted(packet, options, now)
            } else {
                observed.dropped_late(sequence)
            }
        }
    }

    /// A parity frame came.
    pub open spec fn on_fec(
        self,
        fec: FecModelFrame,
        options: ReorderOptions,
        now: u64,
    ) -> ReorderModel {
        let kept = ReorderModel { fec: self.fec.with_frame(fec.frame), ..self };
        if self.initialized {
            kept.act(ActionModel::ReplyRoute { remote: fec.remote, reset: false }).recovered_all(
                now,
            ).advanced(options, now)
        } else {
            kept
        }
    }

    /// Nothing came for a while: what waits moves on, and a flow in which nothing waits is
    /// forgotten.
    pub open spec fn on_timeout(self, options: ReorderOptions, now: u64) -> ReorderModel {
        if !self.initialized {
            self
        } else if self.has_pending_state() {
            self.advanced(options, now)
        } else {
            ReorderModel {
                initialized: false,
                next_seq: 0,
                skipped: Seq::empty(),
                gap_requests: Map::empty(),
                restart: tracking::no_restart(),
                connections: Set::empty(),
                fec: fec::no_fec(),
                ..self
            }
        }
    }

    /// How long to wait for a frame.
    pub open spec fn patience(self, options: ReorderOptions) -> u64 {
        if self.has_pending_state() {
            match options.repair_request_interval {
                Some(interval) => if interval < options.max_reorder_delay {
                    interval
                } else {
                    options.max_reorder_delay
                },
                None => options.max_reorder_delay,
            }
        } else {
            options.flow_idle_reset
        }
    }

    /// Whether the forwarded and skipped sequence numbers lead from `start` to the one that is due.
    pub open spec fn tracks(self, start: u64) -> bool {
        cursor_after(start, self.actions) == Some(self.next_seq)
    }

    /// Whether a later state still asks for everything that this one asks for, and in this order.
    pub open spec fn is_extended_by(self, later: ReorderModel) -> bool {
        &&& self.actions.len() <= later.actions.len()
        &&& forall|i: int|
            0 <= i < self.actions.len() ==> #[trigger] later.actions[i] == self.actions[i]
    }

    // Well-formedness and order are kept by every step, and no action is taken back.

    pub proof fn lemma_delivered(self, payload: Seq<u8>, start: u64)
        requires
            self.well_formed(),
        ensures
            self.delivered(payload).well_formed(),
            self.tracks(start) ==> self.delivered(payload).tracks(start),
            self.is_extended_by(self.delivered(payload)),
            self.delivered(payload).fec.frames == self.fec.frames,
    {
        fec::lemma_with_payload(self.fec, self.next_seq, payload);
        let after = self.delivered(payload);
        assert(after.actions.drop_last() =~= self.actions);
    }

    pub proof fn lemma_drained(self, start: u64)
        requires
            self.well_formed(),
        ensures
            self.drained().well_formed(),
            self.tracks(start) ==> self.drained().tracks(start),
            self.is_extended_by(self.drained()),
            self.drained().fec.frames == self.fec.frames,
            !self.drained().buffered.contains_key(self.drained().next_seq),
        decreases self.buffered.dom().len(),
    {
        if self.buffered.contains_key(self.next_seq) {
            let rest = ReorderModel { buffered: self.buffered.remove(self.next_seq), ..self };
            rest.lemma_delivered(self.buffered[self.next_seq].payload, start);
            rest.delivered(self.buffered[self.next_seq].payload).lemma_drained(start);
        }
    }

    pub proof fn lemma_accepted(self, sequence: u64, payload: Seq<u8>, now: u64, start: u64)
        requires
            self.well_formed(),
            sequence <= MAX_MEDIA_SEQUENCE,
        ensures
            self.accepted(sequence, payload, now).well_formed(),
            self.tracks(start) ==> self.accepted(sequence, payload, now).tracks(start),
            self.is_extended_by(self.accepted(sequence, payload, now)),
            self.accepted(sequence, payload, now).fec.frames == self.fec.frames,
    {
        if sequence == self.next_seq {
            self.lemma_delivered(payload, start);
            self.delivered(payload).lemma_drained(start);
        } else {
            fec::lemma_with_payload(self.fec, sequence, payload);
            assert(self.accepted(sequence, payload, now).actions.drop_last() =~= self.actions);
        }
    }

    pub proof fn lemma_accepted_recovered(
        self,
        sequence: u64,
        payload: Seq<u8>,
        now: u64,
        start: u64,
    )
        requires
            self.well_formed(),
            sequence <= MAX_MEDIA_SEQUENCE,
        ensures
            self.accepted_recovered(sequence, payload, now).well_formed(),
            self.tracks(start) ==> self.accepted_recovered(sequence, payload, now).tracks(start),
            self.is_extended_by(self.accepted_recovered(sequence, payload, now)),
            self.accepted_recovered(sequence, payload, now).fec.frames == self.fec.frames,
    {
        let action = ActionModel::FecRecovered { sequence, bytes: payload.len() as u64 };
        let noted = ReorderModel { fragments: self.fragments.remove(sequence), ..self }.act(action);
        assert(noted.actions.drop_last() =~= self.actions);
        assert forall|s: u64| #[trigger] noted.fragments.contains_key(s) implies s
            <= MAX_MEDIA_SEQUENCE && noted.assembly_is_valid(s) by {
            assert(self.fragments.contains_key(s));
        }
        noted.lemma_accepted(sequence, payload, now, start);
    }

    pub proof fn lemma_accepted_each(self, list: Seq<SourceModel>, now: u64, start: u64)
        requires
            self.well_formed(),
            forall|i: int| 0 <= i < list.len() ==> (#[trigger] list[i]).0 <= MAX_MEDIA_SEQUENCE,
        ensures
            self.accepted_each(list, now).well_formed(),
            self.tracks(start) ==> self.accepted_each(list, now).tracks(start),
            self.is_extended_by(self.accepted_each(list, now)),
            self.accepted_each(list, now).fec.frames == self.fec.frames,
        decreases list.len(),
    {
        if list.len() > 0 {
            assert(list[0].0 <= MAX_MEDIA_SEQUENCE);
            self.lemma_accepted_recovered(list[0].0, list[0].1, now, start);
            self.accepted_recovered(list[0].0, list[0].1, now).lemma_accepted_each(
                list.drop_first(),
                now,
                start,
            );
        }
    }

    /// What the frames recover has media sequence numbers; a frame that recovers a payload is used
    /// up.
    pub proof fn lemma_recoverable(self)
        requires
            self.well_formed(),
        ensures
            forall|i: int|
                0 <= i < self.recoverable().len() ==> (#[trigger] self.recoverable()[i]).0
                    <= MAX_MEDIA_SEQUENCE,
            self.with_waiting_frames().well_formed(),
            self.recoverable().len() > 0 ==> self.with_waiting_frames().fec.frames.dom().len()
                < self.fec.frames.dom().len(),
    {
        let bases = ordered::ascending(self.fec.frames.dom());
        ordered::lemma_ascending_exists(self.fec.frames.dom());
        fec::lemma_waiting_frames(self.fec, self.buffered);
        fec::lemma_recovered(self.fec, self.buffered, self.next_seq, bases);
        if self.recoverable().len() > 0 {
            let base = choose|base: u64| #[trigger]
                bases.contains(base) && !(fec::scan(
                    self.fec.frames[base],
                    self.fec.payloads,
                    self.buffered,
                ) is Waiting);
            let kept = self.fec.waiting_frames(self.buffered);
            assert(bases.to_set().contains(base));
            assert(self.fec.frames.dom().contains(base));
            assert(!kept.dom().contains(base));
            assert(kept.dom().subset_of(self.fec.frames.dom().remove(base)));
            vstd::set_lib::lemma_len_subset(kept.dom(), self.fec.frames.dom().remove(base));
        }
    }

    pub proof fn lemma_round(self, now: u64)
        requires
            self.well_formed(),
        ensures
            self.recoverable().len() > 0 ==> self.with_waiting_frames().accepted_each(
                self.recoverable(),
                now,
            ).fec.frames.dom().len() < self.fec.frames.dom().len(),
    {
        self.lemma_recoverable();
        self.with_waiting_frames().lemma_accepted_each(self.recoverable(), now, 0);
    }

    pub proof fn lemma_recovered_all(self, now: u64, start: u64)
        requires
            self.well_formed(),
        ensures
            self.recovered_all(now).well_formed(),
            self.tracks(start) ==> self.recovered_all(now).tracks(start),
            self.is_extended_by(self.recovered_all(now)),
        decreases self.fec.frames.dom().len(),
    {
        self.lemma_recoverable();
        self.lemma_round(now);
        if self.recoverable().len() > 0 {
            let kept = self.with_waiting_frames();
            kept.lemma_accepted_each(self.recoverable(), now, start);
            kept.accepted_each(self.recoverable(), now).lemma_recovered_all(now, start);
        }
    }

    pub proof fn lemma_fragments_requested(
        self,
        keys: Seq<u64>,
        sent: nat,
        interval: u64,
        now: u64,
        start: u64,
    )
        requires
            self.well_formed(),
            forall|i: int|
                0 <= i < keys.len() ==> self.fragments.contains_key(#[trigger] keys[i]),
        ensures
            self.fragments_requested(keys, sent, interval, now).well_formed(),
            self.tracks(start) ==> self.fragments_requested(keys, sent, interval, now).tracks(
                start,
            ),
            self.is_extended_by(self.fragments_requested(keys, sent, interval, now)),
        decreases keys.len(),
    {
        if keys.len() > 0 && sent < MAX_REPAIR_REQUESTS_PER_TICK {
            let rest = keys.drop_first();
            assert(self.fragments.contains_key(keys[0]));
            assert forall|i: int| 0 <= i < rest.len() implies self.fragments.contains_key(
                #[trigger] rest[i],
            ) by {
                assert(keys[i + 1] == rest[i]);
            }
            if self.fragments_are_due(keys[0], interval, now) {
                let assembly = self.fragments[keys[0]];
                let asked = ReorderModel {
                    fragments: self.fragments.insert(
                        keys[0],
                        AssemblyModel { last_repair_request: Some(now), ..assembly },
                    ),
                    ..self
                }.act(
                    ActionModel::Repair {
                        request: RepairRequest {
                            sequence: keys[0],
                            missing_mask: receive::missing_bits(assembly.parts),
                        },
                    },
                );
                assert(asked.actions.drop_last() =~= self.actions);
                assert forall|s: u64| #[trigger] asked.fragments.contains_key(s) implies s
                    <= MAX_MEDIA_SEQUENCE && asked.assembly_is_valid(s) by {
                    assert(self.fragments.contains_key(s));
                    assert(self.assembly_is_valid(s));
                }
                asked.lemma_fragments_requested(rest, sent + 1, interval, now, start);
            } else {
                self.lemma_fragments_requested(rest, sent, interval, now, start);
            }
        }
    }

    pub proof fn lemma_repairs_requested(self, interval: u64, now: u64, start: u64)
        requires
            self.well_formed(),
        ensures
            self.repairs_requested(interval, now).well_formed(),
            self.tracks(start) ==> self.repairs_requested(interval, now).tracks(start),
            self.is_extended_by(self.repairs_requested(interval, now)),
    {
        let keys = ordered::ascending(self.fragments.dom());
        ordered::lemma_ascending_exists(self.fragments.dom());
        assert forall|i: int| 0 <= i < keys.len() implies self.fragments.contains_key(
            #[trigger] keys[i],
        ) by {
            assert(keys.to_set().contains(keys[i]));
        }
        let asked = ReorderModel {
            gap_requests: self.gap_requests.insert(self.next_seq, now),
            ..self
        }.act(
            ActionModel::Repair {
                request: RepairRequest {
                    sequence: self.next_seq,
                    missing_mask: REPAIR_ALL_FRAGMENTS_MASK,
                },
            },
        );
        assert(asked.actions.drop_last() =~= self.actions);
        assert forall|s: u64| #[trigger] asked.fragments.contains_key(s) implies s
            <= MAX_MEDIA_SEQUENCE && asked.assembly_is_valid(s) by {
            assert(self.fragments.contains_key(s));
            assert(self.assembly_is_valid(s));
        }
        asked.lemma_fragments_requested(keys, 1, interval, now, start);
        self.lemma_fragments_requested(keys, 0, interval, now, start);
    }

    pub proof fn lemma_skip_keeps(self, reason: SkipReason, start: u64)
        requires
            self.well_formed(),
        ensures
            self.skip(reason).well_formed(),
            self.tracks(start) ==> self.skip(reason).tracks(start),
            self.is_extended_by(self.skip(reason)),
    {
        tracking::law_skipped_is_remembered(self.skipped, self.next_seq);
        let after = self.skip(reason);
        assert(after.actions.drop_last() =~= self.actions);
        assert forall|s: u64| #[trigger] after.fragments.contains_key(s) implies s
            <= MAX_MEDIA_SEQUENCE && after.assembly_is_valid(s) by {
            assert(self.fragments.contains_key(s));
            assert(self.assembly_is_valid(s));
        }
    }

    /// Giving up the sequence number that is due comes closer to one that waits.
    pub proof fn lemma_skip(self, delay: u64, now: u64)
        requires
            self.well_formed(),
        ensures
            self.skip(SkipReason::NeverReceived).well_formed(),
            self.skip(SkipReason::NeverReceived).some_pending() == self.some_pending(),
            !self.buffered.contains_key(self.next_seq) && !self.fragments.contains_key(
                self.next_seq,
            ) && self.is_overdue(delay, now) ==> 0 <= steps_to(
                self.skip(SkipReason::NeverReceived).next_seq,
                self.some_pending(),
            ) < steps_to(self.next_seq, self.some_pending()),
    {
        self.lemma_skip_keeps(SkipReason::NeverReceived, 0);
        let all = self.buffered.dom().union(self.fragments.dom());
        if self.is_overdue(delay, now) {
            if exists|s: u64| #[trigger]
                self.buffered.contains_key(s) && time::elapsed(now, self.buffered[s].received_at)
                    >= delay {
                let s = choose|s: u64| #[trigger]
                    self.buffered.contains_key(s) && time::elapsed(now, self.buffered[s].received_at)
                        >= delay;
                assert(all.contains(s));
            } else {
                let s = choose|s: u64| #[trigger]
                    self.fragments.contains_key(s) && time::elapsed(now, self.fragments[s].first_seen)
                        >= delay;
                assert(all.contains(s));
            }
            assert(all.contains(self.some_pending()));
            assert(self.buffered.contains_key(self.some_pending()) || self.fragments.contains_key(
                self.some_pending(),
            ));
        }
    }

    pub proof fn lemma_skip_incomplete(self)
        requires
            self.well_formed(),
        ensures
            self.without_due().well_formed(),
            self.without_due().skip(SkipReason::FragmentIncomplete).well_formed(),
            self.fragments.contains_key(self.next_seq) ==> self.without_due().skip(
                SkipReason::FragmentIncomplete,
            ).fragments.dom().len() < self.fragments.dom().len(),
    {
        let rest = self.without_due();
        assert forall|s: u64| #[trigger] rest.fragments.contains_key(s) implies s
            <= MAX_MEDIA_SEQUENCE && rest.assembly_is_valid(s) by {
            assert(self.fragments.contains_key(s));
            assert(self.assembly_is_valid(s));
        }
        rest.lemma_skip_keeps(SkipReason::FragmentIncomplete, 0);
        assert(rest.fragments.dom() =~= self.fragments.dom().remove(self.next_seq));
    }

    pub proof fn lemma_expired(self, delay: u64, now: u64, start: u64)
        requires
            self.well_formed(),
        ensures
            self.expired(delay, now).well_formed(),
            self.tracks(start) ==> self.expired(delay, now).tracks(start),
            self.is_extended_by(self.expired(delay, now)),
            self.expired(delay, now).buffered == self.buffered,
            self.expired(delay, now).has_nothing_to_give_up(delay, now),
        decreases self.fragments.dom().len(), steps_to(self.next_seq, self.some_pending()),
    {
        self.lemma_skip(delay, now);
        self.lemma_skip_incomplete();
        if self.buffered.contains_key(self.next_seq) {
        } else if self.fragments.contains_key(self.next_seq) {
            if time::elapsed(now, self.fragments[self.next_seq].first_seen) >= delay {
                let rest = self.without_due();
                rest.lemma_skip_keeps(SkipReason::FragmentIncomplete, start);
                rest.skip(SkipReason::FragmentIncomplete).lemma_expired(delay, now, start);
            }
        } else if self.is_overdue(delay, now) {
            self.lemma_skip_keeps(SkipReason::NeverReceived, start);
            self.skip(SkipReason::NeverReceived).lemma_expired(delay, now, start);
        }
    }

    /// Whether nothing is to be given up: the payload that is due is there, or its fragments are
    /// not overdue, or nothing is.
    pub open spec fn has_nothing_to_give_up(self, delay: u64, now: u64) -> bool {
        ||| self.buffered.contains_key(self.next_seq)
        ||| self.fragments.contains_key(self.next_seq) && time::elapsed(
            now,
            self.fragments[self.next_seq].first_seen,
        ) < delay
        ||| !self.is_overdue(delay, now)
    }

    pub proof fn lemma_advanced(self, options: ReorderOptions, now: u64, start: u64)
        requires
            self.well_formed(),
        ensures
            self.advanced(options, now).well_formed(),
            self.tracks(start) ==> self.advanced(options, now).tracks(start),
            self.is_extended_by(self.advanced(options, now)),
    {
        self.lemma_recovered_all(now, start);
        let recovered = self.recovered_all(now);
        let requested = match options.repair_request_interval {
            Some(interval) => {
                recovered.lemma_repairs_requested(interval, now, start);
                recovered.repairs_requested(interval, now)
            },
            None => recovered,
        };
        requested.lemma_expired(options.max_reorder_delay, now, start);
        requested.expired(options.max_reorder_delay, now).lemma_drained(start);
    }

    pub proof fn lemma_completed(
        self,
        sequence: u64,
        payload: Seq<u8>,
        options: ReorderOptions,
        now: u64,
        start: u64,
    )
        requires
            self.well_formed(),
            sequence <= MAX_MEDIA_SEQUENCE,
        ensures
            self.completed(sequence, payload, options, now).well_formed(),
            self.tracks(start) ==> self.completed(sequence, payload, options, now).tracks(start),
            self.is_extended_by(self.completed(sequence, payload, options, now)),
    {
        self.lemma_accepted(sequence, payload, now, start);
        let accepted = self.accepted(sequence, payload, now);
        accepted.lemma_recovered_all(now, start);
        accepted.recovered_all(now).lemma_advanced(options, now, start);
    }

    pub proof fn lemma_without_fragments(self, sequence: u64)
        requires
            self.well_formed(),
        ensures
            (ReorderModel { fragments: self.fragments.remove(sequence), ..self }).well_formed(),
    {
        let rest = ReorderModel { fragments: self.fragments.remove(sequence), ..self };
        assert forall|s: u64| #[trigger] rest.fragments.contains_key(s) implies s
            <= MAX_MEDIA_SEQUENCE && rest.assembly_is_valid(s) by {
            assert(self.fragments.contains_key(s));
            assert(self.assembly_is_valid(s));
        }
    }

    /// The state with one more fragment of a packet that is not complete yet.
    pub open spec fn with_parts(
        self,
        packet: PacketModel,
        parts: Seq<Option<Seq<u8>>>,
        now: u64,
    ) -> ReorderModel {
        ReorderModel {
            fragments: self.fragments.insert(
                packet.header.sequence,
                AssemblyModel { parts, ..self.assembly_for(packet, now) },
            ),
            ..self
        }
    }

    pub proof fn lemma_with_parts(self, packet: PacketModel, now: u64)
        requires
            self.well_formed(),
            packet.header.is_media(),
            packet.header.fragments != 1,
            self.assembly_for(packet, now).parts.len() == packet.header.fragments,
        ensures
            ({
                let parts = self.assembly_for(packet, now).parts.update(
                    packet.header.fragment as int,
                    Some(packet.payload),
                );
                !receive::complete(parts) ==> self.with_parts(packet, parts, now).well_formed()
            }),
    {
        let parts = self.assembly_for(packet, now).parts.update(
            packet.header.fragment as int,
            Some(packet.payload),
        );
        let longer = self.with_parts(packet, parts, now);
        if !receive::complete(parts) {
            assert forall|s: u64| #[trigger] longer.fragments.contains_key(s) implies s
                <= MAX_MEDIA_SEQUENCE && longer.assembly_is_valid(s) by {
                if s != packet.header.sequence {
                    assert(self.fragments.contains_key(s));
                    assert(self.assembly_is_valid(s));
                }
            }
        }
    }

    pub proof fn lemma_admitted(
        self,
        packet: PacketModel,
        options: ReorderOptions,
        now: u64,
        start: u64,
    )
        requires
            self.well_formed(),
            packet.header.is_media(),
        ensures
            self.admitted(packet, options, now).well_formed(),
            self.tracks(start) ==> self.admitted(packet, options, now).tracks(start),
            self.is_extended_by(self.admitted(packet, options, now)),
    {
        let sequence = packet.header.sequence;
        let rest = ReorderModel { fragments: self.fragments.remove(sequence), ..self };
        self.lemma_without_fragments(sequence);
        assert(self.dropped_duplicate().actions.drop_last() =~= self.actions);
        if self.seen.contains(sequence) || self.buffered.contains_key(sequence) {
        } else if packet.header.fragments == 1 {
            rest.lemma_completed(sequence, packet.payload, options, now, start);
        } else {
            let fragment = packet.header.fragment as int;
            let assembly = self.assembly_for(packet, now);
            if assembly.parts.len() == packet.header.fragments && assembly.parts[fragment] is None {
                let parts = assembly.parts.update(fragment, Some(packet.payload));
                if receive::complete(parts) {
                    rest.lemma_completed(
                        sequence,
                        receive::joined_parts(parts),
                        options,
                        now,
                        start,
                    );
                } else {
                    self.lemma_with_parts(packet, now);
                    let longer = self.with_parts(packet, parts, now);
                    let noted = longer.act(
                        ActionModel::Buffered {
                            buffered: longer.pending(),
                            next_seq: self.next_seq,
                        },
                    );
                    assert(noted.actions.drop_last() =~= self.actions);
                    assert(noted.well_formed()) by {
                        assert forall|s: u64| #[trigger] noted.fragments.contains_key(s) implies s
                            <= MAX_MEDIA_SEQUENCE && noted.assembly_is_valid(s) by {
                            assert(longer.fragments.contains_key(s));
                            assert(longer.assembly_is_valid(s));
                        }
                    }
                    noted.lemma_advanced(options, now, start);
                }
            }
        }
    }

    pub proof fn lemma_on_packet(
        self,
        packet: PacketModel,
        options: ReorderOptions,
        now: u64,
        start: u64,
    )
        requires
            self.well_formed(),
            packet.header.is_media(),
        ensures
            self.on_packet(packet, options, now).well_formed(),
            (self.initialized && self.tracks(start)) || (!self.initialized && cursor_after(
                start,
                self.actions,
            ) is Some) ==> self.on_packet(packet, options, now).tracks(start),
            self.is_extended_by(self.on_packet(packet, options, now)),
            self.begun(packet).is_extended_by(self.on_packet(packet, options, now)),
    {
        let begun = self.begun(packet);
        let sequence = packet.header.sequence;
        let received = self.act(ActionModel::Received { bytes: packet.payload.len() as u64 });
        assert(received.actions.drop_last() =~= self.actions);
        if self.initialized {
            assert(begun.actions.drop_last() =~= received.actions);
        } else {
            let routed = received.actions.push(
                ActionModel::ReplyRoute { remote: packet.remote, reset: true },
            );
            assert(routed.drop_last() =~= received.actions);
            assert(begun.actions.drop_last() =~= routed);
            assert(cursor_after(start, routed) == cursor_after(start, received.actions));
        }
        assert(cursor_after(start, received.actions) == cursor_after(start, self.actions));
        assert(begun.well_formed()) by {
            assert forall|s: u64| #[trigger] begun.fragments.contains_key(s) implies s
                <= MAX_MEDIA_SEQUENCE && begun.assembly_is_valid(s) by {
                assert(self.fragments.contains_key(s));
                assert(self.assembly_is_valid(s));
            }
        }
        if sequence >= begun.next_seq {
            let joined = ReorderModel {
                restart: tracking::no_restart(),
                connections: begun.connections.insert(packet.connection_id),
                ..begun
            };
            assert(joined.well_formed()) by {
                assert forall|s: u64| #[trigger] joined.fragments.contains_key(s) implies s
                    <= MAX_MEDIA_SEQUENCE && joined.assembly_is_valid(s) by {
                    assert(begun.fragments.contains_key(s));
                    assert(begun.assembly_is_valid(s));
                }
            }
            joined.lemma_admitted(packet, options, now, start);
        } else {
            let restart = begun.restart.observed(sequence, begun.next_seq);
            let observed = if begun.connections.contains(packet.connection_id) {
                begun
            } else {
                ReorderModel { restart, ..begun }
            };
            assert(observed.well_formed()) by {
                assert forall|s: u64| #[trigger] observed.fragments.contains_key(s) implies s
                    <= MAX_MEDIA_SEQUENCE && observed.assembly_is_valid(s) by {
                    assert(begun.fragments.contains_key(s));
                    assert(begun.assembly_is_valid(s));
                }
            }
            let late = observed.dropped_late(sequence);
            assert(late.actions.drop_last() =~= observed.actions);
            assert(late.well_formed()) by {
                assert forall|s: u64| #[trigger] late.fragments.contains_key(s) implies s
                    <= MAX_MEDIA_SEQUENCE && late.assembly_is_valid(s) by {
                    assert(begun.fragments.contains_key(s));
                    assert(begun.assembly_is_valid(s));
                }
            }
            let restarted = observed.restarted(packet);
            let routed = observed.actions.push(
                ActionModel::ReplyRoute { remote: packet.remote, reset: true },
            );
            assert(routed.drop_last() =~= observed.actions);
            assert(restarted.actions.drop_last() =~= routed);
            assert(cursor_after(start, routed) == cursor_after(start, observed.actions));
            restarted.lemma_admitted(packet, options, now, start);
        }
    }

    pub proof fn lemma_on_fec(
        self,
        fec: FecModelFrame,
        options: ReorderOptions,
        now: u64,
        start: u64,
    )
        requires
            self.well_formed(),
            fec.frame.base_sequence <= MAX_MEDIA_SEQUENCE,
        ensures
            self.on_fec(fec, options, now).well_formed(),
            self.tracks(start) ==> self.on_fec(fec, options, now).tracks(start),
            self.is_extended_by(self.on_fec(fec, options, now)),
    {
        fec::lemma_with_frame(self.fec, fec.frame);
        let kept = ReorderModel { fec: self.fec.with_frame(fec.frame), ..self };
        assert(kept.well_formed()) by {
            assert forall|s: u64| #[trigger] kept.fragments.contains_key(s) implies s
                <= MAX_MEDIA_SEQUENCE && kept.assembly_is_valid(s) by {
                assert(self.fragments.contains_key(s));
                assert(self.assembly_is_valid(s));
            }
        }
        let routed = kept.act(ActionModel::ReplyRoute { remote: fec.remote, reset: false });
        assert(routed.actions.drop_last() =~= self.actions);
        assert(routed.well_formed()) by {
            assert forall|s: u64| #[trigger] routed.fragments.contains_key(s) implies s
                <= MAX_MEDIA_SEQUENCE && routed.assembly_is_valid(s) by {
                assert(self.fragments.contains_key(s));
                assert(self.assembly_is_valid(s));
            }
        }
        routed.lemma_recovered_all(now, start);
        routed.recovered_all(now).lemma_advanced(options, now, start);
    }
}

/// The sequence number that is due after these actions, if it was `start` before them; none if a
/// sequence number was forwarded or skipped out of turn.
pub open spec fn cursor_after(start: u64, actions: Seq<ActionModel>) -> Option<u64>
    decreases actions.len(),
{
    if actions.len() == 0 {
        Some(start)
    } else {
        match cursor_after(start, actions.drop_last()) {
            None => None,
            Some(cursor) => match actions.last() {
                ActionModel::Forward { sequence, .. } => if sequence == cursor {
                    Some(sequence::following(cursor))
                } else {
                    None
                },
                ActionModel::Skipped { sequence, .. } => if sequence == cursor {
                    Some(sequence::following(cursor))
                } else {
                    None
                },
                ActionModel::FlowStart { next_seq } => Some(next_seq),
                ActionModel::FlowReset { next_seq } => Some(next_seq),
                _ => Some(cursor),
            },
        }
    }
}

} // verus!
