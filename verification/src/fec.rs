//! Parity frames over groups of packets: the sender's encoder, and the receiver's recovery of a
//! packet that was lost.

use crate::buffers;
use crate::ordered;
use crate::ordered::{evict, NumberMap};
use crate::protocol;
use crate::protocol::{
    encode_fec_frame, FecFrame, FecFrameView, MAX_FEC_GROUP_PACKETS, MAX_MEDIA_SEQUENCE,
};
use crate::receive::{BufferedModel, BufferedPacket};
use crate::sequence;
use crate::sequence::sequence_after;
use bytes::Bytes;
use std::collections::VecDeque;
use vstd::prelude::*;

verus! {

/// How many parity frames the receiver keeps.
pub const FEC_FRAME_TRACK_LIMIT: usize = 256;

/// How many payloads the receiver keeps for recovery.
pub const FEC_PAYLOAD_TRACK_LIMIT: usize = 4_096;

/// The bytes of `base`, each combined by exclusive or with the byte of `data` at its place, as far
/// as `data` reaches.
pub open spec fn combined(base: Seq<u8>, data: Seq<u8>) -> Seq<u8> {
    Seq::new(
        base.len(),
        |i: int|
            if i < data.len() {
                base[i] ^ data[i]
            } else {
                base[i]
            },
    )
}

/// The length of the longest payload.
pub open spec fn widest(payloads: Seq<Seq<u8>>) -> nat
    decreases payloads.len(),
{
    if payloads.len() == 0 {
        0
    } else {
        let before = widest(payloads.drop_last());
        if payloads.last().len() > before {
            payloads.last().len()
        } else {
            before
        }
    }
}

/// The exclusive or of the payloads, each padded with zeros to `width`.
pub open spec fn parity_of(payloads: Seq<Seq<u8>>, width: nat) -> Seq<u8>
    decreases payloads.len(),
{
    if payloads.len() == 0 {
        Seq::new(width, |i: int| 0u8)
    } else {
        combined(parity_of(payloads.drop_last(), width), payloads.last())
    }
}

/// A packet of a group: its sequence number and its payload.
pub type SourceModel = (u64, Seq<u8>);

/// The payloads of a group.
pub open spec fn group_payloads(group: Seq<SourceModel>) -> Seq<Seq<u8>> {
    group.map_values(|packet: SourceModel| packet.1)
}

/// The parity frame of a group.
pub open spec fn group_frame(group: Seq<SourceModel>) -> FecFrameView {
    FecFrameView {
        base_sequence: group[0].0,
        payload_lengths: group.map_values(|packet: SourceModel| packet.1.len() as usize),
        parity: parity_of(group_payloads(group), widest(group_payloads(group))),
    }
}

/// The packet that carries the parity frame of a group. A group without a single byte has none.
pub open spec fn group_packet(group: Seq<SourceModel>) -> Option<Seq<u8>> {
    if widest(group_payloads(group)) == 0 {
        None
    } else {
        Some(protocol::fec_frame_bytes(group_frame(group)))
    }
}

/// Every payload is at most as long as the longest, and one of them is as long.
pub proof fn lemma_widest(payloads: Seq<Seq<u8>>)
    ensures
        forall|i: int| 0 <= i < payloads.len() ==> (#[trigger] payloads[i]).len() <= widest(payloads),
        payloads.len() > 0 ==> exists|i: int|
            0 <= i < payloads.len() && (#[trigger] payloads[i]).len() == widest(payloads),
        payloads.len() == 0 ==> widest(payloads) == 0,
    decreases payloads.len(),
{
    if payloads.len() > 0 {
        let shorter = payloads.drop_last();
        lemma_widest(shorter);
        assert forall|i: int| 0 <= i < payloads.len() implies (#[trigger] payloads[i]).len()
            <= widest(payloads) by {
            if i < shorter.len() {
                assert(shorter[i].len() <= widest(shorter));
            }
        }
        if payloads.last().len() > widest(shorter) || shorter.len() == 0 {
            assert(payloads[payloads.len() - 1].len() == widest(payloads));
        } else {
            let i = choose|i: int|
                0 <= i < shorter.len() && (#[trigger] shorter[i]).len() == widest(shorter);
            assert(payloads[i].len() == widest(payloads));
        }
    }
}

/// The parity is as wide as it was asked to be.
pub proof fn lemma_parity_width(payloads: Seq<Seq<u8>>, width: nat)
    ensures
        parity_of(payloads, width).len() == width,
    decreases payloads.len(),
{
    if payloads.len() > 0 {
        lemma_parity_width(payloads.drop_last(), width);
    }
}

/// Combines the bytes of `data` into those of `base`.
fn combine(base: &mut Vec<u8>, data: &[u8])
    requires
        data@.len() <= old(base)@.len(),
    ensures
        final(base)@ == combined(old(base)@, data@),
{
    for i in 0..data.len()
        invariant
            base@.len() == old(base)@.len(),
            data@.len() <= base@.len(),
            forall|j: int|
                0 <= j < base@.len() ==> #[trigger] base@[j] == (if j < i {
                    old(base)@[j] ^ data@[j]
                } else {
                    old(base)@[j]
                }),
    {
        let byte: u8 = base[i] ^ data[i];
        base.set(i, byte);
    }
    assert(base@ =~= combined(old(base)@, data@));
}

/// Why a group size is refused.
#[derive(Debug, Clone, Copy, PartialEq, Eq)]
pub enum FecGroupError {
    TooFew,
    TooMany,
}

impl FecGroupError {
    /// The text of the error.
    pub open spec fn message(self) -> Seq<char> {
        match self {
            FecGroupError::TooFew => "--fec-group-packets must be 0 or at least 2"@,
            FecGroupError::TooMany => "--fec-group-packets must be <= 32"@,
        }
    }

    pub fn to_string(&self) -> (text: String)
        ensures
            text@ == self.message(),
    {
        match self {
            FecGroupError::TooFew => "--fec-group-packets must be 0 or at least 2".to_owned(),
            FecGroupError::TooMany => "--fec-group-packets must be <= 32".to_owned(),
        }
    }
}

/// A packet that waits for its group to fill.
#[derive(Debug)]
pub struct FecSourcePacket {
    sequence: u64,
    payload: Vec<u8>,
}

impl View for FecSourcePacket {
    type V = SourceModel;

    closed spec fn view(&self) -> SourceModel {
        (self.sequence, self.payload@)
    }
}

/// Gathers packets into groups and makes the parity frame of each.
pub struct FecEncoder {
    group_size: Option<usize>,
    packets: Vec<FecSourcePacket>,
}

impl FecEncoder {
    /// The number of packets in a group; none if parity frames are off.
    pub closed spec fn group_size(self) -> Option<usize> {
        self.group_size
    }

    /// The packets of the group that is being filled.
    pub closed spec fn group(self) -> Seq<SourceModel> {
        self.packets@.map_values(|packet: FecSourcePacket| packet@)
    }

    /// The group is not full yet, and what it holds can be encoded.
    pub open spec fn well_formed(self) -> bool {
        &&& self.group_size() matches Some(size) ==> 2 <= size <= MAX_FEC_GROUP_PACKETS
            && self.group().len() < size
        &&& self.group_size() is None ==> self.group().len() == 0
        &&& forall|i: int|
            0 <= i < self.group().len() ==> (#[trigger] self.group()[i]).0 <= MAX_MEDIA_SEQUENCE
                && self.group()[i].1.len() <= 0xffff
    }

    pub fn new(group_size: usize) -> (result: Result<FecEncoder, FecGroupError>)
        ensures
            match result {
                Ok(encoder) => {
                    &&& group_size != 1 && group_size <= MAX_FEC_GROUP_PACKETS
                    &&& encoder.well_formed()
                    &&& encoder.group() == Seq::<SourceModel>::empty()
                    &&& encoder.group_size() == (if group_size == 0 {
                        None::<usize>
                    } else {
                        Some(group_size)
                    })
                },
                Err(FecGroupError::TooFew) => group_size == 1,
                Err(FecGroupError::TooMany) => group_size > MAX_FEC_GROUP_PACKETS,
            },
    {
        let size: Option<usize> = if group_size == 0 {
            None
        } else if group_size == 1 {
            return Err(FecGroupError::TooFew);
        } else if group_size > MAX_FEC_GROUP_PACKETS {
            return Err(FecGroupError::TooMany);
        } else {
            Some(group_size)
        };
        let encoder = FecEncoder { group_size: size, packets: Vec::new() };
        assert(encoder.group() =~= Seq::<SourceModel>::empty());
        Ok(encoder)
    }

    /// Adds a packet to the group. The packet that fills the group gives its parity frame, encoded
    /// for sending; a payload too long for a frame is left out.
    pub fn record(&mut self, sequence: u64, payload: &[u8]) -> (frame: Option<Bytes>)
        requires
            old(self).well_formed(),
            sequence <= MAX_MEDIA_SEQUENCE,
        ensures
            final(self).well_formed(),
            final(self).group_size() == old(self).group_size(),
            ({
                let group = old(self).group().push((sequence, payload@));
                if old(self).group_size() is None || payload@.len() > 0xffff {
                    frame is None && final(self).group() == old(self).group()
                } else if group.len() < old(self).group_size()->0 {
                    frame is None && final(self).group() == group
                } else {
                    &&& final(self).group() == Seq::<SourceModel>::empty()
                    &&& (frame is Some <==> group_packet(group) is Some)
                    &&& (frame matches Some(packet) ==> buffers::contents(packet) == group_packet(
                        group,
                    )->0)
                }
            }),
    {
        let group_size: usize = match self.group_size {
            Some(size) => size,
            None => {
                return None;
            },
        };
        if payload.len() > 0xffff {
            return None;
        }
        let ghost before = self.group();
        self.packets.push(
            FecSourcePacket { sequence, payload: vstd::slice::slice_to_vec(payload) },
        );
        assert(self.group() =~= before.push((sequence, payload@)));
        assert forall|i: int| 0 <= i < self.group().len() implies (#[trigger] self.group()[i]).0
            <= MAX_MEDIA_SEQUENCE && self.group()[i].1.len() <= 0xffff by {
            if i < before.len() {
                assert(self.group()[i] == before[i]);
            }
        }
        if self.packets.len() == group_size {
            self.flush()
        } else {
            None
        }
    }

    /// Ends the group, full or not, and gives its parity frame, encoded for sending.
    pub fn flush(&mut self) -> (frame: Option<Bytes>)
        requires
            old(self).group().len() <= MAX_FEC_GROUP_PACKETS,
            forall|i: int|
                0 <= i < old(self).group().len() ==> (#[trigger] old(self).group()[i]).0
                    <= MAX_MEDIA_SEQUENCE && old(self).group()[i].1.len() <= 0xffff,
        ensures
            final(self).group_size() == old(self).group_size(),
            final(self).group() == Seq::<SourceModel>::empty(),
            frame is Some <==> group_packet(old(self).group()) is Some,
            frame matches Some(packet) ==> buffers::contents(packet) == group_packet(
                old(self).group(),
            )->0,
    {
        let ghost group = self.group();
        let ghost payloads = group_payloads(group);
        let mut width: usize = 0;
        for i in 0..self.packets.len()
            invariant
                payloads == group_payloads(self.group()),
                width == widest(payloads.take(i as int)),
        {
            assert(payloads.take(i + 1).drop_last() =~= payloads.take(i as int));
            assert(payloads.take(i + 1).last() == self.packets@[i as int].payload@);
            let length: usize = self.packets[i].payload.len();
            if length > width {
                width = length;
            }
        }
        assert(payloads.take(payloads.len() as int) =~= payloads);
        if width == 0 {
            self.packets.clear();
            assert(self.group() =~= Seq::<SourceModel>::empty());
            return None;
        }
        proof {
            lemma_widest(payloads);
            let i = choose|i: int|
                0 <= i < payloads.len() && (#[trigger] payloads[i]).len() == widest(payloads);
            assert(group[i].1 == payloads[i]);
            assert(width <= 0xffff);
        }
        let mut parity: Vec<u8> = Vec::new();
        for i in 0..width
            invariant
                parity@ == Seq::new(i as nat, |j: int| 0u8),
        {
            parity.push(0);
            assert(parity@ =~= Seq::new((i + 1) as nat, |j: int| 0u8));
        }
        let mut payload_lengths: Vec<usize> = Vec::new();
        assert(payloads.take(0) =~= Seq::empty());
        for i in 0..self.packets.len()
            invariant
                group == self.group(),
                payloads == group_payloads(group),
                width == widest(payloads),
                parity@ == parity_of(payloads.take(i as int), width as nat),
                payload_lengths@ == group.map_values(
                    |packet: SourceModel| packet.1.len() as usize,
                ).take(i as int),
        {
            proof {
                lemma_widest(payloads);
                lemma_parity_width(payloads.take(i as int), width as nat);
                assert(payloads.take(i + 1).drop_last() =~= payloads.take(i as int));
                assert(payloads[i as int] == self.packets@[i as int].payload@);
            }
            payload_lengths.push(self.packets[i].payload.len());
            assert(payload_lengths@ =~= group.map_values(
                |packet: SourceModel| packet.1.len() as usize,
            ).take(i + 1));
            combine(&mut parity, self.packets[i].payload.as_slice());
        }
        assert(payload_lengths@ =~= group.map_values(
            |packet: SourceModel| packet.1.len() as usize,
        ));
        let frame = FecFrame {
            base_sequence: self.packets[0].sequence,
            payload_lengths,
            parity: buffers::bytes_from_vec(parity),
        };
        proof {
            lemma_widest(payloads);
            lemma_parity_width(payloads, width as nat);
            assert(frame@ =~= group_frame(group));
            assert(frame@.encodable()) by {
                assert(frame@.base_sequence == group[0].0);
                assert forall|i: int|
                    0 <= i < frame@.payload_lengths.len() implies #[trigger] frame@.payload_lengths[i]
                    <= 0xffff && frame@.payload_lengths[i] <= frame@.parity.len() by {
                    assert(frame@.payload_lengths[i] == group[i].1.len() as usize);
                    assert(payloads[i] == group[i].1);
                }
            }
        }
        let packet = encode_fec_frame(&frame);
        self.packets.clear();
        assert(self.group() =~= Seq::<SourceModel>::empty());
        Some(packet)
    }
}

/// What the payloads at hand say of a group: its frame contradicts them, more than one payload is
/// missing, none is missing, or one is missing and is recovered.
#[derive(Debug)]
#[verifier::ext_equal]
pub enum GroupScan<P> {
    Unusable,
    Waiting,
    Whole,
    Missing { sequence: u64, payload: P },
}

/// The payload of a sequence number, if it is kept for recovery or waits for its turn.
pub open spec fn known_payload(
    payloads: Map<u64, Seq<u8>>,
    buffered: Map<u64, BufferedModel>,
    sequence: u64,
) -> Option<Seq<u8>> {
    if payloads.contains_key(sequence) {
        Some(payloads[sequence])
    } else if buffered.contains_key(sequence) {
        Some(buffered[sequence].payload)
    } else {
        None
    }
}

/// The scan of a group from the packet at `index` on. The known payloads before it have been
/// combined into `parity`, and `missing` is the one that was not known.
pub open spec fn scan_from(
    frame: FecFrameView,
    payloads: Map<u64, Seq<u8>>,
    buffered: Map<u64, BufferedModel>,
    index: int,
    parity: Seq<u8>,
    missing: Option<(u64, usize)>,
) -> GroupScan<Seq<u8>>
    decreases frame.payload_lengths.len() - index,
{
    if index < 0 || index >= frame.payload_lengths.len() {
        match missing {
            Some((sequence, length)) => GroupScan::Missing {
                sequence,
                payload: parity.take(length as int),
            },
            None => GroupScan::Whole,
        }
    } else {
        let length = frame.payload_lengths[index];
        let sequence = sequence::following_by(frame.base_sequence, index as nat);
        if length > parity.len() {
            GroupScan::Unusable
        } else {
            match known_payload(payloads, buffered, sequence) {
                Some(payload) => if payload.len() != length {
                    GroupScan::Unusable
                } else {
                    scan_from(
                        frame,
                        payloads,
                        buffered,
                        index + 1,
                        combined(parity, payload),
                        missing,
                    )
                },
                None => if missing is None {
                    scan_from(
                        frame,
                        payloads,
                        buffered,
                        index + 1,
                        parity,
                        Some((sequence, length)),
                    )
                } else {
                    GroupScan::Waiting
                },
            }
        }
    }
}

/// What the payloads at hand say of a group.
pub open spec fn scan(
    frame: FecFrameView,
    payloads: Map<u64, Seq<u8>>,
    buffered: Map<u64, BufferedModel>,
) -> GroupScan<Seq<u8>> {
    scan_from(frame, payloads, buffered, 0, frame.parity, None)
}

/// The parity frames and the payloads that the receiver keeps, each with the order in which they
/// came.
#[verifier::ext_equal]
pub struct FecModel {
    pub frames: Map<u64, FecFrameView>,
    pub frame_order: Seq<u64>,
    pub payloads: Map<u64, Seq<u8>>,
    pub payload_order: Seq<u64>,
}

/// Nothing is kept.
pub open spec fn no_fec() -> FecModel {
    FecModel {
        frames: Map::empty(),
        frame_order: Seq::empty(),
        payloads: Map::empty(),
        payload_order: Seq::empty(),
    }
}

impl FecModel {
    /// A frame takes the place of the one with the same base; the frames that came first make
    /// room.
    pub open spec fn with_frame(self, frame: FecFrameView) -> FecModel {
        let base = frame.base_sequence;
        let order = if self.frames.contains_key(base) {
            self.frame_order
        } else {
            self.frame_order.push(base)
        };
        let (frames, frame_order) = ordered::evicted(
            self.frames.insert(base, frame),
            order,
            FEC_FRAME_TRACK_LIMIT as nat,
        );
        FecModel { frames, frame_order, ..self }
    }

    /// The first payload of a media sequence number is kept; the payloads that came first make
    /// room.
    pub open spec fn with_payload(self, sequence: u64, payload: Seq<u8>) -> FecModel {
        if sequence > MAX_MEDIA_SEQUENCE || self.payloads.contains_key(sequence) {
            self
        } else {
            let (payloads, payload_order) = ordered::evicted(
                self.payloads.insert(sequence, payload),
                self.payload_order.push(sequence),
                FEC_PAYLOAD_TRACK_LIMIT as nat,
            );
            FecModel { payloads, payload_order, ..self }
        }
    }

    /// The frames of which more than one payload is missing: no other frame is of further use.
    pub open spec fn waiting_frames(self, buffered: Map<u64, BufferedModel>) -> Map<
        u64,
        FecFrameView,
    > {
        self.frames.restrict(
            Set::new(
                |base: u64|
                    self.frames.contains_key(base) && scan(
                        self.frames[base],
                        self.payloads,
                        buffered,
                    ) is Waiting,
            ),
        )
    }

    /// The payloads that the frames with these bases recover, without those before `next_seq`.
    pub open spec fn recovered(
        self,
        buffered: Map<u64, BufferedModel>,
        next_seq: u64,
        bases: Seq<u64>,
    ) -> Seq<SourceModel>
        decreases bases.len(),
    {
        if bases.len() == 0 {
            Seq::empty()
        } else {
            let before = self.recovered(buffered, next_seq, bases.drop_last());
            match scan(self.frames[bases.last()], self.payloads, buffered) {
                GroupScan::Missing { sequence, payload } => if sequence >= next_seq {
                    before.push((sequence, payload))
                } else {
                    before
                },
                _ => before,
            }
        }
    }
}

/// What is kept once payloads have been recovered: only the frames of which more than one payload
/// is missing.
pub open spec fn after_recovery(state: FecModel, buffered: Map<u64, BufferedModel>) -> FecModel {
    FecModel { frames: state.waiting_frames(buffered), ..state }
}

/// The payloads that the frames recover, in the order of the frames' bases, without those before
/// `next_seq`.
pub open spec fn recovery(
    state: FecModel,
    buffered: Map<u64, BufferedModel>,
    next_seq: u64,
) -> Seq<SourceModel> {
    state.recovered(buffered, next_seq, ordered::ascending(state.frames.dom()))
}

/// The parity frames and the payloads that the receiver keeps.
pub struct FecState {
    frames: NumberMap<FecFrame>,
    frame_order: VecDeque<u64>,
    payloads: NumberMap<Vec<u8>>,
    payload_order: VecDeque<u64>,
}

impl View for FecState {
    type V = FecModel;

    closed spec fn view(&self) -> FecModel {
        FecModel {
            frames: self.frames@,
            frame_order: self.frame_order@,
            payloads: self.payloads@,
            payload_order: self.payload_order@,
        }
    }
}

/// The recovered payloads that a list holds.
pub open spec fn source_models(list: Seq<(u64, Vec<u8>)>) -> Seq<SourceModel> {
    list.map_values(|entry: (u64, Vec<u8>)| (entry.0, entry.1@))
}

/// What a scan found.
pub open spec fn scan_model(found: GroupScan<Vec<u8>>) -> GroupScan<Seq<u8>> {
    match found {
        GroupScan::Unusable => GroupScan::Unusable,
        GroupScan::Waiting => GroupScan::Waiting,
        GroupScan::Whole => GroupScan::Whole,
        GroupScan::Missing { sequence, payload } => GroupScan::Missing {
            sequence,
            payload: payload@,
        },
    }
}

impl FecModel {
    /// Every frame starts at a media sequence number, and no more frames and payloads are kept
    /// than there is room for.
    pub open spec fn well_formed(self) -> bool {
        &&& forall|base: u64| #[trigger]
            self.frames.contains_key(base) ==> self.frames[base].base_sequence
                <= MAX_MEDIA_SEQUENCE
        &&& ordered::is_listed(self.frames, self.frame_order)
        &&& ordered::is_listed(self.payloads, self.payload_order)
        &&& self.frames.dom().len() <= FEC_FRAME_TRACK_LIMIT
        &&& self.payloads.dom().len() <= FEC_PAYLOAD_TRACK_LIMIT
    }
}

/// The keys of a map are in an order once one more is entered into both.
proof fn lemma_listed_push<V>(map: Map<u64, V>, order: Seq<u64>, key: u64, value: V)
    requires
        ordered::is_listed(map, order),
    ensures
        ordered::is_listed(map.insert(key, value), order.push(key)),
        map.contains_key(key) ==> ordered::is_listed(map.insert(key, value), order),
{
    assert forall|other: u64| #[trigger] map.insert(key, value).contains_key(other) implies order.push(
        key,
    ).contains(other) && (map.contains_key(key) ==> order.contains(other)) by {
        let longer = order.push(key);
        assert(longer[order.len() as int] == key);
        if other != key {
            assert(map.contains_key(other));
            let i = choose|i: int| 0 <= i < order.len() && order[i] == other;
            assert(longer[i] == other);
        }
    }
}

/// A frame more keeps within the limits.
pub proof fn lemma_with_frame(state: FecModel, frame: FecFrameView)
    requires
        state.well_formed(),
        frame.base_sequence <= MAX_MEDIA_SEQUENCE,
    ensures
        state.with_frame(frame).well_formed(),
{
    let base = frame.base_sequence;
    let order = if state.frames.contains_key(base) {
        state.frame_order
    } else {
        state.frame_order.push(base)
    };
    let all = state.frames.insert(base, frame);
    let limit = FEC_FRAME_TRACK_LIMIT as nat;
    lemma_listed_push(state.frames, state.frame_order, base, frame);
    ordered::lemma_evicted_is_bounded(all, order, limit);
    ordered::lemma_evicted_is_smaller(all, order, limit);
    let after = state.with_frame(frame);
    assert forall|key: u64| #[trigger] after.frames.contains_key(key) implies after.frames[key].base_sequence
        <= MAX_MEDIA_SEQUENCE by {
        assert(ordered::evicted(all, order, limit).0.contains_key(key));
        if key != base {
            assert(state.frames.contains_key(key));
        }
    }
}

/// A payload more keeps within the limits.
pub proof fn lemma_with_payload(state: FecModel, sequence: u64, payload: Seq<u8>)
    requires
        state.well_formed(),
    ensures
        state.with_payload(sequence, payload).well_formed(),
        state.with_payload(sequence, payload).frames == state.frames,
{
    lemma_listed_push(state.payloads, state.payload_order, sequence, payload);
    ordered::lemma_evicted_is_bounded(
        state.payloads.insert(sequence, payload),
        state.payload_order.push(sequence),
        FEC_PAYLOAD_TRACK_LIMIT as nat,
    );
    assert(state.with_payload(sequence, payload).frames == state.frames);
}

/// Dropping frames keeps within the limits.
pub proof fn lemma_waiting_frames(state: FecModel, buffered: Map<u64, BufferedModel>)
    requires
        state.well_formed(),
    ensures
        (FecModel { frames: state.waiting_frames(buffered), ..state }).well_formed(),
        state.waiting_frames(buffered).dom().subset_of(state.frames.dom()),
        state.waiting_frames(buffered).dom().len() <= state.frames.dom().len(),
{
    let kept = state.waiting_frames(buffered);
    assert(kept.dom().subset_of(state.frames.dom()));
    vstd::set_lib::lemma_len_subset(kept.dom(), state.frames.dom());
    assert forall|key: u64| #[trigger] kept.contains_key(key) implies state.frame_order.contains(
        key,
    ) && kept[key] == state.frames[key] by {
        assert(state.frames.contains_key(key));
    }
}

/// What frames recover has a media sequence number, and comes from a frame that is not waiting.
pub proof fn lemma_recovered(
    state: FecModel,
    buffered: Map<u64, BufferedModel>,
    next_seq: u64,
    bases: Seq<u64>,
)
    requires
        state.well_formed(),
        forall|i: int| 0 <= i < bases.len() ==> state.frames.contains_key(#[trigger] bases[i]),
    ensures
        forall|i: int|
            0 <= i < state.recovered(buffered, next_seq, bases).len() ==> (
            #[trigger] state.recovered(buffered, next_seq, bases)[i]).0 <= MAX_MEDIA_SEQUENCE,
        state.recovered(buffered, next_seq, bases).len() > 0 ==> exists|base: u64| #[trigger]
            bases.contains(base) && !(scan(state.frames[base], state.payloads, buffered)
                is Waiting),
    decreases bases.len(),
{
    if bases.len() > 0 {
        let shorter = bases.drop_last();
        assert forall|i: int| 0 <= i < shorter.len() implies state.frames.contains_key(
            #[trigger] shorter[i],
        ) by {
            assert(bases[i] == shorter[i]);
        }
        lemma_recovered(state, buffered, next_seq, shorter);
        let base = bases.last();
        assert(state.frames.contains_key(bases[bases.len() - 1]));
        let frame = state.frames[base];
        lemma_scan_sequence(frame, state.payloads, buffered, 0, frame.parity, None);
        let before = state.recovered(buffered, next_seq, shorter);
        let all = state.recovered(buffered, next_seq, bases);
        assert forall|i: int| 0 <= i < all.len() implies (#[trigger] all[i]).0
            <= MAX_MEDIA_SEQUENCE by {
            if i < before.len() {
                assert(before[i].0 <= MAX_MEDIA_SEQUENCE);
            }
        }
        if all.len() > 0 {
            if before.len() > 0 {
                let other = choose|other: u64| #[trigger]
                    shorter.contains(other) && !(scan(
                        state.frames[other],
                        state.payloads,
                        buffered,
                    ) is Waiting);
                let i = choose|i: int| 0 <= i < shorter.len() && shorter[i] == other;
                assert(bases[i] == other);
                assert(bases.contains(other));
            } else {
                assert(bases.contains(base));
            }
        }
    }
}

/// The sequence number that a scan finds missing is that of a media packet.
proof fn lemma_scan_sequence(
    frame: FecFrameView,
    payloads: Map<u64, Seq<u8>>,
    buffered: Map<u64, BufferedModel>,
    index: int,
    parity: Seq<u8>,
    missing: Option<(u64, usize)>,
)
    requires
        frame.base_sequence <= MAX_MEDIA_SEQUENCE,
        missing matches Some(gap) ==> gap.0 <= MAX_MEDIA_SEQUENCE,
    ensures
        scan_from(frame, payloads, buffered, index, parity, missing) matches GroupScan::Missing {
            sequence,
            ..
        } ==> sequence <= MAX_MEDIA_SEQUENCE,
    decreases frame.payload_lengths.len() - index,
{
    if 0 <= index < frame.payload_lengths.len() {
        let length = frame.payload_lengths[index];
        let sequence = sequence::following_by(frame.base_sequence, index as nat);
        sequence::law_sequence_wraps(frame.base_sequence, index as nat);
        match known_payload(payloads, buffered, sequence) {
            Some(payload) => lemma_scan_sequence(
                frame,
                payloads,
                buffered,
                index + 1,
                combined(parity, payload),
                missing,
            ),
            None => lemma_scan_sequence(
                frame,
                payloads,
                buffered,
                index + 1,
                parity,
                Some((sequence, length)),
            ),
        }
    }
}

impl FecState {
    pub fn new() -> (state: FecState)
        ensures
            state@ == no_fec(),
            state@.well_formed(),
    {
        FecState {
            frames: NumberMap::new(),
            frame_order: VecDeque::new(),
            payloads: NumberMap::new(),
            payload_order: VecDeque::new(),
        }
    }

    pub fn clear(&mut self)
        ensures
            final(self)@ == no_fec(),
            final(self)@.well_formed(),
    {
        self.frames.clear();
        self.frame_order.clear();
        self.payloads.clear();
        self.payload_order.clear();
    }

    pub fn insert_frame(&mut self, frame: FecFrame)
        requires
            old(self)@.well_formed(),
            frame@.base_sequence <= MAX_MEDIA_SEQUENCE,
        ensures
            final(self)@.well_formed(),
            final(self)@ == old(self)@.with_frame(frame@),
    {
        proof {
            lemma_with_frame(self@, frame@);
        }
        let base_sequence: u64 = frame.base_sequence;
        if !self.frames.contains_key(base_sequence) {
            self.frame_order.push_back(base_sequence);
        }
        self.frames.insert(base_sequence, frame);
        evict(&mut self.frames, &mut self.frame_order, FEC_FRAME_TRACK_LIMIT);
    }

    pub fn insert_payload(&mut self, sequence: u64, payload: Vec<u8>)
        requires
            old(self)@.well_formed(),
        ensures
            final(self)@.well_formed(),
            final(self)@ == old(self)@.with_payload(sequence, payload@),
    {
        proof {
            lemma_with_payload(self@, sequence, payload@);
        }
        if sequence > MAX_MEDIA_SEQUENCE || self.payloads.contains_key(sequence) {
            return;
        }
        self.payload_order.push_back(sequence);
        self.payloads.insert(sequence, payload);
        evict(&mut self.payloads, &mut self.payload_order, FEC_PAYLOAD_TRACK_LIMIT);
    }

    /// The payload of a sequence number, if it is kept for recovery or waits for its turn.
    pub fn payload_for<'a>(
        &'a self,
        sequence: u64,
        buffered: &'a NumberMap<BufferedPacket>,
    ) -> (payload: Option<&'a [u8]>)
        ensures
            payload is Some <==> known_payload(self@.payloads, buffered@, sequence) is Some,
            payload matches Some(found) ==> found@ == known_payload(
                self@.payloads,
                buffered@,
                sequence,
            )->0,
    {
        match self.payloads.get(sequence) {
            Some(payload) => Some(payload.as_slice()),
            None => match buffered.get(sequence) {
                Some(packet) => Some(packet.payload.as_slice()),
                None => None,
            },
        }
    }

    /// What the payloads at hand say of a group.
    pub fn scan_group(&self, frame: &FecFrame, buffered: &NumberMap<BufferedPacket>) -> (found:
        GroupScan<Vec<u8>>)
        requires
            frame@.base_sequence <= MAX_MEDIA_SEQUENCE,
        ensures
            scan_model(found) == scan(frame@, self@.payloads, buffered@),
    {
        let mut parity = vstd::slice::slice_to_vec(buffers::bytes_slice(&frame.parity));
        let mut missing: Option<(u64, usize)> = None;
        for index in 0..frame.payload_lengths.len()
            invariant
                frame@.base_sequence <= MAX_MEDIA_SEQUENCE,
                parity@.len() == frame@.parity.len(),
                missing matches Some(gap) ==> gap.1 <= parity@.len(),
                scan(frame@, self@.payloads, buffered@) == scan_from(
                    frame@,
                    self@.payloads,
                    buffered@,
                    index as int,
                    parity@,
                    missing,
                ),
        {
            let expected_len: usize = frame.payload_lengths[index];
            let sequence: u64 = sequence_after(frame.base_sequence, index);
            if expected_len > parity.len() {
                return GroupScan::Unusable;
            }
            match self.payload_for(sequence, buffered) {
                Some(payload) => {
                    if payload.len() != expected_len || payload.len() > parity.len() {
                        return GroupScan::Unusable;
                    }
                    combine(&mut parity, payload);
                },
                None => {
                    if missing.is_some() {
                        return GroupScan::Waiting;
                    }
                    missing = Some((sequence, expected_len));
                },
            }
        }
        match missing {
            Some((sequence, length)) => {
                parity.truncate(length);
                GroupScan::Missing { sequence, payload: parity }
            },
            None => GroupScan::Whole,
        }
    }

    /// The payloads that the frames recover, in the order of the frames' bases. Only the frames of
    /// which more than one payload is missing stay.
    pub fn recover_ready(&mut self, next_seq: u64, buffered: &NumberMap<BufferedPacket>) -> (list:
        Vec<(u64, Vec<u8>)>)
        requires
            old(self)@.well_formed(),
        ensures
            final(self)@.well_formed(),
            final(self)@ == after_recovery(old(self)@, buffered@),
            source_models(list@) == recovery(old(self)@, buffered@, next_seq),
    {
        let ghost before = self@;
        let bases = self.frames.keys();
        let mut recovered: Vec<(u64, Vec<u8>)> = Vec::new();
        assert(bases@.take(0) =~= Seq::empty());
        assert(source_models(recovered@) =~= Seq::empty());
        for i in 0..bases.len()
            invariant
                before.well_formed(),
                ordered::is_ascending(bases@),
                bases@.to_set() == before.frames.dom(),
                self@ == (FecModel { frames: self@.frames, ..before }),
                forall|base: u64| #[trigger]
                    self@.frames.contains_key(base) <==> before.frames.contains_key(base) && (
                    !bases@.take(i as int).contains(base) || scan(
                        before.frames[base],
                        before.payloads,
                        buffered@,
                    ) is Waiting),
                forall|base: u64| #[trigger]
                    self@.frames.contains_key(base) ==> self@.frames[base] == before.frames[base],
                source_models(recovered@) == before.recovered(
                    buffered@,
                    next_seq,
                    bases@.take(i as int),
                ),
        {
            let base: u64 = bases[i];
            let ghost earlier = bases@.take(i as int);
            let ghost later = bases@.take(i + 1);
            let ghost known = recovered@;
            proof {
                assert(later.drop_last() =~= earlier);
                assert(later.last() == base);
                assert(bases@.to_set().contains(base)) by {
                    assert(bases@.contains(base));
                }
                assert(!earlier.contains(base)) by {
                    if earlier.contains(base) {
                        let j = choose|j: int| 0 <= j < earlier.len() && earlier[j] == base;
                        assert(bases@[j] < bases@[i as int]);
                    }
                }
                assert forall|other: u64| #[trigger] later.contains(other) <==> earlier.contains(
                    other,
                ) || other == base by {
                    if earlier.contains(other) {
                        let j = choose|j: int| 0 <= j < earlier.len() && earlier[j] == other;
                        assert(later[j] == other);
                    }
                    if later.contains(other) && other != base {
                        let j = choose|j: int| 0 <= j < later.len() && later[j] == other;
                        assert(earlier[j] == other);
                    }
                    assert(later[later.len() - 1] == base);
                }
                assert(self@.frames.contains_key(base));
            }
            let found = match self.frames.get(base) {
                Some(frame) => self.scan_group(frame, buffered),
                None => GroupScan::Waiting,
            };
            match found {
                GroupScan::Unusable => {
                    self.frames.remove(base);
                },
                GroupScan::Waiting => {},
                GroupScan::Whole => {
                    self.frames.remove(base);
                },
                GroupScan::Missing { sequence, payload } => {
                    self.frames.remove(base);
                    if sequence >= next_seq {
                        recovered.push((sequence, payload));
                        assert(source_models(recovered@) =~= source_models(known).push(
                            (sequence, payload@),
                        ));
                    }
                },
            }
        }
        proof {
            assert(bases@.take(bases@.len() as int) =~= bases@);
            assert forall|base: u64| before.frames.contains_key(base) implies bases@.contains(
                base,
            ) by {
                assert(bases@.to_set().contains(base));
            }
            assert(self@.frames =~= before.waiting_frames(buffered@));
            lemma_waiting_frames(before, buffered@);
        }
        recovered
    }
}

/// The byte of a payload at a place, or zero beyond its end.
spec fn byte_at(payload: Seq<u8>, place: int) -> u8 {
    if 0 <= place < payload.len() {
        payload[place]
    } else {
        0
    }
}

/// The exclusive or of the bytes that the first `count` payloads have at a place, without the
/// payload at `skipped`.
spec fn column(payloads: Seq<Seq<u8>>, place: int, count: int, skipped: int) -> u8
    decreases count,
{
    if count <= 0 {
        0
    } else if count - 1 == skipped {
        column(payloads, place, count - 1, skipped)
    } else {
        column(payloads, place, count - 1, skipped) ^ byte_at(payloads[count - 1], place)
    }
}

/// Leaving a payload out of the exclusive or is to combine with it once more.
proof fn lemma_column_skips(payloads: Seq<Seq<u8>>, place: int, count: int, skipped: int)
    requires
        0 <= skipped,
    ensures
        count <= skipped ==> column(payloads, place, count, skipped) == column(
            payloads,
            place,
            count,
            -1,
        ),
        count > skipped ==> column(payloads, place, count, -1) == column(
            payloads,
            place,
            count,
            skipped,
        ) ^ byte_at(payloads[skipped], place),
    decreases count,
{
    if count > 0 {
        lemma_column_skips(payloads, place, count - 1, skipped);
        if count - 1 > skipped {
            let rest = column(payloads, place, count - 1, skipped);
            let lost = byte_at(payloads[skipped], place);
            let last = byte_at(payloads[count - 1], place);
            assert((rest ^ lost) ^ last == (rest ^ last) ^ lost) by (bit_vector);
        }
    }
}

/// The parity at a place is the exclusive or of the payloads there.
proof fn lemma_parity_column(payloads: Seq<Seq<u8>>, width: nat, place: int)
    requires
        0 <= place < width,
    ensures
        parity_of(payloads, width).len() == width,
        parity_of(payloads, width)[place] == column(payloads, place, payloads.len() as int, -1),
    decreases payloads.len(),
{
    lemma_parity_width(payloads, width);
    if payloads.len() > 0 {
        let shorter = payloads.drop_last();
        lemma_parity_column(shorter, width, place);
        lemma_parity_width(shorter, width);
        lemma_column_prefix(payloads, shorter, place, shorter.len() as int, -1);
        let before = parity_of(shorter, width)[place];
        assert(before ^ 0u8 == before) by (bit_vector);
    }
}

/// The exclusive or of the first payloads does not depend on those after them.
proof fn lemma_column_prefix(
    longer: Seq<Seq<u8>>,
    shorter: Seq<Seq<u8>>,
    place: int,
    count: int,
    skipped: int,
)
    requires
        count <= shorter.len() <= longer.len(),
        longer.take(shorter.len() as int) == shorter,
    ensures
        column(longer, place, count, skipped) == column(shorter, place, count, skipped),
    decreases count,
{
    if count > 0 {
        lemma_column_prefix(longer, shorter, place, count - 1, skipped);
        assert(longer.take(shorter.len() as int)[count - 1] == longer[count - 1]);
    }
}

/// The scan of a group with one payload lost, from any place on.
proof fn lemma_scan_single_loss(
    frame: FecFrameView,
    group: Seq<Seq<u8>>,
    lost: int,
    payloads: Map<u64, Seq<u8>>,
    buffered: Map<u64, BufferedModel>,
    index: int,
    parity: Seq<u8>,
    missing: Option<(u64, usize)>,
)
    requires
        0 <= lost < group.len(),
        0 <= index <= group.len(),
        frame.payload_lengths.len() == group.len(),
        forall|i: int|
            0 <= i < group.len() ==> #[trigger] frame.payload_lengths[i] == group[i].len()
                && group[i].len() <= frame.parity.len(),
        parity.len() == frame.parity.len(),
        forall|i: int|
            0 <= i < group.len() && i != lost ==> known_payload(
                payloads,
                buffered,
                #[trigger] sequence::following_by(frame.base_sequence, i as nat),
            ) == Some(group[i]),
        known_payload(
            payloads,
            buffered,
            sequence::following_by(frame.base_sequence, lost as nat),
        ) is None,
        missing == (if index > lost {
            Some(
                (
                    sequence::following_by(frame.base_sequence, lost as nat),
                    frame.payload_lengths[lost],
                ),
            )
        } else {
            None
        }),
        forall|place: int|
            0 <= place < parity.len() ==> #[trigger] parity[place] == column(
                group,
                place,
                group.len() as int,
                -1,
            ) ^ column(group, place, index, lost),
    ensures
        scan_from(frame, payloads, buffered, index, parity, missing) == (GroupScan::Missing {
            sequence: sequence::following_by(frame.base_sequence, lost as nat),
            payload: group[lost],
        }),
    decreases group.len() - index,
{
    if index == group.len() {
        let found = parity.take(group[lost].len() as int);
        assert(frame.payload_lengths[lost] == group[lost].len());
        assert forall|place: int| 0 <= place < found.len() implies found[place]
            == group[lost][place] by {
            lemma_column_skips(group, place, group.len() as int, lost);
            let rest = column(group, place, group.len() as int, lost);
            let byte = group[lost][place];
            assert((rest ^ byte) ^ rest == byte) by (bit_vector);
            assert(parity[place] == (rest ^ byte) ^ rest);
        }
        assert(found =~= group[lost]);
    } else {
        let length = frame.payload_lengths[index];
        assert(length == group[index].len());
        let sequence = sequence::following_by(frame.base_sequence, index as nat);
        if index == lost {
            assert(frame.payload_lengths[lost] == group[lost].len());
            lemma_scan_single_loss(
                frame,
                group,
                lost,
                payloads,
                buffered,
                index + 1,
                parity,
                Some((sequence, length)),
            );
        } else {
            let next = combined(parity, group[index]);
            assert(next.len() == frame.parity.len());
            assert forall|place: int| 0 <= place < next.len() implies #[trigger] next[place]
                == column(group, place, group.len() as int, -1) ^ column(
                group,
                place,
                index + 1,
                lost,
            ) by {
                let whole = column(group, place, group.len() as int, -1);
                let rest = column(group, place, index, lost);
                let byte = byte_at(group[index], place);
                assert(parity[place] == whole ^ rest);
                assert((whole ^ rest) ^ byte == whole ^ (rest ^ byte)) by (bit_vector);
                assert((whole ^ rest) ^ 0u8 == (whole ^ rest)) by (bit_vector);
            }
            lemma_scan_single_loss(
                frame,
                group,
                lost,
                payloads,
                buffered,
                index + 1,
                next,
                missing,
            );
        }
    }
}

/// A receiver that has the parity frame of a group of consecutive packets, and every payload of
/// the group but one, recovers that one: its sequence number and its payload.
pub proof fn law_single_loss_is_recovered(
    group: Seq<SourceModel>,
    lost: int,
    payloads: Map<u64, Seq<u8>>,
    buffered: Map<u64, BufferedModel>,
)
    requires
        0 <= lost < group.len(),
        forall|i: int|
            0 <= i < group.len() ==> (#[trigger] group[i]).0 == sequence::following_by(
                group[0].0,
                i as nat,
            ) && group[i].1.len() <= 0xffff,
        forall|i: int|
            0 <= i < group.len() && i != lost ==> known_payload(
                payloads,
                buffered,
                (#[trigger] group[i]).0,
            ) == Some(group[i].1),
        known_payload(payloads, buffered, group[lost].0) is None,
    ensures
        scan(group_frame(group), payloads, buffered) == (GroupScan::Missing {
            sequence: group[lost].0,
            payload: group[lost].1,
        }),
{
    let frame = group_frame(group);
    let contents = group_payloads(group);
    let width = widest(contents);
    lemma_widest(contents);
    lemma_parity_width(contents, width);
    assert forall|i: int| 0 <= i < contents.len() implies #[trigger] frame.payload_lengths[i]
        == contents[i].len() && contents[i].len() <= frame.parity.len() by {
        assert(contents[i] == group[i].1);
        assert(frame.payload_lengths[i] == group[i].1.len() as usize);
    }
    assert forall|i: int| 0 <= i < contents.len() && i != lost implies known_payload(
        payloads,
        buffered,
        #[trigger] sequence::following_by(frame.base_sequence, i as nat),
    ) == Some(contents[i]) by {
        assert(contents[i] == group[i].1);
    }
    assert forall|place: int| 0 <= place < frame.parity.len() implies #[trigger] frame.parity[place]
        == column(contents, place, contents.len() as int, -1) ^ column(contents, place, 0, lost) by {
        lemma_parity_column(contents, width, place);
        let whole = column(contents, place, contents.len() as int, -1);
        assert(whole ^ 0u8 == whole) by (bit_vector);
    }
    assert(group[lost].0 == sequence::following_by(group[0].0, lost as nat));
    lemma_scan_single_loss(
        frame,
        contents,
        lost,
        payloads,
        buffered,
        0,
        frame.parity,
        None,
    );
}

/// Whether a state keeps one parity frame, and that is the frame of a group.
pub open spec fn keeps_only(state: FecModel, group: Seq<SourceModel>) -> bool {
    &&& state.frames.dom() == Set::<u64>::empty().insert(group[0].0)
    &&& state.frames[group[0].0] == group_frame(group)
}

/// Whether the packets of a group follow each other, and none is too long.
pub open spec fn is_group(group: Seq<SourceModel>) -> bool {
    &&& group.len() > 0
    &&& forall|i: int|
        0 <= i < group.len() ==> (#[trigger] group[i]).0 == sequence::following_by(
            group[0].0,
            i as nat,
        ) && group[i].1.len() <= 0xffff
}

/// Whether every payload of a group is at hand but the one at `lost`, whose turn has not passed.
pub open spec fn lacks_only(
    payloads: Map<u64, Seq<u8>>,
    buffered: Map<u64, BufferedModel>,
    next_seq: u64,
    group: Seq<SourceModel>,
    lost: int,
) -> bool {
    &&& 0 <= lost < group.len()
    &&& forall|i: int|
        0 <= i < group.len() && i != lost ==> known_payload(
            payloads,
            buffered,
            (#[trigger] group[i]).0,
        ) == Some(group[i].1)
    &&& known_payload(payloads, buffered, group[lost].0) is None
    &&& group[lost].0 >= next_seq
}

/// A single frame.
proof fn lemma_keeps_only(
    state: FecModel,
    group: Seq<SourceModel>,
    buffered: Map<u64, BufferedModel>,
    next_seq: u64,
)
    requires
        keeps_only(state, group),
    ensures
        recovery(state, buffered, next_seq) == (match scan(
            group_frame(group),
            state.payloads,
            buffered,
        ) {
            GroupScan::Missing { sequence, payload } => if sequence >= next_seq {
                seq![(sequence, payload)]
            } else {
                Seq::empty()
            },
            _ => Seq::empty(),
        }),
{
    let base = group[0].0;
    let bases = seq![base];
    assert(bases.to_set() =~= state.frames.dom()) by {
        assert forall|s: u64| bases.to_set().contains(s) == state.frames.dom().contains(s) by {
            if s == base {
                assert(bases[0] == s);
            }
        }
    }
    ordered::lemma_is_ascending_order(bases);
    assert(bases.drop_last() =~= Seq::empty());
    assert(state.recovered(buffered, next_seq, bases.drop_last()) =~= Seq::empty());
    assert(bases.last() == base);
    assert(recovery(state, buffered, next_seq) == state.recovered(buffered, next_seq, bases));
    match scan(group_frame(group), state.payloads, buffered) {
        GroupScan::Missing { sequence, payload } => {
            assert(Seq::<SourceModel>::empty().push((sequence, payload)) =~= seq![
                (sequence, payload),
            ]);
        },
        _ => {},
    }
}

/// The one payload of a group that is lost is recovered, and recovered once: the frame is used up,
/// and nothing is recovered the next time.
pub proof fn law_recovery_happens_once(
    state: FecModel,
    buffered: Map<u64, BufferedModel>,
    next_seq: u64,
    group: Seq<SourceModel>,
    lost: int,
    later: Map<u64, BufferedModel>,
    later_seq: u64,
)
    requires
        is_group(group),
        keeps_only(state, group),
        lacks_only(state.payloads, buffered, next_seq, group, lost),
    ensures
        recovery(state, buffered, next_seq) == seq![group[lost]],
        after_recovery(state, buffered).frames == Map::<u64, FecFrameView>::empty(),
        recovery(after_recovery(state, buffered), later, later_seq) == Seq::<SourceModel>::empty(),
{
    law_single_loss_is_recovered(group, lost, state.payloads, buffered);
    lemma_keeps_only(state, group, buffered, next_seq);
    let after = after_recovery(state, buffered);
    assert(after.frames =~= Map::empty());
    let none = Seq::<u64>::empty();
    assert(none.to_set() =~= after.frames.dom());
    ordered::lemma_is_ascending_order(none);
    assert(recovery(after, later, later_seq) =~= Seq::empty());
}

/// While two payloads of a group are lost nothing is recovered, and the frame is kept: as soon as
/// only one is lost, whatever else has been kept in the meantime, that one is recovered.
pub proof fn law_frame_waits_for_more_payloads(
    state: FecModel,
    buffered: Map<u64, BufferedModel>,
    next_seq: u64,
    group: Seq<SourceModel>,
    first: int,
    second: int,
    later: FecModel,
    later_buffered: Map<u64, BufferedModel>,
    later_seq: u64,
    lost: int,
)
    requires
        is_group(group),
        keeps_only(state, group),
        0 <= first < second < group.len(),
        known_payload(state.payloads, buffered, group[first].0) is None,
        known_payload(state.payloads, buffered, group[second].0) is None,
        forall|i: int|
            0 <= i < group.len() ==> {
                let known = known_payload(state.payloads, buffered, (#[trigger] group[i]).0);
                known is None || known == Some(group[i].1)
            },
        later.frames == after_recovery(state, buffered).frames,
        lacks_only(later.payloads, later_buffered, later_seq, group, lost),
    ensures
        recovery(state, buffered, next_seq) == Seq::<SourceModel>::empty(),
        after_recovery(state, buffered) == state,
        recovery(later, later_buffered, later_seq) == seq![group[lost]],
{
    lemma_two_losses_wait(group, state.payloads, buffered, first, second);
    lemma_keeps_only(state, group, buffered, next_seq);
    assert(state.waiting_frames(buffered) =~= state.frames);
    law_single_loss_is_recovered(group, lost, later.payloads, later_buffered);
    lemma_keeps_only(later, group, later_buffered, later_seq);
}

/// While two payloads of the only group are lost nothing is recovered, and the frame is kept.
pub proof fn lemma_two_lost(
    state: FecModel,
    buffered: Map<u64, BufferedModel>,
    next_seq: u64,
    group: Seq<SourceModel>,
    first: int,
    second: int,
)
    requires
        is_group(group),
        keeps_only(state, group),
        0 <= first < second < group.len(),
        known_payload(state.payloads, buffered, group[first].0) is None,
        known_payload(state.payloads, buffered, group[second].0) is None,
        forall|i: int|
            0 <= i < group.len() ==> {
                let known = known_payload(state.payloads, buffered, (#[trigger] group[i]).0);
                known is None || known == Some(group[i].1)
            },
    ensures
        recovery(state, buffered, next_seq) == Seq::<SourceModel>::empty(),
        after_recovery(state, buffered) == state,
{
    lemma_two_losses_wait(group, state.payloads, buffered, first, second);
    lemma_keeps_only(state, group, buffered, next_seq);
    assert(state.waiting_frames(buffered) =~= state.frames);
}

/// A frame waits while two payloads of its group are lost.
proof fn lemma_two_losses_wait(
    group: Seq<SourceModel>,
    payloads: Map<u64, Seq<u8>>,
    buffered: Map<u64, BufferedModel>,
    first: int,
    second: int,
)
    requires
        is_group(group),
        0 <= first < second < group.len(),
        known_payload(payloads, buffered, group[first].0) is None,
        known_payload(payloads, buffered, group[second].0) is None,
        forall|i: int|
            0 <= i < group.len() ==> {
                let known = known_payload(payloads, buffered, (#[trigger] group[i]).0);
                known is None || known == Some(group[i].1)
            },
    ensures
        scan(group_frame(group), payloads, buffered) is Waiting,
{
    let frame = group_frame(group);
    let contents = group_payloads(group);
    lemma_widest(contents);
    lemma_parity_width(contents, widest(contents));
    assert forall|i: int| 0 <= i < group.len() implies {
        let known = known_payload(
            payloads,
            buffered,
            #[trigger] sequence::following_by(frame.base_sequence, i as nat),
        );
        &&& known is None || known == Some(group[i].1)
        &&& frame.payload_lengths[i] == group[i].1.len()
        &&& group[i].1.len() <= frame.parity.len()
    } by {
        assert(group[i].0 == sequence::following_by(frame.base_sequence, i as nat));
        assert(contents[i] == group[i].1);
        assert(frame.payload_lengths[i] == group[i].1.len() as usize);
    }
    assert(group[first].0 == sequence::following_by(frame.base_sequence, first as nat));
    assert(group[second].0 == sequence::following_by(frame.base_sequence, second as nat));
    lemma_scan_waits(
        frame,
        group,
        payloads,
        buffered,
        0,
        frame.parity,
        None,
        first,
        second,
    );
}

/// The scan of a group with two payloads lost, from any place on.
proof fn lemma_scan_waits(
    frame: FecFrameView,
    group: Seq<SourceModel>,
    payloads: Map<u64, Seq<u8>>,
    buffered: Map<u64, BufferedModel>,
    index: int,
    parity: Seq<u8>,
    missing: Option<(u64, usize)>,
    first: int,
    second: int,
)
    requires
        0 <= index <= second < group.len(),
        frame.payload_lengths.len() == group.len(),
        parity.len() == frame.parity.len(),
        forall|i: int|
            0 <= i < group.len() ==> {
                let known = known_payload(
                    payloads,
                    buffered,
                    #[trigger] sequence::following_by(frame.base_sequence, i as nat),
                );
                &&& known is None || known == Some(group[i].1)
                &&& frame.payload_lengths[i] == group[i].1.len()
                &&& group[i].1.len() <= frame.parity.len()
            },
        known_payload(
            payloads,
            buffered,
            sequence::following_by(frame.base_sequence, second as nat),
        ) is None,
        missing is Some || index <= first < second && known_payload(
            payloads,
            buffered,
            sequence::following_by(frame.base_sequence, first as nat),
        ) is None,
    ensures
        scan_from(frame, payloads, buffered, index, parity, missing) is Waiting,
    decreases group.len() - index,
{
    let length = frame.payload_lengths[index];
    let sequence = sequence::following_by(frame.base_sequence, index as nat);
    assert(length == group[index].1.len());
    match known_payload(payloads, buffered, sequence) {
        Some(payload) => {
            let next = combined(parity, payload);
            assert(next.len() == parity.len());
            lemma_scan_waits(
                frame,
                group,
                payloads,
                buffered,
                index + 1,
                next,
                missing,
                first,
                second,
            );
        },
        None => {
            if missing is None {
                lemma_scan_waits(
                    frame,
                    group,
                    payloads,
                    buffered,
                    index + 1,
                    parity,
                    Some((sequence, length)),
                    first,
                    second,
                );
            }
        },
    }
}

/// A scan finds missing what is not at hand, or what was missing before.
pub proof fn lemma_missing_is_unknown(
    frame: FecFrameView,
    payloads: Map<u64, Seq<u8>>,
    buffered: Map<u64, BufferedModel>,
    index: int,
    parity: Seq<u8>,
    missing: Option<(u64, usize)>,
)
    requires
        0 <= index,
    ensures
        scan_from(frame, payloads, buffered, index, parity, missing) matches GroupScan::Missing {
            sequence,
            ..
        } ==> (missing matches Some(gap) && gap.0 == sequence) || exists|i: int|
            index <= i < frame.payload_lengths.len() && #[trigger] sequence::following_by(
                frame.base_sequence,
                i as nat,
            ) == sequence && known_payload(payloads, buffered, sequence) is None,
    decreases frame.payload_lengths.len() - index,
{
    if index < frame.payload_lengths.len() {
        let length = frame.payload_lengths[index];
        let sequence = sequence::following_by(frame.base_sequence, index as nat);
        match known_payload(payloads, buffered, sequence) {
            Some(payload) => lemma_missing_is_unknown(
                frame,
                payloads,
                buffered,
                index + 1,
                combined(parity, payload),
                missing,
            ),
            None => lemma_missing_is_unknown(
                frame,
                payloads,
                buffered,
                index + 1,
                parity,
                Some((sequence, length)),
            ),
        }
    }
}

/// As long as the payloads at hand are those of the group, a payload that its parity frame recovers
/// is the payload of that sequence number in the group.
pub proof fn law_recovery_is_faithful(
    group: Seq<SourceModel>,
    payloads: Map<u64, Seq<u8>>,
    buffered: Map<u64, BufferedModel>,
)
    requires
        is_group(group),
        forall|i: int|
            0 <= i < group.len() ==> {
                let known = known_payload(payloads, buffered, (#[trigger] group[i]).0);
                known is None || known == Some(group[i].1)
            },
    ensures
        scan(group_frame(group), payloads, buffered) matches GroupScan::Missing {
            sequence,
            payload,
        } ==> group.contains((sequence, payload)),
{
    let frame = group_frame(group);
    if let GroupScan::Missing { sequence, payload } = scan(frame, payloads, buffered) {
        lemma_missing_is_unknown(frame, payloads, buffered, 0, frame.parity, None);
        let lost = choose|i: int|
            0 <= i < frame.payload_lengths.len() && #[trigger] sequence::following_by(
                frame.base_sequence,
                i as nat,
            ) == sequence && known_payload(payloads, buffered, sequence) is None;
        assert(group[lost].0 == sequence);
        assert forall|i: int| 0 <= i < group.len() && i != lost implies known_payload(
            payloads,
            buffered,
            (#[trigger] group[i]).0,
        ) == Some(group[i].1) by {
            if known_payload(payloads, buffered, group[i].0) is None {
                if i < lost {
                    lemma_two_losses_wait(group, payloads, buffered, i, lost);
                } else {
                    lemma_two_losses_wait(group, payloads, buffered, lost, i);
                }
            }
        }
        law_single_loss_is_recovered(group, lost, payloads, buffered);
        assert(group[lost] == (sequence, payload));
    }
}

} // verus!
