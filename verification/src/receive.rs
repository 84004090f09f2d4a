//! What the server makes of a datagram: packets, parity frames, and packets that are being put
//! together from fragments.

use crate::buffers;
use crate::protocol;
use crate::protocol::{
    decode_fec_frame, decode_packet, DecodeError, FecDecodeError, FecFrame, FecFrameView,
    PacketHeader, FEC_SEQUENCE,
};
use vstd::prelude::*;

verus! {

/// A media packet and where it came from.
#[derive(Debug)]
pub struct ReceivedPacket {
    pub remote: String,
    pub connection_id: usize,
    pub header: PacketHeader,
    pub payload: Vec<u8>,
}

/// A parity frame and where it came from.
#[derive(Debug)]
pub struct ReceivedFecFrame {
    pub remote: String,
    pub frame: FecFrame,
}

#[derive(Debug)]
pub enum ReceivedFrame {
    Packet(ReceivedPacket),
    Fec(ReceivedFecFrame),
}

#[verifier::ext_equal]
pub struct PacketModel {
    pub remote: Seq<char>,
    pub connection_id: usize,
    pub header: PacketHeader,
    pub payload: Seq<u8>,
}

#[verifier::ext_equal]
pub struct FecModelFrame {
    pub remote: Seq<char>,
    pub frame: FecFrameView,
}

#[verifier::ext_equal]
pub enum FrameModel {
    Packet(PacketModel),
    Fec(FecModelFrame),
}

impl View for ReceivedPacket {
    type V = PacketModel;

    open spec fn view(&self) -> PacketModel {
        PacketModel {
            remote: self.remote@,
            connection_id: self.connection_id,
            header: self.header,
            payload: self.payload@,
        }
    }
}

impl View for ReceivedFecFrame {
    type V = FecModelFrame;

    open spec fn view(&self) -> FecModelFrame {
        FecModelFrame { remote: self.remote@, frame: self.frame@ }
    }
}

impl View for ReceivedFrame {
    type V = FrameModel;

    open spec fn view(&self) -> FrameModel {
        match self {
            ReceivedFrame::Packet(packet) => FrameModel::Packet(packet@),
            ReceivedFrame::Fec(fec) => FrameModel::Fec(fec@),
        }
    }
}

/// Why a datagram is no frame.
#[derive(Debug)]
pub enum FrameError {
    Packet(DecodeError),
    Fec(FecDecodeError),
}

/// The frame that a datagram carries.
pub open spec fn frame_of(data: Seq<u8>, remote: Seq<char>, connection_id: usize) -> Result<
    FrameModel,
    FrameError,
> {
    match protocol::packet_of(data) {
        Err(error) => Err(FrameError::Packet(error)),
        Ok((header, payload)) => if header.sequence == FEC_SEQUENCE {
            match protocol::fec_frame_of(data) {
                Err(error) => Err(FrameError::Fec(error)),
                Ok(frame) => Ok(FrameModel::Fec(FecModelFrame { remote, frame })),
            }
        } else {
            Ok(FrameModel::Packet(PacketModel { remote, connection_id, header, payload }))
        },
    }
}

pub fn parse_frame(data: &[u8], remote: String, connection_id: usize) -> (result: Result<
    ReceivedFrame,
    FrameError,
>)
    ensures
        match frame_of(data@, remote@, connection_id) {
            Ok(frame) => result matches Ok(found) && found@ == frame,
            Err(error) => result == Err::<ReceivedFrame, FrameError>(error),
        },
{
    let packet = match decode_packet(data) {
        Ok(packet) => packet,
        Err(error) => {
            return Err(FrameError::Packet(error));
        },
    };
    if packet.header.sequence == FEC_SEQUENCE {
        return match decode_fec_frame(data) {
            Ok(frame) => Ok(ReceivedFrame::Fec(ReceivedFecFrame { remote, frame })),
            Err(error) => Err(FrameError::Fec(error)),
        };
    }
    let payload = vstd::slice::slice_to_vec(buffers::bytes_slice(&packet.payload));
    Ok(
        ReceivedFrame::Packet(
            ReceivedPacket { remote, connection_id, header: packet.header, payload },
        ),
    )
}

/// A packet that was parsed has a media sequence number and a fragment number below the number of
/// its fragments; a parity frame that was parsed covers at least one media packet, and its parity
/// is as long as the longest of them.
pub proof fn law_parsed_frames_are_valid(data: Seq<u8>, remote: Seq<char>, connection_id: usize)
    ensures
        match frame_of(data, remote, connection_id) {
            Ok(FrameModel::Packet(packet)) => packet.header.is_media(),
            Ok(FrameModel::Fec(fec)) => fec.frame.encodable(),
            Err(_) => true,
        },
{
    if data.len() >= protocol::HEADER_LEN {
        let word = protocol::from_le4(data);
        assert(0 <= word < 4294967296);
        assert(0 <= word / 536870912 < 8);
        if let Ok(FrameModel::Fec(fec)) = frame_of(data, remote, connection_id) {
            let payload = data.skip(protocol::HEADER_LEN as int);
            let count = payload[9] as nat;
            let lengths = protocol::lengths_of(
                payload.skip(protocol::FEC_LENGTHS_OFFSET as int),
                count,
            );
            assert(fec.frame.payload_lengths == lengths);
            assert forall|i: int| 0 <= i < lengths.len() implies #[trigger] lengths[i] <= 0xffff
                && lengths[i] <= fec.frame.parity.len() by {
                assert(!protocol::exceeds_parity(lengths, fec.frame.parity.len()));
            }
        }
    }
}

/// A whole payload that waits for the payloads before it.
#[derive(Debug)]
pub struct BufferedPacket {
    pub payload: Vec<u8>,
    pub received_at: u64,
}

#[verifier::ext_equal]
pub struct BufferedModel {
    pub payload: Seq<u8>,
    pub received_at: u64,
}

impl View for BufferedPacket {
    type V = BufferedModel;

    open spec fn view(&self) -> BufferedModel {
        BufferedModel { payload: self.payload@, received_at: self.received_at }
    }
}

/// A packet of which some fragments have arrived.
#[derive(Debug)]
pub struct FragmentAssembly {
    parts: Vec<Option<Vec<u8>>>,
    first_seen: u64,
    last_repair_request: Option<u64>,
}

#[verifier::ext_equal]
pub struct AssemblyModel {
    pub parts: Seq<Option<Seq<u8>>>,
    pub first_seen: u64,
    pub last_repair_request: Option<u64>,
}

/// What is known of a fragment.
pub open spec fn part_model(part: Option<Vec<u8>>) -> Option<Seq<u8>> {
    match part {
        Some(payload) => Some(payload@),
        None => None,
    }
}

impl View for FragmentAssembly {
    type V = AssemblyModel;

    closed spec fn view(&self) -> AssemblyModel {
        AssemblyModel {
            parts: self.parts@.map_values(|part: Option<Vec<u8>>| part_model(part)),
            first_seen: self.first_seen,
            last_repair_request: self.last_repair_request,
        }
    }
}

/// Whether every fragment is there.
pub open spec fn complete(parts: Seq<Option<Seq<u8>>>) -> bool {
    forall|i: int| 0 <= i < parts.len() ==> #[trigger] parts[i] is Some
}

/// The fragments in order.
pub open spec fn joined_parts(parts: Seq<Option<Seq<u8>>>) -> Seq<u8>
    decreases parts.len(),
{
    if parts.len() == 0 {
        Seq::empty()
    } else {
        joined_parts(parts.drop_last()) + parts.last()->0
    }
}

/// A bit for each fragment that is missing: the lowest bit stands for the first fragment.
pub open spec fn missing_bits(parts: Seq<Option<Seq<u8>>>) -> u8
    decreases parts.len(),
{
    if parts.len() == 0 {
        0
    } else if parts.last() is Some {
        missing_bits(parts.drop_last())
    } else {
        missing_bits(parts.drop_last()) | (1u8 << ((parts.len() - 1) as u8))
    }
}

/// The mask has the bit of a fragment set exactly where the fragment is missing.
pub proof fn law_missing_bits(parts: Seq<Option<Seq<u8>>>, index: u8)
    requires
        parts.len() <= 8,
        index < 8,
    ensures
        (missing_bits(parts) & (1u8 << index) != 0) <==> (index < parts.len()
            && parts[index as int] is None),
    decreases parts.len(),
{
    if parts.len() == 0 {
        assert(0u8 & (1u8 << index) == 0) by (bit_vector);
    } else {
        let shorter = parts.drop_last();
        law_missing_bits(shorter, index);
        if parts.last() is None {
            let bits = missing_bits(shorter);
            let place = (parts.len() - 1) as u8;
            assert(((bits | (1u8 << place)) & (1u8 << index) != 0) <==> ((bits & (1u8 << index)
                != 0) || index == place)) by (bit_vector)
                requires
                    index < 8,
                    place < 8,
            ;
        }
    }
}

/// A packet is complete exactly when its mask is zero.
pub proof fn law_complete_has_no_missing_bits(parts: Seq<Option<Seq<u8>>>)
    requires
        parts.len() <= 8,
    ensures
        missing_bits(parts) == 0 <==> complete(parts),
{
    let bits = missing_bits(parts);
    if !complete(parts) {
        let i = choose|i: int| 0 <= i < parts.len() && !(#[trigger] parts[i] is Some);
        let index = i as u8;
        law_missing_bits(parts, index);
        assert(0u8 & (1u8 << index) == 0) by (bit_vector);
    } else if bits != 0 {
        assert(exists|index: u8| index < 8 && bits & (1u8 << index) != 0) by {
            assert(bits & (1u8 << 0u8) != 0 || bits & (1u8 << 1u8) != 0 || bits & (1u8 << 2u8) != 0
                || bits & (1u8 << 3u8) != 0 || bits & (1u8 << 4u8) != 0 || bits & (1u8 << 5u8) != 0
                || bits & (1u8 << 6u8) != 0 || bits & (1u8 << 7u8) != 0) by (bit_vector)
                requires
                    bits != 0,
            ;
        }
        let index = choose|index: u8| index < 8 && bits & (1u8 << index) != 0;
        law_missing_bits(parts, index);
        assert(parts[index as int] is Some);
    }
}

/// The fragments of a packet after one more came: a fragment that is there already stays as it is.
pub open spec fn with_part(parts: Seq<Option<Seq<u8>>>, fragment: u8, payload: Seq<u8>) -> Seq<
    Option<Seq<u8>>,
> {
    if parts[fragment as int] is None {
        parts.update(fragment as int, Some(payload))
    } else {
        parts
    }
}

/// The fragments of a packet after these arrivals, each a fragment number and a payload, where none
/// was there before.
pub open spec fn gathered(fragments: nat, arrivals: Seq<(u8, Seq<u8>)>) -> Seq<Option<Seq<u8>>>
    decreases arrivals.len(),
{
    if arrivals.len() == 0 {
        Seq::new(fragments, |i: int| None)
    } else {
        with_part(gathered(fragments, arrivals.drop_last()), arrivals.last().0, arrivals.last().1)
    }
}

/// Whether an arrival is the first of its fragment.
pub open spec fn is_first_copy(arrivals: Seq<(u8, Seq<u8>)>, index: int) -> bool {
    forall|j: int| 0 <= j < index ==> (#[trigger] arrivals[j]).0 != arrivals[index].0
}

/// Whether a fragment is among the arrivals.
pub open spec fn comes(arrivals: Seq<(u8, Seq<u8>)>, fragment: int) -> bool {
    exists|k: int| 0 <= k < arrivals.len() && (#[trigger] arrivals[k]).0 == fragment
}

/// Fragments may come in any order and more than once: an arrival fills an empty place exactly when
/// it is the first of its fragment. Once each has come, whatever came again, the packet is
/// complete, no fragment is missing, and it holds the first copies in the order of the fragments.
pub proof fn law_fragments_come_in_any_order(
    arrivals: Seq<(u8, Seq<u8>)>,
    payloads: Seq<Seq<u8>>,
)
    requires
        payloads.len() <= 8,
        forall|k: int| 0 <= k < arrivals.len() ==> (#[trigger] arrivals[k]).0 < payloads.len(),
        forall|k: int|
            0 <= k < arrivals.len() && #[trigger] is_first_copy(arrivals, k) ==> arrivals[k].1
                == payloads[arrivals[k].0 as int],
        forall|i: int| 0 <= i < payloads.len() ==> #[trigger] comes(arrivals, i),
    ensures
        forall|k: int|
            0 <= k < arrivals.len() ==> (gathered(
                payloads.len(),
                #[trigger] arrivals.take(k),
            )[arrivals[k].0 as int] is None <==> is_first_copy(arrivals, k)),
        complete(gathered(payloads.len(), arrivals)),
        missing_bits(gathered(payloads.len(), arrivals)) == 0,
        joined_parts(gathered(payloads.len(), arrivals)) == payloads.flatten(),
{
    let n = payloads.len();
    let parts = gathered(n, arrivals);
    assert(arrivals.take(arrivals.len() as int) =~= arrivals);
    lemma_gathered(arrivals, payloads, arrivals.len() as int);
    assert forall|k: int| 0 <= k < arrivals.len() implies (gathered(
        n,
        #[trigger] arrivals.take(k),
    )[arrivals[k].0 as int] is None <==> is_first_copy(arrivals, k)) by {
        lemma_gathered(arrivals, payloads, k);
        let i = arrivals[k].0 as int;
        if gathered(n, arrivals.take(k))[i] is Some {
            let j = choose|j: int| 0 <= j < k && (#[trigger] arrivals[j]).0 == i;
            assert(!is_first_copy(arrivals, k));
        }
    }
    assert forall|i: int| 0 <= i < n implies #[trigger] parts[i] == Some(payloads[i]) by {
        assert(comes(arrivals, i));
    }
    law_complete_has_no_missing_bits(parts);
    lemma_joined_payloads(parts, payloads);
    payloads.lemma_flatten_and_flatten_alt_are_equivalent();
}

/// After some of the arrivals, a fragment is there exactly when one of them was its own, and then as
/// it came first.
proof fn lemma_gathered(arrivals: Seq<(u8, Seq<u8>)>, payloads: Seq<Seq<u8>>, count: int)
    requires
        0 <= count <= arrivals.len(),
        forall|k: int| 0 <= k < arrivals.len() ==> (#[trigger] arrivals[k]).0 < payloads.len(),
        forall|k: int|
            0 <= k < arrivals.len() && #[trigger] is_first_copy(arrivals, k) ==> arrivals[k].1
                == payloads[arrivals[k].0 as int],
    ensures
        gathered(payloads.len(), arrivals.take(count)).len() == payloads.len(),
        forall|i: int|
            0 <= i < payloads.len() ==> {
                let part = #[trigger] gathered(payloads.len(), arrivals.take(count))[i];
                &&& part is Some ==> part == Some(payloads[i]) && exists|k: int|
                    0 <= k < count && (#[trigger] arrivals[k]).0 == i
                &&& part is None ==> forall|k: int|
                    0 <= k < count ==> (#[trigger] arrivals[k]).0 != i
            },
    decreases count,
{
    let n = payloads.len();
    if count > 0 {
        lemma_gathered(arrivals, payloads, count - 1);
        let before = gathered(n, arrivals.take(count - 1));
        let after = gathered(n, arrivals.take(count));
        let last = arrivals[count - 1];
        assert(arrivals.take(count).drop_last() =~= arrivals.take(count - 1));
        assert(arrivals.take(count).last() == last);
        if before[last.0 as int] is None {
            assert(is_first_copy(arrivals, count - 1));
        }
        assert forall|i: int| 0 <= i < n implies {
            let part = #[trigger] after[i];
            &&& part is Some ==> part == Some(payloads[i]) && exists|k: int|
                0 <= k < count && (#[trigger] arrivals[k]).0 == i
            &&& part is None ==> forall|k: int|
                0 <= k < count ==> (#[trigger] arrivals[k]).0 != i
        } by {
            let earlier = before[i];
            if i == last.0 {
                assert(arrivals[count - 1].0 == i);
            }
        }
    }
}

/// The fragments of a complete packet, one after the other.
pub proof fn lemma_joined_payloads(parts: Seq<Option<Seq<u8>>>, payloads: Seq<Seq<u8>>)
    requires
        parts.len() == payloads.len(),
        forall|i: int| 0 <= i < parts.len() ==> #[trigger] parts[i] == Some(payloads[i]),
    ensures
        joined_parts(parts) == payloads.flatten_alt(),
    decreases parts.len(),
{
    if parts.len() > 0 {
        assert forall|i: int| 0 <= i < parts.len() - 1 implies #[trigger] parts.drop_last()[i]
            == Some(payloads.drop_last()[i]) by {
            assert(parts[i] == Some(payloads[i]));
        }
        lemma_joined_payloads(parts.drop_last(), payloads.drop_last());
        assert(parts[parts.len() - 1] == Some(payloads[parts.len() - 1]));
    }
}

impl FragmentAssembly {
    /// A packet whose fragments are all missing.
    pub fn new(fragments: u8, first_seen: u64) -> (assembly: FragmentAssembly)
        ensures
            assembly@ == (AssemblyModel {
                parts: Seq::new(fragments as nat, |i: int| None),
                first_seen,
                last_repair_request: None,
            }),
    {
        let mut parts: Vec<Option<Vec<u8>>> = Vec::new();
        for i in 0..fragments
            invariant
                parts@.len() == i,
                forall|j: int| 0 <= j < i ==> #[trigger] parts@[j] is None,
        {
            parts.push(None);
        }
        let assembly = FragmentAssembly { parts, first_seen, last_repair_request: None };
        assert(assembly@.parts =~= Seq::new(fragments as nat, |i: int| None));
        assembly
    }

    /// How many fragments the packet has.
    pub fn fragments(&self) -> (count: u8)
        requires
            self@.parts.len() <= 255,
        ensures
            count == self@.parts.len(),
    {
        self.parts.len() as u8
    }

    pub fn first_seen(&self) -> (time: u64)
        ensures
            time == self@.first_seen,
    {
        self.first_seen
    }

    pub fn last_repair_request(&self) -> (time: Option<u64>)
        ensures
            time == self@.last_repair_request,
    {
        self.last_repair_request
    }

    pub fn set_last_repair_request(&mut self, time: u64)
        ensures
            final(self)@ == (AssemblyModel { last_repair_request: Some(time), ..old(self)@ }),
    {
        self.last_repair_request = Some(time);
    }

    /// Fills the place of a fragment, and says whether it was empty.
    pub fn insert(&mut self, fragment: u8, payload: Vec<u8>) -> (fresh: bool)
        requires
            fragment < old(self)@.parts.len(),
        ensures
            fresh == (old(self)@.parts[fragment as int] is None),
            final(self)@ == (AssemblyModel {
                parts: with_part(old(self)@.parts, fragment, payload@),
                ..old(self)@
            }),
    {
        let ghost before = self@;
        if self.parts[fragment as usize].is_some() {
            return false;
        }
        self.parts.set(fragment as usize, Some(payload));
        assert(self@.parts =~= before.parts.update(fragment as int, Some(payload@)));
        true
    }

    pub fn is_complete(&self) -> (result: bool)
        ensures
            result == complete(self@.parts),
    {
        for i in 0..self.parts.len()
            invariant
                forall|j: int| 0 <= j < i ==> #[trigger] self@.parts[j] is Some,
        {
            if self.parts[i].is_none() {
                assert(self@.parts[i as int] is None);
                return false;
            }
        }
        true
    }

    /// A bit for each fragment that is missing.
    pub fn missing_mask(&self) -> (mask: u8)
        requires
            self@.parts.len() <= 8,
        ensures
            mask == missing_bits(self@.parts),
    {
        let mut mask: u8 = 0;
        for i in 0..self.parts.len()
            invariant
                self@.parts.len() <= 8,
                mask == missing_bits(self@.parts.take(i as int)),
        {
            assert(self@.parts.take(i + 1).drop_last() =~= self@.parts.take(i as int));
            if self.parts[i].is_none() {
                mask = mask | (1u8 << (i as u8));
            }
        }
        assert(self@.parts.take(self@.parts.len() as int) =~= self@.parts);
        mask
    }

    /// The payload of a complete packet.
    pub fn into_payload(self) -> (payload: Vec<u8>)
        requires
            complete(self@.parts),
        ensures
            payload@ == joined_parts(self@.parts),
    {
        let mut payload: Vec<u8> = Vec::new();
        assert(self@.parts.take(0) =~= Seq::empty());
        for i in 0..self.parts.len()
            invariant
                complete(self@.parts),
                payload@ == joined_parts(self@.parts.take(i as int)),
        {
            assert(self@.parts.take(i + 1).drop_last() =~= self@.parts.take(i as int));
            assert(self@.parts[i as int] is Some);
            if let Some(part) = &self.parts[i] {
                let ghost before = payload@;
                payload.extend_from_slice(part.as_slice());
                assert(payload@ =~= before + part@);
            }
        }
        assert(self@.parts.take(self@.parts.len() as int) =~= self@.parts);
        payload
    }
}

} // verus!
