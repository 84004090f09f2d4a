//! The wire format: media packets and their fragments, repair requests, and parity frames.

use crate::buffers;
use crate::text;
use bytes::{Bytes, BytesMut};
use vstd::prelude::*;
use vstd::slice::slice_subrange;

verus! {

pub const HEADER_LEN: usize = 4;

/// The greatest number that the header's sequence field holds.
pub const MAX_SEQUENCE: u64 = 67_108_863;

/// The sequence number that marks a parity frame.
pub const FEC_SEQUENCE: u64 = MAX_SEQUENCE;

/// The greatest sequence number of a media packet.
pub const MAX_MEDIA_SEQUENCE: u64 = 67_108_862;

pub const MAX_FRAGMENTS: usize = 7;

pub const REPAIR_REQUEST_LEN: usize = 5;

pub const REPAIR_ALL_FRAGMENTS_MASK: u8 = 0x7f;

pub const MAX_FEC_GROUP_PACKETS: usize = 32;

pub const FEC_MAGIC_LEN: usize = 5;

/// Where the payload lengths of a parity frame start: behind the magic, the base sequence and the
/// group size.
pub const FEC_LENGTHS_OFFSET: usize = 10;

#[derive(Debug, Clone, Copy, PartialEq, Eq, Hash)]
pub struct PacketHeader {
    pub sequence: u64,
    pub fragment: u8,
    pub fragments: u8,
}

/// The packed form of a header: 26 bits of sequence number, 3 bits of fragment index and 3 bits of
/// fragment count, from the least significant bit up, as four bytes in little-endian order.
#[derive(Debug, Clone, Copy)]
pub struct PackedHeaderTail {
    sequence: u32,
    fragment: u8,
    fragments: u8,
}

#[derive(Debug, Clone, PartialEq, Eq)]
pub struct DecodedPacket {
    pub header: PacketHeader,
    pub payload: Bytes,
}

#[derive(Debug, Clone, Copy, PartialEq, Eq)]
pub struct RepairRequest {
    pub sequence: u64,
    pub missing_mask: u8,
}

#[derive(Debug, Clone, PartialEq, Eq)]
pub struct FecFrame {
    pub base_sequence: u64,
    pub payload_lengths: Vec<usize>,
    pub parity: Bytes,
}

#[derive(Debug, Clone, PartialEq, Eq)]
pub enum DecodeError {
    TooShort { actual: usize },
    InvalidFragment { fragment: u8, fragments: u8 },
}

#[derive(Debug, Clone, PartialEq, Eq)]
pub enum RepairDecodeError {
    InvalidLength { actual: usize },
    InvalidSequence { sequence: u64 },
    InvalidMissingMask { missing_mask: u8 },
}

#[derive(Debug, Clone, PartialEq, Eq)]
pub enum FecDecodeError {
    InvalidPacket(DecodeError),
    InvalidHeader(PacketHeader),
    TooShort { actual: usize },
    InvalidMagic,
    InvalidBaseSequence { sequence: u64 },
    InvalidGroupSize { count: usize },
    InvalidPayloadLength { length: usize },
}

/// What a parity frame says: the sequence number of its group's first packet, the payload length
/// of each packet of the group, and the parity bytes.
#[verifier::ext_equal]
pub struct FecFrameView {
    pub base_sequence: u64,
    pub payload_lengths: Seq<usize>,
    pub parity: Seq<u8>,
}

impl View for FecFrame {
    type V = FecFrameView;

    open spec fn view(&self) -> FecFrameView {
        FecFrameView {
            base_sequence: self.base_sequence,
            payload_lengths: self.payload_lengths@,
            parity: buffers::contents(self.parity),
        }
    }
}

impl PacketHeader {
    /// A header that the packed form can hold and that names one of the packet's fragments.
    pub open spec fn encodable(self) -> bool {
        &&& self.sequence <= MAX_SEQUENCE
        &&& self.fragment < self.fragments
        &&& self.fragments <= MAX_FRAGMENTS
    }

    /// The header of a media packet, as the wire delivers it.
    pub open spec fn is_media(self) -> bool {
        &&& self.encodable()
        &&& self.sequence <= MAX_MEDIA_SEQUENCE
    }
}

impl RepairRequest {
    /// A request that names at least one fragment, and none beyond the last possible one.
    pub open spec fn encodable(self) -> bool {
        &&& self.sequence <= MAX_SEQUENCE
        &&& 0 < self.missing_mask <= REPAIR_ALL_FRAGMENTS_MASK
    }
}

impl FecFrameView {
    /// A frame that the wire format can hold.
    pub open spec fn encodable(self) -> bool {
        &&& self.base_sequence <= MAX_MEDIA_SEQUENCE
        &&& 0 < self.payload_lengths.len() <= MAX_FEC_GROUP_PACKETS
        &&& forall|i: int|
            0 <= i < self.payload_lengths.len() ==> #[trigger] self.payload_lengths[i] <= 0xffff
                && self.payload_lengths[i] <= self.parity.len()
    }
}

/// The two bytes of a number, least significant first.
pub open spec fn le2(value: int) -> Seq<u8> {
    seq![(value % 256) as u8, (value / 256 % 256) as u8]
}

/// The four bytes of a number, least significant first.
pub open spec fn le4(value: int) -> Seq<u8> {
    seq![
        (value % 256) as u8,
        (value / 256 % 256) as u8,
        (value / 65536 % 256) as u8,
        (value / 16777216 % 256) as u8,
    ]
}

/// The number that four bytes stand for, least significant first.
pub open spec fn from_le4(bytes: Seq<u8>) -> int {
    bytes[0] + 256 * bytes[1] + 65536 * bytes[2] + 16777216 * bytes[3]
}

/// The 32 bits that the packed header stands for.
pub open spec fn header_word(sequence: int, fragment: int, fragments: int) -> int {
    sequence + 67108864 * fragment + 536870912 * fragments
}

/// The bytes of a packet.
pub open spec fn packet_bytes(header: PacketHeader, payload: Seq<u8>) -> Seq<u8> {
    le4(header_word(header.sequence as int, header.fragment as int, header.fragments as int))
        + payload
}

/// The header that the first four bytes of a packet hold.
pub open spec fn header_of(data: Seq<u8>) -> PacketHeader {
    let word = from_le4(data);
    PacketHeader {
        sequence: (word % 67108864) as u64,
        fragment: (word / 67108864 % 8) as u8,
        fragments: (word / 536870912) as u8,
    }
}

/// What the bytes of a packet say.
pub open spec fn packet_of(data: Seq<u8>) -> Result<(PacketHeader, Seq<u8>), DecodeError> {
    if data.len() < HEADER_LEN {
        Err(DecodeError::TooShort { actual: data.len() as usize })
    } else {
        let header = header_of(data);
        if header.fragments == 0 || header.fragment >= header.fragments {
            Err(
                DecodeError::InvalidFragment {
                    fragment: header.fragment,
                    fragments: header.fragments,
                },
            )
        } else {
            Ok((header, data.skip(HEADER_LEN as int)))
        }
    }
}

/// The bytes of a repair request.
pub open spec fn repair_request_bytes(request: RepairRequest) -> Seq<u8> {
    le4(request.sequence as int).push(request.missing_mask)
}

/// What the bytes of a repair request say.
pub open spec fn repair_request_of(data: Seq<u8>) -> Result<RepairRequest, RepairDecodeError> {
    if data.len() != REPAIR_REQUEST_LEN {
        Err(RepairDecodeError::InvalidLength { actual: data.len() as usize })
    } else if from_le4(data) > MAX_SEQUENCE {
        Err(RepairDecodeError::InvalidSequence { sequence: from_le4(data) as u64 })
    } else if data[4] == 0 || data[4] > REPAIR_ALL_FRAGMENTS_MASK {
        Err(RepairDecodeError::InvalidMissingMask { missing_mask: data[4] })
    } else {
        Ok(RepairRequest { sequence: from_le4(data) as u64, missing_mask: data[4] })
    }
}

/// The bytes that open a parity frame: `IFEC1`.
pub open spec fn fec_magic() -> Seq<u8> {
    seq![0x49u8, 0x46u8, 0x45u8, 0x43u8, 0x31u8]
}

/// The payload lengths of a parity frame as bytes, two for each length.
pub open spec fn lengths_bytes(lengths: Seq<usize>) -> Seq<u8> {
    Seq::new(
        2 * lengths.len(),
        |i: int|
            if i % 2 == 0 {
                (lengths[i / 2] % 256) as u8
            } else {
                (lengths[i / 2] / 256) as u8
            },
    )
}

/// The lengths that `count` pairs of bytes stand for.
pub open spec fn lengths_of(data: Seq<u8>, count: nat) -> Seq<usize> {
    Seq::new(count, |i: int| (data[2 * i] + 256 * data[2 * i + 1]) as usize)
}

/// The payload of the packet that carries a parity frame.
pub open spec fn fec_payload(frame: FecFrameView) -> Seq<u8> {
    fec_magic() + le4(frame.base_sequence as int) + seq![frame.payload_lengths.len() as u8]
        + lengths_bytes(frame.payload_lengths) + frame.parity
}

/// The header of the packet that carries a parity frame.
pub open spec fn fec_header() -> PacketHeader {
    PacketHeader { sequence: FEC_SEQUENCE, fragment: 0, fragments: 1 }
}

/// The bytes of a parity frame.
pub open spec fn fec_frame_bytes(frame: FecFrameView) -> Seq<u8> {
    packet_bytes(fec_header(), fec_payload(frame))
}

/// The greatest of a list of lengths.
pub open spec fn greatest(lengths: Seq<usize>) -> usize
    decreases lengths.len(),
{
    if lengths.len() <= 1 {
        lengths[0]
    } else {
        let before = greatest(lengths.drop_last());
        if before >= lengths.last() {
            before
        } else {
            lengths.last()
        }
    }
}

/// Whether a length exceeds the number of parity bytes.
pub open spec fn exceeds_parity(lengths: Seq<usize>, parity: nat) -> bool {
    exists|i: int| 0 <= i < lengths.len() && #[trigger] lengths[i] > parity
}

/// What the payload of a packet that carries a parity frame says.
pub open spec fn fec_payload_of(payload: Seq<u8>) -> Result<FecFrameView, FecDecodeError> {
    if payload.len() < FEC_LENGTHS_OFFSET {
        Err(FecDecodeError::TooShort { actual: payload.len() as usize })
    } else if payload.take(FEC_MAGIC_LEN as int) != fec_magic() {
        Err(FecDecodeError::InvalidMagic)
    } else {
        let base = from_le4(payload.skip(FEC_MAGIC_LEN as int));
        let count = payload[9] as nat;
        let lengths = lengths_of(payload.skip(FEC_LENGTHS_OFFSET as int), count);
        let parity = payload.skip(FEC_LENGTHS_OFFSET + 2 * count);
        if base > MAX_MEDIA_SEQUENCE {
            Err(FecDecodeError::InvalidBaseSequence { sequence: base as u64 })
        } else if count == 0 || count > MAX_FEC_GROUP_PACKETS {
            Err(FecDecodeError::InvalidGroupSize { count: count as usize })
        } else if payload.len() < FEC_LENGTHS_OFFSET + 2 * count {
            Err(FecDecodeError::TooShort { actual: payload.len() as usize })
        } else if exceeds_parity(lengths, parity.len()) {
            Err(FecDecodeError::InvalidPayloadLength { length: greatest(lengths) })
        } else {
            Ok(FecFrameView { base_sequence: base as u64, payload_lengths: lengths, parity })
        }
    }
}

/// What the bytes of a parity frame say.
pub open spec fn fec_frame_of(data: Seq<u8>) -> Result<FecFrameView, FecDecodeError> {
    match packet_of(data) {
        Err(error) => Err(FecDecodeError::InvalidPacket(error)),
        Ok((header, payload)) => if header != fec_header() {
            Err(FecDecodeError::InvalidHeader(header))
        } else {
            fec_payload_of(payload)
        },
    }
}

/// Four bytes are the bytes of the number that they stand for.
pub proof fn lemma_le4_of_bytes(bytes: Seq<u8>)
    requires
        bytes.len() == 4,
    ensures
        le4(from_le4(bytes)) == bytes,
        0 <= from_le4(bytes) < 4294967296,
{
    let value = from_le4(bytes);
    assert(value / 256 == bytes[1] + 256 * bytes[2] + 65536 * bytes[3]);
    assert(value / 65536 == bytes[2] + 256 * bytes[3]);
    assert(value / 16777216 == bytes[3]);
    assert(le4(value) =~= bytes);
}

/// The bytes of a number stand for the number.
pub proof fn lemma_le4_value(value: int)
    requires
        0 <= value < 4294967296,
    ensures
        from_le4(le4(value)) == value,
{
    assert(value == value % 256 + 256 * (value / 256 % 256) + 65536 * (value / 65536 % 256)
        + 16777216 * (value / 16777216 % 256)) by {
        assert(value / 65536 == value / 256 / 256);
        assert(value / 16777216 == value / 65536 / 256);
    }
}

/// The fields of a 32-bit word make up the word.
pub proof fn lemma_header_word_of_fields(word: int)
    requires
        0 <= word < 4294967296,
    ensures
        header_word(word % 67108864, word / 67108864 % 8, word / 536870912) == word,
        word / 536870912 < 8,
{
    assert(word / 536870912 == word / 67108864 / 8);
}

/// The fields of a packed header are those that it was made of.
pub proof fn lemma_fields_of_header_word(sequence: int, fragment: int, fragments: int)
    requires
        0 <= sequence <= MAX_SEQUENCE,
        0 <= fragment < 8,
        0 <= fragments < 8,
    ensures
        ({
            let word = header_word(sequence, fragment, fragments);
            &&& 0 <= word < 4294967296
            &&& word % 67108864 == sequence
            &&& word / 67108864 % 8 == fragment
            &&& word / 536870912 == fragments
        }),
{
    let word = header_word(sequence, fragment, fragments);
    assert(word / 67108864 == fragment + 8 * fragments);
    assert(word / 536870912 == word / 67108864 / 8);
}

/// The two bytes of a number, least significant first.
pub fn to_le2(value: u16) -> (bytes: [u8; 2])
    ensures
        bytes@ == le2(value as int),
{
    let bytes = [(value % 256) as u8, (value / 256) as u8];
    assert(bytes@ =~= le2(value as int));
    bytes
}

/// The four bytes of a number, least significant first.
pub fn to_le4(value: u32) -> (bytes: [u8; 4])
    ensures
        bytes@ == le4(value as int),
{
    let bytes = [
        (value % 256) as u8,
        (value / 256 % 256) as u8,
        (value / 65536 % 256) as u8,
        (value / 16777216) as u8,
    ];
    assert(bytes@ =~= le4(value as int));
    bytes
}

/// The number that the four bytes at `start` stand for.
pub fn read_le4(data: &[u8], start: usize) -> (value: u32)
    requires
        start + 4 <= data@.len(),
    ensures
        value == from_le4(data@.skip(start as int)),
{
    (data[start] as u32) + 256 * (data[start + 1] as u32) + 65536 * (data[start + 2] as u32)
        + 16777216 * (data[start + 3] as u32)
}

impl PackedHeaderTail {
    pub closed spec fn spec_sequence(self) -> u32 {
        self.sequence
    }

    pub closed spec fn spec_fragment(self) -> u8 {
        self.fragment
    }

    pub closed spec fn spec_fragments(self) -> u8 {
        self.fragments
    }

    /// Every field fits into its bits.
    pub open spec fn fits(self) -> bool {
        &&& self.spec_sequence() <= MAX_SEQUENCE
        &&& self.spec_fragment() < 8
        &&& self.spec_fragments() < 8
    }

    /// The four bytes of the packed header.
    pub open spec fn bytes(self) -> Seq<u8> {
        le4(
            header_word(
                self.spec_sequence() as int,
                self.spec_fragment() as int,
                self.spec_fragments() as int,
            ),
        )
    }

    /// The header with every field zero.
    pub fn new() -> (tail: PackedHeaderTail)
        ensures
            tail.fits(),
            tail.spec_sequence() == 0,
            tail.spec_fragment() == 0,
            tail.spec_fragments() == 0,
    {
        PackedHeaderTail { sequence: 0, fragment: 0, fragments: 0 }
    }

    pub fn with_sequence(self, sequence: u32) -> (tail: PackedHeaderTail)
        requires
            sequence <= MAX_SEQUENCE,
        ensures
            tail.spec_sequence() == sequence,
            tail.spec_fragment() == self.spec_fragment(),
            tail.spec_fragments() == self.spec_fragments(),
    {
        PackedHeaderTail { sequence, fragment: self.fragment, fragments: self.fragments }
    }

    pub fn with_fragment(self, fragment: u8) -> (tail: PackedHeaderTail)
        requires
            fragment < 8,
        ensures
            tail.spec_sequence() == self.spec_sequence(),
            tail.spec_fragment() == fragment,
            tail.spec_fragments() == self.spec_fragments(),
    {
        PackedHeaderTail { sequence: self.sequence, fragment, fragments: self.fragments }
    }

    pub fn with_fragments(self, fragments: u8) -> (tail: PackedHeaderTail)
        requires
            fragments < 8,
        ensures
            tail.spec_sequence() == self.spec_sequence(),
            tail.spec_fragment() == self.spec_fragment(),
            tail.spec_fragments() == fragments,
    {
        PackedHeaderTail { sequence: self.sequence, fragment: self.fragment, fragments }
    }

    pub fn into_bytes(self) -> (bytes: [u8; 4])
        requires
            self.fits(),
        ensures
            bytes@ == self.bytes(),
    {
        to_le4(
            self.sequence + 67_108_864 * (self.fragment as u32) + 536_870_912 * (
            self.fragments as u32),
        )
    }

    /// The header that four bytes hold.
    pub fn from_bytes(bytes: [u8; 4]) -> (tail: PackedHeaderTail)
        ensures
            tail.fits(),
            tail.bytes() == bytes@,
            tail.spec_sequence() == header_of(bytes@).sequence,
            tail.spec_fragment() == header_of(bytes@).fragment,
            tail.spec_fragments() == header_of(bytes@).fragments,
    {
        let word: u32 = (bytes[0] as u32) + 256 * (bytes[1] as u32) + 65536 * (bytes[2] as u32)
            + 16777216 * (bytes[3] as u32);
        proof {
            lemma_le4_of_bytes(bytes@);
            lemma_header_word_of_fields(word as int);
        }
        let tail = PackedHeaderTail {
            sequence: word % 67_108_864,
            fragment: (word / 67_108_864 % 8) as u8,
            fragments: (word / 536_870_912) as u8,
        };
        tail
    }

    pub fn sequence(&self) -> (sequence: u32)
        ensures
            sequence == self.spec_sequence(),
    {
        self.sequence
    }

    pub fn fragment(&self) -> (fragment: u8)
        ensures
            fragment == self.spec_fragment(),
    {
        self.fragment
    }

    pub fn fragments(&self) -> (fragments: u8)
        ensures
            fragments == self.spec_fragments(),
    {
        self.fragments
    }
}

/// The bytes of a packet that carries the given fragment.
pub fn encode_packet(header: PacketHeader, payload: &[u8]) -> (packet: Bytes)
    requires
        header.encodable(),
        payload@.len() + HEADER_LEN <= isize::MAX,
    ensures
        buffers::contents(packet) == packet_bytes(header, payload@),
{
    let tail = PackedHeaderTail::new().with_sequence(header.sequence as u32).with_fragment(
        header.fragment,
    ).with_fragments(header.fragments);
    let mut buf = BytesMut::with_capacity(HEADER_LEN + payload.len());
    let packed = tail.into_bytes();
    buf.extend_from_slice(packed.as_slice());
    buf.extend_from_slice(payload);
    assert(buffers::filled(buf) =~= packet_bytes(header, payload@));
    buf.freeze()
}

/// Reads the header and the payload of a packet.
pub fn decode_packet(data: &[u8]) -> (result: Result<DecodedPacket, DecodeError>)
    ensures
        match packet_of(data@) {
            Ok((header, payload)) => result matches Ok(packet) && packet.header == header
                && buffers::contents(packet.payload) == payload,
            Err(error) => result == Err::<DecodedPacket, DecodeError>(error),
        },
{
    if data.len() < HEADER_LEN {
        return Err(DecodeError::TooShort { actual: data.len() });
    }
    let packed = [data[0], data[1], data[2], data[3]];
    let tail = PackedHeaderTail::from_bytes(packed);
    assert(from_le4(packed@) == from_le4(data@));
    let fragment = tail.fragment();
    let fragments = tail.fragments();
    if fragments == 0 || fragment >= fragments {
        return Err(DecodeError::InvalidFragment { fragment, fragments });
    }
    let rest = slice_subrange(data, HEADER_LEN, data.len());
    assert(rest@ =~= data@.skip(HEADER_LEN as int));
    Ok(
        DecodedPacket {
            header: PacketHeader { sequence: tail.sequence() as u64, fragment, fragments },
            payload: Bytes::copy_from_slice(rest),
        },
    )
}

/// The bytes of a repair request.
pub fn encode_repair_request(request: RepairRequest) -> (data: Bytes)
    requires
        request.encodable(),
    ensures
        buffers::contents(data) == repair_request_bytes(request),
{
    let mut buf = BytesMut::with_capacity(REPAIR_REQUEST_LEN);
    let sequence = to_le4(request.sequence as u32);
    let mask = [request.missing_mask];
    buf.extend_from_slice(sequence.as_slice());
    buf.extend_from_slice(mask.as_slice());
    assert(buffers::filled(buf) =~= repair_request_bytes(request));
    buf.freeze()
}

/// Reads a repair request.
pub fn decode_repair_request(data: &[u8]) -> (result: Result<RepairRequest, RepairDecodeError>)
    ensures
        result == repair_request_of(data@),
{
    if data.len() != REPAIR_REQUEST_LEN {
        return Err(RepairDecodeError::InvalidLength { actual: data.len() });
    }
    assert(data@.skip(0) =~= data@);
    let sequence: u64 = read_le4(data, 0) as u64;
    if sequence > MAX_SEQUENCE {
        return Err(RepairDecodeError::InvalidSequence { sequence });
    }
    let missing_mask = data[4];
    if missing_mask == 0 || missing_mask > REPAIR_ALL_FRAGMENTS_MASK {
        return Err(RepairDecodeError::InvalidMissingMask { missing_mask });
    }
    Ok(RepairRequest { sequence, missing_mask })
}

/// The bytes that open a parity frame.
fn magic_bytes() -> (magic: [u8; 5])
    ensures
        magic@ == fec_magic(),
{
    let magic = [0x49u8, 0x46u8, 0x45u8, 0x43u8, 0x31u8];
    assert(magic@ =~= fec_magic());
    magic
}

/// The bytes of a parity frame.
pub fn encode_fec_frame(frame: &FecFrame) -> (packet: Bytes)
    requires
        frame@.encodable(),
        fec_frame_bytes(frame@).len() <= isize::MAX,
    ensures
        buffers::contents(packet) == fec_frame_bytes(frame@),
{
    let parity = buffers::bytes_slice(&frame.parity);
    let count: usize = frame.payload_lengths.len();
    let payload_len: usize = FEC_LENGTHS_OFFSET + 2 * count + parity.len();
    let mut payload = BytesMut::with_capacity(payload_len);
    let magic = magic_bytes();
    let base = to_le4(frame.base_sequence as u32);
    let size = [count as u8];
    payload.extend_from_slice(magic.as_slice());
    payload.extend_from_slice(base.as_slice());
    payload.extend_from_slice(size.as_slice());
    let ghost head = fec_magic() + le4(frame.base_sequence as int) + seq![
        frame.payload_lengths@.len() as u8,
    ];
    assert(buffers::filled(payload) =~= head + lengths_bytes(frame.payload_lengths@.take(0)));
    for i in 0..count
        invariant
            frame@.encodable(),
            count == frame.payload_lengths@.len(),
            head.len() == FEC_LENGTHS_OFFSET,
            fec_frame_bytes(frame@).len() <= isize::MAX,
            buffers::filled(payload) == head + lengths_bytes(frame.payload_lengths@.take(i as int)),
    {
        let ghost lengths = frame.payload_lengths@;
        assert(frame@.payload_lengths[i as int] <= 0xffff);
        let length = to_le2(frame.payload_lengths[i] as u16);
        payload.extend_from_slice(length.as_slice());
        proof {
            let longer = lengths_bytes(lengths.take(i + 1));
            assert forall|j: int| 0 <= j < longer.len() implies longer[j] == (lengths_bytes(
                lengths.take(i as int),
            ) + length@)[j] by {
                if j < 2 * i {
                    assert(lengths.take(i + 1)[j / 2] == lengths.take(i as int)[j / 2]);
                } else {
                    assert(lengths.take(i + 1)[j / 2] == lengths[i as int]);
                }
            }
            assert(longer =~= lengths_bytes(lengths.take(i as int)) + length@);
            assert(buffers::filled(payload) =~= head + longer);
        }
    }
    assert(frame.payload_lengths@.take(count as int) =~= frame.payload_lengths@);
    payload.extend_from_slice(parity);
    assert(buffers::filled(payload) =~= fec_payload(frame@));
    let payload = payload.freeze();
    encode_packet(
        PacketHeader { sequence: FEC_SEQUENCE, fragment: 0, fragments: 1 },
        buffers::bytes_slice(&payload),
    )
}

/// Whether the bytes start with the magic of a parity frame.
fn starts_with_magic(payload: &[u8]) -> (result: bool)
    requires
        payload@.len() >= FEC_MAGIC_LEN,
    ensures
        result == (payload@.take(FEC_MAGIC_LEN as int) == fec_magic()),
{
    let ghost start = payload@.take(FEC_MAGIC_LEN as int);
    assert(forall|i: int| 0 <= i < FEC_MAGIC_LEN ==> start[i] == payload@[i]);
    let result = payload[0] == 0x49 && payload[1] == 0x46 && payload[2] == 0x45 && payload[3]
        == 0x43 && payload[4] == 0x31;
    proof {
        if result {
            assert(start =~= fec_magic());
        } else if start == fec_magic() {
            assert(start[0] == 0x49 && start[1] == 0x46 && start[2] == 0x45 && start[3] == 0x43
                && start[4] == 0x31);
        }
    }
    result
}

/// The greatest of a list of lengths.
pub fn greatest_length(lengths: &Vec<usize>) -> (length: usize)
    requires
        lengths@.len() > 0,
    ensures
        length == greatest(lengths@),
{
    let mut length: usize = lengths[0];
    assert(lengths@.take(1).len() == 1);
    for i in 1..lengths.len()
        invariant
            lengths@.len() > 0,
            length == greatest(lengths@.take(i as int)),
    {
        assert(lengths@.take(i + 1).drop_last() =~= lengths@.take(i as int));
        if lengths[i] > length {
            length = lengths[i];
        }
    }
    assert(lengths@.take(lengths@.len() as int) =~= lengths@);
    length
}

/// Reads a parity frame.
pub fn decode_fec_frame(data: &[u8]) -> (result: Result<FecFrame, FecDecodeError>)
    ensures
        match fec_frame_of(data@) {
            Ok(frame) => result matches Ok(found) && found@ == frame,
            Err(error) => result == Err::<FecFrame, FecDecodeError>(error),
        },
{
    let packet = match decode_packet(data) {
        Ok(packet) => packet,
        Err(error) => {
            return Err(FecDecodeError::InvalidPacket(error));
        },
    };
    let header = packet.header;
    if header.sequence != FEC_SEQUENCE || header.fragment != 0 || header.fragments != 1 {
        return Err(FecDecodeError::InvalidHeader(header));
    }
    let payload = buffers::bytes_slice(&packet.payload);
    if payload.len() < FEC_LENGTHS_OFFSET {
        return Err(FecDecodeError::TooShort { actual: payload.len() });
    }
    if !starts_with_magic(payload) {
        return Err(FecDecodeError::InvalidMagic);
    }
    let base_sequence: u64 = read_le4(payload, FEC_MAGIC_LEN) as u64;
    if base_sequence > MAX_MEDIA_SEQUENCE {
        return Err(FecDecodeError::InvalidBaseSequence { sequence: base_sequence });
    }
    let count: usize = payload[9] as usize;
    if count == 0 || count > MAX_FEC_GROUP_PACKETS {
        return Err(FecDecodeError::InvalidGroupSize { count });
    }
    if payload.len() < FEC_LENGTHS_OFFSET + 2 * count {
        return Err(FecDecodeError::TooShort { actual: payload.len() });
    }
    let ghost lengths = lengths_of(payload@.skip(FEC_LENGTHS_OFFSET as int), count as nat);
    let mut payload_lengths: Vec<usize> = Vec::with_capacity(count);
    for i in 0..count
        invariant
            count <= MAX_FEC_GROUP_PACKETS,
            FEC_LENGTHS_OFFSET + 2 * count <= payload@.len(),
            lengths == lengths_of(payload@.skip(FEC_LENGTHS_OFFSET as int), count as nat),
            payload_lengths@ == lengths.take(i as int),
    {
        let at: usize = FEC_LENGTHS_OFFSET + 2 * i;
        let length: usize = (payload[at] as usize) + 256 * (payload[at + 1] as usize);
        payload_lengths.push(length);
        assert(payload_lengths@ =~= lengths.take(i + 1));
    }
    assert(payload_lengths@ =~= lengths);
    let parity = buffers::bytes_from(&packet.payload, FEC_LENGTHS_OFFSET + 2 * count);
    let parity_len: usize = buffers::bytes_slice(&parity).len();
    for i in 0..count
        invariant
            count == payload_lengths@.len(),
            count > 0,
            payload_lengths@ == lengths,
            parity_len == buffers::contents(parity).len(),
            fec_frame_of(data@) == if exceeds_parity(lengths, buffers::contents(parity).len()) {
                Err::<FecFrameView, FecDecodeError>(
                    FecDecodeError::InvalidPayloadLength { length: greatest(lengths) },
                )
            } else {
                Ok(FecFrameView { base_sequence, payload_lengths: lengths, parity: buffers::contents(parity) })
            },
            forall|j: int| 0 <= j < i ==> #[trigger] lengths[j] <= parity_len,
    {
        if payload_lengths[i] > parity_len {
            assert(lengths[i as int] > parity_len);
            return Err(
                FecDecodeError::InvalidPayloadLength { length: greatest_length(&payload_lengths) },
            );
        }
    }
    Ok(FecFrame { base_sequence, payload_lengths, parity })
}

/// The lower-case hexadecimal digit of a value below sixteen.
pub open spec fn hex_digit(value: nat) -> char {
    if value < 10 {
        text::digit_char(value)
    } else {
        (('a' as nat) + value - 10) as char
    }
}

fn hex_digit_of(value: u8) -> (c: char)
    requires
        value < 16,
    ensures
        c == hex_digit(value as nat),
{
    if value < 10 {
        (('0' as u8) + value) as char
    } else {
        (('a' as u8) + (value - 10)) as char
    }
}

impl DecodeError {
    /// The text of the error.
    pub open spec fn message(self) -> Seq<char> {
        match self {
            DecodeError::TooShort { actual } => "packet too short: expected at least "@ + text::decimal(
                HEADER_LEN as nat,
            ) + " bytes, got "@ + text::decimal(actual as nat),
            DecodeError::InvalidFragment { fragment, fragments } =>
                "invalid packet fragment metadata: fragment="@ + text::decimal(fragment as nat)
                + " fragments="@ + text::decimal(fragments as nat),
        }
    }

    pub fn to_string(&self) -> (text: String)
        ensures
            text@ == self.message(),
    {
        match self {
            DecodeError::TooShort { actual } => {
                let mut text = "packet too short: expected at least ".to_owned();
                text::push_decimal(&mut text, HEADER_LEN as u64);
                text.append(" bytes, got ");
                text::push_decimal(&mut text, *actual as u64);
                text
            },
            DecodeError::InvalidFragment { fragment, fragments } => {
                let mut text = "invalid packet fragment metadata: fragment=".to_owned();
                text::push_decimal(&mut text, *fragment as u64);
                text.append(" fragments=");
                text::push_decimal(&mut text, *fragments as u64);
                text
            },
        }
    }
}

impl RepairDecodeError {
    /// The text of the error.
    pub open spec fn message(self) -> Seq<char> {
        match self {
            RepairDecodeError::InvalidLength { actual } =>
                "repair request has invalid length: expected "@ + text::decimal(REPAIR_REQUEST_LEN as nat)
                + " bytes, got "@ + text::decimal(actual as nat),
            RepairDecodeError::InvalidSequence { sequence } => "repair request sequence exceeds "@
                + text::decimal(MAX_SEQUENCE as nat) + ": "@ + text::decimal(sequence as nat),
            RepairDecodeError::InvalidMissingMask { missing_mask } =>
                "repair request has invalid missing mask: 0x"@ + seq![
                hex_digit((missing_mask / 16) as nat),
                hex_digit((missing_mask % 16) as nat),
            ],
        }
    }

    pub fn to_string(&self) -> (text: String)
        ensures
            text@ == self.message(),
    {
        match self {
            RepairDecodeError::InvalidLength { actual } => {
                let mut text = "repair request has invalid length: expected ".to_owned();
                text::push_decimal(&mut text, REPAIR_REQUEST_LEN as u64);
                text.append(" bytes, got ");
                text::push_decimal(&mut text, *actual as u64);
                text
            },
            RepairDecodeError::InvalidSequence { sequence } => {
                let mut text = "repair request sequence exceeds ".to_owned();
                text::push_decimal(&mut text, MAX_SEQUENCE);
                text.append(": ");
                text::push_decimal(&mut text, *sequence);
                text
            },
            RepairDecodeError::InvalidMissingMask { missing_mask } => {
                let mut text = "repair request has invalid missing mask: 0x".to_owned();
                text::push_char(&mut text, hex_digit_of(*missing_mask / 16));
                text::push_char(&mut text, hex_digit_of(*missing_mask % 16));
                assert(text@ =~= self.message());
                text
            },
        }
    }
}

impl FecDecodeError {
    /// The text of the error.
    pub open spec fn message(self) -> Seq<char> {
        match self {
            FecDecodeError::InvalidPacket(error) => "invalid fec packet: "@ + error.message(),
            FecDecodeError::InvalidHeader(header) => "invalid fec packet header: sequence="@
                + text::decimal(header.sequence as nat) + " fragment="@ + text::decimal(header.fragment as nat)
                + " fragments="@ + text::decimal(header.fragments as nat),
            FecDecodeError::TooShort { actual } => "fec frame too short: got "@ + text::decimal(
                actual as nat,
            ) + " bytes"@,
            FecDecodeError::InvalidMagic => "invalid fec frame magic"@,
            FecDecodeError::InvalidBaseSequence { sequence } => "fec base sequence exceeds "@
                + text::decimal(MAX_MEDIA_SEQUENCE as nat) + ": "@ + text::decimal(sequence as nat),
            FecDecodeError::InvalidGroupSize { count } => "invalid fec group size: "@ + text::decimal(
                count as nat,
            ),
            FecDecodeError::InvalidPayloadLength { length } => "invalid fec payload length: "@
                + text::decimal(length as nat),
        }
    }

    pub fn to_string(&self) -> (text: String)
        ensures
            text@ == self.message(),
    {
        match self {
            FecDecodeError::InvalidPacket(error) => {
                let mut text = "invalid fec packet: ".to_owned();
                text.append(error.to_string().as_str());
                text
            },
            FecDecodeError::InvalidHeader(header) => {
                let mut text = "invalid fec packet header: sequence=".to_owned();
                text::push_decimal(&mut text, header.sequence);
                text.append(" fragment=");
                text::push_decimal(&mut text, header.fragment as u64);
                text.append(" fragments=");
                text::push_decimal(&mut text, header.fragments as u64);
                text
            },
            FecDecodeError::TooShort { actual } => {
                let mut text = "fec frame too short: got ".to_owned();
                text::push_decimal(&mut text, *actual as u64);
                text.append(" bytes");
                text
            },
            FecDecodeError::InvalidMagic => "invalid fec frame magic".to_owned(),
            FecDecodeError::InvalidBaseSequence { sequence } => {
                let mut text = "fec base sequence exceeds ".to_owned();
                text::push_decimal(&mut text, MAX_MEDIA_SEQUENCE);
                text.append(": ");
                text::push_decimal(&mut text, *sequence);
                text
            },
            FecDecodeError::InvalidGroupSize { count } => {
                let mut text = "invalid fec group size: ".to_owned();
                text::push_decimal(&mut text, *count as u64);
                text
            },
            FecDecodeError::InvalidPayloadLength { length } => {
                let mut text = "invalid fec payload length: ".to_owned();
                text::push_decimal(&mut text, *length as u64);
                text
            },
        }
    }
}

/// Reading a packet's bytes gives back the header and the payload that it was made of.
pub proof fn law_packet_round_trip(header: PacketHeader, payload: Seq<u8>)
    requires
        header.encodable(),
    ensures
        packet_of(packet_bytes(header, payload)) == Ok::<(PacketHeader, Seq<u8>), DecodeError>(
            (header, payload),
        ),
{
    let word = header_word(header.sequence as int, header.fragment as int, header.fragments as int);
    let data = packet_bytes(header, payload);
    lemma_fields_of_header_word(
        header.sequence as int,
        header.fragment as int,
        header.fragments as int,
    );
    lemma_le4_value(word);
    assert(from_le4(data) == from_le4(le4(word)));
    assert(data.skip(HEADER_LEN as int) =~= payload);
}

/// A packet's bytes are the bytes of the header and the payload that they are read as.
pub proof fn law_packet_bytes_are_unique(data: Seq<u8>)
    requires
        packet_of(data) is Ok,
    ensures
        ({
            let (header, payload) = packet_of(data)->Ok_0;
            header.encodable() && packet_bytes(header, payload) == data
        }),
{
    let word = from_le4(data);
    assert(from_le4(data.take(4)) == word);
    lemma_le4_of_bytes(data.take(4));
    lemma_header_word_of_fields(word);
    let (header, payload) = packet_of(data)->Ok_0;
    assert(packet_bytes(header, payload) =~= data);
}

/// Reading a repair request's bytes gives back the request.
pub proof fn law_repair_request_round_trip(request: RepairRequest)
    requires
        request.encodable(),
    ensures
        repair_request_of(repair_request_bytes(request)) == Ok::<RepairRequest, RepairDecodeError>(
            request,
        ),
{
    lemma_le4_value(request.sequence as int);
    assert(from_le4(repair_request_bytes(request)) == from_le4(le4(request.sequence as int)));
}

/// Reading a parity frame's bytes gives back the frame.
pub proof fn law_fec_frame_round_trip(frame: FecFrameView)
    requires
        frame.encodable(),
    ensures
        fec_frame_of(fec_frame_bytes(frame)) == Ok::<FecFrameView, FecDecodeError>(frame),
{
    let payload = fec_payload(frame);
    let count = frame.payload_lengths.len();
    law_packet_round_trip(fec_header(), payload);
    lemma_le4_value(frame.base_sequence as int);
    assert(payload.take(FEC_MAGIC_LEN as int) =~= fec_magic());
    assert(from_le4(payload.skip(FEC_MAGIC_LEN as int)) == from_le4(
        le4(frame.base_sequence as int),
    ));
    assert(payload[9] == count as u8);
    let tail = payload.skip(FEC_LENGTHS_OFFSET as int);
    let lengths = lengths_of(tail, count);
    assert forall|i: int| 0 <= i < count implies lengths[i] == frame.payload_lengths[i] by {
        let length = frame.payload_lengths[i];
        assert(tail[2 * i] == lengths_bytes(frame.payload_lengths)[2 * i]);
        assert(tail[2 * i + 1] == lengths_bytes(frame.payload_lengths)[2 * i + 1]);
        assert((2 * i + 1) / 2 == i);
        assert(length <= 0xffff);
    }
    assert(lengths =~= frame.payload_lengths);
    assert(payload.skip(FEC_LENGTHS_OFFSET + 2 * count) =~= frame.parity);
    assert(fec_payload_of(payload) == Ok::<FecFrameView, FecDecodeError>(frame));
}

} // verus!
