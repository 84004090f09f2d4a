//! The remote control of the client: which characteristics there are, how long values are read piece
//! by piece, and what is written to them.

use crate::preview::PreviewState;
use crate::strategy::{copy_names, ControlStatus, StrategyChange, StrategyMode, StrategyState};
use crate::text;
use uuid::Uuid;
use vstd::prelude::*;
use vstd::slice::{slice_subrange, slice_to_vec};

verus! {

pub const SERVICE_UUID: u128 = 0x8b4f_82c8_4f5a_4e26_8f29_d1f0c0d10001;

pub const STATUS_UUID: u128 = 0x8b4f_82c8_4f5a_4e26_8f29_d1f0c0d10002;

pub const CONTROL_UUID: u128 = 0x8b4f_82c8_4f5a_4e26_8f29_d1f0c0d10003;

pub const PREVIEW_UUID: u128 = 0x8b4f_82c8_4f5a_4e26_8f29_d1f0c0d10004;

pub const PREVIEW_OFFSET_UUID: u128 = 0x8b4f_82c8_4f5a_4e26_8f29_d1f0c0d10005;

pub const STATUS_OFFSET_UUID: u128 = 0x8b4f_82c8_4f5a_4e26_8f29_d1f0c0d10006;

pub const OBS_SERVICE_UUID: u128 = 0x8b4f_82c8_4f5a_4e26_8f29_d1f0c0d10011;

pub const OBS_STATUS_UUID: u128 = 0x8b4f_82c8_4f5a_4e26_8f29_d1f0c0d10012;

pub const OBS_CONTROL_UUID: u128 = 0x8b4f_82c8_4f5a_4e26_8f29_d1f0c0d10013;

/// How much of a picture is read at a time, at most.
pub const PREVIEW_CHUNK_BYTES: usize = 500;

/// How much of the status is read at a time, at most.
pub const STATUS_CHUNK_BYTES: usize = 500;

/// A digit of a hexadecimal number.
pub open spec fn hex_char(digit: nat) -> char {
    if digit < 10 {
        ('0' as nat + digit) as char
    } else {
        ('a' as nat + digit - 10) as char
    }
}

/// The last digits of a hexadecimal number.
pub open spec fn hex_text(value: nat, digits: nat) -> Seq<char>
    decreases digits,
{
    if digits == 0 {
        Seq::empty()
    } else {
        hex_text(value / 16, (digits - 1) as nat).push(hex_char(value % 16))
    }
}

/// A UUID as it is written: its digits in groups of eight, four, four, four and twelve.
pub open spec fn uuid_chars(value: u128) -> Seq<char> {
    hex_text((value / 79228162514264337593543950336) as nat, 8) + "-"@ + hex_text(
        (value / 1208925819614629174706176 % 65536) as nat,
        4,
    ) + "-"@ + hex_text((value / 18446744073709551616 % 65536) as nat, 4) + "-"@ + hex_text(
        (value / 281474976710656 % 65536) as nat,
        4,
    ) + "-"@ + hex_text((value % 281474976710656) as nat, 12)
}

/// `Display` for `uuid::Uuid`, of the UUID that `Uuid::from_u128` makes of a number whose first
/// digits come first: the digits in lower case, in groups that hyphens part.
#[verifier::external_body]
fn display_uuid(value: u128) -> (text: String)
    ensures
        text@ == uuid_chars(value),
{
    Uuid::from_u128(value).to_string()
}

/// A UUID as it is written.
pub fn uuid_text(value: u128) -> (text: String)
    ensures
        text@ == uuid_chars(value),
{
    display_uuid(value)
}

/// Why a request of the remote control is refused.
#[derive(Debug, Clone, Copy, PartialEq, Eq, Structural)]
pub enum RemoteError {
    InvalidValueLength,
    NotSupported,
    Failed,
}

/// A characteristic of a service.
#[derive(Debug, Clone, Copy, PartialEq, Eq, Structural)]
pub struct CharacteristicSpec {
    pub uuid: u128,
    pub read: bool,
    pub write: bool,
    pub write_without_response: bool,
}

/// A service, and its characteristics.
#[derive(Debug)]
pub struct ServiceSpec {
    pub uuid: u128,
    pub characteristics: Vec<CharacteristicSpec>,
}

/// A characteristic that can be read.
pub open spec fn readable(uuid: u128) -> CharacteristicSpec {
    CharacteristicSpec { uuid, read: true, write: false, write_without_response: false }
}

/// A characteristic that can be written.
pub open spec fn writable(uuid: u128, without_response: bool) -> CharacteristicSpec {
    CharacteristicSpec {
        uuid,
        read: false,
        write: true,
        write_without_response: without_response,
    }
}

fn reads(uuid: u128) -> (characteristic: CharacteristicSpec)
    ensures
        characteristic == readable(uuid),
{
    CharacteristicSpec { uuid, read: true, write: false, write_without_response: false }
}

fn writes(uuid: u128, without_response: bool) -> (characteristic: CharacteristicSpec)
    ensures
        characteristic == writable(uuid, without_response),
{
    CharacteristicSpec {
        uuid,
        read: false,
        write: true,
        write_without_response: without_response,
    }
}

/// The services: that of the client, and that of OBS if OBS is controlled.
pub fn services(has_obs: bool) -> (list: Vec<ServiceSpec>)
    ensures
        list@.len() == (if has_obs {
            2int
        } else {
            1
        }),
        list@[0].uuid == SERVICE_UUID,
        list@[0].characteristics@ == seq![
            readable(STATUS_UUID),
            writable(STATUS_OFFSET_UUID, false),
            writable(CONTROL_UUID, true),
            readable(PREVIEW_UUID),
            writable(PREVIEW_OFFSET_UUID, false),
        ],
        has_obs ==> list@[1].uuid == OBS_SERVICE_UUID && list@[1].characteristics@ == seq![
            readable(OBS_STATUS_UUID),
            writable(OBS_CONTROL_UUID, true),
        ],
{
    let mut client: Vec<CharacteristicSpec> = Vec::new();
    client.push(reads(STATUS_UUID));
    client.push(writes(STATUS_OFFSET_UUID, false));
    client.push(writes(CONTROL_UUID, true));
    client.push(reads(PREVIEW_UUID));
    client.push(writes(PREVIEW_OFFSET_UUID, false));
    let mut list: Vec<ServiceSpec> = Vec::new();
    list.push(ServiceSpec { uuid: SERVICE_UUID, characteristics: client });
    if has_obs {
        let mut obs: Vec<CharacteristicSpec> = Vec::new();
        obs.push(reads(OBS_STATUS_UUID));
        obs.push(writes(OBS_CONTROL_UUID, true));
        list.push(ServiceSpec { uuid: OBS_SERVICE_UUID, characteristics: obs });
    }
    list
}

/// The place that four bytes name, the least significant first.
pub open spec fn offset_of(value: Seq<u8>) -> Option<nat> {
    if value.len() == 4 {
        Some(
            (value[0] + 256 * value[1] + 65536 * value[2] + 16777216 * value[3]) as nat,
        )
    } else {
        None
    }
}

/// The place that is written to an offset characteristic.
pub fn parse_u32_offset(value: &[u8]) -> (result: Result<u32, RemoteError>)
    ensures
        match offset_of(value@) {
            Some(offset) => result matches Ok(found) && found == offset,
            None => result == Err::<u32, RemoteError>(RemoteError::InvalidValueLength),
        },
{
    if value.len() != 4 {
        return Err(RemoteError::InvalidValueLength);
    }
    Ok(
        value[0] as u32 + 256 * (value[1] as u32) + 65536 * (value[2] as u32) + 16777216 * (
        value[3] as u32),
    )
}

/// The piece of a value at a place.
pub open spec fn piece(bytes: Seq<u8>, offset: nat, max_len: nat) -> Seq<u8> {
    if offset >= bytes.len() {
        Seq::empty()
    } else if offset + max_len > bytes.len() {
        bytes.skip(offset as int)
    } else {
        bytes.subrange(offset as int, (offset + max_len) as int)
    }
}

/// The piece of a value at a place.
pub fn chunk_bytes(bytes: &[u8], offset: usize, max_len: usize) -> (chunk: Vec<u8>)
    ensures
        chunk@ == piece(bytes@, offset as nat, max_len as nat),
{
    if offset >= bytes.len() {
        return Vec::new();
    }
    let end: usize = if max_len > bytes.len() - offset {
        bytes.len()
    } else {
        offset + max_len
    };
    let chunk = slice_to_vec(slice_subrange(bytes, offset, end));
    assert(chunk@ =~= piece(bytes@, offset as nat, max_len as nat));
    chunk
}

/// How much is read at a time, if the other side takes so much in one message: the message has a
/// byte of its own.
pub open spec fn piece_len(mtu: u16, most: usize) -> nat {
    let room: nat = if mtu > 2 {
        (mtu - 1) as nat
    } else {
        1
    };
    if room > most {
        most as nat
    } else {
        room
    }
}

pub fn chunk_len(mtu: u16, most: usize) -> (len: usize)
    ensures
        len == piece_len(mtu, most),
{
    let room: usize = if mtu > 2 {
        (mtu - 1) as usize
    } else {
        1
    };
    if room > most {
        most
    } else {
        room
    }
}

/// The pieces of a value from its start on, one after the other.
pub open spec fn pieces(bytes: Seq<u8>, max_len: nat, count: nat) -> Seq<u8>
    decreases count,
{
    if count == 0 {
        Seq::empty()
    } else {
        pieces(bytes, max_len, (count - 1) as nat) + piece(
            bytes,
            ((count - 1) * max_len) as nat,
            max_len,
        )
    }
}

/// A piece lengthens what was read before it, up to the end of the value.
#[verifier::spinoff_prover]
proof fn lemma_next_piece(bytes: Seq<u8>, start: nat, max_len: nat)
    ensures
        start + max_len <= bytes.len() ==> bytes.take(start as int) + piece(bytes, start, max_len)
            == bytes.take((start + max_len) as int),
        start <= bytes.len() <= start + max_len ==> bytes.take(start as int) + piece(
            bytes,
            start,
            max_len,
        ) == bytes,
        start >= bytes.len() ==> bytes + piece(bytes, start, max_len) == bytes,
{
    let next = piece(bytes, start, max_len);
    if start + max_len <= bytes.len() {
        assert(bytes.take(start as int) + next =~= bytes.take((start + max_len) as int));
    }
    if start <= bytes.len() <= start + max_len {
        assert(bytes.take(start as int) + next =~= bytes);
    }
    if start >= bytes.len() {
        assert(bytes + next =~= bytes);
    }
}

/// A value that is read piece by piece, each piece where the one before it ends, is read whole and
/// in order.
#[verifier::spinoff_prover]
pub proof fn law_pieces_make_the_value(bytes: Seq<u8>, max_len: nat, count: nat)
    requires
        max_len > 0,
    ensures
        count * max_len <= bytes.len() ==> pieces(bytes, max_len, count) == bytes.take(
            (count * max_len) as int,
        ),
        count * max_len >= bytes.len() ==> pieces(bytes, max_len, count) == bytes,
    decreases count,
{
    if count == 0 {
        assert(count * max_len == 0) by (nonlinear_arith)
            requires
                count == 0,
        ;
        assert(bytes.take(0) =~= Seq::<u8>::empty());
        if bytes.len() == 0 {
            assert(bytes =~= Seq::<u8>::empty());
        }
    } else {
        let fewer = (count - 1) as nat;
        let start = fewer * max_len;
        let end = count * max_len;
        law_pieces_make_the_value(bytes, max_len, fewer);
        assert(start + max_len == end) by (nonlinear_arith)
            requires
                fewer == count - 1,
                start == fewer * max_len,
                end == count * max_len,
        ;
        assert(pieces(bytes, max_len, count) == pieces(bytes, max_len, fewer) + piece(
            bytes,
            start,
            max_len,
        ));
        lemma_next_piece(bytes, start, max_len);
    }
}

/// A value that is being read piece by piece: as it was when the reading began, and the place.
#[derive(Debug)]
pub struct PieceReader {
    pub snapshot: Vec<u8>,
    pub offset: usize,
    pub most: usize,
}

impl PieceReader {
    pub fn new(most: usize) -> (reader: PieceReader)
        ensures
            reader.snapshot@ == Seq::<u8>::empty(),
            reader.offset == 0,
            reader.most == most,
    {
        PieceReader { snapshot: Vec::new(), offset: 0, most }
    }

    /// Whether the value has to be given for the next piece.
    pub fn needs_value(&self) -> (needed: bool)
        ensures
            needed == (self.snapshot@.len() == 0),
    {
        self.snapshot.len() == 0
    }

    /// The piece at the place; a reader that has no value takes the one that is given.
    pub fn read(&mut self, value: Vec<u8>, mtu: u16) -> (chunk: Vec<u8>)
        ensures
            final(self).offset == old(self).offset,
            final(self).most == old(self).most,
            final(self).snapshot@ == (if old(self).snapshot@.len() == 0 {
                value@
            } else {
                old(self).snapshot@
            }),
            chunk@ == piece(
                final(self).snapshot@,
                old(self).offset as nat,
                piece_len(mtu, old(self).most),
            ),
    {
        if self.snapshot.len() == 0 {
            self.snapshot = value;
        }
        chunk_bytes(self.snapshot.as_slice(), self.offset, chunk_len(mtu, self.most))
    }

    /// Moves to a place; at the start the value is taken anew.
    pub fn seek(&mut self, offset: u32, value: Vec<u8>)
        ensures
            final(self).offset == offset,
            final(self).most == old(self).most,
            final(self).snapshot@ == (if offset == 0 {
                value@
            } else {
                old(self).snapshot@
            }),
    {
        if offset == 0 {
            self.snapshot = value;
        }
        self.offset = offset as usize;
    }
}

/// What the remote control asks of the client.
#[derive(Debug, Clone, Copy, PartialEq, Eq, Structural)]
pub struct ControlPatch {
    pub mode: Option<StrategyMode>,
    pub monitor_packets: Option<bool>,
    pub preview_enabled: Option<bool>,
}

/// The state of the strategy after a patch.
pub open spec fn patched(strategy: StrategyState, patch: ControlPatch) -> StrategyState {
    StrategyState {
        mode: match patch.mode {
            Some(mode) => mode,
            None => strategy.mode,
        },
        monitor_packets: match patch.monitor_packets {
            Some(monitor) => monitor,
            None => strategy.monitor_packets,
        },
        ..strategy
    }
}

/// Does what the remote control asks of the strategy: what it does not mention stays as it is.
pub fn apply_patch(patch: ControlPatch, strategy: &mut StrategyState) -> (change: Option<
    StrategyChange,
>)
    ensures
        *final(strategy) == patched(*old(strategy), patch),
        match patch.mode {
            Some(mode) => change matches Some(found) && found.strategy@ == mode.label()
                && found.reason@ == "remote control"@,
            None => change is None,
        },
{
    if let Some(monitor) = patch.monitor_packets {
        strategy.monitor_packets = monitor;
    }
    match patch.mode {
        Some(mode) => Some(strategy.set_mode(mode, "remote control")),
        None => None,
    }
}

/// Does what the remote control asks of the pictures.
pub fn apply_preview_patch(patch: ControlPatch, preview: &mut PreviewState)
    ensures
        match patch.preview_enabled {
            Some(enabled) => final(preview).enabled == enabled && final(preview).latest_jpeg@ == (
            if enabled {
                old(preview).latest_jpeg@
            } else {
                Seq::empty()
            }),
            None => *final(preview) == *old(preview),
        },
{
    if let Some(enabled) = patch.preview_enabled {
        preview.set_enabled(enabled);
    }
}

/// Where the client is reached and what it is called.
#[derive(Debug)]
pub struct RemoteConfig {
    pub name: String,
    pub endpoint: String,
    pub addrs: Vec<String>,
    pub relays: Vec<String>,
}

/// What the remote control shows of the pictures.
#[derive(Debug)]
pub struct PreviewStatus {
    pub enabled: bool,
    pub decoding: bool,
    pub jpeg_bytes: usize,
    pub characteristic: String,
    pub offset_characteristic: String,
    pub chunk_bytes: usize,
}

/// What the remote control shows.
#[derive(Debug)]
pub struct StatusPayload {
    pub kind: &'static str,
    pub endpoint: String,
    pub addrs: Vec<String>,
    pub relays: Vec<String>,
    pub control: ControlStatus,
    pub preview: PreviewStatus,
}

/// What the remote control shows of the client.
pub fn status_payload(
    config: &RemoteConfig,
    control: ControlStatus,
    preview: Option<&PreviewState>,
) -> (payload: StatusPayload)
    ensures
        payload.kind@ == "irohsion-client-remote"@,
        payload.endpoint@ == config.endpoint@,
        text::texts(payload.addrs@) == text::texts(config.addrs@),
        text::texts(payload.relays@) == text::texts(config.relays@),
        payload.control == control,
        payload.preview.enabled == (preview is Some),
        payload.preview.decoding == (preview matches Some(state) && state.enabled),
        payload.preview.jpeg_bytes == (match preview {
            Some(state) => state.latest_jpeg@.len(),
            None => 0,
        }),
        payload.preview.characteristic@ == uuid_chars(PREVIEW_UUID),
        payload.preview.offset_characteristic@ == uuid_chars(PREVIEW_OFFSET_UUID),
        payload.preview.chunk_bytes == PREVIEW_CHUNK_BYTES,
{
    let decoding = match preview {
        Some(state) => state.enabled(),
        None => false,
    };
    let jpeg_bytes: usize = match preview {
        Some(state) => state.latest_jpeg_len(),
        None => 0,
    };
    StatusPayload {
        kind: "irohsion-client-remote",
        endpoint: config.endpoint.clone(),
        addrs: copy_names(config.addrs.as_slice()),
        relays: copy_names(config.relays.as_slice()),
        control,
        preview: PreviewStatus {
            enabled: preview.is_some(),
            decoding,
            jpeg_bytes,
            characteristic: uuid_text(PREVIEW_UUID),
            offset_characteristic: uuid_text(PREVIEW_OFFSET_UUID),
            chunk_bytes: PREVIEW_CHUNK_BYTES,
        },
    }
}

} // verus!
