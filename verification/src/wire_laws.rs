//! What holds of what is sent: where each field stands, what is refused, and what is kept to send it
//! again or to recover it.

use crate::fec::{FecModel, FEC_FRAME_TRACK_LIMIT, FEC_PAYLOAD_TRACK_LIMIT};
use crate::health_report;
use crate::keys;
use crate::ordered;
use crate::protocol;
use crate::protocol::{
    DecodeError, FecFrameView, PacketHeader, RepairRequest, MAX_MEDIA_SEQUENCE,
};
use crate::receive;
use crate::receive::{FecModelFrame, FrameError, FrameModel, PacketModel};
use crate::repair_cache::FragmentModel;
use crate::sending;
use crate::sending::SendModel;
use crate::split;
use crate::strategy::{PathStrategy, StrategyMode};
use crate::text;
use vstd::prelude::*;

verus! {

/// A packet is four bytes and its payload. The four bytes, the least significant first, hold the
/// sequence number in the lowest 26 bits, then the number of the fragment in three bits, and the
/// number of fragments in the highest three.
#[verifier::spinoff_prover]
pub proof fn law_packet_layout(header: PacketHeader, payload: Seq<u8>)
    requires
        header.encodable(),
    ensures
        ({
            let data = protocol::packet_bytes(header, payload);
            &&& data.len() == 4 + payload.len()
            &&& data[0] + 256 * data[1] + 65536 * data[2] + 16777216 * data[3] == header.sequence
                + 67108864 * header.fragment + 536870912 * header.fragments
            &&& data.skip(4) == payload
        }),
{
    let word = protocol::header_word(
        header.sequence as int,
        header.fragment as int,
        header.fragments as int,
    );
    protocol::lemma_fields_of_header_word(
        header.sequence as int,
        header.fragment as int,
        header.fragments as int,
    );
    protocol::lemma_le4_value(word);
    let data = protocol::packet_bytes(header, payload);
    assert(data.skip(4) =~= payload);
    assert(protocol::from_le4(data) == protocol::from_le4(protocol::le4(word)));
}

/// A packet is refused exactly if it is shorter than its header, if it has no fragments, or if its
/// fragment is not one of them; and it is told which.
#[verifier::spinoff_prover]
pub proof fn law_bad_packets_are_refused(data: Seq<u8>)
    requires
        data.len() <= usize::MAX,
    ensures
        data.len() < 4 ==> (protocol::packet_of(data) matches Err(DecodeError::TooShort { actual })
            && actual == data.len()),
        data.len() >= 4 ==> {
            let word = data[0] + 256 * data[1] + 65536 * data[2] + 16777216 * data[3];
            let fragment = word / 67108864 % 8;
            let fragments = word / 536870912;
            if fragment < fragments {
                &&& protocol::packet_of(data) matches Ok((header, payload))
                &&& header.sequence == word % 67108864
                &&& header.fragment == fragment
                &&& header.fragments == fragments
                &&& payload == data.skip(4)
            } else {
                &&& protocol::packet_of(data) matches Err(
                    DecodeError::InvalidFragment { fragment: f, fragments: n },
                )
                &&& f == fragment
                &&& n == fragments
            }
        },
{
}

/// A request is four bytes of a sequence number, the least significant first, and a mask. It is
/// refused exactly if it has not that length, the sequence number has more than 26 bits, or the
/// mask is empty or has more than seven bits.
#[verifier::spinoff_prover]
pub proof fn law_repair_request_layout(request: RepairRequest, data: Seq<u8>)
    requires
        request.encodable(),
    ensures
        ({
            let bytes = protocol::repair_request_bytes(request);
            &&& bytes.len() == 5
            &&& bytes[0] + 256 * bytes[1] + 65536 * bytes[2] + 16777216 * bytes[3]
                == request.sequence
            &&& bytes[4] == request.missing_mask
        }),
        protocol::repair_request_of(data) is Ok <==> data.len() == 5 && data[0] + 256 * data[1]
            + 65536 * data[2] + 16777216 * data[3] <= 67108863 && 0 < data[4] <= 127,
        protocol::repair_request_of(data) matches Ok(found) ==> found.sequence == data[0] + 256
            * data[1] + 65536 * data[2] + 16777216 * data[3] && found.missing_mask == data[4],
{
    protocol::lemma_le4_value(request.sequence as int);
    let bytes = protocol::repair_request_bytes(request);
    assert(protocol::from_le4(bytes) == protocol::from_le4(
        protocol::le4(request.sequence as int),
    ));
}

/// A parity frame is a packet with the highest sequence number, whole, that holds the bytes of
/// `IFEC1`, four bytes of the first sequence number of the group, a byte that counts the group, two
/// bytes for the length of each payload, and the parity; the least significant bytes come first.
#[verifier::spinoff_prover]
pub proof fn law_parity_frame_layout(frame: FecFrameView)
    requires
        frame.encodable(),
    ensures
        ({
            let data = protocol::fec_frame_bytes(frame);
            let count = frame.payload_lengths.len();
            &&& data.len() == 14 + 2 * count + frame.parity.len()
            &&& data[0] + 256 * data[1] + 65536 * data[2] + 16777216 * data[3] == 67108863
                + 536870912
            &&& data.subrange(4, 9) == seq![73u8, 70u8, 69u8, 67u8, 49u8]
            &&& data[9] + 256 * data[10] + 65536 * data[11] + 16777216 * data[12]
                == frame.base_sequence
            &&& data[13] == count
            &&& forall|i: int|
                0 <= i < count ==> data[14 + 2 * i] + 256 * data[14 + 2 * i + 1]
                    == #[trigger] frame.payload_lengths[i]
            &&& data.skip((14 + 2 * count) as int) == frame.parity
        }),
{
    let payload = protocol::fec_payload(frame);
    let data = protocol::fec_frame_bytes(frame);
    let count = frame.payload_lengths.len();
    law_packet_layout(protocol::fec_header(), payload);
    let base = protocol::le4(frame.base_sequence as int);
    protocol::lemma_le4_value(frame.base_sequence as int);
    assert(forall|i: int| 0 <= i < payload.len() ==> #[trigger] data[4 + i] == payload[i]);
    assert(data.subrange(4, 9) =~= seq![73u8, 70u8, 69u8, 67u8, 49u8]);
    assert(data[9] == base[0] && data[10] == base[1] && data[11] == base[2] && data[12] == base[3]);
    assert forall|i: int| 0 <= i < count implies data[14 + 2 * i] + 256 * data[14 + 2 * i + 1]
        == #[trigger] frame.payload_lengths[i] by {
        let length = frame.payload_lengths[i];
        let bytes = protocol::lengths_bytes(frame.payload_lengths);
        assert(length <= 0xffff);
        assert(data[14 + 2 * i] == bytes[2 * i]);
        assert(data[14 + 2 * i + 1] == bytes[2 * i + 1]);
        assert((2 * i) % 2 == 0 && (2 * i) / 2 == i);
        assert((2 * i + 1) % 2 == 1 && (2 * i + 1) / 2 == i);
    }
    assert(data.skip((14 + 2 * count) as int) =~= frame.parity);
}

/// A parity frame is accepted exactly if it begins with its mark, its first sequence number is that
/// of a media packet, it counts from one to 32 packets, it holds a length for each, and the parity is
/// as long as the longest of them.
#[verifier::spinoff_prover]
pub proof fn law_bad_parity_frames_are_refused(payload: Seq<u8>)
    ensures
        protocol::fec_payload_of(payload) is Ok <==> {
            let count = payload[9] as int;
            &&& payload.len() >= 10
            &&& payload.take(5) == seq![73u8, 70u8, 69u8, 67u8, 49u8]
            &&& payload[5] + 256 * payload[6] + 65536 * payload[7] + 16777216 * payload[8]
                <= 67108862
            &&& 1 <= count <= 32
            &&& payload.len() >= 10 + 2 * count
            &&& forall|i: int|
                #![trigger payload[10 + 2 * i]]
                0 <= i < count ==> payload[10 + 2 * i] + 256 * payload[10 + 2 * i + 1]
                    <= payload.len() - 10 - 2 * count
        },
{
    let count = payload[9] as nat;
    let tail = payload.skip(10);
    let lengths = protocol::lengths_of(tail, count);
    if payload.len() >= 10 + 2 * count {
        let parity = payload.skip((10 + 2 * count) as int);
        assert forall|i: int| 0 <= i < count implies #[trigger] lengths[i] == payload[10 + 2 * i]
            + 256 * payload[10 + 2 * i + 1] by {
            assert(tail[2 * i] == payload[10 + 2 * i]);
            assert(tail[2 * i + 1] == payload[10 + 2 * i + 1]);
        }
        if !protocol::exceeds_parity(lengths, parity.len()) {
            assert forall|i: int|
                #![trigger payload[10 + 2 * i]]
                0 <= i < count implies payload[10 + 2 * i] + 256 * payload[10 + 2 * i + 1]
                <= payload.len() - 10 - 2 * count by {
                assert(lengths[i] <= parity.len());
            }
        } else {
            let i = choose|i: int| 0 <= i < lengths.len() && #[trigger] lengths[i] > parity.len();
            assert(payload[10 + 2 * i] + 256 * payload[10 + 2 * i + 1] == lengths[i]);
        }
    }
    if payload.len() >= 10 {
        let base = payload.skip(5);
        assert(base[0] == payload[5] && base[1] == payload[6] && base[2] == payload[7] && base[3]
            == payload[8]);
    }
}

/// A datagram with a media packet is taken for that packet, and one with a parity frame for that
/// frame, with where it came from.
pub proof fn law_frames_are_told_apart(
    header: PacketHeader,
    payload: Seq<u8>,
    frame: FecFrameView,
    remote: Seq<char>,
    connection_id: usize,
)
    requires
        header.encodable(),
        header.sequence <= MAX_MEDIA_SEQUENCE,
        frame.encodable(),
    ensures
        receive::frame_of(protocol::packet_bytes(header, payload), remote, connection_id) == Ok::<
            FrameModel,
            FrameError,
        >(FrameModel::Packet(PacketModel { remote, connection_id, header, payload })),
        receive::frame_of(protocol::fec_frame_bytes(frame), remote, connection_id) == Ok::<
            FrameModel,
            FrameError,
        >(FrameModel::Fec(FecModelFrame { remote, frame })),
{
    protocol::law_packet_round_trip(header, payload);
    protocol::law_packet_round_trip(protocol::fec_header(), protocol::fec_payload(frame));
    protocol::law_fec_frame_round_trip(frame);
}

/// Every fragment that is sent again goes over every path, the fragments in order and each over the
/// paths in order, as it was sent.
#[verifier::spinoff_prover]
pub proof fn law_repairs_go_over_every_path(
    fragments: Seq<FragmentModel>,
    paths: Seq<usize>,
    sequence: u64,
)
    ensures
        sending::repairs(fragments, paths, sequence).len() == fragments.len() * paths.len(),
        forall|i: int, j: int|
            0 <= i < fragments.len() && 0 <= j < paths.len() ==> sending::repairs(
                fragments,
                paths,
                sequence,
            )[i * paths.len() + j] == (SendModel::Send {
                path: #[trigger] paths[j],
                packet: (#[trigger] fragments[i]).packet,
                sequence,
                payload_len: fragments[i].payload_len,
            }),
    decreases fragments.len(),
{
    let n = paths.len() as int;
    let m = fragments.len() as int;
    let all = sending::repairs(fragments, paths, sequence);
    if m == 0 {
        assert(m * n == 0) by (nonlinear_arith)
            requires
                m == 0,
        ;
    } else {
        let fewer = fragments.drop_last();
        law_repairs_go_over_every_path(fewer, paths, sequence);
        let before = sending::repairs(fewer, paths, sequence);
        assert((m - 1) * n + n == m * n) by (nonlinear_arith);
        assert forall|i: int, j: int| 0 <= i < m && 0 <= j < n implies all[i * n + j] == (
        SendModel::Send {
            path: #[trigger] paths[j],
            packet: (#[trigger] fragments[i]).packet,
            sequence,
            payload_len: fragments[i].payload_len,
        }) by {
            if i < m - 1 {
                assert(fewer[i] == fragments[i]);
                assert(0 <= i * n + j < (m - 1) * n) by (nonlinear_arith)
                    requires
                        0 <= i < m - 1,
                        0 <= j < n,
                ;
                assert(before[i * n + j] == all[i * n + j]);
            } else {
                assert(i * n + j - (m - 1) * n == j) by (nonlinear_arith)
                    requires
                        i == m - 1,
                ;
                assert(all[i * n + j] == sending::repair_sends(
                    fragments.last(),
                    paths,
                    sequence,
                )[j]);
            }
        }
    }
}

/// The first payload of a media packet is kept as it is, with those that were kept before, as long
/// as there are fewer than 4096; from then on the one that came first goes for each that comes.
pub proof fn law_payloads_are_kept_for_recovery(
    state: FecModel,
    sequence: u64,
    payload: Seq<u8>,
    other: u64,
)
    requires
        state.well_formed(),
        sequence <= MAX_MEDIA_SEQUENCE,
        other != sequence,
    ensures
        ({
            let after = state.with_payload(sequence, payload);
            &&& after.frames == state.frames
            &&& state.payloads.contains_key(sequence) ==> after == state
            &&& !state.payloads.contains_key(sequence) && state.payloads.dom().len() < 4096 ==> {
                &&& after.payloads.contains_key(sequence)
                &&& after.payloads[sequence] == payload
                &&& after.payloads.contains_key(other) <==> state.payloads.contains_key(other)
                &&& after.payloads.contains_key(other) ==> after.payloads[other]
                    == state.payloads[other]
                &&& after.payload_order == state.payload_order.push(sequence)
            }
            &&& !state.payloads.contains_key(sequence) && state.payloads.dom().len() == 4096
                && state.payload_order.len() > 0 && state.payloads.contains_key(
                state.payload_order[0],
            ) ==> {
                &&& after.payloads.contains_key(sequence)
                &&& after.payloads[sequence] == payload
                &&& after.payloads.contains_key(other) <==> state.payloads.contains_key(other)
                    && other != state.payload_order[0]
                &&& after.payload_order == state.payload_order.push(sequence).drop_first()
            }
        }),
        FEC_PAYLOAD_TRACK_LIMIT == 4096,
{
    let all = state.payloads.insert(sequence, payload);
    let order = state.payload_order.push(sequence);
    if !state.payloads.contains_key(sequence) {
        assert(all.dom() =~= state.payloads.dom().insert(sequence));
        assert(all.dom().len() == state.payloads.dom().len() + 1);
        if state.payloads.dom().len() == 4096 && state.payload_order.len() > 0
            && state.payloads.contains_key(state.payload_order[0]) {
            let first = state.payload_order[0];
            assert(order[0] == first);
            assert(all.remove(first).dom() =~= all.dom().remove(first));
            assert(all.remove(first).dom().len() == 4096);
            assert(ordered::evicted(all, order, 4096) == ordered::evicted(
                all.remove(first),
                order.drop_first(),
                4096,
            ));
        }
    }
}

/// A parity frame takes the place of the one with the same first sequence number, and others stay,
/// as long as there are fewer than 256; from then on the one that came first goes for each that
/// comes.
pub proof fn law_parity_frames_are_kept(state: FecModel, frame: FecFrameView, other: u64)
    requires
        state.well_formed(),
        frame.base_sequence <= MAX_MEDIA_SEQUENCE,
        other != frame.base_sequence,
        state.frames.contains_key(frame.base_sequence) || state.frames.dom().len() < 256,
    ensures
        ({
            let after = state.with_frame(frame);
            &&& after.frames.contains_key(frame.base_sequence)
            &&& after.frames[frame.base_sequence] == frame
            &&& after.frames.contains_key(other) <==> state.frames.contains_key(other)
            &&& after.frames.contains_key(other) ==> after.frames[other] == state.frames[other]
            &&& after.payloads == state.payloads
            &&& after.payload_order == state.payload_order
        }),
        FEC_FRAME_TRACK_LIMIT == 256,
{
    let base = frame.base_sequence;
    let all = state.frames.insert(base, frame);
    if state.frames.contains_key(base) {
        assert(all.dom() =~= state.frames.dom());
    } else {
        assert(all.dom() =~= state.frames.dom().insert(base));
    }
}

/// Without a threshold split mode divides every packet among several paths, and automatic mode
/// none. Whatever the threshold, a packet that reaches the greatest size is divided, and one that
/// does not is sent whole over a single path, and in the modes that send whole packets.
pub proof fn law_division_without_threshold(
    packet_len: usize,
    threshold: Option<usize>,
    mtu: Option<usize>,
    path_count: usize,
    mode: StrategyMode,
    strategy: PathStrategy,
)
    ensures
        (mtu matches Some(most) && packet_len >= most) ==> split::splits(
            packet_len,
            threshold,
            mtu,
            path_count,
            mode,
            strategy,
        ),
        !(mtu matches Some(most) && packet_len >= most) ==> {
            &&& path_count <= 1 ==> !split::splits(
                packet_len,
                threshold,
                mtu,
                path_count,
                mode,
                strategy,
            )
            &&& mode == StrategyMode::Redundant || mode == StrategyMode::RoundRobin
                ==> !split::splits(packet_len, threshold, mtu, path_count, mode, strategy)
            &&& mode == StrategyMode::Auto && strategy != PathStrategy::Split ==> !split::splits(
                packet_len,
                threshold,
                mtu,
                path_count,
                mode,
                strategy,
            )
            &&& mode == StrategyMode::Split && path_count > 1 ==> split::splits(
                packet_len,
                None,
                mtu,
                path_count,
                mode,
                strategy,
            )
            &&& mode == StrategyMode::Auto ==> !split::splits(
                packet_len,
                None,
                mtu,
                path_count,
                mode,
                strategy,
            )
        },
{
}

/// A payload is one of a transport stream exactly if it is some packets of 188 bytes, each of which
/// begins with the byte 0x47.
#[verifier::spinoff_prover]
pub proof fn law_transport_stream_is_recognised(payload: Seq<u8>, count: nat)
    requires
        payload.len() == 188 * count,
    ensures
        split::is_mpeg_ts(payload) <==> count > 0 && forall|i: int|
            0 <= i < count ==> #[trigger] payload[i * 188] == 0x47,
        split::is_mpeg_ts(payload.push(0)) ==> false,
{
    if split::is_mpeg_ts(payload) {
        assert forall|i: int| 0 <= i < count implies #[trigger] payload[i * 188] == 0x47 by {
            assert(payload[i * split::MPEG_TS_PACKET_SIZE] == split::MPEG_TS_SYNC_BYTE);
        }
    }
    if count > 0 && forall|i: int| 0 <= i < count ==> #[trigger] payload[i * 188] == 0x47 {
        assert forall|i: int|
            0 <= i && i * split::MPEG_TS_PACKET_SIZE < payload.len() implies #[trigger] payload[i
            * split::MPEG_TS_PACKET_SIZE] == split::MPEG_TS_SYNC_BYTE by {
            assert(payload[i * 188] == 0x47);
        }
    }
    assert((188 * count + 1) % 188 == 1);
}

/// A message that is written into a report holds no tab, line feed or carriage return, and one that
/// holds none of these and no backslash is written as it is.
pub proof fn law_messages_stay_in_their_fields(message: Seq<char>)
    ensures
        forall|i: int|
            0 <= i < health_report::encoded_text(message).len() ==> {
                let c = #[trigger] health_report::encoded_text(message)[i];
                c != '\t' && c != '\n' && c != '\r'
            },
        (forall|i: int|
            0 <= i < message.len() ==> {
                let c = #[trigger] message[i];
                c != '\t' && c != '\n' && c != '\r' && c != '\\'
            }) ==> health_report::encoded_text(message) == message,
    decreases message.len(),
{
    if message.len() > 0 {
        let shorter = message.drop_last();
        law_messages_stay_in_their_fields(shorter);
        let before = health_report::encoded_text(shorter);
        let more = health_report::encoded_char(message.last());
        let all = health_report::encoded_text(message);
        assert(all == before + more);
        assert forall|i: int| 0 <= i < all.len() implies {
            let c = #[trigger] all[i];
            c != '\t' && c != '\n' && c != '\r'
        } by {
            if i < before.len() {
                assert(all[i] == before[i]);
            } else {
                assert(all[i] == more[i - before.len()]);
            }
        }
        if forall|i: int|
            0 <= i < message.len() ==> {
                let c = #[trigger] message[i];
                c != '\t' && c != '\n' && c != '\r' && c != '\\'
            } {
            assert forall|i: int| 0 <= i < shorter.len() implies {
                let c = #[trigger] shorter[i];
                c != '\t' && c != '\n' && c != '\r' && c != '\\'
            } by {
                assert(shorter[i] == message[i]);
            }
            assert(message[message.len() - 1] == message.last());
            assert(more == seq![message.last()]);
            assert(all =~= message);
        }
    } else {
        assert(health_report::encoded_text(message) =~= message);
    }
}

/// The fields of a text, put together with the separator between them, make the text, and none of
/// them holds the separator.
pub proof fn law_fields_make_the_text(line: Seq<char>, separator: char)
    ensures
        text::joined(text::fields(line, separator), seq![separator]) == line,
        text::fields(line, separator).len() > 0,
        forall|i: int|
            0 <= i < text::fields(line, separator).len() ==> !(#[trigger] text::fields(
                line,
                separator,
            )[i]).contains(separator),
    decreases line.len(),
{
    let list = text::fields(line, separator);
    let mark = seq![separator];
    if line.len() == 0 {
        assert(list =~= seq![Seq::<char>::empty()]);
        assert(text::joined(list, mark) =~= line);
    } else {
        let shorter = line.drop_last();
        law_fields_make_the_text(shorter, separator);
        let before = text::fields(shorter, separator);
        let cut = text::only(separator);
        assert(before == text::split_where(shorter, cut));
        if line.last() == separator {
            assert(cut(line.last()));
            assert(list == before.push(Seq::<char>::empty()));
            assert(list.drop_last() =~= before);
            assert(text::joined(list, mark) == text::joined(before, mark) + mark
                + Seq::<char>::empty());
            assert(text::joined(list, mark) =~= line);
            assert forall|i: int| 0 <= i < list.len() implies !(#[trigger] list[i]).contains(
                separator,
            ) by {
                if i < before.len() {
                    assert(list[i] == before[i]);
                }
            }
        } else {
            assert(!cut(line.last()));
            let longer = before.last().push(line.last());
            assert(list == before.drop_last().push(longer));
            assert(list.drop_last() =~= before.drop_last());
            if before.len() == 1 {
                assert(text::joined(before, mark) == before[0]);
                assert(text::joined(list, mark) == list[0]);
                assert(list[0] == longer);
            } else {
                assert(text::joined(list, mark) == text::joined(before.drop_last(), mark) + mark
                    + longer);
                assert(text::joined(before, mark) == text::joined(before.drop_last(), mark) + mark
                    + before.last());
            }
            assert(text::joined(list, mark) =~= shorter.push(line.last()));
            assert(shorter.push(line.last()) =~= line);
            assert forall|i: int| 0 <= i < list.len() implies !(#[trigger] list[i]).contains(
                separator,
            ) by {
                if i < before.len() - 1 {
                    assert(list[i] == before[i]);
                } else {
                    assert(list[i] == longer);
                    assert(!before[before.len() - 1].contains(separator));
                    if longer.contains(separator) {
                        let k = choose|k: int| 0 <= k < longer.len() && longer[k] == separator;
                        assert(before.last()[k] == separator);
                    }
                }
            }
        }
    }
}

/// For each secret key its line and that of its endpoint stand together, with an empty line between
/// two keys.
pub proof fn law_identities_are_listed(secrets: Seq<[u8; 32]>)
    requires
        secrets.len() > 0,
    ensures
        keys::identity_text(secrets).len() == 3 * secrets.len() - 1,
        forall|i: int|
            0 <= i < secrets.len() ==> {
                &&& keys::identity_text(secrets)[3 * i] == "secret="@ + keys::hex_of(
                    (#[trigger] secrets[i])@,
                )
                &&& keys::identity_text(secrets)[3 * i + 1] == "endpoint="@ + keys::endpoint_id_of(
                    secrets[i]@,
                )
                &&& i + 1 < secrets.len() ==> keys::identity_text(secrets)[3 * i + 2].len() == 0
            },
    decreases secrets.len(),
{
    let fewer = secrets.drop_last();
    let all = keys::identity_text(secrets);
    if secrets.len() > 1 {
        law_identities_are_listed(fewer);
        let before = keys::identity_text(fewer);
        assert forall|i: int| 0 <= i < secrets.len() implies {
            &&& all[3 * i] == "secret="@ + keys::hex_of((#[trigger] secrets[i])@)
            &&& all[3 * i + 1] == "endpoint="@ + keys::endpoint_id_of(secrets[i]@)
            &&& i + 1 < secrets.len() ==> all[3 * i + 2].len() == 0
        } by {
            if i < fewer.len() {
                assert(fewer[i] == secrets[i]);
                assert(all[3 * i] == before[3 * i]);
                assert(all[3 * i + 1] == before[3 * i + 1]);
                if i + 1 < fewer.len() {
                    assert(all[3 * i + 2] == before[3 * i + 2]);
                }
            }
        }
    }
}

} // verus!
