//! What holds of what the client keeps, shows and accepts.

use crate::client_ctx;
use crate::client_ctx::ClientCtx;
use crate::clock;
use crate::clock::ClockError;
use crate::health_report::ChatMessage;
use crate::number_text;
use crate::obs;
use crate::obs::ParameterResult;
use crate::options;
use crate::options::{ClientPathOptions, ClientStartOptions, OptionError, ServerOptions};
use crate::path_events;
use crate::path_events::Sent;
use crate::path_link;
use crate::path_link::{BindAddr, InterfaceEntry, PathConnection};
use crate::preview;
use crate::protocol;
use crate::remote;
use crate::remote::ControlPatch;
use crate::strategy::{
    InterfaceControlStatus, InterfaceLinkStatus, InterfaceTraffic, PathStrategy, StrategyMode,
    StrategyState,
};
use crate::tc;
use crate::text;
use crate::view_laws;
use vstd::prelude::*;

verus! {

/// Messages that are merged keep those that were there, in front and as they were. Behind them
/// stand messages that came, each of which was not there before, and no message that came is
/// missing.
pub proof fn law_messages_are_merged(stored: Seq<ChatMessage>, messages: Seq<ChatMessage>)
    ensures
        stored.is_prefix_of(client_ctx::merged(stored, messages)),
        forall|i: int|
            0 <= i < messages.len() ==> client_ctx::is_known(
                client_ctx::merged(stored, messages),
                (#[trigger] messages[i]).id,
            ),
        forall|i: int|
            stored.len() <= i < client_ctx::merged(stored, messages).len() ==> messages.contains(
                #[trigger] client_ctx::merged(stored, messages)[i],
            ) && !client_ctx::is_known(stored, client_ctx::merged(stored, messages)[i].id),
        client_ctx::are_distinct(stored) ==> client_ctx::are_distinct(
            client_ctx::merged(stored, messages),
        ),
    decreases messages.len(),
{
    if messages.len() > 0 {
        let fewer = messages.drop_last();
        let last = messages.last();
        law_messages_are_merged(stored, fewer);
        let before = client_ctx::merged(stored, fewer);
        let after = client_ctx::merged(stored, messages);
        assert(stored =~= after.take(stored.len() as int));
        assert forall|i: int| 0 <= i < messages.len() implies client_ctx::is_known(
            after,
            (#[trigger] messages[i]).id,
        ) by {
            if i < fewer.len() {
                assert(fewer[i] == messages[i]);
                let k = choose|k: int| 0 <= k < before.len() && (#[trigger] before[k]).id
                    == messages[i].id;
                assert(after[k].id == messages[i].id);
            } else if client_ctx::is_known(before, last.id) {
            } else {
                assert(after[before.len() as int].id == last.id);
            }
        }
        assert forall|i: int| stored.len() <= i < after.len() implies messages.contains(
            #[trigger] after[i],
        ) && !client_ctx::is_known(stored, after[i].id) by {
            if i < before.len() {
                assert(before[i] == after[i]);
                let k = choose|k: int| 0 <= k < fewer.len() && fewer[k] == before[i];
                assert(messages[k] == after[i]);
            } else {
                assert(messages[messages.len() - 1] == after[i]);
                if client_ctx::is_known(stored, last.id) {
                    let k = choose|k: int| 0 <= k < stored.len() && (#[trigger] stored[k]).id
                        == last.id;
                    assert(before[k] == stored[k]);
                }
            }
        }
    }
}

/// Of more than a hundred messages the last hundred are kept, and of fewer all.
pub proof fn law_last_messages_are_kept(messages: Seq<ChatMessage>)
    ensures
        client_ctx::latest(messages).is_suffix_of(messages),
        messages.len() <= 100 ==> client_ctx::latest(messages) == messages,
        messages.len() > 100 ==> client_ctx::latest(messages).len() == 100,
{
    let kept = client_ctx::latest(messages);
    assert(kept =~= messages.subrange(messages.len() - kept.len(), messages.len() as int));
}

/// Options with which the client starts are refused exactly if something is wrong with them, and
/// of several wrong things the first is told.
pub proof fn law_client_start_options_are_judged(options: ClientStartOptions)
    ensures
        ({
            let interval = options.status_file_interval_ms > 0;
            let chunk = options.mpeg_ts_chunk_bytes matches Some(bytes) ==> bytes > 0 && bytes % 188
                == 0;
            let mtu = options.mtu matches Some(mtu) ==> mtu > 0;
            let time = options.repair_cache_ms > 0;
            let count = options.repair_cache_packets > 0;
            let error = options::start_error(options);
            &&& error is None <==> interval && chunk && mtu && time && count
            &&& error == Some(OptionError::StatusFileInterval) <==> !interval
            &&& error == Some(OptionError::MpegTsChunk) <==> interval && !chunk
            &&& error == Some(OptionError::Mtu) <==> interval && chunk && !mtu
            &&& error == Some(OptionError::RepairCacheTime) <==> interval && chunk && mtu && !time
            &&& error == Some(OptionError::RepairCachePackets) <==> interval && chunk && mtu && time
                && !count
        }),
{
}

/// Interfaces and options for them are refused exactly if something is wrong with them, and of
/// several wrong things the first is told. What a queue is reset by does not matter if none is.
pub proof fn law_client_path_options_are_judged(options: ClientPathOptions, paths: usize)
    ensures
        ({
            let few = paths <= 7;
            let poll = options.tc_backlog_poll_ms > 0;
            let levels = options.tc_backlog_recover_bytes <= options.tc_backlog_degrade_bytes;
            let backlog = !options.tc_qdisc_reset || options.tc_qdisc_reset_backlog_bytes > 0;
            let mbps = !options.tc_qdisc_reset || options.mbps_is_valid;
            let cooldown = !options.tc_qdisc_reset || options.tc_qdisc_reset_cooldown_ms > 0;
            let error = options::path_error(options, paths);
            &&& error is None <==> few && poll && levels && backlog && mbps && cooldown
            &&& error == Some(OptionError::TooManyInterfaces) <==> !few
            &&& error == Some(OptionError::BacklogPoll) <==> few && !poll
            &&& error == Some(OptionError::BacklogRecover) <==> few && poll && !levels
            &&& error == Some(OptionError::QdiscResetBacklog) <==> few && poll && levels && !backlog
            &&& error == Some(OptionError::QdiscResetMbps) <==> few && poll && levels && backlog
                && !mbps
            &&& error == Some(OptionError::QdiscResetCooldown) <==> few && poll && levels && backlog
                && mbps && !cooldown
        }),
{
}

/// Options of the server are refused exactly if something is wrong with them, and of several wrong
/// things the first is told. A server that asks again for packets asks before it gives them up.
pub proof fn law_server_options_are_judged(options: ServerOptions)
    ensures
        ({
            let idle = options.flow_idle_reset_secs > 0;
            let delay = options.max_reorder_delay_ms > 0;
            let some = !options.repair || options.repair_request_interval_ms > 0;
            let short = !options.repair || options.repair_request_interval_ms
                < options.max_reorder_delay_ms;
            let error = options::server_error(options);
            &&& error is None <==> idle && delay && some && short
            &&& error == Some(OptionError::FlowIdleReset) <==> !idle
            &&& error == Some(OptionError::ReorderDelay) <==> idle && !delay
            &&& error == Some(OptionError::RepairInterval) <==> idle && delay && !some
            &&& error == Some(OptionError::RepairIntervalTooLong) <==> idle && delay && some
                && !short
            &&& options::verdict(error) is Ok <==> error is None
            &&& error matches Some(wrong) ==> options::verdict(error) == Err::<(), OptionError>(
                wrong,
            )
        }),
{
}

/// Whether a place is that of the first address of an interface.
pub open spec fn is_first_address(entries: Seq<InterfaceEntry>, name: Seq<char>, place: int) -> bool {
    &&& 0 <= place < entries.len()
    &&& entries[place].name@ == name
    &&& entries[place].ipv4 is Some
    &&& forall|i: int| 0 <= i < place && (#[trigger] entries[i]).name@ == name ==> entries[i].ipv4 is None
}

/// The address that is found for an interface is that of its first entry with one, and there is
/// none exactly if no entry of it has one.
pub proof fn law_first_address_is_found(entries: Seq<InterfaceEntry>, name: Seq<char>)
    ensures
        path_link::first_ipv4(entries, name) is Some <==> exists|place: int| #[trigger]
            is_first_address(entries, name, place),
        forall|place: int| #[trigger]
            is_first_address(entries, name, place) ==> path_link::first_ipv4(entries, name)
                == entries[place].ipv4,
        path_link::first_ipv4(entries, name) is None <==> forall|i: int|
            0 <= i < entries.len() && (#[trigger] entries[i]).name@ == name ==> entries[i].ipv4 is None,
    decreases entries.len(),
{
    if entries.len() > 0 {
        let rest = entries.drop_first();
        law_first_address_is_found(rest, name);
        if entries[0].name@ == name && entries[0].ipv4 is Some {
            assert(is_first_address(entries, name, 0));
            assert forall|place: int| #[trigger] is_first_address(entries, name, place) implies place
                == 0 by {}
        } else {
            assert forall|place: int| #[trigger]
                is_first_address(entries, name, place) implies is_first_address(
                rest,
                name,
                place - 1,
            ) by {
                assert forall|i: int|
                    0 <= i < place - 1 && (#[trigger] rest[i]).name@ == name implies rest[i].ipv4 is None by {
                    assert(rest[i] == entries[i + 1]);
                }
            }
            assert forall|place: int| #[trigger]
                is_first_address(rest, name, place) implies is_first_address(
                entries,
                name,
                place + 1,
            ) by {
                assert forall|i: int|
                    0 <= i < place + 1 && (#[trigger] entries[i]).name@ == name implies entries[i].ipv4 is None by {
                    if i > 0 {
                        assert(rest[i - 1] == entries[i]);
                    }
                }
            }
            assert forall|i: int| 0 <= i < rest.len() implies #[trigger] rest[i] == entries[i + 1] by {}
            assert forall|i: int| 0 < i < entries.len() implies #[trigger] entries[i] == rest[i - 1] by {}
            if path_link::first_ipv4(entries, name) is Some {
                let p = choose|p: int| #[trigger] is_first_address(rest, name, p);
                assert(is_first_address(entries, name, p + 1));
            }
        }
    }
}

/// An interface over which something could not be sent is remembered as failed and as being
/// connected again; one over which something was sent, as connected and not failed; one that
/// could not be connected, as failed and dead. Nothing else changes for other interfaces.
pub proof fn law_what_happens_to_an_interface_is_remembered(
    before: StrategyState,
    after: StrategyState,
    interface: Seq<char>,
    other: Seq<char>,
    packet_len: u64,
)
    requires
        path_events::failed_over(before, after, interface) || path_events::send_counted(
            before,
            after,
            interface,
            packet_len,
        ) || path_events::reconnecting(before, after, interface) || path_events::died(
            before,
            after,
            interface,
        ),
    ensures
        path_events::failed_over(before, after, interface) || path_events::died(
            before,
            after,
            interface,
        ) ==> after.interface_failures@.contains_key(interface),
        path_events::failed_over(before, after, interface) || path_events::reconnecting(
            before,
            after,
            interface,
        ) ==> after.interface_status@.contains_key(interface) && after.interface_status@[interface]
            == InterfaceLinkStatus::Reconnecting,
        path_events::died(before, after, interface) ==> after.interface_status@.contains_key(
            interface,
        ) && after.interface_status@[interface] == InterfaceLinkStatus::Dead,
        path_events::send_counted(before, after, interface, packet_len)
            ==> !after.interface_failures@.contains_key(interface)
            && after.interface_status@.contains_key(interface) && after.interface_status@[interface]
            == InterfaceLinkStatus::Connected,
        path_events::reconnecting(before, after, interface) ==> after.interface_failures
            == before.interface_failures,
        other != interface ==> {
            &&& after.interface_failures@.contains_key(other)
                <==> before.interface_failures@.contains_key(other)
            &&& after.interface_status@.contains_key(other)
                <==> before.interface_status@.contains_key(other)
            &&& after.interface_status@.contains_key(other) ==> after.interface_status@[other]
                == before.interface_status@[other]
            &&& after.interface_traffic@.contains_key(other)
                <==> before.interface_traffic@.contains_key(other)
            &&& after.interface_traffic@.contains_key(other) ==> after.interface_traffic@[other]
                == before.interface_traffic@[other]
        },
        after.mode == before.mode,
        after.monitor_packets == before.monitor_packets,
{
}

/// Only a strategy that is chosen automatically falls back, to sending everything over every path,
/// and it is told only if it does something else so far.
pub proof fn law_only_the_automatic_strategy_falls_back(before: StrategyState, reason: Seq<char>)
    ensures
        before.mode == StrategyMode::Auto ==> (StrategyState {
            strategy: path_events::fallback(before),
            ..before
        }).effective() == PathStrategy::Redundant,
        before.mode == StrategyMode::Auto && before.effective() != PathStrategy::Redundant
            ==> path_events::fallback(before) == PathStrategy::Redundant,
        before.effective() == PathStrategy::Redundant ==> path_events::fallback(before)
            == before.strategy,
        before.mode != StrategyMode::Auto ==> path_events::fallback(before) == before.strategy,
        path_events::change_lines(before, reason).len() == if before.mode == StrategyMode::Auto
            && before.effective() != PathStrategy::Redundant {
            1int
        } else {
            0
        },
{
}

/// What is sent over an interface that is watched is counted: one packet more, and its bytes.
pub proof fn law_sent_packets_are_counted(
    before: StrategyState,
    after: StrategyState,
    interface: Seq<char>,
    packet_len: u64,
    sent: Sent,
)
    requires
        path_events::send_counted(before, after, interface, packet_len),
        before.monitor_packets,
        before.interface_traffic@.contains_key(interface),
        before.interface_traffic@[interface].tx_packets < u64::MAX,
        before.interface_traffic@[interface].tx_bytes + packet_len <= u64::MAX,
    ensures
        after.interface_traffic@.contains_key(interface),
        after.interface_traffic@[interface] == (InterfaceTraffic {
            tx_packets: (before.interface_traffic@[interface].tx_packets + 1) as u64,
            tx_bytes: (before.interface_traffic@[interface].tx_bytes + packet_len) as u64,
            ..before.interface_traffic@[interface]
        }),
        sent is Fec ==> path_events::counted_bytes(sent, packet_len) == packet_len,
        sent matches Sent::Media { payload_len, .. } ==> path_events::counted_bytes(
            sent,
            packet_len,
        ) == payload_len,
        sent matches Sent::Media { sequence, .. } ==> path_events::sent_sequence(sent) == sequence,
{
}

/// A pair that is found is the first from the place on, and none is found exactly if there is none.
proof fn lemma_first_pair(data: Seq<u8>, first: u8, second: u8, from: nat)
    ensures
        preview::find_pair(data, first, second, from) matches Some(place) ==> {
            &&& from <= place
            &&& preview::pair_at(data, first, second, place as int)
            &&& forall|i: int| from <= i < place ==> !#[trigger] preview::pair_at(data, first, second, i)
        },
        preview::find_pair(data, first, second, from) is None ==> forall|i: int|
            from <= i ==> !#[trigger] preview::pair_at(data, first, second, i),
    decreases data.len() - from,
{
    if from + 1 < data.len() && !preview::pair_at(data, first, second, from as int) {
        lemma_first_pair(data, first, second, from + 1);
    }
}

/// A pair is at a place also if something follows.
proof fn lemma_pair_before_more(
    data: Seq<u8>,
    more: Seq<u8>,
    first: u8,
    second: u8,
    from: nat,
)
    ensures
        preview::find_pair(data, first, second, from) matches Some(place) ==> preview::find_pair(
            data + more,
            first,
            second,
            from,
        ) == Some(place),
    decreases data.len() - from,
{
    if from + 1 < data.len() {
        assert((data + more)[from as int] == data[from as int]);
        let next: int = from as int + 1;
        assert((data + more)[next] == data[next]);
        if !preview::pair_at(data, first, second, from as int) {
            lemma_pair_before_more(data, more, first, second, from + 1);
        }
    }
}

/// The picture that is taken is the first: no start marker is before it and no end marker is in
/// it. None is taken exactly if no start marker has an end marker behind it.
pub proof fn law_first_picture_is_taken(data: Seq<u8>)
    ensures
        preview::frame_range(data) matches Some((start, end)) ==> {
            &&& preview::pair_at(data, 0xff, 0xd8, start as int)
            &&& end >= start + 4
            &&& preview::pair_at(data, 0xff, 0xd9, end - 2)
            &&& forall|i: int| 0 <= i < start ==> !#[trigger] preview::pair_at(data, 0xff, 0xd8, i)
            &&& forall|i: int|
                start + 2 <= i < end - 2 ==> !#[trigger] preview::pair_at(data, 0xff, 0xd9, i)
        },
        preview::frame_range(data) is None <==> forall|i: int, j: int|
            0 <= i && i + 2 <= j ==> !(#[trigger] preview::pair_at(data, 0xff, 0xd8, i)
                && #[trigger] preview::pair_at(data, 0xff, 0xd9, j)),
{
    lemma_first_pair(data, 0xff, 0xd8, 0);
    if let Some(start) = preview::find_pair(data, 0xff, 0xd8, 0) {
        lemma_first_pair(data, 0xff, 0xd9, start + 2);
        if let Some(end) = preview::find_pair(data, 0xff, 0xd9, start + 2) {
            assert(preview::pair_at(data, 0xff, 0xd8, start as int) && preview::pair_at(
                data,
                0xff,
                0xd9,
                end as int,
            ));
        }
    }
}

/// It does not matter in which parts a stream comes: the same pictures are taken, and the same
/// remains, which holds no whole picture.
pub proof fn law_pictures_do_not_depend_on_parts(
    stream: Seq<u8>,
    more: Seq<u8>,
    latest: Seq<u8>,
    max: nat,
)
    ensures
        ({
            let (rest, shown) = preview::pictures_taken(stream, latest, max);
            &&& preview::frame_range(rest) is None
            &&& rest.is_suffix_of(stream)
            &&& preview::pictures_taken(rest + more, shown, max) == preview::pictures_taken(
                stream + more,
                latest,
                max,
            )
        }),
    decreases stream.len(),
{
    preview::law_frame_has_its_markers(stream);
    if let Some((start, end)) = preview::frame_range(stream) {
        let frame = stream.subrange(start as int, end as int);
        let next = stream.skip(end as int);
        let kept = if frame.len() <= max {
            frame
        } else {
            latest
        };
        law_pictures_do_not_depend_on_parts(next, more, kept, max);
        lemma_pair_before_more(stream, more, 0xff, 0xd8, 0);
        lemma_pair_before_more(stream, more, 0xff, 0xd9, start + 2);
        assert(preview::frame_range(stream + more) == Some((start, end)));
        assert((stream + more).subrange(start as int, end as int) =~= frame);
        assert((stream + more).skip(end as int) =~= next + more);
        let rest = preview::pictures_taken(stream, latest, max).0;
        assert(rest == preview::pictures_taken(next, kept, max).0);
        assert(rest =~= stream.subrange(stream.len() - rest.len(), stream.len() as int)) by {
            assert(rest =~= next.subrange(next.len() - rest.len(), next.len() as int));
        }
    } else {
        assert(stream =~= stream.subrange(stream.len() - stream.len(), stream.len() as int));
    }
}

/// The last picture of a stream is shown, whatever was shown before, unless it is too large, and
/// then what was shown before stays.
pub proof fn law_last_picture_is_shown(stream: Seq<u8>, latest: Seq<u8>, max: nat)
    ensures
        preview::frame_range(stream) is None ==> preview::pictures_taken(stream, latest, max).1
            == latest,
        preview::frame_range(stream) matches Some((start, end)) ==> preview::frame_range(
            stream.skip(end as int),
        ) is None ==> preview::pictures_taken(stream, latest, max).1 == if end - start <= max {
            stream.subrange(start as int, end as int)
        } else {
            latest
        },
{
    preview::law_frame_has_its_markers(stream);
    reveal_with_fuel(preview::pictures_taken, 2);
}

/// The first word for the backlog in a line decides, by the word behind it; a line without such a
/// word says nothing.
pub proof fn law_backlog_follows_its_word(words: Seq<Seq<char>>, place: int)
    requires
        0 <= place <= words.len(),
        forall|i: int| 0 <= i < place ==> #[trigger] words[i] != "backlog"@,
        place < words.len() ==> words[place] == "backlog"@,
    ensures
        place == words.len() ==> tc::backlog_in_words(words) is None,
        place == words.len() - 1 ==> tc::backlog_in_words(words) == Some(None::<u64>),
        place < words.len() - 1 ==> tc::backlog_in_words(words) == Some(
            tc::backlog_bytes_of(words[place + 1]),
        ),
    decreases words.len(),
{
    if place > 0 {
        let rest = words.drop_first();
        assert(words[0] != "backlog"@);
        assert forall|i: int| 0 <= i < place - 1 implies #[trigger] rest[i] != "backlog"@ by {
            assert(rest[i] == words[i + 1]);
        }
        law_backlog_follows_its_word(rest, place - 1);
    }
}

/// A number of bytes is read back as it is written, with the letter for bytes behind it. Without
/// that letter nothing is read.
pub proof fn law_backlog_is_read_back(bytes: u64, word: Seq<char>)
    ensures
        tc::backlog_bytes_of(text::decimal(bytes as nat).push('b')) == Some(bytes),
        word.len() == 0 || word.last() != 'b' ==> tc::backlog_bytes_of(word) is None,
{
    text::law_decimal_round_trip(bytes as nat, u64::MAX as nat);
    assert(text::decimal(bytes as nat).push('b').drop_last() =~= text::decimal(bytes as nat));
}

/// Of the lines of the tool the first that speaks of the backlog decides.
pub proof fn law_first_line_with_backlog_decides(lines: Seq<Seq<char>>, place: int)
    requires
        0 <= place <= lines.len(),
        forall|i: int|
            0 <= i < place ==> tc::backlog_in_words(text::words(#[trigger] lines[i])) is None,
        place < lines.len() ==> tc::backlog_in_words(text::words(lines[place])) is Some,
    ensures
        place == lines.len() ==> tc::backlog_in_lines(lines) is None,
        place < lines.len() ==> Some(tc::backlog_in_lines(lines)) == tc::backlog_in_words(
            text::words(lines[place]),
        ),
    decreases lines.len(),
{
    if place > 0 {
        let rest = lines.drop_first();
        assert(tc::backlog_in_words(text::words(lines[0])) is None);
        assert forall|i: int| 0 <= i < place - 1 implies tc::backlog_in_words(
            text::words(#[trigger] rest[i]),
        ) is None by {
            assert(rest[i] == lines[i + 1]);
        }
        law_first_line_with_backlog_decides(rest, place - 1);
    }
}

/// The place that is written is the number whose bytes are written, the least significant first.
#[verifier::spinoff_prover]
pub proof fn law_offset_is_little_endian(offset: u32, value: Seq<u8>)
    ensures
        value.len() != 4 ==> remote::offset_of(value) is None,
        value.len() == 4 && value[0] == offset % 256 && value[1] == offset / 256 % 256 && value[2]
            == offset / 65536 % 256 && value[3] == offset / 16777216 ==> remote::offset_of(value)
            == Some(offset as nat),
{
    protocol::lemma_le4_value(offset as int);
    assert(offset / 16777216 % 256 == offset / 16777216);
}

/// A piece is as long as a message leaves room for, and not longer than it may be.
pub proof fn law_piece_fits_in_a_message(mtu: u16, most: usize)
    ensures
        remote::piece_len(mtu, most) <= most,
        mtu >= 2 ==> remote::piece_len(mtu, most) + 1 <= mtu,
        most > 0 ==> remote::piece_len(mtu, most) > 0,
        mtu > most ==> remote::piece_len(mtu, most) == most,
        2 < mtu <= most ==> remote::piece_len(mtu, most) == mtu - 1,
{
}

/// What the remote control does not mention stays as it is, and what it mentions is as it says.
pub proof fn law_patch_changes_what_it_mentions(strategy: StrategyState, patch: ControlPatch)
    ensures
        ({
            let after = remote::patched(strategy, patch);
            &&& patch.mode matches Some(mode) ==> after.mode == mode
            &&& patch.mode is None ==> after.mode == strategy.mode
            &&& patch.monitor_packets matches Some(monitor) ==> after.monitor_packets == monitor
            &&& patch.monitor_packets is None ==> after.monitor_packets == strategy.monitor_packets
            &&& after == (StrategyState {
                mode: after.mode,
                monitor_packets: after.monitor_packets,
                ..strategy
            })
        }),
{
}

/// The failure of a connection concerns the one that is up exactly if it is that one; a failure that
/// names none concerns whichever is up, and nothing concerns a path that is not connected. A path
/// is never lost: it is connected, or asked to connect.
pub proof fn law_failures_concern_their_connection(path: PathConnection, id: usize)
    ensures
        path.live is None ==> !path.is_hit(Some(id)) && !path.is_hit(None),
        path.live matches Some(live) ==> path.is_hit(None) && (path.is_hit(Some(id)) <==> id
            == live.connection_id),
        path.is_alive() <==> path.live is Some || path.reconnect_requested,
{
}

/// An address is written by its four bytes, the most significant first, and its port.
#[verifier::spinoff_prover]
pub proof fn law_addresses_are_written_by_bytes(a: u8, b: u8, c: u8, d: u8, port: u16)
    ensures
        ({
            let ip = (a * 16777216 + b * 65536 + c * 256 + d) as u32;
            path_link::addr_text(BindAddr { ip, port }) == text::decimal(a as nat) + "."@
                + text::decimal(b as nat) + "."@ + text::decimal(c as nat) + "."@ + text::decimal(
                d as nat,
            ) + ":"@ + text::decimal(port as nat)
        }),
{
    lemma_bytes_of_address(a as int, b as int, c as int, d as int);
}

proof fn lemma_bytes_of_address(a: int, b: int, c: int, d: int)
    requires
        0 <= a < 256,
        0 <= b < 256,
        0 <= c < 256,
        0 <= d < 256,
    ensures
        ({
            let ip = a * 16777216 + b * 65536 + c * 256 + d;
            &&& 0 <= ip < 4294967296
            &&& ip / 16777216 == a
            &&& ip / 65536 % 256 == b
            &&& ip / 256 % 256 == c
            &&& ip % 256 == d
        }),
{
    let ip = a * 16777216 + b * 65536 + c * 256 + d;
    vstd::arithmetic::div_mod::lemma_fundamental_div_mod_converse(ip, 16777216, a, b * 65536 + c * 256 + d);
    vstd::arithmetic::div_mod::lemma_fundamental_div_mod_converse(ip, 65536, a * 256 + b, c * 256 + d);
    vstd::arithmetic::div_mod::lemma_fundamental_div_mod_converse(a * 256 + b, 256, a, b);
    vstd::arithmetic::div_mod::lemma_fundamental_div_mod_converse(ip, 256, a * 65536 + b * 256 + c, d);
    vstd::arithmetic::div_mod::lemma_fundamental_div_mod_converse(a * 65536 + b * 256 + c, 256, a * 256 + b, c);
}

/// The number of a session is its seconds, if they fit in 32 bits; a time is its milliseconds, if
/// they fit in 64; and what lies before the epoch is refused. Units are counted whole.
pub proof fn law_times_are_counted_whole(count: nat, unit: nat, rest: nat)
    requires
        unit > 0,
        rest < unit,
    ensures
        clock::whole_units(Some(count * unit + rest), unit) == Some(count),
        clock::whole_units(None, unit) is None,
        count <= u32::MAX ==> clock::session_number(Some(count)) == Ok::<u32, ClockError>(
            count as u32,
        ),
        count > u32::MAX ==> clock::session_number(Some(count)) == Err::<u32, ClockError>(
            ClockError::SessionTooLarge,
        ),
        count <= u64::MAX ==> clock::timestamp(Some(count)) == Ok::<u64, ClockError>(count as u64),
        count > u64::MAX ==> clock::timestamp(Some(count)) == Err::<u64, ClockError>(
            ClockError::TimestampTooLarge,
        ),
        clock::session_number(None) == Err::<u32, ClockError>(ClockError::BeforeEpoch),
        clock::timestamp(None) == Err::<u64, ClockError>(ClockError::BeforeEpoch),
{
    assert((count * unit + rest) / unit == count) by (nonlinear_arith)
        requires
            unit > 0,
            rest < unit,
    ;
}

/// The bitrate is looked for in the parameter that was named first, then in those that usually hold
/// it, and in none twice. It is set if one of them took it.
pub proof fn law_bitrate_parameters_are_tried_once(
    category: Seq<char>,
    name: Seq<char>,
    results: Seq<ParameterResult>,
)
    ensures
        ({
            let list = obs::bitrate_parameters(category, name);
            &&& list[0] == (category, name)
            &&& list.contains(("AdvOut"@, "FFVBitrate"@))
            &&& list.contains(("SimpleOutput"@, "VBitrate"@))
            &&& list.no_duplicates()
            &&& list.len() <= 3
        }),
        obs::some_applied(results) <==> !(forall|i: int|
            0 <= i < results.len() ==> (#[trigger] results[i]).error is Some),
{
    let first = seq![(category, name)];
    let advanced = ("AdvOut"@, "FFVBitrate"@);
    let simple = ("SimpleOutput"@, "VBitrate"@);
    let second = obs::with_parameter(first, advanced);
    let list = obs::with_parameter(second, simple);
    assert(second.contains(advanced)) by {
        if !first.contains(advanced) {
            assert(second[1] == advanced);
        }
    }
    let k = choose|k: int| 0 <= k < second.len() && second[k] == advanced;
    assert(list[k] == advanced);
    assert(list.contains(simple)) by {
        if !second.contains(simple) {
            assert(list[second.len() as int] == simple);
        }
    }
}

/// What is shown of the strategy is the name of its mode, with a mark if the shares are weighted
/// while it is automatic, and the names of modes and strategies are told apart.
pub proof fn law_modes_are_named(strategy: StrategyState)
    ensures
        strategy.mode == StrategyMode::Auto && strategy.weighted_auto_split ==> strategy.mode_label()
            == "auto+weighted"@,
        strategy.mode == StrategyMode::Auto && !strategy.weighted_auto_split
            ==> strategy.mode_label() == "auto"@,
        strategy.mode == StrategyMode::Redundant ==> strategy.mode_label() == "redundant"@,
        strategy.mode == StrategyMode::Split ==> strategy.mode_label() == "split"@,
        strategy.mode == StrategyMode::RoundRobin ==> strategy.mode_label() == "roundrobin"@,
        path_events::shown_labels(strategy).0 == strategy.mode_label(),
        strategy.effective() == PathStrategy::Redundant ==> path_events::shown_labels(strategy).1
            == "redundant"@,
        strategy.effective() == PathStrategy::Split ==> path_events::shown_labels(strategy).1
            == "split"@,
{
}

/// What is shown of an interface is what is known of it: its link, dead if nothing is known, what was
/// sent over it, and what the server said of it last.
pub proof fn law_known_interfaces_are_shown(
    strategy: StrategyState,
    shown: InterfaceControlStatus,
    name: Seq<char>,
    now: u64,
)
    requires
        strategy.shows(shown, name, now),
    ensures
        shown.name@ == name,
        strategy.interface_status@.contains_key(name) ==> shown.status
            == strategy.interface_status@[name],
        !strategy.interface_status@.contains_key(name) ==> shown.status
            == InterfaceLinkStatus::Dead,
        strategy.interface_traffic@.contains_key(name) ==> shown.tx_packets
            == strategy.interface_traffic@[name].tx_packets && shown.tx_bytes
            == strategy.interface_traffic@[name].tx_bytes,
        !strategy.interface_traffic@.contains_key(name) ==> shown.tx_packets == 0
            && shown.tx_bytes == 0,
        strategy.health_by_interface@.contains_key(name) ==> shown.server_last_seq
            == strategy.health_by_interface@[name]@.last_seq && shown.server_max_seq
            == strategy.health_by_interface@[name]@.max_seq,
        !strategy.health_by_interface@.contains_key(name) ==> shown.server_last_seq is None
            && shown.server_max_seq is None && shown.server_mbps is None,
{
}

/// A failure to send is announced: by the line for it, and by one for the change of strategy if it
/// falls back, in the log if there is a view and printed if there is none.
pub proof fn law_changes_are_announced(
    before: ClientCtx,
    after: ClientCtx,
    printed: Seq<Seq<char>>,
    lines: Seq<Seq<char>>,
    labels: Option<(Seq<char>, Seq<char>)>,
)
    requires
        path_events::announced(before, after, printed, lines, labels),
        before.well_formed(),
        lines.len() <= 120,
    ensures
        before.ui is None ==> printed == lines && after.ui is None,
        before.ui matches Some(ui) ==> {
            &&& printed.len() == 0
            &&& after.ui matches Some(now)
            &&& lines.is_suffix_of(text::texts(now.logs@))
            &&& labels matches Some((mode, effective)) ==> now.strategy_mode@ == mode
                && now.effective_strategy@ == effective
            &&& labels is None ==> now.strategy_mode == ui.strategy_mode
                && now.effective_strategy == ui.effective_strategy
            &&& now.send_errors == ui.send_errors
            &&& now.sent_packets == ui.sent_packets
        },
{
    if let Some(ui) = before.ui {
        view_laws::law_logged_lines_are_last(text::texts(ui.logs@), lines);
    }
}

/// Digits, with or without a sign, and with or without one point among them, are a number; a text
/// without digits is none.
pub proof fn law_digits_are_a_number(whole: Seq<char>, part: Seq<char>)
    requires
        number_text::all_digits(whole),
        number_text::all_digits(part),
    ensures
        whole.len() > 0 ==> number_text::is_number(whole) && number_text::is_float(whole)
            && number_text::is_float(seq!['-'] + whole) && number_text::is_float(seq!['+'] + whole),
        whole.len() + part.len() > 0 <==> number_text::is_mantissa(whole + seq!['.'] + part),
        !number_text::is_mantissa(Seq::empty()),
{
    let marks = number_text::exponent_marks();
    let points = number_text::points();
    assert forall|i: int| 0 <= i < whole.len() implies !marks(#[trigger] whole[i]) && !points(
        whole[i],
    ) by {
        assert(text::is_digit(whole[i]));
    }
    text::lemma_is_first_where(whole, marks, whole.len());
    text::lemma_is_first_where(whole, points, whole.len());
    if whole.len() > 0 {
        assert(text::is_digit(whole[0]));
        assert(number_text::without_sign(whole) == whole);
        assert((seq!['-'] + whole).drop_first() =~= whole);
        assert((seq!['+'] + whole).drop_first() =~= whole);
    }
    let all = whole + seq!['.'] + part;
    assert forall|i: int| 0 <= i < whole.len() implies !points(#[trigger] all[i]) by {
        assert(all[i] == whole[i]);
    }
    assert(points(all[whole.len() as int]));
    text::lemma_is_first_where(all, points, whole.len());
    assert(all.take(whole.len() as int) =~= whole);
    assert(all.skip(whole.len() as int + 1) =~= part);
    text::lemma_is_first_where(Seq::empty(), points, 0);
}

} // verus!
