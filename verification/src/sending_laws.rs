//! What holds of everything that the client sends.

use crate::protocol;
use crate::protocol::{PacketHeader, MAX_FRAGMENTS, MAX_MEDIA_SEQUENCE};
use crate::receive;
use crate::receive::{FrameError, FrameModel, PacketModel};
use crate::repair_cache;
use crate::repair_cache::FragmentModel;
use crate::sending;
use crate::sending::{PlanKind, PlanModel, SendModel, SendOptions, SendPath, SenderModel};
use crate::sequence;
use crate::split;
use crate::strategy::{PathStrategy, StrategyMode};
use vstd::prelude::*;

verus! {

/// A packet that is sent whole gives the receiver its payload back.
pub proof fn law_whole_packet_carries_the_payload(
    sequence: u64,
    payload: Seq<u8>,
    remote: Seq<char>,
    connection_id: usize,
)
    requires
        sequence <= MAX_MEDIA_SEQUENCE,
    ensures
        receive::frame_of(sending::whole_packet(sequence, payload), remote, connection_id) == Ok::<
            FrameModel,
            FrameError,
        >(
            FrameModel::Packet(
                PacketModel {
                    remote,
                    connection_id,
                    header: PacketHeader { sequence, fragment: 0, fragments: 1 },
                    payload,
                },
            ),
        ),
{
    protocol::law_packet_round_trip(PacketHeader { sequence, fragment: 0, fragments: 1 }, payload);
}

/// However a payload is divided, the receiver reads each fragment as it was meant, and all of them
/// together make the payload.
pub proof fn law_fragments_rebuild_the_payload(
    sequence: u64,
    payload: Seq<u8>,
    cuts: Seq<usize>,
    mtu: Option<usize>,
    remote: Seq<char>,
    connection_id: usize,
)
    requires
        sequence <= MAX_MEDIA_SEQUENCE,
        payload.len() <= usize::MAX,
        cuts.len() > 0,
        mtu matches Some(max_payload) ==> max_payload > 0,
    ensures
        split::division_of(payload.len() as usize, cuts, mtu) matches Some(parts) ==> {
            let fragments = sending::fragments_of(sequence, payload, parts);
            &&& forall|i: int|
                0 <= i < parts.len() ==> receive::frame_of(
                    (#[trigger] fragments[i]).packet,
                    remote,
                    connection_id,
                ) == Ok::<FrameModel, FrameError>(
                    FrameModel::Packet(
                        PacketModel {
                            remote,
                            connection_id,
                            header: PacketHeader {
                                sequence,
                                fragment: i as u8,
                                fragments: parts.len() as u8,
                            },
                            payload: sending::part_at(payload, parts[i]),
                        },
                    ),
                )
            &&& receive::joined_parts(split::parts_of(payload, parts)) == payload
        },
{
    split::law_division_covers_packet(payload.len() as usize, cuts, mtu);
    split::law_parts_make_the_payload(payload, cuts, mtu);
    if let Some(parts) = split::division_of(payload.len() as usize, cuts, mtu) {
        let fragments = sending::fragments_of(sequence, payload, parts);
        assert forall|i: int| 0 <= i < parts.len() implies protocol::packet_of(
            (#[trigger] fragments[i]).packet,
        ) == Ok::<(PacketHeader, Seq<u8>), protocol::DecodeError>(
            (
                PacketHeader { sequence, fragment: i as u8, fragments: parts.len() as u8 },
                sending::part_at(payload, parts[i]),
            ),
        ) by {
            protocol::law_packet_round_trip(
                PacketHeader { sequence, fragment: i as u8, fragments: parts.len() as u8 },
                sending::part_at(payload, parts[i]),
            );
        }
    }
}

/// Every packet that is sent goes over a connected path.
pub open spec fn over_connected(actions: Seq<SendModel>, paths: Seq<SendPath>) -> bool {
    forall|i: int|
        0 <= i < actions.len() ==> (#[trigger] actions[i] matches SendModel::Send { path, .. }
            ==> path < paths.len() && paths[path as int].connected)
}

/// The paths of a list are connected.
pub open spec fn all_connected(list: Seq<usize>, paths: Seq<SendPath>) -> bool {
    forall|i: int|
        0 <= i < list.len() ==> (#[trigger] list[i]) < paths.len() && paths[list[i] as int].connected
}

proof fn lemma_lists_are_connected(paths: Seq<SendPath>, names: Seq<Seq<char>>)
    requires
        paths.len() <= usize::MAX,
    ensures
        all_connected(sending::active_paths(paths), paths),
        all_connected(sending::named_paths(paths, names), paths),
    decreases paths.len(),
{
    if paths.len() > 0 {
        let rest = paths.drop_last();
        lemma_lists_are_connected(rest, names);
        let active = sending::active_paths(paths);
        let named = sending::named_paths(paths, names);
        assert forall|i: int| 0 <= i < active.len() implies (#[trigger] active[i]) < paths.len()
            && paths[active[i] as int].connected by {
            if i < sending::active_paths(rest).len() {
                assert(active[i] == sending::active_paths(rest)[i]);
            }
        }
        assert forall|i: int| 0 <= i < named.len() implies (#[trigger] named[i]) < paths.len()
            && paths[named[i] as int].connected by {
            if i < sending::named_paths(rest, names).len() {
                assert(named[i] == sending::named_paths(rest, names)[i]);
            }
        }
    }
}

proof fn lemma_act(sender: SenderModel, action: SendModel, paths: Seq<SendPath>)
    requires
        over_connected(sender.actions, paths),
        action matches SendModel::Send { path, .. } ==> path < paths.len()
            && paths[path as int].connected,
    ensures
        over_connected(sender.act(action).actions, paths),
{
    let actions = sender.act(action).actions;
    assert forall|i: int| 0 <= i < actions.len() implies (#[trigger] actions[i] matches
        SendModel::Send { path, .. } ==> path < paths.len() && paths[path as int].connected) by {
        if i < sender.actions.len() {
            assert(actions[i] == sender.actions[i]);
        }
    }
}

proof fn lemma_sent_over(
    sender: SenderModel,
    list: Seq<usize>,
    packet: Seq<u8>,
    payload_len: u64,
    paths: Seq<SendPath>,
)
    requires
        over_connected(sender.actions, paths),
        all_connected(list, paths),
    ensures
        over_connected(sender.sent_over(list, packet, payload_len).actions, paths),
    decreases list.len(),
{
    if list.len() > 0 {
        let rest = list.drop_last();
        assert(all_connected(rest, paths)) by {
            assert forall|i: int| 0 <= i < rest.len() implies (#[trigger] rest[i]) < paths.len()
                && paths[rest[i] as int].connected by {
                assert(rest[i] == list[i]);
            }
        }
        lemma_sent_over(sender, rest, packet, payload_len, paths);
        assert(list[list.len() - 1] < paths.len());
        lemma_act(
            sender.sent_over(rest, packet, payload_len),
            SendModel::Send { path: list.last(), packet, sequence: sender.seq, payload_len },
            paths,
        );
    }
}

proof fn lemma_sent_parts(
    sender: SenderModel,
    fragments: Seq<FragmentModel>,
    parts: Seq<(usize, usize, usize)>,
    list: Seq<usize>,
    count: nat,
    paths: Seq<SendPath>,
)
    requires
        over_connected(sender.actions, paths),
        all_connected(list, paths),
        count <= parts.len(),
        forall|i: int| 0 <= i < parts.len() ==> (#[trigger] parts[i]).0 < list.len(),
    ensures
        over_connected(sender.sent_parts(fragments, parts, list, count).actions, paths),
    decreases count,
{
    if count > 0 {
        lemma_sent_parts(sender, fragments, parts, list, (count - 1) as nat, paths);
        assert(parts[count - 1].0 < list.len());
        assert(list[parts[count - 1].0 as int] < paths.len());
        lemma_act(
            sender.sent_parts(fragments, parts, list, (count - 1) as nat),
            SendModel::Send {
                path: list[parts[count - 1].0 as int],
                packet: fragments[count - 1].packet,
                sequence: sender.seq,
                payload_len: fragments[count - 1].payload_len,
            },
            paths,
        );
    }
}

proof fn lemma_recorded(sender: SenderModel, payload: Seq<u8>, paths: Seq<SendPath>)
    requires
        over_connected(sender.actions, paths),
    ensures
        over_connected(sender.recorded(payload).advanced().actions, paths),
{
    let group = sender.group.push((sender.seq, payload));
    if let Some(frame) = crate::fec::group_packet(group) {
        lemma_act(
            SenderModel { group: Seq::empty(), ..sender },
            SendModel::Fec { frame },
            paths,
        );
    }
}

proof fn lemma_whole_over(
    sender: SenderModel,
    payload: Seq<u8>,
    list: Seq<usize>,
    now: u64,
    paths: Seq<SendPath>,
)
    requires
        over_connected(sender.actions, paths),
        all_connected(list, paths),
    ensures
        over_connected(sender.whole_over(payload, list, now).actions, paths),
{
    let cached = sender.cached(seq![sending::whole_fragment(sender.seq, payload)], now);
    let packet = sending::whole_packet(sender.seq, payload);
    lemma_sent_over(cached, list, packet, payload.len() as u64, paths);
    lemma_recorded(cached.sent_over(list, packet, payload.len() as u64), payload, paths);
}

proof fn lemma_whole_in_turn(
    sender: SenderModel,
    payload: Seq<u8>,
    active: Seq<usize>,
    now: u64,
    paths: Seq<SendPath>,
)
    requires
        over_connected(sender.actions, paths),
        all_connected(active, paths),
        0 < active.len() <= u64::MAX,
    ensures
        over_connected(sender.whole_in_turn(payload, active, now).actions, paths),
{
    let turn = (sender.cursor % (active.len() as u64)) as int;
    assert(0 <= turn < active.len());
    assert(active[turn] < paths.len());
    let moved = SenderModel {
        cursor: crate::server_ui::wrapped_sum(sender.cursor, 1),
        ..sender
    };
    assert(all_connected(seq![active[turn]], paths));
    lemma_whole_over(moved, payload, seq![active[turn]], now, paths);
}

proof fn lemma_chunks_sent(
    sender: SenderModel,
    payload: Seq<u8>,
    parts: Seq<(usize, usize, usize)>,
    plan: PlanModel,
    count: nat,
    now: u64,
    paths: Seq<SendPath>,
)
    requires
        over_connected(sender.actions, paths),
        all_connected(plan.active, paths),
        all_connected(plan.split, paths),
        0 < plan.active.len() <= u64::MAX,
        count <= parts.len(),
        plan.kind == PlanKind::RoundRobinChunks || plan.kind == PlanKind::RedundantChunks || (
        forall|i: int| 0 <= i < parts.len() ==> (#[trigger] parts[i]).0 < plan.split.len()),
    ensures
        over_connected(sender.chunks_sent(payload, parts, plan, count, now).actions, paths),
    decreases count,
{
    if count > 0 {
        lemma_chunks_sent(sender, payload, parts, plan, (count - 1) as nat, now, paths);
        let before = sender.chunks_sent(payload, parts, plan, (count - 1) as nat, now);
        let part = parts[count - 1];
        let chunk = sending::part_at(payload, part);
        if plan.kind == PlanKind::RoundRobinChunks {
            lemma_whole_in_turn(before, chunk, plan.active, now, paths);
        } else if plan.kind == PlanKind::RedundantChunks {
            lemma_whole_over(before, chunk, plan.active, now, paths);
        } else {
            assert(part.0 < plan.split.len());
            assert(plan.split[part.0 as int] < paths.len());
            assert(all_connected(seq![plan.split[part.0 as int]], paths));
            lemma_whole_over(before, chunk, seq![plan.split[part.0 as int]], now, paths);
        }
    }
}

proof fn lemma_divided_over(
    sender: SenderModel,
    payload: Seq<u8>,
    parts: Seq<(usize, usize, usize)>,
    list: Seq<usize>,
    rescue: Seq<usize>,
    now: u64,
    paths: Seq<SendPath>,
)
    requires
        over_connected(sender.actions, paths),
        all_connected(list, paths),
        all_connected(rescue, paths),
        forall|i: int| 0 <= i < parts.len() ==> (#[trigger] parts[i]).0 < list.len(),
    ensures
        over_connected(sender.divided_over(payload, parts, list, rescue, now).actions, paths),
{
    let fragments = sending::fragments_of(sender.seq, payload, parts);
    let cached = sender.cached(fragments, now);
    lemma_sent_parts(cached, fragments, parts, list, parts.len(), paths);
    let sent = cached.sent_parts(fragments, parts, list, parts.len());
    let packet = sending::whole_packet(sender.seq, payload);
    let again = sent.cached(seq![sending::whole_fragment(sender.seq, payload)], now);
    lemma_sent_over(again, rescue, packet, payload.len() as u64, paths);
    lemma_recorded(sent, payload, paths);
    lemma_recorded(again.sent_over(rescue, packet, payload.len() as u64), payload, paths);
}

/// Whatever is planned for the paths that there are, nothing is sent over a path that is not
/// connected.
pub proof fn law_sending_uses_connected_paths(
    sender: SenderModel,
    payload: Seq<u8>,
    options: SendOptions,
    paths: Seq<SendPath>,
    mode: StrategyMode,
    strategy: PathStrategy,
    split_names: Seq<Seq<char>>,
    rescue_names: Seq<Seq<char>>,
    cuts: Seq<usize>,
    now: u64,
)
    requires
        options.well_formed(),
        paths.len() <= usize::MAX,
        payload.len() <= usize::MAX,
        over_connected(sender.actions, paths),
        cuts.len() == sending::named_paths(paths, split_names).len(),
    ensures
        ({
            let plan = sending::plan_of(
                payload,
                options,
                paths,
                mode,
                strategy,
                split_names,
                rescue_names,
            );
            over_connected(sender.carried_out(payload, plan, cuts, options, now).actions, paths)
        }),
{
    let plan = sending::plan_of(
        payload,
        options,
        paths,
        mode,
        strategy,
        split_names,
        rescue_names,
    );
    lemma_lists_are_connected(paths, split_names);
    lemma_lists_are_connected(paths, rescue_names);
    sending::lemma_paths_exist(paths, split_names);
    let shown = match plan.shown {
        Some(list) => sender.act(SendModel::Show { paths: list }),
        None => sender,
    };
    if let Some(list) = plan.shown {
        lemma_act(sender, SendModel::Show { paths: list }, paths);
    }
    let len = payload.len() as usize;
    match plan.kind {
        PlanKind::Held => {},
        PlanKind::Dropped => {},
        PlanKind::RoundRobinPacket => {
            lemma_whole_in_turn(shown, payload, plan.active, now, paths);
        },
        PlanKind::RedundantPacket => {
            lemma_whole_over(shown, payload, plan.active, now, paths);
        },
        PlanKind::SplitPacket => {
            split::lemma_division_fits(len, cuts, options.mtu);
            match split::division_of(len, cuts, options.mtu) {
                Some(parts) => {
                    lemma_divided_over(
                        shown,
                        payload,
                        parts,
                        plan.split,
                        plan.rescue,
                        now,
                        paths,
                    );
                },
                None => {
                    lemma_act(
                        shown,
                        SendModel::Refuse { error: sending::refusal(len, options.mtu) },
                        paths,
                    );
                },
            }
        },
        _ => {
            let parts = sending::chunk_parts(len, options.mpeg_ts_chunk_bytes->0, plan.kind, cuts);
            sending::lemma_chunk_parts(len, options.mpeg_ts_chunk_bytes->0, plan.kind, cuts);
            lemma_chunks_sent(shown, payload, parts, plan, parts.len(), now, paths);
        },
    }
}

/// What is sent over a list of paths is sent over each of them, after what was sent before.
pub proof fn lemma_sent_over_each(
    sender: SenderModel,
    list: Seq<usize>,
    packet: Seq<u8>,
    payload_len: u64,
)
    ensures
        sender.sent_over(list, packet, payload_len) == (SenderModel {
            actions: sender.actions + Seq::new(
                list.len(),
                |i: int|
                    SendModel::Send { path: list[i], packet, sequence: sender.seq, payload_len },
            ),
            ..sender
        }),
    decreases list.len(),
{
    let all = Seq::new(
        list.len(),
        |i: int| SendModel::Send { path: list[i], packet, sequence: sender.seq, payload_len },
    );
    if list.len() > 0 {
        lemma_sent_over_each(sender, list.drop_last(), packet, payload_len);
        let rest = Seq::new(
            list.drop_last().len(),
            |i: int|
                SendModel::Send {
                    path: list.drop_last()[i],
                    packet,
                    sequence: sender.seq,
                    payload_len,
                },
        );
        assert(all =~= rest.push(all.last()));
        assert(sender.actions + all =~= (sender.actions + rest).push(all.last()));
    } else {
        assert(sender.actions + all =~= sender.actions);
    }
}

/// A payload that is sent whole over some paths goes as the same packet over each of them, once,
/// and what follows is at most a parity frame.
pub proof fn law_whole_packet_goes_over_each_path(
    sender: SenderModel,
    payload: Seq<u8>,
    list: Seq<usize>,
    now: u64,
)
    ensures
        ({
            let before = sender.actions.len();
            let actions = sender.whole_over(payload, list, now).actions;
            &&& before + list.len() <= actions.len() <= before + list.len() + 1
            &&& actions.take(before as int) == sender.actions
            &&& forall|i: int|
                0 <= i < list.len() ==> #[trigger] actions[before + i] == (SendModel::Send {
                    path: list[i],
                    packet: sending::whole_packet(sender.seq, payload),
                    sequence: sender.seq,
                    payload_len: payload.len() as u64,
                })
            &&& before + list.len() < actions.len() ==> actions.last() is Fec
        }),
{
    let cached = sender.cached(seq![sending::whole_fragment(sender.seq, payload)], now);
    let packet = sending::whole_packet(sender.seq, payload);
    lemma_sent_over_each(cached, list, packet, payload.len() as u64);
    let actions = sender.whole_over(payload, list, now).actions;
    assert(actions.take(sender.actions.len() as int) =~= sender.actions);
}

/// Each connected path is on the list of active paths.
pub proof fn law_active_paths_are_all_connected_paths(paths: Seq<SendPath>, index: usize)
    requires
        paths.len() <= usize::MAX,
        index < paths.len(),
    ensures
        sending::active_paths(paths).contains(index) <==> paths[index as int].connected,
    decreases paths.len(),
{
    let rest = paths.drop_last();
    let active = sending::active_paths(paths);
    let before = sending::active_paths(rest);
    lemma_lists_are_connected(paths, Seq::empty());
    if active.contains(index) {
        let i = choose|i: int| 0 <= i < active.len() && active[i] == index;
        assert(active[i] < paths.len());
    }
    if paths[index as int].connected {
        if index < rest.len() {
            law_active_paths_are_all_connected_paths(rest, index);
            let i = choose|i: int| 0 <= i < before.len() && before[i] == index;
            assert(active[i] == index);
        } else {
            assert(active[before.len() as int] == index);
        }
    }
}

/// A packet that was sent whole can be asked for.
pub proof fn law_whole_packet_is_remembered(
    sender: SenderModel,
    payload: Seq<u8>,
    list: Seq<usize>,
    now: u64,
)
    requires
        sender.cache.well_formed(sender.max_packets),
        sender.max_packets > 0,
    ensures
        ({
            let after = sender.whole_over(payload, list, now).cache;
            &&& after.packets.contains_key(sender.seq)
            &&& after.packets[sender.seq].fragments == seq![
                sending::whole_fragment(sender.seq, payload),
            ]
        }),
{
    let fragments = seq![sending::whole_fragment(sender.seq, payload)];
    let cached = sender.cached(fragments, now);
    lemma_sent_over_each(
        cached,
        list,
        sending::whole_packet(sender.seq, payload),
        payload.len() as u64,
    );
    repair_cache::lemma_with_packet(
        sender.cache,
        sender.seq,
        fragments,
        sender.max_packets,
        sender.ttl,
        now,
    );
}

/// A packet that was sent in fragments can be asked for: as it was sent, or whole if it was sent
/// whole as well.
pub proof fn law_divided_packet_is_remembered(
    sender: SenderModel,
    payload: Seq<u8>,
    parts: Seq<(usize, usize, usize)>,
    list: Seq<usize>,
    rescue: Seq<usize>,
    now: u64,
)
    requires
        sender.cache.well_formed(sender.max_packets),
        sender.max_packets > 0,
        0 < parts.len() <= MAX_FRAGMENTS,
    ensures
        ({
            let after = sender.divided_over(payload, parts, list, rescue, now).cache;
            &&& after.packets.contains_key(sender.seq)
            &&& after.packets[sender.seq].fragments == (if rescue.len() == 0 {
                sending::fragments_of(sender.seq, payload, parts)
            } else {
                seq![sending::whole_fragment(sender.seq, payload)]
            })
        }),
{
    let fragments = sending::fragments_of(sender.seq, payload, parts);
    let whole = seq![sending::whole_fragment(sender.seq, payload)];
    let cached = sender.cached(fragments, now);
    sending::lemma_sent_parts_keeps(cached, fragments, parts, list, parts.len());
    let sent = cached.sent_parts(fragments, parts, list, parts.len());
    repair_cache::lemma_with_packet(
        sender.cache,
        sender.seq,
        fragments,
        sender.max_packets,
        sender.ttl,
        now,
    );
    repair_cache::lemma_with_packet(
        sent.cache,
        sender.seq,
        whole,
        sender.max_packets,
        sender.ttl,
        now,
    );
    lemma_sent_over_each(
        sent.cached(whole, now),
        rescue,
        sending::whole_packet(sender.seq, payload),
        payload.len() as u64,
    );
}

/// Each chunk of a payload takes a sequence number of its own, one after the other.
pub proof fn law_each_chunk_has_its_sequence(
    sender: SenderModel,
    payload: Seq<u8>,
    parts: Seq<(usize, usize, usize)>,
    plan: PlanModel,
    count: nat,
    now: u64,
)
    ensures
        sender.chunks_sent(payload, parts, plan, count, now).seq == sequence::following_by(
            sender.seq,
            count,
        ),
    decreases count,
{
    if count > 0 {
        law_each_chunk_has_its_sequence(
            sender,
            payload,
            parts,
            plan,
            (count - 1) as nat,
            now,
        );
        let before = sender.chunks_sent(payload, parts, plan, (count - 1) as nat, now);
        let part = parts[count - 1];
        let chunk = sending::part_at(payload, part);
        let packet = sending::whole_packet(before.seq, chunk);
        let fragments = seq![sending::whole_fragment(before.seq, chunk)];
        let turn = plan.active[(before.cursor % (plan.active.len() as u64)) as int];
        let moved = SenderModel {
            cursor: crate::server_ui::wrapped_sum(before.cursor, 1),
            ..before
        };
        let len = chunk.len() as u64;
        lemma_sent_over_each(before.cached(fragments, now), plan.active, packet, len);
        lemma_sent_over_each(moved.cached(fragments, now), seq![turn], packet, len);
        lemma_sent_over_each(
            before.cached(fragments, now),
            seq![plan.split[part.0 as int]],
            packet,
            len,
        );
    }
}

/// The chunks that a payload is sent in make the payload.
pub proof fn law_chunks_make_the_payload(
    payload: Seq<u8>,
    chunk: usize,
    kind: PlanKind,
    cuts: Seq<usize>,
)
    requires
        chunk > 0,
        payload.len() <= usize::MAX,
        cuts.len() <= usize::MAX,
        kind == PlanKind::SplitChunks ==> cuts.len() > 0,
    ensures
        receive::joined_parts(
            split::parts_of(
                payload,
                sending::chunk_parts(payload.len() as usize, chunk, kind, cuts),
            ),
        ) == payload,
{
    let parts = sending::chunk_parts(payload.len() as usize, chunk, kind, cuts);
    sending::lemma_chunk_parts(payload.len() as usize, chunk, kind, cuts);
    split::lemma_covering_parts_join(payload, parts);
}

/// If a threshold is set and packets are being split over several paths, a payload that exceeds the
/// threshold is divided, and one that does not is sent whole over every path.
pub proof fn law_threshold_decides(
    payload: Seq<u8>,
    options: SendOptions,
    paths: Seq<SendPath>,
    split_names: Seq<Seq<char>>,
    rescue_names: Seq<Seq<char>>,
)
    requires
        paths.len() <= usize::MAX,
        payload.len() <= usize::MAX,
        options.split_threshold_bytes is Some,
        options.mtu matches Some(mtu) ==> payload.len() < mtu,
        !sending::is_chunked(payload, options),
        sending::named_paths(paths, split_names).len() > 1,
    ensures
        sending::plan_of(
            payload,
            options,
            paths,
            StrategyMode::Auto,
            PathStrategy::Split,
            split_names,
            rescue_names,
        ).kind == (if payload.len() > options.split_threshold_bytes->0 {
            PlanKind::SplitPacket
        } else {
            PlanKind::RedundantPacket
        }),
{
    sending::lemma_paths_exist(paths, split_names);
}

} // verus!
