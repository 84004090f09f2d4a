//! What a payload comes to on the paths: which packets go over which path.

use crate::fec;
use crate::fec::SourceModel;
use crate::protocol;
use crate::protocol::PacketHeader;
use crate::receive;
use crate::repair_cache::FragmentModel;
use crate::sending;
use crate::sending::{PlanKind, PlanModel, SendModel, SendOptions, SendPath, SenderModel};
use crate::sending_laws;
use crate::sequence;
use crate::server_ui;
use crate::split;
use crate::strategy::{PathStrategy, StrategyMode};
use vstd::prelude::*;

verus! {

/// A packet and the path that it is sent over.
pub type SentModel = (usize, Seq<u8>);

/// The packets that are sent, in order, each with its path.
pub open spec fn sends_of(actions: Seq<SendModel>) -> Seq<SentModel>
    decreases actions.len(),
{
    if actions.len() == 0 {
        Seq::empty()
    } else {
        let before = sends_of(actions.drop_last());
        match actions.last() {
            SendModel::Send { path, packet, .. } => before.push((path, packet)),
            _ => before,
        }
    }
}

/// The packets that are sent over a path, in order.
pub open spec fn over_path(sends: Seq<SentModel>, path: usize) -> Seq<Seq<u8>>
    decreases sends.len(),
{
    if sends.len() == 0 {
        Seq::empty()
    } else {
        let before = over_path(sends.drop_last(), path);
        if sends.last().0 == path {
            before.push(sends.last().1)
        } else {
            before
        }
    }
}

/// The packets that carry these payloads whole, one after the other.
pub open spec fn packets_of(first: u64, payloads: Seq<Seq<u8>>) -> Seq<Seq<u8>> {
    Seq::new(
        payloads.len(),
        |k: int| sending::whole_packet(sequence::following_by(first, k as nat), payloads[k]),
    )
}

/// The sender once a payload has been planned for and sent.
pub open spec fn after_payload(
    sender: SenderModel,
    payload: Seq<u8>,
    options: SendOptions,
    paths: Seq<SendPath>,
    mode: StrategyMode,
    strategy: PathStrategy,
    split_names: Seq<Seq<char>>,
    rescue_names: Seq<Seq<char>>,
    cuts: Seq<usize>,
    now: u64,
) -> SenderModel {
    let plan = sending::plan_of(
        payload,
        options,
        paths,
        mode,
        strategy,
        split_names,
        rescue_names,
    );
    sender.carried_out(payload, plan, cuts, options, now)
}

/// Whether payloads are what a payload is sent as: the payload itself, or, where it is a transport
/// stream that exceeds the size of a chunk, chunks that make it one after the other, none of which
/// exceeds that size.
pub open spec fn are_pieces(
    pieces: Seq<Seq<u8>>,
    payload: Seq<u8>,
    options: SendOptions,
) -> bool {
    &&& pieces.flatten() == payload
    &&& match options.mpeg_ts_chunk_bytes {
        Some(chunk) if payload.len() > chunk && split::is_mpeg_ts(payload) => forall|k: int|
            0 <= k < pieces.len() ==> 0 < (#[trigger] pieces[k]).len() <= chunk,
        _ => pieces.len() == 1,
    }
}

/// Whether a payload is not divided for its size: it is sent in chunks, or is below the limit.
pub open spec fn fits(payload: Seq<u8>, options: SendOptions) -> bool {
    ||| options.mpeg_ts_chunk_bytes matches Some(chunk) && payload.len() > chunk
        && split::is_mpeg_ts(payload)
    ||| options.mtu matches Some(mtu) ==> payload.len() < mtu
}

proof fn lemma_over_more(first: Seq<SentModel>, second: Seq<SentModel>, path: usize)
    ensures
        over_path(first + second, path) == over_path(first, path) + over_path(second, path),
    decreases second.len(),
{
    let all = first + second;
    if second.len() == 0 {
        assert(all =~= first);
        assert(over_path(first, path) + over_path(second, path) =~= over_path(first, path));
    } else {
        lemma_over_more(first, second.drop_last(), path);
        assert(all.drop_last() =~= first + second.drop_last());
        assert(all.last() == second.last());
        assert(over_path(all, path) =~= over_path(first, path) + over_path(second, path));
    }
}

/// The same packet over each path of a list.
spec fn over_each(list: Seq<usize>, packet: Seq<u8>) -> Seq<SentModel> {
    Seq::new(list.len(), |i: int| (list[i], packet))
}

proof fn lemma_over_list(list: Seq<usize>, packet: Seq<u8>, path: usize)
    requires
        list.no_duplicates(),
    ensures
        over_path(over_each(list, packet), path) == (if list.contains(path) {
            seq![packet]
        } else {
            Seq::empty()
        }),
    decreases list.len(),
{
    let all = over_each(list, packet);
    if list.len() > 0 {
        let rest = list.drop_last();
        lemma_over_list(rest, packet, path);
        assert(all.drop_last() =~= over_each(rest, packet));
        if list.last() == path {
            assert(!rest.contains(path)) by {
                if rest.contains(path) {
                    let i = choose|i: int| 0 <= i < rest.len() && rest[i] == path;
                    assert(list[i] == list[list.len() - 1]);
                }
            }
            assert(list[list.len() - 1] == path);
            assert(over_path(all, path) =~= seq![packet]);
        } else {
            assert(list.contains(path) <==> rest.contains(path)) by {
                if list.contains(path) {
                    let i = choose|i: int| 0 <= i < list.len() && list[i] == path;
                    assert(rest[i] == path);
                }
                if rest.contains(path) {
                    let i = choose|i: int| 0 <= i < rest.len() && rest[i] == path;
                    assert(list[i] == path);
                }
            }
        }
    }
}

proof fn lemma_sends_more(actions: Seq<SendModel>, more: Seq<SendModel>)
    ensures
        sends_of(actions + more) == sends_of(actions) + sends_of(more),
    decreases more.len(),
{
    let all = actions + more;
    if more.len() == 0 {
        assert(all =~= actions);
        assert(sends_of(actions) + sends_of(more) =~= sends_of(actions));
    } else {
        lemma_sends_more(actions, more.drop_last());
        assert(all.drop_last() =~= actions + more.drop_last());
        assert(all.last() == more.last());
        assert(sends_of(all) =~= sends_of(actions) + sends_of(more));
    }
}

/// The sends of a list of sends.
proof fn lemma_sends_of_each(
    list: Seq<usize>,
    packet: Seq<u8>,
    sequence: u64,
    payload_len: u64,
)
    ensures
        sends_of(
            Seq::new(
                list.len(),
                |i: int| SendModel::Send { path: list[i], packet, sequence, payload_len },
            ),
        ) == over_each(list, packet),
    decreases list.len(),
{
    let all = Seq::new(
        list.len(),
        |i: int| SendModel::Send { path: list[i], packet, sequence, payload_len },
    );
    if list.len() > 0 {
        let rest = list.drop_last();
        lemma_sends_of_each(rest, packet, sequence, payload_len);
        assert(all.drop_last() =~= Seq::new(
            rest.len(),
            |i: int| SendModel::Send { path: rest[i], packet, sequence, payload_len },
        ));
        assert(sends_of(all) =~= over_each(list, packet));
    } else {
        assert(sends_of(all) =~= over_each(list, packet));
    }
}

/// A parity frame is no packet that is sent over a path here.
proof fn lemma_recorded(sender: SenderModel, payload: Seq<u8>)
    ensures
        sends_of(sender.recorded(payload).actions) == sends_of(sender.actions),
        sender.recorded(payload).seq == sender.seq,
        sender.recorded(payload).cursor == sender.cursor,
{
    let after = sender.recorded(payload);
    if after.actions != sender.actions {
        assert(after.actions.drop_last() =~= sender.actions);
    }
}

proof fn lemma_whole_over(sender: SenderModel, payload: Seq<u8>, list: Seq<usize>, now: u64)
    ensures
        ({
            let after = sender.whole_over(payload, list, now);
            &&& sends_of(after.actions) == sends_of(sender.actions) + over_each(
                list,
                sending::whole_packet(sender.seq, payload),
            )
            &&& after.seq == sequence::following(sender.seq)
            &&& after.cursor == sender.cursor
        }),
{
    let packet = sending::whole_packet(sender.seq, payload);
    let cached = sender.cached(seq![sending::whole_fragment(sender.seq, payload)], now);
    let len = payload.len() as u64;
    sending_laws::lemma_sent_over_each(cached, list, packet, len);
    lemma_sends_of_each(list, packet, sender.seq, len);
    let sent = cached.sent_over(list, packet, len);
    lemma_sends_more(
        sender.actions,
        Seq::new(
            list.len(),
            |i: int|
                SendModel::Send {
                    path: list[i],
                    packet,
                    sequence: cached.seq,
                    payload_len: len,
                },
        ),
    );
    lemma_recorded(sent, payload);
}

/// Whether paths are in order, and among so many.
spec fn rises(list: Seq<usize>, count: nat) -> bool {
    &&& forall|i: int, j: int|
        0 <= i < j < list.len() ==> #[trigger] list[i] < #[trigger] list[j]
    &&& forall|i: int| 0 <= i < list.len() ==> (#[trigger] list[i]) < count
}

proof fn lemma_rises_push(list: Seq<usize>, last: usize)
    requires
        rises(list, last as nat),
    ensures
        rises(list.push(last), last as nat + 1),
        rises(list, last as nat + 1),
{
    assert forall|i: int| 0 <= i < list.len() implies (#[trigger] list[i]) < last as nat + 1 by {}
    let longer = list.push(last);
    assert forall|i: int| 0 <= i < longer.len() implies (#[trigger] longer[i]) < last as nat
        + 1 by {
        if i < list.len() {
            assert(longer[i] == list[i]);
        }
    }
    assert forall|i: int, j: int| 0 <= i < j < longer.len() implies #[trigger] longer[i]
        < #[trigger] longer[j] by {
        assert(longer[i] == list[i]);
        if j < list.len() {
            assert(longer[j] == list[j]);
        }
    }
}

/// The paths on a list of paths are in order.
proof fn lemma_lists_rise(paths: Seq<SendPath>, names: Seq<Seq<char>>)
    requires
        paths.len() <= usize::MAX,
    ensures
        rises(sending::active_paths(paths), paths.len()),
        rises(sending::named_paths(paths, names), paths.len()),
        sending::active_paths(paths).no_duplicates(),
        sending::named_paths(paths, names).no_duplicates(),
    decreases paths.len(),
{
    if paths.len() > 0 {
        let rest = paths.drop_last();
        lemma_lists_rise(rest, names);
        lemma_rises_push(sending::active_paths(rest), (paths.len() - 1) as usize);
        lemma_rises_push(sending::named_paths(rest, names), (paths.len() - 1) as usize);
    }
    lemma_rising_is_distinct(sending::active_paths(paths), paths.len());
    lemma_rising_is_distinct(sending::named_paths(paths, names), paths.len());
}

proof fn lemma_rising_is_distinct(list: Seq<usize>, count: nat)
    requires
        rises(list, count),
    ensures
        list.no_duplicates(),
{
    assert forall|i: int, j: int|
        0 <= i < list.len() && 0 <= j < list.len() && i != j implies list[i] != list[j] by {
        if i < j {
            assert(list[i] < list[j]);
        } else {
            assert(list[j] < list[i]);
        }
    }
}

/// The paths on a list are exactly the connected paths whose names are given.
pub proof fn law_named_paths_are_those_named(
    paths: Seq<SendPath>,
    names: Seq<Seq<char>>,
    index: usize,
)
    requires
        paths.len() <= usize::MAX,
        index < paths.len(),
    ensures
        sending::named_paths(paths, names).contains(index) <==> paths[index as int].connected
            && names.contains(paths[index as int].display_name@),
        sending::named_paths(paths, names).no_duplicates(),
    decreases paths.len(),
{
    let rest = paths.drop_last();
    let all = sending::named_paths(paths, names);
    let before = sending::named_paths(rest, names);
    lemma_lists_rise(paths, names);
    lemma_lists_rise(rest, names);
    if index < rest.len() {
        law_named_paths_are_those_named(rest, names, index);
        if before.contains(index) {
            let i = choose|i: int| 0 <= i < before.len() && before[i] == index;
            assert(all[i] == index);
        }
        if all.contains(index) {
            let i = choose|i: int| 0 <= i < all.len() && all[i] == index;
            assert(before[i] == index);
        }
    } else {
        assert(!before.contains(index));
        if paths[index as int].connected && names.contains(paths[index as int].display_name@) {
            assert(all[before.len() as int] == index);
        }
    }
}

/// The chunks of a payload are pieces of it.
proof fn lemma_chunks_are_pieces(
    payload: Seq<u8>,
    options: SendOptions,
    kind: PlanKind,
    cuts: Seq<usize>,
)
    requires
        options.well_formed(),
        sending::is_chunked(payload, options),
        payload.len() <= usize::MAX,
        cuts.len() <= usize::MAX,
        kind == PlanKind::SplitChunks ==> cuts.len() > 0,
    ensures
        are_pieces(
            pieces_of(
                payload,
                sending::chunk_parts(
                    payload.len() as usize,
                    options.mpeg_ts_chunk_bytes->0,
                    kind,
                    cuts,
                ),
            ),
            payload,
            options,
        ),
{
    let len = payload.len() as usize;
    let chunk = options.mpeg_ts_chunk_bytes->0;
    let parts = sending::chunk_parts(len, chunk, kind, cuts);
    let pieces = pieces_of(payload, parts);
    sending::lemma_chunk_parts(len, chunk, kind, cuts);
    sending_laws::law_chunks_make_the_payload(payload, chunk, kind, cuts);
    receive::lemma_joined_payloads(split::parts_of(payload, parts), pieces);
    pieces.lemma_flatten_and_flatten_alt_are_equivalent();
    split::lemma_count_fits(len, chunk);
    let count = split::chunk_count(len, chunk) as usize;
    let used = if kind == PlanKind::SplitChunks {
        cuts
    } else {
        seq![0usize]
    };
    if kind != PlanKind::SplitChunks {
        reveal_with_fuel(split::ranges_of, 2);
        assert(split::ranges_of(count, used, used.len()) =~= seq![(0usize, count)]);
    }
    split::law_ranges_cover_packet_once(count, used);
    split::lemma_chunks_by_path(len, chunk, count, used, used.len());
    assert forall|k: int| 0 <= k < pieces.len() implies 0 < (#[trigger] pieces[k]).len()
        <= chunk by {
        split::lemma_chunk_fits(len, chunk, k);
        assert((parts[k].1, parts[k].2) == split::chunk_at(len, chunk, k));
        assert(parts[k].1 < parts[k].2);
    }
}

/// The parts of a payload.
spec fn pieces_of(payload: Seq<u8>, parts: Seq<(usize, usize, usize)>) -> Seq<Seq<u8>> {
    Seq::new(parts.len(), |k: int| sending::part_at(payload, parts[k]))
}

proof fn lemma_chunks_over_each(
    sender: SenderModel,
    payload: Seq<u8>,
    parts: Seq<(usize, usize, usize)>,
    plan: PlanModel,
    count: nat,
    now: u64,
    path: usize,
)
    requires
        plan.kind == PlanKind::RedundantChunks,
        count <= parts.len(),
        plan.active.no_duplicates(),
    ensures
        ({
            let after = sender.chunks_sent(payload, parts, plan, count, now);
            let pieces = pieces_of(payload, parts);
            &&& after.seq == sequence::following_by(sender.seq, count)
            &&& over_path(sends_of(after.actions), path) == over_path(
                sends_of(sender.actions),
                path,
            ) + (if plan.active.contains(path) {
                packets_of(sender.seq, pieces.take(count as int))
            } else {
                Seq::empty()
            })
        }),
    decreases count,
{
    let pieces = pieces_of(payload, parts);
    let start = over_path(sends_of(sender.actions), path);
    if count == 0 {
        assert(packets_of(sender.seq, pieces.take(0)) =~= Seq::empty());
        assert(start + Seq::<Seq<u8>>::empty() =~= start);
    } else {
        let fewer = (count - 1) as nat;
        lemma_chunks_over_each(sender, payload, parts, plan, fewer, now, path);
        let before = sender.chunks_sent(payload, parts, plan, fewer, now);
        let chunk = pieces[count - 1];
        lemma_whole_over(before, chunk, plan.active, now);
        let packet = sending::whole_packet(before.seq, chunk);
        lemma_over_more(sends_of(before.actions), over_each(plan.active, packet), path);
        lemma_over_list(plan.active, packet, path);
        let earlier = packets_of(sender.seq, pieces.take(fewer as int));
        let all = packets_of(sender.seq, pieces.take(count as int));
        assert(all =~= earlier + seq![packet]);
        assert(start + earlier + seq![packet] =~= start + all);
        assert(start + Seq::<Seq<u8>>::empty() + Seq::<Seq<u8>>::empty() =~= start + Seq::<
            Seq<u8>,
        >::empty());
    }
}

/// While sending is redundant, every connected path alone carries the whole payload, in chunks or
/// not, whatever the mode is, and no other path carries anything. A payload that is not sent in
/// chunks and reaches the greatest size is divided instead.
pub proof fn law_redundant_sending_uses_every_path(
    sender: SenderModel,
    payload: Seq<u8>,
    options: SendOptions,
    paths: Seq<SendPath>,
    mode: StrategyMode,
    split_names: Seq<Seq<char>>,
    rescue_names: Seq<Seq<char>>,
    cuts: Seq<usize>,
    now: u64,
) -> (pieces: Seq<Seq<u8>>)
    requires
        options.well_formed(),
        paths.len() <= usize::MAX,
        payload.len() <= usize::MAX,
        cuts.len() <= usize::MAX,
        fits(payload, options),
        mode == StrategyMode::Redundant || mode == StrategyMode::Auto,
        exists|p: int| 0 <= p < paths.len() && (#[trigger] paths[p]).connected,
    ensures
        are_pieces(pieces, payload, options),
        ({
            let after = after_payload(
                sender,
                payload,
                options,
                paths,
                mode,
                PathStrategy::Redundant,
                split_names,
                rescue_names,
                cuts,
                now,
            );
            &&& after.seq == sequence::following_by(sender.seq, pieces.len())
            &&& forall|p: int|
                0 <= p < paths.len() ==> over_path(sends_of(after.actions), p as usize)
                    == over_path(sends_of(sender.actions), p as usize) + (if (
                #[trigger] paths[p]).connected {
                    packets_of(sender.seq, pieces)
                } else {
                    Seq::empty()
                })
        }),
{
    let plan = sending::plan_of(
        payload,
        options,
        paths,
        mode,
        PathStrategy::Redundant,
        split_names,
        rescue_names,
    );
    let after = sender.carried_out(payload, plan, cuts, options, now);
    let some = choose|p: int| 0 <= p < paths.len() && (#[trigger] paths[p]).connected;
    sending_laws::law_active_paths_are_all_connected_paths(paths, some as usize);
    lemma_lists_rise(paths, split_names);
    assert(plan.active.len() > 0);
    assert(plan.active.no_duplicates());
    let shown = match plan.shown {
        Some(list) => sender.act(SendModel::Show { paths: list }),
        None => sender,
    };
    assert(sends_of(shown.actions) == sends_of(sender.actions)) by {
        if plan.shown is Some {
            assert(shown.actions.drop_last() =~= sender.actions);
        }
    }
    if sending::is_chunked(payload, options) {
        let chunk = options.mpeg_ts_chunk_bytes->0;
        let parts = sending::chunk_parts(payload.len() as usize, chunk, plan.kind, cuts);
        let pieces = pieces_of(payload, parts);
        lemma_chunks_are_pieces(payload, options, plan.kind, cuts);
        assert(pieces.take(pieces.len() as int) =~= pieces);
        assert forall|p: int| 0 <= p < paths.len() implies over_path(
            sends_of(after.actions),
            p as usize,
        ) == over_path(sends_of(sender.actions), p as usize) + (if (#[trigger] paths[p]).connected {
            packets_of(sender.seq, pieces)
        } else {
            Seq::empty()
        }) by {
            lemma_chunks_over_each(shown, payload, parts, plan, parts.len(), now, p as usize);
            sending_laws::law_active_paths_are_all_connected_paths(paths, p as usize);
        }
        lemma_chunks_over_each(shown, payload, parts, plan, parts.len(), now, 0);
        pieces
    } else {
        let pieces = seq![payload];
        pieces.lemma_flatten_one_element();
        lemma_whole_over(shown, payload, plan.active, now);
        let packet = sending::whole_packet(sender.seq, payload);
        assert(packets_of(sender.seq, pieces) =~= seq![packet]);
        reveal_with_fuel(sequence::following_by, 2);
        assert forall|p: int| 0 <= p < paths.len() implies over_path(
            sends_of(after.actions),
            p as usize,
        ) == over_path(sends_of(sender.actions), p as usize) + (if (#[trigger] paths[p]).connected {
            packets_of(sender.seq, pieces)
        } else {
            Seq::empty()
        }) by {
            lemma_over_more(sends_of(sender.actions), over_each(plan.active, packet), p as usize);
            lemma_over_list(plan.active, packet, p as usize);
            sending_laws::law_active_paths_are_all_connected_paths(paths, p as usize);
        }
        pieces
    }
}

/// The sender once the paths whose shares are shown have been shown.
spec fn shown(sender: SenderModel, plan: PlanModel) -> SenderModel {
    match plan.shown {
        Some(list) => sender.act(SendModel::Show { paths: list }),
        None => sender,
    }
}

proof fn lemma_shown(sender: SenderModel, plan: PlanModel)
    ensures
        sends_of(shown(sender, plan).actions) == sends_of(sender.actions),
        shown(sender, plan).seq == sender.seq,
        shown(sender, plan).cursor == sender.cursor,
{
    if plan.shown is Some {
        assert(shown(sender, plan).actions.drop_last() =~= sender.actions);
    }
}

/// One packet after the other, each over one path of a list, in turn.
pub open spec fn in_turn(
    list: Seq<usize>,
    cursor: u64,
    packets: Seq<Seq<u8>>,
) -> Seq<SentModel> {
    Seq::new(
        packets.len(),
        |k: int| (list[(cursor + k) % (list.len() as int)], packets[k]),
    )
}

proof fn lemma_whole_in_turn(sender: SenderModel, payload: Seq<u8>, list: Seq<usize>, now: u64)
    requires
        0 < list.len() <= u64::MAX,
        sender.cursor < u64::MAX,
    ensures
        ({
            let after = sender.whole_in_turn(payload, list, now);
            &&& sends_of(after.actions) == sends_of(sender.actions).push(
                (
                    list[sender.cursor as int % (list.len() as int)],
                    sending::whole_packet(sender.seq, payload),
                ),
            )
            &&& after.seq == sequence::following(sender.seq)
            &&& after.cursor == sender.cursor + 1
        }),
{
    let moved = SenderModel { cursor: server_ui::wrapped_sum(sender.cursor, 1), ..sender };
    let path = list[(sender.cursor % (list.len() as u64)) as int];
    lemma_whole_over(moved, payload, seq![path], now);
    let packet = sending::whole_packet(sender.seq, payload);
    assert(sends_of(sender.actions) + over_each(seq![path], packet) =~= sends_of(
        sender.actions,
    ).push((path, packet)));
}

proof fn lemma_chunks_in_turn(
    sender: SenderModel,
    payload: Seq<u8>,
    parts: Seq<(usize, usize, usize)>,
    plan: PlanModel,
    count: nat,
    now: u64,
)
    requires
        plan.kind == PlanKind::RoundRobinChunks,
        count <= parts.len(),
        0 < plan.active.len() <= u64::MAX,
        sender.cursor + count <= u64::MAX,
    ensures
        ({
            let after = sender.chunks_sent(payload, parts, plan, count, now);
            let packets = packets_of(sender.seq, pieces_of(payload, parts).take(count as int));
            &&& after.seq == sequence::following_by(sender.seq, count)
            &&& after.cursor == sender.cursor + count
            &&& sends_of(after.actions) == sends_of(sender.actions) + in_turn(
                plan.active,
                sender.cursor,
                packets,
            )
        }),
    decreases count,
{
    let pieces = pieces_of(payload, parts);
    let start = sends_of(sender.actions);
    let packets = packets_of(sender.seq, pieces.take(count as int));
    if count == 0 {
        assert(start + in_turn(plan.active, sender.cursor, packets) =~= start);
    } else {
        let fewer = (count - 1) as nat;
        lemma_chunks_in_turn(sender, payload, parts, plan, fewer, now);
        let before = sender.chunks_sent(payload, parts, plan, fewer, now);
        lemma_whole_in_turn(before, pieces[count - 1], plan.active, now);
        let earlier = packets_of(sender.seq, pieces.take(fewer as int));
        assert(packets.drop_last() =~= earlier);
        assert(start + in_turn(plan.active, sender.cursor, packets) =~= (start + in_turn(
            plan.active,
            sender.cursor,
            earlier,
        )).push(
            (
                plan.active[before.cursor as int % (plan.active.len() as int)],
                packets[count - 1],
            ),
        ));
    }
}

/// While the paths are used in turn, each packet, a payload or a chunk of one, goes over one path
/// alone, and each over the next connected path after that of the packet before it, around the
/// list of them.
pub proof fn law_paths_take_turns(
    sender: SenderModel,
    payload: Seq<u8>,
    options: SendOptions,
    paths: Seq<SendPath>,
    split_names: Seq<Seq<char>>,
    rescue_names: Seq<Seq<char>>,
    cuts: Seq<usize>,
    now: u64,
) -> (pieces: Seq<Seq<u8>>)
    requires
        options.well_formed(),
        paths.len() <= usize::MAX,
        payload.len() <= usize::MAX,
        cuts.len() <= usize::MAX,
        fits(payload, options),
        exists|p: int| 0 <= p < paths.len() && (#[trigger] paths[p]).connected,
        sender.cursor + payload.len() < u64::MAX,
    ensures
        are_pieces(pieces, payload, options),
        ({
            let after = after_payload(
                sender,
                payload,
                options,
                paths,
                StrategyMode::RoundRobin,
                PathStrategy::RoundRobin,
                split_names,
                rescue_names,
                cuts,
                now,
            );
            &&& after.seq == sequence::following_by(sender.seq, pieces.len())
            &&& after.cursor == sender.cursor + pieces.len()
            &&& sends_of(after.actions) == sends_of(sender.actions) + in_turn(
                sending::active_paths(paths),
                sender.cursor,
                packets_of(sender.seq, pieces),
            )
        }),
{
    let plan = sending::plan_of(
        payload,
        options,
        paths,
        StrategyMode::RoundRobin,
        PathStrategy::RoundRobin,
        split_names,
        rescue_names,
    );
    let some = choose|p: int| 0 <= p < paths.len() && (#[trigger] paths[p]).connected;
    sending_laws::law_active_paths_are_all_connected_paths(paths, some as usize);
    sending::lemma_paths_exist(paths, split_names);
    assert(0 < plan.active.len() <= paths.len());
    lemma_shown(sender, plan);
    let start = shown(sender, plan);
    if sending::is_chunked(payload, options) {
        let chunk = options.mpeg_ts_chunk_bytes->0;
        let len = payload.len() as usize;
        let parts = sending::chunk_parts(len, chunk, plan.kind, cuts);
        let pieces = pieces_of(payload, parts);
        lemma_chunks_are_pieces(payload, options, plan.kind, cuts);
        sending::lemma_chunk_parts(len, chunk, plan.kind, cuts);
        split::lemma_count_fits(len, chunk);
        assert(pieces.take(pieces.len() as int) =~= pieces);
        lemma_chunks_in_turn(start, payload, parts, plan, parts.len(), now);
        pieces
    } else {
        let pieces = seq![payload];
        pieces.lemma_flatten_one_element();
        lemma_whole_in_turn(start, payload, plan.active, now);
        reveal_with_fuel(sequence::following_by, 2);
        let packets = packets_of(sender.seq, pieces);
        assert(sends_of(sender.actions) + in_turn(plan.active, sender.cursor, packets)
            =~= sends_of(sender.actions).push(
            (
                plan.active[sender.cursor as int % (plan.active.len() as int)],
                sending::whole_packet(sender.seq, payload),
            ),
        ));
        pieces
    }
}

/// Without a connected path nothing is sent. The sequence number is used up all the same, but that
/// of a payload that would be sent in chunks is used again.
pub proof fn law_nothing_is_sent_without_paths(
    sender: SenderModel,
    payload: Seq<u8>,
    options: SendOptions,
    paths: Seq<SendPath>,
    mode: StrategyMode,
    strategy: PathStrategy,
    split_names: Seq<Seq<char>>,
    rescue_names: Seq<Seq<char>>,
    cuts: Seq<usize>,
    now: u64,
)
    requires
        paths.len() <= usize::MAX,
        forall|p: int| 0 <= p < paths.len() ==> !(#[trigger] paths[p]).connected,
    ensures
        ({
            let after = after_payload(
                sender,
                payload,
                options,
                paths,
                mode,
                strategy,
                split_names,
                rescue_names,
                cuts,
                now,
            );
            &&& after.actions == sender.actions
            &&& after.cache == sender.cache
            &&& after.group == sender.group
            &&& after.seq == (if options.mpeg_ts_chunk_bytes matches Some(chunk) && payload.len()
                > chunk && split::is_mpeg_ts(payload) {
                sender.seq
            } else {
                sequence::following(sender.seq)
            })
        }),
{
    let active = sending::active_paths(paths);
    if active.len() > 0 {
        lemma_lists_rise(paths, split_names);
        assert(active[0] < paths.len());
        assert(active.contains(active[0]));
        sending_laws::law_active_paths_are_all_connected_paths(paths, active[0]);
    }
}

proof fn lemma_chunks_by_share(
    sender: SenderModel,
    payload: Seq<u8>,
    parts: Seq<(usize, usize, usize)>,
    plan: PlanModel,
    count: nat,
    now: u64,
)
    requires
        plan.kind == PlanKind::SplitChunks,
        count <= parts.len(),
    ensures
        ({
            let after = sender.chunks_sent(payload, parts, plan, count, now);
            let packets = packets_of(sender.seq, pieces_of(payload, parts).take(count as int));
            &&& after.seq == sequence::following_by(sender.seq, count)
            &&& sends_of(after.actions) == sends_of(sender.actions) + Seq::new(
                count,
                |k: int| (plan.split[parts[k].0 as int], packets[k]),
            )
        }),
    decreases count,
{
    let pieces = pieces_of(payload, parts);
    let start = sends_of(sender.actions);
    let packets = packets_of(sender.seq, pieces.take(count as int));
    let all = Seq::new(count, |k: int| (plan.split[parts[k].0 as int], packets[k]));
    if count == 0 {
        assert(start + all =~= start);
    } else {
        let fewer = (count - 1) as nat;
        lemma_chunks_by_share(sender, payload, parts, plan, fewer, now);
        let before = sender.chunks_sent(payload, parts, plan, fewer, now);
        let list = seq![plan.split[parts[count - 1].0 as int]];
        lemma_whole_over(before, pieces[count - 1], list, now);
        let earlier = packets_of(sender.seq, pieces.take(fewer as int));
        assert(packets.drop_last() =~= earlier);
        let packet = sending::whole_packet(before.seq, pieces[count - 1]);
        assert(start + all =~= start + Seq::new(
            fewer,
            |k: int| (plan.split[parts[k].0 as int], earlier[k]),
        ) + over_each(list, packet));
    }
}

/// While packets are split, each chunk of a payload goes over one path alone, of those that take a
/// share: the one in whose share of the chunks it lies.
pub proof fn law_chunks_go_by_shares(
    sender: SenderModel,
    payload: Seq<u8>,
    options: SendOptions,
    paths: Seq<SendPath>,
    mode: StrategyMode,
    split_names: Seq<Seq<char>>,
    rescue_names: Seq<Seq<char>>,
    cuts: Seq<usize>,
    now: u64,
) -> (pieces: Seq<Seq<u8>>)
    requires
        options.well_formed(),
        paths.len() <= usize::MAX,
        payload.len() <= usize::MAX,
        mode == StrategyMode::Split || mode == StrategyMode::Auto,
        options.mpeg_ts_chunk_bytes matches Some(chunk) && payload.len() > chunk
            && split::is_mpeg_ts(payload),
        cuts.len() == sending::named_paths(paths, split_names).len(),
        cuts.len() > 0,
    ensures
        are_pieces(pieces, payload, options),
        pieces.len() <= usize::MAX,
        ({
            let after = after_payload(
                sender,
                payload,
                options,
                paths,
                mode,
                PathStrategy::Split,
                split_names,
                rescue_names,
                cuts,
                now,
            );
            let sends = sends_of(after.actions);
            let start = sends_of(sender.actions);
            let shares = split::ranges_of(pieces.len() as usize, cuts, cuts.len());
            &&& after.seq == sequence::following_by(sender.seq, pieces.len())
            &&& sends.len() == start.len() + pieces.len()
            &&& sends.take(start.len() as int) == start
            &&& forall|k: int, j: int|
                0 <= j < cuts.len() && shares[j].0 <= k < shares[j].1 ==> #[trigger] sends[start.len()
                    + k] == (
                    #[trigger] sending::named_paths(paths, split_names)[j],
                    packets_of(sender.seq, pieces)[k],
                )
        }),
{
    let plan = sending::plan_of(
        payload,
        options,
        paths,
        mode,
        PathStrategy::Split,
        split_names,
        rescue_names,
    );
    sending::lemma_paths_exist(paths, split_names);
    lemma_shown(sender, plan);
    let chunk = options.mpeg_ts_chunk_bytes->0;
    let len = payload.len() as usize;
    let parts = sending::chunk_parts(len, chunk, plan.kind, cuts);
    let pieces = pieces_of(payload, parts);
    lemma_chunks_are_pieces(payload, options, plan.kind, cuts);
    sending::lemma_chunk_parts(len, chunk, plan.kind, cuts);
    split::lemma_count_fits(len, chunk);
    assert(pieces.take(pieces.len() as int) =~= pieces);
    lemma_chunks_by_share(shown(sender, plan), payload, parts, plan, parts.len(), now);
    let after = sender.carried_out(payload, plan, cuts, options, now);
    let sends = sends_of(after.actions);
    let start = sends_of(sender.actions);
    let shares = split::ranges_of(pieces.len() as usize, cuts, cuts.len());
    assert(sends.take(start.len() as int) =~= start);
    split::law_ranges_cover_packet_once(pieces.len() as usize, cuts);
    assert forall|k: int, j: int|
        0 <= j < cuts.len() && shares[j].0 <= k < shares[j].1 implies #[trigger] sends[start.len()
        + k] == (
        #[trigger] sending::named_paths(paths, split_names)[j],
        packets_of(sender.seq, pieces)[k],
    ) by {
        split::lemma_path_of_chunk(
            len,
            chunk,
            pieces.len() as usize,
            cuts,
            cuts.len(),
            j,
            k,
        );
    }
    pieces
}

/// Whether a payload that is not sent in chunks is divided: it reaches the greatest size, or several
/// paths take shares, it exceeds the threshold if there is one, and packets are to be split, which
/// in the automatic mode takes a threshold.
pub open spec fn is_divided(
    payload: Seq<u8>,
    options: SendOptions,
    shares: nat,
    mode: StrategyMode,
    strategy: PathStrategy,
) -> bool {
    ||| options.mtu matches Some(mtu) && payload.len() >= mtu
    ||| shares > 1 && (options.split_threshold_bytes matches Some(limit) ==> payload.len() > limit)
        && (mode == StrategyMode::Split || mode == StrategyMode::Auto && strategy
        == PathStrategy::Split && options.split_threshold_bytes is Some)
}

/// A payload that is not sent in chunks, is not divided and is not sent in turn goes as one packet,
/// the same, over every connected path once, and over no other.
pub proof fn law_undivided_payload_goes_over_every_path(
    sender: SenderModel,
    payload: Seq<u8>,
    options: SendOptions,
    paths: Seq<SendPath>,
    mode: StrategyMode,
    strategy: PathStrategy,
    split_names: Seq<Seq<char>>,
    rescue_names: Seq<Seq<char>>,
    cuts: Seq<usize>,
    now: u64,
)
    requires
        paths.len() <= usize::MAX,
        payload.len() <= usize::MAX,
        !(options.mpeg_ts_chunk_bytes matches Some(chunk) && payload.len() > chunk
            && split::is_mpeg_ts(payload)),
        !is_divided(
            payload,
            options,
            sending::named_paths(paths, split_names).len(),
            mode,
            strategy,
        ),
        strategy != PathStrategy::RoundRobin,
        exists|p: int| 0 <= p < paths.len() && (#[trigger] paths[p]).connected,
    ensures
        ({
            let after = after_payload(
                sender,
                payload,
                options,
                paths,
                mode,
                strategy,
                split_names,
                rescue_names,
                cuts,
                now,
            );
            &&& after.seq == sequence::following(sender.seq)
            &&& forall|p: int|
                0 <= p < paths.len() ==> over_path(sends_of(after.actions), p as usize)
                    == over_path(sends_of(sender.actions), p as usize) + (if (
                #[trigger] paths[p]).connected {
                    seq![sending::whole_packet(sender.seq, payload)]
                } else {
                    Seq::empty()
                })
        }),
{
    let plan = sending::plan_of(
        payload,
        options,
        paths,
        mode,
        strategy,
        split_names,
        rescue_names,
    );
    let after = sender.carried_out(payload, plan, cuts, options, now);
    let some = choose|p: int| 0 <= p < paths.len() && (#[trigger] paths[p]).connected;
    sending_laws::law_active_paths_are_all_connected_paths(paths, some as usize);
    sending::lemma_paths_exist(paths, split_names);
    lemma_lists_rise(paths, split_names);
    lemma_shown(sender, plan);
    assert(plan.kind == PlanKind::RedundantPacket);
    lemma_whole_over(shown(sender, plan), payload, plan.active, now);
    let packet = sending::whole_packet(sender.seq, payload);
    assert forall|p: int| 0 <= p < paths.len() implies over_path(
        sends_of(after.actions),
        p as usize,
    ) == over_path(sends_of(sender.actions), p as usize) + (if (#[trigger] paths[p]).connected {
        seq![packet]
    } else {
        Seq::empty()
    }) by {
        lemma_over_more(sends_of(sender.actions), over_each(plan.active, packet), p as usize);
        lemma_over_list(plan.active, packet, p as usize);
        sending_laws::law_active_paths_are_all_connected_paths(paths, p as usize);
    }
}

proof fn lemma_sent_parts(
    sender: SenderModel,
    fragments: Seq<FragmentModel>,
    parts: Seq<(usize, usize, usize)>,
    list: Seq<usize>,
    count: nat,
)
    ensures
        sends_of(sender.sent_parts(fragments, parts, list, count).actions) == sends_of(
            sender.actions,
        ) + Seq::new(count, |i: int| (list[parts[i].0 as int], fragments[i].packet)),
    decreases count,
{
    let start = sends_of(sender.actions);
    let all = Seq::new(count, |i: int| (list[parts[i].0 as int], fragments[i].packet));
    if count == 0 {
        assert(start + all =~= start);
    } else {
        let fewer = (count - 1) as nat;
        lemma_sent_parts(sender, fragments, parts, list, fewer);
        let before = sender.sent_parts(fragments, parts, list, fewer);
        let after = sender.sent_parts(fragments, parts, list, count);
        assert(after.actions.drop_last() =~= before.actions);
        assert(start + all =~= (start + Seq::new(
            fewer,
            |i: int| (list[parts[i].0 as int], fragments[i].packet),
        )).push(all.last()));
    }
}

/// A payload that is divided goes in fragments, each once, over the path that its share is for, and
/// as one whole packet over each connected path that gets whole packets, and nothing else is sent.
/// One that would take too many fragments is refused, and nothing is sent. Either way it has used
/// up its sequence number.
pub proof fn law_divided_payload_goes_by_shares(
    sender: SenderModel,
    payload: Seq<u8>,
    options: SendOptions,
    paths: Seq<SendPath>,
    mode: StrategyMode,
    strategy: PathStrategy,
    split_names: Seq<Seq<char>>,
    rescue_names: Seq<Seq<char>>,
    cuts: Seq<usize>,
    now: u64,
)
    requires
        options.well_formed(),
        paths.len() <= usize::MAX,
        payload.len() <= usize::MAX,
        !(options.mpeg_ts_chunk_bytes matches Some(chunk) && payload.len() > chunk
            && split::is_mpeg_ts(payload)),
        is_divided(
            payload,
            options,
            sending::named_paths(paths, split_names).len(),
            mode,
            strategy,
        ),
        exists|p: int| 0 <= p < paths.len() && (#[trigger] paths[p]).connected,
    ensures
        ({
            let after = after_payload(
                sender,
                payload,
                options,
                paths,
                mode,
                strategy,
                split_names,
                rescue_names,
                cuts,
                now,
            );
            let list = sending::named_paths(paths, split_names);
            let rescue = sending::named_paths(paths, rescue_names);
            let sends = sends_of(after.actions);
            &&& after.seq == sequence::following(sender.seq)
            &&& match split::division_of(payload.len() as usize, cuts, options.mtu) {
                Some(parts) => sends == sends_of(sender.actions) + Seq::new(
                    parts.len(),
                    |i: int|
                        (
                            list[parts[i].0 as int],
                            protocol::packet_bytes(
                                PacketHeader {
                                    sequence: sender.seq,
                                    fragment: i as u8,
                                    fragments: parts.len() as u8,
                                },
                                payload.subrange(parts[i].1 as int, parts[i].2 as int),
                            ),
                        ),
                ) + Seq::new(
                    rescue.len(),
                    |i: int| (rescue[i], sending::whole_packet(sender.seq, payload)),
                ),
                None => sends == sends_of(sender.actions) && after.actions.last() is Refuse,
            }
        }),
{
    let plan = sending::plan_of(
        payload,
        options,
        paths,
        mode,
        strategy,
        split_names,
        rescue_names,
    );
    let some = choose|p: int| 0 <= p < paths.len() && (#[trigger] paths[p]).connected;
    sending_laws::law_active_paths_are_all_connected_paths(paths, some as usize);
    sending::lemma_paths_exist(paths, split_names);
    assert(plan.kind == PlanKind::SplitPacket);
    lemma_shown(sender, plan);
    let start = shown(sender, plan);
    let after = sender.carried_out(payload, plan, cuts, options, now);
    let len = payload.len() as usize;
    match split::division_of(len, cuts, options.mtu) {
        Some(parts) => {
            let fragments = sending::fragments_of(start.seq, payload, parts);
            let cached = start.cached(fragments, now);
            lemma_sent_parts(cached, fragments, parts, plan.split, parts.len());
            sending::lemma_sent_parts_keeps(cached, fragments, parts, plan.split, parts.len());
            let sent = cached.sent_parts(fragments, parts, plan.split, parts.len());
            let packet = sending::whole_packet(start.seq, payload);
            let again = sent.cached(seq![sending::whole_fragment(start.seq, payload)], now);
            let total = payload.len() as u64;
            sending_laws::lemma_sent_over_each(again, plan.rescue, packet, total);
            lemma_sends_of_each(plan.rescue, packet, again.seq, total);
            lemma_sends_more(
                again.actions,
                Seq::new(
                    plan.rescue.len(),
                    |i: int|
                        SendModel::Send {
                            path: plan.rescue[i],
                            packet,
                            sequence: again.seq,
                            payload_len: total,
                        },
                ),
            );
            lemma_recorded(sent, payload);
            lemma_recorded(again.sent_over(plan.rescue, packet, total), payload);
            let list = plan.split;
            let expected = Seq::new(
                parts.len(),
                |i: int|
                    (
                        list[parts[i].0 as int],
                        protocol::packet_bytes(
                            PacketHeader {
                                sequence: sender.seq,
                                fragment: i as u8,
                                fragments: parts.len() as u8,
                            },
                            payload.subrange(parts[i].1 as int, parts[i].2 as int),
                        ),
                    ),
            );
            assert(expected =~= Seq::new(
                parts.len(),
                |i: int| (list[parts[i].0 as int], fragments[i].packet),
            ));
            let whole = Seq::new(
                plan.rescue.len(),
                |i: int| (plan.rescue[i], sending::whole_packet(sender.seq, payload)),
            );
            assert(whole =~= over_each(plan.rescue, packet));
            assert(sends_of(after.actions) =~= sends_of(sender.actions) + expected + whole);
        },
        None => {
            assert(after.actions.drop_last() =~= start.actions);
        },
    }
}

/// The sender once payloads were sent whole, one after the other.
pub open spec fn after_payloads(
    sender: SenderModel,
    payloads: Seq<Seq<u8>>,
    list: Seq<usize>,
    now: u64,
) -> SenderModel
    decreases payloads.len(),
{
    if payloads.len() == 0 {
        sender
    } else {
        after_payloads(sender, payloads.drop_last(), list, now).whole_over(
            payloads.last(),
            list,
            now,
        )
    }
}

/// The packets that carry payloads, with their sequence numbers.
pub open spec fn group_from(first: u64, payloads: Seq<Seq<u8>>) -> Seq<SourceModel> {
    Seq::new(payloads.len(), |k: int| (sequence::following_by(first, k as nat), payloads[k]))
}

/// Once as many payloads have been sent as make a group, the parity frame of exactly these is sent,
/// after them, and a new group begins; before that none is sent. Payloads that are too long for a
/// group do not count.
pub proof fn law_parity_follows_each_group(
    sender: SenderModel,
    payloads: Seq<Seq<u8>>,
    list: Seq<usize>,
    now: u64,
    size: usize,
)
    requires
        sender.group_size == Some(size),
        sender.group.len() == 0,
        0 < payloads.len() <= size,
        forall|k: int| 0 <= k < payloads.len() ==> (#[trigger] payloads[k]).len() <= 0xffff,
        exists|k: int| 0 <= k < payloads.len() && (#[trigger] payloads[k]).len() > 0,
    ensures
        ({
            let after = after_payloads(sender, payloads, list, now);
            let group = group_from(sender.seq, payloads);
            if payloads.len() < size {
                &&& after.group == group
                &&& forall|i: int|
                    sender.actions.len() <= i < after.actions.len() ==> !(
                    #[trigger] after.actions[i] is Fec)
            } else {
                &&& after.group.len() == 0
                &&& after.actions.len() > sender.actions.len()
                &&& after.actions.last() == (SendModel::Fec {
                    frame: protocol::fec_frame_bytes(fec::group_frame(group)),
                })
            }
        }),
{
    lemma_group_grows(sender, payloads.drop_last(), list, now, size);
    let rest = payloads.drop_last();
    let before = after_payloads(sender, rest, list, now);
    let last = payloads.last();
    let group = group_from(sender.seq, payloads);
    assert(before.group.push((before.seq, last)) =~= group);
    if payloads.len() < size {
        lemma_group_grows(sender, payloads, list, now, size);
    } else {
        let k = choose|k: int| 0 <= k < payloads.len() && (#[trigger] payloads[k]).len() > 0;
        let contents = fec::group_payloads(group);
        assert(contents[k] == payloads[k]);
        fec::lemma_widest(contents);
        assert(fec::widest(contents) > 0);
        let packet = sending::whole_packet(before.seq, last);
        let cached = before.cached(seq![sending::whole_fragment(before.seq, last)], now);
        sending_laws::lemma_sent_over_each(cached, list, packet, last.len() as u64);
    }
}

proof fn lemma_group_grows(
    sender: SenderModel,
    payloads: Seq<Seq<u8>>,
    list: Seq<usize>,
    now: u64,
    size: usize,
)
    requires
        sender.group_size == Some(size),
        sender.group.len() == 0,
        payloads.len() < size,
        forall|k: int| 0 <= k < payloads.len() ==> (#[trigger] payloads[k]).len() <= 0xffff,
    ensures
        ({
            let after = after_payloads(sender, payloads, list, now);
            &&& after.group == group_from(sender.seq, payloads)
            &&& after.group_size == Some(size)
            &&& after.seq == sequence::following_by(sender.seq, payloads.len())
            &&& sender.actions.len() <= after.actions.len()
            &&& forall|i: int|
                sender.actions.len() <= i < after.actions.len() ==> !(
                #[trigger] after.actions[i] is Fec)
        }),
    decreases payloads.len(),
{
    if payloads.len() == 0 {
        assert(sender.group =~= group_from(sender.seq, payloads));
    } else {
        let rest = payloads.drop_last();
        assert forall|k: int| 0 <= k < rest.len() implies (#[trigger] rest[k]).len() <= 0xffff by {
            assert(payloads[k] == rest[k]);
        }
        lemma_group_grows(sender, rest, list, now, size);
        let before = after_payloads(sender, rest, list, now);
        let last = payloads.last();
        assert(payloads[payloads.len() - 1] == last);
        let packet = sending::whole_packet(before.seq, last);
        let cached = before.cached(seq![sending::whole_fragment(before.seq, last)], now);
        sending_laws::lemma_sent_over_each(cached, list, packet, last.len() as u64);
        let after = after_payloads(sender, payloads, list, now);
        assert(after.group =~= group_from(sender.seq, payloads));
        assert forall|i: int| sender.actions.len() <= i < after.actions.len() implies !(
        #[trigger] after.actions[i] is Fec) by {
            if i < before.actions.len() {
                assert(after.actions[i] == before.actions[i]);
            }
        }
    }
}

} // verus!
