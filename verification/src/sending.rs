//! What the client sends for each payload that it takes in, and over which paths.
//!
//! A payload is sent in two steps. The first plans how; the second, once it is known how the
//! payload is to be shared among paths, gives the packets in the order in which they are sent.

use crate::buffers;
use crate::fec;
use crate::fec::{FecEncoder, SourceModel};
use crate::protocol;
use crate::protocol::{
    decode_repair_request, encode_packet, PacketHeader, HEADER_LEN, MAX_FRAGMENTS,
    MAX_MEDIA_SEQUENCE,
};
use crate::repair_cache;
use crate::repair_cache::{CacheModel, CachedFragment, FragmentModel, RepairCache};
use crate::sequence;
use crate::sequence::next_sequence;
use crate::server_ui;
use crate::split;
use crate::split::{
    chunk_ranges, count_chunks, is_mpeg_ts_payload, packet_split_ranges, should_split,
    units_to_divide, weighted_split_ranges,
};
use crate::strategy;
use crate::strategy::{PathStrategy, StrategyMode, StrategyState};
use crate::text;
use crate::text::{contains_text, push_decimal};
use bytes::Bytes;
use std::sync::Arc;
use vstd::prelude::*;
use vstd::slice::slice_subrange;

verus! {

/// When packets are divided.
#[derive(Debug, Clone, Copy, PartialEq, Eq)]
pub struct SendOptions {
    pub split_threshold_bytes: Option<usize>,
    pub mtu: Option<usize>,
    pub mpeg_ts_chunk_bytes: Option<usize>,
}

impl SendOptions {
    /// The sizes are not zero.
    pub open spec fn well_formed(self) -> bool {
        &&& self.mtu matches Some(mtu) ==> mtu > 0
        &&& self.mpeg_ts_chunk_bytes matches Some(chunk) ==> chunk > 0
    }
}

/// A path: the name of its interface, and whether it is connected.
#[derive(Debug)]
pub struct SendPath {
    pub display_name: String,
    pub connected: bool,
}

/// How a payload is sent.
#[derive(Debug, Clone, Copy, PartialEq, Eq, Structural)]
pub enum PlanKind {
    /// Not at all, and its sequence number is used again.
    Held,
    /// Not at all, and its sequence number is lost.
    Dropped,
    /// In chunks, each over the path whose turn it is.
    RoundRobinChunks,
    /// In chunks, each over every path.
    RedundantChunks,
    /// In chunks, each path getting its share of them.
    SplitChunks,
    /// In fragments.
    SplitPacket,
    /// Whole, over the path whose turn it is.
    RoundRobinPacket,
    /// Whole, over every path.
    RedundantPacket,
}

/// How a payload is sent, and over which paths.
#[derive(Debug)]
pub struct SendPlan {
    pub kind: PlanKind,
    /// The paths that are connected.
    pub active: Vec<usize>,
    /// The connected paths that take a share of each packet.
    pub split: Vec<usize>,
    /// The connected paths that get whole packets beside them.
    pub rescue: Vec<usize>,
    /// The paths whose shares are shown, if they are.
    pub shown: Option<Vec<usize>>,
    /// How much there is to share: bytes or chunks.
    pub units: usize,
}

#[verifier::ext_equal]
pub struct PlanModel {
    pub kind: PlanKind,
    pub active: Seq<usize>,
    pub split: Seq<usize>,
    pub rescue: Seq<usize>,
    pub shown: Option<Seq<usize>>,
    pub units: usize,
}

impl View for SendPlan {
    type V = PlanModel;

    open spec fn view(&self) -> PlanModel {
        PlanModel {
            kind: self.kind,
            active: self.active@,
            split: self.split@,
            rescue: self.rescue@,
            shown: match self.shown {
                Some(paths) => Some(paths@),
                None => None,
            },
            units: self.units,
        }
    }
}

/// The connected paths.
pub open spec fn active_paths(paths: Seq<SendPath>) -> Seq<usize>
    decreases paths.len(),
{
    if paths.len() == 0 {
        Seq::empty()
    } else if paths.last().connected {
        active_paths(paths.drop_last()).push((paths.len() - 1) as usize)
    } else {
        active_paths(paths.drop_last())
    }
}

/// The connected paths whose names are in a list.
pub open spec fn named_paths(paths: Seq<SendPath>, names: Seq<Seq<char>>) -> Seq<usize>
    decreases paths.len(),
{
    if paths.len() == 0 {
        Seq::empty()
    } else if paths.last().connected && names.contains(paths.last().display_name@) {
        named_paths(paths.drop_last(), names).push((paths.len() - 1) as usize)
    } else {
        named_paths(paths.drop_last(), names)
    }
}

/// Whether a payload is sent in chunks.
pub open spec fn is_chunked(payload: Seq<u8>, options: SendOptions) -> bool {
    options.mpeg_ts_chunk_bytes matches Some(chunk) && payload.len() > chunk && split::is_mpeg_ts(
        payload,
    )
}

/// How a payload is sent in chunks.
pub open spec fn chunk_kind(
    mode: StrategyMode,
    strategy: PathStrategy,
    active: Seq<usize>,
    split: Seq<usize>,
) -> PlanKind {
    if active.len() == 0 {
        PlanKind::Held
    } else if strategy == PathStrategy::RoundRobin {
        PlanKind::RoundRobinChunks
    } else if strategy == PathStrategy::Redundant || mode == StrategyMode::Redundant {
        PlanKind::RedundantChunks
    } else if split.len() == 0 {
        PlanKind::Held
    } else {
        PlanKind::SplitChunks
    }
}

/// How a payload is sent as one packet.
pub open spec fn packet_kind(
    packet_len: usize,
    options: SendOptions,
    mode: StrategyMode,
    strategy: PathStrategy,
    active: Seq<usize>,
    split: Seq<usize>,
) -> PlanKind {
    if active.len() == 0 {
        PlanKind::Dropped
    } else if split::splits(
        packet_len,
        options.split_threshold_bytes,
        options.mtu,
        split.len() as usize,
        mode,
        strategy,
    ) {
        PlanKind::SplitPacket
    } else if strategy == PathStrategy::RoundRobin {
        PlanKind::RoundRobinPacket
    } else {
        PlanKind::RedundantPacket
    }
}

/// How a payload is sent, and over which paths.
pub open spec fn plan_of(
    payload: Seq<u8>,
    options: SendOptions,
    paths: Seq<SendPath>,
    mode: StrategyMode,
    strategy: PathStrategy,
    split_names: Seq<Seq<char>>,
    rescue_names: Seq<Seq<char>>,
) -> PlanModel {
    let active = active_paths(paths);
    let split = named_paths(paths, split_names);
    let rescue = named_paths(paths, rescue_names);
    let len = payload.len() as usize;
    if is_chunked(payload, options) {
        let kind = chunk_kind(mode, strategy, active, split);
        PlanModel {
            kind,
            active,
            split,
            rescue,
            shown: if kind == PlanKind::SplitChunks {
                Some(split)
            } else {
                None
            },
            units: if kind == PlanKind::SplitChunks {
                split::chunk_count(len, options.mpeg_ts_chunk_bytes->0) as usize
            } else {
                0
            },
        }
    } else {
        let kind = packet_kind(len, options, mode, strategy, active, split);
        PlanModel {
            kind,
            active,
            split,
            rescue,
            shown: if kind == PlanKind::Dropped {
                None
            } else if strategy == PathStrategy::Split {
                Some(split)
            } else {
                Some(active)
            },
            units: if kind == PlanKind::SplitPacket {
                match options.mtu {
                    Some(mtu) if len >= mtu => split::chunk_count(len, mtu) as usize,
                    _ => len,
                }
            } else {
                0
            },
        }
    }
}

fn list_active(paths: &[SendPath]) -> (list: Vec<usize>)
    ensures
        list@ == active_paths(paths@),
{
    let mut list: Vec<usize> = Vec::new();
    for i in 0..paths.len()
        invariant
            list@ == active_paths(paths@.take(i as int)),
    {
        assert(paths@.take(i + 1).drop_last() =~= paths@.take(i as int));
        if paths[i].connected {
            list.push(i);
        }
    }
    assert(paths@.take(paths@.len() as int) =~= paths@);
    list
}

fn list_named(paths: &[SendPath], names: &[String]) -> (list: Vec<usize>)
    ensures
        list@ == named_paths(paths@, text::texts(names@)),
{
    let mut list: Vec<usize> = Vec::new();
    for i in 0..paths.len()
        invariant
            list@ == named_paths(paths@.take(i as int), text::texts(names@)),
    {
        proof {
            assert(paths@.take(i + 1).drop_last() =~= paths@.take(i as int));
            strategy::lemma_contains_text(names@, paths@[i as int].display_name@);
        }
        if paths[i].connected && contains_text(names, paths[i].display_name.as_str()) {
            list.push(i);
        }
    }
    assert(paths@.take(paths@.len() as int) =~= paths@);
    list
}

/// The paths whose shares are shown: those that take a share while packets are split, and all that
/// are connected otherwise.
pub fn displayed_paths(
    paths: &[SendPath],
    strategy: &StrategyState,
    split_names: &[String],
) -> (list: Vec<usize>)
    ensures
        list@ == (if strategy.effective() == PathStrategy::Split {
            named_paths(paths@, text::texts(split_names@))
        } else {
            active_paths(paths@)
        }),
{
    if strategy.current() == PathStrategy::Split {
        list_named(paths, split_names)
    } else {
        list_active(paths)
    }
}

/// Paths in a list are paths that there are.
pub open spec fn are_paths(list: Seq<usize>, count: nat) -> bool {
    forall|i: int| 0 <= i < list.len() ==> (#[trigger] list[i]) < count
}

/// The lists of paths hold paths that there are.
pub proof fn lemma_paths_exist(paths: Seq<SendPath>, names: Seq<Seq<char>>)
    requires
        paths.len() <= usize::MAX,
    ensures
        are_paths(active_paths(paths), paths.len()),
        are_paths(named_paths(paths, names), paths.len()),
        active_paths(paths).len() <= paths.len(),
        named_paths(paths, names).len() <= paths.len(),
        active_paths(paths).len() == 0 ==> named_paths(paths, names).len() == 0,
    decreases paths.len(),
{
    if paths.len() > 0 {
        lemma_paths_exist(paths.drop_last(), names);
    }
}

impl SendPlan {
    /// The paths of the plan are paths that there are, and a plan that needs one has one.
    pub open spec fn is_valid(self, count: nat) -> bool {
        &&& are_paths(self.active@, count)
        &&& are_paths(self.split@, count)
        &&& are_paths(self.rescue@, count)
        &&& self.kind != PlanKind::Held && self.kind != PlanKind::Dropped ==> self.active@.len() > 0
        &&& self.kind == PlanKind::SplitChunks ==> self.split@.len() > 0
    }

    /// The plan is for payloads that are sent in chunks if it sends in chunks.
    pub open spec fn suits(self, options: SendOptions) -> bool {
        self.kind == PlanKind::RoundRobinChunks || self.kind == PlanKind::RedundantChunks
            || self.kind == PlanKind::SplitChunks ==> options.mpeg_ts_chunk_bytes is Some
    }

    /// Plans how a payload is sent, if shares go to the paths with these names, and whole packets
    /// beside them to the paths with those.
    pub fn new(
        payload: &[u8],
        options: &SendOptions,
        paths: &[SendPath],
        strategy: &StrategyState,
        split_names: &[String],
        rescue_names: &[String],
    ) -> (plan: SendPlan)
        requires
            options.well_formed(),
        ensures
            plan@ == plan_of(
                payload@,
                *options,
                paths@,
                strategy.mode,
                strategy.effective(),
                text::texts(split_names@),
                text::texts(rescue_names@),
            ),
            plan.is_valid(paths@.len()),
            plan.suits(*options),
    {
        let active = list_active(paths);
        let split = list_named(paths, split_names);
        let rescue = list_named(paths, rescue_names);
        let mode = strategy.mode();
        let effective = strategy.current();
        proof {
            assert(paths.len() == paths@.len());
            lemma_paths_exist(paths@, text::texts(split_names@));
            lemma_paths_exist(paths@, text::texts(rescue_names@));
        }
        if let Some(chunk_bytes) = options.mpeg_ts_chunk_bytes {
            if payload.len() > chunk_bytes && is_mpeg_ts_payload(payload) {
                let kind = if active.len() == 0 {
                    PlanKind::Held
                } else if effective == PathStrategy::RoundRobin {
                    PlanKind::RoundRobinChunks
                } else if effective == PathStrategy::Redundant || mode == StrategyMode::Redundant {
                    PlanKind::RedundantChunks
                } else if split.len() == 0 {
                    PlanKind::Held
                } else {
                    PlanKind::SplitChunks
                };
                let splits = kind == PlanKind::SplitChunks;
                let units: usize = if splits {
                    count_chunks(payload.len(), chunk_bytes)
                } else {
                    0
                };
                let shown = if splits {
                    Some(split.clone())
                } else {
                    None
                };
                return SendPlan { kind, active, split, rescue, shown, units };
            }
        }
        let kind = if active.len() == 0 {
            PlanKind::Dropped
        } else if should_split(
            payload.len(),
            options.split_threshold_bytes,
            options.mtu,
            split.len(),
            mode,
            effective,
        ) {
            PlanKind::SplitPacket
        } else if effective == PathStrategy::RoundRobin {
            PlanKind::RoundRobinPacket
        } else {
            PlanKind::RedundantPacket
        };
        let units: usize = if kind == PlanKind::SplitPacket {
            units_to_divide(payload.len(), options.mtu)
        } else {
            0
        };
        let shown = if kind == PlanKind::Dropped {
            None
        } else if effective == PathStrategy::Split {
            Some(split.clone())
        } else {
            Some(active.clone())
        };
        SendPlan { kind, active, split, rescue, shown, units }
    }
}

/// What the client is to do.
#[derive(Debug)]
pub enum SendAction {
    /// Show the shares of these paths.
    Show { paths: Vec<usize> },
    /// Send a packet over a path.
    Send { path: usize, packet: Arc<Bytes>, sequence: u64, payload_len: u64 },
    /// Send a parity frame over every connected path.
    Fec { frame: Bytes },
    /// Report that a packet cannot be divided.
    Refuse { error: String },
}

#[verifier::ext_equal]
pub enum SendModel {
    Show { paths: Seq<usize> },
    Send { path: usize, packet: Seq<u8>, sequence: u64, payload_len: u64 },
    Fec { frame: Seq<u8> },
    Refuse { error: Seq<char> },
}

impl View for SendAction {
    type V = SendModel;

    open spec fn view(&self) -> SendModel {
        match *self {
            SendAction::Show { paths } => SendModel::Show { paths: paths@ },
            SendAction::Send { path, packet, sequence, payload_len } => SendModel::Send {
                path,
                packet: buffers::contents(*packet),
                sequence,
                payload_len,
            },
            SendAction::Fec { frame } => SendModel::Fec { frame: buffers::contents(frame) },
            SendAction::Refuse { error } => SendModel::Refuse { error: error@ },
        }
    }
}

/// The actions that a list holds.
pub open spec fn send_models(actions: Seq<SendAction>) -> Seq<SendModel> {
    actions.map_values(|action: SendAction| action@)
}

/// The sender: the sequence number of the next packet, the packets that can be asked for again, the
/// group of packets whose parity is next, whose turn it is, and what is to be done.
#[verifier::ext_equal]
pub struct SenderModel {
    pub seq: u64,
    pub cache: CacheModel,
    pub group: Seq<SourceModel>,
    pub cursor: u64,
    pub actions: Seq<SendModel>,
    pub max_packets: usize,
    pub ttl: u64,
    pub group_size: Option<usize>,
}

/// A packet of one fragment.
pub open spec fn whole_packet(sequence: u64, payload: Seq<u8>) -> Seq<u8> {
    protocol::packet_bytes(PacketHeader { sequence, fragment: 0, fragments: 1 }, payload)
}

/// A packet as it is remembered.
pub open spec fn whole_fragment(sequence: u64, payload: Seq<u8>) -> FragmentModel {
    FragmentModel {
        packet: whole_packet(sequence, payload),
        payload_len: payload.len() as u64,
    }
}

/// The part of a payload.
pub open spec fn part_at(payload: Seq<u8>, part: (usize, usize, usize)) -> Seq<u8> {
    payload.subrange(part.1 as int, part.2 as int)
}

/// The fragments of a divided payload.
pub open spec fn fragments_of(
    sequence: u64,
    payload: Seq<u8>,
    parts: Seq<(usize, usize, usize)>,
) -> Seq<FragmentModel> {
    Seq::new(
        parts.len(),
        |i: int|
            FragmentModel {
                packet: protocol::packet_bytes(
                    PacketHeader {
                        sequence,
                        fragment: i as u8,
                        fragments: parts.len() as u8,
                    },
                    part_at(payload, parts[i]),
                ),
                payload_len: (parts[i].2 - parts[i].1) as u64,
            },
    )
}

/// Why a packet cannot be divided.
pub open spec fn refusal(packet_len: usize, mtu: Option<usize>) -> Seq<char> {
    "packet length "@ + text::decimal(packet_len as nat)
        + " requires more than 7 fragments for mtu "@ + (match mtu {
        Some(limit) => "Some("@ + text::decimal(limit as nat) + ")"@,
        None => "None"@,
    })
}

impl SenderModel {
    pub open spec fn act(self, action: SendModel) -> SenderModel {
        SenderModel { actions: self.actions.push(action), ..self }
    }

    /// A packet is remembered.
    pub open spec fn cached(self, fragments: Seq<FragmentModel>, now: u64) -> SenderModel {
        SenderModel {
            cache: self.cache.with_packet(
                self.seq,
                fragments,
                self.max_packets,
                self.ttl,
                now,
            ),
            ..self
        }
    }

    /// A packet is sent over each of these paths.
    pub open spec fn sent_over(
        self,
        paths: Seq<usize>,
        packet: Seq<u8>,
        payload_len: u64,
    ) -> SenderModel
        decreases paths.len(),
    {
        if paths.len() == 0 {
            self
        } else {
            self.sent_over(paths.drop_last(), packet, payload_len).act(
                SendModel::Send {
                    path: paths.last(),
                    packet,
                    sequence: self.seq,
                    payload_len,
                },
            )
        }
    }

    /// The fragments of a packet are sent, each over its path.
    pub open spec fn sent_parts(
        self,
        fragments: Seq<FragmentModel>,
        parts: Seq<(usize, usize, usize)>,
        split: Seq<usize>,
        count: nat,
    ) -> SenderModel
        decreases count,
    {
        if count == 0 {
            self
        } else {
            self.sent_parts(fragments, parts, split, (count - 1) as nat).act(
                SendModel::Send {
                    path: split[parts[count - 1].0 as int],
                    packet: fragments[count - 1].packet,
                    sequence: self.seq,
                    payload_len: fragments[count - 1].payload_len,
                },
            )
        }
    }

    /// A payload joins the group whose parity is next; the payload that fills the group sends the
    /// parity frame.
    pub open spec fn recorded(self, payload: Seq<u8>) -> SenderModel {
        let group = self.group.push((self.seq, payload));
        if self.group_size is None || payload.len() > 0xffff {
            self
        } else if group.len() < self.group_size->0 {
            SenderModel { group, ..self }
        } else {
            let done = SenderModel { group: Seq::empty(), ..self };
            match fec::group_packet(group) {
                Some(frame) => done.act(SendModel::Fec { frame }),
                None => done,
            }
        }
    }

    /// The sequence number is used up.
    pub open spec fn advanced(self) -> SenderModel {
        SenderModel { seq: sequence::following(self.seq), ..self }
    }

    /// A payload is sent whole over each of these paths.
    pub open spec fn whole_over(
        self,
        payload: Seq<u8>,
        paths: Seq<usize>,
        now: u64,
    ) -> SenderModel {
        self.cached(seq![whole_fragment(self.seq, payload)], now).sent_over(
            paths,
            whole_packet(self.seq, payload),
            payload.len() as u64,
        ).recorded(payload).advanced()
    }

    /// A payload is sent whole over the path whose turn it is.
    pub open spec fn whole_in_turn(
        self,
        payload: Seq<u8>,
        active: Seq<usize>,
        now: u64,
    ) -> SenderModel {
        let path = active[(self.cursor % (active.len() as u64)) as int];
        SenderModel {
            cursor: server_ui::wrapped_sum(self.cursor, 1),
            ..self
        }.whole_over(payload, seq![path], now)
    }

    /// A payload is sent in fragments, and whole over the paths that get whole packets.
    pub open spec fn divided_over(
        self,
        payload: Seq<u8>,
        parts: Seq<(usize, usize, usize)>,
        split: Seq<usize>,
        rescue: Seq<usize>,
        now: u64,
    ) -> SenderModel {
        let fragments = fragments_of(self.seq, payload, parts);
        let sent = self.cached(fragments, now).sent_parts(fragments, parts, split, parts.len());
        let rescued = if rescue.len() == 0 {
            sent
        } else {
            sent.cached(seq![whole_fragment(self.seq, payload)], now).sent_over(
                rescue,
                whole_packet(self.seq, payload),
                payload.len() as u64,
            )
        };
        rescued.recorded(payload).advanced()
    }

    /// A payload is sent in fragments, unless that takes too many.
    pub open spec fn split_over(
        self,
        payload: Seq<u8>,
        plan: PlanModel,
        cuts: Seq<usize>,
        mtu: Option<usize>,
        now: u64,
    ) -> SenderModel {
        let len = payload.len() as usize;
        match split::division_of(len, cuts, mtu) {
            Some(parts) => self.divided_over(payload, parts, plan.split, plan.rescue, now),
            None => self.act(SendModel::Refuse { error: refusal(len, mtu) }).advanced(),
        }
    }

    /// The first chunks of a payload are sent, each as a packet of its own.
    pub open spec fn chunks_sent(
        self,
        payload: Seq<u8>,
        parts: Seq<(usize, usize, usize)>,
        plan: PlanModel,
        count: nat,
        now: u64,
    ) -> SenderModel
        decreases count,
    {
        if count == 0 {
            self
        } else {
            let before = self.chunks_sent(payload, parts, plan, (count - 1) as nat, now);
            let part = parts[count - 1];
            let chunk = part_at(payload, part);
            if plan.kind == PlanKind::RoundRobinChunks {
                before.whole_in_turn(chunk, plan.active, now)
            } else if plan.kind == PlanKind::RedundantChunks {
                before.whole_over(chunk, plan.active, now)
            } else {
                before.whole_over(chunk, seq![plan.split[part.0 as int]], now)
            }
        }
    }

    /// A payload is sent by a plan; `cuts` tells where the shares of the paths end.
    pub open spec fn carried_out(
        self,
        payload: Seq<u8>,
        plan: PlanModel,
        cuts: Seq<usize>,
        options: SendOptions,
        now: u64,
    ) -> SenderModel {
        let shown = match plan.shown {
            Some(paths) => self.act(SendModel::Show { paths }),
            None => self,
        };
        let len = payload.len() as usize;
        match plan.kind {
            PlanKind::Held => shown,
            PlanKind::Dropped => shown.advanced(),
            PlanKind::RoundRobinPacket => shown.whole_in_turn(payload, plan.active, now),
            PlanKind::RedundantPacket => shown.whole_over(payload, plan.active, now),
            PlanKind::SplitPacket => shown.split_over(payload, plan, cuts, options.mtu, now),
            _ => {
                let chunk = options.mpeg_ts_chunk_bytes->0;
                let parts = chunk_parts(len, chunk, plan.kind, cuts);
                shown.chunks_sent(payload, parts, plan, parts.len(), now)
            },
        }
    }
}

/// The chunks of a payload, each with the place of its path among those that take a share.
pub open spec fn chunk_parts(len: usize, chunk: usize, kind: PlanKind, cuts: Seq<usize>) -> Seq<
    (usize, usize, usize),
> {
    let count = split::chunk_count(len, chunk) as usize;
    let shares = if kind == PlanKind::SplitChunks {
        split::ranges_of(count, cuts, cuts.len())
    } else {
        seq![(0usize, count)]
    };
    split::chunks_by_path(len, chunk, shares, shares.len())
}

/// The sender, without what belongs to the choice of paths.
pub struct Sender {
    pub seq: u64,
    pub cache: RepairCache,
    pub fec: FecEncoder,
}

/// The sender and what it has to do, if it is the turn of the given path.
pub open spec fn model_of(sender: Sender, cursor: u64, actions: Seq<SendAction>) -> SenderModel {
    SenderModel {
        seq: sender.seq,
        cache: sender.cache@,
        group: sender.fec.group(),
        cursor,
        actions: send_models(actions),
        max_packets: sender.cache.max_packets(),
        ttl: sender.cache.ttl(),
        group_size: sender.fec.group_size(),
    }
}

/// The bytes of a packet of one fragment.
pub fn single_fragment_packet(sequence: u64, payload: &[u8]) -> (packet: Arc<Bytes>)
    requires
        sequence <= MAX_MEDIA_SEQUENCE,
        payload@.len() + HEADER_LEN <= isize::MAX,
    ensures
        buffers::contents(*packet) == whole_packet(sequence, payload@),
{
    Arc::new(encode_packet(PacketHeader { sequence, fragment: 0, fragments: 1 }, payload))
}

/// The fragments of a divided payload.
fn make_fragments(sequence: u64, payload: &[u8], parts: &[(usize, usize, usize)]) -> (fragments:
    Vec<CachedFragment>)
    requires
        sequence <= MAX_MEDIA_SEQUENCE,
        payload@.len() + HEADER_LEN <= isize::MAX,
        parts@.len() <= MAX_FRAGMENTS,
        forall|i: int|
            0 <= i < parts@.len() ==> (#[trigger] parts@[i]).1 <= parts@[i].2 <= payload@.len(),
    ensures
        repair_cache::fragment_models(fragments@) == fragments_of(sequence, payload@, parts@),
{
    let ghost all = fragments_of(sequence, payload@, parts@);
    let mut fragments: Vec<CachedFragment> = Vec::new();
    for i in 0..parts.len()
        invariant
            sequence <= MAX_MEDIA_SEQUENCE,
            parts@.len() <= MAX_FRAGMENTS,
            payload@.len() + HEADER_LEN <= isize::MAX,
            all == fragments_of(sequence, payload@, parts@),
            forall|j: int|
                0 <= j < parts@.len() ==> (#[trigger] parts@[j]).1 <= parts@[j].2 <= payload@.len(),
            fragments@.len() == i,
            forall|j: int| 0 <= j < i ==> (#[trigger] fragments@[j])@ == all[j],
    {
        let (_, from, to) = parts[i];
        assert(parts@[i as int].1 <= parts@[i as int].2);
        let packet = Arc::new(
            encode_packet(
                PacketHeader { sequence, fragment: i as u8, fragments: parts.len() as u8 },
                slice_subrange(payload, from, to),
            ),
        );
        fragments.push(CachedFragment { packet, payload_len: (to - from) as u64 });
        assert(fragments@[i as int]@ =~= all[i as int]);
    }
    assert(repair_cache::fragment_models(fragments@) =~= all);
    fragments
}

fn copy_fragments(fragments: &[CachedFragment]) -> (copies: Vec<CachedFragment>)
    ensures
        copies@ == fragments@,
{
    let mut copies: Vec<CachedFragment> = Vec::new();
    for i in 0..fragments.len()
        invariant
            copies@ == fragments@.take(i as int),
    {
        copies.push(fragments[i].clone());
        assert(copies@ =~= fragments@.take(i + 1));
    }
    assert(fragments@.take(fragments@.len() as int) =~= fragments@);
    copies
}

impl Sender {
    pub open spec fn well_formed(self) -> bool {
        &&& self.seq <= MAX_MEDIA_SEQUENCE
        &&& self.cache.well_formed()
        &&& self.fec.well_formed()
    }

    /// A sender that has sent nothing.
    pub fn new(cache: RepairCache, fec: FecEncoder) -> (sender: Sender)
        requires
            cache.well_formed(),
            fec.well_formed(),
        ensures
            sender.well_formed(),
            sender == (Sender { seq: 0, cache, fec }),
    {
        Sender { seq: 0, cache, fec }
    }

    fn send_over(
        &self,
        paths: &[usize],
        packet: &Arc<Bytes>,
        payload_len: u64,
        actions: &mut Vec<SendAction>,
    )
        ensures
            forall|c: u64| #[trigger]
                model_of(*self, c, final(actions)@) == model_of(
                    *self,
                    c,
                    old(actions)@,
                ).sent_over(paths@, buffers::contents(**packet), payload_len),
    {
        let ghost before = actions@;
        assert(paths@.take(0) =~= Seq::<usize>::empty());
        for i in 0..paths.len()
            invariant
                forall|c: u64| #[trigger]
                    model_of(*self, c, actions@) == model_of(*self, c, before).sent_over(
                        paths@.take(i as int),
                        buffers::contents(**packet),
                        payload_len,
                    ),
        {
            let ghost earlier = actions@;
            actions.push(
                SendAction::Send {
                    path: paths[i],
                    packet: buffers::share(packet),
                    sequence: self.seq,
                    payload_len,
                },
            );
            proof {
                assert(paths@.take(i + 1).drop_last() =~= paths@.take(i as int));
                assert(send_models(actions@) =~= send_models(earlier).push(actions@.last()@));
                assert forall|c: u64| #[trigger]
                    model_of(*self, c, actions@) == model_of(*self, c, before).sent_over(
                        paths@.take(i + 1),
                        buffers::contents(**packet),
                        payload_len,
                    ) by {
                    lemma_sent_over_keeps(
                        model_of(*self, c, before),
                        paths@.take(i as int),
                        buffers::contents(**packet),
                        payload_len,
                    );
                    assert(model_of(*self, c, earlier) == model_of(*self, c, before).sent_over(
                        paths@.take(i as int),
                        buffers::contents(**packet),
                        payload_len,
                    ));
                }
            }
        }
        assert(paths@.take(paths@.len() as int) =~= paths@);
    }

    /// Adds a payload to the group whose parity is next, and uses up the sequence number.
    fn finish(&mut self, payload: &[u8], actions: &mut Vec<SendAction>)
        requires
            old(self).well_formed(),
        ensures
            final(self).well_formed(),
            forall|c: u64| #[trigger]
                model_of(*final(self), c, final(actions)@) == model_of(
                    *old(self),
                    c,
                    old(actions)@,
                ).recorded(payload@).advanced(),
    {
        let ghost before = actions@;
        let frame = self.fec.record(self.seq, payload);
        self.seq = next_sequence(self.seq);
        if let Some(frame) = frame {
            actions.push(SendAction::Fec { frame });
            assert(send_models(actions@) =~= send_models(before).push(actions@.last()@));
        }
    }

    /// Sends a payload whole over each of these paths.
    fn send_whole(
        &mut self,
        payload: &[u8],
        paths: &[usize],
        now: u64,
        actions: &mut Vec<SendAction>,
    )
        requires
            old(self).well_formed(),
            payload@.len() + HEADER_LEN <= isize::MAX,
        ensures
            final(self).well_formed(),
            forall|c: u64| #[trigger]
                model_of(*final(self), c, final(actions)@) == model_of(
                    *old(self),
                    c,
                    old(actions)@,
                ).whole_over(payload@, paths@, now),
    {
        let ghost start = *self;
        let ghost before = actions@;
        let packet = single_fragment_packet(self.seq, payload);
        self.remember_whole(&packet, payload, now);
        let ghost cached = *self;
        self.send_over(paths, &packet, payload.len() as u64, actions);
        let ghost sent = actions@;
        self.finish(payload, actions);
        proof {
            assert forall|c: u64| #[trigger]
                model_of(*self, c, actions@) == model_of(start, c, before).whole_over(
                    payload@,
                    paths@,
                    now,
                ) by {
                assert(model_of(cached, c, before) == model_of(start, c, before).cached(
                    seq![whole_fragment(start.seq, payload@)],
                    now,
                ));
                assert(model_of(cached, c, sent) == model_of(cached, c, before).sent_over(
                    paths@,
                    buffers::contents(*packet),
                    payload.len() as u64,
                ));
            }
        }
    }

    /// Remembers a packet of one fragment.
    fn remember_whole(&mut self, packet: &Arc<Bytes>, payload: &[u8], now: u64)
        requires
            old(self).well_formed(),
            buffers::contents(**packet) == whole_packet(old(self).seq, payload@),
        ensures
            final(self).well_formed(),
            forall|c: u64, actions: Seq<SendAction>| #[trigger]
                model_of(*final(self), c, actions) == model_of(*old(self), c, actions).cached(
                    seq![whole_fragment(old(self).seq, payload@)],
                    now,
                ),
    {
        let ghost start = *self;
        let mut fragments: Vec<CachedFragment> = Vec::new();
        fragments.push(
            CachedFragment { packet: buffers::share(packet), payload_len: payload.len() as u64 },
        );
        assert(repair_cache::fragment_models(fragments@) =~= seq![
            whole_fragment(start.seq, payload@),
        ]);
        self.cache.insert(self.seq, fragments, now);
    }

    /// Sends a payload whole over the path whose turn it is.
    fn send_in_turn(
        &mut self,
        payload: &[u8],
        active: &[usize],
        strategy: &mut StrategyState,
        now: u64,
        actions: &mut Vec<SendAction>,
    )
        requires
            old(self).well_formed(),
            payload@.len() + HEADER_LEN <= isize::MAX,
            active@.len() > 0,
        ensures
            final(self).well_formed(),
            *final(strategy) == (StrategyState {
                round_robin_cursor: final(strategy).round_robin_cursor,
                ..*old(strategy)
            }),
            model_of(*final(self), final(strategy).round_robin_cursor, final(actions)@) == model_of(
                *old(self),
                old(strategy).round_robin_cursor,
                old(actions)@,
            ).whole_in_turn(payload@, active@, now),
    {
        let ghost start = *self;
        let ghost before = actions@;
        let ghost cursor = strategy.round_robin_cursor;
        let index: usize = strategy.next_round_robin_index(active.len());
        let mut paths: Vec<usize> = Vec::new();
        paths.push(active[index]);
        self.send_whole(payload, paths.as_slice(), now, actions);
        proof {
            assert(paths@ =~= seq![active@[index as int]]);
            let next = server_ui::wrapped_sum(cursor, 1);
            assert(model_of(*self, next, actions@) == model_of(start, next, before).whole_over(
                payload@,
                paths@,
                now,
            ));
        }
    }

    /// Sends a payload in fragments, and whole over the paths that get whole packets.
    fn send_divided(
        &mut self,
        payload: &[u8],
        parts: &[(usize, usize, usize)],
        split: &[usize],
        rescue: &[usize],
        now: u64,
        actions: &mut Vec<SendAction>,
    )
        requires
            old(self).well_formed(),
            payload@.len() + HEADER_LEN <= isize::MAX,
            parts@.len() <= MAX_FRAGMENTS,
            forall|i: int|
                0 <= i < parts@.len() ==> (#[trigger] parts@[i]).0 < split@.len() && parts@[i].1
                    <= parts@[i].2 <= payload@.len(),
        ensures
            final(self).well_formed(),
            forall|c: u64| #[trigger]
                model_of(*final(self), c, final(actions)@) == model_of(
                    *old(self),
                    c,
                    old(actions)@,
                ).divided_over(payload@, parts@, split@, rescue@, now),
    {
        let ghost start = *self;
        let ghost before = actions@;
        let ghost all = fragments_of(self.seq, payload@, parts@);
        let fragments = make_fragments(self.seq, payload, parts);
        let copies = copy_fragments(fragments.as_slice());
        self.cache.insert(self.seq, fragments, now);
        let ghost cached = *self;
        for i in 0..parts.len()
            invariant
                *self == cached,
                copies@.len() == parts@.len(),
                repair_cache::fragment_models(copies@) == all,
                forall|j: int|
                    0 <= j < parts@.len() ==> (#[trigger] parts@[j]).0 < split@.len() && parts@[j].1
                        <= parts@[j].2 <= payload@.len(),
                forall|c: u64| #[trigger]
                    model_of(cached, c, actions@) == model_of(cached, c, before).sent_parts(
                        all,
                        parts@,
                        split@,
                        i as nat,
                    ),
        {
            let ghost earlier = actions@;
            assert(all[i as int] == copies@[i as int]@);
            actions.push(
                SendAction::Send {
                    path: split[parts[i].0],
                    packet: buffers::share(&copies[i].packet),
                    sequence: self.seq,
                    payload_len: copies[i].payload_len,
                },
            );
            proof {
                assert(send_models(actions@) =~= send_models(earlier).push(actions@.last()@));
                assert forall|c: u64| #[trigger]
                    model_of(cached, c, actions@) == model_of(cached, c, before).sent_parts(
                        all,
                        parts@,
                        split@,
                        (i + 1) as nat,
                    ) by {
                    lemma_sent_parts_keeps(
                        model_of(cached, c, before),
                        all,
                        parts@,
                        split@,
                        i as nat,
                    );
                    assert(model_of(cached, c, earlier) == model_of(cached, c, before).sent_parts(
                        all,
                        parts@,
                        split@,
                        i as nat,
                    ));
                }
            }
        }
        let ghost parted = actions@;
        if rescue.len() > 0 {
            let packet = single_fragment_packet(self.seq, payload);
            self.remember_whole(&packet, payload, now);
            self.send_over(rescue, &packet, payload.len() as u64, actions);
        }
        let ghost rescued = *self;
        let ghost sent = actions@;
        self.finish(payload, actions);
        proof {
            assert forall|c: u64| #[trigger]
                model_of(*self, c, actions@) == model_of(start, c, before).divided_over(
                    payload@,
                    parts@,
                    split@,
                    rescue@,
                    now,
                ) by {
                assert(model_of(cached, c, before) == model_of(start, c, before).cached(all, now));
                assert(model_of(cached, c, parted) == model_of(cached, c, before).sent_parts(
                    all,
                    parts@,
                    split@,
                    parts@.len(),
                ));
                if rescue@.len() > 0 {
                    assert(model_of(rescued, c, parted) == model_of(cached, c, parted).cached(
                        seq![whole_fragment(start.seq, payload@)],
                        now,
                    ));
                    assert(model_of(rescued, c, sent) == model_of(rescued, c, parted).sent_over(
                        rescue@,
                        whole_packet(start.seq, payload@),
                        payload@.len() as u64,
                    ));
                }
            }
        }
    }

    /// Sends a payload in chunks, each as a packet of its own.
    fn send_chunks(
        &mut self,
        payload: &[u8],
        parts: &[(usize, usize, usize)],
        plan: &SendPlan,
        strategy: &mut StrategyState,
        now: u64,
        actions: &mut Vec<SendAction>,
    )
        requires
            old(self).well_formed(),
            payload@.len() + HEADER_LEN <= isize::MAX,
            plan.active@.len() > 0,
            forall|i: int|
                0 <= i < parts@.len() ==> (#[trigger] parts@[i]).1 <= parts@[i].2 <= payload@.len()
                    && (plan.kind != PlanKind::RoundRobinChunks && plan.kind
                    != PlanKind::RedundantChunks ==> parts@[i].0 < plan.split@.len()),
        ensures
            final(self).well_formed(),
            *final(strategy) == (StrategyState {
                round_robin_cursor: final(strategy).round_robin_cursor,
                ..*old(strategy)
            }),
            model_of(*final(self), final(strategy).round_robin_cursor, final(actions)@) == model_of(
                *old(self),
                old(strategy).round_robin_cursor,
                old(actions)@,
            ).chunks_sent(payload@, parts@, plan@, parts@.len(), now),
    {
        let ghost started = *strategy;
        let ghost start = model_of(*self, strategy.round_robin_cursor, actions@);
        for i in 0..parts.len()
            invariant
                self.well_formed(),
                payload@.len() + HEADER_LEN <= isize::MAX,
                plan.active@.len() > 0,
                forall|j: int|
                    0 <= j < parts@.len() ==> (#[trigger] parts@[j]).1 <= parts@[j].2
                        <= payload@.len() && (plan.kind != PlanKind::RoundRobinChunks && plan.kind
                        != PlanKind::RedundantChunks ==> parts@[j].0 < plan.split@.len()),
                *strategy == (StrategyState {
                    round_robin_cursor: strategy.round_robin_cursor,
                    ..started
                }),
                model_of(*self, strategy.round_robin_cursor, actions@) == start.chunks_sent(
                    payload@,
                    parts@,
                    plan@,
                    i as nat,
                    now,
                ),
        {
            let (path, from, to) = parts[i];
            assert(parts@[i as int].1 <= parts@[i as int].2);
            let chunk = slice_subrange(payload, from, to);
            let ghost earlier = *self;
            let ghost done = actions@;
            match plan.kind {
                PlanKind::RoundRobinChunks => {
                    self.send_in_turn(chunk, plan.active.as_slice(), strategy, now, actions);
                },
                PlanKind::RedundantChunks => {
                    self.send_whole(chunk, plan.active.as_slice(), now, actions);
                    assert(model_of(*self, strategy.round_robin_cursor, actions@) == model_of(
                        earlier,
                        strategy.round_robin_cursor,
                        done,
                    ).whole_over(chunk@, plan.active@, now));
                },
                _ => {
                    let mut paths: Vec<usize> = Vec::new();
                    paths.push(plan.split[path]);
                    self.send_whole(chunk, paths.as_slice(), now, actions);
                    assert(paths@ =~= seq![plan.split@[path as int]]);
                    assert(model_of(*self, strategy.round_robin_cursor, actions@) == model_of(
                        earlier,
                        strategy.round_robin_cursor,
                        done,
                    ).whole_over(chunk@, paths@, now));
                },
            }
        }
    }

    /// Sends a payload in fragments, unless that takes too many.
    fn send_split(
        &mut self,
        payload: &[u8],
        plan: &SendPlan,
        cuts: &[usize],
        mtu: Option<usize>,
        now: u64,
        actions: &mut Vec<SendAction>,
    )
        requires
            old(self).well_formed(),
            payload@.len() + HEADER_LEN <= isize::MAX,
            mtu matches Some(limit) ==> limit > 0,
            cuts@.len() == plan.split@.len(),
        ensures
            final(self).well_formed(),
            forall|c: u64| #[trigger]
                model_of(*final(self), c, final(actions)@) == model_of(
                    *old(self),
                    c,
                    old(actions)@,
                ).split_over(payload@, plan@, cuts@, mtu, now),
    {
        match packet_split_ranges(payload.len(), cuts, mtu) {
            Some(parts) => {
                proof {
                    assert(cuts.len() == cuts@.len());
                    split::lemma_division_fits(payload.len(), cuts@, mtu);
                }
                self.send_divided(
                    payload,
                    parts.as_slice(),
                    plan.split.as_slice(),
                    plan.rescue.as_slice(),
                    now,
                    actions,
                );
            },
            None => {
                let ghost before = actions@;
                let error = refusal_text(payload.len(), mtu);
                actions.push(SendAction::Refuse { error });
                assert(send_models(actions@) =~= send_models(before).push(actions@.last()@));
                self.seq = next_sequence(self.seq);
            },
        }
    }

    /// Sends a payload by a plan; `cuts` tells where the shares of the paths end.
    pub fn send_payload(
        &mut self,
        payload: &[u8],
        plan: &SendPlan,
        cuts: &[usize],
        options: &SendOptions,
        strategy: &mut StrategyState,
        now: u64,
    ) -> (actions: Vec<SendAction>)
        requires
            old(self).well_formed(),
            options.well_formed(),
            payload@.len() + HEADER_LEN <= isize::MAX,
            plan.suits(*options),
            plan.kind != PlanKind::Held && plan.kind != PlanKind::Dropped ==> plan.active@.len()
                > 0,
            plan.kind == PlanKind::SplitChunks || plan.kind == PlanKind::SplitPacket ==> cuts@.len()
                == plan.split@.len(),
            plan.kind == PlanKind::SplitChunks ==> cuts@.len() > 0,
        ensures
            final(self).well_formed(),
            *final(strategy) == (StrategyState {
                round_robin_cursor: final(strategy).round_robin_cursor,
                ..*old(strategy)
            }),
            model_of(*final(self), final(strategy).round_robin_cursor, actions@) == model_of(
                *old(self),
                old(strategy).round_robin_cursor,
                Seq::empty(),
            ).carried_out(payload@, plan@, cuts@, *options, now),
    {
        let ghost start = *self;
        let ghost cursor = strategy.round_robin_cursor;
        let mut actions: Vec<SendAction> = Vec::new();
        assert(send_models(actions@) =~= Seq::<SendModel>::empty());
        if let Some(paths) = &plan.shown {
            actions.push(SendAction::Show { paths: paths.clone() });
            assert(send_models(actions@) =~= Seq::<SendModel>::empty().push(
                SendModel::Show { paths: paths@ },
            ));
        }
        let ghost shown = actions@;
        let ghost base = model_of(start, cursor, Seq::<SendAction>::empty());
        assert(send_models(Seq::<SendAction>::empty()) =~= Seq::<SendModel>::empty());
        assert(model_of(start, cursor, shown) == (match plan@.shown {
            Some(paths) => base.act(SendModel::Show { paths }),
            None => base,
        }));
        match plan.kind {
            PlanKind::Held => {},
            PlanKind::Dropped => {
                self.seq = next_sequence(self.seq);
            },
            PlanKind::RoundRobinPacket => {
                self.send_in_turn(payload, plan.active.as_slice(), strategy, now, &mut actions);
            },
            PlanKind::RedundantPacket => {
                self.send_whole(payload, plan.active.as_slice(), now, &mut actions);
                assert(model_of(*self, cursor, actions@) == model_of(
                    start,
                    cursor,
                    shown,
                ).whole_over(payload@, plan.active@, now));
            },
            PlanKind::SplitPacket => {
                self.send_split(payload, plan, cuts, options.mtu, now, &mut actions);
                assert(model_of(*self, cursor, actions@) == model_of(
                    start,
                    cursor,
                    shown,
                ).split_over(payload@, plan@, cuts@, options.mtu, now));
            },
            _ => {
                let chunk_bytes: usize = match options.mpeg_ts_chunk_bytes {
                    Some(bytes) => bytes,
                    None => {
                        return actions;
                    },
                };
                proof {
                    assert(cuts.len() == cuts@.len());
                    lemma_chunk_parts(payload.len(), chunk_bytes, plan.kind, cuts@);
                }
                let parts = plan_chunks(payload.len(), chunk_bytes, plan.kind, cuts);
                self.send_chunks(payload, parts.as_slice(), plan, strategy, now, &mut actions);
            },
        }
        actions
    }

    /// Answers a request for a packet that did not arrive: its fragments are sent once more, each
    /// over every connected path. What is no request, and a request for a packet that is not
    /// remembered, is not answered.
    pub fn answer_repair(&mut self, request: &[u8], paths: &[SendPath], now: u64) -> (actions: Vec<
        SendAction,
    >)
        requires
            old(self).well_formed(),
        ensures
            final(self).well_formed(),
            final(self).seq == old(self).seq,
            final(self).fec == old(self).fec,
            final(self).cache.ttl() == old(self).cache.ttl(),
            final(self).cache.max_packets() == old(self).cache.max_packets(),
            match protocol::repair_request_of(request@) {
                Ok(wanted) => {
                    let known = old(self).cache@.refreshed(old(self).cache.ttl(), now);
                    if known.answers(wanted, now) {
                        &&& final(self).cache@ == known.with_request(
                            wanted,
                            old(self).cache.max_packets(),
                            now,
                        )
                        &&& send_models(actions@) == repairs(
                            repair_cache::answer_of(
                                known.packets[wanted.sequence].fragments,
                                wanted.missing_mask,
                            ),
                            active_paths(paths@),
                            wanted.sequence,
                        )
                    } else {
                        final(self).cache@ == known && actions@.len() == 0
                    }
                },
                Err(_) => final(self).cache@ == old(self).cache@ && actions@.len() == 0,
            },
    {
        let mut actions: Vec<SendAction> = Vec::new();
        assert(send_models(actions@) =~= Seq::<SendModel>::empty());
        let wanted = match decode_repair_request(request) {
            Ok(wanted) => wanted,
            Err(_) => {
                return actions;
            },
        };
        let fragments = self.cache.fragments_for(wanted, now);
        let active = list_active(paths);
        let ghost models = repair_cache::fragment_models(fragments@);
        assert(models.take(0) =~= Seq::<FragmentModel>::empty());
        for i in 0..fragments.len()
            invariant
                models == repair_cache::fragment_models(fragments@),
                active@ == active_paths(paths@),
                send_models(actions@) == repairs(
                    models.take(i as int),
                    active_paths(paths@),
                    wanted.sequence,
                ),
        {
            let ghost before = send_models(actions@);
            let ghost sends = repair_sends(models[i as int], active@, wanted.sequence);
            assert(before + sends.take(0) =~= before);
            for j in 0..active.len()
                invariant
                    i < fragments@.len(),
                    models == repair_cache::fragment_models(fragments@),
                    sends == repair_sends(models[i as int], active@, wanted.sequence),
                    send_models(actions@) == before + sends.take(j as int),
            {
                let ghost earlier = actions@;
                actions.push(
                    SendAction::Send {
                        path: active[j],
                        packet: buffers::share(&fragments[i].packet),
                        sequence: wanted.sequence,
                        payload_len: fragments[i].payload_len,
                    },
                );
                proof {
                    assert(models[i as int] == fragments@[i as int]@);
                    assert(actions@.last()@ == sends[j as int]);
                    assert(send_models(actions@) =~= send_models(earlier).push(actions@.last()@));
                    assert(sends.take(j + 1) =~= sends.take(j as int).push(sends[j as int]));
                    assert(send_models(actions@) =~= before + sends.take(j + 1));
                }
            }
            assert(sends.take(sends.len() as int) =~= sends);
            assert(models.take(i + 1).drop_last() =~= models.take(i as int));
        }
        assert(models.take(models.len() as int) =~= models);
        proof {
            if fragments@.len() == 0 {
                assert(models =~= Seq::<FragmentModel>::empty());
                assert(send_models(actions@).len() == actions@.len());
            }
        }
        actions
    }
}

/// A fragment is sent once more over each of these paths.
pub open spec fn repair_sends(fragment: FragmentModel, paths: Seq<usize>, sequence: u64) -> Seq<
    SendModel,
> {
    paths.map_values(
        |path: usize|
            SendModel::Send {
                path,
                packet: fragment.packet,
                sequence,
                payload_len: fragment.payload_len,
            },
    )
}

/// Fragments are sent once more, one after the other, each over each of these paths.
pub open spec fn repairs(
    fragments: Seq<FragmentModel>,
    paths: Seq<usize>,
    sequence: u64,
) -> Seq<SendModel>
    decreases fragments.len(),
{
    if fragments.len() == 0 {
        Seq::empty()
    } else {
        repairs(fragments.drop_last(), paths, sequence) + repair_sends(
            fragments.last(),
            paths,
            sequence,
        )
    }
}

fn refusal_text(packet_len: usize, mtu: Option<usize>) -> (error: String)
    ensures
        error@ == refusal(packet_len, mtu),
{
    let mut error = "packet length ".to_owned();
    push_decimal(&mut error, packet_len as u64);
    error.append(" requires more than 7 fragments for mtu ");
    match mtu {
        Some(limit) => {
            error.append("Some(");
            push_decimal(&mut error, limit as u64);
            error.append(")");
        },
        None => {
            error.append("None");
        },
    }
    assert(error@ =~= refusal(packet_len, mtu));
    error
}

/// The chunks of a payload lie within it, are for the paths that take a share, and make the
/// payload.
pub proof fn lemma_chunk_parts(len: usize, chunk: usize, kind: PlanKind, cuts: Seq<usize>)
    requires
        chunk > 0,
        cuts.len() <= usize::MAX,
        kind == PlanKind::SplitChunks ==> cuts.len() > 0,
    ensures
        ({
            let parts = chunk_parts(len, chunk, kind, cuts);
            &&& parts.len() == split::chunk_count(len, chunk)
            &&& split::covers(parts, len)
            &&& forall|i: int|
                0 <= i < parts.len() ==> (#[trigger] parts[i]).1 <= parts[i].2 <= len && (kind
                    == PlanKind::SplitChunks ==> parts[i].0 < cuts.len())
        }),
{
    split::lemma_count_fits(len, chunk);
    let count = split::chunk_count(len, chunk) as usize;
    let used = if kind == PlanKind::SplitChunks {
        cuts
    } else {
        seq![0usize]
    };
    let shares = split::ranges_of(count, used, used.len());
    if kind != PlanKind::SplitChunks {
        reveal_with_fuel(split::ranges_of, 2);
        assert(shares =~= seq![(0usize, count)]);
    }
    split::law_ranges_cover_packet_once(count, used);
    split::lemma_paths_of_chunks(len, chunk, shares, shares.len());
    split::lemma_chunks_cover(len, chunk, used);
}

/// The chunks of a payload, each with the place of its path among those that take a share.
fn plan_chunks(len: usize, chunk: usize, kind: PlanKind, cuts: &[usize]) -> (parts: Vec<
    (usize, usize, usize),
>)
    requires
        chunk > 0,
        kind == PlanKind::SplitChunks ==> cuts@.len() > 0,
    ensures
        parts@ == chunk_parts(len, chunk, kind, cuts@),
{
    let count: usize = count_chunks(len, chunk);
    let shares = if kind == PlanKind::SplitChunks {
        proof {
            split::law_ranges_cover_packet_once(count, cuts@);
        }
        weighted_split_ranges(count, cuts)
    } else {
        let mut whole: Vec<(usize, usize)> = Vec::new();
        whole.push((0, count));
        assert(whole@ =~= seq![(0usize, count)]);
        whole
    };
    chunk_ranges(len, chunk, shares.as_slice())
}

/// Sending fragments changes nothing but what is to be done.
pub proof fn lemma_sent_parts_keeps(
    sender: SenderModel,
    fragments: Seq<FragmentModel>,
    parts: Seq<(usize, usize, usize)>,
    split: Seq<usize>,
    count: nat,
)
    ensures
        sender.sent_parts(fragments, parts, split, count) == (SenderModel {
            actions: sender.sent_parts(fragments, parts, split, count).actions,
            ..sender
        }),
    decreases count,
{
    if count > 0 {
        lemma_sent_parts_keeps(sender, fragments, parts, split, (count - 1) as nat);
    }
}

proof fn lemma_sent_over_keeps(
    sender: SenderModel,
    paths: Seq<usize>,
    packet: Seq<u8>,
    payload_len: u64,
)
    ensures
        sender.sent_over(paths, packet, payload_len) == (SenderModel {
            actions: sender.sent_over(paths, packet, payload_len).actions,
            ..sender
        }),
    decreases paths.len(),
{
    if paths.len() > 0 {
        lemma_sent_over_keeps(sender, paths.drop_last(), packet, payload_len);
    }
}

} // verus!
