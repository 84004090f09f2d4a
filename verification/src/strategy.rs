//! How the client uses its paths: all of them for every packet, a share of each packet for each,
//! or one after the other.

use crate::health_report::{EndpointModel, HealthReport, ReportModel};
use crate::name_map;
use crate::name_map::NameMap;
use crate::text;
use crate::text::{push_decimal, same_text};
use vstd::prelude::*;

verus! {

/// How old a health report may be, in milliseconds.
pub const AUTO_SPLIT_HEALTH_STALE_MS: u64 = 2_500;

/// How many packets a path may lag behind the best.
pub const AUTO_SPLIT_DEGRADE_LAG_PACKETS: u64 = 800;

/// How packets are sent.
#[derive(Debug, Clone, Copy, PartialEq, Eq, Structural)]
pub enum PathStrategy {
    Redundant,
    Split,
    RoundRobin,
}

/// How packets are to be sent; `Auto` leaves it to what is known of the paths.
#[derive(Debug, Clone, Copy, PartialEq, Eq, Structural)]
pub enum StrategyMode {
    Auto,
    Redundant,
    Split,
    RoundRobin,
}

#[derive(Debug, Clone, Copy, PartialEq, Eq, Structural)]
pub enum InterfaceLinkStatus {
    Connected,
    Reconnecting,
    Dead,
}

/// An interface that carries a path.
#[derive(Debug)]
pub struct StrategyInterface {
    pub display_name: String,
    pub device_name: String,
    pub endpoint_id: String,
}

impl PathStrategy {
    /// The name of a strategy.
    pub open spec fn label(self) -> Seq<char> {
        match self {
            PathStrategy::Redundant => "redundant"@,
            PathStrategy::Split => "split"@,
            PathStrategy::RoundRobin => "roundrobin"@,
        }
    }

    pub fn name(&self) -> (name: String)
        ensures
            name@ == self.label(),
    {
        match self {
            PathStrategy::Redundant => "redundant".to_owned(),
            PathStrategy::Split => "split".to_owned(),
            PathStrategy::RoundRobin => "roundrobin".to_owned(),
        }
    }
}

impl StrategyMode {
    /// The mode that a number stands for.
    pub open spec fn numbered(value: u8) -> StrategyMode {
        if value == 1 {
            StrategyMode::Redundant
        } else if value == 2 {
            StrategyMode::Split
        } else if value == 3 {
            StrategyMode::RoundRobin
        } else {
            StrategyMode::Auto
        }
    }

    /// The number of a mode.
    pub open spec fn number(self) -> u8 {
        match self {
            StrategyMode::Auto => 0,
            StrategyMode::Redundant => 1,
            StrategyMode::Split => 2,
            StrategyMode::RoundRobin => 3,
        }
    }

    /// The name of a mode.
    pub open spec fn label(self) -> Seq<char> {
        match self {
            StrategyMode::Auto => "auto"@,
            StrategyMode::Redundant => "redundant"@,
            StrategyMode::Split => "split"@,
            StrategyMode::RoundRobin => "roundrobin"@,
        }
    }

    pub fn from_u8(value: u8) -> (mode: StrategyMode)
        ensures
            mode == StrategyMode::numbered(value),
    {
        match value {
            1 => StrategyMode::Redundant,
            2 => StrategyMode::Split,
            3 => StrategyMode::RoundRobin,
            _ => StrategyMode::Auto,
        }
    }

    pub fn to_u8(&self) -> (value: u8)
        ensures
            value == self.number(),
    {
        match self {
            StrategyMode::Auto => 0,
            StrategyMode::Redundant => 1,
            StrategyMode::Split => 2,
            StrategyMode::RoundRobin => 3,
        }
    }

    pub fn name(&self) -> (name: String)
        ensures
            name@ == self.label(),
    {
        match self {
            StrategyMode::Auto => "auto".to_owned(),
            StrategyMode::Redundant => "redundant".to_owned(),
            StrategyMode::Split => "split".to_owned(),
            StrategyMode::RoundRobin => "roundrobin".to_owned(),
        }
    }
}

/// A mode comes back from its number.
pub proof fn law_mode_number_round_trip(mode: StrategyMode)
    ensures
        StrategyMode::numbered(mode.number()) == mode,
{
}

/// What the server received over an interface's path, by the latest report. The throughput is
/// the text of a number.
#[derive(Debug)]
pub struct InterfaceHealth {
    pub last_seq: Option<u64>,
    pub max_seq: Option<u64>,
    pub server_mbps: String,
    pub last_unix_ms: u64,
}

#[verifier::ext_equal]
pub struct HealthModel {
    pub last_seq: Option<u64>,
    pub max_seq: Option<u64>,
    pub server_mbps: Seq<char>,
    pub last_unix_ms: u64,
}

impl View for InterfaceHealth {
    type V = HealthModel;

    open spec fn view(&self) -> HealthModel {
        HealthModel {
            last_seq: self.last_seq,
            max_seq: self.max_seq,
            server_mbps: self.server_mbps@,
            last_unix_ms: self.last_unix_ms,
        }
    }
}

/// What was sent over an interface: in all, and in the time between the last two samples.
#[derive(Debug, Clone, Copy, PartialEq, Eq, Structural)]
pub struct InterfaceTraffic {
    pub tx_packets: u64,
    pub tx_bytes: u64,
    pub last_tx_bytes: u64,
    pub last_sample: u64,
    pub rate_bytes: u64,
    pub rate_nanos: u64,
}

impl InterfaceTraffic {
    /// Nothing was sent yet.
    pub open spec fn idle(now: u64) -> InterfaceTraffic {
        InterfaceTraffic {
            tx_packets: 0,
            tx_bytes: 0,
            last_tx_bytes: 0,
            last_sample: now,
            rate_bytes: 0,
            rate_nanos: 0,
        }
    }

    /// A new sample, if time has passed since the last.
    pub open spec fn sampled(self, now: u64) -> InterfaceTraffic {
        if now <= self.last_sample {
            self
        } else {
            InterfaceTraffic {
                rate_bytes: if self.tx_bytes >= self.last_tx_bytes {
                    (self.tx_bytes - self.last_tx_bytes) as u64
                } else {
                    0
                },
                rate_nanos: (now - self.last_sample) as u64,
                last_tx_bytes: self.tx_bytes,
                last_sample: now,
                ..self
            }
        }
    }

    /// One more packet of so many bytes was sent.
    pub open spec fn with_sent(self, bytes: u64) -> InterfaceTraffic {
        InterfaceTraffic {
            tx_packets: if self.tx_packets == u64::MAX {
                u64::MAX
            } else {
                (self.tx_packets + 1) as u64
            },
            tx_bytes: if self.tx_bytes + bytes > u64::MAX {
                u64::MAX
            } else {
                (self.tx_bytes + bytes) as u64
            },
            ..self
        }
    }

    pub fn new(now: u64) -> (traffic: InterfaceTraffic)
        ensures
            traffic == InterfaceTraffic::idle(now),
    {
        InterfaceTraffic {
            tx_packets: 0,
            tx_bytes: 0,
            last_tx_bytes: 0,
            last_sample: now,
            rate_bytes: 0,
            rate_nanos: 0,
        }
    }

    /// Measures what was sent since the last sample.
    pub fn update_rate(&mut self, now: u64)
        ensures
            *final(self) == old(self).sampled(now),
    {
        if now <= self.last_sample {
            return;
        }
        self.rate_bytes = self.tx_bytes.saturating_sub(self.last_tx_bytes);
        self.rate_nanos = now - self.last_sample;
        self.last_tx_bytes = self.tx_bytes;
        self.last_sample = now;
    }
}

/// What the client knows of its paths and how it uses them.
pub struct StrategyState {
    pub mode: StrategyMode,
    pub strategy: PathStrategy,
    pub weighted_auto_split: bool,
    pub monitor_packets: bool,
    pub packets: u64,
    pub payload_bytes: u64,
    pub round_robin_cursor: u64,
    pub endpoint_ids_by_interface: NameMap<String>,
    pub health_by_interface: NameMap<InterfaceHealth>,
    pub interface_failures: NameMap<()>,
    pub interface_status: NameMap<InterfaceLinkStatus>,
    pub interface_traffic: NameMap<InterfaceTraffic>,
}

/// The state of an interface, as it is shown.
#[derive(Debug)]
pub struct InterfaceControlStatus {
    pub name: String,
    pub status: InterfaceLinkStatus,
    pub tx_packets: u64,
    pub tx_bytes: u64,
    pub rate_bytes: u64,
    pub rate_nanos: u64,
    pub server_mbps: Option<String>,
    pub server_last_seq: Option<u64>,
    pub server_max_seq: Option<u64>,
}

/// The state of the paths, as it is shown.
#[derive(Debug)]
pub struct ControlStatus {
    pub mode: StrategyMode,
    pub effective_strategy: PathStrategy,
    pub monitor_packets: bool,
    pub packets: u64,
    pub payload_bytes: u64,
    pub interfaces: Vec<InterfaceControlStatus>,
}

/// A change of strategy and the reason for it.
#[derive(Debug)]
pub struct StrategyChange {
    pub strategy: String,
    pub reason: String,
}

/// What a change of strategy says.
pub open spec fn change_is(
    change: Option<StrategyChange>,
    strategy: Seq<char>,
    reason: Seq<char>,
) -> bool {
    change matches Some(found) && found.strategy@ == strategy && found.reason@ == reason
}

/// The endpoint of each interface; the last of two interfaces with one name counts.
pub open spec fn endpoint_ids_of(interfaces: Seq<StrategyInterface>) -> Map<Seq<char>, String>
    decreases interfaces.len(),
{
    if interfaces.len() == 0 {
        Map::empty()
    } else {
        endpoint_ids_of(interfaces.drop_last()).insert(
            interfaces.last().display_name@,
            interfaces.last().endpoint_id,
        )
    }
}

/// One value for each interface.
pub open spec fn each_interface<V>(interfaces: Seq<StrategyInterface>, value: V) -> Map<
    Seq<char>,
    V,
>
    decreases interfaces.len(),
{
    if interfaces.len() == 0 {
        Map::empty()
    } else {
        each_interface(interfaces.drop_last(), value).insert(
            interfaces.last().display_name@,
            value,
        )
    }
}

/// The place of the last endpoint with a name.
pub open spec fn last_endpoint(endpoints: Seq<EndpointModel>, id: Seq<char>) -> Option<int>
    decreases endpoints.len(),
{
    if endpoints.len() == 0 {
        None
    } else if endpoints.last().endpoint_id == id {
        Some(endpoints.len() - 1)
    } else {
        last_endpoint(endpoints.drop_last(), id)
    }
}

/// What a report says of an endpoint.
pub open spec fn health_of(endpoint: EndpointModel, unix_ms: u64) -> HealthModel {
    HealthModel {
        last_seq: endpoint.last_seq,
        max_seq: endpoint.max_seq,
        server_mbps: endpoint.achieved_mbps,
        last_unix_ms: unix_ms,
    }
}

/// Whether what is known is recent.
pub open spec fn is_fresh(health: HealthModel, now_ms: u64) -> bool {
    now_ms - health.last_unix_ms <= AUTO_SPLIT_HEALTH_STALE_MS
}

/// The names of a list that are among the keys of a map.
pub open spec fn names_in<V>(list: Seq<Seq<char>>, map: Map<Seq<char>, V>) -> Seq<Seq<char>>
    decreases list.len(),
{
    if list.len() == 0 {
        Seq::empty()
    } else if map.contains_key(list.last()) {
        names_in(list.drop_last(), map).push(list.last())
    } else {
        names_in(list.drop_last(), map)
    }
}

/// The names of a list that are not among the keys of a map.
pub open spec fn names_outside<V>(list: Seq<Seq<char>>, map: Map<Seq<char>, V>) -> Seq<Seq<char>>
    decreases list.len(),
{
    if list.len() == 0 {
        Seq::empty()
    } else if map.contains_key(list.last()) {
        names_outside(list.drop_last(), map)
    } else {
        names_outside(list.drop_last(), map).push(list.last())
    }
}

/// The names of a list that are not in another list.
pub open spec fn names_without(list: Seq<Seq<char>>, others: Seq<Seq<char>>) -> Seq<Seq<char>>
    decreases list.len(),
{
    if list.len() == 0 {
        Seq::empty()
    } else if others.contains(list.last()) {
        names_without(list.drop_last(), others)
    } else {
        names_without(list.drop_last(), others).push(list.last())
    }
}

/// A path of which something recent is known: whether it keeps up with the best, and the
/// throughput, as the text of a number.
#[derive(Debug)]
pub struct FreshPath {
    pub name: String,
    pub keeps_up: bool,
    pub server_mbps: String,
}

#[verifier::ext_equal]
pub struct FreshModel {
    pub name: Seq<char>,
    pub keeps_up: bool,
    pub server_mbps: Seq<char>,
}

impl View for FreshPath {
    type V = FreshModel;

    open spec fn view(&self) -> FreshModel {
        FreshModel {
            name: self.name@,
            keeps_up: self.keeps_up,
            server_mbps: self.server_mbps@,
        }
    }
}

/// The paths that a list holds.
pub open spec fn fresh_models(list: Seq<FreshPath>) -> Seq<FreshModel> {
    list.map_values(|path: FreshPath| path@)
}

/// What is known of the paths that may take a share: those that failed, the others, and of these
/// those of which something recent is known.
#[derive(Debug)]
pub struct PathGroups {
    pub failed: Vec<String>,
    pub candidates: Vec<String>,
    pub fresh: Vec<FreshPath>,
}

/// The greatest of two sequence numbers.
pub open spec fn later_sequence(a: Option<u64>, b: Option<u64>) -> Option<u64> {
    match (a, b) {
        (Some(x), Some(y)) => if x >= y {
            Some(x)
        } else {
            Some(y)
        },
        (Some(x), None) => Some(x),
        (None, y) => y,
    }
}

/// The paths that take a share of each packet: those that keep up with the best and receive
/// enough.
pub open spec fn healthy_names(fresh: Seq<FreshModel>, receives: Seq<bool>) -> Seq<Seq<char>>
    decreases fresh.len(),
{
    if fresh.len() == 0 {
        Seq::empty()
    } else {
        let before = healthy_names(fresh.drop_last(), receives);
        if fresh.last().keeps_up && receives[fresh.len() - 1] {
            before.push(fresh.last().name)
        } else {
            before
        }
    }
}

/// The paths that take a share of each packet, and those that do not and so get whole packets. A
/// single path that has not failed is in both.
pub open spec fn groups_of(
    failed: Seq<Seq<char>>,
    candidates: Seq<Seq<char>>,
    fresh: Seq<FreshModel>,
    receives: Seq<bool>,
) -> (Seq<Seq<char>>, Seq<Seq<char>>) {
    if candidates.len() < 2 {
        (candidates, failed + candidates)
    } else {
        let healthy = healthy_names(fresh, receives);
        (healthy, failed + names_without(candidates, healthy))
    }
}

impl PathGroups {
    /// Which paths take a share, if `receives` tells of each fresh path whether it receives
    /// enough.
    pub fn split(&self, receives: &[bool]) -> (groups: (Vec<String>, Vec<String>))
        requires
            receives@.len() == self.fresh@.len(),
        ensures
            (text::texts(groups.0@), text::texts(groups.1@)) == groups_of(
                text::texts(self.failed@),
                text::texts(self.candidates@),
                fresh_models(self.fresh@),
                receives@,
            ),
    {
        let ghost failed = text::texts(self.failed@);
        let ghost candidates = text::texts(self.candidates@);
        let ghost fresh = fresh_models(self.fresh@);
        let mut degraded = copy_names(self.failed.as_slice());
        let mut healthy: Vec<String> = Vec::new();
        if self.candidates.len() < 2 {
            let ghost before = degraded@;
            for i in 0..self.candidates.len()
                invariant
                    candidates == text::texts(self.candidates@),
                    text::texts(degraded@) == failed + candidates.take(i as int),
            {
                let ghost before = degraded@;
                degraded.push(self.candidates[i].clone());
                assert(text::texts(degraded@) =~= text::texts(before).push(candidates[i as int]));
                assert(text::texts(degraded@) =~= failed + candidates.take(i + 1));
            }
            assert(candidates.take(candidates.len() as int) =~= candidates);
            return (copy_names(self.candidates.as_slice()), degraded);
        }
        assert(text::texts(healthy@) =~= healthy_names(fresh.take(0), receives@));
        for i in 0..self.fresh.len()
            invariant
                fresh == fresh_models(self.fresh@),
                receives@.len() == self.fresh@.len(),
                text::texts(healthy@) == healthy_names(fresh.take(i as int), receives@),
        {
            assert(fresh.take(i + 1).drop_last() =~= fresh.take(i as int));
            let ghost before = healthy@;
            if self.fresh[i].keeps_up && receives[i] {
                healthy.push(self.fresh[i].name.clone());
                assert(text::texts(healthy@) =~= text::texts(before).push(fresh[i as int].name));
            }
        }
        assert(fresh.take(fresh.len() as int) =~= fresh);
        let ghost names = text::texts(healthy@);
        assert(text::texts(degraded@) =~= failed + names_without(candidates.take(0), names));
        for i in 0..self.candidates.len()
            invariant
                candidates == text::texts(self.candidates@),
                names == text::texts(healthy@),
                text::texts(degraded@) == failed + names_without(candidates.take(i as int), names),
        {
            proof {
                assert(candidates.take(i + 1).drop_last() =~= candidates.take(i as int));
                assert(candidates[i as int] == self.candidates@[i as int]@);
                lemma_contains_text(healthy@, candidates[i as int]);
            }
            let ghost before = degraded@;
            if !text::contains_text(healthy.as_slice(), self.candidates[i].as_str()) {
                degraded.push(self.candidates[i].clone());
                assert(text::texts(degraded@) =~= text::texts(before).push(candidates[i as int]));
                assert(text::texts(degraded@) =~= failed + names_without(
                    candidates.take(i + 1),
                    names,
                ));
            }
        }
        assert(candidates.take(candidates.len() as int) =~= candidates);
        (healthy, degraded)
    }
}

/// A text is in a list exactly if one of its strings holds it.
pub proof fn lemma_contains_text(list: Seq<String>, wanted: Seq<char>)
    ensures
        text::texts(list).contains(wanted) <==> exists|i: int|
            0 <= i < list.len() && (#[trigger] list[i])@ == wanted,
{
    if text::texts(list).contains(wanted) {
        let i = choose|i: int| 0 <= i < text::texts(list).len() && text::texts(list)[i] == wanted;
        assert(list[i]@ == wanted);
    }
    if exists|i: int| 0 <= i < list.len() && (#[trigger] list[i])@ == wanted {
        let i = choose|i: int| 0 <= i < list.len() && (#[trigger] list[i])@ == wanted;
        assert(text::texts(list)[i] == wanted);
    }
}

/// A copy of a list of names.
pub fn copy_names(list: &[String]) -> (copy: Vec<String>)
    ensures
        text::texts(copy@) == text::texts(list@),
{
    let mut copy: Vec<String> = Vec::new();
    for i in 0..list.len()
        invariant
            copy@.len() == i,
            forall|j: int| 0 <= j < i ==> (#[trigger] copy@[j])@ == list@[j]@,
    {
        copy.push(list[i].clone());
    }
    assert(text::texts(copy@) =~= text::texts(list@));
    copy
}

/// Every interface is in one of the two groups: either it takes a share of each packet, or it gets
/// whole packets.
pub proof fn law_every_path_is_in_a_group(
    state: StrategyState,
    interfaces: Seq<Seq<char>>,
    receives: Seq<bool>,
    now_ms: u64,
    name: Seq<char>,
)
    requires
        interfaces.contains(name),
    ensures
        ({
            let candidates = names_outside(interfaces, state.interface_failures@);
            let (split, whole) = groups_of(
                names_in(interfaces, state.interface_failures@),
                candidates,
                state.fresh_paths(candidates, state.best_last_seq(candidates, now_ms), now_ms),
                receives,
            );
            split.contains(name) || whole.contains(name)
        }),
{
    let failures = state.interface_failures@;
    let failed = names_in(interfaces, failures);
    let candidates = names_outside(interfaces, failures);
    lemma_names_divided(interfaces, failures, name);
    let fresh = state.fresh_paths(candidates, state.best_last_seq(candidates, now_ms), now_ms);
    let healthy = healthy_names(fresh, receives);
    if failures.contains_key(name) {
        let i = choose|i: int| 0 <= i < failed.len() && failed[i] == name;
        assert((failed + candidates)[i] == name);
        assert((failed + names_without(candidates, healthy))[i] == name);
    } else if candidates.len() >= 2 && !healthy.contains(name) {
        lemma_names_without(candidates, healthy, name);
        let rest = names_without(candidates, healthy);
        let i = choose|i: int| 0 <= i < rest.len() && rest[i] == name;
        assert((failed + rest)[failed.len() + i] == name);
    }
}

proof fn lemma_names_divided<V>(list: Seq<Seq<char>>, map: Map<Seq<char>, V>, name: Seq<char>)
    requires
        list.contains(name),
    ensures
        map.contains_key(name) ==> names_in(list, map).contains(name),
        !map.contains_key(name) ==> names_outside(list, map).contains(name),
    decreases list.len(),
{
    let shorter = list.drop_last();
    let inside = names_in(shorter, map);
    let outside = names_outside(shorter, map);
    if list.last() == name {
        assert(inside.push(name)[inside.len() as int] == name);
        assert(outside.push(name)[outside.len() as int] == name);
    } else {
        let i = choose|i: int| 0 <= i < list.len() && list[i] == name;
        assert(shorter[i] == name);
        lemma_names_divided(shorter, map, name);
        if map.contains_key(name) {
            let j = choose|j: int| 0 <= j < inside.len() && inside[j] == name;
            assert(names_in(list, map)[j] == name);
        } else {
            let j = choose|j: int| 0 <= j < outside.len() && outside[j] == name;
            assert(names_outside(list, map)[j] == name);
        }
    }
}

proof fn lemma_names_without(list: Seq<Seq<char>>, others: Seq<Seq<char>>, name: Seq<char>)
    requires
        list.contains(name),
        !others.contains(name),
    ensures
        names_without(list, others).contains(name),
    decreases list.len(),
{
    let shorter = list.drop_last();
    let before = names_without(shorter, others);
    if list.last() == name {
        assert(before.push(name)[before.len() as int] == name);
    } else {
        let i = choose|i: int| 0 <= i < list.len() && list[i] == name;
        assert(shorter[i] == name);
        lemma_names_without(shorter, others, name);
        let j = choose|j: int| 0 <= j < before.len() && before[j] == name;
        assert(names_without(list, others)[j] == name);
    }
}

/// How the backlog of an interface is described.
pub open spec fn backlog_text(
    start: Seq<char>,
    interface: Seq<char>,
    backlog: u64,
    threshold: u64,
) -> Seq<char> {
    start + interface + " backlog_bytes="@ + text::decimal(backlog as nat) + " threshold_bytes="@
        + text::decimal(threshold as nat)
}

fn describe_backlog(start: &str, interface: &str, backlog: u64, threshold: u64) -> (text: String)
    ensures
        text@ == backlog_text(start@, interface@, backlog, threshold),
{
    let mut text = start.to_owned();
    text.append(interface);
    text.append(" backlog_bytes=");
    push_decimal(&mut text, backlog);
    text.append(" threshold_bytes=");
    push_decimal(&mut text, threshold);
    text
}

/// The interface with the greatest backlog, the first of several, and that backlog.
pub open spec fn worst_of(backlogs: Seq<(Seq<char>, u64)>) -> Option<(Seq<char>, u64)>
    decreases backlogs.len(),
{
    if backlogs.len() == 0 {
        None
    } else {
        match worst_of(backlogs.drop_last()) {
            Some(worst) => if backlogs.last().1 > worst.1 {
                Some(backlogs.last())
            } else {
                Some(worst)
            },
            None => Some(backlogs.last()),
        }
    }
}

/// The backlogs that a list holds.
pub open spec fn backlog_models(list: Seq<(String, u64)>) -> Seq<(Seq<char>, u64)> {
    list.map_values(|entry: (String, u64)| (entry.0@, entry.1))
}

/// The interface with the greatest backlog, and that backlog.
pub fn worst_backlog(backlogs: &[(String, u64)]) -> (worst: Option<(String, u64)>)
    ensures
        match worst_of(backlog_models(backlogs@)) {
            Some(found) => worst matches Some(entry) && (entry.0@, entry.1) == found,
            None => worst is None,
        },
{
    let ghost all = backlog_models(backlogs@);
    let mut place: Option<usize> = None;
    for i in 0..backlogs.len()
        invariant
            all == backlog_models(backlogs@),
            match place {
                Some(index) => index < i && worst_of(all.take(i as int)) == Some(all[index as int]),
                None => worst_of(all.take(i as int)) is None,
            },
    {
        assert(all.take(i + 1).drop_last() =~= all.take(i as int));
        match place {
            Some(index) => {
                if backlogs[i].1 > backlogs[index].1 {
                    place = Some(i);
                }
            },
            None => {
                place = Some(i);
            },
        }
    }
    assert(all.take(all.len() as int) =~= all);
    match place {
        Some(index) => Some((backlogs[index].0.clone(), backlogs[index].1)),
        None => None,
    }
}

/// The greatest backlog is one of the backlogs, and none is greater.
pub proof fn law_worst_backlog(backlogs: Seq<(Seq<char>, u64)>)
    requires
        backlogs.len() > 0,
    ensures
        worst_of(backlogs) is Some,
        backlogs.contains(worst_of(backlogs)->0),
        forall|i: int|
            0 <= i < backlogs.len() ==> (#[trigger] backlogs[i]).1 <= (worst_of(backlogs)->0).1,
    decreases backlogs.len(),
{
    let shorter = backlogs.drop_last();
    if shorter.len() == 0 {
        assert(backlogs[0] == backlogs.last());
    } else {
        law_worst_backlog(shorter);
        let worst = worst_of(shorter)->0;
        let i = choose|i: int| 0 <= i < shorter.len() && shorter[i] == worst;
        assert(backlogs[i] == worst);
        assert forall|j: int| 0 <= j < backlogs.len() implies (#[trigger] backlogs[j]).1 <= (
        worst_of(backlogs)->0).1 by {
            if j < shorter.len() {
                assert(shorter[j].1 <= worst.1);
            }
        }
        assert(backlogs[backlogs.len() - 1] == backlogs.last());
    }
}

impl StrategyState {
    pub open spec fn well_formed(self) -> bool {
        &&& self.endpoint_ids_by_interface.well_formed()
        &&& self.health_by_interface.well_formed()
        &&& self.interface_failures.well_formed()
        &&& self.interface_status.well_formed()
        &&& self.interface_traffic.well_formed()
    }

    /// The strategy that is followed.
    pub open spec fn effective(self) -> PathStrategy {
        match self.mode {
            StrategyMode::Redundant => PathStrategy::Redundant,
            StrategyMode::Split => PathStrategy::Split,
            StrategyMode::RoundRobin => PathStrategy::RoundRobin,
            StrategyMode::Auto => if self.strategy == PathStrategy::Split {
                PathStrategy::Split
            } else {
                PathStrategy::Redundant
            },
        }
    }

    /// How the mode is shown.
    pub open spec fn mode_label(self) -> Seq<char> {
        if self.weighted_auto_split && self.mode == StrategyMode::Auto {
            "auto+weighted"@
        } else {
            self.mode.label()
        }
    }

    /// The state at the start: the strategy is chosen automatically, and packets are split.
    pub fn new(interfaces: &[StrategyInterface], now: u64) -> (state: StrategyState)
        ensures
            state.well_formed(),
            state.mode == StrategyMode::Auto,
            state.strategy == PathStrategy::Split,
            state.weighted_auto_split,
            state.monitor_packets,
            state.packets == 0,
            state.payload_bytes == 0,
            state.round_robin_cursor == 0,
            state.endpoint_ids_by_interface@ == endpoint_ids_of(interfaces@),
            state.health_by_interface@ == Map::<Seq<char>, InterfaceHealth>::empty(),
            state.interface_failures@ == Map::<Seq<char>, ()>::empty(),
            state.interface_status@ == each_interface(
                interfaces@,
                InterfaceLinkStatus::Connected,
            ),
            state.interface_traffic@ == each_interface(interfaces@, InterfaceTraffic::idle(now)),
    {
        let mut endpoint_ids_by_interface: NameMap<String> = NameMap::new();
        let mut interface_status: NameMap<InterfaceLinkStatus> = NameMap::new();
        let mut interface_traffic: NameMap<InterfaceTraffic> = NameMap::new();
        for i in 0..interfaces.len()
            invariant
                endpoint_ids_by_interface.well_formed(),
                interface_status.well_formed(),
                interface_traffic.well_formed(),
                endpoint_ids_by_interface@ == endpoint_ids_of(interfaces@.take(i as int)),
                interface_status@ == each_interface(
                    interfaces@.take(i as int),
                    InterfaceLinkStatus::Connected,
                ),
                interface_traffic@ == each_interface(
                    interfaces@.take(i as int),
                    InterfaceTraffic::idle(now),
                ),
        {
            assert(interfaces@.take(i + 1).drop_last() =~= interfaces@.take(i as int));
            let interface = &interfaces[i];
            endpoint_ids_by_interface.insert(
                interface.display_name.clone(),
                interface.endpoint_id.clone(),
            );
            interface_status.insert(
                interface.display_name.clone(),
                InterfaceLinkStatus::Connected,
            );
            interface_traffic.insert(interface.display_name.clone(), InterfaceTraffic::new(now));
        }
        assert(interfaces@.take(interfaces@.len() as int) =~= interfaces@);
        StrategyState {
            mode: StrategyMode::Auto,
            strategy: PathStrategy::Split,
            weighted_auto_split: true,
            monitor_packets: true,
            packets: 0,
            payload_bytes: 0,
            round_robin_cursor: 0,
            endpoint_ids_by_interface,
            health_by_interface: NameMap::new(),
            interface_failures: NameMap::new(),
            interface_status,
            interface_traffic,
        }
    }

    pub fn current(&self) -> (strategy: PathStrategy)
        ensures
            strategy == self.effective(),
    {
        match self.mode {
            StrategyMode::Redundant => PathStrategy::Redundant,
            StrategyMode::Split => PathStrategy::Split,
            StrategyMode::RoundRobin => PathStrategy::RoundRobin,
            StrategyMode::Auto => match self.strategy {
                PathStrategy::Split => PathStrategy::Split,
                _ => PathStrategy::Redundant,
            },
        }
    }

    pub fn mode(&self) -> (mode: StrategyMode)
        ensures
            mode == self.mode,
    {
        self.mode
    }

    /// How the mode and the strategy are shown.
    pub fn labels(&self) -> (labels: (String, String))
        ensures
            labels.0@ == self.mode_label(),
            labels.1@ == self.effective().label(),
    {
        let mode = if self.weighted_auto_split && self.mode == StrategyMode::Auto {
            "auto+weighted".to_owned()
        } else {
            self.mode.name()
        };
        (mode, self.current().name())
    }

    /// Whether the health of the paths decides which of them take a share of each packet.
    pub fn uses_groups(&self) -> (used: bool)
        ensures
            used == (self.mode == StrategyMode::Auto && self.effective() == PathStrategy::Split),
    {
        self.mode == StrategyMode::Auto && self.current() == PathStrategy::Split
    }

    pub fn weighted_auto_split_enabled(&self) -> (enabled: bool)
        ensures
            enabled == self.weighted_auto_split,
    {
        self.weighted_auto_split
    }

    pub fn toggle_weighted_auto_split(&mut self) -> (change: StrategyChange)
        ensures
            *final(self) == (StrategyState {
                weighted_auto_split: !old(self).weighted_auto_split,
                ..*old(self)
            }),
            change.strategy@ == (if old(self).weighted_auto_split {
                "auto weighted off"@
            } else {
                "auto+weighted"@
            }),
            change.reason@ == "tui hotkey"@,
    {
        self.weighted_auto_split = !self.weighted_auto_split;
        StrategyChange {
            strategy: if self.weighted_auto_split {
                "auto+weighted".to_owned()
            } else {
                "auto weighted off".to_owned()
            },
            reason: "tui hotkey".to_owned(),
        }
    }

    pub fn set_mode(&mut self, mode: StrategyMode, reason: &str) -> (change: StrategyChange)
        ensures
            *final(self) == (StrategyState { mode, ..*old(self) }),
            change.strategy@ == mode.label(),
            change.reason@ == reason@,
    {
        self.mode = mode;
        StrategyChange { strategy: mode.name(), reason: reason.to_owned() }
    }

    /// Counts a packet that came in. The counts wrap around.
    pub fn record_packet(&mut self, payload_bytes: u64)
        ensures
            *final(self) == (if old(self).monitor_packets {
                StrategyState {
                    packets: crate::server_ui::wrapped_sum(old(self).packets, 1),
                    payload_bytes: crate::server_ui::wrapped_sum(
                        old(self).payload_bytes,
                        payload_bytes,
                    ),
                    ..*old(self)
                }
            } else {
                *old(self)
            }),
    {
        if !self.monitor_packets {
            return;
        }
        self.packets = self.packets.wrapping_add(1);
        self.payload_bytes = self.payload_bytes.wrapping_add(payload_bytes);
    }

    /// Counts a packet that was sent over an interface.
    pub fn record_interface_send(&mut self, interface: &str, bytes: u64)
        requires
            old(self).well_formed(),
        ensures
            final(self).well_formed(),
            *final(self) == (StrategyState {
                interface_traffic: final(self).interface_traffic,
                ..*old(self)
            }),
            final(self).interface_traffic@ == (if old(self).monitor_packets
                && old(self).interface_traffic@.contains_key(interface@) {
                old(self).interface_traffic@.insert(
                    interface@,
                    old(self).interface_traffic@[interface@].with_sent(bytes),
                )
            } else {
                old(self).interface_traffic@
            }),
    {
        if !self.monitor_packets {
            return;
        }
        let counters = match self.interface_traffic.get(interface) {
            Some(counters) => *counters,
            None => {
                return;
            },
        };
        let updated = InterfaceTraffic {
            tx_packets: counters.tx_packets.saturating_add(1),
            tx_bytes: counters.tx_bytes.saturating_add(bytes),
            last_tx_bytes: counters.last_tx_bytes,
            last_sample: counters.last_sample,
            rate_bytes: counters.rate_bytes,
            rate_nanos: counters.rate_nanos,
        };
        self.interface_traffic.insert(interface.to_owned(), updated);
    }

    pub fn record_interface_success(&mut self, interface: &str)
        requires
            old(self).well_formed(),
        ensures
            final(self).well_formed(),
            *final(self) == (StrategyState {
                interface_failures: final(self).interface_failures,
                interface_status: final(self).interface_status,
                ..*old(self)
            }),
            final(self).interface_failures@ == old(self).interface_failures@.remove(interface@),
            final(self).interface_status@ == old(self).interface_status@.insert(
                interface@,
                InterfaceLinkStatus::Connected,
            ),
    {
        let _ = self.interface_failures.remove(interface);
        self.interface_status.insert(interface.to_owned(), InterfaceLinkStatus::Connected);
    }

    pub fn record_interface_failure(&mut self, interface: &str)
        requires
            old(self).well_formed(),
        ensures
            final(self).well_formed(),
            *final(self) == (StrategyState {
                interface_failures: final(self).interface_failures,
                interface_status: final(self).interface_status,
                ..*old(self)
            }),
            final(self).interface_failures@ == old(self).interface_failures@.insert(interface@, ()),
            final(self).interface_status@ == old(self).interface_status@.insert(
                interface@,
                InterfaceLinkStatus::Reconnecting,
            ),
    {
        self.interface_failures.insert(interface.to_owned(), ());
        self.record_interface_reconnecting(interface);
    }

    pub fn record_interface_reconnecting(&mut self, interface: &str)
        requires
            old(self).well_formed(),
        ensures
            final(self).well_formed(),
            *final(self) == (StrategyState {
                interface_status: final(self).interface_status,
                ..*old(self)
            }),
            final(self).interface_status@ == old(self).interface_status@.insert(
                interface@,
                InterfaceLinkStatus::Reconnecting,
            ),
    {
        self.interface_status.insert(interface.to_owned(), InterfaceLinkStatus::Reconnecting);
    }

    pub fn record_interface_dead(&mut self, interface: &str)
        requires
            old(self).well_formed(),
        ensures
            final(self).well_formed(),
            *final(self) == (StrategyState {
                interface_failures: final(self).interface_failures,
                interface_status: final(self).interface_status,
                ..*old(self)
            }),
            final(self).interface_failures@ == old(self).interface_failures@.insert(interface@, ()),
            final(self).interface_status@ == old(self).interface_status@.insert(
                interface@,
                InterfaceLinkStatus::Dead,
            ),
    {
        self.interface_failures.insert(interface.to_owned(), ());
        self.interface_status.insert(interface.to_owned(), InterfaceLinkStatus::Dead);
    }

    /// The path whose turn it is. The turns wrap around.
    pub fn next_round_robin_index(&mut self, path_count: usize) -> (index: usize)
        ensures
            path_count == 0 ==> index == 0 && *final(self) == *old(self),
            path_count > 0 ==> index == old(self).round_robin_cursor % (path_count as u64)
                && index < path_count && *final(self) == (StrategyState {
                round_robin_cursor: crate::server_ui::wrapped_sum(
                    old(self).round_robin_cursor,
                    1,
                ),
                ..*old(self)
            }),
    {
        if path_count == 0 {
            return 0;
        }
        let cursor: u64 = self.round_robin_cursor;
        self.round_robin_cursor = cursor.wrapping_add(1);
        (cursor % (path_count as u64)) as usize
    }

    /// Takes up what a report says of the paths.
    pub fn record_health_report(&mut self, report: &HealthReport)
        requires
            old(self).well_formed(),
        ensures
            final(self).well_formed(),
            *final(self) == (StrategyState {
                health_by_interface: final(self).health_by_interface,
                ..*old(self)
            }),
            forall|name: Seq<char>| #[trigger]
                known_after(
                    final(self).health_by_interface@,
                    old(self).health_by_interface@,
                    old(self).endpoint_ids_by_interface@,
                    report@,
                    name,
                ),
    {
        let mut health: NameMap<InterfaceHealth> = NameMap::new();
        std::mem::swap(&mut health, &mut self.health_by_interface);
        self.health_by_interface = merge_health(&self.endpoint_ids_by_interface, health, report);
    }

    /// What is known of an interface, if it is recent.
    pub open spec fn fresh(self, name: Seq<char>, now_ms: u64) -> Option<HealthModel> {
        if self.health_by_interface@.contains_key(name) && is_fresh(
            self.health_by_interface@[name]@,
            now_ms,
        ) {
            Some(self.health_by_interface@[name]@)
        } else {
            None
        }
    }

    pub fn fresh_health(&self, interface: &str, now_ms: u64) -> (health: Option<&InterfaceHealth>)
        requires
            self.well_formed(),
        ensures
            match self.fresh(interface@, now_ms) {
                Some(known) => health matches Some(found) && found@ == known,
                None => health is None,
            },
    {
        match self.health_by_interface.get(interface) {
            Some(health) => if now_ms.saturating_sub(health.last_unix_ms)
                <= AUTO_SPLIT_HEALTH_STALE_MS {
                Some(health)
            } else {
                None
            },
            None => None,
        }
    }

    /// The greatest sequence number that the server received last over one of these interfaces.
    pub open spec fn best_last_seq(self, names: Seq<Seq<char>>, now_ms: u64) -> Option<u64>
        decreases names.len(),
    {
        if names.len() == 0 {
            None
        } else {
            let before = self.best_last_seq(names.drop_last(), now_ms);
            match self.fresh(names.last(), now_ms) {
                Some(health) => later_sequence(before, health.last_seq),
                None => before,
            }
        }
    }

    /// The interfaces of which something recent is known, and whether each keeps up with the best.
    pub open spec fn fresh_paths(
        self,
        names: Seq<Seq<char>>,
        best: Option<u64>,
        now_ms: u64,
    ) -> Seq<FreshModel>
        decreases names.len(),
    {
        if names.len() == 0 {
            Seq::empty()
        } else {
            let before = self.fresh_paths(names.drop_last(), best, now_ms);
            match self.fresh(names.last(), now_ms) {
                Some(health) => before.push(
                    FreshModel {
                        name: names.last(),
                        keeps_up: keeps_up(health.last_seq, best),
                        server_mbps: health.server_mbps,
                    },
                ),
                None => before,
            }
        }
    }

    /// What is known of the paths over these interfaces.
    pub fn auto_path_groups(&self, interfaces: &[String], now_ms: u64) -> (groups: PathGroups)
        requires
            self.well_formed(),
        ensures
            text::texts(groups.failed@) == names_in(
                text::texts(interfaces@),
                self.interface_failures@,
            ),
            text::texts(groups.candidates@) == names_outside(
                text::texts(interfaces@),
                self.interface_failures@,
            ),
            fresh_models(groups.fresh@) == self.fresh_paths(
                names_outside(text::texts(interfaces@), self.interface_failures@),
                self.best_last_seq(
                    names_outside(text::texts(interfaces@), self.interface_failures@),
                    now_ms,
                ),
                now_ms,
            ),
    {
        let ghost all = text::texts(interfaces@);
        let mut failed: Vec<String> = Vec::new();
        let mut candidates: Vec<String> = Vec::new();
        assert(text::texts(failed@) =~= names_in(all.take(0), self.interface_failures@));
        assert(text::texts(candidates@) =~= names_outside(all.take(0), self.interface_failures@));
        for i in 0..interfaces.len()
            invariant
                self.well_formed(),
                all == text::texts(interfaces@),
                text::texts(failed@) == names_in(all.take(i as int), self.interface_failures@),
                text::texts(candidates@) == names_outside(
                    all.take(i as int),
                    self.interface_failures@,
                ),
        {
            proof {
                assert(all.take(i + 1).drop_last() =~= all.take(i as int));
                assert(all[i as int] == interfaces@[i as int]@);
            }
            let ghost before = (failed@, candidates@);
            if self.interface_failures.contains_key(interfaces[i].as_str()) {
                failed.push(interfaces[i].clone());
                assert(text::texts(failed@) =~= text::texts(before.0).push(all[i as int]));
            } else {
                candidates.push(interfaces[i].clone());
                assert(text::texts(candidates@) =~= text::texts(before.1).push(all[i as int]));
            }
        }
        assert(all.take(all.len() as int) =~= all);
        let ghost names = text::texts(candidates@);
        let mut best: Option<u64> = None;
        for i in 0..candidates.len()
            invariant
                self.well_formed(),
                names == text::texts(candidates@),
                best == self.best_last_seq(names.take(i as int), now_ms),
        {
            proof {
                assert(names.take(i + 1).drop_last() =~= names.take(i as int));
                assert(names[i as int] == candidates@[i as int]@);
            }
            if let Some(health) = self.fresh_health(candidates[i].as_str(), now_ms) {
                if let Some(sequence) = health.last_seq {
                    match best {
                        Some(known) => {
                            if known < sequence {
                                best = Some(sequence);
                            }
                        },
                        None => {
                            best = Some(sequence);
                        },
                    }
                }
            }
        }
        assert(names.take(names.len() as int) =~= names);
        let mut fresh: Vec<FreshPath> = Vec::new();
        assert(fresh_models(fresh@) =~= self.fresh_paths(names.take(0), best, now_ms));
        for i in 0..candidates.len()
            invariant
                self.well_formed(),
                names == text::texts(candidates@),
                fresh_models(fresh@) == self.fresh_paths(names.take(i as int), best, now_ms),
        {
            proof {
                assert(names.take(i + 1).drop_last() =~= names.take(i as int));
                assert(names[i as int] == candidates@[i as int]@);
            }
            if let Some(health) = self.fresh_health(candidates[i].as_str(), now_ms) {
                let ghost before = fresh@;
                let path = FreshPath {
                    name: candidates[i].clone(),
                    keeps_up: path_keeps_up(health.last_seq, best),
                    server_mbps: health.server_mbps.clone(),
                };
                fresh.push(path);
                assert(fresh_models(fresh@) =~= fresh_models(before).push(path@));
            }
        }
        PathGroups { failed, candidates, fresh }
    }

    /// Whether packets can be split automatically, by the two groups of paths.
    pub fn auto_split_ready(groups: &(Vec<String>, Vec<String>)) -> (ready: bool)
        ensures
            ready == (groups.0@.len() >= 2 && groups.1@.len() == 0),
    {
        groups.0.len() >= 2 && groups.1.len() == 0
    }

    /// Falls back to sending every packet over every path, if the strategy is chosen automatically.
    pub fn degrade_to_redundant(&mut self, reason: String) -> (change: Option<StrategyChange>)
        ensures
            if old(self).mode == StrategyMode::Auto && old(self).effective()
                != PathStrategy::Redundant {
                &&& *final(self) == (StrategyState {
                    strategy: PathStrategy::Redundant,
                    ..*old(self)
                })
                &&& change_is(change, "redundant"@, reason@)
            } else {
                *final(self) == *old(self) && change is None
            },
            final(self).mode == StrategyMode::Auto ==> final(self).effective()
                == PathStrategy::Redundant,
    {
        if self.mode != StrategyMode::Auto {
            return None;
        }
        if self.current() == PathStrategy::Redundant {
            return None;
        }
        self.strategy = PathStrategy::Redundant;
        Some(StrategyChange { strategy: "redundant".to_owned(), reason })
    }

    /// Returns to splitting packets.
    fn recover_to_split(&mut self, reason: String) -> (change: Option<StrategyChange>)
        ensures
            *final(self) == (StrategyState { strategy: PathStrategy::Split, ..*old(self) }),
            change_is(change, "split"@, reason@),
    {
        self.strategy = PathStrategy::Split;
        Some(StrategyChange { strategy: "split".to_owned(), reason })
    }

    /// Chooses the strategy anew, by the greatest backlog and by whether the paths are ready for
    /// packets to be split.
    pub fn choose_strategy(
        &mut self,
        worst: Option<(String, u64)>,
        ready: bool,
        degrade_backlog_bytes: u64,
        recover_backlog_bytes: u64,
    ) -> (change: Option<StrategyChange>)
        ensures
            if old(self).mode != StrategyMode::Auto {
                *final(self) == *old(self) && change is None
            } else if old(self).effective() == PathStrategy::Split {
                if !ready {
                    &&& *final(self) == (StrategyState {
                        strategy: PathStrategy::Redundant,
                        ..*old(self)
                    })
                    &&& change_is(change, "redundant"@, "not enough healthy paths for split"@)
                } else if worst is Some && (worst->0).1 >= degrade_backlog_bytes {
                    &&& *final(self) == (StrategyState {
                        strategy: PathStrategy::Redundant,
                        ..*old(self)
                    })
                    &&& change_is(
                        change,
                        "redundant"@,
                        backlog_text(
                            "tc backlog interface="@,
                            (worst->0).0@,
                            (worst->0).1,
                            degrade_backlog_bytes,
                        ),
                    )
                } else {
                    *final(self) == *old(self) && change is None
                }
            } else if ready && worst is None {
                &&& *final(self) == (StrategyState { strategy: PathStrategy::Split, ..*old(self) })
                &&& change_is(change, "split"@, "tc backlog unavailable"@)
            } else if ready && (worst->0).1 <= recover_backlog_bytes {
                &&& *final(self) == (StrategyState { strategy: PathStrategy::Split, ..*old(self) })
                &&& change_is(
                    change,
                    "split"@,
                    backlog_text(
                        "tc backlog recovered interface="@,
                        (worst->0).0@,
                        (worst->0).1,
                        recover_backlog_bytes,
                    ),
                )
            } else {
                *final(self) == *old(self) && change is None
            },
    {
        if self.mode != StrategyMode::Auto {
            return None;
        }
        if self.current() == PathStrategy::Split {
            if !ready {
                return self.degrade_to_redundant("not enough healthy paths for split".to_owned());
            }
            return match worst {
                Some((interface, backlog)) => if backlog >= degrade_backlog_bytes {
                    let reason = describe_backlog(
                        "tc backlog interface=",
                        interface.as_str(),
                        backlog,
                        degrade_backlog_bytes,
                    );
                    self.degrade_to_redundant(reason)
                } else {
                    None
                },
                None => None,
            };
        }
        if !ready {
            return None;
        }
        match worst {
            Some((interface, backlog)) => if backlog <= recover_backlog_bytes {
                let reason = describe_backlog(
                    "tc backlog recovered interface=",
                    interface.as_str(),
                    backlog,
                    recover_backlog_bytes,
                );
                self.recover_to_split(reason)
            } else {
                None
            },
            None => self.recover_to_split("tc backlog unavailable".to_owned()),
        }
    }

    /// What is shown of an interface.
    pub open spec fn shows(
        self,
        shown: InterfaceControlStatus,
        name: Seq<char>,
        now: u64,
    ) -> bool {
        let traffic = if self.interface_traffic@.contains_key(name) {
            self.interface_traffic@[name].sampled(now)
        } else {
            InterfaceTraffic::idle(now)
        };
        &&& shown.name@ == name
        &&& shown.status == (if self.interface_status@.contains_key(name) {
            self.interface_status@[name]
        } else {
            InterfaceLinkStatus::Dead
        })
        &&& shown.tx_packets == traffic.tx_packets
        &&& shown.tx_bytes == traffic.tx_bytes
        &&& shown.rate_bytes == traffic.rate_bytes
        &&& shown.rate_nanos == traffic.rate_nanos
        &&& if self.health_by_interface@.contains_key(name) {
            let health = self.health_by_interface@[name]@;
            &&& shown.server_mbps matches Some(mbps) && mbps@ == health.server_mbps
            &&& shown.server_last_seq == health.last_seq
            &&& shown.server_max_seq == health.max_seq
        } else {
            &&& shown.server_mbps is None
            &&& shown.server_last_seq is None
            &&& shown.server_max_seq is None
        }
    }

    /// Samples what was sent over each interface.
    fn update_rates(&mut self, now: u64)
        requires
            old(self).well_formed(),
        ensures
            final(self).well_formed(),
            *final(self) == (StrategyState {
                interface_traffic: final(self).interface_traffic,
                ..*old(self)
            }),
            final(self).interface_traffic@ == old(self).interface_traffic@.map_values(
                |traffic: InterfaceTraffic| traffic.sampled(now),
            ),
    {
        let names = self.interface_traffic.name_list();
        let ghost before = self.interface_traffic@;
        let ghost list = text::texts(names@);
        proof {
            self.interface_traffic.lemma_names();
        }
        for i in 0..names.len()
            invariant
                self.well_formed(),
                before == old(self).interface_traffic@,
                list == text::texts(names@),
                list == name_map::ascending_names(before.dom()),
                list.to_set() == before.dom(),
                name_map::names_ascend(list),
                *self == (StrategyState {
                    interface_traffic: self.interface_traffic,
                    ..*old(self)
                }),
                self.interface_traffic@.dom() == before.dom(),
                forall|name: Seq<char>| #[trigger]
                    before.contains_key(name) ==> self.interface_traffic@[name] == (
                    if list.take(i as int).contains(name) {
                        before[name].sampled(now)
                    } else {
                        before[name]
                    }),
        {
            let name = names[i].as_str();
            let ghost earlier = list.take(i as int);
            let ghost later = list.take(i + 1);
            proof {
                assert(list[i as int] == name@);
                assert(list.to_set().contains(list[i as int]));
                assert forall|other: Seq<char>| #[trigger] later.contains(other) <==> other == name@
                    || earlier.contains(other) by {
                    assert(later[i as int] == name@);
                    if earlier.contains(other) {
                        let j = choose|j: int| 0 <= j < earlier.len() && earlier[j] == other;
                        assert(later[j] == other);
                    }
                    if later.contains(other) && other != name@ {
                        let j = choose|j: int| 0 <= j < later.len() && later[j] == other;
                        assert(earlier[j] == other);
                    }
                }
                if earlier.contains(name@) {
                    let j = choose|j: int| 0 <= j < earlier.len() && earlier[j] == name@;
                    assert(name_map::name_before(list[j], list[i as int]));
                    name_map::lemma_name_before_irreflexive(name@);
                }
            }
            let counters = match self.interface_traffic.get(name) {
                Some(counters) => Some(*counters),
                None => None,
            };
            if let Some(mut counters) = counters {
                counters.update_rate(now);
                self.interface_traffic.insert(name.to_owned(), counters);
            }
            assert(self.interface_traffic@.dom() =~= before.dom());
        }
        proof {
            assert(list.take(list.len() as int) =~= list);
            assert forall|name: Seq<char>| before.contains_key(name) implies list.contains(name) by {
                assert(list.to_set().contains(name));
            }
            assert(self.interface_traffic@ =~= before.map_values(
                |traffic: InterfaceTraffic| traffic.sampled(now),
            ));
        }
    }

    /// The state of the paths, as it is shown: the interfaces are in the order of their names.
    pub fn status(&mut self, now: u64) -> (status: ControlStatus)
        requires
            old(self).well_formed(),
        ensures
            final(self).well_formed(),
            *final(self) == (StrategyState {
                interface_traffic: final(self).interface_traffic,
                ..*old(self)
            }),
            final(self).interface_traffic@ == old(self).interface_traffic@.map_values(
                |traffic: InterfaceTraffic| traffic.sampled(now),
            ),
            status.mode == old(self).mode,
            status.effective_strategy == old(self).effective(),
            status.monitor_packets == old(self).monitor_packets,
            status.packets == old(self).packets,
            status.payload_bytes == old(self).payload_bytes,
            status.interfaces@.len() == old(self).endpoint_ids_by_interface@.dom().len(),
            forall|i: int|
                0 <= i < status.interfaces@.len() ==> old(self).shows(
                    #[trigger] status.interfaces@[i],
                    name_map::ascending_names(old(self).endpoint_ids_by_interface@.dom())[i],
                    now,
                ),
    {
        self.update_rates(now);
        let count = self.endpoint_ids_by_interface.len();
        let ghost names = name_map::ascending_names(old(self).endpoint_ids_by_interface@.dom());
        proof {
            self.endpoint_ids_by_interface.lemma_names();
        }
        let mut interfaces: Vec<InterfaceControlStatus> = Vec::new();
        for i in 0..count
            invariant
                self.well_formed(),
                *self == (StrategyState {
                    interface_traffic: self.interface_traffic,
                    ..*old(self)
                }),
                self.interface_traffic@ == old(self).interface_traffic@.map_values(
                    |traffic: InterfaceTraffic| traffic.sampled(now),
                ),
                names == self.endpoint_ids_by_interface.names(),
                count == names.len(),
                interfaces@.len() == i,
                forall|j: int|
                    0 <= j < i ==> old(self).shows(#[trigger] interfaces@[j], names[j], now),
        {
            let name = self.endpoint_ids_by_interface.name_at(i);
            let counters = match self.interface_traffic.get(name.as_str()) {
                Some(counters) => *counters,
                None => InterfaceTraffic::new(now),
            };
            let status = match self.interface_status.get(name.as_str()) {
                Some(status) => *status,
                None => InterfaceLinkStatus::Dead,
            };
            let (server_mbps, server_last_seq, server_max_seq) =
                match self.health_by_interface.get(name.as_str()) {
                Some(health) => (Some(health.server_mbps.clone()), health.last_seq, health.max_seq),
                None => (None, None, None),
            };
            interfaces.push(
                InterfaceControlStatus {
                    name: name.clone(),
                    status,
                    tx_packets: counters.tx_packets,
                    tx_bytes: counters.tx_bytes,
                    rate_bytes: counters.rate_bytes,
                    rate_nanos: counters.rate_nanos,
                    server_mbps,
                    server_last_seq,
                    server_max_seq,
                },
            );
            assert(old(self).shows(interfaces@[i as int], names[i as int], now));
        }
        ControlStatus {
            mode: self.mode,
            effective_strategy: self.current(),
            monitor_packets: self.monitor_packets,
            packets: self.packets,
            payload_bytes: self.payload_bytes,
            interfaces,
        }
    }
}

/// Whether a path is not too far behind the best.
pub open spec fn keeps_up(last_seq: Option<u64>, best: Option<u64>) -> bool {
    match (last_seq, best) {
        (Some(sequence), Some(first)) => first - sequence <= AUTO_SPLIT_DEGRADE_LAG_PACKETS,
        _ => false,
    }
}

fn path_keeps_up(last_seq: Option<u64>, best: Option<u64>) -> (result: bool)
    ensures
        result == keeps_up(last_seq, best),
{
    match (last_seq, best) {
        (Some(sequence), Some(first)) => first.saturating_sub(sequence)
            <= AUTO_SPLIT_DEGRADE_LAG_PACKETS,
        _ => false,
    }
}

/// The place of the last endpoint of a report with a name.
fn find_endpoint(report: &HealthReport, id: &str) -> (place: Option<usize>)
    ensures
        match last_endpoint(report@.endpoints, id@) {
            Some(index) => place matches Some(found) && found == index && found
                < report.endpoints@.len(),
            None => place is None,
        },
{
    let ghost endpoints = report@.endpoints;
    let mut place: Option<usize> = None;
    for i in 0..report.endpoints.len()
        invariant
            endpoints == report@.endpoints,
            match last_endpoint(endpoints.take(i as int), id@) {
                Some(index) => place matches Some(found) && found == index && found < i,
                None => place is None,
            },
    {
        proof {
            assert(endpoints.take(i + 1).drop_last() =~= endpoints.take(i as int));
            assert(endpoints[i as int] == report.endpoints@[i as int]@);
        }
        if same_text(report.endpoints[i].endpoint_id.as_str(), id) {
            place = Some(i);
        }
    }
    assert(endpoints.take(endpoints.len() as int) =~= endpoints);
    place
}

/// Whether nothing new is known of an interface.
pub open spec fn known_same(
    after: Map<Seq<char>, InterfaceHealth>,
    before: Map<Seq<char>, InterfaceHealth>,
    name: Seq<char>,
) -> bool {
    &&& after.contains_key(name) == before.contains_key(name)
    &&& after.contains_key(name) ==> after[name] == before[name]
}

/// What is known of an interface after a report: what the report says of the interface's
/// endpoint, or what was known before if it says nothing.
pub open spec fn known_after(
    after: Map<Seq<char>, InterfaceHealth>,
    before: Map<Seq<char>, InterfaceHealth>,
    ids: Map<Seq<char>, String>,
    report: ReportModel,
    name: Seq<char>,
) -> bool {
    if ids.contains_key(name) && last_endpoint(report.endpoints, ids[name]@) is Some {
        &&& after.contains_key(name)
        &&& after[name]@ == health_of(
            report.endpoints[last_endpoint(report.endpoints, ids[name]@)->0],
            report.unix_ms,
        )
    } else {
        known_same(after, before, name)
    }
}

/// What is known of an interface once the interfaces in `done` have been looked up in a report.
spec fn known_partly(
    after: Map<Seq<char>, InterfaceHealth>,
    before: Map<Seq<char>, InterfaceHealth>,
    ids: Map<Seq<char>, String>,
    report: ReportModel,
    name: Seq<char>,
    done: Seq<Seq<char>>,
) -> bool {
    if done.contains(name) {
        known_after(after, before, ids, report, name)
    } else {
        known_same(after, before, name)
    }
}

/// What is known of the interfaces after a report.
fn merge_health(
    ids: &NameMap<String>,
    health: NameMap<InterfaceHealth>,
    report: &HealthReport,
) -> (merged: NameMap<InterfaceHealth>)
    requires
        ids.well_formed(),
        health.well_formed(),
    ensures
        merged.well_formed(),
        forall|name: Seq<char>| #[trigger]
            known_after(merged@, health@, ids@, report@, name),
{
    let ghost before = health@;
    let ghost names = ids.names();
    let mut merged = health;
    let count = ids.len();
    let mut i: usize = 0;
    while i < count
        invariant
            i <= count,
            ids.well_formed(),
            merged.well_formed(),
            names == ids.names(),
            count == names.len(),
            forall|name: Seq<char>| #[trigger]
                known_partly(merged@, before, ids@, report@, name, names.take(i as int)),
        decreases count - i,
    {
        let ghost held = merged@;
        let name = ids.name_at(i).clone();
        let found = find_endpoint(report, ids.value_at(i).as_str());
        proof {
            ids.lemma_entry(i as int);
        }
        if let Some(index) = found {
            let endpoint = &report.endpoints[index];
            let health = InterfaceHealth {
                last_seq: endpoint.last_seq,
                max_seq: endpoint.max_seq,
                server_mbps: endpoint.achieved_mbps.clone(),
                last_unix_ms: report.unix_ms,
            };
            assert(health@ =~= health_of(report@.endpoints[index as int], report.unix_ms));
            merged.insert(name, health);
        }
        proof {
            let earlier = names.take(i as int);
            let later = names.take(i + 1);
            assert forall|other: Seq<char>| #[trigger]
                known_partly(merged@, before, ids@, report@, other, later) by {
                assert(known_partly(held, before, ids@, report@, other, earlier));
                assert(later[i as int] == name@);
                if earlier.contains(other) {
                    let j = choose|j: int| 0 <= j < earlier.len() && earlier[j] == other;
                    assert(later[j] == other);
                    name_map::lemma_name_before_irreflexive(other);
                    assert(name_map::name_before(names[j], names[i as int]));
                    assert(other != name@);
                    assert(later.contains(other));
                } else if other != name@ {
                    if later.contains(other) {
                        let j = choose|j: int| 0 <= j < later.len() && later[j] == other;
                        assert(earlier[j] == other);
                    }
                } else {
                    assert(later.contains(other));
                    assert(ids@.contains_key(other));
                }
            }
        }
        i += 1;
    }
    proof {
        assert(names.take(count as int) =~= names);
        ids.lemma_names();
        assert forall|name: Seq<char>| #[trigger]
            known_after(merged@, before, ids@, report@, name) by {
            assert(known_partly(merged@, before, ids@, report@, name, names));
        }
    }
    merged
}

/// How a full queue is reset.
#[derive(Debug, Clone, Copy, PartialEq, Eq)]
pub struct QdiscResetConfig {
    pub backlog_bytes: u64,
    pub cooldown: u64,
}

/// Whether a queue is so full, and so little of it arrives, that it should be reset.
pub fn qdisc_reset_should_run(backlog: u64, starved: bool, config: QdiscResetConfig) -> (run: bool)
    ensures
        run == (backlog >= config.backlog_bytes && starved),
{
    backlog >= config.backlog_bytes && starved
}

/// When the queue of each interface was last reset.
pub struct QdiscResets {
    pub last: NameMap<u64>,
}

impl QdiscResets {
    pub fn new() -> (resets: QdiscResets)
        ensures
            resets.last.well_formed(),
            resets.last@ == Map::<Seq<char>, u64>::empty(),
    {
        QdiscResets { last: NameMap::new() }
    }

    /// Whether the queue of an interface is to be reset now; if so, the time is noted.
    pub fn is_due(
        &mut self,
        interface: &str,
        backlog: u64,
        starved: bool,
        config: QdiscResetConfig,
        now: u64,
    ) -> (due: bool)
        requires
            old(self).last.well_formed(),
        ensures
            final(self).last.well_formed(),
            due == (backlog >= config.backlog_bytes && starved && (old(self).last@.contains_key(
                interface@,
            ) ==> now - old(self).last@[interface@] >= config.cooldown || (now < old(
                self,
            ).last@[interface@] && config.cooldown == 0))),
            final(self).last@ == (if due {
                old(self).last@.insert(interface@, now)
            } else {
                old(self).last@
            }),
    {
        if !qdisc_reset_should_run(backlog, starved, config) {
            return false;
        }
        if let Some(last) = self.last.get(interface) {
            if now.saturating_sub(*last) < config.cooldown {
                return false;
            }
        }
        self.last.insert(interface.to_owned(), now);
        true
    }
}

} // verus!
