//! What the client shows of itself: its counters, the paths of each interface, and its log.

use crate::name_map;
use crate::name_map::NameMap;
use crate::server_ui;
use crate::strategy::StrategyMode;
use crate::text;
use crate::text::same_text;
use std::collections::VecDeque;
use vstd::prelude::*;

verus! {

/// How many lines the log holds.
pub const MAX_LOG_LINES: usize = 120;

/// How many lines of the log are shown.
pub const SHOWN_LOG_LINES: usize = 5;

/// How long a rate is measured, in nanoseconds.
pub const CLIENT_PATH_MBPS_INTERVAL: u64 = 1_000_000_000;

/// One network path of an interface.
#[derive(Debug)]
pub struct PathRow {
    pub endpoint_id: String,
    pub server_mbps: String,
    pub degradation: String,
    pub remote_addr: String,
    pub transport: String,
    pub selected: bool,
    pub status: String,
}

#[verifier::ext_equal]
pub struct PathRowModel {
    pub endpoint_id: Seq<char>,
    pub server_mbps: Seq<char>,
    pub degradation: Seq<char>,
    pub remote_addr: Seq<char>,
    pub transport: Seq<char>,
    pub selected: bool,
    pub status: Seq<char>,
}

impl View for PathRow {
    type V = PathRowModel;

    open spec fn view(&self) -> PathRowModel {
        PathRowModel {
            endpoint_id: self.endpoint_id@,
            server_mbps: self.server_mbps@,
            degradation: self.degradation@,
            remote_addr: self.remote_addr@,
            transport: self.transport@,
            selected: self.selected,
            status: self.status@,
        }
    }
}

/// The rows that a list holds.
pub open spec fn row_models(rows: Seq<PathRow>) -> Seq<PathRowModel> {
    rows.map_values(|row: PathRow| row@)
}

/// The row for something that could not be sent.
pub open spec fn error_row(error: Seq<char>) -> PathRowModel {
    PathRowModel {
        endpoint_id: "-"@,
        server_mbps: "-"@,
        degradation: "-"@,
        remote_addr: error,
        transport: "error"@,
        selected: false,
        status: "failed"@,
    }
}

/// What the server says of an endpoint, as it is shown.
#[derive(Debug)]
pub struct EndpointReading {
    pub endpoint_id: String,
    pub server_mbps: String,
    pub degradation: String,
}

#[verifier::ext_equal]
pub struct ReadingModel {
    pub endpoint_id: Seq<char>,
    pub server_mbps: Seq<char>,
    pub degradation: Seq<char>,
}

impl View for EndpointReading {
    type V = ReadingModel;

    open spec fn view(&self) -> ReadingModel {
        ReadingModel {
            endpoint_id: self.endpoint_id@,
            server_mbps: self.server_mbps@,
            degradation: self.degradation@,
        }
    }
}

/// The place of the last reading of an endpoint.
pub open spec fn last_reading(readings: Seq<EndpointReading>, endpoint_id: Seq<char>) -> Option<
    ReadingModel,
>
    decreases readings.len(),
{
    if readings.len() == 0 {
        None
    } else if readings.last()@.endpoint_id == endpoint_id {
        Some(readings.last()@)
    } else {
        last_reading(readings.drop_last(), endpoint_id)
    }
}

/// A row with what the server says of its endpoint.
pub open spec fn read_row(row: PathRowModel, readings: Seq<EndpointReading>) -> PathRowModel {
    match last_reading(readings, row.endpoint_id) {
        Some(reading) => PathRowModel {
            server_mbps: reading.server_mbps,
            degradation: reading.degradation,
            ..row
        },
        None => PathRowModel { server_mbps: "-"@, degradation: "-"@, ..row },
    }
}

/// The log with one more line; the oldest line makes room.
pub open spec fn logged(logs: Seq<Seq<char>>, line: Seq<char>) -> Seq<Seq<char>> {
    if logs.len() >= MAX_LOG_LINES {
        logs.drop_first().push(line)
    } else {
        logs.push(line)
    }
}

/// What the keys of the client ask for.
#[derive(Debug, Clone, Copy, PartialEq, Eq, Structural)]
pub enum UiCommand {
    SetAuto,
    SetRedundant,
    SetSplit,
    SetRoundRobin,
    ToggleWeightedAuto,
}

impl UiCommand {
    /// The mode that is asked for, if one is.
    pub fn mode(self) -> (mode: Option<StrategyMode>)
        ensures
            mode == (match self {
                UiCommand::SetAuto => Some(StrategyMode::Auto),
                UiCommand::SetRedundant => Some(StrategyMode::Redundant),
                UiCommand::SetSplit => Some(StrategyMode::Split),
                UiCommand::SetRoundRobin => Some(StrategyMode::RoundRobin),
                UiCommand::ToggleWeightedAuto => None,
            }),
    {
        match self {
            UiCommand::SetAuto => Some(StrategyMode::Auto),
            UiCommand::SetRedundant => Some(StrategyMode::Redundant),
            UiCommand::SetSplit => Some(StrategyMode::Split),
            UiCommand::SetRoundRobin => Some(StrategyMode::RoundRobin),
            UiCommand::ToggleWeightedAuto => None,
        }
    }
}

/// The client's own view of its state. The counters wrap around; times are in nanoseconds.
pub struct ClientUiState {
    pub started_at: u64,
    pub port: u16,
    pub server_endpoint: String,
    pub health_endpoint: String,
    pub interfaces: Vec<String>,
    pub ingested_packets: u64,
    pub ingested_bytes: u64,
    pub sent_packets: u64,
    pub sent_bytes: u64,
    pub sent_bytes_by_interface: NameMap<u64>,
    pub send_errors: u64,
    pub last_ingest_from: String,
    pub last_health_received: Option<u64>,
    pub last_health_overall: Option<String>,
    pub strategy_mode: String,
    pub effective_strategy: String,
    pub split_percentages: NameMap<String>,
    pub paths: NameMap<Vec<PathRow>>,
    pub logs: VecDeque<String>,
    pub quit_requested: bool,
}

/// Shows every row as sending.
fn mark_sending(rows: Vec<PathRow>) -> (marked: Vec<PathRow>)
    ensures
        row_models(marked@) == row_models(rows@).map_values(
            |row: PathRowModel| PathRowModel { status: "sending"@, ..row },
        ),
{
    let mut rows = rows;
    let mut marked: Vec<PathRow> = Vec::new();
    let ghost all = rows@;
    let count: usize = rows.len();
    for i in 0..count
        invariant
            count == all.len(),
            rows@ == all.skip(i as int),
            marked@.len() == i,
            forall|j: int|
                0 <= j < i ==> (#[trigger] marked@[j])@ == (PathRowModel {
                    status: "sending"@,
                    ..all[j]@
                }),
    {
        let row = rows.remove(0);
        assert(rows@ =~= all.skip(i + 1));
        marked.push(PathRow { status: "sending".to_owned(), ..row });
    }
    assert(row_models(marked@) =~= row_models(all).map_values(
        |row: PathRowModel| PathRowModel { status: "sending"@, ..row },
    ));
    marked
}

/// Shows in every row what the server says of its endpoint.
fn read_rows(rows: Vec<PathRow>, readings: &[EndpointReading]) -> (result: Vec<PathRow>)
    ensures
        row_models(result@) == row_models(rows@).map_values(
            |row: PathRowModel| read_row(row, readings@),
        ),
{
    let mut rows = rows;
    let mut result: Vec<PathRow> = Vec::new();
    let ghost all = rows@;
    let count: usize = rows.len();
    for i in 0..count
        invariant
            count == all.len(),
            rows@ == all.skip(i as int),
            result@.len() == i,
            forall|j: int|
                0 <= j < i ==> (#[trigger] result@[j])@ == read_row(all[j]@, readings@),
    {
        let row = rows.remove(0);
        assert(rows@ =~= all.skip(i + 1));
        assert(row == all[i as int]);
        let mut place: usize = readings.len();
        assert(readings@.take(place as int) =~= readings@);
        while place > 0 && !same_text(
            readings[place - 1].endpoint_id.as_str(),
            row.endpoint_id.as_str(),
        )
            invariant
                place <= readings@.len(),
                last_reading(readings@, row.endpoint_id@) == last_reading(
                    readings@.take(place as int),
                    row.endpoint_id@,
                ),
            decreases place,
        {
            assert(readings@.take(place as int).drop_last() =~= readings@.take(place - 1));
            place = place - 1;
        }
        if place > 0 {
            result.push(
                PathRow {
                    server_mbps: readings[place - 1].server_mbps.clone(),
                    degradation: readings[place - 1].degradation.clone(),
                    ..row
                },
            );
        } else {
            result.push(
                PathRow { server_mbps: "-".to_owned(), degradation: "-".to_owned(), ..row },
            );
        }
    }
    assert(row_models(result@) =~= row_models(all).map_values(
        |row: PathRowModel| read_row(row, readings@),
    ));
    result
}

impl ClientUiState {
    /// Each name is in its map once, and the log is not too long.
    pub open spec fn well_formed(self) -> bool {
        &&& self.sent_bytes_by_interface.well_formed()
        &&& self.split_percentages.well_formed()
        &&& self.paths.well_formed()
        &&& self.logs@.len() <= MAX_LOG_LINES
    }

    /// The rows of each interface.
    pub open spec fn path_rows(self) -> Map<Seq<char>, Seq<PathRowModel>> {
        self.paths@.map_values(|rows: Vec<PathRow>| row_models(rows@))
    }

    /// The rows of an interface.
    pub open spec fn rows_of(self, interface: Seq<char>) -> Seq<PathRowModel> {
        if self.path_rows().contains_key(interface) {
            self.path_rows()[interface]
        } else {
            Seq::empty()
        }
    }

    /// How many bytes an interface has sent.
    pub open spec fn bytes_sent_over(self, interface: Seq<char>) -> u64 {
        if self.sent_bytes_by_interface@.contains_key(interface) {
            self.sent_bytes_by_interface@[interface]
        } else {
            0
        }
    }

    pub fn new(
        now: u64,
        port: u16,
        server_endpoint: String,
        health_endpoint: String,
        interfaces: Vec<String>,
    ) -> (state: ClientUiState)
        ensures
            state.well_formed(),
            state.started_at == now,
            state.port == port,
            state.server_endpoint == server_endpoint,
            state.health_endpoint == health_endpoint,
            state.interfaces == interfaces,
            state.ingested_packets == 0,
            state.ingested_bytes == 0,
            state.sent_packets == 0,
            state.sent_bytes == 0,
            state.sent_bytes_by_interface@ == Map::<Seq<char>, u64>::empty(),
            state.send_errors == 0,
            state.last_ingest_from@ == "-"@,
            state.last_health_received is None,
            state.last_health_overall is None,
            state.strategy_mode@ == "-"@,
            state.effective_strategy@ == "-"@,
            state.split_percentages@ == Map::<Seq<char>, String>::empty(),
            state.path_rows() == Map::<Seq<char>, Seq<PathRowModel>>::empty(),
            state.logs@.len() == 0,
            !state.quit_requested,
    {
        let state = ClientUiState {
            started_at: now,
            port,
            server_endpoint,
            health_endpoint,
            interfaces,
            ingested_packets: 0,
            ingested_bytes: 0,
            sent_packets: 0,
            sent_bytes: 0,
            sent_bytes_by_interface: NameMap::new(),
            send_errors: 0,
            last_ingest_from: "-".to_owned(),
            last_health_received: None,
            last_health_overall: None,
            strategy_mode: "-".to_owned(),
            effective_strategy: "-".to_owned(),
            split_percentages: NameMap::new(),
            paths: NameMap::new(),
            logs: VecDeque::new(),
            quit_requested: false,
        };
        assert(state.path_rows() =~= Map::<Seq<char>, Seq<PathRowModel>>::empty());
        state
    }

    pub fn record_ingest(&mut self, bytes: u64, from: String)
        ensures
            *final(self) == (ClientUiState {
                ingested_packets: server_ui::wrapped_sum(old(self).ingested_packets, 1),
                ingested_bytes: server_ui::wrapped_sum(old(self).ingested_bytes, bytes),
                last_ingest_from: from,
                ..*old(self)
            }),
    {
        self.ingested_packets = self.ingested_packets.wrapping_add(1);
        self.ingested_bytes = self.ingested_bytes.wrapping_add(bytes);
        self.last_ingest_from = from;
    }

    /// Counts a packet that was sent; the interface is shown as sending.
    pub fn record_send(&mut self, interface: String, bytes: u64)
        requires
            old(self).well_formed(),
        ensures
            final(self).well_formed(),
            *final(self) == (ClientUiState {
                sent_packets: server_ui::wrapped_sum(old(self).sent_packets, 1),
                sent_bytes: server_ui::wrapped_sum(old(self).sent_bytes, bytes),
                sent_bytes_by_interface: final(self).sent_bytes_by_interface,
                paths: final(self).paths,
                ..*old(self)
            }),
            final(self).sent_bytes_by_interface@ == old(self).sent_bytes_by_interface@.insert(
                interface@,
                server_ui::wrapped_sum(old(self).bytes_sent_over(interface@), bytes),
            ),
            final(self).path_rows() == old(self).path_rows().insert(
                interface@,
                old(self).rows_of(interface@).map_values(
                    |row: PathRowModel| PathRowModel { status: "sending"@, ..row },
                ),
            ),
    {
        self.sent_packets = self.sent_packets.wrapping_add(1);
        self.sent_bytes = self.sent_bytes.wrapping_add(bytes);
        let sent: u64 = match self.sent_bytes_by_interface.get(interface.as_str()) {
            Some(sent) => *sent,
            None => 0,
        };
        self.sent_bytes_by_interface.insert(interface.clone(), sent.wrapping_add(bytes));
        let rows = match self.paths.remove(interface.as_str()) {
            Some(rows) => rows,
            None => Vec::new(),
        };
        assert(row_models(rows@) =~= old(self).rows_of(interface@));
        self.paths.insert(interface, mark_sending(rows));
        assert(self.path_rows() =~= old(self).path_rows().insert(
            interface@,
            old(self).rows_of(interface@).map_values(
                |row: PathRowModel| PathRowModel { status: "sending"@, ..row },
            ),
        ));
    }

    /// Counts a packet that could not be sent; the error is shown among the paths.
    pub fn record_send_error(&mut self, interface: String, error: String)
        requires
            old(self).well_formed(),
        ensures
            final(self).well_formed(),
            *final(self) == (ClientUiState {
                send_errors: server_ui::wrapped_sum(old(self).send_errors, 1),
                paths: final(self).paths,
                ..*old(self)
            }),
            final(self).path_rows() == old(self).path_rows().insert(
                interface@,
                old(self).rows_of(interface@).push(error_row(error@)),
            ),
    {
        self.send_errors = self.send_errors.wrapping_add(1);
        let mut rows = match self.paths.remove(interface.as_str()) {
            Some(rows) => rows,
            None => Vec::new(),
        };
        assert(row_models(rows@) =~= old(self).rows_of(interface@));
        let ghost before = rows@;
        rows.push(
            PathRow {
                endpoint_id: "-".to_owned(),
                server_mbps: "-".to_owned(),
                degradation: "-".to_owned(),
                remote_addr: error,
                transport: "error".to_owned(),
                selected: false,
                status: "failed".to_owned(),
            },
        );
        assert(row_models(rows@) =~= row_models(before).push(rows@.last()@));
        self.paths.insert(interface, rows);
        assert(self.path_rows() =~= old(self).path_rows().insert(
            interface@,
            old(self).rows_of(interface@).push(error_row(error@)),
        ));
    }

    pub fn record_path(&mut self, interface: String, rows: Vec<PathRow>)
        requires
            old(self).well_formed(),
        ensures
            final(self).well_formed(),
            *final(self) == (ClientUiState { paths: final(self).paths, ..*old(self) }),
            final(self).path_rows() == old(self).path_rows().insert(
                interface@,
                row_models(rows@),
            ),
    {
        self.paths.insert(interface, rows);
        assert(self.path_rows() =~= old(self).path_rows().insert(interface@, row_models(rows@)));
    }

    pub fn set_health_endpoint(&mut self, endpoint: String)
        ensures
            *final(self) == (ClientUiState { health_endpoint: endpoint, ..*old(self) }),
    {
        self.health_endpoint = endpoint;
    }

    pub fn record_health_received(&mut self, now: u64)
        ensures
            *final(self) == (ClientUiState { last_health_received: Some(now), ..*old(self) }),
    {
        self.last_health_received = Some(now);
    }

    /// Shows what the server says of each endpoint; of two readings of the same endpoint the later
    /// counts, and an endpoint without a reading is shown without values.
    pub fn record_endpoint_health(
        &mut self,
        readings: &[EndpointReading],
        overall: Option<String>,
    )
        requires
            old(self).well_formed(),
        ensures
            final(self).well_formed(),
            *final(self) == (ClientUiState {
                last_health_overall: overall,
                paths: final(self).paths,
                ..*old(self)
            }),
            final(self).path_rows() == old(self).path_rows().map_values(
                |rows: Seq<PathRowModel>|
                    rows.map_values(|row: PathRowModel| read_row(row, readings@)),
            ),
    {
        self.last_health_overall = overall;
        let ghost before = old(self).path_rows();
        let ghost read = |rows: Seq<PathRowModel>|
            rows.map_values(|row: PathRowModel| read_row(row, readings@));
        let names = self.paths.name_list();
        proof {
            self.paths.lemma_names();
            assert(text::texts(names@) == self.paths.names());
        }
        let ghost order = text::texts(names@);
        assert(self.path_rows() =~= before);
        for i in 0..names.len()
            invariant
                self.well_formed(),
                order == text::texts(names@),
                name_map::names_ascend(order),
                order.to_set() == before.dom(),
                self.path_rows().dom() == before.dom(),
                forall|j: int|
                    0 <= j < i ==> self.path_rows()[#[trigger] order[j]] == read(before[order[j]]),
                forall|j: int|
                    i <= j < order.len() ==> self.path_rows()[#[trigger] order[j]]
                        == before[order[j]],
                read == |rows: Seq<PathRowModel>|
                    rows.map_values(|row: PathRowModel| read_row(row, readings@)),
                *self == (ClientUiState {
                    last_health_overall: overall,
                    paths: self.paths,
                    ..*old(self)
                }),
        {
            let ghost earlier = self.path_rows();
            let ghost name = order[i as int];
            proof {
                assert(order[i as int] == names@[i as int]@);
                assert(order.contains(name));
                assert(order.to_set().contains(name));
                assert(self.path_rows().contains_key(name));
                assert(self.paths@.contains_key(name));
                assert forall|j: int| 0 <= j < order.len() && j != i implies #[trigger] order[j]
                    != name by {
                    name_map::lemma_name_before_irreflexive(name);
                    if j < i {
                        assert(name_map::name_before(order[j], order[i as int]));
                    } else {
                        assert(name_map::name_before(order[i as int], order[j]));
                    }
                }
            }
            let rows = match self.paths.remove(names[i].as_str()) {
                Some(rows) => rows,
                None => Vec::new(),
            };
            self.paths.insert(names[i].clone(), read_rows(rows, readings));
            proof {
                assert(self.path_rows() =~= earlier.insert(name, read(before[name])));
                assert(self.path_rows().dom() =~= before.dom());
            }
        }
        proof {
            assert forall|name: Seq<char>| #[trigger] before.contains_key(
                name,
            ) implies self.path_rows()[name] == read(before[name]) by {
                assert(order.to_set().contains(name));
                let j = choose|j: int| 0 <= j < order.len() && order[j] == name;
                assert(order[j] == name);
            }
            assert(self.path_rows() =~= before.map_values(read));
        }
    }

    pub fn record_strategy_state(&mut self, mode: String, effective: String)
        ensures
            *final(self) == (ClientUiState {
                strategy_mode: mode,
                effective_strategy: effective,
                ..*old(self)
            }),
    {
        self.strategy_mode = mode;
        self.effective_strategy = effective;
    }

    pub fn record_split_percentages(&mut self, percentages: NameMap<String>)
        requires
            old(self).well_formed(),
            percentages.well_formed(),
        ensures
            final(self).well_formed(),
            *final(self) == (ClientUiState { split_percentages: percentages, ..*old(self) }),
    {
        self.split_percentages = percentages;
    }

    /// Adds a line to the log; the oldest line makes room.
    pub fn push_log_line(&mut self, line: String)
        requires
            old(self).well_formed(),
        ensures
            final(self).well_formed(),
            *final(self) == (ClientUiState { logs: final(self).logs, ..*old(self) }),
            text::texts(final(self).logs@) == logged(text::texts(old(self).logs@), line@),
    {
        let ghost before = self.logs@;
        if self.logs.len() >= MAX_LOG_LINES {
            let _ = self.logs.pop_front();
        }
        self.logs.push_back(line);
        assert(text::texts(self.logs@) =~= logged(text::texts(before), line@));
    }

    pub fn request_quit(&mut self)
        ensures
            *final(self) == (ClientUiState { quit_requested: true, ..*old(self) }),
    {
        self.quit_requested = true;
    }

    pub fn should_quit(&self) -> (quit: bool)
        ensures
            quit == self.quit_requested,
    {
        self.quit_requested
    }
}

} // verus!
