//! What the server shows of itself: its addresses, its counters, and the state of each client
//! connection.

use crate::name_map::NameMap;
use crate::text::starts_with;
use vstd::prelude::*;

verus! {

/// One network path of a client connection.
#[derive(Debug, Clone, PartialEq, Eq)]
pub struct PathRow {
    pub remote_addr: String,
    pub transport: String,
    pub selected: bool,
    pub status: String,
}

/// The state of one client connection.
#[derive(Debug, Clone, PartialEq, Eq)]
pub struct ConnectionView {
    pub received_packets: u64,
    pub received_bytes: u64,
    pub max_seq: Option<u64>,
    pub last_seq: Option<u64>,
    pub last_error: Option<String>,
    pub paths: Vec<PathRow>,
    pub last_activity: u64,
}

#[verifier::ext_equal]
pub struct PathRowModel {
    pub remote_addr: Seq<char>,
    pub transport: Seq<char>,
    pub selected: bool,
    pub status: Seq<char>,
}

#[verifier::ext_equal]
pub struct ConnectionModel {
    pub received_packets: u64,
    pub received_bytes: u64,
    pub max_seq: Option<u64>,
    pub last_seq: Option<u64>,
    pub last_error: Option<Seq<char>>,
    pub paths: Seq<PathRowModel>,
    pub last_activity: u64,
}

impl View for PathRow {
    type V = PathRowModel;

    open spec fn view(&self) -> PathRowModel {
        PathRowModel {
            remote_addr: self.remote_addr@,
            transport: self.transport@,
            selected: self.selected,
            status: self.status@,
        }
    }
}

/// The rows that a list holds.
pub open spec fn row_models(rows: Seq<PathRow>) -> Seq<PathRowModel> {
    rows.map_values(|row: PathRow| row@)
}

impl View for ConnectionView {
    type V = ConnectionModel;

    open spec fn view(&self) -> ConnectionModel {
        ConnectionModel {
            received_packets: self.received_packets,
            received_bytes: self.received_bytes,
            max_seq: self.max_seq,
            last_seq: self.last_seq,
            last_error: match self.last_error {
                Some(error) => Some(error@),
                None => None,
            },
            paths: row_models(self.paths@),
            last_activity: self.last_activity,
        }
    }
}

impl Default for ConnectionView {
    /// A connection of which nothing is known.
    fn default() -> (view: ConnectionView)
        ensures
            view@ == blank_connection(),
    {
        let view = ConnectionView {
            received_packets: 0,
            received_bytes: 0,
            max_seq: None,
            last_seq: None,
            last_error: None,
            paths: Vec::new(),
            last_activity: 0,
        };
        assert(view@ =~= blank_connection());
        view
    }
}

/// A connection of which nothing is known.
pub open spec fn blank_connection() -> ConnectionModel {
    ConnectionModel {
        received_packets: 0,
        received_bytes: 0,
        max_seq: None,
        last_seq: None,
        last_error: None,
        paths: Seq::empty(),
        last_activity: 0,
    }
}

/// The status of a path whose connection was closed with an error.
pub open spec fn closed_status(error: Seq<char>) -> Seq<char> {
    "closed: "@ + error
}

/// A row whose path is up again if it was closed.
pub open spec fn revived_row(row: PathRowModel) -> PathRowModel {
    if "closed:"@.is_prefix_of(row.status) {
        PathRowModel { status: "up"@, ..row }
    } else {
        row
    }
}

/// The greater of a sequence number and the greatest one so far.
pub open spec fn greater_sequence(current: Option<u64>, sequence: u64) -> u64 {
    match current {
        Some(held) => if held >= sequence {
            held
        } else {
            sequence
        },
        None => sequence,
    }
}

/// The sum of two counts in 64 bits, which wraps around.
pub open spec fn wrapped_sum(a: u64, b: u64) -> u64 {
    if a + b > u64::MAX {
        (a + b - 18446744073709551616) as u64
    } else {
        (a + b) as u64
    }
}

/// The server's own view of its state. The counters wrap around.
pub struct ServerUiState {
    pub endpoint: String,
    pub health_endpoint: String,
    pub ticket: Option<String>,
    pub udp_dest: String,
    pub server_addrs: Vec<String>,
    pub quit_requested: bool,
    pub received_packets: u64,
    pub received_bytes: u64,
    pub forwarded_packets: u64,
    pub forwarded_bytes: u64,
    pub duplicate_packets: u64,
    pub skipped_packets: u64,
    pub skipped_never_received_packets: u64,
    pub late_after_skip_packets: u64,
    pub fragment_incomplete_packets: u64,
    pub repair_requests: u64,
    pub fec_recovered_packets: u64,
    pub send_pressure_drops: u64,
    pub flow_resets: u64,
    pub connection_resets: u64,
    pub invalid_packets: u64,
    pub buffered_packets: u64,
    pub last_forwarded_seq: u64,
    pub next_seq: u64,
    pub connection_activity_counter: u64,
    pub connections: NameMap<ConnectionView>,
}

/// Sets the status of every row.
fn mark_rows(rows: Vec<PathRow>, status: &String) -> (marked: Vec<PathRow>)
    ensures
        row_models(marked@) == row_models(rows@).map_values(
            |row: PathRowModel| PathRowModel { status: status@, ..row },
        ),
{
    let mut marked: Vec<PathRow> = Vec::new();
    for i in 0..rows.len()
        invariant
            marked@.len() == i,
            forall|j: int|
                0 <= j < i ==> (#[trigger] marked@[j])@ == (PathRowModel {
                    status: status@,
                    ..rows@[j]@
                }),
    {
        marked.push(
            PathRow {
                remote_addr: rows[i].remote_addr.clone(),
                transport: rows[i].transport.clone(),
                selected: rows[i].selected,
                status: status.clone(),
            },
        );
    }
    assert(row_models(marked@) =~= row_models(rows@).map_values(
        |row: PathRowModel| PathRowModel { status: status@, ..row },
    ));
    marked
}

/// Shows every closed row as up.
fn revive_rows(rows: Vec<PathRow>) -> (revived: Vec<PathRow>)
    ensures
        row_models(revived@) == row_models(rows@).map_values(|row: PathRowModel| revived_row(row)),
{
    let mut revived: Vec<PathRow> = Vec::new();
    for i in 0..rows.len()
        invariant
            revived@.len() == i,
            forall|j: int| 0 <= j < i ==> (#[trigger] revived@[j])@ == revived_row(rows@[j]@),
    {
        let closed = starts_with(rows[i].status.as_str(), "closed:");
        revived.push(
            PathRow {
                remote_addr: rows[i].remote_addr.clone(),
                transport: rows[i].transport.clone(),
                selected: rows[i].selected,
                status: if closed {
                    "up".to_owned()
                } else {
                    rows[i].status.clone()
                },
            },
        );
    }
    assert(row_models(revived@) =~= row_models(rows@).map_values(
        |row: PathRowModel| revived_row(row),
    ));
    revived
}

impl ServerUiState {
    pub open spec fn well_formed(self) -> bool {
        self.connections.well_formed()
    }

    /// What is known of a connection.
    pub open spec fn connection(self, remote: Seq<char>) -> ConnectionModel {
        if self.connections@.contains_key(remote) {
            self.connections@[remote]@
        } else {
            blank_connection()
        }
    }

    /// The connections are those of `before`, but that `remote` is now known as `model`.
    pub open spec fn updates_connection(
        self,
        before: ServerUiState,
        remote: Seq<char>,
        model: ConnectionModel,
    ) -> bool {
        &&& self.well_formed()
        &&& self.connections@.dom() == before.connections@.dom().insert(remote)
        &&& self.connection(remote) == model
        &&& forall|other: Seq<char>|
            other != remote && before.connections@.contains_key(other) ==> self.connections@[other]
                == #[trigger] before.connections@[other]
    }

    pub fn new(udp_dest: String) -> (state: ServerUiState)
        ensures
            state.well_formed(),
            state.endpoint@ == "-"@,
            state.health_endpoint@ == "-"@,
            state.ticket is None,
            state.udp_dest == udp_dest,
            state.server_addrs@.len() == 0,
            !state.quit_requested,
            state.received_packets == 0,
            state.received_bytes == 0,
            state.forwarded_packets == 0,
            state.forwarded_bytes == 0,
            state.duplicate_packets == 0,
            state.skipped_packets == 0,
            state.skipped_never_received_packets == 0,
            state.late_after_skip_packets == 0,
            state.fragment_incomplete_packets == 0,
            state.repair_requests == 0,
            state.fec_recovered_packets == 0,
            state.send_pressure_drops == 0,
            state.flow_resets == 0,
            state.connection_resets == 0,
            state.invalid_packets == 0,
            state.buffered_packets == 0,
            state.last_forwarded_seq == 0,
            state.next_seq == 0,
            state.connection_activity_counter == 0,
            state.connections@ == Map::<Seq<char>, ConnectionView>::empty(),
    {
        ServerUiState {
            endpoint: "-".to_owned(),
            health_endpoint: "-".to_owned(),
            ticket: None,
            udp_dest,
            server_addrs: Vec::new(),
            quit_requested: false,
            received_packets: 0,
            received_bytes: 0,
            forwarded_packets: 0,
            forwarded_bytes: 0,
            duplicate_packets: 0,
            skipped_packets: 0,
            skipped_never_received_packets: 0,
            late_after_skip_packets: 0,
            fragment_incomplete_packets: 0,
            repair_requests: 0,
            fec_recovered_packets: 0,
            send_pressure_drops: 0,
            flow_resets: 0,
            connection_resets: 0,
            invalid_packets: 0,
            buffered_packets: 0,
            last_forwarded_seq: 0,
            next_seq: 0,
            connection_activity_counter: 0,
            connections: NameMap::new(),
        }
    }

    pub fn set_endpoint(&mut self, endpoint: String)
        ensures
            *final(self) == (ServerUiState { endpoint, ..*old(self) }),
    {
        self.endpoint = endpoint;
    }

    pub fn set_server_addrs(&mut self, addrs: Vec<String>)
        ensures
            *final(self) == (ServerUiState { server_addrs: addrs, ..*old(self) }),
    {
        self.server_addrs = addrs;
    }

    pub fn set_ticket(&mut self, ticket: Option<String>)
        ensures
            *final(self) == (ServerUiState { ticket, ..*old(self) }),
    {
        self.ticket = ticket;
    }

    pub fn set_health_endpoint(&mut self, endpoint: Option<String>)
        ensures
            final(self).health_endpoint@ == match endpoint {
                Some(text) => text@,
                None => "-"@,
            },
            *final(self) == (ServerUiState {
                health_endpoint: final(self).health_endpoint,
                ..*old(self)
            }),
    {
        self.health_endpoint = match endpoint {
            Some(text) => text,
            None => "-".to_owned(),
        };
    }

    pub fn request_quit(&mut self)
        ensures
            *final(self) == (ServerUiState { quit_requested: true, ..*old(self) }),
    {
        self.quit_requested = true;
    }

    pub fn should_quit(&self) -> (quit: bool)
        ensures
            quit == self.quit_requested,
    {
        self.quit_requested
    }

    /// Counts one more activity and takes the connection's state out of the map.
    fn take_connection(&mut self, remote: &str) -> (view: ConnectionView)
        requires
            old(self).well_formed(),
        ensures
            final(self).well_formed(),
            view@ == old(self).connection(remote@),
            final(self).connections@ == old(self).connections@.remove(remote@),
            *final(self) == (ServerUiState {
                connection_activity_counter: wrapped_sum(old(self).connection_activity_counter, 1),
                connections: final(self).connections,
                ..*old(self)
            }),
    {
        self.connection_activity_counter = self.connection_activity_counter.wrapping_add(1);
        match self.connections.remove(remote) {
            Some(view) => view,
            None => ConnectionView::default(),
        }
    }

    /// Shows a connection with these paths.
    pub fn record_connection(&mut self, remote: String, rows: Vec<PathRow>)
        requires
            old(self).well_formed(),
        ensures
            final(self).updates_connection(
                *old(self),
                remote@,
                ConnectionModel {
                    paths: row_models(rows@),
                    last_activity: wrapped_sum(old(self).connection_activity_counter, 1),
                    ..old(self).connection(remote@)
                },
            ),
            *final(self) == (ServerUiState {
                connection_activity_counter: wrapped_sum(old(self).connection_activity_counter, 1),
                connections: final(self).connections,
                ..*old(self)
            }),
    {
        let mut entry = self.take_connection(remote.as_str());
        entry.paths = rows;
        entry.last_activity = self.connection_activity_counter;
        self.connections.insert(remote, entry);
        assert(self.connections@.dom() =~= old(self).connections@.dom().insert(remote@));
    }

    /// Shows a connection, and each of its paths, as closed with an error.
    pub fn record_disconnect(&mut self, remote: String, error: String)
        requires
            old(self).well_formed(),
        ensures
            final(self).updates_connection(
                *old(self),
                remote@,
                ConnectionModel {
                    last_error: Some(error@),
                    paths: old(self).connection(remote@).paths.map_values(
                        |row: PathRowModel|
                            PathRowModel { status: closed_status(error@), ..row },
                    ),
                    last_activity: wrapped_sum(old(self).connection_activity_counter, 1),
                    ..old(self).connection(remote@)
                },
            ),
            *final(self) == (ServerUiState {
                connection_activity_counter: wrapped_sum(old(self).connection_activity_counter, 1),
                connections: final(self).connections,
                ..*old(self)
            }),
    {
        let entry = self.take_connection(remote.as_str());
        let mut status = "closed: ".to_owned();
        status.append(error.as_str());
        let entry = ConnectionView {
            received_packets: entry.received_packets,
            received_bytes: entry.received_bytes,
            max_seq: entry.max_seq,
            last_seq: entry.last_seq,
            last_error: Some(error),
            paths: mark_rows(entry.paths, &status),
            last_activity: self.connection_activity_counter,
        };
        self.connections.insert(remote, entry);
        assert(self.connections@.dom() =~= old(self).connections@.dom().insert(remote@));
        assert(self.connection(remote@) =~= ConnectionModel {
            last_error: Some(error@),
            paths: old(self).connection(remote@).paths.map_values(
                |row: PathRowModel| PathRowModel { status: closed_status(error@), ..row },
            ),
            last_activity: wrapped_sum(old(self).connection_activity_counter, 1),
            ..old(self).connection(remote@)
        });
    }

    pub fn record_connection_reset(&mut self)
        ensures
            *final(self) == (ServerUiState {
                connection_resets: wrapped_sum(old(self).connection_resets, 1),
                ..*old(self)
            }),
    {
        self.connection_resets = self.connection_resets.wrapping_add(1);
    }

    /// Counts a packet that a connection received; a closed path is up again.
    pub fn record_connection_receive(&mut self, remote: &str, bytes: u64, sequence: u64)
        requires
            old(self).well_formed(),
        ensures
            final(self).updates_connection(
                *old(self),
                remote@,
                received_on(
                    old(self).connection(remote@),
                    bytes,
                    sequence,
                    wrapped_sum(old(self).connection_activity_counter, 1),
                ),
            ),
            *final(self) == (ServerUiState {
                connection_activity_counter: wrapped_sum(old(self).connection_activity_counter, 1),
                connections: final(self).connections,
                ..*old(self)
            }),
    {
        let entry = self.take_connection(remote);
        let max_seq: u64 = match entry.max_seq {
            Some(held) => if held >= sequence {
                held
            } else {
                sequence
            },
            None => sequence,
        };
        let entry = ConnectionView {
            received_packets: entry.received_packets.wrapping_add(1),
            received_bytes: entry.received_bytes.wrapping_add(bytes),
            max_seq: Some(max_seq),
            last_seq: Some(sequence),
            last_error: None,
            paths: revive_rows(entry.paths),
            last_activity: self.connection_activity_counter,
        };
        self.connections.insert(remote.to_owned(), entry);
        assert(self.connections@.dom() =~= old(self).connections@.dom().insert(remote@));
        assert(self.connection(remote@) =~= received_on(
            old(self).connection(remote@),
            bytes,
            sequence,
            wrapped_sum(old(self).connection_activity_counter, 1),
        ));
    }

    pub fn record_received(&mut self, bytes: u64)
        ensures
            *final(self) == (ServerUiState {
                received_packets: wrapped_sum(old(self).received_packets, 1),
                received_bytes: wrapped_sum(old(self).received_bytes, bytes),
                ..*old(self)
            }),
    {
        self.received_packets = self.received_packets.wrapping_add(1);
        self.received_bytes = self.received_bytes.wrapping_add(bytes);
    }

    pub fn record_forwarded(&mut self, bytes: u64, buffered: u64, forwarded_seq: u64, next_seq: u64)
        ensures
            *final(self) == (ServerUiState {
                forwarded_packets: wrapped_sum(old(self).forwarded_packets, 1),
                forwarded_bytes: wrapped_sum(old(self).forwarded_bytes, bytes),
                buffered_packets: buffered,
                last_forwarded_seq: forwarded_seq,
                next_seq,
                ..*old(self)
            }),
    {
        self.forwarded_packets = self.forwarded_packets.wrapping_add(1);
        self.forwarded_bytes = self.forwarded_bytes.wrapping_add(bytes);
        self.buffered_packets = buffered;
        self.last_forwarded_seq = forwarded_seq;
        self.next_seq = next_seq;
    }

    pub fn record_duplicate(&mut self, buffered: u64, next_seq: u64)
        ensures
            *final(self) == (ServerUiState {
                duplicate_packets: wrapped_sum(old(self).duplicate_packets, 1),
                buffered_packets: buffered,
                next_seq,
                ..*old(self)
            }),
    {
        self.duplicate_packets = self.duplicate_packets.wrapping_add(1);
        self.buffered_packets = buffered;
        self.next_seq = next_seq;
    }

    pub fn record_never_received_skip(&mut self, buffered: u64, next_seq: u64)
        ensures
            *final(self) == (ServerUiState {
                skipped_packets: wrapped_sum(old(self).skipped_packets, 1),
                skipped_never_received_packets: wrapped_sum(
                    old(self).skipped_never_received_packets,
                    1,
                ),
                buffered_packets: buffered,
                next_seq,
                ..*old(self)
            }),
    {
        self.skipped_packets = self.skipped_packets.wrapping_add(1);
        self.skipped_never_received_packets = self.skipped_never_received_packets.wrapping_add(1);
        self.buffered_packets = buffered;
        self.next_seq = next_seq;
    }

    pub fn record_fragment_incomplete_skip(&mut self, buffered: u64, next_seq: u64)
        ensures
            *final(self) == (ServerUiState {
                skipped_packets: wrapped_sum(old(self).skipped_packets, 1),
                fragment_incomplete_packets: wrapped_sum(old(self).fragment_incomplete_packets, 1),
                buffered_packets: buffered,
                next_seq,
                ..*old(self)
            }),
    {
        self.skipped_packets = self.skipped_packets.wrapping_add(1);
        self.fragment_incomplete_packets = self.fragment_incomplete_packets.wrapping_add(1);
        self.buffered_packets = buffered;
        self.next_seq = next_seq;
    }

    pub fn record_late_after_skip(&mut self, buffered: u64, next_seq: u64)
        ensures
            *final(self) == (ServerUiState {
                late_after_skip_packets: wrapped_sum(old(self).late_after_skip_packets, 1),
                buffered_packets: buffered,
                next_seq,
                ..*old(self)
            }),
    {
        self.late_after_skip_packets = self.late_after_skip_packets.wrapping_add(1);
        self.buffered_packets = buffered;
        self.next_seq = next_seq;
    }

    pub fn record_send_pressure_drop(&mut self)
        ensures
            *final(self) == (ServerUiState {
                send_pressure_drops: wrapped_sum(old(self).send_pressure_drops, 1),
                ..*old(self)
            }),
    {
        self.send_pressure_drops = self.send_pressure_drops.wrapping_add(1);
    }

    pub fn record_repair_request(&mut self)
        ensures
            *final(self) == (ServerUiState {
                repair_requests: wrapped_sum(old(self).repair_requests, 1),
                ..*old(self)
            }),
    {
        self.repair_requests = self.repair_requests.wrapping_add(1);
    }

    pub fn record_fec_recovered(&mut self)
        ensures
            *final(self) == (ServerUiState {
                fec_recovered_packets: wrapped_sum(old(self).fec_recovered_packets, 1),
                ..*old(self)
            }),
    {
        self.fec_recovered_packets = self.fec_recovered_packets.wrapping_add(1);
    }

    pub fn record_flow_reset(&mut self)
        ensures
            *final(self) == (ServerUiState {
                flow_resets: wrapped_sum(old(self).flow_resets, 1),
                ..*old(self)
            }),
    {
        self.flow_resets = self.flow_resets.wrapping_add(1);
    }

    pub fn record_invalid(&mut self)
        ensures
            *final(self) == (ServerUiState {
                invalid_packets: wrapped_sum(old(self).invalid_packets, 1),
                ..*old(self)
            }),
    {
        self.invalid_packets = self.invalid_packets.wrapping_add(1);
    }

    pub fn record_buffered(&mut self, buffered: u64, next_seq: u64)
        ensures
            *final(self) == (ServerUiState { buffered_packets: buffered, next_seq, ..*old(self) }),
    {
        self.buffered_packets = buffered;
        self.next_seq = next_seq;
    }

    pub fn set_flow_start(&mut self, next_seq: u64)
        ensures
            *final(self) == (ServerUiState { next_seq, ..*old(self) }),
    {
        self.next_seq = next_seq;
    }

    pub fn skipped_never_received_packets(&self) -> (count: u64)
        ensures
            count == self.skipped_never_received_packets,
    {
        self.skipped_never_received_packets
    }

    pub fn late_after_skip_packets(&self) -> (count: u64)
        ensures
            count == self.late_after_skip_packets,
    {
        self.late_after_skip_packets
    }

    pub fn fragment_incomplete_packets(&self) -> (count: u64)
        ensures
            count == self.fragment_incomplete_packets,
    {
        self.fragment_incomplete_packets
    }
}

/// A connection after it received a packet.
pub open spec fn received_on(
    before: ConnectionModel,
    bytes: u64,
    sequence: u64,
    activity: u64,
) -> ConnectionModel {
    ConnectionModel {
        received_packets: wrapped_sum(before.received_packets, 1),
        received_bytes: wrapped_sum(before.received_bytes, bytes),
        max_seq: Some(greater_sequence(before.max_seq, sequence)),
        last_seq: Some(sequence),
        last_error: None,
        paths: before.paths.map_values(|row: PathRowModel| revived_row(row)),
        last_activity: activity,
    }
}

} // verus!
