//! What the client reports: to its own view of its state if there is one, and as lines of text
//! otherwise.

use crate::client_ui;
use crate::client_ui::{ClientUiState, EndpointReading, PathRowModel};
use crate::health_report::{ChatMessage, HealthReport};
use crate::name_map::NameMap;
use crate::path_info;
use crate::path_info::{describe_paths, relevant_paths, transport_kind, PathInfo};
use crate::server_ctx;
use crate::server_ui;
use crate::text;
use crate::text::push_decimal;
use std::collections::VecDeque;
use vstd::prelude::*;

verus! {

/// How many chat messages are kept.
pub const MAX_CHAT_MESSAGES: usize = 100;

/// Where the client reports to, and what it has learnt from the server.
pub struct ClientCtx {
    pub ui: Option<ClientUiState>,
    pub last_health_unix_ms: Option<u64>,
    pub chat_messages: VecDeque<ChatMessage>,
}

/// Whether a message is among others, by its number.
pub open spec fn is_known(messages: Seq<ChatMessage>, id: u64) -> bool {
    exists|i: int| 0 <= i < messages.len() && (#[trigger] messages[i]).id == id
}

/// The messages with those added that are not among them.
pub open spec fn merged(stored: Seq<ChatMessage>, messages: Seq<ChatMessage>) -> Seq<ChatMessage>
    decreases messages.len(),
{
    if messages.len() == 0 {
        stored
    } else {
        let before = merged(stored, messages.drop_last());
        if is_known(before, messages.last().id) {
            before
        } else {
            before.push(messages.last())
        }
    }
}

/// The last messages, as many as are kept.
pub open spec fn latest(messages: Seq<ChatMessage>) -> Seq<ChatMessage> {
    if messages.len() > MAX_CHAT_MESSAGES {
        messages.skip(messages.len() - MAX_CHAT_MESSAGES)
    } else {
        messages
    }
}

/// No two messages have the same number.
pub open spec fn are_distinct(messages: Seq<ChatMessage>) -> bool {
    forall|i: int, j: int|
        0 <= i < j < messages.len() ==> (#[trigger] messages[i]).id != (#[trigger] messages[j]).id
}

/// Adding messages keeps their numbers apart.
proof fn lemma_merged(stored: Seq<ChatMessage>, messages: Seq<ChatMessage>)
    requires
        are_distinct(stored),
    ensures
        are_distinct(merged(stored, messages)),
        merged(stored, messages).len() <= stored.len() + messages.len(),
    decreases messages.len(),
{
    if messages.len() > 0 {
        lemma_merged(stored, messages.drop_last());
    }
}

/// Every message that was added is known.
proof fn lemma_merged_is_known(stored: Seq<ChatMessage>, messages: Seq<ChatMessage>, place: int)
    requires
        0 <= place < messages.len(),
    ensures
        is_known(merged(stored, messages), messages[place].id),
    decreases messages.len(),
{
    let before = merged(stored, messages.drop_last());
    let after = merged(stored, messages);
    if place < messages.len() - 1 {
        lemma_merged_is_known(stored, messages.drop_last(), place);
        let i = choose|i: int|
            0 <= i < before.len() && (#[trigger] before[i]).id == messages[place].id;
        assert(after[i].id == messages[place].id);
    } else if !is_known(before, messages.last().id) {
        assert(after[before.len() as int].id == messages[place].id);
    }
}

/// Messages that are all known are not added.
proof fn lemma_known_are_not_added(stored: Seq<ChatMessage>, messages: Seq<ChatMessage>)
    requires
        forall|i: int| 0 <= i < messages.len() ==> is_known(stored, (#[trigger] messages[i]).id),
    ensures
        merged(stored, messages) == stored,
    decreases messages.len(),
{
    if messages.len() > 0 {
        let rest = messages.drop_last();
        assert forall|i: int| 0 <= i < rest.len() implies is_known(
            stored,
            (#[trigger] rest[i]).id,
        ) by {
            assert(rest[i] == messages[i]);
        }
        lemma_known_are_not_added(stored, rest);
        assert(is_known(stored, messages[messages.len() - 1].id));
    }
}

/// Messages that come again change nothing.
pub proof fn law_repeated_messages_change_nothing(
    stored: Seq<ChatMessage>,
    messages: Seq<ChatMessage>,
)
    ensures
        merged(merged(stored, messages), messages) == merged(stored, messages),
{
    assert forall|i: int| 0 <= i < messages.len() implies is_known(
        merged(stored, messages),
        (#[trigger] messages[i]).id,
    ) by {
        lemma_merged_is_known(stored, messages, i);
    }
    lemma_known_are_not_added(merged(stored, messages), messages);
}

/// The line for a health report that is older than the last.
pub open spec fn stale_line(unix_ms: u64, last_unix_ms: u64) -> Seq<char> {
    "WARN dropped stale health report unix_ms="@ + text::decimal(unix_ms as nat)
        + " last_unix_ms="@ + text::decimal(last_unix_ms as nat)
}

/// The line for a path of a connection.
pub open spec fn connection_line(interface: Seq<char>, path: PathInfo) -> Seq<char> {
    "INFO connection path interface="@ + interface + " selected="@ + server_ctx::bool_word(
        path.selected,
    ) + " closed="@ + server_ctx::bool_word(path.closed) + " transport="@ + path_info::kind_of(path)
        + " remote_addr="@ + path.remote_addr@
}

/// The log with several more lines.
pub open spec fn all_logged(logs: Seq<Seq<char>>, lines: Seq<Seq<char>>) -> Seq<Seq<char>>
    decreases lines.len(),
{
    if lines.len() == 0 {
        logs
    } else {
        client_ui::logged(all_logged(logs, lines.drop_last()), lines.last())
    }
}

/// The lines for the paths of a connection that count.
pub open spec fn connection_lines(interface: Seq<char>, paths: Seq<PathInfo>) -> Seq<Seq<char>> {
    path_info::relevant(paths, path_info::some_selected(paths)).map_values(
        |place: usize| connection_line(interface, paths[place as int]),
    )
}

impl Default for ClientCtx {
    /// A client without a view of its state.
    fn default() -> (ctx: ClientCtx)
        ensures
            ctx.well_formed(),
            ctx.ui is None,
            ctx.last_health_unix_ms is None,
            ctx.chat_messages@ == Seq::<ChatMessage>::empty(),
    {
        ClientCtx { ui: None, last_health_unix_ms: None, chat_messages: VecDeque::new() }
    }
}

impl ClientCtx {
    /// The view is in order, there are no more messages than are kept, and none is there twice.
    pub open spec fn well_formed(self) -> bool {
        &&& self.ui matches Some(ui) ==> ui.well_formed()
        &&& self.chat_messages@.len() <= MAX_CHAT_MESSAGES
        &&& are_distinct(self.chat_messages@)
    }

    /// A line goes to the log of the view, or is printed if there is no view.
    pub open spec fn reports(
        self,
        before: ClientCtx,
        printed: Option<String>,
        line: Seq<char>,
    ) -> bool {
        &&& self.well_formed()
        &&& self == (ClientCtx { ui: self.ui, ..before })
        &&& match before.ui {
            Some(ui) => {
                &&& self.ui matches Some(after)
                &&& after == (ClientUiState { logs: after.logs, ..ui })
                &&& text::texts(after.logs@) == client_ui::logged(text::texts(ui.logs@), line)
                &&& printed is None
            },
            None => self.ui is None && (printed matches Some(text) && text@ == line),
        }
    }

    pub fn new(ui: Option<ClientUiState>) -> (ctx: ClientCtx)
        requires
            ui matches Some(state) ==> state.well_formed(),
        ensures
            ctx.well_formed(),
            ctx.ui == ui,
            ctx.last_health_unix_ms is None,
            ctx.chat_messages@ == Seq::<ChatMessage>::empty(),
    {
        ClientCtx { ui, last_health_unix_ms: None, chat_messages: VecDeque::new() }
    }

    pub fn ui_state(&self) -> (ui: Option<&ClientUiState>)
        ensures
            ui == (match self.ui {
                Some(ref state) => Some(state),
                None => None,
            }),
    {
        match &self.ui {
            Some(state) => Some(state),
            None => None,
        }
    }

    /// Adds a line to the log of the view, or gives it back to be printed.
    pub(crate) fn report(&mut self, line: String) -> (printed: Option<String>)
        requires
            old(self).well_formed(),
        ensures
            final(self).reports(*old(self), printed, line@),
    {
        match &mut self.ui {
            Some(ui) => {
                ui.push_log_line(line);
                None
            },
            None => Some(line),
        }
    }

    pub fn record_ingest(&mut self, bytes: u64, from: String)
        requires
            old(self).well_formed(),
        ensures
            final(self).well_formed(),
            *final(self) == (ClientCtx {
                ui: match old(self).ui {
                    Some(ui) => Some(
                        ClientUiState {
                            ingested_packets: server_ui::wrapped_sum(ui.ingested_packets, 1),
                            ingested_bytes: server_ui::wrapped_sum(ui.ingested_bytes, bytes),
                            last_ingest_from: from,
                            ..ui
                        },
                    ),
                    None => None,
                },
                ..*old(self)
            }),
    {
        if let Some(ui) = &mut self.ui {
            ui.record_ingest(bytes, from);
        }
    }

    /// The view shows a packet that an interface has sent.
    pub open spec fn shows_send(
        self,
        before: ClientCtx,
        interface: Seq<char>,
        bytes: u64,
    ) -> bool {
        &&& self == (ClientCtx { ui: self.ui, ..before })
        &&& match before.ui {
            Some(ui) => {
                &&& self.ui matches Some(after)
                &&& after == (ClientUiState {
                    sent_packets: server_ui::wrapped_sum(ui.sent_packets, 1),
                    sent_bytes: server_ui::wrapped_sum(ui.sent_bytes, bytes),
                    sent_bytes_by_interface: after.sent_bytes_by_interface,
                    paths: after.paths,
                    ..ui
                })
                &&& after.sent_bytes_by_interface@ == ui.sent_bytes_by_interface@.insert(
                    interface,
                    server_ui::wrapped_sum(ui.bytes_sent_over(interface), bytes),
                )
                &&& after.path_rows() == ui.path_rows().insert(
                    interface,
                    ui.rows_of(interface).map_values(
                        |row: PathRowModel| PathRowModel { status: "sending"@, ..row },
                    ),
                )
            },
            None => self.ui is None,
        }
    }

    pub fn record_send(&mut self, interface: String, bytes: u64)
        requires
            old(self).well_formed(),
        ensures
            final(self).well_formed(),
            final(self).shows_send(*old(self), interface@, bytes),
    {
        if let Some(ui) = &mut self.ui {
            ui.record_send(interface, bytes);
        }
    }

    pub fn record_send_error(&mut self, interface: String, error: String)
        requires
            old(self).well_formed(),
        ensures
            final(self).well_formed(),
            final(self).shows_error(*old(self), interface@, error@),
    {
        if let Some(ui) = &mut self.ui {
            ui.record_send_error(interface, error);
        }
    }

    /// The view shows an error of an interface.
    pub open spec fn shows_error(
        self,
        before: ClientCtx,
        interface: Seq<char>,
        error: Seq<char>,
    ) -> bool {
        &&& self == (ClientCtx { ui: self.ui, ..before })
        &&& match before.ui {
            Some(ui) => {
                &&& self.ui matches Some(after)
                &&& after == (ClientUiState {
                    send_errors: server_ui::wrapped_sum(ui.send_errors, 1),
                    paths: after.paths,
                    ..ui
                })
                &&& after.path_rows() == ui.path_rows().insert(
                    interface,
                    ui.rows_of(interface).push(client_ui::error_row(error)),
                )
            },
            None => self.ui is None,
        }
    }

    pub fn set_health_endpoint(&mut self, endpoint: String)
        requires
            old(self).well_formed(),
        ensures
            final(self).well_formed(),
            *final(self) == (ClientCtx {
                ui: match old(self).ui {
                    Some(ui) => Some(ClientUiState { health_endpoint: endpoint, ..ui }),
                    None => None,
                },
                ..*old(self)
            }),
    {
        if let Some(ui) = &mut self.ui {
            ui.set_health_endpoint(endpoint);
        }
    }

    pub fn record_strategy_state(&mut self, mode: String, effective: String)
        requires
            old(self).well_formed(),
        ensures
            final(self).well_formed(),
            *final(self) == (ClientCtx {
                ui: match old(self).ui {
                    Some(ui) => Some(
                        ClientUiState {
                            strategy_mode: mode,
                            effective_strategy: effective,
                            ..ui
                        },
                    ),
                    None => None,
                },
                ..*old(self)
            }),
    {
        if let Some(ui) = &mut self.ui {
            ui.record_strategy_state(mode, effective);
        }
    }

    pub fn record_split_percentages(&mut self, percentages: NameMap<String>)
        requires
            old(self).well_formed(),
            percentages.well_formed(),
        ensures
            final(self).well_formed(),
            *final(self) == (ClientCtx {
                ui: match old(self).ui {
                    Some(ui) => Some(ClientUiState { split_percentages: percentages, ..ui }),
                    None => None,
                },
                ..*old(self)
            }),
    {
        if let Some(ui) = &mut self.ui {
            ui.record_split_percentages(percentages);
        }
    }

    /// The messages that are kept, the oldest first.
    pub fn chat_messages(&self) -> (messages: Vec<ChatMessage>)
        ensures
            messages@ == self.chat_messages@,
    {
        let mut messages: Vec<ChatMessage> = Vec::new();
        for i in 0..self.chat_messages.len()
            invariant
                messages@ == self.chat_messages@.take(i as int),
        {
            messages.push(self.chat_messages[i].clone());
            assert(messages@ =~= self.chat_messages@.take(i + 1));
        }
        assert(self.chat_messages@.take(self.chat_messages@.len() as int)
            =~= self.chat_messages@);
        messages
    }

    /// Keeps messages that are not known yet; the oldest make room.
    fn record_chat_messages(&mut self, messages: &[ChatMessage])
        requires
            old(self).well_formed(),
        ensures
            final(self).well_formed(),
            *final(self) == (ClientCtx { chat_messages: final(self).chat_messages, ..*old(self) }),
            final(self).chat_messages@ == latest(merged(old(self).chat_messages@, messages@)),
    {
        let ghost before = self.chat_messages@;
        assert(messages@.take(0) =~= Seq::<ChatMessage>::empty());
        for i in 0..messages.len()
            invariant
                *self == (ClientCtx { chat_messages: self.chat_messages, ..*old(self) }),
                self.chat_messages@ == merged(before, messages@.take(i as int)),
        {
            assert(messages@.take(i + 1).drop_last() =~= messages@.take(i as int));
            let mut known = false;
            for j in 0..self.chat_messages.len()
                invariant
                    i < messages@.len(),
                    known == (exists|k: int|
                        0 <= k < j && (#[trigger] self.chat_messages@[k]).id
                            == messages@[i as int].id),
            {
                if self.chat_messages[j].id == messages[i].id {
                    known = true;
                }
            }
            assert(known == is_known(self.chat_messages@, messages@[i as int].id));
            if !known {
                self.chat_messages.push_back(messages[i].clone());
            }
        }
        assert(messages@.take(messages@.len() as int) =~= messages@);
        proof {
            lemma_merged(before, messages@);
        }
        let ghost all = self.chat_messages@;
        assert(all.skip(0) =~= all);
        let ghost mut dropped: int = 0;
        while self.chat_messages.len() > MAX_CHAT_MESSAGES
            invariant
                *self == (ClientCtx { chat_messages: self.chat_messages, ..*old(self) }),
                0 <= dropped <= all.len(),
                self.chat_messages@ == all.skip(dropped),
                dropped > 0 ==> all.len() - dropped >= MAX_CHAT_MESSAGES,
            decreases self.chat_messages@.len(),
        {
            let _ = self.chat_messages.pop_front();
            proof {
                dropped = dropped + 1;
                assert(self.chat_messages@ =~= all.skip(dropped));
            }
        }
        assert(self.chat_messages@ =~= latest(all));
    }

    /// Takes up a report of the server, unless it is older than the last; `readings` and `overall`
    /// tell how it is shown.
    pub fn record_health_report(
        &mut self,
        report: &HealthReport,
        readings: &[EndpointReading],
        overall: Option<String>,
        now: u64,
    ) -> (printed: Option<String>)
        requires
            old(self).well_formed(),
        ensures
            final(self).well_formed(),
            match old(self).last_health_unix_ms {
                Some(last) if report.unix_ms < last => final(self).reports(
                    *old(self),
                    printed,
                    stale_line(report.unix_ms, last),
                ),
                _ => {
                    &&& printed is None
                    &&& final(self).last_health_unix_ms == Some(report.unix_ms)
                    &&& final(self).chat_messages@ == latest(
                        merged(old(self).chat_messages@, report.chat@),
                    )
                    &&& match old(self).ui {
                        Some(before) => {
                            &&& final(self).ui matches Some(after)
                            &&& after == (ClientUiState {
                                last_health_received: Some(now),
                                last_health_overall: overall,
                                paths: after.paths,
                                ..before
                            })
                            &&& after.path_rows() == before.path_rows().map_values(
                                |rows: Seq<PathRowModel>|
                                    rows.map_values(
                                        |row: PathRowModel| client_ui::read_row(row, readings@),
                                    ),
                            )
                        },
                        None => final(self).ui is None,
                    }
                },
            },
    {
        if let Some(last) = self.last_health_unix_ms {
            if report.unix_ms < last {
                let mut line = "WARN dropped stale health report unix_ms=".to_owned();
                push_decimal(&mut line, report.unix_ms);
                line.append(" last_unix_ms=");
                push_decimal(&mut line, last);
                return self.report(line);
            }
        }
        self.last_health_unix_ms = Some(report.unix_ms);
        self.record_chat_messages(report.chat.as_slice());
        if let Some(ui) = &mut self.ui {
            ui.record_health_received(now);
            ui.record_endpoint_health(readings, overall);
        }
        None
    }

    /// The view shows the paths of an interface, and lines go to its log, or are printed if there is
    /// no view.
    pub open spec fn shows_paths(
        self,
        before: ClientCtx,
        interface: Seq<char>,
        endpoint_id: Seq<char>,
        paths: Seq<PathInfo>,
        printed: Seq<Seq<char>>,
        lines: Seq<Seq<char>>,
    ) -> bool {
        &&& self == (ClientCtx { ui: self.ui, ..before })
        &&& match before.ui {
            Some(ui) => {
                &&& self.ui matches Some(after)
                &&& after == (ClientUiState { logs: after.logs, paths: after.paths, ..ui })
                &&& text::texts(after.logs@) == all_logged(text::texts(ui.logs@), lines)
                &&& after.path_rows() == ui.path_rows().insert(
                    interface,
                    paths.map_values(|path: PathInfo| path_info::client_row(path, endpoint_id)),
                )
                &&& printed.len() == 0
            },
            None => self.ui is None && printed == lines,
        }
    }

    /// Reports the paths of a connection: those that count go to the log if they are to be
    /// logged, and all of them are shown.
    pub fn record_connection_paths(
        &mut self,
        interface: String,
        endpoint_id: &str,
        paths: &[PathInfo],
        log_paths: bool,
    ) -> (printed: Vec<String>)
        requires
            old(self).well_formed(),
        ensures
            final(self).well_formed(),
            final(self).shows_paths(
                *old(self),
                interface@,
                endpoint_id@,
                paths@,
                text::texts(printed@),
                if log_paths {
                    connection_lines(interface@, paths@)
                } else {
                    Seq::empty()
                },
            ),
    {
        let mut printed: Vec<String> = Vec::new();
        let ghost lines = if log_paths {
            connection_lines(interface@, paths@)
        } else {
            Seq::empty()
        };
        assert(lines.take(0) =~= Seq::<Seq<char>>::empty());
        if log_paths {
            let places = relevant_paths(paths);
            for i in 0..places.len()
                invariant
                    forall|j: int| 0 <= j < places@.len() ==> #[trigger] places@[j] < paths@.len(),
                    lines == connection_lines(interface@, paths@),
                    lines.len() == places@.len(),
                    places@ == path_info::relevant(paths@, path_info::some_selected(paths@)),
                    self.well_formed(),
                    *self == (ClientCtx { ui: self.ui, ..*old(self) }),
                    match old(self).ui {
                        Some(before) => {
                            &&& self.ui matches Some(after)
                            &&& after == (ClientUiState { logs: after.logs, ..before })
                            &&& text::texts(after.logs@) == all_logged(
                                text::texts(before.logs@),
                                lines.take(i as int),
                            )
                            &&& printed@.len() == 0
                        },
                        None => self.ui is None && text::texts(printed@) == lines.take(i as int),
                    },
            {
                let place: usize = places[i];
                let line = connection_text(interface.as_str(), &paths[place]);
                assert(line@ == lines[i as int]);
                assert(lines.take(i + 1).drop_last() =~= lines.take(i as int));
                let ghost earlier = printed@;
                match self.report(line) {
                    Some(line) => {
                        printed.push(line);
                        assert(text::texts(printed@) =~= lines.take(i + 1)) by {
                            assert(text::texts(earlier) =~= lines.take(i as int));
                            assert forall|j: int| 0 <= j < i implies text::texts(printed@)[j]
                                == lines.take(i + 1)[j] by {
                                assert(text::texts(earlier)[j] == lines.take(i as int)[j]);
                            }
                        }
                    },
                    None => {},
                }
            }
        }
        assert(lines.take(lines.len() as int) =~= lines);
        assert(!log_paths ==> text::texts(printed@) =~= lines);
        if let Some(ui) = &mut self.ui {
            ui.record_path(interface, describe_paths(paths, endpoint_id));
        }
        printed
    }

    /// Reports a health report that could not be read.
    pub fn invalid_health_report(&mut self, error: &str) -> (printed: Option<String>)
        requires
            old(self).well_formed(),
        ensures
            final(self).reports(*old(self), printed, "WARN invalid health report error="@ + error@),
    {
        let mut line = "WARN invalid health report error=".to_owned();
        line.append(error);
        self.report(line)
    }

    /// Reports a path that was connected.
    pub fn connected_path(
        &mut self,
        interface: &str,
        endpoint_id: &str,
        local_addr: &str,
    ) -> (printed: Option<String>)
        requires
            old(self).well_formed(),
        ensures
            final(self).reports(
                *old(self),
                printed,
                "INFO connected interface-bound iroh path interface="@ + interface@
                    + " endpoint_id="@ + endpoint_id@ + " local_addr="@ + local_addr@,
            ),
    {
        let mut line = "INFO connected interface-bound iroh path interface=".to_owned();
        line.append(interface);
        line.append(" endpoint_id=");
        line.append(endpoint_id);
        line.append(" local_addr=");
        line.append(local_addr);
        self.report(line)
    }

    /// Reports that the client is ready.
    pub fn client_ready(
        &mut self,
        udp_listen: &str,
        paths: usize,
        health_endpoint: &str,
    ) -> (printed: Option<String>)
        requires
            old(self).well_formed(),
        ensures
            final(self).reports(
                *old(self),
                printed,
                "INFO client ready udp_listen="@ + udp_listen@ + " paths="@
                    + text::decimal(paths as nat) + " health_endpoint="@ + health_endpoint@,
            ),
    {
        let mut line = "INFO client ready udp_listen=".to_owned();
        line.append(udp_listen);
        line.append(" paths=");
        push_decimal(&mut line, paths as u64);
        line.append(" health_endpoint=");
        line.append(health_endpoint);
        self.report(line)
    }

    /// Reports a path over which no more replies come.
    pub fn return_path_closed(&mut self, interface: &str, error: &str) -> (printed: Option<String>)
        requires
            old(self).well_formed(),
        ensures
            final(self).reports(
                *old(self),
                printed,
                "INFO return path closed interface="@ + interface@ + " error="@ + error@,
            ),
    {
        let mut line = "INFO return path closed interface=".to_owned();
        line.append(interface);
        line.append(" error=");
        line.append(error);
        self.report(line)
    }

    /// Reports a reply that could not be forwarded.
    pub fn return_forward_error(
        &mut self,
        interface: &str,
        peer: &str,
        error: &str,
    ) -> (printed: Option<String>)
        requires
            old(self).well_formed(),
        ensures
            final(self).reports(
                *old(self),
                printed,
                "ERROR failed forwarding return packet to local UDP peer interface="@ + interface@
                    + " peer="@ + peer@ + " error="@ + error@,
            ),
    {
        let mut line =
            "ERROR failed forwarding return packet to local UDP peer interface=".to_owned();
        line.append(interface);
        line.append(" peer=");
        line.append(peer);
        line.append(" error=");
        line.append(error);
        self.report(line)
    }

    /// Reports a packet that could not be sent.
    pub fn send_failure(
        &mut self,
        interface: &str,
        seq: u64,
        error: &str,
    ) -> (printed: Option<String>)
        requires
            old(self).well_formed(),
        ensures
            final(self).reports(
                *old(self),
                printed,
                "ERROR failed to send duplicated packet interface="@ + interface@ + " seq="@
                    + text::decimal(seq as nat) + " error="@ + error@,
            ),
    {
        let mut line = "ERROR failed to send duplicated packet interface=".to_owned();
        line.append(interface);
        line.append(" seq=");
        push_decimal(&mut line, seq);
        line.append(" error=");
        line.append(error);
        self.report(line)
    }

    /// Reports a path that could not be connected again.
    pub fn reconnect_failed(&mut self, interface: &str, error: &str) -> (printed: Option<String>)
        requires
            old(self).well_formed(),
        ensures
            final(self).reports(
                *old(self),
                printed,
                "ERROR failed to reconnect path interface="@ + interface@ + " error="@ + error@,
            ),
    {
        let mut line = "ERROR failed to reconnect path interface=".to_owned();
        line.append(interface);
        line.append(" error=");
        line.append(error);
        self.report(line)
    }

    /// Reports a change of strategy.
    pub fn record_strategy_change(
        &mut self,
        strategy: &str,
        reason: &str,
    ) -> (printed: Option<String>)
        requires
            old(self).well_formed(),
        ensures
            final(self).reports(
                *old(self),
                printed,
                "INFO path strategy changed strategy="@ + strategy@ + " reason=\""@ + reason@
                    + "\""@,
            ),
    {
        let mut line = "INFO path strategy changed strategy=".to_owned();
        line.append(strategy);
        line.append(" reason=\"");
        line.append(reason);
        line.append("\"");
        self.report(line)
    }

    /// Reports that the queue of an interface was reset.
    pub fn record_qdisc_reset(
        &mut self,
        interface: &str,
        device: &str,
        backlog_bytes: u64,
        server_mbps: &str,
        qdisc: &str,
    ) -> (printed: Option<String>)
        requires
            old(self).well_formed(),
        ensures
            final(self).reports(
                *old(self),
                printed,
                "WARN reset interface qdisc interface="@ + interface@ + " device="@ + device@
                    + " qdisc="@ + qdisc@ + " backlog_bytes="@
                    + text::decimal(backlog_bytes as nat) + " server_mbps="@ + server_mbps@,
            ),
    {
        let mut line = "WARN reset interface qdisc interface=".to_owned();
        line.append(interface);
        line.append(" device=");
        line.append(device);
        line.append(" qdisc=");
        line.append(qdisc);
        line.append(" backlog_bytes=");
        push_decimal(&mut line, backlog_bytes);
        line.append(" server_mbps=");
        line.append(server_mbps);
        self.report(line)
    }

    /// Reports that the queue of an interface could not be reset.
    pub fn record_qdisc_reset_failed(
        &mut self,
        interface: &str,
        device: &str,
        backlog_bytes: u64,
        server_mbps: &str,
        error: &str,
    ) -> (printed: Option<String>)
        requires
            old(self).well_formed(),
        ensures
            final(self).reports(
                *old(self),
                printed,
                "ERROR failed resetting interface qdisc interface="@ + interface@ + " device="@
                    + device@ + " backlog_bytes="@ + text::decimal(backlog_bytes as nat)
                    + " server_mbps="@ + server_mbps@ + " error="@ + error@,
            ),
    {
        let mut line = "ERROR failed resetting interface qdisc interface=".to_owned();
        line.append(interface);
        line.append(" device=");
        line.append(device);
        line.append(" backlog_bytes=");
        push_decimal(&mut line, backlog_bytes);
        line.append(" server_mbps=");
        line.append(server_mbps);
        line.append(" error=");
        line.append(error);
        self.report(line)
    }

    /// Reports that the remote control is ready.
    pub fn record_remote_ready(
        &mut self,
        adapter: &str,
        name: &str,
        service_uuid: &str,
        status_uuid: &str,
        control_uuid: &str,
    ) -> (printed: Option<String>)
        requires
            old(self).well_formed(),
        ensures
            final(self).reports(
                *old(self),
                printed,
                "INFO remote BLE control ready adapter="@ + adapter@ + " name="@ + name@
                    + " service="@ + service_uuid@ + " status="@ + status_uuid@ + " control="@
                    + control_uuid@,
            ),
    {
        let mut line = "INFO remote BLE control ready adapter=".to_owned();
        line.append(adapter);
        line.append(" name=");
        line.append(name);
        line.append(" service=");
        line.append(service_uuid);
        line.append(" status=");
        line.append(status_uuid);
        line.append(" control=");
        line.append(control_uuid);
        self.report(line)
    }
}

/// The line for a path of a connection.
fn connection_text(interface: &str, path: &PathInfo) -> (line: String)
    ensures
        line@ == connection_line(interface@, *path),
{
    let mut line = "INFO connection path interface=".to_owned();
    line.append(interface);
    line.append(" selected=");
    line.append(bool_text(path.selected));
    line.append(" closed=");
    line.append(bool_text(path.closed));
    line.append(" transport=");
    line.append(transport_kind(path));
    line.append(" remote_addr=");
    line.append(path.remote_addr.as_str());
    line
}

/// The word for a truth value.
fn bool_text(value: bool) -> (word: &'static str)
    ensures
        word@ == server_ctx::bool_word(value),
{
    if value {
        "true"
    } else {
        "false"
    }
}

} // verus!
