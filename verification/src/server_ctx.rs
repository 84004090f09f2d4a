//! What the server reports: to its own view of its state if there is one, and as lines of text
//! otherwise.

use crate::reorder::ReorderAction;
use crate::reorder_model::{ActionModel, SkipReason};
use crate::server_ui;
use crate::server_ui::{ConnectionModel, PathRow, PathRowModel, ServerUiState};
use crate::text;
use crate::text::push_decimal;
use vstd::prelude::*;

verus! {

/// Where the server reports to.
pub struct ServerCtx {
    pub ui: Option<ServerUiState>,
}

impl Default for ServerCtx {
    /// A server without a view of its state.
    fn default() -> (ctx: ServerCtx)
        ensures
            ctx.ui is None,
    {
        ServerCtx { ui: None }
    }
}

/// The word for a truth value.
pub open spec fn bool_word(value: bool) -> Seq<char> {
    if value {
        "true"@
    } else {
        "false"@
    }
}

/// The line for a path of a connection.
pub open spec fn path_line(remote: Seq<char>, row: PathRowModel) -> Seq<char> {
    "INFO connection path remote="@ + remote + " selected="@ + bool_word(row.selected) + " status="@
        + row.status + " transport="@ + row.transport + " path="@ + row.remote_addr
}

/// The line for a packet that was given up.
pub open spec fn skip_line(reason: SkipReason, sequence: u64, next_seq: u64) -> Seq<char> {
    (match reason {
        SkipReason::NeverReceived => "WARN skipped never-received packet sequence="@,
        SkipReason::FragmentIncomplete => "WARN skipped incomplete fragmented packet sequence="@,
    }) + text::decimal(sequence as nat) + " next_seq="@ + text::decimal(next_seq as nat)
}

/// The line for a packet that came after it was given up.
pub open spec fn late_line(sequence: u64, next_seq: u64) -> Seq<char> {
    "WARN received stale packet after skip sequence="@ + text::decimal(sequence as nat)
        + " next_seq="@ + text::decimal(next_seq as nat)
}

/// The line for a flow that starts over.
pub open spec fn reset_line(next_seq: u64, reason: Seq<char>) -> Seq<char> {
    "WARN reset packet reorder flow next_seq="@ + text::decimal(next_seq as nat) + " reason=\""@
        + reason + "\""@
}

/// The line for a payload that was recovered.
pub open spec fn recovered_line(sequence: u64, bytes: u64) -> Seq<char> {
    "INFO fec recovered packet sequence="@ + text::decimal(sequence as nat) + " bytes="@
        + text::decimal(bytes as nat)
}

/// The text of a line, if there is one.
pub open spec fn line_text(line: Option<String>) -> Option<Seq<char>> {
    match line {
        Some(text) => Some(text@),
        None => None,
    }
}

impl ServerCtx {
    /// The view is `after`, and nothing is printed; without a view, `line` is printed.
    pub open spec fn reports(
        self,
        before: ServerCtx,
        printed: Option<String>,
        after: spec_fn(ServerUiState) -> ServerUiState,
        line: Option<Seq<char>>,
    ) -> bool {
        match before.ui {
            Some(ui) => self.ui == Some(after(ui)) && printed is None,
            None => self.ui is None && line_text(printed) == line,
        }
    }

    pub fn new(ui: Option<ServerUiState>) -> (ctx: ServerCtx)
        ensures
            ctx.ui == ui,
    {
        ServerCtx { ui }
    }

    pub fn ui_state(&self) -> (ui: Option<&ServerUiState>)
        ensures
            ui == (match self.ui {
                Some(ref state) => Some(state),
                None => None,
            }),
    {
        match &self.ui {
            Some(state) => Some(state),
            None => None,
        }
    }

    pub fn set_endpoint(&mut self, endpoint: String) -> (line: Option<String>)
        ensures
            final(self).reports(
                *old(self),
                line,
                |ui: ServerUiState| ServerUiState { endpoint, ..ui },
                Some("INFO server endpoint endpoint="@ + endpoint@),
            ),
    {
        match &mut self.ui {
            Some(ui) => {
                ui.set_endpoint(endpoint);
                None
            },
            None => {
                let mut text = "INFO server endpoint endpoint=".to_owned();
                text.append(endpoint.as_str());
                Some(text)
            },
        }
    }

    pub fn set_server_addrs(&mut self, addrs: Vec<String>) -> (lines: Vec<String>)
        ensures
            match old(self).ui {
                Some(ui) => {
                    &&& final(self).ui == Some(ServerUiState { server_addrs: addrs, ..ui })
                    &&& lines@.len() == 0
                },
                None => {
                    &&& final(self).ui is None
                    &&& lines@.len() == addrs@.len()
                    &&& forall|i: int|
                        0 <= i < lines@.len() ==> (#[trigger] lines@[i])@ == "INFO "@ + addrs@[i]@
                },
            },
    {
        let mut lines: Vec<String> = Vec::new();
        match &mut self.ui {
            Some(ui) => {
                ui.set_server_addrs(addrs);
            },
            None => {
                for i in 0..addrs.len()
                    invariant
                        lines@.len() == i,
                        forall|j: int|
                            0 <= j < i ==> (#[trigger] lines@[j])@ == "INFO "@ + addrs@[j]@,
                {
                    let mut line = "INFO ".to_owned();
                    line.append(addrs[i].as_str());
                    lines.push(line);
                }
            },
        }
        lines
    }

    pub fn set_ticket(&mut self, ticket: Option<String>) -> (line: Option<String>)
        ensures
            final(self).reports(
                *old(self),
                line,
                |ui: ServerUiState| ServerUiState { ticket, ..ui },
                (match ticket {
                    Some(text) => Some("INFO server ticket ticket="@ + text@),
                    None => None,
                }),
            ),
    {
        match &mut self.ui {
            Some(ui) => {
                ui.set_ticket(ticket);
                None
            },
            None => match ticket {
                Some(ticket) => {
                    let mut text = "INFO server ticket ticket=".to_owned();
                    text.append(ticket.as_str());
                    Some(text)
                },
                None => None,
            },
        }
    }

    pub fn set_health_endpoint(&mut self, endpoint: Option<String>) -> (line: Option<String>)
        ensures
            match old(self).ui {
                Some(before) => {
                    &&& final(self).ui matches Some(after)
                    &&& after.health_endpoint@ == (match endpoint {
                        Some(text) => text@,
                        None => "-"@,
                    })
                    &&& after == (ServerUiState {
                        health_endpoint: after.health_endpoint,
                        ..before
                    })
                    &&& line is None
                },
                None => {
                    &&& final(self).ui is None
                    &&& line_text(line) == (match endpoint {
                        Some(text) => Some("INFO health endpoint endpoint="@ + text@),
                        None => None,
                    })
                },
            },
    {
        match &mut self.ui {
            Some(ui) => {
                ui.set_health_endpoint(endpoint);
                None
            },
            None => match endpoint {
                Some(endpoint) => {
                    let mut text = "INFO health endpoint endpoint=".to_owned();
                    text.append(endpoint.as_str());
                    Some(text)
                },
                None => None,
            },
        }
    }

    /// Reports the paths of a connection.
    pub fn record_connection(&mut self, remote: String, rows: Vec<PathRow>) -> (lines: Vec<String>)
        requires
            old(self).ui matches Some(ui) ==> ui.well_formed(),
        ensures
            match old(self).ui {
                Some(before) => {
                    &&& final(self).ui matches Some(after)
                    &&& after.updates_connection(
                        before,
                        remote@,
                        ConnectionModel {
                            paths: server_ui::row_models(rows@),
                            last_activity: server_ui::wrapped_sum(
                                before.connection_activity_counter,
                                1,
                            ),
                            ..before.connection(remote@)
                        },
                    )
                    &&& after == (ServerUiState {
                        connection_activity_counter: server_ui::wrapped_sum(
                            before.connection_activity_counter,
                            1,
                        ),
                        connections: after.connections,
                        ..before
                    })
                    &&& lines@.len() == 0
                },
                None => {
                    &&& final(self).ui is None
                    &&& lines@.len() == rows@.len()
                    &&& forall|i: int|
                        0 <= i < lines@.len() ==> (#[trigger] lines@[i])@ == path_line(
                            remote@,
                            rows@[i]@,
                        )
                },
            },
    {
        let mut lines: Vec<String> = Vec::new();
        match &mut self.ui {
            Some(ui) => {
                ui.record_connection(remote, rows);
            },
            None => {
                for i in 0..rows.len()
                    invariant
                        lines@.len() == i,
                        forall|j: int|
                            0 <= j < i ==> (#[trigger] lines@[j])@ == path_line(
                                remote@,
                                rows@[j]@,
                            ),
                {
                    let mut line = "INFO connection path remote=".to_owned();
                    line.append(remote.as_str());
                    line.append(" selected=");
                    if rows[i].selected {
                        line.append("true");
                    } else {
                        line.append("false");
                    }
                    line.append(" status=");
                    line.append(rows[i].status.as_str());
                    line.append(" transport=");
                    line.append(rows[i].transport.as_str());
                    line.append(" path=");
                    line.append(rows[i].remote_addr.as_str());
                    lines.push(line);
                }
            },
        }
        lines
    }

    /// The view shows that the connections of a client were closed; without a view, a line is
    /// printed.
    pub open spec fn disconnects(
        self,
        before: ServerCtx,
        remote: Seq<char>,
        error: Seq<char>,
        printed: Option<String>,
    ) -> bool {
        match before.ui {
            Some(ui) => {
                &&& self.ui matches Some(after)
                &&& after.updates_connection(
                    ui,
                    remote,
                    ConnectionModel {
                        last_error: Some(error),
                        paths: ui.connection(remote).paths.map_values(
                            |row: PathRowModel|
                                PathRowModel { status: server_ui::closed_status(error), ..row },
                        ),
                        last_activity: server_ui::wrapped_sum(ui.connection_activity_counter, 1),
                        ..ui.connection(remote)
                    },
                )
                &&& after == (ServerUiState {
                    connection_activity_counter: server_ui::wrapped_sum(
                        ui.connection_activity_counter,
                        1,
                    ),
                    connections: after.connections,
                    ..ui
                })
                &&& printed is None
            },
            None => {
                &&& self.ui is None
                &&& line_text(printed) == Some(
                    "ERROR connection closed remote="@ + remote + " error="@ + error,
                )
            },
        }
    }

    /// Reports a connection that was closed.
    pub fn record_disconnect(&mut self, remote: String, error: String) -> (line: Option<String>)
        requires
            old(self).ui matches Some(ui) ==> ui.well_formed(),
        ensures
            final(self).disconnects(*old(self), remote@, error@, line),
    {
        match &mut self.ui {
            Some(ui) => {
                ui.record_disconnect(remote, error);
                None
            },
            None => {
                let mut text = "ERROR connection closed remote=".to_owned();
                text.append(remote.as_str());
                text.append(" error=");
                text.append(error.as_str());
                Some(text)
            },
        }
    }

    /// The view counts a connection that was reset; without a view, a line is printed.
    pub open spec fn resets(
        self,
        before: ServerCtx,
        remote: Seq<char>,
        error: Seq<char>,
        printed: Option<String>,
    ) -> bool {
        self.reports(
            before,
            printed,
            |ui: ServerUiState| ServerUiState {
                connection_resets: server_ui::wrapped_sum(ui.connection_resets, 1),
                ..ui
            },
            Some("WARN connection reset remote="@ + remote + " error="@ + error),
        )
    }

    pub fn record_connection_reset(&mut self, remote: &str, error: &str) -> (line: Option<String>)
        ensures
            final(self).resets(*old(self), remote@, error@, line),
    {
        match &mut self.ui {
            Some(ui) => {
                ui.record_connection_reset();
                None
            },
            None => {
                let mut text = "WARN connection reset remote=".to_owned();
                text.append(remote);
                text.append(" error=");
                text.append(error);
                Some(text)
            },
        }
    }

    /// The view counts a packet that a connection received.
    pub open spec fn receives(
        self,
        before: ServerCtx,
        remote: Seq<char>,
        bytes: u64,
        sequence: u64,
    ) -> bool {
        match before.ui {
            Some(ui) => {
                &&& self.ui matches Some(after)
                &&& after.updates_connection(
                    ui,
                    remote,
                    server_ui::received_on(
                        ui.connection(remote),
                        bytes,
                        sequence,
                        server_ui::wrapped_sum(ui.connection_activity_counter, 1),
                    ),
                )
                &&& after == (ServerUiState {
                    connection_activity_counter: server_ui::wrapped_sum(
                        ui.connection_activity_counter,
                        1,
                    ),
                    connections: after.connections,
                    ..ui
                })
            },
            None => self.ui is None,
        }
    }

    /// Counts a packet that a connection received.
    pub fn record_connection_receive(&mut self, remote: &str, bytes: u64, sequence: u64)
        requires
            old(self).ui matches Some(ui) ==> ui.well_formed(),
        ensures
            final(self).receives(*old(self), remote@, bytes, sequence),
    {
        if let Some(ui) = &mut self.ui {
            ui.record_connection_receive(remote, bytes, sequence);
        }
    }

    pub fn record_received(&mut self, bytes: u64)
        ensures
            match old(self).ui {
                Some(before) => final(self).ui == Some(
                    ui_after(before, ActionModel::Received { bytes }),
                ),
                None => final(self).ui is None,
            },
    {
        if let Some(ui) = &mut self.ui {
            ui.record_received(bytes);
        }
    }

    pub fn record_forwarded(&mut self, bytes: u64, buffered: u64, forwarded_seq: u64, next_seq: u64)
        ensures
            match old(self).ui {
                Some(before) => final(self).ui == Some(
                    ui_forwarded(before, bytes, buffered, forwarded_seq, next_seq),
                ),
                None => final(self).ui is None,
            },
    {
        if let Some(ui) = &mut self.ui {
            ui.record_forwarded(bytes, buffered, forwarded_seq, next_seq);
        }
    }

    pub fn record_duplicate(&mut self, buffered: u64, next_seq: u64)
        ensures
            match old(self).ui {
                Some(before) => final(self).ui == Some(
                    ui_after(before, ActionModel::Duplicate { buffered, next_seq }),
                ),
                None => final(self).ui is None,
            },
    {
        if let Some(ui) = &mut self.ui {
            ui.record_duplicate(buffered, next_seq);
        }
    }

    pub fn record_never_received_skip(
        &mut self,
        skipped_seq: u64,
        buffered: u64,
        next_seq: u64,
    ) -> (line: Option<String>)
        ensures
            final(self).reports(
                *old(self),
                line,
                |ui: ServerUiState| ui_after(
                    ui,
                    ActionModel::Skipped {
                        reason: SkipReason::NeverReceived,
                        sequence: skipped_seq,
                        buffered,
                        next_seq,
                    },
                ),
                Some(skip_line(SkipReason::NeverReceived, skipped_seq, next_seq)),
            ),
    {
        match &mut self.ui {
            Some(ui) => {
                ui.record_never_received_skip(buffered, next_seq);
                None
            },
            None => {
                let mut text = "WARN skipped never-received packet sequence=".to_owned();
                push_decimal(&mut text, skipped_seq);
                text.append(" next_seq=");
                push_decimal(&mut text, next_seq);
                Some(text)
            },
        }
    }

    pub fn record_fragment_incomplete_skip(
        &mut self,
        skipped_seq: u64,
        buffered: u64,
        next_seq: u64,
    ) -> (line: Option<String>)
        ensures
            final(self).reports(
                *old(self),
                line,
                |ui: ServerUiState| ui_after(
                    ui,
                    ActionModel::Skipped {
                        reason: SkipReason::FragmentIncomplete,
                        sequence: skipped_seq,
                        buffered,
                        next_seq,
                    },
                ),
                Some(skip_line(SkipReason::FragmentIncomplete, skipped_seq, next_seq)),
            ),
    {
        match &mut self.ui {
            Some(ui) => {
                ui.record_fragment_incomplete_skip(buffered, next_seq);
                None
            },
            None => {
                let mut text = "WARN skipped incomplete fragmented packet sequence=".to_owned();
                push_decimal(&mut text, skipped_seq);
                text.append(" next_seq=");
                push_decimal(&mut text, next_seq);
                Some(text)
            },
        }
    }

    pub fn record_late_after_skip(
        &mut self,
        sequence: u64,
        buffered: u64,
        next_seq: u64,
    ) -> (line: Option<String>)
        ensures
            final(self).reports(
                *old(self),
                line,
                |ui: ServerUiState| ui_after(
                    ui,
                    ActionModel::LateAfterSkip { sequence, buffered, next_seq },
                ),
                Some(late_line(sequence, next_seq)),
            ),
    {
        match &mut self.ui {
            Some(ui) => {
                ui.record_late_after_skip(buffered, next_seq);
                None
            },
            None => {
                let mut text = "WARN received stale packet after skip sequence=".to_owned();
                push_decimal(&mut text, sequence);
                text.append(" next_seq=");
                push_decimal(&mut text, next_seq);
                Some(text)
            },
        }
    }

    /// The view counts a packet that could not be read; without a view, a line is printed.
    pub open spec fn rejects(self, before: ServerCtx, printed: Option<String>) -> bool {
        self.reports(
            before,
            printed,
            |ui: ServerUiState| ServerUiState {
                invalid_packets: server_ui::wrapped_sum(ui.invalid_packets, 1),
                ..ui
            },
            Some("WARN invalid packet"@),
        )
    }

    pub fn record_invalid(&mut self) -> (line: Option<String>)
        ensures
            final(self).rejects(*old(self), line),
    {
        match &mut self.ui {
            Some(ui) => {
                ui.record_invalid();
                None
            },
            None => {
                Some("WARN invalid packet".to_owned())
            },
        }
    }

    pub fn record_buffered(&mut self, buffered: u64, next_seq: u64)
        ensures
            match old(self).ui {
                Some(before) => final(self).ui == Some(
                    ui_after(before, ActionModel::Buffered { buffered, next_seq }),
                ),
                None => final(self).ui is None,
            },
    {
        if let Some(ui) = &mut self.ui {
            ui.record_buffered(buffered, next_seq);
        }
    }

    pub fn set_flow_start(&mut self, next_seq: u64)
        ensures
            match old(self).ui {
                Some(before) => final(self).ui == Some(
                    ui_after(before, ActionModel::FlowStart { next_seq }),
                ),
                None => final(self).ui is None,
            },
    {
        if let Some(ui) = &mut self.ui {
            ui.set_flow_start(next_seq);
        }
    }

    pub fn record_flow_reset(&mut self, next_seq: u64, reason: &str) -> (line: Option<String>)
        ensures
            final(self).reports(
                *old(self),
                line,
                |ui: ServerUiState| ui_after(ui, ActionModel::FlowReset { next_seq }),
                Some(reset_line(next_seq, reason@)),
            ),
    {
        match &mut self.ui {
            Some(ui) => {
                ui.set_flow_start(next_seq);
                ui.record_flow_reset();
                None
            },
            None => {
                let mut text = "WARN reset packet reorder flow next_seq=".to_owned();
                push_decimal(&mut text, next_seq);
                text.append(" reason=\"");
                text.append(reason);
                text.append("\"");
                Some(text)
            },
        }
    }

    pub fn record_send_pressure_drop(&mut self, remote: &str, error: &str) -> (line: Option<String>)
        ensures
            final(self).reports(
                *old(self),
                line,
                |ui: ServerUiState| ServerUiState {
                    send_pressure_drops: server_ui::wrapped_sum(ui.send_pressure_drops, 1),
                    ..ui
                },
                Some("WARN dropped return datagram remote="@ + remote@ + " error="@ + error@),
            ),
    {
        match &mut self.ui {
            Some(ui) => {
                ui.record_send_pressure_drop();
                None
            },
            None => {
                let mut text = "WARN dropped return datagram remote=".to_owned();
                text.append(remote);
                text.append(" error=");
                text.append(error);
                Some(text)
            },
        }
    }

    pub fn record_repair_request(&mut self, sequence: u64, missing_mask: u8)
        ensures
            match old(self).ui {
                Some(before) => final(self).ui == Some(
                    ServerUiState {
                        repair_requests: server_ui::wrapped_sum(before.repair_requests, 1),
                        ..before
                    },
                ),
                None => final(self).ui is None,
            },
    {
        if let Some(ui) = &mut self.ui {
            ui.record_repair_request();
        }
    }

    pub fn record_fec_recovered(&mut self, sequence: u64, bytes: u64) -> (line: Option<String>)
        ensures
            final(self).reports(
                *old(self),
                line,
                |ui: ServerUiState| ui_after(ui, ActionModel::FecRecovered { sequence, bytes }),
                Some(recovered_line(sequence, bytes)),
            ),
    {
        match &mut self.ui {
            Some(ui) => {
                ui.record_fec_recovered();
                None
            },
            None => {
                let mut text = "INFO fec recovered packet sequence=".to_owned();
                push_decimal(&mut text, sequence);
                text.append(" bytes=");
                push_decimal(&mut text, bytes);
                Some(text)
            },
        }
    }

    /// Reports an action of the reordering. A payload is reported once it has been forwarded.
    pub fn record_action(&mut self, action: &ReorderAction) -> (line: Option<String>)
        ensures
            final(self).reports(
                *old(self),
                line,
                |ui: ServerUiState| ui_after(ui, action@),
                action_line(action@),
            ),
    {
        match action {
            ReorderAction::Received { bytes } => {
                self.record_received(*bytes);
                None
            },
            ReorderAction::ReplyRoute { .. } => None,
            ReorderAction::FlowStart { next_seq } => {
                self.set_flow_start(*next_seq);
                None
            },
            ReorderAction::FlowReset { next_seq } => self.record_flow_reset(
                *next_seq,
                "confirmed sequence restart",
            ),
            ReorderAction::LateAfterSkip { sequence, buffered, next_seq } =>
                self.record_late_after_skip(*sequence, *buffered, *next_seq),
            ReorderAction::Duplicate { buffered, next_seq } => {
                self.record_duplicate(*buffered, *next_seq);
                None
            },
            ReorderAction::Buffered { buffered, next_seq } => {
                self.record_buffered(*buffered, *next_seq);
                None
            },
            ReorderAction::Forward { sequence, payload, buffered, next_seq } => {
                self.record_forwarded(payload.len() as u64, *buffered, *sequence, *next_seq);
                None
            },
            ReorderAction::FecRecovered { sequence, bytes } => self.record_fec_recovered(
                *sequence,
                *bytes,
            ),
            ReorderAction::Repair { request } => {
                self.record_repair_request(request.sequence, request.missing_mask);
                None
            },
            ReorderAction::Skipped { reason, sequence, buffered, next_seq } => match reason {
                SkipReason::NeverReceived => self.record_never_received_skip(
                    *sequence,
                    *buffered,
                    *next_seq,
                ),
                SkipReason::FragmentIncomplete => self.record_fragment_incomplete_skip(
                    *sequence,
                    *buffered,
                    *next_seq,
                ),
            },
        }
    }
}

/// The view of the server's state after a payload was forwarded.
pub open spec fn ui_forwarded(
    ui: ServerUiState,
    bytes: u64,
    buffered: u64,
    sequence: u64,
    next_seq: u64,
) -> ServerUiState {
    ServerUiState {
        forwarded_packets: server_ui::wrapped_sum(ui.forwarded_packets, 1),
        forwarded_bytes: server_ui::wrapped_sum(ui.forwarded_bytes, bytes),
        buffered_packets: buffered,
        last_forwarded_seq: sequence,
        next_seq,
        ..ui
    }
}

/// The view of the server's state after an action of the reordering.
pub open spec fn ui_after(ui: ServerUiState, action: ActionModel) -> ServerUiState {
    match action {
        ActionModel::Received { bytes } => ServerUiState {
            received_packets: server_ui::wrapped_sum(ui.received_packets, 1),
            received_bytes: server_ui::wrapped_sum(ui.received_bytes, bytes),
            ..ui
        },
        ActionModel::ReplyRoute { .. } => ui,
        ActionModel::FlowStart { next_seq } => ServerUiState { next_seq, ..ui },
        ActionModel::FlowReset { next_seq } => ServerUiState {
            next_seq,
            flow_resets: server_ui::wrapped_sum(ui.flow_resets, 1),
            ..ui
        },
        ActionModel::LateAfterSkip { buffered, next_seq, .. } => ServerUiState {
            late_after_skip_packets: server_ui::wrapped_sum(ui.late_after_skip_packets, 1),
            buffered_packets: buffered,
            next_seq,
            ..ui
        },
        ActionModel::Duplicate { buffered, next_seq } => ServerUiState {
            duplicate_packets: server_ui::wrapped_sum(ui.duplicate_packets, 1),
            buffered_packets: buffered,
            next_seq,
            ..ui
        },
        ActionModel::Buffered { buffered, next_seq } => ServerUiState {
            buffered_packets: buffered,
            next_seq,
            ..ui
        },
        ActionModel::Forward { sequence, payload, buffered, next_seq } => ui_forwarded(
            ui,
            payload.len() as u64,
            buffered,
            sequence,
            next_seq,
        ),
        ActionModel::FecRecovered { .. } => ServerUiState {
            fec_recovered_packets: server_ui::wrapped_sum(ui.fec_recovered_packets, 1),
            ..ui
        },
        ActionModel::Repair { .. } => ServerUiState {
            repair_requests: server_ui::wrapped_sum(ui.repair_requests, 1),
            ..ui
        },
        ActionModel::Skipped { reason: SkipReason::NeverReceived, buffered, next_seq, .. } =>
            ServerUiState {
            skipped_packets: server_ui::wrapped_sum(ui.skipped_packets, 1),
            skipped_never_received_packets: server_ui::wrapped_sum(
                ui.skipped_never_received_packets,
                1,
            ),
            buffered_packets: buffered,
            next_seq,
            ..ui
        },
        ActionModel::Skipped { reason: SkipReason::FragmentIncomplete, buffered, next_seq, .. } =>
            ServerUiState {
            skipped_packets: server_ui::wrapped_sum(ui.skipped_packets, 1),
            fragment_incomplete_packets: server_ui::wrapped_sum(
                ui.fragment_incomplete_packets,
                1,
            ),
            buffered_packets: buffered,
            next_seq,
            ..ui
        },
    }
}

/// The line for an action of the reordering, if there is one.
pub open spec fn action_line(action: ActionModel) -> Option<Seq<char>> {
    match action {
        ActionModel::FlowReset { next_seq } => Some(
            reset_line(next_seq, "confirmed sequence restart"@),
        ),
        ActionModel::LateAfterSkip { sequence, next_seq, .. } => Some(
            late_line(sequence, next_seq),
        ),
        ActionModel::FecRecovered { sequence, bytes } => Some(recovered_line(sequence, bytes)),
        ActionModel::Skipped { reason, sequence, next_seq, .. } => Some(
            skip_line(reason, sequence, next_seq),
        ),
        _ => None,
    }
}

/// The bytes of some packets, each with its sequence number.
pub open spec fn total_bytes(packets: Seq<(u64, u64)>) -> nat
    decreases packets.len(),
{
    if packets.len() == 0 {
        0
    } else {
        total_bytes(packets.drop_last()) + packets.last().0 as nat
    }
}

/// However many packets a connection receives, its packets and bytes are counted one by one, its
/// last sequence number is that of the last packet, its greatest is the greatest of all, and no
/// error is left. What is known of other connections stays, and a server without a view of its
/// state keeps none. Each packet has its bytes and its sequence number; the counts do not wrap
/// around.
pub proof fn law_receives_add_up(
    states: Seq<ServerCtx>,
    remote: Seq<char>,
    packets: Seq<(u64, u64)>,
)
    requires
        packets.len() > 0,
        states.len() == packets.len() + 1,
        forall|i: int|
            0 <= i < packets.len() ==> states[i + 1].receives(
                states[i],
                remote,
                (#[trigger] packets[i]).0,
                packets[i].1,
            ),
        states[0].ui matches Some(ui) ==> ui.connection(remote).received_packets + packets.len()
            <= u64::MAX && ui.connection(remote).received_bytes + total_bytes(packets) <= u64::MAX,
    ensures
        match states[0].ui {
            Some(ui) => {
                let before = ui.connection(remote);
                &&& states.last().ui matches Some(after)
                &&& ({
                    let now = after.connection(remote);
                    &&& now.received_packets == before.received_packets + packets.len()
                    &&& now.received_bytes == before.received_bytes + total_bytes(packets)
                    &&& now.last_seq == Some(packets.last().1)
                    &&& now.last_error is None
                    &&& now.max_seq matches Some(greatest) && (forall|i: int|
                        0 <= i < packets.len() ==> (#[trigger] packets[i]).1 <= greatest) && (
                    before.max_seq matches Some(held) ==> held <= greatest) && (before.max_seq
                        == Some(greatest) || exists|i: int|
                        0 <= i < packets.len() && (#[trigger] packets[i]).1 == greatest)
                })
                &&& after.connections@.dom() == ui.connections@.dom().insert(remote)
                &&& forall|other: Seq<char>|
                    other != remote && ui.connections@.contains_key(other)
                        ==> after.connections@[other] == #[trigger] ui.connections@[other]
            },
            None => states.last().ui is None,
        },
    decreases packets.len(),
{
    let n = packets.len() as int;
    let last = packets[n - 1];
    assert(states[n - 1 + 1].receives(states[n - 1], remote, last.0, last.1));
    if n > 1 {
        let earlier = packets.drop_last();
        let older = states.drop_last();
        assert forall|i: int| 0 <= i < earlier.len() implies older[i + 1].receives(
            older[i],
            remote,
            (#[trigger] earlier[i]).0,
            earlier[i].1,
        ) by {
            assert(packets[i] == earlier[i]);
        }
        law_receives_add_up(older, remote, earlier);
        if let Some(ui) = states[0].ui {
            let middle = older.last().ui->0;
            let after = states.last().ui->0;
            let greatest = after.connection(remote).max_seq->0;
            let held = middle.connection(remote).max_seq->0;
            assert forall|i: int| 0 <= i < packets.len() implies (#[trigger] packets[i]).1
                <= greatest by {
                if i < n - 1 {
                    assert(earlier[i].1 <= held);
                }
            }
            if greatest == last.1 {
                assert(packets[n - 1].1 == greatest);
            } else if ui.connection(remote).max_seq != Some(greatest) {
                let i = choose|i: int|
                    0 <= i < earlier.len() && (#[trigger] earlier[i]).1 == greatest;
                assert(packets[i].1 == greatest);
            }
            assert forall|other: Seq<char>|
                other != remote && ui.connections@.contains_key(
                    other,
                ) implies after.connections@[other] == #[trigger] ui.connections@[other] by {
                assert(middle.connections@.contains_key(other));
                assert(middle.connections@[other] == ui.connections@[other]);
            }
            assert(after.connections@.dom() =~= ui.connections@.dom().insert(remote));
        }
    } else {
        assert(packets.drop_last() =~= Seq::empty());
        assert(total_bytes(packets.drop_last()) == 0);
        if let Some(ui) = states[0].ui {
            let after = states.last().ui->0;
            assert(packets[0].1 <= after.connection(remote).max_seq->0);
        }
    }
}

} // verus!
