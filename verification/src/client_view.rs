//! The lines and tables that show the state of the client.

use crate::client_ui;
use crate::client_ui::{ClientUiState, PathRow, PathRowModel, SHOWN_LOG_LINES};
use crate::name_map::NameMap;
use crate::server_view;
use crate::server_view::{labelled, rate_text, selected_cell, text_cell};
use crate::text;
use crate::text::{
    fmt_uptime, join, push_decimal, push_padded, push_padded_decimal, short_endpoint,
};
use vstd::prelude::*;

verus! {

/// The lines that tell who the client is.
pub open spec fn overview(ui: ClientUiState, uptime_secs: u64, last_health: Seq<char>) -> Seq<
    Seq<char>,
> {
    seq![
        "uptime "@ + text::uptime_text(uptime_secs),
        "server "@ + ui.server_endpoint@,
        "health "@ + ui.health_endpoint@,
        "port "@ + text::decimal(ui.port as nat) + "  interfaces "@ + text::joined(
            text::texts(ui.interfaces@),
            ", "@,
        ),
        "last ingest from "@ + ui.last_ingest_from@,
        "last health "@ + last_health,
        "health "@ + (match ui.last_health_overall {
            Some(overall) => overall@,
            None => "-"@,
        }),
    ]
}

/// The lines that tell who the client is; `last_health` tells how long ago it heard of the server.
pub fn overview_lines(ui: &ClientUiState, uptime_secs: u64, last_health: &str) -> (lines: Vec<
    String,
>)
    ensures
        text::texts(lines@) == overview(*ui, uptime_secs, last_health@),
{
    let mut lines: Vec<String> = Vec::new();
    lines.push(labelled("uptime ", fmt_uptime(uptime_secs).as_str()));
    lines.push(labelled("server ", ui.server_endpoint.as_str()));
    lines.push(labelled("health ", ui.health_endpoint.as_str()));
    let mut port = "port ".to_owned();
    push_decimal(&mut port, ui.port as u64);
    port.append("  interfaces ");
    port.append(join(ui.interfaces.as_slice(), ", ").as_str());
    lines.push(port);
    lines.push(labelled("last ingest from ", ui.last_ingest_from.as_str()));
    lines.push(labelled("last health ", last_health));
    lines.push(
        match &ui.last_health_overall {
            Some(overall) => labelled("health ", overall.as_str()),
            None => labelled("health ", "-"),
        },
    );
    assert(text::texts(lines@) =~= overview(*ui, uptime_secs, last_health@));
    lines
}

/// The figures that are not whole numbers, as they are shown.
#[derive(Debug)]
pub struct FlowFigures {
    pub ingest_mbps: String,
    pub ingest_mb: String,
    pub send_mbps: String,
    pub send_mb: String,
    pub average_mbps: String,
}

/// The lines that tell what the client has done.
pub open spec fn flow(ui: ClientUiState, figures: FlowFigures) -> Seq<Seq<char>> {
    seq![
        server_view::rate_line(
            "ingest  "@,
            figures.ingest_mbps@,
            ui.ingested_packets,
            figures.ingest_mb@,
        ),
        server_view::rate_line(
            "send    "@,
            figures.send_mbps@,
            ui.sent_packets,
            figures.send_mb@,
        ),
        "errors  "@ + server_view::number(ui.send_errors, 8) + "         avg send "@ + text::padded(
            figures.average_mbps@,
            8,
        ) + " Mbps"@,
    ]
}

/// The lines that tell what the client has done.
pub fn flow_lines(ui: &ClientUiState, figures: &FlowFigures) -> (lines: Vec<String>)
    ensures
        text::texts(lines@) == flow(*ui, *figures),
{
    let mut lines: Vec<String> = Vec::new();
    lines.push(
        rate_text(
            "ingest  ",
            figures.ingest_mbps.as_str(),
            ui.ingested_packets,
            figures.ingest_mb.as_str(),
        ),
    );
    lines.push(
        rate_text(
            "send    ",
            figures.send_mbps.as_str(),
            ui.sent_packets,
            figures.send_mb.as_str(),
        ),
    );
    let mut errors = "errors  ".to_owned();
    push_padded_decimal(&mut errors, ui.send_errors, 8);
    errors.append("         avg send ");
    push_padded(&mut errors, figures.average_mbps.as_str(), 8);
    errors.append(" Mbps");
    lines.push(errors);
    assert(text::texts(lines@) =~= flow(*ui, *figures));
    lines
}

/// The cells for a path of an interface.
pub open spec fn path_cells(
    interface: Seq<char>,
    row: PathRowModel,
    client_mbps: Seq<char>,
) -> Seq<Seq<char>> {
    seq![
        interface,
        text::short_text(row.endpoint_id),
        client_mbps,
        row.server_mbps,
        row.degradation,
        row.transport,
        server_view::selected_word(row.selected),
        row.status,
        row.remote_addr,
    ]
}

/// The rows for the paths of the first interfaces.
pub open spec fn rows_until(
    ui: ClientUiState,
    client_mbps: Map<Seq<char>, String>,
    count: nat,
) -> Seq<Seq<Seq<char>>>
    decreases count,
{
    if count == 0 {
        Seq::empty()
    } else {
        let interface = ui.paths.names()[count - 1];
        let rows = ui.paths.values()[count - 1];
        rows_until(ui, client_mbps, (count - 1) as nat) + client_ui::row_models(
            rows@,
        ).map_values(
            |row: PathRowModel|
                path_cells(
                    interface,
                    row,
                    server_view::text_for(client_mbps, interface, "-"@),
                ),
        )
    }
}

fn make_cells(interface: &str, row: &PathRow, client_mbps: &str) -> (made: Vec<String>)
    ensures
        text::texts(made@) == path_cells(interface@, row@, client_mbps@),
{
    let mut made: Vec<String> = Vec::new();
    made.push(interface.to_owned());
    made.push(short_endpoint(row.endpoint_id.as_str()));
    made.push(client_mbps.to_owned());
    made.push(row.server_mbps.clone());
    made.push(row.degradation.clone());
    made.push(row.transport.clone());
    made.push(selected_cell(row.selected));
    made.push(row.status.clone());
    made.push(row.remote_addr.clone());
    assert(text::texts(made@) =~= path_cells(interface@, row@, client_mbps@));
    made
}

/// The table of paths, in the order of the interfaces' names; `client_mbps` tells how the rate of
/// each interface is shown.
pub fn path_rows(ui: &ClientUiState, client_mbps: &NameMap<String>) -> (rows: Vec<Vec<String>>)
    requires
        ui.well_formed(),
        client_mbps.well_formed(),
    ensures
        server_view::cells(rows@) == rows_until(*ui, client_mbps@, ui.paths.names().len()),
{
    let mut rows: Vec<Vec<String>> = Vec::new();
    proof {
        ui.paths.lemma_names();
    }
    let count: usize = ui.paths.len();
    for i in 0..count
        invariant
            ui.well_formed(),
            client_mbps.well_formed(),
            count == ui.paths.names().len(),
            ui.paths.values().len() == count,
            server_view::cells(rows@) == rows_until(*ui, client_mbps@, i as nat),
    {
        let interface = ui.paths.name_at(i);
        let paths = ui.paths.value_at(i);
        let rate = text_cell(client_mbps, interface.as_str(), "-");
        let ghost before = server_view::cells(rows@);
        let ghost all = client_ui::row_models(paths@).map_values(
            |row: PathRowModel| path_cells(interface@, row, rate@),
        );
        assert(before + all.take(0) =~= before);
        for j in 0..paths.len()
            invariant
                all == client_ui::row_models(paths@).map_values(
                    |row: PathRowModel| path_cells(interface@, row, rate@),
                ),
                server_view::cells(rows@) == before + all.take(j as int),
        {
            let ghost earlier = rows@;
            rows.push(make_cells(interface.as_str(), &paths[j], rate.as_str()));
            assert(server_view::cells(rows@) =~= server_view::cells(earlier).push(all[j as int]));
            assert(all.take(j + 1) =~= all.take(j as int).push(all[j as int]));
            assert(server_view::cells(rows@) =~= before + all.take(j + 1));
        }
        assert(all.take(all.len() as int) =~= all);
        assert(all =~= client_ui::row_models(paths@).map_values(
            |row: PathRowModel|
                path_cells(
                    interface@,
                    row,
                    server_view::text_for(client_mbps@, interface@, "-"@),
                ),
        ));
    }
    rows
}

/// The last lines of the log.
pub open spec fn last_lines(logs: Seq<Seq<char>>) -> Seq<Seq<char>> {
    if logs.len() > SHOWN_LOG_LINES {
        logs.skip(logs.len() - SHOWN_LOG_LINES)
    } else {
        logs
    }
}

/// The last lines of the log.
pub fn log_lines(ui: &ClientUiState) -> (lines: Vec<String>)
    ensures
        text::texts(lines@) == last_lines(text::texts(ui.logs@)),
{
    let count: usize = ui.logs.len();
    let first: usize = count.saturating_sub(SHOWN_LOG_LINES);
    let mut lines: Vec<String> = Vec::new();
    for i in first..count
        invariant
            count == ui.logs@.len(),
            first <= count,
            lines@.len() == i - first,
            forall|j: int| 0 <= j < i - first ==> (#[trigger] lines@[j])@ == ui.logs@[first + j]@,
    {
        lines.push(ui.logs[i].clone());
    }
    assert(text::texts(lines@) =~= last_lines(text::texts(ui.logs@)));
    lines
}

} // verus!
