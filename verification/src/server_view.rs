//! The lines and tables that show the state of the server.

use crate::name_map::NameMap;
use crate::server_ui;
use crate::server_ui::{ConnectionView, PathRow, PathRowModel, ServerUiState};
use crate::text;
use crate::text::{
    after_first, fmt_uptime, join, push_decimal, push_padded, push_padded_decimal,
};
use vstd::prelude::*;

verus! {

/// How long a rate is measured, in nanoseconds.
pub const CONNECTION_MBPS_INTERVAL: u64 = 1_000_000_000;

/// What the lines of a kind tell.
pub open spec fn values_of(lines: Seq<Seq<char>>, pattern: Seq<char>) -> Seq<Seq<char>>
    decreases lines.len(),
{
    if lines.len() == 0 {
        Seq::empty()
    } else {
        let before = values_of(lines.drop_last(), pattern);
        match text::rest_after(lines.last(), pattern, 0) {
            Some(value) => before.push(value),
            None => before,
        }
    }
}

/// The addresses of a kind in one line.
pub open spec fn addrs_text(lines: Seq<Seq<char>>, kind: Seq<char>) -> Seq<char> {
    let values = values_of(lines, "server_addr="@ + kind);
    if values.len() == 0 {
        "-"@
    } else {
        text::joined(values, "  |  "@)
    }
}

pub fn format_addrs(lines: &[String], kind: &str) -> (addrs: String)
    ensures
        addrs@ == addrs_text(text::texts(lines@), kind@),
{
    let mut pattern = "server_addr=".to_owned();
    pattern.append(kind);
    let ghost all = text::texts(lines@);
    let mut values: Vec<String> = Vec::new();
    for i in 0..lines.len()
        invariant
            pattern@ == "server_addr="@ + kind@,
            all == text::texts(lines@),
            text::texts(values@) == values_of(all.take(i as int), pattern@),
    {
        assert(all.take(i + 1).drop_last() =~= all.take(i as int));
        let ghost before = values@;
        if let Some(value) = after_first(lines[i].as_str(), pattern.as_str()) {
            values.push(value);
            assert(text::texts(values@) =~= text::texts(before).push(value@));
        }
    }
    assert(all.take(all.len() as int) =~= all);
    assert(text::texts(values@).len() == values@.len());
    if values.len() == 0 {
        "-".to_owned()
    } else {
        join(values.as_slice(), "  |  ")
    }
}

/// The lines that tell who the server is.
pub open spec fn overview(ui: ServerUiState, uptime: Seq<char>) -> Seq<Seq<char>> {
    let addrs = text::texts(ui.server_addrs@);
    seq![
        "uptime "@ + uptime,
        "endpoint "@ + ui.endpoint@,
        "health endpoint "@ + ui.health_endpoint@,
        "udp destination "@ + ui.udp_dest@,
        "direct "@ + addrs_text(addrs, "ip:"@),
        "relay  "@ + addrs_text(addrs, "relay:"@),
        "ticket "@ + (match ui.ticket {
            Some(ticket) => ticket@,
            None => "-"@,
        }),
    ]
}

/// A text behind a label.
pub(crate) fn labelled(label: &str, value: &str) -> (line: String)
    ensures
        line@ == label@ + value@,
{
    let mut line = label.to_owned();
    line.append(value);
    line
}

/// The lines that tell who the server is.
pub fn overview_lines(ui: &ServerUiState, uptime_secs: u64) -> (lines: Vec<String>)
    ensures
        text::texts(lines@) == overview(*ui, text::uptime_text(uptime_secs)),
{
    let mut lines: Vec<String> = Vec::new();
    lines.push(labelled("uptime ", fmt_uptime(uptime_secs).as_str()));
    lines.push(labelled("endpoint ", ui.endpoint.as_str()));
    lines.push(labelled("health endpoint ", ui.health_endpoint.as_str()));
    lines.push(labelled("udp destination ", ui.udp_dest.as_str()));
    lines.push(labelled("direct ", format_addrs(ui.server_addrs.as_slice(), "ip:").as_str()));
    lines.push(labelled("relay  ", format_addrs(ui.server_addrs.as_slice(), "relay:").as_str()));
    lines.push(
        match &ui.ticket {
            Some(ticket) => labelled("ticket ", ticket.as_str()),
            None => labelled("ticket ", "-"),
        },
    );
    assert(text::texts(lines@) =~= overview(*ui, text::uptime_text(uptime_secs)));
    lines
}

/// The figures that are not whole numbers, as they are shown.
#[derive(Debug)]
pub struct FlowFigures {
    pub receive_mbps: String,
    pub receive_mb: String,
    pub forward_mbps: String,
    pub forward_mb: String,
    pub average_mbps: String,
}

/// A whole number, with spaces before it that bring it to a width.
pub open spec fn number(value: u64, width: nat) -> Seq<char> {
    text::padded(text::decimal(value as nat), width)
}

/// The lines that tell what the server has done.
pub open spec fn flow(ui: ServerUiState, figures: FlowFigures) -> Seq<Seq<char>> {
    seq![
        rate_line("receive "@, figures.receive_mbps@, ui.received_packets, figures.receive_mb@),
        rate_line("forward "@, figures.forward_mbps@, ui.forwarded_packets, figures.forward_mb@),
        "dupes "@ + number(ui.duplicate_packets, 9) + "   skipped "@ + number(ui.skipped_packets, 7)
            + "   invalid "@ + number(ui.invalid_packets, 8) + "   buffered "@ + number(
            ui.buffered_packets,
            7,
        ),
        "missing never "@ + number(ui.skipped_never_received_packets, 7) + "   late "@ + number(
            ui.late_after_skip_packets,
            7,
        ) + "   frag_incomplete "@ + number(ui.fragment_incomplete_packets, 7),
        "fec_recovered "@ + number(ui.fec_recovered_packets, 5) + "   repair_req "@ + number(
            ui.repair_requests,
            7,
        ) + "   pressure_drop "@ + number(ui.send_pressure_drops, 5) + "   flow_reset "@ + number(
            ui.flow_resets,
            5,
        ) + "   connection_reset "@ + number(ui.connection_resets, 5),
        "last_fwd "@ + number(ui.last_forwarded_seq, 10) + "   next_seq "@ + number(ui.next_seq, 10)
            + "   avg fwd "@ + text::padded(figures.average_mbps@, 6) + " Mbps"@,
    ]
}

/// The line for a rate, a number of packets and an amount.
pub open spec fn rate_line(label: Seq<char>, mbps: Seq<char>, packets: u64, mb: Seq<char>) -> Seq<
    char,
> {
    label + text::padded(mbps, 8) + " Mbps   packets "@ + number(packets, 8) + "   total "@
        + text::padded(mb, 8) + " MB"@
}

/// The line for a rate, a number of packets and an amount.
pub(crate) fn rate_text(label: &str, mbps: &str, packets: u64, mb: &str) -> (line: String)
    ensures
        line@ == rate_line(label@, mbps@, packets, mb@),
{
    let mut line = label.to_owned();
    push_padded(&mut line, mbps, 8);
    line.append(" Mbps   packets ");
    push_padded_decimal(&mut line, packets, 8);
    line.append("   total ");
    push_padded(&mut line, mb, 8);
    line.append(" MB");
    line
}

/// The lines that tell what the server has done.
pub fn flow_lines(ui: &ServerUiState, figures: &FlowFigures) -> (lines: Vec<String>)
    ensures
        text::texts(lines@) == flow(*ui, *figures),
{
    let mut lines: Vec<String> = Vec::new();
    lines.push(
        rate_text(
            "receive ",
            figures.receive_mbps.as_str(),
            ui.received_packets,
            figures.receive_mb.as_str(),
        ),
    );
    lines.push(
        rate_text(
            "forward ",
            figures.forward_mbps.as_str(),
            ui.forwarded_packets,
            figures.forward_mb.as_str(),
        ),
    );
    let mut counts = "dupes ".to_owned();
    push_padded_decimal(&mut counts, ui.duplicate_packets, 9);
    counts.append("   skipped ");
    push_padded_decimal(&mut counts, ui.skipped_packets, 7);
    counts.append("   invalid ");
    push_padded_decimal(&mut counts, ui.invalid_packets, 8);
    counts.append("   buffered ");
    push_padded_decimal(&mut counts, ui.buffered_packets, 7);
    lines.push(counts);
    let mut missing = "missing never ".to_owned();
    push_padded_decimal(&mut missing, ui.skipped_never_received_packets, 7);
    missing.append("   late ");
    push_padded_decimal(&mut missing, ui.late_after_skip_packets, 7);
    missing.append("   frag_incomplete ");
    push_padded_decimal(&mut missing, ui.fragment_incomplete_packets, 7);
    lines.push(missing);
    let mut events = "fec_recovered ".to_owned();
    push_padded_decimal(&mut events, ui.fec_recovered_packets, 5);
    events.append("   repair_req ");
    push_padded_decimal(&mut events, ui.repair_requests, 7);
    events.append("   pressure_drop ");
    push_padded_decimal(&mut events, ui.send_pressure_drops, 5);
    events.append("   flow_reset ");
    push_padded_decimal(&mut events, ui.flow_resets, 5);
    events.append("   connection_reset ");
    push_padded_decimal(&mut events, ui.connection_resets, 5);
    lines.push(events);
    let mut cursor = "last_fwd ".to_owned();
    push_padded_decimal(&mut cursor, ui.last_forwarded_seq, 10);
    cursor.append("   next_seq ");
    push_padded_decimal(&mut cursor, ui.next_seq, 10);
    cursor.append("   avg fwd ");
    push_padded(&mut cursor, figures.average_mbps.as_str(), 6);
    cursor.append(" Mbps");
    lines.push(cursor);
    assert(text::texts(lines@) =~= flow(*ui, *figures));
    lines
}

/// A sequence number, if there is one.
pub open spec fn sequence_text(sequence: Option<u64>) -> Seq<char> {
    match sequence {
        Some(value) => text::decimal(value as nat),
        None => "-"@,
    }
}

fn sequence_cell(sequence: Option<u64>) -> (cell: String)
    ensures
        cell@ == sequence_text(sequence),
{
    match sequence {
        Some(value) => decimal_cell(value),
        None => "-".to_owned(),
    }
}

fn decimal_cell(value: u64) -> (cell: String)
    ensures
        cell@ == text::decimal(value as nat),
{
    let mut cell = "".to_owned();
    proof {
        reveal_strlit("");
    }
    push_decimal(&mut cell, value);
    assert(cell@ =~= text::decimal(value as nat));
    cell
}

/// The word for whether a path is selected.
pub open spec fn selected_word(selected: bool) -> Seq<char> {
    if selected {
        "yes"@
    } else {
        "no"@
    }
}

/// The word for whether a path is selected.
pub(crate) fn selected_cell(selected: bool) -> (cell: String)
    ensures
        cell@ == selected_word(selected),
{
    if selected {
        "yes".to_owned()
    } else {
        "no".to_owned()
    }
}

/// The text for a name, or another if there is none.
pub open spec fn text_for(map: Map<Seq<char>, String>, name: Seq<char>, missing: Seq<char>) -> Seq<
    char,
> {
    if map.contains_key(name) {
        map[name]@
    } else {
        missing
    }
}

/// The text for a name, or another if there is none.
pub(crate) fn text_cell(map: &NameMap<String>, name: &str, missing: &str) -> (cell: String)
    requires
        map.well_formed(),
    ensures
        cell@ == text_for(map@, name@, missing@),
{
    match map.get(name) {
        Some(found) => found.clone(),
        None => missing.to_owned(),
    }
}

/// The cells of a table.
pub open spec fn cells(rows: Seq<Vec<String>>) -> Seq<Seq<Seq<char>>> {
    rows.map_values(|row: Vec<String>| text::texts(row@))
}

/// The cells for a path of a connection.
pub open spec fn path_cells(
    remote: Seq<char>,
    connection: ConnectionView,
    row: PathRowModel,
    mb: Seq<char>,
    mbps: Seq<char>,
) -> Seq<Seq<char>> {
    seq![
        remote,
        text::decimal(connection.received_packets as nat),
        sequence_text(connection.max_seq),
        sequence_text(connection.last_seq),
        mb,
        mbps,
        row.transport,
        selected_word(row.selected),
        row.status,
        row.remote_addr,
    ]
}

/// The rows for the paths of the first connections.
pub open spec fn rows_until(
    ui: ServerUiState,
    mb: Map<Seq<char>, String>,
    mbps: Map<Seq<char>, String>,
    count: nat,
) -> Seq<Seq<Seq<char>>>
    decreases count,
{
    if count == 0 {
        Seq::empty()
    } else {
        let remote = ui.connections.names()[count - 1];
        let connection = ui.connections.values()[count - 1];
        rows_until(ui, mb, mbps, (count - 1) as nat) + server_ui::row_models(
            connection.paths@,
        ).map_values(
            |row: PathRowModel|
                path_cells(
                    remote,
                    connection,
                    row,
                    text_for(mb, remote, "-"@),
                    text_for(mbps, remote, "0.00"@),
                ),
        )
    }
}

fn make_cells(remote: &str, connection: &ConnectionView, row: &PathRow, mb: &str, mbps: &str) -> (
    made: Vec<String>)
    ensures
        text::texts(made@) == path_cells(remote@, *connection, row@, mb@, mbps@),
{
    let mut made: Vec<String> = Vec::new();
    made.push(remote.to_owned());
    made.push(decimal_cell(connection.received_packets));
    made.push(sequence_cell(connection.max_seq));
    made.push(sequence_cell(connection.last_seq));
    made.push(mb.to_owned());
    made.push(mbps.to_owned());
    made.push(row.transport.clone());
    made.push(selected_cell(row.selected));
    made.push(row.status.clone());
    made.push(row.remote_addr.clone());
    assert(text::texts(made@) =~= path_cells(remote@, *connection, row@, mb@, mbps@));
    made
}

/// The table of connections, in the order of their names, a row for each path; `mb` and `mbps` tell
/// how the amount and the rate of each connection are shown.
pub fn connection_rows(ui: &ServerUiState, mb: &NameMap<String>, mbps: &NameMap<String>) -> (rows:
    Vec<Vec<String>>)
    requires
        ui.well_formed(),
        mb.well_formed(),
        mbps.well_formed(),
    ensures
        cells(rows@) == rows_until(*ui, mb@, mbps@, ui.connections.names().len()),
{
    let mut rows: Vec<Vec<String>> = Vec::new();
    proof {
        ui.connections.lemma_names();
    }
    let count: usize = ui.connections.len();
    for i in 0..count
        invariant
            ui.well_formed(),
            mb.well_formed(),
            mbps.well_formed(),
            count == ui.connections.names().len(),
            ui.connections.values().len() == count,
            cells(rows@) == rows_until(*ui, mb@, mbps@, i as nat),
    {
        let remote = ui.connections.name_at(i);
        let connection = ui.connections.value_at(i);
        let amount = text_cell(mb, remote.as_str(), "-");
        let rate = text_cell(mbps, remote.as_str(), "0.00");
        let ghost before = cells(rows@);
        let ghost all = server_ui::row_models(connection.paths@).map_values(
            |row: PathRowModel| path_cells(remote@, *connection, row, amount@, rate@),
        );
        assert(before + all.take(0) =~= before);
        for j in 0..connection.paths.len()
            invariant
                all == server_ui::row_models(connection.paths@).map_values(
                    |row: PathRowModel| path_cells(remote@, *connection, row, amount@, rate@),
                ),
                cells(rows@) == before + all.take(j as int),
        {
            let ghost earlier = rows@;
            rows.push(
                make_cells(
                    remote.as_str(),
                    connection,
                    &connection.paths[j],
                    amount.as_str(),
                    rate.as_str(),
                ),
            );
            assert(cells(rows@) =~= cells(earlier).push(all[j as int]));
            assert(all.take(j + 1) =~= all.take(j as int).push(all[j as int]));
            assert(cells(rows@) =~= before + all.take(j + 1));
        }
        assert(all.take(all.len() as int) =~= all);
        assert(all =~= server_ui::row_models(connection.paths@).map_values(
            |row: PathRowModel|
                path_cells(
                    remote@,
                    *connection,
                    row,
                    text_for(mb@, remote@, "-"@),
                    text_for(mbps@, remote@, "0.00"@),
                ),
        ));
    }
    rows
}

/// A key that moves the table.
#[derive(Debug, Clone, Copy, PartialEq, Eq, Structural)]
pub enum ScrollKey {
    Down,
    Up,
    PageDown,
    PageUp,
    Home,
}

/// Where the table is after a key.
pub open spec fn scrolled(scroll: usize, key: ScrollKey) -> int {
    match key {
        ScrollKey::Down => if scroll < usize::MAX {
            scroll + 1
        } else {
            usize::MAX as int
        },
        ScrollKey::Up => if scroll > 0 {
            scroll - 1
        } else {
            0
        },
        ScrollKey::PageDown => if scroll <= usize::MAX - 10 {
            scroll + 10
        } else {
            usize::MAX as int
        },
        ScrollKey::PageUp => if scroll > 10 {
            scroll - 10
        } else {
            0
        },
        ScrollKey::Home => 0,
    }
}

pub fn scroll_by(scroll: usize, key: ScrollKey) -> (after: usize)
    ensures
        after == scrolled(scroll, key),
{
    match key {
        ScrollKey::Down => scroll.saturating_add(1),
        ScrollKey::Up => scroll.saturating_sub(1),
        ScrollKey::PageDown => scroll.saturating_add(10),
        ScrollKey::PageUp => scroll.saturating_sub(10),
        ScrollKey::Home => 0,
    }
}

/// The part of a table that is shown: its first row, and the row after its last.
#[derive(Debug, Clone, Copy, PartialEq, Eq)]
pub struct TableWindow {
    pub scroll: usize,
    pub end: usize,
}

/// How far a table can be moved.
pub open spec fn furthest(rows: usize, visible: usize) -> int {
    if rows > visible {
        rows - visible
    } else {
        0
    }
}

/// The part of a table that is shown: the table is moved no further than until its last row is
/// shown.
pub fn table_window(scroll: usize, rows: usize, visible: usize) -> (window: TableWindow)
    ensures
        window.scroll == (if scroll > furthest(rows, visible) {
            furthest(rows, visible)
        } else {
            scroll as int
        }),
        window.end == (if window.scroll + visible > rows {
            rows as int
        } else {
            window.scroll + visible
        }),
        window.scroll <= window.end <= rows,
{
    let most: usize = rows.saturating_sub(visible);
    let scroll: usize = if scroll > most {
        most
    } else {
        scroll
    };
    let end: usize = if visible > rows - scroll {
        rows
    } else {
        scroll + visible
    };
    TableWindow { scroll, end }
}

/// A sum of two counts, which does not exceed the greatest count.
pub open spec fn capped_sum(a: int, b: int) -> int {
    if a + b > usize::MAX {
        usize::MAX as int
    } else {
        a + b
    }
}

/// The title of the table of connections.
pub open spec fn title_of(scroll: usize, rows: usize, visible: usize) -> Seq<char> {
    let shown = capped_sum(scroll as int, visible as int);
    let most = capped_sum(furthest(rows, visible), visible as int);
    let last = if shown > most {
        most
    } else {
        shown
    };
    "Connections "@ + text::decimal(capped_sum(scroll as int, 1) as nat) + "-"@ + text::decimal(
        last as nat,
    )
}

/// The title of the table of connections.
pub fn table_title(scroll: usize, rows: usize, visible: usize) -> (title: String)
    ensures
        title@ == title_of(scroll, rows, visible),
{
    let most: usize = rows.saturating_sub(visible).saturating_add(visible);
    let shown: usize = scroll.saturating_add(visible);
    let last: usize = if shown > most {
        most
    } else {
        shown
    };
    let mut title = "Connections ".to_owned();
    push_decimal(&mut title, scroll.saturating_add(1) as u64);
    title.append("-");
    push_decimal(&mut title, last as u64);
    title
}

} // verus!
