//! What holds of what the programs show.

use crate::client_ctx;
use crate::client_ctx::ClientCtx;
use crate::client_ui;
use crate::client_ui::{ClientUiState, EndpointReading};
use crate::client_view;
use crate::path_info::PathInfo;
use crate::reorder_model::{ActionModel, SkipReason};
use crate::server_ctx;
use crate::server_ctx::ServerCtx;
use crate::server_ui;
use crate::server_ui::ServerUiState;
use crate::server_view;
use crate::server_view::ScrollKey;
use crate::text;
use vstd::prelude::*;

verus! {

/// The view of the server's state after several actions.
pub open spec fn after_actions(ui: ServerUiState, actions: Seq<ActionModel>) -> ServerUiState
    decreases actions.len(),
{
    if actions.len() == 0 {
        ui
    } else {
        server_ctx::ui_after(after_actions(ui, actions.drop_last()), actions.last())
    }
}

/// How many actions are of a kind.
pub open spec fn count_of(actions: Seq<ActionModel>, kind: spec_fn(ActionModel) -> bool) -> nat
    decreases actions.len(),
{
    if actions.len() == 0 {
        0
    } else if kind(actions.last()) {
        count_of(actions.drop_last(), kind) + 1
    } else {
        count_of(actions.drop_last(), kind)
    }
}

/// How many bytes actions forward.
pub open spec fn bytes_forwarded(actions: Seq<ActionModel>) -> nat
    decreases actions.len(),
{
    if actions.len() == 0 {
        0
    } else {
        bytes_forwarded(actions.drop_last()) + match actions.last() {
            ActionModel::Forward { payload, .. } => payload.len(),
            _ => 0,
        }
    }
}

/// How many bytes actions tell of as received.
pub open spec fn bytes_received(actions: Seq<ActionModel>) -> nat
    decreases actions.len(),
{
    if actions.len() == 0 {
        0
    } else {
        bytes_received(actions.drop_last()) + match actions.last() {
            ActionModel::Received { bytes } => bytes as nat,
            _ => 0,
        }
    }
}

/// A state in which nothing has been counted.
pub open spec fn is_unused(ui: ServerUiState) -> bool {
    &&& ui.received_packets == 0
    &&& ui.received_bytes == 0
    &&& ui.forwarded_packets == 0
    &&& ui.forwarded_bytes == 0
    &&& ui.duplicate_packets == 0
    &&& ui.skipped_packets == 0
    &&& ui.skipped_never_received_packets == 0
    &&& ui.late_after_skip_packets == 0
    &&& ui.fragment_incomplete_packets == 0
    &&& ui.repair_requests == 0
    &&& ui.fec_recovered_packets == 0
    &&& ui.flow_resets == 0
}

/// Whatever the reordering does, each of its actions is counted once and as what it is: the counts
/// that are shown are the numbers of the actions, and the bytes are those of the packets. What was
/// skipped is counted by its reason as well. The counts do not wrap around.
pub proof fn law_counts_follow_actions(ui: ServerUiState, actions: Seq<ActionModel>)
    requires
        is_unused(ui),
        actions.len() <= u64::MAX,
        bytes_forwarded(actions) <= u64::MAX,
        bytes_received(actions) <= u64::MAX,
    ensures
        ({
            let after = after_actions(ui, actions);
            &&& after.received_packets == count_of(actions, |a: ActionModel| a is Received)
            &&& after.received_bytes == bytes_received(actions)
            &&& after.forwarded_packets == count_of(actions, |a: ActionModel| a is Forward)
            &&& after.forwarded_bytes == bytes_forwarded(actions)
            &&& after.duplicate_packets == count_of(actions, |a: ActionModel| a is Duplicate)
            &&& after.late_after_skip_packets == count_of(
                actions,
                |a: ActionModel| a is LateAfterSkip,
            )
            &&& after.repair_requests == count_of(actions, |a: ActionModel| a is Repair)
            &&& after.fec_recovered_packets == count_of(actions, |a: ActionModel| a is FecRecovered)
            &&& after.flow_resets == count_of(actions, |a: ActionModel| a is FlowReset)
            &&& after.skipped_packets == count_of(actions, |a: ActionModel| a is Skipped)
            &&& after.skipped_never_received_packets == count_of(
                actions,
                |a: ActionModel|
                    a matches ActionModel::Skipped { reason: SkipReason::NeverReceived, .. },
            )
            &&& after.fragment_incomplete_packets == count_of(
                actions,
                |a: ActionModel|
                    a matches ActionModel::Skipped { reason: SkipReason::FragmentIncomplete, .. },
            )
            &&& after.connections == ui.connections
        }),
        forall|kind: spec_fn(ActionModel) -> bool| #[trigger]
            count_of(actions, kind) <= actions.len(),
    decreases actions.len(),
{
    assert forall|kind: spec_fn(ActionModel) -> bool| #[trigger]
        count_of(actions, kind) <= actions.len() by {
        lemma_count_of(actions, kind);
    }
    if actions.len() > 0 {
        law_counts_follow_actions(ui, actions.drop_last());
    }
}

proof fn lemma_count_of(actions: Seq<ActionModel>, kind: spec_fn(ActionModel) -> bool)
    ensures
        count_of(actions, kind) <= actions.len(),
    decreases actions.len(),
{
    if actions.len() > 0 {
        lemma_count_of(actions.drop_last(), kind);
    }
}

/// After an action that tells what is due, what is due is shown, and after one that forwards, what
/// was forwarded.
pub proof fn law_last_action_is_shown(ui: ServerUiState, action: ActionModel)
    ensures
        ({
            let after = server_ctx::ui_after(ui, action);
            &&& action matches ActionModel::FlowStart { next_seq } ==> after.next_seq == next_seq
            &&& action matches ActionModel::FlowReset { next_seq } ==> after.next_seq == next_seq
            &&& action matches ActionModel::Duplicate { buffered, next_seq } ==> after.next_seq
                == next_seq && after.buffered_packets == buffered
            &&& action matches ActionModel::Buffered { buffered, next_seq } ==> after.next_seq
                == next_seq && after.buffered_packets == buffered
            &&& action matches ActionModel::LateAfterSkip { buffered, next_seq, .. }
                ==> after.next_seq == next_seq && after.buffered_packets == buffered
            &&& action matches ActionModel::Skipped { buffered, next_seq, .. } ==> after.next_seq
                == next_seq && after.buffered_packets == buffered
            &&& action matches ActionModel::Forward { sequence, buffered, next_seq, .. }
                ==> after.next_seq == next_seq && after.buffered_packets == buffered
                && after.last_forwarded_seq == sequence
            &&& !(action is Forward) ==> after.last_forwarded_seq == ui.last_forwarded_seq
        }),
        server_ctx::action_line(action) is Some <==> action is FlowReset || action is LateAfterSkip
            || action is FecRecovered || action is Skipped,
{
}

/// A line that is logged is the last; the lines before it stay, but for the oldest once there are
/// 120. Of the log the last five lines are shown.
pub proof fn law_log_keeps_the_last_lines(logs: Seq<Seq<char>>, line: Seq<char>)
    requires
        logs.len() <= 120,
    ensures
        client_ui::logged(logs, line).last() == line,
        client_ui::logged(logs, line).len() <= 120,
        client_ui::logged(logs, line).is_suffix_of(logs.push(line)),
        logs.len() < 120 ==> client_ui::logged(logs, line) == logs.push(line),
        logs.len() == 120 ==> client_ui::logged(logs, line).len() == 120,
        client_view::last_lines(logs).is_suffix_of(logs),
        logs.len() <= 5 ==> client_view::last_lines(logs) == logs,
        logs.len() > 5 ==> client_view::last_lines(logs).len() == 5,
{
    let all = logs.push(line);
    let after = client_ui::logged(logs, line);
    assert(after =~= all.subrange(all.len() - after.len(), all.len() as int));
    let shown = client_view::last_lines(logs);
    assert(shown =~= logs.subrange(logs.len() - shown.len(), logs.len() as int));
}

/// Of several readings of an endpoint the last counts; where there is none, dashes are shown. Only
/// what the server says of the endpoint changes in its row.
pub proof fn law_last_reading_counts(
    readings: Seq<EndpointReading>,
    row: client_ui::PathRowModel,
    place: int,
)
    requires
        -1 <= place < readings.len(),
        place >= 0 ==> readings[place].endpoint_id@ == row.endpoint_id,
        forall|i: int|
            place < i < readings.len() ==> (#[trigger] readings[i]).endpoint_id@ != row.endpoint_id,
    ensures
        ({
            let after = client_ui::read_row(row, readings);
            &&& place >= 0 ==> after.server_mbps == readings[place].server_mbps@
                && after.degradation == readings[place].degradation@
            &&& place < 0 ==> after.server_mbps == "-"@ && after.degradation == "-"@
            &&& after == (client_ui::PathRowModel {
                server_mbps: after.server_mbps,
                degradation: after.degradation,
                ..row
            })
        }),
    decreases readings.len(),
{
    if readings.len() > 0 && place < readings.len() - 1 {
        let fewer = readings.drop_last();
        assert(readings[readings.len() - 1].endpoint_id@ != row.endpoint_id);
        assert forall|i: int| place < i < fewer.len() implies (
        #[trigger] fewer[i]).endpoint_id@ != row.endpoint_id by {
            assert(fewer[i] == readings[i]);
        }
        law_last_reading_counts(fewer, row, place);
    }
}

/// A key that moves the table up undoes the one that moves it down as far, unless the table was at
/// its end; a page is ten lines; and no key moves it before its start.
pub proof fn law_keys_undo_each_other(scroll: usize)
    requires
        scroll <= usize::MAX - 10,
    ensures
        server_view::scrolled(scroll, ScrollKey::Down) == scroll + 1,
        server_view::scrolled(scroll, ScrollKey::PageDown) == scroll + 10,
        server_view::scrolled((scroll + 1) as usize, ScrollKey::Up) == scroll,
        server_view::scrolled((scroll + 10) as usize, ScrollKey::PageUp) == scroll,
        server_view::scrolled(scroll, ScrollKey::Home) == 0,
        server_view::scrolled(0, ScrollKey::Up) == 0,
        scroll <= 10 ==> server_view::scrolled(scroll, ScrollKey::PageUp) == 0,
        server_view::scrolled(usize::MAX, ScrollKey::Down) == usize::MAX,
        server_view::scrolled(usize::MAX, ScrollKey::PageDown) == usize::MAX,
{
}

/// A table can be moved exactly until its last row is the last that is shown, and the title tells
/// the first and the last row that are shown.
pub proof fn law_table_ends_at_its_last_row(scroll: usize, rows: usize, visible: usize)
    ensures
        rows >= visible ==> server_view::furthest(rows, visible) + visible == rows,
        rows < visible ==> server_view::furthest(rows, visible) == 0,
        scroll <= server_view::furthest(rows, visible) && rows >= visible && scroll < usize::MAX
            ==> server_view::title_of(scroll, rows, visible) == "Connections "@ + text::decimal(
            (scroll + 1) as nat,
        ) + "-"@ + text::decimal((scroll + visible) as nat),
{
}

/// What lines of a kind tell is told in their order: looking through lines in two parts finds what
/// looking through them at once does.
pub proof fn law_values_are_found_in_order(
    first: Seq<Seq<char>>,
    second: Seq<Seq<char>>,
    pattern: Seq<char>,
)
    ensures
        server_view::values_of(first + second, pattern) == server_view::values_of(first, pattern)
            + server_view::values_of(second, pattern),
    decreases second.len(),
{
    let all = first + second;
    if second.len() == 0 {
        assert(all =~= first);
        assert(server_view::values_of(first, pattern) + server_view::values_of(second, pattern)
            =~= server_view::values_of(first, pattern));
    } else {
        law_values_are_found_in_order(first, second.drop_last(), pattern);
        assert(all.drop_last() =~= first + second.drop_last());
        assert(all.last() == second.last());
        assert(server_view::values_of(all, pattern) =~= server_view::values_of(first, pattern)
            + server_view::values_of(second, pattern));
    }
}

/// What follows a pattern is what stands behind its first occurrence, and there is none exactly if
/// the pattern does not occur. A line that begins with the pattern tells the rest of the line.
pub proof fn law_rest_follows_the_pattern(line: Seq<char>, pattern: Seq<char>, from: nat)
    ensures
        text::rest_after(line, pattern, from) is None <==> forall|i: int|
            from <= i ==> !#[trigger] text::occurs_at(line, pattern, i),
        forall|place: int|
            from <= place && (forall|i: int|
                from <= i < place ==> !#[trigger] text::occurs_at(line, pattern, i))
                && #[trigger] text::occurs_at(line, pattern, place) ==> text::rest_after(
                line,
                pattern,
                from,
            ) == Some(line.skip(place + pattern.len())),
        text::rest_after(pattern + line, pattern, 0) == Some(line),
        server_view::values_of(seq![pattern + line], pattern) == seq![line],
    decreases line.len() + 1 - from,
{
    if from + pattern.len() <= line.len() && !text::occurs_at(line, pattern, from as int) {
        law_rest_follows_the_pattern(line, pattern, from + 1);
    } else if from + pattern.len() <= line.len() {
        assert forall|place: int|
            from <= place && (forall|i: int|
                from <= i < place ==> !#[trigger] text::occurs_at(line, pattern, i))
                && #[trigger] text::occurs_at(line, pattern, place) implies place == from by {
            if place > from {
                assert(!text::occurs_at(line, pattern, from as int));
            }
        }
    }
    let whole = pattern + line;
    assert(whole.subrange(0, pattern.len() as int) =~= pattern);
    assert(text::occurs_at(whole, pattern, 0));
    assert(whole.skip(pattern.len() as int) =~= line);
    assert(seq![whole].drop_last() =~= Seq::<Seq<char>>::empty());
    assert(server_view::values_of(Seq::<Seq<char>>::empty(), pattern) =~= Seq::<
        Seq<char>,
    >::empty());
    assert(server_view::values_of(seq![whole], pattern) =~= seq![line]);
}

/// A running time is shown as hours, minutes and seconds that make it up, the latter two below
/// sixty.
#[verifier::spinoff_prover]
pub proof fn law_uptime_adds_up(hours: nat, minutes: nat, seconds: nat, elapsed: u64)
    requires
        minutes < 60,
        seconds < 60,
        elapsed == hours * 3600 + minutes * 60 + seconds,
    ensures
        text::uptime_text(elapsed) == text::two_digits(hours) + ":"@ + text::two_digits(minutes)
            + ":"@ + text::two_digits(seconds),
        hours >= 10 ==> text::two_digits(hours) == text::decimal(hours),
        hours < 10 ==> text::two_digits(hours) == "0"@ + text::decimal(hours),
{
    lemma_parts_of_time(hours as int, minutes as int, seconds as int);
}

proof fn lemma_parts_of_time(hours: int, minutes: int, seconds: int)
    by (nonlinear_arith)
    requires
        0 <= hours,
        0 <= minutes < 60,
        0 <= seconds < 60,
    ensures
        (hours * 3600 + minutes * 60 + seconds) / 3600 == hours,
        (hours * 3600 + minutes * 60 + seconds) / 60 % 60 == minutes,
        (hours * 3600 + minutes * 60 + seconds) % 60 == seconds,
{
    assert((hours * 3600 + minutes * 60 + seconds) / 60 == hours * 60 + minutes);
}

/// A text that is brought to a width has that width, or its own if it is longer, and ends with the
/// text, before which only spaces stand.
pub proof fn law_padding_is_before_the_text(value: Seq<char>, width: nat)
    ensures
        text::padded(value, width).len() == if value.len() > width {
            value.len()
        } else {
            width
        },
        value.is_suffix_of(text::padded(value, width)),
        forall|i: int|
            0 <= i < text::padded(value, width).len() - value.len() ==> #[trigger] text::padded(
                value,
                width,
            )[i] == ' ',
        text::short_text(value).is_prefix_of(value),
        value.len() <= 8 ==> text::short_text(value) == value,
        value.len() > 8 ==> text::short_text(value).len() == 8,
{
    let all = text::padded(value, width);
    assert(value =~= all.subrange(all.len() - value.len(), all.len() as int));
    let short = text::short_text(value);
    assert(short =~= value.subrange(0, short.len() as int));
}

/// The last place of a character holds it, no later place does, and there is none exactly if the
/// text does not hold it.
pub proof fn law_last_place_is_last(value: Seq<char>, wanted: char)
    ensures
        text::last_place(value, wanted) matches Some(place) ==> place < value.len()
            && value[place as int] == wanted && forall|i: int|
            place < i < value.len() ==> #[trigger] value[i] != wanted,
        text::last_place(value, wanted) is None <==> !value.contains(wanted),
    decreases value.len(),
{
    if value.len() > 0 && value.last() != wanted {
        let shorter = value.drop_last();
        law_last_place_is_last(shorter, wanted);
        assert forall|i: int| 0 <= i < shorter.len() implies #[trigger] value[i] == shorter[i] by {}
        if value.contains(wanted) {
            let i = choose|i: int| 0 <= i < value.len() && value[i] == wanted;
            assert(shorter[i] == wanted);
        }
        if shorter.contains(wanted) {
            let i = choose|i: int| 0 <= i < shorter.len() && shorter[i] == wanted;
            assert(value[i] == wanted);
        }
    } else if value.len() > 0 {
        assert(value[value.len() - 1] == wanted);
    }
}

/// A packet that an interface sent is counted once, with its bytes, for the client and for the
/// interface, whose paths are shown as sending. Nothing else changes, and a client without a view
/// shows nothing.
pub proof fn law_sending_is_shown(
    before: ClientCtx,
    after: ClientCtx,
    interface: Seq<char>,
    bytes: u64,
    other: Seq<char>,
)
    requires
        after.shows_send(before, interface, bytes),
        before.ui matches Some(ui) ==> ui.sent_packets < u64::MAX && ui.sent_bytes + bytes
            <= u64::MAX && ui.bytes_sent_over(interface) + bytes <= u64::MAX,
    ensures
        after.chat_messages == before.chat_messages,
        before.ui is None ==> after.ui is None,
        before.ui matches Some(ui) ==> {
            &&& after.ui matches Some(now)
            &&& now.sent_packets == ui.sent_packets + 1
            &&& now.sent_bytes == ui.sent_bytes + bytes
            &&& now.send_errors == ui.send_errors
            &&& now.ingested_packets == ui.ingested_packets
            &&& now.bytes_sent_over(interface) == ui.bytes_sent_over(interface) + bytes
            &&& other != interface ==> now.bytes_sent_over(other) == ui.bytes_sent_over(other)
                && now.rows_of(other) == ui.rows_of(other)
            &&& now.rows_of(interface).len() == ui.rows_of(interface).len()
            &&& forall|i: int|
                0 <= i < ui.rows_of(interface).len() ==> #[trigger] now.rows_of(interface)[i] == (
                client_ui::PathRowModel { status: "sending"@, ..ui.rows_of(interface)[i] })
        },
{
}

/// An error of an interface is counted once, and shown as a row of its own behind the rows of the
/// interface. Nothing else changes.
pub proof fn law_errors_are_shown(
    before: ClientCtx,
    after: ClientCtx,
    interface: Seq<char>,
    error: Seq<char>,
    other: Seq<char>,
)
    requires
        after.shows_error(before, interface, error),
        before.ui matches Some(ui) ==> ui.send_errors < u64::MAX,
    ensures
        before.ui is None ==> after.ui is None,
        before.ui matches Some(ui) ==> {
            &&& after.ui matches Some(now)
            &&& now.send_errors == ui.send_errors + 1
            &&& now.sent_packets == ui.sent_packets
            &&& now.sent_bytes == ui.sent_bytes
            &&& now.rows_of(interface).drop_last() == ui.rows_of(interface)
            &&& now.rows_of(interface).last().remote_addr == error
            &&& now.rows_of(interface).last().transport == "error"@
            &&& now.rows_of(interface).last().status == "failed"@
            &&& !now.rows_of(interface).last().selected
            &&& other != interface ==> now.rows_of(other) == ui.rows_of(other)
        },
{
    if let Some(ui) = before.ui {
        let now = after.ui->0;
        assert(now.rows_of(interface).drop_last() =~= ui.rows_of(interface));
    }
}

/// A line is never lost: it is the last of the log if there is a view, and is printed if there is
/// none, never both.
pub proof fn law_lines_are_logged_or_printed(
    before: ClientCtx,
    after: ClientCtx,
    printed: Option<String>,
    line: Seq<char>,
)
    requires
        after.reports(before, printed, line),
        before.well_formed(),
    ensures
        before.ui is None ==> (printed matches Some(text) && text@ == line) && after.ui is None,
        before.ui is Some ==> printed is None && (after.ui matches Some(now) && text::texts(
            now.logs@,
        ).last() == line),
{
    if let Some(ui) = before.ui {
        law_log_keeps_the_last_lines(text::texts(ui.logs@), line);
    }
}

/// A connection that was closed is shown with its error, and each of its paths as closed by it. As
/// soon as something is received over it, the error is gone and its paths are up again. Other
/// connections are not touched by either.
pub proof fn law_closed_connection_comes_back(
    before: ServerCtx,
    closed: ServerCtx,
    after: ServerCtx,
    remote: Seq<char>,
    error: Seq<char>,
    printed: Option<String>,
    bytes: u64,
    sequence: u64,
    other: Seq<char>,
)
    requires
        closed.disconnects(before, remote, error, printed),
        after.receives(closed, remote, bytes, sequence),
        before.ui matches Some(ui) ==> ui.connection(remote).received_packets < u64::MAX
            && ui.connection(remote).received_bytes + bytes <= u64::MAX,
        other != remote,
    ensures
        before.ui is None ==> printed is Some && after.ui is None,
        before.ui matches Some(ui) ==> {
            let known = ui.connection(remote);
            &&& printed is None
            &&& closed.ui matches Some(down)
            &&& after.ui matches Some(now)
            &&& down.connection(remote).last_error == Some(error)
            &&& down.connection(remote).received_packets == known.received_packets
            &&& down.connection(remote).received_bytes == known.received_bytes
            &&& down.connection(remote).paths.len() == known.paths.len()
            &&& now.connection(remote).last_error is None
            &&& now.connection(remote).last_seq == Some(sequence)
            &&& now.connection(remote).received_packets == known.received_packets + 1
            &&& now.connection(remote).received_bytes == known.received_bytes + bytes
            &&& forall|i: int|
                0 <= i < known.paths.len() ==> {
                    &&& (#[trigger] down.connection(remote).paths[i]).status == "closed: "@ + error
                    &&& now.connection(remote).paths[i] == (server_ui::PathRowModel {
                        status: "up"@,
                        ..known.paths[i]
                    })
                }
            &&& now.connection(other) == ui.connection(other)
            &&& now.invalid_packets == ui.invalid_packets
            &&& now.connection_resets == ui.connection_resets
        },
{
    if let Some(ui) = before.ui {
        let known = ui.connection(remote);
        let down = closed.ui->0;
        let now = after.ui->0;
        let status = "closed: "@ + error;
        assert("closed:"@.is_prefix_of(status)) by {
            reveal_strlit("closed: ");
            reveal_strlit("closed:");
            assert("closed:"@ =~= status.subrange(0, "closed:"@.len() as int));
        }
        assert forall|i: int| 0 <= i < known.paths.len() implies {
            &&& (#[trigger] down.connection(remote).paths[i]).status == status
            &&& now.connection(remote).paths[i] == (server_ui::PathRowModel {
                status: "up"@,
                ..known.paths[i]
            })
        } by {
            assert(down.connection(remote).paths[i] == (server_ui::PathRowModel {
                status,
                ..known.paths[i]
            }));
        }
        assert(now.connection(other) == ui.connection(other)) by {
            assert(down.connections@.contains_key(other) <==> ui.connections@.contains_key(other));
            assert(now.connections@.contains_key(other) <==> down.connections@.contains_key(other));
            if ui.connections@.contains_key(other) {
                assert(down.connections@[other] == ui.connections@[other]);
                assert(now.connections@[other] == down.connections@[other]);
            }
        }
    }
}

/// A path that is not shown as closed stays as it is when something is received.
pub proof fn law_open_paths_stay(row: server_ui::PathRowModel)
    ensures
        !"closed:"@.is_prefix_of(row.status) ==> server_ui::revived_row(row) == row,
        server_ui::revived_row(row) == (server_ui::PathRowModel {
            status: server_ui::revived_row(row).status,
            ..row
        }),
{
}

/// What cannot be read, and a connection that is reset, are counted each as what they are if there
/// is a view, and printed if there is none.
pub proof fn law_faults_are_counted(
    before: ServerCtx,
    after: ServerCtx,
    printed: Option<String>,
    remote: Seq<char>,
    error: Seq<char>,
)
    requires
        before.ui matches Some(ui) ==> ui.invalid_packets < u64::MAX && ui.connection_resets
            < u64::MAX,
    ensures
        after.rejects(before, printed) ==> match before.ui {
            Some(ui) => printed is None && after.ui == Some(
                ServerUiState { invalid_packets: (ui.invalid_packets + 1) as u64, ..ui },
            ),
            None => after.ui is None && (printed matches Some(text) && text@
                == "WARN invalid packet"@),
        },
        after.resets(before, remote, error, printed) ==> match before.ui {
            Some(ui) => printed is None && after.ui == Some(
                ServerUiState { connection_resets: (ui.connection_resets + 1) as u64, ..ui },
            ),
            None => after.ui is None && (printed matches Some(text) && text@
                == "WARN connection reset remote="@ + remote + " error="@ + error),
        },
{
}

/// The table of connections has a row for every path of every connection, with the cells of that
/// path.
pub proof fn law_every_server_path_has_a_row(
    ui: ServerUiState,
    mb: Map<Seq<char>, String>,
    mbps: Map<Seq<char>, String>,
    count: nat,
    place: int,
    path: int,
)
    requires
        0 <= place < count,
        0 <= path < ui.connections.values()[place].paths@.len(),
    ensures
        server_view::rows_until(ui, mb, mbps, count).contains(
            server_view::path_cells(
                ui.connections.names()[place],
                ui.connections.values()[place],
                ui.connections.values()[place].paths@[path]@,
                server_view::text_for(mb, ui.connections.names()[place], "-"@),
                server_view::text_for(mbps, ui.connections.names()[place], "0.00"@),
            ),
        ),
    decreases count,
{
    let remote = ui.connections.names()[place];
    let connection = ui.connections.values()[place];
    let cells = server_view::path_cells(
        remote,
        connection,
        connection.paths@[path]@,
        server_view::text_for(mb, remote, "-"@),
        server_view::text_for(mbps, remote, "0.00"@),
    );
    let before = server_view::rows_until(ui, mb, mbps, (count - 1) as nat);
    let rows = server_view::rows_until(ui, mb, mbps, count);
    if place < count - 1 {
        law_every_server_path_has_a_row(ui, mb, mbps, (count - 1) as nat, place, path);
        let k = choose|k: int| 0 <= k < before.len() && before[k] == cells;
        assert(rows[k] == cells);
    } else {
        assert(rows[before.len() + path] == cells);
    }
}

/// A row of the table of connections tells who is connected, what was received, how the path goes,
/// and how it is; where an amount or a rate is not known, a dash or nought is shown.
pub proof fn law_server_cells_tell(
    remote: Seq<char>,
    connection: server_ui::ConnectionView,
    row: server_ui::PathRowModel,
    mb: Seq<char>,
    mbps: Seq<char>,
    map: Map<Seq<char>, String>,
    missing: Seq<char>,
)
    ensures
        ({
            let cells = server_view::path_cells(remote, connection, row, mb, mbps);
            &&& cells.len() == 10
            &&& cells[0] == remote
            &&& cells[1] == text::decimal(connection.received_packets as nat)
            &&& connection.max_seq matches Some(most) ==> cells[2] == text::decimal(most as nat)
            &&& connection.max_seq is None ==> cells[2] == "-"@
            &&& connection.last_seq matches Some(last) ==> cells[3] == text::decimal(last as nat)
            &&& connection.last_seq is None ==> cells[3] == "-"@
            &&& cells[4] == mb
            &&& cells[5] == mbps
            &&& cells[6] == row.transport
            &&& row.selected ==> cells[7] == "yes"@
            &&& !row.selected ==> cells[7] == "no"@
            &&& cells[8] == row.status
            &&& cells[9] == row.remote_addr
        }),
        map.contains_key(remote) ==> server_view::text_for(map, remote, missing) == map[remote]@,
        !map.contains_key(remote) ==> server_view::text_for(map, remote, missing) == missing,
{
}

/// The table of paths has a row for every path of every interface, with the cells of that path.
pub proof fn law_every_client_path_has_a_row(
    ui: ClientUiState,
    mbps: Map<Seq<char>, String>,
    count: nat,
    place: int,
    path: int,
)
    requires
        0 <= place < count,
        0 <= path < ui.paths.values()[place]@.len(),
    ensures
        ({
            let row = ui.paths.values()[place]@[path]@;
            let interface = ui.paths.names()[place];
            let cells = client_view::path_cells(
                interface,
                row,
                server_view::text_for(mbps, interface, "-"@),
            );
            &&& client_view::rows_until(ui, mbps, count).contains(cells)
            &&& cells.len() == 9
            &&& cells[0] == interface
            &&& cells[1] == text::short_text(row.endpoint_id)
            &&& cells[2] == server_view::text_for(mbps, interface, "-"@)
            &&& cells[3] == row.server_mbps
            &&& cells[4] == row.degradation
            &&& cells[5] == row.transport
            &&& cells[7] == row.status
            &&& cells[8] == row.remote_addr
        }),
    decreases count,
{
    let row = ui.paths.values()[place]@[path]@;
    let interface = ui.paths.names()[place];
    let cells = client_view::path_cells(
        interface,
        row,
        server_view::text_for(mbps, interface, "-"@),
    );
    let before = client_view::rows_until(ui, mbps, (count - 1) as nat);
    let rows = client_view::rows_until(ui, mbps, count);
    if place < count - 1 {
        law_every_client_path_has_a_row(ui, mbps, (count - 1) as nat, place, path);
        let k = choose|k: int| 0 <= k < before.len() && before[k] == cells;
        assert(rows[k] == cells);
    } else {
        assert(rows[before.len() + path] == cells);
    }
}

/// Addresses of a kind are shown one after the other, and a dash if there are none.
pub proof fn law_addresses_are_shown(lines: Seq<Seq<char>>, kind: Seq<char>, addr: Seq<char>)
    ensures
        server_view::addrs_text(Seq::empty(), kind) == "-"@,
        server_view::addrs_text(seq!["server_addr="@ + kind + addr], kind) == addr,
        server_view::values_of(lines, "server_addr="@ + kind).len() == 0
            ==> server_view::addrs_text(lines, kind) == "-"@,
{
    let pattern = "server_addr="@ + kind;
    law_rest_follows_the_pattern(addr, pattern, 0);
    assert(server_view::values_of(seq![pattern + addr], pattern) == seq![addr]);
}

/// Lines that are logged one after the other are the last of the log in their order, as far as there
/// is room for them.
pub proof fn law_logged_lines_are_last(logs: Seq<Seq<char>>, lines: Seq<Seq<char>>)
    requires
        logs.len() <= 120,
        lines.len() <= 120,
    ensures
        client_ctx::all_logged(logs, lines).len() <= 120,
        lines.is_suffix_of(client_ctx::all_logged(logs, lines)),
        logs.len() + lines.len() <= 120 ==> client_ctx::all_logged(logs, lines) == logs + lines,
    decreases lines.len(),
{
    let all = client_ctx::all_logged(logs, lines);
    if lines.len() == 0 {
        assert(logs + lines =~= logs);
        assert(lines =~= all.subrange(all.len() - lines.len(), all.len() as int));
    } else {
        let fewer = lines.drop_last();
        law_logged_lines_are_last(logs, fewer);
        let before = client_ctx::all_logged(logs, fewer);
        law_log_keeps_the_last_lines(before, lines.last());
        assert(fewer =~= before.subrange(before.len() - fewer.len(), before.len() as int));
        assert(all.len() >= lines.len());
        let tail = all.subrange(all.len() - lines.len(), all.len() as int);
        assert forall|i: int| 0 <= i < lines.len() implies #[trigger] tail[i] == lines[i] by {
            if i < fewer.len() {
                let kept = before.subrange(before.len() - fewer.len(), before.len() as int);
                assert(fewer[i] == kept[i]);
                assert(kept[i] == before[before.len() - fewer.len() + i]);
                assert(lines[i] == fewer[i]);
                let k = all.len() - lines.len() + i;
                assert(tail[i] == all[k]);
                if before.len() >= 120 {
                    assert(all[k] == before[k + 1]);
                } else {
                    assert(all[k] == before[k]);
                }
            }
        }
        assert(lines =~= tail);
        if logs.len() + lines.len() <= 120 {
            assert(all =~= logs + lines);
        }
    }
}

/// The paths of a connection replace those that were shown of the interface, each as it is, and the
/// lines are logged, or printed without a view.
pub proof fn law_paths_are_shown_anew(
    before: ClientCtx,
    after: ClientCtx,
    interface: Seq<char>,
    endpoint_id: Seq<char>,
    paths: Seq<PathInfo>,
    printed: Seq<Seq<char>>,
    lines: Seq<Seq<char>>,
    other: Seq<char>,
)
    requires
        after.shows_paths(before, interface, endpoint_id, paths, printed, lines),
        before.well_formed(),
        lines.len() <= 120,
    ensures
        before.ui is None ==> after.ui is None && printed == lines,
        before.ui matches Some(ui) ==> {
            &&& printed.len() == 0
            &&& after.ui matches Some(now)
            &&& lines.is_suffix_of(text::texts(now.logs@))
            &&& now.rows_of(interface).len() == paths.len()
            &&& forall|i: int|
                0 <= i < paths.len() ==> (#[trigger] now.rows_of(interface)[i]).remote_addr
                    == paths[i].remote_addr@ && now.rows_of(interface)[i].endpoint_id
                    == endpoint_id && now.rows_of(interface)[i].selected == paths[i].selected
            &&& other != interface ==> now.rows_of(other) == ui.rows_of(other)
            &&& now.sent_packets == ui.sent_packets
            &&& now.send_errors == ui.send_errors
        },
{
    if let Some(ui) = before.ui {
        law_logged_lines_are_last(text::texts(ui.logs@), lines);
    }
}

} // verus!
