//! What the client does when something happens to one of its paths.

use crate::client_ctx;
use crate::client_ctx::ClientCtx;
use crate::client_ui;
use crate::client_ui::ClientUiState;
use crate::path_info::PathInfo;
use crate::path_link;
use crate::path_link::{BindAddr, LivePath, PathConnection};
use crate::protocol::FEC_SEQUENCE;
use crate::strategy::{
    InterfaceLinkStatus, PathStrategy, StrategyChange, StrategyMode, StrategyState,
};
use crate::text;
use crate::text::push_decimal;
use vstd::prelude::*;

verus! {

/// How long the client waits before it tries a path again, at first, in milliseconds.
pub const FIRST_RETRY_DELAY_MS: u64 = 250;

/// How long the client waits before it tries a path again, at most, in milliseconds.
pub const LAST_RETRY_DELAY_MS: u64 = 5_000;

/// How long the client tries to connect a path, in seconds.
pub const RECONNECT_ATTEMPT_TIMEOUT_SECS: u64 = 10;

/// How often the client looks at the address of an interface, in milliseconds.
pub const INTERFACE_WATCH_INTERVAL_MS: u64 = 1_000;

/// The mode and the strategy as they are shown.
pub open spec fn shown_labels(strategy: StrategyState) -> (Seq<char>, Seq<char>) {
    (strategy.mode_label(), strategy.effective().label())
}

/// The line for a change of strategy.
pub open spec fn change_line(strategy: Seq<char>, reason: Seq<char>) -> Seq<char> {
    "INFO path strategy changed strategy="@ + strategy + " reason=\""@ + reason + "\""@
}

/// The lines go to the log of the view, or are printed if there is no view; if the strategy changed
/// it is shown.
pub open spec fn announced(
    before: ClientCtx,
    after: ClientCtx,
    printed: Seq<Seq<char>>,
    lines: Seq<Seq<char>>,
    labels: Option<(Seq<char>, Seq<char>)>,
) -> bool {
    &&& after.well_formed()
    &&& after == (ClientCtx { ui: after.ui, ..before })
    &&& match before.ui {
        Some(ui) => {
            &&& after.ui matches Some(now)
            &&& now == (ClientUiState {
                logs: now.logs,
                strategy_mode: now.strategy_mode,
                effective_strategy: now.effective_strategy,
                ..ui
            })
            &&& text::texts(now.logs@) == client_ctx::all_logged(text::texts(ui.logs@), lines)
            &&& match labels {
                Some((mode, effective)) => now.strategy_mode@ == mode
                    && now.effective_strategy@ == effective,
                None => now.strategy_mode == ui.strategy_mode && now.effective_strategy
                    == ui.effective_strategy,
            }
            &&& printed.len() == 0
        },
        None => after.ui is None && printed == lines,
    }
}

/// The view shows an error of an interface, and lines are announced.
pub open spec fn failure_shown(
    before: ClientCtx,
    after: ClientCtx,
    interface: Seq<char>,
    error: Seq<char>,
    printed: Seq<Seq<char>>,
    lines: Seq<Seq<char>>,
    labels: Option<(Seq<char>, Seq<char>)>,
) -> bool {
    exists|shown: ClientCtx| #[trigger]
        shown.shows_error(before, interface, error) && announced(
            shown,
            after,
            printed,
            lines,
            labels,
        )
}

/// The lines for a change of strategy.
pub open spec fn change_lines(strategy: StrategyState, reason: Seq<char>) -> Seq<Seq<char>> {
    if strategy.mode == StrategyMode::Auto && strategy.effective() != PathStrategy::Redundant {
        seq![change_line("redundant"@, reason)]
    } else {
        Seq::empty()
    }
}

/// What is shown of the strategy once it has fallen back, if it has.
pub open spec fn change_labels(
    before: StrategyState,
    after: StrategyState,
) -> Option<(Seq<char>, Seq<char>)> {
    if before.mode == StrategyMode::Auto && before.effective() != PathStrategy::Redundant {
        Some(shown_labels(after))
    } else {
        None
    }
}

/// Reports a change of strategy.
pub fn announce_change(
    change: Option<StrategyChange>,
    strategy: &StrategyState,
    ctx: &mut ClientCtx,
) -> (printed: Vec<String>)
    requires
        old(ctx).well_formed(),
    ensures
        match change {
            Some(change) => announced(
                *old(ctx),
                *final(ctx),
                text::texts(printed@),
                seq![change_line(change.strategy@, change.reason@)],
                Some(shown_labels(*strategy)),
            ),
            None => *final(ctx) == *old(ctx) && printed@.len() == 0,
        },
{
    let mut printed: Vec<String> = Vec::new();
    if let Some(change) = change {
        let ghost line = change_line(change.strategy@, change.reason@);
        let ghost before = *ctx;
        if let Some(text) = ctx.record_strategy_change(
            change.strategy.as_str(),
            change.reason.as_str(),
        ) {
            printed.push(text);
            assert(text::texts(printed@) =~= seq![line]);
        }
        let (mode, effective) = strategy.labels();
        ctx.record_strategy_state(mode, effective);
        proof {
            assert(seq![line].drop_last() =~= Seq::<Seq<char>>::empty());
            if let Some(ui) = before.ui {
                assert(client_ctx::all_logged(text::texts(ui.logs@), Seq::empty()) == text::texts(
                    ui.logs@,
                ));
                assert(client_ctx::all_logged(text::texts(ui.logs@), seq![line])
                    == client_ui::logged(text::texts(ui.logs@), line));
            }
        }
    }
    printed
}

/// Logging some lines and others after them is logging them all.
proof fn lemma_all_logged(logs: Seq<Seq<char>>, first: Seq<Seq<char>>, second: Seq<Seq<char>>)
    ensures
        client_ctx::all_logged(client_ctx::all_logged(logs, first), second)
            == client_ctx::all_logged(logs, first + second),
    decreases second.len(),
{
    if second.len() == 0 {
        assert(first + second =~= first);
    } else {
        lemma_all_logged(logs, first, second.drop_last());
        assert((first + second).drop_last() =~= first + second.drop_last());
    }
}

/// What is announced one after the other is announced together.
proof fn lemma_announced(
    before: ClientCtx,
    between: ClientCtx,
    after: ClientCtx,
    first_printed: Seq<Seq<char>>,
    second_printed: Seq<Seq<char>>,
    first: Seq<Seq<char>>,
    second: Seq<Seq<char>>,
    labels: Option<(Seq<char>, Seq<char>)>,
)
    requires
        announced(before, between, first_printed, first, None),
        announced(between, after, second_printed, second, labels),
    ensures
        announced(before, after, first_printed + second_printed, first + second, labels),
{
    if let Some(ui) = before.ui {
        lemma_all_logged(text::texts(ui.logs@), first, second);
    }
}

/// Reports a line.
fn announce_line(line: String, ctx: &mut ClientCtx) -> (printed: Vec<String>)
    requires
        old(ctx).well_formed(),
    ensures
        announced(*old(ctx), *final(ctx), text::texts(printed@), seq![line@], None),
{
    let ghost text = line@;
    let ghost before = *ctx;
    let mut printed: Vec<String> = Vec::new();
    if let Some(line) = ctx.report(line) {
        printed.push(line);
        assert(text::texts(printed@) =~= seq![text]);
    }
    proof {
        assert(seq![text].drop_last() =~= Seq::<Seq<char>>::empty());
        if let Some(ui) = before.ui {
            assert(client_ctx::all_logged(text::texts(ui.logs@), Seq::empty()) == text::texts(
                ui.logs@,
            ));
            assert(client_ctx::all_logged(text::texts(ui.logs@), seq![text]) == client_ui::logged(
                text::texts(ui.logs@),
                text,
            ));
        }
    }
    printed
}

/// The strategy falls back to sending every packet over every path, if it is chosen automatically.
pub open spec fn fallback(before: StrategyState) -> PathStrategy {
    if before.mode == StrategyMode::Auto && before.effective() != PathStrategy::Redundant {
        PathStrategy::Redundant
    } else {
        before.strategy
    }
}

/// An interface has failed, and the strategy falls back.
pub open spec fn failed_over(
    before: StrategyState,
    after: StrategyState,
    interface: Seq<char>,
) -> bool {
    &&& after.well_formed()
    &&& after == (StrategyState {
        strategy: fallback(before),
        interface_failures: after.interface_failures,
        interface_status: after.interface_status,
        ..before
    })
    &&& after.interface_failures@ == before.interface_failures@.insert(interface, ())
    &&& after.interface_status@ == before.interface_status@.insert(
        interface,
        InterfaceLinkStatus::Reconnecting,
    )
}

/// After an interface failed, packets are sent over every path if the strategy is chosen
/// automatically, and as before if it is not.
pub proof fn law_failure_makes_sending_redundant(
    before: StrategyState,
    after: StrategyState,
    interface: Seq<char>,
)
    requires
        failed_over(before, after, interface),
    ensures
        before.mode == StrategyMode::Auto ==> after.effective() == PathStrategy::Redundant,
        before.mode != StrategyMode::Auto ==> after.effective() == before.effective(),
{
}

/// Shows an error of an interface and a line, and lets the strategy fall back.
fn fail_over(
    interface: &str,
    error: String,
    line: String,
    reason: String,
    strategy: &mut StrategyState,
    ctx: &mut ClientCtx,
) -> (printed: Vec<String>)
    requires
        old(strategy).well_formed(),
        old(ctx).well_formed(),
    ensures
        failed_over(*old(strategy), *final(strategy), interface@),
        failure_shown(
            *old(ctx),
            *final(ctx),
            interface@,
            error@,
            text::texts(printed@),
            seq![line@] + change_lines(*old(strategy), reason@),
            change_labels(*old(strategy), *final(strategy)),
        ),
        final(ctx).well_formed(),
{
    let ghost first = *ctx;
    let ghost started = *strategy;
    let ghost text = line@;
    let ghost why = reason@;
    strategy.record_interface_failure(interface);
    ctx.record_send_error(interface.to_owned(), error);
    let ghost shown = *ctx;
    let mut printed = announce_line(line, ctx);
    let ghost said = *ctx;
    let ghost one = text::texts(printed@);
    let change = strategy.degrade_to_redundant(reason);
    let ghost known = change;
    let mut more = announce_change(change, strategy, ctx);
    let ghost two = text::texts(more@);
    let ghost early = printed@;
    let ghost late = more@;
    printed.append(&mut more);
    proof {
        assert(text::texts(printed@) =~= one + two);
        let labels = change_labels(started, *strategy);
        let lines = change_lines(started, why);
        if known is None {
            assert(lines =~= Seq::<Seq<char>>::empty());
            assert(two =~= Seq::<Seq<char>>::empty());
            assert(one + two =~= one);
            assert(seq![text] + lines =~= seq![text]);
            assert(announced(shown, *ctx, one, seq![text], None));
        } else {
            lemma_announced(shown, said, *ctx, one, two, seq![text], lines, labels);
        }
        assert(shown.shows_error(first, interface@, error@));
        assert(announced(shown, *ctx, one + two, seq![text] + lines, labels));
    }
    printed
}

/// What was sent over a path.
#[derive(Debug, Clone, Copy, PartialEq, Eq, Structural)]
pub enum Sent {
    /// A media packet.
    Media { sequence: u64, payload_len: u64 },
    /// A parity frame.
    Fec,
}

/// What remains to be done: lines to print, and a connection to close.
#[derive(Debug)]
pub struct FollowUp {
    pub printed: Vec<String>,
    pub closed: Option<LivePath>,
}

/// An interface has sent a packet.
pub open spec fn send_counted(
    before: StrategyState,
    after: StrategyState,
    interface: Seq<char>,
    packet_len: u64,
) -> bool {
    &&& after.well_formed()
    &&& after == (StrategyState {
        interface_failures: after.interface_failures,
        interface_status: after.interface_status,
        interface_traffic: after.interface_traffic,
        ..before
    })
    &&& after.interface_failures@ == before.interface_failures@.remove(interface)
    &&& after.interface_status@ == before.interface_status@.insert(
        interface,
        InterfaceLinkStatus::Connected,
    )
    &&& after.interface_traffic@ == (if before.monitor_packets
        && before.interface_traffic@.contains_key(interface) {
        before.interface_traffic@.insert(
            interface,
            before.interface_traffic@[interface].with_sent(packet_len),
        )
    } else {
        before.interface_traffic@
    })
}

/// How many bytes are counted for what was sent: those of the payload, or of the whole frame.
pub open spec fn counted_bytes(sent: Sent, packet_len: u64) -> u64 {
    match sent {
        Sent::Media { payload_len, .. } => payload_len,
        Sent::Fec => packet_len,
    }
}

/// The error that is shown among the paths of an interface.
pub open spec fn shown_error(sent: Sent, error: Seq<char>) -> Seq<char> {
    match sent {
        Sent::Media { .. } => error,
        Sent::Fec => "fec send failed: "@ + error,
    }
}

/// The line for a packet that could not be sent.
pub open spec fn failure_line(interface: Seq<char>, sequence: u64, error: Seq<char>) -> Seq<char> {
    "ERROR failed to send duplicated packet interface="@ + interface + " seq="@ + text::decimal(
        sequence as nat,
    ) + " error="@ + error
}

/// The number that stands for what was sent.
pub open spec fn sent_sequence(sent: Sent) -> u64 {
    match sent {
        Sent::Media { sequence, .. } => sequence,
        Sent::Fec => FEC_SEQUENCE,
    }
}

/// Why the strategy falls back.
pub open spec fn fallback_reason(sent: Sent, interface: Seq<char>, error: Seq<char>) -> Seq<char> {
    match sent {
        Sent::Media { sequence, .. } => "send error interface="@ + interface + " sequence="@
            + text::decimal(sequence as nat) + " error="@ + error,
        Sent::Fec => "fec send error interface="@ + interface + " error="@ + error,
    }
}

/// Takes note of what became of a packet for a path. A packet that was sent is counted. A packet
/// that was not makes the client give up the connection, show the error, and send every packet over
/// every path.
pub fn record_send_result(
    path: &mut PathConnection,
    sent: Sent,
    packet_len: u64,
    connection_id: Option<usize>,
    error: Option<&str>,
    strategy: &mut StrategyState,
    ctx: &mut ClientCtx,
) -> (follow_up: FollowUp)
    requires
        old(strategy).well_formed(),
        old(ctx).well_formed(),
    ensures
        final(ctx).well_formed(),
        old(path).is_alive() ==> final(path).is_alive(),
        match error {
            None => {
                &&& *final(path) == *old(path)
                &&& send_counted(
                    *old(strategy),
                    *final(strategy),
                    old(path).display_name@,
                    packet_len,
                )
                &&& final(ctx).shows_send(
                    *old(ctx),
                    old(path).display_name@,
                    counted_bytes(sent, packet_len),
                )
                &&& follow_up.closed is None
                &&& follow_up.printed@.len() == 0
            },
            Some(error) => {
                &&& if old(path).is_hit(connection_id) {
                    &&& *final(path) == (PathConnection {
                        live: None,
                        reconnect_requested: true,
                        ..*old(path)
                    })
                    &&& follow_up.closed == old(path).live
                } else {
                    *final(path) == *old(path) && follow_up.closed is None
                }
                &&& failed_over(*old(strategy), *final(strategy), old(path).display_name@)
                &&& failure_shown(
                    *old(ctx),
                    *final(ctx),
                    old(path).display_name@,
                    shown_error(sent, error@),
                    text::texts(follow_up.printed@),
                    seq![failure_line(old(path).display_name@, sent_sequence(sent), error@)]
                        + change_lines(
                        *old(strategy),
                        fallback_reason(sent, old(path).display_name@, error@),
                    ),
                    change_labels(*old(strategy), *final(strategy)),
                )
            },
        },
{
    let error = match error {
        None => {
            strategy.record_interface_success(path.display_name.as_str());
            strategy.record_interface_send(path.display_name.as_str(), packet_len);
            let bytes: u64 = match sent {
                Sent::Media { payload_len, .. } => payload_len,
                Sent::Fec => packet_len,
            };
            ctx.record_send(path.display_name.clone(), bytes);
            return FollowUp { printed: Vec::new(), closed: None };
        },
        Some(error) => error,
    };
    let name = path.display_name.clone();
    let closed = path.mark_failed(connection_id);
    let mut reason = "".to_owned();
    let mut shown = "".to_owned();
    proof {
        reveal_strlit("");
    }
    let sequence: u64 = match sent {
        Sent::Media { sequence, .. } => {
            reason.append("send error interface=");
            reason.append(name.as_str());
            reason.append(" sequence=");
            push_decimal(&mut reason, sequence);
            sequence
        },
        Sent::Fec => {
            shown.append("fec send failed: ");
            reason.append("fec send error interface=");
            reason.append(name.as_str());
            FEC_SEQUENCE
        },
    };
    shown.append(error);
    reason.append(" error=");
    reason.append(error);
    let mut line = "ERROR failed to send duplicated packet interface=".to_owned();
    line.append(name.as_str());
    line.append(" seq=");
    push_decimal(&mut line, sequence);
    line.append(" error=");
    line.append(error);
    proof {
        assert(shown@ =~= shown_error(sent, error@));
        assert(reason@ =~= fallback_reason(sent, name@, error@));
        assert(line@ =~= failure_line(name@, sent_sequence(sent), error@));
    }
    let printed = fail_over(name.as_str(), shown, line, reason, strategy, ctx);
    FollowUp { printed, closed }
}

/// Takes note of a path over which no more replies come.
pub fn record_return_path_closed(
    path: &mut PathConnection,
    connection_id: usize,
    error: &str,
    strategy: &mut StrategyState,
    ctx: &mut ClientCtx,
) -> (follow_up: FollowUp)
    requires
        old(strategy).well_formed(),
        old(ctx).well_formed(),
    ensures
        final(ctx).well_formed(),
        old(path).is_alive() ==> final(path).is_alive(),
        if old(path).is_hit(Some(connection_id)) {
            &&& *final(path) == (PathConnection {
                live: None,
                reconnect_requested: true,
                ..*old(path)
            })
            &&& follow_up.closed == old(path).live
        } else {
            *final(path) == *old(path) && follow_up.closed is None
        },
        failed_over(*old(strategy), *final(strategy), old(path).display_name@),
        failure_shown(
            *old(ctx),
            *final(ctx),
            old(path).display_name@,
            "return path closed: "@ + error@,
            text::texts(follow_up.printed@),
            seq![
                "INFO return path closed interface="@ + old(path).display_name@ + " error="@
                    + error@,
            ] + change_lines(
                *old(strategy),
                "return path closed interface="@ + old(path).display_name@ + " error="@ + error@,
            ),
            change_labels(*old(strategy), *final(strategy)),
        ),
{
    let name = path.display_name.clone();
    let closed = path.mark_failed(Some(connection_id));
    let mut shown = "return path closed: ".to_owned();
    shown.append(error);
    let mut line = "INFO return path closed interface=".to_owned();
    line.append(name.as_str());
    line.append(" error=");
    line.append(error);
    let mut reason = "return path closed interface=".to_owned();
    reason.append(name.as_str());
    reason.append(" error=");
    reason.append(error);
    let printed = fail_over(name.as_str(), shown, line, reason, strategy, ctx);
    FollowUp { printed, closed }
}

/// The interface is being connected again.
pub open spec fn reconnecting(
    before: StrategyState,
    after: StrategyState,
    interface: Seq<char>,
) -> bool {
    &&& after.well_formed()
    &&& after == (StrategyState { interface_status: after.interface_status, ..before })
    &&& after.interface_status@ == before.interface_status@.insert(
        interface,
        InterfaceLinkStatus::Reconnecting,
    )
}

/// The interface is dead.
pub open spec fn died(before: StrategyState, after: StrategyState, interface: Seq<char>) -> bool {
    &&& after.well_formed()
    &&& after == (StrategyState {
        interface_failures: after.interface_failures,
        interface_status: after.interface_status,
        ..before
    })
    &&& after.interface_failures@ == before.interface_failures@.insert(interface, ())
    &&& after.interface_status@ == before.interface_status@.insert(
        interface,
        InterfaceLinkStatus::Dead,
    )
}

/// Takes note of the address that an interface has, or that it has none. A path whose interface has
/// another address now is connected again; one whose interface has none is too, and the interface
/// counts as dead.
pub fn record_interface_address(
    path: &mut PathConnection,
    found: Option<BindAddr>,
    strategy: &mut StrategyState,
    ctx: &mut ClientCtx,
) -> (closed: Option<LivePath>)
    requires
        old(strategy).well_formed(),
        old(ctx).well_formed(),
    ensures
        final(ctx).well_formed(),
        old(path).is_alive() ==> final(path).is_alive(),
        match found {
            Some(addr) => if old(path).live matches Some(live) && live.bind_addr.ip != addr.ip {
                &&& *final(path) == (PathConnection {
                    live: None,
                    reconnect_requested: true,
                    ..*old(path)
                })
                &&& closed == old(path).live
                &&& reconnecting(*old(strategy), *final(strategy), old(path).display_name@)
                &&& final(ctx).shows_error(
                    *old(ctx),
                    old(path).display_name@,
                    "interface address changed, reconnecting: "@ + path_link::addr_text(addr),
                )
            } else {
                &&& *final(path) == *old(path)
                &&& closed is None
                &&& *final(strategy) == *old(strategy)
                &&& *final(ctx) == *old(ctx)
            },
            None => {
                &&& *final(path) == (PathConnection {
                    live: None,
                    reconnect_requested: true,
                    ..*old(path)
                })
                &&& closed == old(path).live
                &&& died(*old(strategy), *final(strategy), old(path).display_name@)
                &&& *final(ctx) == *old(ctx)
            },
        },
{
    match found {
        Some(addr) => {
            let closed = path.mark_interface_changed(addr);
            if closed.is_some() {
                strategy.record_interface_reconnecting(path.display_name.as_str());
                let mut error = "interface address changed, reconnecting: ".to_owned();
                error.append(addr.written().as_str());
                ctx.record_send_error(path.display_name.clone(), error);
            }
            closed
        },
        None => {
            let closed = path.mark_failed(None);
            if closed.is_none() {
                path.request_reconnect();
            }
            strategy.record_interface_dead(path.display_name.as_str());
            closed
        },
    }
}

/// Takes note of a connection that was closed.
pub fn record_connection_closed(
    path: &mut PathConnection,
    connection_id: usize,
    reason: &str,
    strategy: &mut StrategyState,
    ctx: &mut ClientCtx,
) -> (closed: Option<LivePath>)
    requires
        old(strategy).well_formed(),
        old(ctx).well_formed(),
    ensures
        final(ctx).well_formed(),
        old(path).is_alive() ==> final(path).is_alive(),
        if old(path).is_hit(Some(connection_id)) {
            &&& *final(path) == (PathConnection {
                live: None,
                reconnect_requested: true,
                ..*old(path)
            })
            &&& closed == old(path).live
        } else {
            *final(path) == *old(path) && closed is None
        },
        reconnecting(*old(strategy), *final(strategy), old(path).display_name@),
        final(ctx).shows_error(
            *old(ctx),
            old(path).display_name@,
            "connection closed: "@ + reason@,
        ),
{
    strategy.record_interface_reconnecting(path.display_name.as_str());
    let mut error = "connection closed: ".to_owned();
    error.append(reason);
    ctx.record_send_error(path.display_name.clone(), error);
    path.mark_failed(Some(connection_id))
}

/// The line for a path that could not be connected.
pub open spec fn reconnect_line(interface: Seq<char>, error: Seq<char>) -> Seq<char> {
    "ERROR failed to reconnect path interface="@ + interface + " error="@ + error
}

/// Shows that a path could not be connected.
fn show_connect_failure(interface: &str, shown: String, error: &str, ctx: &mut ClientCtx) -> (
    printed: Vec<String>)
    requires
        old(ctx).well_formed(),
    ensures
        final(ctx).well_formed(),
        failure_shown(
            *old(ctx),
            *final(ctx),
            interface@,
            shown@,
            text::texts(printed@),
            seq![reconnect_line(interface@, error@)],
            None,
        ),
{
    let ghost first = *ctx;
    ctx.record_send_error(interface.to_owned(), shown);
    let ghost between = *ctx;
    let mut line = "ERROR failed to reconnect path interface=".to_owned();
    line.append(interface);
    line.append(" error=");
    line.append(error);
    let printed = announce_line(line, ctx);
    assert(between.shows_error(first, interface@, shown@));
    printed
}

/// Takes note of a path that could not be connected when the client started.
pub fn record_initial_failure(interface: &str, error: &str, ctx: &mut ClientCtx) -> (printed: Vec<
    String,
>)
    requires
        old(ctx).well_formed(),
    ensures
        final(ctx).well_formed(),
        failure_shown(
            *old(ctx),
            *final(ctx),
            interface@,
            "initial connect failed, retrying: "@ + error@,
            text::texts(printed@),
            seq![reconnect_line(interface@, error@)],
            None,
        ),
{
    let mut shown = "initial connect failed, retrying: ".to_owned();
    shown.append(error);
    show_connect_failure(interface, shown, error, ctx)
}

/// The line for a path that was connected.
pub open spec fn connected_line(
    interface: Seq<char>,
    endpoint_id: Seq<char>,
    addr: BindAddr,
) -> Seq<char> {
    "INFO connected interface-bound iroh path interface="@ + interface + " endpoint_id="@
        + endpoint_id + " local_addr="@ + path_link::addr_text(addr)
}

/// Shows a path that was connected.
pub fn show_connected(
    interface: &str,
    endpoint_id: &str,
    addr: BindAddr,
    paths: &[PathInfo],
    ctx: &mut ClientCtx,
) -> (printed: Vec<String>)
    requires
        old(ctx).well_formed(),
    ensures
        final(ctx).well_formed(),
        final(ctx).shows_paths(
            *old(ctx),
            interface@,
            endpoint_id@,
            paths@,
            text::texts(printed@),
            client_ctx::connection_lines(interface@, paths@) + seq![
                connected_line(interface@, endpoint_id@, addr),
            ],
        ),
{
    let ghost first = *ctx;
    let ghost lines = client_ctx::connection_lines(interface@, paths@);
    let ghost line = connected_line(interface@, endpoint_id@, addr);
    let mut printed = ctx.record_connection_paths(interface.to_owned(), endpoint_id, paths, true);
    let ghost early = printed@;
    if let Some(text) = ctx.connected_path(interface, endpoint_id, addr.written().as_str()) {
        printed.push(text);
        assert(text::texts(printed@) =~= text::texts(early).push(line));
        assert(lines.push(line) =~= lines + seq![line]);
    }
    proof {
        assert((lines + seq![line]).drop_last() =~= lines);
        assert((lines + seq![line]).last() == line);
    }
    printed
}

/// What became of an attempt to connect a path.
#[derive(Debug)]
pub enum ReconnectOutcome {
    Connected { live: LivePath, paths: Vec<PathInfo> },
    Failed { error: String },
    TimedOut,
}

/// What remains to be done after an attempt: lines to print, a connection to close, and how long to
/// wait, in milliseconds.
#[derive(Debug)]
pub struct ReconnectFollowUp {
    pub printed: Vec<String>,
    pub replaced: Option<LivePath>,
    pub wait_ms: u64,
}

/// How long the client waits before it tries a path again, in milliseconds.
#[derive(Debug, Clone, Copy, PartialEq, Eq, Structural)]
pub struct ReconnectLoop {
    pub retry_delay_ms: u64,
}

/// The delay after one that did not help.
pub open spec fn longer_delay(delay_ms: u64) -> u64 {
    if delay_ms * 2 > LAST_RETRY_DELAY_MS {
        LAST_RETRY_DELAY_MS
    } else {
        (delay_ms * 2) as u64
    }
}

/// What is said of an attempt that did not help.
pub open spec fn attempt_error(outcome: ReconnectOutcome) -> Seq<char> {
    match outcome {
        ReconnectOutcome::Failed { error } => error@,
        _ => "reconnect timed out after "@ + text::decimal(RECONNECT_ATTEMPT_TIMEOUT_SECS as nat)
            + "s"@,
    }
}

impl ReconnectLoop {
    /// The delay is between the first and the last.
    pub open spec fn well_formed(self) -> bool {
        FIRST_RETRY_DELAY_MS <= self.retry_delay_ms <= LAST_RETRY_DELAY_MS
    }

    pub fn new() -> (retries: ReconnectLoop)
        ensures
            retries.well_formed(),
            retries.retry_delay_ms == FIRST_RETRY_DELAY_MS,
    {
        ReconnectLoop { retry_delay_ms: FIRST_RETRY_DELAY_MS }
    }

    /// Whether a path is to be connected.
    pub fn is_wanted(path: &PathConnection) -> (wanted: bool)
        ensures
            wanted == (path.reconnect_requested && path.live is None),
    {
        path.reconnect_requested() && !path.is_connected()
    }

    /// Takes note of what became of an attempt. After a success the next failure is followed by
    /// the shortest delay; after each failure the delay doubles, up to the longest.
    pub fn finish(
        &mut self,
        path: &mut PathConnection,
        endpoint_id: &str,
        outcome: ReconnectOutcome,
        strategy: &mut StrategyState,
        ctx: &mut ClientCtx,
    ) -> (follow_up: ReconnectFollowUp)
        requires
            old(self).well_formed(),
            old(strategy).well_formed(),
            old(ctx).well_formed(),
        ensures
            final(self).well_formed(),
            final(ctx).well_formed(),
            old(path).is_alive() ==> final(path).is_alive(),
            match outcome {
                ReconnectOutcome::Connected { live, paths } => {
                    &&& final(self).retry_delay_ms == FIRST_RETRY_DELAY_MS
                    &&& *final(path) == (PathConnection {
                        live: Some(live),
                        reconnect_requested: false,
                        ..*old(path)
                    })
                    &&& *final(strategy) == (StrategyState {
                        interface_failures: final(strategy).interface_failures,
                        interface_status: final(strategy).interface_status,
                        ..*old(strategy)
                    })
                    &&& final(strategy).well_formed()
                    &&& final(strategy).interface_failures@ == old(
                        strategy,
                    ).interface_failures@.remove(old(path).display_name@)
                    &&& final(strategy).interface_status@ == old(strategy).interface_status@.insert(
                        old(path).display_name@,
                        InterfaceLinkStatus::Connected,
                    )
                    &&& final(ctx).shows_paths(
                        *old(ctx),
                        old(path).display_name@,
                        endpoint_id@,
                        paths@,
                        text::texts(follow_up.printed@),
                        client_ctx::connection_lines(old(path).display_name@, paths@) + seq![
                            connected_line(
                                old(path).display_name@,
                                endpoint_id@,
                                live.bind_addr,
                            ),
                        ],
                    )
                    &&& follow_up.replaced == old(path).live
                    &&& follow_up.wait_ms == 0
                },
                _ => {
                    &&& final(self).retry_delay_ms == longer_delay(old(self).retry_delay_ms)
                    &&& *final(path) == *old(path)
                    &&& died(*old(strategy), *final(strategy), old(path).display_name@)
                    &&& failure_shown(
                        *old(ctx),
                        *final(ctx),
                        old(path).display_name@,
                        "reconnect failed: "@ + attempt_error(outcome),
                        text::texts(follow_up.printed@),
                        seq![reconnect_line(old(path).display_name@, attempt_error(outcome))],
                        None,
                    )
                    &&& follow_up.replaced is None
                    &&& follow_up.wait_ms == old(self).retry_delay_ms
                },
            },
    {
        let ghost said = attempt_error(outcome);
        let error = match outcome {
            ReconnectOutcome::Connected { live, paths } => {
                self.retry_delay_ms = FIRST_RETRY_DELAY_MS;
                let replaced = path.reconnected(live);
                strategy.record_interface_success(path.display_name.as_str());
                let printed = show_connected(
                    path.display_name.as_str(),
                    endpoint_id,
                    live.bind_addr,
                    paths.as_slice(),
                    ctx,
                );
                return ReconnectFollowUp { printed, replaced, wait_ms: 0 };
            },
            ReconnectOutcome::Failed { error } => error,
            ReconnectOutcome::TimedOut => {
                let mut error = "reconnect timed out after ".to_owned();
                push_decimal(&mut error, RECONNECT_ATTEMPT_TIMEOUT_SECS);
                error.append("s");
                error
            },
        };
        assert(error@ =~= said);
        strategy.record_interface_dead(path.display_name.as_str());
        let mut shown = "reconnect failed: ".to_owned();
        shown.append(error.as_str());
        let printed = show_connect_failure(
            path.display_name.as_str(),
            shown,
            error.as_str(),
            ctx,
        );
        let wait_ms: u64 = self.retry_delay_ms;
        let doubled: u64 = wait_ms * 2;
        self.retry_delay_ms = if doubled > LAST_RETRY_DELAY_MS {
            LAST_RETRY_DELAY_MS
        } else {
            doubled
        };
        ReconnectFollowUp { printed, replaced: None, wait_ms }
    }
}

/// The delay after a number of failures in a row.
pub open spec fn delay_after(failures: nat) -> u64
    decreases failures,
{
    if failures == 0 {
        FIRST_RETRY_DELAY_MS
    } else {
        longer_delay(delay_after((failures - 1) as nat))
    }
}

/// The delay never shrinks while a path keeps failing, and from the fifth failure on it is the
/// longest.
pub proof fn law_delay_grows_to_the_longest(failures: nat)
    ensures
        delay_after(failures) <= delay_after(failures + 1),
        FIRST_RETRY_DELAY_MS <= delay_after(failures) <= LAST_RETRY_DELAY_MS,
        failures >= 5 ==> delay_after(failures) == LAST_RETRY_DELAY_MS,
    decreases failures,
{
    if failures > 0 {
        law_delay_grows_to_the_longest((failures - 1) as nat);
        if failures == 5 {
            reveal_with_fuel(delay_after, 6);
        }
    }
}

} // verus!
