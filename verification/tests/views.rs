use irohsion::client_ctx::ClientCtx;
use irohsion::client_ui::{ClientUiState, EndpointReading, UiCommand};
use irohsion::client_view;
use irohsion::health_report::{ChatMessage, HealthReport};
use irohsion::name_map::NameMap;
use irohsion::path_info::PathInfo;
use irohsion::rates::{CountSample, NamedRates};
use irohsion::server_ui::{PathRow, ServerUiState};
use irohsion::server_view;
use irohsion::server_view::{format_addrs, scroll_by, table_title, table_window, ScrollKey};
use irohsion::strategy::StrategyMode;
use irohsion::text::{fmt_uptime, short_endpoint};

const SECOND: u64 = 1_000_000_000;

fn client_ui() -> ClientUiState {
    ClientUiState::new(
        0,
        5_000,
        "server-id".to_string(),
        "health-id".to_string(),
        vec!["eth0".to_string(), "wlan0".to_string()],
    )
}

fn info(addr: &str) -> PathInfo {
    PathInfo {
        remote_addr: addr.to_string(),
        is_ip: true,
        is_relay: false,
        selected: true,
        closed: false,
    }
}

fn report(unix_ms: u64, chat: &[u64]) -> HealthReport {
    HealthReport {
        seq: 1,
        unix_ms,
        endpoints: Vec::new(),
        chat: chat
            .iter()
            .map(|id| ChatMessage {
                id: *id,
                unix_ms: *id,
                user: "u".to_string(),
                text: format!("m{id}"),
            })
            .collect(),
    }
}

#[test]
fn uptimes_are_written_with_colons() {
    assert_eq!(fmt_uptime(0), "00:00:00");
    assert_eq!(fmt_uptime(3_661), "01:01:01");
    assert_eq!(fmt_uptime(360_000), "100:00:00");
}

#[test]
fn long_endpoints_are_shortened() {
    assert_eq!(short_endpoint("abcdefgh"), "abcdefgh");
    assert_eq!(short_endpoint("abcdefghi").chars().take(8).collect::<String>(), "abcdefgh");
}

#[test]
fn the_client_overview_tells_who_is_where() {
    let mut ui = client_ui();
    ui.record_ingest(100, "127.0.0.1:1".to_string());
    assert_eq!(
        client_view::overview_lines(&ui, 61, "2s ago"),
        vec![
            "uptime 00:01:01",
            "server server-id",
            "health health-id",
            "port 5000  interfaces eth0, wlan0",
            "last ingest from 127.0.0.1:1",
            "last health 2s ago",
            "health -",
        ]
    );
}

#[test]
fn the_client_flow_is_lined_up() {
    let mut ui = client_ui();
    ui.record_ingest(100, "x".to_string());
    ui.record_send("eth0".to_string(), 104);
    ui.record_send_error("eth0".to_string(), "down".to_string());
    let lines = client_view::flow_lines(
        &ui,
        &client_view::FlowFigures {
            ingest_mbps: "1.50".to_string(),
            ingest_mb: "0.10".to_string(),
            send_mbps: "2.50".to_string(),
            send_mb: "0.20".to_string(),
            average_mbps: "0.75".to_string(),
        },
    );
    assert_eq!(
        lines,
        vec![
            format!("ingest  {:>8} Mbps   packets {:>8}   total {:>8} MB", "1.50", 1, "0.10"),
            format!("send    {:>8} Mbps   packets {:>8}   total {:>8} MB", "2.50", 1, "0.20"),
            format!("errors  {:>8}         avg send {:>8} Mbps", 1, "0.75"),
        ]
    );
}

#[test]
fn each_path_of_the_client_has_a_row() {
    let mut ctx = ClientCtx::new(Some(client_ui()));
    ctx.record_connection_paths("eth0".to_string(), "endpoint-identifier", &[info("1.2.3.4:5")], false);
    ctx.record_health_report(
        &report(10, &[]),
        &[EndpointReading {
            endpoint_id: "endpoint-identifier".to_string(),
            server_mbps: "3.00".to_string(),
            degradation: "1%".to_string(),
        }],
        Some("good".to_string()),
        5,
    );
    let ui = ctx.ui_state().unwrap();
    let mut mbps: NameMap<String> = NameMap::new();
    mbps.insert("eth0".to_string(), "4.00".to_string());
    let rows = client_view::path_rows(ui, &mbps);
    assert_eq!(rows.len(), 1);
    assert!(rows[0].contains(&"eth0".to_string()));
    assert!(rows[0].contains(&"4.00".to_string()));
    assert!(rows[0].contains(&"3.00".to_string()));
    assert!(rows[0].contains(&"1.2.3.4:5".to_string()));
    assert_eq!(ui.last_health_received, Some(5));
    assert_eq!(ui.last_health_overall.as_deref(), Some("good"));
}

#[test]
fn only_the_latest_lines_are_kept_and_shown() {
    let mut ui = client_ui();
    for number in 0..130 {
        ui.push_log_line(format!("line {number}"));
    }
    assert_eq!(ui.logs.len(), 120);
    assert_eq!(ui.logs[0], "line 10");
    let shown = client_view::log_lines(&ui);
    assert_eq!(
        shown,
        vec!["line 125", "line 126", "line 127", "line 128", "line 129"]
    );
}

#[test]
fn commands_choose_a_mode() {
    assert_eq!(UiCommand::SetAuto.mode(), Some(StrategyMode::Auto));
    assert_eq!(UiCommand::SetRedundant.mode(), Some(StrategyMode::Redundant));
    assert_eq!(UiCommand::SetSplit.mode(), Some(StrategyMode::Split));
    assert_eq!(UiCommand::SetRoundRobin.mode(), Some(StrategyMode::RoundRobin));
    assert_eq!(UiCommand::ToggleWeightedAuto.mode(), None);
}

#[test]
fn repeated_messages_are_kept_once() {
    let mut ctx = ClientCtx::default();
    ctx.record_health_report(&report(10, &[1, 2]), &[], None, 0);
    ctx.record_health_report(&report(11, &[1, 2, 3]), &[], None, 0);
    let ids: Vec<u64> = ctx.chat_messages().iter().map(|message| message.id).collect();
    assert_eq!(ids, vec![1, 2, 3]);
}

#[test]
fn stale_reports_are_dropped() {
    let mut ctx = ClientCtx::default();
    assert!(ctx.record_health_report(&report(10, &[]), &[], None, 0).is_none());
    assert_eq!(
        ctx.record_health_report(&report(9, &[]), &[], None, 0).as_deref(),
        Some("WARN dropped stale health report unix_ms=9 last_unix_ms=10")
    );
    assert_eq!(ctx.last_health_unix_ms, Some(10));
}

#[test]
fn the_client_prints_or_shows() {
    let mut quiet = ClientCtx::default();
    assert_eq!(
        quiet.client_ready("127.0.0.1:5000", 2, "h").as_deref(),
        Some("INFO client ready udp_listen=127.0.0.1:5000 paths=2 health_endpoint=h")
    );
    assert_eq!(
        quiet.send_failure("eth0", 4, "down").as_deref(),
        Some("ERROR failed to send duplicated packet interface=eth0 seq=4 error=down")
    );
    assert_eq!(
        quiet.record_qdisc_reset("eth0", "dev", 10, "0.05", "fq").as_deref(),
        Some("WARN reset interface qdisc interface=eth0 device=dev qdisc=fq backlog_bytes=10 server_mbps=0.05")
    );
    assert_eq!(
        quiet.reconnect_failed("eth0", "down").as_deref(),
        Some("ERROR failed to reconnect path interface=eth0 error=down")
    );
    assert_eq!(
        quiet.return_path_closed("eth0", "gone").as_deref(),
        Some("INFO return path closed interface=eth0 error=gone")
    );
    assert_eq!(
        quiet.return_forward_error("eth0", "1.2.3.4:5", "full").as_deref(),
        Some("ERROR failed forwarding return packet to local UDP peer interface=eth0 peer=1.2.3.4:5 error=full")
    );
    assert_eq!(
        quiet.invalid_health_report("bad").as_deref(),
        Some("WARN invalid health report error=bad")
    );
    assert_eq!(
        quiet.record_remote_ready("hci0", "cam", "s", "t", "c").as_deref(),
        Some("INFO remote BLE control ready adapter=hci0 name=cam service=s status=t control=c")
    );
    assert_eq!(
        quiet.record_qdisc_reset_failed("eth0", "dev", 10, "0.05", "denied").as_deref(),
        Some("ERROR failed resetting interface qdisc interface=eth0 device=dev backlog_bytes=10 server_mbps=0.05 error=denied")
    );
    let mut shown = ClientCtx::new(Some(client_ui()));
    assert!(shown.client_ready("127.0.0.1:5000", 2, "h").is_none());
    assert_eq!(
        shown.ui_state().unwrap().logs[0],
        "INFO client ready udp_listen=127.0.0.1:5000 paths=2 health_endpoint=h"
    );
}

#[test]
fn addresses_are_shown_by_kind() {
    let lines = [
        "server_id=abc".to_string(),
        "server_addr=ip:1.2.3.4:5".to_string(),
        "server_addr=relay:https://r".to_string(),
        "server_addr=ip:6.7.8.9:10".to_string(),
    ];
    assert_eq!(format_addrs(&lines, "ip:"), "1.2.3.4:5  |  6.7.8.9:10");
    assert_eq!(format_addrs(&lines, "relay:"), "https://r");
    assert_eq!(format_addrs(&[], "ip:"), "-");
}

#[test]
fn the_server_overview_tells_where_it_is() {
    let mut ui = ServerUiState::new("127.0.0.1:9000".to_string());
    ui.set_endpoint("abc".to_string());
    ui.set_ticket(Some("ticket-text".to_string()));
    assert_eq!(
        server_view::overview_lines(&ui, 1),
        vec![
            "uptime 00:00:01",
            "endpoint abc",
            "health endpoint -",
            "udp destination 127.0.0.1:9000",
            "direct -",
            "relay  -",
            "ticket ticket-text",
        ]
    );
}

#[test]
fn the_server_flow_is_lined_up() {
    let mut ui = ServerUiState::new("x".to_string());
    ui.record_received(50);
    ui.record_forwarded(46, 0, 8, 9);
    ui.record_duplicate(0, 9);
    ui.record_never_received_skip(0, 9);
    let lines = server_view::flow_lines(
        &ui,
        &server_view::FlowFigures {
            receive_mbps: "1.00".to_string(),
            receive_mb: "0.01".to_string(),
            forward_mbps: "0.90".to_string(),
            forward_mb: "0.02".to_string(),
            average_mbps: "0.50".to_string(),
        },
    );
    assert_eq!(
        lines[0],
        format!("receive {:>8} Mbps   packets {:>8}   total {:>8} MB", "1.00", 1, "0.01")
    );
    assert_eq!(
        lines[2],
        format!(
            "dupes {:>9}   skipped {:>7}   invalid {:>8}   buffered {:>7}",
            1, 1, 0, 0
        )
    );
    assert_eq!(
        lines[5],
        format!("last_fwd {:>10}   next_seq {:>10}   avg fwd {:>6} Mbps", 8, 9, "0.50")
    );
}

#[test]
fn clients_are_listed_by_name() {
    let mut ui = ServerUiState::new("x".to_string());
    let row = || PathRow {
        remote_addr: "1.2.3.4:5".to_string(),
        transport: "direct".to_string(),
        selected: true,
        status: "up".to_string(),
    };
    ui.record_connection("second".to_string(), vec![row()]);
    ui.record_connection("first".to_string(), vec![row()]);
    ui.record_connection_receive("second", 10, 1);
    let none: NameMap<String> = NameMap::new();
    let rows = server_view::connection_rows(&ui, &none, &none);
    assert_eq!(rows.len(), 2);
    assert!(rows[0].contains(&"first".to_string()));
    assert!(rows[0].contains(&"0.00".to_string()));
    assert!(rows[1].contains(&"second".to_string()));
}

#[test]
fn the_table_scrolls() {
    assert_eq!(scroll_by(3, ScrollKey::Down), 4);
    assert_eq!(scroll_by(0, ScrollKey::Up), 0);
    assert_eq!(scroll_by(3, ScrollKey::Home), 0);
    assert_eq!(scroll_by(usize::MAX, ScrollKey::PageDown), usize::MAX);
    let window = table_window(9, 10, 4);
    assert_eq!(window.end - window.scroll, 4);
    assert_eq!(window.end, 10);
    let all = table_window(5, 3, 4);
    assert_eq!((all.scroll, all.end), (0, 3));
    assert_eq!(table_title(0, 10, 4), "Connections 1-4");
}

#[test]
fn counts_are_compared_with_the_last() {
    let mut sample = CountSample::default();
    assert_eq!(sample.advance(SECOND, 100), (100, None));
    assert_eq!(sample.advance(3 * SECOND, 150), (50, Some(2 * SECOND)));
}

#[test]
fn named_rates_are_taken_at_intervals() {
    let counts = |value: u64| {
        let mut map: NameMap<u64> = NameMap::new();
        map.insert("a".to_string(), value);
        map
    };
    let mut rates = NamedRates::new();
    rates.advance(0, counts(10), SECOND);
    rates.advance(SECOND / 2, counts(20), SECOND);
    assert_eq!(rates.added.get("a"), Some(&10));
    rates.advance(SECOND, counts(40), SECOND);
    assert_eq!(rates.added.get("a"), Some(&30));
    assert_eq!(rates.nanos, SECOND);
}
