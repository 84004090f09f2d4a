use irohsion::client_ctx::ClientCtx;
use irohsion::client_ui::ClientUiState;
use irohsion::path_events::{
    announce_change, record_connection_closed, record_initial_failure, record_interface_address,
    record_return_path_closed, record_send_result, show_connected, ReconnectLoop,
    ReconnectOutcome, Sent,
};
use irohsion::path_info::{
    describe_paths, describe_server_paths, relevant_paths, server_addrs, transport_kind, PathInfo,
};
use irohsion::path_link::{
    find_interface_ipv4, resolve_interface_ipv4, BindAddr, InterfaceBinding, InterfaceEntry,
    InterfaceError, LivePath, PathConnection,
};
use irohsion::strategy::{InterfaceLinkStatus, PathStrategy, StrategyInterface, StrategyState};

const ADDR: BindAddr = BindAddr {
    ip: 0x0a00_0001,
    port: 0,
};

fn binding() -> InterfaceBinding {
    InterfaceBinding {
        name: "eth0".to_string(),
        display_name: "eth0".to_string(),
        bind_addr: ADDR,
    }
}

fn strategy() -> StrategyState {
    StrategyState::new(
        &[StrategyInterface {
            display_name: "eth0".to_string(),
            device_name: "eth0".to_string(),
            endpoint_id: "id".to_string(),
        }],
        0,
    )
}

fn path_info(addr: &str, is_ip: bool, selected: bool, closed: bool) -> PathInfo {
    PathInfo {
        remote_addr: addr.to_string(),
        is_ip,
        is_relay: !is_ip,
        selected,
        closed,
    }
}

fn shown_ctx() -> ClientCtx {
    ClientCtx::new(Some(ClientUiState::new(
        0,
        5000,
        "server".to_string(),
        "health".to_string(),
        vec!["eth0".to_string()],
    )))
}

#[test]
fn addresses_are_written_with_dots() {
    assert_eq!(
        BindAddr {
            ip: 0xc0a8_01fe,
            port: 8080
        }
        .written(),
        "192.168.1.254:8080"
    );
}

#[test]
fn interfaces_are_found_by_name() {
    let entries = [
        InterfaceEntry {
            name: "lo".to_string(),
            ipv4: None,
        },
        InterfaceEntry {
            name: "eth0".to_string(),
            ipv4: None,
        },
        InterfaceEntry {
            name: "eth0".to_string(),
            ipv4: Some(0x0a00_0001),
        },
    ];
    assert_eq!(find_interface_ipv4(&entries, "eth0"), Ok(0x0a00_0001));
    assert_eq!(
        find_interface_ipv4(&entries, "lo"),
        Err(InterfaceError::NoIpv4)
    );
    assert_eq!(
        find_interface_ipv4(&entries, "wlan0"),
        Err(InterfaceError::Missing)
    );
    assert_eq!(
        InterfaceError::NoIpv4.message("lo"),
        "interface `lo` does not have an IPv4 address"
    );
    assert_eq!(
        InterfaceError::Missing.message("wlan0"),
        "interface `wlan0` does not exist"
    );
    let binding = resolve_interface_ipv4(&entries, "eth0").unwrap();
    assert_eq!(binding.name, "eth0");
    assert_eq!(binding.display_name, "eth0");
    assert_eq!(binding.bind_addr, ADDR);
}

#[test]
fn a_path_loses_its_connection_once() {
    let mut path = PathConnection::connected(binding(), 7);
    assert!(path.is_connected());
    assert_eq!(path.connection_id(), Some(7));
    assert_eq!(path.current_bound_addr(), Some(ADDR));
    assert!(path.mark_failed(Some(8)).is_none());
    assert!(path.is_connected());
    assert_eq!(
        path.mark_failed(Some(7)),
        Some(LivePath {
            connection_id: 7,
            bind_addr: ADDR
        })
    );
    assert!(!path.is_connected());
    assert!(path.reconnect_requested());
    assert!(ReconnectLoop::is_wanted(&path));
    assert_eq!(
        path.no_connection_text(),
        "path eth0 has no live connection"
    );
    assert_eq!(
        path.send_error_text("too large"),
        "send_datagram failed on eth0: too large"
    );
}

#[test]
fn a_pending_path_wants_a_connection() {
    let path = PathConnection::pending(binding());
    assert!(!path.is_connected());
    assert!(ReconnectLoop::is_wanted(&path));
}

#[test]
fn a_failed_send_makes_sending_redundant() {
    let mut path = PathConnection::connected(binding(), 1);
    let mut strategy = strategy();
    let mut ctx = ClientCtx::default();
    assert_eq!(strategy.current(), PathStrategy::Split);
    let follow_up = record_send_result(
        &mut path,
        Sent::Media {
            sequence: 5,
            payload_len: 10,
        },
        14,
        Some(1),
        Some("broken"),
        &mut strategy,
        &mut ctx,
    );
    assert!(follow_up.closed.is_some());
    assert!(!path.is_connected());
    assert_eq!(strategy.current(), PathStrategy::Redundant);
    assert!(follow_up.printed.contains(
        &"ERROR failed to send duplicated packet interface=eth0 seq=5 error=broken".to_string()
    ));
    assert!(follow_up.printed.contains(
        &"INFO path strategy changed strategy=redundant reason=\"send error interface=eth0 sequence=5 error=broken\""
            .to_string()
    ));
}

#[test]
fn a_good_send_is_counted() {
    let mut path = PathConnection::connected(binding(), 1);
    let mut strategy = strategy();
    let mut ctx = shown_ctx();
    let follow_up = record_send_result(
        &mut path,
        Sent::Media {
            sequence: 5,
            payload_len: 10,
        },
        14,
        Some(1),
        None,
        &mut strategy,
        &mut ctx,
    );
    assert!(follow_up.printed.is_empty());
    assert!(follow_up.closed.is_none());
    assert_eq!(ctx.ui_state().unwrap().sent_packets, 1);
    let status = strategy.status(0);
    assert_eq!(status.interfaces[0].tx_packets, 1);
}

#[test]
fn a_closed_return_path_is_told() {
    let mut path = PathConnection::connected(binding(), 1);
    let mut strategy = strategy();
    let mut ctx = ClientCtx::default();
    let follow_up =
        record_return_path_closed(&mut path, 1, "gone", &mut strategy, &mut ctx);
    assert!(follow_up
        .printed
        .contains(&"INFO return path closed interface=eth0 error=gone".to_string()));
    assert!(follow_up.closed.is_some());
    assert_eq!(strategy.current(), PathStrategy::Redundant);
}

#[test]
fn a_new_address_closes_the_connection() {
    let mut path = PathConnection::connected(binding(), 1);
    let mut strategy = strategy();
    let mut ctx = shown_ctx();
    assert!(record_interface_address(&mut path, Some(ADDR), &mut strategy, &mut ctx).is_none());
    let moved = BindAddr {
        ip: 0x0a00_0002,
        port: 0,
    };
    assert!(record_interface_address(&mut path, Some(moved), &mut strategy, &mut ctx).is_some());
    assert!(!path.is_connected());
    assert!(path.reconnect_requested());
}

#[test]
fn an_interface_that_is_gone_is_dead() {
    let mut path = PathConnection::connected(binding(), 1);
    let mut strategy = strategy();
    let mut ctx = ClientCtx::default();
    assert!(record_interface_address(&mut path, None, &mut strategy, &mut ctx).is_some());
    assert!(!path.is_connected());
    assert!(record_interface_address(&mut path, None, &mut strategy, &mut ctx).is_none());
    assert!(path.reconnect_requested());
    assert_eq!(
        strategy.status(0).interfaces[0].status,
        InterfaceLinkStatus::Dead
    );
}

#[test]
fn a_connection_that_closes_is_no_longer_used() {
    let mut path = PathConnection::connected(binding(), 3);
    let mut strategy = strategy();
    let mut ctx = ClientCtx::default();
    assert!(record_connection_closed(&mut path, 2, "old", &mut strategy, &mut ctx).is_none());
    assert!(path.is_connected());
    assert!(record_connection_closed(&mut path, 3, "idle", &mut strategy, &mut ctx).is_some());
    assert!(!path.is_connected());
}

#[test]
fn the_delay_between_attempts_grows_to_the_longest() {
    let mut path = PathConnection::pending(binding());
    let mut strategy = strategy();
    let mut ctx = ClientCtx::default();
    let mut retries = ReconnectLoop::new();
    let mut waits = Vec::new();
    for _ in 0..7 {
        let follow_up = retries.finish(
            &mut path,
            "id",
            ReconnectOutcome::Failed {
                error: "no route".to_string(),
            },
            &mut strategy,
            &mut ctx,
        );
        assert!(follow_up
            .printed
            .contains(&"ERROR failed to reconnect path interface=eth0 error=no route".to_string()));
        waits.push(follow_up.wait_ms);
    }
    assert_eq!(waits, vec![250, 500, 1_000, 2_000, 4_000, 5_000, 5_000]);
}

#[test]
fn attempts_that_take_too_long_fail() {
    let mut path = PathConnection::pending(binding());
    let mut strategy = strategy();
    let mut ctx = ClientCtx::default();
    let follow_up = ReconnectLoop::new().finish(
        &mut path,
        "id",
        ReconnectOutcome::TimedOut,
        &mut strategy,
        &mut ctx,
    );
    assert!(follow_up.printed.contains(
        &"ERROR failed to reconnect path interface=eth0 error=reconnect timed out after 10s"
            .to_string()
    ));
}

#[test]
fn a_new_connection_is_used() {
    let mut path = PathConnection::pending(binding());
    let mut strategy = strategy();
    let mut ctx = ClientCtx::default();
    let live = LivePath {
        connection_id: 9,
        bind_addr: ADDR,
    };
    let mut retries = ReconnectLoop::new();
    let follow_up = retries.finish(
        &mut path,
        "id",
        ReconnectOutcome::Connected {
            live,
            paths: vec![path_info("10.0.0.9:1", true, true, false)],
        },
        &mut strategy,
        &mut ctx,
    );
    assert!(follow_up.replaced.is_none());
    assert_eq!(path.connection_id(), Some(9));
    assert!(!path.reconnect_requested());
    assert!(follow_up.printed.contains(
        &"INFO connected interface-bound iroh path interface=eth0 endpoint_id=id local_addr=10.0.0.1:0"
            .to_string()
    ));
    assert!(follow_up.printed.contains(
        &"INFO connection path interface=eth0 selected=true closed=false transport=direct remote_addr=10.0.0.9:1"
            .to_string()
    ));
}

#[test]
fn the_first_failure_is_told() {
    let mut ctx = ClientCtx::default();
    assert_eq!(
        record_initial_failure("eth0", "refused", &mut ctx),
        vec!["ERROR failed to reconnect path interface=eth0 error=refused".to_string()]
    );
}

#[test]
fn a_connection_is_shown_with_its_paths() {
    let mut ctx = shown_ctx();
    let printed = show_connected(
        "eth0",
        "id",
        ADDR,
        &[path_info("10.0.0.9:1", true, true, false)],
        &mut ctx,
    );
    assert!(printed.is_empty());
    let ui = ctx.ui_state().unwrap();
    assert_eq!(ui.paths.get("eth0").unwrap().len(), 1);
    assert_eq!(
        ui.logs[1],
        "INFO connected interface-bound iroh path interface=eth0 endpoint_id=id local_addr=10.0.0.1:0"
    );
    assert_eq!(ui.logs.len(), 2);
}

#[test]
fn changes_of_the_strategy_are_announced() {
    let mut strategy = strategy();
    let mut ctx = ClientCtx::default();
    assert!(announce_change(None, &strategy, &mut ctx).is_empty());
    let change = strategy.degrade_to_redundant("queue full".to_string());
    assert_eq!(
        announce_change(change, &strategy, &mut ctx),
        vec!["INFO path strategy changed strategy=redundant reason=\"queue full\"".to_string()]
    );
}

#[test]
fn selected_paths_hide_the_others() {
    let direct = path_info("10.0.0.9:1", true, false, false);
    let relay = path_info("https://relay", false, true, false);
    assert_eq!(transport_kind(&direct), "direct");
    assert_eq!(transport_kind(&relay), "relay");
    let other = PathInfo {
        is_ip: false,
        is_relay: false,
        ..path_info("?", true, false, false)
    };
    assert_eq!(transport_kind(&other), "other");
    let list = [direct, relay];
    assert_eq!(relevant_paths(&list), vec![1]);
    let rows = describe_paths(&list, "id");
    assert_eq!(rows.len(), 2);
    assert_eq!(rows[0].endpoint_id, "id");
    assert_eq!(rows[1].remote_addr, "https://relay");
    assert_eq!(rows[0].status, "up");
    let rows = describe_server_paths(&list);
    assert_eq!(rows.len(), 1);
    assert_eq!(rows[0].transport, "relay");

    let none_selected = [
        path_info("10.0.0.9:1", true, false, false),
        path_info("10.0.0.9:2", true, false, true),
    ];
    assert_eq!(relevant_paths(&none_selected), vec![0, 1]);
    assert_eq!(describe_paths(&none_selected, "id")[1].status, "closed");
}

#[test]
fn server_addresses_are_listed() {
    assert_eq!(
        server_addrs(
            "abc",
            &["1.2.3.4:5".to_string()],
            &["https://relay".to_string()]
        ),
        vec![
            "server_id=abc".to_string(),
            "server_addr=ip:1.2.3.4:5".to_string(),
            "server_addr=relay:https://relay".to_string(),
        ]
    );
}
