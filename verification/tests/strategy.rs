use irohsion::health_report::{EndpointHealth, HealthReport};
use irohsion::strategy::{
    qdisc_reset_should_run, worst_backlog, InterfaceLinkStatus, PathStrategy, QdiscResetConfig,
    QdiscResets, StrategyInterface, StrategyMode, StrategyState,
};
use irohsion::tc::{parse_backlog_bytes, parse_tc_backlog};

const SECOND: u64 = 1_000_000_000;

fn interface(name: &str) -> StrategyInterface {
    StrategyInterface {
        display_name: name.to_string(),
        device_name: name.to_string(),
        endpoint_id: format!("id-{name}"),
    }
}

fn state(names: &[&str]) -> StrategyState {
    let interfaces: Vec<StrategyInterface> = names.iter().map(|name| interface(name)).collect();
    StrategyState::new(&interfaces, 0)
}

fn report(unix_ms: u64, rows: &[(&str, u64)]) -> HealthReport {
    HealthReport {
        seq: 1,
        unix_ms,
        endpoints: rows
            .iter()
            .map(|(name, last_seq)| EndpointHealth {
                endpoint_id: format!("id-{name}"),
                achieved_mbps: "1.0000".to_string(),
                last_seq: Some(*last_seq),
                max_seq: Some(*last_seq),
            })
            .collect(),
        chat: Vec::new(),
    }
}

fn names(list: &[&str]) -> Vec<String> {
    list.iter().map(|name| name.to_string()).collect()
}

#[test]
fn parses_tc_backlog_bytes() {
    let output = "qdisc fq_codel 0: root\n Sent 1 bytes 1 pkt\n backlog 1234b 8p requeues 0\n";

    assert_eq!(parse_tc_backlog(output), Some(1234));
}

#[test]
fn qdisc_reset_requires_extreme_backlog_and_low_server_bandwidth() {
    let config = QdiscResetConfig {
        backlog_bytes: 1_000,
        cooldown: SECOND,
    };
    let max_server_mbps = 0.10_f32;
    let starved = |server_mbps: Option<f32>| {
        server_mbps.is_some_and(|server_mbps| server_mbps <= max_server_mbps)
    };

    assert!(qdisc_reset_should_run(2_000, starved(Some(0.05)), config));
    assert!(!qdisc_reset_should_run(500, starved(Some(0.05)), config));
    assert!(!qdisc_reset_should_run(2_000, starved(Some(1.0)), config));
    assert!(!qdisc_reset_should_run(2_000, starved(None), config));
}

#[test]
fn backlogs_are_counted_in_bytes() {
    let parse = |text: &str| {
        let chars: Vec<char> = text.chars().collect();
        parse_backlog_bytes(&chars)
    };
    assert_eq!(parse("17b"), Some(17));
    assert_eq!(parse("18446744073709551615b"), Some(u64::MAX));
    assert_eq!(parse("18446744073709551616b"), None);
    assert_eq!(parse("2Kb"), None);
    assert_eq!(parse("17"), None);
    assert_eq!(parse("b"), None);
    assert_eq!(parse("x1b"), None);
    assert_eq!(parse_tc_backlog("nothing here"), None);
    assert_eq!(parse_tc_backlog("backlog 1b 2p\nbacklog 3b 4p"), Some(1));
}

#[test]
fn a_reset_queue_is_left_alone_for_a_while() {
    let config = QdiscResetConfig {
        backlog_bytes: 1_000,
        cooldown: 5 * SECOND,
    };
    let mut resets = QdiscResets::new();
    assert!(!resets.is_due("eth0", 999, true, config, 0));
    assert!(resets.is_due("eth0", 1_000, true, config, 0));
    assert!(!resets.is_due("eth0", 1_000, true, config, 5 * SECOND - 1));
    assert!(resets.is_due("wlan0", 1_000, true, config, SECOND));
    assert!(resets.is_due("eth0", 1_000, true, config, 5 * SECOND));
}

#[test]
fn the_worst_backlog_is_the_greatest() {
    assert_eq!(worst_backlog(&[]), None);
    let list = vec![
        ("a".to_string(), 3),
        ("b".to_string(), 9),
        ("c".to_string(), 5),
    ];
    assert_eq!(worst_backlog(&list), Some(("b".to_string(), 9)));
}

#[test]
fn modes_have_numbers() {
    for value in 0..4 {
        assert_eq!(StrategyMode::from_u8(value).to_u8(), value);
    }
    assert_eq!(StrategyMode::from_u8(200), StrategyMode::Auto);
}

#[test]
fn a_fresh_strategy_splits_automatically() {
    let strategy = state(&["a", "b"]);
    assert_eq!(strategy.mode(), StrategyMode::Auto);
    assert_eq!(strategy.current(), PathStrategy::Split);
    assert!(strategy.uses_groups());
    assert_eq!(
        strategy.labels(),
        ("auto+weighted".to_string(), "split".to_string())
    );
}

#[test]
fn explicit_modes_decide_the_strategy() {
    let mut strategy = state(&["a"]);
    let change = strategy.set_mode(StrategyMode::RoundRobin, "tui hotkey");
    assert_eq!(change.strategy, "roundrobin");
    assert_eq!(change.reason, "tui hotkey");
    assert_eq!(strategy.current(), PathStrategy::RoundRobin);
    assert!(strategy
        .degrade_to_redundant("send error".to_string())
        .is_none());
    assert_eq!(strategy.current(), PathStrategy::RoundRobin);
}

#[test]
fn a_failure_degrades_the_automatic_strategy_once() {
    let mut strategy = state(&["a"]);
    let change = strategy
        .degrade_to_redundant("send error".to_string())
        .unwrap();
    assert_eq!(change.strategy, "redundant");
    assert_eq!(change.reason, "send error");
    assert_eq!(strategy.current(), PathStrategy::Redundant);
    assert!(strategy
        .degrade_to_redundant("again".to_string())
        .is_none());
}

#[test]
fn backlog_degrades_and_recovery_restores() {
    let mut strategy = state(&["a", "b"]);
    let worst = |bytes: u64| Some(("a".to_string(), bytes));
    assert!(strategy
        .choose_strategy(worst(99), true, 100, 10)
        .is_none());
    assert!(strategy
        .choose_strategy(worst(100), true, 100, 10)
        .is_some());
    assert_eq!(strategy.current(), PathStrategy::Redundant);
    assert!(strategy.choose_strategy(worst(50), true, 100, 10).is_none());
    assert!(strategy.choose_strategy(worst(10), true, 100, 10).is_some());
    assert_eq!(strategy.current(), PathStrategy::Split);
    let change = strategy.choose_strategy(worst(0), false, 100, 10).unwrap();
    assert_eq!(change.reason, "not enough healthy paths for split");
}

#[test]
fn paths_take_turns() {
    let mut strategy = state(&["a"]);
    let turns: Vec<usize> = (0..5).map(|_| strategy.next_round_robin_index(3)).collect();
    assert_eq!(turns, vec![0, 1, 2, 0, 1]);
    assert_eq!(strategy.next_round_robin_index(0), 0);
    assert_eq!(strategy.next_round_robin_index(3), 2);
}

#[test]
fn failed_paths_are_rescue_paths() {
    let mut strategy = state(&["a", "b", "c"]);
    strategy.record_health_report(&report(1_000, &[("a", 900), ("b", 100), ("c", 950)]));
    strategy.record_interface_failure("c");
    let all = names(&["a", "b", "c"]);
    let groups = strategy.auto_path_groups(&all, 1_500);
    let receives: Vec<bool> = groups.fresh.iter().map(|_| true).collect();
    let (split, rescue) = groups.split(&receives);
    assert_eq!(split, names(&["a", "b"]));
    assert_eq!(rescue, names(&["c"]));
    assert!(!StrategyState::auto_split_ready(&(split, rescue)));
}

#[test]
fn lagging_paths_are_rescue_paths() {
    let mut strategy = state(&["a", "b"]);
    strategy.record_health_report(&report(1_000, &[("a", 2_000), ("b", 100)]));
    let all = names(&["a", "b"]);
    let groups = strategy.auto_path_groups(&all, 1_500);
    let receives: Vec<bool> = groups.fresh.iter().map(|_| true).collect();
    assert_eq!(groups.split(&receives), (names(&["a"]), names(&["b"])));
}

#[test]
fn stale_health_is_not_trusted() {
    let mut strategy = state(&["a", "b"]);
    strategy.record_health_report(&report(1_000, &[("a", 10), ("b", 10)]));
    assert!(strategy.fresh_health("a", 3_500).is_some());
    assert!(strategy.fresh_health("a", 3_501).is_none());
    let all = names(&["a", "b"]);
    let groups = strategy.auto_path_groups(&all, 3_501);
    assert_eq!(
        groups.split(&[]),
        (Vec::<String>::new(), names(&["a", "b"]))
    );
}

#[test]
fn status_lists_the_interfaces() {
    let mut strategy = state(&["b", "a"]);
    strategy.record_packet(100);
    strategy.record_interface_send("a", 50);
    strategy.record_interface_dead("b");
    let status = strategy.status(2 * SECOND);
    assert_eq!(status.packets, 1);
    assert_eq!(status.payload_bytes, 100);
    assert_eq!(status.interfaces[0].name, "a");
    assert_eq!(status.interfaces[0].tx_packets, 1);
    assert_eq!(status.interfaces[0].tx_bytes, 50);
    assert_eq!(status.interfaces[0].rate_bytes, 50);
    assert_eq!(status.interfaces[0].rate_nanos, 2 * SECOND);
    assert_eq!(status.interfaces[1].name, "b");
    assert_eq!(status.interfaces[1].status, InterfaceLinkStatus::Dead);
}
