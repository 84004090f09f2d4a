use bytes::Bytes;
use irohsion::health_report::ChatMessage;
use irohsion::name_map::NameMap;
use irohsion::protocol::{encode_fec_frame, encode_packet, FecFrame, PacketHeader};
use irohsion::receive::ReceivedFrame;
use irohsion::routes::{repair_targets, set_reply_routes, ConnectionRegistry, Delivery};
use irohsion::server_ctx::ServerCtx;
use irohsion::server_flow::{accept_datagram, end_connection};
use irohsion::server_health::{
    build_health_report, drain_samples, join_chats, record_health_sample, EndpointSample,
    HealthAttempt, HealthReports, HealthStep,
};
use irohsion::server_ui::{PathRow, ServerUiState};

fn registry(list: &[(&str, u64)]) -> ConnectionRegistry {
    let mut registry = ConnectionRegistry::new();
    for (remote, id) in list {
        registry.register(remote.to_string(), *id);
    }
    registry
}

fn routes(list: &[&str]) -> Vec<String> {
    list.iter().map(|remote| remote.to_string()).collect()
}

fn shown() -> ServerCtx {
    ServerCtx::new(Some(ServerUiState::new("127.0.0.1:9".to_string())))
}

fn row(status: &str) -> PathRow {
    PathRow {
        remote_addr: "1.2.3.4:5".to_string(),
        transport: "direct".to_string(),
        selected: true,
        status: status.to_string(),
    }
}

#[test]
fn connections_are_kept_by_client() {
    let mut registry = registry(&[("a", 3), ("a", 1), ("b", 2)]);
    assert_eq!(registry.connection_ids("a"), vec![1, 3]);
    assert_eq!(registry.connection_ids("b"), vec![2]);
    assert!(registry.connection_ids("c").is_empty());
    assert!(registry.remove_connection_if_current("a", 3));
    assert!(!registry.remove_connection_if_current("a", 1));
    assert!(!registry.remove_connection_if_current("c", 1));
    assert!(registry.connection_ids("a").is_empty());
    registry.remove_connections("b", &[7, 2]);
    assert!(registry.connection_ids("b").is_empty());
}

#[test]
fn routes_hold_each_client_once() {
    let mut list = Vec::new();
    set_reply_routes(&mut list, "a", false);
    set_reply_routes(&mut list, "b", false);
    set_reply_routes(&mut list, "a", false);
    assert_eq!(list, routes(&["a", "b"]));
    set_reply_routes(&mut list, "c", true);
    assert_eq!(list, routes(&["c"]));
}

#[test]
fn repairs_are_asked_of_every_connection() {
    let registry = registry(&[("a", 3), ("a", 1), ("b", 2)]);
    let targets: Vec<(String, u64)> = repair_targets(&registry, &routes(&["b", "x", "a"]))
        .into_iter()
        .map(|target| (target.remote, target.id))
        .collect();
    assert_eq!(
        targets,
        vec![
            ("b".to_string(), 2),
            ("a".to_string(), 1),
            ("a".to_string(), 3)
        ]
    );
}

#[test]
fn replies_go_over_the_first_connection_that_takes_them() {
    let mut registry = registry(&[("a", 3), ("a", 1), ("b", 2)]);
    let delivery = Delivery::new(routes(&["x", "a", "b"]), &registry);
    let target = delivery.target().unwrap();
    assert_eq!((target.remote.as_str(), target.id), ("a", 3));
    let delivery = delivery.failed(&mut registry);
    let target = delivery.target().unwrap();
    assert_eq!((target.remote.as_str(), target.id), ("a", 1));
    delivery.delivered(&mut registry);
    assert_eq!(registry.connection_ids("a"), vec![1]);

    let delivery = Delivery::new(routes(&["a", "b"]), &registry);
    let delivery = delivery.failed(&mut registry);
    assert!(registry.connection_ids("a").is_empty());
    let target = delivery.target().unwrap();
    assert_eq!((target.remote.as_str(), target.id), ("b", 2));
    let delivery = delivery.failed(&mut registry);
    assert!(delivery.target().is_none());
    assert!(registry.connection_ids("b").is_empty());
}

#[test]
fn datagrams_are_counted_for_their_client() {
    let mut stats: NameMap<EndpointSample> = NameMap::new();
    let mut ctx = shown();
    let packet = encode_packet(
        PacketHeader {
            sequence: 7,
            fragment: 0,
            fragments: 1,
        },
        b"abc",
    );
    let accepted = accept_datagram(&packet, "a", 1, &mut stats, &mut ctx);
    assert!(matches!(accepted.frame, Some(ReceivedFrame::Packet(_))));
    assert!(accepted.printed.is_none());
    assert_eq!(
        stats.get("a"),
        Some(&EndpointSample {
            bytes: 3,
            last_seq: Some(7)
        })
    );
    let view = ctx.ui_state().unwrap().connections.get("a").unwrap();
    assert_eq!(view.received_packets, 1);
    assert_eq!(view.received_bytes, 7);
    assert_eq!(view.last_seq, Some(7));

    let fec = encode_fec_frame(&FecFrame {
        base_sequence: 1,
        payload_lengths: vec![1, 1],
        parity: Bytes::from_static(b"x"),
    });
    let accepted = accept_datagram(&fec, "a", 1, &mut stats, &mut ctx);
    assert!(matches!(accepted.frame, Some(ReceivedFrame::Fec(_))));

    let accepted = accept_datagram(&[1], "a", 1, &mut stats, &mut ctx);
    assert!(accepted.frame.is_none());
    assert_eq!(ctx.ui_state().unwrap().invalid_packets, 1);
    let mut quiet = ServerCtx::default();
    let accepted = accept_datagram(&[1], "a", 1, &mut stats, &mut quiet);
    assert_eq!(accepted.printed.as_deref(), Some("WARN invalid packet"));
}

#[test]
fn samples_are_reported_once() {
    let mut stats: NameMap<EndpointSample> = NameMap::new();
    record_health_sample(&mut stats, "b", 10, 5);
    record_health_sample(&mut stats, "a", 1, 9);
    record_health_sample(&mut stats, "b", 20, 4);
    let samples = drain_samples(&mut stats);
    assert_eq!(stats.len(), 0);
    assert_eq!(samples.len(), 2);
    assert_eq!(samples[0].endpoint_id, "a");
    assert_eq!(
        samples[1].sample,
        EndpointSample {
            bytes: 30,
            last_seq: Some(5)
        }
    );
    let report = build_health_report(
        4,
        1_000,
        samples,
        &["0.0001".to_string(), "2.0000".to_string()],
        Vec::new(),
    );
    assert_eq!(report.seq, 4);
    assert_eq!(report.endpoints[0].achieved_mbps, "0.0001");
    assert_eq!(report.endpoints[1].endpoint_id, "b");
    assert_eq!(report.endpoints[1].last_seq, Some(5));
    assert_eq!(report.endpoints[1].max_seq, Some(5));
}

#[test]
fn reports_go_to_the_clients_that_take_them() {
    let mut reports = HealthReports::new();
    assert_eq!(reports.next_report(), None);
    assert_eq!(reports.maintenance_step("a"), HealthStep::Stop);
    assert!(reports.add_client("a", 1));
    assert!(!reports.add_client("a", 2));
    assert_eq!(reports.next_report(), Some(0));
    assert_eq!(reports.next_report(), Some(1));
    assert_eq!(
        reports.maintenance_step("a"),
        HealthStep::Wait { millis: 500 }
    );
    reports.drop_connection("a", 1);
    assert!(reports.connections.contains_key("a"));
    reports.drop_connection("a", 2);
    assert_eq!(reports.maintenance_step("a"), HealthStep::Connect);
    assert_eq!(reports.record_attempt("a", HealthAttempt::Unknown), 500);
    assert_eq!(reports.record_attempt("a", HealthAttempt::Failed), 1_000);
    assert_eq!(
        reports.record_attempt("a", HealthAttempt::Connected { id: 8 }),
        0
    );
    assert_eq!(reports.connections.get("a"), Some(&8));
    reports.drop_failed(&routes(&["a"]));
    assert_eq!(reports.next_report(), None);
}

#[test]
fn a_client_is_closed_with_its_last_connection() {
    let mut registry = registry(&[("a", 1), ("a", 2)]);
    let mut reports = HealthReports::new();
    reports.add_client("a", 2);
    let mut ctx = shown();
    ctx.record_connection("a".to_string(), vec![row("up")]);
    end_connection("a", 1, "idle", &mut registry, &mut reports, &mut ctx);
    assert!(reports.connections.contains_key("a"));
    let status = |ctx: &ServerCtx| {
        ctx.ui_state().unwrap().connections.get("a").unwrap().paths[0]
            .status
            .clone()
    };
    assert_eq!(status(&ctx), "up");
    end_connection("a", 2, "gone", &mut registry, &mut reports, &mut ctx);
    assert!(!reports.connections.contains_key("a"));
    assert_eq!(status(&ctx), "closed: gone");
    assert_eq!(ctx.ui_state().unwrap().connection_resets, 2);

    let mut quiet = ServerCtx::default();
    let lines = end_connection("a", 3, "gone", &mut registry, &mut reports, &mut quiet);
    assert_eq!(
        lines.reset.as_deref(),
        Some("WARN connection reset remote=a error=gone")
    );
    assert_eq!(
        lines.closed.as_deref(),
        Some("ERROR connection closed remote=a error=gone")
    );
}

#[test]
fn chats_are_joined_in_order() {
    let message = |id: u64| ChatMessage {
        id,
        unix_ms: 0,
        user: "u".to_string(),
        text: "t".to_string(),
    };
    let all = join_chats(vec![message(1), message(2)], vec![message(3)]);
    let ids: Vec<u64> = all.iter().map(|message| message.id).collect();
    assert_eq!(ids, vec![1, 2, 3]);
}

#[test]
fn lines_are_printed_while_nothing_is_shown() {
    let mut ctx = ServerCtx::default();
    assert_eq!(
        ctx.set_endpoint("abc".to_string()).as_deref(),
        Some("INFO server endpoint endpoint=abc")
    );
    assert_eq!(
        ctx.set_server_addrs(vec!["server_id=abc".to_string()]),
        vec!["INFO server_id=abc".to_string()]
    );
    assert_eq!(
        ctx.set_health_endpoint(Some("h".to_string())).as_deref(),
        Some("INFO health endpoint endpoint=h")
    );
    assert_eq!(
        ctx.record_connection("a".to_string(), vec![row("up")]),
        vec![
            "INFO connection path remote=a selected=true status=up transport=direct path=1.2.3.4:5"
                .to_string()
        ]
    );
    assert_eq!(
        ctx.record_flow_reset(7, "confirmed sequence restart").as_deref(),
        Some("WARN reset packet reorder flow next_seq=7 reason=\"confirmed sequence restart\"")
    );
    assert_eq!(
        ctx.record_late_after_skip(3, 0, 9).as_deref(),
        Some("WARN received stale packet after skip sequence=3 next_seq=9")
    );
    assert_eq!(
        ctx.record_never_received_skip(3, 0, 9).as_deref(),
        Some("WARN skipped never-received packet sequence=3 next_seq=9")
    );
    assert_eq!(
        ctx.record_fragment_incomplete_skip(3, 0, 9).as_deref(),
        Some("WARN skipped incomplete fragmented packet sequence=3 next_seq=9")
    );
    assert_eq!(
        ctx.record_fec_recovered(3, 11).as_deref(),
        Some("INFO fec recovered packet sequence=3 bytes=11")
    );
    assert_eq!(
        ctx.record_send_pressure_drop("a", "full").as_deref(),
        Some("WARN dropped return datagram remote=a error=full")
    );
    assert!(shown().record_never_received_skip(3, 0, 9).is_none());
}

#[test]
fn receives_of_a_connection_add_up() {
    let mut ctx = shown();
    ctx.record_connection_receive("other", 7, 3);
    for (bytes, sequence) in [(100, 5), (250, 9), (50, 6)] {
        ctx.record_connection_receive("client", bytes, sequence);
    }
    let ui = ctx.ui_state().unwrap();
    let client = ui.connections.get("client").unwrap();
    assert_eq!(client.received_packets, 3);
    assert_eq!(client.received_bytes, 400);
    assert_eq!(client.last_seq, Some(6));
    assert_eq!(client.max_seq, Some(9));
    assert_eq!(client.last_error, None);
    let other = ui.connections.get("other").unwrap();
    assert_eq!(other.received_packets, 1);
    assert_eq!(other.received_bytes, 7);
    assert_eq!(other.max_seq, Some(3));

    let mut silent = ServerCtx::new(None);
    silent.record_connection_receive("client", 100, 5);
    assert!(silent.ui_state().is_none());
}
