use irohsion::health_report::{
    decode_health_report, decode_health_text, encode_health_report, encode_health_text,
    ChatMessage, EndpointHealth, HealthError, HealthReport,
};

fn decode_text(text: &str) -> String {
    let chars: Vec<char> = text.chars().collect();
    decode_health_text(&chars)
}

fn error_of(text: &str) -> HealthError {
    decode_health_report(text.as_bytes()).unwrap_err()
}

#[test]
fn health_report_round_trips_chat_messages() {
    let report = HealthReport {
        seq: 7,
        unix_ms: 1234,
        endpoints: vec![EndpointHealth {
            endpoint_id: "endpoint".to_string(),
            achieved_mbps: format!("{:.4}", 1.25_f32),
            last_seq: Some(10),
            max_seq: Some(12),
        }],
        chat: vec![ChatMessage {
            id: 42,
            unix_ms: 5678,
            user: "viewer\tname".to_string(),
            text: "hello\\nnot newline\nsecond line".to_string(),
        }],
    };

    let decoded = decode_health_report(&encode_health_report(&report)).unwrap();

    assert_eq!(decoded.seq, report.seq);
    assert_eq!(decoded.unix_ms, report.unix_ms);
    assert_eq!(decoded.endpoints.len(), 1);
    assert_eq!(decoded.chat.len(), 1);
    assert_eq!(decoded.chat[0].id, report.chat[0].id);
    assert_eq!(decoded.chat[0].unix_ms, report.chat[0].unix_ms);
    assert_eq!(decoded.chat[0].user, report.chat[0].user);
    assert_eq!(decoded.chat[0].text, report.chat[0].text);
}

#[test]
fn report_is_written_line_by_line() {
    let report = HealthReport {
        seq: 3,
        unix_ms: 99,
        endpoints: vec![EndpointHealth {
            endpoint_id: "abc".to_string(),
            achieved_mbps: "0.5000".to_string(),
            last_seq: None,
            max_seq: Some(4),
        }],
        chat: vec![ChatMessage {
            id: 1,
            unix_ms: 2,
            user: "u\t1".to_string(),
            text: "a\\b\nc\rd".to_string(),
        }],
    };
    let bytes = encode_health_report(&report);
    assert_eq!(
        std::str::from_utf8(&bytes).unwrap(),
        "irohsion-health/v2\t3\t99\nendpoint\tabc\t0.5000\t-\t4\nchat\t1\t2\tu\\t1\ta\\\\b\\nc\\rd\n"
    );
}

#[test]
fn texts_are_escaped_and_read_back() {
    for text in ["", "plain", "tab\there", "a\\tb", "\\", "line\r\n", "grüße\u{1f600}"] {
        assert_eq!(decode_text(&encode_health_text(text)), text);
    }
    assert_eq!(encode_health_text("\t\n\r\\"), "\\t\\n\\r\\\\");
    assert_eq!(decode_text("\\x\\"), "\\x\\");
}

#[test]
fn older_endpoint_rows_are_read() {
    let report = decode_health_report(
        b"irohsion-health/v2\t1\t2\nendpoint\ta\t1.5\t7\nendpoint\tb\t9.0\t2.5\t8\t11\n",
    )
    .unwrap();
    assert_eq!(report.endpoints[0].achieved_mbps, "1.5");
    assert_eq!(report.endpoints[0].last_seq, Some(7));
    assert_eq!(report.endpoints[0].max_seq, Some(7));
    assert_eq!(report.endpoints[1].achieved_mbps, "2.5");
    assert_eq!(report.endpoints[1].last_seq, Some(8));
    assert_eq!(report.endpoints[1].max_seq, Some(11));
}

#[test]
fn each_broken_report_has_its_error() {
    assert_eq!(
        decode_health_report(&[0xff, 0xfe]).unwrap_err(),
        HealthError::NotUtf8
    );
    assert_eq!(error_of(""), HealthError::MissingHeader);
    assert_eq!(error_of("other\t1\t2\n"), HealthError::UnexpectedMagic);
    assert_eq!(error_of("irohsion-health/v2"), HealthError::MissingSeq);
    assert_eq!(error_of("irohsion-health/v2\tx"), HealthError::InvalidSeq);
    assert_eq!(error_of("irohsion-health/v2\t1"), HealthError::MissingUnixMs);
    assert_eq!(
        error_of("irohsion-health/v2\t1\tx"),
        HealthError::InvalidUnixMs
    );
    let header = "irohsion-health/v2\t1\t2\n";
    let row = |text: &str| error_of(&format!("{header}{text}\n"));
    assert_eq!(row("chat"), HealthError::MissingChatId);
    assert_eq!(row("chat\tx"), HealthError::InvalidChatId);
    assert_eq!(row("chat\t1"), HealthError::MissingChatUnixMs);
    assert_eq!(row("chat\t1\tx"), HealthError::InvalidChatUnixMs);
    assert_eq!(row("chat\t1\t2"), HealthError::MissingChatUser);
    assert_eq!(row("chat\t1\t2\tu"), HealthError::MissingChatText);
    assert_eq!(row("other"), HealthError::UnexpectedKind);
    assert_eq!(row("endpoint"), HealthError::MissingEndpointId);
    assert_eq!(row("endpoint\ta\t1"), HealthError::InvalidEndpointRow);
    assert_eq!(row("endpoint\ta\tx\t1"), HealthError::InvalidThroughput);
    assert_eq!(row("endpoint\ta\t1\tx"), HealthError::InvalidLastSeq);
    assert_eq!(row("endpoint\ta\t1\t1\tx"), HealthError::InvalidMaxSeq);
    assert_eq!(
        HealthError::UnexpectedMagic.to_string(),
        "unexpected health report magic"
    );
}

#[test]
fn throughput_is_any_number_that_a_float_can_be_written_as() {
    for number in ["1", "-1.5", ".5", "5.", "1e3", "+2.5E-7", "inf", "NaN", "infinity"] {
        let text = format!("irohsion-health/v2\t1\t2\nendpoint\ta\t{number}\t-\n");
        assert!(number.parse::<f32>().is_ok(), "{number}");
        assert!(decode_health_report(text.as_bytes()).is_ok(), "{number}");
    }
    for number in ["", ".", "e5", "1e", "1 ", "0x1", "--1", "+"] {
        let text = format!("irohsion-health/v2\t1\t2\nendpoint\ta\t{number}\t-\n");
        assert!(number.parse::<f32>().is_err(), "{number}");
        assert_eq!(
            decode_health_report(text.as_bytes()).unwrap_err(),
            HealthError::InvalidThroughput,
            "{number}"
        );
    }
}
