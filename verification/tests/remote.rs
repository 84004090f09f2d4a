use irohsion::preview::PreviewState;
use irohsion::remote::{
    apply_patch, apply_preview_patch, chunk_bytes, chunk_len, parse_u32_offset, services,
    status_payload, uuid_text, ControlPatch, PieceReader, RemoteConfig, RemoteError, OBS_SERVICE_UUID,
    PREVIEW_CHUNK_BYTES, SERVICE_UUID, STATUS_UUID,
};
use irohsion::strategy::{StrategyMode, StrategyState};

const NO_CHANGE: ControlPatch = ControlPatch {
    mode: None,
    monitor_packets: None,
    preview_enabled: None,
};

#[test]
fn uuids_are_written_with_hyphens() {
    assert_eq!(
        uuid_text(SERVICE_UUID),
        "8b4f82c8-4f5a-4e26-8f29-d1f0c0d10001"
    );
    assert_eq!(uuid_text(0), "00000000-0000-0000-0000-000000000000");
    assert_eq!(
        uuid_text(0xab),
        "00000000-0000-0000-0000-0000000000ab"
    );
}

#[test]
fn offsets_are_four_bytes() {
    assert_eq!(parse_u32_offset(&[1, 2, 0, 0]), Ok(0x0201));
    assert_eq!(
        parse_u32_offset(&[1, 2, 0]),
        Err(RemoteError::InvalidValueLength)
    );
}

#[test]
fn pieces_make_the_value() {
    let value: Vec<u8> = (0..100).collect();
    let mut collected = Vec::new();
    loop {
        let piece = chunk_bytes(&value, collected.len(), 30);
        if piece.is_empty() {
            break;
        }
        assert!(piece.len() <= 30);
        collected.extend(piece);
    }
    assert_eq!(collected, value);
    assert!(chunk_bytes(&value, 200, 30).is_empty());
}

#[test]
fn pieces_fit_the_transport() {
    assert_eq!(chunk_len(23, 500), 22);
    assert_eq!(chunk_len(517, 500), 500);
    assert_eq!(chunk_len(0, 500), 1);
}

#[test]
fn a_value_is_read_piece_by_piece() {
    let mut reader = PieceReader::new(PREVIEW_CHUNK_BYTES);
    assert!(reader.needs_value());
    reader.seek(0, vec![1, 2, 3, 4, 5]);
    assert_eq!(reader.read(vec![9], 5), vec![1, 2, 3, 4]);
    reader.seek(4, vec![9]);
    assert_eq!(reader.read(vec![9], 5), vec![5]);
    reader.seek(0, vec![9]);
    assert_eq!(reader.read(Vec::new(), 5), vec![9]);

    let mut late = PieceReader::new(2);
    assert_eq!(late.read(vec![7, 8, 9], 500), vec![7, 8]);
    assert!(!late.needs_value());
}

#[test]
fn services_hold_their_characteristics() {
    let without = services(false);
    assert_eq!(without.len(), 1);
    assert_eq!(without[0].uuid, SERVICE_UUID);
    assert!(without[0]
        .characteristics
        .iter()
        .any(|characteristic| characteristic.uuid == STATUS_UUID && characteristic.read));
    let with = services(true);
    assert_eq!(with.len(), 2);
    assert_eq!(with[1].uuid, OBS_SERVICE_UUID);
}

#[test]
fn patches_change_what_they_name() {
    let mut strategy = StrategyState::new(&[], 0);
    assert!(apply_patch(NO_CHANGE, &mut strategy).is_none());
    assert_eq!(strategy.mode(), StrategyMode::Auto);
    let change = apply_patch(
        ControlPatch {
            mode: Some(StrategyMode::Redundant),
            monitor_packets: Some(true),
            ..NO_CHANGE
        },
        &mut strategy,
    )
    .unwrap();
    assert_eq!(change.strategy, "redundant");
    assert_eq!(strategy.mode(), StrategyMode::Redundant);
    assert!(strategy.monitor_packets);

    let mut preview = PreviewState::new();
    let before = preview.enabled();
    apply_preview_patch(NO_CHANGE, &mut preview);
    assert_eq!(preview.enabled(), before);
    apply_preview_patch(
        ControlPatch {
            preview_enabled: Some(false),
            ..NO_CHANGE
        },
        &mut preview,
    );
    assert!(!preview.enabled());
}

#[test]
fn the_status_tells_of_the_client() {
    let config = RemoteConfig {
        name: "camera".to_string(),
        endpoint: "abc".to_string(),
        addrs: vec!["1.2.3.4:5".to_string()],
        relays: vec!["https://relay".to_string()],
    };
    let mut strategy = StrategyState::new(&[], 0);
    let preview = PreviewState::new();
    let payload = status_payload(&config, strategy.status(0), Some(&preview));
    assert_eq!(payload.kind, "irohsion-client-remote");
    assert_eq!(payload.endpoint, "abc");
    assert_eq!(payload.addrs, vec!["1.2.3.4:5".to_string()]);
    assert_eq!(payload.relays, vec!["https://relay".to_string()]);
    assert_eq!(
        payload.preview.characteristic,
        "8b4f82c8-4f5a-4e26-8f29-d1f0c0d10004"
    );
    assert_eq!(
        payload.preview.offset_characteristic,
        "8b4f82c8-4f5a-4e26-8f29-d1f0c0d10005"
    );
    assert_eq!(payload.preview.enabled, preview.enabled());
    let none = status_payload(&config, strategy.status(0), None);
    assert!(!none.preview.enabled);
    assert_eq!(none.preview.jpeg_bytes, 0);
}
