use irohsion::fec::{FecEncoder, FecGroupError};
use irohsion::protocol::{
    decode_fec_frame, decode_packet, encode_repair_request, RepairRequest, MAX_MEDIA_SEQUENCE,
};
use irohsion::repair_cache::RepairCache;
use irohsion::sending::{
    displayed_paths, single_fragment_packet, PlanKind, SendAction, SendOptions, SendPath, SendPlan,
    Sender,
};
use irohsion::strategy::{StrategyInterface, StrategyMode, StrategyState};

const SECOND: u64 = 1_000_000_000;

const WHOLE: SendOptions = SendOptions {
    split_threshold_bytes: None,
    mtu: None,
    mpeg_ts_chunk_bytes: None,
};

fn paths(list: &[(&str, bool)]) -> Vec<SendPath> {
    list.iter()
        .map(|(name, connected)| SendPath {
            display_name: name.to_string(),
            connected: *connected,
        })
        .collect()
}

fn strategy(mode: StrategyMode) -> StrategyState {
    let interfaces: [StrategyInterface; 0] = [];
    let mut strategy = StrategyState::new(&interfaces, 0);
    strategy.set_mode(mode, "test");
    strategy
}

fn sender(fec_group: usize) -> Sender {
    Sender::new(
        RepairCache::new(SECOND, 64),
        FecEncoder::new(fec_group).unwrap(),
    )
}

fn names(list: &[&str]) -> Vec<String> {
    list.iter().map(|name| name.to_string()).collect()
}

/// What goes over which path: the header and the payload of each packet.
fn sent(actions: &[SendAction]) -> Vec<(usize, u64, u8, u8, Vec<u8>)> {
    actions
        .iter()
        .filter_map(|action| match action {
            SendAction::Send {
                path,
                packet,
                sequence,
                payload_len,
            } => {
                let decoded = decode_packet(packet).unwrap();
                assert_eq!(decoded.header.sequence, *sequence);
                assert_eq!(decoded.payload.len() as u64, *payload_len);
                Some((
                    *path,
                    *sequence,
                    decoded.header.fragment,
                    decoded.header.fragments,
                    decoded.payload.to_vec(),
                ))
            }
            _ => None,
        })
        .collect()
}

fn send(
    sender: &mut Sender,
    payload: &[u8],
    options: &SendOptions,
    paths: &[SendPath],
    strategy: &mut StrategyState,
    cuts: &[usize],
) -> Vec<SendAction> {
    let split: Vec<String> = paths.iter().map(|path| path.display_name.clone()).collect();
    let plan = SendPlan::new(payload, options, paths, strategy, &split, &[]);
    sender.send_payload(payload, &plan, cuts, options, strategy, 0)
}

#[test]
fn redundant_packets_go_over_every_connected_path() {
    let mut strategy = strategy(StrategyMode::Redundant);
    let mut sender = sender(0);
    let paths = paths(&[("a", true), ("b", false), ("c", true)]);
    let actions = send(&mut sender, b"data", &WHOLE, &paths, &mut strategy, &[]);
    assert_eq!(
        sent(&actions),
        vec![
            (0, 0, 0, 1, b"data".to_vec()),
            (2, 0, 0, 1, b"data".to_vec())
        ]
    );
    assert_eq!(sender.seq, 1);
    assert!(actions
        .iter()
        .any(|action| matches!(action, SendAction::Show { paths } if *paths == vec![0, 2])));
}

#[test]
fn paths_take_turns_with_whole_packets() {
    let mut strategy = strategy(StrategyMode::RoundRobin);
    let mut sender = sender(0);
    let paths = paths(&[("a", true), ("b", true)]);
    let mut taken = Vec::new();
    for _ in 0..4 {
        let actions = send(&mut sender, b"x", &WHOLE, &paths, &mut strategy, &[]);
        let packets = sent(&actions);
        assert_eq!(packets.len(), 1);
        taken.push((packets[0].0, packets[0].1));
    }
    assert_eq!(taken, vec![(0, 0), (1, 1), (0, 2), (1, 3)]);
}

#[test]
fn fragments_hold_the_payload_in_order() {
    let mut strategy = strategy(StrategyMode::Split);
    let mut sender = sender(0);
    let paths = paths(&[("a", true), ("b", true)]);
    let options = SendOptions {
        split_threshold_bytes: Some(4),
        ..WHOLE
    };
    let actions = send(
        &mut sender,
        b"abcdefgh",
        &options,
        &paths,
        &mut strategy,
        &[6, 8],
    );
    assert_eq!(
        sent(&actions),
        vec![
            (0, 0, 0, 2, b"abcdef".to_vec()),
            (1, 0, 1, 2, b"gh".to_vec())
        ]
    );
}

#[test]
fn the_threshold_decides_what_is_divided() {
    let paths = paths(&[("a", true), ("b", true)]);
    let options = SendOptions {
        split_threshold_bytes: Some(4),
        ..WHOLE
    };
    let split = names(&["a", "b"]);
    let kind = |payload: &[u8], mode: StrategyMode| {
        SendPlan::new(payload, &options, &paths, &strategy(mode), &split, &[]).kind
    };
    assert_eq!(kind(b"abcd", StrategyMode::Auto), PlanKind::RedundantPacket);
    assert_eq!(kind(b"abcde", StrategyMode::Auto), PlanKind::SplitPacket);
    assert_eq!(kind(b"a", StrategyMode::Split), PlanKind::RedundantPacket);
    assert_eq!(kind(b"abcd", StrategyMode::Split), PlanKind::RedundantPacket);
    assert_eq!(kind(b"abcde", StrategyMode::Split), PlanKind::SplitPacket);
    assert_eq!(kind(b"abcde", StrategyMode::Redundant), PlanKind::RedundantPacket);
    assert_eq!(kind(b"abcde", StrategyMode::RoundRobin), PlanKind::RoundRobinPacket);
}

#[test]
fn rescue_paths_get_whole_packets_beside_the_fragments() {
    let mut strategy = strategy(StrategyMode::Split);
    let mut sender = sender(0);
    let paths = paths(&[("a", true), ("b", true), ("c", true)]);
    let options = SendOptions {
        split_threshold_bytes: Some(1),
        ..WHOLE
    };
    let plan = SendPlan::new(
        b"abcd",
        &options,
        &paths,
        &strategy,
        &names(&["a", "b"]),
        &names(&["c"]),
    );
    assert_eq!(plan.kind, PlanKind::SplitPacket);
    assert_eq!(plan.units, 4);
    let actions = sender.send_payload(b"abcd", &plan, &[2, 4], &options, &mut strategy, 0);
    let packets = sent(&actions);
    assert!(packets.contains(&(0, 0, 0, 2, b"ab".to_vec())));
    assert!(packets.contains(&(1, 0, 1, 2, b"cd".to_vec())));
    assert!(packets.contains(&(2, 0, 0, 1, b"abcd".to_vec())));
    assert_eq!(packets.len(), 3);
}

#[test]
fn packets_that_need_too_many_fragments_are_refused() {
    let mut strategy = strategy(StrategyMode::Split);
    let mut sender = sender(0);
    let paths = paths(&[("a", true), ("b", true)]);
    let options = SendOptions {
        split_threshold_bytes: Some(1),
        mtu: Some(1),
        ..WHOLE
    };
    let actions = send(
        &mut sender,
        b"abcdefgh",
        &options,
        &paths,
        &mut strategy,
        &[4, 8],
    );
    assert_eq!(sent(&actions).len(), 0);
    assert!(actions
        .iter()
        .any(|action| matches!(action, SendAction::Refuse { .. })));
}

#[test]
fn transport_streams_are_sent_in_chunks() {
    let mut payload = vec![0_u8; 188 * 3];
    for start in [0, 188, 376] {
        payload[start] = 0x47;
    }
    payload[5] = 1;
    payload[200] = 2;
    payload[400] = 3;
    let options = SendOptions {
        mpeg_ts_chunk_bytes: Some(188),
        ..WHOLE
    };
    let paths = paths(&[("a", true), ("b", true)]);

    let mut split = strategy(StrategyMode::Split);
    let mut sender_one = sender(0);
    let plan = SendPlan::new(
        &payload,
        &options,
        &paths,
        &split,
        &names(&["a", "b"]),
        &[],
    );
    assert_eq!(plan.kind, PlanKind::SplitChunks);
    assert_eq!(plan.units, 3);
    let actions = sender_one.send_payload(&payload, &plan, &[2, 3], &options, &mut split, 0);
    let packets = sent(&actions);
    assert_eq!(
        packets
            .iter()
            .map(|packet| (packet.0, packet.1))
            .collect::<Vec<_>>(),
        vec![(0, 0), (0, 1), (1, 2)]
    );
    let joined: Vec<u8> = packets.iter().flat_map(|packet| packet.4.clone()).collect();
    assert_eq!(joined, payload);
    assert_eq!(sender_one.seq, 3);

    let mut turns = strategy(StrategyMode::RoundRobin);
    let mut sender_two = sender(0);
    let actions = send(&mut sender_two, &payload, &options, &paths, &mut turns, &[]);
    assert_eq!(
        sent(&actions)
            .iter()
            .map(|packet| (packet.0, packet.1))
            .collect::<Vec<_>>(),
        vec![(0, 0), (1, 1), (0, 2)]
    );
}

#[test]
fn without_a_path_nothing_is_sent() {
    let mut strategy = strategy(StrategyMode::Redundant);
    let mut sender = sender(0);
    let paths = paths(&[("a", false)]);
    let plan = SendPlan::new(b"data", &WHOLE, &paths, &strategy, &[], &[]);
    assert_eq!(plan.kind, PlanKind::Dropped);
    let actions = sender.send_payload(b"data", &plan, &[], &WHOLE, &mut strategy, 0);
    assert_eq!(actions.len(), 0);
    assert_eq!(sender.seq, 1);
}

#[test]
fn parity_frames_follow_each_group() {
    let mut strategy = strategy(StrategyMode::Redundant);
    let mut sender = sender(2);
    let paths = paths(&[("a", true)]);
    let first = send(&mut sender, b"abc", &WHOLE, &paths, &mut strategy, &[]);
    assert!(!first
        .iter()
        .any(|action| matches!(action, SendAction::Fec { .. })));
    let second = send(&mut sender, b"de", &WHOLE, &paths, &mut strategy, &[]);
    let frame = second
        .iter()
        .find_map(|action| match action {
            SendAction::Fec { frame } => Some(decode_fec_frame(frame).unwrap()),
            _ => None,
        })
        .unwrap();
    assert_eq!(frame.base_sequence, 0);
    assert_eq!(frame.payload_lengths, vec![3, 2]);
    assert_eq!(&frame.parity[..], &[b'a' ^ b'd', b'b' ^ b'e', b'c']);
}

#[test]
fn sent_packets_are_sent_again_on_request() {
    let mut strategy = strategy(StrategyMode::Redundant);
    let mut sender = sender(0);
    let paths = paths(&[("a", true), ("b", false), ("c", true)]);
    send(&mut sender, b"data", &WHOLE, &paths, &mut strategy, &[]);
    let request = encode_repair_request(RepairRequest {
        sequence: 0,
        missing_mask: 1,
    });
    let actions = sender.answer_repair(&request, &paths, SECOND / 2);
    assert_eq!(
        sent(&actions),
        vec![
            (0, 0, 0, 1, b"data".to_vec()),
            (2, 0, 0, 1, b"data".to_vec())
        ]
    );
    assert_eq!(sender.answer_repair(b"short", &paths, SECOND / 2).len(), 0);
    let unknown = encode_repair_request(RepairRequest {
        sequence: 9,
        missing_mask: 1,
    });
    assert_eq!(sender.answer_repair(&unknown, &paths, SECOND / 2).len(), 0);
}

#[test]
fn sequence_numbers_start_over() {
    let mut strategy = strategy(StrategyMode::Redundant);
    let mut sender = sender(0);
    sender.seq = MAX_MEDIA_SEQUENCE;
    let paths = paths(&[("a", true)]);
    let actions = send(&mut sender, b"last", &WHOLE, &paths, &mut strategy, &[]);
    assert_eq!(sent(&actions)[0].1, MAX_MEDIA_SEQUENCE);
    assert_eq!(sender.seq, 0);
}

#[test]
fn shown_paths_depend_on_the_strategy() {
    let paths = paths(&[("a", true), ("b", true), ("c", false)]);
    let split = strategy(StrategyMode::Split);
    let redundant = strategy(StrategyMode::Redundant);
    assert_eq!(
        displayed_paths(&paths, &split, &names(&["b", "c"])),
        vec![1]
    );
    assert_eq!(
        displayed_paths(&paths, &redundant, &names(&["b"])),
        vec![0, 1]
    );
}

#[test]
fn whole_packets_carry_their_payload() {
    let packet = single_fragment_packet(77, b"payload");
    let decoded = decode_packet(&packet).unwrap();
    assert_eq!(decoded.header.sequence, 77);
    assert_eq!(decoded.header.fragment, 0);
    assert_eq!(decoded.header.fragments, 1);
    assert_eq!(&decoded.payload[..], b"payload");
}

#[test]
fn parity_groups_have_two_to_thirty_two_packets() {
    assert!(FecEncoder::new(0).is_ok());
    assert_eq!(FecEncoder::new(1).err(), Some(FecGroupError::TooFew));
    assert!(FecEncoder::new(2).is_ok());
    assert!(FecEncoder::new(32).is_ok());
    assert_eq!(FecEncoder::new(33).err(), Some(FecGroupError::TooMany));
    assert_eq!(
        FecGroupError::TooFew.to_string(),
        "--fec-group-packets must be 0 or at least 2"
    );
    assert_eq!(
        FecGroupError::TooMany.to_string(),
        "--fec-group-packets must be <= 32"
    );
}

#[test]
fn a_group_can_be_closed_early() {
    let mut encoder = FecEncoder::new(4).unwrap();
    assert!(encoder.flush().is_none());
    assert!(encoder.record(9, b"b").is_none());
    assert!(encoder.record(10, b"cd").is_none());
    let frame = decode_fec_frame(&encoder.flush().unwrap()).unwrap();
    assert_eq!(frame.base_sequence, 9);
    assert_eq!(&frame.parity[..], &[b'b' ^ b'c', b'd']);
    assert!(encoder.flush().is_none());
    let mut off = FecEncoder::new(0).unwrap();
    assert!(off.record(1, b"a").is_none());
    assert!(off.flush().is_none());
}
