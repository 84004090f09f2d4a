use bytes::Bytes;
use irohsion::protocol::{FecFrame, PacketHeader, RepairRequest, MAX_MEDIA_SEQUENCE};
use irohsion::receive::{ReceivedFecFrame, ReceivedFrame, ReceivedPacket};
use irohsion::reorder::{ReorderAction, ReorderState};
use irohsion::reorder_model::{ReorderOptions, SkipReason};
use irohsion::server_ctx::ServerCtx;
use irohsion::server_ui::ServerUiState;

const SECOND: u64 = 1_000_000_000;
const MILLISECOND: u64 = 1_000_000;

struct Flow {
    state: ReorderState,
    options: ReorderOptions,
    ctx: ServerCtx,
    forwarded: Vec<Vec<u8>>,
    repairs: Vec<RepairRequest>,
    skips: Vec<(SkipReason, u64)>,
}

impl Flow {
    fn new(max_reorder_delay: u64, repair: Option<u64>, ctx: ServerCtx) -> Flow {
        Flow {
            state: ReorderState::new(),
            options: ReorderOptions {
                flow_idle_reset: 30 * SECOND,
                max_reorder_delay,
                repair_request_interval: repair,
            },
            ctx,
            forwarded: Vec::new(),
            repairs: Vec::new(),
            skips: Vec::new(),
        }
    }

    fn perform(&mut self) {
        for action in self.state.take_actions() {
            let _ = self.ctx.record_action(&action);
            match action {
                ReorderAction::Forward { payload, .. } => self.forwarded.push(payload),
                ReorderAction::Repair { request } => self.repairs.push(request),
                ReorderAction::Skipped {
                    reason, sequence, ..
                } => self.skips.push((reason, sequence)),
                _ => {}
            }
        }
    }

    fn send(&mut self, frame: ReceivedFrame, now: u64) {
        self.state.on_frame(frame, &self.options, now);
        self.perform();
    }

    fn wait(&mut self, now: u64) {
        self.state.on_timeout(&self.options, now);
        self.perform();
    }

    fn next_payload(&mut self) -> Vec<u8> {
        self.forwarded.remove(0)
    }
}

#[test]
fn skips_stale_gap_while_packets_keep_arriving() {
    let mut flow = Flow::new(20 * MILLISECOND, None, ServerCtx::default());

    flow.send(packet(10, b"first"), 0);
    assert_eq!(flow.next_payload(), b"first");

    flow.send(packet(12, b"third"), MILLISECOND);
    flow.send(packet(13, b"fourth"), 31 * MILLISECOND);

    assert_eq!(flow.next_payload(), b"third");
    assert_eq!(flow.next_payload(), b"fourth");
}

#[test]
fn resets_after_confirmed_sequence_restart() {
    let mut flow = Flow::new(20 * MILLISECOND, None, ServerCtx::default());

    flow.send(packet(5000, b"old"), 0);
    assert_eq!(flow.next_payload(), b"old");

    for seq in 0..8 {
        flow.send(
            packet_with_connection(2, seq, format!("new{seq}").as_bytes()),
            MILLISECOND,
        );
    }
    flow.send(packet_with_connection(2, 8, b"new8"), MILLISECOND);

    assert_eq!(flow.next_payload(), b"new7");
    assert_eq!(flow.next_payload(), b"new8");
}

#[test]
fn classifies_never_received_gap_and_late_arrival() {
    let ui = ServerUiState::new("test".to_string());
    let mut flow = Flow::new(20 * MILLISECOND, None, ServerCtx::new(Some(ui)));

    flow.send(packet(10, b"first"), 0);
    assert_eq!(flow.next_payload(), b"first");

    flow.send(packet(12, b"third"), MILLISECOND);
    flow.wait(21 * MILLISECOND);
    assert_eq!(flow.next_payload(), b"third");

    flow.send(packet(11, b"late"), 22 * MILLISECOND);

    let ui = flow.ctx.ui_state().unwrap();
    assert_eq!(ui.skipped_never_received_packets(), 1);
    assert_eq!(ui.late_after_skip_packets(), 1);
}

#[test]
fn classifies_incomplete_fragment_skip() {
    let ui = ServerUiState::new("test".to_string());
    let mut flow = Flow::new(20 * MILLISECOND, None, ServerCtx::new(Some(ui)));

    flow.send(fragment_packet(10, 0, 2, b"half"), 0);
    flow.wait(20 * MILLISECOND);
    flow.wait(40 * MILLISECOND);

    assert_eq!(flow.ctx.ui_state().unwrap().fragment_incomplete_packets(), 1);
}

#[test]
fn fec_recovers_one_missing_live_packet() {
    let mut flow = Flow::new(100 * MILLISECOND, None, ServerCtx::default());

    flow.send(packet(10, b"one"), 0);
    assert_eq!(flow.next_payload(), b"one");

    flow.send(packet(12, b"tri"), MILLISECOND);
    flow.send(
        fec_frame(
            10,
            &[b"one".as_slice(), b"two".as_slice(), b"tri".as_slice()],
        ),
        2 * MILLISECOND,
    );

    assert_eq!(flow.next_payload(), b"two");
    assert_eq!(flow.next_payload(), b"tri");
}

#[test]
fn packets_in_order_are_forwarded_at_once() {
    let mut flow = Flow::new(100 * MILLISECOND, None, ServerCtx::default());
    for sequence in 3..8 {
        flow.send(packet(sequence, &[sequence as u8]), sequence);
        assert_eq!(flow.next_payload(), [sequence as u8]);
    }
    assert!(!flow.state.has_pending_state());
}

#[test]
fn packets_out_of_order_wait_for_those_before_them() {
    let mut flow = Flow::new(100 * MILLISECOND, None, ServerCtx::default());
    flow.send(packet(1, b"a"), 0);
    flow.send(packet(3, b"c"), 1);
    flow.send(packet(4, b"d"), 2);
    assert_eq!(flow.forwarded.len(), 1);
    assert!(flow.state.has_pending_state());
    flow.send(packet(2, b"b"), 3);
    assert_eq!(
        flow.forwarded,
        vec![b"a".to_vec(), b"b".to_vec(), b"c".to_vec(), b"d".to_vec()]
    );
}

#[test]
fn copies_of_a_packet_are_forwarded_once() {
    let ui = ServerUiState::new("test".to_string());
    let mut flow = Flow::new(100 * MILLISECOND, None, ServerCtx::new(Some(ui)));
    flow.send(packet(1, b"a"), 0);
    flow.send(packet_with_connection(2, 1, b"a"), 1);
    flow.send(packet(3, b"c"), 2);
    flow.send(packet_with_connection(2, 3, b"c"), 3);
    flow.send(packet(2, b"b"), 4);
    assert_eq!(
        flow.forwarded,
        vec![b"a".to_vec(), b"b".to_vec(), b"c".to_vec()]
    );
    assert_eq!(flow.ctx.ui_state().unwrap().duplicate_packets, 2);
}

#[test]
fn fragments_are_put_together_in_any_order() {
    let mut flow = Flow::new(100 * MILLISECOND, None, ServerCtx::default());
    flow.send(fragment_packet(5, 2, 3, b"ghi"), 0);
    flow.send(fragment_packet(5, 0, 3, b"abc"), 1);
    assert!(flow.forwarded.is_empty());
    flow.send(fragment_packet(5, 1, 3, b"def"), 2);
    assert_eq!(flow.next_payload(), b"abcdefghi");
}

#[test]
fn sequence_numbers_wrap_without_a_gap() {
    let mut flow = Flow::new(100 * MILLISECOND, None, ServerCtx::default());
    flow.send(packet(MAX_MEDIA_SEQUENCE, b"last"), 0);
    flow.send(packet(0, b"first"), 1);
    assert_eq!(
        flow.forwarded,
        vec![b"last".to_vec(), b"first".to_vec()]
    );
}

#[test]
fn missing_packets_are_asked_for_again() {
    let mut flow = Flow::new(
        80 * MILLISECOND,
        Some(12 * MILLISECOND),
        ServerCtx::default(),
    );
    flow.send(packet(1, b"a"), 0);
    flow.send(packet(3, b"c"), MILLISECOND);
    flow.wait(13 * MILLISECOND);
    assert!(flow
        .repairs
        .iter()
        .any(|request| request.sequence == 2 && request.missing_mask == 0b0111_1111));
    assert_eq!(
        flow.state.timeout_duration(&flow.options),
        12 * MILLISECOND
    );
}

#[test]
fn missing_fragments_are_asked_for_by_their_bits() {
    let mut flow = Flow::new(
        80 * MILLISECOND,
        Some(12 * MILLISECOND),
        ServerCtx::default(),
    );
    flow.send(packet(1, b"a"), 0);
    flow.send(fragment_packet(2, 1, 3, b"middle"), MILLISECOND);
    flow.wait(20 * MILLISECOND);
    assert!(flow
        .repairs
        .iter()
        .any(|request| request.sequence == 2 && request.missing_mask == 0b101));
}

#[test]
fn an_idle_flow_starts_over() {
    let mut flow = Flow::new(20 * MILLISECOND, None, ServerCtx::default());
    assert_eq!(flow.state.timeout_duration(&flow.options), 30 * SECOND);
    flow.send(packet(100, b"old"), 0);
    flow.wait(30 * SECOND);
    flow.send(packet(7, b"new"), 31 * SECOND);
    assert_eq!(flow.forwarded, vec![b"old".to_vec(), b"new".to_vec()]);
}

#[test]
fn a_gap_is_given_up_only_after_the_delay() {
    let mut flow = Flow::new(20 * MILLISECOND, None, ServerCtx::default());
    flow.send(packet(1, b"a"), 0);
    flow.send(packet(3, b"c"), MILLISECOND);
    flow.wait(20 * MILLISECOND);
    assert!(flow.skips.is_empty());
    flow.wait(21 * MILLISECOND);
    assert_eq!(flow.skips, vec![(SkipReason::NeverReceived, 2)]);
    assert_eq!(flow.forwarded, vec![b"a".to_vec(), b"c".to_vec()]);
}

fn packet(sequence: u64, payload: &[u8]) -> ReceivedFrame {
    packet_with_connection(1, sequence, payload)
}

fn fragment_packet(sequence: u64, fragment: u8, fragments: u8, payload: &[u8]) -> ReceivedFrame {
    ReceivedFrame::Packet(ReceivedPacket {
        remote: "test".to_string(),
        connection_id: 1,
        header: PacketHeader {
            sequence,
            fragment,
            fragments,
        },
        payload: payload.to_vec(),
    })
}

fn packet_with_connection(connection_id: usize, sequence: u64, payload: &[u8]) -> ReceivedFrame {
    ReceivedFrame::Packet(ReceivedPacket {
        remote: "test".to_string(),
        connection_id,
        header: PacketHeader {
            sequence,
            fragment: 0,
            fragments: 1,
        },
        payload: payload.to_vec(),
    })
}

fn fec_frame(base_sequence: u64, payloads: &[&[u8]]) -> ReceivedFrame {
    let max_len = payloads.iter().map(|payload| payload.len()).max().unwrap();
    let mut parity = vec![0_u8; max_len];
    for payload in payloads {
        for (index, byte) in payload.iter().enumerate() {
            parity[index] ^= *byte;
        }
    }

    ReceivedFrame::Fec(ReceivedFecFrame {
        remote: "test".to_string(),
        frame: FecFrame {
            base_sequence,
            payload_lengths: payloads.iter().map(|payload| payload.len()).collect(),
            parity: Bytes::from(parity),
        },
    })
}

#[test]
fn what_arrives_is_what_was_sent() {
    let sent: [&[u8]; 6] = [b"zero", b"one", b"two and more", b"three", b"four", b"five!"];
    let mut flow = Flow::new(100 * MILLISECOND, None, ServerCtx::default());
    flow.send(packet(20, sent[0]), 0);
    flow.send(fragment_packet(22, 1, 3, b" and"), 1);
    flow.send(fragment_packet(22, 0, 3, b"two"), 2);
    flow.send(packet(20, sent[0]), 3);
    flow.send(packet(23, sent[3]), 4);
    flow.send(fec_frame(20, &sent[..4]), 5);
    assert_eq!(flow.forwarded, vec![sent[0].to_vec()]);
    flow.send(fragment_packet(22, 2, 3, b" more"), 6);
    flow.send(packet(25, sent[5]), 7);
    flow.send(packet(22, sent[2]), 8);
    flow.send(packet(24, sent[4]), 9);
    let all: Vec<Vec<u8>> = sent.iter().map(|payload| payload.to_vec()).collect();
    assert_eq!(flow.forwarded, all);
}

#[test]
fn forwarded_sequence_numbers_rise() {
    let mut state = ReorderState::new();
    let options = ReorderOptions {
        flow_idle_reset: 30 * SECOND,
        max_reorder_delay: 20 * MILLISECOND,
        repair_request_interval: None,
    };
    let mut forwarded = Vec::new();
    let arrivals = [7, 9, 9, 8, 8, 7, 12, 11, 12, 15, 13, 16, 10, 17];
    for (step, sequence) in arrivals.iter().enumerate() {
        let now = step as u64 * 15 * MILLISECOND;
        state.on_frame(packet(*sequence, b"payload"), &options, now);
        for action in state.take_actions() {
            if let ReorderAction::Forward { sequence, .. } = action {
                forwarded.push(sequence);
            }
        }
    }
    assert_eq!(forwarded[0], 7);
    assert!(forwarded.windows(2).all(|pair| pair[0] < pair[1]));
    assert!(forwarded.contains(&17));
}

#[test]
fn one_connection_makes_one_flow() {
    let mut state = ReorderState::new();
    let options = ReorderOptions {
        flow_idle_reset: 30 * SECOND,
        max_reorder_delay: 20 * MILLISECOND,
        repair_request_interval: Some(5 * MILLISECOND),
    };
    let mut starts = Vec::new();
    let mut resets = 0;
    let mut forwarded = Vec::new();
    let mut arrivals = vec![9_000, 9_001, 9_003];
    arrivals.extend(0..20);
    arrivals.extend([9_002, 9_003, 9_004]);
    for (step, sequence) in arrivals.iter().enumerate() {
        state.on_frame(packet(*sequence, b"payload"), &options, step as u64);
        for action in state.take_actions() {
            match action {
                ReorderAction::FlowStart { next_seq } => starts.push(next_seq),
                ReorderAction::FlowReset { .. } => resets += 1,
                ReorderAction::Forward { sequence, .. } => forwarded.push(sequence),
                _ => {}
            }
        }
    }
    assert_eq!(starts, vec![9_000]);
    assert_eq!(resets, 0);
    assert_eq!(forwarded, vec![9_000, 9_001, 9_002, 9_003, 9_004]);
}
