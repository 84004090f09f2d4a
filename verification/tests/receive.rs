use bytes::Bytes;
use irohsion::fec::FecState;
use irohsion::ordered::NumberMap;
use irohsion::protocol::FecFrame;
use irohsion::receive::{BufferedPacket, FragmentAssembly};
use irohsion::tracking::RestartDetector;

const PAYLOADS: [&[u8]; 3] = [b"one", b"second", b"3"];

fn parity_frame() -> FecFrame {
    let mut parity = vec![0_u8; 6];
    for payload in PAYLOADS {
        for (index, byte) in payload.iter().enumerate() {
            parity[index] ^= *byte;
        }
    }
    FecFrame {
        base_sequence: 40,
        payload_lengths: PAYLOADS.iter().map(|payload| payload.len()).collect(),
        parity: Bytes::from(parity),
    }
}

#[test]
fn fragments_make_the_same_packet_in_every_order() {
    for order in [[0, 1, 2], [0, 2, 1], [1, 0, 2], [1, 2, 0], [2, 0, 1], [2, 1, 0]] {
        let mut assembly = FragmentAssembly::new(3, 5);
        for (step, fragment) in order.iter().enumerate() {
            assert!(!assembly.is_complete());
            assert!(assembly.insert(*fragment, PAYLOADS[usize::from(*fragment)].to_vec()));
            for earlier in &order[..=step] {
                assert!(!assembly.insert(*earlier, b"copy".to_vec()));
            }
        }
        assert!(assembly.is_complete());
        assert_eq!(assembly.missing_mask(), 0);
        assert_eq!(assembly.into_payload(), b"onesecond3");
    }
}

#[test]
fn a_lost_payload_is_recovered_once() {
    let none: NumberMap<BufferedPacket> = NumberMap::new();
    let mut state = FecState::new();
    state.insert_frame(parity_frame());
    state.insert_payload(40, PAYLOADS[0].to_vec());
    state.insert_payload(42, PAYLOADS[2].to_vec());
    assert_eq!(
        state.recover_ready(41, &none),
        vec![(41, PAYLOADS[1].to_vec())]
    );
    assert!(state.recover_ready(41, &none).is_empty());
}

#[test]
fn a_parity_frame_waits_until_one_payload_is_lost() {
    let none: NumberMap<BufferedPacket> = NumberMap::new();
    let mut state = FecState::new();
    state.insert_frame(parity_frame());
    state.insert_payload(42, PAYLOADS[2].to_vec());
    assert!(state.recover_ready(40, &none).is_empty());
    assert!(state.recover_ready(40, &none).is_empty());
    let mut buffered: NumberMap<BufferedPacket> = NumberMap::new();
    buffered.insert(
        41,
        BufferedPacket {
            payload: PAYLOADS[1].to_vec(),
            received_at: 1,
        },
    );
    assert_eq!(
        state.recover_ready(40, &buffered),
        vec![(40, PAYLOADS[0].to_vec())]
    );
}

#[test]
fn eight_packets_in_order_confirm_a_restart() {
    let mut detector = RestartDetector::new();
    for sequence in 0..7 {
        assert!(!detector.observe(sequence, 10_000));
    }
    assert!(detector.observe(7, 10_000));
    assert!(detector.observe(7, 10_000));
    assert!(!detector.observe(3, 10_000));
    for sequence in 4..10 {
        assert!(!detector.observe(sequence, 10_000));
    }
    assert!(detector.observe(10, 10_000));
    assert!(!detector.observe(9_000, 10_000));
    for sequence in [0, 0, 1, 1, 2, 2, 3] {
        assert!(!detector.observe(sequence, 4_099));
    }
    assert!(!detector.observe(4, 4_099));
    for sequence in 0..7 {
        assert!(!detector.observe(sequence, 10_000));
    }
    detector.clear();
    assert!(!detector.observe(7, 10_000));
}
