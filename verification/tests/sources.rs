use irohsion::bench::{bench_payload, BenchCounter, BENCH_BYTE};
use irohsion::chat::{KickChat, TwitchChat};
use irohsion::clock::{
    current_session_id, session_id_of, unix_ms_now, unix_ms_of, ClockError,
};
use irohsion::protocol::MAX_MEDIA_SEQUENCE;

#[test]
fn session_numbers_are_seconds() {
    assert_eq!(session_id_of(Some(1_700_000_000)), Ok(1_700_000_000));
    assert_eq!(session_id_of(None), Err(ClockError::BeforeEpoch));
    assert_eq!(
        session_id_of(Some(4_294_967_296)),
        Err(ClockError::SessionTooLarge)
    );
    assert!(current_session_id().unwrap() > 1_600_000_000);
}

#[test]
fn timestamps_are_milliseconds() {
    assert_eq!(unix_ms_of(Some(5)), Ok(5));
    assert_eq!(unix_ms_of(None), Err(ClockError::BeforeEpoch));
    assert_eq!(
        unix_ms_of(Some(18_446_744_073_709_551_616)),
        Err(ClockError::TimestampTooLarge)
    );
    let seconds = u64::from(current_session_id().unwrap());
    let millis = unix_ms_now().unwrap();
    assert!(millis / 1_000 >= seconds && millis / 1_000 <= seconds + 5);
}

#[test]
fn clock_errors_have_texts() {
    assert_eq!(
        ClockError::BeforeEpoch.message(),
        "system clock is before unix epoch"
    );
    assert_eq!(
        ClockError::SessionTooLarge.message(),
        "current unix timestamp does not fit in u32 session_id"
    );
    assert_eq!(
        ClockError::TimestampTooLarge.message(),
        "current unix timestamp does not fit in u64"
    );
}

#[test]
fn chats_keep_the_latest_messages() {
    let mut chat = TwitchChat::new(2);
    for number in 0..3_u64 {
        chat.push_at("viewer".to_string(), format!("m{number}"), Ok(100 + number))
            .unwrap();
    }
    let messages = chat.recent_messages();
    assert_eq!(messages.len(), 2);
    assert_eq!(messages[0].text, "m1");
    assert_eq!(messages[1].text, "m2");
    assert_eq!(messages[1].id, messages[0].id + 1);
    assert_eq!(messages[1].unix_ms, 102);
    let reported = chat.reported();
    assert_eq!(reported[1].text, "m2");
    assert_eq!(reported[1].user, "viewer");
}

#[test]
fn without_a_clock_no_message_is_kept() {
    let mut chat = KickChat::new(2);
    assert_eq!(
        chat.push_at("u".to_string(), "t".to_string(), Err(ClockError::BeforeEpoch)),
        Err(ClockError::BeforeEpoch)
    );
    assert!(chat.recent_messages().is_empty());
    chat.push("u".to_string(), "t".to_string()).unwrap();
    assert!(chat.recent_messages()[0].unix_ms > 1_600_000_000_000);
    assert_eq!(chat.reported().len(), 1);
}

#[test]
fn the_benchmark_counts_its_packets() {
    let mut counter = BenchCounter::new();
    let mut reports = 0;
    for _ in 0..2_000 {
        if counter.count(10) {
            reports += 1;
        }
    }
    assert_eq!(reports, 2);
    assert_eq!(counter.sent_packets, 2_000);
    assert_eq!(counter.sent_payload_bytes, 20_000);
    assert_eq!(counter.seq, 2_000);
    counter.seq = MAX_MEDIA_SEQUENCE;
    counter.count(1);
    assert_eq!(counter.seq, 0);
    assert_eq!(bench_payload(3), vec![BENCH_BYTE; 3]);
}
