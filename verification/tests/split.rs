use irohsion::split::{
    is_mpeg_ts_payload, packet_split_ranges, should_split, units_to_divide, weighted_split_ranges,
};
use irohsion::strategy::{PathStrategy, StrategyMode};

/// Where the shares of a packet end, by the weights of the paths.
fn cuts(units: usize, weights: &[f64]) -> Vec<usize> {
    let mut accumulated = 0.0_f64;
    weights
        .iter()
        .map(|weight| {
            accumulated += weight;
            (units as f64 * accumulated).round() as usize
        })
        .collect()
}

fn divided(
    packet_len: usize,
    weights: &[f64],
    mtu: Option<usize>,
) -> Option<Vec<(usize, usize, usize)>> {
    packet_split_ranges(packet_len, &cuts(units_to_divide(packet_len, mtu), weights), mtu)
}

#[test]
fn weighted_ranges_cover_packet_once() {
    let ranges = weighted_split_ranges(1000, &cuts(1000, &[0.75, 0.25]));

    assert_eq!(ranges, vec![(0, 750), (750, 1000)]);
}

#[test]
fn weighted_ranges_assign_remainder_to_last_fragment() {
    let ranges = weighted_split_ranges(1001, &cuts(1001, &[0.5, 0.5]));

    assert_eq!(ranges, vec![(0, 501), (501, 1001)]);
}

#[test]
fn mtu_capped_ranges_split_oversized_weighted_fragments() {
    let ranges = divided(2256, &[0.9, 0.1], Some(1128)).unwrap();

    assert_eq!(ranges, vec![(0, 0, 1128), (0, 1128, 2256)]);
    assert!(ranges.iter().all(|(_, start, end)| end - start <= 1128));
}

#[test]
fn mtu_capped_ranges_distribute_even_chunks_across_even_weights() {
    let ranges = divided(2256, &[0.5, 0.5], Some(1128)).unwrap();

    assert_eq!(ranges, vec![(0, 0, 1128), (1, 1128, 2256)]);
}

#[test]
fn mtu_capped_ranges_can_split_over_one_path() {
    let ranges = divided(2256, &[1.0], Some(1128)).unwrap();

    assert_eq!(ranges, vec![(0, 0, 1128), (0, 1128, 2256)]);
}

#[test]
fn last_chunk_is_shorter_where_the_packet_ends() {
    let ranges = divided(2257, &[0.5, 0.5], Some(1128)).unwrap();

    assert_eq!(ranges, vec![(0, 0, 1128), (0, 1128, 2256), (1, 2256, 2257)]);
}

#[test]
fn too_many_chunks_are_refused() {
    assert_eq!(divided(800, &[1.0], Some(100)), None);
    assert_eq!(divided(700, &[1.0], Some(100)).unwrap().len(), 7);
}

#[test]
fn too_many_shares_are_refused() {
    let cuts: Vec<usize> = (1..=8).map(|share| share * 10).collect();
    assert_eq!(packet_split_ranges(80, &cuts, None), None);
    assert_eq!(packet_split_ranges(70, &cuts[..7], None).unwrap().len(), 7);
}

#[test]
fn empty_shares_are_left_out() {
    assert_eq!(packet_split_ranges(100, &[0, 60, 60, 100], None).unwrap(), vec![
        (1, 0, 60),
        (3, 60, 100)
    ]);
    assert_eq!(packet_split_ranges(100, &[], None).unwrap(), vec![]);
    assert_eq!(packet_split_ranges(100, &[], Some(60)).unwrap(), vec![]);
}

#[test]
fn cuts_are_kept_within_the_packet() {
    assert_eq!(weighted_split_ranges(100, &[120, 40, 7]), vec![(0, 100), (100, 100), (100, 100)]);
    assert_eq!(weighted_split_ranges(100, &[70, 40, 7]), vec![(0, 70), (70, 70), (70, 100)]);
    assert_eq!(weighted_split_ranges(100, &[]), vec![]);
}

#[test]
fn units_are_bytes_or_chunks() {
    assert_eq!(units_to_divide(2256, None), 2256);
    assert_eq!(units_to_divide(2256, Some(3000)), 2256);
    assert_eq!(units_to_divide(2256, Some(1128)), 2);
    assert_eq!(units_to_divide(2257, Some(1128)), 3);
}

#[test]
fn parts_put_together_make_the_payload() {
    let payload: Vec<u8> = (0..2500).map(|i| (i % 251) as u8).collect();
    for mtu in [None, Some(600), Some(2500), Some(5000)] {
        let parts = divided(payload.len(), &[0.2, 0.5, 0.3], mtu).unwrap();
        let joined: Vec<u8> =
            parts.iter().flat_map(|(_, start, end)| payload[*start..*end].to_vec()).collect();
        assert_eq!(joined, payload);
    }
}

#[test]
fn detects_mpeg_ts_payloads() {
    let mut payload = vec![0_u8; 376];
    payload[0] = 0x47;
    payload[188] = 0x47;

    assert!(is_mpeg_ts_payload(&payload));
}

#[test]
fn rejects_mpeg_ts_payloads_without_sync_bytes() {
    let payload = vec![0_u8; 376];

    assert!(!is_mpeg_ts_payload(&payload));
}

#[test]
fn rejects_mpeg_ts_payloads_of_another_length() {
    assert!(!is_mpeg_ts_payload(&[]));
    assert!(!is_mpeg_ts_payload(&[0x47_u8; 187]));
    assert!(is_mpeg_ts_payload(&[0x47_u8; 188]));
    let mut payload = vec![0x47_u8; 376];
    payload[188] = 0;
    assert!(!is_mpeg_ts_payload(&payload));
}

#[test]
fn packets_above_threshold_split_when_strategy_is_split() {
    assert!(should_split(
        1200,
        Some(1000),
        None,
        2,
        StrategyMode::Auto,
        PathStrategy::Split,
    ));
}

#[test]
fn packets_at_or_below_threshold_stay_redundant() {
    assert!(!should_split(
        1000,
        Some(1000),
        None,
        2,
        StrategyMode::Auto,
        PathStrategy::Split,
    ));
    assert!(!should_split(
        999,
        Some(1000),
        None,
        2,
        StrategyMode::Auto,
        PathStrategy::Split,
    ));
}

#[test]
fn packets_do_not_split_without_multiple_paths() {
    assert!(!should_split(
        1200,
        Some(1000),
        None,
        1,
        StrategyMode::Split,
        PathStrategy::Split,
    ));
    assert!(should_split(
        1200,
        None,
        Some(1000),
        1,
        StrategyMode::Auto,
        PathStrategy::Split,
    ));
}

#[test]
fn packets_above_mtu_split_even_when_strategy_is_redundant() {
    assert!(should_split(
        1400,
        Some(10_000),
        Some(1200),
        2,
        StrategyMode::Auto,
        PathStrategy::Redundant,
    ));
}

#[test]
fn packets_at_mtu_split_even_when_strategy_is_redundant() {
    assert!(should_split(
        1128,
        Some(10_000),
        Some(1128),
        2,
        StrategyMode::Auto,
        PathStrategy::Redundant,
    ));
}

#[test]
fn explicit_split_mode_always_splits_with_multiple_paths() {
    assert!(should_split(
        1128,
        None,
        Some(9_999),
        2,
        StrategyMode::Split,
        PathStrategy::Split,
    ));
}

#[test]
fn explicit_redundant_mode_still_honors_mtu() {
    assert!(should_split(
        1128,
        Some(100),
        Some(1128),
        2,
        StrategyMode::Redundant,
        PathStrategy::Redundant,
    ));
}

#[test]
fn explicit_round_robin_mode_still_honors_mtu() {
    assert!(should_split(
        1128,
        Some(100),
        Some(1128),
        2,
        StrategyMode::RoundRobin,
        PathStrategy::RoundRobin,
    ));
}

#[test]
fn redundant_strategy_does_not_split_below_the_mtu() {
    assert!(!should_split(1200, Some(1000), Some(2000), 2, StrategyMode::Auto, PathStrategy::Redundant));
    assert!(!should_split(1200, Some(1000), None, 2, StrategyMode::Redundant, PathStrategy::Redundant));
    assert!(!should_split(1200, Some(1000), None, 2, StrategyMode::RoundRobin, PathStrategy::RoundRobin));
    assert!(!should_split(1200, None, None, 2, StrategyMode::Auto, PathStrategy::Split));
}

#[test]
fn split_mode_divides_only_above_a_threshold() {
    let split = |len: usize, threshold: Option<usize>, mtu: Option<usize>, paths: usize| {
        should_split(len, threshold, mtu, paths, StrategyMode::Split, PathStrategy::Split)
    };
    assert!(!split(1, Some(100), None, 2));
    assert!(!split(100, Some(100), None, 2));
    assert!(split(101, Some(100), None, 2));
    assert!(split(1, None, None, 2));
    assert!(!split(101, Some(100), None, 1));
    assert!(split(100, Some(100), Some(100), 2));
}
