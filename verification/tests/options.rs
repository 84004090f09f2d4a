use irohsion::options::{
    validate_cli, validate_client_paths, validate_client_start, validate_server,
    ClientPathOptions, ClientStartOptions, OptionError, ServerOptions,
};

const START: ClientStartOptions = ClientStartOptions {
    status_file_interval_ms: 1_000,
    mpeg_ts_chunk_bytes: Some(1_316),
    mtu: Some(1_200),
    repair_cache_ms: 2_000,
    repair_cache_packets: 100,
};

const PATHS: ClientPathOptions = ClientPathOptions {
    tc_backlog_poll_ms: 100,
    tc_backlog_degrade_bytes: 1_000,
    tc_backlog_recover_bytes: 1_000,
    tc_qdisc_reset: true,
    tc_qdisc_reset_backlog_bytes: 1,
    mbps_is_valid: true,
    tc_qdisc_reset_cooldown_ms: 1,
};

const SERVER: ServerOptions = ServerOptions {
    flow_idle_reset_secs: 30,
    max_reorder_delay_ms: 80,
    repair: true,
    repair_request_interval_ms: 12,
};

#[test]
fn good_options_are_accepted() {
    assert_eq!(validate_client_start(&START), Ok(()));
    assert_eq!(validate_client_paths(&PATHS, 7), Ok(()));
    assert_eq!(validate_server(&SERVER), Ok(()));
    assert_eq!(validate_cli(1_200, true), Ok(()));
    let none = ClientStartOptions {
        mpeg_ts_chunk_bytes: None,
        mtu: None,
        ..START
    };
    assert_eq!(validate_client_start(&none), Ok(()));
}

#[test]
fn each_bad_option_of_the_client_has_its_error() {
    let start = |options: ClientStartOptions| validate_client_start(&options).unwrap_err();
    assert_eq!(
        start(ClientStartOptions {
            status_file_interval_ms: 0,
            ..START
        }),
        OptionError::StatusFileInterval
    );
    for chunk in [0, 187, 189] {
        assert_eq!(
            start(ClientStartOptions {
                mpeg_ts_chunk_bytes: Some(chunk),
                ..START
            }),
            OptionError::MpegTsChunk
        );
    }
    assert_eq!(
        start(ClientStartOptions {
            mtu: Some(0),
            ..START
        }),
        OptionError::Mtu
    );
    assert_eq!(
        start(ClientStartOptions {
            repair_cache_ms: 0,
            ..START
        }),
        OptionError::RepairCacheTime
    );
    assert_eq!(
        start(ClientStartOptions {
            repair_cache_packets: 0,
            ..START
        }),
        OptionError::RepairCachePackets
    );
}

#[test]
fn each_bad_option_of_the_paths_has_its_error() {
    let paths = |options: ClientPathOptions| validate_client_paths(&options, 1).unwrap_err();
    assert_eq!(
        validate_client_paths(&PATHS, 8),
        Err(OptionError::TooManyInterfaces)
    );
    assert_eq!(
        paths(ClientPathOptions {
            tc_backlog_poll_ms: 0,
            ..PATHS
        }),
        OptionError::BacklogPoll
    );
    assert_eq!(
        paths(ClientPathOptions {
            tc_backlog_recover_bytes: 1_001,
            ..PATHS
        }),
        OptionError::BacklogRecover
    );
    assert_eq!(
        paths(ClientPathOptions {
            tc_qdisc_reset_backlog_bytes: 0,
            ..PATHS
        }),
        OptionError::QdiscResetBacklog
    );
    assert_eq!(
        paths(ClientPathOptions {
            mbps_is_valid: false,
            ..PATHS
        }),
        OptionError::QdiscResetMbps
    );
    assert_eq!(
        paths(ClientPathOptions {
            tc_qdisc_reset_cooldown_ms: 0,
            ..PATHS
        }),
        OptionError::QdiscResetCooldown
    );
    let off = ClientPathOptions {
        tc_qdisc_reset: false,
        tc_qdisc_reset_backlog_bytes: 0,
        mbps_is_valid: false,
        tc_qdisc_reset_cooldown_ms: 0,
        ..PATHS
    };
    assert_eq!(validate_client_paths(&off, 1), Ok(()));
}

#[test]
fn each_bad_option_of_the_server_has_its_error() {
    let server = |options: ServerOptions| validate_server(&options).unwrap_err();
    assert_eq!(
        server(ServerOptions {
            flow_idle_reset_secs: 0,
            ..SERVER
        }),
        OptionError::FlowIdleReset
    );
    assert_eq!(
        server(ServerOptions {
            max_reorder_delay_ms: 0,
            ..SERVER
        }),
        OptionError::ReorderDelay
    );
    assert_eq!(
        server(ServerOptions {
            repair_request_interval_ms: 0,
            ..SERVER
        }),
        OptionError::RepairInterval
    );
    assert_eq!(
        server(ServerOptions {
            repair_request_interval_ms: 80,
            ..SERVER
        }),
        OptionError::RepairIntervalTooLong
    );
    let off = ServerOptions {
        repair: false,
        repair_request_interval_ms: 0,
        ..SERVER
    };
    assert_eq!(validate_server(&off), Ok(()));
}

#[test]
fn each_bad_option_of_the_benchmark_has_its_error() {
    assert_eq!(validate_cli(0, true), Err(OptionError::PacketSize));
    assert_eq!(validate_cli(1, false), Err(OptionError::Throughput));
}

#[test]
fn errors_name_the_option() {
    assert_eq!(
        OptionError::Mtu.message(),
        "--mtu must be greater than zero when set"
    );
    assert_eq!(
        OptionError::TooManyInterfaces.message(),
        "at most 7 interfaces are supported by the packed packet header"
    );
    assert_eq!(
        OptionError::RepairIntervalTooLong.message(),
        "--repair-request-interval-ms must be less than --max-reorder-delay-ms"
    );
}
