//! What the options of the programs must fulfil.

use crate::protocol::MAX_FRAGMENTS;
use crate::sending::SendOptions;
use crate::split::MPEG_TS_PACKET_SIZE;
use vstd::prelude::*;

verus! {

/// Why options are refused.
#[derive(Debug, Clone, Copy, PartialEq, Eq, Structural)]
pub enum OptionError {
    StatusFileInterval,
    MpegTsChunk,
    Mtu,
    RepairCacheTime,
    RepairCachePackets,
    TooManyInterfaces,
    BacklogPoll,
    BacklogRecover,
    QdiscResetBacklog,
    QdiscResetMbps,
    QdiscResetCooldown,
    FlowIdleReset,
    ReorderDelay,
    RepairInterval,
    RepairIntervalTooLong,
    PacketSize,
    Throughput,
}

impl OptionError {
    /// What is said of options that are refused.
    pub open spec fn text(self) -> Seq<char> {
        match self {
            OptionError::StatusFileInterval =>
                "--status-file-interval-ms must be greater than zero"@,
            OptionError::MpegTsChunk =>
                "--mpeg-ts-chunk-bytes must be a non-zero multiple of 188"@,
            OptionError::Mtu => "--mtu must be greater than zero when set"@,
            OptionError::RepairCacheTime => "--repair-cache-ms must be greater than zero"@,
            OptionError::RepairCachePackets => "--repair-cache-packets must be greater than zero"@,
            OptionError::TooManyInterfaces =>
                "at most 7 interfaces are supported by the packed packet header"@,
            OptionError::BacklogPoll => "--tc-backlog-poll-ms must be greater than zero"@,
            OptionError::BacklogRecover =>
                "--tc-backlog-recover-bytes must be <= --tc-backlog-degrade-bytes"@,
            OptionError::QdiscResetBacklog =>
                "--tc-qdisc-reset-backlog-bytes must be greater than zero"@,
            OptionError::QdiscResetMbps =>
                "--tc-qdisc-reset-max-server-mbps must be a finite non-negative number"@,
            OptionError::QdiscResetCooldown =>
                "--tc-qdisc-reset-cooldown-ms must be greater than zero"@,
            OptionError::FlowIdleReset => "--flow-idle-reset-secs must be greater than zero"@,
            OptionError::ReorderDelay => "--max-reorder-delay-ms must be greater than zero"@,
            OptionError::RepairInterval =>
                "--repair-request-interval-ms must be greater than zero"@,
            OptionError::RepairIntervalTooLong =>
                "--repair-request-interval-ms must be less than --max-reorder-delay-ms"@,
            OptionError::PacketSize => "--packet-size must be greater than zero"@,
            OptionError::Throughput => "--throughput-mbps must be a finite positive number"@,
        }
    }

    pub fn message(&self) -> (message: &'static str)
        ensures
            message@ == self.text(),
    {
        match self {
            OptionError::StatusFileInterval =>
                "--status-file-interval-ms must be greater than zero",
            OptionError::MpegTsChunk => "--mpeg-ts-chunk-bytes must be a non-zero multiple of 188",
            OptionError::Mtu => "--mtu must be greater than zero when set",
            OptionError::RepairCacheTime => "--repair-cache-ms must be greater than zero",
            OptionError::RepairCachePackets => "--repair-cache-packets must be greater than zero",
            OptionError::TooManyInterfaces =>
                "at most 7 interfaces are supported by the packed packet header",
            OptionError::BacklogPoll => "--tc-backlog-poll-ms must be greater than zero",
            OptionError::BacklogRecover =>
                "--tc-backlog-recover-bytes must be <= --tc-backlog-degrade-bytes",
            OptionError::QdiscResetBacklog =>
                "--tc-qdisc-reset-backlog-bytes must be greater than zero",
            OptionError::QdiscResetMbps =>
                "--tc-qdisc-reset-max-server-mbps must be a finite non-negative number",
            OptionError::QdiscResetCooldown =>
                "--tc-qdisc-reset-cooldown-ms must be greater than zero",
            OptionError::FlowIdleReset => "--flow-idle-reset-secs must be greater than zero",
            OptionError::ReorderDelay => "--max-reorder-delay-ms must be greater than zero",
            OptionError::RepairInterval => "--repair-request-interval-ms must be greater than zero",
            OptionError::RepairIntervalTooLong =>
                "--repair-request-interval-ms must be less than --max-reorder-delay-ms",
            OptionError::PacketSize => "--packet-size must be greater than zero",
            OptionError::Throughput => "--throughput-mbps must be a finite positive number",
        }
    }
}

/// Whether an error is found, and if so which.
pub open spec fn verdict(error: Option<OptionError>) -> Result<(), OptionError> {
    match error {
        Some(error) => Err(error),
        None => Ok(()),
    }
}

/// The options of the client that are looked at before it starts.
#[derive(Debug, Clone, Copy, PartialEq, Eq)]
pub struct ClientStartOptions {
    pub status_file_interval_ms: u64,
    pub mpeg_ts_chunk_bytes: Option<usize>,
    pub mtu: Option<usize>,
    pub repair_cache_ms: u64,
    pub repair_cache_packets: usize,
}

/// The first thing that is wrong with the options of the client.
pub open spec fn start_error(options: ClientStartOptions) -> Option<OptionError> {
    if options.status_file_interval_ms == 0 {
        Some(OptionError::StatusFileInterval)
    } else if options.mpeg_ts_chunk_bytes matches Some(bytes) && (bytes == 0 || bytes
        % MPEG_TS_PACKET_SIZE != 0) {
        Some(OptionError::MpegTsChunk)
    } else if options.mtu == Some(0usize) {
        Some(OptionError::Mtu)
    } else if options.repair_cache_ms == 0 {
        Some(OptionError::RepairCacheTime)
    } else if options.repair_cache_packets == 0 {
        Some(OptionError::RepairCachePackets)
    } else {
        None
    }
}

/// Looks at the options of the client before it starts.
pub fn validate_client_start(options: &ClientStartOptions) -> (result: Result<(), OptionError>)
    ensures
        result == verdict(start_error(*options)),
{
    if options.status_file_interval_ms == 0 {
        return Err(OptionError::StatusFileInterval);
    }
    if let Some(bytes) = options.mpeg_ts_chunk_bytes {
        if bytes == 0 || bytes % MPEG_TS_PACKET_SIZE != 0 {
            return Err(OptionError::MpegTsChunk);
        }
    }
    if let Some(mtu) = options.mtu {
        if mtu == 0 {
            return Err(OptionError::Mtu);
        }
    }
    if options.repair_cache_ms == 0 {
        return Err(OptionError::RepairCacheTime);
    }
    if options.repair_cache_packets == 0 {
        return Err(OptionError::RepairCachePackets);
    }
    Ok(())
}

/// Options of the client that are not refused can be sent with.
pub proof fn law_accepted_options_can_be_sent_with(
    options: ClientStartOptions,
    split_threshold_bytes: Option<usize>,
)
    requires
        start_error(options) is None,
    ensures
        (SendOptions {
            split_threshold_bytes,
            mtu: options.mtu,
            mpeg_ts_chunk_bytes: options.mpeg_ts_chunk_bytes,
        }).well_formed(),
        options.repair_cache_packets > 0,
{
}

/// The options of the client that are looked at once its interfaces are known; `mbps_is_valid` tells
/// whether the throughput below which a queue is reset is a finite number and not negative.
#[derive(Debug, Clone, Copy, PartialEq, Eq)]
pub struct ClientPathOptions {
    pub tc_backlog_poll_ms: u64,
    pub tc_backlog_degrade_bytes: u64,
    pub tc_backlog_recover_bytes: u64,
    pub tc_qdisc_reset: bool,
    pub tc_qdisc_reset_backlog_bytes: u64,
    pub mbps_is_valid: bool,
    pub tc_qdisc_reset_cooldown_ms: u64,
}

/// The first thing that is wrong with the interfaces or the options of the client.
pub open spec fn path_error(options: ClientPathOptions, paths: usize) -> Option<OptionError> {
    if paths > MAX_FRAGMENTS {
        Some(OptionError::TooManyInterfaces)
    } else if options.tc_backlog_poll_ms == 0 {
        Some(OptionError::BacklogPoll)
    } else if options.tc_backlog_recover_bytes > options.tc_backlog_degrade_bytes {
        Some(OptionError::BacklogRecover)
    } else if options.tc_qdisc_reset && options.tc_qdisc_reset_backlog_bytes == 0 {
        Some(OptionError::QdiscResetBacklog)
    } else if options.tc_qdisc_reset && !options.mbps_is_valid {
        Some(OptionError::QdiscResetMbps)
    } else if options.tc_qdisc_reset && options.tc_qdisc_reset_cooldown_ms == 0 {
        Some(OptionError::QdiscResetCooldown)
    } else {
        None
    }
}

/// Looks at the interfaces and the options of the client.
pub fn validate_client_paths(options: &ClientPathOptions, paths: usize) -> (result: Result<
    (),
    OptionError,
>)
    ensures
        result == verdict(path_error(*options, paths)),
{
    if paths > MAX_FRAGMENTS {
        return Err(OptionError::TooManyInterfaces);
    }
    if options.tc_backlog_poll_ms == 0 {
        return Err(OptionError::BacklogPoll);
    }
    if options.tc_backlog_recover_bytes > options.tc_backlog_degrade_bytes {
        return Err(OptionError::BacklogRecover);
    }
    if options.tc_qdisc_reset {
        if options.tc_qdisc_reset_backlog_bytes == 0 {
            return Err(OptionError::QdiscResetBacklog);
        }
        if !options.mbps_is_valid {
            return Err(OptionError::QdiscResetMbps);
        }
        if options.tc_qdisc_reset_cooldown_ms == 0 {
            return Err(OptionError::QdiscResetCooldown);
        }
    }
    Ok(())
}

/// The options of the server.
#[derive(Debug, Clone, Copy, PartialEq, Eq)]
pub struct ServerOptions {
    pub flow_idle_reset_secs: u64,
    pub max_reorder_delay_ms: u64,
    pub repair: bool,
    pub repair_request_interval_ms: u64,
}

/// The first thing that is wrong with the options of the server.
pub open spec fn server_error(options: ServerOptions) -> Option<OptionError> {
    if options.flow_idle_reset_secs == 0 {
        Some(OptionError::FlowIdleReset)
    } else if options.max_reorder_delay_ms == 0 {
        Some(OptionError::ReorderDelay)
    } else if options.repair && options.repair_request_interval_ms == 0 {
        Some(OptionError::RepairInterval)
    } else if options.repair && options.repair_request_interval_ms
        >= options.max_reorder_delay_ms {
        Some(OptionError::RepairIntervalTooLong)
    } else {
        None
    }
}

/// Looks at the options of the server.
pub fn validate_server(options: &ServerOptions) -> (result: Result<(), OptionError>)
    ensures
        result == verdict(server_error(*options)),
{
    if options.flow_idle_reset_secs == 0 {
        return Err(OptionError::FlowIdleReset);
    }
    if options.max_reorder_delay_ms == 0 {
        return Err(OptionError::ReorderDelay);
    }
    if options.repair && options.repair_request_interval_ms == 0 {
        return Err(OptionError::RepairInterval);
    }
    if options.repair && options.repair_request_interval_ms >= options.max_reorder_delay_ms {
        return Err(OptionError::RepairIntervalTooLong);
    }
    Ok(())
}

/// Looks at the options of the bench; `throughput_is_valid` tells whether its throughput is a finite
/// number and positive.
pub fn validate_cli(packet_size: usize, throughput_is_valid: bool) -> (result: Result<
    (),
    OptionError,
>)
    ensures
        result == (if packet_size == 0 {
            Err::<(), OptionError>(OptionError::PacketSize)
        } else if !throughput_is_valid {
            Err(OptionError::Throughput)
        } else {
            Ok(())
        }),
{
    if packet_size == 0 {
        return Err(OptionError::PacketSize);
    }
    if !throughput_is_valid {
        return Err(OptionError::Throughput);
    }
    Ok(())
}

} // verus!
