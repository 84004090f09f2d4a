//! What the server does with what its connections bring.

use crate::name_map::NameMap;
use crate::receive;
use crate::receive::{parse_frame, FrameModel, ReceivedFrame};
use crate::routes::ConnectionRegistry;
use crate::server_ctx::ServerCtx;
use crate::server_health;
use crate::server_health::{record_health_sample, EndpointSample, HealthReports};
use vstd::prelude::*;

verus! {

/// What became of a datagram: a frame for the flow, or a line to print.
#[derive(Debug)]
pub struct Accepted {
    pub frame: Option<ReceivedFrame>,
    pub printed: Option<String>,
}

/// Takes up a datagram of a client. A media packet is counted for the client; what is no frame is
/// counted as invalid.
pub fn accept_datagram(
    data: &[u8],
    remote: &str,
    connection_id: usize,
    stats: &mut NameMap<EndpointSample>,
    ctx: &mut ServerCtx,
) -> (accepted: Accepted)
    requires
        old(stats).well_formed(),
        old(ctx).ui matches Some(ui) ==> ui.well_formed(),
    ensures
        final(stats).well_formed(),
        final(ctx).ui matches Some(ui) ==> ui.well_formed(),
        match receive::frame_of(data@, remote@, connection_id) {
            Ok(model) => {
                &&& accepted.frame matches Some(frame) && frame@ == model
                &&& accepted.printed is None
                &&& match model {
                    FrameModel::Packet(packet) => {
                        &&& final(ctx).receives(
                            *old(ctx),
                            remote@,
                            data@.len() as u64,
                            packet.header.sequence,
                        )
                        &&& final(stats)@ == old(stats)@.insert(
                            remote@,
                            server_health::with_packet(
                                server_health::sample_of(old(stats)@, remote@),
                                packet.payload.len() as u64,
                                packet.header.sequence,
                            ),
                        )
                    },
                    FrameModel::Fec(_) => *final(ctx) == *old(ctx) && *final(stats) == *old(stats),
                }
            },
            Err(_) => {
                &&& accepted.frame is None
                &&& final(ctx).rejects(*old(ctx), accepted.printed)
                &&& *final(stats) == *old(stats)
            },
        },
{
    match parse_frame(data, remote.to_owned(), connection_id) {
        Ok(frame) => {
            if let ReceivedFrame::Packet(packet) = &frame {
                ctx.record_connection_receive(remote, data.len() as u64, packet.header.sequence);
                record_health_sample(
                    stats,
                    remote,
                    packet.payload.len() as u64,
                    packet.header.sequence,
                );
            }
            Accepted { frame: Some(frame), printed: None }
        },
        Err(_) => {
            let printed = ctx.record_invalid();
            Accepted { frame: None, printed }
        },
    }
}

/// What is printed when a connection ends.
#[derive(Debug)]
pub struct EndedLines {
    pub reset: Option<String>,
    pub closed: Option<String>,
}

/// Takes note of a connection that ended. The client is shown as closed once it has no other.
pub fn end_connection(
    remote: &str,
    id: u64,
    error: &str,
    registry: &mut ConnectionRegistry,
    reports: &mut HealthReports,
    ctx: &mut ServerCtx,
) -> (lines: EndedLines)
    requires
        old(registry).well_formed(),
        old(reports).well_formed(),
        old(ctx).ui matches Some(ui) ==> ui.well_formed(),
    ensures
        final(registry).sets(*old(registry), remote@, old(registry).ids(remote@).remove(id)),
        final(reports).well_formed(),
        final(reports).seq == old(reports).seq,
        final(reports).targets == old(reports).targets,
        final(reports).connections@ == (if old(reports).connections@.contains_key(remote@) && old(
            reports,
        ).connections@[remote@] == id {
            old(reports).connections@.remove(remote@)
        } else {
            old(reports).connections@
        }),
        final(ctx).ui matches Some(ui) ==> ui.well_formed(),
        exists|between: ServerCtx| #[trigger]
            between.resets(*old(ctx), remote@, error@, lines.reset) && if old(registry).ids(
                remote@,
            ).remove(id) == Set::<u64>::empty() {
                final(ctx).disconnects(between, remote@, error@, lines.closed)
            } else {
                *final(ctx) == between && lines.closed is None
            },
{
    let ghost start = *ctx;
    let reset = ctx.record_connection_reset(remote, error);
    let ghost between = *ctx;
    assert(between.resets(start, remote@, error@, reset));
    let remaining = registry.remove_connection_if_current(remote, id);
    reports.drop_connection(remote, id);
    if remaining {
        return EndedLines { reset, closed: None };
    }
    let closed = ctx.record_disconnect(remote.to_owned(), error.to_owned());
    EndedLines { reset, closed }
}

} // verus!
