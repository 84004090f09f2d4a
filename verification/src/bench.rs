//! The packets that the bench sends.

use crate::protocol::MAX_MEDIA_SEQUENCE;
use crate::sequence;
use crate::sequence::next_sequence;
use vstd::prelude::*;

verus! {

/// The byte that the payloads are made of.
pub const BENCH_BYTE: u8 = 0x42;

/// How many packets are sent between two reports.
pub const REPORT_PACKETS: u64 = 1_000;

/// What the bench has sent.
#[derive(Debug, Clone, Copy, PartialEq, Eq, Structural)]
pub struct BenchCounter {
    pub seq: u64,
    pub sent_packets: u64,
    pub sent_payload_bytes: u64,
}

impl BenchCounter {
    pub open spec fn well_formed(self) -> bool {
        self.seq <= MAX_MEDIA_SEQUENCE
    }

    pub fn new() -> (counter: BenchCounter)
        ensures
            counter.well_formed(),
            counter == (BenchCounter { seq: 0, sent_packets: 0, sent_payload_bytes: 0 }),
    {
        BenchCounter { seq: 0, sent_packets: 0, sent_payload_bytes: 0 }
    }

    /// Counts a packet; whether it is time for a report.
    pub fn count(&mut self, payload_bytes: u64) -> (report: bool)
        requires
            old(self).well_formed(),
            old(self).sent_packets < u64::MAX,
            old(self).sent_payload_bytes + payload_bytes <= u64::MAX,
        ensures
            final(self).well_formed(),
            *final(self) == (BenchCounter {
                seq: sequence::following(old(self).seq),
                sent_packets: (old(self).sent_packets + 1) as u64,
                sent_payload_bytes: (old(self).sent_payload_bytes + payload_bytes) as u64,
            }),
            report == ((old(self).sent_packets + 1) % (REPORT_PACKETS as int) == 0),
    {
        self.seq = next_sequence(self.seq);
        self.sent_packets = self.sent_packets + 1;
        self.sent_payload_bytes = self.sent_payload_bytes + payload_bytes;
        self.sent_packets % REPORT_PACKETS == 0
    }
}

/// The payload of the bench's packets.
pub fn bench_payload(packet_size: usize) -> (payload: Vec<u8>)
    ensures
        payload@ == Seq::new(packet_size as nat, |i: int| BENCH_BYTE),
{
    let mut payload: Vec<u8> = Vec::new();
    for i in 0..packet_size
        invariant
            payload@ == Seq::new(i as nat, |j: int| BENCH_BYTE),
    {
        payload.push(BENCH_BYTE);
        assert(payload@ =~= Seq::new((i + 1) as nat, |j: int| BENCH_BYTE));
    }
    payload
}

} // verus!
