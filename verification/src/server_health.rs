//! What the server tells its clients of what arrives from them.

use crate::health_report::{ChatMessage, EndpointHealth, HealthReport};
use crate::name_map::NameMap;
use crate::server_ui;
use crate::text;
use vstd::prelude::*;

verus! {

/// How long the server waits before it looks again whether a client takes reports, in milliseconds.
pub const HEALTH_POLL_MS: u64 = 500;

/// How long the server waits before it tries again to reach a client, in milliseconds.
pub const HEALTH_RETRY_MS: u64 = 1_000;

/// What arrived from a client since the last report.
#[derive(Debug, Clone, Copy, PartialEq, Eq, Structural)]
pub struct EndpointSample {
    pub bytes: u64,
    pub last_seq: Option<u64>,
}

impl Default for EndpointSample {
    /// Nothing arrived.
    fn default() -> (sample: EndpointSample)
        ensures
            sample == (EndpointSample { bytes: 0, last_seq: None }),
    {
        EndpointSample { bytes: 0, last_seq: None }
    }
}

/// What is known of a client.
pub open spec fn sample_of(stats: Map<Seq<char>, EndpointSample>, remote: Seq<char>) -> EndpointSample {
    if stats.contains_key(remote) {
        stats[remote]
    } else {
        EndpointSample { bytes: 0, last_seq: None }
    }
}

/// A sample with one more packet. The bytes are counted up to the greatest count.
pub open spec fn with_packet(sample: EndpointSample, bytes: u64, sequence: u64) -> EndpointSample {
    EndpointSample {
        bytes: if sample.bytes + bytes > u64::MAX {
            u64::MAX
        } else {
            (sample.bytes + bytes) as u64
        },
        last_seq: Some(server_ui::greater_sequence(sample.last_seq, sequence)),
    }
}

/// Counts a packet of a client.
pub fn record_health_sample(
    stats: &mut NameMap<EndpointSample>,
    remote: &str,
    bytes: u64,
    sequence: u64,
)
    requires
        old(stats).well_formed(),
    ensures
        final(stats).well_formed(),
        final(stats)@ == old(stats)@.insert(
            remote@,
            with_packet(sample_of(old(stats)@, remote@), bytes, sequence),
        ),
{
    let sample = match stats.get(remote) {
        Some(sample) => *sample,
        None => EndpointSample { bytes: 0, last_seq: None },
    };
    let last_seq: u64 = match sample.last_seq {
        Some(current) => if current >= sequence {
            current
        } else {
            sequence
        },
        None => sequence,
    };
    stats.insert(
        remote.to_owned(),
        EndpointSample { bytes: sample.bytes.saturating_add(bytes), last_seq: Some(last_seq) },
    );
}

/// What arrived from a client, with the client's name.
#[derive(Debug)]
pub struct DrainedSample {
    pub endpoint_id: String,
    pub sample: EndpointSample,
}

/// The samples by name.
pub open spec fn drained(stats: NameMap<EndpointSample>) -> Seq<(Seq<char>, EndpointSample)> {
    Seq::new(stats.names().len(), |i: int| (stats.names()[i], stats.values()[i]))
}

/// Takes every sample out, in the order of the clients' names.
pub fn drain_samples(stats: &mut NameMap<EndpointSample>) -> (samples: Vec<DrainedSample>)
    requires
        old(stats).well_formed(),
    ensures
        final(stats).well_formed(),
        final(stats)@ == Map::<Seq<char>, EndpointSample>::empty(),
        samples@.map_values(|sample: DrainedSample| (sample.endpoint_id@, sample.sample))
            == drained(*old(stats)),
{
    proof {
        stats.lemma_names();
    }
    let count: usize = stats.len();
    let mut samples: Vec<DrainedSample> = Vec::new();
    for i in 0..count
        invariant
            *stats == *old(stats),
            stats.well_formed(),
            count == stats.names().len(),
            stats.values().len() == count,
            samples@.len() == i,
            forall|j: int|
                0 <= j < i ==> (#[trigger] samples@[j]).endpoint_id@ == stats.names()[j]
                    && samples@[j].sample == stats.values()[j],
    {
        samples.push(
            DrainedSample { endpoint_id: stats.name_at(i).clone(), sample: *stats.value_at(i) },
        );
    }
    assert(samples@.map_values(|sample: DrainedSample| (sample.endpoint_id@, sample.sample))
        =~= drained(*old(stats)));
    *stats = NameMap::new();
    samples
}

/// A report of what arrived; `mbps` tells the rate of each client, as it is written. The highest
/// sequence number that arrived is also the last.
pub fn build_health_report(
    seq: u64,
    unix_ms: u64,
    samples: Vec<DrainedSample>,
    mbps: &[String],
    chat: Vec<ChatMessage>,
) -> (report: HealthReport)
    requires
        mbps@.len() == samples@.len(),
    ensures
        report.seq == seq,
        report.unix_ms == unix_ms,
        report.chat == chat,
        report.endpoints@.len() == samples@.len(),
        forall|i: int|
            0 <= i < samples@.len() ==> (#[trigger] report.endpoints@[i]).endpoint_id@
                == samples@[i].endpoint_id@ && report.endpoints@[i].achieved_mbps@ == mbps@[i]@
                && report.endpoints@[i].last_seq == samples@[i].sample.last_seq
                && report.endpoints@[i].max_seq == samples@[i].sample.last_seq,
{
    let mut endpoints: Vec<EndpointHealth> = Vec::new();
    for i in 0..samples.len()
        invariant
            mbps@.len() == samples@.len(),
            endpoints@.len() == i,
            forall|j: int|
                0 <= j < i ==> (#[trigger] endpoints@[j]).endpoint_id@ == samples@[j].endpoint_id@
                    && endpoints@[j].achieved_mbps@ == mbps@[j]@ && endpoints@[j].last_seq
                    == samples@[j].sample.last_seq && endpoints@[j].max_seq
                    == samples@[j].sample.last_seq,
    {
        endpoints.push(
            EndpointHealth {
                endpoint_id: samples[i].endpoint_id.clone(),
                achieved_mbps: mbps[i].clone(),
                last_seq: samples[i].sample.last_seq,
                max_seq: samples[i].sample.last_seq,
            },
        );
    }
    HealthReport { seq, unix_ms, endpoints, chat }
}

/// The reports that the server sends: their number, and the clients that take them, each by a
/// connection.
pub struct HealthReports {
    pub seq: u64,
    pub connections: NameMap<u64>,
    pub targets: NameMap<()>,
}

/// What the server does to reach a client that is to have reports.
#[derive(Debug, Clone, Copy, PartialEq, Eq, Structural)]
pub enum HealthStep {
    /// Nothing more: the client is to have none.
    Stop,
    /// Wait, so many milliseconds.
    Wait { millis: u64 },
    /// Connect.
    Connect,
}

/// What came of trying to reach a client.
#[derive(Debug, Clone, Copy, PartialEq, Eq, Structural)]
pub enum HealthAttempt {
    /// It is not known where the client is.
    Unknown,
    /// The client could not be reached.
    Failed,
    /// The client was reached by a connection.
    Connected { id: u64 },
}

impl HealthReports {
    pub open spec fn well_formed(self) -> bool {
        self.connections.well_formed() && self.targets.well_formed()
    }

    pub fn new() -> (reports: HealthReports)
        ensures
            reports.well_formed(),
            reports.seq == 0,
            reports.connections@ == Map::<Seq<char>, u64>::empty(),
            reports.targets@ == Map::<Seq<char>, ()>::empty(),
    {
        HealthReports { seq: 0, connections: NameMap::new(), targets: NameMap::new() }
    }

    /// A client has connected: it takes reports by that connection. Whether it is the first time.
    pub fn add_client(&mut self, remote: &str, id: u64) -> (first: bool)
        requires
            old(self).well_formed(),
        ensures
            final(self).well_formed(),
            final(self).seq == old(self).seq,
            final(self).connections@ == old(self).connections@.insert(remote@, id),
            final(self).targets@ == old(self).targets@.insert(remote@, ()),
            first == !old(self).targets@.contains_key(remote@),
    {
        self.connections.insert(remote.to_owned(), id);
        let first = !self.targets.contains_key(remote);
        self.targets.insert(remote.to_owned(), ());
        first
    }

    /// A connection was closed: a client that took reports by it takes none for now.
    pub fn drop_connection(&mut self, remote: &str, id: u64)
        requires
            old(self).well_formed(),
        ensures
            final(self).well_formed(),
            final(self).seq == old(self).seq,
            final(self).targets == old(self).targets,
            final(self).connections@ == (if old(self).connections@.contains_key(remote@) && old(
                self,
            ).connections@[remote@] == id {
                old(self).connections@.remove(remote@)
            } else {
                old(self).connections@
            }),
    {
        let current = match self.connections.get(remote) {
            Some(current) => *current == id,
            None => false,
        };
        if current {
            let _ = self.connections.remove(remote);
        }
    }

    /// The number of the next report, if a client takes reports; the numbers wrap around.
    pub fn next_report(&mut self) -> (seq: Option<u64>)
        requires
            old(self).well_formed(),
        ensures
            final(self).well_formed(),
            final(self).connections == old(self).connections,
            final(self).targets == old(self).targets,
            if old(self).connections@.dom().len() == 0 {
                seq is None && final(self).seq == old(self).seq
            } else {
                seq == Some(old(self).seq) && final(self).seq == server_ui::wrapped_sum(
                    old(self).seq,
                    1,
                )
            },
    {
        if self.connections.len() == 0 {
            return None;
        }
        let seq: u64 = self.seq;
        self.seq = seq.wrapping_add(1);
        Some(seq)
    }

    /// Clients that did not take a report take none for now.
    pub fn drop_failed(&mut self, failed: &[String])
        requires
            old(self).well_formed(),
        ensures
            final(self).well_formed(),
            final(self).seq == old(self).seq,
            final(self).targets == old(self).targets,
            final(self).connections@ == old(self).connections@.remove_keys(
                text::texts(failed@).to_set(),
            ),
    {
        let ghost names = text::texts(failed@);
        assert(names.take(0).to_set() =~= Set::<Seq<char>>::empty());
        assert(self.connections@ =~= old(self).connections@.remove_keys(Set::empty()));
        for i in 0..failed.len()
            invariant
                names == text::texts(failed@),
                self.well_formed(),
                self.seq == old(self).seq,
                self.targets == old(self).targets,
                self.connections@ == old(self).connections@.remove_keys(
                    names.take(i as int).to_set(),
                ),
        {
            let _ = self.connections.remove(failed[i].as_str());
            proof {
                let seen = names.take(i as int);
                assert(names.take(i + 1) =~= seen.push(names[i as int]));
                seen.lemma_push_to_set_commute(names[i as int]);
                assert(self.connections@ =~= old(self).connections@.remove_keys(
                    names.take(i + 1).to_set(),
                ));
            }
        }
        assert(names.take(names.len() as int) =~= names);
    }

    /// What is done next to reach a client.
    pub fn maintenance_step(&self, remote: &str) -> (step: HealthStep)
        requires
            self.well_formed(),
        ensures
            step == (if !self.targets@.contains_key(remote@) {
                HealthStep::Stop
            } else if self.connections@.contains_key(remote@) {
                HealthStep::Wait { millis: HEALTH_POLL_MS }
            } else {
                HealthStep::Connect
            }),
    {
        if !self.targets.contains_key(remote) {
            HealthStep::Stop
        } else if self.connections.contains_key(remote) {
            HealthStep::Wait { millis: HEALTH_POLL_MS }
        } else {
            HealthStep::Connect
        }
    }

    /// Takes note of an attempt to reach a client; how long to wait before the next step, in
    /// milliseconds.
    pub fn record_attempt(&mut self, remote: &str, attempt: HealthAttempt) -> (wait_ms: u64)
        requires
            old(self).well_formed(),
        ensures
            final(self).well_formed(),
            final(self).seq == old(self).seq,
            final(self).targets == old(self).targets,
            match attempt {
                HealthAttempt::Unknown => wait_ms == HEALTH_POLL_MS && final(self).connections@
                    == old(self).connections@,
                HealthAttempt::Failed => wait_ms == HEALTH_RETRY_MS && final(self).connections@
                    == old(self).connections@,
                HealthAttempt::Connected { id } => wait_ms == 0 && final(self).connections@ == old(
                    self,
                ).connections@.insert(remote@, id),
            },
    {
        match attempt {
            HealthAttempt::Unknown => HEALTH_POLL_MS,
            HealthAttempt::Failed => HEALTH_RETRY_MS,
            HealthAttempt::Connected { id } => {
                self.connections.insert(remote.to_owned(), id);
                0
            },
        }
    }
}

/// The messages of two chats, one after the other.
pub fn join_chats(first: Vec<ChatMessage>, second: Vec<ChatMessage>) -> (all: Vec<ChatMessage>)
    ensures
        all@ == first@ + second@,
{
    let mut all = first;
    let mut rest = second;
    all.append(&mut rest);
    all
}

} // verus!
