//! What the server remembers of a flow: signs of a sender that started over, and the sequence
//! numbers that were skipped lately.

use crate::protocol::MAX_FRAGMENTS;
use std::collections::{HashSet, VecDeque};
use vstd::prelude::*;

verus! {

/// How far behind a sequence number has to be to count as a restart.
pub const RESTART_BACKWARD_GAP: u64 = 4_096;

/// How many packets in a row confirm a restart.
pub const RESTART_CONFIRM_PACKETS: usize = MAX_FRAGMENTS + 1;

/// How many skipped sequence numbers are remembered.
pub const SKIPPED_SEQUENCE_TRACK_LIMIT: usize = 4_096;

/// Counts packets that are far behind, as long as their sequence numbers do not fall.
#[derive(Debug, Clone, Copy, PartialEq, Eq, Structural)]
pub struct RestartDetector {
    pub count: usize,
    pub highest_seq: u64,
}

/// No packet has been counted.
pub open spec fn no_restart() -> RestartDetector {
    RestartDetector { count: 0, highest_seq: 0 }
}

impl RestartDetector {
    /// The detector after a packet that is behind `next_seq`.
    pub open spec fn observed(self, sequence: u64, next_seq: u64) -> RestartDetector {
        if next_seq - sequence < RESTART_BACKWARD_GAP {
            no_restart()
        } else if self.count == 0 || sequence >= self.highest_seq {
            RestartDetector {
                count: if self.count == usize::MAX {
                    self.count
                } else {
                    (self.count + 1) as usize
                },
                highest_seq: if sequence >= self.highest_seq {
                    sequence
                } else {
                    self.highest_seq
                },
            }
        } else {
            RestartDetector { count: 1, highest_seq: sequence }
        }
    }

    /// Whether enough packets have been counted.
    pub open spec fn confirmed(self) -> bool {
        self.count >= RESTART_CONFIRM_PACKETS
    }

    pub fn new() -> (detector: RestartDetector)
        ensures
            detector == no_restart(),
    {
        RestartDetector { count: 0, highest_seq: 0 }
    }

    /// Takes note of a packet and says whether the restart is confirmed.
    pub fn observe(&mut self, sequence: u64, next_seq: u64) -> (confirmed: bool)
        ensures
            *final(self) == old(self).observed(sequence, next_seq),
            confirmed == final(self).confirmed(),
    {
        if next_seq.saturating_sub(sequence) < RESTART_BACKWARD_GAP {
            self.clear();
            return false;
        }
        if self.count == 0 || sequence >= self.highest_seq {
            if sequence >= self.highest_seq {
                self.highest_seq = sequence;
            }
            self.count = self.count.saturating_add(1);
        } else {
            self.count = 1;
            self.highest_seq = sequence;
        }
        self.count >= RESTART_CONFIRM_PACKETS
    }

    pub fn clear(&mut self)
        ensures
            *final(self) == no_restart(),
    {
        self.count = 0;
        self.highest_seq = 0;
    }
}

/// The detector after a run of packets, each with its sequence number and the one that was due, that
/// starts when nothing has been counted.
pub open spec fn observed_run(packets: Seq<(u64, u64)>) -> RestartDetector
    decreases packets.len(),
{
    if packets.len() == 0 {
        no_restart()
    } else {
        observed_run(packets.drop_last()).observed(packets.last().0, packets.last().1)
    }
}

/// Whether a packet is far behind.
pub open spec fn is_far_behind(packet: (u64, u64)) -> bool {
    packet.1 - packet.0 >= RESTART_BACKWARD_GAP
}

/// Whether the last `count` packets are all far behind, and their sequence numbers do not fall.
pub open spec fn ends_in_restart(packets: Seq<(u64, u64)>, count: int) -> bool {
    &&& count <= packets.len()
    &&& forall|i: int|
        packets.len() - count <= i < packets.len() ==> is_far_behind(#[trigger] packets[i])
    &&& forall|i: int, j: int|
        packets.len() - count <= i <= j < packets.len() ==> (#[trigger] packets[i]).0 <= (
        #[trigger] packets[j]).0
}

/// A restart is confirmed exactly when enough packets have been observed, and the last of them, as
/// many as it takes, were all far behind and in the order of their sequence numbers.
pub proof fn law_restart_is_confirmed(packets: Seq<(u64, u64)>)
    ensures
        observed_run(packets).confirmed() <==> ends_in_restart(
            packets,
            RESTART_CONFIRM_PACKETS as int,
        ),
{
    lemma_observed_run(packets, RESTART_CONFIRM_PACKETS as int);
}

/// The count of a run says how many of its last packets speak for a restart.
proof fn lemma_observed_run(packets: Seq<(u64, u64)>, count: int)
    requires
        0 < count <= usize::MAX,
    ensures
        observed_run(packets).count >= count <==> ends_in_restart(packets, count),
        observed_run(packets).count > 0 ==> observed_run(packets).highest_seq == packets.last().0,
        observed_run(packets).count == 0 ==> observed_run(packets) == no_restart(),
    decreases packets.len(),
{
    if packets.len() > 0 {
        let earlier = packets.drop_last();
        let before = observed_run(earlier);
        let last = packets.last();
        let n = packets.len() as int;
        lemma_observed_run(earlier, if count > 1 {
            count - 1
        } else {
            1
        });
        if is_far_behind(last) {
            if count == 1 {
                assert(ends_in_restart(packets, 1));
            } else {
                if ends_in_restart(packets, count) {
                    assert(ends_in_restart(earlier, count - 1)) by {
                        assert forall|i: int| earlier.len() - (count - 1) <= i
                            < earlier.len() implies is_far_behind(#[trigger] earlier[i]) by {
                            assert(packets[i] == earlier[i]);
                        }
                        assert forall|i: int, j: int|
                            earlier.len() - (count - 1) <= i <= j < earlier.len() implies (
                        #[trigger] earlier[i]).0 <= (#[trigger] earlier[j]).0 by {
                            assert(packets[i] == earlier[i] && packets[j] == earlier[j]);
                        }
                    }
                    assert(packets[n - 2].0 <= packets[n - 1].0);
                }
                if observed_run(packets).count >= count {
                    assert(before.count >= count - 1);
                    assert(ends_in_restart(earlier, count - 1));
                    assert(earlier.last().0 <= last.0);
                    assert forall|i: int| n - count <= i < n implies is_far_behind(
                        #[trigger] packets[i],
                    ) by {
                        if i < n - 1 {
                            assert(packets[i] == earlier[i]);
                        }
                    }
                    assert forall|i: int, j: int| n - count <= i <= j < n implies (
                    #[trigger] packets[i]).0 <= (#[trigger] packets[j]).0 by {
                        if j < n - 1 {
                            assert(packets[i] == earlier[i] && packets[j] == earlier[j]);
                        } else if i < n - 1 {
                            assert(packets[i] == earlier[i]);
                            assert(earlier[i].0 <= earlier[n - 2].0);
                        }
                    }
                }
            }
        } else {
            assert(!is_far_behind(packets[n - 1]));
        }
    }
}

/// The skipped sequence numbers, oldest first, after one more was skipped.
pub open spec fn with_skipped(order: Seq<u64>, sequence: u64) -> Seq<u64> {
    let longer = if order.contains(sequence) {
        order
    } else {
        order.push(sequence)
    };
    if longer.len() > SKIPPED_SEQUENCE_TRACK_LIMIT {
        longer.drop_first()
    } else {
        longer
    }
}

/// A sequence number that was just skipped is remembered.
pub proof fn law_skipped_is_remembered(order: Seq<u64>, sequence: u64)
    requires
        order.len() <= SKIPPED_SEQUENCE_TRACK_LIMIT,
    ensures
        with_skipped(order, sequence).contains(sequence),
        with_skipped(order, sequence).len() <= SKIPPED_SEQUENCE_TRACK_LIMIT,
{
    if !order.contains(sequence) {
        let longer = order.push(sequence);
        assert(longer[longer.len() - 1] == sequence);
        if longer.len() > SKIPPED_SEQUENCE_TRACK_LIMIT {
            assert(longer.drop_first()[longer.len() - 2] == sequence);
        }
    }
}

/// The sequence numbers that were skipped lately.
pub struct RecentSkippedSequences {
    order: VecDeque<u64>,
    lookup: HashSet<u64>,
}

impl View for RecentSkippedSequences {
    type V = Seq<u64>;

    closed spec fn view(&self) -> Seq<u64> {
        self.order@
    }
}

impl RecentSkippedSequences {
    /// The numbers in order are those that can be looked up, each once, and no more than there is
    /// room for.
    pub closed spec fn well_formed(self) -> bool {
        &&& self.lookup@ == self.order@.to_set()
        &&& self.order@.no_duplicates()
        &&& self.order@.len() <= SKIPPED_SEQUENCE_TRACK_LIMIT
    }

    pub fn new() -> (skipped: RecentSkippedSequences)
        ensures
            skipped.well_formed(),
            skipped@ == Seq::<u64>::empty(),
    {
        let skipped = RecentSkippedSequences { order: VecDeque::new(), lookup: HashSet::new() };
        assert(skipped.lookup@ =~= skipped.order@.to_set());
        skipped
    }

    pub fn insert(&mut self, sequence: u64)
        requires
            old(self).well_formed(),
        ensures
            final(self).well_formed(),
            final(self)@ == with_skipped(old(self)@, sequence),
    {
        broadcast use vstd::std_specs::hash::group_hash_axioms;

        let ghost before = self.order@;
        if self.lookup.insert(sequence) {
            assert(!before.contains(sequence)) by {
                if before.contains(sequence) {
                    assert(before.to_set().contains(sequence));
                }
            }
            self.order.push_back(sequence);
            assert(self.order@ == before.push(sequence));
            assert(self.lookup@ =~= self.order@.to_set()) by {
                assert forall|s: u64| self.lookup@.contains(s) == self.order@.to_set().contains(
                    s,
                ) by {
                    if s == sequence {
                        assert(self.order@[before.len() as int] == s);
                    } else if before.contains(s) {
                        let i = choose|i: int| 0 <= i < before.len() && before[i] == s;
                        assert(self.order@[i] == s);
                    } else if self.order@.contains(s) {
                        let i = choose|i: int| 0 <= i < self.order@.len() && self.order@[i] == s;
                        assert(before[i] == s);
                    }
                }
            }
        } else {
            assert(before.contains(sequence));
            assert(self.lookup@ =~= self.order@.to_set());
        }
        if self.order.len() > SKIPPED_SEQUENCE_TRACK_LIMIT {
            let ghost longer = self.order@;
            if let Some(expired) = self.order.pop_front() {
                self.lookup.remove(&expired);
                assert(self.order@ =~= longer.drop_first());
                assert(self.lookup@ =~= self.order@.to_set()) by {
                    assert forall|s: u64| self.lookup@.contains(s) == self.order@.to_set().contains(
                        s,
                    ) by {
                        if self.order@.contains(s) {
                            let i = choose|i: int| 0 <= i < self.order@.len() && self.order@[i] == s;
                            assert(longer[i + 1] == s);
                            assert(longer[0] != longer[i + 1]);
                        } else if longer.contains(s) {
                            let i = choose|i: int| 0 <= i < longer.len() && longer[i] == s;
                            if i > 0 {
                                assert(self.order@[i - 1] == s);
                            }
                        }
                    }
                }
            }
        }
    }

    pub fn contains(&self, sequence: u64) -> (found: bool)
        requires
            self.well_formed(),
        ensures
            found == self@.contains(sequence),
    {
        broadcast use vstd::std_specs::hash::group_hash_axioms;

        assert(self.order@.to_set().contains(sequence) == self.order@.contains(sequence));
        self.lookup.contains(&sequence)
    }

    pub fn clear(&mut self)
        ensures
            final(self).well_formed(),
            final(self)@ == Seq::<u64>::empty(),
    {
        self.order.clear();
        self.lookup.clear();
        assert(self.lookup@ =~= self.order@.to_set());
    }
}

} // verus!
