//! How much has been added to counters since they were last looked at.

use crate::name_map::NameMap;
use crate::time;
use crate::time::time_since;
use vstd::prelude::*;

verus! {

/// How much a count exceeds another.
pub open spec fn excess(count: u64, before: u64) -> u64 {
    if count >= before {
        (count - before) as u64
    } else {
        0
    }
}

/// A counter as it was last looked at. Times are in nanoseconds.
#[derive(Debug, Clone, Copy, PartialEq, Eq)]
pub struct CountSample {
    pub at: Option<u64>,
    pub count: u64,
}

impl Default for CountSample {
    /// A counter that has not been looked at.
    fn default() -> (sample: CountSample)
        ensures
            sample == (CountSample { at: None, count: 0 }),
    {
        CountSample { at: None, count: 0 }
    }
}

impl CountSample {
    /// Looks at a counter: how much has been added since it was last looked at, and how long ago
    /// that was, if it ever was.
    pub fn advance(&mut self, now: u64, count: u64) -> (step: (u64, Option<u64>))
        ensures
            *final(self) == (CountSample { at: Some(now), count }),
            step.0 == excess(count, old(self).count),
            step.1 == (match old(self).at {
                Some(last) => Some(time::elapsed(now, last)),
                None => None,
            }),
    {
        let added: u64 = count.saturating_sub(self.count);
        let ago = match self.at {
            Some(last) => Some(time_since(now, last)),
            None => None,
        };
        self.at = Some(now);
        self.count = count;
        (added, ago)
    }
}

/// Counters by name as they were last looked at: what was added to each in how long.
pub struct NamedRates {
    pub at: Option<u64>,
    pub counts: NameMap<u64>,
    pub added: NameMap<u64>,
    pub nanos: u64,
}

/// What was added to each counter; a counter that was not there before started at zero.
pub open spec fn additions(counts: Map<Seq<char>, u64>, before: Map<Seq<char>, u64>) -> Map<
    Seq<char>,
    u64,
> {
    counts.map_entries(
        |name: Seq<char>, count: u64|
            excess(
                count,
                if before.contains_key(name) {
                    before[name]
                } else {
                    0
                },
            ),
    )
}

impl NamedRates {
    pub open spec fn well_formed(self) -> bool {
        self.counts.well_formed() && self.added.well_formed()
    }

    /// Whether it is time to look at the counters again.
    pub open spec fn is_due(self, now: u64, interval: u64) -> bool {
        self.at matches Some(last) ==> time::elapsed(now, last) >= interval
    }

    /// Counters that have not been looked at.
    pub fn new() -> (rates: NamedRates)
        ensures
            rates.well_formed(),
            rates.at is None,
            rates.counts@ == Map::<Seq<char>, u64>::empty(),
            rates.added@ == Map::<Seq<char>, u64>::empty(),
            rates.nanos == 0,
    {
        NamedRates { at: None, counts: NameMap::new(), added: NameMap::new(), nanos: 0 }
    }

    /// Looks at the counters if it is time: what was added to each since they were last looked at.
    /// The first time, an interval is taken to have passed.
    pub fn advance(&mut self, now: u64, counts: NameMap<u64>, interval: u64)
        requires
            old(self).well_formed(),
            counts.well_formed(),
        ensures
            final(self).well_formed(),
            if old(self).is_due(now, interval) {
                &&& final(self).at == Some(now)
                &&& final(self).counts == counts
                &&& final(self).added@ == additions(counts@, old(self).counts@)
                &&& final(self).nanos == (match old(self).at {
                    Some(last) => time::elapsed(now, last),
                    None => interval,
                })
            } else {
                *final(self) == *old(self)
            },
    {
        let nanos: u64 = match self.at {
            Some(last) => {
                let ago: u64 = time_since(now, last);
                if ago < interval {
                    return;
                }
                ago
            },
            None => interval,
        };
        let mut added: NameMap<u64> = NameMap::new();
        proof {
            counts.lemma_names();
        }
        let ghost all = additions(counts@, self.counts@);
        let total: usize = counts.len();
        assert(added@ =~= all.restrict(counts.names().take(0).to_set()));
        for i in 0..total
            invariant
                total == counts.names().len(),
                counts.well_formed(),
                counts.values().len() == counts.names().len(),
                counts.names().to_set() == counts@.dom(),
                self.well_formed(),
                *self == *old(self),
                added.well_formed(),
                all == additions(counts@, self.counts@),
                added@ == all.restrict(counts.names().take(i as int).to_set()),
        {
            proof {
                counts.lemma_entry(i as int);
            }
            let name = counts.name_at(i);
            let before: u64 = match self.counts.get(name.as_str()) {
                Some(count) => *count,
                None => 0,
            };
            let ghost earlier = added@;
            added.insert(name.clone(), counts.value_at(i).saturating_sub(before));
            proof {
                let seen = counts.names().take(i as int);
                let more = counts.names().take(i + 1);
                assert(more =~= seen.push(name@));
                assert(more.to_set() =~= seen.to_set().insert(name@)) by {
                    seen.lemma_push_to_set_commute(name@);
                }
                assert(all.contains_key(name@));
                assert(added@ =~= all.restrict(more.to_set()));
            }
        }
        assert(counts.names().take(total as int) =~= counts.names());
        assert(added@ =~= all);
        self.at = Some(now);
        self.counts = counts;
        self.added = added;
        self.nanos = nanos;
    }
}

} // verus!
