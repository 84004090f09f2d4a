//! What holds of the choice of paths.

use crate::health_report::{EndpointModel, ReportModel};
use crate::strategy;
use crate::strategy::{
    FreshModel, HealthModel, InterfaceHealth, InterfaceTraffic, PathStrategy, StrategyInterface,
    StrategyMode, StrategyState,
};
use vstd::prelude::*;

verus! {

/// With at least two paths that did not fail, a path takes a share of each packet exactly if it is
/// among those of which something recent is known, keeps up with the best and receives enough;
/// every other path that did not fail, and every path that did, gets whole packets. With fewer
/// paths that did not fail, those take shares, and every path gets whole packets.
pub proof fn law_healthy_paths_take_shares(
    failed: Seq<Seq<char>>,
    candidates: Seq<Seq<char>>,
    fresh: Seq<FreshModel>,
    receives: Seq<bool>,
    name: Seq<char>,
)
    requires
        receives.len() == fresh.len(),
    ensures
        ({
            let (split, whole) = strategy::groups_of(failed, candidates, fresh, receives);
            if candidates.len() >= 2 {
                &&& split.contains(name) <==> exists|i: int|
                    0 <= i < fresh.len() && (#[trigger] fresh[i]).name == name && fresh[i].keeps_up
                        && receives[i]
                &&& whole.contains(name) <==> failed.contains(name) || candidates.contains(name)
                    && !split.contains(name)
            } else {
                &&& split.contains(name) <==> candidates.contains(name)
                &&& whole.contains(name) <==> failed.contains(name) || candidates.contains(name)
            }
        }),
{
    let healthy = strategy::healthy_names(fresh, receives);
    let rest = strategy::names_without(candidates, healthy);
    lemma_healthy(fresh, receives, name);
    lemma_without(candidates, healthy, name);
    lemma_joined(failed, rest, name);
    lemma_joined(failed, candidates, name);
}

proof fn lemma_joined(first: Seq<Seq<char>>, second: Seq<Seq<char>>, name: Seq<char>)
    ensures
        (first + second).contains(name) <==> first.contains(name) || second.contains(name),
{
    let all = first + second;
    if all.contains(name) {
        let i = choose|i: int| 0 <= i < all.len() && all[i] == name;
        if i < first.len() {
            assert(first[i] == name);
        } else {
            assert(second[i - first.len()] == name);
        }
    }
    if first.contains(name) {
        let i = choose|i: int| 0 <= i < first.len() && first[i] == name;
        assert(all[i] == name);
    }
    if second.contains(name) {
        let i = choose|i: int| 0 <= i < second.len() && second[i] == name;
        assert(all[first.len() + i] == name);
    }
}

proof fn lemma_pushed(list: Seq<Seq<char>>, last: Seq<char>, name: Seq<char>)
    ensures
        list.push(last).contains(name) <==> list.contains(name) || last == name,
{
    assert(list.push(last) =~= list + seq![last]);
    lemma_joined(list, seq![last], name);
    assert(seq![last].contains(name) <==> last == name) by {
        assert(seq![last][0] == last);
    }
}

proof fn lemma_healthy(fresh: Seq<FreshModel>, receives: Seq<bool>, name: Seq<char>)
    requires
        receives.len() >= fresh.len(),
    ensures
        strategy::healthy_names(fresh, receives).contains(name) <==> exists|i: int|
            0 <= i < fresh.len() && (#[trigger] fresh[i]).name == name && fresh[i].keeps_up
                && receives[i],
    decreases fresh.len(),
{
    if fresh.len() > 0 {
        let rest = fresh.drop_last();
        lemma_healthy(rest, receives, name);
        lemma_pushed(strategy::healthy_names(rest, receives), fresh.last().name, name);
        let last = fresh.len() - 1;
        if exists|i: int|
            0 <= i < fresh.len() && (#[trigger] fresh[i]).name == name && fresh[i].keeps_up
                && receives[i] {
            let i = choose|i: int|
                0 <= i < fresh.len() && (#[trigger] fresh[i]).name == name && fresh[i].keeps_up
                    && receives[i];
            if i < last {
                assert(rest[i] == fresh[i]);
            }
        }
        if strategy::healthy_names(rest, receives).contains(name) {
            let i = choose|i: int|
                0 <= i < rest.len() && (#[trigger] rest[i]).name == name && rest[i].keeps_up
                    && receives[i];
            assert(fresh[i] == rest[i]);
        }
        assert(fresh[last] == fresh.last());
    }
}

proof fn lemma_without(list: Seq<Seq<char>>, others: Seq<Seq<char>>, name: Seq<char>)
    ensures
        strategy::names_without(list, others).contains(name) <==> list.contains(name)
            && !others.contains(name),
    decreases list.len(),
{
    if list.len() > 0 {
        let rest = list.drop_last();
        lemma_without(rest, others, name);
        lemma_pushed(rest, list.last(), name);
        assert(rest.push(list.last()) =~= list);
        lemma_pushed(strategy::names_without(rest, others), list.last(), name);
    }
}

/// The interfaces that failed and those that did not are told apart by what is noted of them.
pub proof fn law_failed_interfaces_are_set_apart<V>(
    list: Seq<Seq<char>>,
    failures: Map<Seq<char>, V>,
    name: Seq<char>,
)
    ensures
        strategy::names_in(list, failures).contains(name) <==> list.contains(name)
            && failures.contains_key(name),
        strategy::names_outside(list, failures).contains(name) <==> list.contains(name)
            && !failures.contains_key(name),
        strategy::names_in(list, failures).len() + strategy::names_outside(list, failures).len()
            == list.len(),
    decreases list.len(),
{
    if list.len() > 0 {
        let rest = list.drop_last();
        law_failed_interfaces_are_set_apart(rest, failures, name);
        lemma_pushed(rest, list.last(), name);
        assert(rest.push(list.last()) =~= list);
        lemma_pushed(strategy::names_in(rest, failures), list.last(), name);
        lemma_pushed(strategy::names_outside(rest, failures), list.last(), name);
    }
}

/// Whether something is known of an interface that is at most two and a half seconds old.
pub open spec fn is_known(state: StrategyState, name: Seq<char>, now_ms: u64) -> bool {
    &&& state.health_by_interface@.contains_key(name)
    &&& now_ms - state.health_by_interface@[name]@.last_unix_ms <= 2500
}

/// The last sequence number that the server is known to have received over an interface.
pub open spec fn known_last(state: StrategyState, name: Seq<char>) -> Option<u64> {
    state.health_by_interface@[name]@.last_seq
}

/// The best sequence number is the greatest of those that are known of interfaces of which something
/// recent is known, and there is none if there are none.
pub proof fn law_best_sequence_is_the_greatest(
    state: StrategyState,
    names: Seq<Seq<char>>,
    now_ms: u64,
)
    ensures
        match state.best_last_seq(names, now_ms) {
            Some(best) => {
                &&& exists|i: int|
                    0 <= i < names.len() && is_known(state, #[trigger] names[i], now_ms)
                        && known_last(state, names[i]) == Some(best)
                &&& forall|i: int|
                    0 <= i < names.len() && is_known(state, #[trigger] names[i], now_ms) ==> (
                    known_last(state, names[i]) matches Some(last) ==> last <= best)
            },
            None => forall|i: int|
                0 <= i < names.len() && is_known(state, #[trigger] names[i], now_ms) ==> known_last(
                    state,
                    names[i],
                ) is None,
        },
    decreases names.len(),
{
    if names.len() > 0 {
        let rest = names.drop_last();
        let last = names.len() - 1;
        law_best_sequence_is_the_greatest(state, rest, now_ms);
        assert(names[last] == names.last());
        assert forall|i: int| 0 <= i < rest.len() implies rest[i] == #[trigger] names[i] by {}
        if let Some(best) = state.best_last_seq(names, now_ms) {
            if state.best_last_seq(rest, now_ms) == Some(best) {
                let i = choose|i: int|
                    0 <= i < rest.len() && is_known(state, #[trigger] rest[i], now_ms)
                        && known_last(state, rest[i]) == Some(best);
                assert(names[i] == rest[i]);
            } else {
                assert(is_known(state, names[last], now_ms));
            }
        }
    }
}

/// A path is among those of which something recent is known exactly if something at most two and a
/// half seconds old is known of it, and it keeps up exactly if it is known at which sequence number
/// it is, and that is at most eight hundred packets behind the best.
pub proof fn law_fresh_paths_are_recent(
    state: StrategyState,
    names: Seq<Seq<char>>,
    best: Option<u64>,
    now_ms: u64,
    name: Seq<char>,
)
    ensures
        ({
            let fresh = state.fresh_paths(names, best, now_ms);
            &&& (exists|i: int| 0 <= i < fresh.len() && (#[trigger] fresh[i]).name == name)
                <==> names.contains(name) && is_known(state, name, now_ms)
            &&& forall|i: int|
                0 <= i < fresh.len() && (#[trigger] fresh[i]).name == name ==> {
                    &&& fresh[i].keeps_up <==> (known_last(state, name) is Some && best is Some
                        && best->0 - known_last(state, name)->0 <= 800)
                    &&& fresh[i].server_mbps == state.health_by_interface@[name]@.server_mbps
                }
        }),
    decreases names.len(),
{
    if names.len() > 0 {
        let rest = names.drop_last();
        law_fresh_paths_are_recent(state, rest, best, now_ms, name);
        lemma_pushed(rest, names.last(), name);
        assert(rest.push(names.last()) =~= names);
        let before = state.fresh_paths(rest, best, now_ms);
        let fresh = state.fresh_paths(names, best, now_ms);
        if exists|i: int| 0 <= i < before.len() && (#[trigger] before[i]).name == name {
            let i = choose|i: int| 0 <= i < before.len() && (#[trigger] before[i]).name == name;
            assert(fresh[i] == before[i]);
        }
        if names.last() == name && is_known(state, name, now_ms) {
            assert(fresh[before.len() as int].name == name);
        }
        assert forall|i: int| 0 <= i < fresh.len() && (#[trigger] fresh[i]).name == name implies {
            &&& fresh[i].keeps_up <==> (known_last(state, name) is Some && best is Some && best->0
                - known_last(state, name)->0 <= 800)
            &&& fresh[i].server_mbps == state.health_by_interface@[name]@.server_mbps
        } && names.contains(name) && is_known(state, name, now_ms) by {
            if i < before.len() {
                assert(fresh[i] == before[i]);
            }
        }
    }
}

/// What a report says of an interface is what its last row for the endpoint of that interface says,
/// and a report that has no row for it says nothing.
pub proof fn law_last_row_counts(endpoints: Seq<EndpointModel>, id: Seq<char>)
    ensures
        match strategy::last_endpoint(endpoints, id) {
            Some(index) => {
                &&& 0 <= index < endpoints.len()
                &&& endpoints[index].endpoint_id == id
                &&& forall|i: int|
                    index < i < endpoints.len() ==> (#[trigger] endpoints[i]).endpoint_id != id
            },
            None => forall|i: int|
                0 <= i < endpoints.len() ==> (#[trigger] endpoints[i]).endpoint_id != id,
        },
    decreases endpoints.len(),
{
    if endpoints.len() > 0 && endpoints.last().endpoint_id != id {
        let rest = endpoints.drop_last();
        law_last_row_counts(rest, id);
        assert forall|i: int| 0 <= i < rest.len() implies rest[i] == #[trigger] endpoints[i] by {}
    }
}

/// What is kept of a row of a report: its last and greatest sequence numbers, its throughput, and
/// the time of the report.
pub proof fn law_row_is_kept_as_it_is(endpoint: EndpointModel, unix_ms: u64)
    ensures
        strategy::health_of(endpoint, unix_ms) == (HealthModel {
            last_seq: endpoint.last_seq,
            max_seq: endpoint.max_seq,
            server_mbps: endpoint.achieved_mbps,
            last_unix_ms: unix_ms,
        }),
{
}

/// A mode other than the automatic one is followed whatever was chosen before; the automatic mode
/// splits packets exactly if that was chosen, and is redundant otherwise, never in turn.
pub proof fn law_modes_are_followed(state: StrategyState)
    ensures
        state.mode == StrategyMode::Redundant ==> state.effective() == PathStrategy::Redundant,
        state.mode == StrategyMode::Split ==> state.effective() == PathStrategy::Split,
        state.mode == StrategyMode::RoundRobin ==> state.effective() == PathStrategy::RoundRobin,
        state.mode == StrategyMode::Auto ==> {
            &&& state.effective() == PathStrategy::Split <==> state.strategy == PathStrategy::Split
            &&& state.effective() == PathStrategy::Redundant <==> state.strategy
                != PathStrategy::Split
        },
{
}

/// The sum of some numbers of bytes.
pub open spec fn sum_of(bytes: Seq<u64>) -> nat
    decreases bytes.len(),
{
    if bytes.len() == 0 {
        0
    } else {
        sum_of(bytes.drop_last()) + bytes.last() as nat
    }
}

/// What is known of an interface after packets of so many bytes were sent over it.
pub open spec fn after_sends(traffic: InterfaceTraffic, bytes: Seq<u64>) -> InterfaceTraffic
    decreases bytes.len(),
{
    if bytes.len() == 0 {
        traffic
    } else {
        after_sends(traffic, bytes.drop_last()).with_sent(bytes.last())
    }
}

/// However many packets are sent between two samples, the second tells their bytes and the time
/// between the two, and all packets and bytes are counted. The counts do not reach their limit.
pub proof fn law_samples_measure_what_was_sent(
    traffic: InterfaceTraffic,
    before: u64,
    bytes: Seq<u64>,
    now: u64,
)
    requires
        traffic.last_sample < before < now,
        traffic.tx_packets + bytes.len() <= u64::MAX,
        traffic.tx_bytes + sum_of(bytes) <= u64::MAX,
    ensures
        ({
            let after = after_sends(traffic.sampled(before), bytes).sampled(now);
            &&& after.rate_bytes == sum_of(bytes)
            &&& after.rate_nanos == now - before
            &&& after.tx_packets == traffic.tx_packets + bytes.len()
            &&& after.tx_bytes == traffic.tx_bytes + sum_of(bytes)
        }),
{
    lemma_after_sends(traffic.sampled(before), bytes);
}

proof fn lemma_after_sends(traffic: InterfaceTraffic, bytes: Seq<u64>)
    requires
        traffic.tx_packets + bytes.len() <= u64::MAX,
        traffic.tx_bytes + sum_of(bytes) <= u64::MAX,
    ensures
        after_sends(traffic, bytes) == (InterfaceTraffic {
            tx_packets: (traffic.tx_packets + bytes.len()) as u64,
            tx_bytes: (traffic.tx_bytes + sum_of(bytes)) as u64,
            ..traffic
        }),
    decreases bytes.len(),
{
    if bytes.len() > 0 {
        lemma_after_sends(traffic, bytes.drop_last());
    }
}

/// Every interface has the value that each has at the start, and only interfaces have one. The
/// endpoint of an interface is that of the last entry with its name.
pub proof fn law_interfaces_start_alike<V>(
    interfaces: Seq<StrategyInterface>,
    value: V,
    name: Seq<char>,
    place: int,
)
    requires
        -1 <= place < interfaces.len(),
        place >= 0 ==> interfaces[place].display_name@ == name,
        forall|i: int|
            place < i < interfaces.len() ==> (#[trigger] interfaces[i]).display_name@ != name,
    ensures
        strategy::each_interface(interfaces, value).contains_key(name) <==> place >= 0,
        place >= 0 ==> strategy::each_interface(interfaces, value)[name] == value,
        strategy::endpoint_ids_of(interfaces).contains_key(name) <==> place >= 0,
        place >= 0 ==> strategy::endpoint_ids_of(interfaces)[name] == interfaces[place].endpoint_id,
    decreases interfaces.len(),
{
    if interfaces.len() > 0 && place < interfaces.len() - 1 {
        let fewer = interfaces.drop_last();
        assert(interfaces[interfaces.len() - 1].display_name@ != name);
        assert forall|i: int| place < i < fewer.len() implies (
        #[trigger] fewer[i]).display_name@ != name by {
            assert(fewer[i] == interfaces[i]);
        }
        law_interfaces_start_alike(fewer, value, name, place);
    }
}

/// What is known of an interface after a report is what the last row for its endpoint says, or what
/// was known before if there is no such row.
pub proof fn law_reports_are_taken_up(
    after: Map<Seq<char>, InterfaceHealth>,
    before: Map<Seq<char>, InterfaceHealth>,
    ids: Map<Seq<char>, String>,
    report: ReportModel,
    name: Seq<char>,
    place: int,
)
    requires
        strategy::known_after(after, before, ids, report, name),
        ids.contains_key(name),
        -1 <= place < report.endpoints.len(),
        place >= 0 ==> report.endpoints[place].endpoint_id == ids[name]@,
        forall|i: int|
            place < i < report.endpoints.len() ==> (#[trigger] report.endpoints[i]).endpoint_id
                != ids[name]@,
    ensures
        place >= 0 ==> after.contains_key(name) && ({
            let known = after[name]@;
            let row = report.endpoints[place];
            &&& known.last_seq == row.last_seq
            &&& known.max_seq == row.max_seq
            &&& known.server_mbps == row.achieved_mbps
            &&& known.last_unix_ms == report.unix_ms
        }),
        place < 0 ==> (after.contains_key(name) <==> before.contains_key(name)),
        place < 0 && before.contains_key(name) ==> after[name] == before[name],
{
    lemma_last_row(report.endpoints, ids[name]@, place);
}

proof fn lemma_last_row(endpoints: Seq<EndpointModel>, id: Seq<char>, place: int)
    requires
        -1 <= place < endpoints.len(),
        place >= 0 ==> endpoints[place].endpoint_id == id,
        forall|i: int|
            place < i < endpoints.len() ==> (#[trigger] endpoints[i]).endpoint_id != id,
    ensures
        strategy::last_endpoint(endpoints, id) == (if place >= 0 {
            Some(place)
        } else {
            None
        }),
    decreases endpoints.len(),
{
    if endpoints.len() > 0 && place < endpoints.len() - 1 {
        let fewer = endpoints.drop_last();
        assert(endpoints[endpoints.len() - 1].endpoint_id != id);
        assert forall|i: int| place < i < fewer.len() implies (#[trigger] fewer[i]).endpoint_id
            != id by {
            assert(fewer[i] == endpoints[i]);
        }
        lemma_last_row(fewer, id, place);
    }
}

/// Of several interfaces with the greatest backlog the first is named.
pub proof fn law_first_of_the_worst_is_named(backlogs: Seq<(Seq<char>, u64)>, place: int)
    requires
        0 <= place < backlogs.len(),
        forall|i: int| 0 <= i < place ==> (#[trigger] backlogs[i]).1 < backlogs[place].1,
        forall|i: int|
            place <= i < backlogs.len() ==> (#[trigger] backlogs[i]).1 <= backlogs[place].1,
    ensures
        strategy::worst_of(backlogs) == Some(backlogs[place]),
    decreases backlogs.len(),
{
    let fewer = backlogs.drop_last();
    if place < fewer.len() {
        assert forall|i: int| 0 <= i < place implies (#[trigger] fewer[i]).1 < fewer[place].1 by {
            assert(fewer[i] == backlogs[i]);
        }
        assert forall|i: int| place <= i < fewer.len() implies (#[trigger] fewer[i]).1
            <= fewer[place].1 by {
            assert(fewer[i] == backlogs[i]);
        }
        law_first_of_the_worst_is_named(fewer, place);
        assert(backlogs[backlogs.len() - 1].1 <= backlogs[place].1);
    } else if fewer.len() > 0 {
        strategy::law_worst_backlog(fewer);
        let worst = strategy::worst_of(fewer)->0;
        let i = choose|i: int| 0 <= i < fewer.len() && fewer[i] == worst;
        assert(backlogs[i].1 < backlogs[place].1);
    }
}

} // verus!
