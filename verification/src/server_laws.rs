//! What holds of how the server reaches its clients and what it tells them.

use crate::name_map;
use crate::name_map::NameMap;
use crate::obs;
use crate::obs::{ObsAction, ObsCommand, ObsEvent, ObsRemote, ObsStage, ObsTask};
use crate::ordered;
use crate::path_info;
use crate::path_info::PathInfo;
use crate::rates;
use crate::rates::NamedRates;
use crate::routes;
use crate::routes::{ConnectionRegistry, Delivery};
use crate::server_health;
use crate::server_health::EndpointSample;
use vstd::prelude::*;

verus! {

/// The routes hold the client that was added and, unless they start over, those they held before,
/// which stay where they were.
pub proof fn law_routes_gain_one_client(
    before: Seq<Seq<char>>,
    remote: Seq<char>,
    reset: bool,
    other: Seq<char>,
)
    ensures
        routes::routed(before, remote, reset).contains(other) <==> other == remote || (!reset
            && before.contains(other)),
        !reset ==> before.is_prefix_of(routes::routed(before, remote, reset)),
        routes::routed(before, remote, reset).len() <= before.len() + 1,
        !reset && before.contains(remote) ==> routes::routed(before, remote, reset) == before,
{
    let after = routes::routed(before, remote, reset);
    if reset {
        assert(after[0] == remote);
    } else if !before.contains(remote) {
        assert(after[before.len() as int] == remote);
        if before.contains(other) {
            let i = choose|i: int| 0 <= i < before.len() && before[i] == other;
            assert(after[i] == other);
        }
    }
}

/// The connections of a client are finitely many.
proof fn lemma_ids_are_finite(registry: ConnectionRegistry, remote: Seq<char>)
    ensures
        registry.ids(remote).finite(),
        ordered::is_ascending(ordered::ascending(registry.ids(remote))),
        ordered::ascending(registry.ids(remote)).to_set() == registry.ids(remote),
{
    if registry.connections@.contains_key(remote) {
        registry.connections@[remote].lemma_finite();
    }
    ordered::lemma_ascending_exists(registry.ids(remote));
}

/// A request for a packet goes to every connection of every client on the routes and to no other.
/// Those of one client are asked before those of a client that is later on the routes, and of one
/// client the lower before the higher.
pub proof fn law_repairs_are_asked_of_every_connection(
    registry: ConnectionRegistry,
    clients: Seq<Seq<char>>,
    remote: Seq<char>,
    id: u64,
)
    requires
        clients.no_duplicates(),
    ensures
        routes::all_targets(registry, clients).contains((remote, id)) <==> clients.contains(remote)
            && registry.ids(remote).contains(id),
        forall|i: int, j: int|
            0 <= i < j < routes::all_targets(registry, clients).len() ==> ({
                let first = #[trigger] routes::all_targets(registry, clients)[i];
                let second = #[trigger] routes::all_targets(registry, clients)[j];
                ||| clients.index_of(first.0) < clients.index_of(second.0)
                ||| first.0 == second.0 && first.1 < second.1
            }),
    decreases clients.len(),
{
    let all = routes::all_targets(registry, clients);
    if clients.len() > 0 {
        let fewer = clients.drop_last();
        let last = clients.last();
        let before = routes::all_targets(registry, fewer);
        let ids = ordered::ascending(registry.ids(last));
        let added = routes::targets_of(last, ids);
        law_repairs_are_asked_of_every_connection(registry, fewer, remote, id);
        lemma_ids_are_finite(registry, last);
        assert(all == before + added);
        assert(all.contains((remote, id)) <==> before.contains((remote, id)) || added.contains(
            (remote, id),
        )) by {
            if before.contains((remote, id)) {
                let k = choose|k: int| 0 <= k < before.len() && before[k] == (remote, id);
                assert(all[k] == (remote, id));
            }
            if added.contains((remote, id)) {
                let k = choose|k: int| 0 <= k < added.len() && added[k] == (remote, id);
                assert(all[before.len() + k] == (remote, id));
            }
            if all.contains((remote, id)) {
                let k = choose|k: int| 0 <= k < all.len() && all[k] == (remote, id);
                if k < before.len() {
                    assert(before[k] == (remote, id));
                } else {
                    assert(added[k - before.len()] == (remote, id));
                }
            }
        }
        assert(added.contains((remote, id)) <==> remote == last && registry.ids(last).contains(id))
            by {
            if added.contains((remote, id)) {
                let k = choose|k: int| 0 <= k < added.len() && added[k] == (remote, id);
                assert(ids[k] == id);
                assert(ids.to_set().contains(id));
            }
            if remote == last && registry.ids(last).contains(id) {
                assert(ids.to_set().contains(id));
                let k = choose|k: int| 0 <= k < ids.len() && ids[k] == id;
                assert(added[k] == (remote, id));
            }
        }
        assert(clients.contains(remote) <==> fewer.contains(remote) || remote == last) by {
            if fewer.contains(remote) {
                let k = choose|k: int| 0 <= k < fewer.len() && fewer[k] == remote;
                assert(clients[k] == remote);
            }
            if clients.contains(remote) && remote != last {
                let k = choose|k: int| 0 <= k < clients.len() && clients[k] == remote;
                assert(fewer[k] == remote);
            }
            assert(clients[clients.len() - 1] == last);
        }
        assert forall|i: int, j: int| 0 <= i < j < all.len() implies ({
            let first = #[trigger] all[i];
            let second = #[trigger] all[j];
            ||| clients.index_of(first.0) < clients.index_of(second.0)
            ||| first.0 == second.0 && first.1 < second.1
        }) by {
            lemma_index_of(clients, clients.len() - 1);
            if i < before.len() {
                lemma_target_is_on_routes(registry, fewer, i);
                let p = fewer.index_of(before[i].0);
                assert(clients[p] == before[i].0);
                lemma_index_of(clients, p);
                assert(all[i] == before[i]);
                if j < before.len() {
                    lemma_target_is_on_routes(registry, fewer, j);
                    let q = fewer.index_of(before[j].0);
                    assert(clients[q] == before[j].0);
                    lemma_index_of(clients, q);
                    assert(all[j] == before[j]);
                } else {
                    assert(all[j] == added[j - before.len()]);
                }
            } else {
                assert(all[i] == added[i - before.len()]);
                assert(all[j] == added[j - before.len()]);
                assert(ids[i - before.len()] < ids[j - before.len()]);
            }
        }
    }
}

/// A target is a connection of a client on the routes.
proof fn lemma_target_is_on_routes(registry: ConnectionRegistry, clients: Seq<Seq<char>>, i: int)
    requires
        0 <= i < routes::all_targets(registry, clients).len(),
    ensures
        clients.contains(routes::all_targets(registry, clients)[i].0),
        0 <= clients.index_of(routes::all_targets(registry, clients)[i].0) < clients.len(),
        clients[clients.index_of(routes::all_targets(registry, clients)[i].0)]
            == routes::all_targets(registry, clients)[i].0,
    decreases clients.len(),
{
    let fewer = clients.drop_last();
    let before = routes::all_targets(registry, fewer);
    let remote = routes::all_targets(registry, clients)[i].0;
    if i < before.len() {
        lemma_target_is_on_routes(registry, fewer, i);
        assert(clients[fewer.index_of(remote)] == remote);
    } else {
        assert(clients[clients.len() - 1] == remote);
    }
}

/// The place of each member of a sequence without duplicates is its own.
proof fn lemma_index_of(clients: Seq<Seq<char>>, i: int)
    requires
        clients.no_duplicates(),
        0 <= i < clients.len(),
    ensures
        clients.index_of(clients[i]) == i,
{
    assert(clients.contains(clients[i]));
}

/// On a route that is tried, the highest connection is tried first. What is tried after so many
/// failures is lower than all that have failed and higher than all that have not been tried.
pub proof fn law_highest_connection_is_tried_first(
    registry: ConnectionRegistry,
    delivery: Delivery,
    from: nat,
    tried: usize,
    id: u64,
)
    requires
        delivery.tries_from(registry, delivery.routes@, from),
        delivery.place < delivery.routes@.len(),
        tried < delivery.ids@.len(),
        registry.ids(delivery.remote()).contains(id),
    ensures
        ({
            let next = Delivery { tried, ..delivery };
            &&& next.next_target() matches Some(target)
            &&& target.0 == delivery.remote()
            &&& registry.ids(delivery.remote()).contains(target.1)
            &&& next.failures().contains(id) <==> id > target.1
            &&& next.failures().len() == tried
            &&& tried == 0 ==> id <= target.1
        }),
{
    let remote = delivery.remote();
    lemma_ids_are_finite(registry, remote);
    let ids = delivery.ids@;
    let next = Delivery { tried, ..delivery };
    let place = ids.len() - 1 - tried;
    assert(ids.to_set().contains(ids[place]));
    assert(ids.to_set().contains(id));
    let k = choose|k: int| 0 <= k < ids.len() && ids[k] == id;
    let failures = next.failures();
    if k > place {
        assert(failures[k - place - 1] == id);
        assert(ids[place] < ids[k]);
    } else {
        if k < place {
            assert(ids[k] < ids[place]);
        }
        if failures.contains(id) {
            let m = choose|m: int| 0 <= m < failures.len() && failures[m] == id;
            assert(ids[place + 1 + m] == id);
            assert(ids[place] < ids[place + 1 + m]);
        }
    }
}

/// The sample of a client after packets of so many bytes with these sequence numbers.
pub open spec fn counted(sample: EndpointSample, packets: Seq<(u64, u64)>) -> EndpointSample
    decreases packets.len(),
{
    if packets.len() == 0 {
        sample
    } else {
        server_health::with_packet(
            counted(sample, packets.drop_last()),
            packets.last().0,
            packets.last().1,
        )
    }
}

/// The bytes of packets.
pub open spec fn total_bytes(packets: Seq<(u64, u64)>) -> nat
    decreases packets.len(),
{
    if packets.len() == 0 {
        0
    } else {
        total_bytes(packets.drop_last()) + packets.last().0 as nat
    }
}

/// A report tells of all the bytes that arrived since the last and of the highest sequence number
/// among them, in whatever order they came.
pub proof fn law_sample_counts_every_packet(packets: Seq<(u64, u64)>)
    ensures
        ({
            let sample = counted(EndpointSample { bytes: 0, last_seq: None }, packets);
            &&& total_bytes(packets) <= u64::MAX ==> sample.bytes == total_bytes(packets)
            &&& total_bytes(packets) > u64::MAX ==> sample.bytes == u64::MAX
            &&& packets.len() == 0 ==> sample.last_seq is None
            &&& packets.len() > 0 ==> ({
                &&& sample.last_seq matches Some(last)
                &&& exists|i: int| 0 <= i < packets.len() && (#[trigger] packets[i]).1 == last
                &&& forall|i: int| 0 <= i < packets.len() ==> (#[trigger] packets[i]).1 <= last
            })
        }),
    decreases packets.len(),
{
    if packets.len() > 0 {
        let fewer = packets.drop_last();
        law_sample_counts_every_packet(fewer);
        let none = EndpointSample { bytes: 0, last_seq: None };
        let before = counted(none, fewer);
        let sample = counted(none, packets);
        let last = sample.last_seq->0;
        if packets.last().1 == last {
            assert(packets[packets.len() - 1].1 == last);
        } else {
            let i = choose|i: int| 0 <= i < fewer.len() && (#[trigger] fewer[i]).1 == last;
            assert(packets[i].1 == last);
        }
        assert forall|i: int| 0 <= i < packets.len() implies (#[trigger] packets[i]).1 <= last by {
            if i < fewer.len() {
                assert(fewer[i] == packets[i]);
            }
        }
    }
}

/// Every client has its sample taken out once, in the order of the names.
pub proof fn law_every_sample_is_taken(
    stats: NameMap<EndpointSample>,
    name: Seq<char>,
    sample: EndpointSample,
)
    requires
        stats.well_formed(),
    ensures
        server_health::drained(stats).contains((name, sample)) <==> stats@.contains_key(name)
            && stats@[name] == sample,
        server_health::drained(stats).len() == stats@.dom().len(),
        forall|i: int, j: int|
            0 <= i < j < server_health::drained(stats).len() ==> name_map::name_before(
                (#[trigger] server_health::drained(stats)[i]).0,
                (#[trigger] server_health::drained(stats)[j]).0,
            ),
{
    stats.lemma_names();
    let all = server_health::drained(stats);
    if all.contains((name, sample)) {
        let i = choose|i: int| 0 <= i < all.len() && all[i] == (name, sample);
        stats.lemma_entry(i);
    }
    if stats@.contains_key(name) && stats@[name] == sample {
        let i = stats.names().index_of(name);
        assert(stats.names().contains(name));
        stats.lemma_entry(i);
        assert(all[i] == (name, sample));
    }
}

/// A path counts if it is selected, or if none is; each counts once, in the order in which they
/// are given.
pub proof fn law_selected_paths_count(paths: Seq<PathInfo>, place: usize)
    requires
        paths.len() <= usize::MAX,
    ensures
        ({
            let places = path_info::relevant(paths, path_info::some_selected(paths));
            &&& places.contains(place) <==> place < paths.len() && (paths[place as int].selected
                || forall|i: int| 0 <= i < paths.len() ==> !(#[trigger] paths[i]).selected)
            &&& forall|i: int, j: int|
                0 <= i < j < places.len() ==> #[trigger] places[i] < #[trigger] places[j]
        }),
{
    lemma_relevant(paths, path_info::some_selected(paths), place);
}

proof fn lemma_relevant(paths: Seq<PathInfo>, any: bool, place: usize)
    requires
        paths.len() <= usize::MAX,
    ensures
        ({
            let places = path_info::relevant(paths, any);
            &&& places.contains(place) <==> place < paths.len() && (!any
                || paths[place as int].selected)
            &&& forall|i: int| 0 <= i < places.len() ==> #[trigger] places[i] < paths.len()
            &&& forall|i: int, j: int|
                0 <= i < j < places.len() ==> #[trigger] places[i] < #[trigger] places[j]
        }),
    decreases paths.len(),
{
    if paths.len() > 0 {
        let fewer = paths.drop_last();
        lemma_relevant(fewer, any, place);
        let before = path_info::relevant(fewer, any);
        let places = path_info::relevant(paths, any);
        if !any || paths.last().selected {
            let end = (paths.len() - 1) as usize;
            assert(places == before.push(end));
            assert(places[before.len() as int] == end);
            if before.contains(place) {
                let i = choose|i: int| 0 <= i < before.len() && before[i] == place;
                assert(places[i] == place);
            }
            if places.contains(place) && place != end {
                let i = choose|i: int| 0 <= i < places.len() && places[i] == place;
                assert(before[i] == place);
            }
        }
    }
}

/// A path goes directly if it has an address, else over a relay if it has one, and is shown so.
pub proof fn law_paths_are_shown_as_they_are(path: PathInfo)
    ensures
        path_info::server_row(path).remote_addr == path.remote_addr@,
        path_info::server_row(path).selected == path.selected,
        path_info::server_row(path).status == "up"@,
        path.is_ip ==> path_info::server_row(path).transport == "direct"@,
        !path.is_ip && path.is_relay ==> path_info::server_row(path).transport == "relay"@,
        !path.is_ip && !path.is_relay ==> path_info::server_row(path).transport == "other"@,
        forall|id: Seq<char>|
            ({
                let row = #[trigger] path_info::client_row(path, id);
                &&& row.endpoint_id == id
                &&& row.remote_addr == path.remote_addr@
                &&& row.selected == path.selected
                &&& row.transport == path_info::server_row(path).transport
                &&& row.status == if path.closed {
                    "closed"@
                } else {
                    "up"@
                }
                &&& row.server_mbps == "-"@
                &&& row.degradation == "-"@
            }),
{
}

/// What was added to a counter makes, with what it was, what it is now. A counter that was not
/// there was zero; one that fell has had nothing added.
pub proof fn law_additions_make_the_counts(
    counts: Map<Seq<char>, u64>,
    before: Map<Seq<char>, u64>,
    name: Seq<char>,
)
    ensures
        ({
            let added = rates::additions(counts, before);
            &&& added.contains_key(name) <==> counts.contains_key(name)
            &&& counts.contains_key(name) && before.contains_key(name) && before[name]
                <= counts[name] ==> before[name] + added[name] == counts[name]
            &&& counts.contains_key(name) && before.contains_key(name) && before[name]
                > counts[name] ==> added[name] == 0
            &&& counts.contains_key(name) && !before.contains_key(name) ==> added[name]
                == counts[name]
        }),
{
}

/// Counters are looked at for the first time at once, and later once the interval has passed.
pub proof fn law_counters_are_looked_at_in_intervals(rates: NamedRates, now: u64, interval: u64)
    ensures
        rates.at is None ==> rates.is_due(now, interval),
        rates.at matches Some(last) ==> (rates.is_due(now, interval) <==> interval == 0 || now
            >= last + interval),
{
}

/// Every command but the one to disconnect is first given a connection, if there is none, and is
/// tried once more if it fails.
pub proof fn law_commands_get_a_connection(command: ObsCommand)
    ensures
        command.is_retried() <==> command !is Disconnect,
        command is Disconnect ==> forall|has_client: bool|
            obs::action_at(command, #[trigger] obs::first_stage(command, has_client))
                == ObsAction::Disconnect,
        command !is Disconnect ==> obs::action_at(command, obs::first_stage(command, false))
            == ObsAction::Connect,
        command is Connect ==> obs::action_at(command, obs::first_stage(command, true))
            == ObsAction::Connect,
        command !is Disconnect && command !is Connect ==> obs::first_stage(command, true)
            == obs::next_stage(
            ObsTask {
                command,
                stage: obs::first_stage(command, false),
                retried: false,
                polling: false,
            },
            ObsEvent::Done,
        ),
        obs::is_invalid(command) <==> command == (ObsCommand::SetRecordingBitrate { kbps: 0 }),
{
}

/// A bitrate is set once there is a connection, to what the command says. Whatever the command,
/// what OBS says of itself at the end is what is known of it.
pub proof fn law_command_ends_with_what_is_known(
    task: ObsTask,
    remote: ObsRemote,
    kbps: u32,
    active: bool,
    read: Option<u32>,
)
    requires
        task.command !is Disconnect,
    ensures
        obs::action_at(
            ObsCommand::SetRecordingBitrate { kbps },
            obs::first_stage(ObsCommand::SetRecordingBitrate { kbps }, true),
        ) == (ObsAction::SetBitrate { kbps }),
        task.stage is Acting ==> obs::action_at(
            task.command,
            obs::next_stage(task, ObsEvent::Done),
        ) == ObsAction::ReadRecording,
        ({
            let asked = ObsTask { stage: ObsStage::Reading, ..task };
            let told = ObsTask {
                stage: obs::next_stage(asked, ObsEvent::Recording { active }),
                ..task
            };
            let end = obs::next_stage(told, ObsEvent::Bitrate { kbps: read });
            let between = obs::remote_after(remote, asked.stage, ObsEvent::Recording { active });
            let known = obs::remote_after(between, told.stage, ObsEvent::Bitrate { kbps: read });
            &&& obs::action_at(task.command, asked.stage) == ObsAction::ReadRecording
            &&& obs::action_at(task.command, told.stage) == ObsAction::ReadBitrate
            &&& obs::action_at(task.command, end) == ObsAction::Succeed
            &&& known.status.connected
            &&& known.status.recording == Some(active)
            &&& known.status.recording_bitrate_kbps == read
            &&& known.status.last_error is None
            &&& known.has_client == remote.has_client
            &&& known.config == remote.config
        }),
        ({
            let joined = obs::remote_after(remote, ObsStage::Connecting, ObsEvent::Done);
            let left = obs::remote_after(remote, ObsStage::Disconnecting, ObsEvent::Done);
            let lost = obs::without_client(remote);
            &&& joined.has_client && joined.status.connected
            &&& joined.status.last_error is None
            &&& !left.has_client && !left.status.connected && left.status.recording is None
            &&& !lost.has_client && !lost.status.connected
        }),
{
}

/// Setting the connections of a client sets those and leaves those of every other client, and a
/// client without connections is not known any more.
pub proof fn law_other_clients_keep_their_connections(
    before: ConnectionRegistry,
    after: ConnectionRegistry,
    remote: Seq<char>,
    ids: Set<u64>,
    other: Seq<char>,
)
    requires
        after.sets(before, remote, ids),
        other != remote,
    ensures
        after.ids(remote) == ids,
        after.ids(other) == before.ids(other),
        ids == Set::<u64>::empty() ==> !after.connections@.contains_key(remote),
{
    if after.connections@.contains_key(remote) {
        assert(after.connections@[remote]@.dom() != Set::<u64>::empty());
    }
}

/// A client of which nothing arrived has no bytes and no sequence number.
pub proof fn law_unknown_client_has_sent_nothing(
    stats: Map<Seq<char>, EndpointSample>,
    remote: Seq<char>,
)
    ensures
        !stats.contains_key(remote) ==> server_health::sample_of(stats, remote).bytes == 0
            && server_health::sample_of(stats, remote).last_seq is None,
        stats.contains_key(remote) ==> server_health::sample_of(stats, remote) == stats[remote],
{
}

/// The lines that tell where a server is reached are its identifier, then a line for each address,
/// then one for each relay.
pub proof fn law_every_address_has_a_line(
    id: Seq<char>,
    ips: Seq<String>,
    relays: Seq<String>,
    place: int,
)
    ensures
        path_info::addr_lines(id, ips, relays).len() == 1 + ips.len() + relays.len(),
        path_info::addr_lines(id, ips, relays)[0] == "server_id="@ + id,
        0 <= place < ips.len() ==> path_info::addr_lines(id, ips, relays)[1 + place]
            == "server_addr=ip:"@ + ips[place]@,
        0 <= place < relays.len() ==> path_info::addr_lines(id, ips, relays)[1 + ips.len() + place]
            == "server_addr=relay:"@ + relays[place]@,
{
}

} // verus!
