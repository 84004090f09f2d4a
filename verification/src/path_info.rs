//! The network paths of a connection, and how they are shown.

use crate::client_ui;
use crate::server_ui;
use vstd::prelude::*;

verus! {

/// What is known of one network path of a connection.
#[derive(Debug)]
pub struct PathInfo {
    pub remote_addr: String,
    pub is_ip: bool,
    pub is_relay: bool,
    pub selected: bool,
    pub closed: bool,
}

/// How a path goes.
pub open spec fn kind_of(path: PathInfo) -> Seq<char> {
    if path.is_ip {
        "direct"@
    } else if path.is_relay {
        "relay"@
    } else {
        "other"@
    }
}

pub fn transport_kind(path: &PathInfo) -> (kind: &'static str)
    ensures
        kind@ == kind_of(*path),
{
    if path.is_ip {
        "direct"
    } else if path.is_relay {
        "relay"
    } else {
        "other"
    }
}

/// Whether a path is selected.
pub open spec fn some_selected(paths: Seq<PathInfo>) -> bool {
    exists|i: int| 0 <= i < paths.len() && (#[trigger] paths[i]).selected
}

/// The places of the paths that count: the selected ones, or all if none is.
pub open spec fn relevant(paths: Seq<PathInfo>, any: bool) -> Seq<usize>
    decreases paths.len(),
{
    if paths.len() == 0 {
        Seq::empty()
    } else if !any || paths.last().selected {
        relevant(paths.drop_last(), any).push((paths.len() - 1) as usize)
    } else {
        relevant(paths.drop_last(), any)
    }
}

/// The places of the paths that count: the selected ones, or all if none is.
pub fn relevant_paths(paths: &[PathInfo]) -> (places: Vec<usize>)
    ensures
        places@ == relevant(paths@, some_selected(paths@)),
        forall|i: int| 0 <= i < places@.len() ==> #[trigger] places@[i] < paths@.len(),
{
    let mut any = false;
    for i in 0..paths.len()
        invariant
            any == (exists|j: int| 0 <= j < i && (#[trigger] paths@[j]).selected),
    {
        if paths[i].selected {
            any = true;
        }
    }
    assert(any == some_selected(paths@));
    let mut places: Vec<usize> = Vec::new();
    for i in 0..paths.len()
        invariant
            places@ == relevant(paths@.take(i as int), any),
            forall|j: int| 0 <= j < places@.len() ==> #[trigger] places@[j] < i,
    {
        assert(paths@.take(i + 1).drop_last() =~= paths@.take(i as int));
        if !any || paths[i].selected {
            places.push(i);
        }
    }
    assert(paths@.take(paths@.len() as int) =~= paths@);
    places
}

/// A path as the server shows it.
pub open spec fn server_row(path: PathInfo) -> server_ui::PathRowModel {
    server_ui::PathRowModel {
        remote_addr: path.remote_addr@,
        transport: kind_of(path),
        selected: path.selected,
        status: "up"@,
    }
}

/// The paths of a connection as the server shows them: only the selected ones, if any is.
pub fn describe_server_paths(paths: &[PathInfo]) -> (rows: Vec<server_ui::PathRow>)
    ensures
        server_ui::row_models(rows@) == relevant(paths@, some_selected(paths@)).map_values(
            |place: usize| server_row(paths@[place as int]),
        ),
{
    let places = relevant_paths(paths);
    let mut rows: Vec<server_ui::PathRow> = Vec::new();
    for i in 0..places.len()
        invariant
            forall|j: int| 0 <= j < places@.len() ==> #[trigger] places@[j] < paths@.len(),
            rows@.len() == i,
            forall|j: int|
                0 <= j < i ==> (#[trigger] rows@[j])@ == server_row(paths@[places@[j] as int]),
    {
        let place: usize = places[i];
        rows.push(
            server_ui::PathRow {
                remote_addr: paths[place].remote_addr.clone(),
                transport: transport_kind(&paths[place]).to_owned(),
                selected: paths[place].selected,
                status: "up".to_owned(),
            },
        );
    }
    assert(server_ui::row_models(rows@) =~= places@.map_values(
        |place: usize| server_row(paths@[place as int]),
    ));
    rows
}

/// A path as the client shows it.
pub open spec fn client_row(
    path: PathInfo,
    endpoint_id: Seq<char>,
) -> client_ui::PathRowModel {
    client_ui::PathRowModel {
        endpoint_id,
        server_mbps: "-"@,
        degradation: "-"@,
        remote_addr: path.remote_addr@,
        transport: kind_of(path),
        selected: path.selected,
        status: if path.closed {
            "closed"@
        } else {
            "up"@
        },
    }
}

/// The paths of a connection as the client shows them.
pub fn describe_paths(paths: &[PathInfo], endpoint_id: &str) -> (rows: Vec<client_ui::PathRow>)
    ensures
        client_ui::row_models(rows@) == paths@.map_values(
            |path: PathInfo| client_row(path, endpoint_id@),
        ),
{
    let mut rows: Vec<client_ui::PathRow> = Vec::new();
    for i in 0..paths.len()
        invariant
            rows@.len() == i,
            forall|j: int|
                0 <= j < i ==> (#[trigger] rows@[j])@ == client_row(paths@[j], endpoint_id@),
    {
        rows.push(
            client_ui::PathRow {
                endpoint_id: endpoint_id.to_owned(),
                server_mbps: "-".to_owned(),
                degradation: "-".to_owned(),
                remote_addr: paths[i].remote_addr.clone(),
                transport: transport_kind(&paths[i]).to_owned(),
                selected: paths[i].selected,
                status: if paths[i].closed {
                    "closed".to_owned()
                } else {
                    "up".to_owned()
                },
            },
        );
    }
    assert(client_ui::row_models(rows@) =~= paths@.map_values(
        |path: PathInfo| client_row(path, endpoint_id@),
    ));
    rows
}

/// The lines that tell where a server is reached.
pub open spec fn addr_lines(id: Seq<char>, ips: Seq<String>, relays: Seq<String>) -> Seq<
    Seq<char>,
> {
    seq!["server_id="@ + id] + ips.map_values(|ip: String| "server_addr=ip:"@ + ip@)
        + relays.map_values(|relay: String| "server_addr=relay:"@ + relay@)
}

/// The lines that tell where a server is reached.
pub fn server_addrs(id: &str, ips: &[String], relays: &[String]) -> (lines: Vec<String>)
    ensures
        crate::text::texts(lines@) == addr_lines(id@, ips@, relays@),
{
    let mut lines: Vec<String> = Vec::new();
    let mut first = "server_id=".to_owned();
    first.append(id);
    lines.push(first);
    for i in 0..ips.len()
        invariant
            lines@.len() == 1 + i,
            lines@[0]@ == "server_id="@ + id@,
            forall|j: int|
                0 <= j < i ==> (#[trigger] lines@[1 + j])@ == "server_addr=ip:"@ + ips@[j]@,
    {
        let mut line = "server_addr=ip:".to_owned();
        line.append(ips[i].as_str());
        lines.push(line);
    }
    for i in 0..relays.len()
        invariant
            lines@.len() == 1 + ips@.len() + i,
            lines@[0]@ == "server_id="@ + id@,
            forall|j: int|
                0 <= j < ips@.len() ==> (#[trigger] lines@[1 + j])@ == "server_addr=ip:"@
                    + ips@[j]@,
            forall|j: int|
                0 <= j < i ==> (#[trigger] lines@[1 + ips@.len() + j])@ == "server_addr=relay:"@
                    + relays@[j]@,
    {
        let mut line = "server_addr=relay:".to_owned();
        line.append(relays[i].as_str());
        lines.push(line);
    }
    proof {
        let all = addr_lines(id@, ips@, relays@);
        assert forall|i: int| 0 <= i < all.len() implies crate::text::texts(lines@)[i]
            == all[i] by {
            if 1 <= i < 1 + ips@.len() {
                assert(lines@[1 + (i - 1)]@ == "server_addr=ip:"@ + ips@[i - 1]@);
            } else if i >= 1 + ips@.len() {
                let j = i - 1 - ips@.len();
                assert(lines@[1 + ips@.len() + j]@ == "server_addr=relay:"@ + relays@[j]@);
            }
        }
        assert(crate::text::texts(lines@) =~= all);
    }
    lines
}

} // verus!
