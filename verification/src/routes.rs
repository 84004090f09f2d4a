//! The connections of the server's clients, and the routes that replies take to them.

use crate::name_map::NameMap;
use crate::ordered;
use crate::ordered::NumberMap;
use crate::text;
use crate::text::contains_text;
use vstd::prelude::*;

verus! {

/// The connections of each client, by number.
pub struct ConnectionRegistry {
    pub connections: NameMap<NumberMap<()>>,
}

impl ConnectionRegistry {
    /// Each client is there once, and has a connection.
    pub open spec fn well_formed(self) -> bool {
        &&& self.connections.well_formed()
        &&& forall|remote: Seq<char>| #[trigger]
            self.connections@.contains_key(remote) ==> self.connections@[remote]@.dom()
                != Set::<u64>::empty()
    }

    /// The connections of a client.
    pub open spec fn ids(self, remote: Seq<char>) -> Set<u64> {
        if self.connections@.contains_key(remote) {
            self.connections@[remote]@.dom()
        } else {
            Set::empty()
        }
    }

    /// The connections of a client are these, and those of the others are as before.
    pub open spec fn sets(self, before: ConnectionRegistry, remote: Seq<char>, ids: Set<u64>) -> bool {
        &&& self.well_formed()
        &&& self.ids(remote) == ids
        &&& forall|other: Seq<char>| other != remote ==> #[trigger] self.ids(other) == before.ids(
            other,
        )
    }

    pub fn new() -> (registry: ConnectionRegistry)
        ensures
            registry.well_formed(),
            forall|remote: Seq<char>| #[trigger] registry.ids(remote) == Set::<u64>::empty(),
    {
        ConnectionRegistry { connections: NameMap::new() }
    }

    /// A new connection of a client.
    pub fn register(&mut self, remote: String, id: u64)
        requires
            old(self).well_formed(),
        ensures
            final(self).sets(*old(self), remote@, old(self).ids(remote@).insert(id)),
    {
        let mut ids = match self.connections.remove(remote.as_str()) {
            Some(ids) => ids,
            None => NumberMap::new(),
        };
        assert(ids@.dom() =~= old(self).ids(remote@));
        ids.insert(id, ());
        assert(ids@.dom() =~= old(self).ids(remote@).insert(id));
        assert(ids@.dom().contains(id));
        self.connections.insert(remote, ids);
    }

    /// Drops a connection of a client; whether the client has others.
    pub fn remove_connection_if_current(&mut self, remote: &str, id: u64) -> (remaining: bool)
        requires
            old(self).well_formed(),
        ensures
            final(self).sets(*old(self), remote@, old(self).ids(remote@).remove(id)),
            remaining == (old(self).ids(remote@).remove(id) != Set::<u64>::empty()),
    {
        match self.connections.remove(remote) {
            Some(ids) => {
                let mut ids = ids;
                let _ = ids.remove(id);
                assert(ids@.dom() =~= old(self).ids(remote@).remove(id));
                if ids.is_empty() {
                    return false;
                }
                self.connections.insert(remote.to_owned(), ids);
                true
            },
            None => {
                assert(old(self).ids(remote@).remove(id) =~= Set::<u64>::empty());
                false
            },
        }
    }

    /// Drops connections of a client.
    pub fn remove_connections(&mut self, remote: &str, failed: &[u64])
        requires
            old(self).well_formed(),
        ensures
            final(self).sets(
                *old(self),
                remote@,
                old(self).ids(remote@).difference(failed@.to_set()),
            ),
    {
        let ghost all = old(self).ids(remote@);
        assert(failed@.take(0).to_set() =~= Set::<u64>::empty());
        assert(all.difference(Set::empty()) =~= all);
        for i in 0..failed.len()
            invariant
                self.well_formed(),
                all == old(self).ids(remote@),
                self.sets(*old(self), remote@, all.difference(failed@.take(i as int).to_set())),
        {
            let ghost before = *self;
            let _ = self.remove_connection_if_current(remote, failed[i]);
            proof {
                let seen = failed@.take(i as int);
                assert(failed@.take(i + 1) =~= seen.push(failed@[i as int]));
                seen.lemma_push_to_set_commute(failed@[i as int]);
                assert(all.difference(seen.to_set()).remove(failed@[i as int]) =~= all.difference(
                    failed@.take(i + 1).to_set(),
                ));
                assert forall|other: Seq<char>| other != remote@ implies #[trigger] self.ids(other)
                    == old(self).ids(other) by {
                    assert(before.ids(other) == old(self).ids(other));
                }
            }
        }
        assert(failed@.take(failed@.len() as int) =~= failed@);
    }

    /// The connections of a client, the lowest first.
    pub fn connection_ids(&self, remote: &str) -> (ids: Vec<u64>)
        requires
            self.well_formed(),
        ensures
            ids@ == ordered::ascending(self.ids(remote@)),
            ids@.to_set() == self.ids(remote@),
            ordered::is_ascending(ids@),
    {
        match self.connections.get(remote) {
            Some(ids) => ids.keys(),
            None => {
                let none: Vec<u64> = Vec::new();
                proof {
                    assert(none@.to_set() =~= Set::<u64>::empty());
                    ordered::lemma_is_ascending_order(none@);
                }
                none
            },
        }
    }
}

/// The routes with a client among them, or only that client if the routes start over.
pub open spec fn routed(routes: Seq<Seq<char>>, remote: Seq<char>, reset: bool) -> Seq<Seq<char>> {
    if reset {
        seq![remote]
    } else if routes.contains(remote) {
        routes
    } else {
        routes.push(remote)
    }
}

/// Adds a client to the routes that replies take, each once.
pub fn set_reply_routes(routes: &mut Vec<String>, remote: &str, reset: bool)
    ensures
        text::texts(final(routes)@) == routed(text::texts(old(routes)@), remote@, reset),
{
    if reset {
        routes.clear();
    }
    let ghost before = routes@;
    proof {
        crate::strategy::lemma_contains_text(routes@, remote@);
    }
    if !contains_text(routes.as_slice(), remote) {
        routes.push(remote.to_owned());
        assert(text::texts(routes@) =~= text::texts(before).push(remote@));
        if reset {
            assert(text::texts(routes@) =~= seq![remote@]);
        }
    } else {
        assert(reset ==> false);
    }
}

/// A connection of a client.
#[derive(Debug)]
pub struct Target {
    pub remote: String,
    pub id: u64,
}

/// The connections of a client as targets.
pub open spec fn targets_of(remote: Seq<char>, ids: Seq<u64>) -> Seq<(Seq<char>, u64)> {
    ids.map_values(|id: u64| (remote, id))
}

/// The targets that a list holds.
pub open spec fn target_models(targets: Seq<Target>) -> Seq<(Seq<char>, u64)> {
    targets.map_values(|target: Target| (target.remote@, target.id))
}

/// Every connection on the routes, route by route, the lowest first.
pub open spec fn all_targets(registry: ConnectionRegistry, routes: Seq<Seq<char>>) -> Seq<
    (Seq<char>, u64),
>
    decreases routes.len(),
{
    if routes.len() == 0 {
        Seq::empty()
    } else {
        all_targets(registry, routes.drop_last()) + targets_of(
            routes.last(),
            ordered::ascending(registry.ids(routes.last())),
        )
    }
}

/// Where a request for a packet that did not arrive is sent: to every connection on the routes.
pub fn repair_targets(registry: &ConnectionRegistry, routes: &[String]) -> (targets: Vec<Target>)
    requires
        registry.well_formed(),
    ensures
        target_models(targets@) == all_targets(*registry, text::texts(routes@)),
{
    let ghost names = text::texts(routes@);
    let mut targets: Vec<Target> = Vec::new();
    assert(target_models(targets@) =~= Seq::<(Seq<char>, u64)>::empty());
    for i in 0..routes.len()
        invariant
            registry.well_formed(),
            names == text::texts(routes@),
            target_models(targets@) == all_targets(*registry, names.take(i as int)),
    {
        assert(names.take(i + 1).drop_last() =~= names.take(i as int));
        let ids = registry.connection_ids(routes[i].as_str());
        let ghost before = target_models(targets@);
        let ghost added = targets_of(names[i as int], ids@);
        assert(before + added.take(0) =~= before);
        for j in 0..ids.len()
            invariant
                i < routes@.len(),
                names == text::texts(routes@),
                added == targets_of(names[i as int], ids@),
                target_models(targets@) == before + added.take(j as int),
        {
            let ghost earlier = targets@;
            targets.push(Target { remote: routes[i].clone(), id: ids[j] });
            proof {
                assert(target_models(targets@) =~= target_models(earlier).push(added[j as int]));
                assert(added.take(j + 1) =~= added.take(j as int).push(added[j as int]));
                assert(target_models(targets@) =~= before + added.take(j + 1));
            }
        }
        assert(added.take(added.len() as int) =~= added);
    }
    assert(names.take(names.len() as int) =~= names);
    targets
}

/// A reply on its way: the routes are tried one after the other, and on each route the connections
/// of the client, the highest first, until one takes the reply.
#[derive(Debug)]
pub struct Delivery {
    pub routes: Vec<String>,
    /// The route that is tried; there are no more once it is beyond the last.
    pub place: usize,
    /// The connections on that route, the lowest first.
    pub ids: Vec<u64>,
    /// How many of them have failed.
    pub tried: usize,
}

/// The first route, from a place on, on which there is a connection.
pub open spec fn next_place(
    registry: ConnectionRegistry,
    routes: Seq<Seq<char>>,
    from: nat,
) -> nat
    decreases routes.len() - from,
{
    if from >= routes.len() {
        routes.len()
    } else if registry.ids(routes[from as int]) != Set::<u64>::empty() {
        from
    } else {
        next_place(registry, routes, from + 1)
    }
}

impl Delivery {
    /// A route that is tried has a connection that has not failed.
    pub open spec fn well_formed(self) -> bool {
        &&& self.place <= self.routes@.len()
        &&& self.place < self.routes@.len() ==> self.tried < self.ids@.len()
    }

    /// The connection that is to be tried.
    pub open spec fn next_target(self) -> Option<(Seq<char>, u64)> {
        if self.place < self.routes@.len() {
            Some((self.remote(), self.ids@[self.ids@.len() - 1 - self.tried]))
        } else {
            None
        }
    }

    /// The client whose connections are tried.
    pub open spec fn remote(self) -> Seq<char> {
        self.routes@[self.place as int]@
    }

    /// The connections that have failed.
    pub open spec fn failures(self) -> Seq<u64> {
        self.ids@.skip(self.ids@.len() - self.tried)
    }

    /// The delivery tries the first route from a place on.
    pub open spec fn tries_from(
        self,
        registry: ConnectionRegistry,
        routes: Seq<String>,
        from: nat,
    ) -> bool {
        &&& self.well_formed()
        &&& self.routes@ == routes
        &&& self.place == next_place(registry, text::texts(routes), from)
        &&& self.tried == 0
        &&& self.place < routes.len() ==> self.ids@ == ordered::ascending(
            registry.ids(routes[self.place as int]@),
        )
    }

    /// Starts to deliver a reply.
    pub fn new(routes: Vec<String>, registry: &ConnectionRegistry) -> (delivery: Delivery)
        requires
            registry.well_formed(),
        ensures
            delivery.tries_from(*registry, routes@, 0),
    {
        Delivery::advance(routes, 0, registry)
    }

    /// Tries the first route from a place on.
    fn advance(routes: Vec<String>, from: usize, registry: &ConnectionRegistry) -> (delivery:
        Delivery)
        requires
            registry.well_formed(),
            from <= routes@.len(),
        ensures
            delivery.tries_from(*registry, routes@, from as nat),
    {
        let ghost names = text::texts(routes@);
        let mut place: usize = from;
        while place < routes.len()
            invariant
                registry.well_formed(),
                names == text::texts(routes@),
                place <= routes@.len(),
                next_place(*registry, names, from as nat) == next_place(
                    *registry,
                    names,
                    place as nat,
                ),
            decreases routes@.len() - place,
        {
            let ids = registry.connection_ids(routes[place].as_str());
            if ids.len() > 0 {
                proof {
                    assert(ids@.to_set().contains(ids@[0]));
                    assert(names[place as int] == routes@[place as int]@);
                }
                return Delivery { routes, place, ids, tried: 0 };
            }
            proof {
                assert(ids@.to_set() =~= Set::<u64>::empty());
                assert(names[place as int] == routes@[place as int]@);
            }
            place = place + 1;
        }
        Delivery { routes, place, ids: Vec::new(), tried: 0 }
    }

    /// The connection that is to be tried.
    pub fn target(&self) -> (target: Option<Target>)
        requires
            self.well_formed(),
        ensures
            match self.next_target() {
                Some(wanted) => target matches Some(found) && (found.remote@, found.id) == wanted,
                None => target is None,
            },
    {
        if self.place < self.routes.len() {
            Some(
                Target {
                    remote: self.routes[self.place].clone(),
                    id: self.ids[self.ids.len() - 1 - self.tried],
                },
            )
        } else {
            None
        }
    }

    /// The connection did not take the reply: the next is tried. A client none of whose connections
    /// did is dropped, and the next route is tried.
    pub fn failed(self, registry: &mut ConnectionRegistry) -> (delivery: Delivery)
        requires
            old(registry).well_formed(),
            self.well_formed(),
            self.next_target() is Some,
        ensures
            if self.tried + 1 < self.ids@.len() {
                &&& delivery.well_formed()
                &&& delivery == (Delivery { tried: (self.tried + 1) as usize, ..self })
                &&& *final(registry) == *old(registry)
            } else {
                &&& final(registry).sets(
                    *old(registry),
                    self.remote(),
                    old(registry).ids(self.remote()).difference(self.ids@.to_set()),
                )
                &&& delivery.tries_from(*final(registry), self.routes@, (self.place + 1) as nat)
            },
    {
        let count: usize = self.ids.len();
        let routes: usize = self.routes.len();
        assert(self.tried < count && self.place < routes);
        if self.tried + 1 < count {
            return Delivery {
                routes: self.routes,
                place: self.place,
                ids: self.ids,
                tried: self.tried + 1,
            };
        }
        registry.remove_connections(self.routes[self.place].as_str(), self.ids.as_slice());
        let place: usize = self.place + 1;
        Delivery::advance(self.routes, place, registry)
    }

    /// The connection took the reply: those that did not before it are dropped.
    pub fn delivered(self, registry: &mut ConnectionRegistry)
        requires
            old(registry).well_formed(),
            self.well_formed(),
            self.next_target() is Some,
        ensures
            final(registry).sets(
                *old(registry),
                self.remote(),
                old(registry).ids(self.remote()).difference(self.failures().to_set()),
            ),
    {
        let start: usize = self.ids.len() - self.tried;
        let failures = vstd::slice::slice_subrange(self.ids.as_slice(), start, self.ids.len());
        assert(failures@ =~= self.failures());
        registry.remove_connections(self.routes[self.place].as_str(), failures);
    }
}

/// The first route that is tried has a connection, and no route before it has.
pub proof fn law_first_route_with_a_connection_is_tried(
    registry: ConnectionRegistry,
    routes: Seq<Seq<char>>,
    from: nat,
)
    requires
        from <= routes.len(),
    ensures
        from <= next_place(registry, routes, from) <= routes.len(),
        next_place(registry, routes, from) < routes.len() ==> registry.ids(
            routes[next_place(registry, routes, from) as int],
        ) != Set::<u64>::empty(),
        forall|i: int|
            from <= i < next_place(registry, routes, from) ==> registry.ids(#[trigger] routes[i])
                == Set::<u64>::empty(),
    decreases routes.len() - from,
{
    if from < routes.len() && registry.ids(routes[from as int]) == Set::<u64>::empty() {
        law_first_route_with_a_connection_is_tried(registry, routes, from + 1);
    }
}

/// A client is on the routes once it was added, and no client is on them twice if none was before.
pub proof fn law_routes_hold_each_client_once(
    routes: Seq<Seq<char>>,
    remote: Seq<char>,
    reset: bool,
)
    requires
        routes.no_duplicates(),
    ensures
        routed(routes, remote, reset).no_duplicates(),
        routed(routes, remote, reset).contains(remote),
{
    let after = routed(routes, remote, reset);
    if reset {
        assert(after[0] == remote);
    } else if !routes.contains(remote) {
        assert(after[routes.len() as int] == remote);
    }
}

} // verus!
