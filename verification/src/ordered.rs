//! Maps with numeric keys: their keys in ascending order, and the eviction of the keys that were
//! entered first.

use std::collections::{BTreeMap, VecDeque};
use vstd::prelude::*;

verus! {

/// Whether every number is smaller than those after it.
pub open spec fn is_ascending(keys: Seq<u64>) -> bool {
    forall|i: int, j: int| 0 <= i < j < keys.len() ==> #[trigger] keys[i] < #[trigger] keys[j]
}

/// The members of a finite set of numbers in ascending order.
pub open spec fn ascending(keys: Set<u64>) -> Seq<u64> {
    choose|order: Seq<u64>| is_ascending(order) && order.to_set() == keys
}

/// There is only one ascending order of the same numbers.
pub proof fn lemma_ascending_unique(left: Seq<u64>, right: Seq<u64>)
    requires
        is_ascending(left),
        is_ascending(right),
        left.to_set() == right.to_set(),
    ensures
        left == right,
    decreases left.len(),
{
    if left.len() == 0 {
        if right.len() > 0 {
            assert(right.to_set().contains(right[0]));
            assert(left.contains(right[0]));
        }
        assert(left =~= right);
    } else {
        assert(left.to_set().contains(left.last()));
        assert(right.contains(left.last()));
        assert(right.to_set().contains(right.last()));
        assert(left.contains(right.last()));
        assert(left.last() == right.last());
        let l = left.drop_last();
        let r = right.drop_last();
        assert forall|k: u64| l.to_set().contains(k) == r.to_set().contains(k) by {
            if l.contains(k) {
                let i = choose|i: int| 0 <= i < l.len() && l[i] == k;
                assert(left[i] == k && left[i] < left[left.len() - 1]);
                assert(left.to_set().contains(k));
                assert(right.contains(k));
                let j = choose|j: int| 0 <= j < right.len() && right[j] == k;
                assert(r[j] == k);
            }
            if r.contains(k) {
                let i = choose|i: int| 0 <= i < r.len() && r[i] == k;
                assert(right[i] == k && right[i] < right[right.len() - 1]);
                assert(right.to_set().contains(k));
                assert(left.contains(k));
                let j = choose|j: int| 0 <= j < left.len() && left[j] == k;
                assert(l[j] == k);
            }
        }
        assert(l.to_set() =~= r.to_set());
        lemma_ascending_unique(l, r);
        assert(left =~= l.push(left.last()));
        assert(right =~= r.push(right.last()));
    }
}

/// An ascending sequence is the ascending order of its members.
pub proof fn lemma_is_ascending_order(order: Seq<u64>)
    requires
        is_ascending(order),
    ensures
        ascending(order.to_set()) == order,
{
    lemma_ascending_unique(ascending(order.to_set()), order);
}

/// A finite set of numbers has an ascending order.
pub proof fn lemma_ascending_exists(keys: Set<u64>)
    requires
        keys.finite(),
    ensures
        is_ascending(ascending(keys)),
        ascending(keys).to_set() == keys,
    decreases keys.len(),
{
    if keys.len() == 0 {
        assert(keys =~= Set::empty());
        let order = Seq::<u64>::empty();
        assert(order.to_set() =~= keys);
        assert(is_ascending(order) && order.to_set() == keys);
    } else {
        let top = lemma_greatest(keys);
        let rest = keys.remove(top);
        lemma_ascending_exists(rest);
        let lower = ascending(rest);
        let order = lower.push(top);
        assert forall|i: int, j: int| 0 <= i < j < order.len() implies #[trigger] order[i]
            < #[trigger] order[j] by {
            assert(lower.contains(lower[i]));
            assert(rest.contains(lower[i]));
        }
        assert forall|k: u64| order.to_set().contains(k) == keys.contains(k) by {
            if k == top {
                assert(order[lower.len() as int] == k);
            } else if keys.contains(k) {
                assert(lower.to_set().contains(k));
                let i = choose|i: int| 0 <= i < lower.len() && lower[i] == k;
                assert(order[i] == k);
            } else if order.contains(k) {
                let i = choose|i: int| 0 <= i < order.len() && order[i] == k;
                assert(lower[i] == k);
                assert(lower.to_set().contains(k));
            }
        }
        assert(order.to_set() =~= keys);
        assert(is_ascending(order) && order.to_set() == keys);
    }
}

/// A finite set of numbers that is not empty has a greatest member.
proof fn lemma_greatest(keys: Set<u64>) -> (top: u64)
    requires
        keys.finite(),
        keys.len() > 0,
    ensures
        keys.contains(top),
        forall|k: u64| #[trigger] keys.contains(k) ==> k <= top,
    decreases keys.len(),
{
    let first = keys.choose();
    let rest = keys.remove(first);
    if rest.len() == 0 {
        assert forall|k: u64| #[trigger] keys.contains(k) implies k <= first by {
            if k != first {
                assert(rest.contains(k));
                assert(rest =~= Set::empty());
            }
        }
        first
    } else {
        let top = lemma_greatest(rest);
        assert forall|k: u64| #[trigger] keys.contains(k) && k != first implies k <= top by {
            assert(rest.contains(k));
        }
        if top >= first {
            top
        } else {
            first
        }
    }
}

/// There are no more numbers in a set than it has room for.
pub proof fn lemma_bounded_set(keys: Set<u64>, greatest: u64)
    requires
        keys.finite(),
        forall|k: u64| #[trigger] keys.contains(k) ==> k <= greatest,
    ensures
        keys.len() <= greatest + 1,
    decreases greatest,
{
    let rest = keys.remove(greatest);
    if greatest == 0 {
        assert(rest =~= Set::empty());
    } else {
        lemma_bounded_set(rest, (greatest - 1) as u64);
    }
    if keys.contains(greatest) {
        assert(keys.len() == rest.len() + 1);
    } else {
        assert(keys =~= rest);
    }
}

/// What the order of a tree map's entries says of its numeric keys.
proof fn lemma_increasing_is_ascending(order: Seq<u64>)
    requires
        vstd::std_specs::btree::increasing_seq(order),
    ensures
        is_ascending(order),
{
    broadcast use vstd::laws_cmp::group_laws_cmp;
    broadcast use vstd::std_specs::btree::group_btree_axioms;

    assert forall|i: int, j: int| 0 <= i < j < order.len() implies #[trigger] order[i]
        < #[trigger] order[j] by {
        assert(vstd::std_specs::cmp::OrdSpec::cmp_spec(&order[i], &order[j]) is Less);
    }
}

/// The keys of a tree map in ascending order.
fn sorted_keys<V>(map: &BTreeMap<u64, V>) -> (keys: Vec<u64>)
    ensures
        keys@ == ascending(map@.dom()),
        is_ascending(keys@),
        keys@.to_set() == map@.dom(),
        keys@.len() == map@.dom().len(),
{
    let entries = map.iter();
    let ghost order = vstd::std_specs::iter::IteratorSpec::remaining(&entries).map_values(
        |entry: (&u64, &V)| *entry.0,
    );
    proof {
        lemma_increasing_is_ascending(order);
        assert(order.to_set() =~= map@.dom()) by {
            let listed = vstd::std_specs::iter::IteratorSpec::remaining(&entries);
            assert forall|k: u64| order.to_set().contains(k) == map@.dom().contains(k) by {
                if map@.contains_key(k) {
                    assert(listed.contains((&k, &map@[k])));
                    let i = choose|i: int| 0 <= i < listed.len() && listed[i] == (&k, &map@[k]);
                    assert(order[i] == k);
                }
                if order.contains(k) {
                    let i = choose|i: int| 0 <= i < order.len() && order[i] == k;
                    assert(map@.contains_key(*listed[i].0));
                }
            }
        }
        lemma_is_ascending_order(order);
    }
    let mut keys: Vec<u64> = Vec::new();
    for entry in it: entries
        invariant
            it.seq().map_values(|entry: (&u64, &V)| *entry.0) == order,
            keys@ == order.take(it.index() as int),
    {
        keys.push(*entry.0);
        assert(keys@ =~= order.take(it.index() + 1));
    }
    assert(keys@ =~= order);
    keys
}

/// A map from numbers to values. Its view has the views of the values.
pub struct NumberMap<V> {
    entries: BTreeMap<u64, V>,
}

impl<V: View> View for NumberMap<V> {
    type V = Map<u64, V::V>;

    closed spec fn view(&self) -> Map<u64, V::V> {
        self.entries@.map_values(|value: V| value@)
    }
}

impl<V: View> NumberMap<V> {
    pub fn new() -> (map: NumberMap<V>)
        ensures
            map@ == Map::<u64, V::V>::empty(),
    {
        let map = NumberMap { entries: BTreeMap::new() };
        assert(map@ =~= Map::<u64, V::V>::empty());
        map
    }

    /// A map holds finitely many keys.
    pub proof fn lemma_finite(&self)
        ensures
            self@.dom().finite(),
    {
        broadcast use vstd::std_specs::btree::group_btree_axioms;

        assert(self@.dom() =~= self.entries@.dom());
        assert(self.entries@.dom().finite());
    }

    pub fn len(&self) -> (count: usize)
        ensures
            count == self@.dom().len(),
            self@.dom().finite(),
    {
        broadcast use vstd::std_specs::btree::group_btree_axioms;

        proof {
            self.lemma_finite();
            assert(self@.dom() =~= self.entries@.dom());
        }
        self.entries.len()
    }

    pub fn is_empty(&self) -> (empty: bool)
        ensures
            empty == (self@.dom() == Set::<u64>::empty()),
    {
        broadcast use vstd::std_specs::btree::group_btree_axioms;

        assert(self@.dom() =~= self.entries@.dom());
        self.entries.is_empty()
    }

    pub fn contains_key(&self, key: u64) -> (found: bool)
        ensures
            found == self@.contains_key(key),
    {
        broadcast use vstd::std_specs::btree::group_btree_axioms;

        self.entries.contains_key(&key)
    }

    pub fn get(&self, key: u64) -> (value: Option<&V>)
        ensures
            value is Some <==> self@.contains_key(key),
            value matches Some(found) ==> found@ == self@[key],
    {
        broadcast use vstd::std_specs::btree::group_btree_axioms;

        self.entries.get(&key)
    }

    pub fn insert(&mut self, key: u64, value: V)
        ensures
            final(self)@ == old(self)@.insert(key, value@),
    {
        broadcast use vstd::std_specs::btree::group_btree_axioms;

        self.entries.insert(key, value);
        assert(self@ =~= old(self)@.insert(key, value@));
    }

    pub fn remove(&mut self, key: u64) -> (value: Option<V>)
        ensures
            final(self)@ == old(self)@.remove(key),
            value is Some <==> old(self)@.contains_key(key),
            value matches Some(found) ==> found@ == old(self)@[key],
    {
        broadcast use vstd::std_specs::btree::group_btree_axioms;

        let value = self.entries.remove(&key);
        assert(self@ =~= old(self)@.remove(key));
        value
    }

    pub fn clear(&mut self)
        ensures
            final(self)@ == Map::<u64, V::V>::empty(),
    {
        self.entries.clear();
        assert(self@ =~= Map::<u64, V::V>::empty());
    }

    /// The keys in ascending order.
    pub fn keys(&self) -> (keys: Vec<u64>)
        ensures
            keys@ == ascending(self@.dom()),
            is_ascending(keys@),
            keys@.to_set() == self@.dom(),
            keys@.len() == self@.dom().len(),
            self@.dom().finite(),
    {
        proof {
            self.lemma_finite();
            assert(self@.dom() =~= self.entries@.dom());
        }
        sorted_keys(&self.entries)
    }
}

/// The map, and the order in which its keys were entered, once keys have been dropped from the
/// front of the order until no more than `limit` remain or the order is used up. A key that the
/// map no longer holds is dropped from the order in passing.
pub open spec fn evicted<K, V>(map: Map<K, V>, order: Seq<K>, limit: nat) -> (Map<K, V>, Seq<K>)
    decreases order.len(),
{
    if map.dom().len() > limit && order.len() > 0 {
        evicted(map.remove(order[0]), order.drop_first(), limit)
    } else {
        (map, order)
    }
}

/// Eviction keeps entries as they are and adds none.
pub proof fn lemma_evicted_is_smaller<K, V>(map: Map<K, V>, order: Seq<K>, limit: nat)
    ensures
        forall|key: K| #[trigger]
            evicted(map, order, limit).0.contains_key(key) ==> map.contains_key(key) && evicted(
                map,
                order,
                limit,
            ).0[key] == map[key],
    decreases order.len(),
{
    if map.dom().len() > limit && order.len() > 0 {
        let rest = map.remove(order[0]);
        lemma_evicted_is_smaller(rest, order.drop_first(), limit);
        assert forall|key: K| #[trigger]
            evicted(map, order, limit).0.contains_key(key) implies map.contains_key(key) && evicted(
            map,
            order,
            limit,
        ).0[key] == map[key] by {
            assert(evicted(rest, order.drop_first(), limit).0.contains_key(key));
            assert(rest.contains_key(key));
        }
    }
}

/// Whether every key of a map is in the order in which keys were entered.
pub open spec fn is_listed<V>(map: Map<u64, V>, order: Seq<u64>) -> bool {
    &&& map.dom().finite()
    &&& forall|key: u64| #[trigger] map.contains_key(key) ==> order.contains(key)
}

/// Eviction from a map whose keys are all in the order leaves no more than `limit` keys, which are
/// in the order that is left.
pub proof fn lemma_evicted_is_bounded<V>(map: Map<u64, V>, order: Seq<u64>, limit: nat)
    requires
        is_listed(map, order),
    ensures
        is_listed(evicted(map, order, limit).0, evicted(map, order, limit).1),
        evicted(map, order, limit).0.dom().len() <= limit,
    decreases order.len(),
{
    if map.dom().len() > limit {
        if order.len() == 0 {
            assert(map.dom() =~= Set::empty());
        } else {
            let rest = map.remove(order[0]);
            assert forall|key: u64| #[trigger] rest.contains_key(key) implies order.drop_first().contains(
                key,
            ) by {
                assert(map.contains_key(key));
                let i = choose|i: int| 0 <= i < order.len() && order[i] == key;
                assert(order.drop_first()[i - 1] == key);
            }
            lemma_evicted_is_bounded(rest, order.drop_first(), limit);
        }
    }
}

/// Drops the keys that were entered first until no more than `limit` remain.
pub fn evict<V: View>(map: &mut NumberMap<V>, order: &mut VecDeque<u64>, limit: usize)
    ensures
        (final(map)@, final(order)@) == evicted(old(map)@, old(order)@, limit as nat),
{
    while map.len() > limit
        invariant
            evicted(old(map)@, old(order)@, limit as nat) == evicted(map@, order@, limit as nat),
        ensures
            (map@, order@) == evicted(old(map)@, old(order)@, limit as nat),
        decreases order@.len(),
    {
        match order.pop_front() {
            Some(key) => {
                map.remove(key);
            },
            None => {
                break;
            },
        }
    }
}

} // verus!
