//! A map from names to values that keeps its names in ascending order.

use crate::text::chars_of;
use vstd::prelude::*;

verus! {

/// Whether one name comes before another: they differ first in a character that is smaller, or
/// the name is a proper prefix of the other.
pub open spec fn name_before(left: Seq<char>, right: Seq<char>) -> bool
    decreases left.len(),
{
    if right.len() == 0 {
        false
    } else if left.len() == 0 {
        true
    } else if left[0] != right[0] {
        left[0] < right[0]
    } else {
        name_before(left.drop_first(), right.drop_first())
    }
}

/// No name comes before itself.
pub proof fn lemma_name_before_irreflexive(name: Seq<char>)
    ensures
        !name_before(name, name),
    decreases name.len(),
{
    if name.len() > 0 {
        lemma_name_before_irreflexive(name.drop_first());
    }
}

/// The order of names is transitive.
pub proof fn lemma_name_before_transitive(a: Seq<char>, b: Seq<char>, c: Seq<char>)
    requires
        name_before(a, b),
        name_before(b, c),
    ensures
        name_before(a, c),
    decreases a.len(),
{
    if a.len() > 0 && a[0] == b[0] && b[0] == c[0] {
        lemma_name_before_transitive(a.drop_first(), b.drop_first(), c.drop_first());
    }
}

/// Of two different names one comes before the other.
pub proof fn lemma_name_before_total(a: Seq<char>, b: Seq<char>)
    requires
        a != b,
    ensures
        name_before(a, b) || name_before(b, a),
    decreases a.len(),
{
    if a.len() == 0 {
        if b.len() == 0 {
            assert(a =~= b);
        }
    } else if b.len() > 0 && a[0] == b[0] {
        if a.drop_first() == b.drop_first() {
            assert(a =~= seq![a[0]] + a.drop_first());
            assert(b =~= seq![b[0]] + b.drop_first());
        }
        lemma_name_before_total(a.drop_first(), b.drop_first());
    }
}

/// Whether one name comes before another.
pub fn comes_before(left: &str, right: &str) -> (result: bool)
    ensures
        result == name_before(left@, right@),
{
    let a = chars_of(left);
    let b = chars_of(right);
    let mut i: usize = 0;
    assert(left@.skip(0) =~= left@);
    assert(right@.skip(0) =~= right@);
    while i < a.len() && i < b.len() && a[i] == b[i]
        invariant
            a@ == left@,
            b@ == right@,
            i <= a@.len(),
            i <= b@.len(),
            name_before(left@, right@) == name_before(left@.skip(i as int), right@.skip(i as int)),
        decreases a@.len() - i,
    {
        assert(left@.skip(i as int).drop_first() =~= left@.skip(i + 1));
        assert(right@.skip(i as int).drop_first() =~= right@.skip(i + 1));
        i += 1;
    }
    if i >= b.len() {
        false
    } else if i >= a.len() {
        true
    } else {
        a[i] < b[i]
    }
}

/// Whether every name comes before those after it.
pub open spec fn names_ascend(names: Seq<Seq<char>>) -> bool {
    forall|i: int, j: int|
        0 <= i < j < names.len() ==> name_before(#[trigger] names[i], #[trigger] names[j])
}

/// The members of a finite set of names in ascending order.
pub open spec fn ascending_names(names: Set<Seq<char>>) -> Seq<Seq<char>> {
    choose|order: Seq<Seq<char>>| names_ascend(order) && order.to_set() == names
}

/// There is only one ascending order of the same names.
pub proof fn lemma_ascending_names_unique(left: Seq<Seq<char>>, right: Seq<Seq<char>>)
    requires
        names_ascend(left),
        names_ascend(right),
        left.to_set() == right.to_set(),
    ensures
        left == right,
    decreases left.len(),
{
    if left.len() == 0 {
        if right.len() > 0 {
            assert(right.to_set().contains(right[0]));
            assert(left.contains(right[0]));
        }
        assert(left =~= right);
    } else {
        assert(left.to_set().contains(left.last()));
        assert(right.contains(left.last()));
        assert(right.to_set().contains(right.last()));
        assert(left.contains(right.last()));
        let p = choose|i: int| 0 <= i < right.len() && right[i] == left.last();
        let q = choose|i: int| 0 <= i < left.len() && left[i] == right.last();
        if left.last() != right.last() {
            assert(name_before(right[p], right[right.len() - 1]));
            assert(name_before(left[q], left[left.len() - 1]));
            lemma_name_before_transitive(left.last(), right.last(), left.last());
            lemma_name_before_irreflexive(left.last());
        }
        let l = left.drop_last();
        let r = right.drop_last();
        assert forall|k: Seq<char>| l.to_set().contains(k) == r.to_set().contains(k) by {
            lemma_name_before_irreflexive(left.last());
            if l.contains(k) {
                let i = choose|i: int| 0 <= i < l.len() && l[i] == k;
                assert(left[i] == k && name_before(left[i], left[left.len() - 1]));
                assert(left.to_set().contains(k));
                assert(right.contains(k));
                let j = choose|j: int| 0 <= j < right.len() && right[j] == k;
                assert(r[j] == k);
            }
            if r.contains(k) {
                let i = choose|i: int| 0 <= i < r.len() && r[i] == k;
                assert(right[i] == k && name_before(right[i], right[right.len() - 1]));
                assert(right.to_set().contains(k));
                assert(left.contains(k));
                let j = choose|j: int| 0 <= j < left.len() && left[j] == k;
                assert(l[j] == k);
            }
        }
        assert(l.to_set() =~= r.to_set());
        lemma_ascending_names_unique(l, r);
        assert(left =~= l.push(left.last()));
        assert(right =~= r.push(right.last()));
    }
}

/// An ascending list of names is the ascending order of its members.
pub proof fn lemma_is_ascending_name_order(order: Seq<Seq<char>>)
    requires
        names_ascend(order),
    ensures
        ascending_names(order.to_set()) == order,
{
    lemma_ascending_names_unique(ascending_names(order.to_set()), order);
}

/// Values by name, in the ascending order of the names.
#[derive(Debug)]
pub struct NameMap<V> {
    entries: Vec<(String, V)>,
}

impl<V> NameMap<V> {
    /// The names in the map, in order.
    pub closed spec fn names(self) -> Seq<Seq<char>> {
        self.entries@.map_values(|entry: (String, V)| entry.0@)
    }

    /// The values in the map, in the order of their names.
    pub closed spec fn values(self) -> Seq<V> {
        self.entries@.map_values(|entry: (String, V)| entry.1)
    }

    /// The names are in ascending order, so each is there once.
    pub open spec fn well_formed(self) -> bool {
        names_ascend(self.names())
    }

    /// The value of each name.
    pub open spec fn map(self) -> Map<Seq<char>, V> {
        Map::new(
            |name: Seq<char>| self.names().contains(name),
            |name: Seq<char>| self.values()[self.names().index_of(name)],
        )
    }
}

impl<V> View for NameMap<V> {
    type V = Map<Seq<char>, V>;

    open spec fn view(&self) -> Map<Seq<char>, V> {
        self.map()
    }
}

impl<V> NameMap<V> {
    /// Each name has the value at its own place.
    pub proof fn lemma_entry(self, i: int)
        requires
            self.well_formed(),
            0 <= i < self.names().len(),
        ensures
            self.values().len() == self.names().len(),
            self@.contains_key(self.names()[i]),
            self@[self.names()[i]] == self.values()[i],
    {
        let name = self.names()[i];
        assert(self.names().contains(name));
        let j = self.names().index_of(name);
        assert(0 <= j < self.names().len() && self.names()[j] == name);
        if i != j {
            lemma_name_before_irreflexive(name);
            if i < j {
                assert(name_before(self.names()[i], self.names()[j]));
            } else {
                assert(name_before(self.names()[j], self.names()[i]));
            }
        }
    }

    /// The names are those of the map, in ascending order.
    pub proof fn lemma_names(self)
        requires
            self.well_formed(),
        ensures
            self.names().to_set() == self@.dom(),
            self.names() == ascending_names(self@.dom()),
            self.values().len() == self.names().len(),
            self@.dom().finite(),
            self@.dom().len() == self.names().len(),
    {
        assert(self.names().to_set() =~= self@.dom());
        lemma_is_ascending_name_order(self.names());
        assert(self.names().no_duplicates()) by {
            assert forall|i: int, j: int|
                0 <= i < self.names().len() && 0 <= j < self.names().len() && i
                    != j implies self.names()[i] != self.names()[j] by {
                lemma_name_before_irreflexive(self.names()[i]);
                if i < j {
                    assert(name_before(self.names()[i], self.names()[j]));
                } else {
                    assert(name_before(self.names()[j], self.names()[i]));
                }
            }
        }
        self.names().unique_seq_to_set();
    }

    pub fn new() -> (map: NameMap<V>)
        ensures
            map.well_formed(),
            map@ == Map::<Seq<char>, V>::empty(),
    {
        let map = NameMap { entries: Vec::new() };
        assert(map@ =~= Map::<Seq<char>, V>::empty());
        map
    }

    pub fn len(&self) -> (count: usize)
        requires
            self.well_formed(),
        ensures
            count == self.names().len(),
            count == self@.dom().len(),
    {
        proof {
            self.lemma_names();
        }
        self.entries.len()
    }

    pub fn name_at(&self, index: usize) -> (name: &String)
        requires
            index < self.names().len(),
        ensures
            name@ == self.names()[index as int],
    {
        &self.entries[index].0
    }

    pub fn value_at(&self, index: usize) -> (value: &V)
        requires
            index < self.names().len(),
        ensures
            *value == self.values()[index as int],
    {
        &self.entries[index].1
    }

    /// The place of the first name that does not come before the given one.
    fn position(&self, name: &str) -> (index: usize)
        requires
            self.well_formed(),
        ensures
            index <= self.names().len(),
            forall|i: int| 0 <= i < index ==> name_before(#[trigger] self.names()[i], name@),
            index < self.names().len() ==> !name_before(self.names()[index as int], name@),
    {
        let mut index: usize = 0;
        while index < self.entries.len()
            invariant
                index <= self.entries@.len(),
                forall|i: int| 0 <= i < index ==> name_before(#[trigger] self.names()[i], name@),
            decreases self.entries@.len() - index,
        {
            if !comes_before(self.entries[index].0.as_str(), name) {
                return index;
            }
            index += 1;
        }
        index
    }

    /// The place of a name, if it is in the map.
    pub fn find(&self, name: &str) -> (result: Option<usize>)
        requires
            self.well_formed(),
        ensures
            match result {
                Some(index) => index < self.names().len() && self.names()[index as int] == name@
                    && self@.contains_key(name@) && self@[name@] == self.values()[index as int],
                None => !self@.contains_key(name@),
            },
    {
        let index = self.position(name);
        if index < self.entries.len() && !comes_before(name, self.entries[index].0.as_str()) {
            proof {
                if self.names()[index as int] != name@ {
                    lemma_name_before_total(self.names()[index as int], name@);
                }
                self.lemma_entry(index as int);
            }
            Some(index)
        } else {
            proof {
                if self.names().contains(name@) {
                    let i = choose|i: int| 0 <= i < self.names().len() && self.names()[i] == name@;
                    lemma_name_before_irreflexive(name@);
                    assert(i >= index);
                    if i > index {
                        assert(name_before(self.names()[index as int], self.names()[i]));
                    }
                }
            }
            None
        }
    }

    pub fn get(&self, name: &str) -> (result: Option<&V>)
        requires
            self.well_formed(),
        ensures
            match result {
                Some(value) => self@.contains_key(name@) && *value == self@[name@],
                None => !self@.contains_key(name@),
            },
    {
        match self.find(name) {
            Some(index) => Some(&self.entries[index].1),
            None => None,
        }
    }

    pub fn contains_key(&self, name: &str) -> (result: bool)
        requires
            self.well_formed(),
        ensures
            result == self@.contains_key(name@),
    {
        self.find(name).is_some()
    }

    /// Takes a name and its value out of the map.
    pub fn remove(&mut self, name: &str) -> (result: Option<V>)
        requires
            old(self).well_formed(),
        ensures
            final(self).well_formed(),
            final(self)@ == old(self)@.remove(name@),
            match result {
                Some(value) => old(self)@.contains_key(name@) && value == old(self)@[name@],
                None => !old(self)@.contains_key(name@),
            },
    {
        match self.find(name) {
            Some(index) => {
                let ghost before = *self;
                let (_, value) = self.entries.remove(index);
                proof {
                    before.lemma_names();
                    let names = self.names();
                    assert(names =~= before.names().remove(index as int));
                    assert(self.values() =~= before.values().remove(index as int));
                    assert(self.well_formed());
                    assert(before.names().no_duplicates()) by {
                        assert forall|i: int, j: int|
                            0 <= i < before.names().len() && 0 <= j < before.names().len() && i
                                != j implies before.names()[i] != before.names()[j] by {
                            lemma_name_before_irreflexive(before.names()[i]);
                            if i < j {
                                assert(name_before(before.names()[i], before.names()[j]));
                            } else {
                                assert(name_before(before.names()[j], before.names()[i]));
                            }
                        }
                    }
                    assert forall|k: Seq<char>|
                        #![trigger self@.contains_key(k)]
                        self@.contains_key(k) == (before@.contains_key(k) && k != name@) by {
                        if self@.contains_key(k) {
                            let i = choose|i: int| 0 <= i < names.len() && names[i] == k;
                            let j = if i < index {
                                i
                            } else {
                                i + 1
                            };
                            assert(before.names()[j] == k);
                        }
                        if before@.contains_key(k) && k != name@ {
                            let j = choose|j: int|
                                0 <= j < before.names().len() && before.names()[j] == k;
                            let i = if j < index {
                                j
                            } else {
                                j - 1
                            };
                            assert(names[i] == k);
                        }
                    }
                    assert forall|k: Seq<char>| #[trigger]
                        self@.contains_key(k) implies self@[k] == before@[k] by {
                        let i = choose|i: int| 0 <= i < names.len() && names[i] == k;
                        let j = if i < index {
                            i
                        } else {
                            i + 1
                        };
                        self.lemma_entry(i);
                        before.lemma_entry(j);
                    }
                    assert(self@ =~= before@.remove(name@));
                }
                Some(value)
            },
            None => {
                assert(old(self)@.remove(name@) =~= old(self)@);
                None
            },
        }
    }

    /// Gives a name a value, in place of the one it had.
    pub fn insert(&mut self, name: String, value: V)
        requires
            old(self).well_formed(),
        ensures
            final(self).well_formed(),
            final(self)@ == old(self)@.insert(name@, value),
    {
        let _ = self.remove(name.as_str());
        let ghost before = *self;
        let index = self.position(name.as_str());
        let ghost text = name@;
        self.entries.insert(index, (name, value));
        proof {
            let names = self.names();
            before.lemma_names();
            assert(names =~= before.names().insert(index as int, text));
            assert(self.values() =~= before.values().insert(index as int, value));
            assert forall|i: int| index <= i < before.names().len() implies name_before(
                text,
                #[trigger] before.names()[i],
            ) by {
                assert(before@.contains_key(before.names()[i])) by {
                    before.lemma_entry(i);
                }
                assert(before.names()[i] != text);
                lemma_name_before_total(before.names()[i], text);
                if i > index {
                    assert(name_before(before.names()[index as int], before.names()[i]));
                    if name_before(before.names()[i], text) {
                        lemma_name_before_transitive(
                            before.names()[index as int],
                            before.names()[i],
                            text,
                        );
                    }
                }
            }
            assert(self.well_formed()) by {
                assert forall|i: int, j: int| 0 <= i < j < names.len() implies name_before(
                    #[trigger] names[i],
                    #[trigger] names[j],
                ) by {
                    let p = if i < index {
                        i
                    } else {
                        i - 1
                    };
                    let q = if j < index {
                        j
                    } else {
                        j - 1
                    };
                    if i != index && j != index {
                        assert(name_before(before.names()[p], before.names()[q]));
                    } else if i == index {
                        assert(name_before(text, before.names()[q]));
                    } else {
                        assert(name_before(before.names()[p], text));
                    }
                }
            }
            assert forall|k: Seq<char>|
                #![trigger self@.contains_key(k)]
                self@.contains_key(k) == (before@.contains_key(k) || k == text) by {
                if self@.contains_key(k) {
                    let i = choose|i: int| 0 <= i < names.len() && names[i] == k;
                    if i < index {
                        assert(before.names()[i] == k);
                    } else if i > index {
                        assert(before.names()[i - 1] == k);
                    }
                }
                if k == text {
                    assert(names[index as int] == k);
                } else if before@.contains_key(k) {
                    let j = choose|j: int| 0 <= j < before.names().len() && before.names()[j] == k;
                    if j < index {
                        assert(names[j] == k);
                    } else {
                        assert(names[j + 1] == k);
                    }
                }
            }
            assert forall|k: Seq<char>| #[trigger] self@.contains_key(k) implies self@[k]
                == before@.insert(text, value)[k] by {
                let i = choose|i: int| 0 <= i < names.len() && names[i] == k;
                self.lemma_entry(i);
                if i < index {
                    before.lemma_entry(i);
                } else if i > index {
                    before.lemma_entry(i - 1);
                }
            }
            assert(self@ =~= before@.insert(text, value));
            assert(self@ =~= old(self)@.insert(text, value));
        }
    }

    /// The names in the map, in ascending order.
    pub fn name_list(&self) -> (list: Vec<String>)
        requires
            self.well_formed(),
        ensures
            crate::text::texts(list@) == ascending_names(self@.dom()),
    {
        let mut list: Vec<String> = Vec::new();
        for i in 0..self.entries.len()
            invariant
                list@.len() == i,
                forall|j: int| 0 <= j < i ==> (#[trigger] list@[j])@ == self.names()[j],
        {
            list.push(self.entries[i].0.clone());
        }
        proof {
            self.lemma_names();
            assert(crate::text::texts(list@) =~= self.names());
        }
        list
    }
}

} // verus!
