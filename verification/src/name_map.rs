//! A map from names to values that remembers the order in which the names
//! were first inserted.
use vstd::prelude::*;

verus! {

/// A map from names to values; each name occurs once, and the names keep the
/// order of their first insertion.
pub struct NameMap<V> {
    entries: Vec<(String, V)>,
    map: Ghost<Map<Seq<char>, V>>,
}

impl<V> View for NameMap<V> {
    type V = Map<Seq<char>, V>;

    closed spec fn view(&self) -> Map<Seq<char>, V> {
        self.map@
    }
}

/// The entries hold each name once, and hold exactly the pairs of `map`.
spec fn entries_match<V>(entries: Seq<(String, V)>, map: Map<Seq<char>, V>) -> bool {
    &&& forall|i: int, j: int|
        0 <= i < entries.len() && 0 <= j < entries.len() && i != j ==> entries[i].0@
            != entries[j].0@
    &&& forall|k: Seq<char>| #[trigger]
        map.dom().contains(k) <==> exists|i: int| 0 <= i < entries.len() && entries[i].0@ == k
    &&& forall|i: int| 0 <= i < entries.len() ==> #[trigger] map[entries[i].0@] == entries[i].1
}

impl<V> NameMap<V> {
    /// The names of the map, in the order of their first insertion.
    pub closed spec fn names(&self) -> Seq<Seq<char>> {
        self.entries@.map_values(|e: (String, V)| e.0@)
    }

    /// The facts that hold of every map: no name twice, and the names are
    /// exactly the keys of the view.
    pub open spec fn well_formed(&self) -> bool {
        &&& self.names().no_duplicates()
        &&& self@.dom() == self.names().to_set()
        &&& self@.dom().finite()
    }

    #[verifier::type_invariant]
    spec fn inv(self) -> bool {
        entries_match(self.entries@, self.map@)
    }

    proof fn lemma_well_formed(&self)
        requires
            self.inv(),
        ensures
            self.well_formed(),
    {
        let names = self.names();
        assert forall|i: int, j: int|
            0 <= i < names.len() && 0 <= j < names.len() && i != j implies names[i] != names[j] by {
            assert(names[i] == self.entries@[i].0@);
            assert(names[j] == self.entries@[j].0@);
        }
        assert forall|k: Seq<char>| self@.dom().contains(k) <==> names.to_set().contains(k) by {
            if self@.dom().contains(k) {
                let i = choose|i: int| 0 <= i < self.entries@.len() && self.entries@[i].0@ == k;
                assert(names[i] == k);
            }
            if names.contains(k) {
                let i = choose|i: int| 0 <= i < names.len() && names[i] == k;
                assert(self.entries@[i].0@ == k);
            }
        }
        assert(self@.dom() =~= names.to_set());
        names.lemma_cardinality_of_set();
        vstd::seq_lib::seq_to_set_is_finite(names);
    }

    /// An empty map.
    pub fn new() -> (res: Self)
        ensures
            res@ == Map::<Seq<char>, V>::empty(),
            res.names() == Seq::<Seq<char>>::empty(),
            res.well_formed(),
    {
        let res = NameMap { entries: Vec::new(), map: Ghost(Map::empty()) };
        proof {
            assert(res.names() =~= Seq::<Seq<char>>::empty());
            assert(res@.dom() =~= res.names().to_set());
        }
        res
    }

    /// The number of names.
    pub fn len(&self) -> (res: usize)
        ensures
            res == self.names().len(),
            self.well_formed(),
    {
        proof {
            use_type_invariant(self);
            self.lemma_well_formed();
        }
        self.entries.len()
    }

    /// The position of `key` among the names, if it is one.
    fn position(&self, key: &String) -> (res: Option<usize>)
        ensures
            match res {
                Some(i) => i < self.names().len() && self.names()[i as int] == key@,
                None => !self@.dom().contains(key@),
            },
            self.well_formed(),
    {
        proof {
            use_type_invariant(self);
            self.lemma_well_formed();
        }
        let mut i: usize = 0;
        while i < self.entries.len()
            invariant
                self.inv(),
                self.well_formed(),
                i <= self.entries@.len(),
                forall|j: int| 0 <= j < i ==> self.entries@[j].0@ != key@,
            decreases self.entries@.len() - i,
        {
            if self.entries[i].0 == *key {
                return Some(i);
            }
            i = i + 1;
        }
        None
    }

    /// Whether `key` is one of the names.
    pub fn contains_key(&self, key: &String) -> (res: bool)
        ensures
            res == self@.dom().contains(key@),
            self.well_formed(),
    {
        self.position(key).is_some()
    }

    /// The value of `key`, if it is one of the names.
    pub fn get(&self, key: &String) -> (res: Option<&V>)
        ensures
            match res {
                Some(v) => self@.dom().contains(key@) && *v == self@[key@],
                None => !self@.dom().contains(key@),
            },
            self.well_formed(),
    {
        proof {
            use_type_invariant(self);
        }
        match self.position(key) {
            Some(i) => Some(&self.entries[i].1),
            None => None,
        }
    }

    /// The name at position `i`.
    pub fn name_at(&self, i: usize) -> (res: &String)
        requires
            i < self.names().len(),
        ensures
            res@ == self.names()[i as int],
            self.well_formed(),
    {
        proof {
            use_type_invariant(self);
            self.lemma_well_formed();
        }
        &self.entries[i].0
    }

    /// The value of the name at position `i`.
    pub fn value_at(&self, i: usize) -> (res: &V)
        requires
            i < self.names().len(),
        ensures
            *res == self@[self.names()[i as int]],
            self.well_formed(),
    {
        proof {
            use_type_invariant(self);
            self.lemma_well_formed();
        }
        &self.entries[i].1
    }

    /// Maps `key` to `value`: a new name goes last, a known one keeps its place.
    pub fn insert(&mut self, key: String, value: V)
        ensures
            final(self)@ == old(self)@.insert(key@, value),
            old(self)@.dom().contains(key@) ==> final(self).names() == old(self).names(),
            !old(self)@.dom().contains(key@) ==> final(self).names() == old(self).names().push(
                key@,
            ),
            final(self).well_formed(),
    {
        proof {
            use_type_invariant(&*self);
        }
        let ghost old_entries = self.entries@;
        let ghost new_map = self.map@.insert(key@, value);
        let pos = self.position(&key);
        let mut taken = NameMap::new();
        std::mem::swap(self, &mut taken);
        let NameMap { entries: mut entries, map: _ } = taken;
        match pos {
            Some(i) => {
                entries.set(i, (key, value));
            },
            None => {
                entries.push((key, value));
            },
        }
        let ghost ne = entries@;
        proof {
            assert forall|i: int, j: int|
                0 <= i < ne.len() && 0 <= j < ne.len() && i != j implies ne[i].0@ != ne[j].0@ by {
                if pos is None {
                    if i < old_entries.len() && j < old_entries.len() {
                    } else if i == old_entries.len() {
                        assert(old_entries[j].0@ == ne[j].0@);
                    } else {
                        assert(old_entries[i].0@ == ne[i].0@);
                    }
                } else {
                    let p = pos->0 as int;
                    if i == p {
                        assert(old_entries[p].0@ == ne[p].0@);
                    } else if j == p {
                        assert(old_entries[p].0@ == ne[p].0@);
                    }
                }
            }
            assert forall|k: Seq<char>| #[trigger]
                new_map.dom().contains(k) <==> exists|i: int|
                    0 <= i < ne.len() && ne[i].0@ == k by {
                if new_map.dom().contains(k) {
                    if k == key@ {
                        if pos is None {
                            assert(ne[old_entries.len() as int].0@ == k);
                        } else {
                            assert(ne[pos->0 as int].0@ == k);
                        }
                    } else {
                        let i = choose|i: int|
                            0 <= i < old_entries.len() && old_entries[i].0@ == k;
                        assert(ne[i].0@ == k);
                    }
                }
                if exists|i: int| 0 <= i < ne.len() && ne[i].0@ == k {
                    let i = choose|i: int| 0 <= i < ne.len() && ne[i].0@ == k;
                    if i < old_entries.len() && k != key@ {
                        assert(old_entries[i].0@ == k);
                    }
                }
            }
            assert forall|i: int| 0 <= i < ne.len() implies #[trigger] new_map[ne[i].0@]
                == ne[i].1 by {
                if ne[i].0@ != key@ {
                    assert(old_entries[i] == ne[i]);
                }
            }
        }
        assert(entries_match(entries@, new_map));
        *self = NameMap { entries, map: Ghost(new_map) };
        proof {
            use_type_invariant(&*self);
            self.lemma_well_formed();
            if pos is None {
                assert(self.names() =~= old(self).names().push(key@));
            } else {
                assert(self.names() =~= old(self).names());
            }
        }
    }
}

} // verus!
