//! A map from names to values that keeps its entries in ascending order of
//! names, so that lookup is a binary search and iteration is deterministic.

use crate::listing::{
    ascending, lemma_ascending_position, lemma_pairing, lemma_pairing_drop_last,
    lemma_pairing_insert, lemma_pairing_update, pairing,
};
use crate::names::{
    compare, lemma_precedes_asymmetric, lemma_precedes_total, lemma_precedes_transitive, precedes,
    Rank,
};
use vstd::prelude::*;

verus! {

/// A key carries the name under which it is stored and found.
pub trait Key: Clone {
    /// The name of the key.
    spec fn name(&self) -> Seq<char>;

    /// The name of the key, as a string slice.
    fn as_name(&self) -> (s: &str)
        ensures
            s@ == self.name(),
    ;

    /// A clone of a key has the key's name.
    proof fn lemma_clone_keeps_name(&self, copy: &Self)
        requires
            cloned(*self, *copy),
        ensures
            copy.name() == self.name(),
    ;
}

impl Key for String {
    open spec fn name(&self) -> Seq<char> {
        self@
    }

    fn as_name(&self) -> (s: &str) {
        self.as_str()
    }

    proof fn lemma_clone_keeps_name(&self, copy: &Self) {
    }
}

/// The names of a sequence of keys, position by position.
pub open spec fn names_of<K: Key>(keys: Seq<K>) -> Seq<Seq<char>> {
    Seq::new(keys.len(), |i: int| keys[i].name())
}

/// A map from names to values, held in ascending order of names.
#[derive(Debug)]
pub struct OrderedMap<K: Key, V> {
    keys: Vec<K>,
    values: Vec<V>,
}

impl<K: Key, V> View for OrderedMap<K, V> {
    type V = Map<Seq<char>, V>;

    open spec fn view(&self) -> Map<Seq<char>, V> {
        pairing(self.names(), self.value_seq())
    }
}

impl<K: Key, V: Clone> Clone for OrderedMap<K, V> {
    /// A map with the same names, each with a clone of its value.
    fn clone(&self) -> (copy: Self)
        ensures
            copy.names() == self.names(),
            copy.value_seq().len() == self.value_seq().len(),
            forall|i: int|
                0 <= i < self.value_seq().len() ==> cloned(
                    self.value_seq()[i],
                    #[trigger] copy.value_seq()[i],
                ),
            copy@.dom() == self@.dom(),
            forall|n: Seq<char>| self@.contains_key(n) ==> cloned(self@[n], #[trigger] copy@[n]),
    {
        proof {
            use_type_invariant(self);
        }
        let keys = self.keys.clone();
        let values = self.values.clone();
        proof {
            assert forall|i: int| 0 <= i < keys@.len() implies (#[trigger] keys@[i]).name()
                == self.keys@[i].name() by {
                self.keys@[i].lemma_clone_keeps_name(&keys@[i]);
            }
            assert(names_of(keys@) =~= self.names());
            lemma_pairing(self.names(), self.values@);
            lemma_pairing(self.names(), values@);
            assert forall|n: Seq<char>| self@.contains_key(n) implies cloned(
                self@[n],
                #[trigger] pairing(self.names(), values@)[n],
            ) by {
                let i = self.names().index_of(n);
                assert(self.names()[i] == n);
            }
        }
        OrderedMap { keys, values }
    }
}

impl<K: Key, V> OrderedMap<K, V> {
    /// The stored keys, in the order in which they are held.
    pub closed spec fn key_seq(&self) -> Seq<K> {
        self.keys@
    }

    /// The stored values, each at the position of its key.
    pub closed spec fn value_seq(&self) -> Seq<V> {
        self.values@
    }

    /// The names of the stored keys, in the order in which they are held.
    pub open spec fn names(&self) -> Seq<Seq<char>> {
        names_of(self.key_seq())
    }

    /// Every key has its value, and the names ascend.
    #[verifier::type_invariant]
    pub open spec fn well_formed(&self) -> bool {
        &&& self.key_seq().len() == self.value_seq().len()
        &&& ascending(self.names())
    }

    /// An empty map.
    pub fn new() -> (m: Self)
        ensures
            m@ == Map::<Seq<char>, V>::empty(),
            m.key_seq() == Seq::<K>::empty(),
            m.value_seq() == Seq::<V>::empty(),
    {
        let m = OrderedMap { keys: Vec::new(), values: Vec::new() };
        assert(m@ =~= Map::<Seq<char>, V>::empty());
        m
    }

    /// The number of entries.
    pub fn len(&self) -> (n: usize)
        ensures
            n == self.key_seq().len(),
            n == self.value_seq().len(),
            self.well_formed(),
    {
        proof {
            use_type_invariant(self);
        }
        self.keys.len()
    }

    /// A map without keys holds nothing.
    pub proof fn lemma_empty(&self)
        requires
            self.key_seq().len() == 0,
        ensures
            self@ == Map::<Seq<char>, V>::empty(),
    {
        assert(self@ =~= Map::<Seq<char>, V>::empty());
    }

    /// The key at a position.
    pub fn key_at(&self, i: usize) -> (k: &K)
        requires
            i < self.key_seq().len(),
        ensures
            *k == self.key_seq()[i as int],
    {
        &self.keys[i]
    }

    /// The value at a position.
    pub fn value_at(&self, i: usize) -> (v: &V)
        requires
            i < self.value_seq().len(),
        ensures
            *v == self.value_seq()[i as int],
    {
        &self.values[i]
    }

    /// Exclusive access to the value at a position. The keys stay as they
    /// are, whatever is written through the reference.
    pub fn value_mut_at(&mut self, i: usize) -> (v: &mut V)
        requires
            i < old(self).value_seq().len(),
        ensures
            *v == old(self).value_seq()[i as int],
            final(self).value_seq() == old(self).value_seq().update(i as int, *final(v)),
            final(self).key_seq() == old(self).key_seq(),
            final(self)@ == old(self)@.insert(old(self).names()[i as int], *final(v)),
    {
        proof {
            use_type_invariant(&*self);
        }
        let ghost names = self.names();
        let ghost before = self.value_seq();
        let v = &mut self.values[i];
        proof {
            lemma_pairing_update(names, before, i as int, *final(v));
        }
        v
    }

    /// Binary search for a name: where it is, or where it would be inserted.
    fn search(&self, name: &str) -> (r: (bool, usize))
        ensures
            self.well_formed(),
            r.1 <= self.names().len(),
            r.0 ==> r.1 < self.names().len() && self.names()[r.1 as int] == name@,
            !r.0 ==> !self.names().contains(name@),
            !r.0 ==> forall|j: int| 0 <= j < r.1 ==> precedes(#[trigger] self.names()[j], name@),
            !r.0 ==> forall|j: int|
                r.1 <= j < self.names().len() ==> precedes(name@, #[trigger] self.names()[j]),
    {
        proof {
            use_type_invariant(self);
        }
        let mut lo: usize = 0;
        let mut hi: usize = self.keys.len();
        while lo < hi
            invariant
                self.well_formed(),
                self.key_seq() == self.keys@,
                lo <= hi <= self.names().len(),
                forall|j: int| 0 <= j < lo ==> precedes(#[trigger] self.names()[j], name@),
                forall|j: int|
                    hi <= j < self.names().len() ==> precedes(name@, #[trigger] self.names()[j]),
            decreases hi - lo,
        {
            let mid: usize = lo + (hi - lo) / 2;
            let ghost at = self.names()[mid as int];
            match compare(self.keys[mid].as_name(), name) {
                Rank::Same => {
                    return (true, mid);
                },
                Rank::Before => {
                    assert forall|j: int| 0 <= j < mid + 1 implies precedes(
                        #[trigger] self.names()[j],
                        name@,
                    ) by {
                        if j < mid {
                            lemma_precedes_transitive(self.names()[j], at, name@);
                        }
                    }
                    lo = mid + 1;
                },
                Rank::After => {
                    proof {
                        lemma_precedes_total(at, name@);
                    }
                    assert forall|j: int| mid <= j < self.names().len() implies precedes(
                        name@,
                        #[trigger] self.names()[j],
                    ) by {
                        if mid < j {
                            lemma_precedes_transitive(name@, at, self.names()[j]);
                        }
                    }
                    hi = mid;
                },
            }
        }
        proof {
            if self.names().contains(name@) {
                let j = self.names().index_of(name@);
                lemma_precedes_asymmetric(name@, name@);
            }
        }
        (false, lo)
    }

    /// The position of a name, if it is held.
    pub fn position(&self, name: &str) -> (r: Option<usize>)
        ensures
            self.well_formed(),
            match r {
                Some(i) => i < self.names().len() && self.names()[i as int] == name@,
                None => !self@.contains_key(name@),
            },
    {
        let (found, i) = self.search(name);
        if found {
            Some(i)
        } else {
            None
        }
    }

    /// Whether a name is held.
    pub fn contains_key(&self, name: &str) -> (b: bool)
        ensures
            b == self@.contains_key(name@),
    {
        let (found, i) = self.search(name);
        proof {
            if found {
                lemma_ascending_position(self.names(), i as int);
            }
        }
        found
    }

    /// The value stored under a name.
    pub fn get(&self, name: &str) -> (r: Option<&V>)
        ensures
            match r {
                Some(v) => self@.contains_key(name@) && self@[name@] == *v,
                None => !self@.contains_key(name@),
            },
    {
        let (found, i) = self.search(name);
        if found {
            proof {
                lemma_pairing(self.names(), self.value_seq());
            }
            Some(&self.values[i])
        } else {
            None
        }
    }

    /// Exclusive access to the value stored under a name. The keys stay as
    /// they are, whatever is written through the reference.
    pub fn get_mut(&mut self, name: &str) -> (r: Option<&mut V>)
        ensures
            match r {
                Some(v) => {
                    &&& old(self)@.contains_key(name@)
                    &&& *v == old(self)@[name@]
                    &&& final(self)@ == old(self)@.insert(name@, *final(v))
                    &&& final(self).key_seq() == old(self).key_seq()
                },
                None => !old(self)@.contains_key(name@) && *final(self) == *old(self),
            },
    {
        let (found, i) = self.search(name);
        if found {
            let ghost names = self.names();
            let ghost before = self.value_seq();
            let v = &mut self.values[i];
            proof {
                lemma_pairing(names, before);
                lemma_pairing_update(names, before, i as int, *final(v));
            }
            Some(v)
        } else {
            None
        }
    }

    /// Stores a value under the key's name and returns what the name held
    /// before. Where the name is already held, its stored key stays and only
    /// the value is replaced.
    pub fn insert(&mut self, key: K, value: V) -> (r: Option<V>)
        ensures
            final(self)@ == old(self)@.insert(key.name(), value),
            r == if old(self)@.contains_key(key.name()) {
                Some(old(self)@[key.name()])
            } else {
                None::<V>
            },
            old(self)@.contains_key(key.name()) ==> final(self).key_seq() == old(self).key_seq(),
            !old(self)@.contains_key(key.name()) ==> exists|i: int|
                0 <= i <= old(self).key_seq().len() && final(self).key_seq() == old(
                    self,
                ).key_seq().insert(i, key) && final(self).value_seq() == old(
                    self,
                ).value_seq().insert(i, value),
    {
        let (found, i) = self.search(key.as_name());
        let ghost names = self.names();
        let ghost before = self.value_seq();
        if found {
            let mut value = value;
            let slot = &mut self.values[i];
            std::mem::swap(slot, &mut value);
            proof {
                lemma_pairing(names, before);
                lemma_pairing_update(names, before, i as int, *slot);
            }
            Some(value)
        } else {
            // Both vectors grow: the map is taken apart and put together again, so that
            // it is whole whenever it can be seen.
            let mut taken = OrderedMap::new();
            std::mem::swap(self, &mut taken);
            let OrderedMap { mut keys, mut values } = taken;
            proof {
                lemma_pairing_insert(names, before, i as int, key.name(), value);
                assert(names_of(keys@.insert(i as int, key)) =~= names.insert(
                    i as int,
                    key.name(),
                ));
            }
            keys.insert(i, key);
            values.insert(i, value);
            *self = OrderedMap { keys, values };
            None
        }
    }

    /// Takes out the entry with the greatest name, if there is one.
    pub fn pop_last(&mut self) -> (r: Option<(K, V)>)
        ensures
            match r {
                Some(entry) => {
                    &&& old(self).key_seq().len() > 0
                    &&& entry.0 == old(self).key_seq().last()
                    &&& entry.1 == old(self).value_seq().last()
                    &&& final(self).key_seq() == old(self).key_seq().drop_last()
                    &&& final(self).value_seq() == old(self).value_seq().drop_last()
                    &&& old(self)@.contains_key(entry.0.name())
                    &&& old(self)@[entry.0.name()] == entry.1
                    &&& final(self)@ == old(self)@.remove(entry.0.name())
                },
                None => old(self).key_seq().len() == 0 && *final(self) == *old(self),
            },
    {
        proof {
            use_type_invariant(&*self);
        }
        if self.keys.len() == 0 {
            return None;
        }
        let ghost names = self.names();
        let ghost before = self.value_seq();
        let mut taken = OrderedMap::new();
        std::mem::swap(self, &mut taken);
        let OrderedMap { mut keys, mut values } = taken;
        proof {
            lemma_pairing_drop_last(names, before);
            assert(names_of(keys@.drop_last()) =~= names.drop_last());
        }
        let k = keys.pop().unwrap();
        let v = values.pop().unwrap();
        *self = OrderedMap { keys, values };
        Some((k, v))
    }

    /// Moves every entry of `other` into this map and leaves `other` empty.
    /// Where both hold a name, the value of `other` replaces the one here
    /// and the key stored here stays.
    pub fn append(&mut self, other: &mut Self)
        ensures
            final(self)@ == old(self)@.union_prefer_right(old(other)@),
            forall|k: K| old(self).key_seq().contains(k) ==> final(self).key_seq().contains(k),
            forall|k: K|
                old(other).key_seq().contains(k) && !old(self)@.contains_key(k.name())
                    ==> final(self).key_seq().contains(k),
            final(other)@ == Map::<Seq<char>, V>::empty(),
            final(other).key_seq() == Seq::<K>::empty(),
            final(other).value_seq() == Seq::<V>::empty(),
    {
        proof {
            use_type_invariant(&*self);
            lemma_pairing(self.names(), self.value_seq());
        }
        loop
            invariant
                self@.union_prefer_right(other@) == old(self)@.union_prefer_right(old(other)@),
                forall|k: K| old(self).key_seq().contains(k) ==> self.key_seq().contains(k),
                forall|k: K|
                    old(other).key_seq().contains(k) && !old(self)@.contains_key(k.name())
                        ==> self.key_seq().contains(k) || other.key_seq().contains(k),
                forall|n: Seq<char>|
                    self@.contains_key(n) ==> old(self)@.contains_key(n) || !other@.contains_key(n),
            ensures
                other.key_seq().len() == 0,
            decreases other.key_seq().len(),
        {
            let ghost held = self@;
            let ghost rest = other@;
            let ghost mine = self.key_seq();
            let ghost theirs = other.key_seq();
            match other.pop_last() {
                Some((k, v)) => {
                    self.insert(k, v);
                    proof {
                        assert(held.insert(k.name(), v).union_prefer_right(rest.remove(k.name()))
                            =~= held.union_prefer_right(rest));
                        assert forall|key: K| mine.contains(key) implies self.key_seq().contains(
                            key,
                        ) by {
                            let j = mine.index_of(key);
                            if !held.contains_key(k.name()) {
                                let p = choose|p: int|
                                    0 <= p <= mine.len() && self.key_seq() == mine.insert(p, k);
                                if j < p {
                                    assert(self.key_seq()[j] == key);
                                } else {
                                    assert(self.key_seq()[j + 1] == key);
                                }
                            }
                        }
                        assert forall|key: K|
                            old(other).key_seq().contains(key) && !old(self)@.contains_key(
                                key.name(),
                            ) implies self.key_seq().contains(key) || other.key_seq().contains(
                            key,
                        ) by {
                            if !mine.contains(key) {
                                let j = theirs.index_of(key);
                                if j < theirs.len() - 1 {
                                    assert(other.key_seq()[j] == key);
                                } else {
                                    assert(key == k);
                                    assert(!held.contains_key(k.name()));
                                    let p = choose|p: int|
                                        0 <= p <= mine.len() && self.key_seq() == mine.insert(p, k);
                                    assert(self.key_seq()[p] == k);
                                }
                            }
                        }
                    }
                },
                None => {
                    break ;
                },
            }
        }
        proof {
            use_type_invariant(&*other);
            assert(other.key_seq() =~= Seq::<K>::empty());
            assert(other.value_seq() =~= Seq::<V>::empty());
            assert(other@ =~= Map::<Seq<char>, V>::empty());
            assert(self@.union_prefer_right(Map::<Seq<char>, V>::empty()) =~= self@);
        }
    }

    /// The entries, in ascending order of their names.
    pub fn into_entries(self) -> (entries: Vec<(K, V)>)
        ensures
            entries@.len() == self.key_seq().len(),
            forall|i: int|
                0 <= i < entries@.len() ==> (#[trigger] entries@[i]).0 == self.key_seq()[i]
                    && entries@[i].1 == self.value_seq()[i],
    {
        proof {
            use_type_invariant(&self);
        }
        let ghost all_keys = self.key_seq();
        let ghost all_values = self.value_seq();
        let OrderedMap { mut keys, mut values } = self;
        let mut reversed: Vec<(K, V)> = Vec::new();
        while keys.len() > 0
            invariant
                keys@.len() == values@.len(),
                keys@.len() + reversed@.len() == all_keys.len(),
                all_keys.len() == all_values.len(),
                keys@ == all_keys.take(keys@.len() as int),
                values@ == all_values.take(keys@.len() as int),
                forall|j: int|
                    0 <= j < reversed@.len() ==> (#[trigger] reversed@[j]).0
                        == all_keys[all_keys.len() - 1 - j] && reversed@[j].1
                        == all_values[all_keys.len() - 1 - j],
            decreases keys@.len(),
        {
            let k = keys.pop().unwrap();
            let v = values.pop().unwrap();
            reversed.push((k, v));
        }
        let mut entries: Vec<(K, V)> = Vec::new();
        while reversed.len() > 0
            invariant
                reversed@.len() + entries@.len() == all_keys.len(),
                all_keys.len() == all_values.len(),
                forall|j: int|
                    0 <= j < reversed@.len() ==> (#[trigger] reversed@[j]).0
                        == all_keys[all_keys.len() - 1 - j] && reversed@[j].1
                        == all_values[all_keys.len() - 1 - j],
                forall|j: int|
                    0 <= j < entries@.len() ==> (#[trigger] entries@[j]).0 == all_keys[j]
                        && entries@[j].1 == all_values[j],
            decreases reversed@.len(),
        {
            let entry = reversed.pop().unwrap();
            entries.push(entry);
        }
        entries
    }

    /// The values, in ascending order of their names.
    pub fn values(&self) -> (r: Vec<&V>)
        ensures
            self.well_formed(),
            r@.len() == self.value_seq().len(),
            forall|i: int| 0 <= i < r@.len() ==> *#[trigger] r@[i] == self.value_seq()[i],
    {
        proof {
            use_type_invariant(self);
        }
        let mut out: Vec<&V> = Vec::new();
        let mut i: usize = 0;
        while i < self.values.len()
            invariant
                i <= self.values@.len(),
                out@.len() == i,
                forall|j: int| 0 <= j < i ==> *#[trigger] out@[j] == self.values@[j],
            decreases self.values@.len() - i,
        {
            out.push(&self.values[i]);
            i += 1;
        }
        out
    }

    /// The entries, in ascending order of their names.
    pub fn iter(&self) -> (r: Vec<(&K, &V)>)
        ensures
            self.well_formed(),
            r@.len() == self.key_seq().len(),
            forall|i: int|
                0 <= i < r@.len() ==> *(#[trigger] r@[i]).0 == self.key_seq()[i] && *r@[i].1
                    == self.value_seq()[i],
    {
        proof {
            use_type_invariant(self);
        }
        let mut out: Vec<(&K, &V)> = Vec::new();
        let mut i: usize = 0;
        while i < self.keys.len()
            invariant
                self.keys@.len() == self.values@.len(),
                i <= self.keys@.len(),
                out@.len() == i,
                forall|j: int|
                    0 <= j < i ==> *(#[trigger] out@[j]).0 == self.keys@[j] && *out@[j].1
                        == self.values@[j],
            decreases self.keys@.len() - i,
        {
            out.push((&self.keys[i], &self.values[i]));
            i += 1;
        }
        out
    }
}

} // verus!
