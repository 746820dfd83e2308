//! A set of names that can be walked in ascending order.

use crate::listing::{
    ascending, in_order, lemma_in_order, lemma_listable_empty, lemma_pairing, listable,
};
use crate::ordered::OrderedMap;
use vstd::prelude::*;

verus! {

/// A set of names, held in ascending order.
#[derive(Debug)]
pub struct NameSet {
    members: OrderedMap<String, ()>,
}

impl View for NameSet {
    type V = Set<Seq<char>>;

    /// The names held. No set is ever held out of order; to that case the
    /// view gives the empty set, so that what a view holds can always be
    /// listed.
    closed spec fn view(&self) -> Set<Seq<char>> {
        if ascending(self.members.names()) {
            self.members.names().to_set()
        } else {
            Set::empty()
        }
    }
}

impl Clone for NameSet {
    /// A set of the same names.
    fn clone(&self) -> (copy: Self)
        ensures
            copy@ == self@,
    {
        let copy = NameSet { members: self.members.clone() };
        proof {
            use_type_invariant(&self.members);
            use_type_invariant(&copy.members);
        }
        copy
    }
}

impl NameSet {
    /// The names of the set, in ascending order.
    pub open spec fn names(&self) -> Seq<Seq<char>> {
        in_order(self@)
    }

    /// The names of a set can be listed in order.
    pub proof fn lemma_listable(&self)
        ensures
            listable(self@),
            ascending(self.names()),
            self.names().to_set() == self@,
    {
        if ascending(self.members.names()) {
            lemma_in_order(self.members.names());
        } else {
            lemma_listable_empty();
            assert(Seq::<Seq<char>>::empty().to_set() =~= Set::<Seq<char>>::empty());
        }
    }

    /// What the set holds, in terms of its members.
    proof fn lemma_members(&self)
        requires
            self.members.well_formed(),
        ensures
            self@ == self.members@.dom(),
            self.names() == self.members.names(),
    {
        lemma_pairing(self.members.names(), self.members.value_seq());
        lemma_in_order(self.members.names());
    }

    /// An empty set.
    pub fn new() -> (s: Self)
        ensures
            s@ == Set::<Seq<char>>::empty(),
    {
        let s = NameSet { members: OrderedMap::new() };
        proof {
            use_type_invariant(&s.members);
            s.lemma_members();
            assert(s@ =~= Set::<Seq<char>>::empty());
        }
        s
    }

    /// The number of names.
    pub fn len(&self) -> (n: usize)
        ensures
            n == self.names().len(),
    {
        proof {
            use_type_invariant(&self.members);
            self.lemma_members();
        }
        self.members.len()
    }

    /// The name at a position of the ascending order.
    pub fn name_at(&self, i: usize) -> (name: &String)
        requires
            i < self.names().len(),
        ensures
            name@ == self.names()[i as int],
    {
        proof {
            use_type_invariant(&self.members);
            self.lemma_members();
        }
        self.members.key_at(i)
    }

    /// Whether the set holds a name.
    pub fn contains(&self, name: &str) -> (b: bool)
        ensures
            b == self@.contains(name@),
    {
        proof {
            use_type_invariant(&self.members);
            self.lemma_members();
        }
        self.members.contains_key(name)
    }

    /// Adds a name; says whether it was new.
    pub fn insert(&mut self, name: String) -> (added: bool)
        ensures
            final(self)@ == old(self)@.insert(name@),
            added == !old(self)@.contains(name@),
    {
        proof {
            use_type_invariant(&self.members);
            self.lemma_members();
        }
        let ghost before = self.members@;
        let prior = self.members.insert(name, ());
        proof {
            use_type_invariant(&self.members);
            self.lemma_members();
            assert(before.insert(name@, ()).dom() =~= before.dom().insert(name@));
        }
        prior.is_none()
    }

    /// Moves every name of `other` into this set and leaves `other` empty.
    pub fn append(&mut self, other: &mut NameSet)
        ensures
            final(self)@ == old(self)@.union(old(other)@),
            final(other)@ == Set::<Seq<char>>::empty(),
    {
        proof {
            use_type_invariant(&self.members);
            use_type_invariant(&other.members);
            self.lemma_members();
            other.lemma_members();
        }
        let ghost mine = self.members@;
        let ghost theirs = other.members@;
        self.members.append(&mut other.members);
        proof {
            use_type_invariant(&self.members);
            use_type_invariant(&other.members);
            self.lemma_members();
            other.lemma_members();
            assert(mine.union_prefer_right(theirs).dom() =~= mine.dom().union(theirs.dom()));
            assert(other@ =~= Set::<Seq<char>>::empty());
        }
    }
}

} // verus!
