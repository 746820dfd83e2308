//! Names in ascending order: what it is for a sequence of names to ascend,
//! the listing in order of a finite set of names, and the map that pairs an
//! ascending sequence of names with a sequence of values.

use crate::names::{
    lemma_precedes_asymmetric, lemma_precedes_total, lemma_precedes_transitive, precedes,
};
use vstd::prelude::*;

verus! {

/// Each name comes strictly before every later one.
pub open spec fn ascending(names: Seq<Seq<char>>) -> bool {
    forall|i: int, j: int|
        0 <= i < j < names.len() ==> precedes(#[trigger] names[i], #[trigger] names[j])
}

/// The names of a set, listed in ascending order.
pub open spec fn in_order(names: Set<Seq<char>>) -> Seq<Seq<char>> {
    choose|s: Seq<Seq<char>>| ascending(s) && s.to_set() == names
}

/// The names of the set can be listed in ascending order: there are
/// finitely many of them.
pub open spec fn listable(names: Set<Seq<char>>) -> bool {
    exists|s: Seq<Seq<char>>| ascending(s) && s.to_set() == names
}

/// Where a name belongs in an ascending sequence: behind the last name that
/// precedes it.
pub open spec fn slot(names: Seq<Seq<char>>, n: Seq<char>) -> int
    decreases names.len(),
{
    if names.len() == 0 {
        0
    } else if precedes(names.last(), n) {
        names.len() as int
    } else {
        slot(names.drop_last(), n)
    }
}

/// The map that sends the name at each position to the value at that position.
pub open spec fn pairing<V>(names: Seq<Seq<char>>, values: Seq<V>) -> Map<Seq<char>, V> {
    Map::new(|n: Seq<char>| names.contains(n), |n: Seq<char>| values[names.index_of(n)])
}

/// In an ascending sequence a name occurs at one position only.
pub proof fn lemma_ascending_position(names: Seq<Seq<char>>, i: int)
    requires
        ascending(names),
        0 <= i < names.len(),
    ensures
        names.contains(names[i]),
        names.index_of(names[i]) == i,
{
    let j = names.index_of(names[i]);
    lemma_precedes_asymmetric(names[i], names[j]);
}

/// Under an ascending sequence of names, the pairing holds exactly the
/// names of the sequence, each with the value at its position.
pub proof fn lemma_pairing<V>(names: Seq<Seq<char>>, values: Seq<V>)
    requires
        ascending(names),
        names.len() == values.len(),
    ensures
        pairing(names, values).dom() =~= names.to_set(),
        forall|i: int|
            0 <= i < names.len() ==> pairing(names, values).contains_key(#[trigger] names[i])
                && pairing(names, values)[names[i]] == values[i],
{
    assert forall|i: int| 0 <= i < names.len() implies pairing(names, values).contains_key(
        #[trigger] names[i],
    ) && pairing(names, values)[names[i]] == values[i] by {
        lemma_ascending_position(names, i);
    }
}

/// Two ascending sequences with the same names are the same sequence.
pub proof fn lemma_ascending_unique(p: Seq<Seq<char>>, q: Seq<Seq<char>>)
    requires
        ascending(p),
        ascending(q),
        p.to_set() == q.to_set(),
    ensures
        p == q,
    decreases p.len(),
{
    if p.len() == 0 {
        if q.len() > 0 {
            assert(q.contains(q[0]));
            assert(p.to_set().contains(q[0]));
        }
        assert(p =~= q);
    } else {
        let top = p.last();
        assert(p.contains(top));
        assert(q.to_set().contains(top));
        let k = q.index_of(top);
        assert(q.contains(q.last()));
        assert(p.to_set().contains(q.last()));
        let m = p.index_of(q.last());
        lemma_precedes_asymmetric(top, q.last());
        assert(q.last() == top);
        let shorter_p = p.drop_last();
        let shorter_q = q.drop_last();
        assert forall|n: Seq<char>|
            shorter_p.to_set().contains(n) <==> shorter_q.to_set().contains(n) by {
            if shorter_p.contains(n) {
                let i = shorter_p.index_of(n);
                assert(p[i] == n);
                assert(p.contains(n));
                assert(q.to_set().contains(n));
                let j = q.index_of(n);
                lemma_precedes_asymmetric(n, top);
                assert(shorter_q[j] == n);
            }
            if shorter_q.contains(n) {
                let i = shorter_q.index_of(n);
                assert(q[i] == n);
                assert(q.contains(n));
                assert(p.to_set().contains(n));
                let j = p.index_of(n);
                lemma_precedes_asymmetric(n, top);
                assert(shorter_p[j] == n);
            }
        }
        assert(shorter_p.to_set() =~= shorter_q.to_set());
        lemma_ascending_unique(shorter_p, shorter_q);
        assert(p =~= shorter_p.push(top));
        assert(q =~= shorter_q.push(top));
    }
}

/// An ascending sequence is the listing in order of its own names.
pub proof fn lemma_in_order(names: Seq<Seq<char>>)
    requires
        ascending(names),
    ensures
        in_order(names.to_set()) == names,
{
    let s = in_order(names.to_set());
    assert(ascending(names) && names.to_set() == names.to_set());
    lemma_ascending_unique(s, names);
}

/// Putting a new name at its place in an ascending sequence keeps the
/// sequence ascending and adds one entry to the pairing.
pub proof fn lemma_pairing_insert<V>(
    names: Seq<Seq<char>>,
    values: Seq<V>,
    i: int,
    n: Seq<char>,
    v: V,
)
    requires
        ascending(names),
        names.len() == values.len(),
        0 <= i <= names.len(),
        forall|j: int| 0 <= j < i ==> precedes(#[trigger] names[j], n),
        forall|j: int| i <= j < names.len() ==> precedes(n, #[trigger] names[j]),
    ensures
        ascending(names.insert(i, n)),
        pairing(names.insert(i, n), values.insert(i, v)) == pairing(names, values).insert(n, v),
{
    let names2 = names.insert(i, n);
    let values2 = values.insert(i, v);
    assert forall|a: int, b: int| 0 <= a < b < names2.len() implies precedes(
        #[trigger] names2[a],
        #[trigger] names2[b],
    ) by {
        if a < i && b > i {
            lemma_precedes_transitive(names[a], n, names[b - 1]);
        }
    }
    lemma_pairing(names, values);
    lemma_pairing(names2, values2);
    let before = pairing(names, values).insert(n, v);
    let after = pairing(names2, values2);
    assert forall|m: Seq<char>| #[trigger] before.contains_key(m) implies after.contains_key(m)
        && after[m] == before[m] by {
        if m == n {
            assert(names2[i] == n);
        } else {
            let j = names.index_of(m);
            if j < i {
                assert(names2[j] == m);
            } else {
                assert(names2[j + 1] == m);
            }
        }
    }
    assert forall|m: Seq<char>| #[trigger] after.contains_key(m) implies before.contains_key(m) by {
        let j = names2.index_of(m);
        if j < i {
            assert(names[j] == m);
        } else if j > i {
            assert(names[j - 1] == m);
        }
    }
    assert(after =~= before);
}

/// Replacing the value at a position replaces the value under that
/// position's name.
pub proof fn lemma_pairing_update<V>(names: Seq<Seq<char>>, values: Seq<V>, i: int, v: V)
    requires
        ascending(names),
        names.len() == values.len(),
        0 <= i < names.len(),
    ensures
        pairing(names, values.update(i, v)) == pairing(names, values).insert(names[i], v),
{
    let values2 = values.update(i, v);
    lemma_pairing(names, values);
    lemma_pairing(names, values2);
    let before = pairing(names, values).insert(names[i], v);
    let after = pairing(names, values2);
    assert forall|m: Seq<char>| #[trigger] before.contains_key(m) implies after.contains_key(m)
        && after[m] == before[m] by {
        let j = names.index_of(m);
        assert(names[j] == m);
        lemma_ascending_position(names, j);
        lemma_ascending_position(names, i);
    }
    assert(after =~= before);
}

/// Taking the last entry off an ascending sequence removes its name from
/// the pairing.
pub proof fn lemma_pairing_drop_last<V>(names: Seq<Seq<char>>, values: Seq<V>)
    requires
        ascending(names),
        names.len() == values.len(),
        names.len() > 0,
    ensures
        ascending(names.drop_last()),
        pairing(names.drop_last(), values.drop_last()) == pairing(names, values).remove(
            names.last(),
        ),
        pairing(names, values).contains_key(names.last()),
        pairing(names, values)[names.last()] == values.last(),
{
    let names2 = names.drop_last();
    let values2 = values.drop_last();
    lemma_pairing(names, values);
    lemma_pairing(names2, values2);
    let before = pairing(names, values).remove(names.last());
    let after = pairing(names2, values2);
    assert forall|m: Seq<char>| #[trigger] before.contains_key(m) implies after.contains_key(m)
        && after[m] == before[m] by {
        let j = names.index_of(m);
        assert(names[j] == m);
        assert(names2[j] == m);
    }
    assert forall|m: Seq<char>| #[trigger] after.contains_key(m) implies before.contains_key(m) by {
        let j = names2.index_of(m);
        assert(names[j] == m);
        lemma_precedes_asymmetric(m, names.last());
    }
    assert(after =~= before);
}

/// A name that an ascending sequence lacks has its slot between the names
/// that precede it and the names that it precedes.
pub proof fn lemma_slot(names: Seq<Seq<char>>, n: Seq<char>)
    requires
        ascending(names),
        !names.contains(n),
    ensures
        0 <= slot(names, n) <= names.len(),
        forall|j: int| 0 <= j < slot(names, n) ==> precedes(#[trigger] names[j], n),
        forall|j: int| slot(names, n) <= j < names.len() ==> precedes(n, #[trigger] names[j]),
    decreases names.len(),
{
    if names.len() > 0 {
        let top = names.last();
        if precedes(top, n) {
            assert forall|j: int| 0 <= j < names.len() implies precedes(#[trigger] names[j], n) by {
                if j < names.len() - 1 {
                    lemma_precedes_transitive(names[j], top, n);
                }
            }
        } else {
            let rest = names.drop_last();
            assert(!rest.contains(n)) by {
                if rest.contains(n) {
                    let j = rest.index_of(n);
                    assert(names[j] == n);
                }
            }
            lemma_slot(rest, n);
            assert(names.contains(top));
            lemma_precedes_total(top, n);
            assert forall|j: int| slot(names, n) <= j < names.len() implies precedes(
                n,
                #[trigger] names[j],
            ) by {
                if j < names.len() - 1 {
                    assert(rest[j] == names[j]);
                }
            }
            assert forall|j: int| 0 <= j < slot(names, n) implies precedes(
                #[trigger] names[j],
                n,
            ) by {
                assert(rest[j] == names[j]);
            }
        }
    }
}

/// The empty set can be listed.
pub proof fn lemma_listable_empty()
    ensures
        listable(Set::<Seq<char>>::empty()),
        in_order(Set::<Seq<char>>::empty()) == Seq::<Seq<char>>::empty(),
{
    let none = Seq::<Seq<char>>::empty();
    assert(none.to_set() =~= Set::<Seq<char>>::empty());
    assert(ascending(none));
    lemma_in_order(none);
}

/// The listing of a set that can be listed ascends and holds the set's
/// names, no others.
pub proof fn lemma_in_order_lists(names: Set<Seq<char>>)
    requires
        listable(names),
    ensures
        ascending(in_order(names)),
        in_order(names).to_set() == names,
        forall|n: Seq<char>| in_order(names).contains(n) <==> names.contains(n),
{
    let s = in_order(names);
    assert forall|n: Seq<char>| s.contains(n) <==> names.contains(n) by {
        assert(s.to_set().contains(n) == s.contains(n));
    }
}

/// A set that can be listed can still be listed with one more name.
pub proof fn lemma_listable_insert(names: Set<Seq<char>>, n: Seq<char>)
    requires
        listable(names),
    ensures
        listable(names.insert(n)),
{
    let s = in_order(names);
    lemma_in_order_lists(names);
    if names.contains(n) {
        assert(names.insert(n) =~= names);
    } else {
        lemma_slot(s, n);
        let p = slot(s, n);
        let unit = Seq::<()>::new(s.len(), |i: int| ());
        lemma_pairing_insert(s, unit, p, n, ());
        let longer = s.insert(p, n);
        assert forall|m: Seq<char>| longer.to_set().contains(m) <==> names.insert(n).contains(
            m,
        ) by {
            if longer.contains(m) {
                let j = longer.index_of(m);
                if j < p {
                    assert(s[j] == m);
                } else if j > p {
                    assert(s[j - 1] == m);
                }
            }
            if m == n {
                assert(longer[p] == m);
            } else if names.contains(m) {
                let j = s.index_of(m);
                if j < p {
                    assert(longer[j] == m);
                } else {
                    assert(longer[j + 1] == m);
                }
            }
        }
        assert(longer.to_set() =~= names.insert(n));
    }
}

/// A set that can be listed can still be listed with the names of a
/// sequence added.
pub proof fn lemma_listable_with(names: Set<Seq<char>>, more: Seq<Seq<char>>)
    requires
        listable(names),
    ensures
        listable(names.union(more.to_set())),
    decreases more.len(),
{
    if more.len() == 0 {
        assert(names.union(more.to_set()) =~= names);
    } else {
        let rest = more.drop_last();
        lemma_listable_with(names, rest);
        lemma_listable_insert(names.union(rest.to_set()), more.last());
        assert forall|n: Seq<char>| more.to_set().contains(n) <==> (rest.to_set().contains(n) || n
            == more.last()) by {
            if more.contains(n) {
                let j = more.index_of(n);
                if j < more.len() - 1 {
                    assert(rest[j] == n);
                }
            }
            if rest.contains(n) {
                let j = rest.index_of(n);
                assert(more[j] == n);
            }
            if n == more.last() {
                assert(more[more.len() - 1] == n);
            }
        }
        assert(names.union(more.to_set()) =~= names.union(rest.to_set()).insert(more.last()));
    }
}

/// The union of two sets that can be listed can be listed.
pub proof fn lemma_listable_union(a: Set<Seq<char>>, b: Set<Seq<char>>)
    requires
        listable(a),
        listable(b),
    ensures
        listable(a.union(b)),
{
    lemma_in_order_lists(b);
    lemma_listable_with(a, in_order(b));
}

} // verus!
