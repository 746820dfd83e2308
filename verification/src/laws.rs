//! What holds of the table across its operations.

use crate::declared::Declared;
use crate::error::ErrorItemView;
use crate::model::{duplicate_error, names_in, AliasMapView};
use crate::names::lemma_precedes_asymmetric;
use crate::listing::{
    ascending, in_order, lemma_in_order_lists, lemma_listable_empty, lemma_listable_insert,
    lemma_listable_union, listable,
};
use crate::ordered::{names_of, Key};
use crate::source::CascadeString;
use codespan_reporting::files::SimpleFile;
use vstd::prelude::*;
use vstd::seq_lib::seq_to_set_is_finite;

verus! {

/// The entity that one of the names resolves to is among the entities that
/// the names resolve to.
pub proof fn lemma_get_all_contains<T: Declared>(
    table: AliasMapView<T>,
    names: Seq<Seq<char>>,
    j: int,
)
    requires
        0 <= j < names.len(),
        table.get(names[j]) is Some,
    ensures
        table.get_all(names).contains(table.get(names[j])->0),
    decreases names.len(),
{
    let entity = table.get(names[j])->0;
    let all = table.get_all(names);
    let before = table.get_all(names.drop_last());
    if j == names.len() - 1 {
        assert(all == before.push(entity));
        assert(all[before.len() as int] == entity);
    } else {
        lemma_get_all_contains(table, names.drop_last(), j);
        let k = before.index_of(entity);
        assert(all[k] == entity);
    }
}

/// Each of the entities that the names resolve to is what one of the names
/// resolves to.
pub proof fn lemma_get_all_from<T: Declared>(
    table: AliasMapView<T>,
    names: Seq<Seq<char>>,
    entity: T,
)
    requires
        table.get_all(names).contains(entity),
    ensures
        exists|j: int| 0 <= j < names.len() && table.get(#[trigger] names[j]) == Some(entity),
    decreases names.len(),
{
    let all = table.get_all(names);
    if names.len() > 0 {
        let rest = names.drop_last();
        let before = table.get_all(rest);
        let k = all.index_of(entity);
        if k < before.len() {
            assert(before[k] == entity);
            lemma_get_all_from(table, rest, entity);
            let j = choose|j: int| 0 <= j < rest.len() && table.get(#[trigger] rest[j]) == Some(
                entity,
            );
            assert(names[j] == rest[j]);
        } else {
            assert(table.get(names[names.len() - 1]) == Some(entity));
        }
    }
}

/// A name that no alias redirects elsewhere is inserted once: the
/// insertion succeeds where the name resolved to nothing and replaces
/// nothing, the name then resolves to the entity inserted, and a second
/// insertion under it changes nothing and reports the duplicate declaration.
pub proof fn lemma_insert_once<T: Declared>(
    table: AliasMapView<T>,
    name: Seq<char>,
    first: T,
    second: T,
)
    requires
        table.get(name) is None,
        table.canonical(name) == name,
    ensures
        !table.declarations.contains_key(name),
        table.try_insert(name, first) == (table.insert(name, first), None::<ErrorItemView>),
        table.insert(name, first).get(name) == Some(first),
        table.insert(name, first).try_insert(name, second) == (
            table.insert(name, first),
            Some(duplicate_error(name, second, first)),
        ),
{
}

/// An alias resolves to the entity stored under its target, and so does
/// the target itself unless it is an alias for another name.
pub proof fn lemma_alias_resolves_as_target<T: Declared>(
    table: AliasMapView<T>,
    alias: Seq<char>,
    target: Seq<char>,
)
    requires
        table.aliases.contains_key(alias),
        table.aliases[alias] == target,
        table.declarations.contains_key(target),
        table.canonical(target) == target,
    ensures
        table.get(alias) == Some(table.declarations[target]),
        table.get(target) == table.get(alias),
{
}

/// After an insertion under a name that no alias redirects elsewhere, the
/// entity is among those reachable under each of its classification keys.
pub proof fn lemma_inserted_is_indexed<T: Declared>(
    table: AliasMapView<T>,
    name: Seq<char>,
    value: T,
    key: Seq<char>,
)
    requires
        table.well_formed(),
        table.get(name) is None,
        table.canonical(name) == name,
        value.classification_keys().contains(key),
    ensures
        names_in(table.insert(name, value).index, key).contains(name),
        table.insert(name, value).values_by_index(key).contains(value),
{
    let after = table.insert(name, value);
    let filed = names_in(after.index, key);
    assert(filed =~= names_in(table.index, key).insert(name));
    lemma_listable_insert(names_in(table.index, key), name);
    lemma_in_order_lists(filed);
    let listing = in_order(filed);
    assert(filed.contains(name));
    assert(listing.contains(name));
    let j = listing.index_of(name);
    lemma_get_all_contains(after, listing, j);
}

/// After an alias was registered for a declared name that is not itself
/// an alias for another, the alias is filed under each classification key
/// of the target's entity, and that entity is among those reachable under
/// the key.
pub proof fn lemma_alias_is_indexed<T: Declared>(
    table: AliasMapView<T>,
    alias: Seq<char>,
    target: Seq<char>,
    key: Seq<char>,
)
    requires
        table.well_formed(),
        table.declarations.contains_key(target),
        table.canonical(target) == target,
        table.declarations[target].classification_keys().contains(key),
    ensures
        table.add_alias(alias, target).get(alias) == Some(table.declarations[target]),
        names_in(table.add_alias(alias, target).index, key).contains(alias),
        table.add_alias(alias, target).values_by_index(key).contains(table.declarations[target]),
{
    let after = table.add_alias(alias, target);
    let filed = names_in(after.index, key);
    assert(filed =~= names_in(table.index, key).insert(alias));
    lemma_listable_insert(names_in(table.index, key), alias);
    lemma_in_order_lists(filed);
    let listing = in_order(filed);
    assert(filed.contains(alias));
    assert(listing.contains(alias));
    let j = listing.index_of(alias);
    lemma_get_all_contains(after, listing, j);
}

/// Alias validation reports one conflict for each alias whose name is a
/// canonical name, and none for any other alias.
pub proof fn lemma_one_conflict_per_collision<T: Declared>(
    table: AliasMapView<T>,
    aliases: Seq<CascadeString>,
    files: Map<Seq<char>, SimpleFile<String, String>>,
)
    requires
        ascending(names_of(aliases)),
    ensures
        names_of(aliases).to_set().intersect(table.declarations.dom()).finite(),
        table.alias_conflicts(aliases, files).len() == names_of(aliases).to_set().intersect(
            table.declarations.dom(),
        ).len(),
    decreases aliases.len(),
{
    let declared = table.declarations.dom();
    let all = names_of(aliases).to_set();
    seq_to_set_is_finite(names_of(aliases));
    if aliases.len() == 0 {
        assert(all.intersect(declared) =~= Set::<Seq<char>>::empty());
    } else {
        let rest = aliases.drop_last();
        let last = aliases.last().name();
        let others = names_of(rest).to_set();
        assert(names_of(rest) =~= names_of(aliases).drop_last());
        seq_to_set_is_finite(names_of(rest));
        lemma_one_conflict_per_collision(table, rest, files);
        assert(!others.contains(last)) by {
            if names_of(rest).contains(last) {
                let j = names_of(rest).index_of(last);
                assert(names_of(aliases)[j] == last);
                assert(names_of(aliases)[aliases.len() - 1] == last);
                lemma_precedes_asymmetric(last, last);
            }
        }
        assert forall|n: Seq<char>| all.contains(n) <==> (others.contains(n) || n == last) by {
            if names_of(aliases).contains(n) {
                let j = names_of(aliases).index_of(n);
                if j < aliases.len() - 1 {
                    assert(names_of(rest)[j] == n);
                }
            }
            if names_of(rest).contains(n) {
                let j = names_of(rest).index_of(n);
                assert(names_of(aliases)[j] == n);
            }
            if n == last {
                assert(names_of(aliases)[aliases.len() - 1] == n);
            }
        }
        if table.collides(aliases.last()) {
            assert(all.intersect(declared) =~= others.intersect(declared).insert(last));
        } else {
            assert(all.intersect(declared) =~= others.intersect(declared));
        }
    }
}

/// A merged table holds the canonical names of both tables, and files
/// under each key the names that either table files under it.
pub proof fn lemma_append_unites<T: Declared>(
    left: AliasMapView<T>,
    right: AliasMapView<T>,
    key: Seq<char>,
)
    ensures
        left.append(right).declarations.dom() == left.declarations.dom().union(
            right.declarations.dom(),
        ),
        names_in(left.append(right).index, key) == names_in(left.index, key).union(
            names_in(right.index, key),
        ),
        left.append(right).values_by_index(key) == left.append(right).get_all(
            in_order(names_in(left.index, key).union(names_in(right.index, key))),
        ),
{
    assert(left.append(right).declarations.dom() =~= left.declarations.dom().union(
        right.declarations.dom(),
    ));
    assert(names_in(left.append(right).index, key) =~= names_in(left.index, key).union(
        names_in(right.index, key),
    ));
}

/// In a table merged from two separate tables, a name resolves as it did
/// in the table that knew it.
pub proof fn lemma_append_resolves_as_before<T: Declared>(
    left: AliasMapView<T>,
    right: AliasMapView<T>,
    name: Seq<char>,
)
    requires
        left.separate_from(right),
    ensures
        left.append(right).get(name) == if right.knows(name) {
            right.get(name)
        } else {
            left.get(name)
        },
{
    let merged = left.append(right);
    let target = merged.canonical(name);
    if right.aliases.contains_key(name) {
        assert(right.aliases[name] == target);
        assert(right.knows(target));
        assert(!left.knows(target));
    } else if left.aliases.contains_key(name) {
        assert(left.aliases[name] == target);
        assert(left.knows(target));
        assert(left.knows(name));
        assert(!right.knows(target));
        assert(!right.knows(name));
    } else if right.knows(name) {
        assert(!left.knows(name));
    }
}

/// A table merged from two well-formed tables is well formed.
pub proof fn lemma_append_well_formed<T: Declared>(left: AliasMapView<T>, right: AliasMapView<T>)
    requires
        left.well_formed(),
        right.well_formed(),
    ensures
        left.append(right).well_formed(),
{
    let merged = left.append(right);
    lemma_listable_union(left.declarations.dom(), right.declarations.dom());
    assert(merged.declarations.dom() =~= left.declarations.dom().union(right.declarations.dom()));
    assert forall|key: Seq<char>| listable(
        #[trigger] names_in(merged.index, key),
    ) by {
        lemma_listable_union(names_in(left.index, key), names_in(right.index, key));
        lemma_append_unites(left, right, key);
    }
}

/// In a table merged from two separate tables, the entities reachable
/// under a key are those reachable under it in either table.
pub proof fn lemma_append_unites_values_by_index<T: Declared>(
    left: AliasMapView<T>,
    right: AliasMapView<T>,
    key: Seq<char>,
)
    requires
        left.well_formed(),
        right.well_formed(),
        left.separate_from(right),
    ensures
        left.append(right).values_by_index(key).to_set() == left.values_by_index(
            key,
        ).to_set().union(right.values_by_index(key).to_set()),
{
    let merged = left.append(right);
    let from_left = names_in(left.index, key);
    let from_right = names_in(right.index, key);
    lemma_append_unites(left, right, key);
    lemma_append_well_formed(left, right);
    lemma_in_order_lists(from_left);
    lemma_in_order_lists(from_right);
    lemma_in_order_lists(from_left.union(from_right));
    let listing = in_order(from_left.union(from_right));
    let all = merged.values_by_index(key).to_set();
    let either = left.values_by_index(key).to_set().union(right.values_by_index(key).to_set());
    assert forall|entity: T| all.contains(entity) implies either.contains(entity) by {
        lemma_get_all_from(merged, listing, entity);
        let j = choose|j: int|
            0 <= j < listing.len() && merged.get(#[trigger] listing[j]) == Some(entity);
        let name = listing[j];
        assert(listing.contains(name));
        assert(from_left.union(from_right).contains(name));
        lemma_append_resolves_as_before(left, right, name);
        if from_right.contains(name) {
            assert(right.knows(name));
            let at = in_order(from_right).index_of(name);
            lemma_get_all_contains(right, in_order(from_right), at);
        } else {
            assert(from_left.contains(name));
            assert(left.knows(name));
            let at = in_order(from_left).index_of(name);
            lemma_get_all_contains(left, in_order(from_left), at);
        }
    }
    assert forall|entity: T| either.contains(entity) implies all.contains(entity) by {
        if left.values_by_index(key).contains(entity) {
            lemma_get_all_from(left, in_order(from_left), entity);
            let j = choose|j: int|
                0 <= j < in_order(from_left).len() && left.get(#[trigger] in_order(from_left)[j])
                    == Some(entity);
            let name = in_order(from_left)[j];
            assert(in_order(from_left).contains(name));
            assert(from_left.contains(name));
            assert(left.knows(name));
            lemma_append_resolves_as_before(left, right, name);
            assert(from_left.union(from_right).contains(name));
            assert(listing.contains(name));
            lemma_get_all_contains(merged, listing, listing.index_of(name));
        } else {
            lemma_get_all_from(right, in_order(from_right), entity);
            let j = choose|j: int|
                0 <= j < in_order(from_right).len() && right.get(
                    #[trigger] in_order(from_right)[j],
                ) == Some(entity);
            let name = in_order(from_right)[j];
            assert(in_order(from_right).contains(name));
            assert(from_right.contains(name));
            assert(right.knows(name));
            lemma_append_resolves_as_before(left, right, name);
            assert(from_left.union(from_right).contains(name));
            assert(listing.contains(name));
            lemma_get_all_contains(merged, listing, listing.index_of(name));
        }
    }
    assert(all =~= either);
}

/// The empty table files every name it resolves: it resolves none.
pub proof fn lemma_empty_index_complete<T: Declared>()
    ensures
        AliasMapView::<T>::empty().index_complete(),
        AliasMapView::<T>::empty().well_formed(),
{
    lemma_listable_empty();
}

/// An insertion keeps the secondary index complete, unless an alias was
/// registered for the name before the name was declared.
pub proof fn lemma_insert_keeps_index_complete<T: Declared>(
    table: AliasMapView<T>,
    name: Seq<char>,
    value: T,
)
    requires
        table.index_complete(),
        table.get(name) is None,
        forall|other: Seq<char>| #[trigger] table.canonical(other) == name ==> other == name,
    ensures
        table.insert(name, value).index_complete(),
{
    let after = table.insert(name, value);
    assert forall|n: Seq<char>, key: Seq<char>|
        (#[trigger] after.get(n) matches Some(entity) && entity.classification_keys().contains(
            key,
        )) implies #[trigger] names_in(after.index, key).contains(n) by {
        if table.canonical(n) == name {
            assert(n == name);
        } else {
            assert(after.get(n) == table.get(n));
            assert(names_in(table.index, key).contains(n));
        }
    }
}

/// Registering an alias keeps the secondary index complete, unless its
/// target is declared and is also an alias for another name.
pub proof fn lemma_add_alias_keeps_index_complete<T: Declared>(
    table: AliasMapView<T>,
    alias: Seq<char>,
    target: Seq<char>,
)
    requires
        table.index_complete(),
        table.declarations.contains_key(target) ==> table.canonical(target) == target,
    ensures
        table.add_alias(alias, target).index_complete(),
{
    let after = table.add_alias(alias, target);
    assert forall|n: Seq<char>, key: Seq<char>|
        (#[trigger] after.get(n) matches Some(entity) && entity.classification_keys().contains(
            key,
        )) implies #[trigger] names_in(after.index, key).contains(n) by {
        if n != alias {
            assert(after.get(n) == table.get(n));
            assert(names_in(table.index, key).contains(n));
        }
    }
}

/// Merging two separate tables keeps the secondary index complete.
pub proof fn lemma_append_keeps_index_complete<T: Declared>(
    left: AliasMapView<T>,
    right: AliasMapView<T>,
)
    requires
        left.index_complete(),
        right.index_complete(),
        left.separate_from(right),
    ensures
        left.append(right).index_complete(),
{
    let merged = left.append(right);
    assert forall|n: Seq<char>, key: Seq<char>|
        (#[trigger] merged.get(n) matches Some(entity) && entity.classification_keys().contains(
            key,
        )) implies #[trigger] names_in(merged.index, key).contains(n) by {
        lemma_append_resolves_as_before(left, right, n);
        lemma_append_unites(left, right, key);
        if right.knows(n) {
            assert(names_in(right.index, key).contains(n));
        } else {
            assert(names_in(left.index, key).contains(n));
        }
    }
}

/// A batch ends at its first conflict: the items before it are inserted,
/// the conflict is reported, and the items after it are never looked at.
pub proof fn lemma_try_extend_stops_at_conflict<T: Declared>(
    table: AliasMapView<T>,
    items: Seq<(Seq<char>, T)>,
    i: int,
)
    requires
        0 <= i < items.len(),
        table.try_extend(items.take(i)).1 is None,
        table.try_extend(items.take(i)).0.get(items[i].0) is Some,
    ensures
        table.try_extend(items) == table.try_extend(items.take(i)).0.try_insert(
            items[i].0,
            items[i].1,
        ),
        table.try_extend(items).0 == table.try_extend(items.take(i)).0,
    decreases i,
{
    if i == 0 {
        assert(items.take(0) =~= Seq::empty());
    } else {
        let head = items.take(i);
        assert(head.first() == items.first());
        assert(head.drop_first() =~= items.drop_first().take(i - 1));
        let (next, conflict) = table.try_insert(items.first().0, items.first().1);
        assert(conflict is None);
        lemma_try_extend_stops_at_conflict(next, items.drop_first(), i - 1);
    }
}

/// Two items under one name, which no alias redirects elsewhere and which
/// resolved to nothing: the first is inserted, the second is refused as its
/// duplicate, and the table holds the first alone.
pub proof fn lemma_duplicate_in_batch<T: Declared>(
    table: AliasMapView<T>,
    name: Seq<char>,
    first: T,
    second: T,
)
    requires
        table.get(name) is None,
        table.canonical(name) == name,
    ensures
        table.try_extend(seq![(name, first), (name, second)]) == (
            table.insert(name, first),
            Some(duplicate_error(name, second, first)),
        ),
{
    let items = seq![(name, first), (name, second)];
    assert(items.take(1) =~= seq![(name, first)]);
    assert(items.take(1).drop_first() =~= Seq::empty());
    assert(table.try_extend(items.take(1)) == (table.insert(name, first), None::<ErrorItemView>))
        by {
        reveal_with_fuel(AliasMapView::try_extend, 2);
    }
    lemma_try_extend_stops_at_conflict(table, items, 1);
}

} // verus!
