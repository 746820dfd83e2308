//! The table as a mathematical value, and what each operation makes of it.

use crate::declared::Declared;
use crate::error::{
    compile_or_internal, with_note, AnnotationView, CompileErrorView, ErrorItemView,
};
use crate::listing::{in_order, listable};
use crate::ordered::Key;
use crate::source::CascadeString;
use codespan_reporting::files::SimpleFile;
use vstd::prelude::*;

verus! {

/// The names filed under a classification key; none where the key is unknown.
pub open spec fn names_in(index: Map<Seq<char>, Set<Seq<char>>>, key: Seq<char>) -> Set<
    Seq<char>,
> {
    if index.contains_key(key) {
        index[key]
    } else {
        Set::empty()
    }
}

/// Two indices taken together: every key of either, each with the names
/// that either files under it.
pub open spec fn index_union(
    a: Map<Seq<char>, Set<Seq<char>>>,
    b: Map<Seq<char>, Set<Seq<char>>>,
) -> Map<Seq<char>, Set<Seq<char>>> {
    Map::new(
        |k: Seq<char>| a.contains_key(k) || b.contains_key(k),
        |k: Seq<char>| names_in(a, k).union(names_in(b, k)),
    )
}

/// The index that files one name under each of the given keys.
pub open spec fn index_of_keys(keys: Seq<Seq<char>>, name: Seq<char>) -> Map<
    Seq<char>,
    Set<Seq<char>>,
> {
    Map::new(|k: Seq<char>| keys.contains(k), |k: Seq<char>| set![name])
}

/// An index with one more name filed under one key.
pub open spec fn index_with(
    index: Map<Seq<char>, Set<Seq<char>>>,
    key: Seq<char>,
    name: Seq<char>,
) -> Map<Seq<char>, Set<Seq<char>>> {
    index.insert(key, names_in(index, key).insert(name))
}

/// Filing a name under one more key, after others, is filing it under the
/// longer list of keys.
pub proof fn lemma_index_of_keys_step(
    base: Map<Seq<char>, Set<Seq<char>>>,
    keys: Seq<Seq<char>>,
    i: int,
    name: Seq<char>,
)
    requires
        0 <= i < keys.len(),
    ensures
        index_union(base, index_of_keys(keys.take(i + 1), name)) == index_with(
            index_union(base, index_of_keys(keys.take(i), name)),
            keys[i],
            name,
        ),
{
    let shorter = keys.take(i);
    let longer = keys.take(i + 1);
    let left = index_union(base, index_of_keys(longer, name));
    let right = index_with(index_union(base, index_of_keys(shorter, name)), keys[i], name);
    assert(longer =~= shorter.push(keys[i]));
    assert forall|k: Seq<char>| longer.contains(k) <==> (shorter.contains(k) || k == keys[i]) by {
        if shorter.contains(k) {
            let j = shorter.index_of(k);
            assert(longer[j] == k);
        }
        if k == keys[i] {
            assert(longer[i] == k);
        }
        if longer.contains(k) {
            let j = longer.index_of(k);
            if j < i {
                assert(shorter[j] == k);
            }
        }
    }
    assert forall|k: Seq<char>| #[trigger] left.contains_key(k) == right.contains_key(k) by {}
    assert forall|k: Seq<char>| #[trigger] left.contains_key(k) implies left[k] =~= right[k] by {}
    assert(left =~= right);
}

/// Uniting indices does not depend on how they are grouped.
pub proof fn lemma_index_union_associative(
    a: Map<Seq<char>, Set<Seq<char>>>,
    b: Map<Seq<char>, Set<Seq<char>>>,
    c: Map<Seq<char>, Set<Seq<char>>>,
)
    ensures
        index_union(a, index_union(b, c)) == index_union(index_union(a, b), c),
{
    assert(index_union(a, index_union(b, c)) =~~= index_union(index_union(a, b), c));
}

/// Uniting an index with the empty index changes nothing.
pub proof fn lemma_index_union_empty(a: Map<Seq<char>, Set<Seq<char>>>)
    ensures
        index_union(a, Map::empty()) == a,
        index_union(Map::empty(), a) == a,
{
    assert(index_union(a, Map::empty()) =~~= a);
    assert(index_union(Map::empty(), a) =~~= a);
}

/// The diagnostic for a second declaration under a name that is taken. It
/// is anchored at the new declaration and points back at the existing one;
/// where either has no place in a source, only an internal error is left.
pub open spec fn duplicate_error<T: Declared>(
    name: Seq<char>,
    value: T,
    existing: T,
) -> ErrorItemView {
    match (
        value.source_file(),
        value.name_range(),
        existing.source_file(),
        existing.name_range(),
    ) {
        (Some(file), Some(range), Some(prior_file), Some(prior_range)) => ErrorItemView::Compile(
            CompileErrorView {
                message: "Duplicate declaration"@,
                file,
                range,
                help: "A "@ + value.display_kind() + " named "@ + name + " already exists"@,
                additional: seq![
                    AnnotationView {
                        file: prior_file,
                        range: prior_range,
                        message: "Already defined here"@,
                    },
                ],
            },
        ),
        _ => ErrorItemView::Internal,
    }
}

/// The diagnostic for an alias whose name is already the canonical name of
/// `existing`. It is anchored where the alias was written and points at the
/// existing declaration if that has a place; where the alias has no place
/// in a source, only an internal error is left.
pub open spec fn alias_conflict<T: Declared>(
    alias: CascadeString,
    file: Option<SimpleFile<String, String>>,
    existing: T,
) -> ErrorItemView {
    with_note(
        compile_or_internal(
            "Alias name conflicts with an existing "@ + existing.display_kind(),
            file,
            alias.range(),
            ""@,
        ),
        existing.source_file(),
        existing.name_range(),
        "Existing "@ + existing.display_kind() + " found here"@,
    )
}

/// The names with their values, as plain values.
pub open spec fn named_values<T>(items: Seq<(String, T)>) -> Seq<(Seq<char>, T)> {
    Seq::new(items.len(), |i: int| (items[i].0@, items[i].1))
}

/// The names and values that a sequence of borrowed entries points at.
pub open spec fn borrowed_entries<T>(refs: Seq<(&String, &T)>) -> Seq<(Seq<char>, T)> {
    Seq::new(refs.len(), |i: int| (refs[i].0@, *refs[i].1))
}

/// What a sequence of references points at.
pub open spec fn referents<T>(refs: Seq<&T>) -> Seq<T> {
    Seq::new(refs.len(), |i: int| *refs[i])
}

/// The table as a value: the canonical store, the alias index and the
/// secondary index.
pub struct AliasMapView<T> {
    /// Canonical name to entity.
    pub declarations: Map<Seq<char>, T>,
    /// Alias to canonical name.
    pub aliases: Map<Seq<char>, Seq<char>>,
    /// Classification key to the names filed under it.
    pub index: Map<Seq<char>, Set<Seq<char>>>,
}

impl<T: Declared> AliasMapView<T> {
    /// The table that holds nothing.
    pub open spec fn empty() -> Self {
        AliasMapView { declarations: Map::empty(), aliases: Map::empty(), index: Map::empty() }
    }

    /// The name that a lookup of `name` goes to: the alias's target where
    /// `name` is an alias, `name` itself otherwise. One step only.
    pub open spec fn canonical(self, name: Seq<char>) -> Seq<char> {
        if self.aliases.contains_key(name) {
            self.aliases[name]
        } else {
            name
        }
    }

    /// The entity that `name` resolves to.
    pub open spec fn get(self, name: Seq<char>) -> Option<T> {
        self.declarations.get(self.canonical(name))
    }

    /// The entities that the given names resolve to, in the order of the
    /// names; a name that resolves to nothing is passed over.
    pub open spec fn get_all(self, names: Seq<Seq<char>>) -> Seq<T>
        decreases names.len(),
    {
        if names.len() == 0 {
            Seq::empty()
        } else {
            let before = self.get_all(names.drop_last());
            match self.get(names.last()) {
                Some(entity) => before.push(entity),
                None => before,
            }
        }
    }

    /// The entities reachable under a classification key, by ascending
    /// order of the names filed under it.
    pub open spec fn values_by_index(self, key: Seq<char>) -> Seq<T> {
        self.get_all(in_order(names_in(self.index, key)))
    }

    /// The canonical names, in ascending order.
    pub open spec fn names(self) -> Seq<Seq<char>> {
        in_order(self.declarations.dom())
    }

    /// The canonical names with their entities, in ascending order of the
    /// names.
    pub open spec fn entries(self) -> Seq<(Seq<char>, T)> {
        Seq::new(self.names().len(), |i: int| (self.names()[i], self.declarations[self.names()[i]]))
    }

    /// The entities, in ascending order of their canonical names.
    pub open spec fn values(self) -> Seq<T> {
        Seq::new(self.names().len(), |i: int| self.declarations[self.names()[i]])
    }

    /// The canonical names can be listed in order, and so can the names
    /// filed under any key. This holds of every table that was built through
    /// the operations of `AliasMap`.
    pub open spec fn well_formed(self) -> bool {
        &&& listable(self.declarations.dom())
        &&& forall|key: Seq<char>| listable(#[trigger] names_in(self.index, key))
    }

    /// Every name is filed under each classification key of the entity it
    /// resolves to.
    pub open spec fn index_complete(self) -> bool {
        forall|name: Seq<char>, key: Seq<char>|
            (#[trigger] self.get(name) matches Some(entity)
                && entity.classification_keys().contains(key)) ==> #[trigger] names_in(
                self.index,
                key,
            ).contains(name)
    }

    /// The table has to do with the name: as a canonical name, as an alias,
    /// as the target of an alias, or as a name filed in the secondary index.
    pub open spec fn knows(self, name: Seq<char>) -> bool {
        ||| self.declarations.contains_key(name)
        ||| self.aliases.contains_key(name)
        ||| exists|alias: Seq<char>|
            self.aliases.contains_key(alias) && #[trigger] self.aliases[alias] == name
        ||| exists|key: Seq<char>| #[trigger] names_in(self.index, key).contains(name)
    }

    /// The two tables have no name in common, as tables of units that were
    /// compiled apart have none.
    pub open spec fn separate_from(self, other: Self) -> bool {
        forall|name: Seq<char>| !(#[trigger] self.knows(name) && #[trigger] other.knows(name))
    }

    /// The table after another was merged into it: stores and alias
    /// indices are united name by name, and where both hold a name the other
    /// table's entry stands; the secondary indices are united key by key.
    pub open spec fn append(self, other: Self) -> Self {
        AliasMapView {
            declarations: self.declarations.union_prefer_right(other.declarations),
            aliases: self.aliases.union_prefer_right(other.aliases),
            index: index_union(self.index, other.index),
        }
    }

    /// Registering `aliases` files `alias` under `key`: `alias` is one of
    /// them, and its target resolves to an entity that has the key.
    pub open spec fn files_alias(
        self,
        aliases: Map<Seq<char>, Seq<char>>,
        key: Seq<char>,
        alias: Seq<char>,
    ) -> bool {
        &&& aliases.contains_key(alias)
        &&& self.get(aliases[alias]) matches Some(entity)
        &&& entity.classification_keys().contains(key)
    }

    /// What registering `aliases` adds to the secondary index: each alias
    /// whose target resolves at this moment is filed under the keys of the
    /// entity it resolves to. An alias whose target does not resolve is
    /// filed nowhere.
    pub open spec fn alias_index(self, aliases: Map<Seq<char>, Seq<char>>) -> Map<
        Seq<char>,
        Set<Seq<char>>,
    > {
        Map::new(
            |key: Seq<char>| exists|alias: Seq<char>| self.files_alias(aliases, key, alias),
            |key: Seq<char>| Set::new(|alias: Seq<char>| self.files_alias(aliases, key, alias)),
        )
    }

    /// What one alias files, given what its target resolves to.
    pub open spec fn alias_keys(self, alias: Seq<char>, target: Seq<char>) -> Map<
        Seq<char>,
        Set<Seq<char>>,
    > {
        match self.get(target) {
            Some(entity) => index_of_keys(entity.classification_keys(), alias),
            None => Map::empty(),
        }
    }

    /// No aliases file nothing.
    pub proof fn lemma_alias_index_empty(self)
        ensures
            self.alias_index(Map::empty()) == Map::<Seq<char>, Set<Seq<char>>>::empty(),
    {
        assert(self.alias_index(Map::empty()) =~~= Map::<Seq<char>, Set<Seq<char>>>::empty());
    }

    /// One more alias files what the others file and what it files itself.
    pub proof fn lemma_alias_index_insert(
        self,
        aliases: Map<Seq<char>, Seq<char>>,
        alias: Seq<char>,
        target: Seq<char>,
    )
        requires
            !aliases.contains_key(alias),
        ensures
            self.alias_index(aliases.insert(alias, target)) == index_union(
                self.alias_index(aliases),
                self.alias_keys(alias, target),
            ),
    {
        let more = aliases.insert(alias, target);
        let left = self.alias_index(more);
        let own = self.alias_keys(alias, target);
        let right = index_union(self.alias_index(aliases), own);
        assert forall|key: Seq<char>, a: Seq<char>|
            self.files_alias(more, key, a) <==> (self.files_alias(aliases, key, a) || (a == alias
                && own.contains_key(key))) by {}
        assert forall|key: Seq<char>| #[trigger] left.contains_key(key) == right.contains_key(
            key,
        ) by {
            if left.contains_key(key) {
                let a = choose|a: Seq<char>| self.files_alias(more, key, a);
                assert(self.files_alias(aliases, key, a) || own.contains_key(key));
            }
            if self.alias_index(aliases).contains_key(key) {
                let a = choose|a: Seq<char>| self.files_alias(aliases, key, a);
                assert(self.files_alias(more, key, a));
            }
            if own.contains_key(key) {
                assert(self.files_alias(more, key, alias));
            }
        }
        assert forall|key: Seq<char>| #[trigger] left.contains_key(key) implies left[key]
            =~= right[key] by {
            assert forall|a: Seq<char>| left[key].contains(a) == right[key].contains(a) by {
                if right[key].contains(a) {
                    assert(self.files_alias(more, key, a));
                }
            }
        }
        assert(left =~= right);
    }

    /// The table after `aliases` took the place of its alias index.
    pub open spec fn set_aliases(self, aliases: Map<Seq<char>, Seq<char>>) -> Self {
        AliasMapView {
            declarations: self.declarations,
            aliases,
            index: index_union(self.index, self.alias_index(aliases)),
        }
    }

    /// The table after one alias was registered.
    pub open spec fn add_alias(self, alias: Seq<char>, target: Seq<char>) -> Self {
        AliasMapView {
            declarations: self.declarations,
            aliases: self.aliases.insert(alias, target),
            index: match self.get(target) {
                Some(entity) => index_union(
                    self.index,
                    index_of_keys(entity.classification_keys(), alias),
                ),
                None => self.index,
            },
        }
    }

    /// Whether an alias has the name of a canonical declaration.
    pub open spec fn collides(self, alias: CascadeString) -> bool {
        self.declarations.contains_key(alias.name())
    }

    /// One diagnostic for each of the aliases that collides, in the order
    /// of the aliases. `files` says in which file each alias was written.
    pub open spec fn alias_conflicts(
        self,
        aliases: Seq<CascadeString>,
        files: Map<Seq<char>, SimpleFile<String, String>>,
    ) -> Seq<ErrorItemView>
        decreases aliases.len(),
    {
        if aliases.len() == 0 {
            Seq::empty()
        } else {
            let before = self.alias_conflicts(aliases.drop_last(), files);
            let alias = aliases.last();
            if self.collides(alias) {
                before.push(
                    alias_conflict(alias, files.get(alias.name()), self.declarations[alias.name()]),
                )
            } else {
                before
            }
        }
    }

    /// Nothing is reported exactly where no alias collides.
    pub proof fn lemma_no_conflicts(
        self,
        aliases: Seq<CascadeString>,
        files: Map<Seq<char>, SimpleFile<String, String>>,
    )
        ensures
            self.alias_conflicts(aliases, files).len() == 0 <==> forall|i: int|
                0 <= i < aliases.len() ==> !self.collides(#[trigger] aliases[i]),
        decreases aliases.len(),
    {
        if aliases.len() > 0 {
            let rest = aliases.drop_last();
            self.lemma_no_conflicts(rest, files);
            if self.alias_conflicts(aliases, files).len() == 0 {
                assert forall|i: int| 0 <= i < aliases.len() implies !self.collides(
                    #[trigger] aliases[i],
                ) by {
                    if i < aliases.len() - 1 {
                        assert(rest[i] == aliases[i]);
                    }
                }
            } else if !self.collides(aliases.last()) {
                let i = choose|i: int| 0 <= i < rest.len() && self.collides(#[trigger] rest[i]);
                assert(aliases[i] == rest[i]);
            }
        }
    }

    /// The diagnostics for one more alias are those for the others and,
    /// where it collides, its own.
    pub proof fn lemma_alias_conflicts_step(
        self,
        aliases: Seq<CascadeString>,
        files: Map<Seq<char>, SimpleFile<String, String>>,
        i: int,
    )
        requires
            0 <= i < aliases.len(),
        ensures
            self.alias_conflicts(aliases.take(i + 1), files) == if self.collides(aliases[i]) {
                self.alias_conflicts(aliases.take(i), files).push(
                    alias_conflict(
                        aliases[i],
                        files.get(aliases[i].name()),
                        self.declarations[aliases[i].name()],
                    ),
                )
            } else {
                self.alias_conflicts(aliases.take(i), files)
            },
    {
        let longer = aliases.take(i + 1);
        assert(longer.drop_last() =~= aliases.take(i));
        assert(longer.last() == aliases[i]);
    }

    /// What an insertion comes to: the table with the new entity and no
    /// diagnostic where `name` resolves to nothing, the table as it was and
    /// the diagnostic of the conflict where `name` resolves to an entity.
    pub open spec fn try_insert(self, name: Seq<char>, value: T) -> (Self, Option<ErrorItemView>) {
        match self.get(name) {
            None => (self.insert(name, value), None),
            Some(existing) => (self, Some(duplicate_error(name, value, existing))),
        }
    }

    /// What inserting the items one by one comes to: the table after the
    /// items up to the first that conflicts, and the diagnostic for that one
    /// if there is one.
    pub open spec fn try_extend(self, items: Seq<(Seq<char>, T)>) -> (Self, Option<ErrorItemView>)
        decreases items.len(),
    {
        if items.len() == 0 {
            (self, None)
        } else {
            let (table, conflict) = self.try_insert(items.first().0, items.first().1);
            if conflict is Some {
                (table, conflict)
            } else {
                table.try_extend(items.drop_first())
            }
        }
    }

    /// The table after `value` was stored under `name` and filed under each
    /// of its classification keys.
    pub open spec fn insert(self, name: Seq<char>, value: T) -> Self {
        AliasMapView {
            declarations: self.declarations.insert(name, value),
            aliases: self.aliases,
            index: index_union(self.index, index_of_keys(value.classification_keys(), name)),
        }
    }
}

} // verus!
