//! The declaration and alias table.

use crate::declared::Declared;
use crate::error::{AnnotationView, CascadeErrors, ErrorItem, InternalError};
use crate::model::{
    borrowed_entries, duplicate_error, index_of_keys, index_union, index_with, named_values,
    lemma_index_of_keys_step, lemma_index_union_associative, lemma_index_union_empty, names_in,
    referents, AliasMapView,
};
use crate::listing::{
    lemma_in_order, lemma_listable_empty, lemma_pairing, lemma_pairing_insert, listable, pairing,
};
use crate::name_set::NameSet;
use crate::ordered::{names_of, Key, OrderedMap};
use crate::source::CascadeString;
use codespan_reporting::files::SimpleFile;
use vstd::prelude::*;
use vstd::std_specs::iter::IteratorSpec;
use vstd::string::StringExecFns;

verus! {

/// The views of the targets of an alias index.
pub open spec fn target_views(aliases: Map<Seq<char>, String>) -> Map<Seq<char>, Seq<char>> {
    aliases.map_values(|target: String| target@)
}

/// The views of the name sets of a secondary index.
pub open spec fn set_views(index: Map<Seq<char>, NameSet>) -> Map<Seq<char>, Set<Seq<char>>> {
    index.map_values(|names: NameSet| names@)
}

/// Every declared entity of one or more source units, by canonical name,
/// with aliases that redirect to canonical names and a secondary index from
/// classification keys to names.
#[derive(Debug)]
pub struct AliasMap<T: Declared> {
    declarations: OrderedMap<String, T>,
    aliases: OrderedMap<CascadeString, String>,
    // Secondary_indices allow efficient lookups based on some other key.  This is useful to
    // efficiently get a subset of the map based on a prepopulated key, such as all functions for a
    // given type
    secondary_indices: OrderedMap<String, NameSet>,
}

impl<T: Declared> View for AliasMap<T> {
    type V = AliasMapView<T>;

    closed spec fn view(&self) -> AliasMapView<T> {
        AliasMapView {
            declarations: self.declarations@,
            aliases: target_views(self.aliases@),
            index: set_views(self.secondary_indices@),
        }
    }
}

impl<T: Declared + Clone> Clone for AliasMap<T> {
    /// A table with the same aliases and the same secondary index, and
    /// under each canonical name a clone of the entity stored here.
    fn clone(&self) -> (copy: Self)
        ensures
            copy@.aliases == self@.aliases,
            copy@.index == self@.index,
            copy@.declarations.dom() == self@.declarations.dom(),
            forall|name: Seq<char>|
                self@.declarations.contains_key(name) ==> cloned(
                    self@.declarations[name],
                    #[trigger] copy@.declarations[name],
                ),
    {
        let copy = AliasMap {
            declarations: self.declarations.clone(),
            aliases: self.aliases.clone(),
            secondary_indices: self.secondary_indices.clone(),
        };
        proof {
            assert(copy@.aliases =~= self@.aliases);
            assert(copy@.index =~= self@.index);
        }
        copy
    }
}

impl<T: Declared> AliasMap<T> {
    /// The view of a table whose canonical store is in order is well formed.
    proof fn lemma_well_formed(&self)
        requires
            self.declarations.well_formed(),
        ensures
            self@.well_formed(),
    {
        lemma_pairing(self.declarations.names(), self.declarations.value_seq());
        lemma_listable_empty();
        assert forall|key: Seq<char>| listable(#[trigger] names_in(self@.index, key)) by {
            if self@.index.contains_key(key) {
                self.secondary_indices@[key].lemma_listable();
            }
        }
    }

    fn get_type_name<'a>(aliases: &'a OrderedMap<CascadeString, String>, key: &'a str) -> (name:
        &'a str)
        ensures
            name@ == if aliases@.contains_key(key@) {
                aliases@[key@]@
            } else {
                key@
            },
    {
        match aliases.get(key) {
            Some(target) => target.as_str(),
            None => key,
        }
    }

    /// The entity that `key` resolves to: through the alias index first,
    /// then in the canonical store.
    pub fn get(&self, key: &str) -> (found: Option<&T>)
        ensures
            self@.well_formed(),
            match found {
                Some(entity) => self@.get(key@) == Some(*entity),
                None => self@.get(key@) is None,
            },
    {
        proof {
            use_type_invariant(&self.declarations);
            self.lemma_well_formed();
        }
        let canonical = Self::get_type_name(&self.aliases, key);
        self.declarations.get(canonical)
    }

    /// Exclusive access to the entity that `key` resolves to. Whatever is
    /// written through the reference replaces the entity in the canonical
    /// store; nothing else changes.
    pub fn get_mut(&mut self, key: &str) -> (found: Option<&mut T>)
        ensures
            match found {
                Some(entity) => {
                    &&& old(self)@.get(key@) == Some(*entity)
                    &&& final(self)@ == (AliasMapView {
                        declarations: old(self)@.declarations.insert(
                            old(self)@.canonical(key@),
                            *final(entity),
                        ),
                        ..old(self)@
                    })
                },
                None => old(self)@.get(key@) is None && final(self)@ == old(self)@,
            },
            final(self)@.well_formed(),
    {
        proof {
            use_type_invariant(&self.declarations);
            self.lemma_well_formed();
        }
        let ghost before = self@;
        let canonical = Self::get_type_name(&self.aliases, key);
        match self.declarations.get_mut(canonical) {
            Some(entity) => {
                proof {
                    assert(before.declarations.insert(
                        before.canonical(key@),
                        *final(entity),
                    ).dom() =~= before.declarations.dom());
                }
                Some(entity)
            },
            None => None,
        }
    }

    /// Files `name` under each of the given classification keys.
    fn file_under(index: &mut OrderedMap<String, NameSet>, keys: &Vec<String>, name: &str)
        ensures
            set_views(final(index)@) == index_union(
                set_views(old(index)@),
                index_of_keys(names_of(keys@), name@),
            ),
    {
        let ghost base = set_views(index@);
        let ghost all = names_of(keys@);
        proof {
            assert(index_union(base, index_of_keys(all.take(0), name@)) =~~= base);
        }
        let mut i: usize = 0;
        while i < keys.len()
            invariant
                i <= keys@.len(),
                all == names_of(keys@),
                set_views(index@) == index_union(base, index_of_keys(all.take(i as int), name@)),
            decreases keys@.len() - i,
        {
            let key = &keys[i];
            let ghost held = index@;
            match index.get_mut(key.as_str()) {
                Some(names) => {
                    names.insert(name.to_owned());
                },
                None => {
                    let mut names = NameSet::new();
                    names.insert(name.to_owned());
                    index.insert(key.clone(), names);
                },
            }
            proof {
                assert(set_views(index@) =~= index_with(set_views(held), key@, name@));
                lemma_index_of_keys_step(base, all, i as int, name@);
            }
            i += 1;
        }
        proof {
            assert(all.take(keys@.len() as int) =~= all);
        }
    }

    /// Stores `value` under `key` and files `key` under each of the value's
    /// classification keys. Where `key` already resolves to an entity the
    /// table stays as it is and the conflict is reported.
    pub fn insert(&mut self, key: String, value: T) -> (r: Result<(), CascadeErrors>)
        ensures
            r is Ok <==> old(self)@.get(key@) is None,
            final(self)@ == old(self)@.try_insert(key@, value).0,
            match r {
                Ok(()) => old(self)@.try_insert(key@, value).1 is None,
                Err(errors) => old(self)@.try_insert(key@, value).1 matches Some(conflict)
                    && errors@ == seq![conflict],
            },
            final(self)@.well_formed(),
    {
        // try_insert() is nightly only.  Convert once stable.
        if let Some(orig_decl) = self.get(key.as_str()) {
            // If the file is None, this is a synthetic type, and we should have handled
            // the error earlier.
            let kind = value.get_generic_name();
            let help = String::from_str("A ").concat(kind.as_str()).concat(" named ").concat(
                key.as_str(),
            ).concat(" already exists");
            let file = value.get_file();
            let error = ErrorItem::make_compile_or_internal_error(
                "Duplicate declaration",
                file.as_ref(),
                value.get_name_range(),
                help.as_str(),
            );
            let error = match error {
                ErrorItem::Compile(e) => {
                    match (orig_decl.get_file(), orig_decl.get_name_range()) {
                        (Some(file), Some(range)) => ErrorItem::Compile(
                            e.add_additional_message(&file, range, "Already defined here"),
                        ),
                        _ => {
                            // The previous one was a synthetic type.  We should have already
                            // errored out
                            ErrorItem::Internal(InternalError::new())
                        },
                    }
                },
                ErrorItem::Internal(e) => ErrorItem::Internal(e),
            };
            proof {
                assert(error@ == duplicate_error(key@, value, *orig_decl)) by {
                    let none = Seq::<AnnotationView>::empty();
                    assert(forall|a: AnnotationView| none.push(a) =~= seq![a]);
                }
            }
            return Err(CascadeErrors::from(error));
        }
        let keys = value.get_secondary_indices();
        Self::file_under(&mut self.secondary_indices, &keys, key.as_str());
        self.declarations.insert(key, value);
        proof {
            use_type_invariant(&self.declarations);
            self.lemma_well_formed();
        }
        Ok(())
    }

    /// The entities, in ascending order of their canonical names.
    pub fn values(&self) -> (all: Vec<&T>)
        ensures
            self@.well_formed(),
            referents(all@) == self@.values(),
    {
        let all = self.declarations.values();
        proof {
            self.lemma_well_formed();
            lemma_pairing(self.declarations.names(), self.declarations.value_seq());
            lemma_in_order(self.declarations.names());
            assert(referents(all@) =~= self@.values());
        }
        all
    }

    /// The number of canonical names.
    pub fn len(&self) -> (n: usize)
        ensures
            self@.well_formed(),
            n == self@.names().len(),
    {
        let n = self.declarations.len();
        proof {
            self.lemma_well_formed();
            lemma_in_order(self.declarations.names());
            lemma_pairing(self.declarations.names(), self.declarations.value_seq());
        }
        n
    }

    /// Exclusive access to the entity at a position of the ascending order
    /// of canonical names, for every position below `len`. Whatever is
    /// written through the reference replaces the entity in the canonical
    /// store; nothing else changes.
    pub fn values_mut(&mut self, i: usize) -> (found: Option<&mut T>)
        ensures
            match found {
                Some(entity) => {
                    &&& i < old(self)@.names().len()
                    &&& *entity == old(self)@.values()[i as int]
                    &&& final(self)@ == (AliasMapView {
                        declarations: old(self)@.declarations.insert(
                            old(self)@.names()[i as int],
                            *final(entity),
                        ),
                        ..old(self)@
                    })
                },
                None => i >= old(self)@.names().len() && final(self)@ == old(self)@,
            },
            final(self)@.well_formed(),
    {
        let n = self.declarations.len();
        let ghost before = self@;
        proof {
            self.lemma_well_formed();
            lemma_in_order(self.declarations.names());
            lemma_pairing(self.declarations.names(), self.declarations.value_seq());
        }
        if i < n {
            let entity = self.declarations.value_mut_at(i);
            proof {
                assert(before.declarations.insert(before.names()[i as int], *final(entity)).dom()
                    =~= before.declarations.dom());
            }
            Some(entity)
        } else {
            None
        }
    }

    /// The entities reachable under a classification key: each name filed
    /// under the key is resolved as `get` resolves it, in ascending order of
    /// the names, and a name that resolves to nothing is passed over.
    pub fn values_by_index(&self, index: String) -> (found: Vec<&T>)
        ensures
            self@.well_formed(),
            referents(found@) == self@.values_by_index(index@),
    {
        proof {
            use_type_invariant(&self.declarations);
            self.lemma_well_formed();
        }
        let mut found: Vec<&T> = Vec::new();
        if let Some(secondary) = self.secondary_indices.get(index.as_str()) {
            let n = secondary.len();
            let mut i: usize = 0;
            proof {
                secondary.lemma_listable();
                assert(referents(found@) =~= self@.get_all(secondary.names().take(0)));
            }
            while i < n
                invariant
                    n == secondary.names().len(),
                    i <= n,
                    referents(found@) == self@.get_all(secondary.names().take(i as int)),
                decreases n - i,
            {
                let ghost before = referents(found@);
                let ghost names = secondary.names().take(i + 1);
                proof {
                    assert(names.drop_last() =~= secondary.names().take(i as int));
                    assert(names.last() == secondary.names()[i as int]);
                }
                if let Some(entity) = self.get(secondary.name_at(i).as_str()) {
                    found.push(entity);
                    proof {
                        assert(referents(found@) =~= before.push(*entity));
                    }
                }
                i += 1;
            }
            proof {
                assert(secondary.names().take(n as int) =~= secondary.names());
            }
        } else {
            proof {
                let none = Seq::<Seq<char>>::empty();
                lemma_in_order(none);
                assert(none.to_set() =~= Set::<Seq<char>>::empty());
                assert(referents(found@) =~= self@.get_all(none));
            }
        }
        found
    }

    /// The canonical names with their entities, in ascending order of the
    /// names.
    pub fn iter(&self) -> (all: Vec<(&String, &T)>)
        ensures
            self@.well_formed(),
            borrowed_entries(all@) == self@.entries(),
    {
        let all = self.declarations.iter();
        proof {
            self.lemma_well_formed();
            lemma_pairing(self.declarations.names(), self.declarations.value_seq());
            lemma_in_order(self.declarations.names());
            assert(borrowed_entries(all@) =~= self@.entries());
        }
        all
    }

    /// Unites two secondary indices key by key and leaves the second empty.
    fn append_set_map(
        left: &mut OrderedMap<String, NameSet>,
        right: &mut OrderedMap<String, NameSet>,
    )
        ensures
            set_views(final(left)@) == index_union(set_views(old(left)@), set_views(old(right)@)),
            final(right)@ == Map::<Seq<char>, NameSet>::empty(),
    {
        loop
            invariant
                index_union(set_views(left@), set_views(right@)) == index_union(
                    set_views(old(left)@),
                    set_views(old(right)@),
                ),
            ensures
                right.key_seq().len() == 0,
            decreases right.key_seq().len(),
        {
            let ghost mine = set_views(left@);
            let ghost theirs = set_views(right@);
            match right.pop_last() {
                Some((key, names)) => {
                    let mut names = names;
                    let ghost added = names@;
                    match left.get_mut(key.as_str()) {
                        Some(held) => {
                            held.append(&mut names);
                        },
                        None => {
                            left.insert(key, names);
                        },
                    }
                    proof {
                        assert(set_views(left@) =~~= mine.insert(
                            key@,
                            names_in(mine, key@).union(added),
                        ));
                        assert(set_views(right@) =~~= theirs.remove(key@));
                        assert(index_union(set_views(left@), set_views(right@)) =~~= index_union(
                            mine,
                            theirs,
                        ));
                    }
                },
                None => {
                    break ;
                },
            }
        }
        proof {
            right.lemma_empty();
            assert(set_views(right@) =~~= Map::<Seq<char>, Set<Seq<char>>>::empty());
            assert(index_union(set_views(left@), set_views(right@)) =~~= set_views(left@));
        }
    }

    /// Moves everything `other` holds into this table and leaves `other`
    /// empty. No conflict is looked for: where both tables hold a canonical
    /// name or an alias, the entry of `other` replaces the one here.
    pub fn append(&mut self, other: &mut AliasMap<T>)
        ensures
            final(self)@ == old(self)@.append(old(other)@),
            final(other)@ == AliasMapView::<T>::empty(),
            final(self)@.well_formed(),
            final(other)@.well_formed(),
    {
        let ghost mine = self.aliases@;
        let ghost theirs = other.aliases@;
        self.declarations.append(&mut other.declarations);
        self.aliases.append(&mut other.aliases);
        Self::append_set_map(&mut self.secondary_indices, &mut other.secondary_indices);
        proof {
            assert(target_views(mine.union_prefer_right(theirs)) =~= target_views(
                mine,
            ).union_prefer_right(target_views(theirs)));
            assert(target_views(other.aliases@) =~= Map::empty());
            assert(set_views(other.secondary_indices@) =~= Map::empty());
            use_type_invariant(&self.declarations);
            use_type_invariant(&other.declarations);
            self.lemma_well_formed();
            other.lemma_well_formed();
        }
    }

    /// Checks candidate aliases against the canonical names: an alias may
    /// not have the name of a declaration. Every collision is reported, in
    /// ascending order of the aliases; `alias_files` says in which file each
    /// alias was written.
    pub fn validate_aliases(
        &self,
        aliases: &OrderedMap<CascadeString, String>,
        alias_files: &OrderedMap<CascadeString, SimpleFile<String, String>>,
    ) -> (r: Result<(), CascadeErrors>)
        ensures
            r is Ok <==> forall|i: int|
                0 <= i < aliases.key_seq().len() ==> !self@.collides(
                    #[trigger] aliases.key_seq()[i],
                ),
            match r {
                Ok(()) => self@.alias_conflicts(aliases.key_seq(), alias_files@).len() == 0,
                Err(errors) => errors@.len() > 0 && errors@ == self@.alias_conflicts(
                    aliases.key_seq(),
                    alias_files@,
                ),
            },
    {
        proof {
            self@.lemma_no_conflicts(aliases.key_seq(), alias_files@);
        }
        let mut errors = CascadeErrors::new();
        let n = aliases.len();
        let mut i: usize = 0;
        proof {
            assert(aliases.key_seq().take(0) =~= Seq::empty());
            assert(self@.alias_conflicts(aliases.key_seq().take(0), alias_files@) =~= Seq::empty());
        }
        while i < n
            invariant
                n == aliases.key_seq().len(),
                i <= n,
                errors@ == self@.alias_conflicts(aliases.key_seq().take(i as int), alias_files@),
            decreases n - i,
        {
            let a = aliases.key_at(i);
            proof {
                self@.lemma_alias_conflicts_step(aliases.key_seq(), alias_files@, i as int);
            }
            if let Some(existing) = self.declarations.get(a.as_str()) {
                let message = String::from_str("Alias name conflicts with an existing ").concat(
                    existing.get_generic_name().as_str(),
                );
                let note = String::from_str("Existing ").concat(
                    existing.get_generic_name().as_str(),
                ).concat(" found here");
                let file = existing.get_file();
                errors.append(
                    CascadeErrors::from(
                        ErrorItem::make_compile_or_internal_error(
                            message.as_str(),
                            alias_files.get(a.as_str()),
                            a.get_range(),
                            "",
                        ).maybe_add_additional_message(
                            file.as_ref(),
                            existing.get_name_range(),
                            note.as_str(),
                        ),
                    ),
                );
            }
            i += 1;
        }
        proof {
            assert(aliases.key_seq().take(n as int) =~= aliases.key_seq());
        }
        errors.into_result(())
    }

    /// Installs `aliases` as the alias index, in place of the one held.
    /// Each alias whose target resolves at this moment, through the alias
    /// index held so far, is filed under the classification keys of the
    /// entity it resolves to; an alias whose target does not resolve yet
    /// is filed nowhere.
    pub fn set_aliases(&mut self, aliases: OrderedMap<CascadeString, String>)
        ensures
            final(self)@ == old(self)@.set_aliases(target_views(aliases@)),
            final(self)@.well_formed(),
    {
        self.update_alias_secondary_indices(&aliases);
        self.aliases = aliases;
        proof {
            use_type_invariant(&self.declarations);
            self.lemma_well_formed();
        }
    }

    fn update_alias_secondary_indices(&mut self, new_aliases: &OrderedMap<CascadeString, String>)
        ensures
            final(self)@ == (AliasMapView {
                index: index_union(
                    old(self)@.index,
                    old(self)@.alias_index(target_views(new_aliases@)),
                ),
                ..old(self)@
            }),
    {
        let ghost table = self@;
        let ghost names = new_aliases.names();
        let ghost targets = new_aliases.value_seq();
        let n = new_aliases.len();
        let mut i: usize = 0;
        proof {
            assert(target_views(pairing(names.take(0), targets.take(0))) =~= Map::empty());
            table.lemma_alias_index_empty();
            lemma_index_union_empty(table.index);
        }
        while i < n
            invariant
                n == names.len(),
                i <= n,
                names == new_aliases.names(),
                targets == new_aliases.value_seq(),
                new_aliases.well_formed(),
                self@.declarations == table.declarations,
                self@.aliases == table.aliases,
                self@.index == index_union(
                    table.index,
                    table.alias_index(
                        target_views(pairing(names.take(i as int), targets.take(i as int))),
                    ),
                ),
            decreases n - i,
        {
            let alias = new_aliases.key_at(i);
            let true_name = new_aliases.value_at(i);
            let ghost done = target_views(pairing(names.take(i as int), targets.take(i as int)));
            proof {
                let shorter = names.take(i as int);
                lemma_pairing(shorter, targets.take(i as int));
                lemma_pairing_insert(
                    shorter,
                    targets.take(i as int),
                    i as int,
                    names[i as int],
                    targets[i as int],
                );
                assert(shorter.insert(i as int, names[i as int]) =~= names.take(i + 1));
                assert(targets.take(i as int).insert(i as int, targets[i as int])
                    =~= targets.take(i + 1));
                assert(target_views(pairing(names.take(i + 1), targets.take(i + 1)))
                    =~= done.insert(alias.name(), true_name@));
                assert(!done.contains_key(alias.name())) by {
                    if shorter.contains(names[i as int]) {
                        let j = shorter.index_of(names[i as int]);
                        crate::names::lemma_precedes_asymmetric(names[j], names[i as int]);
                    }
                }
                table.lemma_alias_index_insert(done, alias.name(), true_name@);
                lemma_index_union_associative(
                    table.index,
                    table.alias_index(done),
                    table.alias_keys(alias.name(), true_name@),
                );
                lemma_index_union_empty(self@.index);
            }
            let keys = match self.get(true_name.as_str()) {
                Some(val) => Some(val.get_secondary_indices()),
                None => None,
            };
            if let Some(keys) = keys {
                Self::file_under(&mut self.secondary_indices, &keys, alias.as_str());
            }
            i += 1;
        }
        proof {
            assert(names.take(n as int) =~= names);
            assert(targets.take(n as int) =~= targets);
        }
    }

    /// Registers one alias. Where its target resolves at this moment, the
    /// alias is filed under the classification keys of the entity the target
    /// resolves to. An alias of that name that is already registered is
    /// redirected without notice.
    pub fn add_alias(&mut self, alias: CascadeString, true_name: String)
        ensures
            final(self)@ == old(self)@.add_alias(alias.name(), true_name@),
            final(self)@.well_formed(),
    {
        let mut map = OrderedMap::new();
        map.insert(alias.clone(), true_name.clone());
        proof {
            let none = Map::<Seq<char>, Seq<char>>::empty();
            assert(target_views(map@) =~= none.insert(alias.name(), true_name@));
            self@.lemma_alias_index_empty();
            self@.lemma_alias_index_insert(none, alias.name(), true_name@);
            lemma_index_union_empty(self@.alias_keys(alias.name(), true_name@));
            lemma_index_union_empty(self@.index);
        }
        self.update_alias_secondary_indices(&map);
        let ghost held = self.aliases@;
        self.aliases.insert(alias, true_name);
        proof {
            assert(target_views(held.insert(alias.name(), true_name)) =~= target_views(held).insert(
                alias.name(),
                true_name@,
            ));
            use_type_invariant(&self.declarations);
            self.lemma_well_formed();
        }
    }

    /// Inserts the items one by one, in their order, and stops at the first
    /// that conflicts: the items before it stay inserted, it and those after
    /// it are dropped, and its conflict is reported.
    pub fn try_extend(&mut self, items: Vec<(String, T)>) -> (r: Result<(), CascadeErrors>)
        ensures
            final(self)@ == old(self)@.try_extend(named_values(items@)).0,
            final(self)@.well_formed(),
            match r {
                Ok(()) => old(self)@.try_extend(named_values(items@)).1 is None,
                Err(errors) => old(self)@.try_extend(named_values(items@)).1 matches Some(error)
                    && errors@ == seq![error],
            },
    {
        let ghost all = named_values(items@);
        proof {
            assert(all.skip(0) =~= all);
            use_type_invariant(&self.declarations);
            self.lemma_well_formed();
        }
        for item in it: items
            invariant
                it.seq() == items@,
                all == named_values(items@),
                self@.well_formed(),
                old(self)@.try_extend(all) == self@.try_extend(all.skip(it.index())),
        {
            proof {
                let rest = all.skip(it.index());
                assert(rest.first() == (item.0@, item.1));
                assert(rest.drop_first() =~= all.skip(it.index() + 1));
            }
            self.insert(item.0, item.1)?;
        }
        Ok(())
    }

    /// A table that holds nothing.
    pub fn new() -> (table: Self)
        ensures
            table@ == AliasMapView::<T>::empty(),
            table@.well_formed(),
    {
        let table = AliasMap {
            declarations: OrderedMap::new(),
            aliases: OrderedMap::new(),
            secondary_indices: OrderedMap::new(),
        };
        proof {
            assert(table@.aliases =~= Map::empty());
            assert(table@.index =~= Map::empty());
            use_type_invariant(&table.declarations);
            table.lemma_well_formed();
        }
        table
    }
}

impl<T: Declared> IntoIterator for AliasMap<T> {
    type Item = (String, T);

    type IntoIter = std::vec::IntoIter<(String, T)>;

    /// The canonical names with their entities, in ascending order of the
    /// names.
    fn into_iter(self) -> (entries: std::vec::IntoIter<(String, T)>)
        ensures
            named_values(entries.remaining()) == self@.entries(),
    {
        proof {
            use_type_invariant(&self.declarations);
            lemma_pairing(self.declarations.names(), self.declarations.value_seq());
            lemma_in_order(self.declarations.names());
        }
        let all = self.declarations.into_entries();
        assert(named_values(all@) =~= self@.entries());
        all.into_iter()
    }
}

} // verus!
