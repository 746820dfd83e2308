//! What the table asks of the entities it stores.

use crate::ordered::names_of;
use crate::source::{clone_file, copy_range};
use codespan_reporting::files::SimpleFile;
use std::ops::Range;
use vstd::prelude::*;

verus! {

/// A declared entity. The table reads an entity through these four
/// questions only; each answer depends on the entity alone.
pub trait Declared {
    /// The file the entity was declared in; none for a synthetic entity.
    spec fn source_file(&self) -> Option<SimpleFile<String, String>>;

    /// The byte range of the entity's name in that file.
    spec fn name_range(&self) -> Option<Range<usize>>;

    /// The kind of entity, in words for diagnostics: "type", "function".
    spec fn display_kind(&self) -> Seq<char>;

    /// The classification keys under which the entity is to be found.
    spec fn classification_keys(&self) -> Seq<Seq<char>>;

    /// The file the entity was declared in.
    fn get_file(&self) -> (file: Option<SimpleFile<String, String>>)
        ensures
            file == self.source_file(),
    ;

    /// The byte range of the entity's name.
    fn get_name_range(&self) -> (range: Option<Range<usize>>)
        ensures
            range == self.name_range(),
    ;

    /// The kind of entity, in words.
    fn get_generic_name(&self) -> (kind: String)
        ensures
            kind@ == self.display_kind(),
    ;

    /// Get a list of values to access this via secondary index.
    fn get_secondary_indices(&self) -> (keys: Vec<String>)
        ensures
            names_of(keys@) == self.classification_keys(),
    ;
}

/// A declaration as a plain record: its kind, its classification keys, and
/// the place where it was written, if it was written anywhere.
#[derive(Debug)]
pub struct Declaration {
    kind: String,
    keys: Vec<String>,
    file: Option<SimpleFile<String, String>>,
    range: Option<Range<usize>>,
}

impl Declaration {
    /// A declaration of the given kind, to be found under the given keys.
    /// `file` and `range` say where its name was written; a synthetic
    /// declaration has neither.
    pub fn new(
        kind: String,
        keys: Vec<String>,
        file: Option<SimpleFile<String, String>>,
        range: Option<Range<usize>>,
    ) -> (d: Self)
        ensures
            d.display_kind() == kind@,
            d.classification_keys() == names_of(keys@),
            d.source_file() == file,
            d.name_range() == range,
    {
        Declaration { kind, keys, file, range }
    }
}

impl Clone for Declaration {
    /// A declaration that answers as this one does.
    fn clone(&self) -> (copy: Self)
        ensures
            copy.source_file() == self.source_file(),
            copy.name_range() == self.name_range(),
            copy.display_kind() == self.display_kind(),
            copy.classification_keys() == self.classification_keys(),
    {
        Declaration {
            kind: self.get_generic_name(),
            keys: self.get_secondary_indices(),
            file: self.get_file(),
            range: self.get_name_range(),
        }
    }
}

impl Declared for Declaration {
    closed spec fn source_file(&self) -> Option<SimpleFile<String, String>> {
        self.file
    }

    closed spec fn name_range(&self) -> Option<Range<usize>> {
        self.range
    }

    closed spec fn display_kind(&self) -> Seq<char> {
        self.kind@
    }

    closed spec fn classification_keys(&self) -> Seq<Seq<char>> {
        names_of(self.keys@)
    }

    fn get_file(&self) -> (file: Option<SimpleFile<String, String>>) {
        match &self.file {
            Some(f) => Some(clone_file(f)),
            None => None,
        }
    }

    fn get_name_range(&self) -> (range: Option<Range<usize>>) {
        match &self.range {
            Some(r) => Some(copy_range(r)),
            None => None,
        }
    }

    fn get_generic_name(&self) -> (kind: String) {
        self.kind.clone()
    }

    fn get_secondary_indices(&self) -> (keys: Vec<String>) {
        let mut keys: Vec<String> = Vec::new();
        let mut i: usize = 0;
        while i < self.keys.len()
            invariant
                i <= self.keys@.len(),
                keys@.len() == i,
                forall|j: int| 0 <= j < i ==> (#[trigger] keys@[j])@ == self.keys@[j]@,
            decreases self.keys@.len() - i,
        {
            keys.push(self.keys[i].clone());
            i += 1;
        }
        assert(names_of(keys@) =~= names_of(self.keys@));
        keys
    }
}

} // verus!
