//! Source files and source-located identifiers.

use crate::ordered::Key;
use codespan_reporting::files::SimpleFile;
use std::ops::Range;
use vstd::prelude::*;

verus! {

/// A source file of `codespan_reporting`. The table never looks inside one:
/// it is a handle that diagnostics carry to the place where they are shown.
#[verifier::external_type_specification]
#[verifier::external_body]
#[verifier::reject_recursive_types(Name)]
#[verifier::reject_recursive_types(Source)]
pub struct ExSimpleFile<Name, Source>(SimpleFile<Name, Source>);

/// Calls `Clone::clone` of `codespan_reporting::files::SimpleFile`, which the
/// crate derives: the copy has the name, the source and the line starts of
/// the file it was made from, so the two stand for the same file.
#[verifier::external_body]
pub(crate) fn clone_file(file: &SimpleFile<String, String>) -> (copy: SimpleFile<String, String>)
    ensures
        copy == *file,
{
    file.clone()
}

/// A copy of a byte range.
pub fn copy_range(range: &Range<usize>) -> (copy: Range<usize>)
    ensures
        copy == *range,
{
    Range { start: range.start, end: range.end }
}

/// An identifier together with the byte range at which it was written, if
/// it was written anywhere. It is ordered and found by its text alone.
#[derive(Debug)]
pub struct CascadeString {
    string: String,
    range: Option<Range<usize>>,
}

impl CascadeString {
    /// The text of the identifier.
    pub closed spec fn text(&self) -> Seq<char> {
        self.string@
    }

    /// Where the identifier was written.
    pub closed spec fn range(&self) -> Option<Range<usize>> {
        self.range
    }

    /// An identifier written at `range`.
    pub fn new(string: String, range: Range<usize>) -> (s: Self)
        ensures
            s.text() == string@,
            s.range() == Some(range),
    {
        CascadeString { string, range: Some(range) }
    }

    /// Where the identifier was written.
    pub fn get_range(&self) -> (r: Option<Range<usize>>)
        ensures
            r == self.range(),
    {
        match &self.range {
            Some(range) => Some(copy_range(range)),
            None => None,
        }
    }

    /// The text of the identifier.
    pub fn as_str(&self) -> (s: &str)
        ensures
            s@ == self.text(),
    {
        self.string.as_str()
    }

    /// The text of the identifier, as a string of its own.
    pub fn to_string(&self) -> (s: String)
        ensures
            s@ == self.text(),
    {
        self.string.clone()
    }
}

impl Clone for CascadeString {
    fn clone(&self) -> (copy: Self)
        ensures
            copy == *self,
    {
        CascadeString { string: self.string.clone(), range: self.get_range() }
    }
}

impl From<String> for CascadeString {
    /// An identifier that was written nowhere.
    fn from(string: String) -> (s: Self)
        ensures
            s.text() == string@,
            s.range() is None,
    {
        CascadeString { string, range: None }
    }
}

impl vstd::std_specs::convert::FromSpecImpl<String> for CascadeString {
    open spec fn obeys_from_spec() -> bool {
        true
    }

    closed spec fn from_spec(string: String) -> Self {
        CascadeString { string, range: None }
    }
}

impl<'a> From<&'a str> for CascadeString {
    /// An identifier that was written nowhere.
    fn from(text: &'a str) -> (s: Self)
        ensures
            s.text() == text@,
            s.range() is None,
    {
        CascadeString { string: text.to_owned(), range: None }
    }
}

impl<'a> vstd::std_specs::convert::FromSpecImpl<&'a str> for CascadeString {
    /// The new identifier owns a string that no specification can name, so
    /// the result is described by the `ensures` of `from` alone.
    open spec fn obeys_from_spec() -> bool {
        false
    }

    closed spec fn from_spec(text: &'a str) -> Self {
        arbitrary()
    }
}

impl Key for CascadeString {
    open spec fn name(&self) -> Seq<char> {
        self.text()
    }

    fn as_name(&self) -> (s: &str) {
        self.string.as_str()
    }

    proof fn lemma_clone_keeps_name(&self, copy: &Self) {
    }
}

} // verus!
