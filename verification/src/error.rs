//! Structured diagnostics: what went wrong, where, and which earlier
//! declarations it concerns.

use crate::source::{clone_file, copy_range};
use codespan_reporting::files::SimpleFile;
use std::ops::Range;
use vstd::prelude::*;

verus! {

/// A note attached to a place in a source file.
#[derive(Debug)]
pub struct Annotation {
    file: SimpleFile<String, String>,
    range: Range<usize>,
    message: String,
}

/// What an annotation says, as plain values.
pub struct AnnotationView {
    pub file: SimpleFile<String, String>,
    pub range: Range<usize>,
    pub message: Seq<char>,
}

impl View for Annotation {
    type V = AnnotationView;

    closed spec fn view(&self) -> AnnotationView {
        AnnotationView { file: self.file, range: self.range, message: self.message@ }
    }
}

impl Annotation {
    /// The file the note points into.
    pub fn file(&self) -> (f: &SimpleFile<String, String>)
        ensures
            *f == self@.file,
    {
        &self.file
    }

    /// The byte range the note points at.
    pub fn range(&self) -> (r: Range<usize>)
        ensures
            r == self@.range,
    {
        copy_range(&self.range)
    }

    /// The text of the note.
    pub fn message(&self) -> (m: &str)
        ensures
            m@ == self@.message,
    {
        self.message.as_str()
    }
}

/// The views of a sequence of annotations.
pub open spec fn annotation_views(notes: Seq<Annotation>) -> Seq<AnnotationView> {
    Seq::new(notes.len(), |i: int| notes[i]@)
}

/// A diagnostic for the user: a message, the place it is anchored at with
/// the text shown there, and notes at other places.
#[derive(Debug)]
pub struct CompileError {
    message: String,
    file: SimpleFile<String, String>,
    range: Range<usize>,
    help: String,
    additional: Vec<Annotation>,
}

/// What a compile diagnostic says, as plain values.
pub struct CompileErrorView {
    pub message: Seq<char>,
    pub file: SimpleFile<String, String>,
    pub range: Range<usize>,
    pub help: Seq<char>,
    pub additional: Seq<AnnotationView>,
}

impl View for CompileError {
    type V = CompileErrorView;

    closed spec fn view(&self) -> CompileErrorView {
        CompileErrorView {
            message: self.message@,
            file: self.file,
            range: self.range,
            help: self.help@,
            additional: annotation_views(self.additional@),
        }
    }
}

impl CompileError {
    /// A diagnostic anchored at `range` of `file`, with no further notes.
    pub fn new(msg: &str, file: &SimpleFile<String, String>, range: Range<usize>, help: &str) -> (e:
        Self)
        ensures
            e@ == (CompileErrorView {
                message: msg@,
                file: *file,
                range,
                help: help@,
                additional: Seq::empty(),
            }),
    {
        let e = CompileError {
            message: msg.to_owned(),
            file: clone_file(file),
            range,
            help: help.to_owned(),
            additional: Vec::new(),
        };
        assert(e@.additional =~= Seq::empty());
        e
    }

    /// The same diagnostic with one more note, after those it had.
    pub fn add_additional_message(
        self,
        file: &SimpleFile<String, String>,
        range: Range<usize>,
        help: &str,
    ) -> (e: Self)
        ensures
            e@ == (CompileErrorView {
                additional: self@.additional.push(
                    AnnotationView { file: *file, range, message: help@ },
                ),
                ..self@
            }),
    {
        let mut e = self;
        let note = Annotation { file: clone_file(file), range, message: help.to_owned() };
        e.additional.push(note);
        assert(e@.additional =~= self@.additional.push(note@));
        e
    }

    /// The headline of the diagnostic.
    pub fn message(&self) -> (m: &str)
        ensures
            m@ == self@.message,
    {
        self.message.as_str()
    }

    /// The file the diagnostic is anchored in.
    pub fn file(&self) -> (f: &SimpleFile<String, String>)
        ensures
            *f == self@.file,
    {
        &self.file
    }

    /// The byte range the diagnostic is anchored at.
    pub fn range(&self) -> (r: Range<usize>)
        ensures
            r == self@.range,
    {
        copy_range(&self.range)
    }

    /// The text shown at the anchor.
    pub fn help(&self) -> (h: &str)
        ensures
            h@ == self@.help,
    {
        self.help.as_str()
    }

    /// The number of further notes.
    pub fn additional_len(&self) -> (n: usize)
        ensures
            n == self@.additional.len(),
    {
        self.additional.len()
    }

    /// One of the further notes.
    pub fn additional(&self, i: usize) -> (note: &Annotation)
        requires
            i < self@.additional.len(),
        ensures
            note@ == self@.additional[i as int],
    {
        &self.additional[i]
    }
}

/// The mark of an inconsistency inside the compiler: a conflict for which
/// no place in any source can be named.
#[derive(Debug)]
pub struct InternalError {}

impl InternalError {
    pub fn new() -> Self {
        InternalError {  }
    }
}

/// One reported problem.
#[derive(Debug)]
pub enum ErrorItem {
    Compile(CompileError),
    Internal(InternalError),
}

/// What a reported problem says, as plain values.
pub enum ErrorItemView {
    Compile(CompileErrorView),
    Internal,
}

impl View for ErrorItem {
    type V = ErrorItemView;

    open spec fn view(&self) -> ErrorItemView {
        match self {
            ErrorItem::Compile(e) => ErrorItemView::Compile(e@),
            ErrorItem::Internal(_) => ErrorItemView::Internal,
        }
    }
}

/// The diagnostic anchored at a place, where the place is known in full;
/// the internal error where the file or the range is missing.
pub open spec fn compile_or_internal(
    msg: Seq<char>,
    file: Option<SimpleFile<String, String>>,
    range: Option<Range<usize>>,
    help: Seq<char>,
) -> ErrorItemView {
    match (file, range) {
        (Some(f), Some(r)) => ErrorItemView::Compile(
            CompileErrorView { message: msg, file: f, range: r, help, additional: Seq::empty() },
        ),
        _ => ErrorItemView::Internal,
    }
}

/// A problem with one more note, where the problem is a diagnostic and the
/// note's place is known in full; the problem as it is otherwise.
pub open spec fn with_note(
    item: ErrorItemView,
    file: Option<SimpleFile<String, String>>,
    range: Option<Range<usize>>,
    help: Seq<char>,
) -> ErrorItemView {
    match (item, file, range) {
        (ErrorItemView::Compile(e), Some(f), Some(r)) => ErrorItemView::Compile(
            CompileErrorView {
                additional: e.additional.push(AnnotationView { file: f, range: r, message: help }),
                ..e
            },
        ),
        _ => item,
    }
}

impl ErrorItem {
    /// A diagnostic if there is a place to anchor it, an internal error if
    /// there is none.
    pub fn make_compile_or_internal_error(
        msg: &str,
        file: Option<&SimpleFile<String, String>>,
        range: Option<Range<usize>>,
        help: &str,
    ) -> (item: Self)
        ensures
            item@ == compile_or_internal(
                msg@,
                match file {
                    Some(f) => Some(*f),
                    None => None,
                },
                range,
                help@,
            ),
    {
        match (file, range) {
            (Some(f), Some(r)) => ErrorItem::Compile(CompileError::new(msg, f, r, help)),
            _ => ErrorItem::Internal(InternalError::new()),
        }
    }

    /// Adds a note to a diagnostic if the note has a place; changes nothing
    /// otherwise.
    pub fn maybe_add_additional_message(
        self,
        file: Option<&SimpleFile<String, String>>,
        range: Option<Range<usize>>,
        help: &str,
    ) -> (item: Self)
        ensures
            item@ == with_note(
                self@,
                match file {
                    Some(f) => Some(*f),
                    None => None,
                },
                range,
                help@,
            ),
    {
        match (self, file, range) {
            (ErrorItem::Compile(e), Some(f), Some(r)) => ErrorItem::Compile(
                e.add_additional_message(f, r, help),
            ),
            (item, _, _) => item,
        }
    }
}

/// The views of a sequence of problems.
pub open spec fn item_views(items: Seq<ErrorItem>) -> Seq<ErrorItemView> {
    Seq::new(items.len(), |i: int| items[i]@)
}

/// The problems found by one operation, in the order in which they were
/// found.
#[derive(Debug)]
pub struct CascadeErrors {
    errors: Vec<ErrorItem>,
}

impl View for CascadeErrors {
    type V = Seq<ErrorItemView>;

    closed spec fn view(&self) -> Seq<ErrorItemView> {
        item_views(self.errors@)
    }
}

impl CascadeErrors {
    /// No problems.
    pub fn new() -> (errors: Self)
        ensures
            errors@ == Seq::<ErrorItemView>::empty(),
    {
        let errors = CascadeErrors { errors: Vec::new() };
        assert(errors@ =~= Seq::<ErrorItemView>::empty());
        errors
    }

    /// Adds one problem after those already held.
    pub fn add_error(&mut self, item: ErrorItem)
        ensures
            final(self)@ == old(self)@.push(item@),
    {
        self.errors.push(item);
        assert(self@ =~= old(self)@.push(item@));
    }

    /// Adds the problems of `other` after those already held.
    pub fn append(&mut self, other: CascadeErrors)
        ensures
            final(self)@ == old(self)@ + other@,
    {
        let ghost added = other@;
        let mut other = other;
        self.errors.append(&mut other.errors);
        assert(self@ =~= old(self)@ + added);
    }

    /// Whether no problem is held.
    pub fn is_empty(&self) -> (b: bool)
        ensures
            b == (self@.len() == 0),
    {
        self.errors.len() == 0
    }

    /// The number of problems held.
    pub fn len(&self) -> (n: usize)
        ensures
            n == self@.len(),
    {
        self.errors.len()
    }

    /// One of the problems held.
    pub fn get(&self, i: usize) -> (item: &ErrorItem)
        requires
            i < self@.len(),
        ensures
            item@ == self@[i as int],
    {
        &self.errors[i]
    }

    /// `Ok` with the given value where no problem is held, the problems
    /// otherwise.
    pub fn into_result<T>(self, ok: T) -> (r: Result<T, CascadeErrors>)
        ensures
            match r {
                Ok(v) => self@.len() == 0 && v == ok,
                Err(e) => self@.len() > 0 && e == self,
            },
    {
        if self.errors.len() == 0 {
            Ok(ok)
        } else {
            Err(self)
        }
    }
}

impl From<ErrorItem> for CascadeErrors {
    /// The one problem, alone.
    fn from(item: ErrorItem) -> (errors: Self)
        ensures
            errors@ == seq![item@],
    {
        let mut held = Vec::new();
        held.push(item);
        let errors = CascadeErrors { errors: held };
        assert(errors@ =~= seq![item@]);
        errors
    }
}

impl vstd::std_specs::convert::FromSpecImpl<ErrorItem> for CascadeErrors {
    /// The new collection owns a vector that no specification can name, so
    /// the result is described by the `ensures` of `from` alone.
    open spec fn obeys_from_spec() -> bool {
        false
    }

    closed spec fn from_spec(item: ErrorItem) -> Self {
        arbitrary()
    }
}

} // verus!
