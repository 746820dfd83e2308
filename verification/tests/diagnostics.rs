use codespan_reporting::files::SimpleFile;
use symtab::declared::{Declaration, Declared};
use symtab::error::{CascadeErrors, CompileError, ErrorItem, InternalError};
use symtab::source::{copy_range, CascadeString};

fn file(name: &str) -> SimpleFile<String, String> {
    SimpleFile::new(name.to_string(), format!("line one of {}\nline two", name))
}

#[test]
fn compile_error_keeps_what_it_was_made_from() {
    let f = file("a.cas");
    let e = CompileError::new("Headline", &f, 3..9, "shown at the anchor");
    assert_eq!(e.message(), "Headline");
    assert_eq!(e.help(), "shown at the anchor");
    assert_eq!(e.range(), 3..9);
    assert_eq!(e.file().name(), "a.cas");
    assert_eq!(e.file().source(), "line one of a.cas\nline two");
    assert_eq!(e.additional_len(), 0);
}

#[test]
fn additional_messages_are_kept_in_the_order_given() {
    let e = CompileError::new("Headline", &file("a.cas"), 0..1, "")
        .add_additional_message(&file("b.cas"), 2..3, "first note")
        .add_additional_message(&file("c.cas"), 4..5, "second note");
    assert_eq!(e.additional_len(), 2);
    assert_eq!(e.additional(0).message(), "first note");
    assert_eq!(e.additional(0).file().name(), "b.cas");
    assert_eq!(e.additional(0).range(), 2..3);
    assert_eq!(e.additional(1).message(), "second note");
    assert_eq!(e.additional(1).file().name(), "c.cas");
    assert_eq!(e.additional(1).file().source(), "line one of c.cas\nline two");
    assert_eq!(e.additional(1).range(), 4..5);
    assert_eq!(e.file().name(), "a.cas");
}

#[test]
fn error_without_a_place_is_internal() {
    let f = file("a.cas");
    assert!(matches!(
        ErrorItem::make_compile_or_internal_error("m", Some(&f), Some(1..2), "h"),
        ErrorItem::Compile(_)
    ));
    assert!(matches!(
        ErrorItem::make_compile_or_internal_error("m", None, Some(1..2), "h"),
        ErrorItem::Internal(_)
    ));
    assert!(matches!(
        ErrorItem::make_compile_or_internal_error("m", Some(&f), None, "h"),
        ErrorItem::Internal(_)
    ));
    assert!(matches!(
        ErrorItem::make_compile_or_internal_error("m", None, None, "h"),
        ErrorItem::Internal(_)
    ));
}

#[test]
fn note_without_a_place_is_not_added() {
    let f = file("a.cas");
    let g = file("b.cas");
    let with_note = ErrorItem::make_compile_or_internal_error("m", Some(&f), Some(1..2), "h")
        .maybe_add_additional_message(Some(&g), Some(5..6), "note");
    match with_note {
        ErrorItem::Compile(e) => {
            assert_eq!(e.additional_len(), 1);
            assert_eq!(e.additional(0).message(), "note");
        }
        ErrorItem::Internal(_) => panic!("expected a compile diagnostic"),
    }
    for (note_file, note_range) in [(None, Some(5..6)), (Some(&g), None), (None, None)] {
        let item = ErrorItem::make_compile_or_internal_error("m", Some(&f), Some(1..2), "h")
            .maybe_add_additional_message(note_file, note_range, "note");
        match item {
            ErrorItem::Compile(e) => assert_eq!(e.additional_len(), 0),
            ErrorItem::Internal(_) => panic!("expected a compile diagnostic"),
        }
    }
    let internal = ErrorItem::Internal(InternalError::new())
        .maybe_add_additional_message(Some(&g), Some(5..6), "note");
    assert!(matches!(internal, ErrorItem::Internal(_)));
}

#[test]
fn errors_are_collected_in_order() {
    let mut errors = CascadeErrors::new();
    assert!(errors.is_empty());
    assert_eq!(errors.len(), 0);
    errors.add_error(ErrorItem::Internal(InternalError::new()));
    errors.add_error(ErrorItem::Compile(CompileError::new("one", &file("a.cas"), 0..1, "")));
    let mut more = CascadeErrors::from(ErrorItem::Compile(CompileError::new(
        "two",
        &file("b.cas"),
        0..1,
        "",
    )));
    more.add_error(ErrorItem::Internal(InternalError::new()));
    errors.append(more);
    assert!(!errors.is_empty());
    assert_eq!(errors.len(), 4);
    assert!(matches!(errors.get(0), ErrorItem::Internal(_)));
    match errors.get(1) {
        ErrorItem::Compile(e) => assert_eq!(e.message(), "one"),
        ErrorItem::Internal(_) => panic!("expected a compile diagnostic"),
    }
    match errors.get(2) {
        ErrorItem::Compile(e) => assert_eq!(e.message(), "two"),
        ErrorItem::Internal(_) => panic!("expected a compile diagnostic"),
    }
    assert!(matches!(errors.get(3), ErrorItem::Internal(_)));
}

#[test]
fn into_result_is_ok_only_without_errors() {
    assert_eq!(CascadeErrors::new().into_result(7).ok(), Some(7));
    let errors = CascadeErrors::from(ErrorItem::Internal(InternalError::new()));
    match errors.into_result(7) {
        Ok(_) => panic!("errors were dropped"),
        Err(kept) => assert_eq!(kept.len(), 1),
    }
}

#[test]
fn identifier_keeps_its_text_and_range() {
    let located = CascadeString::new("ident".to_string(), 4..9);
    assert_eq!(located.as_str(), "ident");
    assert_eq!(located.to_string(), "ident");
    assert_eq!(located.get_range(), Some(4..9));
    let copy = located.clone();
    assert_eq!(copy.as_str(), "ident");
    assert_eq!(copy.get_range(), Some(4..9));
    assert_eq!(CascadeString::from("bare").as_str(), "bare");
    assert_eq!(CascadeString::from("bare").get_range(), None);
    assert_eq!(CascadeString::from("owned".to_string()).as_str(), "owned");
    assert_eq!(CascadeString::from("owned".to_string()).get_range(), None);
    assert_eq!(copy_range(&(2..5)), 2..5);
}

#[test]
fn declaration_answers_with_what_it_was_made_from() {
    let d = Declaration::new(
        "function".to_string(),
        vec!["function".to_string(), "of:Foo".to_string()],
        Some(file("a.cas")),
        Some(11..14),
    );
    assert_eq!(d.get_generic_name(), "function");
    assert_eq!(d.get_secondary_indices(), vec!["function", "of:Foo"]);
    assert_eq!(d.get_name_range(), Some(11..14));
    let f = d.get_file().unwrap();
    assert_eq!(f.name(), "a.cas");
    assert_eq!(f.source(), "line one of a.cas\nline two");

    let synthetic = Declaration::new("type".to_string(), Vec::new(), None, None);
    assert!(synthetic.get_file().is_none());
    assert!(synthetic.get_name_range().is_none());
    assert!(synthetic.get_secondary_indices().is_empty());
}

#[test]
fn declaration_clone_answers_as_its_source() {
    let d = Declaration::new(
        "function".to_string(),
        vec!["function".to_string()],
        Some(file("a.cas")),
        Some(1..4),
    );
    let copy = d.clone();
    assert_eq!(copy.get_generic_name(), "function");
    assert_eq!(copy.get_secondary_indices(), vec!["function"]);
    assert_eq!(copy.get_name_range(), Some(1..4));
    assert_eq!(copy.get_file().unwrap().name(), "a.cas");
}
