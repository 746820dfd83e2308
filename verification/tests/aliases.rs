use codespan_reporting::files::SimpleFile;
use symtab::alias_map::AliasMap;
use symtab::declared::{Declaration, Declared};
use symtab::error::ErrorItem;
use symtab::ordered::OrderedMap;
use symtab::source::CascadeString;

fn decl(kind: &str, keys: &[&str]) -> Declaration {
    Declaration::new(
        kind.to_string(),
        keys.iter().map(|k| k.to_string()).collect(),
        None,
        None,
    )
}

fn located(kind: &str, keys: &[&str], file: &str, start: usize, end: usize) -> Declaration {
    Declaration::new(
        kind.to_string(),
        keys.iter().map(|k| k.to_string()).collect(),
        Some(SimpleFile::new(file.to_string(), format!("source of {}", file))),
        Some(start..end),
    )
}

fn kinds(found: &[&Declaration]) -> Vec<String> {
    found.iter().map(|d| d.get_generic_name()).collect()
}

fn alias_map(pairs: &[(&str, usize, usize, &str)]) -> OrderedMap<CascadeString, String> {
    let mut map = OrderedMap::new();
    for (alias, start, end, target) in pairs {
        map.insert(
            CascadeString::new(alias.to_string(), *start..*end),
            target.to_string(),
        );
    }
    map
}

fn file_map(pairs: &[(&str, &str)]) -> OrderedMap<CascadeString, SimpleFile<String, String>> {
    let mut map = OrderedMap::new();
    for (alias, file) in pairs {
        map.insert(
            CascadeString::from(*alias),
            SimpleFile::new(file.to_string(), format!("source of {}", file)),
        );
    }
    map
}

#[test]
fn alias_and_target_return_the_same_stored_entity() {
    let mut table: AliasMap<Declaration> = AliasMap::new();
    assert!(table.insert("c".to_string(), decl("type", &[])).is_ok());
    table.add_alias(CascadeString::from("a"), "c".to_string());
    let by_alias = table.get("a").unwrap();
    let by_name = table.get("c").unwrap();
    assert!(std::ptr::eq(by_alias, by_name));
    assert_eq!(table.len(), 1);
}

#[test]
fn alias_resolution_takes_one_step_only() {
    let mut table: AliasMap<Declaration> = AliasMap::new();
    assert!(table.insert("c".to_string(), decl("at_c", &[])).is_ok());
    assert!(table.insert("d".to_string(), decl("at_d", &[])).is_ok());
    table.add_alias(CascadeString::from("c"), "d".to_string());
    table.add_alias(CascadeString::from("a"), "c".to_string());
    assert_eq!(table.get("a").map(|e| e.get_generic_name()), Some("at_c".to_string()));
    assert_eq!(table.get("c").map(|e| e.get_generic_name()), Some("at_d".to_string()));
    table.add_alias(CascadeString::from("x"), "y".to_string());
    table.add_alias(CascadeString::from("y"), "d".to_string());
    assert!(table.get("x").is_none());
}

#[test]
fn alias_registered_after_its_target_is_filed_under_the_targets_keys() {
    let mut table: AliasMap<Declaration> = AliasMap::new();
    assert!(table.insert("c".to_string(), decl("type", &["K", "L"])).is_ok());
    assert!(table.insert("other".to_string(), decl("function", &["M"])).is_ok());
    table.add_alias(CascadeString::from("a"), "c".to_string());
    let c = table.get("c").unwrap();
    for key in ["K", "L"] {
        let found = table.values_by_index(key.to_string());
        assert_eq!(found.len(), 2);
        assert!(std::ptr::eq(found[0], c));
        assert!(std::ptr::eq(found[1], c));
    }
    assert_eq!(kinds(&table.values_by_index("M".to_string())), vec!["function"]);
}

#[test]
fn alias_registered_before_its_target_resolves_but_is_not_filed() {
    let mut table: AliasMap<Declaration> = AliasMap::new();
    table.add_alias(CascadeString::from("a"), "later".to_string());
    assert!(table.get("a").is_none());
    assert!(table.insert("later".to_string(), decl("type", &["K"])).is_ok());
    assert_eq!(table.get("a").map(|e| e.get_generic_name()), Some("type".to_string()));
    assert_eq!(table.values_by_index("K".to_string()).len(), 1);
}

#[test]
fn add_alias_redirects_an_alias_that_is_already_registered() {
    let mut table: AliasMap<Declaration> = AliasMap::new();
    assert!(table.insert("one".to_string(), decl("first", &["K1"])).is_ok());
    assert!(table.insert("two".to_string(), decl("second", &["K2"])).is_ok());
    table.add_alias(CascadeString::from("a"), "one".to_string());
    table.add_alias(CascadeString::from("a"), "two".to_string());
    assert_eq!(table.get("a").map(|e| e.get_generic_name()), Some("second".to_string()));
    assert_eq!(
        kinds(&table.values_by_index("K1".to_string())),
        vec!["second", "first"]
    );
    assert_eq!(
        kinds(&table.values_by_index("K2".to_string())),
        vec!["second", "second"]
    );
}

#[test]
fn set_aliases_files_each_alias_whose_target_exists() {
    let mut table: AliasMap<Declaration> = AliasMap::new();
    assert!(table.insert("Foo".to_string(), decl("type", &["type"])).is_ok());
    assert!(table.insert("bar".to_string(), decl("function", &["function"])).is_ok());
    table.set_aliases(alias_map(&[
        ("F", 0, 1, "Foo"),
        ("b", 2, 3, "bar"),
        ("g", 4, 5, "ghost"),
    ]));
    assert_eq!(table.get("F").map(|e| e.get_generic_name()), Some("type".to_string()));
    assert_eq!(table.get("b").map(|e| e.get_generic_name()), Some("function".to_string()));
    assert!(table.get("g").is_none());
    assert_eq!(kinds(&table.values_by_index("type".to_string())), vec!["type", "type"]);
    assert_eq!(
        kinds(&table.values_by_index("function".to_string())),
        vec!["function", "function"]
    );
    assert_eq!(table.len(), 2);
}

#[test]
fn set_aliases_replaces_the_aliases_held_before() {
    let mut table: AliasMap<Declaration> = AliasMap::new();
    assert!(table.insert("Foo".to_string(), decl("type", &["type"])).is_ok());
    table.add_alias(CascadeString::from("old"), "Foo".to_string());
    assert!(table.get("old").is_some());
    table.set_aliases(alias_map(&[("new", 0, 3, "Foo")]));
    assert!(table.get("old").is_none());
    assert!(table.get("new").is_some());
    assert_eq!(kinds(&table.values_by_index("type".to_string())), vec!["type", "type"]);
}

#[test]
fn set_aliases_resolves_targets_through_the_aliases_held_before() {
    let mut table: AliasMap<Declaration> = AliasMap::new();
    assert!(table.insert("real".to_string(), decl("type", &["K"])).is_ok());
    table.add_alias(CascadeString::from("mid"), "real".to_string());
    table.set_aliases(alias_map(&[("top", 0, 3, "mid")]));
    assert!(table.get("top").is_none());
    assert_eq!(table.values_by_index("K".to_string()).len(), 1);
}

#[test]
fn validate_aliases_accepts_aliases_that_collide_with_nothing() {
    let mut table: AliasMap<Declaration> = AliasMap::new();
    assert!(table.insert("Foo".to_string(), decl("type", &[])).is_ok());
    let aliases = alias_map(&[("a", 0, 1, "Foo"), ("b", 2, 3, "Foo")]);
    let files = file_map(&[("a", "a.cas"), ("b", "b.cas")]);
    assert!(table.validate_aliases(&aliases, &files).is_ok());
    assert!(table
        .validate_aliases(&OrderedMap::new(), &OrderedMap::new())
        .is_ok());
}

#[test]
fn validate_aliases_reports_one_conflict_for_each_colliding_name() {
    let mut table: AliasMap<Declaration> = AliasMap::new();
    assert!(table
        .insert("Foo".to_string(), located("type", &[], "decls.cas", 10, 13))
        .is_ok());
    assert!(table.insert("bar".to_string(), decl("function", &[])).is_ok());
    assert!(table.insert("quux".to_string(), decl("type", &[])).is_ok());
    let aliases = alias_map(&[
        ("fine", 1, 5, "Foo"),
        ("bar", 30, 33, "Foo"),
        ("also_fine", 6, 15, "bar"),
        ("Foo", 20, 23, "bar"),
    ]);
    let files = file_map(&[
        ("fine", "fine.cas"),
        ("bar", "bar_alias.cas"),
        ("also_fine", "fine.cas"),
        ("Foo", "foo_alias.cas"),
    ]);
    let errors = table.validate_aliases(&aliases, &files).unwrap_err();
    assert_eq!(errors.len(), 2);
    match errors.get(0) {
        ErrorItem::Compile(e) => {
            assert_eq!(e.message(), "Alias name conflicts with an existing type");
            assert_eq!(e.help(), "");
            assert_eq!(e.file().name(), "foo_alias.cas");
            assert_eq!(e.range(), 20..23);
            assert_eq!(e.additional_len(), 1);
            assert_eq!(e.additional(0).message(), "Existing type found here");
            assert_eq!(e.additional(0).file().name(), "decls.cas");
            assert_eq!(e.additional(0).range(), 10..13);
        }
        ErrorItem::Internal(_) => panic!("expected a compile diagnostic"),
    }
    match errors.get(1) {
        ErrorItem::Compile(e) => {
            assert_eq!(e.message(), "Alias name conflicts with an existing function");
            assert_eq!(e.file().name(), "bar_alias.cas");
            assert_eq!(e.range(), 30..33);
            assert_eq!(e.additional_len(), 0);
        }
        ErrorItem::Internal(_) => panic!("expected a compile diagnostic"),
    }
    assert_eq!(table.len(), 3);
}

#[test]
fn validate_aliases_looks_at_canonical_names_only() {
    let mut table: AliasMap<Declaration> = AliasMap::new();
    assert!(table.insert("Foo".to_string(), decl("type", &[])).is_ok());
    table.add_alias(CascadeString::from("Baz"), "Foo".to_string());
    let aliases = alias_map(&[("Baz", 0, 3, "Foo")]);
    let files = file_map(&[("Baz", "a.cas")]);
    assert!(table.validate_aliases(&aliases, &files).is_ok());
}

#[test]
fn colliding_alias_without_a_place_is_an_internal_error() {
    let mut table: AliasMap<Declaration> = AliasMap::new();
    assert!(table
        .insert("Foo".to_string(), located("type", &[], "decls.cas", 10, 13))
        .is_ok());
    assert!(table.insert("bar".to_string(), decl("function", &[])).is_ok());

    let no_file = alias_map(&[("Foo", 0, 3, "bar")]);
    let errors = table
        .validate_aliases(&no_file, &OrderedMap::new())
        .unwrap_err();
    assert_eq!(errors.len(), 1);
    assert!(matches!(errors.get(0), ErrorItem::Internal(_)));

    let mut no_range = OrderedMap::new();
    no_range.insert(CascadeString::from("bar"), "Foo".to_string());
    let errors = table
        .validate_aliases(&no_range, &file_map(&[("bar", "a.cas")]))
        .unwrap_err();
    assert_eq!(errors.len(), 1);
    assert!(matches!(errors.get(0), ErrorItem::Internal(_)));
}
