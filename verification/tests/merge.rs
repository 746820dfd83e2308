use symtab::alias_map::AliasMap;
use symtab::declared::{Declaration, Declared};
use symtab::source::CascadeString;

fn decl(kind: &str, keys: &[&str]) -> Declaration {
    Declaration::new(
        kind.to_string(),
        keys.iter().map(|k| k.to_string()).collect(),
        None,
        None,
    )
}

fn kinds(found: &[&Declaration]) -> Vec<String> {
    found.iter().map(|d| d.get_generic_name()).collect()
}

fn names(table: &AliasMap<Declaration>) -> Vec<String> {
    table.iter().iter().map(|(name, _)| (*name).clone()).collect()
}

#[test]
fn append_unites_disjoint_tables() {
    let mut x: AliasMap<Declaration> = AliasMap::new();
    assert!(x.insert("p".to_string(), decl("at_p", &["k", "only_x"])).is_ok());
    assert!(x.insert("q".to_string(), decl("at_q", &["k"])).is_ok());
    let mut y: AliasMap<Declaration> = AliasMap::new();
    assert!(y.insert("r".to_string(), decl("at_r", &["k", "only_y"])).is_ok());

    x.append(&mut y);

    assert_eq!(names(&x), vec!["p", "q", "r"]);
    assert_eq!(
        kinds(&x.values_by_index("k".to_string())),
        vec!["at_p", "at_q", "at_r"]
    );
    assert_eq!(kinds(&x.values_by_index("only_x".to_string())), vec!["at_p"]);
    assert_eq!(kinds(&x.values_by_index("only_y".to_string())), vec!["at_r"]);
    assert_eq!(x.get("r").map(|d| d.get_generic_name()), Some("at_r".to_string()));
}

#[test]
fn append_leaves_the_other_table_empty() {
    let mut x: AliasMap<Declaration> = AliasMap::new();
    let mut y: AliasMap<Declaration> = AliasMap::new();
    assert!(y.insert("r".to_string(), decl("at_r", &["k"])).is_ok());
    y.add_alias(CascadeString::from("alias"), "r".to_string());

    x.append(&mut y);

    assert_eq!(y.len(), 0);
    assert!(y.get("r").is_none());
    assert!(y.get("alias").is_none());
    assert!(y.values_by_index("k".to_string()).is_empty());
    assert!(y.insert("r".to_string(), decl("again", &[])).is_ok());
}

#[test]
fn append_carries_aliases_over() {
    let mut x: AliasMap<Declaration> = AliasMap::new();
    assert!(x.insert("p".to_string(), decl("at_p", &["k"])).is_ok());
    x.add_alias(CascadeString::from("ap"), "p".to_string());
    let mut y: AliasMap<Declaration> = AliasMap::new();
    assert!(y.insert("r".to_string(), decl("at_r", &["k"])).is_ok());
    y.add_alias(CascadeString::from("ar"), "r".to_string());

    x.append(&mut y);

    assert_eq!(x.get("ap").map(|d| d.get_generic_name()), Some("at_p".to_string()));
    assert_eq!(x.get("ar").map(|d| d.get_generic_name()), Some("at_r".to_string()));
    assert_eq!(
        kinds(&x.values_by_index("k".to_string())),
        vec!["at_p", "at_r", "at_p", "at_r"]
    );
}

#[test]
fn append_lets_the_other_table_win_where_names_overlap() {
    let mut x: AliasMap<Declaration> = AliasMap::new();
    assert!(x.insert("n".to_string(), decl("from_x", &["kx"])).is_ok());
    x.add_alias(CascadeString::from("a"), "n".to_string());
    let mut y: AliasMap<Declaration> = AliasMap::new();
    assert!(y.insert("n".to_string(), decl("from_y", &["ky"])).is_ok());
    assert!(y.insert("m".to_string(), decl("at_m", &[])).is_ok());
    y.add_alias(CascadeString::from("a"), "m".to_string());

    x.append(&mut y);

    assert_eq!(names(&x), vec!["m", "n"]);
    assert_eq!(x.get("n").map(|d| d.get_generic_name()), Some("from_y".to_string()));
    assert_eq!(x.get("a").map(|d| d.get_generic_name()), Some("at_m".to_string()));
    assert_eq!(kinds(&x.values_by_index("kx".to_string())), vec!["at_m", "from_y"]);
    assert_eq!(kinds(&x.values_by_index("ky".to_string())), vec!["from_y"]);
}

#[test]
fn append_of_an_empty_table_changes_nothing() {
    let mut x: AliasMap<Declaration> = AliasMap::new();
    assert!(x.insert("p".to_string(), decl("at_p", &["k"])).is_ok());
    let mut y: AliasMap<Declaration> = AliasMap::new();
    x.append(&mut y);
    assert_eq!(names(&x), vec!["p"]);
    assert_eq!(kinds(&x.values_by_index("k".to_string())), vec!["at_p"]);
    y.append(&mut x);
    assert_eq!(names(&y), vec!["p"]);
    assert_eq!(x.len(), 0);
}
