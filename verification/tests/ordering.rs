use symtab::names::{compare, Rank};
use symtab::name_set::NameSet;
use symtab::ordered::{Key, OrderedMap};
use symtab::source::CascadeString;

fn as_rank(order: std::cmp::Ordering) -> Rank {
    match order {
        std::cmp::Ordering::Less => Rank::Before,
        std::cmp::Ordering::Equal => Rank::Same,
        std::cmp::Ordering::Greater => Rank::After,
    }
}

#[test]
fn compare_orders_names_by_their_characters() {
    assert_eq!(compare("a", "b"), Rank::Before);
    assert_eq!(compare("b", "a"), Rank::After);
    assert_eq!(compare("abc", "abc"), Rank::Same);
    assert_eq!(compare("", ""), Rank::Same);
    assert_eq!(compare("", "a"), Rank::Before);
    assert_eq!(compare("a", ""), Rank::After);
    assert_eq!(compare("ab", "abc"), Rank::Before);
    assert_eq!(compare("abd", "abc"), Rank::After);
    assert_eq!(compare("Zebra", "apple"), Rank::Before);
    assert_eq!(compare("b", "abc"), Rank::After);
}

#[test]
fn compare_orders_by_code_point_beyond_ascii() {
    assert_eq!(compare("z", "\u{e9}"), Rank::Before);
    assert_eq!(compare("\u{e9}", "\u{4e2d}"), Rank::Before);
    assert_eq!(compare("\u{ffee}", "\u{1f600}"), Rank::Before);
    assert_eq!(compare("a\u{1f600}", "a\u{1f600}"), Rank::Same);
}

#[test]
fn compare_agrees_with_the_order_of_strings() {
    let words = [
        "", "a", "A", "ab", "b", "ba", "of:Foo", "of:bar", "type", "\u{e9}t\u{e9}", "\u{7f}",
        "\u{80}", "\u{7ff}", "\u{800}", "\u{ffff}", "\u{10000}", "z\u{10ffff}", "zz",
    ];
    for x in words {
        for y in words {
            assert_eq!(compare(x, y), as_rank(x.cmp(y)), "{:?} against {:?}", x, y);
        }
    }
}

#[test]
fn ordered_map_finds_what_was_inserted() {
    let mut map: OrderedMap<String, u32> = OrderedMap::new();
    assert_eq!(map.len(), 0);
    assert!(map.get("a").is_none());
    for (i, name) in ["m", "c", "x", "a", "e", "b", "z"].iter().enumerate() {
        assert!(map.insert(name.to_string(), i as u32).is_none());
    }
    assert_eq!(map.len(), 7);
    assert_eq!(map.get("m"), Some(&0));
    assert_eq!(map.get("a"), Some(&3));
    assert_eq!(map.get("z"), Some(&6));
    assert!(map.get("d").is_none());
    assert!(map.contains_key("e"));
    assert!(!map.contains_key("f"));
    assert_eq!(map.position("a"), Some(0));
    assert_eq!(map.position("z"), Some(6));
    assert_eq!(map.position("n"), None);
}

#[test]
fn ordered_map_iterates_in_ascending_order() {
    let mut map: OrderedMap<String, u32> = OrderedMap::new();
    for (i, name) in ["m", "c", "x", "a"].iter().enumerate() {
        map.insert(name.to_string(), i as u32);
    }
    let entries: Vec<(String, u32)> = map.iter().iter().map(|(k, v)| ((*k).clone(), **v)).collect();
    assert_eq!(
        entries,
        vec![
            ("a".to_string(), 3),
            ("c".to_string(), 1),
            ("m".to_string(), 0),
            ("x".to_string(), 2)
        ]
    );
    let values: Vec<u32> = map.values().iter().map(|v| **v).collect();
    assert_eq!(values, vec![3, 1, 0, 2]);
    assert_eq!(map.key_at(1), "c");
    assert_eq!(*map.value_at(1), 1);
}

#[test]
fn ordered_map_insert_replaces_the_value_and_keeps_the_key() {
    let mut map: OrderedMap<CascadeString, u32> = OrderedMap::new();
    assert_eq!(
        map.insert(CascadeString::new("a".to_string(), 1..2), 10),
        None
    );
    assert_eq!(
        map.insert(CascadeString::new("a".to_string(), 7..9), 20),
        Some(10)
    );
    assert_eq!(map.len(), 1);
    assert_eq!(map.get("a"), Some(&20));
    assert_eq!(map.key_at(0).get_range(), Some(1..2));
}

#[test]
fn ordered_map_gives_exclusive_access() {
    let mut map: OrderedMap<String, u32> = OrderedMap::new();
    map.insert("b".to_string(), 2);
    map.insert("a".to_string(), 1);
    assert!(map.get_mut("c").is_none());
    *map.get_mut("b").unwrap() = 20;
    *map.value_mut_at(0) = 10;
    assert_eq!(map.get("a"), Some(&10));
    assert_eq!(map.get("b"), Some(&20));
}

#[test]
fn ordered_map_pops_the_greatest_name() {
    let mut map: OrderedMap<String, u32> = OrderedMap::new();
    assert!(map.pop_last().is_none());
    map.insert("b".to_string(), 2);
    map.insert("c".to_string(), 3);
    map.insert("a".to_string(), 1);
    assert_eq!(map.pop_last(), Some(("c".to_string(), 3)));
    assert_eq!(map.pop_last(), Some(("b".to_string(), 2)));
    assert_eq!(map.len(), 1);
    assert_eq!(map.get("a"), Some(&1));
}

#[test]
fn ordered_map_append_prefers_the_other_map() {
    let mut left: OrderedMap<String, u32> = OrderedMap::new();
    left.insert("a".to_string(), 1);
    left.insert("c".to_string(), 3);
    let mut right: OrderedMap<String, u32> = OrderedMap::new();
    right.insert("b".to_string(), 20);
    right.insert("c".to_string(), 30);
    left.append(&mut right);
    assert_eq!(right.len(), 0);
    let entries: Vec<(String, u32)> =
        left.iter().iter().map(|(k, v)| ((*k).clone(), **v)).collect();
    assert_eq!(
        entries,
        vec![("a".to_string(), 1), ("b".to_string(), 20), ("c".to_string(), 30)]
    );
}

#[test]
fn name_set_holds_each_name_once_in_order() {
    let mut set = NameSet::new();
    assert_eq!(set.len(), 0);
    assert!(set.insert("m".to_string()));
    assert!(set.insert("a".to_string()));
    assert!(!set.insert("m".to_string()));
    assert!(set.insert("z".to_string()));
    assert_eq!(set.len(), 3);
    assert!(set.contains("a"));
    assert!(!set.contains("b"));
    assert_eq!(set.name_at(0), "a");
    assert_eq!(set.name_at(1), "m");
    assert_eq!(set.name_at(2), "z");
}

#[test]
fn name_set_append_is_union() {
    let mut left = NameSet::new();
    left.insert("a".to_string());
    left.insert("c".to_string());
    let mut right = NameSet::new();
    right.insert("b".to_string());
    right.insert("c".to_string());
    left.append(&mut right);
    assert_eq!(right.len(), 0);
    assert_eq!(left.len(), 3);
    assert_eq!(left.name_at(0), "a");
    assert_eq!(left.name_at(1), "b");
    assert_eq!(left.name_at(2), "c");
}

#[test]
fn keys_are_found_by_their_text() {
    assert_eq!("plain".to_string().as_name(), "plain");
    assert_eq!(CascadeString::new("ident".to_string(), 3..8).as_name(), "ident");
}

#[test]
fn ordered_map_gives_up_its_entries_in_ascending_order() {
    let mut map: OrderedMap<String, u32> = OrderedMap::new();
    for (i, name) in ["m", "c", "x", "a"].iter().enumerate() {
        map.insert(name.to_string(), i as u32);
    }
    assert_eq!(
        map.into_entries(),
        vec![
            ("a".to_string(), 3),
            ("c".to_string(), 1),
            ("m".to_string(), 0),
            ("x".to_string(), 2)
        ]
    );
    let empty: OrderedMap<String, u32> = OrderedMap::new();
    assert!(empty.into_entries().is_empty());
}

#[test]
fn clones_hold_what_the_source_held() {
    let mut map: OrderedMap<CascadeString, u32> = OrderedMap::new();
    map.insert(CascadeString::new("b".to_string(), 4..5), 2);
    map.insert(CascadeString::from("a"), 1);
    let mut copy = map.clone();
    copy.insert(CascadeString::from("c"), 3);
    assert_eq!(map.len(), 2);
    assert_eq!(copy.len(), 3);
    assert_eq!(copy.get("b"), Some(&2));
    assert_eq!(copy.key_at(1).get_range(), Some(4..5));

    let mut set = NameSet::new();
    set.insert("x".to_string());
    let mut other = set.clone();
    other.insert("y".to_string());
    assert_eq!(set.len(), 1);
    assert_eq!(other.len(), 2);
    assert!(other.contains("x"));
}
