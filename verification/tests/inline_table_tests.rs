use inline_table::{
    Decor, Formatted, InlineEntry, InlineTable, Item, Key, TableLike, Value,
};

fn ival(n: i64) -> Value {
    Value::Integer(Formatted::new(n))
}

fn text(s: &str) -> Value {
    Value::String(Formatted::new(s.to_string()))
}

fn table_of(pairs: &[(&str, i64)]) -> InlineTable {
    let mut t = InlineTable::new();
    for (k, v) in pairs {
        t.insert_formatted(&Key::with_key(k), ival(*v));
    }
    t
}

fn keys_of(t: &InlineTable) -> Vec<String> {
    t.iter().into_iter().map(|(k, _)| k.to_string()).collect()
}

fn ints_of(t: &InlineTable) -> Vec<(String, i64)> {
    t.iter()
        .into_iter()
        .map(|(k, v)| (k.to_string(), v.as_integer().unwrap()))
        .collect()
}

fn empty_item(t: &mut InlineTable, key: &str) {
    let item = TableLike::get_mut(t, key).unwrap();
    *item = Item::Empty;
}

#[test]
fn new_table_is_empty() {
    let t = InlineTable::new();
    assert_eq!(t.len(), 0);
    assert!(t.is_empty());
    assert!(!t.is_dotted());
    assert!(t.iter().is_empty());
    assert!(t.get("a").is_none());
    assert!(!t.contains_key("a"));
}

#[test]
fn insert_then_get() {
    let mut t = InlineTable::new();
    assert!(t.insert_formatted(&Key::with_key("a"), ival(1)).is_none());
    assert_eq!(t.get("a").unwrap().as_integer(), Some(1));
    assert_eq!(t.len(), 1);
    assert!(!t.is_empty());
    assert!(t.contains_key("a"));
    assert!(!t.contains_key("b"));
}

#[test]
fn insert_existing_returns_old_and_moves_last() {
    let mut t = table_of(&[("a", 1), ("b", 2), ("c", 3)]);
    let old = t.insert_formatted(&Key::with_key("a"), ival(10));
    assert_eq!(old.unwrap().as_integer(), Some(1));
    assert_eq!(
        ints_of(&t),
        vec![("b".to_string(), 2), ("c".to_string(), 3), ("a".to_string(), 10)]
    );
    assert_eq!(t.len(), 3);
}

#[test]
fn insert_keeps_key_whitespace() {
    let mut t = InlineTable::new();
    let key = Key::with_decor("k", Decor::new("\t", "  "));
    t.insert_formatted(&key, ival(5));
    let d = t.decor("k").unwrap();
    assert_eq!(d.prefix(), "\t");
    assert_eq!(d.suffix(), "  ");
    assert!(t.decor("missing").is_none());
}

#[test]
fn get_mut_changes_in_place() {
    let mut t = table_of(&[("a", 1), ("b", 2)]);
    *t.get_mut("a").unwrap() = ival(7);
    assert!(t.get_mut("zzz").is_none());
    assert_eq!(ints_of(&t), vec![("a".to_string(), 7), ("b".to_string(), 2)]);
}

#[test]
fn remove_present_and_missing() {
    let mut t = table_of(&[("a", 1), ("b", 2), ("c", 3)]);
    assert_eq!(t.remove("b").unwrap().as_integer(), Some(2));
    assert_eq!(t.len(), 2);
    assert!(t.get("b").is_none());
    assert!(t.remove("b").is_none());
    assert_eq!(keys_of(&t), vec!["a".to_string(), "c".to_string()]);
}

#[test]
fn remove_entry_gives_key_and_value() {
    let mut t = InlineTable::new();
    t.insert_formatted(&Key::with_decor("x", Decor::new(" ", "")), text("v"));
    let (k, v) = t.remove_entry("x").unwrap();
    assert_eq!(k.get(), "x");
    assert_eq!(k.decor().prefix(), " ");
    assert_eq!(v.as_str(), Some("v"));
    assert!(t.is_empty());
    assert!(t.remove_entry("x").is_none());
}

#[test]
fn empty_items_are_not_values() {
    let mut t = table_of(&[("a", 1), ("b", 2)]);
    empty_item(&mut t, "a");
    assert!(!t.contains_key("a"));
    assert!(t.get("a").is_none());
    assert!(t.get_mut("a").is_none());
    assert_eq!(t.len(), 1);
    assert_eq!(keys_of(&t), vec!["b".to_string()]);
    assert!(TableLike::get(&t, "a").unwrap().is_none());
    // the key is still there: removing it takes the entry out, with no value
    assert!(t.remove_entry("a").is_none());
    assert_eq!(TableLike::iter(&t).len(), 1);
}

#[test]
fn get_or_insert_existing_and_new() {
    let mut t = table_of(&[("a", 1)]);
    assert_eq!(t.get_or_insert("a", ival(9)).as_integer(), Some(1));
    *t.get_or_insert("b", ival(2)) = ival(3);
    assert_eq!(ints_of(&t), vec![("a".to_string(), 1), ("b".to_string(), 3)]);
    let d = t.decor("b").unwrap();
    assert_eq!(d.prefix(), "");
    assert_eq!(d.suffix(), "");
}

#[test]
fn clear_empties() {
    let mut t = table_of(&[("a", 1), ("b", 2)]);
    t.set_dotted(true);
    t.clear();
    assert!(t.is_empty());
    assert_eq!(t.len(), 0);
    assert!(t.is_dotted());
}

#[test]
fn iter_mut_changes_values() {
    let mut t = table_of(&[("a", 1), ("b", 2), ("c", 3)]);
    empty_item(&mut t, "b");
    {
        let pairs = t.iter_mut();
        assert_eq!(pairs.len(), 2);
        for (k, v) in pairs {
            let n = v.as_integer().unwrap();
            assert!(k == "a" || k == "c");
            *v = ival(n * 10);
        }
    }
    assert_eq!(ints_of(&t), vec![("a".to_string(), 10), ("c".to_string(), 30)]);
}

#[test]
fn into_iter_gives_owned_pairs() {
    let mut t = table_of(&[("a", 1), ("b", 2), ("c", 3)]);
    empty_item(&mut t, "b");
    let pairs = t.into_pairs();
    assert_eq!(pairs.len(), 2);
    assert_eq!(pairs[0].0, "a");
    assert_eq!(pairs[0].1.as_integer(), Some(1));
    assert_eq!(pairs[1].0, "c");
    assert_eq!(pairs[1].1.as_integer(), Some(3));
}

#[test]
fn from_iter_last_wins() {
    let t = InlineTable::from_iter(vec![
        (Key::with_key("a"), ival(1)),
        (Key::with_key("b"), ival(2)),
        (Key::with_key("a"), ival(3)),
    ]);
    assert_eq!(ints_of(&t), vec![("b".to_string(), 2), ("a".to_string(), 3)]);
}

#[test]
fn extend_adds_in_order() {
    let mut t = table_of(&[("x", 0)]);
    t.extend(vec![(Key::with_key("y"), ival(1)), (Key::with_key("x"), ival(2))]);
    assert_eq!(ints_of(&t), vec![("y".to_string(), 1), ("x".to_string(), 2)]);
}

#[test]
fn sort_orders_values_by_key_bytes() {
    let mut t = table_of(&[("b", 1), ("é", 2), ("a", 3), ("B", 4), ("ab", 5)]);
    t.sort();
    assert_eq!(
        keys_of(&t),
        vec![
            "B".to_string(),
            "a".to_string(),
            "ab".to_string(),
            "b".to_string(),
            "é".to_string()
        ]
    );
    assert_eq!(t.get("é").unwrap().as_integer(), Some(2));
}

#[test]
fn sort_puts_empty_items_first() {
    let mut t = table_of(&[("c", 1), ("z", 2), ("b", 3), ("y", 4)]);
    empty_item(&mut t, "z");
    empty_item(&mut t, "y");
    t.sort();
    let all: Vec<String> = TableLike::iter(&t).into_iter().map(|(k, _)| k.to_string()).collect();
    assert_eq!(
        all,
        vec!["z".to_string(), "y".to_string(), "b".to_string(), "c".to_string()]
    );
}

#[test]
fn fmt_decorates_keys_and_values() {
    let mut t = table_of(&[("a", 1), ("b", 2), ("c", 3)]);
    empty_item(&mut t, "c");
    t.fmt();
    let da = t.decor("a").unwrap();
    assert_eq!((da.prefix(), da.suffix()), (" ", " "));
    let va = t.get("a").unwrap().decor();
    assert_eq!((va.prefix(), va.suffix()), (" ", ""));
    let vb = t.get("b").unwrap().decor();
    assert_eq!((vb.prefix(), vb.suffix()), (" ", " "));
    // an entry that holds no value is left as it is
    let dc = t.decor("c").unwrap();
    assert_eq!((dc.prefix(), dc.suffix()), ("", ""));
    assert_eq!(t.get("b").unwrap().as_integer(), Some(2));
}

#[test]
fn fmt_single_value_is_trailing() {
    let mut t = table_of(&[("only", 1)]);
    t.fmt();
    let v = t.get("only").unwrap().decor();
    assert_eq!((v.prefix(), v.suffix()), (" ", " "));
}

#[test]
fn dotted_flag() {
    let mut t = InlineTable::new();
    assert!(!t.is_dotted());
    t.set_dotted(true);
    assert!(t.is_dotted());
    t.set_dotted(false);
    assert!(!t.is_dotted());
}

#[test]
fn get_values_flattens_dotted_tables() {
    let mut inner = table_of(&[("x", 1), ("y", 2)]);
    inner.set_dotted(true);
    let plain = table_of(&[("z", 3)]);
    let mut t = InlineTable::new();
    t.insert_formatted(&Key::with_key("a"), ival(0));
    t.insert_formatted(&Key::with_key("d"), Value::InlineTable(inner));
    t.insert_formatted(&Key::with_key("p"), Value::InlineTable(plain));
    let mut children = Vec::new();
    t.get_values(&mut children);
    let paths: Vec<Vec<String>> = children
        .iter()
        .map(|(path, _)| path.iter().map(|k| k.get().to_string()).collect())
        .collect();
    assert_eq!(
        paths,
        vec![
            vec!["a".to_string()],
            vec!["d".to_string(), "x".to_string()],
            vec!["d".to_string(), "y".to_string()],
            vec!["p".to_string()],
        ]
    );
    assert_eq!(children[1].1.as_integer(), Some(1));
    assert!(children[3].1.is_inline_table());
}

#[test]
fn get_values_appends() {
    let t = table_of(&[("a", 1)]);
    let other = table_of(&[("b", 2)]);
    let mut children = Vec::new();
    other.get_values(&mut children);
    t.get_values(&mut children);
    assert_eq!(children.len(), 2);
    assert_eq!(children[0].0[0].get(), "b");
    assert_eq!(children[1].0[0].get(), "a");
}

#[test]
fn entry_key() {
    let mut t = table_of(&[("a", 1)]);
    assert_eq!(t.entry("a").key(), "a");
    assert_eq!(t.entry("b").key(), "b");
}

#[test]
fn entry_or_insert() {
    let mut t = table_of(&[("a", 1)]);
    assert_eq!(t.entry("a").or_insert(ival(5)).as_integer(), Some(1));
    *t.entry("b").or_insert(ival(5)) = ival(6);
    assert_eq!(ints_of(&t), vec![("a".to_string(), 1), ("b".to_string(), 6)]);
}

#[test]
fn entry_or_insert_with() {
    let mut t = table_of(&[("a", 1)]);
    assert_eq!(t.entry("a").or_insert_with(|| ival(2)).as_integer(), Some(1));
    assert_eq!(t.entry("c").or_insert_with(|| ival(3)).as_integer(), Some(3));
    assert_eq!(ints_of(&t), vec![("a".to_string(), 1), ("c".to_string(), 3)]);
}

#[test]
fn occupied_entry_operations() {
    let mut t = table_of(&[("a", 1), ("b", 2)]);
    match t.entry("a") {
        InlineEntry::Occupied(mut e) => {
            assert_eq!(e.key(), "a");
            assert_eq!(e.get().as_integer(), Some(1));
            *e.get_mut() = ival(4);
            let old = e.insert(ival(5));
            assert_eq!(old.as_integer(), Some(4));
        }
        InlineEntry::Vacant(_) => panic!("expected an occupied entry"),
    }
    // insert keeps the entry in its place
    assert_eq!(ints_of(&t), vec![("a".to_string(), 5), ("b".to_string(), 2)]);
    match t.entry("b") {
        InlineEntry::Occupied(e) => {
            assert_eq!(e.remove().as_integer(), Some(2));
        }
        InlineEntry::Vacant(_) => panic!("expected an occupied entry"),
    }
    assert_eq!(keys_of(&t), vec!["a".to_string()]);
    match t.entry("a") {
        InlineEntry::Occupied(e) => {
            *e.into_mut() = ival(8);
        }
        InlineEntry::Vacant(_) => panic!("expected an occupied entry"),
    }
    assert_eq!(t.get("a").unwrap().as_integer(), Some(8));
}

#[test]
fn vacant_entry_insert() {
    let mut t = table_of(&[("a", 1)]);
    match t.entry("n") {
        InlineEntry::Vacant(e) => {
            assert_eq!(e.key(), "n");
            assert_eq!(e.insert(ival(2)).as_integer(), Some(2));
        }
        InlineEntry::Occupied(_) => panic!("expected a vacant entry"),
    }
    assert_eq!(ints_of(&t), vec![("a".to_string(), 1), ("n".to_string(), 2)]);
    let d = t.decor("n").unwrap();
    assert_eq!((d.prefix(), d.suffix()), ("", ""));
}

#[test]
fn entry_format_keeps_key_whitespace() {
    let mut t = InlineTable::new();
    let key = Key::with_decor("k", Decor::new("  ", "\t"));
    match t.entry_format(&key) {
        InlineEntry::Vacant(e) => {
            e.insert(ival(1));
        }
        InlineEntry::Occupied(_) => panic!("expected a vacant entry"),
    }
    let d = t.decor("k").unwrap();
    assert_eq!((d.prefix(), d.suffix()), ("  ", "\t"));
    let other = Key::with_decor("k", Decor::new("x", "y"));
    match t.entry_format(&other) {
        InlineEntry::Occupied(e) => assert_eq!(e.get().as_integer(), Some(1)),
        InlineEntry::Vacant(_) => panic!("expected an occupied entry"),
    }
}

#[test]
fn entry_on_empty_item_gives_empty_table() {
    let mut t = table_of(&[("a", 1)]);
    empty_item(&mut t, "a");
    match t.entry("a") {
        InlineEntry::Occupied(e) => {
            let v = e.get();
            assert!(v.is_inline_table());
            assert!(v.as_inline_table().unwrap().is_empty());
        }
        InlineEntry::Vacant(_) => panic!("expected an occupied entry"),
    }
    assert!(t.contains_key("a"));
}

#[test]
fn table_like_access() {
    let mut t = table_of(&[("a", 1), ("b", 2)]);
    let all = TableLike::iter(&t);
    assert_eq!(all.len(), 2);
    assert_eq!(all[1].0, "b");
    assert!(all[1].1.is_value());
    assert!(TableLike::get(&t, "a").unwrap().as_value().is_some());
    assert!(TableLike::get(&t, "q").is_none());
    *TableLike::get_mut(&mut t, "b").unwrap() = Item::Value(ival(20));
    assert!(TableLike::get_mut(&mut t, "q").is_none());
    assert_eq!(t.get("b").unwrap().as_integer(), Some(20));
}

#[test]
fn key_and_decor_basics() {
    let k = Key::with_key("name");
    assert_eq!(k.get(), "name");
    assert_eq!(k.decor().prefix(), "");
    let mut k2 = k.clone();
    *k2.decor_mut() = Decor::new("a", "b");
    assert_eq!(k2.get(), "name");
    assert_eq!(k2.decor().suffix(), "b");
    assert_eq!(k.decor().suffix(), "");
    let d = Decor::default();
    assert_eq!((d.prefix(), d.suffix()), ("", ""));
}

#[test]
fn value_decorate_and_accessors() {
    let mut v = text("hi");
    v.decorate(" ", "\n");
    assert_eq!(v.decor().prefix(), " ");
    assert_eq!(v.decor().suffix(), "\n");
    assert_eq!(v.as_str(), Some("hi"));
    assert_eq!(v.as_integer(), None);
    let b = Value::Boolean(Formatted::new(true));
    assert_eq!(b.as_bool(), Some(true));
    let mut tv = Value::InlineTable(InlineTable::new());
    tv.decorate("<", ">");
    assert_eq!(tv.decor().prefix(), "<");
    assert!(tv.as_inline_table().unwrap().is_empty());
}

#[test]
fn law_get_after_insert_example() {
    let mut t = table_of(&[("a", 1), ("b", 2)]);
    t.insert_formatted(&Key::with_key("b"), ival(3));
    assert_eq!(t.get("b").unwrap().as_integer(), Some(3));
    assert_eq!(t.iter().last().unwrap().0, "b");
    assert_eq!(t.get("a").unwrap().as_integer(), Some(1));
}

#[test]
fn law_remove_undoes_insert_example() {
    let mut t = table_of(&[("a", 1), ("b", 2)]);
    t.insert_formatted(&Key::with_key("c"), ival(3));
    t.remove("c");
    assert_eq!(ints_of(&t), vec![("a".to_string(), 1), ("b".to_string(), 2)]);
}

#[test]
fn law_len_after_insert_and_remove_example() {
    let mut t = table_of(&[("a", 1)]);
    let n = t.len();
    t.insert_formatted(&Key::with_key("a"), ival(2));
    assert_eq!(t.len(), n);
    t.insert_formatted(&Key::with_key("b"), ival(2));
    assert_eq!(t.len(), n + 1);
    t.remove("b");
    assert_eq!(t.len(), n);
    t.remove("b");
    assert_eq!(t.len(), n);
}

#[test]
fn law_sort_keeps_lookup_example() {
    let mut t = table_of(&[("q", 1), ("p", 2), ("r", 3)]);
    t.sort();
    assert_eq!(t.get("q").unwrap().as_integer(), Some(1));
    assert_eq!(t.get("p").unwrap().as_integer(), Some(2));
    assert_eq!(t.get("r").unwrap().as_integer(), Some(3));
    assert_eq!(t.len(), 3);
}

#[test]
fn law_fmt_keeps_pairs_example() {
    let mut t = table_of(&[("q", 1), ("p", 2)]);
    t.fmt();
    assert_eq!(ints_of(&t), vec![("q".to_string(), 1), ("p".to_string(), 2)]);
}

#[test]
fn law_contains_key_iff_value_example() {
    let mut t = table_of(&[("a", 1), ("b", 2)]);
    empty_item(&mut t, "b");
    for k in ["a", "b", "c"] {
        assert_eq!(t.contains_key(k), t.get(k).is_some());
    }
}

#[test]
fn clone_copies_entries() {
    let mut t = table_of(&[("a", 1), ("b", 2)]);
    t.set_dotted(true);
    let mut c = t.clone();
    assert!(c.is_dotted());
    assert_eq!(ints_of(&c), ints_of(&t));
    c.insert_formatted(&Key::with_key("z"), ival(9));
    *c.get_mut("a").unwrap() = ival(100);
    assert_eq!(ints_of(&t), vec![("a".to_string(), 1), ("b".to_string(), 2)]);
    assert_eq!(c.len(), 3);
}

#[test]
fn default_is_new() {
    let t = InlineTable::default();
    assert!(t.is_empty());
    assert!(!t.is_dotted());
}

#[test]
fn for_loops_over_tables() {
    let mut t = table_of(&[("a", 1), ("b", 2)]);
    empty_item(&mut t, "a");
    let mut seen = Vec::new();
    for (k, v) in &t {
        seen.push((k.to_string(), v.as_integer().unwrap()));
    }
    assert_eq!(seen, vec![("b".to_string(), 2)]);
    let mut owned = Vec::new();
    for (k, v) in t {
        owned.push((k, v.as_integer().unwrap()));
    }
    assert_eq!(owned, vec![("b".to_string(), 2)]);
}

#[test]
fn into_pairs_matches_iter() {
    let t = table_of(&[("x", 5), ("y", 6)]);
    let expected = ints_of(&t);
    let got: Vec<(String, i64)> = t
        .into_pairs()
        .into_iter()
        .map(|(k, v)| (k, v.as_integer().unwrap()))
        .collect();
    assert_eq!(got, expected);
}

fn decors_of(t: &InlineTable) -> Vec<(String, String, String, String, String)> {
    t.iter()
        .into_iter()
        .map(|(k, v)| {
            let kd = t.decor(k).unwrap();
            let vd = v.decor();
            (
                k.to_string(),
                kd.prefix().to_string(),
                kd.suffix().to_string(),
                vd.prefix().to_string(),
                vd.suffix().to_string(),
            )
        })
        .collect()
}

#[test]
fn clone_keeps_items_and_whitespace() {
    let mut t = table_of(&[("a", 1), ("b", 2)]);
    t.insert_formatted(&Key::with_decor("s", Decor::new("  ", "\t")), text("x"));
    let mut inner = table_of(&[("n", 7)]);
    inner.set_dotted(true);
    t.insert_formatted(&Key::with_key("t"), Value::InlineTable(inner));
    t.fmt();
    let c = t.clone();
    assert_eq!(decors_of(&c), decors_of(&t));
    assert_eq!(c.get("s").unwrap().as_str(), Some("x"));
    assert_eq!(c.get("b").unwrap().as_integer(), Some(2));
    let ct = c.get("t").unwrap().as_inline_table().unwrap();
    assert!(ct.is_dotted());
    assert_eq!(ints_of(ct), vec![("n".to_string(), 7)]);
}

#[test]
fn fmt_twice_changes_nothing() {
    let mut t = table_of(&[("a", 1), ("b", 2), ("c", 3)]);
    empty_item(&mut t, "c");
    t.fmt();
    let once = t.clone();
    t.fmt();
    assert_eq!(decors_of(&t), decors_of(&once));
    assert_eq!(ints_of(&t), ints_of(&once));
    assert_eq!(t.decor("c").unwrap().prefix(), once.decor("c").unwrap().prefix());
}

#[test]
fn remove_after_insert_restores_table() {
    let mut t = table_of(&[("a", 1), ("b", 2)]);
    let before = t.clone();
    let key = Key::with_decor("k", Decor::new(" ", "  "));
    t.insert_formatted(&key, ival(3));
    let (k, v) = t.remove_entry("k").unwrap();
    assert_eq!(k.get(), "k");
    assert_eq!((k.decor().prefix(), k.decor().suffix()), (" ", "  "));
    assert_eq!(v.as_integer(), Some(3));
    assert_eq!(ints_of(&t), ints_of(&before));
    assert_eq!(decors_of(&t), decors_of(&before));
}

#[test]
fn dotted_flag_survives_other_operations() {
    let mut t = table_of(&[("b", 2), ("a", 1)]);
    t.set_dotted(true);
    t.insert_formatted(&Key::with_key("c"), ival(3));
    t.sort();
    t.fmt();
    t.remove("a");
    let _ = t.get_or_insert("d", ival(4));
    t.clear();
    assert!(t.is_dotted());
    assert!(!InlineTable::from_iter(vec![(Key::with_key("x"), ival(1))]).is_dotted());
}
