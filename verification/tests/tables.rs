use acon::{Acon, Array, Table};

fn text(s: &str) -> Acon {
    Acon::String(s.to_string())
}

#[test]
fn table_keeps_its_keys_sorted_and_unique() {
    let mut table = Table::new();
    assert!(table.is_empty());
    assert_eq!(table.len(), 0);
    assert_eq!(table.insert("m".to_string(), text("1")), None);
    assert_eq!(table.insert("a".to_string(), text("2")), None);
    assert_eq!(table.insert("z".to_string(), text("3")), None);
    assert_eq!(table.insert("ab".to_string(), text("4")), None);
    assert_eq!(table.insert("".to_string(), text("5")), None);
    assert_eq!(table.insert("m".to_string(), text("6")), Some(text("1")));
    assert_eq!(table.len(), 5);
    assert!(!table.is_empty());
    let keys: Vec<&str> = (0..table.len()).map(|i| table.key(i).as_str()).collect();
    assert_eq!(keys, vec!["", "a", "ab", "m", "z"]);
    let values: Vec<&Acon> = (0..table.len()).map(|i| table.value(i)).collect();
    assert_eq!(values, vec![&text("5"), &text("2"), &text("4"), &text("6"), &text("3")]);
}

#[test]
fn table_finds_what_it_holds() {
    let mut table = Table::new();
    for (i, key) in ["k", "b", "x", "a", "y", "c", "z", "\u{e9}", "K"].iter().enumerate() {
        assert_eq!(table.insert(key.to_string(), text(&i.to_string())), None);
    }
    assert_eq!(table.get("k"), Some(&text("0")));
    assert_eq!(table.get("z"), Some(&text("6")));
    assert_eq!(table.get("\u{e9}"), Some(&text("7")));
    assert_eq!(table.get("K"), Some(&text("8")));
    assert_eq!(table.get("d"), None);
    assert_eq!(table.get(""), None);
    assert_eq!(table.get("kk"), None);
    assert!(table.contains_key("a"));
    assert!(!table.contains_key("A"));
    *table.get_mut("x").unwrap() = Acon::Array(Vec::new());
    assert_eq!(table.get("x"), Some(&Acon::Array(Vec::new())));
    assert!(table.get_mut("nope").is_none());
    assert_eq!(table.len(), 9);
}

#[test]
fn tables_are_equal_whatever_the_order_of_insertion() {
    let mut one = Table::new();
    let mut other = Table::new();
    let keys = ["d", "a", "c", "b", "e"];
    for key in keys {
        one.insert(key.to_string(), text(key));
    }
    for key in keys.iter().rev() {
        other.insert(key.to_string(), text(key));
    }
    assert_eq!(one, other);
    other.insert("a".to_string(), text("else"));
    assert_ne!(one, other);
}

#[test]
fn many_keys_stay_in_order() {
    let mut table = Table::new();
    let mut state: u64 = 1;
    let mut expected = std::collections::BTreeMap::new();
    for _ in 0..2000 {
        state = state.wrapping_mul(6364136223846793005).wrapping_add(1442695040888963407);
        let key = format!("k{}", (state >> 40) % 700);
        let value = format!("{}", state >> 50);
        assert_eq!(
            table.insert(key.clone(), text(&value)),
            expected.insert(key, value).map(|old| text(&old))
        );
    }
    assert_eq!(table.len(), expected.len());
    for (i, (key, value)) in expected.iter().enumerate() {
        assert_eq!(table.key(i), key);
        assert_eq!(table.value(i), &text(value));
        assert_eq!(table.get(key), Some(&text(value)));
    }
}

#[test]
fn arrays_are_vectors_of_values() {
    let mut items: Array = Array::new();
    items.push(text("x"));
    let array = Acon::Array(items);
    assert_eq!(array.array().len(), 1);
    assert_eq!(array.get("0"), Some(&text("x")));
}
