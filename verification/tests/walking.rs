use acon::{Acon, Table};

fn text(s: &str) -> Acon {
    Acon::String(s.to_string())
}

fn sample() -> Acon {
    "top level\n{ t\n k v\n [ a\n  zero\n  one\n  { n\n   deep down\n  }\n ]\n}\n{\n anonymous yes\n}\n"
        .parse::<Acon>()
        .unwrap()
}

#[test]
fn accessors_give_the_variants() {
    let tree = sample();
    assert_eq!(tree.table().len(), 3);
    assert_eq!(tree.get("top").unwrap().string(), "level");
    assert_eq!(tree.path("t.a").unwrap().array().len(), 3);
}

#[test]
fn get_looks_up_one_level() {
    let tree = sample();
    assert_eq!(tree.get("top"), Some(&text("level")));
    assert_eq!(tree.get("missing"), None);
    assert_eq!(tree.get("t.k"), None);
    assert_eq!(tree.get("").unwrap().get("anonymous"), Some(&text("yes")));
    assert_eq!(text("scalar").get("0"), None);
    assert_eq!(text("scalar").get(""), None);
}

#[test]
fn array_keys_are_read_as_usize_is_parsed() {
    let tree = "[ a\n zero\n one\n two\n]\n".parse::<Acon>().unwrap();
    let array = tree.get("a").unwrap();
    let keys = [
        "0", "1", "2", "3", "+1", "+", "", "-0", "-1", "01", "001", " 1", "1 ", "1_0", "0x1",
        "\u{ff11}", "\u{661}", "18446744073709551615", "18446744073709551616",
        "99999999999999999999999999", "++1", "+-1", "1+",
        "00000000000000000000000000000000000002", "+00000000000000000000000000000000000000",
        "2.0", "two", "1e0", "٢",
    ];
    for key in keys {
        let expected = match key.parse::<usize>() {
            Ok(i) => array.array().get(i),
            Err(_) => None,
        };
        assert_eq!(array.get(key), expected, "key {:?}", key);
    }
    assert_eq!(array.get("2"), Some(&text("two")));
    assert_eq!(array.get("+2"), Some(&text("two")));
    assert_eq!(array.get("3"), None);
}

#[test]
fn get_on_an_array_never_fails_on_odd_keys() {
    let empty = Acon::Array(Vec::new());
    for key in ["0", "", "x", "-1", "340282366920938463463374607431768211456", "\u{0}", "."] {
        assert_eq!(empty.get(key), None, "key {:?}", key);
    }
}

#[test]
fn path_walks_the_segments() {
    let tree = sample();
    assert_eq!(tree.path("top"), Some(&text("level")));
    assert_eq!(tree.path("t.k"), Some(&text("v")));
    assert_eq!(tree.path("t.a.0"), Some(&text("zero")));
    assert_eq!(tree.path("t.a.2.n.deep"), Some(&text("down")));
    assert_eq!(tree.path(".anonymous"), Some(&text("yes")));
    assert_eq!(tree.path(""), tree.get(""));
    assert_eq!(tree.path("t.a.3"), None);
    assert_eq!(tree.path("t.k.more"), None);
    assert_eq!(tree.path("t."), None);
    assert_eq!(tree.path("t..k"), None);
    assert_eq!(tree.path("nope.t"), None);
}

#[test]
fn get_mut_gives_the_child_for_writing() {
    let mut tree = sample();
    *tree.get_mut("top").unwrap() = text("changed");
    assert_eq!(tree.get("top"), Some(&text("changed")));
    assert!(tree.get_mut("missing").is_none());
    let array = tree.get_mut("t").unwrap().get_mut("a").unwrap();
    *array.get_mut("1").unwrap() = Acon::Array(vec![text("inner")]);
    assert!(array.get_mut("3").is_none());
    assert!(array.get_mut("one").is_none());
    assert_eq!(tree.path("t.a.1.0"), Some(&text("inner")));
    assert_eq!(tree.path("t.a.0"), Some(&text("zero")));
    assert_eq!(tree.path("t.k"), Some(&text("v")));
    assert!(text("scalar").get_mut("0").is_none());
}

#[test]
fn path_mut_gives_the_value_for_writing() {
    let mut tree = sample();
    let before = tree.clone();
    assert!(tree.path_mut("t.a.7").is_none());
    assert!(tree.path_mut("t.k.x").is_none());
    assert_eq!(tree, before);
    *tree.path_mut("t.a.2.n.deep").unwrap() = text("up");
    assert_eq!(tree.path("t.a.2.n.deep"), Some(&text("up")));
    *tree.path_mut(".anonymous").unwrap() = Acon::Table(Table::new());
    assert_eq!(tree.path(".anonymous").unwrap().table().len(), 0);
    assert_eq!(tree.path("t.k"), before.path("t.k"));
    assert_eq!(tree.path("top"), before.path("top"));
    match tree.path_mut("t.a") {
        Some(Acon::Array(items)) => items.push(text("three")),
        _ => panic!("no array at t.a"),
    }
    assert_eq!(tree.path("t.a.3"), Some(&text("three")));
}

#[test]
fn clone_is_equal_and_apart() {
    let tree = sample();
    let mut copy = tree.clone();
    assert_eq!(copy, tree);
    *copy.path_mut("t.k").unwrap() = text("other");
    assert_ne!(copy, tree);
    assert_eq!(tree.path("t.k"), Some(&text("v")));
    let table = tree.table().clone();
    assert_eq!(&table, tree.table());
}
