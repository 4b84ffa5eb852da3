use acon::{Acon, Table};

fn text(s: &str) -> Acon {
    Acon::String(s.to_string())
}

#[test]
fn prints_strings_tables_and_arrays() {
    let tree = "b x y\n{ t\n k v\n [ a\n  one\n  two words\n ]\n}\n".parse::<Acon>().unwrap();
    assert_eq!(
        tree.render().unwrap(),
        "b x y\n{ t\n\t[ a\n\t\t one\n\t\t two words\n\n\t]\n\tk v\n\n}\n"
    );
}

#[test]
fn prints_the_empty_document_as_nothing() {
    assert_eq!(Table::new().render(), "");
    assert_eq!(Acon::Table(Table::new()).render(), Some(String::new()));
}

#[test]
fn prints_empty_blocks_and_empty_strings() {
    let mut table = Table::new();
    table.insert("t".to_string(), Acon::Table(Table::new()));
    table.insert("a".to_string(), Acon::Array(Vec::new()));
    table.insert("s".to_string(), text(""));
    table.insert("".to_string(), Acon::Array(vec![text(""), Acon::Array(Vec::new())]));
    assert_eq!(
        table.render(),
        "[ \n\t \n\t[ \n\n\t]\n\n]\n[ a\n\n]\ns \n{ t\n\n}\n"
    );
}

#[test]
fn only_a_table_is_a_document() {
    assert_eq!(text("x").render(), None);
    assert_eq!(Acon::Array(vec![text("x")]).render(), None);
    assert_eq!(Acon::Array(Vec::new()).render(), None);
}

#[test]
fn prints_in_the_order_of_the_keys() {
    let tree = "z 1\nm 2\na 3\n\u{e9} 4\nZ 5\n{ b\n}\n".parse::<Acon>().unwrap();
    assert_eq!(tree.render().unwrap(), "Z 5\na 3\n{ b\n\n}\nm 2\nz 1\n\u{e9} 4\n");
}

#[test]
fn indents_by_one_tab_for_each_level() {
    let tree = "{ a\n{ b\n{ c\nk v\n$".parse::<Acon>().unwrap();
    assert_eq!(tree.render().unwrap(), "{ a\n\t{ b\n\t\t{ c\n\t\t\tk v\n\n\t\t}\n\n\t}\n\n}\n");
}

#[test]
fn tables_come_back_from_their_print() {
    let texts = [
        "",
        "k v",
        "a 1\nb 2 3   4\nc\n",
        "{ t\n}\n",
        "{\n inner value\n}\n",
        "{ t\n k v\n { u\n  { w\n   deep  down\n  }\n  x y\n }\n}\n# a comment\n",
        "{ {\n $x y\n}\n{ $\n}\n{ ]\n}\n",
        "\u{e9} \u{1F600} \u{3042}\n{ \u{e9}t\u{e9}\n cl\u{e9} valeur\n}\n",
    ];
    for text in texts {
        let tree = text.parse::<Acon>().unwrap();
        let again = tree.render().unwrap().parse::<Acon>();
        assert_eq!(again, Ok(tree), "text {:?}", text);
    }
}

/// The tree with the empty string as one more element of every array.
fn with_blanks(tree: &Acon) -> Acon {
    match tree {
        Acon::Array(items) => {
            let mut again: Vec<Acon> = items.iter().map(with_blanks).collect();
            again.push(text(""));
            Acon::Array(again)
        }
        Acon::String(s) => Acon::String(s.clone()),
        Acon::Table(table) => {
            let mut again = Table::new();
            for i in 0..table.len() {
                again.insert(table.key(i).clone(), with_blanks(table.value(i)));
            }
            Acon::Table(again)
        }
    }
}

#[test]
fn arrays_come_back_with_one_more_empty_string() {
    let tree = "[ a\n x\n]\n".parse::<Acon>().unwrap();
    let again = tree.render().unwrap().parse::<Acon>().unwrap();
    assert_ne!(again, tree);
    assert_eq!(again.path("a.0"), Some(&text("x")));
    assert_eq!(again.path("a.1"), Some(&text("")));
    assert_eq!(again.path("a").unwrap().array().len(), 2);

    let texts = [
        "[ a\n]\n",
        "[\n]\n",
        "[ a\n one\n\n two  words\n]\nk v\n",
        "[ a\n [\n  [ named\n   x\n  ]\n  { t\n   k v\n  }\n  {\n   k v\n  }\n ]\n]\n",
        "{ t\n [ a\n  { u\n   [ b\n    1\n    2\n   ]\n  }\n ]\n}\n",
    ];
    for text in texts {
        let tree = text.parse::<Acon>().unwrap();
        let again = tree.render().unwrap().parse::<Acon>();
        assert_eq!(again, Ok(with_blanks(&tree)), "text {:?}", text);
    }
}
