use acon::{Acon, AconError};
use std::collections::BTreeMap;

/// A tree of plain std collections, to compare parsed trees with.
#[derive(Debug, PartialEq, Clone)]
enum Plain {
    Array(Vec<Plain>),
    String(String),
    Table(BTreeMap<String, Plain>),
}

fn plain(tree: &Acon) -> Plain {
    match tree {
        Acon::Array(items) => Plain::Array(items.iter().map(plain).collect()),
        Acon::String(text) => Plain::String(text.clone()),
        Acon::Table(table) => {
            let mut map = BTreeMap::new();
            for i in 0..table.len() {
                let fresh = map.insert(table.key(i).clone(), plain(table.value(i)));
                assert!(fresh.is_none(), "a key occurs twice");
                if i > 0 {
                    assert!(table.key(i - 1) < table.key(i), "the keys are not in order");
                }
            }
            Plain::Table(map)
        }
    }
}

/// Puts a closed nesting into the one below it.
fn put(parent: &mut (String, Plain), child: (String, Plain), line: usize) -> Result<(), AconError> {
    match &mut parent.1 {
        Plain::Array(items) => {
            if child.0.is_empty() {
                items.push(child.1);
            } else {
                let mut wrapper = BTreeMap::new();
                wrapper.insert(child.0, child.1);
                items.push(Plain::Table(wrapper));
            }
            Ok(())
        }
        Plain::Table(map) => {
            if map.contains_key(&child.0) {
                return Err(AconError::OverwritingKey(Some(line)));
            }
            map.insert(child.0, child.1);
            Ok(())
        }
        Plain::String(_) => unreachable!(),
    }
}

/// Reads a document with the line and word splitting of std.
fn read(text: &str) -> Result<Plain, AconError> {
    let mut stack: Vec<(String, Plain)> = vec![(String::new(), Plain::Table(BTreeMap::new()))];
    let mut number = 0;
    for line in text.lines() {
        number += 1;
        let words: Vec<&str> = line.split_whitespace().collect();
        let name = words.get(1).unwrap_or(&"").to_string();
        match words.first().copied() {
            Some("{") => stack.push((name, Plain::Table(BTreeMap::new()))),
            Some("[") => stack.push((name, Plain::Array(Vec::new()))),
            Some(word @ "}") | Some(word @ "]") => {
                let top = stack.pop().unwrap();
                match top.1 {
                    Plain::Array(_) if word != "]" => {
                        return Err(AconError::WrongClosingDelimiterExpectedArray(Some(number)))
                    }
                    Plain::Table(_) if word != "}" => {
                        return Err(AconError::WrongClosingDelimiterExpectedTable(Some(number)))
                    }
                    _ => {}
                }
                match stack.last_mut() {
                    Some(parent) => put(parent, top, number)?,
                    None => return Err(AconError::ExcessiveClosingDelimiter(Some(number))),
                }
            }
            Some("$") => {
                while stack.len() > 1 {
                    let top = stack.pop().unwrap();
                    put(stack.last_mut().unwrap(), top, number)?;
                }
            }
            first => match &mut stack.last_mut().unwrap().1 {
                Plain::Array(items) => items.push(Plain::String(words.join(" "))),
                Plain::Table(map) => {
                    if let Some(key) = first {
                        if map.contains_key(key) {
                            return Err(AconError::OverwritingKey(Some(number)));
                        }
                        map.insert(key.to_string(), Plain::String(words[1..].join(" ")));
                    }
                }
                Plain::String(_) => unreachable!(),
            },
        }
    }
    let top = stack.pop().unwrap();
    match top.1 {
        Plain::Array(_) => Err(AconError::TopNodeIsArray),
        Plain::Table(_) if !stack.is_empty() => Err(AconError::MultipleTopNodes),
        table => Ok(table),
    }
}

fn parsed(text: &str) -> Result<Plain, AconError> {
    text.parse::<Acon>().map(|tree| plain(&tree))
}

/// A small generator of numbers, the same on every run.
struct Dice(u64);

impl Dice {
    fn roll(&mut self, sides: usize) -> usize {
        self.0 = self.0.wrapping_mul(6364136223846793005).wrapping_add(1442695040888963407);
        ((self.0 >> 33) as usize) % sides
    }
}

#[test]
fn reads_as_a_reader_built_on_std_does() {
    let pieces = [
        "{", "}", "[", "]", "$", "a", "b", "c", "key", "#", "\u{e9}", "x.y", "0", " ", " ", "  ",
        "\t", "\n", "\n", "\n", "\n", "\r\n", "\r", "\u{2003}", "\u{a0}", "\u{b}", "\u{85}",
    ];
    let mut dice = Dice(2024);
    let mut accepted = 0;
    let mut refused = 0;
    for round in 0..20000 {
        let length = dice.roll(1 + round % 40);
        let mut text = String::new();
        for _ in 0..length {
            text.push_str(pieces[dice.roll(pieces.len())]);
        }
        let expected = read(&text);
        assert_eq!(parsed(&text), expected, "text {:?}", text);
        match expected {
            Ok(_) => accepted += 1,
            Err(_) => refused += 1,
        }
    }
    assert!(accepted > 1000, "only {} texts were accepted", accepted);
    assert!(refused > 1000, "only {} texts were refused", refused);
}

#[test]
fn reads_well_formed_documents_as_a_reader_built_on_std_does() {
    let keys = ["a", "b", "c", "d", "e", "f", "g", "h", "k1", "k2", "\u{e9}", "#", "$x", "{}"];
    let mut dice = Dice(7);
    for _ in 0..3000 {
        let mut text = String::new();
        let mut open: Vec<char> = Vec::new();
        let lines = dice.roll(30);
        for _ in 0..lines {
            for _ in 0..open.len() {
                text.push('\t');
            }
            let key = keys[dice.roll(keys.len())];
            match dice.roll(8) {
                0 => {
                    text.push_str("{ ");
                    text.push_str(key);
                    open.push('}');
                }
                1 => {
                    text.push_str("[ ");
                    text.push_str(key);
                    open.push(']');
                }
                2 => {
                    text.push_str("[");
                    open.push(']');
                }
                3 => {
                    if let Some(closer) = open.pop() {
                        text.push(closer);
                    }
                }
                4 => {}
                _ => {
                    text.push_str(key);
                    text.push_str("  some   value ");
                }
            }
            text.push('\n');
        }
        if dice.roll(2) == 0 {
            text.push_str("$ and what follows is not read\n");
        } else {
            while let Some(closer) = open.pop() {
                text.push(closer);
                text.push('\n');
            }
        }
        assert_eq!(parsed(&text), read(&text), "text {:?}", text);
    }
}

#[test]
fn nested_table_is_found_by_its_path() {
    let tree = "{ t\n k v\n }".parse::<Acon>().unwrap();
    assert_eq!(tree.path("t.k"), Some(&Acon::String("v".to_string())));
    assert!(matches!(tree, Acon::Table(_)));
}

#[test]
fn empty_text_is_the_empty_document() {
    let tree = "".parse::<Acon>().unwrap();
    assert_eq!(tree.table().len(), 0);
    let tree = "\n\n  \n\t\n".parse::<Acon>().unwrap();
    assert!(tree.table().is_empty());
}

#[test]
fn second_occurrence_of_a_key_is_refused_at_its_line() {
    assert_eq!(
        "key value1\nkey2 value2\nkey value3\nkey2 value4".parse::<Acon>(),
        Err(AconError::OverwritingKey(Some(3)))
    );
    assert_eq!(
        "{ t\n [ a\n  { u\n   k 1\n   k 2\n".parse::<Acon>(),
        Err(AconError::OverwritingKey(Some(5)))
    );
    assert_eq!("[ a\n]\n{ a\n}\n".parse::<Acon>(), Err(AconError::OverwritingKey(Some(4))));
    assert_eq!("{\n}\n[\n]\n".parse::<Acon>(), Err(AconError::OverwritingKey(Some(4))));
    assert_eq!("a\n{ a\n$\n".parse::<Acon>(), Err(AconError::OverwritingKey(Some(3))));
}

#[test]
fn same_key_in_an_array_is_no_duplicate() {
    let tree = "[ a\n k 1\n k 1\n { t\n }\n { t\n }\n]\n".parse::<Acon>().unwrap();
    assert_eq!(tree.path("a.0"), Some(&Acon::String("k 1".to_string())));
    assert_eq!(tree.path("a.1"), Some(&Acon::String("k 1".to_string())));
    assert_eq!(tree.path("a.2.t").unwrap().table().len(), 0);
    assert_eq!(tree.path("a.3.t").unwrap().table().len(), 0);
}

#[test]
fn unterminated_nesting_is_reported_by_its_kind() {
    assert_eq!("[ a\n v".parse::<Acon>(), Err(AconError::TopNodeIsArray));
    assert_eq!("{ a\n k v".parse::<Acon>(), Err(AconError::MultipleTopNodes));
    assert_eq!("[ a\n { t\n".parse::<Acon>(), Err(AconError::MultipleTopNodes));
    assert_eq!("{ t\n [ a\n".parse::<Acon>(), Err(AconError::TopNodeIsArray));
}

#[test]
fn wrong_and_excessive_closers_are_told_apart() {
    assert_eq!("[ a\n}".parse::<Acon>(), Err(AconError::WrongClosingDelimiterExpectedArray(Some(2))));
    assert_eq!("{ a\n]".parse::<Acon>(), Err(AconError::WrongClosingDelimiterExpectedTable(Some(2))));
    assert_eq!("}".parse::<Acon>(), Err(AconError::ExcessiveClosingDelimiter(Some(1))));
    assert_eq!("]".parse::<Acon>(), Err(AconError::WrongClosingDelimiterExpectedTable(Some(1))));
    assert_eq!("a b\n\n{ t\n}\n}".parse::<Acon>(), Err(AconError::ExcessiveClosingDelimiter(Some(5))));
    assert_eq!("$\n}".parse::<Acon>(), Err(AconError::ExcessiveClosingDelimiter(Some(2))));
}

#[test]
fn dollar_closes_three_nestings_as_three_closers_do() {
    let by_dollar = "{ a\n [ b\n  { c\n   k v\n$\nlast line".parse::<Acon>().unwrap();
    let by_closers = "{ a\n [ b\n  { c\n   k v\n  }\n ]\n}\nlast line".parse::<Acon>().unwrap();
    assert_eq!(by_dollar, by_closers);
    assert_eq!(by_dollar.path("a.b.0.c.k"), Some(&Acon::String("v".to_string())));
    assert_eq!(by_dollar.path("last"), Some(&Acon::String("line".to_string())));
}

#[test]
fn dollar_with_nothing_open_changes_nothing() {
    let tree = "a 1\n$\n$ again\nb 2".parse::<Acon>().unwrap();
    assert_eq!(tree.table().len(), 2);
}

#[test]
fn blank_lines_are_elements_in_arrays_and_nothing_in_tables() {
    let tree = "[ a\n\n\n$".parse::<Acon>().unwrap();
    assert_eq!(tree.path("a.0"), Some(&Acon::String("".to_string())));
    assert_eq!(tree.path("a.1"), Some(&Acon::String("".to_string())));
    assert_eq!(tree.path("a.2"), None);
    let tree = "{ t\n\n \t \n k v\n\n}\n\n".parse::<Acon>().unwrap();
    assert_eq!(tree.path("t").unwrap().table().len(), 1);
    assert_eq!(tree.table().len(), 1);
}

#[test]
fn values_are_normalized_and_keys_are_first_words() {
    let tree = "  key \t some   value\u{3000}here  \r\nlone\n".parse::<Acon>().unwrap();
    assert_eq!(tree.get("key"), Some(&Acon::String("some value here".to_string())));
    assert_eq!(tree.get("lone"), Some(&Acon::String("".to_string())));
    let tree = "[ a\n  one   two \n{x\n".parse::<Acon>().unwrap_err();
    assert_eq!(tree, AconError::TopNodeIsArray);
    let tree = "[ a\n  one   two \n{x\n]".parse::<Acon>().unwrap();
    assert_eq!(tree.path("a.0"), Some(&Acon::String("one two".to_string())));
    assert_eq!(tree.path("a.1"), Some(&Acon::String("{x".to_string())));
}

#[test]
fn escape_codes_are_kept_as_they_are() {
    let tree = "key(32)with_space(46)and_dot value(10)with(10)new(10)lines, which is interesting"
        .parse::<Acon>()
        .unwrap();
    assert_eq!(
        tree.path("key(32)with_space(46)and_dot").unwrap().string(),
        "value(10)with(10)new(10)lines, which is interesting"
    );
}

#[test]
fn hash_lines_are_ordinary_entries() {
    let tree = "# a comment\nk v".parse::<Acon>().unwrap();
    assert_eq!(tree.get("#"), Some(&Acon::String("a comment".to_string())));
    assert_eq!("# one\n# two".parse::<Acon>(), Err(AconError::OverwritingKey(Some(2))));
    let tree = "[ a\n# one\n# two\n]".parse::<Acon>().unwrap();
    assert_eq!(tree.path("a.1"), Some(&Acon::String("# two".to_string())));
}

#[test]
fn only_the_second_word_names_a_nesting() {
    let tree = "{ name and more words\n}\n[ { ]\n]\n".parse::<Acon>().unwrap();
    assert_eq!(tree.get("name").unwrap().table().len(), 0);
    assert_eq!(tree.get("{").unwrap().array().len(), 0);
}

#[test]
fn parse_and_from_str_agree() {
    let text = "a 1\n{ t\n b 2\n}\n[ l\n x\n]\n";
    assert_eq!(Acon::parse(text), text.parse::<Acon>());
    assert_eq!(Acon::parse("}"), "}".parse::<Acon>());
}
