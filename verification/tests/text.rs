use acon::text::{
    chars_of, is_whitespace, join_words, order, same, scan, split_segments, split_words,
    string_of, Mark, Order,
};

#[test]
fn whitespace_is_the_unicode_property() {
    let mut code: u32 = 0;
    while code <= 0x10FFFF {
        if let Some(c) = char::from_u32(code) {
            assert_eq!(is_whitespace(c), c.is_whitespace(), "U+{:04X}", code);
        }
        code += 1;
    }
}

#[test]
fn marks_hit_their_characters() {
    assert!(Mark::Space.test(' '));
    assert!(Mark::Space.test('\n'));
    assert!(Mark::Space.test('\u{3000}'));
    assert!(!Mark::Space.test('a'));
    assert!(Mark::Newline.test('\n'));
    assert!(!Mark::Newline.test('\r'));
    assert!(!Mark::Newline.test(' '));
    assert!(Mark::Dot.test('.'));
    assert!(!Mark::Dot.test(','));
}

#[test]
fn chars_and_strings_convert_both_ways() {
    let text = "a\u{e9}\u{1F600} z";
    let chars = chars_of(text);
    assert_eq!(chars, vec!['a', '\u{e9}', '\u{1F600}', ' ', 'z']);
    assert_eq!(string_of(&chars, 0, chars.len()), text);
    assert_eq!(string_of(&chars, 1, 3), "\u{e9}\u{1F600}");
    assert_eq!(string_of(&chars, 2, 2), "");
    assert_eq!(chars_of(""), Vec::<char>::new());
}

#[test]
fn scan_stops_at_the_first_mark() {
    let chars = chars_of("ab cd\nef.g");
    assert_eq!(scan(&chars, 0, chars.len(), Mark::Space), 2);
    assert_eq!(scan(&chars, 3, chars.len(), Mark::Space), 5);
    assert_eq!(scan(&chars, 0, chars.len(), Mark::Newline), 5);
    assert_eq!(scan(&chars, 6, chars.len(), Mark::Newline), 10);
    assert_eq!(scan(&chars, 0, chars.len(), Mark::Dot), 8);
    assert_eq!(scan(&chars, 0, 4, Mark::Dot), 4);
    assert_eq!(scan(&chars, 2, 2, Mark::Dot), 2);
}

fn words_by_std(line: &str) -> Vec<String> {
    line.split_whitespace().map(|w| w.to_string()).collect()
}

#[test]
fn words_are_the_whitespace_separated_runs() {
    let lines = [
        "",
        " ",
        "a",
        " a",
        "a ",
        "key value",
        "  key \t value  more\t",
        "\u{a0}x\u{2003}\u{2003}y\u{3000}",
        "a\rb\u{b}c\u{c}d\u{85}e\u{2028}f\u{2029}g",
        "{ name",
        "\u{e9}t\u{e9} \u{1F600}",
        "one\u{200b}word",
    ];
    for line in lines {
        let chars = chars_of(line);
        assert_eq!(split_words(&chars, 0, chars.len()), words_by_std(line), "line {:?}", line);
    }
    let chars = chars_of("skip these words and stop here");
    assert_eq!(split_words(&chars, 5, 20), vec!["these", "words", "and"]);
    assert_eq!(split_words(&chars, 5, 19), vec!["these", "words", "an"]);
}

#[test]
fn joined_words_stand_one_space_apart() {
    let words: Vec<String> = vec!["a".to_string(), "bc".to_string(), "d".to_string()];
    assert_eq!(join_words(&words, 0), "a bc d");
    assert_eq!(join_words(&words, 1), "bc d");
    assert_eq!(join_words(&words, 2), "d");
    assert_eq!(join_words(&words, 3), "");
    assert_eq!(join_words(&Vec::new(), 0), "");
}

#[test]
fn segments_are_the_pieces_between_full_stops() {
    let paths = ["", ".", "a", "a.b", ".a", "a.", "a..b", "..", "table.0.key", "x y.z"];
    for path in paths {
        let expected: Vec<String> = path.split('.').map(|s| s.to_string()).collect();
        assert_eq!(split_segments(&chars_of(path)), expected, "path {:?}", path);
    }
}

fn order_by_std(a: &str, b: &str) -> Order {
    if a < b {
        Order::Before
    } else if a == b {
        Order::Same
    } else {
        Order::After
    }
}

#[test]
fn order_is_the_order_of_strings() {
    let texts = [
        "", "a", "b", "ab", "aa", "B", "a ", "\u{e9}", "\u{7f}", "\u{80}", "\u{7ff}", "\u{800}",
        "\u{ffff}", "\u{10000}", "\u{10ffff}", "z\u{e9}", "z\u{10000}", "z\u{ffff}", "{", "}",
    ];
    for a in texts {
        for b in texts {
            assert_eq!(order(a, b), order_by_std(a, b), "{:?} and {:?}", a, b);
            assert_eq!(same(a, b), a == b, "{:?} and {:?}", a, b);
        }
    }
}
