use link_organizer::text::{
    char_is_whitespace, chars_of, decimal_string, find_after_last, find_first, has_prefix,
    string_from, text_contains, trim_bounds,
};
use link_organizer::text_set::{compare_texts, TextOrder, TextSet};

#[test]
fn whitespace_is_what_std_calls_whitespace() {
    for code in 0..=0x10FFFFu32 {
        if let Some(c) = char::from_u32(code) {
            assert_eq!(char_is_whitespace(c), c.is_whitespace(), "U+{:04X}", code);
        }
    }
}

#[test]
fn trim_bounds_agree_with_std_trim() {
    for text in ["", " ", "  a  ", "a", "\t\na b\r\n", "\u{a0}x\u{3000}", "  ", "é ", " 日本 語 "] {
        let chars = chars_of(text);
        let (from, to) = trim_bounds(&chars, 0, chars.len());
        assert_eq!(string_from(&chars, from, to), text.trim());
    }
    let chars = chars_of("ab  cd  ef");
    let (from, to) = trim_bounds(&chars, 2, 8);
    assert_eq!((from, to), (4, 6));
    assert_eq!(string_from(&chars, from, to), "cd");
}

#[test]
fn chars_and_strings_convert_both_ways() {
    let text = "héllo, 世界!";
    let chars = chars_of(text);
    assert_eq!(chars, text.chars().collect::<Vec<char>>());
    assert_eq!(string_from(&chars, 0, chars.len()), text);
    assert_eq!(string_from(&chars, 1, 5), "éllo");
    assert_eq!(string_from(&chars, 3, 3), "");
}

#[test]
fn searching_for_characters() {
    let chars = chars_of("ab|cd|ef\ngh");
    assert_eq!(find_first(&chars, 0, chars.len(), '|'), 2);
    assert_eq!(find_first(&chars, 3, chars.len(), '|'), 5);
    assert_eq!(find_first(&chars, 6, chars.len(), '|'), chars.len());
    assert_eq!(find_first(&chars, 0, 2, '|'), 2);
    assert_eq!(find_after_last(&chars, chars.len(), '\n'), 9);
    assert_eq!(find_after_last(&chars, 8, '\n'), 0);
    assert_eq!(find_after_last(&chars, 9, '\n'), 9);
}

#[test]
fn prefixes() {
    let chars = chars_of("xxhttps://a");
    assert!(has_prefix(&chars, 2, chars.len(), "https://"));
    assert!(!has_prefix(&chars, 0, chars.len(), "https://"));
    assert!(!has_prefix(&chars, 2, 9, "https://"));
    assert!(has_prefix(&chars, 2, 10, "https://"));
    assert!(has_prefix(&chars, 5, 5, ""));
    assert!(!has_prefix(&chars, 2, chars.len(), "http://"));
}

#[test]
fn decimal_numerals() {
    for n in [0usize, 1, 9, 10, 11, 99, 100, 101, 1234567890, usize::MAX] {
        assert_eq!(decimal_string(n), n.to_string());
    }
}

#[test]
fn substring_search_agrees_with_std() {
    let texts = ["", "a", "ab", "abc", "aab", "abab", "hello world", "日本語", "本", "xyz"];
    for hay in texts {
        for needle in texts {
            assert_eq!(
                text_contains(&chars_of(hay), &chars_of(needle)),
                hay.contains(needle),
                "{:?} in {:?}",
                needle,
                hay
            );
        }
    }
}

#[test]
fn texts_are_ordered_as_strings_are() {
    let texts = ["", "a", "A", "ab", "b", "aa", "é", "z", "日本", "日", "\u{10FFFF}", "~", "a\u{0}"];
    for a in texts {
        for b in texts {
            let expected = match a.cmp(b) {
                std::cmp::Ordering::Less => TextOrder::Before,
                std::cmp::Ordering::Equal => TextOrder::Same,
                std::cmp::Ordering::Greater => TextOrder::After,
            };
            assert_eq!(compare_texts(a, b), expected, "{:?} and {:?}", a, b);
        }
    }
}

#[test]
fn text_set_lists_its_texts_sorted_and_once() {
    let mut set = TextSet::new();
    assert_eq!(set.len(), 0);
    for text in ["pear", "apple", "fig", "apple", "zebra", "", "fig", "Apple"] {
        let expected = !set.contains(text);
        assert_eq!(set.insert(text.to_string()), expected);
        assert!(set.contains(text));
    }
    assert_eq!(set.to_vec(), vec!["", "Apple", "apple", "fig", "pear", "zebra"]);
    assert_eq!(set.len(), 6);
    assert_eq!(set.get(2), "apple");
    assert!(!set.contains("grape"));
    assert!(set.remove("fig"));
    assert!(!set.remove("fig"));
    assert!(!set.remove("grape"));
    assert_eq!(set.to_vec(), vec!["", "Apple", "apple", "pear", "zebra"]);
    set.clear();
    assert_eq!(set.len(), 0);
    assert!(!set.contains("apple"));
}

#[test]
fn text_set_agrees_with_a_btree_set() {
    let mut set = TextSet::new();
    let mut reference = std::collections::BTreeSet::new();
    let mut state: u64 = 88172645463325252;
    for _ in 0..3000 {
        state ^= state << 13;
        state ^= state >> 7;
        state ^= state << 17;
        let text = format!("k{}", state % 200);
        if state % 3 == 0 {
            assert_eq!(set.remove(&text), reference.remove(&text));
        } else {
            assert_eq!(set.insert(text.clone()), reference.insert(text.clone()));
        }
        assert_eq!(set.contains(&text), reference.contains(&text));
    }
    assert_eq!(set.to_vec(), reference.into_iter().collect::<Vec<String>>());
}
