use safethrottle::names::{order, NameMap, NameOrder};
use safethrottle::text::{
    chars_of, contains, ends_with, is_whitespace, lines, render, same, starts_with, string_of,
    to_lower, trim, words,
};

fn strings(parts: Vec<Vec<char>>) -> Vec<String> {
    parts.iter().map(|p| string_of(p)).collect()
}

#[test]
fn whitespace_is_that_of_unicode() {
    for n in 0..=0x10ffffu32 {
        if let Some(c) = char::from_u32(n) {
            assert_eq!(is_whitespace(c), c.is_whitespace());
            assert_eq!(to_lower(c), c.to_ascii_lowercase());
        }
    }
}

#[test]
fn splits_and_searches_as_the_standard_library() {
    for s in ["", " a\tb ", "\n", "a\r\nb\n\nc\r", "a\n", "\u{3000}x y\u{2028}", "dev eth0"] {
        let chars = chars_of(s);
        assert_eq!(string_of(&chars), s);
        assert_eq!(strings(lines(&chars)), s.lines().collect::<Vec<_>>());
        assert_eq!(strings(words(&chars)), s.split_whitespace().collect::<Vec<_>>());
        assert_eq!(string_of(&trim(&chars)), s.trim());
        for t in ["", "a", "\n", "b\n", "eth", "dev eth0 "] {
            let part = chars_of(t);
            assert_eq!(contains(&chars, &part), s.contains(t));
            assert_eq!(starts_with(&chars, &part), s.starts_with(t));
            assert_eq!(ends_with(&chars, &part), s.ends_with(t));
            assert_eq!(same(&chars, &part), s == t);
        }
    }
}

#[test]
fn renders_numbers() {
    for n in [0, 9, 10, 5260, u64::MAX] {
        assert_eq!(render(n), n.to_string());
    }
}

#[test]
fn names_are_ordered_as_strings() {
    let names = ["", "a", "a\u{e9}", "ab", "b", "z", "\u{e9}", "\u{ffff}", "\u{10000}"];
    for a in names {
        for b in names {
            let expected = if a < b {
                NameOrder::Before
            } else if a == b {
                NameOrder::Same
            } else {
                NameOrder::After
            };
            assert_eq!(order(a, b), expected);
        }
    }
}

#[test]
fn a_name_map_is_sorted_and_replaces() {
    let mut map = NameMap::new();
    for (name, value) in [("b", 1), ("a", 2), ("c", 3), ("a", 4)] {
        map.insert(name.to_string(), value);
    }
    assert_eq!(map.len(), 3);
    let all: Vec<(&str, i32)> =
        (0..3).map(|i| (map.name_at(i).as_str(), *map.value_at(i))).collect();
    assert_eq!(all, [("a", 4), ("b", 1), ("c", 3)]);
    *map.get_mut("b").expect("there") += 10;
    assert_eq!(map.get("b"), Some(&11));
    assert_eq!(map.get("x"), None);
    assert!(map.get_mut("x").is_none());
}
