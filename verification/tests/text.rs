use xit::path_map::{PathMap, PathSet};
use xit::scan::{bytes_lt, find_byte, find_char};
use xit::text::{
    chars_eq, chars_of, find_space, is_space_char, split_lines, split_words, starts_with, str_eq,
    str_lt, string_of, trim, trim_end,
};

fn chars(s: &str) -> Vec<char> {
    s.chars().collect()
}

fn strings(v: Vec<Vec<char>>) -> Vec<String> {
    v.into_iter().map(|l| l.into_iter().collect()).collect()
}

#[test]
fn chars_and_strings_convert() {
    assert_eq!(chars_of("a\u{e9}\u{1f600}"), vec!['a', '\u{e9}', '\u{1f600}']);
    assert_eq!(chars_of(""), Vec::<char>::new());
    assert_eq!(string_of(&['x', '\u{e9}']), "x\u{e9}");
    assert_eq!(string_of(&[]), "");
}

#[test]
fn white_space_is_what_the_standard_library_calls_so() {
    for code in 0u32..0x3100 {
        if let Some(c) = char::from_u32(code) {
            assert_eq!(is_space_char(c), c.is_whitespace(), "U+{:04X}", code);
        }
    }
    assert!(!is_space_char('\u{feff}'));
    assert!(!is_space_char('\u{200b}'));
}

#[test]
fn trimming_matches_the_standard_library() {
    for s in ["", " ", "a", "  a b  ", "\t\n x\r\n", "\u{a0}x\u{3000}", " \u{2003} ", "x \u{1}"] {
        let c = chars(s);
        assert_eq!(trim(&c).iter().collect::<String>(), s.trim(), "{:?}", s);
        assert_eq!(trim_end(&c).iter().collect::<String>(), s.trim_end(), "{:?}", s);
    }
}

#[test]
fn words_match_the_standard_library() {
    for s in ["", "   ", "one", " one  two\tthree\n", "a\u{a0}b", "blob 12", "x "] {
        let wanted: Vec<String> = s.split_whitespace().map(|w| w.to_string()).collect();
        assert_eq!(strings(split_words(&chars(s))), wanted, "{:?}", s);
    }
}

#[test]
fn lines_match_the_standard_library() {
    for s in [
        "", "\n", "a", "a\n", "a\nb", "a\r\nb\r\n", "a\n\nb\n", "\r\n", "a\r", "a\rb\n", "\n\n",
        "a\r\r\n", "last\r\n\r",
    ] {
        let wanted: Vec<String> = s.lines().map(|l| l.to_string()).collect();
        assert_eq!(strings(split_lines(&chars(s))), wanted, "{:?}", s);
    }
}

#[test]
fn scanning_finds_the_first_occurrence() {
    assert_eq!(find_byte(b"a b c", 0, b' '), 1);
    assert_eq!(find_byte(b"a b c", 2, b' '), 3);
    assert_eq!(find_byte(b"a b c", 4, b' '), 5);
    assert_eq!(find_byte(b"", 0, 0), 0);
    assert_eq!(find_char(&chars("x=y=z"), 0, '='), 1);
    assert_eq!(find_char(&chars("x=y=z"), 2, '='), 3);
    assert_eq!(find_char(&chars("xyz"), 0, '='), 3);
    assert_eq!(find_space(&chars("ab cd"), 0, true), 2);
    assert_eq!(find_space(&chars("  cd"), 0, false), 2);
    assert_eq!(find_space(&chars("abcd"), 1, true), 4);
    // a start behind the end finds nothing
    assert_eq!(find_byte(b"ab", 5, b'a'), 2);
    assert_eq!(find_char(&chars("ab"), 3, 'a'), 2);
    assert_eq!(find_space(&chars(" "), 9, true), 1);
}

#[test]
fn prefixes_and_equality() {
    assert!(starts_with(&chars("ref: x"), &chars("ref: ")));
    assert!(starts_with(&chars("abc"), &chars("")));
    assert!(starts_with(&chars("abc"), &chars("abc")));
    assert!(!starts_with(&chars("ab"), &chars("abc")));
    assert!(!starts_with(&chars("abd"), &chars("abc")));
    assert!(chars_eq(&chars("abc"), &chars("abc")));
    assert!(!chars_eq(&chars("abc"), &chars("ab")));
    assert!(!chars_eq(&chars("ab"), &chars("abc")));
    assert!(str_eq("", ""));
    assert!(str_eq("a\u{e9}", "a\u{e9}"));
    assert!(!str_eq("a", "b"));
    assert!(!str_eq("a", "ab"));
}

#[test]
fn order_is_byte_wise() {
    let samples = ["", "a", "B", "ab", "b", "a/b", "a-b", "\u{e9}", "z", "\u{1f600}", "aa", "a\u{0}"];
    for x in samples {
        for y in samples {
            assert_eq!(str_lt(x, y), x.as_bytes() < y.as_bytes(), "{:?} {:?}", x, y);
            assert_eq!(bytes_lt(x.as_bytes(), y.as_bytes()), x < y);
        }
    }
    assert!(bytes_lt(&[1, 2], &[1, 2, 0]));
    assert!(!bytes_lt(&[1, 2, 0], &[1, 2]));
    assert!(bytes_lt(&[0x7f], &[0x80]));
}

#[test]
fn map_keeps_keys_in_order() {
    let mut map = PathMap::new();
    assert!(map.is_empty());
    for key in ["m", "z", "a", "b/c", "b", "B", "\u{e9}"] {
        map.insert(key.to_string(), format!("v-{}", key));
    }
    let keys = map.keys();
    assert_eq!(keys, vec!["B", "a", "b", "b/c", "m", "z", "\u{e9}"]);
    assert_eq!(map.len(), 7);
    for i in 0..map.len() {
        assert_eq!(map.key_at(i), keys[i]);
        assert_eq!(map.value_at(i), format!("v-{}", keys[i]));
        assert_eq!(map.position(&keys[i]), Some(i));
    }
    assert_eq!(map.get("b"), Some("v-b"));
    assert_eq!(map.get("c"), None);
    assert_eq!(map.position("c"), None);
    assert!(map.contains_key("b/c"));
    assert!(!map.contains_key(""));
}

#[test]
fn map_insert_replaces_and_remove_removes() {
    let mut map = PathMap::new();
    map.insert("k".to_string(), "1".to_string());
    map.insert("k".to_string(), "2".to_string());
    assert_eq!(map.len(), 1);
    assert_eq!(map.get("k"), Some("2"));
    map.insert("j".to_string(), "3".to_string());
    assert!(!map.remove("x"));
    assert_eq!(map.len(), 2);
    assert!(map.remove("k"));
    assert_eq!(map.get("k"), None);
    assert_eq!(map.get("j"), Some("3"));
    assert!(map.remove("j"));
    assert!(map.is_empty());
    assert!(!map.remove("j"));
}

#[test]
fn map_copy_is_equal_and_apart() {
    let mut map = PathMap::new();
    map.insert("a".to_string(), "1".to_string());
    map.insert("b".to_string(), "2".to_string());
    let mut copy = map.copy();
    copy.insert("c".to_string(), "3".to_string());
    copy.insert("a".to_string(), "9".to_string());
    assert_eq!(map.len(), 2);
    assert_eq!(map.get("a"), Some("1"));
    assert_eq!(copy.len(), 3);
    assert_eq!(copy.get("a"), Some("9"));
    assert_eq!(copy.get("b"), Some("2"));
}

#[test]
fn set_keeps_members_in_order() {
    let mut set = PathSet::new();
    assert!(set.is_empty());
    for m in ["c", "a", "b", "a"] {
        set.insert(m.to_string());
    }
    assert_eq!(set.len(), 3);
    assert_eq!(set.members(), vec!["a", "b", "c"]);
    assert_eq!(set.member_at(1), "b");
    assert!(set.contains("a"));
    assert!(!set.contains("d"));
    assert!(set.remove("b"));
    assert!(!set.remove("b"));
    assert_eq!(set.members(), vec!["a", "c"]);
    assert!(!set.is_empty());
}
