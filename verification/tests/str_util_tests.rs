use jj_lib::byte_order::compare_bytes;
use jj_lib::byte_order::Order;
use jj_lib::sorted_map::SortedMap;
use jj_lib::str_util::contains_bytes;
use jj_lib::str_util::glob_match;
use jj_lib::str_util::StringPattern;

#[test]
fn bytes_are_compared_lexicographically() {
    assert_eq!(compare_bytes(b"", b""), Order::Equal);
    assert_eq!(compare_bytes(b"", b"a"), Order::Less);
    assert_eq!(compare_bytes(b"a", b""), Order::Greater);
    assert_eq!(compare_bytes(b"ab", b"abc"), Order::Less);
    assert_eq!(compare_bytes(b"abd", b"abc"), Order::Greater);
    assert_eq!(compare_bytes(b"b", b"abc"), Order::Greater);
    assert_eq!(compare_bytes(b"abc", b"abc"), Order::Equal);
    assert_eq!(compare_bytes(&[0, 255], &[1]), Order::Less);
}

#[test]
fn exact_pattern_selects_one_name() {
    let pattern = StringPattern::exact("main");
    assert!(pattern.matches("main"));
    assert!(!pattern.matches("main2"));
    assert!(!pattern.matches("mai"));
    assert!(!pattern.matches(""));
}

#[test]
fn substring_pattern_selects_names_that_hold_it() {
    let pattern = StringPattern::substring("ea");
    assert!(pattern.matches("feature"));
    assert!(pattern.matches("ea"));
    assert!(pattern.matches("sea"));
    assert!(!pattern.matches("e-a"));
    assert!(!pattern.matches("a"));
    assert!(StringPattern::substring("").matches(""));
    assert!(StringPattern::everything().matches(""));
    assert!(StringPattern::everything().matches("anything"));
    assert!(contains_bytes(b"bc", b"abcd"));
    assert!(!contains_bytes(b"bd", b"abcd"));
    assert!(!contains_bytes(b"abcde", b"abcd"));
}

#[test]
fn glob_star_matches_any_run() {
    let pattern = StringPattern::glob("feat*");
    assert!(pattern.matches("feat"));
    assert!(pattern.matches("feature/x"));
    assert!(!pattern.matches("fea"));
    assert!(!pattern.matches("a-feat"));
    assert!(StringPattern::glob("*").matches(""));
    assert!(StringPattern::glob("*").matches("abc"));
    assert!(StringPattern::glob("a*b*c").matches("abc"));
    assert!(StringPattern::glob("a*b*c").matches("axxbyyc"));
    assert!(StringPattern::glob("a*b*c").matches("abcbc"));
    assert!(!StringPattern::glob("a*b*c").matches("acb"));
    assert!(StringPattern::glob("*.bak").matches("file1.bak"));
    assert!(!StringPattern::glob("*.bak").matches("file1.bak2"));
    assert!(StringPattern::glob("").matches(""));
    assert!(!StringPattern::glob("").matches("a"));
}

#[test]
fn glob_question_mark_matches_one_character() {
    let pattern = StringPattern::glob("v?");
    assert!(pattern.matches("v1"));
    assert!(!pattern.matches("v"));
    assert!(!pattern.matches("v12"));
    // One character of more than one byte.
    assert!(pattern.matches("v\u{e9}"));
    assert!(pattern.matches("v\u{1f600}"));
    assert!(!StringPattern::glob("v??").matches("v\u{e9}"));
    assert!(StringPattern::glob("v??").matches("v\u{e9}\u{e9}"));
    assert!(StringPattern::glob("?*").matches("x"));
    assert!(!StringPattern::glob("?*").matches(""));
    assert!(StringPattern::glob("*?").matches("\u{e9}"));
    assert!(glob_match(b"a?c", b"abc"));
    assert!(!glob_match(b"a?c", b"ac"));
}

#[test]
fn patterns_filter_a_map_in_name_order() {
    let mut map: SortedMap<String, u32> = SortedMap::new();
    map.insert("delta".to_string(), 4);
    map.insert("alpha".to_string(), 1);
    map.insert("charlie".to_string(), 3);
    map.insert("bravo".to_string(), 2);
    let all = StringPattern::everything().filter_sorted_map(&map);
    assert_eq!(all, vec![("alpha", &1), ("bravo", &2), ("charlie", &3), ("delta", &4)]);
    let with_l = StringPattern::substring("l").filter_sorted_map(&map);
    assert_eq!(with_l, vec![("alpha", &1), ("charlie", &3), ("delta", &4)]);
    let glob = StringPattern::glob("?????").filter_sorted_map(&map);
    assert_eq!(glob, vec![("alpha", &1), ("bravo", &2), ("delta", &4)]);
    let one = StringPattern::exact("bravo").filter_sorted_map(&map);
    assert_eq!(one, vec![("bravo", &2)]);
    let none = StringPattern::exact("echo").filter_sorted_map(&map);
    assert_eq!(none, vec![]);
}

#[test]
fn sorted_map_keeps_one_value_per_key_in_key_order() {
    let mut map: SortedMap<String, u32> = SortedMap::new();
    assert!(map.is_empty());
    assert_eq!(map.insert("b".to_string(), 2), None);
    assert_eq!(map.insert("a".to_string(), 1), None);
    assert_eq!(map.insert("c".to_string(), 3), None);
    assert_eq!(map.insert("b".to_string(), 20), Some(2));
    assert_eq!(map.len(), 3);
    assert_eq!(map.key_at(0), "a");
    assert_eq!(map.key_at(1), "b");
    assert_eq!(map.key_at(2), "c");
    assert_eq!(map.value_at(1), &20);
    assert_eq!(map.get(b"b"), Some(&20));
    assert_eq!(map.get(b"d"), None);
    assert!(map.contains_key(b"c"));
    assert_eq!(map.find(b"bb"), (2, false));
    assert_eq!(map.find(b"b"), (1, true));
    assert_eq!(map.remove(b"a"), Some(1));
    assert_eq!(map.remove(b"a"), None);
    assert_eq!(map.len(), 2);
    assert_eq!(map.key_at(0), "b");
}

/// Matches a glob against a text, character by character.
fn matches_by_chars(glob: &[char], text: &[char]) -> bool {
    match glob.first() {
        None => text.is_empty(),
        Some('*') => {
            matches_by_chars(&glob[1..], text)
                || (!text.is_empty() && matches_by_chars(glob, &text[1..]))
        }
        Some('?') => !text.is_empty() && matches_by_chars(&glob[1..], &text[1..]),
        Some(c) => text.first() == Some(c) && matches_by_chars(&glob[1..], &text[1..]),
    }
}

/// All strings over `alphabet` of at most `max` characters.
fn strings_up_to(alphabet: &[char], max: usize) -> Vec<String> {
    let mut all = vec![String::new()];
    let mut last = vec![String::new()];
    for _ in 0..max {
        let mut next = vec![];
        for s in &last {
            for c in alphabet {
                let mut t = s.clone();
                t.push(*c);
                next.push(t);
            }
        }
        all.extend(next.iter().cloned());
        last = next;
    }
    all
}

#[test]
fn glob_agrees_with_matching_character_by_character() {
    let globs = strings_up_to(&['a', '\u{e9}', '*', '?'], 4);
    let texts = strings_up_to(&['a', 'b', '\u{e9}', '\u{1f600}'], 4);
    for glob in &globs {
        let pattern = StringPattern::glob(glob);
        let glob_chars: Vec<char> = glob.chars().collect();
        for text in &texts {
            let text_chars: Vec<char> = text.chars().collect();
            assert_eq!(
                pattern.matches(text),
                matches_by_chars(&glob_chars, &text_chars),
                "glob {glob:?} on {text:?}"
            );
        }
    }
}

#[test]
fn substring_agrees_with_the_standard_library() {
    let parts = strings_up_to(&['a', 'b', '\u{e9}'], 3);
    let texts = strings_up_to(&['a', 'b', '\u{e9}'], 4);
    for part in &parts {
        let pattern = StringPattern::substring(part);
        for text in &texts {
            assert_eq!(pattern.matches(text), text.contains(part.as_str()));
            assert_eq!(StringPattern::exact(part).matches(text), text == part);
        }
    }
}

#[test]
fn names_are_ordered_as_strings_are() {
    let names = strings_up_to(&['a', 'b', '\u{e9}', '\u{1f600}'], 3);
    for a in &names {
        for b in &names {
            let expected = match a.cmp(b) {
                std::cmp::Ordering::Less => Order::Less,
                std::cmp::Ordering::Equal => Order::Equal,
                std::cmp::Ordering::Greater => Order::Greater,
            };
            assert_eq!(compare_bytes(a.as_bytes(), b.as_bytes()), expected);
        }
    }
}
