use porchetta::bytes::{bytes_of, copied_bytes, lossy, same_bytes, text_of};
use porchetta::order::{sort, SortedSet};
use porchetta::paths::TargetPath;
use porchetta::text::{
    before, chars_of, contains, decimal_of, ends_with, first_index, is_one_of, join, last_index,
    lines, replace_char, same, starts_with, string_of, strip_front, trim, trim_line_end, white,
};

fn texts(list: &[&str]) -> Vec<String> {
    list.iter().map(|text| (*text).to_owned()).collect()
}

#[test]
fn texts_are_taken_apart_and_put_together() {
    assert_eq!(string_of(&chars_of("h\u{e4}\u{1f600}")), "h\u{e4}\u{1f600}");
    assert!(same("a", "a") && !same("a", "b"));
    assert!(is_one_of("b", &["a", "b"]) && !is_one_of("c", &["a", "b"]));
    assert!(starts_with("abc", "ab") && !starts_with("abc", "b"));
    assert_eq!(strip_front("abc", "ab"), Some("c"));
    assert_eq!(strip_front("abc", "b"), None);
    assert!(ends_with("abc", "bc") && !ends_with("abc", "b"));
    assert!(contains("abc", "b") && contains("abc", "") && !contains("abc", "ac"));
    assert_eq!(first_index("abab", 'b'), Some(1));
    assert_eq!(last_index("abab", 'b'), Some(3));
    assert_eq!(last_index("abab", 'x'), None);
    assert_eq!(replace_char("a\\b\\c", '\\', '/'), "a/b/c");
    assert_eq!(join(&texts(&["a", "b", "c"]), ", "), "a, b, c");
    assert_eq!(join(&Vec::new(), ", "), "");
    assert_eq!(decimal_of(0), "0");
    assert_eq!(decimal_of(120), "120");
}

#[test]
fn texts_are_split_and_trimmed_as_std_does() {
    for text in ["", "a", "a\n", "a\nb", "a\r\n\r\nb\r", "\n\n", "\r"] {
        let expected: Vec<String> =
            text.lines().filter(|line| !line.is_empty()).map(str::to_owned).collect();
        assert_eq!(lines(text), expected);
        assert_eq!(trim_line_end(text), text.trim_end_matches(&['\r', '\n'][..]));
    }
    for text in ["", " ", " a b ", "\u{2003}x\u{85}", "\t\n"] {
        assert_eq!(trim(text), text.trim());
    }
    for c in ['\u{a0}', '\u{1680}', '\u{200b}', 'x', '\u{3000}', '\u{2028}'] {
        assert_eq!(white(c), c.is_whitespace());
    }
    for (a, b) in [("a", "b"), ("a", "ab"), ("Z", "a"), ("\u{e9}", "\u{1f600}"), ("", "")] {
        assert_eq!(before(a, b), a < b);
        assert_eq!(before(b, a), b < a);
    }
}

#[test]
fn bytes_are_read_as_text() {
    assert_eq!(text_of("\u{e4}".as_bytes()).unwrap(), "\u{e4}");
    assert!(text_of(&[0xc3]).is_none());
    assert_eq!(lossy(&[b'a', 0xff, b'b']), "a\u{fffd}b");
    assert_eq!(bytes_of("\u{e4}"), [0xc3, 0xa4]);
    assert_eq!(copied_bytes(&vec![1, 2]), [1, 2]);
    assert!(same_bytes(&vec![1], &vec![1]) && !same_bytes(&vec![1], &vec![1, 2]));
}

#[test]
fn orders_are_kept() {
    assert_eq!(sort(texts(&["b", "a", "c", "a"])), ["a", "a", "b", "c"]);
    let mut set = SortedSet::new();
    assert!(set.insert("b".to_owned()));
    assert!(set.insert("a".to_owned()));
    assert!(!set.insert("b".to_owned()));
    assert_eq!(set.items, ["a", "b"]);
    assert!(set.contains(&"a".to_owned()) && !set.contains(&"c".to_owned()));
}

#[test]
fn paths_are_made_of_parts() {
    let path = TargetPath::from_text("a//b/./c/");
    assert_eq!(path.parts, ["a", "b", "c"]);
    assert_eq!(path.text(), "a/b/c");
    assert_eq!(TargetPath::from_text("./a").parts, [".", "a"]);
    assert!(TargetPath::empty().parts.is_empty());
    assert_eq!(path.child("d").text(), "a/b/c/d");
    assert_eq!(path.prefix(2).text(), "a/b");
    assert_eq!(path.range(1, 3).text(), "b/c");
    assert_eq!(path.followed_by(&TargetPath::from_text("x/y")).text(), "a/b/c/x/y");
    assert_eq!(path.shared_with(&TargetPath::from_text("a/b/x")), 2);
    assert!(path.is_under(&TargetPath::from_text("a/b")));
    assert!(!path.is_under(&TargetPath::from_text("a/x")));
    assert!(path.is_same(&path.copy()));
    assert!(path.has_part("b") && !path.has_part("x"));
}
