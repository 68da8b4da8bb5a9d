use none_shall_pass::text::{last_segment, split_words, str_contains, str_eq};

#[test]
fn words_split_at_spaces() {
    assert_eq!(split_words(" a  bb c "), vec!["a", "bb", "c"]);
    assert!(split_words("").is_empty());
    assert!(split_words("   ").is_empty());
    assert_eq!(split_words("a\tb\n c\u{3000}d"), vec!["a", "b", "c", "d"]);
    for w in split_words("x  y z") {
        assert!(!w.is_empty() && !w.contains(char::is_whitespace));
    }
}

#[test]
fn last_segment_of_paths() {
    assert_eq!(last_segment("a/b/c.md"), "c.md");
    assert_eq!(last_segment("c.md"), "c.md");
    assert_eq!(last_segment("a/b/"), "");
    assert_eq!(last_segment(""), "");
}

#[test]
fn substring_search() {
    assert!(str_contains("http://localhost:80", "localhost"));
    assert!(!str_contains("http://local", "localhost"));
    assert!(str_contains("abc", ""));
    assert!(str_contains("abc", "abc"));
    assert!(!str_contains("", "a"));
    assert!(str_contains("ünï", "nï"));
}

#[test]
fn string_equality() {
    assert!(str_eq("a", "a"));
    assert!(!str_eq("a", "ab"));
    assert!(!str_eq("ab", "ac"));
}

#[test]
fn words_agree_with_split_whitespace() {
    for s in ["", " a b ", "x\ty\nz", "\u{a0}p\u{2028}q", "one"] {
        let want: Vec<String> = s.split_whitespace().map(String::from).collect();
        assert_eq!(split_words(s), want, "{:?}", s);
    }
}
