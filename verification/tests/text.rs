use static_routing::text::{blank, split_fields, split_lines, split_words, to_chars};

#[test]
fn blank_characters() {
    assert!(blank(' '));
    assert!(blank('\t'));
    assert!(blank('\r'));
    assert!(blank('\u{3000}'));
    assert!(!blank('a'));
    assert!(!blank('/'));
}

#[test]
fn chars_of_a_line() {
    assert_eq!(to_chars("dev é"), vec!['d', 'e', 'v', ' ', 'é']);
}

#[test]
fn words_of_a_line() {
    assert_eq!(split_words("  route4 add\tto 10.0.0.0/8 \r"), vec!["route4", "add", "to", "10.0.0.0/8"]);
    assert_eq!(split_words(""), Vec::<String>::new());
    assert_eq!(split_words(" \u{3000} "), Vec::<String>::new());
    assert_eq!(split_words("a"), vec!["a"]);
}

#[test]
fn words_as_std_splits_them() {
    for s in ["", " ", "a", " a", "a ", "a b", "a  b", "\ta\u{a0}b\u{2003}c\n", "é ü", "x\u{200b}y z"] {
        let theirs: Vec<String> = s.split_whitespace().map(|w| w.to_string()).collect();
        assert_eq!(split_words(s), theirs, "{:?}", s);
    }
}

#[test]
fn fields_and_lines_as_std_splits_them() {
    for s in ["", "/", "a/b", "a//b", "/a/", "10.0.0.0/8", "a", "é/ü/"] {
        let theirs: Vec<String> = s.split('/').map(|w| w.to_string()).collect();
        assert_eq!(split_fields(s, '/'), theirs, "{:?}", s);
    }
    for s in ["", "\n", "a", "a\n", "a\nb", "a\n\nb\n", "\n\n", "a\n\n"] {
        let theirs: Vec<String> = s.lines().map(|w| w.to_string()).collect();
        assert_eq!(split_lines(s), theirs, "{:?}", s);
    }
}
