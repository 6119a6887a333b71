use first_rust::text::{
    chars_of, contains_chars, ends_with_chars, join_chars, split_chars, trim_chars, white_space,
};

fn chars(s: &str) -> Vec<char> {
    s.chars().collect()
}

#[test]
fn split_then_join_gives_back_text() {
    let s = chars("a/b//c/");
    let parts = split_chars(&s, '/');
    assert_eq!(parts, vec![chars("a"), chars("b"), chars(""), chars("c"), chars("")]);
    assert_eq!(join_chars(&parts, parts.len(), '/'), s);
}

#[test]
fn split_empty_text_has_one_piece() {
    assert_eq!(split_chars(&Vec::new(), ' '), vec![Vec::<char>::new()]);
}

#[test]
fn join_prefix_of_pieces() {
    let parts = vec![chars("import"), chars("{A}"), chars("from"), chars("'./A.sol';")];
    assert_eq!(join_chars(&parts, 3, ' '), chars("import {A} from"));
    assert_eq!(join_chars(&parts, 0, ' '), chars(""));
}

#[test]
fn trim_like_std() {
    for s in ["  a b \t", "\u{3000}x\u{85}", "", "   ", "\r\nline\r"] {
        assert_eq!(trim_chars(&chars(s)), chars(s.trim()));
    }
    assert!(white_space('\u{2028}'));
    assert!(!white_space('\u{200b}'));
}

#[test]
fn contains_and_ends_with_like_std() {
    let s = chars("import {A} from './A.sol';");
    assert!(contains_chars(&s, &chars("import")));
    assert!(!contains_chars(&s, &chars("export")));
    assert!(contains_chars(&s, &chars("")));
    assert!(ends_with_chars(&s, &chars(";")));
    assert!(!ends_with_chars(&s, &chars("{")));
    assert!(!ends_with_chars(&chars("a"), &chars("ba")));
}

#[test]
fn chars_of_unicode() {
    assert_eq!(chars_of("aé€"), vec!['a', 'é', '€']);
}
