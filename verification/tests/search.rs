use text_buffer::search::{is_paren, lisp_regex_to_rust, group_ends};

#[test]
fn lisp_regex() {
    assert_eq!(lisp_regex_to_rust("foo"), "foo");
    assert_eq!(lisp_regex_to_rust("\\foo"), "\\foo");
    assert_eq!(lisp_regex_to_rust("\\(foo\\)"), "(foo)");
    assert_eq!(lisp_regex_to_rust("(foo)"), "\\(foo\\)");
}

#[test]
fn lisp_regex_edges() {
    assert_eq!(lisp_regex_to_rust(""), "");
    assert_eq!(lisp_regex_to_rust("\\"), "\\");
    assert_eq!(lisp_regex_to_rust("a\\"), "a\\");
    assert_eq!(lisp_regex_to_rust("\\\\("), "\\(");
    assert_eq!(lisp_regex_to_rust("\\)\\("), ")(");
    assert_eq!(lisp_regex_to_rust("Θ(ƽ)"), "Θ\\(ƽ\\)");
}

#[test]
fn group_ends_stop_at_the_first_absent_group() {
    assert_eq!(group_ends(&vec![]), vec![]);
    assert_eq!(group_ends(&vec![Some((2, 5))]), vec![2, 5]);
    assert_eq!(group_ends(&vec![Some((2, 5)), Some((3, 4)), None, Some((4, 5))]), vec![2, 5, 3, 4]);
    assert_eq!(group_ends(&vec![None, Some((3, 4))]), vec![]);
}

#[test]
fn parentheses() {
    assert!(is_paren('('));
    assert!(is_paren(')'));
    assert!(!is_paren('['));
    assert!(!is_paren('\\'));
}
