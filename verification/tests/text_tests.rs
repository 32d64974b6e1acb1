use autofix::lines::split_lines;
use autofix::text::{indent, not_empty, split_at_lint_name};

#[test]
fn blank_lines_are_recognised() {
    assert!(!not_empty(&""));
    assert!(!not_empty(&"   "));
    assert!(!not_empty(&"\t\r\n"));
    assert!(not_empty(&" a "));
    assert!(not_empty(&"x"));
}

#[test]
fn lint_names_break_onto_aligned_lines() {
    assert_eq!(
        split_at_lint_name("unused import, #[deny(unused_imports)]"),
        "unused import\n      #[deny(unused_imports)]"
    );
    assert_eq!(split_at_lint_name("no separator here"), "no separator here");
    assert_eq!(
        split_at_lint_name("m, #[a], #[b]"),
        "m\n      #[a]\n      #[b]"
    );
    assert_eq!(split_at_lint_name(""), "");
}

#[test]
fn indent_prefixes_every_line() {
    assert_eq!(indent(4, "a\nb"), "    a\n    b");
    assert_eq!(indent(0, "x"), "x");
    assert_eq!(indent(2, ""), "");
    assert_eq!(indent(1, "a\n"), " a");
    assert_eq!(indent(3, "a\n\nb"), "   a\n   \n   b");
}

#[test]
fn lines_split_at_breaks_and_a_trailing_break_closes() {
    assert_eq!(split_lines("a\nb\nc\n"), vec!["a", "b", "c"]);
    assert_eq!(split_lines("a\nb"), vec!["a", "b"]);
    assert_eq!(split_lines(""), Vec::<&str>::new());
    assert_eq!(split_lines("\n"), vec![""]);
    assert_eq!(split_lines("a\n\nb"), vec!["a", "", "b"]);
}

#[test]
fn carriage_return_line_feed_counts_as_one_break() {
    assert_eq!(split_lines("a\r\nb\r\n"), vec!["a", "b"]);
    assert_eq!(split_lines("a\r\nb"), vec!["a", "b"]);
    assert_eq!(split_lines("\r\n"), vec![""]);
    // A carriage return not followed by a line feed is ordinary text.
    assert_eq!(split_lines("a\rb\n"), vec!["a\rb"]);
    assert_eq!(split_lines("a\r"), vec!["a\r"]);
}

#[test]
fn indent_strips_carriage_returns_at_breaks() {
    assert_eq!(indent(1, "a\r\nb"), " a\n b");
    assert_eq!(indent(2, "a\r\n"), "  a");
}
