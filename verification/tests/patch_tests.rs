use autofix::patch::{apply_accepted, apply_suggestion_to_text, SourceFile};
use autofix::suggestion::{LinePosition, LineRange, Suggestion};

fn range(sl: usize, sc: usize, el: usize, ec: usize) -> LineRange {
    LineRange {
        start: LinePosition { line: sl, column: sc },
        end: LinePosition { line: el, column: ec },
    }
}

fn sugg(file: &str, r: LineRange, replacement: &str) -> Suggestion {
    Suggestion {
        file_name: file.to_string(),
        line_range: r,
        replacement: replacement.to_string(),
        message: "message".to_string(),
        text_lead: "".to_string(),
        text_highlighted: "".to_string(),
        text_trail: "".to_string(),
    }
}

fn file(name: &str, content: &str) -> SourceFile {
    SourceFile { name: name.to_string(), content: content.to_string() }
}

#[test]
fn middle_line_replacement_assembles_exactly() {
    let s = sugg("a.rs", range(2, 1, 2, 2), "B");
    let out = apply_suggestion_to_text("a\nb\nc\n", &s);
    assert_eq!(out, "a\nB\n\nc\n");
}

#[test]
fn relocated_import_becomes_a_prepend() {
    let s = sugg("a.rs", range(1, 1, 1, 1), "use x::Y;\n");
    let out = apply_suggestion_to_text("foo\nbar\n", &s);
    assert_eq!(out, "use x::Y;\nfoo\n\nbar\n");
}

#[test]
fn empty_accepted_set_writes_nothing() {
    let mut files = vec![file("a.rs", "a\nb\n"), file("b.rs", "hello\n")];
    let accepted: Vec<Suggestion> = Vec::new();
    let ok = apply_accepted(&mut files, &accepted);
    assert!(ok);
    assert_eq!(files[0].content, "a\nb\n");
    assert_eq!(files[1].content, "hello\n");
}

#[test]
fn accepted_set_is_applied_in_reverse_acceptance_order() {
    let mut files = vec![file("a.rs", "one\ntwo\n")];
    let accepted = vec![
        sugg("a.rs", range(1, 1, 1, 4), "ONE"),
        sugg("a.rs", range(2, 1, 2, 4), "TWO"),
    ];
    let ok = apply_accepted(&mut files, &accepted);
    assert!(ok);
    // The later-accepted edit is applied first: "one\ntwo\n" becomes
    // "one\nTWO\n\n", and the earlier-accepted edit then rewrites line 1.
    assert_eq!(files[0].content, "ONE\n\nTWO\n\n");
}

#[test]
fn missing_file_stops_the_apply_phase() {
    let mut files = vec![file("a.rs", "a\nb\n")];
    let accepted = vec![sugg("absent.rs", range(1, 1, 1, 1), "x")];
    let ok = apply_accepted(&mut files, &accepted);
    assert!(!ok);
    assert_eq!(files[0].content, "a\nb\n");
}

#[test]
fn edits_before_a_failure_stay_applied() {
    let mut files = vec![file("a.rs", "a\nb\n")];
    let accepted = vec![
        sugg("absent.rs", range(1, 1, 1, 1), "x"),
        sugg("a.rs", range(1, 1, 1, 2), "A"),
    ];
    let ok = apply_accepted(&mut files, &accepted);
    assert!(!ok);
    // The later-accepted edit ran first and stays; the earlier-accepted
    // one failed on the missing file.
    assert_eq!(files[0].content, "A\n\nb\n");
}

#[test]
fn crlf_breaks_are_normalized_to_newlines() {
    let s = sugg("a.rs", range(1, 1, 1, 1), "");
    let out = apply_suggestion_to_text("a\r\nb\n", &s);
    assert_eq!(out, "a\n\nb\n");

    let s2 = sugg("a.rs", range(2, 1, 2, 2), "Y");
    let out2 = apply_suggestion_to_text("x\r\ny\r\n", &s2);
    assert_eq!(out2, "x\nY\n\n");
}

#[test]
fn span_over_two_lines_is_replaced_whole() {
    let s = sugg("a.rs", range(1, 2, 2, 2), "-");
    let out = apply_suggestion_to_text("ab\ncd\n", &s);
    // Prefix "a", replacement "-", suffix "d" with its break, the closing
    // break, and no trailing lines.
    assert_eq!(out, "a-d\n\n");
}
