use autofix::dedup::{comb_use_suggestions, filter_use_suggestions};
use autofix::suggestion::{canonical_symbol, LinePosition, LineRange, Suggestion};

fn range(sl: usize, sc: usize, el: usize, ec: usize) -> LineRange {
    LineRange {
        start: LinePosition { line: sl, column: sc },
        end: LinePosition { line: el, column: ec },
    }
}

fn sugg(file: &str, r: LineRange, replacement: &str) -> Suggestion {
    Suggestion {
        file_name: file.to_string(),
        line_range: r,
        replacement: replacement.to_string(),
        message: "message".to_string(),
        text_lead: "".to_string(),
        text_highlighted: "".to_string(),
        text_trail: "".to_string(),
    }
}

#[test]
fn four_duplicates_leave_shortest_survivor() {
    let r = range(7, 2, 7, 9);
    let mut v = vec![
        sugg("a.rs", r, "use std::collections::hash_map::HashMap;\n"),
        sugg("a.rs", r, "use std::collections::HashMap;\n"),
        sugg("a.rs", r, "use std::collections::HashMap;\n"),
        sugg("a.rs", r, "use std::collections::hash_map::HashMap;\n"),
    ];
    comb_use_suggestions(&mut v);
    assert_eq!(v.len(), 1);
    assert_eq!(v[0].replacement, "use std::collections::HashMap;\n");
    assert_eq!(v[0].line_range, range(1, 1, 1, 1));
}

#[test]
fn surviving_import_is_relocated_to_top() {
    let mut v = vec![sugg("a.rs", range(42, 5, 42, 11), "use x::Y;\n")];
    comb_use_suggestions(&mut v);
    assert_eq!(v.len(), 1);
    assert_eq!(v[0].line_range, range(1, 1, 1, 1));
}

#[test]
fn non_import_suggestions_pass_through_untouched() {
    let mut v = vec![
        sugg("a.rs", range(3, 1, 3, 4), "fixed_expr()"),
        sugg("a.rs", range(9, 2, 9, 8), "use x::Y;\n"),
        sugg("b.rs", range(5, 1, 6, 2), "other_expr"),
    ];
    comb_use_suggestions(&mut v);
    assert_eq!(v.len(), 3);
    assert_eq!(v[0].replacement, "fixed_expr()");
    assert_eq!(v[0].line_range, range(3, 1, 3, 4));
    assert_eq!(v[1].replacement, "use x::Y;\n");
    assert_eq!(v[1].line_range, range(1, 1, 1, 1));
    assert_eq!(v[2].replacement, "other_expr");
    assert_eq!(v[2].line_range, range(5, 1, 6, 2));
}

#[test]
fn equal_lengths_keep_the_earliest() {
    let r = range(2, 1, 2, 5);
    let mut v = vec![
        sugg("a.rs", r, "use aa::Name;\n"),
        sugg("a.rs", r, "use bb::Name;\n"),
    ];
    comb_use_suggestions(&mut v);
    assert_eq!(v.len(), 1);
    assert_eq!(v[0].replacement, "use aa::Name;\n");
}

#[test]
fn different_symbols_are_not_grouped() {
    let r = range(2, 1, 2, 5);
    let mut v = vec![
        sugg("a.rs", r, "use x::Alpha;\n"),
        sugg("a.rs", r, "use x::Beta;\n"),
    ];
    comb_use_suggestions(&mut v);
    assert_eq!(v.len(), 2);
}

#[test]
fn different_files_are_not_grouped() {
    let r = range(2, 1, 2, 5);
    let mut v = vec![
        sugg("a.rs", r, "use x::Name;\n"),
        sugg("b.rs", r, "use x::Name;\n"),
    ];
    comb_use_suggestions(&mut v);
    assert_eq!(v.len(), 2);
}

#[test]
fn bare_import_shares_symbol_with_path_import() {
    let r = range(4, 1, 4, 4);
    let mut v = vec![
        sugg("a.rs", r, "use deep::path::foo;\n"),
        sugg("a.rs", r, "use foo;\n"),
    ];
    comb_use_suggestions(&mut v);
    assert_eq!(v.len(), 1);
    assert_eq!(v[0].replacement, "use foo;\n");
}

#[test]
fn filter_keeps_only_imports_in_order() {
    let v = vec![
        sugg("a.rs", range(1, 1, 1, 2), "plain_edit"),
        sugg("a.rs", range(2, 1, 2, 2), "use x::A;\n"),
        sugg("a.rs", range(3, 1, 3, 2), "another_edit"),
        sugg("a.rs", range(4, 1, 4, 2), "use y::B;\n"),
    ];
    let out = filter_use_suggestions(&v);
    assert_eq!(out.len(), 2);
    assert_eq!(out[0].replacement, "use x::A;\n");
    assert_eq!(out[1].replacement, "use y::B;\n");
}

#[test]
fn import_shape_is_checked_on_both_ends() {
    assert!(sugg("a.rs", range(1, 1, 1, 1), "use a;\n").is_use_suggestion());
    assert!(!sugg("a.rs", range(1, 1, 1, 1), "use a;").is_use_suggestion());
    assert!(!sugg("a.rs", range(1, 1, 1, 1), "foo();\n").is_use_suggestion());
    assert!(!sugg("a.rs", range(1, 1, 1, 1), "").is_use_suggestion());
}

#[test]
fn empty_sequence_stays_empty() {
    let mut v: Vec<Suggestion> = Vec::new();
    comb_use_suggestions(&mut v);
    assert!(v.is_empty());
}

#[test]
fn canonical_symbol_strips_path_and_frame() {
    assert_eq!(canonical_symbol("use std::collections::HashMap;\n"), "HashMap");
    assert_eq!(canonical_symbol("use foo;\n"), "foo");
}
