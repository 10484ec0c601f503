use commentflow::textline::{
    advance_col, block_is_doc, bookend_match, fence_marker_run, is_art, is_horizontal_rule,
    is_indented_code, is_kernel_doc_tag, is_table_row, line_is_art_only, split_at_return_boundary,
    BookendKind,
};

#[test]
fn fence_runs_and_inline_code() {
    assert_eq!(fence_marker_run("```rust"), Some(('`', 3)));
    assert_eq!(fence_marker_run("~~~~"), Some(('~', 4)));
    assert_eq!(fence_marker_run("   ```"), Some(('`', 3)));
    assert_eq!(fence_marker_run("`x` and `y`"), None);
    assert_eq!(fence_marker_run("prose"), None);
    assert_eq!(fence_marker_run("``"), Some(('`', 2)));
}

#[test]
fn table_rows_versus_prose() {
    assert!(is_table_row("| a | b |"));
    assert!(is_table_row("+--+--+"));
    assert!(is_table_row("s  = slow"));
    assert!(is_table_row("col\tcol\tcol"));
    assert!(!is_table_row("a | b"));
    assert!(!is_table_row("ordinary prose"));
}

#[test]
fn indented_code_needs_two_spaces_or_a_tab() {
    assert!(is_indented_code("  sample()"));
    assert!(is_indented_code("\tsample()"));
    assert!(!is_indented_code(" continued prose"));
    assert!(!is_indented_code("flush prose"));
}

#[test]
fn doc_openers_versus_star_banners() {
    assert!(block_is_doc("/** doc */"));
    assert!(block_is_doc("/*! doc */"));
    assert!(!block_is_doc("/*** banner */"));
    assert!(!block_is_doc("/* plain */"));
    assert!(!block_is_doc("/**/"));
}

#[test]
fn horizontal_rules_are_uniform_runs() {
    assert!(is_horizontal_rule("---"));
    assert!(is_horizontal_rule("======"));
    assert!(is_horizontal_rule("***"));
    assert!(!is_horizontal_rule("--"), "two marks read as a dash");
    assert!(!is_horizontal_rule("-=-"), "mixed run is not a rule");
    assert!(!is_horizontal_rule("+--+"), "art, not a rule");
}

#[test]
fn art_density_thresholds() {
    assert!(!is_art("when a > b && c < d, return early"));
    assert!(is_art("+--+--+"));
    assert!(is_art("|  ^  |"));
    assert!(is_art("┌─┐"), "unicode box drawing");
    assert!(!is_art("the symbol arrow means yields"));
}

#[test]
fn bookend_shapes() {
    assert!(matches!(
        bookend_match("---- Section ----"),
        Some(BookendKind::Labeled(l)) if l == "Section"
    ));
    assert!(matches!(bookend_match("======"), Some(BookendKind::Bare)));

    assert!(bookend_match("--- a/kernel/sched.c").is_none());
    assert!(bookend_match("a fundamentally unsound strategy ---").is_none());

    assert!(bookend_match("-*- Mode: C -*-").is_none());
    assert!(bookend_match("-*-").is_none());
    assert!(bookend_match("-=-=-=").is_none());

    assert!(matches!(
        bookend_match("*--------"),
        Some(BookendKind::Bare)
    ));
    assert!(matches!(bookend_match("**======"), Some(BookendKind::Bare)));
    assert!(matches!(
        bookend_match("------- ------ -------"),
        Some(BookendKind::Bare)
    ));
}

#[test]
fn columns_advance_to_tab_stops() {
    assert_eq!(advance_col(0, '\t', 8), 8);
    assert_eq!(advance_col(3, '\t', 8), 8, "tab stops, not +8");
    assert_eq!(advance_col(8, '\t', 8), 16);
    assert_eq!(advance_col(0, 'a', 8), 1);
    assert_eq!(advance_col(0, '你', 8), 2, "wide characters cost two");
}

#[test]
fn kernel_doc_tag_form() {
    assert!(is_kernel_doc_tag("@name : desc"));
    assert!(is_kernel_doc_tag("@name: desc"));
    assert!(is_kernel_doc_tag("@buf_2:"));
    assert!(!is_kernel_doc_tag("@ : desc"));
    assert!(!is_kernel_doc_tag("@name desc"));
    assert!(!is_kernel_doc_tag("plain prose"));
}

#[test]
fn return_boundary_splits() {
    assert_eq!(
        split_at_return_boundary("Does the thing. Return the count."),
        ["Does the thing.", "Return the count."]
    );
    assert_eq!(
        split_at_return_boundary("Does the thing. @returns the count."),
        ["Does the thing.", "@returns the count."]
    );
    assert_eq!(
        split_at_return_boundary("2. Return the pointer"),
        ["2. Return the pointer"]
    );
    assert_eq!(
        split_at_return_boundary("(it can fail. Return codes are listed above)"),
        ["(it can fail. Return codes are listed above)"]
    );
    assert_eq!(
        split_at_return_boundary("the buffer is 4\" wide. Return the width"),
        ["the buffer is 4\" wide.", "Return the width"]
    );
    assert_eq!(
        split_at_return_boundary("Does the thing. Returning early is fine."),
        ["Does the thing. Returning early is fine."]
    );
}

#[test]
fn art_only_lines_protect_their_neighbors() {
    assert!(line_is_art_only("+----+"));
    assert!(line_is_art_only("|      |"));
    assert!(line_is_art_only("* label *"), "star box wall");
    assert!(!line_is_art_only("ordinary prose"));
    assert!(!line_is_art_only(""));
}
