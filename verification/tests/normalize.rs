use commentflow::classify::{DocFlavor, Kind, Style};
use commentflow::normalize::{
    convert_kernel_doc, kdoc_xref_name, single_line_has_strippable_bookend,
    split_trailing_block_closer, Line, LineKind,
};
use commentflow::parse::Language;

fn plain_kind() -> Kind {
    Kind {
        style: Style::Line,
        flavor: DocFlavor::Plain,
    }
}

#[test]
fn trailing_block_closer_split() {
    let text = "/* foo\n     * bar. */";
    assert_eq!(
        split_trailing_block_closer(text).as_deref(),
        Some("/* foo\n     * bar.\n     */")
    );
    assert_eq!(
        split_trailing_block_closer("/* foo\n     * bar.\n     */"),
        None
    );
    assert_eq!(split_trailing_block_closer("/* foo */"), None);
    assert_eq!(split_trailing_block_closer("/* foo\n     * */"), None);
    assert_eq!(
        split_trailing_block_closer("/* foo\r\n     * bar. */").as_deref(),
        Some("/* foo\r\n     * bar.\r\n     */")
    );
}

fn mk_lines(bodies: &[(&str, LineKind)]) -> Vec<Line> {
    bodies
        .iter()
        .map(|(b, k)| Line {
            kind: *k,
            text: b.to_string(),
            had_crlf: false,
            raw: b.to_string(),
        })
        .collect()
}

fn convert_bodies(lines: Vec<Line>) -> Vec<String> {
    convert_kernel_doc(lines, Language::C)
        .into_iter()
        .map(|l| l.text)
        .collect()
}

#[test]
fn kernel_doc_glued_params_and_return_split() {
    let lines = mk_lines(&[
        ("Brief.", LineKind::Prose),
        ("", LineKind::Blank),
        ("\\param ctp the ctp \\param msg the", LineKind::Prose),
        ("msg \\return EOK on failure", LineKind::Prose),
    ]);
    assert_eq!(
        convert_bodies(lines),
        vec![
            "Brief.",
            "",
            "@ctp : the ctp",
            "@msg : the msg",
            "",
            "Return EOK on failure",
        ]
    );
}

#[test]
fn kernel_doc_consecutive_params_no_blank_between() {
    let lines = mk_lines(&[
        ("@param a first", LineKind::Prose),
        ("@param b second", LineKind::Prose),
        ("@param c third", LineKind::Prose),
    ]);
    assert_eq!(
        convert_bodies(lines),
        vec!["@a : first", "@b : second", "@c : third"]
    );
}

#[test]
fn kernel_doc_hoists_return_after_params() {
    let lines = mk_lines(&[
        ("@return zero", LineKind::Prose),
        ("@param x the x", LineKind::Prose),
    ]);
    assert_eq!(convert_bodies(lines), vec!["@x : the x", "", "Return zero"]);
}

#[test]
fn kdoc_xref_name_forms() {
    assert_eq!(kdoc_xref_name("@align"), Some("align"));
    assert_eq!(kdoc_xref_name("\\align"), Some("align"));
    assert_eq!(kdoc_xref_name("@align,"), Some("align"));
    assert_eq!(kdoc_xref_name("@size."), Some("size"));
    assert_eq!(kdoc_xref_name("@_x)"), Some("_x"));
    assert_eq!(kdoc_xref_name("\\n"), None);
    assert_eq!(kdoc_xref_name("\\0"), None);
    assert_eq!(kdoc_xref_name("\\n."), None);
    assert_eq!(kdoc_xref_name("\\t,"), None);
    assert_eq!(kdoc_xref_name("@n"), Some("n"));
    assert_eq!(kdoc_xref_name("@0"), None);
    assert_eq!(kdoc_xref_name("@"), None);
    assert_eq!(kdoc_xref_name("plain"), None);
    assert_eq!(kdoc_xref_name("@file.txt"), None);
}

#[test]
fn kernel_doc_param_cross_reference_is_description_text() {
    let lines = mk_lines(&[
        ("@param align Alignment in bytes", LineKind::Prose),
        (
            "@param size Need not be a multiple of @align",
            LineKind::Prose,
        ),
        ("@return Aligned to @align, or NULL", LineKind::Prose),
    ]);
    assert_eq!(
        convert_bodies(lines),
        vec![
            "@align : Alignment in bytes",
            "@size : Need not be a multiple of @align",
            "",
            "Return Aligned to @align, or NULL",
        ]
    );

    let undeclared = mk_lines(&[
        ("@param x the x", LineKind::Prose),
        ("@return bounded by @limit", LineKind::Prose),
    ]);
    assert_eq!(
        convert_bodies(undeclared),
        vec!["@param x the x", "@return bounded by @limit"]
    );

    let prose_mention = mk_lines(&[
        ("Pass @param note to the logger.", LineKind::Prose),
        ("@param x the x", LineKind::Prose),
        ("@note beware", LineKind::Prose),
    ]);
    assert_eq!(
        convert_bodies(prose_mention),
        vec![
            "Pass @param note to the logger.",
            "@param x the x",
            "@note beware",
        ]
    );

    let collision = mk_lines(&[
        ("@param file the output stream", LineKind::Prose),
        ("@file writer.c", LineKind::Prose),
    ]);
    assert_eq!(
        convert_bodies(collision),
        vec!["@param file the output stream", "@file writer.c"]
    );

    let midline = mk_lines(&[
        ("@param file the output stream", LineKind::Prose),
        ("Opened before @file is read.", LineKind::Prose),
    ]);
    assert_eq!(
        convert_bodies(midline),
        vec![
            "@param file the output stream",
            "Opened before @file is read."
        ]
    );

    let custom_collision = mk_lines(&[
        ("@param foo the output stream", LineKind::Prose),
        ("@foo custom section", LineKind::Prose),
    ]);
    assert_eq!(
        convert_bodies(custom_collision),
        vec!["@foo : the output stream @foo custom section"]
    );

    let wrapped_decl = mk_lines(&[
        ("@param", LineKind::Prose),
        ("size the size in bytes", LineKind::Prose),
        ("@return a multiple of @size", LineKind::Prose),
    ]);
    assert_eq!(
        convert_bodies(wrapped_decl),
        vec![
            "@size : the size in bytes",
            "",
            "Return a multiple of @size",
        ]
    );

    let undeclared_punct = mk_lines(&[
        ("@param x the x", LineKind::Prose),
        ("bounded by @limit, roughly", LineKind::Prose),
    ]);
    assert_eq!(
        convert_bodies(undeclared_punct),
        vec!["@param x the x", "bounded by @limit, roughly"]
    );
}

#[test]
fn kernel_doc_bails_on_foreign_tag() {
    let after = mk_lines(&[
        ("@param x the x", LineKind::Prose),
        ("@note beware", LineKind::Prose),
    ]);
    assert_eq!(
        convert_bodies(after),
        vec!["@param x the x", "@note beware"]
    );
    let head = mk_lines(&[
        ("@brief does things", LineKind::Prose),
        ("@param x the x", LineKind::Prose),
    ]);
    assert_eq!(
        convert_bodies(head),
        vec!["@brief does things", "@param x the x"]
    );
}

#[test]
fn kernel_doc_param_direction_dropped() {
    let lines = mk_lines(&[
        ("@param[in] src the source", LineKind::Prose),
        ("@param[out] dst the dest", LineKind::Prose),
    ]);
    assert_eq!(
        convert_bodies(lines),
        vec!["@src : the source", "@dst : the dest"]
    );
}

#[test]
fn kernel_doc_bails_on_post_tag_prose() {
    let lines = mk_lines(&[
        ("@param x the x", LineKind::Prose),
        ("", LineKind::Blank),
        ("More details.", LineKind::Prose),
    ]);
    assert_eq!(
        convert_bodies(lines),
        vec!["@param x the x", "", "More details."]
    );
}

#[test]
fn kernel_doc_bails_on_non_identifier_name() {
    let lines = mk_lines(&[("@param x,y the pair", LineKind::Prose)]);
    assert_eq!(convert_bodies(lines), vec!["@param x,y the pair"]);
}

#[test]
fn kernel_doc_bails_on_malformed_direction() {
    let lines = mk_lines(&[("@param[bogus x the x", LineKind::Prose)]);
    assert_eq!(convert_bodies(lines), vec!["@param[bogus x the x"]);
}

#[test]
fn kernel_doc_inline_ref_in_description_passes_through() {
    let lines = mk_lines(&[("@param x see (@ref foo) for details", LineKind::Prose)]);
    assert_eq!(
        convert_bodies(lines),
        vec!["@x : see (@ref foo) for details"]
    );
}

#[test]
fn kernel_doc_empty_return_has_no_trailing_space() {
    let lines = mk_lines(&[
        ("@param x the x", LineKind::Prose),
        ("@return", LineKind::Prose),
    ]);
    assert_eq!(convert_bodies(lines), vec!["@x : the x", "", "Return"]);
}

#[test]
fn kernel_doc_return_only_has_no_leading_blank() {
    let lines = mk_lines(&[("@return zero on success", LineKind::Prose)]);
    assert_eq!(convert_bodies(lines), vec!["Return zero on success"]);
}

#[test]
fn kernel_doc_ignores_mid_sentence_tag() {
    let lines = mk_lines(&[
        (
            "To document a parameter write @param name desc",
            LineKind::Prose,
        ),
        ("above the function body.", LineKind::Prose),
    ]);
    assert_eq!(
        convert_bodies(lines),
        vec![
            "To document a parameter write @param name desc",
            "above the function body.",
        ]
    );
}

#[test]
fn kernel_doc_skips_non_c_languages() {
    let lines = mk_lines(&[("\\param x the x", LineKind::Prose)]);
    let out: Vec<String> = convert_kernel_doc(lines, Language::Rust)
        .into_iter()
        .map(|l| l.text)
        .collect();
    assert_eq!(out, vec!["\\param x the x"]);
}

#[test]
fn single_line_bare_bookend_forces_normalize_for_plain_comments() {
    assert!(single_line_has_strippable_bookend(
        "// --------",
        &plain_kind()
    ));
    assert!(single_line_has_strippable_bookend("# =====", &plain_kind()));
}
