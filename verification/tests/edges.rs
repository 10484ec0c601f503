use commentflow::assembly::{opens_line_comment_at, scan};
use commentflow::classify::{classify, classify_style, DocFlavor, Style};
use commentflow::comment::make_comment;
use commentflow::config::IndentConfig;
use commentflow::language::{
    detect_language, first_line_is_posix_shell_shebang, supported_extensions, DetectError, Language,
};
use commentflow::linekind::{
    classify_lines, doxy_keyword, doxy_tag, looks_like_email_or_path, LineKind, StrippedLine,
    TagShape,
};
use commentflow::merge::{dominant_line_ending, marker_kind, MarkerKind};
use commentflow::normalize::{group_paragraphs, normalize, split_block_closer, Line, ParagraphKind};
use commentflow::parse::{
    comments_in_tree, extract_comments, extract_comments_with, Comment, ExtractError, ParserPool,
};
use commentflow::planner::{plan_comments, PlanError};
use commentflow::reflow::{collapse_block_marker_stars, collapse_spaces, reflow};
use commentflow::rewrite::{apply, make_replacement, validate, Replacement, RewriteError};
use commentflow::signature::collect_param_shifts;
use commentflow::syntax::SyntaxNode;
use commentflow::textline::{advance_col, is_art, is_assignment_line, one_sided_banner};
use commentflow::width::display_width;
use commentflow::wrap::wrap_segment_aligned;

fn format_source(source: &str, lang: Language, column_limit: usize) -> String {
    let mut pool = ParserPool::default();
    let reps = commentflow::plan(source, lang, column_limit, IndentConfig::default(), &mut pool)
        .unwrap();
    apply(source, &reps)
}

fn wrap(body: &str, prefix: &str, effective: usize, hang: usize) -> Vec<String> {
    let mut out = Vec::new();
    wrap_segment_aligned(body, prefix, effective, hang, &mut out);
    out
}

fn stripped(bodies: &[&str]) -> Vec<StrippedLine> {
    bodies
        .iter()
        .map(|b| StrippedLine {
            prefix: " * ".to_string(),
            body: b.to_string(),
            had_crlf: false,
        })
        .collect()
}

fn kinds(bodies: &[&str], flavor: DocFlavor) -> Vec<LineKind> {
    classify_lines(&stripped(bodies), flavor, 77)
}

fn line(kind: LineKind, text: &str) -> Line {
    Line {
        kind,
        text: text.to_string(),
        had_crlf: false,
        raw: text.to_string(),
    }
}

fn node(kind: &'static str, start_byte: usize, end_byte: usize, depth: usize) -> SyntaxNode<'static> {
    SyntaxNode {
        kind,
        start_byte,
        end_byte,
        depth,
        field: None,
    }
}

#[test]
fn widths_follow_unicode() {
    assert_eq!(display_width("abc", 8), 3);
    assert_eq!(display_width("你好", 8), 4);
    assert_eq!(display_width("a\tb", 8), 9);
    assert_eq!(display_width("\u{301}", 8), 0);
    assert_eq!(display_width("\t", usize::MAX), usize::MAX);
    assert_eq!(display_width("a\t", usize::MAX), usize::MAX);
    assert_eq!(advance_col(5, '\u{1}', 8), 5);
    assert_eq!(advance_col(0, '\u{17d8}', 8), 3);
}

#[test]
fn wide_words_take_two_columns_each() {
    assert_eq!(wrap("你好 世界", "// ", 9, 0), ["// 你好 世界"]);
    assert_eq!(wrap("你好 世界", "// ", 8, 0), ["// 你好", "// 世界"]);
}

#[test]
fn a_joined_emoji_counts_once() {
    assert_eq!(wrap("👨‍👩‍👧 abc", "", 6, 0), ["👨‍👩‍👧 abc"]);
    assert_eq!(wrap("👨‍👩‍👧 abc", "", 5, 0), ["👨‍👩‍👧", "abc"]);
}

#[test]
fn letters_of_any_script_make_a_word() {
    assert!(!is_art("= über = été --- ="));
    assert!(is_art("= x = --- ="));
}

#[test]
fn continuation_lines_hang() {
    assert_eq!(
        wrap("aa bb cc dd", "* ", 5, 3),
        ["* aa bb", "*    cc", "*    dd"]
    );
    assert_eq!(wrap("", "* ", 5, 3), Vec::<String>::new());
    assert_eq!(wrap("longerthanthat", "", 3, 0), ["longerthanthat"]);
}

#[test]
fn a_tag_does_not_open_a_line() {
    assert_eq!(
        wrap("alpha beta @param gamma", "", 11, 0),
        ["alpha", "beta @param", "gamma"]
    );
}

#[test]
fn a_rule_is_not_left_alone() {
    assert_eq!(wrap("alpha beta ---", "", 10, 0), ["alpha", "beta ---"]);
    assert_eq!(wrap("alphabeta ---", "", 10, 0), ["alphabeta ---"]);
}

#[test]
fn a_name_keeps_its_colon_on_the_first_line() {
    assert_eq!(wrap("@name : text", "", 4, 0), ["@name :", "text"]);
    assert_eq!(wrap("aaaa @name : b", "", 5, 0), ["aaaa", "@name", ": b"]);
}

#[test]
fn blanks_and_stars_collapse() {
    assert_eq!(collapse_spaces(" a \t b\u{a0} c"), " a b\u{a0} c");
    assert_eq!(collapse_block_marker_stars(" ** body"), " * body");
    assert_eq!(collapse_block_marker_stars(" **"), " *");
    assert_eq!(collapse_block_marker_stars(" ***"), " ***");
    assert_eq!(collapse_block_marker_stars(" **ptr"), " **ptr");
}

#[test]
fn tags_are_looked_up_whole() {
    assert_eq!(doxy_tag("param"), Some(TagShape::Named));
    assert_eq!(doxy_tag("brief"), Some(TagShape::Plain));
    assert_eq!(doxy_tag("code"), Some(TagShape::VerbatimOpen));
    assert_eq!(doxy_tag("endcode"), Some(TagShape::VerbatimClose));
    assert_eq!(doxy_tag("arg"), None);
    assert_eq!(doxy_keyword("file.txt"), "file");
    assert!(looks_like_email_or_path("file.txt rest"));
    assert!(!looks_like_email_or_path("file rest.txt"));
}

#[test]
fn line_kinds_of_text() {
    assert_eq!(
        kinds(
            &[
                "prose here",
                "",
                "# Head",
                "> quoted",
                "[ref]: target",
                "- item",
                "2) item",
                "  code",
                "| a | b |",
                "Copyright (c) 2020",
                "SPDX-License-Identifier: MIT",
                "+--+",
            ],
            DocFlavor::Plain
        ),
        [
            LineKind::Prose,
            LineKind::Blank,
            LineKind::AtxHeader,
            LineKind::Blockquote,
            LineKind::ReferenceLink,
            LineKind::ListItem,
            LineKind::ListItem,
            LineKind::IndentedCode,
            LineKind::TableRow,
            LineKind::Metadata,
            LineKind::Metadata,
            LineKind::TableRow,
        ]
    );
}

#[test]
fn line_kinds_of_regions() {
    assert_eq!(
        kinds(
            &["```c", "# not a head", "```", "@code", "- no item", "@endcode", "end"],
            DocFlavor::Plain
        ),
        [
            LineKind::FenceOpen,
            LineKind::FenceContent,
            LineKind::FenceClose,
            LineKind::DoxyVerbatimOpen,
            LineKind::DoxyVerbatimContent,
            LineKind::DoxyVerbatimClose,
            LineKind::Prose,
        ]
    );
}

#[test]
fn tag_lines_depend_on_the_flavor() {
    assert_eq!(
        kinds(&["@note careful", "@name : text"], DocFlavor::Doxygen),
        [LineKind::DoxygenTag, LineKind::DoxygenTag]
    );
    assert_eq!(
        kinds(&["@note careful", "@name : text"], DocFlavor::Rustdoc),
        [LineKind::Prose, LineKind::DoxygenTag]
    );
}

#[test]
fn an_underline_needs_prose_above() {
    assert_eq!(
        kinds(&["Title text", "====="], DocFlavor::Rustdoc),
        [LineKind::Prose, LineKind::SetextUnderline]
    );
}

#[test]
fn rows_freeze_in_runs() {
    assert_eq!(
        kinds(&["File: a.c", "Task: fill"], DocFlavor::Plain),
        [LineKind::LabelRow, LineKind::LabelRow]
    );
    assert_eq!(kinds(&["Note: alone"], DocFlavor::Plain), [LineKind::Prose]);
    assert_eq!(
        kinds(&["rd = first", "rs1 = second", "and then"], DocFlavor::Plain),
        [LineKind::LabelRow, LineKind::LabelRow, LineKind::Prose]
    );
    assert_eq!(
        kinds(&["count = zero when drained", "and more"], DocFlavor::Plain),
        [LineKind::Prose, LineKind::Prose]
    );
    assert_eq!(
        classify_lines(&stripped(&["File: a.c", "Task: fill"]), DocFlavor::Plain, 9),
        [LineKind::Prose, LineKind::Prose]
    );
}

#[test]
fn a_banner_stands_alone() {
    assert!(one_sided_banner("label text -----"));
    assert_eq!(kinds(&["label text -----"], DocFlavor::Plain), [LineKind::Banner]);
    assert_eq!(
        kinds(&["label text -----", "goes on"], DocFlavor::Plain),
        [LineKind::Prose, LineKind::Prose]
    );
}

#[test]
fn mapping_rows() {
    for yes in ["a = b", "flags |= MASK", "x <<= 2", "ctx->f[1] = y", "imm   = value"] {
        assert!(is_assignment_line(yes), "{yes}");
    }
    for no in ["a == b", "a <= b", "a != b", "two words = b", "a =", "= b", "a => b", "1 = b"] {
        assert!(!is_assignment_line(no), "{no}");
    }
}

#[test]
fn paragraphs_are_grouped() {
    let lines = vec![
        line(LineKind::Prose, "one"),
        line(LineKind::Prose, "two"),
        line(LineKind::Prose, "Returns three"),
        line(LineKind::Blank, ""),
        line(LineKind::AtxHeader, "# four"),
        line(LineKind::TableRow, "| a |"),
        line(LineKind::Art, "+-+"),
        line(LineKind::ListItem, "- five"),
        line(LineKind::Prose, "six"),
    ];
    let got: Vec<(ParagraphKind, Vec<usize>, bool)> = group_paragraphs(&lines)
        .into_iter()
        .map(|p| (p.kind, p.line_indices, p.preceded_by_blank))
        .collect();
    assert_eq!(
        got,
        vec![
            (ParagraphKind::Prose, vec![0, 1], false),
            (ParagraphKind::Prose, vec![2], false),
            (ParagraphKind::AtxHeader, vec![4], true),
            (ParagraphKind::Preformatted, vec![5, 6], false),
            (ParagraphKind::Prose, vec![7, 8], false),
        ]
    );
}

#[test]
fn closers_take_the_given_indent() {
    assert_eq!(
        split_block_closer("/*@ a;\n    b; */", Some("  ")).as_deref(),
        Some("/*@ a;\n    b;\n  */")
    );
    assert_eq!(split_block_closer("/* a\n", None), None);
}

#[test]
fn annotation_closer_goes_under_the_opener() {
    assert_eq!(
        format_source("/*@ requires x;\n    ensures y; */\nint f(void);\n", Language::C, 80),
        "/*@ requires x;\n    ensures y;\n */\nint f(void);\n"
    );
    let splint = "/*@ requires x;\n  @ ensures y;\n  @*/\nint f(void);\n";
    assert_eq!(format_source(splint, Language::C, 80), splint);
}

#[test]
fn markers_and_endings() {
    assert_eq!(marker_kind("## a"), Some(MarkerKind::HashRun(2)));
    assert_eq!(marker_kind("/** a */"), None);
    assert_eq!(marker_kind("/*** a */"), Some(MarkerKind::PlainBlock));
    assert_eq!(marker_kind("#! a"), None);
    assert_eq!(dominant_line_ending("a\r\nb\nc\r\n"), "\r\n");
    assert_eq!(dominant_line_ending("a\r\nb\n"), "\n");
}

#[test]
fn styles_and_flavors() {
    assert_eq!(classify_style("// a"), Style::Line);
    assert_eq!(classify_style("/// a"), Style::DocLine);
    assert_eq!(classify_style("/* a */"), Style::Block);
    assert_eq!(classify_style("/** a */"), Style::DocBlock);
    assert_eq!(classify("/** a */", Language::C).flavor, DocFlavor::Doxygen);
    assert_eq!(classify("/** a */", Language::Rust).flavor, DocFlavor::Rustdoc);
    assert_eq!(classify("/* a */", Language::Rust).flavor, DocFlavor::Plain);
    assert_eq!(classify("/** a */", Language::Asm).flavor, DocFlavor::Plain);
}

#[test]
fn a_comment_knows_its_place() {
    let source = "int x;\n\t/* a */ int y; // b\n";
    let c = make_comment(source, 8, 15, Language::C, None, None);
    assert_eq!(c.text, "/* a */");
    assert_eq!(c.line_indent_bytes, "\t");
    assert_eq!(c.start_col_byte, 1);
    assert!(!c.is_trailing && !c.at_file_start && !c.force_passthrough);
    let d = make_comment(source, 23, 27, Language::C, None, None);
    assert_eq!(d.text, "// b");
    assert_eq!(d.line_indent_bytes, "");
    assert!(d.is_trailing);
}

#[test]
fn a_bare_carriage_return_pins_a_comment() {
    let source = "// a\rint x;\r";
    assert!(make_comment(source, 0, source.len(), Language::C, None, None).force_passthrough);
    let fine = "// a\r\nint x;\r\n";
    assert!(!make_comment(fine, 0, 5, Language::C, None, None).force_passthrough);
}

#[test]
fn every_grammar_finds_comments() {
    let mut pool = ParserPool::new();
    for (source, lang, want) in [
        ("int x; /* c */\n", Language::C, "/* c */"),
        ("class X {}; // cpp\n", Language::Cpp, "// cpp"),
        ("fn f() {} /* rust */\n", Language::Rust, "/* rust */"),
        ("echo a # shell\n", Language::Shell, "# shell"),
        ("nop /* gas */\n", Language::Asm, "/* gas */"),
    ] {
        for _ in 0..2 {
            let found = extract_comments_with(source, lang, &mut pool).unwrap();
            assert_eq!(found.len(), 1, "{source}");
            assert_eq!(found[0].text, want);
        }
        assert_eq!(extract_comments(source, lang).unwrap()[0].text, want);
    }
}

#[test]
fn strings_hold_no_comments() {
    assert!(extract_comments("char *s = \"/* no */\";\n", Language::C).unwrap().is_empty());
    assert!(extract_comments("echo '# no'\n", Language::Shell).unwrap().is_empty());
}

#[test]
fn comments_in_nested_code_are_found() {
    let source = "void f(void) {\n    if (a) {\n        /* deep */\n        g(/* arg */ 1);\n    }\n}\n/* last */\n";
    let texts: Vec<String> = extract_comments(source, Language::C)
        .unwrap()
        .into_iter()
        .map(|c| c.text)
        .collect();
    assert_eq!(texts, ["/* deep */", "/* arg */", "/* last */"]);
}

#[test]
fn a_tree_that_does_not_fit_is_refused() {
    let nodes = vec![node("translation_unit", 0, 6, 0), node("comment", 0, 99, 1)];
    assert_eq!(
        comments_in_tree("// \u{e4}\n", Language::C, &nodes).err(),
        Some(ExtractError::BadSpan)
    );
    let inside = vec![node("translation_unit", 0, 6, 0), node("comment", 0, 4, 1)];
    assert_eq!(
        comments_in_tree("// \u{e4}\n", Language::C, &inside).err(),
        Some(ExtractError::BadSpan)
    );
    let fits = vec![node("translation_unit", 0, 6, 0), node("comment", 0, 5, 1)];
    let found = comments_in_tree("// \u{e4}\n", Language::C, &fits).unwrap();
    assert_eq!(found[0].text, "// \u{e4}");
    assert_eq!(ExtractError::BadSpan.describe(), "tree-sitter reported a node outside the source");
    assert_eq!(ExtractError::Grammar.describe(), "set_language failed");
    assert_eq!(ExtractError::NoTree.describe(), "tree-sitter parse returned None");
}

#[test]
fn nodes_inside_comments_and_directives_are_passed_over() {
    let source = "// a\n// b\n";
    let nodes = vec![
        node("source_file", 0, 10, 0),
        node("comment", 0, 4, 1),
        node("comment", 2, 4, 2),
        node("preproc_def", 5, 9, 1),
        node("comment", 5, 9, 2),
    ];
    let found = comments_in_tree(source, Language::C, &nodes).unwrap();
    assert_eq!(found.len(), 1);
    assert_eq!(found[0].text, "// a");
}

#[test]
fn drifted_comments_are_mapped_to_their_parameters() {
    let source = "f(a,/*b*/c)/*d*/{}";
    let mut nodes = vec![
        node("translation_unit", 0, 18, 0),
        node("function_definition", 0, 18, 1),
        node("function_declarator", 0, 11, 2),
        node("identifier", 0, 1, 3),
        node("parameter_list", 1, 11, 3),
        node("(", 1, 2, 4),
        node("parameter_declaration", 2, 3, 4),
        node(",", 3, 4, 4),
        node("comment", 4, 9, 4),
        node("parameter_declaration", 9, 10, 4),
        node(")", 10, 11, 4),
        node("comment", 11, 16, 2),
        node("compound_statement", 16, 18, 2),
    ];
    nodes[2].field = Some("declarator");
    nodes[4].field = Some("parameters");
    nodes[12].field = Some("body");
    let shifts = collect_param_shifts(&nodes, source, Language::C);
    assert_eq!(shifts.len(), 2);
    assert_eq!(shifts[&4].insert_at, 3);
    assert!(!shifts[&4].after_paren);
    assert_eq!(shifts[&11].insert_at, 10);
    assert!(shifts[&11].after_paren);
    assert!(collect_param_shifts(&nodes, source, Language::Rust).is_empty());
}

#[test]
fn assembly_scan_is_cautious() {
    assert_eq!(scan("nop /* a */ nop /* b */\n"), [(4, 11), (16, 23)]);
    assert_eq!(scan("mov r0, #1 /* a */\n"), []);
    assert_eq!(scan("// x /* a */\n"), []);
    assert_eq!(scan(".ascii \"/* s */\" /* c */\n"), [(17, 24)]);
    assert_eq!(scan(".ascii \"a\\\"/* s */\"\n"), []);
    assert_eq!(scan("/* open\n"), []);
    assert!(opens_line_comment_at("  @ note"));
    assert!(opens_line_comment_at("# note"));
    assert!(!opens_line_comment_at("nop"));
}

#[test]
fn assembly_macros_are_left_alone() {
    let src = "#define X \\\n  /* a comment in a macro that is far too long for the column limit of forty */ \\\n  nop\n";
    assert_eq!(format_source(src, Language::Asm, 40), src);
    let stacked = "nop\n@ a line comment of some target\n/* A comment that is long enough to be wrapped here. */\n";
    let out = format_source(stacked, Language::Asm, 40);
    assert!(out.contains("target\n/* A comment"), "{out}");
}

#[test]
fn languages_from_paths() {
    assert_eq!(detect_language("dir.d/foo.CPP", &[]), Ok(Language::Cpp));
    assert_eq!(detect_language("a/b.rs/", &[]), Ok(Language::Rust));
    assert_eq!(detect_language("a/b.rs/.", &[]), Ok(Language::Rust));
    assert_eq!(detect_language("foo.S", &[]), Ok(Language::Asm));
    assert_eq!(detect_language("dir.c/script", b"#!/bin/sh\n"), Ok(Language::Shell));
    assert_eq!(detect_language(".bashrc", b"#!/bin/bash"), Ok(Language::Shell));
    assert_eq!(detect_language(".bashrc", b"echo"), Err(DetectError::NoShebang));
    assert_eq!(detect_language("a.c/..", b""), Err(DetectError::NoShebang));
    assert_eq!(detect_language("foo.", b"#!/bin/sh"), Err(DetectError::UnsupportedExtension));
    assert_eq!(detect_language("foo.txt", b"#!/bin/sh"), Err(DetectError::UnsupportedExtension));
}

#[test]
fn shebangs_are_read_from_bytes() {
    assert!(first_line_is_posix_shell_shebang(b"#!/bin/sh\n\xff\xfe"));
    assert!(!first_line_is_posix_shell_shebang(b"#!/bin/sh \xff\n"));
    assert!(!first_line_is_posix_shell_shebang(b""));
    assert!(!first_line_is_posix_shell_shebang(b"\n#!/bin/sh\n"));
}

#[test]
fn detection_errors_say_why() {
    assert_eq!(
        DetectError::UnsupportedExtension.describe("a.txt"),
        "unsupported extension on path: a.txt (commentflow supports .c .h .m .cc .cpp .cxx .c++ .hh .hpp .hxx .h++ .mm .rs .sh .bash .s, matched case-insensitively)"
    );
    assert_eq!(
        DetectError::NoShebang.describe("run"),
        "no extension and no recognized POSIX-shell shebang: run"
    );
    for ext in supported_extensions() {
        assert!(detect_language(&format!("x.{ext}"), &[]).is_ok(), "{ext}");
    }
}

#[test]
fn refused_replacements() {
    let source = "int \u{e4}; // a\n";
    let comments = extract_comments(source, Language::C).unwrap();
    let rep = |start: usize, end: usize, text: &str| Replacement {
        start,
        end,
        text: text.to_string(),
    };
    let start = comments[0].start_byte;
    let end = comments[0].end_byte;
    assert_eq!(validate(&vec![rep(start, end, "// b")], source, &comments), Ok(()));
    assert_eq!(
        validate(&vec![rep(5, 6, "x")], source, &comments),
        Err(RewriteError::BadSpan)
    );
    assert_eq!(
        validate(&vec![rep(start, end, "x"), rep(start + 1, end, "y")], source, &comments),
        Err(RewriteError::Overlap)
    );
    assert_eq!(
        validate(&vec![rep(0, end, "x")], source, &comments),
        Err(RewriteError::CoversCode)
    );
    assert_eq!(
        validate(&vec![rep(start, start, "x")], source, &comments),
        Err(RewriteError::StrayInsert)
    );
    assert_eq!(RewriteError::Overlap.describe(), "replacement ranges overlap");
    assert_eq!(
        PlanError::Rewrite(RewriteError::CoversCode).describe(),
        "replacement range covers bytes outside comments"
    );
    assert_eq!(
        PlanError::Extract(ExtractError::NoTree).describe(),
        "tree-sitter parse returned None"
    );
}

#[test]
fn replacements_are_carried_out_in_source_order() {
    let reps = vec![
        Replacement { start: 4, end: 6, text: "EF".to_string() },
        Replacement { start: 1, end: 2, text: String::new() },
        Replacement { start: 4, end: 4, text: "-".to_string() },
    ];
    assert_eq!(apply("abcdefg", &reps), "acd-EFg");
}

#[test]
fn a_replacement_keeps_the_line_break() {
    let source = "# old\r\nx=0\n";
    let c = make_comment(source, 0, 6, Language::Shell, None, None);
    let r = make_replacement(&c, "# new", source).unwrap();
    assert_eq!(r.text, "# new\r");
    assert!(make_replacement(&c, "# old", source).is_none());
    assert!(make_replacement(&c, "", source).is_none());
}

#[test]
fn overlapping_comments_have_no_plan() {
    let source = "// a comment that is too long for the limit\n";
    let c = make_comment(source, 0, source.len() - 1, Language::C, None, None);
    let comments: Vec<Comment> = vec![c.clone(), c];
    assert_eq!(
        plan_comments(source, &comments, Language::C, 20, IndentConfig::default()).err(),
        Some(RewriteError::Overlap)
    );
}

#[test]
fn documents_reflow_by_their_settings() {
    let source = "\t// one two three four five\n";
    let c = make_comment(source, 1, source.len() - 1, Language::C, None, None);
    let kind = classify(&c.text, Language::C);
    assert!(normalize(&c, &kind, Language::C, 80).is_none());
    let doc = normalize(&c, &kind, Language::C, 24).unwrap();
    assert_eq!(
        reflow(&doc, 24, IndentConfig { tab_width: 8 }),
        "// one two three\n\t// four five"
    );
    assert_eq!(
        reflow(&doc, 24, IndentConfig { tab_width: 2 }),
        "// one two three four\n\t// five"
    );
}
