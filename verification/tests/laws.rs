use commentflow::classify::classify;
use commentflow::comment::make_comment;
use commentflow::config::IndentConfig;
use commentflow::language::{detect_language, Language};
use commentflow::normalize::{convert_kernel_doc, normalize, split_trailing_block_closer, Line, LineKind};
use commentflow::parse::{extract_comments, ParserPool};
use commentflow::reflow::{collapse_block_marker_stars, collapse_spaces, reflow};
use commentflow::rewrite::apply;
use commentflow::textline::split_at_return_boundary;
use commentflow::wrap::wrap_segment_aligned;

fn format_source(source: &str, lang: Language, column_limit: usize) -> String {
    let mut pool = ParserPool::new();
    let reps = commentflow::plan(source, lang, column_limit, IndentConfig::default(), &mut pool)
        .unwrap();
    apply(source, &reps)
}

fn wrap(body: &str, effective: usize, hang: usize) -> Vec<String> {
    let mut out = Vec::new();
    wrap_segment_aligned(body, "", effective, hang, &mut out);
    out
}

fn words(text: &str) -> Vec<&str> {
    text.split_whitespace().collect()
}

fn line(kind: LineKind, text: &str) -> Line {
    Line {
        kind,
        text: text.to_string(),
        had_crlf: false,
        raw: text.to_string(),
    }
}

#[test]
fn wrapping_keeps_words_and_settles() {
    let body = "alpha --- @param beta gamma *** @name : delta --------";
    for width in 0..40 {
        let lines = wrap(body, width, 2);
        let joined = lines.join(" ");
        assert_eq!(words(&joined), words(body));
        assert_eq!(wrap(&joined, width, 2), lines);
    }
}

#[test]
fn only_tags_and_rules_overflow() {
    for l in wrap("aa bb cc @note dd ee --- ff gg", 5, 0) {
        let last = words(&l).len();
        assert!(
            l.len() <= 5 || l.contains("@note") || l.contains("---") || last == 1,
            "{l}"
        );
    }
}

#[test]
fn return_pieces_keep_words() {
    let body = "Does a. Return b! \\returns c";
    let pieces = split_at_return_boundary(body);
    assert_eq!(pieces, ["Does a.", "Return b!", "\\returns c"]);
    assert_eq!(words(&pieces.join(" ")), words(body));
}

#[test]
fn closers_split_once_and_keep_text() {
    let split = split_trailing_block_closer("/* a\n   b;*/").unwrap();
    assert_eq!(split, "/* a\n   b;\n   */");
    assert_eq!(split_trailing_block_closer(&split), None);
}

#[test]
fn collapsing_settles() {
    let once = collapse_spaces("a \t b  c");
    assert_eq!(once, "a b c");
    assert_eq!(collapse_spaces(&once), once);
    let star = collapse_block_marker_stars("  *** x");
    assert_eq!(star, "  * x");
    assert_eq!(collapse_block_marker_stars(&star), star);
}

#[test]
fn kernel_doc_settles_and_keeps_its_head() {
    let lines = vec![
        line(LineKind::Prose, "Head text."),
        line(LineKind::Prose, "@param x the x"),
        line(LineKind::Prose, "@return zero"),
    ];
    let texts = |v: &Vec<Line>| v.iter().map(|l| l.text.clone()).collect::<Vec<String>>();
    let once = convert_kernel_doc(lines, Language::C);
    assert_eq!(texts(&once), ["Head text.", "@x : the x", "", "Return zero"]);
    let again = convert_kernel_doc(once.clone(), Language::C);
    assert_eq!(texts(&again), texts(&once));
}

#[test]
fn code_survives_moves_and_rewrites() {
    let source = "int f(int a, /* the b */ int b) /* the c */ {\n    g();\n    // a comment that will have to be wrapped at this width\n    return 0;\n}\n";
    let out = format_source(source, Language::C, 40);
    let code = |s: &str| -> String {
        let mut rest = s.to_string();
        let mut kept = String::new();
        for c in extract_comments(s, Language::C).unwrap().iter().rev() {
            rest.replace_range(c.start_byte..c.end_byte, "");
        }
        kept.extend(rest.chars().filter(|c| !c.is_whitespace()));
        kept
    };
    assert_ne!(out, source);
    assert_eq!(code(&out), code(source));
}

#[test]
fn settled_sources_stay() {
    let source = "int x;\n\n/* one\n *\n * two\n */\nint y;\n";
    let out = format_source(source, Language::C, 60);
    assert_eq!(format_source(&out, Language::C, 60), out);
    assert_eq!(format_source("int x;\n", Language::C, 60), "int x;\n");
}

#[test]
fn one_blank_line_above_is_enough() {
    let flush = "int x;\n// a comment that takes two lines at this width\nint y;\n";
    let out = format_source(flush, Language::C, 30);
    assert!(out.starts_with("int x;\n\n// a comment"), "{out}");
    assert_eq!(format_source(&out, Language::C, 30), out);
}

#[test]
fn directives_stay() {
    let source = "// NOLINTNEXTLINE(a-very-long-name, another-very-long-name, and-one-more)\nint x;\n";
    assert_eq!(format_source(source, Language::C, 30), source);
}

#[test]
fn style_indentation_and_endings_survive() {
    let source = "\t/* a block comment that is wrapped\r\n\t * with carriage returns\r\n\t */\r\nint x;\r\n";
    let out = format_source(source, Language::C, 30);
    assert!(out.starts_with("\t/*\r\n\t * a block"), "{out:?}");
    assert_eq!(out.matches('\n').count(), out.matches("\r\n").count());
    for l in out.lines().take_while(|l| !l.starts_with("int")) {
        assert!(l.starts_with('\t'), "{l:?}");
    }
}

#[test]
fn blank_lines_survive() {
    let source = "/*\n * one two three four five\n *\n * six seven eight nine ten\n */\nint x;\n";
    let out = format_source(source, Language::C, 20);
    assert_eq!(
        out,
        "/*\n * one two three\n * four five\n *\n * six seven eight\n * nine ten\n */\nint x;\n"
    );
}

#[test]
fn preformatted_lines_pass() {
    let source = "/*\n * prose that is wrapped at twenty\n *\n *     int  code =  1;\n * +--+--+\n */\nint x;\n";
    let out = format_source(source, Language::C, 20);
    assert!(out.contains(" *     int  code =  1;\n * +--+--+\n"), "{out}");
}

#[test]
fn moved_comments_are_on_one_line() {
    let source = "int h(int a,\n      /* long\n         desc */ int b) /* t */\n{\n    return 0;\n}\n";
    let out = format_source(source, Language::C, 80);
    assert!(out.contains("int a /* long desc */,"), "{out}");
    assert_eq!(format_source(&out, Language::C, 80), out);
}

#[test]
fn merged_comments_stay_apart() {
    let source = "// one\n// two\nint x; // three\n/* four */\n";
    let found = extract_comments(source, Language::C).unwrap();
    assert_eq!(found.len(), 3);
    assert_eq!(found[0].text, "// one\n// two");
    assert!(found[0].end_byte <= found[1].start_byte);
    assert!(found[1].end_byte <= found[2].start_byte);
}

#[test]
fn extension_case_and_content_do_not_matter() {
    assert_eq!(detect_language("a.RS", b"#!/bin/sh"), detect_language("b.rs", &[]));
}

#[test]
fn trailing_comments_are_not_wrapped() {
    let source = "int x; // a trailing comment that is longer than the limit\n";
    let start = source.find("//").unwrap();
    let c = make_comment(source, start, source.len() - 1, Language::C, None, None);
    assert!(normalize(&c, &classify(&c.text, Language::C), Language::C, 20).is_none());
}

#[test]
fn reflow_of_a_wrapped_comment_is_the_comment() {
    let source = "// one two three four five six seven\n";
    let c = make_comment(source, 0, source.len() - 1, Language::C, None, None);
    let kind = classify(&c.text, Language::C);
    let once = reflow(&normalize(&c, &kind, Language::C, 20).unwrap(), 20, IndentConfig::default());
    let d = make_comment(&once, 0, once.len(), Language::C, None, None);
    let again = reflow(&normalize(&d, &kind, Language::C, 20).unwrap(), 20, IndentConfig::default());
    assert_eq!(again, once);
}

fn runs_once(source: &str, lang: Language, column_limit: usize) -> String {
    let once = format_source(source, lang, column_limit);
    assert_eq!(format_source(&once, lang, column_limit), once, "from {source}");
    once
}

#[test]
fn a_second_pass_changes_no_line_comment() {
    let once = runs_once(
        "int a;\n\n// alpha beta gamma delta epsilon zeta\n// eta theta\n//\n// - item one that goes on for a while\n// - item two\n//\n// last words of all\n",
        Language::C,
        30,
    );
    assert_eq!(
        once,
        "int a;\n\n// alpha beta gamma delta\n// epsilon zeta eta theta\n//\n// - item one that goes on for\n// a while\n// - item two\n//\n// last words of all\n"
    );
}

#[test]
fn a_second_pass_changes_no_rust_doc_comment() {
    let once = runs_once(
        "/// alpha beta gamma delta epsilon zeta\n///\n/// # Header\n///\n/// ```\n/// let x = 1;\n/// ```\nfn f() {}\n",
        Language::Rust,
        24,
    );
    assert_eq!(
        once,
        "/// alpha beta gamma\n/// delta epsilon zeta\n///\n/// # Header\n///\n/// ```\n/// let x = 1;\n/// ```\nfn f() {}\n"
    );
}

#[test]
fn a_second_pass_changes_no_block() {
    let once = runs_once(
        "int a;\n\n/* alpha beta gamma delta epsilon zeta eta\n   theta\n\n   iota kappa */\nint b;\n",
        Language::C,
        30,
    );
    assert_eq!(
        once,
        "int a;\n\n/* alpha beta gamma delta\n * epsilon zeta eta theta\n *\n * iota kappa\n */\nint b;\n"
    );
    let short = runs_once("int a;\n\n/*\n * one row\n */\nint b;\n", Language::C, 30);
    assert_eq!(short, "int a;\n\n/* one row */\nint b;\n");
}

#[test]
fn a_second_pass_changes_no_documentation_block() {
    let once = runs_once(
        "int a;\n\n/**\n * Does a thing. Return the other thing that was asked for here\n * @x : the first of all the parameters there are\n */\nint f(int x);\n",
        Language::C,
        40,
    );
    assert_eq!(
        once,
        "int a;\n\n/**\n * Does a thing.\n *\n * Return the other thing that was asked\n * for here\n * @x : the first of all the parameters\n *      there are\n */\nint f(int x);\n"
    );
}

#[test]
fn a_second_pass_changes_no_block_that_its_last_line_closes() {
    let once = runs_once(
        "int a;\n\n/* alpha beta gamma delta epsilon zeta\n *\n * | a | b |\n * |---|---|\n * | c | d | */\nint b;\n",
        Language::C,
        30,
    );
    assert_eq!(
        once,
        "int a;\n\n/* alpha beta gamma delta\n * epsilon zeta\n *\n * | a | b |\n * |---|---|\n * | c | d | */\nint b;\n"
    );
}

#[test]
fn a_second_pass_changes_no_assembly() {
    let once = runs_once(
        "nop\n/* alpha beta gamma delta epsilon zeta eta theta */\nnop\n",
        Language::Asm,
        30,
    );
    assert_eq!(
        once,
        "nop\n\n/* alpha beta gamma delta\n * epsilon zeta eta theta\n */\nnop\n"
    );
}

#[test]
fn a_second_pass_keeps_line_endings() {
    let once = runs_once(
        "int a;\r\n\r\n// alpha beta gamma\r\n// delta epsilon zeta eta\r\n",
        Language::C,
        24,
    );
    assert_eq!(once, "int a;\r\n\r\n// alpha beta gamma\r\n// delta epsilon zeta\r\n// eta\r\n");
}

#[test]
fn decoration_that_is_left_is_taken_off_later() {
    let once = format_source("// --- --- hello --- ---\n", Language::C, 80);
    assert_eq!(once, "// --- hello ---\n");
    assert_eq!(format_source(&once, Language::C, 80), "// hello\n");
}

#[test]
fn a_comment_keeps_its_words() {
    let source = "int a;\n\n/* alpha beta\n * gamma. Return delta\n *\n * 1. epsilon zeta\n * 2. eta theta iota\n */\nint b;\n";
    let said = |s: &str| -> Vec<String> {
        words(&s.replace("/*", " ").replace("*/", " "))
            .iter()
            .filter(|w| **w != "*")
            .map(|w| w.to_string())
            .collect()
    };
    for limit in 8..40 {
        assert_eq!(said(&format_source(source, Language::C, limit)), said(source));
    }
}

#[test]
fn a_last_line_of_decoration_takes_words_and_may_overflow() {
    assert_eq!(wrap("aaaa bbbb ---", 9, 0), ["aaaa", "bbbb ---"]);
    assert_eq!(wrap("aaaa ---", 4, 0), ["aaaa ---"]);
}

#[test]
fn a_wrapped_line_that_opens_like_an_item_settles() {
    let once = format_source("// alpha betaxyz - gamma\nint x;\n", Language::C, 16);
    assert_eq!(once, "// alpha betaxyz\n// - gamma\nint x;\n");
    assert_eq!(format_source(&once, Language::C, 16), once);
}

#[test]
fn a_moved_parameter_comment_keeps_its_style_and_stays() {
    let source = "int f(int a, int b) /* first\n one */\n{\n    return a + b;\n}\n";
    let once = format_source(source, Language::C, 80);
    assert!(!once.contains("///") && !once.contains("/**"), "{once}");
    assert_eq!(format_source(&once, Language::C, 80), once);
}

#[test]
fn assembly_comments_settle_together() {
    let source = "/* first   note */\n\tmov r0, r1\n\n/* alpha beta gamma delta epsilon zeta eta\n   theta */\n\tbx lr\n\n/* last */\n";
    let once = format_source(source, Language::Asm, 30);
    for l in once.lines() {
        assert!(l.len() <= 30, "{l}");
    }
    assert_ne!(once, source);
    assert_eq!(format_source(&once, Language::Asm, 30), once);
}

#[test]
fn comments_without_text_settle() {
    for source in ["/*\n *\n *\n */\nint x;\n", "int y;\n\n/*\n\n\n */\nint x;\n", "//\n//\nint x;\n"] {
        for limit in [3, 20, 80] {
            let once = format_source(source, Language::C, limit);
            assert_eq!(format_source(&once, Language::C, limit), once, "{source:?} at {limit}");
        }
    }
}

#[test]
fn a_directive_between_other_comments_is_not_touched() {
    let source = "// alpha beta gamma delta epsilon zeta\n\n// clang-format off\n\n// eta theta iota kappa lambda mu nu xi\n";
    let out = format_source(source, Language::C, 20);
    assert!(out.contains("\n// clang-format off\n"), "{out}");
    assert_ne!(out, source);
}

#[test]
fn assembly_settles_beside_code_and_in_runs() {
    for (limit, source) in [
        (30, "/* a */ nop\n"),
        (30, "\tnop /* alpha\n beta */ nop\n"),
        (20, "/* alpha beta gamma delta epsilon */ nop"),
        (20, "\tnop\n/* alpha beta gamma */\n/* delta epsilon zeta */\n# /* eta */\n"),
        (20, "/* alpha */ /* beta */\n"),
        (20, "/* alpha beta gamma delta */ mov r0, r1 @ /* eta theta iota kappa lambda mu */\n\n/* nu xi omicron pi rho */"),
        (40, "\tnop\n/* a */\n#if X\n/* alpha beta gamma delta epsilon zeta eta theta iota */\n\tnop\n#endif\n"),
        (40, "\tnop\n/* a */\n\n#if defined(X) || \\\n    defined(Y)\n/* alpha beta gamma delta epsilon zeta eta theta iota */\n\tnop\n#endif\n"),
    ] {
        let once = format_source(source, Language::Asm, limit);
        assert_eq!(format_source(&once, Language::Asm, limit), once, "{source:?}");
    }
    assert_eq!(
        format_source("\tnop\n\n/* alpha beta */\n/* gamma delta */\n", Language::Asm, 40),
        "\tnop\n\n/* alpha beta gamma delta */\n"
    );
}

#[test]
fn a_block_that_a_run_uncovers_is_read_next_time() {
    let source = "/* alpha beta gamma delta ; epsilon\n   zeta ; */ /* one\n   two */\n";
    let once = format_source(source, Language::Asm, 30);
    assert_ne!(format_source(&once, Language::Asm, 30), once, "{once:?}");
}

#[test]
fn a_directive_that_a_run_dissolves_is_code_next_time() {
    let source = "/* alpha\n# if beta */ .macro foo \\\n/* gamma delta epsilon\n   zeta */\n";
    let once = format_source(source, Language::Asm, 30);
    assert_ne!(format_source(&once, Language::Asm, 30), once, "{once:?}");
}

#[test]
fn a_licence_tag_that_a_run_puts_first_makes_a_header() {
    let source = "/* a */\n/* SPDX-License-Identifier: MIT */\n\n/* alpha beta gamma delta epsilon zeta eta theta */\n";
    let once = format_source(source, Language::Asm, 40);
    assert_ne!(format_source(&once, Language::Asm, 40), once, "{once:?}");
}

#[test]
fn a_decorated_label_keeps_two_blocks_apart_once() {
    let source = "\tnop\n\n/*\n * --- ab ---\n * foo\n */\n/* bar */\n";
    let once = format_source(source, Language::Asm, 40);
    assert_ne!(format_source(&once, Language::Asm, 40), once, "{once:?}");
}

#[test]
fn a_page_that_leaves_the_line_above_uncovers_it() {
    let source = "int f(a)\n/* DESCRIPTION\n   Adds things.\n   RETURN\n   The sum. */\n// alpha beta gamma delta epsilon zeta eta theta\nint a;\n{\n    return a;\n}\n";
    let once = format_source(source, Language::C, 40);
    assert!(once.starts_with("/*\n * Adds things.\n"), "{once}");
    assert_ne!(format_source(&once, Language::C, 40), once, "{once:?}");
}

#[test]
fn moved_comments_stay_where_they_were_put() {
    for source in [
        "int g;\nint f(int a)\n/* DESCRIPTION\n   Adds things.\n   RETURN\n   The sum. */\n{\n    return a;\n}\n",
        "int f(int a)\n/* DESCRIPTION\n   Adds things.\n   RETURN\n   The sum. */\n{\n    // alpha beta gamma delta epsilon zeta eta theta\n    return a;\n}\n",
    ] {
        let once = format_source(source, Language::C, 40);
        assert_ne!(once, source);
        assert_eq!(format_source(&once, Language::C, 40), once, "{source:?}");
    }
}

#[test]
fn plain_prose_settles_wherever_it_breaks() {
    for limit in 0..40 {
        for source in [
            "// alpha # beta gamma 1. delta - epsilon > zeta | eta | theta\nint x;\n",
            "/* alpha beta, gamma; v v v v delta 2) epsilon: zeta = eta */\nint x;\n",
            "/// one two (three) four `five` six\n///\n/// seven + eight\nint x;\n",
        ] {
            let once = format_source(source, Language::C, limit);
            assert_eq!(format_source(&once, Language::C, limit), once, "{source:?} at {limit}");
        }
    }
}

#[test]
fn lines_of_every_kind_keep_their_words() {
    let source = "// alpha beta gamma delta epsilon\n// ```\n// code   x = 1;\n// ```\n//\n// # Title here\n//\n// | a | b |\n// | c | d |\n// zeta eta theta iota kappa\nint x;\n";
    for limit in [12, 20, 30, 80] {
        let out = format_source(source, Language::C, limit);
        let kept = |s: &str| -> Vec<String> {
            words(s).iter().filter(|w| **w != "//").map(|w| w.to_string()).collect()
        };
        assert_eq!(kept(&out), kept(source), "{out}");
        for row in ["// code   x = 1;", "// | a | b |", "// # Title here"] {
            assert!(out.contains(row), "{out}");
        }
    }
}

#[test]
fn what_goes_in_for_a_block_is_closed() {
    for source in [
        "/* alpha beta gamma delta epsilon zeta */\nint x;\n",
        "int x; /* alpha\n   beta */\n",
        "/** alpha beta gamma delta epsilon zeta\n */\nint x;\n",
    ] {
        let out = format_source(source, Language::C, 20);
        assert_ne!(out, source);
        assert_eq!(out.matches("/*").count(), 1, "{out}");
        assert_eq!(out.matches("*/").count(), 1, "{out}");
    }
}
