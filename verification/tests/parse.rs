use commentflow::directive::{
    directive_keyword, is_acsl_annotation, is_cppcheck_suppress, is_formatter_directive,
    is_lint_directive, rust_block_has_nested,
};
use commentflow::parse::{
    detect_language, extract_comments, is_posix_shell_shebang_line, Language,
};

#[test]
fn clang_format_directive_never_merges() {
    let src = "/*\n * Format: _(a, b)\n */\n/* clang-format off */\n#define M(_) _(A, B)\n";
    let cs = extract_comments(src, Language::C).unwrap();
    assert_eq!(cs.len(), 2);
    assert_eq!(cs[1].text, "/* clang-format off */");
    assert!(cs[1].force_passthrough);
}

#[test]
fn formatter_directive_recognizes_both_forms() {
    assert!(is_formatter_directive("/* clang-format off */"));
    assert!(is_formatter_directive("// clang-format on"));
    assert!(is_formatter_directive("// clang-format off: generated"));
    assert!(is_formatter_directive("// clang-format on: resume"));
    assert!(!is_formatter_directive("// clang-format off later"));
    assert!(!is_formatter_directive("/* Format: _(a, b) */"));
}

#[test]
fn acsl_annotations_are_passthrough() {
    let src = "/*@ requires n >= 0;\n  @ ensures \\result >= 0;\n  */\nint f(int n);\n//@ assert x >= 0;\n";
    let cs = extract_comments(src, Language::C).unwrap();
    assert_eq!(cs.len(), 2);
    assert!(cs.iter().all(|c| c.force_passthrough));
    assert!(is_acsl_annotation("/*@ assigns \\nothing; */"));
    assert!(is_acsl_annotation("//@ loop invariant i <= n;"));
    assert!(!is_acsl_annotation("/* @ is just prose here */"));
}

#[test]
fn lint_directives_are_passthrough() {
    assert_eq!(directive_keyword("// NOLINT(google-explicit)"), "NOLINT");
    assert_eq!(directive_keyword("  * coverity[deref_ptr]"), "coverity");
    assert_eq!(
        directive_keyword("# shellcheck disable=SC2086"),
        "shellcheck"
    );
    assert_eq!(directive_keyword("/// cbindgen:ignore"), "cbindgen");

    assert!(is_lint_directive("// NOLINTNEXTLINE(x)", Language::Cpp));
    assert!(is_lint_directive("// IWYU pragma: keep", Language::C));
    assert!(is_lint_directive("// NOSONAR reason", Language::C));
    assert!(is_lint_directive(
        "# shellcheck shell=bash",
        Language::Shell
    ));
    assert!(is_lint_directive(
        "/// cbindgen:field-names=[x]",
        Language::Rust
    ));
    assert!(!is_lint_directive("# shellcheck disable=SC1", Language::C));
    assert!(!is_lint_directive("// NOLINT here", Language::Shell));
    assert!(!is_lint_directive(
        "// run coverity before merging",
        Language::C
    ));

    assert!(!is_lint_directive(
        "/* Notes.\n   coverity found nothing here. */",
        Language::C
    ));

    let c = extract_comments("int x; // NOLINT(cert)\n", Language::C).unwrap();
    assert!(c[0].force_passthrough);
    let sh = extract_comments("ls $x # shellcheck disable=SC2086\n", Language::Shell).unwrap();
    assert!(sh[0].force_passthrough);
}

#[test]
fn drift_with_passthrough_directive_aborts_whole_signature() {
    let src = "void f(int a, /* NOLINT */ int b, /* d */ int c) /* e */ {}\n";
    let cs = extract_comments(src, Language::C).unwrap();
    assert!(cs.iter().all(|c| c.param_shift.is_none()));
    let directive = cs.iter().find(|c| c.text.contains("NOLINT")).unwrap();
    assert!(directive.force_passthrough);
}

#[test]
fn backslash_continued_line_comment_is_passthrough() {
    let cs = extract_comments("// aaa bbb \\\n   \nint x = 1;\n", Language::C).unwrap();
    assert!(cs[0].force_passthrough);

    let cs = extract_comments("// aaa \\\nbbb ccc\nint x = 1;\n", Language::Cpp).unwrap();
    assert!(cs[0].force_passthrough);

    let cs = extract_comments("// aaa bbb \\", Language::C).unwrap();
    assert!(!cs[0].force_passthrough);
}

#[test]
fn backslash_inside_prose_still_reflows() {
    let cs = extract_comments("// see C:\\Users\\me for the log file\n", Language::C).unwrap();
    assert!(!cs[0].force_passthrough);

    let cs = extract_comments("/* aaa \\\n * bbb */\n", Language::C).unwrap();
    assert!(!cs[0].force_passthrough);

    let cs = extract_comments("// aaa \\\n// bbb\n", Language::Rust).unwrap();
    assert!(!cs[0].force_passthrough);
}

#[test]
fn cppcheck_suppress_block_is_passthrough() {
    let src = "/* cppcheck-suppress negativeIndex\n * RANGE_CHECK guards mac_idx >= 0 before the access.\n */\nx = a[i];\n";
    let cs = extract_comments(src, Language::C).unwrap();
    assert!(cs[0].force_passthrough);
}

#[test]
fn cppcheck_suppress_recognizes_variants() {
    assert!(is_cppcheck_suppress("// cppcheck-suppress nullPointer"));
    assert!(is_cppcheck_suppress(
        "/* cppcheck-suppress negativeIndex */"
    ));
    assert!(is_cppcheck_suppress(
        "// cppcheck-suppress[uninitvar, nullPointer]"
    ));
    assert!(is_cppcheck_suppress("// cppcheck-suppress-begin memleak"));
    assert!(is_cppcheck_suppress(
        "/*\n * cppcheck-suppress-file allocaCalled\n */"
    ));
    assert!(is_cppcheck_suppress(
        "/*\n * why this is safe\n * cppcheck-suppress negativeIndex\n */"
    ));
    assert!(!is_cppcheck_suppress(
        "// cppcheck-suppresses this behavior"
    ));
    assert!(!is_cppcheck_suppress("// see cppcheck-suppress docs"));
}

#[test]
fn detect_c_from_extension() {
    assert_eq!(
        detect_language("foo.c", &[]).unwrap(),
        Language::C
    );
    assert_eq!(
        detect_language("foo.h", &[]).unwrap(),
        Language::C
    );
    assert_eq!(
        detect_language("foo.H", &[]).unwrap(),
        Language::C
    );
}

#[test]
fn detect_cpp_from_extension() {
    for ext in &["cc", "cpp", "cxx", "c++", "hh", "hpp", "hxx", "h++"] {
        let p = format!("foo.{ext}");
        assert_eq!(detect_language(&p, &[]).unwrap(), Language::Cpp, "ext={ext}");
    }
}

#[test]
fn detect_objc_from_extension() {
    assert_eq!(
        detect_language("foo.m", &[]).unwrap(),
        Language::C
    );
    assert_eq!(
        detect_language("foo.mm", &[]).unwrap(),
        Language::Cpp
    );
    assert_eq!(
        detect_language("foo.MM", &[]).unwrap(),
        Language::Cpp
    );
}

#[test]
fn detect_rust_from_extension() {
    assert_eq!(
        detect_language("foo.rs", &[]).unwrap(),
        Language::Rust
    );
}

#[test]
fn detect_shell_from_extension() {
    for ext in &["sh", "bash", "SH", "BASH"] {
        let p = format!("foo.{ext}");
        assert_eq!(detect_language(&p, &[]).unwrap(), Language::Shell, "ext={ext}");
    }
}

#[test]
fn rejects_other_shell_flavors() {
    for ext in &["zsh", "fish", "ksh", "dash"] {
        let p = format!("foo.{ext}");
        assert!(detect_language(&p, &[]).is_err(), "ext={ext} must fail");
    }
}

#[test]
fn unknown_extension_errors() {
    assert!(detect_language("foo.txt", &[]).is_err());
    assert!(detect_language("foo", &[]).is_err());
}

#[test]
fn posix_shell_shebang_recognized() {
    for line in &[
        "#!/bin/sh",
        "#!/bin/bash",
        "#!/usr/bin/env bash",
        "#!/usr/bin/env sh",
        "#!/bin/sh -e",
        "#!/usr/local/bin/bash",
        "#!/usr/bin/env -S bash",
    ] {
        assert!(is_posix_shell_shebang_line(line), "must accept: {line}");
    }
}

#[test]
fn non_shell_shebang_rejected() {
    for line in &[
        "#!/bin/zsh",
        "#!/usr/bin/env python3",
        "#!/usr/bin/perl",
        "#!/bin/dash",
        "#!/usr/bin/env",
        "#! ",
        "// not a shebang",
        "# regular comment",
        "",
    ] {
        assert!(!is_posix_shell_shebang_line(line), "must reject: {line:?}");
    }
}

#[test]
fn nested_block_detection() {
    assert!(rust_block_has_nested("/* outer /* inner */ outer */"));
    assert!(rust_block_has_nested("/* /* */ */"));
    assert!(!rust_block_has_nested("/* outer */"));
    assert!(!rust_block_has_nested("/* */"));
}
