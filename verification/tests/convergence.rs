use commentflow::config::IndentConfig;
use commentflow::parse::{detect_language, Language, ParserPool};
use commentflow::rewrite;

fn pipeline(source: &str, lang: Language, column_limit: usize) -> String {
    if column_limit == 0 {
        return source.to_string();
    }
    let indent_cfg = IndentConfig::default();
    let mut pool = ParserPool::new();
    let reps = commentflow::plan(source, lang, column_limit, indent_cfg, &mut pool).unwrap();
    let out = rewrite::apply(source, &reps);
    let reps2 = commentflow::plan(&out, lang, column_limit, indent_cfg, &mut pool).unwrap();
    let out2 = rewrite::apply(&out, &reps2);
    assert_eq!(
        out, out2,
        "second pass changed the output (not idempotent)\n--- source\n{source}--- pass 1\n{out}--- pass 2\n{out2}"
    );
    out
}

fn detect(path: &str) -> Language {
    detect_language(path, &[]).unwrap()
}

struct Rng(u64);

impl Rng {
    fn next(&mut self) -> u32 {
        self.0 = self
            .0
            .wrapping_mul(6_364_136_223_846_793_005)
            .wrapping_add(1_442_695_040_888_963_407);
        (self.0 >> 33) as u32
    }

    fn below(&mut self, n: u32) -> usize {
        (self.next() % n) as usize
    }

    fn pick<'a>(&mut self, xs: &[&'a str]) -> &'a str {
        xs[self.next() as usize % xs.len()]
    }
}

fn words_of(s: &str) -> Vec<&str> {
    s.split_whitespace()
        .filter(|w| {
            !matches!(
                *w,
                "//" | "/*" | "*" | "*/" | "///" | "/**" | "//!" | "/*!" | "#"
            )
        })
        .collect()
}

const VOCAB: &[&str] = &[
    "@param",
    "\\param",
    "@return",
    "\\return",
    "@returns",
    "\\returns",
    "@param[in]",
    "@param[out]",
    "@note",
    "@brief",
    "@retval",
    "@warning",
    "@see",
    "@code",
    "@endcode",
    "@buf:",
    "@len:",
    "@epsilon",
    ":",
    "note",
    "warning",
    "@1buf",
    "@1buf:",
    "@2:",
    "@_x",
    "@x_y:",
    "@param:",
    "@return:",
    "@PARAM",
    "@Param",
    "@file.txt",
    "@param.txt",
    "@param.",
    "@return/x",
    "@note/path",
    "@code.c",
    "\\param.h",
    "@see.com",
    "user@example.com",
    "--------",
    "========",
    "---",
    "***",
    "\\valid(p);",
    "\\result",
    "@",
    "\\0",
    "\\n",
    "\\t",
    "\\\\",
    "@foo",
    "a",
    "xy",
    "alpha",
    "gamma",
    "epsilon",
    "reallyquitelongword",
    "幅の広い",
    "café",
];

fn shapes(body: &str) -> Vec<(&'static str, String)> {
    vec![
        ("foo.c", format!("int f(void) {{ return 0; }}\n// {body}\n")),
        (
            "foo.c",
            format!("int f(void) {{ return 0; }}\n/* {body} */\n"),
        ),
        (
            "foo.c",
            format!("/** lead {body} */\nint f(int w) {{ return w; }}\n"),
        ),
        (
            "foo.c",
            format!("int f(void) {{ return 0; }}\n/* lead one\n *\n * {body}\n */\n"),
        ),
        ("foo.rs", format!("/// lead {body}\nfn f() {{}}\n")),
        ("foo.rs", format!("fn f() {{}}\n// {body}\n")),
        ("foo.sh", format!("f() {{ :; }}\n# {body}\n")),
        ("foo.S", format!("nop\n/* {body} */\n")),
        (
            "foo.c",
            format!("/*@ requires x;\n    {body} */\nint f(void);\n"),
        ),
        (
            "foo.c",
            format!("/*@ requires x;\n  @ {body}\n  @*/\nint f(void);\n"),
        ),
    ]
}

fn body(rng: &mut Rng) -> String {
    let n = 2 + rng.below(16);
    (0..n)
        .map(|_| rng.pick(VOCAB))
        .collect::<Vec<_>>()
        .join(" ")
}

fn prose_led_body(rng: &mut Rng) -> String {
    format!("lead {}", body(rng))
}

#[test]
fn no_comment_word_is_lost() {
    let mut rng = Rng(0xC0FF_EE01);
    for case in 0..1500u32 {
        let text = prose_led_body(&mut rng);
        let width = 16 + rng.below(64);
        for (name, src) in shapes(&text) {
            let p1 = pipeline(&src, detect(name), width);
            assert_eq!(
                words_of(&src),
                words_of(&p1),
                "case {case} {name} w={width} lost or invented a word\n--- src\n{src}--- out\n{p1}"
            );
            let p2 = pipeline(&p1, detect(name), width);
            assert_eq!(p1, p2, "case {case} {name} w={width} pass 2 diverged");
        }
    }
}

#[test]
fn converged_output_survives_reruns() {
    let mut rng = Rng(0x5EED_0002);
    for case in 0..1000u32 {
        let text = body(&mut rng);
        let width = 16 + rng.below(64);
        for (name, src) in shapes(&text) {
            let p1 = pipeline(&src, detect(name), width);
            let p2 = pipeline(&p1, detect(name), width);
            let p3 = pipeline(&p2, detect(name), width);
            assert_eq!(
                p1, p2,
                "case {case} {name} w={width} pass 2 diverged\n--- src\n{src}--- p1\n{p1}--- p2\n{p2}"
            );
            assert_eq!(p2, p3, "case {case} {name} w={width} pass 3 diverged");
        }
    }
}

#[test]
fn only_a_tag_or_a_rule_may_overflow() {
    let mut rng = Rng(0xBEEF_0003);
    for case in 0..1500u32 {
        let text = prose_led_body(&mut rng);
        let width = 40 + rng.below(40);
        let src = format!("int f(void) {{ return 0; }}\n// {text}\n");
        let out = pipeline(&src, detect("foo.c"), width);
        for line in out.lines() {
            if line.chars().count() <= width || !line.starts_with("//") {
                continue;
            }
            let words: Vec<&str> = line.split_whitespace().collect();
            let is_rule = |w: &str| w.starts_with(['-', '=', '*']);
            let last = words.last().copied().unwrap_or("");
            let tag = last.starts_with('@') || last.starts_with('\\');
            let rule = is_rule(last) || (words.len() >= 2 && is_rule(words[words.len() - 2]));
            assert!(
                tag || rule,
                "case {case} w={width} line over the limit ends in neither a tag nor a rule: {line:?}\n--- src\n{src}--- out\n{out}"
            );
        }
    }
}
