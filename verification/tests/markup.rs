use print_typeset::config::{BreakPosition, InputFormat, PageBreakRule, TypesetInput};
use print_typeset::markup::{escape_inline, heading_level_num, to_typst_body, MdHeading};

fn input(text: &str, format: InputFormat) -> TypesetInput {
    TypesetInput {
        text: text.to_string(),
        format,
    }
}

fn default_rules() -> Vec<PageBreakRule> {
    vec![
        PageBreakRule::new("<hr>", BreakPosition::Replace),
        PageBreakRule::new("-----", BreakPosition::Replace),
    ]
}

#[test]
fn plaintext_escapes_specials_and_enumerators() {
    let out = to_typst_body(&input("Costs $5 #1 *not bold*\n 2. item", InputFormat::Plaintext), &[]);
    assert_eq!(out, "Costs \\$5 \\#1 \\*not bold\\*\n 2\\. item\n");
}

#[test]
fn replace_rule_splits_pages() {
    let out = to_typst_body(
        &input("Page one.\n\n-----\n\nPage two.", InputFormat::Plaintext),
        &default_rules(),
    );
    assert_eq!(out, "Page one.\n\n\n\n#pagebreak()\n\n\nPage two.\n");
}

#[test]
fn before_and_after_rules_keep_the_line() {
    let rules = vec![
        PageBreakRule::new("B", BreakPosition::Before),
        PageBreakRule::new("A", BreakPosition::After),
    ];
    let out = to_typst_body(&input("x\n B \ny\nA\nz", InputFormat::Plaintext), &rules);
    assert_eq!(
        out,
        "x\n\n\n#pagebreak()\n\n B \ny\nA\n\n\n#pagebreak()\n\nz\n"
    );
}

#[test]
fn blank_input_gives_one_empty_page() {
    assert_eq!(to_typst_body(&input("  \n", InputFormat::Plaintext), &[]), "");
}

#[test]
fn html_is_flattened_to_text() {
    let out = to_typst_body(
        &input("<p>a &amp; b</p><span>c</span>", InputFormat::Html),
        &[],
    );
    assert_eq!(out, "\n\na & b\n\nc\n");
}

#[test]
fn markdown_heading_emphasis_and_list() {
    let out = to_typst_body(
        &input("# Title\n\nSome *em* and **strong**.\n\n1. one\n2. two\n", InputFormat::Markdown),
        &[],
    );
    assert_eq!(
        out,
        "\n= Title\n\nSome _em_ and *strong*.\n\n\n1. one\n2. two\n"
    );
}

#[test]
fn markdown_link_code_and_rule() {
    let out = to_typst_body(
        &input("[x](http://a.b/\"q) `c`\n\n***\n", InputFormat::Markdown),
        &[],
    );
    assert_eq!(
        out,
        "#link(\"http://a.b/\\\"q\")[x] `c`\n\n\n#line(length: 100%)\n\n"
    );
}

#[test]
fn escape_inline_escapes_every_special() {
    assert_eq!(escape_inline("a_b*c#d"), "a\\_b\\*c\\#d");
    assert_eq!(heading_level_num(MdHeading::H3), 3);
}

#[test]
fn entities_are_decoded_once() {
    let input = TypesetInput {
        text: "<p>a &amp;lt; b &lt; c</p>".to_string(),
        format: InputFormat::Html,
    };
    let out = to_typst_body(&input, &[]);
    // `&amp;lt;` becomes the text `&lt;` (escaped for Typst), `&lt;` becomes `<`.
    assert!(out.contains("&lt;"), "{out}");
    assert!(!out.contains("&amp;"), "{out}");
}
