use print_typeset::config::Color;
use print_typeset::labels::{format_pages_per_signature, truncated};
use print_typeset::pdf::{compile_pdf, export_error, export_outcome, TypesetError};
use print_typeset::template::{
    document_metadata, front_matter, inline_color_rules, table_fill_fn, typst_str,
};

#[test]
fn typst_str_escapes_quotes_and_backslashes_only() {
    assert_eq!(typst_str("a \"b\" \\ c\nd"), "\"a \\\"b\\\" \\\\ c\nd\"");
}

#[test]
fn metadata_carries_title_author_and_keywords() {
    let m = document_metadata(" My Book ", "A. Author", "one, two,, ");
    assert_eq!(
        m,
        "#set document(title: \"My Book\", author: \"A. Author\", keywords: (\"one\", \"two\",))\n"
    );
    assert_eq!(document_metadata("", "  ", " , "), "");
    assert_eq!(
        document_metadata("", "", "solo"),
        "#set document(keywords: (\"solo\",))\n"
    );
}

#[test]
fn front_matter_has_title_page_and_clamped_toc() {
    let f = front_matter("My Book", "A. Author", true, 2);
    assert!(f.starts_with("#align(center + horizon)[\n"), "{f}");
    assert!(f.contains("  #text(size: 2.2em, weight: \"bold\")[My Book]\n"), "{f}");
    assert!(f.contains("  #v(1.2em)\n  #text(size: 1.2em)[A. Author]\n"), "{f}");
    assert!(f.contains("#outline(title: [Contents], depth: 2)\n#pagebreak()\n\n"), "{f}");
    assert_eq!(
        front_matter("", "", true, 9),
        "#outline(title: [Contents], depth: 6)\n#pagebreak()\n\n"
    );
    assert_eq!(
        front_matter("", "", true, 0),
        "#outline(title: [Contents], depth: 1)\n#pagebreak()\n\n"
    );
    assert_eq!(front_matter("  ", "Someone", false, 3), "");
}

#[test]
fn color_rules_skip_black() {
    let r = inline_color_rules(Color::new(0, 0, 160), Color::default(), Some(Color::new(1, 2, 3)));
    assert_eq!(
        r,
        "#show link: set text(fill: rgb(0, 0, 160))\n#show raw.where(block: true): it => block(fill: rgb(1, 2, 3), inset: 6pt, radius: 3pt, width: 100%, it)\n"
    );
    assert_eq!(inline_color_rules(Color::default(), Color::default(), None), "");
}

#[test]
fn fill_function_combines_header_and_zebra() {
    assert_eq!(table_fill_fn(None, None), None);
    assert_eq!(
        table_fill_fn(Some(Color::new(230, 230, 230)), None).unwrap(),
        "(_, y) => { if y == 0 { rgb(230, 230, 230) } else { none } }"
    );
    assert_eq!(
        table_fill_fn(Some(Color::new(1, 1, 1)), Some(Color::new(2, 2, 2))).unwrap(),
        "(_, y) => { if y == 0 { rgb(1, 1, 1) } else if y > 0 and calc.odd(y) { rgb(2, 2, 2) } else { none } }"
    );
}

#[test]
fn long_titles_are_capped_with_an_ellipsis() {
    assert_eq!(truncated("short"), "short");
    let long = "x".repeat(40);
    let t = truncated(&long);
    assert_eq!(t.chars().count(), 34);
    assert!(t.ends_with('\u{2026}'));
    let exact = "y".repeat(34);
    assert_eq!(truncated(&exact), exact);
}

#[test]
fn signature_summary_is_uniform_or_listed() {
    assert_eq!(format_pages_per_signature(&[16, 16, 16]), "16 pages each");
    assert_eq!(format_pages_per_signature(&[16, 8]), "[16, 8]");
}

#[test]
fn errors_read_as_sentences() {
    assert_eq!(
        TypesetError::Compile("bad".to_string()).message(),
        "Typst compilation failed: bad"
    );
    let e = export_error(&["one".to_string(), "two".to_string()]);
    assert_eq!(e.message(), "PDF export failed: one; two");
}

#[test]
fn simple_source_compiles_to_pdf() {
    let pdf = compile_pdf("Hello, world.", &[]).expect("compiles");
    assert!(pdf.starts_with(b"%PDF"));
    match compile_pdf("#let x = ", &[]) {
        Err(TypesetError::Compile(_)) => {}
        other => panic!("expected a compile error, got {:?}", other.map(|b| b.len())),
    }
}

#[test]
fn export_outcome_keeps_bytes_and_joins_diagnostics() {
    match export_outcome(Ok(b"%PDF-1.7".to_vec())) {
        Ok(b) => assert_eq!(b, b"%PDF-1.7".to_vec()),
        Err(_) => panic!("bytes must pass through"),
    }
    match export_outcome(Err(vec!["a".to_string(), "b".to_string()])) {
        Err(e) => assert_eq!(e.message(), "PDF export failed: a; b"),
        Ok(_) => panic!("diagnostics must fail"),
    }
}
