use print_typeset::config::{BreakPosition, InputFormat, PageBreakRule, TypesetInput};
use print_typeset::markup::to_typst_body;
use print_typeset::outline::{assemble_body, OutlineEntry, SectionOverride, SectionOverrides};
use print_typeset::startup::StartupSettings;
use print_typeset::units::Orientation;

fn entry(id: &str, level: u8, offset: usize) -> OutlineEntry {
    OutlineEntry {
        id: id.to_string(),
        level,
        title: id.to_string(),
        offset,
    }
}

const DOC: &str = "front\n= A\na text <lab-1>\n== A1\nsub\n= B\nsee #link(<lab-1>)[there]\n";

fn doc_outline() -> Vec<OutlineEntry> {
    vec![
        entry("A", 1, DOC.find("= A").unwrap()),
        entry("A1", 2, DOC.find("== A1").unwrap()),
        entry("B", 1, DOC.find("= B").unwrap()),
    ]
}

#[test]
fn flipping_twice_gives_back_the_orientation() {
    for o in [Orientation::Portrait, Orientation::Landscape] {
        assert_eq!(o.flip().flip(), o);
        assert_eq!(o.flip().is_landscape(), !o.is_landscape());
    }
}

#[test]
fn recording_a_project_twice_is_recording_it_once() {
    let mut once = StartupSettings::default();
    once.push_recent_project("/a".to_string());
    once.push_recent_project("/b".to_string());
    let mut twice = StartupSettings::default();
    twice.push_recent_project("/a".to_string());
    twice.push_recent_project("/b".to_string());
    twice.push_recent_project("/b".to_string());
    assert_eq!(once.recent_projects, twice.recent_projects);
    assert_eq!(twice.recent_projects, vec!["/b".to_string(), "/a".to_string()]);
}

#[test]
fn hiding_one_section_drops_exactly_its_extent() {
    let mut ov = SectionOverrides::new();
    ov.insert(
        "A".to_string(),
        SectionOverride {
            hidden: true,
            break_before: false,
        },
    );
    let out = assemble_body(DOC, &doc_outline(), &ov);
    // The extent of A runs to B and includes A1; the link to the label it
    // defined becomes plain text.
    assert_eq!(&*out, "front\n= B\nsee there\n");
}

#[test]
fn breaking_before_one_section_inserts_one_weak_break() {
    let mut ov = SectionOverrides::new();
    ov.insert(
        "A1".to_string(),
        SectionOverride {
            hidden: false,
            break_before: true,
        },
    );
    let out = assemble_body(DOC, &doc_outline(), &ov);
    let at = DOC.find("== A1").unwrap();
    let expected = format!("{}#pagebreak(weak: true)\n{}", &DOC[..at], &DOC[at..]);
    assert_eq!(&*out, expected);
}

#[test]
fn hiding_only_the_front_matter_drops_the_preamble() {
    let mut ov = SectionOverrides::new();
    ov.insert(
        "front-matter".to_string(),
        SectionOverride {
            hidden: true,
            break_before: false,
        },
    );
    let out = assemble_body(DOC, &doc_outline(), &ov);
    assert_eq!(&*out, &DOC[DOC.find("= A").unwrap()..]);
}

#[test]
fn overrides_read_back_and_defaults_change_nothing() {
    let mut ov = SectionOverrides::new();
    let set = SectionOverride {
        hidden: false,
        break_before: true,
    };
    ov.insert("X".to_string(), set);
    let x: Vec<char> = "X".chars().collect();
    let y: Vec<char> = "Y".chars().collect();
    assert_eq!(ov.get(&x), set);
    assert_eq!(ov.get(&y), SectionOverride::default());
    assert!(SectionOverride::default().is_default());

    let mut with_default = SectionOverrides::new();
    with_default.insert("A".to_string(), SectionOverride::default());
    let out = assemble_body(DOC, &doc_outline(), &with_default);
    assert_eq!(&*out, DOC);
}

#[test]
fn rules_that_match_no_line_change_nothing() {
    let input = TypesetInput {
        text: "Para one.\n\nPara two.\n".to_string(),
        format: InputFormat::Plaintext,
    };
    let rules = vec![
        PageBreakRule::new("-----", BreakPosition::Replace),
        PageBreakRule::new("   ", BreakPosition::Before),
    ];
    assert_eq!(to_typst_body(&input, &rules), to_typst_body(&input, &[]));
}

#[test]
fn plain_text_without_rules_is_one_escaped_page() {
    let input = TypesetInput {
        text: "first\n#two\n  3. x\n".to_string(),
        format: InputFormat::Plaintext,
    };
    let out = to_typst_body(&input, &[]);
    assert_eq!(out, "first\n\\#two\n  3\\. x\n");
    assert!(!out.contains("#pagebreak()"));
}

#[test]
fn replaced_lines_go_and_blank_pages_are_dropped() {
    let rules = vec![PageBreakRule::new("---", BreakPosition::Replace)];
    let input = TypesetInput {
        text: "a\n---\nb\n".to_string(),
        format: InputFormat::Plaintext,
    };
    assert_eq!(to_typst_body(&input, &rules), "a\n\n\n#pagebreak()\n\nb\n");
    let blank = TypesetInput {
        text: "---\n  \n---\nc\n".to_string(),
        format: InputFormat::Plaintext,
    };
    assert_eq!(to_typst_body(&blank, &rules), "c\n");
}

#[test]
fn forced_breaks_before_two_sections_are_the_only_change() {
    let forced = SectionOverride {
        hidden: false,
        break_before: true,
    };
    let mut ov = SectionOverrides::new();
    ov.insert("A".to_string(), forced);
    ov.insert("B".to_string(), forced);
    let out = assemble_body(DOC, &doc_outline(), &ov);
    let a = DOC.find("= A").unwrap();
    let b = DOC.find("= B").unwrap();
    let expected = format!(
        "{}#pagebreak(weak: true)\n{}#pagebreak(weak: true)\n{}",
        &DOC[..a],
        &DOC[a..b],
        &DOC[b..]
    );
    assert_eq!(&*out, expected);
}
