use std::borrow::Cow;
use print_typeset::outline::{
    assemble_body, strip_markers, OutlineEntry, SectionOverride, SectionOverrides,
    FRONT_MATTER_ID, SECTION_MARK,
};

fn entry(id: &str, level: u8, offset: usize) -> OutlineEntry {
    OutlineEntry {
        id: id.to_string(),
        level,
        title: id.to_string(),
        offset,
    }
}

fn hidden() -> SectionOverride {
    SectionOverride {
        hidden: true,
        break_before: false,
    }
}

/// `front [S1 intro [S1.1 sub]] [S2 methods]` with offsets at each bracket.
const BODY: &str = "front\n= Intro\nintro text\n== Sub\nsub text\n= Methods\nmethods text\n";

fn outline() -> Vec<OutlineEntry> {
    vec![
        entry("S1", 1, BODY.find("= Intro").unwrap()),
        entry("S1.1", 2, BODY.find("== Sub").unwrap()),
        entry("S2", 1, BODY.find("= Methods").unwrap()),
    ]
}

#[test]
fn no_overrides_borrows_unchanged() {
    let out = assemble_body(BODY, &outline(), &SectionOverrides::new());
    assert!(matches!(out, Cow::Borrowed(_)));
    assert_eq!(&*out, BODY);
}

#[test]
fn hiding_a_section_hides_its_subtree_only() {
    let overrides = SectionOverrides::from_pairs(vec![("S1".to_string(), hidden())]);
    let out = assemble_body(BODY, &outline(), &overrides);
    let out: &str = &out;
    assert!(!out.contains("Intro") && !out.contains("Sub"), "{out}");
    assert!(out.starts_with("front") && out.contains("= Methods"), "{out}");
}

#[test]
fn hiding_a_subsection_keeps_its_parent_and_siblings() {
    let overrides = SectionOverrides::from_pairs(vec![("S1.1".to_string(), hidden())]);
    let out = assemble_body(BODY, &outline(), &overrides);
    let out: &str = &out;
    assert!(out.contains("= Intro") && out.contains("intro text"), "{out}");
    assert!(!out.contains("== Sub"), "{out}");
    assert!(out.contains("= Methods"), "{out}");
}

#[test]
fn break_before_prepends_a_weak_pagebreak() {
    let overrides = SectionOverrides::from_pairs(vec![(
        "S2".to_string(),
        SectionOverride {
            hidden: false,
            break_before: true,
        },
    )]);
    let out = assemble_body(BODY, &outline(), &overrides);
    let out: &str = &out;
    assert!(
        out.contains("#pagebreak(weak: true)\n= Methods"),
        "break lands immediately before the heading: {out}"
    );
}

#[test]
fn front_matter_can_be_hidden() {
    let overrides = SectionOverrides::from_pairs(vec![(FRONT_MATTER_ID.to_string(), hidden())]);
    let out = assemble_body(BODY, &outline(), &overrides);
    let out: &str = &out;
    assert!(!out.contains("front"), "{out}");
    assert!(out.starts_with("= Intro"), "{out}");
}

#[test]
fn citations_into_hidden_sections_unwrap_to_plain_text() {
    let body = "See #link(<bib-bib1>)[Doe 2020] here.\n= Refs\nentry <bib-bib1>\n";
    let outline = vec![entry("refs", 1, body.find("= Refs").unwrap())];
    let overrides = SectionOverrides::from_pairs(vec![("refs".to_string(), hidden())]);
    let out = assemble_body(body, &outline, &overrides);
    let out: &str = &out;
    assert!(
        out.contains("See Doe 2020 here.") && !out.contains("#link"),
        "link to a dropped label is unwrapped: {out}"
    );
}

#[test]
fn citations_to_visible_labels_are_kept() {
    let body =
        "See #link(<bib-bib1>)[Doe] here.\n= Hide me\nnothing\n= Refs\nentry <bib-bib1>\n";
    let outline = vec![
        entry("gone", 1, body.find("= Hide me").unwrap()),
        entry("refs", 1, body.find("= Refs").unwrap()),
    ];
    let overrides = SectionOverrides::from_pairs(vec![("gone".to_string(), hidden())]);
    let out = assemble_body(body, &outline, &overrides);
    let out: &str = &out;
    assert!(out.contains("#link(<bib-bib1>)[Doe]"), "{out}");
    assert!(out.contains("<bib-bib1>"), "{out}");
}

#[test]
fn hiding_a_section_exact_output() {
    let overrides = SectionOverrides::from_pairs(vec![("S1".to_string(), hidden())]);
    let out = assemble_body(BODY, &outline(), &overrides);
    assert_eq!(&*out, "front\n= Methods\nmethods text\n");
}

#[test]
fn default_override_has_no_effect() {
    let overrides = SectionOverrides::from_pairs(vec![("S1".to_string(), SectionOverride::default())]);
    let out = assemble_body(BODY, &outline(), &overrides);
    assert!(matches!(out, Cow::Borrowed(_)));
}

#[test]
fn later_insert_replaces_earlier() {
    let mut overrides = SectionOverrides::new();
    overrides.insert("S2".to_string(), hidden());
    overrides.insert("S2".to_string(), SectionOverride::default());
    let out = assemble_body(BODY, &outline(), &overrides);
    assert_eq!(&*out, BODY);
    let id: Vec<char> = "S2".chars().collect();
    assert!(overrides.get(&id).is_default());
}

#[test]
fn nested_links_unwrap_with_brackets() {
    let body = "A #link(<x>)[p [q] r] B\n= X\n<x>\n";
    let outline = vec![entry("x", 1, body.find("= X").unwrap())];
    let overrides = SectionOverrides::from_pairs(vec![("x".to_string(), hidden())]);
    let out = assemble_body(body, &outline, &overrides);
    assert_eq!(&*out, "A p [q] r B\n");
}

#[test]
fn unclosed_link_is_left_alone() {
    let body = "A #link(<x>)[p B\n= X\n<x>\n";
    let outline = vec![entry("x", 1, body.find("= X").unwrap())];
    let overrides = SectionOverrides::from_pairs(vec![("x".to_string(), hidden())]);
    let out = assemble_body(body, &outline, &overrides);
    assert_eq!(&*out, "A #link(<x>)[p B\n");
}

#[test]
fn is_default_only_for_plain() {
    assert!(SectionOverride::default().is_default());
    assert!(!hidden().is_default());
}

#[test]
fn strip_markers_records_offsets() {
    let raw = format!("ab{m}1{m}cd{m}0{m}ef", m = SECTION_MARK);
    let mut outline = vec![entry("a", 1, 99), entry("b", 1, 99)];
    let clean = strip_markers(&raw, &mut outline);
    assert_eq!(clean, "abcdef");
    assert_eq!(outline[0].offset, 4);
    assert_eq!(outline[1].offset, 2);
}

#[test]
fn strip_markers_drops_malformed_mark_only() {
    let raw = format!("ab{m}x{m}cd{m}7{m}e{m}", m = SECTION_MARK);
    let mut outline = vec![entry("a", 1, 99)];
    let clean = strip_markers(&raw, &mut outline);
    assert_eq!(clean, "abxcd7e");
    assert_eq!(outline[0].offset, 99);
}

#[test]
fn break_offsets_are_bytes_on_non_ascii_bodies() {
    let body = "é\n= A\n";
    let outline = vec![entry("A", 1, 3)];
    let mut ov = SectionOverrides::new();
    ov.insert(
        "A".to_string(),
        SectionOverride {
            hidden: false,
            break_before: true,
        },
    );
    let out = assemble_body(body, &outline, &ov);
    assert_eq!(&*out, "é\n#pagebreak(weak: true)\n= A\n");
}

#[test]
fn stripped_markers_record_byte_offsets() {
    let raw = format!("é {m}0{m}= A\n", m = SECTION_MARK);
    let mut outline = vec![entry("A", 1, 0)];
    let clean = strip_markers(&raw, &mut outline);
    assert_eq!(clean, "é = A\n");
    assert_eq!(outline[0].offset, 3);
    assert_eq!(&clean[outline[0].offset..], "= A\n");
}
