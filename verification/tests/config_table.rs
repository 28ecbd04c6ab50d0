use print_typeset::config::{BreakPosition, Color, HAlign, InputFormat, PageBreakRule, TableBorder};
use print_typeset::table::{Align, Cell, Table};
use print_typeset::units::Orientation;

#[test]
fn from_extension_is_case_insensitive() {
    assert_eq!(InputFormat::from_extension("MD"), Some(InputFormat::Markdown));
    assert_eq!(InputFormat::from_extension("markdown"), Some(InputFormat::Markdown));
    assert_eq!(InputFormat::from_extension("Txt"), Some(InputFormat::Plaintext));
    assert_eq!(InputFormat::from_extension("xhtml"), Some(InputFormat::Html));
    assert_eq!(InputFormat::from_extension("pdf"), None);
    assert_eq!(InputFormat::default(), InputFormat::Markdown);
}

#[test]
fn color_renders_as_rgb_literal() {
    assert_eq!(Color::new(200, 0, 7).to_typst(), "rgb(200, 0, 7)");
    assert!(Color::default().is_black());
    assert!(!Color::new(0, 0, 1).is_black());
}

#[test]
fn halign_and_defaults() {
    assert_eq!(HAlign::Center.to_typst(), "center");
    assert_eq!(HAlign::default(), HAlign::Left);
    assert_eq!(TableBorder::default(), TableBorder::All);
    assert_eq!(BreakPosition::default(), BreakPosition::After);
    let r = PageBreakRule::new("-----", BreakPosition::Replace);
    assert_eq!(r.pattern, "-----");
    assert_eq!(r.position, BreakPosition::Replace);
}

#[test]
fn orientation_flip_and_landscape() {
    assert!(Orientation::Landscape.is_landscape());
    assert!(!Orientation::Portrait.is_landscape());
    assert_eq!(Orientation::Portrait.flip(), Orientation::Landscape);
    assert_eq!(Orientation::Landscape.flip().flip(), Orientation::Landscape);
}

#[test]
fn table_renders_header_spans_and_default_alignment() {
    let mut wide = Cell::new("Wide Head");
    wide.colspan = 2;
    let t = Table {
        columns: 2,
        aligns: vec![Align::Center],
        header_rows: 1,
        rows: vec![vec![wide], vec![Cell::new("a"), Cell::new("b")]],
    };
    assert_eq!(
        t.render(),
        "\n#table(\n  columns: 2,\n  align: (center, left),\n  table.header(\n  table.cell(colspan: 2, )[Wide Head], \n  ),\n  [a], [b], \n)\n\n"
    );
}

#[test]
fn table_with_zero_columns_uses_one() {
    let mut tall = Cell::new("x");
    tall.rowspan = 3;
    let t = Table {
        columns: 0,
        aligns: vec![],
        header_rows: 5,
        rows: vec![vec![tall]],
    };
    assert_eq!(
        t.render(),
        "\n#table(\n  columns: 1,\n  align: (left),\n  table.header(\n  table.cell(rowspan: 3, )[x], \n  ),\n)\n\n"
    );
    assert_eq!(Align::Right.keyword(), "right");
}
