use print_typeset::fixup::normalize;

#[test]
fn strips_displaystyle_cruft() {
    assert_eq!(normalize("\\displaystyle x").trim(), "x");
}

#[test]
fn rewrites_over_to_frac() {
    assert_eq!(normalize("{\\beta \\over 4}"), "{\\frac{\\beta}{4}}");
}

#[test]
fn rewrites_legacy_font_switch() {
    // `{\rm nl}` becomes `\mathrm{nl}` inside the surrounding braces.
    assert_eq!(normalize("\\tau_{\\rm nl}"), "\\tau_{\\mathrm{nl}}");
}

#[test]
fn bm_maps_to_boldsymbol_not_mathbf() {
    let out = normalize("\\bm{x}");
    assert!(out.contains("\\boldsymbol{x}"), "got {out:?}");
    assert!(!out.contains("\\mathbf"), "got {out:?}");
}

#[test]
fn ket_expands_to_delimited_form() {
    assert_eq!(normalize("\\ket{\\psi}"), "\\left|\\psi\\right\\rangle");
}

#[test]
fn top_level_over_splits_whole_input() {
    assert_eq!(normalize("a+b \\over c"), "\\frac{a+b}{c}");
}

#[test]
fn macro_without_group_gets_empty_argument() {
    assert_eq!(normalize("\\norm x"), "\\left\\|\\right\\| x");
}

#[test]
fn macro_skips_spaces_before_its_argument() {
    assert_eq!(normalize("\\abs  {y}"), "\\left|y\\right|");
}

#[test]
fn unmatched_brace_is_copied() {
    assert_eq!(normalize("{x"), "{x");
}

#[test]
fn tie_with_empty_group_becomes_space() {
    assert_eq!(normalize("a~{}b"), "a b");
}

#[test]
fn control_symbols_are_copied() {
    assert_eq!(normalize("\\{a\\}"), "\\{a\\}");
}

#[test]
fn trailing_backslash_is_kept() {
    assert_eq!(normalize("x\\"), "x\\");
}

#[test]
fn nested_font_switch_and_macro() {
    assert_eq!(
        normalize("{\\bf \\bm{v}}"),
        "{\\mathbf{\\boldsymbol{v}}}"
    );
}

#[test]
fn text_without_commands_is_left_as_is() {
    for tex in ["a^{2}_{i} + b", "{x", "x}", "f(x) = y'", ""] {
        assert_eq!(normalize(tex), tex);
    }
}
