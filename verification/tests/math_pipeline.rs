use print_typeset::math::{
    check_source_of, render_from, typst_string, usable_or_none, wrap_math, MathPipeline, MathSource, Tex2TypstRs, TexMathEngine, Tier,
};

#[test]
fn simple_fraction_uses_native_tex_tier() {
    let pipe = MathPipeline::default();
    let r = pipe.render(&MathSource {
        tex: "\\frac{a}{b}",
        display: false,
    });
    assert_eq!(r.tier, Tier::Tex);
    assert!(r.typst.starts_with('$') && r.typst.ends_with('$'));
    assert!(r.assets.is_empty());
}

#[test]
fn bm_vector_renders_bold_italic_via_tex_tier() {
    let pipe = MathPipeline::default();
    let r = pipe.render(&MathSource {
        tex: "\\bm{x}",
        display: false,
    });
    assert_eq!(r.tier, Tier::Tex);
    assert!(r.typst.contains("bold(x)"), "got {:?}", r.typst);
    assert!(!r.typst.contains("upright"), "got {:?}", r.typst);
}

#[test]
fn structural_residue_falls_back_to_image() {
    // `\operatornamewithlimits` defeats the native path but RaTeX renders it.
    let pipe = MathPipeline::default();
    let r = pipe.render(&MathSource {
        tex: "\\operatornamewithlimits{argmax}_{x} f(x)",
        display: true,
    });
    assert_eq!(r.tier, Tier::Image);
    assert_eq!(r.assets.len(), 1);
    assert!(r.typst.contains("image("));
    assert!(r.assets[0].svg.starts_with(b"<") || !r.assets[0].svg.is_empty());
}

#[test]
fn image_asset_name_is_hex_hash() {
    let pipe = MathPipeline::default();
    let r = pipe.render(&MathSource {
        tex: "\\operatornamewithlimits{argmax}_{x} f(x)",
        display: true,
    });
    let name = &r.assets[0].name;
    assert!(name.starts_with("math-") && name.ends_with(".svg"));
    assert_eq!(name.len(), "math-".len() + 16 + ".svg".len());
    assert_eq!(r.typst, format!("#box(image(\"{name}\"))"));
}

#[test]
fn wrap_math_inline_and_display() {
    assert_eq!(wrap_math("x", false), "$x$");
    assert_eq!(wrap_math("x", true), "$ x $");
}

#[test]
fn typst_string_escapes_quotes_backslashes_and_newlines() {
    assert_eq!(typst_string("a\"b\\c\nd"), "\"a\\\"b\\\\c d\"");
}

#[test]
fn renders_a_matrix_the_native_path_cannot() {
    let svg = print_typeset::math::render_svg("\\begin{pmatrix}1&0\\\\0&1\\end{pmatrix}", true)
        .expect("RaTeX renders pmatrix");
    let text = String::from_utf8(svg).unwrap();
    assert!(text.contains("<svg"));
}

#[test]
fn inputs_the_converter_would_abort_on_are_not_converted() {
    let e = Tex2TypstRs;
    assert!(e.convert("x^2'").is_err());
    assert!(e.convert("\\begin{pmatrix}1\\end{pmatrix}").is_err());
    assert!(e.convert("{\\sqrt}").is_err());
    assert!(e.convert("é").is_err());
    assert!(e.convert("x'^2").is_ok());
    assert!(e.convert("x^{a b}'").is_err());
    assert!(e.convert("\\left(\\sqrt\\right)").is_err());
    // A prime set apart from the superscript by a space is converted.
    assert!(e.convert("x^2 + f'(x)").is_ok());
    assert!(e.convert("\\sqrt\\frac{a}{b}").is_ok());
    // The pipeline still renders such a formula, through a lower tier.
    let pipe = MathPipeline::default();
    let r = pipe.render(&MathSource { tex: "x^2'", display: false });
    assert_ne!(r.tier, Tier::Tex);
}

#[test]
fn render_from_picks_the_tier_from_the_outcomes() {
    let src = MathSource { tex: "a", display: false };
    let r = render_from(&src, Ok("a".to_string()), true, None);
    assert_eq!(r.tier, Tier::Tex);
    assert_eq!(r.typst, "$a$");
    let r = render_from(&src, Ok("a".to_string()), false, Some(b"<svg/>".to_vec()));
    assert_eq!(r.tier, Tier::Image);
    assert_eq!(r.assets.len(), 1);
    assert_eq!(r.assets[0].svg, b"<svg/>".to_vec());
    let r = render_from(&src, Err("no".to_string()), true, None);
    assert_eq!(r.tier, Tier::Raw);
    assert_eq!(r.typst, "#raw(\"a\")");
}

#[test]
fn the_compile_check_page_holds_the_wrapped_formula() {
    assert_eq!(
        check_source_of("x^2", false),
        "#set page(width: auto, height: auto, margin: 2pt)\n$x^2$\n"
    );
    assert_eq!(
        check_source_of("x", true),
        "#set page(width: auto, height: auto, margin: 2pt)\n$ x $\n"
    );
}

#[test]
fn only_usable_svg_bytes_are_kept() {
    let mut good = b"<svg xmlns=\"http://www.w3.org/2000/svg\">".to_vec();
    good.resize(201, b' ');
    assert_eq!(usable_or_none(good.clone()), Some(good));
    let mut short = b"<svg>".to_vec();
    short.resize(200, b' ');
    assert_eq!(usable_or_none(short), None);
    assert_eq!(usable_or_none(vec![b'x'; 300]), None);
}
