use print_typeset::html::{collapse_ws, ext_of, sanitize_label};
use print_typeset::importer::{import, AssetResolver, CapturingResolver, MapResolver, NoAssets};

const SAMPLE: &str = r#"
    <html><body>
      <nav class="ltx_page_navbar">junk nav</nav>
      <article class="ltx_document">
        <h1 class="ltx_title ltx_title_document">A Tiny Paper</h1>
        <div class="ltx_TOC">Contents... 1 Intro 2</div>
        <section class="ltx_section">
          <h2 class="ltx_title ltx_title_section">Introduction</h2>
          <div class="ltx_para"><p class="ltx_p">Hello <em>world</em> with a
            footnote<span class="ltx_note ltx_role_footnote"><sup class="ltx_note_mark">1</sup><span class="ltx_note_outer"><span class="ltx_note_content">the note body</span></span></span>
            and math <math><semantics><mfrac><mi>a</mi><mi>b</mi></mfrac><annotation encoding="application/x-tex">\frac{a}{b}</annotation></semantics></math>.</p></div>
        </section>
      </article>
      <footer class="ltx_page_footer">junk footer</footer>
    </body></html>
    "#;

#[test]
fn extracts_content_and_drops_chrome() {
    let doc = import(SAMPLE, &NoAssets);
    assert_eq!(doc.title.as_deref(), Some("A Tiny Paper"));
    // chrome and the source TOC are gone
    assert!(!doc.body.contains("junk nav"));
    assert!(!doc.body.contains("junk footer"));
    assert!(!doc.body.contains("Contents..."));
    // The title is extracted, not emitted.
    assert!(!doc.body.contains("A Tiny Paper"));
    assert!(!doc.body.contains("#outline()"));
    assert!(doc.body.contains("= Introduction"));
}

#[test]
fn renders_inline_math_emphasis_and_footnote() {
    let doc = import(SAMPLE, &NoAssets);
    assert!(doc.body.contains("_world_"), "emphasis: {}", doc.body);
    assert!(
        doc.body.contains("#footnote[the note body]"),
        "{}",
        doc.body
    );
    assert!(doc.body.contains('$'), "inline math present: {}", doc.body);
    assert_eq!(doc.stats.math_tex, 1);
    assert_eq!(doc.stats.footnotes, 1);
}

const SAMPLE_BIB: &str = r##"
    <html><body>
      <article class="ltx_document">
        <p class="ltx_p">As shown<cite class="ltx_cite ltx_citemacro_citep">[<a href="#bib.bib1" class="ltx_ref">1</a>]</cite>
          and also<cite class="ltx_cite"><a href="#S2" class="ltx_ref">Section 2</a></cite>.</p>
        <ol class="ltx_biblist">
          <li id="bib.bib1" class="ltx_bibitem">
            <span class="ltx_tag ltx_role_refnum">[1]</span>
            <span class="ltx_bibblock">Jane Doe. <span class="ltx_text ltx_font_italic">Some Journal</span>, 2020.</span>
          </li>
        </ol>
      </article>
    </body></html>
    "##;

#[test]
fn citation_links_to_labelled_bibitem() {
    let doc = import(SAMPLE_BIB, &NoAssets);
    assert!(
        doc.body.contains("#link(<bib-bib1>)["),
        "cite link: {}",
        doc.body
    );
    assert!(doc.body.contains("<bib-bib1>"), "bib label: {}", doc.body);
    assert!(
        doc.body.contains("_Some Journal_"),
        "italic span: {}",
        doc.body
    );
    assert!(
        doc.body.contains("Section 2") && !doc.body.contains("#link(<S2>)"),
        "non-bib anchor: {}",
        doc.body
    );
    assert_eq!(doc.stats.citations, 1);
}

struct OneImage;

impl AssetResolver for OneImage {
    fn fetch(&self, src: &str) -> Option<Vec<u8>> {
        if src == "fig.png" {
            Some(b"PNGDATA".to_vec())
        } else {
            None
        }
    }
}

#[test]
fn capturing_then_map_resolver_replays_offline() {
    const DOC: &str = r#"<html><body><article class="ltx_document">
            <p class="ltx_p"><img src="fig.png"></p></article></body></html>"#;

    // First pass captures the fetched asset.
    let cap = CapturingResolver::new(&OneImage);
    let first = import(DOC, &cap);
    assert_eq!(first.stats.images_ok, 1);
    let captured = cap.into_assets();
    assert_eq!(captured.len(), 1);
    assert_eq!(captured[0].0, "fig.png");

    // Replaying the captured assets reproduces the import with no live source.
    let replay = import(DOC, &MapResolver::new(captured));
    assert_eq!(replay.stats.images_ok, 1);
    assert_eq!(replay.assets.len(), first.assets.len());
}

#[test]
fn table_emits_alignment_header_and_spans() {
    const TABLE: &str = r#"
        <html><body><article class="ltx_document"><table class="ltx_tabular">
          <thead class="ltx_thead"><tr>
            <th class="ltx_align_left" colspan="2">Wide Head</th>
          </tr></thead>
          <tbody><tr>
            <td class="ltx_align_center">a</td>
            <td class="ltx_align_right">b</td>
          </tr></tbody>
        </table></article></body></html>
        "#;
    let doc = import(TABLE, &NoAssets);
    assert!(doc.body.contains("#table("), "table: {}", doc.body);
    assert!(doc.body.contains("columns: 2"), "columns: {}", doc.body);
    assert!(
        doc.body.contains("align: (center, right)"),
        "align: {}",
        doc.body
    );
    assert!(doc.body.contains("table.header("), "header: {}", doc.body);
    assert!(
        doc.body.contains("table.cell(colspan: 2, )[Wide Head]"),
        "colspan: {}",
        doc.body
    );
}

#[test]
fn image_asset_is_named_by_hash_and_extension_and_fetched_once() {
    const DOC: &str = r#"<html><body><main>
        <p><img src="fig.png"><img src="fig.png"></p></main></body></html>"#;
    let doc = import(DOC, &OneImage);
    assert_eq!(doc.stats.images_ok, 1);
    assert_eq!(doc.assets.len(), 1);
    let name = &doc.assets[0].0;
    assert!(name.starts_with("img-") && name.ends_with(".png"), "{name}");
    assert_eq!(name.len(), "img-".len() + 16 + ".png".len());
    assert_eq!(doc.assets[0].1, b"PNGDATA".to_vec());
    let markup = format!("#box(image(\"{name}\"))");
    assert_eq!(doc.body.matches(markup.as_str()).count(), 2, "{}", doc.body);
}

#[test]
fn missing_image_is_counted_as_failed() {
    const DOC: &str = r#"<html><body><p><img src="gone.jpg"></p></body></html>"#;
    let doc = import(DOC, &NoAssets);
    assert_eq!(doc.stats.images_failed, 1);
    assert_eq!(doc.stats.images_ok, 0);
    assert!(doc.assets.is_empty());
}

#[test]
fn body_fallback_lists_links_and_code() {
    const DOC: &str = r#"<html><body>
        <ul><li>one</li><li>two</li></ul>
        <ol><li>first</li></ol>
        <p><a href="https://example.org/a">site</a> and <code>x = "y"</code></p>
        <blockquote>quoted</blockquote>
        </body></html>"#;
    let doc = import(DOC, &NoAssets);
    assert!(doc.body.contains("\n- one\n- two\n\n"), "{}", doc.body);
    assert!(doc.body.contains("\n+ first\n\n"), "{}", doc.body);
    assert!(
        doc.body.contains("#link(\"https://example.org/a\")[site]"),
        "{}",
        doc.body
    );
    assert!(doc.body.contains("#raw(\"x = \\\"y\\\"\")"), "{}", doc.body);
    assert!(doc.body.contains("#quote(block: true)[quoted]"), "{}", doc.body);
}

#[test]
fn first_h1_is_the_title_and_later_ones_are_headings() {
    const DOC: &str = r#"<html><body><h1>Title</h1><h1>Part</h1><h3>Deep</h3></body></html>"#;
    let doc = import(DOC, &NoAssets);
    assert_eq!(doc.title.as_deref(), Some("Title"));
    assert!(doc.body.contains("\n= Part\n\n"), "{}", doc.body);
    assert!(doc.body.contains("\n== Deep\n\n"), "{}", doc.body);
}

#[test]
fn authors_block_drops_ampersands() {
    const DOC: &str =
        r#"<html><body><div class="ltx_authors">Ann &amp; Bob</div></body></html>"#;
    let doc = import(DOC, &NoAssets);
    assert!(doc.body.contains("#align(center)[Ann  Bob]"), "{}", doc.body);
}

#[test]
fn rowspan_leaves_rows_short() {
    const DOC: &str = r#"<html><body><table>
        <tr><td rowspan="2">a</td><td>b</td></tr>
        <tr><td>c</td></tr></table></body></html>"#;
    let doc = import(DOC, &NoAssets);
    assert!(doc.body.contains("columns: 2"), "{}", doc.body);
    assert!(
        doc.body.contains("  table.cell(rowspan: 2, )[a], [b], \n  [c], \n"),
        "{}",
        doc.body
    );
}

#[test]
fn short_rows_are_padded_without_rowspans() {
    const DOC: &str = r#"<html><body><table>
        <tr><td>a</td><td>b</td></tr>
        <tr><td>c</td></tr></table></body></html>"#;
    let doc = import(DOC, &NoAssets);
    assert!(doc.body.contains("  [c], [], \n"), "{}", doc.body);
    assert!(doc.body.contains("align: (left, left)"), "{}", doc.body);
}

#[test]
fn map_resolver_later_pair_wins() {
    let r = MapResolver::new(vec![
        ("a".to_string(), vec![1u8]),
        ("a".to_string(), vec![2u8]),
    ]);
    assert_eq!(r.fetch("a"), Some(vec![2u8]));
    assert_eq!(r.fetch("b"), None);
}

#[test]
fn helpers_sanitize_collapse_and_extension() {
    assert_eq!(sanitize_label("bib.bib1"), "bib-bib1");
    assert_eq!(collapse_ws("a \n\t b  c"), "a b c");
    assert_eq!(ext_of("https://x.org/fig.SVG?x=1"), ".svg");
    assert_eq!(ext_of("https://x.org/dir.d/file"), ".png");
    assert_eq!(ext_of("pic.toolongext"), ".png");
    assert_eq!(ext_of("a/b.jpeg#frag"), ".jpeg");
}
