//! Structured HTML to `Typst` import, targeting `LaTeXML` output (`arXiv` HTML).
//!
//! The page is parsed, the document content isolated (the table of contents,
//! navigation and page chrome dropped) and its tree walked into `Typst` markup.
//! `<math>` elements go through the math pipeline; images are fetched through an
//! injected [`AssetResolver`], so this module stays free of I/O. Math images and
//! fetched images come back as named assets for the caller to register.
//!
//! The walk is specified by [`nodes_out`] and its companions: functions from
//! the document tree, the bibliography ids, the answers the resolver gave (in
//! the order they were asked for) and the importer's state to the emitted
//! markup and the next state.

use vstd::cell::invcell::InvCell;
use vstd::prelude::*;

use crate::fixup::normalized;
use crate::html::{
    attr_of, cell_align, classes_align, collapse_ws, collapsed, element_view, ext_of, extension,
    has_class, lemma_nodes_view, node_view, nodes_text, nodes_view, parse_html, parsed_html,
    sanitize_label, sanitized, span_attr, span_value, strings_view, text_content, ElementV,
    HtmlElement, HtmlNode, NodeV,
};
use crate::markup::{escape_inline, escaped_inline};
use crate::math::{
    assets_view, default_hash_of, hash, math_output, quoted, render_view, tex2typst_result,
    usable_svg, TexMathEngine,
    typst_string, MathPipeline, MathRender, MathSource, Tex2TypstRs, Tier,
};
use crate::table::{grid_markup, Align, Cell, CellV, Table};
use crate::text::{
    chars_of, eq_chars, eq_str, hex_padded, push_all, push_hex_padded, push_str, replace_all,
    replace_str, slice_chars, string_of, trim, trim_chars,
};

verus! {

// =============================================================================
// Resolvers and results
// =============================================================================

/// The bytes of an optional buffer.
pub open spec fn bytes_view(r: Option<Vec<u8>>) -> Option<Seq<u8>> {
    match r {
        Some(b) => Some(b@),
        None => None,
    }
}

/// Resolves a referenced asset (an `<img src>`) to its bytes. Implemented by the
/// acquisition layer (HTTP, files); `None` skips the asset.
pub trait AssetResolver {
    /// Whether `r` is an answer this resolver may give for `src`. Unless a
    /// resolver says more (one that depends on the outside world cannot), any
    /// answer is possible.
    open spec fn gives(&self, src: Seq<char>, r: Option<Seq<u8>>) -> bool {
        true
    }

    fn fetch(&self, src: &str) -> (r: Option<Vec<u8>>)
        ensures
            self.gives(src@, bytes_view(r)),
    ;
}

/// A resolver that fetches nothing: for tests and text-only imports.
pub struct NoAssets;

impl AssetResolver for NoAssets {
    open spec fn gives(&self, src: Seq<char>, r: Option<Seq<u8>>) -> bool {
        r is None
    }

    fn fetch(&self, src: &str) -> (r: Option<Vec<u8>>) {
        None
    }
}

/// What a list of `(source, bytes)` pairs serves: the last pair for a source
/// wins.
pub open spec fn asset_map(pairs: Seq<(String, Vec<u8>)>) -> Map<Seq<char>, Seq<u8>>
    decreases pairs.len(),
{
    if pairs.len() == 0 {
        Map::empty()
    } else {
        asset_map(pairs.drop_last()).insert(pairs.last().0@, pairs.last().1@)
    }
}

/// Serves assets from memory: the offline replay of assets captured during an
/// earlier import.
///
/// The entries are held as a vector of pairs rather than a `HashMap`: vstd's
/// `HashMap` contracts hold only for key types with its key model, which it
/// grants to integer and `bool` keys, not to `String`, so a map keyed by
/// `String` would leave these contracts unproved.
pub struct MapResolver {
    assets: Vec<(String, Vec<u8>)>,
}

impl View for MapResolver {
    type V = Map<Seq<char>, Seq<u8>>;

    closed spec fn view(&self) -> Map<Seq<char>, Seq<u8>> {
        asset_map(self.assets@)
    }
}

/// Past the last pair for `key` at or after `i`, the map of all pairs agrees
/// with the map of the first `i` on `key`.
proof fn lemma_asset_map_suffix(pairs: Seq<(String, Vec<u8>)>, i: int, key: Seq<char>)
    requires
        0 <= i <= pairs.len(),
        forall|k: int| i <= k < pairs.len() ==> #[trigger] pairs[k].0@ != key,
    ensures
        asset_map(pairs).contains_key(key) == asset_map(pairs.take(i)).contains_key(key),
        asset_map(pairs)[key] == asset_map(pairs.take(i))[key],
    decreases pairs.len() - i,
{
    if i < pairs.len() {
        let t = pairs.take(i + 1);
        assert(t.drop_last() =~= pairs.take(i));
        assert(t.last() == pairs[i]);
        lemma_asset_map_suffix(pairs, i + 1, key);
    } else {
        assert(pairs.take(i) =~= pairs);
    }
}

impl MapResolver {
    /// A resolver serving `assets`; of two pairs for one source the later wins.
    pub fn new(assets: Vec<(String, Vec<u8>)>) -> (r: Self)
        ensures
            r@ == asset_map(assets@),
    {
        MapResolver { assets }
    }
}

impl AssetResolver for MapResolver {
    open spec fn gives(&self, src: Seq<char>, r: Option<Seq<u8>>) -> bool {
        r == (if self@.contains_key(src) {
            Some(self@[src])
        } else {
            None
        })
    }

    fn fetch(&self, src: &str) -> (r: Option<Vec<u8>>) {
        let key = chars_of(src);
        let mut i = self.assets.len();
        while i > 0
            invariant
                i <= self.assets@.len(),
                key@ == src@,
                forall|k: int|
                    i <= k < self.assets@.len() ==> #[trigger] self.assets@[k].0@ != src@,
            decreases i,
        {
            let k = chars_of(self.assets[i - 1].0.as_str());
            if eq_chars(&k, &key) {
                let b = self.assets[i - 1].1.clone();
                proof {
                    assert(b@ =~= self.assets@[i - 1].1@);
                    lemma_asset_map_suffix(self.assets@, i as int, src@);
                    assert(self.assets@.take(i as int).drop_last() =~= self.assets@.take(i - 1));
                }
                return Some(b);
            }
            i = i - 1;
        }
        proof {
            lemma_asset_map_suffix(self.assets@, 0, src@);
            assert(self.assets@.take(0) =~= Seq::<(String, Vec<u8>)>::empty());
        }
        None
    }
}

/// No two pairs share a source.
pub open spec fn distinct_sources(v: Seq<(String, Vec<u8>)>) -> bool {
    forall|i: int, j: int| 0 <= i < j < v.len() ==> v[i].0@ != v[j].0@
}

/// What a capture may hold: distinct sources, each with bytes the wrapped
/// resolver may give for it.
pub open spec fn captured_from<R: AssetResolver>(inner: &R, v: Vec<(String, Vec<u8>)>) -> bool {
    &&& distinct_sources(v@)
    &&& forall|i: int| 0 <= i < v@.len() ==> inner.gives(v@[i].0@, Some(v@[i].1@))
}

/// Wraps another resolver and records every `(source, bytes)` it yields, so the
/// assets of a one-time import can be kept and replayed offline later (see
/// [`MapResolver`]).
///
/// The capture is held as a vector of pairs rather than a `HashMap`: vstd's
/// `HashMap` contracts hold only for key types with its key model, which it
/// grants to integer and `bool` keys, not to `String`, so a map keyed by
/// `String` would leave these contracts unproved.
pub struct CapturingResolver<'r, R: AssetResolver> {
    inner: &'r R,
    captured: InvCell<Vec<(String, Vec<u8>)>, spec_fn(Vec<(String, Vec<u8>)>) -> bool>,
}

impl<'r, R: AssetResolver> CapturingResolver<'r, R> {
    /// The wrapped resolver.
    pub closed spec fn inner(&self) -> &'r R {
        self.inner
    }

    /// The capture holds what the wrapped resolver gave.
    #[verifier::type_invariant]
    closed spec fn wf(&self) -> bool {
        self.captured.predicate() == (|v: Vec<(String, Vec<u8>)>| captured_from(self.inner, v))
    }

    /// A capturing wrapper around `inner`, with nothing captured yet.
    pub fn new(inner: &'r R) -> (r: Self)
        ensures
            r.inner() == inner,
    {
        let ghost pred = |v: Vec<(String, Vec<u8>)>| captured_from(inner, v);
        let empty: Vec<(String, Vec<u8>)> = Vec::new();
        proof {
            assert(captured_from(inner, empty));
        }
        CapturingResolver { inner, captured: InvCell::new(empty, Ghost(pred)) }
    }

    /// The assets fetched through the wrapper, one pair per source (the last
    /// bytes fetched for it); each is an answer the wrapped resolver may give.
    /// Fetches record into a cell behind a shared reference, so the contract
    /// states what every capture holds, not which fetches it saw.
    pub fn into_assets(self) -> (r: Vec<(String, Vec<u8>)>)
        ensures
            captured_from(self.inner(), r),
    {
        proof {
            use_type_invariant(&self);
        }
        let CapturingResolver { inner, captured } = self;
        captured.into_inner()
    }
}

impl<'r, R: AssetResolver> AssetResolver for CapturingResolver<'r, R> {
    open spec fn gives(&self, src: Seq<char>, r: Option<Seq<u8>>) -> bool {
        self.inner().gives(src, r)
    }

    fn fetch(&self, src: &str) -> (r: Option<Vec<u8>>) {
        proof {
            use_type_invariant(self);
        }
        let bytes = match self.inner.fetch(src) {
            Some(b) => b,
            None => {
                return None;
            },
        };
        let copy = bytes.clone();
        let empty: Vec<(String, Vec<u8>)> = Vec::new();
        proof {
            assert(copy@ =~= bytes@);
            assert(captured_from(self.inner, empty));
        }
        let mut v = self.captured.replace(empty);
        let ghost old_v = v@;
        let key = chars_of(src);
        let mut i: usize = 0;
        while i < v.len() && !same_text(&v[i].0, &key)
            invariant
                i <= v@.len(),
                v@ == old_v,
                key@ == src@,
                forall|k: int| 0 <= k < i ==> #[trigger] v@[k].0@ != src@,
            decreases v@.len() - i,
        {
            i = i + 1;
        }
        let pair = (string_of(&key), copy);
        if i < v.len() {
            v.set(i, pair);
        } else {
            v.push(pair);
        }
        proof {
            assert(captured_from(self.inner, v)) by {
                assert forall|a: int, b: int| 0 <= a < b < v@.len() implies v@[a].0@ != v@[b].0@ by {
                    if i < old_v.len() {
                        assert(old_v[i as int].0@ == src@);
                        if a == i as int {
                            assert(old_v[i as int].0@ != old_v[b].0@);
                        } else if b == i as int {
                            assert(old_v[a].0@ != old_v[i as int].0@);
                        } else {
                            assert(old_v[a].0@ != old_v[b].0@);
                        }
                    } else {
                        if b == old_v.len() {
                            assert(old_v[a].0@ != src@);
                        } else {
                            assert(old_v[a].0@ != old_v[b].0@);
                        }
                    }
                }
            }
        }
        let _ = self.captured.replace(v);
        Some(bytes)
    }
}

/// Whether a string holds exactly the characters `key`.
fn same_text(s: &String, key: &Vec<char>) -> (r: bool)
    ensures
        r == (s@ == key@),
{
    eq_chars(&chars_of(s.as_str()), key)
}

/// Counts of how each part of the document was handled.
#[derive(Debug, Clone, Copy, PartialEq, Eq, Structural)]
pub struct ImportStats {
    pub math_tex: usize,
    pub math_image: usize,
    pub math_raw: usize,
    pub images_ok: usize,
    pub images_failed: usize,
    pub footnotes: usize,
    pub citations: usize,
}

/// All counts zero.
pub open spec fn zero_stats() -> ImportStats {
    ImportStats {
        math_tex: 0,
        math_image: 0,
        math_raw: 0,
        images_ok: 0,
        images_failed: 0,
        footnotes: 0,
        citations: 0,
    }
}

impl Default for ImportStats {
    fn default() -> (r: Self)
        ensures
            r == zero_stats(),
    {
        ImportStats {
            math_tex: 0,
            math_image: 0,
            math_raw: 0,
            images_ok: 0,
            images_failed: 0,
            footnotes: 0,
            citations: 0,
        }
    }
}

/// The result of importing an HTML document.
pub struct ImportedDoc {
    /// `Typst` body markup (no template).
    pub body: String,
    /// Named in-memory files (math `SVG`s, fetched images) to register before
    /// compiling.
    pub assets: Vec<(String, Vec<u8>)>,
    pub title: Option<String>,
    pub stats: ImportStats,
}

// =============================================================================
// The importer's state
// =============================================================================

/// What the walk carries from node to node: the document title once found,
/// the counts, the assets emitted so far, the image names given so far (by
/// source) and the sources the resolver was asked for, in order.
pub struct ImportState {
    pub title: Option<Seq<char>>,
    pub stats: ImportStats,
    pub assets: Seq<(Seq<char>, Seq<u8>)>,
    pub names: Seq<(Seq<char>, Seq<char>)>,
    pub asked: Seq<Seq<char>>,
    pub rendered: nat,
}

/// A counter step; counters wrap as `usize::wrapping_add` does.
pub open spec fn bump(x: usize) -> usize {
    vstd::wrapping::usize_specs::wrapping_add(x, 1)
}

/// The state before anything is imported.
pub open spec fn start_state() -> ImportState {
    ImportState {
        title: None,
        stats: zero_stats(),
        assets: seq![],
        names: seq![],
        asked: seq![],
        rendered: 0,
    }
}

/// What the walk was given from outside, in the order it asked: the
/// resolver's answers, and for each formula whether its conversion compiled
/// and the usable `SVG` made of it, if any.
pub struct Answers {
    pub fetched: Seq<Option<Seq<u8>>>,
    pub formulas: Seq<(bool, Option<Seq<u8>>)>,
}

/// Whether `b` goes on from `a`: each of its parts starts with `a`'s.
pub open spec fn extends(a: Answers, b: Answers) -> bool {
    prefix_of(a.fetched, b.fetched) && prefix_of(a.formulas, b.formulas)
}

/// The outcome for the formula at position `pos` (none compiled and no image
/// past the end).
pub open spec fn formula_at(tape: Answers, pos: int) -> (bool, Option<Seq<u8>>) {
    if 0 <= pos < tape.formulas.len() {
        tape.formulas[pos]
    } else {
        (false, None)
    }
}

/// The resolver's answer at position `pos` (none past the end).
pub open spec fn answer(tape: Answers, pos: int) -> Option<Seq<u8>> {
    if 0 <= pos < tape.fetched.len() {
        tape.fetched[pos]
    } else {
        None
    }
}

/// Whether `a` is a prefix of `b`.
pub open spec fn prefix_of<T>(a: Seq<T>, b: Seq<T>) -> bool {
    a.len() <= b.len() && forall|i: int| 0 <= i < a.len() ==> a[i] == b[i]
}

// =============================================================================
// What is skipped, and header context
// =============================================================================

/// Tags never emitted.
pub open spec fn skipped_tag(n: Seq<char>) -> bool {
    ||| n == "script"@
    ||| n == "style"@
    ||| n == "nav"@
    ||| n == "header"@
    ||| n == "footer"@
    ||| n == "button"@
    ||| n == "form"@
}

/// Page furniture and the source's own table of contents are never emitted;
/// nor are affiliation reference marks.
pub open spec fn is_skipped(e: ElementV) -> bool {
    ||| skipped_tag(e.name)
    ||| has_class(e, "ltx_TOC"@)
    ||| has_class(e, "ltx_page_navbar"@)
    ||| has_class(e, "ltx_page_header"@)
    ||| has_class(e, "ltx_page_footer"@)
    ||| has_class(e, "ltx_pagination"@)
    ||| has_class(e, "ltx_rdf"@)
    ||| has_class(e, "ltx_role_footnotemark"@)
}

/// Whether an element makes its descendants header rows: `<thead>` or
/// `LaTeXML`'s `ltx_thead`.
pub open spec fn is_thead(e: ElementV) -> bool {
    e.name == "thead"@ || has_class(e, "ltx_thead"@)
}

// =============================================================================
// Leaf renderings
// =============================================================================

/// The text of a formula: the first `annotation` among the descendants (in
/// document order) whose encoding is `application/x-tex`.
pub open spec fn annotation_in(s: Seq<NodeV>) -> Option<ElementV>
    decreases s,
{
    if s.len() == 0 {
        None
    } else {
        match annotation_at(s[0]) {
            Some(a) => Some(a),
            None => annotation_in(s.drop_first()),
        }
    }
}

/// The first `TeX` annotation at or under a node.
pub open spec fn annotation_at(n: NodeV) -> Option<ElementV>
    decreases n,
{
    match n {
        NodeV::Element(x) => if x.name == "annotation"@ && attr_of(x.attrs, "encoding"@) == Some(
            "application/x-tex"@,
        ) {
            Some(x)
        } else {
            annotation_in(x.children)
        },
        _ => None,
    }
}

/// A `<math>` element: its `TeX` annotation through the math pipeline, display
/// formulas on a paragraph of their own; nothing without an annotation. The
/// outcome of compiling and imaging the formula is the next one on the tape;
/// the tier used is counted and the pipeline's assets are emitted.
pub open spec fn math_out(e: ElementV, tape: Answers, st: ImportState) -> (Seq<char>, ImportState) {
    let display = attr_of(e.attrs, "display"@) == Some("block"@);
    match annotation_in(e.children) {
        None => (seq![], st),
        Some(a) => {
            let tex = nodes_text(a.children);
            let (compiled, svg) = formula_at(tape, st.rendered as int);
            let r = math_output(tex2typst_result(normalized(tex)), tex, display, compiled, svg);
            let stats = match r.1 {
                Tier::Tex => ImportStats { math_tex: bump(st.stats.math_tex), ..st.stats },
                Tier::Image => ImportStats { math_image: bump(st.stats.math_image), ..st.stats },
                Tier::Raw => ImportStats { math_raw: bump(st.stats.math_raw), ..st.stats },
            };
            let out = if display {
                "\n\n"@ + r.0 + "\n\n"@
            } else {
                r.0
            };
            (out, ImportState { stats, assets: st.assets + r.2, rendered: st.rendered + 1, ..st })
        },
    }
}

/// The name given earlier to the image from `src`.
pub open spec fn name_for(names: Seq<(Seq<char>, Seq<char>)>, src: Seq<char>) -> Option<Seq<char>>
    decreases names.len(),
{
    if names.len() == 0 {
        None
    } else if names[0].0 == src {
        Some(names[0].1)
    } else {
        name_for(names.drop_first(), src)
    }
}

/// The file name of a fetched image: a hash of its source and its extension.
pub open spec fn image_name(src: Seq<char>) -> Seq<char> {
    "img-"@ + hex_padded(default_hash_of(src) as nat, 16) + extension(src)
}

/// The markup placing a named image.
pub open spec fn image_markup(name: Seq<char>) -> Seq<char> {
    "#box(image("@ + quoted(name) + "))"@
}

/// An `<img>`: an image seen before reuses its name; otherwise the resolver is
/// asked, and the bytes it gives become a new asset (counted as fetched), while
/// no answer is counted as a failure and emits nothing.
pub open spec fn image_out(e: ElementV, tape: Answers, st: ImportState) -> (
    Seq<char>,
    ImportState,
) {
    match attr_of(e.attrs, "src"@) {
        None => (seq![], st),
        Some(src) => match name_for(st.names, src) {
            Some(name) => (image_markup(name), st),
            None => match answer(tape, st.asked.len() as int) {
                None => (
                    seq![],
                    ImportState {
                        stats: ImportStats {
                            images_failed: bump(st.stats.images_failed),
                            ..st.stats
                        },
                        asked: st.asked.push(src),
                        ..st
                    },
                ),
                Some(bytes) => (
                    image_markup(image_name(src)),
                    ImportState {
                        stats: ImportStats { images_ok: bump(st.stats.images_ok), ..st.stats },
                        assets: st.assets.push((image_name(src), bytes)),
                        names: st.names.push((src, image_name(src))),
                        asked: st.asked.push(src),
                        ..st
                    },
                ),
            },
        },
    }
}

/// An `<a>` around rendered `children`: an internal anchor links only to a
/// bibliography entry that will be labelled (a counted citation), other
/// internal anchors keep their text alone; any other `href` becomes a link.
pub open spec fn link_out(
    e: ElementV,
    children: Seq<char>,
    bib: Seq<Seq<char>>,
    st: ImportState,
) -> (Seq<char>, ImportState) {
    match attr_of(e.attrs, "href"@) {
        Some(h) => if h.len() > 0 && h[0] == '#' {
            let frag = h.skip(1);
            if bib.contains(frag) {
                (
                    "#link(<"@ + sanitized(frag) + ">)["@ + children + "]"@,
                    ImportState {
                        stats: ImportStats { citations: bump(st.stats.citations), ..st.stats },
                        ..st
                    },
                )
            } else {
                (children, st)
            }
        } else {
            ("#link("@ + quoted(h) + ")["@ + children + "]"@, st)
        },
        None => (children, st),
    }
}

/// The `=` run of a heading of depth `n`.
pub open spec fn equals_run(n: nat) -> Seq<char>
    decreases n,
{
    if n == 0 {
        seq![]
    } else {
        equals_run((n - 1) as nat).push('=')
    }
}

/// A heading of depth `n` around rendered `children`.
pub open spec fn heading_markup(n: nat, children: Seq<char>) -> Seq<char> {
    "\n"@ + equals_run(n) + " "@ + trim(children) + "\n\n"@
}

/// The heading depth of a tag `h2`..`h6`.
pub open spec fn heading_depth(name: Seq<char>) -> nat {
    if name == "h2"@ {
        1
    } else if name == "h3"@ {
        2
    } else if name == "h4"@ {
        3
    } else if name == "h5"@ {
        4
    } else if name == "h6"@ {
        5
    } else {
        0
    }
}

/// The author block around rendered `children`: the `&` separators removed,
/// centered, or nothing when empty.
pub open spec fn authors_markup(children: Seq<char>) -> Seq<char> {
    let inner = trim(replace_all(children, "&"@, seq![]));
    if inner.len() == 0 {
        seq![]
    } else {
        "\n#align(center)["@ + inner + "]\n\n"@
    }
}

/// A bibliography entry around its rendered body: a hanging-indent block
/// carrying the label of its `id`; nothing when the body is empty.
pub open spec fn bib_entry(x: ElementV, body: Seq<char>) -> Seq<char> {
    let b = trim(body);
    if b.len() == 0 {
        seq![]
    } else {
        "#block(below: 0.65em)[#par(hanging-indent: 1.5em)["@ + b + "]]"@ + (match attr_of(
            x.attrs,
            "id"@,
        ) {
            Some(id) => " <"@ + sanitized(id) + ">"@,
            None => seq![],
        }) + "\n"@
    }
}

/// A `<h1>`: the document title when classed so or when no title is known yet
/// (its collapsed, trimmed text, kept when not empty, never emitted); else a
/// top-level heading.
pub open spec fn title_state(e: ElementV, st: ImportState) -> ImportState {
    let t = trim(collapsed(nodes_text(e.children)));
    if t.len() > 0 {
        ImportState { title: Some(t), ..st }
    } else {
        st
    }
}

/// Whether a `<h1>` is taken as the title.
pub open spec fn is_title(e: ElementV, st: ImportState) -> bool {
    has_class(e, "ltx_title_document"@) || st.title is None
}

// =============================================================================
// Tables
// =============================================================================

/// A table cell as collected: its rendered, trimmed body, its spans and the
/// alignment it requests.
pub struct RawCell {
    pub body: Seq<char>,
    pub colspan: usize,
    pub rowspan: usize,
    pub align: Option<Align>,
}

/// A row as collected: whether it sits in a table header, and its cells.
pub struct RawRow {
    pub header: bool,
    pub cells: Seq<RawCell>,
}

/// The width of a row: the sum of its colspans (wrapping).
pub open spec fn row_width(cells: Seq<RawCell>) -> usize
    decreases cells.len(),
{
    if cells.len() == 0 {
        0
    } else {
        vstd::wrapping::usize_specs::wrapping_add(row_width(cells.drop_last()), cells.last().colspan)
    }
}

/// The widest row.
pub open spec fn max_width(rows: Seq<RawRow>) -> usize
    decreases rows.len(),
{
    if rows.len() == 0 {
        0
    } else {
        let w = row_width(rows.last().cells);
        let m = max_width(rows.drop_last());
        if w > m {
            w
        } else {
            m
        }
    }
}

/// Whether some cell spans more than one row.
pub open spec fn any_rowspan(rows: Seq<RawRow>) -> bool {
    exists|i: int, j: int|
        0 <= i < rows.len() && 0 <= j < rows[i].cells.len() && #[trigger] rows[i].cells[j].rowspan
            > 1
}

/// The alignment of the first cell of `cells` (the first starting at column
/// `col`) that starts at column `c` and requests one.
pub open spec fn row_align_at(cells: Seq<RawCell>, col: usize, c: usize) -> Option<Align>
    decreases cells.len(),
{
    if cells.len() == 0 {
        None
    } else if col == c && cells[0].align is Some {
        cells[0].align
    } else {
        row_align_at(
            cells.drop_first(),
            vstd::wrapping::usize_specs::wrapping_add(col, cells[0].colspan),
            c,
        )
    }
}

/// The alignment column `c` takes from the first row (among header rows when
/// `header`, else among body rows) that has an aligned cell starting there.
pub open spec fn align_at(rows: Seq<RawRow>, header: bool, c: usize) -> Option<Align>
    decreases rows.len(),
{
    if rows.len() == 0 {
        None
    } else if rows[0].header == header && row_align_at(rows[0].cells, 0, c) is Some {
        row_align_at(rows[0].cells, 0, c)
    } else {
        align_at(rows.drop_first(), header, c)
    }
}

/// The alignment of column `c`: from body cells first, header cells fill in
/// columns the body never aligns, left otherwise.
pub open spec fn column_alignment(rows: Seq<RawRow>, c: usize) -> Align {
    match align_at(rows, false, c) {
        Some(a) => a,
        None => match align_at(rows, true, c) {
            Some(a) => a,
            None => Align::Left,
        },
    }
}

/// The number of leading header rows.
pub open spec fn header_count(rows: Seq<RawRow>) -> nat
    decreases rows.len(),
{
    if rows.len() == 0 || !rows[0].header {
        0
    } else {
        1 + header_count(rows.drop_first())
    }
}

/// An empty 1x1 cell.
pub open spec fn empty_cell() -> CellV {
    CellV { body: seq![], colspan: 1, rowspan: 1 }
}

/// The cells of a row, padded with empty cells up to `columns` when `pad`.
pub open spec fn grid_row(cells: Seq<RawCell>, columns: usize, pad: bool) -> Seq<CellV> {
    let base = cells.map_values(
        |c: RawCell| CellV { body: c.body, colspan: c.colspan, rowspan: c.rowspan },
    );
    let w = row_width(cells);
    if pad && w < columns {
        base + Seq::new((columns - w) as nat, |i: int| empty_cell())
    } else {
        base
    }
}

/// The table emitted for collected rows: as many columns as the widest row,
/// short rows padded to a rectangle unless some cell spans rows (later rows
/// are then short on purpose), per-column alignment, and the leading header
/// rows wrapped as the header; nothing for a table without columns.
pub open spec fn table_out(rows: Seq<RawRow>) -> Seq<char> {
    let columns = max_width(rows);
    if columns == 0 {
        seq![]
    } else {
        let pad = !any_rowspan(rows);
        grid_markup(
            columns,
            Seq::new(columns as nat, |i: int| column_alignment(rows, i as usize)),
            header_count(rows) as usize,
            rows.map_values(|r: RawRow| grid_row(r.cells, columns, pad)),
        )
    }
}

// =============================================================================
// The walk
// =============================================================================

/// The markup of a list of sibling nodes, in order, threading the state.
/// `head` tells whether some ancestor of the nodes is a table header.
pub open spec fn nodes_out(
    s: Seq<NodeV>,
    head: bool,
    bib: Seq<Seq<char>>,
    tape: Answers,
    st: ImportState,
) -> (Seq<char>, ImportState)
    decreases s, 0int,
{
    if s.len() == 0 {
        (seq![], st)
    } else {
        let (a, st1) = nodes_out(s.drop_last(), head, bib, tape, st);
        let (b, st2) = node_out(s.last(), head, bib, tape, st1);
        (a + b, st2)
    }
}

/// The markup of one node: text is whitespace-collapsed and escaped.
pub open spec fn node_out(
    n: NodeV,
    head: bool,
    bib: Seq<Seq<char>>,
    tape: Answers,
    st: ImportState,
) -> (Seq<char>, ImportState)
    decreases n, 0int,
{
    match n {
        NodeV::Element(e) => elem_out(e, head, bib, tape, st),
        NodeV::Text(t) => (escaped_inline(collapsed(t)), st),
        NodeV::Other => (seq![], st),
    }
}

/// The markup of an element.
pub open spec fn elem_out(
    e: ElementV,
    head: bool,
    bib: Seq<Seq<char>>,
    tape: Answers,
    st: ImportState,
) -> (Seq<char>, ImportState)
    decreases e, 1int,
{
    let ch = head || is_thead(e);
    if is_skipped(e) {
        (seq![], st)
    } else if has_class(e, "ltx_role_footnote"@) {
        let st1 = ImportState {
            stats: ImportStats { footnotes: bump(st.stats.footnotes), ..st.stats },
            ..st
        };
        let (body, st2) = match note_in(e.children, ch, bib, tape, st1) {
            Some(r) => r,
            None => nodes_out(e.children, ch, bib, tape, st1),
        };
        ("#footnote["@ + trim(body) + "]"@, st2)
    } else if has_class(e, "ltx_authors"@) {
        let (c, st1) = nodes_out(e.children, ch, bib, tape, st);
        (authors_markup(c), st1)
    } else if has_class(e, "ltx_biblist"@) {
        let (c, st1) = bib_items(e.children, ch, bib, tape, st);
        ("\n"@ + c + "\n"@, st1)
    } else if has_class(e, "ltx_font_italic"@) {
        let (c, st1) = nodes_out(e.children, ch, bib, tape, st);
        ("_"@ + c + "_"@, st1)
    } else if has_class(e, "ltx_font_bold"@) {
        let (c, st1) = nodes_out(e.children, ch, bib, tape, st);
        ("*"@ + c + "*"@, st1)
    } else if e.name == "math"@ {
        math_out(e, tape, st)
    } else if e.name == "h1"@ && is_title(e, st) {
        (seq![], title_state(e, st))
    } else if e.name == "img"@ {
        image_out(e, tape, st)
    } else if e.name == "code"@ || e.name == "tt"@ {
        ("#raw("@ + quoted(nodes_text(e.children)) + ")"@, st)
    } else if e.name == "br"@ {
        ("#linebreak() "@, st)
    } else if e.name == "ul"@ || e.name == "ol"@ {
        let marker = if e.name == "ul"@ {
            '-'
        } else {
            '+'
        };
        let (c, st1) = list_items(e.children, marker, ch, bib, tape, st);
        ("\n"@ + c + "\n"@, st1)
    } else if e.name == "table"@ {
        let (rows, st1) = rows_in(e.children, ch, bib, tape, st);
        (table_out(rows), st1)
    } else {
        let (c, st1) = nodes_out(e.children, ch, bib, tape, st);
        if e.name == "h1"@ {
            (heading_markup(1, c), st1)
        } else if heading_depth(e.name) > 0 {
            (heading_markup(heading_depth(e.name), c), st1)
        } else if e.name == "p"@ {
            (trim(c) + "\n\n"@, st1)
        } else if e.name == "li"@ {
            (trim(c) + "\n"@, st1)
        } else if e.name == "a"@ {
            link_out(e, c, bib, st1)
        } else if e.name == "em"@ || e.name == "i"@ {
            ("_"@ + c + "_"@, st1)
        } else if e.name == "strong"@ || e.name == "b"@ {
            ("*"@ + c + "*"@, st1)
        } else if e.name == "sup"@ {
            ("#super["@ + c + "]"@, st1)
        } else if e.name == "sub"@ {
            ("#sub["@ + c + "]"@, st1)
        } else if e.name == "blockquote"@ {
            ("#quote(block: true)["@ + trim(c) + "]\n\n"@, st1)
        } else if e.name == "figcaption"@ {
            ("\n#align(center)[#emph["@ + trim(c) + "]]\n\n"@, st1)
        } else {
            (c, st1)
        }
    }
}

/// A heading `<hN>` (`N` from 2 to 6, with no class that gives it another
/// role) becomes a Typst heading with exactly `N - 1` equals signs around its
/// trimmed content: `<h2>` a section, `<h3>` a subsection, `<h4>` one level
/// below that, and so on, so a deeper HTML heading is always a deeper Typst
/// heading.
pub proof fn headings_keep_their_depth(
    e: ElementV,
    head: bool,
    bib: Seq<Seq<char>>,
    tape: Answers,
    st: ImportState,
)
    requires
        e.classes.len() == 0,
    ensures
        ({
            let (c, st1) = nodes_out(e.children, head || is_thead(e), bib, tape, st);
            &&& e.name == "h2"@ ==> elem_out(e, head, bib, tape, st) == ("\n= "@ + trim(c) + "\n\n"@, st1)
            &&& e.name == "h3"@ ==> elem_out(e, head, bib, tape, st) == ("\n== "@ + trim(c) + "\n\n"@, st1)
            &&& e.name == "h4"@ ==> elem_out(e, head, bib, tape, st) == ("\n=== "@ + trim(c) + "\n\n"@, st1)
            &&& e.name == "h5"@ ==> elem_out(e, head, bib, tape, st) == ("\n==== "@ + trim(c) + "\n\n"@, st1)
            &&& e.name == "h6"@ ==> elem_out(e, head, bib, tape, st) == ("\n===== "@ + trim(c) + "\n\n"@, st1)
        }),
{
    reveal_strlit("script");
    reveal_strlit("style");
    reveal_strlit("nav");
    reveal_strlit("header");
    reveal_strlit("footer");
    reveal_strlit("button");
    reveal_strlit("form");
    reveal_strlit("math");
    reveal_strlit("h1");
    reveal_strlit("h2");
    reveal_strlit("h3");
    reveal_strlit("h4");
    reveal_strlit("h5");
    reveal_strlit("h6");
    reveal_strlit("img");
    reveal_strlit("code");
    reveal_strlit("tt");
    reveal_strlit("br");
    reveal_strlit("ul");
    reveal_strlit("ol");
    reveal_strlit("table");
    reveal_strlit("thead");
    assert("script"@[0] == 's' && "script"@[1] == 'c');
    assert("style"@[0] == 's' && "style"@[1] == 't');
    assert("nav"@[0] == 'n' && "nav"@[1] == 'a');
    assert("header"@[0] == 'h' && "header"@[1] == 'e');
    assert("footer"@[0] == 'f' && "footer"@[1] == 'o');
    assert("button"@[0] == 'b' && "button"@[1] == 'u');
    assert("form"@[0] == 'f' && "form"@[1] == 'o');
    assert("math"@[0] == 'm' && "math"@[1] == 'a');
    assert("h1"@[0] == 'h' && "h1"@[1] == '1');
    assert("h2"@[0] == 'h' && "h2"@[1] == '2');
    assert("h3"@[0] == 'h' && "h3"@[1] == '3');
    assert("h4"@[0] == 'h' && "h4"@[1] == '4');
    assert("h5"@[0] == 'h' && "h5"@[1] == '5');
    assert("h6"@[0] == 'h' && "h6"@[1] == '6');
    assert("img"@[0] == 'i' && "img"@[1] == 'm');
    assert("code"@[0] == 'c' && "code"@[1] == 'o');
    assert("tt"@[0] == 't' && "tt"@[1] == 't');
    assert("br"@[0] == 'b' && "br"@[1] == 'r');
    assert("ul"@[0] == 'u' && "ul"@[1] == 'l');
    assert("ol"@[0] == 'o' && "ol"@[1] == 'l');
    assert("table"@[0] == 't' && "table"@[1] == 'a');
    assert("thead"@[0] == 't' && "thead"@[1] == 'h');
    reveal_strlit("\n");
    reveal_strlit(" ");
    reveal_strlit("\n\n");
    reveal_strlit("\n= ");
    reveal_strlit("\n== ");
    reveal_strlit("\n=== ");
    reveal_strlit("\n==== ");
    reveal_strlit("\n===== ");
    assert(forall|c: Seq<char>| !has_class(e, c));
    assert(equals_run(0) =~= Seq::<char>::empty());
    assert(equals_run(1) =~= seq!['=']);
    assert(equals_run(2) =~= seq!['=', '=']);
    assert(equals_run(3) =~= seq!['=', '=', '=']);
    assert(equals_run(4) =~= seq!['=', '=', '=', '=']);
    assert(equals_run(5) =~= seq!['=', '=', '=', '=', '=']);
    let (c, st1) = nodes_out(e.children, head || is_thead(e), bib, tape, st);
    assert("\n"@ + equals_run(1) + " "@ + trim(c) + "\n\n"@ =~= "\n= "@ + trim(c) + "\n\n"@);
    assert("\n"@ + equals_run(2) + " "@ + trim(c) + "\n\n"@ =~= "\n== "@ + trim(c) + "\n\n"@);
    assert("\n"@ + equals_run(3) + " "@ + trim(c) + "\n\n"@ =~= "\n=== "@ + trim(c) + "\n\n"@);
    assert("\n"@ + equals_run(4) + " "@ + trim(c) + "\n\n"@ =~= "\n==== "@ + trim(c) + "\n\n"@);
    assert("\n"@ + equals_run(5) + " "@ + trim(c) + "\n\n"@ =~= "\n===== "@ + trim(c) + "\n\n"@);
}

/// An unordered HTML list (with no class that gives it another role) becomes
/// a Typst bullet list, its items marked `-`; an ordered one a numbered list,
/// its items marked `+`; either set on lines of its own.
pub proof fn html_lists_keep_their_kind(
    e: ElementV,
    head: bool,
    bib: Seq<Seq<char>>,
    tape: Answers,
    st: ImportState,
)
    requires
        e.classes.len() == 0,
    ensures
        e.name == "ul"@ ==> elem_out(e, head, bib, tape, st) == ({
            let (c, st1) = list_items(e.children, '-', head || is_thead(e), bib, tape, st);
            ("\n"@ + c + "\n"@, st1)
        }),
        e.name == "ol"@ ==> elem_out(e, head, bib, tape, st) == ({
            let (c, st1) = list_items(e.children, '+', head || is_thead(e), bib, tape, st);
            ("\n"@ + c + "\n"@, st1)
        }),
{
    reveal_strlit("script");
    reveal_strlit("style");
    reveal_strlit("nav");
    reveal_strlit("header");
    reveal_strlit("footer");
    reveal_strlit("button");
    reveal_strlit("form");
    reveal_strlit("math");
    reveal_strlit("h1");
    reveal_strlit("img");
    reveal_strlit("code");
    reveal_strlit("tt");
    reveal_strlit("br");
    reveal_strlit("ul");
    reveal_strlit("ol");
    reveal_strlit("thead");
    assert("script"@[0] == 's' && "script"@[1] == 'c');
    assert("style"@[0] == 's' && "style"@[1] == 't');
    assert("nav"@[0] == 'n' && "nav"@[1] == 'a');
    assert("header"@[0] == 'h' && "header"@[1] == 'e');
    assert("footer"@[0] == 'f' && "footer"@[1] == 'o');
    assert("button"@[0] == 'b' && "button"@[1] == 'u');
    assert("form"@[0] == 'f' && "form"@[1] == 'o');
    assert("math"@[0] == 'm' && "math"@[1] == 'a');
    assert("h1"@[0] == 'h' && "h1"@[1] == '1');
    assert("img"@[0] == 'i' && "img"@[1] == 'm');
    assert("code"@[0] == 'c' && "code"@[1] == 'o');
    assert("tt"@[0] == 't' && "tt"@[1] == 't');
    assert("br"@[0] == 'b' && "br"@[1] == 'r');
    assert("ul"@[0] == 'u' && "ul"@[1] == 'l');
    assert("ol"@[0] == 'o' && "ol"@[1] == 'l');
    assert("thead"@[0] == 't' && "thead"@[1] == 'h');
    assert(forall|c: Seq<char>| !has_class(e, c));
}

/// Each list item adds one line to its list: the list's marker, a space and
/// the item's trimmed content; the items before it are kept as they were.
pub proof fn list_items_start_with_the_marker(
    s: Seq<NodeV>,
    x: ElementV,
    marker: char,
    head: bool,
    bib: Seq<Seq<char>>,
    tape: Answers,
    st: ImportState,
)
    requires
        x.name == "li"@,
    ensures
        list_items(s.push(NodeV::Element(x)), marker, head, bib, tape, st) == ({
            let (a, st1) = list_items(s, marker, head, bib, tape, st);
            let (b, st2) = nodes_out(x.children, head || is_thead(x), bib, tape, st1);
            (a + seq![marker, ' '] + trim(b) + "\n"@, st2)
        }),
{
    assert(s.push(NodeV::Element(x)).drop_last() =~= s);
}

/// A footnote's body: the children of the first `ltx_note_content` element
/// under the nodes (in document order), if any.
pub open spec fn note_in(
    s: Seq<NodeV>,
    head: bool,
    bib: Seq<Seq<char>>,
    tape: Answers,
    st: ImportState,
) -> Option<(Seq<char>, ImportState)>
    decreases s, 0int,
{
    if s.len() == 0 {
        None
    } else {
        match s[0] {
            NodeV::Element(x) => {
                let hx = head || is_thead(x);
                if has_class(x, "ltx_note_content"@) {
                    Some(nodes_out(x.children, hx, bib, tape, st))
                } else {
                    match note_in(x.children, hx, bib, tape, st) {
                        Some(r) => Some(r),
                        None => note_in(s.drop_first(), head, bib, tape, st),
                    }
                }
            },
            _ => note_in(s.drop_first(), head, bib, tape, st),
        }
    }
}

/// The items of a list: each `<li>` child, trimmed, after the marker.
pub open spec fn list_items(
    s: Seq<NodeV>,
    marker: char,
    head: bool,
    bib: Seq<Seq<char>>,
    tape: Answers,
    st: ImportState,
) -> (Seq<char>, ImportState)
    decreases s, 0int,
{
    if s.len() == 0 {
        (seq![], st)
    } else {
        let (a, st1) = list_items(s.drop_last(), marker, head, bib, tape, st);
        match s.last() {
            NodeV::Element(x) => if x.name == "li"@ {
                let (b, st2) = nodes_out(x.children, head || is_thead(x), bib, tape, st1);
                (a + seq![marker, ' '] + trim(b) + "\n"@, st2)
            } else {
                (a, st1)
            },
            _ => (a, st1),
        }
    }
}

/// The entries of a bibliography: each `ltx_bibitem` child element.
pub open spec fn bib_items(
    s: Seq<NodeV>,
    head: bool,
    bib: Seq<Seq<char>>,
    tape: Answers,
    st: ImportState,
) -> (Seq<char>, ImportState)
    decreases s, 0int,
{
    if s.len() == 0 {
        (seq![], st)
    } else {
        let (a, st1) = bib_items(s.drop_last(), head, bib, tape, st);
        match s.last() {
            NodeV::Element(x) => if has_class(x, "ltx_bibitem"@) {
                let (b, st2) = nodes_out(x.children, head || is_thead(x), bib, tape, st1);
                (a + bib_entry(x, b), st2)
            } else {
                (a, st1)
            },
            _ => (a, st1),
        }
    }
}

/// The rows of a table: every `<tr>` under the nodes, in document order, with
/// the cells under it; rows without cells are dropped.
pub open spec fn rows_in(
    s: Seq<NodeV>,
    head: bool,
    bib: Seq<Seq<char>>,
    tape: Answers,
    st: ImportState,
) -> (Seq<RawRow>, ImportState)
    decreases s, 0int,
{
    if s.len() == 0 {
        (seq![], st)
    } else {
        let (a, st1) = rows_in(s.drop_last(), head, bib, tape, st);
        match s.last() {
            NodeV::Element(x) => {
                let hx = head || is_thead(x);
                if x.name == "tr"@ {
                    let (cells, st2) = cells_in(x.children, hx, bib, tape, st1);
                    let (more, st3) = rows_in(x.children, hx, bib, tape, st2);
                    let row = if cells.len() > 0 {
                        seq![RawRow { header: head, cells }]
                    } else {
                        seq![]
                    };
                    (a + row + more, st3)
                } else {
                    let (more, st2) = rows_in(x.children, hx, bib, tape, st1);
                    (a + more, st2)
                }
            },
            _ => (a, st1),
        }
    }
}

/// The cells of a row: every `<td>` and `<th>` under the nodes, in document
/// order, each with its rendered body.
pub open spec fn cells_in(
    s: Seq<NodeV>,
    head: bool,
    bib: Seq<Seq<char>>,
    tape: Answers,
    st: ImportState,
) -> (Seq<RawCell>, ImportState)
    decreases s, 0int,
{
    if s.len() == 0 {
        (seq![], st)
    } else {
        let (a, st1) = cells_in(s.drop_last(), head, bib, tape, st);
        match s.last() {
            NodeV::Element(x) => {
                let hx = head || is_thead(x);
                if x.name == "td"@ || x.name == "th"@ {
                    let (b, st2) = nodes_out(x.children, hx, bib, tape, st1);
                    let cell = RawCell {
                        body: trim(b),
                        colspan: span_value(x.attrs, "colspan"@),
                        rowspan: span_value(x.attrs, "rowspan"@),
                        align: classes_align(x.classes, 0),
                    };
                    let (more, st3) = cells_in(x.children, hx, bib, tape, st2);
                    (a.push(cell) + more, st3)
                } else {
                    let (more, st2) = cells_in(x.children, hx, bib, tape, st1);
                    (a + more, st2)
                }
            },
            _ => (a, st1),
        }
    }
}

// =============================================================================
// Laws of the walk
// =============================================================================

/// No source was asked for again after the resolver gave bytes for it.
pub open spec fn asked_once(asked: Seq<Seq<char>>, tape: Answers) -> bool {
    forall|i: int, j: int|
        0 <= i < j < asked.len() && #[trigger] asked[i] == #[trigger] asked[j] ==> answer(tape, i)
            is None
}

/// A source is asked for again only when the resolver gave nothing for it
/// before, and every source the resolver gave bytes for has a name.
pub open spec fn fetched_once(st: ImportState, tape: Answers) -> bool {
    &&& asked_once(st.asked, tape)
    &&& forall|i: int|
        0 <= i < st.asked.len() && #[trigger] answer(tape, i) is Some ==> name_for(
            st.names,
            st.asked[i],
        ) is Some
}

proof fn lemma_name_for_push(names: Seq<(Seq<char>, Seq<char>)>, p: (Seq<char>, Seq<char>), x: Seq<char>)
    ensures
        name_for(names, x) is Some ==> name_for(names.push(p), x) == name_for(names, x),
        p.0 == x ==> name_for(names.push(p), x) is Some,
    decreases names.len(),
{
    if names.len() > 0 {
        assert(names.push(p).drop_first() =~= names.drop_first().push(p));
        lemma_name_for_push(names.drop_first(), p, x);
    } else {
        assert(names.push(p).drop_first() =~= Seq::<(Seq<char>, Seq<char>)>::empty());
    }
}

proof fn lemma_image_keeps(e: ElementV, tape: Answers, st: ImportState)
    requires
        fetched_once(st, tape),
    ensures
        fetched_once(image_out(e, tape, st).1, tape),
{
    match attr_of(e.attrs, "src"@) {
        None => {},
        Some(src) => match name_for(st.names, src) {
            Some(_) => {},
            None => {
                let st2 = image_out(e, tape, st).1;
                let j = st.asked.len() as int;
                assert forall|i: int| 0 <= i < st2.asked.len() && #[trigger] answer(tape, i) is Some implies name_for(
                    st2.names,
                    st2.asked[i],
                ) is Some by {
                    if i < j {
                        assert(st2.asked[i] == st.asked[i]);
                        lemma_name_for_push(st.names, (src, image_name(src)), st.asked[i]);
                    } else {
                        lemma_name_for_push(st.names, (src, image_name(src)), src);
                    }
                }
                assert forall|a: int, b: int|
                    0 <= a < b < st2.asked.len() && #[trigger] st2.asked[a] == #[trigger] st2.asked[b] implies answer(
                    tape,
                    a,
                ) is None by {
                    if b == j {
                        assert(st2.asked[a] == st.asked[a]);
                        if answer(tape, a) is Some {
                            assert(name_for(st.names, st.asked[a]) is Some);
                        }
                    } else {
                        assert(st2.asked[a] == st.asked[a]);
                        assert(st2.asked[b] == st.asked[b]);
                    }
                }
            },
        },
    }
}

proof fn lemma_nodes_keep(
    s: Seq<NodeV>,
    head: bool,
    bib: Seq<Seq<char>>,
    tape: Answers,
    st: ImportState,
)
    requires
        fetched_once(st, tape),
    ensures
        fetched_once(nodes_out(s, head, bib, tape, st).1, tape),
    decreases s, 0int,
{
    if s.len() > 0 {
        lemma_nodes_keep(s.drop_last(), head, bib, tape, st);
        let st1 = nodes_out(s.drop_last(), head, bib, tape, st).1;
        assert(nodes_out(s, head, bib, tape, st).1 == node_out(s.last(), head, bib, tape, st1).1);
        match s.last() {
            NodeV::Element(e) => {
                lemma_elem_keeps(e, head, bib, tape, st1);
                assert(node_out(s.last(), head, bib, tape, st1) == elem_out(e, head, bib, tape, st1));
            },
            _ => {
                assert(node_out(s.last(), head, bib, tape, st1).1 == st1);
            },
        }
    }
}

proof fn lemma_elem_keeps(
    e: ElementV,
    head: bool,
    bib: Seq<Seq<char>>,
    tape: Answers,
    st: ImportState,
)
    requires
        fetched_once(st, tape),
    ensures
        fetched_once(elem_out(e, head, bib, tape, st).1, tape),
    decreases e, 1int,
{
    let ch = head || is_thead(e);
    if is_skipped(e) {
    } else if has_class(e, "ltx_role_footnote"@) {
        let st1 = ImportState {
            stats: ImportStats { footnotes: bump(st.stats.footnotes), ..st.stats },
            ..st
        };
        lemma_note_keeps(e.children, ch, bib, tape, st1);
        lemma_nodes_keep(e.children, ch, bib, tape, st1);
    } else if has_class(e, "ltx_authors"@) {
        lemma_nodes_keep(e.children, ch, bib, tape, st);
    } else if has_class(e, "ltx_biblist"@) {
        lemma_bib_keeps(e.children, ch, bib, tape, st);
    } else if has_class(e, "ltx_font_italic"@) || has_class(e, "ltx_font_bold"@) {
        lemma_nodes_keep(e.children, ch, bib, tape, st);
    } else if e.name == "math"@ {
        assert(math_out(e, tape, st).1.asked == st.asked && math_out(e, tape, st).1.names == st.names);
    } else if e.name == "h1"@ && is_title(e, st) {
        assert(title_state(e, st).asked == st.asked && title_state(e, st).names == st.names);
    } else if e.name == "img"@ {
        lemma_image_keeps(e, tape, st);
    } else if e.name == "code"@ || e.name == "tt"@ || e.name == "br"@ {
    } else if e.name == "ul"@ || e.name == "ol"@ {
        let marker = if e.name == "ul"@ {
            '-'
        } else {
            '+'
        };
        lemma_list_keeps(e.children, marker, ch, bib, tape, st);
    } else if e.name == "table"@ {
        lemma_rows_keep(e.children, ch, bib, tape, st);
    } else {
        lemma_nodes_keep(e.children, ch, bib, tape, st);
        let (c, st1) = nodes_out(e.children, ch, bib, tape, st);
        assert(link_out(e, c, bib, st1).1.asked == st1.asked);
        assert(link_out(e, c, bib, st1).1.names == st1.names);
    }
}

proof fn lemma_note_keeps(
    s: Seq<NodeV>,
    head: bool,
    bib: Seq<Seq<char>>,
    tape: Answers,
    st: ImportState,
)
    requires
        fetched_once(st, tape),
    ensures
        note_in(s, head, bib, tape, st) matches Some(r) ==> fetched_once(r.1, tape),
    decreases s, 0int,
{
    if s.len() > 0 {
        match s[0] {
            NodeV::Element(x) => {
                let hx = head || is_thead(x);
                lemma_nodes_keep(x.children, hx, bib, tape, st);
                lemma_note_keeps(x.children, hx, bib, tape, st);
                lemma_note_keeps(s.drop_first(), head, bib, tape, st);
            },
            _ => {
                lemma_note_keeps(s.drop_first(), head, bib, tape, st);
            },
        }
    }
}

proof fn lemma_list_keeps(
    s: Seq<NodeV>,
    marker: char,
    head: bool,
    bib: Seq<Seq<char>>,
    tape: Answers,
    st: ImportState,
)
    requires
        fetched_once(st, tape),
    ensures
        fetched_once(list_items(s, marker, head, bib, tape, st).1, tape),
    decreases s, 0int,
{
    if s.len() > 0 {
        lemma_list_keeps(s.drop_last(), marker, head, bib, tape, st);
        let st1 = list_items(s.drop_last(), marker, head, bib, tape, st).1;
        match s.last() {
            NodeV::Element(x) => lemma_nodes_keep(x.children, head || is_thead(x), bib, tape, st1),
            _ => {},
        }
    }
}

proof fn lemma_bib_keeps(
    s: Seq<NodeV>,
    head: bool,
    bib: Seq<Seq<char>>,
    tape: Answers,
    st: ImportState,
)
    requires
        fetched_once(st, tape),
    ensures
        fetched_once(bib_items(s, head, bib, tape, st).1, tape),
    decreases s, 0int,
{
    if s.len() > 0 {
        lemma_bib_keeps(s.drop_last(), head, bib, tape, st);
        let st1 = bib_items(s.drop_last(), head, bib, tape, st).1;
        match s.last() {
            NodeV::Element(x) => lemma_nodes_keep(x.children, head || is_thead(x), bib, tape, st1),
            _ => {},
        }
    }
}

proof fn lemma_rows_keep(
    s: Seq<NodeV>,
    head: bool,
    bib: Seq<Seq<char>>,
    tape: Answers,
    st: ImportState,
)
    requires
        fetched_once(st, tape),
    ensures
        fetched_once(rows_in(s, head, bib, tape, st).1, tape),
    decreases s, 0int,
{
    if s.len() > 0 {
        lemma_rows_keep(s.drop_last(), head, bib, tape, st);
        let st1 = rows_in(s.drop_last(), head, bib, tape, st).1;
        match s.last() {
            NodeV::Element(x) => {
                let hx = head || is_thead(x);
                if x.name == "tr"@ {
                    lemma_cells_keep(x.children, hx, bib, tape, st1);
                    let st2 = cells_in(x.children, hx, bib, tape, st1).1;
                    lemma_rows_keep(x.children, hx, bib, tape, st2);
                } else {
                    lemma_rows_keep(x.children, hx, bib, tape, st1);
                }
            },
            _ => {},
        }
    }
}

proof fn lemma_cells_keep(
    s: Seq<NodeV>,
    head: bool,
    bib: Seq<Seq<char>>,
    tape: Answers,
    st: ImportState,
)
    requires
        fetched_once(st, tape),
    ensures
        fetched_once(cells_in(s, head, bib, tape, st).1, tape),
    decreases s, 0int,
{
    if s.len() > 0 {
        lemma_cells_keep(s.drop_last(), head, bib, tape, st);
        let st1 = cells_in(s.drop_last(), head, bib, tape, st).1;
        match s.last() {
            NodeV::Element(x) => {
                let hx = head || is_thead(x);
                if x.name == "td"@ || x.name == "th"@ {
                    lemma_nodes_keep(x.children, hx, bib, tape, st1);
                    let st2 = nodes_out(x.children, hx, bib, tape, st1).1;
                    lemma_cells_keep(x.children, hx, bib, tape, st2);
                } else {
                    lemma_cells_keep(x.children, hx, bib, tape, st1);
                }
            },
            _ => {},
        }
    }
}

/// An image is fetched once per source: the resolver is asked for a source
/// again only when it gave nothing for it before.
pub proof fn images_are_fetched_once(root: ElementV, tape: Answers)
    ensures
        asked_once(imported(root, tape).1.asked, tape),
{
    let bib = bib_ids_in(NodeV::Element(root));
    assert(fetched_once(start_state(), tape));
    match content_root_from(root, 0) {
        Some((c, h)) => lemma_nodes_keep(c.children, h || is_thead(c), bib, tape, start_state()),
        None => {},
    }
}

/// Replaying a capture serves, for each captured source, exactly the bytes
/// captured for it, which the wrapped resolver may give.
pub proof fn replay_serves_the_capture<R: AssetResolver>(inner: &R, v: Vec<(String, Vec<u8>)>)
    requires
        captured_from(inner, v),
    ensures
        forall|i: int|
            0 <= i < v@.len() ==> #[trigger] serves(v@, i) && inner.gives(
                v@[i].0@,
                Some(asset_map(v@)[v@[i].0@]),
            ),
{
    lemma_replay(v@);
    assert forall|i: int| 0 <= i < v@.len() implies #[trigger] serves(v@, i) && inner.gives(
        v@[i].0@,
        Some(asset_map(v@)[v@[i].0@]),
    ) by {
        assert(serves(v@, i));
        assert(inner.gives(v@[i].0@, Some(v@[i].1@)));
    }
}

/// The map of `v` serves the bytes of its pair `i` for the pair's source.
pub open spec fn serves(v: Seq<(String, Vec<u8>)>, i: int) -> bool {
    asset_map(v).contains_key(v[i].0@) && asset_map(v)[v[i].0@] == v[i].1@
}

proof fn lemma_replay(v: Seq<(String, Vec<u8>)>)
    requires
        distinct_sources(v),
    ensures
        forall|i: int| 0 <= i < v.len() ==> #[trigger] serves(v, i),
{
    assert forall|i: int| 0 <= i < v.len() implies #[trigger] serves(v, i) by {
        lemma_replay_at(v, i);
    }
}

proof fn lemma_replay_at(v: Seq<(String, Vec<u8>)>, i: int)
    requires
        distinct_sources(v),
        0 <= i < v.len(),
    ensures
        asset_map(v).contains_key(v[i].0@),
        asset_map(v)[v[i].0@] == v[i].1@,
    decreases v.len(),
{
    let d = v.drop_last();
    if i < v.len() - 1 {
        assert(distinct_sources(d)) by {
            assert forall|a: int, b: int| 0 <= a < b < d.len() implies d[a].0@ != d[b].0@ by {
                assert(d[a] == v[a]);
                assert(d[b] == v[b]);
            }
        }
        lemma_replay_at(d, i);
        assert(d[i] == v[i]);
        assert(v[i].0@ != v[v.len() - 1].0@);
        assert(v.last() == v[v.len() - 1]);
    } else {
        assert(v.last() == v[i]);
    }
}

// =============================================================================
// The importer
// =============================================================================

/// The bytes of `(name, bytes)` pairs.
pub open spec fn byte_pairs(v: Seq<(String, Vec<u8>)>) -> Seq<(Seq<char>, Seq<u8>)> {
    v.map_values(|p: (String, Vec<u8>)| (p.0@, p.1@))
}

/// The characters of `(source, name)` pairs.
pub open spec fn name_pairs(v: Seq<(String, String)>) -> Seq<(Seq<char>, Seq<char>)> {
    v.map_values(|p: (String, String)| (p.0@, p.1@))
}

/// The characters of an optional string.
pub open spec fn opt_chars(t: Option<String>) -> Option<Seq<char>> {
    match t {
        Some(s) => Some(s@),
        None => None,
    }
}

proof fn lemma_prefix_trans<T>(a: Seq<T>, b: Seq<T>, c: Seq<T>)
    requires
        prefix_of(a, b),
        prefix_of(b, c),
    ensures
        prefix_of(a, c),
{
    assert forall|i: int| 0 <= i < a.len() implies a[i] == c[i] by {
        assert(a[i] == b[i]);
        assert(b[i] == c[i]);
    }
}

proof fn lemma_extends_trans(a: Answers, b: Answers, c: Answers)
    requires
        extends(a, b),
        extends(b, c),
    ensures
        extends(a, c),
{
    lemma_prefix_trans(a.fetched, b.fetched, c.fetched);
    lemma_prefix_trans(a.formulas, b.formulas, c.formulas);
}

/// The walk's working state.
struct Importer {
    math: MathPipeline<Tex2TypstRs>,
    out_assets: Vec<(String, Vec<u8>)>,
    asset_names: Vec<(String, String)>,
    title: Option<String>,
    stats: ImportStats,
    bib_ids: Vec<String>,
    /// The sources asked for, in order.
    asked: Ghost<Seq<Seq<char>>>,
    /// The resolver's answers, in order.
    log: Ghost<Answers>,
}

impl Importer {
    spec fn state(&self) -> ImportState {
        ImportState {
            title: opt_chars(self.title),
            stats: self.stats,
            assets: byte_pairs(self.out_assets@),
            names: name_pairs(self.asset_names@),
            asked: self.asked@,
            rendered: self.log@.formulas.len(),
        }
    }

    spec fn bib(&self) -> Seq<Seq<char>> {
        strings_view(self.bib_ids@)
    }

    /// Every answer in the log is one the resolver may give for its source.
    spec fn answered<R: AssetResolver>(&self, res: &R) -> bool {
        &&& self.asked@.len() == self.log@.fetched.len()
        &&& forall|i: int| 0 <= i < self.log@.fetched.len() ==> res.gives(self.asked@[i], self.log@.fetched[i])
        &&& forall|i: int| 0 <= i < self.log@.formulas.len() ==> (match (#[trigger] self.log@.formulas[i]).1 {
            Some(b) => usable_svg(b),
            None => true,
        })
    }

    /// The bibliography is unchanged and the log only grew.
    spec fn follows(&self, before: &Importer) -> bool {
        &&& self.bib_ids@ == before.bib_ids@
        &&& extends(before.log@, self.log@)
    }

    /// The name given earlier to the image from `src`.
    fn name_of(&self, src: &[char]) -> (r: Option<Vec<char>>)
        ensures
            match name_for(name_pairs(self.asset_names@), src@) {
                Some(n) => r matches Some(x) && x@ == n,
                None => r is None,
            },
    {
        let ghost np = name_pairs(self.asset_names@);
        let mut i: usize = 0;
        proof {
            assert(np.skip(0) =~= np);
        }
        while i < self.asset_names.len()
            invariant
                i <= self.asset_names@.len(),
                np == name_pairs(self.asset_names@),
                name_for(np, src@) == name_for(np.skip(i as int), src@),
            decreases self.asset_names@.len() - i,
        {
            proof {
                assert(np.skip(i as int)[0] == np[i as int]);
                assert(np[i as int] == (self.asset_names@[i as int].0@, self.asset_names@[i as int].1@));
                assert(np.skip(i as int).drop_first() =~= np.skip(i + 1));
            }
            let k = chars_of(self.asset_names[i].0.as_str());
            if eq_chars(&k, src) {
                return Some(chars_of(self.asset_names[i].1.as_str()));
            }
            i = i + 1;
        }
        None
    }

    /// An `<img>`.
    fn image<R: AssetResolver>(&mut self, res: &R, e: &HtmlElement) -> (r: String)
        requires
            old(self).answered(res),
        ensures
            final(self).answered(res),
            final(self).follows(old(self)),
            forall|t: Answers| #[trigger] extends(final(self).log@, t) ==> image_out(
                element_view(*e),
                t,
                old(self).state(),
            ) == (r@, final(self).state()),
    {
        let src = match e.attr("src") {
            Some(v) => v,
            None => {
                let empty = String::new();
                proof {
                    assert(extends(self.log@, self.log@));
                    assert(empty@ =~= seq![]);
                }
                return empty;
            },
        };
        let sv = chars_of(src.as_str());
        if let Some(name) = self.name_of(&sv) {
            let mut out: Vec<char> = Vec::new();
            push_str(&mut out, "#box(image(");
            let q = typst_string(string_of(&name).as_str());
            push_str(&mut out, q.as_str());
            push_str(&mut out, "))");
            proof {
                assert(out@ =~= image_markup(name@));
                assert(extends(self.log@, self.log@));
            }
            return string_of(&out);
        }
        let fetched = res.fetch(src.as_str());
        let ghost before = self.state();
        let ghost before_log = self.log@;
        proof {
            self.asked@ = self.asked@.push(src@);
            self.log@ = Answers { fetched: self.log@.fetched.push(bytes_view(fetched)), ..self.log@ };
            assert(extends(before_log, self.log@));
        }
        match fetched {
            None => {
                self.stats.images_failed = self.stats.images_failed.wrapping_add(1);
                let empty = String::new();
                proof {
                    assert(empty@ =~= seq![]);
                    assert forall|t: Answers| #[trigger] extends(self.log@, t) implies image_out(
                        element_view(*e),
                        t,
                        before,
                    ) == (empty@, self.state()) by {
                        assert(t.fetched[before_log.fetched.len() as int] == self.log@.fetched[before_log.fetched.len() as int]);
                    }
                }
                empty
            },
            Some(bytes) => {
                let mut name: Vec<char> = Vec::new();
                push_str(&mut name, "img-");
                push_hex_padded(&mut name, hash(src.as_str()), 16);
                let ext = ext_of(src.as_str());
                push_str(&mut name, ext.as_str());
                proof {
                    assert(name@ =~= image_name(src@));
                }
                self.out_assets.push((string_of(&name), bytes));
                self.asset_names.push((string_of(&sv), string_of(&name)));
                self.stats.images_ok = self.stats.images_ok.wrapping_add(1);
                let mut out: Vec<char> = Vec::new();
                push_str(&mut out, "#box(image(");
                let q = typst_string(string_of(&name).as_str());
                push_str(&mut out, q.as_str());
                push_str(&mut out, "))");
                proof {
                    assert(out@ =~= image_markup(image_name(src@)));
                    assert(byte_pairs(self.out_assets@) =~= before.assets.push(
                        (image_name(src@), bytes@),
                    ));
                    assert(name_pairs(self.asset_names@) =~= before.names.push(
                        (src@, image_name(src@)),
                    ));
                    assert forall|t: Answers| #[trigger] extends(self.log@, t) implies image_out(
                        element_view(*e),
                        t,
                        before,
                    ) == (out@, self.state()) by {
                        assert(t.fetched[before_log.fetched.len() as int] == self.log@.fetched[before_log.fetched.len() as int]);
                    }
                }
                string_of(&out)
            },
        }
    }

    /// A `<math>` element.
    fn math<R: AssetResolver>(&mut self, res: &R, e: &HtmlElement) -> (r: String)
        requires
            old(self).answered(res),
        ensures
            final(self).answered(res),
            final(self).follows(old(self)),
            forall|t: Answers| #[trigger] extends(final(self).log@, t) ==> math_out(
                element_view(*e),
                t,
                old(self).state(),
            ) == (r@, final(self).state()),
    {
        let ghost st0 = self.state();
        proof {
            assert(extends(self.log@, self.log@));
        }
        let display = match e.attr("display") {
            Some(v) => eq_str(&chars_of(v.as_str()), "block"),
            None => false,
        };
        let a = match find_annotation(e) {
            Some(a) => a,
            None => {
                let empty = String::new();
                proof {
                    assert(empty@ =~= seq![]);
                }
                return empty;
            },
        };
        let tex = text_content(a);
        let rendered = self.math.render(&MathSource { tex: tex.as_str(), display });
        let ghost (c, compiled, svg) = choose|c: Result<Seq<char>, Seq<char>>, compiled: bool, svg: Option<Seq<u8>>|
            {
                &&& self.math.engine().converts(normalized(tex@), c)
                &&& svg matches Some(b) ==> usable_svg(b)
                &&& render_view(rendered) == math_output(c, tex@, display, compiled, svg)
            };
        let ghost log0 = self.log@;
        proof {
            self.log@ = Answers { formulas: self.log@.formulas.push((compiled, svg)), ..self.log@ };
            assert(prefix_of(log0.fetched, self.log@.fetched));
            assert(prefix_of(log0.formulas, self.log@.formulas));
        }
        let ghost before = self.state();
        let ghost rv = render_view(rendered);
        let MathRender { typst, tier, assets } = rendered;
        match tier {
            Tier::Tex => {
                self.stats.math_tex = self.stats.math_tex.wrapping_add(1);
            },
            Tier::Image => {
                self.stats.math_image = self.stats.math_image.wrapping_add(1);
            },
            Tier::Raw => {
                self.stats.math_raw = self.stats.math_raw.wrapping_add(1);
            },
        }
        let mut assets = assets;
        let ghost all = assets@;
        let ghost start = self.out_assets@;
        let ghost mid = *self;
        proof {
            assert(assets@ =~= all.skip(0));
            assert(byte_pairs(start) + assets_view(all.take(0)) =~= byte_pairs(start));
        }
        while assets.len() > 0
            invariant
                assets@ == all.skip(all.len() - assets@.len()),
                assets@.len() <= all.len(),
                byte_pairs(self.out_assets@) == byte_pairs(start) + assets_view(
                    all.take(all.len() - assets@.len()),
                ),
                self.bib_ids@ == mid.bib_ids@,
                self.log@ == mid.log@,
                self.asked@ == mid.asked@,
                self.stats == mid.stats,
                self.title == mid.title,
                self.asset_names@ == mid.asset_names@,
            decreases assets@.len(),
        {
            let ghost k = all.len() - assets@.len();
            let x = assets.remove(0);
            proof {
                assert(x == all[k]);
                assert(assets@ =~= all.skip(k + 1));
            }
            let ghost prev = self.out_assets@;
            self.out_assets.push((x.name, x.svg));
            proof {
                assert(byte_pairs(self.out_assets@) =~= byte_pairs(prev).push(
                    (all[k].name@, all[k].svg@),
                ));
                assert(assets_view(all.take(k + 1)) =~= assets_view(all.take(k)).push(
                    (all[k].name@, all[k].svg@),
                ));
                assert(byte_pairs(self.out_assets@) =~= byte_pairs(start) + assets_view(
                    all.take(k + 1),
                ));
            }
        }
        proof {
            assert(all.take(all.len() as int) =~= all);
        }
        let mut out: Vec<char> = Vec::new();
        if display {
            push_str(&mut out, "\n\n");
            push_str(&mut out, typst.as_str());
            push_str(&mut out, "\n\n");
        } else {
            push_str(&mut out, typst.as_str());
        }
        proof {
            assert(rv.2 == assets_view(all));
            if display {
                assert(out@ =~= "\n\n"@ + typst@ + "\n\n"@);
            } else {
                assert(out@ =~= typst@);
            }
            assert forall|t: Answers| #[trigger] extends(self.log@, t) implies formula_at(
                t,
                st0.rendered as int,
            ) == (compiled, svg) by {
                assert(t.formulas[log0.formulas.len() as int] == self.log@.formulas[log0.formulas.len() as int]);
            }
        }
        string_of(&out)
    }

    /// Whether `frag` is the id of a bibliography entry.
    fn is_bib_id(&self, frag: &[char]) -> (r: bool)
        ensures
            r == self.bib().contains(frag@),
    {
        let mut i: usize = 0;
        while i < self.bib_ids.len()
            invariant
                i <= self.bib_ids@.len(),
                forall|k: int| 0 <= k < i ==> self.bib()[k] != frag@,
            decreases self.bib_ids@.len() - i,
        {
            let k = chars_of(self.bib_ids[i].as_str());
            proof {
                assert(self.bib()[i as int] == self.bib_ids@[i as int]@);
            }
            if eq_chars(&k, frag) {
                return true;
            }
            i = i + 1;
        }
        false
    }

    /// An `<a>` around its rendered children.
    fn link(&mut self, e: &HtmlElement, children: String) -> (r: String)
        ensures
            final(self).bib_ids@ == old(self).bib_ids@,
            final(self).log@ == old(self).log@,
            link_out(element_view(*e), children@, old(self).bib(), old(self).state()) == (
                r@,
                final(self).state(),
            ),
    {
        match e.attr("href") {
            Some(h) => {
                let hv = chars_of(h.as_str());
                if hv.len() > 0 && hv[0] == '#' {
                    let frag = slice_chars(&hv, 1, hv.len());
                    proof {
                        assert(frag@ =~= hv@.skip(1));
                    }
                    if self.is_bib_id(&frag) {
                        self.stats.citations = self.stats.citations.wrapping_add(1);
                        let mut out: Vec<char> = Vec::new();
                        push_str(&mut out, "#link(<");
                        let l = sanitize_label(string_of(&frag).as_str());
                        push_str(&mut out, l.as_str());
                        push_str(&mut out, ">)[");
                        push_str(&mut out, children.as_str());
                        push_str(&mut out, "]");
                        proof {
                            assert(out@ =~= "#link(<"@ + sanitized(hv@.skip(1)) + ">)["@ + children@
                                + "]"@);
                        }
                        string_of(&out)
                    } else {
                        children
                    }
                } else {
                    let mut out: Vec<char> = Vec::new();
                    push_str(&mut out, "#link(");
                    let q = typst_string(h.as_str());
                    push_str(&mut out, q.as_str());
                    push_str(&mut out, ")[");
                    push_str(&mut out, children.as_str());
                    push_str(&mut out, "]");
                    proof {
                        assert(out@ =~= "#link("@ + quoted(h@) + ")["@ + children@ + "]"@);
                    }
                    string_of(&out)
                }
            },
            None => children,
        }
    }
}

/// The first `TeX` annotation under `e`, in document order.
fn find_annotation<'a>(e: &'a HtmlElement) -> (r: Option<&'a HtmlElement>)
    ensures
        match annotation_in(element_view(*e).children) {
            Some(a) => r matches Some(x) && element_view(*x) == a,
            None => r is None,
        },
    decreases e,
{
    let ghost cs = element_view(*e).children;
    proof {
        lemma_nodes_view(e.children@);
        assert(cs.skip(0) =~= cs);
    }
    let mut i: usize = 0;
    while i < e.children.len()
        invariant
            i <= e.children@.len(),
            cs == nodes_view(e.children@),
            cs.len() == e.children@.len(),
            forall|k: int| 0 <= k < cs.len() ==> cs[k] == node_view(#[trigger] e.children@[k]),
            annotation_in(cs) == annotation_in(cs.skip(i as int)),
        decreases e.children@.len() - i,
    {
        proof {
            assert(cs.skip(i as int)[0] == cs[i as int]);
            assert(cs.skip(i as int).drop_first() =~= cs.skip(i + 1));
        }
        match &e.children[i] {
            HtmlNode::Element(x) => {
                proof {
                    assert(cs[i as int] == NodeV::Element(element_view(*x)));
                }
                let is_tex = x.is_named("annotation") && match x.attr("encoding") {
                    Some(v) => eq_str(&chars_of(v.as_str()), "application/x-tex"),
                    None => false,
                };
                proof {
                    assert(is_tex == (element_view(*x).name == "annotation"@ && attr_of(
                        element_view(*x).attrs,
                        "encoding"@,
                    ) == Some("application/x-tex"@)));
                    assert(annotation_at(cs[i as int]) == if is_tex {
                        Some(element_view(*x))
                    } else {
                        annotation_in(element_view(*x).children)
                    });
                }
                if is_tex {
                    return Some(x);
                }
                proof {
                    assert(decreases_to!(e => e.children));
                    assert(decreases_to!(e.children => e.children@));
                    assert(decreases_to!(e.children@ => e.children@[i as int]));
                }
                match find_annotation(x) {
                    Some(a) => {
                        return Some(a);
                    },
                    None => {},
                }
            },
            _ => {},
        }
        i = i + 1;
    }
    None
}

/// Whether an element is never emitted.
fn skipped(e: &HtmlElement) -> (r: bool)
    ensures
        r == is_skipped(element_view(*e)),
{
    e.is_named("script") || e.is_named("style") || e.is_named("nav") || e.is_named("header")
        || e.is_named("footer") || e.is_named("button") || e.is_named("form") || e.has_class(
        "ltx_TOC",
    ) || e.has_class("ltx_page_navbar") || e.has_class("ltx_page_header") || e.has_class(
        "ltx_page_footer",
    ) || e.has_class("ltx_pagination") || e.has_class("ltx_rdf") || e.has_class(
        "ltx_role_footnotemark",
    )
}

/// Whether an element makes its descendants header rows.
fn thead(e: &HtmlElement) -> (r: bool)
    ensures
        r == is_thead(element_view(*e)),
{
    e.is_named("thead") || e.has_class("ltx_thead")
}

// =============================================================================
// Table layout
// =============================================================================

/// A collected cell.
struct RowCell {
    body: String,
    colspan: usize,
    rowspan: usize,
    align: Option<Align>,
}

/// A collected row.
struct Row {
    header: bool,
    cells: Vec<RowCell>,
}

spec fn raw_cell(c: RowCell) -> RawCell {
    RawCell { body: c.body@, colspan: c.colspan, rowspan: c.rowspan, align: c.align }
}

spec fn raw_cells(v: Seq<RowCell>) -> Seq<RawCell> {
    v.map_values(|c: RowCell| raw_cell(c))
}

spec fn raw_row(r: Row) -> RawRow {
    RawRow { header: r.header, cells: raw_cells(r.cells@) }
}

spec fn raw_rows(v: Seq<Row>) -> Seq<RawRow> {
    v.map_values(|r: Row| raw_row(r))
}

/// The width of a row.
fn width_of(cells: &Vec<RowCell>) -> (w: usize)
    ensures
        w == row_width(raw_cells(cells@)),
{
    let ghost rc = raw_cells(cells@);
    let mut w: usize = 0;
    let mut j: usize = 0;
    while j < cells.len()
        invariant
            j <= cells@.len(),
            rc == raw_cells(cells@),
            w == row_width(rc.take(j as int)),
        decreases cells@.len() - j,
    {
        proof {
            assert(rc.take(j + 1).drop_last() =~= rc.take(j as int));
            assert(rc.take(j + 1).last() == raw_cell(cells@[j as int]));
        }
        w = w.wrapping_add(cells[j].colspan);
        j = j + 1;
    }
    proof {
        assert(rc.take(cells@.len() as int) =~= rc);
    }
    w
}

/// The alignment of the first aligned cell starting at column `c`.
fn row_align(cells: &Vec<RowCell>, c: usize) -> (r: Option<Align>)
    ensures
        r == row_align_at(raw_cells(cells@), 0, c),
{
    let ghost rc = raw_cells(cells@);
    let mut col: usize = 0;
    let mut j: usize = 0;
    proof {
        assert(rc.skip(0) =~= rc);
    }
    while j < cells.len()
        invariant
            j <= cells@.len(),
            rc == raw_cells(cells@),
            row_align_at(rc, 0, c) == row_align_at(rc.skip(j as int), col, c),
        decreases cells@.len() - j,
    {
        proof {
            assert(rc.skip(j as int)[0] == raw_cell(cells@[j as int]));
            assert(rc.skip(j as int).drop_first() =~= rc.skip(j + 1));
        }
        if col == c && cells[j].align.is_some() {
            return cells[j].align;
        }
        col = col.wrapping_add(cells[j].colspan);
        j = j + 1;
    }
    None
}

/// The alignment column `c` takes from header or body rows.
fn rows_align(rows: &Vec<Row>, header: bool, c: usize) -> (r: Option<Align>)
    ensures
        r == align_at(raw_rows(rows@), header, c),
{
    let ghost rr = raw_rows(rows@);
    let mut i: usize = 0;
    proof {
        assert(rr.skip(0) =~= rr);
    }
    while i < rows.len()
        invariant
            i <= rows@.len(),
            rr == raw_rows(rows@),
            align_at(rr, header, c) == align_at(rr.skip(i as int), header, c),
        decreases rows@.len() - i,
    {
        proof {
            assert(rr.skip(i as int)[0] == raw_row(rows@[i as int]));
            assert(rr.skip(i as int).drop_first() =~= rr.skip(i + 1));
        }
        if rows[i].header == header {
            let a = row_align(&rows[i].cells, c);
            if a.is_some() {
                return a;
            }
        }
        i = i + 1;
    }
    None
}

/// The cells of a row for the grid, padded to `columns` when `pad`.
fn grid_cells(cells: &Vec<RowCell>, columns: usize, pad: bool) -> (r: Vec<Cell>)
    ensures
        crate::table::row_view(r@) == grid_row(raw_cells(cells@), columns, pad),
{
    let ghost rc = raw_cells(cells@);
    let ghost base = rc.map_values(
        |c: RawCell| CellV { body: c.body, colspan: c.colspan, rowspan: c.rowspan },
    );
    let mut out: Vec<Cell> = Vec::new();
    let mut j: usize = 0;
    while j < cells.len()
        invariant
            j <= cells@.len(),
            rc == raw_cells(cells@),
            base == rc.map_values(
                |c: RawCell| CellV { body: c.body, colspan: c.colspan, rowspan: c.rowspan },
            ),
            crate::table::row_view(out@) =~= base.take(j as int),
        decreases cells@.len() - j,
    {
        let b = cells[j].body.clone();
        let ghost prev = out@;
        out.push(Cell { body: b, colspan: cells[j].colspan, rowspan: cells[j].rowspan });
        proof {
            assert(crate::table::row_view(out@) =~= crate::table::row_view(prev).push(
                crate::table::cell_view(out@[j as int]),
            ));
            assert(base[j as int] == CellV {
                body: cells@[j as int].body@,
                colspan: cells@[j as int].colspan,
                rowspan: cells@[j as int].rowspan,
            });
            assert(crate::table::row_view(out@) =~= base.take(j + 1));
        }
        j = j + 1;
    }
    proof {
        assert(base.take(cells@.len() as int) =~= base);
    }
    let w = width_of(cells);
    if pad && w < columns {
        let mut k: usize = w;
        while k < columns
            invariant
                w <= k <= columns,
                crate::table::row_view(out@) =~= base + Seq::new(
                    (k - w) as nat,
                    |i: int| empty_cell(),
                ),
            decreases columns - k,
        {
            let ghost prev = out@;
            out.push(Cell { body: String::new(), colspan: 1, rowspan: 1 });
            proof {
                assert(out@[out@.len() - 1].body@ =~= seq![]);
                assert(crate::table::row_view(out@) =~= crate::table::row_view(prev).push(
                    empty_cell(),
                ));
                assert(crate::table::row_view(out@) =~= base + Seq::new(
                    (k + 1 - w) as nat,
                    |i: int| empty_cell(),
                ));
            }
            k = k + 1;
        }
    }
    out
}

/// The `#table` block for collected rows.
fn layout(rows: &Vec<Row>) -> (r: String)
    ensures
        r@ == table_out(raw_rows(rows@)),
{
    let ghost rr = raw_rows(rows@);
    let mut columns: usize = 0;
    let mut any_span = false;
    let mut i: usize = 0;
    while i < rows.len()
        invariant
            i <= rows@.len(),
            rr == raw_rows(rows@),
            columns == max_width(rr.take(i as int)),
            any_span == exists|a: int, b: int|
                0 <= a < i && 0 <= b < rr[a].cells.len() && #[trigger] rr[a].cells[b].rowspan > 1,
        decreases rows@.len() - i,
    {
        proof {
            assert(rr.take(i + 1).drop_last() =~= rr.take(i as int));
            assert(rr.take(i + 1).last() == raw_row(rows@[i as int]));
        }
        let w = width_of(&rows[i].cells);
        if w > columns {
            columns = w;
        }
        let mut j: usize = 0;
        while j < rows[i].cells.len()
            invariant
                i < rows@.len(),
                j <= rows@[i as int].cells@.len(),
                rr == raw_rows(rows@),
                any_span == ((exists|a: int, b: int|
                    0 <= a < i && 0 <= b < rr[a].cells.len() && #[trigger] rr[a].cells[b].rowspan
                        > 1) || (exists|b: int| 0 <= b < j && #[trigger] rr[i as int].cells[b].rowspan > 1)),
            decreases rows@[i as int].cells@.len() - j,
        {
            proof {
                assert(rr[i as int].cells[j as int] == raw_cell(rows@[i as int].cells@[j as int]));
                assert(rr[i as int].cells[j as int].rowspan == rows@[i as int].cells@[j as int].rowspan);
            }
            let ghost prev_span = any_span;
            if rows[i].cells[j].rowspan > 1 {
                any_span = true;
            }
            proof {
                if !any_span {
                    assert forall|b: int| 0 <= b < j + 1 implies !(#[trigger] rr[i as int].cells[b].rowspan > 1) by {
                        if b < j {
                        } else {
                            assert(b == j);
                        }
                    }
                }
            }
            j = j + 1;
        }
        proof {
            assert(rr[i as int].cells.len() == rows@[i as int].cells@.len());
            if any_span {
                if exists|b: int| 0 <= b < j && #[trigger] rr[i as int].cells[b].rowspan > 1 {
                    let b = choose|b: int| 0 <= b < j && #[trigger] rr[i as int].cells[b].rowspan > 1;
                    assert(rr[i as int].cells[b].rowspan > 1);
                }
            }
        }
        i = i + 1;
    }
    proof {
        assert(rr.take(rows@.len() as int) =~= rr);
    }
    if columns == 0 {
        let empty = String::new();
        proof {
            assert(empty@ =~= seq![]);
        }
        return empty;
    }
    let pad = !any_span;
    let mut aligns: Vec<Align> = Vec::new();
    let mut c: usize = 0;
    while c < columns
        invariant
            c <= columns,
            rr == raw_rows(rows@),
            aligns@ =~= Seq::new(c as nat, |k: int| column_alignment(rr, k as usize)),
        decreases columns - c,
    {
        let a = match rows_align(rows, false, c) {
            Some(a) => a,
            None => match rows_align(rows, true, c) {
                Some(a) => a,
                None => Align::Left,
            },
        };
        aligns.push(a);
        c = c + 1;
    }
    let mut header_rows: usize = 0;
    proof {
        assert(rr.skip(0) =~= rr);
    }
    while header_rows < rows.len() && rows[header_rows].header
        invariant
            header_rows <= rows@.len(),
            rr == raw_rows(rows@),
            header_count(rr) == header_rows + header_count(rr.skip(header_rows as int)),
        decreases rows@.len() - header_rows,
    {
        proof {
            assert(rr.skip(header_rows as int)[0] == raw_row(rows@[header_rows as int]));
            assert(rr.skip(header_rows as int).drop_first() =~= rr.skip(header_rows + 1));
        }
        header_rows = header_rows + 1;
    }
    proof {
        if header_rows < rows@.len() {
            assert(rr.skip(header_rows as int)[0] == raw_row(rows@[header_rows as int]));
        }
    }
    let mut grid: Vec<Vec<Cell>> = Vec::new();
    let mut r: usize = 0;
    while r < rows.len()
        invariant
            r <= rows@.len(),
            rr == raw_rows(rows@),
            grid@.len() == r,
            forall|k: int|
                0 <= k < r ==> #[trigger] crate::table::row_view(grid@[k]@) == grid_row(
                    rr[k].cells,
                    columns,
                    pad,
                ),
        decreases rows@.len() - r,
    {
        let g = grid_cells(&rows[r].cells, columns, pad);
        grid.push(g);
        r = r + 1;
    }
    let t = Table { columns, aligns, header_rows, rows: grid };
    let out = t.render();
    proof {
        assert(crate::table::rows_view(t.rows@) =~= rr.map_values(
            |x: RawRow| grid_row(x.cells, columns, pad),
        ));
        assert(pad == !any_rowspan(rr));
    }
    out
}

// =============================================================================
// Pieces of markup
// =============================================================================

/// The `=` run of a heading followed by its trimmed text.
fn heading_text(depth: usize, c: &str) -> (r: String)
    ensures
        r@ == heading_markup(depth as nat, c@),
{
    let mut out: Vec<char> = Vec::new();
    push_str(&mut out, "\n");
    let ghost start = out@;
    let mut k: usize = 0;
    while k < depth
        invariant
            k <= depth,
            out@ == start + equals_run(k as nat),
        decreases depth - k,
    {
        out.push('=');
        k = k + 1;
    }
    push_str(&mut out, " ");
    let t = trim_chars(&chars_of(c));
    push_all(&mut out, &t);
    push_str(&mut out, "\n\n");
    proof {
        assert(out@ =~= heading_markup(depth as nat, c@));
    }
    string_of(&out)
}

/// The author block.
fn authors_text(c: &str) -> (r: String)
    ensures
        r@ == authors_markup(c@),
{
    proof {
        reveal_strlit("&");
        reveal_strlit("");
        assert(""@ =~= Seq::<char>::empty());
    }
    let v = chars_of(c);
    let inner = trim_chars(&replace_str(&v, "&", ""));
    if inner.len() == 0 {
        let empty = String::new();
        proof {
            assert(empty@ =~= seq![]);
        }
        empty
    } else {
        let mut out: Vec<char> = Vec::new();
        push_str(&mut out, "\n#align(center)[");
        push_all(&mut out, &inner);
        push_str(&mut out, "]\n\n");
        proof {
            assert(out@ =~= authors_markup(c@));
        }
        string_of(&out)
    }
}

/// A bibliography entry.
fn bib_entry_text(x: &HtmlElement, body: &str) -> (r: String)
    ensures
        r@ == bib_entry(element_view(*x), body@),
{
    let b = trim_chars(&chars_of(body));
    if b.len() == 0 {
        let empty = String::new();
        proof {
            assert(empty@ =~= seq![]);
        }
        return empty;
    }
    let mut out: Vec<char> = Vec::new();
    push_str(&mut out, "#block(below: 0.65em)[#par(hanging-indent: 1.5em)[");
    push_all(&mut out, &b);
    push_str(&mut out, "]]");
    let ghost mid = out@;
    match x.attr("id") {
        Some(id) => {
            push_str(&mut out, " <");
            let l = sanitize_label(id.as_str());
            push_str(&mut out, l.as_str());
            push_str(&mut out, ">");
        },
        None => {},
    }
    push_str(&mut out, "\n");
    proof {
        assert(out@ =~= bib_entry(element_view(*x), body@));
    }
    string_of(&out)
}

/// `pre`, `c` and `post` one after the other.
fn around(pre: &str, c: &str, post: &str) -> (r: String)
    ensures
        r@ == pre@ + c@ + post@,
{
    let mut out: Vec<char> = Vec::new();
    push_str(&mut out, pre);
    push_str(&mut out, c);
    push_str(&mut out, post);
    proof {
        assert(out@ =~= pre@ + c@ + post@);
    }
    string_of(&out)
}

/// `pre`, the trimmed `c` and `post` one after the other.
fn around_trimmed(pre: &str, c: &str, post: &str) -> (r: String)
    ensures
        r@ == pre@ + trim(c@) + post@,
{
    let t = trim_chars(&chars_of(c));
    let mut out: Vec<char> = Vec::new();
    push_str(&mut out, pre);
    push_all(&mut out, &t);
    push_str(&mut out, post);
    proof {
        assert(out@ =~= pre@ + trim(c@) + post@);
    }
    string_of(&out)
}

// =============================================================================
// The walk, executed
// =============================================================================

impl Importer {
    /// The markup of `e`'s children; `head` tells whether `e` or one of its
    /// ancestors is a table header.
    fn children<R: AssetResolver>(&mut self, res: &R, e: &HtmlElement, head: bool) -> (r: String)
        requires
            old(self).answered(res),
        ensures
            final(self).answered(res),
            final(self).follows(old(self)),
            forall|t: Answers| #[trigger] extends(final(self).log@, t) ==> nodes_out(
                element_view(*e).children,
                head,
                old(self).bib(),
                t,
                old(self).state(),
            ) == (r@, final(self).state()),
        decreases e, 0int,
    {
        let ghost cs = element_view(*e).children;
        let ghost st0 = self.state();
        let ghost bib0 = self.bib();
        let ghost self0 = *self;
        proof {
            lemma_nodes_view(e.children@);
            assert(extends(self.log@, self.log@));
        }
        let mut out: Vec<char> = Vec::new();
        let mut i: usize = 0;
        while i < e.children.len()
            invariant
                i <= e.children@.len(),
                cs == nodes_view(e.children@),
                cs.len() == e.children@.len(),
                forall|k: int| 0 <= k < cs.len() ==> cs[k] == node_view(#[trigger] e.children@[k]),
                self.answered(res),
                self.follows(&self0),
                bib0 == self.bib(),
                bib0 == self0.bib(),
                st0 == self0.state(),
                forall|t: Answers| #[trigger] extends(self.log@, t) ==> nodes_out(
                    cs.take(i as int),
                    head,
                    bib0,
                    t,
                    st0,
                ) == (out@, self.state()),
            decreases e.children@.len() - i,
        {
            let ghost log_i = self.log@;
            let ghost st_i = self.state();
            let ghost out_i = out@;
            proof {
                assert(cs.take(i + 1).drop_last() =~= cs.take(i as int));
                assert(cs.take(i + 1).last() == cs[i as int]);
            }
            match &e.children[i] {
                HtmlNode::Element(x) => {
                    proof {
                        assert(decreases_to!(e => e.children));
                        assert(decreases_to!(e.children => e.children@));
                        assert(decreases_to!(e.children@ => e.children@[i as int]));
                        assert(cs[i as int] == NodeV::Element(element_view(*x)));
                    }
                    let r = self.element(res, x, head);
                    push_str(&mut out, r.as_str());
                    proof {
                        lemma_extends_trans(self0.log@, log_i, self.log@);
                        assert forall|t: Answers| #[trigger] extends(self.log@, t) implies nodes_out(
                            cs.take(i + 1),
                            head,
                            bib0,
                            t,
                            st0,
                        ) == (out@, self.state()) by {
                            lemma_extends_trans(log_i, self.log@, t);
                            assert(nodes_out(cs.take(i as int), head, bib0, t, st0) == (out_i, st_i));
                            assert(elem_out(element_view(*x), head, bib0, t, st_i) == (r@, self.state()));
                            assert(node_out(cs[i as int], head, bib0, t, st_i) == (r@, self.state()));
                            assert(out@ == out_i + r@);
                        }
                    }
                },
                HtmlNode::Text(tx) => {
                    let c = collapse_ws(tx.as_str());
                    let esc = escape_inline(c.as_str());
                    push_str(&mut out, esc.as_str());
                    proof {
                        assert(cs[i as int] == NodeV::Text(tx@));
                        assert forall|t: Answers| #[trigger] extends(self.log@, t) implies nodes_out(
                            cs.take(i + 1),
                            head,
                            bib0,
                            t,
                            st0,
                        ) == (out@, self.state()) by {
                            assert(nodes_out(cs.take(i as int), head, bib0, t, st0) == (out_i, st_i));
                            assert(node_out(cs[i as int], head, bib0, t, st_i) == (esc@, st_i));
                            assert(out@ == out_i + esc@);
                        }
                    }
                },
                HtmlNode::Other => {
                    proof {
                        assert(cs[i as int] == NodeV::Other);
                        assert(out@ =~= out_i + seq![]);
                        assert forall|t: Answers| #[trigger] extends(self.log@, t) implies nodes_out(
                            cs.take(i + 1),
                            head,
                            bib0,
                            t,
                            st0,
                        ) == (out@, self.state()) by {
                            assert(nodes_out(cs.take(i as int), head, bib0, t, st0) == (out_i, st_i));
                            assert(node_out(cs[i as int], head, bib0, t, st_i) == (Seq::<char>::empty(), st_i));
                        }
                    }
                },
            }
            i = i + 1;
        }
        proof {
            assert(cs.take(cs.len() as int) =~= cs);
        }
        string_of(&out)
    }

    /// The markup of an element; `head` tells whether one of its ancestors is a
    /// table header.
    fn element<R: AssetResolver>(&mut self, res: &R, e: &HtmlElement, head: bool) -> (r: String)
        requires
            old(self).answered(res),
        ensures
            final(self).answered(res),
            final(self).follows(old(self)),
            forall|t: Answers| #[trigger] extends(final(self).log@, t) ==> elem_out(
                element_view(*e),
                head,
                old(self).bib(),
                t,
                old(self).state(),
            ) == (r@, final(self).state()),
        decreases e, 2int,
    {
        let ghost ev = element_view(*e);
        proof {
            assert(extends(self.log@, self.log@));
        }
        let ch = head || thead(e);
        if skipped(e) {
            let empty = String::new();
            proof {
                assert(empty@ =~= seq![]);
            }
            return empty;
        }
        if e.has_class("ltx_role_footnote") {
            return self.footnote(res, e, ch);
        }
        if e.has_class("ltx_authors") {
            let c = self.children(res, e, ch);
            return authors_text(c.as_str());
        }
        if e.has_class("ltx_biblist") {
            let c = self.bib_list(res, e, ch);
            return around("\n", c.as_str(), "\n");
        }
        if e.has_class("ltx_font_italic") {
            let c = self.children(res, e, ch);
            return around("_", c.as_str(), "_");
        }
        if e.has_class("ltx_font_bold") {
            let c = self.children(res, e, ch);
            return around("*", c.as_str(), "*");
        }
        if e.is_named("math") {
            return self.math(res, e);
        }
        if e.is_named("h1") && (e.has_class("ltx_title_document") || self.title.is_none()) {
            self.set_title(e);
            let empty = String::new();
            proof {
                assert(empty@ =~= seq![]);
            }
            return empty;
        }
        if e.is_named("img") {
            return self.image(res, e);
        }
        if e.is_named("code") || e.is_named("tt") {
            let text = text_content(e);
            let q = typst_string(text.as_str());
            return around("#raw(", q.as_str(), ")");
        }
        if e.is_named("br") {
            let mut out: Vec<char> = Vec::new();
            push_str(&mut out, "#linebreak() ");
            return string_of(&out);
        }
        if e.is_named("ul") || e.is_named("ol") {
            let marker = if e.is_named("ul") {
                '-'
            } else {
                '+'
            };
            let c = self.list(res, e, marker, ch);
            return around("\n", c.as_str(), "\n");
        }
        if e.is_named("table") {
            return self.table(res, e, ch);
        }
        let c = self.children(res, e, ch);
        let ghost c_st = self.state();
        proof {
            reveal_strlit("");
            assert(""@ =~= Seq::<char>::empty());
            assert(!is_skipped(ev));
            assert(!(ev.name == "h1"@ && is_title(ev, old(self).state())));
            assert forall|t: Answers| #[trigger] extends(self.log@, t) implies elem_out(
                ev,
                head,
                old(self).bib(),
                t,
                old(self).state(),
            ) == {
                let (c2, st1) = nodes_out(ev.children, ch, old(self).bib(), t, old(self).state());
                if ev.name == "h1"@ {
                    (heading_markup(1, c2), st1)
                } else if heading_depth(ev.name) > 0 {
                    (heading_markup(heading_depth(ev.name), c2), st1)
                } else if ev.name == "p"@ {
                    (trim(c2) + "\n\n"@, st1)
                } else if ev.name == "li"@ {
                    (trim(c2) + "\n"@, st1)
                } else if ev.name == "a"@ {
                    link_out(ev, c2, old(self).bib(), st1)
                } else if ev.name == "em"@ || ev.name == "i"@ {
                    ("_"@ + c2 + "_"@, st1)
                } else if ev.name == "strong"@ || ev.name == "b"@ {
                    ("*"@ + c2 + "*"@, st1)
                } else if ev.name == "sup"@ {
                    ("#super["@ + c2 + "]"@, st1)
                } else if ev.name == "sub"@ {
                    ("#sub["@ + c2 + "]"@, st1)
                } else if ev.name == "blockquote"@ {
                    ("#quote(block: true)["@ + trim(c2) + "]\n\n"@, st1)
                } else if ev.name == "figcaption"@ {
                    ("\n#align(center)[#emph["@ + trim(c2) + "]]\n\n"@, st1)
                } else {
                    (c2, st1)
                }
            } by {
                assert(nodes_out(ev.children, ch, old(self).bib(), t, old(self).state()) == (c@, c_st));
            }
        }
        if e.is_named("h1") {
            heading_text(1, c.as_str())
        } else if e.is_named("h2") {
            heading_text(1, c.as_str())
        } else if e.is_named("h3") {
            heading_text(2, c.as_str())
        } else if e.is_named("h4") {
            heading_text(3, c.as_str())
        } else if e.is_named("h5") {
            heading_text(4, c.as_str())
        } else if e.is_named("h6") {
            heading_text(5, c.as_str())
        } else if e.is_named("p") {
            around_trimmed("", c.as_str(), "\n\n")
        } else if e.is_named("li") {
            around_trimmed("", c.as_str(), "\n")
        } else if e.is_named("a") {
            self.link(e, c)
        } else if e.is_named("em") || e.is_named("i") {
            around("_", c.as_str(), "_")
        } else if e.is_named("strong") || e.is_named("b") {
            around("*", c.as_str(), "*")
        } else if e.is_named("sup") {
            around("#super[", c.as_str(), "]")
        } else if e.is_named("sub") {
            around("#sub[", c.as_str(), "]")
        } else if e.is_named("blockquote") {
            around_trimmed("#quote(block: true)[", c.as_str(), "]\n\n")
        } else if e.is_named("figcaption") {
            around_trimmed("\n#align(center)[#emph[", c.as_str(), "]]\n\n")
        } else {
            c
        }
    }

    /// Takes the text of a `<h1>` as the document title when not empty.
    fn set_title(&mut self, e: &HtmlElement)
        ensures
            final(self).bib_ids@ == old(self).bib_ids@,
            final(self).log@ == old(self).log@,
            final(self).asked@ == old(self).asked@,
            final(self).state() == title_state(element_view(*e), old(self).state()),
    {
        let text = text_content(e);
        let c = collapse_ws(text.as_str());
        let t = trim_chars(&chars_of(c.as_str()));
        if t.len() > 0 {
            self.title = Some(string_of(&t));
        }
    }

    /// A footnote.
    fn footnote<R: AssetResolver>(&mut self, res: &R, e: &HtmlElement, ch: bool) -> (r: String)
        requires
            old(self).answered(res),
        ensures
            final(self).answered(res),
            final(self).follows(old(self)),
            forall|t: Answers| #[trigger] extends(final(self).log@, t) ==> ({
                let st1 = ImportState {
                    stats: ImportStats {
                        footnotes: bump(old(self).state().stats.footnotes),
                        ..old(self).state().stats
                    },
                    ..old(self).state()
                };
                let (body, st2) = match note_in(
                    element_view(*e).children,
                    ch,
                    old(self).bib(),
                    t,
                    st1,
                ) {
                    Some(x) => x,
                    None => nodes_out(element_view(*e).children, ch, old(self).bib(), t, st1),
                };
                ("#footnote["@ + trim(body) + "]"@, st2)
            }) == (r@, final(self).state()),
        decreases e, 1int,
    {
        let ghost self0 = *self;
        self.stats.footnotes = self.stats.footnotes.wrapping_add(1);
        let ghost self1 = *self;
        let body = match self.note(res, e, ch) {
            Some(b) => b,
            None => self.children(res, e, ch),
        };
        proof {
            lemma_extends_trans(self0.log@, self1.log@, self.log@);
        }
        around_trimmed("#footnote[", body.as_str(), "]")
    }

    /// The children of the first `ltx_note_content` element under `e`, if any.
    fn note<R: AssetResolver>(&mut self, res: &R, e: &HtmlElement, head: bool) -> (r: Option<
        String,
    >)
        requires
            old(self).answered(res),
        ensures
            final(self).answered(res),
            final(self).follows(old(self)),
            match r {
                Some(b) => forall|t: Answers| #[trigger]
                    extends(final(self).log@, t) ==> note_in(
                        element_view(*e).children,
                        head,
                        old(self).bib(),
                        t,
                        old(self).state(),
                    ) == Some((b@, final(self).state())),
                None => {
                    &&& final(self).state() == old(self).state()
                    &&& final(self).log@ == old(self).log@
                    &&& forall|t: Answers| #[trigger]
                        note_in(
                            element_view(*e).children,
                            head,
                            old(self).bib(),
                            t,
                            old(self).state(),
                        ) is None
                },
            },
        decreases e, 0int,
    {
        let ghost cs = element_view(*e).children;
        let ghost st0 = self.state();
        let ghost bib0 = self.bib();
        let ghost self0 = *self;
        proof {
            lemma_nodes_view(e.children@);
            assert(cs.skip(0) =~= cs);
        }
        let mut i: usize = 0;
        while i < e.children.len()
            invariant
                i <= e.children@.len(),
                cs == nodes_view(e.children@),
                cs.len() == e.children@.len(),
                forall|k: int| 0 <= k < cs.len() ==> cs[k] == node_view(#[trigger] e.children@[k]),
                self.answered(res),
                self0 == *old(self),
                self.state() == st0,
                self.log@ == self0.log@,
                self.bib_ids@ == self0.bib_ids@,
                bib0 == self0.bib(),
                st0 == self0.state(),
                forall|t: Answers| #[trigger]
                    note_in(cs, head, bib0, t, st0) == note_in(cs.skip(i as int), head, bib0, t, st0),
            decreases e.children@.len() - i,
        {
            proof {
                assert(cs.skip(i as int)[0] == cs[i as int]);
                assert(cs.skip(i as int).drop_first() =~= cs.skip(i + 1));
            }
            match &e.children[i] {
                HtmlNode::Element(x) => {
                    proof {
                        assert(decreases_to!(e => e.children));
                        assert(decreases_to!(e.children => e.children@));
                        assert(decreases_to!(e.children@ => e.children@[i as int]));
                        assert(cs[i as int] == NodeV::Element(element_view(*x)));
                        assert(extends(self0.log@, self.log@));
                    }
                    let hx = head || thead(x);
                    let ghost self_i = *self;
                    if x.has_class("ltx_note_content") {
                        let b = self.children(res, x, hx);
                        proof {
                            assert(self_i.log@ == self0.log@);
                            assert(extends(self_i.log@, self.log@));
                            assert(self.follows(&self0));
                            assert forall|t: Answers| #[trigger] extends(self.log@, t) implies note_in(
                                cs,
                                head,
                                bib0,
                                t,
                                st0,
                            ) == Some((b@, self.state())) by {
                                assert(note_in(cs, head, bib0, t, st0) == note_in(cs.skip(i as int), head, bib0, t, st0));
                                assert(nodes_out(element_view(*x).children, hx, bib0, t, st0) == (b@, self.state()));
                            }
                        }
                        return Some(b);
                    }
                    match self.note(res, x, hx) {
                        Some(b) => {
                            proof {
                                assert forall|t: Answers| #[trigger] extends(self.log@, t) implies note_in(
                                    cs,
                                    head,
                                    bib0,
                                    t,
                                    st0,
                                ) == Some((b@, self.state())) by {
                                    assert(note_in(cs, head, bib0, t, st0) == note_in(cs.skip(i as int), head, bib0, t, st0));
                                    assert(note_in(element_view(*x).children, hx, bib0, t, st0) == Some((b@, self.state())));
                                }
                            }
                            return Some(b);
                        },
                        None => {
                            proof {
                                assert forall|t: Answers| #[trigger] note_in(cs, head, bib0, t, st0) == note_in(cs.skip(i + 1), head, bib0, t, st0) by {
                                    assert(note_in(cs, head, bib0, t, st0) == note_in(cs.skip(i as int), head, bib0, t, st0));
                                    assert(note_in(element_view(*x).children, hx, bib0, t, st0) is None);
                                }
                            }
                        },
                    }
                },
                _ => {
                    proof {
                        assert forall|t: Answers| #[trigger] note_in(cs, head, bib0, t, st0) == note_in(cs.skip(i + 1), head, bib0, t, st0) by {
                            assert(note_in(cs, head, bib0, t, st0) == note_in(cs.skip(i as int), head, bib0, t, st0));
                        }
                    }
                },
            }
            i = i + 1;
        }
        proof {
            assert(extends(self0.log@, self.log@));
        }
        None
    }

    /// The items of a list.
    fn list<R: AssetResolver>(&mut self, res: &R, e: &HtmlElement, marker: char, ch: bool) -> (r:
        String)
        requires
            old(self).answered(res),
        ensures
            final(self).answered(res),
            final(self).follows(old(self)),
            forall|t: Answers| #[trigger] extends(final(self).log@, t) ==> list_items(
                element_view(*e).children,
                marker,
                ch,
                old(self).bib(),
                t,
                old(self).state(),
            ) == (r@, final(self).state()),
        decreases e, 1int,
    {
        let ghost cs = element_view(*e).children;
        let ghost st0 = self.state();
        let ghost bib0 = self.bib();
        let ghost self0 = *self;
        proof {
            lemma_nodes_view(e.children@);
            assert(extends(self.log@, self.log@));
        }
        let mut out: Vec<char> = Vec::new();
        let mut i: usize = 0;
        while i < e.children.len()
            invariant
                i <= e.children@.len(),
                cs == nodes_view(e.children@),
                cs.len() == e.children@.len(),
                forall|k: int| 0 <= k < cs.len() ==> cs[k] == node_view(#[trigger] e.children@[k]),
                self.answered(res),
                self.follows(&self0),
                bib0 == self.bib(),
                bib0 == self0.bib(),
                st0 == self0.state(),
                forall|t: Answers| #[trigger] extends(self.log@, t) ==> list_items(
                    cs.take(i as int),
                    marker,
                    ch,
                    bib0,
                    t,
                    st0,
                ) == (out@, self.state()),
            decreases e.children@.len() - i,
        {
            let ghost log_i = self.log@;
            let ghost out_i = out@;
            proof {
                assert(cs.take(i + 1).drop_last() =~= cs.take(i as int));
                assert(cs.take(i + 1).last() == cs[i as int]);
            }
            match &e.children[i] {
                HtmlNode::Element(x) => {
                    proof {
                        assert(decreases_to!(e => e.children));
                        assert(decreases_to!(e.children => e.children@));
                        assert(decreases_to!(e.children@ => e.children@[i as int]));
                        assert(cs[i as int] == NodeV::Element(element_view(*x)));
                    }
                    if x.is_named("li") {
                        let hx = ch || thead(x);
                        let b = self.children(res, x, hx);
                        out.push(marker);
                        out.push(' ');
                        let t = trim_chars(&chars_of(b.as_str()));
                        push_all(&mut out, &t);
                        push_str(&mut out, "\n");
                        proof {
                            lemma_extends_trans(self0.log@, log_i, self.log@);
                            assert(out@ =~= out_i + seq![marker, ' '] + trim(b@) + "\n"@);
                            assert forall|t: Answers| #[trigger] extends(self.log@, t) implies list_items(
                                cs.take(i + 1),
                                marker,
                                ch,
                                bib0,
                                t,
                                st0,
                            ) == (out@, self.state()) by {
                                lemma_extends_trans(log_i, self.log@, t);
                            }
                        }
                    }
                },
                _ => {},
            }
            i = i + 1;
        }
        proof {
            assert(cs.take(cs.len() as int) =~= cs);
        }
        string_of(&out)
    }

    /// The entries of a bibliography.
    fn bib_list<R: AssetResolver>(&mut self, res: &R, e: &HtmlElement, ch: bool) -> (r: String)
        requires
            old(self).answered(res),
        ensures
            final(self).answered(res),
            final(self).follows(old(self)),
            forall|t: Answers| #[trigger] extends(final(self).log@, t) ==> bib_items(
                element_view(*e).children,
                ch,
                old(self).bib(),
                t,
                old(self).state(),
            ) == (r@, final(self).state()),
        decreases e, 1int,
    {
        let ghost cs = element_view(*e).children;
        let ghost st0 = self.state();
        let ghost bib0 = self.bib();
        let ghost self0 = *self;
        proof {
            lemma_nodes_view(e.children@);
            assert(extends(self.log@, self.log@));
        }
        let mut out: Vec<char> = Vec::new();
        let mut i: usize = 0;
        while i < e.children.len()
            invariant
                i <= e.children@.len(),
                cs == nodes_view(e.children@),
                cs.len() == e.children@.len(),
                forall|k: int| 0 <= k < cs.len() ==> cs[k] == node_view(#[trigger] e.children@[k]),
                self.answered(res),
                self.follows(&self0),
                bib0 == self.bib(),
                bib0 == self0.bib(),
                st0 == self0.state(),
                forall|t: Answers| #[trigger] extends(self.log@, t) ==> bib_items(
                    cs.take(i as int),
                    ch,
                    bib0,
                    t,
                    st0,
                ) == (out@, self.state()),
            decreases e.children@.len() - i,
        {
            let ghost log_i = self.log@;
            let ghost out_i = out@;
            proof {
                assert(cs.take(i + 1).drop_last() =~= cs.take(i as int));
                assert(cs.take(i + 1).last() == cs[i as int]);
            }
            match &e.children[i] {
                HtmlNode::Element(x) => {
                    proof {
                        assert(decreases_to!(e => e.children));
                        assert(decreases_to!(e.children => e.children@));
                        assert(decreases_to!(e.children@ => e.children@[i as int]));
                        assert(cs[i as int] == NodeV::Element(element_view(*x)));
                    }
                    if x.has_class("ltx_bibitem") {
                        let hx = ch || thead(x);
                        let b = self.children(res, x, hx);
                        let entry = bib_entry_text(x, b.as_str());
                        push_str(&mut out, entry.as_str());
                        proof {
                            lemma_extends_trans(self0.log@, log_i, self.log@);
                            assert forall|t: Answers| #[trigger] extends(self.log@, t) implies bib_items(
                                cs.take(i + 1),
                                ch,
                                bib0,
                                t,
                                st0,
                            ) == (out@, self.state()) by {
                                lemma_extends_trans(log_i, self.log@, t);
                            }
                        }
                    }
                },
                _ => {},
            }
            i = i + 1;
        }
        proof {
            assert(cs.take(cs.len() as int) =~= cs);
        }
        string_of(&out)
    }

    /// A table.
    fn table<R: AssetResolver>(&mut self, res: &R, e: &HtmlElement, ch: bool) -> (r: String)
        requires
            old(self).answered(res),
        ensures
            final(self).answered(res),
            final(self).follows(old(self)),
            forall|t: Answers| #[trigger] extends(final(self).log@, t) ==> ({
                let (rows, st1) = rows_in(
                    element_view(*e).children,
                    ch,
                    old(self).bib(),
                    t,
                    old(self).state(),
                );
                (table_out(rows), st1)
            }) == (r@, final(self).state()),
        decreases e, 1int,
    {
        let rows = self.rows(res, e, ch);
        layout(&rows)
    }

    /// The rows under `e`.
    fn rows<R: AssetResolver>(&mut self, res: &R, e: &HtmlElement, head: bool) -> (r: Vec<Row>)
        requires
            old(self).answered(res),
        ensures
            final(self).answered(res),
            final(self).follows(old(self)),
            forall|t: Answers| #[trigger] extends(final(self).log@, t) ==> rows_in(
                element_view(*e).children,
                head,
                old(self).bib(),
                t,
                old(self).state(),
            ) == (raw_rows(r@), final(self).state()),
        decreases e, 0int,
    {
        let ghost cs = element_view(*e).children;
        let ghost st0 = self.state();
        let ghost bib0 = self.bib();
        let ghost self0 = *self;
        proof {
            lemma_nodes_view(e.children@);
            assert(extends(self.log@, self.log@));
        }
        let mut out: Vec<Row> = Vec::new();
        let mut i: usize = 0;
        while i < e.children.len()
            invariant
                i <= e.children@.len(),
                cs == nodes_view(e.children@),
                cs.len() == e.children@.len(),
                forall|k: int| 0 <= k < cs.len() ==> cs[k] == node_view(#[trigger] e.children@[k]),
                self.answered(res),
                self.follows(&self0),
                bib0 == self.bib(),
                bib0 == self0.bib(),
                st0 == self0.state(),
                forall|t: Answers| #[trigger] extends(self.log@, t) ==> rows_in(
                    cs.take(i as int),
                    head,
                    bib0,
                    t,
                    st0,
                ) == (raw_rows(out@), self.state()),
            decreases e.children@.len() - i,
        {
            let ghost log_i = self.log@;
            let ghost out_i = out@;
            proof {
                assert(cs.take(i + 1).drop_last() =~= cs.take(i as int));
                assert(cs.take(i + 1).last() == cs[i as int]);
            }
            match &e.children[i] {
                HtmlNode::Element(x) => {
                    proof {
                        assert(decreases_to!(e => e.children));
                        assert(decreases_to!(e.children => e.children@));
                        assert(decreases_to!(e.children@ => e.children@[i as int]));
                        assert(cs[i as int] == NodeV::Element(element_view(*x)));
                    }
                    let hx = head || thead(x);
                    if x.is_named("tr") {
                        let cells = self.cells(res, x, hx);
                        let ghost log_c = self.log@;
                        let mut more = self.rows(res, x, hx);
                        let ghost more_v = more@;
                        let ghost cells_v = cells@;
                        let nonempty = cells.len() > 0;
                        if nonempty {
                            out.push(Row { header: head, cells });
                        }
                        out.append(&mut more);
                        proof {
                            lemma_extends_trans(log_i, log_c, self.log@);
                            lemma_extends_trans(self0.log@, log_i, self.log@);
                            let row = if nonempty {
                                seq![RawRow { header: head, cells: raw_cells(cells_v) }]
                            } else {
                                seq![]
                            };
                            assert(raw_rows(out@) =~= raw_rows(out_i) + row + raw_rows(more_v));
                            assert forall|t: Answers| #[trigger] extends(self.log@, t) implies rows_in(
                                cs.take(i + 1),
                                head,
                                bib0,
                                t,
                                st0,
                            ) == (raw_rows(out@), self.state()) by {
                                lemma_extends_trans(log_c, self.log@, t);
                                lemma_extends_trans(log_i, log_c, t);
                            }
                        }
                    } else {
                        let mut more = self.rows(res, x, hx);
                        let ghost more_v = more@;
                        out.append(&mut more);
                        proof {
                            lemma_extends_trans(self0.log@, log_i, self.log@);
                            assert(raw_rows(out@) =~= raw_rows(out_i) + raw_rows(more_v));
                            assert forall|t: Answers| #[trigger] extends(self.log@, t) implies rows_in(
                                cs.take(i + 1),
                                head,
                                bib0,
                                t,
                                st0,
                            ) == (raw_rows(out@), self.state()) by {
                                lemma_extends_trans(log_i, self.log@, t);
                            }
                        }
                    }
                },
                _ => {},
            }
            i = i + 1;
        }
        proof {
            assert(cs.take(cs.len() as int) =~= cs);
        }
        out
    }

    /// The cells under `e`.
    fn cells<R: AssetResolver>(&mut self, res: &R, e: &HtmlElement, head: bool) -> (r: Vec<
        RowCell,
    >)
        requires
            old(self).answered(res),
        ensures
            final(self).answered(res),
            final(self).follows(old(self)),
            forall|t: Answers| #[trigger] extends(final(self).log@, t) ==> cells_in(
                element_view(*e).children,
                head,
                old(self).bib(),
                t,
                old(self).state(),
            ) == (raw_cells(r@), final(self).state()),
        decreases e, 0int,
    {
        let ghost cs = element_view(*e).children;
        let ghost st0 = self.state();
        let ghost bib0 = self.bib();
        let ghost self0 = *self;
        proof {
            lemma_nodes_view(e.children@);
            assert(extends(self.log@, self.log@));
        }
        let mut out: Vec<RowCell> = Vec::new();
        let mut i: usize = 0;
        while i < e.children.len()
            invariant
                i <= e.children@.len(),
                cs == nodes_view(e.children@),
                cs.len() == e.children@.len(),
                forall|k: int| 0 <= k < cs.len() ==> cs[k] == node_view(#[trigger] e.children@[k]),
                self.answered(res),
                self.follows(&self0),
                bib0 == self.bib(),
                bib0 == self0.bib(),
                st0 == self0.state(),
                forall|t: Answers| #[trigger] extends(self.log@, t) ==> cells_in(
                    cs.take(i as int),
                    head,
                    bib0,
                    t,
                    st0,
                ) == (raw_cells(out@), self.state()),
            decreases e.children@.len() - i,
        {
            let ghost log_i = self.log@;
            let ghost out_i = out@;
            proof {
                assert(cs.take(i + 1).drop_last() =~= cs.take(i as int));
                assert(cs.take(i + 1).last() == cs[i as int]);
            }
            match &e.children[i] {
                HtmlNode::Element(x) => {
                    proof {
                        assert(decreases_to!(e => e.children));
                        assert(decreases_to!(e.children => e.children@));
                        assert(decreases_to!(e.children@ => e.children@[i as int]));
                        assert(cs[i as int] == NodeV::Element(element_view(*x)));
                    }
                    let hx = head || thead(x);
                    if x.is_named("td") || x.is_named("th") {
                        let b = self.children(res, x, hx);
                        let ghost log_b = self.log@;
                        let body = string_of(&trim_chars(&chars_of(b.as_str())));
                        let cell = RowCell {
                            body,
                            colspan: span_attr(x, "colspan"),
                            rowspan: span_attr(x, "rowspan"),
                            align: cell_align(x),
                        };
                        let ghost cell_v = raw_cell(cell);
                        out.push(cell);
                        let ghost out_c = out@;
                        let mut more = self.cells(res, x, hx);
                        let ghost more_v = more@;
                        out.append(&mut more);
                        proof {
                            lemma_extends_trans(log_i, log_b, self.log@);
                            lemma_extends_trans(self0.log@, log_i, self.log@);
                            assert(raw_cells(out@) =~= raw_cells(out_i).push(cell_v) + raw_cells(
                                more_v,
                            ));
                            assert forall|t: Answers| #[trigger] extends(self.log@, t) implies cells_in(
                                cs.take(i + 1),
                                head,
                                bib0,
                                t,
                                st0,
                            ) == (raw_cells(out@), self.state()) by {
                                lemma_extends_trans(log_b, self.log@, t);
                                lemma_extends_trans(log_i, log_b, t);
                            }
                        }
                    } else {
                        let mut more = self.cells(res, x, hx);
                        let ghost more_v = more@;
                        out.append(&mut more);
                        proof {
                            lemma_extends_trans(self0.log@, log_i, self.log@);
                            assert(raw_cells(out@) =~= raw_cells(out_i) + raw_cells(more_v));
                            assert forall|t: Answers| #[trigger] extends(self.log@, t) implies cells_in(
                                cs.take(i + 1),
                                head,
                                bib0,
                                t,
                                st0,
                            ) == (raw_cells(out@), self.state()) by {
                                lemma_extends_trans(log_i, self.log@, t);
                            }
                        }
                    }
                },
                _ => {},
            }
            i = i + 1;
        }
        proof {
            assert(cs.take(cs.len() as int) =~= cs);
        }
        out
    }
}

// =============================================================================
// The document
// =============================================================================

/// The ids of the bibliography entries (`ltx_bibitem` elements with an `id`)
/// at or under a node, in document order.
pub open spec fn bib_ids_in(n: NodeV) -> Seq<Seq<char>>
    decreases n, 1int,
{
    match n {
        NodeV::Element(x) => (if has_class(x, "ltx_bibitem"@) && attr_of(x.attrs, "id"@) is Some {
            seq![attr_of(x.attrs, "id"@)->Some_0]
        } else {
            seq![]
        }) + bib_ids_among(x.children),
        _ => seq![],
    }
}

/// The bibliography ids under a list of nodes, in document order.
pub open spec fn bib_ids_among(s: Seq<NodeV>) -> Seq<Seq<char>>
    decreases s, 0int,
{
    if s.len() == 0 {
        seq![]
    } else {
        bib_ids_among(s.drop_last()) + bib_ids_in(s.last())
    }
}

/// The content containers, in order of preference: `LaTeXML`'s document
/// article, any `ltx_document`, `ltx_page_content`, `<main>`, `<body>`.
pub open spec fn is_root_kind(e: ElementV, k: nat) -> bool {
    if k == 0 {
        e.name == "article"@ && has_class(e, "ltx_document"@)
    } else if k == 1 {
        has_class(e, "ltx_document"@)
    } else if k == 2 {
        has_class(e, "ltx_page_content"@)
    } else if k == 3 {
        e.name == "main"@
    } else {
        e.name == "body"@
    }
}

/// The first element of kind `k` at or under a node (in document order), with
/// whether one of its ancestors is a table header.
pub open spec fn find_at(n: NodeV, k: nat, head: bool) -> Option<(ElementV, bool)>
    decreases n, 1int,
{
    match n {
        NodeV::Element(x) => if is_root_kind(x, k) {
            Some((x, head))
        } else {
            find_among(x.children, k, head || is_thead(x))
        },
        _ => None,
    }
}

/// The first element of kind `k` under a list of nodes.
pub open spec fn find_among(s: Seq<NodeV>, k: nat, head: bool) -> Option<(ElementV, bool)>
    decreases s, 0int,
{
    if s.len() == 0 {
        None
    } else {
        match find_at(s[0], k, head) {
            Some(r) => Some(r),
            None => find_among(s.drop_first(), k, head),
        }
    }
}

/// The content container: the first kind, in order of preference, found in
/// the document.
pub open spec fn content_root_from(root: ElementV, k: nat) -> Option<(ElementV, bool)>
    decreases 5 - k,
{
    if k >= 5 {
        None
    } else {
        match find_at(NodeV::Element(root), k, false) {
            Some(r) => Some(r),
            None => content_root_from(root, k + 1),
        }
    }
}

/// The imported body and final state of a document tree, given the
/// resolver's answers in the order they were asked for: the children of the
/// content container walked, with citations linked only to the bibliography
/// entries present anywhere in the document.
pub open spec fn imported(root: ElementV, tape: Answers) -> (Seq<char>, ImportState) {
    let bib = bib_ids_in(NodeV::Element(root));
    match content_root_from(root, 0) {
        Some((c, h)) => nodes_out(c.children, h || is_thead(c), bib, tape, start_state()),
        None => (seq![], start_state()),
    }
}

/// Appends the bibliography ids at or under `e`.
fn push_bib_ids(out: &mut Vec<String>, e: &HtmlElement)
    ensures
        strings_view(final(out)@) == strings_view(old(out)@) + bib_ids_in(
            NodeV::Element(element_view(*e)),
        ),
    decreases e,
{
    let ghost ev = element_view(*e);
    let ghost start = strings_view(out@);
    if e.has_class("ltx_bibitem") {
        match e.attr("id") {
            Some(id) => {
                let ghost prev = out@;
                out.push(id.clone());
                proof {
                    assert(strings_view(out@) =~= strings_view(prev).push(id@));
                }
            },
            None => {},
        }
    }
    let ghost mid = strings_view(out@);
    let ghost cs = ev.children;
    proof {
        lemma_nodes_view(e.children@);
        assert(mid =~= start + (if has_class(ev, "ltx_bibitem"@) && attr_of(ev.attrs, "id"@) is Some {
            seq![attr_of(ev.attrs, "id"@)->Some_0]
        } else {
            seq![]
        }));
        assert(mid + bib_ids_among(cs.take(0)) =~= mid);
    }
    let mut i: usize = 0;
    while i < e.children.len()
        invariant
            i <= e.children@.len(),
            cs == nodes_view(e.children@),
            cs.len() == e.children@.len(),
            forall|k: int| 0 <= k < cs.len() ==> cs[k] == node_view(#[trigger] e.children@[k]),
            strings_view(out@) == mid + bib_ids_among(cs.take(i as int)),
        decreases e.children@.len() - i,
    {
        proof {
            assert(cs.take(i + 1).drop_last() =~= cs.take(i as int));
            assert(cs.take(i + 1).last() == cs[i as int]);
        }
        let ghost before = strings_view(out@);
        match &e.children[i] {
            HtmlNode::Element(x) => {
                proof {
                    assert(decreases_to!(e => e.children));
                    assert(decreases_to!(e.children => e.children@));
                    assert(decreases_to!(e.children@ => e.children@[i as int]));
                    assert(cs[i as int] == NodeV::Element(element_view(*x)));
                }
                push_bib_ids(out, x);
            },
            _ => {},
        }
        proof {
            assert(strings_view(out@) =~= before + bib_ids_in(cs[i as int]));
            assert(strings_view(out@) =~= mid + bib_ids_among(cs.take(i + 1)));
        }
        i = i + 1;
    }
    proof {
        assert(cs.take(cs.len() as int) =~= cs);
    }
}

/// Whether `e` is a content container of kind `k`.
fn root_kind(e: &HtmlElement, k: usize) -> (r: bool)
    ensures
        r == is_root_kind(element_view(*e), k as nat),
{
    if k == 0 {
        e.is_named("article") && e.has_class("ltx_document")
    } else if k == 1 {
        e.has_class("ltx_document")
    } else if k == 2 {
        e.has_class("ltx_page_content")
    } else if k == 3 {
        e.is_named("main")
    } else {
        e.is_named("body")
    }
}

/// The first element of kind `k` at or under `e`, with the header flag.
fn find_kind<'a>(e: &'a HtmlElement, k: usize, head: bool) -> (r: Option<(&'a HtmlElement, bool)>)
    ensures
        match find_at(NodeV::Element(element_view(*e)), k as nat, head) {
            Some((x, h)) => r matches Some((y, h2)) && element_view(*y) == x && h2 == h,
            None => r is None,
        },
    decreases e,
{
    if root_kind(e, k) {
        return Some((e, head));
    }
    let hx = head || thead(e);
    let ghost cs = element_view(*e).children;
    proof {
        lemma_nodes_view(e.children@);
        assert(cs.skip(0) =~= cs);
    }
    let mut i: usize = 0;
    while i < e.children.len()
        invariant
            i <= e.children@.len(),
            cs == nodes_view(e.children@),
            cs.len() == e.children@.len(),
            forall|j: int| 0 <= j < cs.len() ==> cs[j] == node_view(#[trigger] e.children@[j]),
            hx == (head || is_thead(element_view(*e))),
            !is_root_kind(element_view(*e), k as nat),
            find_among(cs, k as nat, hx) == find_among(cs.skip(i as int), k as nat, hx),
        decreases e.children@.len() - i,
    {
        proof {
            assert(cs.skip(i as int)[0] == cs[i as int]);
            assert(cs.skip(i as int).drop_first() =~= cs.skip(i + 1));
        }
        match &e.children[i] {
            HtmlNode::Element(x) => {
                proof {
                    assert(decreases_to!(e => e.children));
                    assert(decreases_to!(e.children => e.children@));
                    assert(decreases_to!(e.children@ => e.children@[i as int]));
                    assert(cs[i as int] == NodeV::Element(element_view(*x)));
                }
                let sub = find_kind(x, k, hx);
                proof {
                    assert(find_among(cs.skip(i as int), k as nat, hx) == match find_at(
                        cs[i as int],
                        k as nat,
                        hx,
                    ) {
                        Some(r) => Some(r),
                        None => find_among(cs.skip(i + 1), k as nat, hx),
                    });
                }
                match sub {
                    Some(found) => {
                        return Some(found);
                    },
                    None => {},
                }
            },
            _ => {},
        }
        i = i + 1;
    }
    None
}

/// The content container of the document.
fn content_root(root: &HtmlElement) -> (r: Option<(&HtmlElement, bool)>)
    ensures
        match content_root_from(element_view(*root), 0) {
            Some((x, h)) => r matches Some((y, h2)) && element_view(*y) == x && h2 == h,
            None => r is None,
        },
{
    let mut k: usize = 0;
    while k < 5
        invariant
            k <= 5,
            content_root_from(element_view(*root), 0) == content_root_from(
                element_view(*root),
                k as nat,
            ),
        decreases 5 - k,
    {
        match find_kind(root, k, false) {
            Some(found) => {
                return Some(found);
            },
            None => {},
        }
        k = k + 1;
    }
    None
}

/// Import an HTML document into `Typst` markup plus its assets.
///
/// The body is pure content: the document title is extracted into
/// [`ImportedDoc::title`] but not emitted, and no outline is injected (front
/// matter belongs to the template). The result is what [`imported`] makes of
/// the parsed document given the answers the resolver gave, each of them one
/// it may give for the source it was asked.
pub fn import<R: AssetResolver>(html: &str, resolver: &R) -> (r: ImportedDoc)
    ensures
        exists|log: Answers|
            {
                let (body, st) = #[trigger] imported(parsed_html(html@), log);
                &&& r.body@ == body
                &&& byte_pairs(r.assets@) == st.assets
                &&& opt_chars(r.title) == st.title
                &&& r.stats == st.stats
                &&& st.asked.len() == log.fetched.len()
                &&& forall|i: int| 0 <= i < log.fetched.len() ==> resolver.gives(st.asked[i], log.fetched[i])
                &&& forall|i: int| 0 <= i < log.formulas.len() ==> (match (#[trigger] log.formulas[i]).1 {
                    Some(b) => usable_svg(b),
                    None => true,
                })
            },
{
    let root = parse_html(html);
    let mut bib_ids: Vec<String> = Vec::new();
    push_bib_ids(&mut bib_ids, &root);
    proof {
        assert(strings_view(bib_ids@) =~= bib_ids_in(NodeV::Element(element_view(root))));
    }
    let mut imp = Importer {
        math: MathPipeline::default(),
        out_assets: Vec::new(),
        asset_names: Vec::new(),
        title: None,
        stats: ImportStats::default(),
        bib_ids,
        asked: Ghost(Seq::empty()),
        log: Ghost(Answers { fetched: Seq::empty(), formulas: Seq::empty() }),
    };
    proof {
        assert(byte_pairs(imp.out_assets@) =~= Seq::<(Seq<char>, Seq<u8>)>::empty());
        assert(name_pairs(imp.asset_names@) =~= Seq::<(Seq<char>, Seq<char>)>::empty());
        assert(imp.state() == start_state());
    }
    let body = match content_root(&root) {
        Some((c, h)) => {
            let ch = h || thead(c);
            imp.children(resolver, c, ch)
        },
        None => {
            let empty = String::new();
            proof {
                assert(empty@ =~= seq![]);
            }
            empty
        },
    };
    proof {
        let log = imp.log@;
        assert(extends(log, log));
        assert(body@ == imported(parsed_html(html@), log).0);
    }
    ImportedDoc { body, assets: imp.out_assets, title: imp.title, stats: imp.stats }
}

} // verus!
