//! Math conversion: `LaTeX` math to `Typst`.
//!
//! A [`MathSource`] in, a [`MathRender`] out. The pipeline degrades through
//! tiers and reports which [`Tier`] it used:
//!
//! 1. [`Tier::Tex`]: native `Typst` from the [`TexMathEngine`], accepted only
//!    if it compiles.
//! 2. [`Tier::Image`]: an `SVG` of the math rendered by `RaTeX`.
//! 3. [`Tier::Raw`]: the `TeX` verbatim. Last resort; never fails.
//!
//! Heuristic `TeX` rewriting lives in [`crate::fixup`].

use vstd::prelude::*;

use crate::fixup::{normalize, normalized};
use crate::text::{
    chars_of, hex_padded, matches_at, occurs_at, push_all, push_hex_padded, push_str, string_of,
};

use std::hash::{Hash, Hasher};

use ratex_layout::{layout, to_display_list, LayoutBox, LayoutOptions};
use ratex_parser::parser::parse;
use ratex_parser::ParseNode;
use ratex_svg::{render_to_svg, SvgOptions};
use ratex_types::display_item::DisplayList;
use ratex_types::math_style::MathStyle;
// `PagedDocument`, the compiled form `typst-as-lib` produces, is defined in
// `typst-layout`; `typst` 0.15 does not re-export it.
use typst_layout::PagedDocument;
use typst_as_lib::typst_kit_options::TypstKitFontOptions;
use typst_as_lib::TypstEngine;

verus! {

/// One formula to convert.
pub struct MathSource<'a> {
    /// Math-mode `LaTeX`.
    pub tex: &'a str,
    /// Block (display) vs inline.
    pub display: bool,
}

/// Which tier produced a [`MathRender`].
#[derive(Debug, Clone, Copy, PartialEq, Eq, Structural)]
pub enum Tier {
    /// Native `Typst` math (reflowable, font-matched).
    Tex,
    /// `SVG` image via `RaTeX` (faithful, not reflowable).
    Image,
    /// Raw `TeX` shown verbatim (last resort).
    Raw,
}

/// An `SVG` asset referenced by [`MathRender::typst`]; the caller registers it
/// under [`MathAsset::name`] before compiling.
pub struct MathAsset {
    pub name: String,
    pub svg: Vec<u8>,
}

/// The converted formula: `Typst` markup ready to splice into the body, the tier
/// it came from, and any image assets the markup references.
pub struct MathRender {
    pub typst: String,
    pub tier: Tier,
    pub assets: Vec<MathAsset>,
}

/// Converts math-mode `LaTeX` into `Typst` math markup (without surrounding `$`).
pub trait TexMathEngine {
    /// Whether `r` is a result this engine may give for `tex`. Unless an
    /// engine says more, any result is possible.
    open spec fn converts(&self, tex: Seq<char>, r: Result<Seq<char>, Seq<char>>) -> bool {
        true
    }

    /// The `Typst` math markup, or an error message if conversion fails.
    fn convert(&self, tex: &str) -> (r: Result<String, String>)
        ensures
            self.converts(tex@, conversion_view(r)),
    ;
}

/// The characters of a conversion result.
pub open spec fn conversion_view(r: Result<String, String>) -> Result<Seq<char>, Seq<char>> {
    match r {
        Ok(s) => Ok(s@),
        Err(e) => Err(e@),
    }
}

/// The backend built on the `tex2typst-rs` crate.
#[derive(Debug, Default, Clone, Copy)]
pub struct Tex2TypstRs;

/// What `tex2typst_rs::tex2typst` returns for a `TeX` source.
pub uninterp spec fn tex2typst_output(tex: Seq<char>) -> Result<Seq<char>, Seq<char>>;

/// Whether `\sqrt` stands at `i` of `s` as the last token of its group: at the
/// end, or right before `}`, `]` or `\right`.
pub open spec fn sqrt_closes_at(s: Seq<char>, i: int) -> bool {
    occurs_at(s, i, "\\sqrt"@) && (i + 5 == s.len() || s[i + 5] == '}' || s[i + 5] == ']'
        || occurs_at(s, i + 5, "\\right"@))
}

/// A `^` or `_`.
pub open spec fn script_mark(c: char) -> bool {
    c == '^' || c == '_'
}

/// Start of the run of spaces that ends at position `k`.
pub open spec fn space_run_start(s: Seq<char>, k: int) -> int
    decreases k,
{
    if 0 < k && k <= s.len() && s[k - 1] == ' ' {
        space_run_start(s, k - 1)
    } else {
        k
    }
}

/// End (exclusive) of the run of spaces that starts at position `k`.
pub open spec fn space_run_end(s: Seq<char>, k: int) -> int
    decreases s.len() - k,
{
    if 0 <= k && k + 1 < s.len() && s[k + 1] == ' ' {
        space_run_end(s, k + 1)
    } else {
        k + 1
    }
}

/// A space at `k` whose run the tokenizer keeps: the run has no `^` or `_`
/// right before or right after it.
pub open spec fn kept_space(s: Seq<char>, k: int) -> bool {
    &&& 0 <= k < s.len()
    &&& s[k] == ' '
    &&& !(space_run_start(s, k) > 0 && script_mark(s[space_run_start(s, k) - 1]))
    &&& !(space_run_end(s, k) < s.len() && script_mark(s[space_run_end(s, k)]))
}

/// What a character adds to the brace depth.
pub open spec fn brace_step(c: char) -> int {
    if c == '{' {
        1
    } else if c == '}' {
        -1
    } else {
        0
    }
}

/// The brace depth of `s[a..b]`: opening braces less closing ones.
pub open spec fn brace_depth(s: Seq<char>, a: int, b: int) -> int
    decreases b - a,
{
    if b <= a {
        0
    } else {
        brace_depth(s, a, b - 1) + brace_step(s[b - 1])
    }
}

/// The prime at `j` cannot directly follow the script arguments opened by
/// the `^` at `i`: between them stands no backslash or `%` (so every argument
/// there is one character, a digit run or a braced group) and a kept space
/// outside any group opened after the `^`.
pub open spec fn prime_guarded(s: Seq<char>, i: int, j: int) -> bool {
    &&& forall|k: int| i < k < j ==> #[trigger] s[k] != '\\' && s[k] != '%'
    &&& exists|k: int| i < k < j && #[trigger] kept_space(s, k) && brace_depth(s, i + 1, k) <= 0
}

/// Whether `s` holds a `~` (the tokenizer skips characters after one).
pub open spec fn has_tilde(s: Seq<char>) -> bool {
    exists|k: int| 0 <= k < s.len() && #[trigger] s[k] == '~'
}

/// A prime after a `^` that may directly follow its script arguments (a
/// double superscript, on which the parser aborts).
pub open spec fn risky_prime(s: Seq<char>) -> bool {
    exists|i: int, j: int|
        0 <= i < j < s.len() && #[trigger] s[i] == '^' && #[trigger] s[j] == '\'' && (has_tilde(s)
            || !prime_guarded(s, i, j))
}

/// Inputs kept away from `tex2typst`, because its tokenizer and parser abort
/// (rather than fail) on some of them: a non-ASCII character (its tokenizer
/// advances by bytes over a sequence of characters, so what it reads no
/// longer lines up with the text), a `\begin` (an unmatched one, counted in
/// the token slice the parser is in, aborts), a prime that may directly
/// follow a superscript (a double superscript aborts), or a `\sqrt` that ends
/// its token slice (it reads the token after it). The conditions are on
/// characters and contain every input on which the crate was found to abort;
/// where the crate's behaviour hangs on its token-level parse they are wider.
pub open spec fn tex2typst_risky(s: Seq<char>) -> bool {
    ||| exists|i: int| 0 <= i < s.len() && (#[trigger] s[i] as u32) >= 128
    ||| exists|i: int| #[trigger] occurs_at(s, i, "\\begin"@)
    ||| risky_prime(s)
    ||| exists|i: int| #[trigger] sqrt_closes_at(s, i)
}

/// The error reported for an input kept away from `tex2typst`.
pub open spec fn unsupported_tex() -> Seq<char> {
    "input not supported by the converter"@
}

/// What the `tex2typst-rs` backend gives for `tex`.
pub open spec fn tex2typst_result(tex: Seq<char>) -> Result<Seq<char>, Seq<char>> {
    if tex2typst_risky(tex) {
        Err(unsupported_tex())
    } else {
        tex2typst_output(tex)
    }
}

/// `tex2typst_rs::tex2typst`: converts `TeX` math to `Typst` math. The
/// conversion is the crate's; the contract names its result as a function of
/// the input alone. The inputs of [`tex2typst_risky`], which hold every one on
/// which the crate's tokenizer or parser was found to abort (its `panic!`s on a
/// double superscript and on an unmatched `\begin`, its read past the tokens
/// after a final `\sqrt`), are left out; the remaining `unwrap`s of the crate
/// are on values its own parser builds.
#[verifier::external_body]
fn tex2typst(tex: &str) -> (r: Result<String, String>)
    requires
        !tex2typst_risky(tex@),
    ensures
        match r {
            Ok(s) => tex2typst_output(tex@) == Ok::<Seq<char>, Seq<char>>(s@),
            Err(e) => tex2typst_output(tex@) == Err::<Seq<char>, Seq<char>>(e@),
        },
{
    tex2typst_rs::tex2typst(tex)
}

/// The run of spaces around the space at `k`: its start and its end.
fn space_run_bounds(v: &[char], k: usize) -> (r: (usize, usize))
    requires
        k < v@.len(),
    ensures
        r.0 == space_run_start(v@, k as int),
        r.1 == space_run_end(v@, k as int),
        r.0 <= k < r.1 <= v@.len(),
{
    let mut a: usize = k;
    while a > 0 && v[a - 1] == ' '
        invariant
            a <= k < v@.len(),
            space_run_start(v@, a as int) == space_run_start(v@, k as int),
        decreases a,
    {
        a = a - 1;
    }
    let n = v.len();
    assert(k < n);
    let mut b: usize = k + 1;
    while b < v.len() && v[b] == ' '
        invariant
            k < b <= v@.len(),
            space_run_end(v@, b - 1) == space_run_end(v@, k as int),
        decreases v@.len() - b,
    {
        b = b + 1;
    }
    (a, b)
}

/// Whether the space at `k` is one the tokenizer keeps.
fn is_kept_space(v: &[char], k: usize) -> (r: bool)
    requires
        k < v@.len(),
    ensures
        r == kept_space(v@, k as int),
{
    if v[k] != ' ' {
        return false;
    }
    let (a, b) = space_run_bounds(v, k);
    let before = a > 0 && (v[a - 1] == '^' || v[a - 1] == '_');
    let after = b < v.len() && (v[b] == '^' || v[b] == '_');
    !before && !after
}

/// Whether every prime after the `^` at `i` is guarded from it.
fn primes_guarded_after(v: &[char], i: usize, tilde: bool) -> (r: bool)
    requires
        i < v@.len(),
        tilde == has_tilde(v@),
    ensures
        r == forall|j: int|
            i < j < v@.len() && #[trigger] v@[j] == '\'' ==> !tilde && prime_guarded(v@, i as int, j),
{
    let mut clean = true;
    let mut found = false;
    let mut depth: i128 = 0;
    let n = v.len();
    assert(i < n);
    let mut j: usize = i + 1;
    while j < v.len()
        invariant
            i < j <= v@.len(),
            tilde == has_tilde(v@),
            clean == forall|k: int| i < k < j ==> #[trigger] v@[k] != '\\' && v@[k] != '%',
            found == exists|k: int|
                i < k < j && #[trigger] kept_space(v@, k) && brace_depth(v@, i + 1, k) <= 0,
            depth == brace_depth(v@, i + 1, j as int),
            -(j as int) <= depth <= j,
            forall|j2: int|
                i < j2 < j && #[trigger] v@[j2] == '\'' ==> !tilde && prime_guarded(v@, i as int, j2),
        decreases v@.len() - j,
    {
        let c = v[j];
        proof {
            assert(prime_guarded(v@, i as int, j as int) == (clean && found));
        }
        if c == '\'' && !(!tilde && clean && found) {
            return false;
        }
        let kept = if c == ' ' && depth <= 0 {
            is_kept_space(v, j)
        } else {
            false
        };
        proof {
            assert(kept == (kept_space(v@, j as int) && brace_depth(v@, i + 1, j as int) <= 0));
            if kept {
                assert(kept_space(v@, j as int) && brace_depth(v@, i + 1, j as int) <= 0);
            }
        }
        if c == '\\' || c == '%' {
            clean = false;
        }
        if kept {
            found = true;
        }
        if c == '{' {
            depth = depth + 1;
        } else if c == '}' {
            depth = depth - 1;
        }
        j = j + 1;
    }
    true
}

/// Whether `v` holds a `~`.
fn holds_tilde(v: &[char]) -> (r: bool)
    ensures
        r == has_tilde(v@),
{
    let mut k: usize = 0;
    while k < v.len()
        invariant
            k <= v@.len(),
            forall|m: int| 0 <= m < k ==> #[trigger] v@[m] != '~',
        decreases v@.len() - k,
    {
        if v[k] == '~' {
            return true;
        }
        k = k + 1;
    }
    false
}

/// Whether some prime in `v` may directly follow a superscript.
fn has_risky_prime(v: &[char]) -> (r: bool)
    ensures
        r == risky_prime(v@),
{
    let tilde = holds_tilde(v);
    let mut i: usize = 0;
    while i < v.len()
        invariant
            i <= v@.len(),
            tilde == has_tilde(v@),
            forall|i2: int, j: int|
                0 <= i2 < i && i2 < j < v@.len() && #[trigger] v@[i2] == '^' && #[trigger] v@[j]
                    == '\'' ==> !tilde && prime_guarded(v@, i2, j),
        decreases v@.len() - i,
    {
        if v[i] == '^' && !primes_guarded_after(v, i, tilde) {
            return true;
        }
        i = i + 1;
    }
    false
}

/// Whether `v` is an input kept away from `tex2typst`.
fn is_risky(v: &[char]) -> (r: bool)
    ensures
        r == tex2typst_risky(v@),
{
    proof {
        reveal_strlit("\\begin");
        reveal_strlit("\\sqrt");
        reveal_strlit("\\right");
    }
    if has_risky_prime(v) {
        return true;
    }
    let begin = chars_of("\\begin");
    let sqrt = chars_of("\\sqrt");
    let right = chars_of("\\right");
    let mut i: usize = 0;
    while i < v.len()
        invariant
            i <= v@.len(),
            begin@ == "\\begin"@,
            sqrt@ == "\\sqrt"@,
            right@ == "\\right"@,
            !risky_prime(v@),
            forall|k: int| 0 <= k < i ==> (#[trigger] v@[k] as u32) < 128,
            forall|k: int| 0 <= k < i ==> !#[trigger] occurs_at(v@, k, "\\begin"@),
            forall|k: int| 0 <= k < i ==> !#[trigger] sqrt_closes_at(v@, k),
        decreases v@.len() - i,
    {
        proof {
            reveal_strlit("\\begin");
            reveal_strlit("\\sqrt");
            reveal_strlit("\\right");
        }
        let c = v[i];
        if (c as u32) >= 128 {
            return true;
        }
        if matches_at(v, i, &begin) {
            return true;
        }
        if matches_at(v, i, &sqrt) {
            proof {
                assert(sqrt@.len() == 5);
                assert(i + 5 <= v@.len());
            }
            let j = i + 5;
            if j == v.len() || v[j] == '}' || v[j] == ']' || matches_at(v, j, &right) {
                proof {
                    assert(sqrt_closes_at(v@, i as int));
                }
                return true;
            }
        }
        proof {
            if occurs_at(v@, i as int, "\\sqrt"@) {
                assert(i + 5 <= v@.len());
            }
        }
        i = i + 1;
    }
    proof {
        assert forall|k: int| !#[trigger] occurs_at(v@, k, "\\begin"@) by {
            if 0 <= k < i {
            } else if k >= i {
                assert(k + 6 > v@.len());
            }
        }
        assert forall|k: int| !#[trigger] sqrt_closes_at(v@, k) by {
            if 0 <= k < i {
            } else if k >= i {
                assert(k + 5 > v@.len());
            }
        }
    }
    false
}

impl TexMathEngine for Tex2TypstRs {
    open spec fn converts(&self, tex: Seq<char>, r: Result<Seq<char>, Seq<char>>) -> bool {
        r == tex2typst_result(tex)
    }

    fn convert(&self, tex: &str) -> (r: Result<String, String>) {
        if is_risky(&chars_of(tex)) {
            proof {
                reveal_strlit("input not supported by the converter");
            }
            let msg = string_of(&chars_of("input not supported by the converter"));
            return Err(msg);
        }
        tex2typst(tex)
    }
}

/// Compiles `source` with the `typst` engine (through `typst-as-lib`, with the
/// embedded fonts only and no system fonts) and reports whether it compiled.
/// The verdict is left unstated: the document's world reads the current
/// date, so two calls on one source may disagree.
#[verifier::external_body]
fn compiles_in_typst(source: &str) -> bool {
    let fonts = TypstKitFontOptions::default().include_system_fonts(false);
    let engine = TypstEngine::builder().main_file(source.to_string()).search_fonts_with(
        fonts,
    ).build();
    engine.compile::<PagedDocument>().output.is_ok()
}

/// A parsed `RaTeX` formula.
#[verifier::external_type_specification]
#[verifier::external_body]
pub struct ExParseNode(ParseNode);

/// A laid-out `RaTeX` formula.
#[verifier::external_type_specification]
#[verifier::external_body]
pub struct ExLayoutBox(LayoutBox);

/// The drawing commands of a laid-out `RaTeX` formula.
#[verifier::external_type_specification]
#[verifier::external_body]
pub struct ExDisplayList(DisplayList);

/// Whether `ratex_parser::parse` accepts a formula.
pub uninterp spec fn ratex_parses(tex: Seq<char>) -> bool;

/// `ratex_parser::parse`: the parsed formula, or `None` when `RaTeX` cannot
/// parse `tex`. Whether it parses is named as a function of `tex` alone (the
/// parser reads only the input and its fixed tables); nothing is stated of
/// the tree.
#[verifier::external_body]
fn ratex_parse(tex: &str) -> (r: Option<Vec<ParseNode>>)
    ensures
        r is Some == ratex_parses(tex@),
{
    parse(tex).ok()
}

/// `ratex_layout::layout` in display style or text style. Nothing is stated of
/// the layout.
#[verifier::external_body]
fn ratex_layout(nodes: &Vec<ParseNode>, display: bool) -> LayoutBox {
    let style = if display { MathStyle::Display } else { MathStyle::Text };
    layout(nodes, &LayoutOptions::default().with_style(style))
}

/// `ratex_layout::to_display_list`. Nothing is stated of the list.
#[verifier::external_body]
fn ratex_display_list(laid_out: &LayoutBox) -> DisplayList {
    to_display_list(laid_out)
}

/// `ratex_svg::render_to_svg` with glyphs embedded, as UTF-8 bytes. Nothing is
/// stated of them: glyphs may come from fonts found on the machine.
#[verifier::external_body]
fn ratex_svg_bytes(list: &DisplayList) -> Vec<u8> {
    render_to_svg(list, &SvgOptions { embed_glyphs: true, ..Default::default() }).into_bytes()
}

/// What `std`'s `DefaultHasher::new()` yields after hashing a string.
pub uninterp spec fn default_hash_of(s: Seq<char>) -> u64;

/// Hashes `s` with a fresh `std::collections::hash_map::DefaultHasher`. Every
/// hasher made by `DefaultHasher::new` starts in the same state (no per-process
/// seed), so the contract names the value as a function of the string alone;
/// the algorithm itself is `std`'s and is not restated.
#[verifier::external_body]
pub(crate) fn hash(s: &str) -> (r: u64)
    ensures
        r == default_hash_of(s@),
{
    let mut h = std::collections::hash_map::DefaultHasher::new();
    s.hash(&mut h);
    h.finish()
}

// =============================================================================
// Specification
// =============================================================================

/// The escape of one character inside a `Typst` string literal: backslash and
/// quote are escaped, a newline becomes a space.
pub open spec fn escape_char(c: char) -> Seq<char> {
    if c == '\\' {
        seq!['\\', '\\']
    } else if c == '"' {
        seq!['\\', '"']
    } else if c == '\n' {
        seq![' ']
    } else {
        seq![c]
    }
}

/// The escaped body of a `Typst` string literal.
pub open spec fn escaped(s: Seq<char>) -> Seq<char>
    decreases s.len(),
{
    if s.len() == 0 {
        seq![]
    } else {
        escaped(s.drop_last()) + escape_char(s.last())
    }
}

/// `s` as a double-quoted `Typst` string literal.
pub open spec fn quoted(s: Seq<char>) -> Seq<char> {
    seq!['"'] + escaped(s) + seq!['"']
}

/// Math markup wrapped in `$...$`; surrounding spaces request display style.
pub open spec fn wrapped_math(math: Seq<char>, display: bool) -> Seq<char> {
    if display {
        "$ "@ + math + " $"@
    } else {
        "$"@ + math + "$"@
    }
}

/// The standalone document used to check that converted math compiles.
pub open spec fn check_source(math: Seq<char>, display: bool) -> Seq<char> {
    "#set page(width: auto, height: auto, margin: 2pt)\n"@ + wrapped_math(math, display) + "\n"@
}

/// An `SVG` rendering is accepted when it holds an `<svg` tag and more than
/// 200 bytes.
pub open spec fn usable_svg(b: Seq<u8>) -> bool {
    b.len() > 200 && exists|i: int| #[trigger] occurs_at_bytes(b, i, svg_tag())
}

/// The bytes of `<svg`.
pub open spec fn svg_tag() -> Seq<u8> {
    seq![0x3cu8, 0x73u8, 0x76u8, 0x67u8]
}

/// Whether `pat` occurs in `b` at `i`.
pub open spec fn occurs_at_bytes(b: Seq<u8>, i: int, pat: Seq<u8>) -> bool {
    0 <= i && i + pat.len() <= b.len() && b.subrange(i, i + pat.len()) == pat
}

/// The file name of a math image asset for a hash of its source.
pub open spec fn math_asset_name(h: u64) -> Seq<char> {
    "math-"@ + hex_padded(h as nat, 16) + ".svg"@
}

/// The markup placing an image asset inline.
pub open spec fn boxed_image(name: Seq<char>) -> Seq<char> {
    "#box(image(\""@ + name + "\"))"@
}

/// The last-resort markup: the source verbatim.
pub open spec fn raw_markup(tex: Seq<char>) -> Seq<char> {
    "#raw("@ + quoted(tex) + ")"@
}

/// The assets of a rendering as `(name, bytes)` pairs.
pub open spec fn assets_view(a: Seq<MathAsset>) -> Seq<(Seq<char>, Seq<u8>)> {
    a.map_values(|x: MathAsset| (x.name@, x.svg@))
}

/// A rendering as its markup, tier and assets.
pub open spec fn render_view(r: MathRender) -> (Seq<char>, Tier, Seq<(Seq<char>, Seq<u8>)>) {
    (r.typst@, r.tier, assets_view(r.assets@))
}

/// The bytes of an optional `SVG`.
pub open spec fn svg_view(svg: Option<Vec<u8>>) -> Option<Seq<u8>> {
    match svg {
        Some(b) => Some(b@),
        None => None,
    }
}

/// What the pipeline makes of `tex` given the engine's conversion `conv` of the
/// normalized formula, whether that conversion compiled, and the usable `SVG`
/// of the normalized formula if there is one: the converted markup when it
/// compiled; else the image, named by the hash of the source as given; else
/// the source verbatim.
pub open spec fn math_output(
    conv: Result<Seq<char>, Seq<char>>,
    tex: Seq<char>,
    display: bool,
    compiled: bool,
    svg: Option<Seq<u8>>,
) -> (Seq<char>, Tier, Seq<(Seq<char>, Seq<u8>)>) {
    let name = math_asset_name(default_hash_of(tex));
    if conv is Ok && compiled {
        (wrapped_math(conv->Ok_0, display), Tier::Tex, seq![])
    } else if svg is Some {
        (boxed_image(name), Tier::Image, seq![(name, svg->Some_0)])
    } else {
        (raw_markup(tex), Tier::Raw, seq![])
    }
}

// =============================================================================
// Implementation
// =============================================================================

/// Wrap converted math markup in `$...$`; surrounding spaces request display
/// (block) style in `Typst`.
pub fn wrap_math(math: &str, display: bool) -> (r: String)
    ensures
        r@ == wrapped_math(math@, display),
{
    let mut out: Vec<char> = Vec::new();
    if display {
        push_str(&mut out, "$ ");
        push_str(&mut out, math);
        push_str(&mut out, " $");
    } else {
        push_str(&mut out, "$");
        push_str(&mut out, math);
        push_str(&mut out, "$");
    }
    string_of(&out)
}

/// Appends the escaped body of a `Typst` string literal for `v`.
fn push_escaped(out: &mut Vec<char>, v: &[char])
    ensures
        final(out)@ == old(out)@ + escaped(v@),
{
    let mut i: usize = 0;
    proof {
        assert(old(out)@ + escaped(v@.take(0)) =~= old(out)@);
    }
    while i < v.len()
        invariant
            i <= v@.len(),
            out@ == old(out)@ + escaped(v@.take(i as int)),
        decreases v@.len() - i,
    {
        let ghost before = out@;
        let c = v[i];
        if c == '\\' {
            out.push('\\');
            out.push('\\');
        } else if c == '"' {
            out.push('\\');
            out.push('"');
        } else if c == '\n' {
            out.push(' ');
        } else {
            out.push(c);
        }
        proof {
            assert(v@.take(i + 1).drop_last() =~= v@.take(i as int));
            assert(out@ =~= before + escape_char(c));
        }
        i = i + 1;
    }
    proof {
        assert(v@.take(v@.len() as int) =~= v@);
    }
}

/// Escape a string for a `Typst` double-quoted string literal.
pub fn typst_string(s: &str) -> (r: String)
    ensures
        r@ == quoted(s@),
{
    let v = chars_of(s);
    let mut out: Vec<char> = Vec::new();
    out.push('"');
    push_escaped(&mut out, &v);
    out.push('"');
    proof {
        assert(out@ =~= quoted(s@));
    }
    string_of(&out)
}

/// The standalone document that checks whether `math` compiles: a minimal
/// auto-sized page holding the wrapped formula.
pub fn check_source_of(math: &str, display: bool) -> (s: String)
    ensures
        s@ == check_source(math@, display),
{
    let mut src: Vec<char> = Vec::new();
    push_str(&mut src, "#set page(width: auto, height: auto, margin: 2pt)\n");
    let w = wrap_math(math, display);
    push_str(&mut src, w.as_str());
    push_str(&mut src, "\n");
    string_of(&src)
}

/// True if `math` (the contents of `$...$`) compiles as valid `Typst`: the
/// compiler is handed exactly [`check_source_of`]`(math, display)`. The
/// verdict is the compiler's and is not stated (its world reads the date).
pub fn compiles(math: &str, display: bool) -> bool {
    let s = check_source_of(math, display);
    compiles_in_typst(s.as_str())
}

/// Whether the bytes `<svg` occur in `b`.
fn has_svg_tag(b: &[u8]) -> (r: bool)
    ensures
        r == exists|i: int| #[trigger] occurs_at_bytes(b@, i, svg_tag()),
{
    let n = b.len();
    if n < 4 {
        return false;
    }
    let mut i: usize = 0;
    while i <= n - 4
        invariant
            n == b@.len(),
            n >= 4,
            i <= n - 3,
            forall|k: int| 0 <= k < i ==> !#[trigger] occurs_at_bytes(b@, k, svg_tag()),
        decreases n - i,
    {
        if b[i] == 0x3c && b[i + 1] == 0x73 && b[i + 2] == 0x76 && b[i + 3] == 0x67 {
            proof {
                assert(b@.subrange(i as int, i + 4) =~= svg_tag());
                assert(occurs_at_bytes(b@, i as int, svg_tag()));
            }
            return true;
        }
        proof {
            if occurs_at_bytes(b@, i as int, svg_tag()) {
                assert(b@.subrange(i as int, i + 4)[0] == b@[i as int]);
                assert(b@.subrange(i as int, i + 4)[1] == b@[i + 1]);
                assert(b@.subrange(i as int, i + 4)[2] == b@[i + 2]);
                assert(b@.subrange(i as int, i + 4)[3] == b@[i + 3]);
            }
        }
        i = i + 1;
    }
    proof {
        assert forall|k: int| !#[trigger] occurs_at_bytes(b@, k, svg_tag()) by {
            if 0 <= k < i {
            } else {
            }
        }
    }
    false
}

/// The rendered bytes when they make a usable `SVG`, else `None`: the check
/// that [`render_svg`] applies to what `RaTeX` drew.
pub fn usable_or_none(b: Vec<u8>) -> (r: Option<Vec<u8>>)
    ensures
        r == (if usable_svg(b@) {
            Some(b)
        } else {
            None
        }),
{
    if b.len() > 200 && has_svg_tag(&b) {
        Some(b)
    } else {
        None
    }
}

/// Render `tex` (math-mode `LaTeX`) to a standalone `SVG` document. `None` if
/// `RaTeX` cannot parse it; otherwise the drawing of `tex` in the requested
/// style, kept by [`usable_or_none`] only when it is a usable `SVG`.
pub fn render_svg(tex: &str, display: bool) -> (r: Option<Vec<u8>>)
    ensures
        !ratex_parses(tex@) ==> r is None,
        r matches Some(b) ==> usable_svg(b@),
{
    match ratex_parse(tex) {
        Some(nodes) => {
            let laid_out = ratex_layout(&nodes, display);
            let list = ratex_display_list(&laid_out);
            let b = ratex_svg_bytes(&list);
            usable_or_none(b)
        },
        None => None,
    }
}

/// The native-tier result for converted math.
fn tex_render(math: &str, display: bool) -> (r: MathRender)
    ensures
        r.tier == Tier::Tex,
        r.typst@ == wrapped_math(math@, display),
        r.assets@.len() == 0,
{
    MathRender { typst: wrap_math(math, display), tier: Tier::Tex, assets: Vec::new() }
}

/// The image-tier result for an `SVG` and the hash of the formula's source.
fn image_render(svg: Vec<u8>, h: u64) -> (r: MathRender)
    ensures
        r.tier == Tier::Image,
        r.typst@ == boxed_image(math_asset_name(h)),
        r.assets@.len() == 1,
        r.assets@[0].name@ == math_asset_name(h),
        r.assets@[0].svg@ == svg@,
{
    let mut name: Vec<char> = Vec::new();
    push_str(&mut name, "math-");
    push_hex_padded(&mut name, h, 16);
    push_str(&mut name, ".svg");
    let mut typst: Vec<char> = Vec::new();
    push_str(&mut typst, "#box(image(\"");
    push_all(&mut typst, &name);
    push_str(&mut typst, "\"))");
    let mut assets: Vec<MathAsset> = Vec::new();
    assets.push(MathAsset { name: string_of(&name), svg });
    MathRender { typst: string_of(&typst), tier: Tier::Image, assets }
}

/// The raw-tier result: the source verbatim.
fn raw_render(tex: &str) -> (r: MathRender)
    ensures
        r.tier == Tier::Raw,
        r.typst@ == raw_markup(tex@),
        r.assets@.len() == 0,
{
    let mut out: Vec<char> = Vec::new();
    push_str(&mut out, "#raw(");
    let q = typst_string(tex);
    push_str(&mut out, q.as_str());
    push_str(&mut out, ")");
    MathRender { typst: string_of(&out), tier: Tier::Raw, assets: Vec::new() }
}

/// Converts formulas to `Typst`, degrading through tiers. Owns the `TeX`
/// backend; cheap to construct, intended to be reused across a document.
pub struct MathPipeline<E: TexMathEngine = Tex2TypstRs> {
    engine: E,
}

impl Default for MathPipeline<Tex2TypstRs> {
    fn default() -> (r: Self)
        ensures
            r.engine() == Tex2TypstRs,
    {
        MathPipeline { engine: Tex2TypstRs }
    }
}

impl<E: TexMathEngine> MathPipeline<E> {
    /// The `TeX` backend.
    pub closed spec fn engine(&self) -> E {
        self.engine
    }

    /// Build a pipeline with a specific `TeX` backend.
    pub fn with_engine(engine: E) -> (r: Self)
        ensures
            r.engine() == engine,
    {
        MathPipeline { engine }
    }

    /// Convert one formula, degrading through tiers as needed. The formula is
    /// normalized first; the engine's conversion of it is accepted only when
    /// it compiles, else the `RaTeX` image of the normalized formula is used
    /// when usable, else the source as given is shown verbatim.
    pub fn render(&self, src: &MathSource) -> (r: MathRender)
        ensures
            exists|c: Result<Seq<char>, Seq<char>>, compiled: bool, svg: Option<Seq<u8>>|
                #![trigger math_output(c, src.tex@, src.display, compiled, svg)]
                {
                    &&& self.engine().converts(normalized(src.tex@), c)
                    &&& svg matches Some(b) ==> usable_svg(b)
                    &&& !ratex_parses(normalized(src.tex@)) ==> svg is None
                    &&& render_view(r) == math_output(c, src.tex@, src.display, compiled, svg)
                },
    {
        let tex = normalize(src.tex);
        let conv = self.engine.convert(tex.as_str());
        let compiled = match &conv {
            Ok(math) => compiles(math.as_str(), src.display),
            Err(_) => false,
        };
        let svg = if conv.is_ok() && compiled {
            None
        } else {
            render_svg(tex.as_str(), src.display)
        };
        let ghost c = conversion_view(conv);
        let ghost v = svg_view(svg);
        let r = render_from(src, conv, compiled, svg);
        proof {
            assert(render_view(r) == math_output(c, src.tex@, src.display, compiled, v));
        }
        r
    }
}

/// The rendering of `src` given the engine's conversion of the normalized
/// formula, whether that conversion compiled, and the `SVG` of the normalized
/// formula if one was made: the tier choice of [`MathPipeline::render`].
pub fn render_from(
    src: &MathSource,
    conv: Result<String, String>,
    compiled: bool,
    svg: Option<Vec<u8>>,
) -> (r: MathRender)
    ensures
        render_view(r) == math_output(
            conversion_view(conv),
            src.tex@,
            src.display,
            compiled,
            svg_view(svg),
        ),
{
    let ghost c = conversion_view(conv);
    let ghost v = svg_view(svg);
    if let Ok(math) = conv {
        if compiled {
            let r = tex_render(math.as_str(), src.display);
            proof {
                assert(render_view(r) == math_output(c, src.tex@, src.display, compiled, v));
            }
            return r;
        }
    }
    if let Some(b) = svg {
        let h = hash(src.tex);
        let r = image_render(b, h);
        proof {
            assert(render_view(r) == math_output(c, src.tex@, src.display, compiled, v));
        }
        return r;
    }
    let r = raw_render(src.tex);
    proof {
        assert(render_view(r) == math_output(c, src.tex@, src.display, compiled, v));
    }
    r
}

} // verus!
