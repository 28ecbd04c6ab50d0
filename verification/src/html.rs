//! Structured HTML to `Typst` import, targeting `LaTeXML` output (`arXiv` HTML).
//!
//! The page is parsed into an [`HtmlElement`] tree; the document content is
//! isolated (the table of contents, navigation and page chrome dropped) and
//! walked into `Typst` markup. `<math>` elements go through the math pipeline;
//! images are fetched through an injected [`AssetResolver`], so this module
//! stays free of I/O.

use vstd::prelude::*;

use scraper::node::Node;
use scraper::{ElementRef, Html};

use crate::table::Align;
use crate::text::{
    char_width, chars_of, eq_chars, eq_str, is_alnum, is_alphanumeric, is_ascii_alphanumeric,
    is_whitespace, is_ws, lower_all, lowercase, parse_usize, parsed_usize, push_all, push_str,
    slice_chars, string_of, trim, trim_chars, alphanumeric, utf8_len,
};

verus! {

// =============================================================================
// The document tree
// =============================================================================

/// An element: its (lowercase) name, its attributes, its classes (as the
/// parser reports them: split at ASCII whitespace, sorted, deduplicated), and
/// its children.
#[derive(Debug)]
pub struct HtmlElement {
    pub name: String,
    pub attrs: Vec<(String, String)>,
    pub classes: Vec<String>,
    pub children: Vec<HtmlNode>,
}

/// A node of the document tree.
#[derive(Debug)]
pub enum HtmlNode {
    Element(HtmlElement),
    Text(String),
    /// Comments, doctypes and processing instructions.
    Other,
}

/// The value of an element.
pub struct ElementV {
    pub name: Seq<char>,
    pub attrs: Seq<(Seq<char>, Seq<char>)>,
    pub classes: Seq<Seq<char>>,
    pub children: Seq<NodeV>,
}

/// The value of a node.
pub enum NodeV {
    Element(ElementV),
    Text(Seq<char>),
    Other,
}

/// The values of a list of attributes.
pub open spec fn attrs_view(a: Seq<(String, String)>) -> Seq<(Seq<char>, Seq<char>)> {
    a.map_values(|p: (String, String)| (p.0@, p.1@))
}

/// The values of a list of strings.
pub open spec fn strings_view(a: Seq<String>) -> Seq<Seq<char>> {
    a.map_values(|p: String| p@)
}

/// The value of an element.
pub open spec fn element_view(e: HtmlElement) -> ElementV
    decreases e,
{
    ElementV {
        name: e.name@,
        attrs: attrs_view(e.attrs@),
        classes: strings_view(e.classes@),
        children: nodes_view(e.children@),
    }
}

/// The value of a node.
pub open spec fn node_view(n: HtmlNode) -> NodeV
    decreases n,
{
    match n {
        HtmlNode::Element(e) => NodeV::Element(element_view(e)),
        HtmlNode::Text(t) => NodeV::Text(t@),
        HtmlNode::Other => NodeV::Other,
    }
}

/// The values of a list of nodes.
pub open spec fn nodes_view(s: Seq<HtmlNode>) -> Seq<NodeV>
    decreases s,
{
    if s.len() == 0 {
        seq![]
    } else {
        nodes_view(s.drop_last()).push(node_view(s.last()))
    }
}

pub proof fn lemma_nodes_view(s: Seq<HtmlNode>)
    ensures
        nodes_view(s).len() == s.len(),
        forall|i: int| 0 <= i < s.len() ==> nodes_view(s)[i] == node_view(#[trigger] s[i]),
    decreases s.len(),
{
    if s.len() > 0 {
        lemma_nodes_view(s.drop_last());
        assert forall|i: int| 0 <= i < s.len() implies nodes_view(s)[i] == node_view(
            #[trigger] s[i],
        ) by {
            if i < s.len() - 1 {
                assert(s.drop_last()[i] == s[i]);
            }
        }
    }
}

/// The tree `scraper` (`html5ever`) builds for an HTML document: its root
/// `<html>` element.
pub uninterp spec fn parsed_html(html: Seq<char>) -> ElementV;

/// The `scraper` element-reference type, carried opaquely into the converter.
#[verifier::external_type_specification]
#[verifier::external_body]
pub struct ExElementRef<'a>(ElementRef<'a>);

/// Parses `html` with `scraper::Html::parse_document` and converts its root
/// element. The parser is the crate's; the contract names the tree as a
/// function of the source alone.
#[verifier::external_body]
pub(crate) fn parse_html(html: &str) -> (r: HtmlElement)
    ensures
        element_view(r) == parsed_html(html@),
{
    element_of(Html::parse_document(html).root_element())
}

/// Converts a `scraper` element and its subtree, node for node.
#[verifier::external_body]
fn element_of(e: ElementRef) -> HtmlElement {
    let v = e.value();
    let children = e.children().map(|c| match c.value() {
        Node::Text(t) => HtmlNode::Text(t.text.to_string()),
        Node::Element(_) => ElementRef::wrap(c).map_or(HtmlNode::Other, |x| HtmlNode::Element(element_of(x))),
        _ => HtmlNode::Other,
    }).collect();
    let attrs = v.attrs().map(|(k, x)| (k.to_string(), x.to_string())).collect();
    let classes = v.classes().map(|c| c.to_string()).collect();
    HtmlElement { name: v.name().to_string(), attrs, classes, children }
}

// =============================================================================
// Element queries
// =============================================================================

/// The value of the first attribute named `name`.
pub open spec fn attr_of(attrs: Seq<(Seq<char>, Seq<char>)>, name: Seq<char>) -> Option<Seq<char>>
    decreases attrs.len(),
{
    if attrs.len() == 0 {
        None
    } else if attrs[0].0 == name {
        Some(attrs[0].1)
    } else {
        attr_of(attrs.drop_first(), name)
    }
}

/// Whether the element has class `c`.
pub open spec fn has_class(e: ElementV, c: Seq<char>) -> bool {
    e.classes.contains(c)
}

impl HtmlElement {
    /// The value of attribute `name`, if present.
    pub fn attr(&self, name: &str) -> (r: Option<&String>)
        ensures
            match attr_of(element_view(*self).attrs, name@) {
                Some(v) => r matches Some(x) && x@ == v,
                None => r is None,
            },
    {
        let n = chars_of(name);
        let ghost av = attrs_view(self.attrs@);
        let mut i: usize = 0;
        proof {
            assert(av.skip(0) =~= av);
        }
        while i < self.attrs.len()
            invariant
                i <= self.attrs@.len(),
                n@ == name@,
                av == attrs_view(self.attrs@),
                av == element_view(*self).attrs,
                attr_of(av, name@) == attr_of(av.skip(i as int), name@),
            decreases self.attrs@.len() - i,
        {
            proof {
                assert(av.skip(i as int)[0] == av[i as int]);
                assert(av[i as int] == (self.attrs@[i as int].0@, self.attrs@[i as int].1@));
                assert(av.skip(i as int).drop_first() =~= av.skip(i + 1));
            }
            let k = chars_of(self.attrs[i].0.as_str());
            if eq_chars(&k, &n) {
                return Some(&self.attrs[i].1);
            }
            i = i + 1;
        }
        None
    }

    /// Whether the element has class `c`.
    pub fn has_class(&self, c: &str) -> (r: bool)
        ensures
            r == has_class(element_view(*self), c@),
    {
        let target = chars_of(c);
        let ghost cv = strings_view(self.classes@);
        let mut i: usize = 0;
        while i < self.classes.len()
            invariant
                i <= self.classes@.len(),
                target@ == c@,
                cv == strings_view(self.classes@),
                cv == element_view(*self).classes,
                forall|k: int| 0 <= k < i ==> cv[k] != c@,
            decreases self.classes@.len() - i,
        {
            let k = chars_of(self.classes[i].as_str());
            proof {
                assert(cv[i as int] == self.classes@[i as int]@);
            }
            if eq_chars(&k, &target) {
                return true;
            }
            i = i + 1;
        }
        proof {
            if cv.contains(c@) {
                let k = choose|k: int| 0 <= k < cv.len() && cv[k] == c@;
                assert(cv[k] == c@);
            }
        }
        false
    }

    /// Whether the element's name is `n`.
    pub fn is_named(&self, n: &str) -> (r: bool)
        ensures
            r == (element_view(*self).name == n@),
    {
        eq_str(&chars_of(self.name.as_str()), n)
    }
}

// =============================================================================
// Text helpers
// =============================================================================

/// A `Typst` label name for an HTML `id`: every character that is not an ASCII
/// letter or digit becomes `-`.
pub open spec fn sanitized(id: Seq<char>) -> Seq<char> {
    id.map_values(|c: char| if is_alnum(c) { c } else { '-' })
}

/// Turns an HTML `id` into a `Typst` label name. Applied identically at the
/// citation and at the bibliography entry, so the two always agree.
pub fn sanitize_label(id: &str) -> (r: String)
    ensures
        r@ == sanitized(id@),
{
    let v = chars_of(id);
    let mut out: Vec<char> = Vec::new();
    let mut i: usize = 0;
    while i < v.len()
        invariant
            i <= v@.len(),
            out@ =~= sanitized(v@.take(i as int)),
        decreases v@.len() - i,
    {
        let c = v[i];
        if is_ascii_alphanumeric(c) {
            out.push(c);
        } else {
            out.push('-');
        }
        i = i + 1;
        proof {
            assert(sanitized(v@.take(i as int)) =~= sanitized(v@.take(i - 1)).push(
                if is_alnum(v@[i - 1]) { v@[i - 1] } else { '-' },
            ));
        }
    }
    proof {
        assert(v@.take(v@.len() as int) =~= v@);
    }
    string_of(&out)
}

/// `s` with every run of whitespace collapsed to one space.
pub open spec fn collapsed(s: Seq<char>) -> Seq<char>
    decreases s.len(),
{
    if s.len() == 0 {
        seq![]
    } else if is_ws(s.last()) {
        if s.len() > 1 && is_ws(s[s.len() - 2]) {
            collapsed(s.drop_last())
        } else {
            collapsed(s.drop_last()).push(' ')
        }
    } else {
        collapsed(s.drop_last()).push(s.last())
    }
}

/// Collapses runs of whitespace to single spaces (HTML inline-text semantics).
pub fn collapse_ws(s: &str) -> (r: String)
    ensures
        r@ == collapsed(s@),
{
    let v = chars_of(s);
    let mut out: Vec<char> = Vec::new();
    let mut prev_ws = false;
    let mut i: usize = 0;
    while i < v.len()
        invariant
            i <= v@.len(),
            out@ == collapsed(v@.take(i as int)),
            prev_ws == (i > 0 && is_ws(v@[i - 1])),
        decreases v@.len() - i,
    {
        let c = v[i];
        let ghost t = v@.take(i + 1);
        proof {
            assert(t.drop_last() =~= v@.take(i as int));
            assert(t.last() == c);
            if i > 0 {
                assert(t[t.len() - 2] == v@[i - 1]);
            }
        }
        if is_whitespace(c) {
            if !prev_ws {
                out.push(' ');
            }
            prev_ws = true;
        } else {
            out.push(c);
            prev_ws = false;
        }
        i = i + 1;
    }
    proof {
        assert(v@.take(v@.len() as int) =~= v@);
    }
    string_of(&out)
}

/// The index of the first `?` or `#` at or after `i`, else the length.
pub open spec fn query_start(s: Seq<char>, i: int) -> int
    decreases s.len() - i,
{
    if i >= s.len() || i < 0 {
        s.len() as int
    } else if s[i] == '?' || s[i] == '#' {
        i
    } else {
        query_start(s, i + 1)
    }
}

/// The index of the last `c` before `j`.
pub open spec fn last_index(s: Seq<char>, c: char, j: int) -> Option<int>
    decreases j,
{
    if j <= 0 {
        None
    } else if s[j - 1] == c {
        Some(j - 1)
    } else {
        last_index(s, c, j - 1)
    }
}

/// The last segment of a path: what follows its last `/`.
pub open spec fn last_segment(path: Seq<char>) -> Seq<char> {
    match last_index(path, '/', path.len() as int) {
        Some(k) => path.skip(k + 1),
        None => path,
    }
}

/// An extension is kept when it is at most five bytes of letters and digits.
pub open spec fn ext_usable(ext: Seq<char>) -> bool {
    utf8_len(ext) <= 5 && forall|i: int| 0 <= i < ext.len() ==> alphanumeric(#[trigger] ext[i])
}

/// The file extension of a URL or path (lowercased, with its dot): the part
/// after the last `.` of the last path segment, once any query or fragment is
/// dropped, when it is usable; else `.png`.
pub open spec fn extension(src: Seq<char>) -> Seq<char> {
    let file = last_segment(src.take(query_start(src, 0)));
    match last_index(file, '.', file.len() as int) {
        Some(d) => if ext_usable(file.skip(d + 1)) {
            seq!['.'] + lower_all(file.skip(d + 1))
        } else {
            ".png"@
        },
        None => ".png"@,
    }
}

proof fn lemma_query_start(s: Seq<char>, i: int)
    requires
        0 <= i <= s.len(),
    ensures
        i <= query_start(s, i) <= s.len(),
    decreases s.len() - i,
{
    if i < s.len() && !(s[i] == '?' || s[i] == '#') {
        lemma_query_start(s, i + 1);
    }
}

proof fn lemma_last_index(s: Seq<char>, c: char, j: int)
    requires
        0 <= j <= s.len(),
    ensures
        last_index(s, c, j) matches Some(k) ==> 0 <= k < j && s[k] == c,
    decreases j,
{
    if j > 0 && s[j - 1] != c {
        lemma_last_index(s, c, j - 1);
    }
}

/// The index of the last `c` in `v[..j]`.
fn find_last(v: &[char], c: char, j: usize) -> (r: Option<usize>)
    requires
        j <= v@.len(),
    ensures
        match last_index(v@, c, j as int) {
            Some(k) => r == Some(k as usize),
            None => r is None,
        },
{
    let mut k = j;
    while k > 0
        invariant
            k <= j <= v@.len(),
            last_index(v@, c, j as int) == last_index(v@, c, k as int),
        decreases k,
    {
        if v[k - 1] == c {
            proof {
                lemma_last_index(v@, c, k as int);
            }
            return Some(k - 1);
        }
        k = k - 1;
    }
    None
}

/// File extension from a URL or path (lowercased, with its dot), `.png` when
/// there is none.
pub fn ext_of(src: &str) -> (r: String)
    ensures
        r@ == extension(src@),
{
    let v = chars_of(src);
    let mut q: usize = 0;
    while q < v.len() && !(v[q] == '?' || v[q] == '#')
        invariant
            q <= v@.len(),
            query_start(v@, 0) == query_start(v@, q as int),
        decreases v@.len() - q,
    {
        q = q + 1;
    }
    let path = slice_chars(&v, 0, q);
    proof {
        assert(path@ =~= v@.take(query_start(v@, 0)));
    }
    proof {
        lemma_last_index(path@, '/', path@.len() as int);
    }
    let file = match find_last(&path, '/', path.len()) {
        Some(k) => slice_chars(&path, k + 1, path.len()),
        None => path,
    };
    let ghost fv = last_segment(path@);
    proof {
        match last_index(path@, '/', path@.len() as int) {
            Some(k) => assert(file@ =~= path@.skip(k + 1)),
            None => {},
        }
        assert(file@ == fv);
    }
    match find_last(&file, '.', file.len()) {
        Some(d) => {
            proof {
                lemma_last_index(file@, '.', file@.len() as int);
            }
            let ext = slice_chars(&file, d + 1, file.len());
            proof {
                assert(ext@ =~= file@.skip(d + 1));
            }
            let mut bytes: usize = 0;
            let mut all = true;
            let mut i: usize = 0;
            while i < ext.len()
                invariant
                    i <= ext@.len(),
                    bytes <= 9,
                    (bytes <= 5) == (utf8_len(ext@.take(i as int)) <= 5),
                    bytes <= 5 ==> bytes == utf8_len(ext@.take(i as int)),
                    all == (forall|k: int| 0 <= k < i ==> alphanumeric(#[trigger] ext@[k])),
                decreases ext@.len() - i,
            {
                proof {
                    assert(ext@.take(i + 1).drop_last() =~= ext@.take(i as int));
                }
                if bytes <= 5 {
                    bytes = bytes + char_width(ext[i]);
                }
                if !is_alphanumeric(ext[i]) {
                    all = false;
                }
                i = i + 1;
            }
            proof {
                assert(ext@.take(ext@.len() as int) =~= ext@);
            }
            proof {
                assert(last_index(fv, '.', fv.len() as int) == Some(d as int));
            }
            if bytes <= 5 && all {
                let mut out: Vec<char> = Vec::new();
                out.push('.');
                let low = lowercase(&ext);
                push_all(&mut out, &low);
                proof {
                    assert(out@ =~= seq!['.'] + lower_all(ext@));
                }
                string_of(&out)
            } else {
                let mut out: Vec<char> = Vec::new();
                push_str(&mut out, ".png");
                proof {
                    assert(out@ =~= ".png"@);
                    assert(!ext_usable(ext@));
                }
                string_of(&out)
            }
        },
        None => {
            let mut out: Vec<char> = Vec::new();
            push_str(&mut out, ".png");
            proof {
                assert(out@ =~= ".png"@);
                assert(last_index(fv, '.', fv.len() as int) is None);
                assert(out@ == extension(src@));
            }
            string_of(&out)
        },
    }
}

// =============================================================================
// Element helpers
// =============================================================================

/// A `colspan` or `rowspan` value: the attribute, trimmed and parsed as a
/// `usize`, at least 1; a missing or unparseable attribute means 1.
pub open spec fn span_value(attrs: Seq<(Seq<char>, Seq<char>)>, name: Seq<char>) -> usize {
    match attr_of(attrs, name) {
        Some(v) => match parsed_usize(trim(v)) {
            Some(n) => if n >= 1 {
                n
            } else {
                1
            },
            None => 1,
        },
        None => 1,
    }
}

/// The `colspan` or `rowspan` of a cell, at least 1.
pub fn span_attr(e: &HtmlElement, name: &str) -> (r: usize)
    ensures
        r == span_value(element_view(*e).attrs, name@),
{
    match e.attr(name) {
        Some(v) => {
            let t = trim_chars(&chars_of(v.as_str()));
            match parse_usize(&t) {
                Some(n) => if n >= 1 {
                    n
                } else {
                    1
                },
                None => 1,
            }
        },
        None => 1,
    }
}

/// The alignment a class requests, if any.
pub open spec fn class_align(c: Seq<char>) -> Option<Align> {
    if c == "ltx_align_left"@ {
        Some(Align::Left)
    } else if c == "ltx_align_center"@ {
        Some(Align::Center)
    } else if c == "ltx_align_right"@ {
        Some(Align::Right)
    } else {
        None
    }
}

/// The first horizontal alignment among `classes[i..]`.
pub open spec fn classes_align(classes: Seq<Seq<char>>, i: int) -> Option<Align>
    decreases classes.len() - i,
{
    if i < 0 || i >= classes.len() {
        None
    } else if class_align(classes[i]) is Some {
        class_align(classes[i])
    } else {
        classes_align(classes, i + 1)
    }
}

/// The horizontal alignment a cell requests through its first `ltx_align_*`
/// class; vertical and `justify` hints are ignored.
pub fn cell_align(e: &HtmlElement) -> (r: Option<Align>)
    ensures
        r == classes_align(element_view(*e).classes, 0),
{
    let ghost cv = element_view(*e).classes;
    let mut i: usize = 0;
    while i < e.classes.len()
        invariant
            i <= e.classes@.len(),
            cv == strings_view(e.classes@),
            classes_align(cv, 0) == classes_align(cv, i as int),
        decreases e.classes@.len() - i,
    {
        let c = chars_of(e.classes[i].as_str());
        proof {
            assert(cv[i as int] == c@);
        }
        if eq_str(&c, "ltx_align_left") {
            return Some(Align::Left);
        } else if eq_str(&c, "ltx_align_center") {
            return Some(Align::Center);
        } else if eq_str(&c, "ltx_align_right") {
            return Some(Align::Right);
        }
        i = i + 1;
    }
    None
}

/// The text of a list of nodes: their text nodes, in document order.
pub open spec fn nodes_text(s: Seq<NodeV>) -> Seq<char>
    decreases s,
{
    if s.len() == 0 {
        seq![]
    } else {
        nodes_text(s.drop_last()) + node_text(s.last())
    }
}

/// The text under a node.
pub open spec fn node_text(n: NodeV) -> Seq<char>
    decreases n,
{
    match n {
        NodeV::Element(e) => nodes_text(e.children),
        NodeV::Text(t) => t,
        NodeV::Other => seq![],
    }
}

/// Appends the text under `e` (its descendant text nodes, in order).
fn push_text(out: &mut Vec<char>, e: &HtmlElement)
    ensures
        final(out)@ == old(out)@ + nodes_text(element_view(*e).children),
    decreases e,
{
    let ghost cs = element_view(*e).children;
    proof {
        lemma_nodes_view(e.children@);
        assert(old(out)@ + nodes_text(cs.take(0)) =~= old(out)@);
    }
    let mut i: usize = 0;
    while i < e.children.len()
        invariant
            i <= e.children@.len(),
            cs == nodes_view(e.children@),
            cs.len() == e.children@.len(),
            forall|k: int| 0 <= k < cs.len() ==> cs[k] == node_view(#[trigger] e.children@[k]),
            out@ == old(out)@ + nodes_text(cs.take(i as int)),
        decreases e.children@.len() - i,
    {
        proof {
            assert(cs.take(i + 1).drop_last() =~= cs.take(i as int));
            assert(cs.take(i + 1).last() == cs[i as int]);
        }
        let ghost before = out@;
        match &e.children[i] {
            HtmlNode::Element(x) => {
                proof {
                    assert(decreases_to!(e => e.children));
                    assert(decreases_to!(e.children => e.children@));
                    assert(decreases_to!(e.children@ => e.children@[i as int]));
                }
                push_text(out, x);
            },
            HtmlNode::Text(t) => {
                push_str(out, t.as_str());
            },
            HtmlNode::Other => {},
        }
        proof {
            assert(out@ =~= before + node_text(cs[i as int]));
            assert(out@ =~= old(out)@ + nodes_text(cs.take(i + 1)));
        }
        i = i + 1;
    }
    proof {
        assert(cs.take(cs.len() as int) =~= cs);
    }
}

/// The text under `e`.
pub fn text_content(e: &HtmlElement) -> (r: String)
    ensures
        r@ == nodes_text(element_view(*e).children),
{
    let mut out: Vec<char> = Vec::new();
    push_text(&mut out, e);
    proof {
        assert(out@ =~= nodes_text(element_view(*e).children));
    }
    string_of(&out)
}

} // verus!
