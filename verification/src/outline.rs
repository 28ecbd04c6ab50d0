//! Document outline for imported documents, and per-section overrides.
//!
//! The HTML importer records one [`OutlineEntry`] per heading it emits, carrying
//! a byte offset into the converted body. A section's extent runs from its
//! heading to the next heading of equal or shallower level, so hiding an entry
//! hides its whole subtree. [`assemble_body`] applies a set of
//! [`SectionOverride`]s to the cached body with a cheap string pass.

use std::borrow::Cow;
use vstd::prelude::*;

use crate::text::{
    byte_offset, char_width, chars_of, eq_chars, is_alnum, is_ascii_alphanumeric,
    lemma_byte_offset_bound, lemma_byte_offset_grows, lemma_byte_offset_step, lemma_utf8_concat,
    push_all, push_str, slice_chars, string_of, utf8_byte_len, utf8_len, utf8_width,
};

verus! {

/// Override key for the content before the first heading (authors, abstract
/// preamble, ...). It has no [`OutlineEntry`]; only `hidden` applies.
pub const FRONT_MATTER_ID: &'static str = "front-matter";

/// Sentinel the importer plants at each heading so offsets can be recovered
/// after the recursive render (a private-use character).
pub const SECTION_MARK: char = '\u{E000}';

/// One heading in an imported document's outline.
#[derive(Debug, Clone)]
pub struct OutlineEntry {
    /// Stable section id; keys [`SectionOverride`]s.
    pub id: String,
    /// Typst heading level (1-based).
    pub level: u8,
    /// Plain-text heading title, for display.
    pub title: String,
    /// Byte offset of the heading's markup in the body (a character boundary).
    pub offset: usize,
}

/// Per-section presentation overrides.
#[derive(Debug, Clone, Copy, PartialEq, Eq, Structural)]
pub struct SectionOverride {
    /// Drop the section (heading + content + subsections) from the output.
    pub hidden: bool,
    /// Start the section on a new page (`pagebreak(weak: true)`).
    pub break_before: bool,
}

impl Default for SectionOverride {
    fn default() -> (r: Self)
        ensures
            r == SectionOverride::plain(),
    {
        SectionOverride { hidden: false, break_before: false }
    }
}

impl SectionOverride {
    /// The override that changes nothing.
    pub open spec fn plain() -> SectionOverride {
        SectionOverride { hidden: false, break_before: false }
    }

    /// Whether this override changes anything: defaults need not be stored.
    pub fn is_default(self) -> (r: bool)
        ensures
            r == (self == SectionOverride::plain()),
    {
        !self.hidden && !self.break_before
    }
}

/// A map from section id to its override. Later insertions of the same id
/// replace earlier ones.
///
/// The entries are held as a vector of pairs rather than a `HashMap`: vstd's
/// `HashMap` contracts hold only for key types with its key model, which it
/// grants to integer and `bool` keys, not to `String`, so a map keyed by
/// `String` would leave these contracts unproved.
#[derive(Debug, Clone)]
pub struct SectionOverrides {
    entries: Vec<(String, SectionOverride)>,
}

/// The map denoted by a list of `(id, override)` pairs, later pairs winning.
pub open spec fn pairs_map(pairs: Seq<(String, SectionOverride)>) -> Map<Seq<char>, SectionOverride>
    decreases pairs.len(),
{
    if pairs.len() == 0 {
        Map::empty()
    } else {
        pairs_map(pairs.drop_last()).insert(pairs.last().0@, pairs.last().1)
    }
}

/// The override in effect for `id`: the stored one, or the plain default.
pub open spec fn effective(m: Map<Seq<char>, SectionOverride>, id: Seq<char>) -> SectionOverride {
    if m.dom().contains(id) {
        m[id]
    } else {
        SectionOverride::plain()
    }
}

impl View for SectionOverrides {
    type V = Map<Seq<char>, SectionOverride>;

    closed spec fn view(&self) -> Map<Seq<char>, SectionOverride> {
        pairs_map(self.entries@)
    }
}

impl SectionOverrides {
    /// An empty map.
    pub fn new() -> (r: Self)
        ensures
            r@ == Map::<Seq<char>, SectionOverride>::empty(),
    {
        SectionOverrides { entries: Vec::new() }
    }

    /// Set the override for `id`.
    pub fn insert(&mut self, id: String, ov: SectionOverride)
        ensures
            final(self)@ == old(self)@.insert(id@, ov),
    {
        self.entries.push((id, ov));
        proof {
            assert(self.entries@.drop_last() =~= old(self).entries@);
        }
    }

    /// A map holding `pairs`, later pairs replacing earlier ones with the same id.
    pub fn from_pairs(pairs: Vec<(String, SectionOverride)>) -> (r: Self)
        ensures
            r@ == pairs_map(pairs@),
    {
        SectionOverrides { entries: pairs }
    }

    /// The override in effect for `id` (the default when none is stored).
    pub fn get(&self, id: &[char]) -> (r: SectionOverride)
        ensures
            r == effective(self@, id@),
    {
        let mut k = self.entries.len();
        proof {
            assert(self.entries@.take(k as int) =~= self.entries@);
        }
        while k > 0
            invariant
                k <= self.entries@.len(),
                effective(pairs_map(self.entries@), id@) == effective(
                    pairs_map(self.entries@.take(k as int)),
                    id@,
                ),
            decreases k,
        {
            let ghost pre = self.entries@.take(k - 1);
            proof {
                assert(self.entries@.take(k as int).drop_last() =~= pre);
            }
            let key = chars_of(self.entries[k - 1].0.as_str());
            if eq_chars(&key, id) {
                return self.entries[k - 1].1;
            }
            k = k - 1;
        }
        proof {
            assert(self.entries@.take(0) =~= Seq::<(String, SectionOverride)>::empty());
        }
        SectionOverride::default()
    }
}

} // verus!

verus! {

// =============================================================================
// Specification of the assembly
// =============================================================================

/// Offsets are in document order and within the body: what the importer
/// produces, and what slicing the body by them needs.
pub open spec fn offsets_ok(outline: Seq<OutlineEntry>, body_len: int) -> bool {
    &&& forall|i: int, j: int| 0 <= i <= j < outline.len() ==> outline[i].offset <= outline[j].offset
    &&& forall|i: int| 0 <= i < outline.len() ==> outline[i].offset <= body_len
}

/// Where section `i` ends, searching from `j`: at the next heading of equal or
/// shallower level, or the end of the body.
pub open spec fn section_end_from(outline: Seq<OutlineEntry>, i: int, j: int, body_len: int) -> int
    decreases outline.len() - j,
{
    if j < 0 || j >= outline.len() {
        body_len
    } else if outline[j].level <= outline[i].level {
        outline[j].offset as int
    } else {
        section_end_from(outline, i, j + 1, body_len)
    }
}

/// Where section `i` ends.
pub open spec fn section_end_of(outline: Seq<OutlineEntry>, i: int, body_len: int) -> int {
    section_end_from(outline, i, i + 1, body_len)
}

/// No override has any effect: the front matter is shown and every entry's
/// override is the default.
pub open spec fn untouched(outline: Seq<OutlineEntry>, ov: Map<Seq<char>, SectionOverride>) -> bool {
    &&& !effective(ov, FRONT_MATTER_ID@).hidden
    &&& forall|i: int| 0 <= i < outline.len() ==> effective(ov, #[trigger] outline[i].id@) == SectionOverride::plain()
}

/// The weak page break prepended to a section that starts on a new page.
pub open spec fn weak_break() -> Seq<char> {
    "#pagebreak(weak: true)\n"@
}

/// The pass over entries `k..` with the body copied up to `cursor`: the rest
/// of the output and the text of the hidden sections.
pub open spec fn sections_from(
    body: Seq<char>,
    outline: Seq<OutlineEntry>,
    ov: Map<Seq<char>, SectionOverride>,
    k: int,
    cursor: int,
) -> (Seq<char>, Seq<char>)
    decreases outline.len() - k,
{
    if k < 0 || k >= outline.len() {
        (body.subrange(cursor, body.len() as int), seq![])
    } else if outline[k].offset < cursor {
        // swallowed by a hidden enclosing section
        sections_from(body, outline, ov, k + 1, cursor)
    } else {
        let at = outline[k].offset as int;
        let pre = body.subrange(cursor, at);
        let o = effective(ov, outline[k].id@);
        if o.hidden {
            let end = section_end_of(outline, k, body.len() as int);
            let rest = sections_from(body, outline, ov, k + 1, end);
            (pre + rest.0, body.subrange(at, end) + rest.1)
        } else if o.break_before {
            let rest = sections_from(body, outline, ov, k + 1, at);
            (pre + weak_break() + rest.0, rest.1)
        } else {
            let rest = sections_from(body, outline, ov, k + 1, at);
            (pre + rest.0, rest.1)
        }
    }
}

/// Where the visible part starts when the front matter is hidden.
pub open spec fn front_end(outline: Seq<OutlineEntry>, body_len: int) -> int {
    if outline.len() == 0 {
        body_len
    } else {
        outline[0].offset as int
    }
}

/// The output before citations are unwrapped, and all hidden text.
pub open spec fn split_sections(
    body: Seq<char>,
    outline: Seq<OutlineEntry>,
    ov: Map<Seq<char>, SectionOverride>,
) -> (Seq<char>, Seq<char>) {
    if effective(ov, FRONT_MATTER_ID@).hidden {
        let end = front_end(outline, body.len() as int);
        let rest = sections_from(body, outline, ov, 0, end);
        (rest.0, body.subrange(0, end) + rest.1)
    } else {
        sections_from(body, outline, ov, 0, 0)
    }
}

/// The first index at or after `p` holding `c`.
pub open spec fn find_char_from(t: Seq<char>, c: char, p: int) -> Option<int>
    decreases t.len() - p,
{
    if p < 0 || p >= t.len() {
        None
    } else if t[p] == c {
        Some(p)
    } else {
        find_char_from(t, c, p + 1)
    }
}

/// A label name: ASCII letters, digits and `-`.
pub open spec fn label_chars(s: Seq<char>) -> bool {
    forall|i: int| 0 <= i < s.len() ==> is_alnum(#[trigger] s[i]) || s[i] == '-'
}

/// Adds `l` to the label list unless it is already there.
pub open spec fn add_label(acc: Seq<Seq<char>>, l: Seq<char>) -> Seq<Seq<char>> {
    if acc.contains(l) {
        acc
    } else {
        acc.push(l)
    }
}

/// The Typst label definitions `<name>` in `t` from position `p`, in order of
/// first occurrence, appended to `acc`.
pub open spec fn labels_from(t: Seq<char>, p: int, acc: Seq<Seq<char>>) -> Seq<Seq<char>>
    decreases t.len() - p,
{
    if p < 0 || p >= t.len() {
        acc
    } else {
        match find_char_from(t, '<', p) {
            None => acc,
            Some(st) => {
                proof {
                    lemma_find_char_from(t, '<', p);
                }
                let q = st + 1;
                match find_char_from(t, '>', q) {
                    Some(en) => {
                        proof {
                            lemma_find_char_from(t, '>', q);
                        }
                        if en > q && label_chars(t.subrange(q, en)) {
                            labels_from(t, en + 1, add_label(acc, t.subrange(q, en)))
                        } else {
                            labels_from(t, q, acc)
                        }
                    },
                    None => labels_from(t, q, acc),
                }
            },
        }
    }
}

/// The index of the `]` matching an already-open `[`, scanning from `i` with
/// `depth` brackets open.
pub open spec fn bracket_close(s: Seq<char>, i: int, depth: nat) -> Option<int>
    decreases s.len() - i,
{
    if i < 0 || i >= s.len() {
        None
    } else if s[i] == '[' {
        bracket_close(s, i + 1, depth + 1)
    } else if s[i] == ']' {
        if depth <= 1 {
            Some(i)
        } else {
            bracket_close(s, i + 1, (depth - 1) as nat)
        }
    } else {
        bracket_close(s, i + 1, depth)
    }
}

/// The first occurrence of `pat` in `s` at or after `p`.
pub open spec fn find_from(s: Seq<char>, pat: Seq<char>, p: int) -> Option<int>
    decreases s.len() + 1 - p,
{
    if p < 0 || p > s.len() {
        None
    } else if crate::text::occurs_at(s, p, pat) {
        Some(p)
    } else {
        find_from(s, pat, p + 1)
    }
}

/// The link opener `#link(<label>)[` for a label.
pub open spec fn link_needle(label: Seq<char>) -> Seq<char> {
    "#link(<"@ + label + ">)["@
}

/// Replace every `#link(<label>)[content]` (first occurrence first) by its
/// content, stopping at the first whose brackets do not close.
pub open spec fn unwrap_label(out: Seq<char>, needle: Seq<char>) -> Seq<char>
    decreases out.len(),
{
    if needle.len() == 0 {
        out
    } else {
        match find_from(out, needle, 0) {
            None => out,
            Some(start) => {
                let cs = start + needle.len();
                proof {
                    lemma_find_from(out, needle, 0);
                }
                match bracket_close(out, cs, 1) {
                    None => out,
                    Some(close) => {
                        proof {
                            lemma_bracket_close(out, cs, 1);
                        }
                        unwrap_label(
                            out.subrange(0, start) + out.subrange(cs, close) + out.subrange(
                                close + 1,
                                out.len() as int,
                            ),
                            needle,
                        )
                    },
                }
            },
        }
    }
}

/// Unwrap the links to each of `labels`, in order.
pub open spec fn unwrap_labels(out: Seq<char>, labels: Seq<Seq<char>>) -> Seq<char>
    decreases labels.len(),
{
    if labels.len() == 0 {
        out
    } else {
        unwrap_labels(unwrap_label(out, link_needle(labels[0])), labels.drop_first())
    }
}

/// The assembled body: hidden sections dropped, forced breaks inserted, and
/// links to labels defined only in dropped text unwrapped to plain text.
pub open spec fn assembled(
    body: Seq<char>,
    outline: Seq<OutlineEntry>,
    ov: Map<Seq<char>, SectionOverride>,
) -> Seq<char> {
    if untouched(outline, ov) {
        body
    } else {
        let parts = split_sections(body, outline, ov);
        unwrap_labels(parts.0, labels_from(parts.1, 0, seq![]))
    }
}

// =============================================================================
// Laws of the assembly
// =============================================================================

/// Every override other than those listed is the default.
pub open spec fn plain_from(
    outline: Seq<OutlineEntry>,
    ov: Map<Seq<char>, SectionOverride>,
    j: int,
    k: int,
) -> bool {
    forall|m: int| j <= m < k && m < outline.len() ==> effective(ov, #[trigger] outline[m].id@)
        == SectionOverride::plain()
}

/// Reading an override after setting it gives what was set; other ids keep
/// theirs; and storing the default is the same as storing nothing, so
/// defaults need not be stored.
pub proof fn overrides_read_back(
    m: Map<Seq<char>, SectionOverride>,
    id: Seq<char>,
    ov: SectionOverride,
    other: Seq<char>,
)
    ensures
        effective(m.insert(id, ov), id) == ov,
        other != id ==> effective(m.insert(id, ov), other) == effective(m, other),
        effective(m.insert(id, SectionOverride::plain()), other) == effective(m.remove(id), other),
{
}

/// Assembling with one more stored default changes nothing.
pub proof fn storing_a_default_changes_nothing(
    body: Seq<char>,
    outline: Seq<OutlineEntry>,
    m: Map<Seq<char>, SectionOverride>,
    id: Seq<char>,
)
    requires
        !m.dom().contains(id),
    ensures
        assembled(body, outline, m.insert(id, SectionOverride::plain())) == assembled(
            body,
            outline,
            m,
        ),
{
    let m2 = m.insert(id, SectionOverride::plain());
    assert forall|x: Seq<char>| effective(m2, x) == effective(m, x) by {
    }
    lemma_same_effect(body, outline, m, m2);
}

/// Two override maps with the same effect on every id assemble alike.
proof fn lemma_same_effect(
    body: Seq<char>,
    outline: Seq<OutlineEntry>,
    a: Map<Seq<char>, SectionOverride>,
    b: Map<Seq<char>, SectionOverride>,
)
    requires
        forall|x: Seq<char>| effective(a, x) == effective(b, x),
    ensures
        assembled(body, outline, a) == assembled(body, outline, b),
{
    assert(untouched(outline, a) == untouched(outline, b));
    if effective(a, FRONT_MATTER_ID@).hidden {
        lemma_same_pass(body, outline, a, b, 0, front_end(outline, body.len() as int));
    } else {
        lemma_same_pass(body, outline, a, b, 0, 0);
    }
}

proof fn lemma_same_pass(
    body: Seq<char>,
    outline: Seq<OutlineEntry>,
    a: Map<Seq<char>, SectionOverride>,
    b: Map<Seq<char>, SectionOverride>,
    k: int,
    cursor: int,
)
    requires
        forall|x: Seq<char>| effective(a, x) == effective(b, x),
    ensures
        sections_from(body, outline, a, k, cursor) == sections_from(body, outline, b, k, cursor),
    decreases outline.len() - k,
{
    if 0 <= k < outline.len() {
        assert(effective(a, outline[k].id@) == effective(b, outline[k].id@));
        lemma_same_pass(body, outline, a, b, k + 1, cursor);
        lemma_same_pass(body, outline, a, b, k + 1, outline[k].offset as int);
        lemma_same_pass(body, outline, a, b, k + 1, section_end_of(outline, k, body.len() as int));
    }
}

/// Past the last touched entry, the pass copies the rest of the body.
proof fn lemma_plain_tail(
    body: Seq<char>,
    outline: Seq<OutlineEntry>,
    ov: Map<Seq<char>, SectionOverride>,
    j: int,
    cursor: int,
)
    requires
        offsets_ok(outline, body.len() as int),
        0 <= j,
        0 <= cursor <= body.len(),
        plain_from(outline, ov, j, outline.len() as int),
    ensures
        sections_from(body, outline, ov, j, cursor) == (
            body.subrange(cursor, body.len() as int),
            Seq::<char>::empty(),
        ),
    decreases outline.len() - j,
{
    if j < outline.len() {
        if outline[j].offset < cursor {
            lemma_plain_tail(body, outline, ov, j + 1, cursor);
        } else {
            let at = outline[j].offset as int;
            assert(effective(ov, outline[j].id@) == SectionOverride::plain());
            lemma_plain_tail(body, outline, ov, j + 1, at);
            assert(body.subrange(cursor, at) + body.subrange(at, body.len() as int)
                =~= body.subrange(cursor, body.len() as int));
        }
    }
}

/// Before the first touched entry `k`, the pass copies the body up to it.
proof fn lemma_plain_prefix(
    body: Seq<char>,
    outline: Seq<OutlineEntry>,
    ov: Map<Seq<char>, SectionOverride>,
    j: int,
    k: int,
    cursor: int,
)
    requires
        offsets_ok(outline, body.len() as int),
        0 <= j <= k < outline.len(),
        0 <= cursor <= outline[k].offset,
        plain_from(outline, ov, j, k),
    ensures
        sections_from(body, outline, ov, j, cursor).0 == body.subrange(
            cursor,
            outline[k].offset as int,
        ) + sections_from(body, outline, ov, k, outline[k].offset as int).0,
        sections_from(body, outline, ov, j, cursor).1 == sections_from(
            body,
            outline,
            ov,
            k,
            outline[k].offset as int,
        ).1,
    decreases k - j,
{
    let at = outline[k].offset as int;
    if j == k {
        let o = effective(ov, outline[k].id@);
        if o.hidden {
            let end = section_end_of(outline, k, body.len() as int);
            let rest = sections_from(body, outline, ov, k + 1, end);
            assert(body.subrange(at, at) + rest.0 =~= rest.0);
            assert(body.subrange(cursor, at) + (body.subrange(at, at) + rest.0) =~= body.subrange(
                cursor,
                at,
            ) + rest.0);
        } else if o.break_before {
            let rest = sections_from(body, outline, ov, k + 1, at);
            assert(body.subrange(at, at) + weak_break() + rest.0 =~= weak_break() + rest.0);
            assert(body.subrange(cursor, at) + weak_break() + rest.0 =~= body.subrange(cursor, at)
                + (weak_break() + rest.0));
        } else {
            let rest = sections_from(body, outline, ov, k + 1, at);
            assert(body.subrange(at, at) + rest.0 =~= rest.0);
        }
    } else {
        if outline[j].offset < cursor {
            lemma_plain_prefix(body, outline, ov, j + 1, k, cursor);
        } else {
            let oj = outline[j].offset as int;
            assert(effective(ov, outline[j].id@) == SectionOverride::plain());
            assert(oj <= at);
            lemma_plain_prefix(body, outline, ov, j + 1, k, oj);
            assert(body.subrange(cursor, oj) + body.subrange(oj, at) =~= body.subrange(cursor, at));
            assert(body.subrange(cursor, oj) + (body.subrange(oj, at) + sections_from(
                body,
                outline,
                ov,
                k,
                at,
            ).0) =~= body.subrange(cursor, at) + sections_from(body, outline, ov, k, at).0);
        }
    }
}

proof fn lemma_section_end_bounds(outline: Seq<OutlineEntry>, i: int, j: int, body_len: int)
    requires
        offsets_ok(outline, body_len),
        0 <= i < outline.len(),
        i < j,
        outline[i].offset <= body_len,
    ensures
        outline[i].offset <= section_end_from(outline, i, j, body_len) <= body_len,
    decreases outline.len() - j,
{
    if j < outline.len() && outline[j].level > outline[i].level {
        lemma_section_end_bounds(outline, i, j + 1, body_len);
    }
}

proof fn lemma_no_labels_in_nothing()
    ensures
        labels_from(Seq::<char>::empty(), 0, seq![]) == Seq::<Seq<char>>::empty(),
{
}

/// When no override has any effect, the body comes back unchanged.
pub proof fn untouched_overrides_keep_the_body(
    body: Seq<char>,
    outline: Seq<OutlineEntry>,
    ov: Map<Seq<char>, SectionOverride>,
)
    requires
        untouched(outline, ov),
    ensures
        assembled(body, outline, ov) == body,
{
}

/// Forcing a page break before one section (and touching nothing else) puts
/// a weak page break right before its heading and changes nothing else.
pub proof fn break_before_inserts_one_weak_break(
    body: Seq<char>,
    outline: Seq<OutlineEntry>,
    ov: Map<Seq<char>, SectionOverride>,
    k: int,
)
    requires
        offsets_ok(outline, body.len() as int),
        0 <= k < outline.len(),
        !effective(ov, FRONT_MATTER_ID@).hidden,
        !effective(ov, outline[k].id@).hidden,
        effective(ov, outline[k].id@).break_before,
        plain_from(outline, ov, 0, k),
        plain_from(outline, ov, k + 1, outline.len() as int),
    ensures
        assembled(body, outline, ov) == body.subrange(0, outline[k].offset as int) + weak_break()
            + body.subrange(outline[k].offset as int, body.len() as int),
{
    let at = outline[k].offset as int;
    assert(!untouched(outline, ov)) by {
        assert(effective(ov, outline[k].id@) != SectionOverride::plain());
    }
    lemma_plain_tail(body, outline, ov, k + 1, at);
    lemma_plain_prefix(body, outline, ov, 0, k, 0);
    let rest = sections_from(body, outline, ov, k + 1, at);
    assert(sections_from(body, outline, ov, k, at).0 =~= weak_break() + rest.0) by {
        assert(body.subrange(at, at) + weak_break() + rest.0 =~= weak_break() + rest.0);
    }
    lemma_no_labels_in_nothing();
    assert(body.subrange(0, at) + (weak_break() + body.subrange(at, body.len() as int))
        =~= body.subrange(0, at) + weak_break() + body.subrange(at, body.len() as int));
}

/// The positions, in document order, of the entries from `k` on that start
/// on a new page.
pub open spec fn break_points(
    outline: Seq<OutlineEntry>,
    ov: Map<Seq<char>, SectionOverride>,
    k: int,
) -> Seq<int>
    decreases outline.len() - k,
{
    if k < 0 || k >= outline.len() {
        seq![]
    } else if effective(ov, outline[k].id@).break_before {
        seq![outline[k].offset as int] + break_points(outline, ov, k + 1)
    } else {
        break_points(outline, ov, k + 1)
    }
}

/// The body from `cursor` on, with a weak page break inserted at each of
/// the positions `ps` (in order, none before `cursor`).
pub open spec fn with_breaks_at(body: Seq<char>, ps: Seq<int>, cursor: int) -> Seq<char>
    decreases ps.len(),
{
    if ps.len() == 0 {
        body.subrange(cursor, body.len() as int)
    } else {
        body.subrange(cursor, ps[0]) + weak_break() + with_breaks_at(body, ps.drop_first(), ps[0])
    }
}

proof fn lemma_break_points_bound(
    outline: Seq<OutlineEntry>,
    ov: Map<Seq<char>, SectionOverride>,
    k: int,
    body_len: int,
)
    requires
        offsets_ok(outline, body_len),
        0 <= k < outline.len(),
    ensures
        forall|i: int|
            0 <= i < break_points(outline, ov, k).len() ==> outline[k].offset <= #[trigger] break_points(
                outline,
                ov,
                k,
            )[i] <= body_len,
    decreases outline.len() - k,
{
    if k + 1 < outline.len() {
        lemma_break_points_bound(outline, ov, k + 1, body_len);
    }
    let rest = break_points(outline, ov, k + 1);
    if effective(ov, outline[k].id@).break_before {
        let b = break_points(outline, ov, k);
        assert forall|i: int| 0 <= i < b.len() implies outline[k].offset <= #[trigger] b[i] <= body_len by {
            if i > 0 {
                assert(b[i] == rest[i - 1]);
            }
        }
    }
}

proof fn lemma_with_breaks_shift(body: Seq<char>, ps: Seq<int>, cursor: int, at: int)
    requires
        0 <= cursor <= at <= body.len(),
        ps.len() > 0 ==> at <= ps[0] <= body.len(),
    ensures
        with_breaks_at(body, ps, cursor) == body.subrange(cursor, at) + with_breaks_at(body, ps, at),
{
    if ps.len() == 0 {
        assert(body.subrange(cursor, body.len() as int) =~= body.subrange(cursor, at) + body.subrange(
            at,
            body.len() as int,
        ));
    } else {
        assert(body.subrange(cursor, ps[0]) =~= body.subrange(cursor, at) + body.subrange(at, ps[0]));
        let rest = weak_break() + with_breaks_at(body, ps.drop_first(), ps[0]);
        assert(body.subrange(cursor, ps[0]) + rest =~= body.subrange(cursor, at) + (body.subrange(
            at,
            ps[0],
        ) + rest));
        assert(body.subrange(cursor, ps[0]) + weak_break() + with_breaks_at(body, ps.drop_first(), ps[0])
            =~= body.subrange(cursor, ps[0]) + rest);
        assert(body.subrange(at, ps[0]) + weak_break() + with_breaks_at(body, ps.drop_first(), ps[0])
            =~= body.subrange(at, ps[0]) + rest);
    }
}

proof fn lemma_sections_without_hiding(
    body: Seq<char>,
    outline: Seq<OutlineEntry>,
    ov: Map<Seq<char>, SectionOverride>,
    k: int,
    cursor: int,
)
    requires
        offsets_ok(outline, body.len() as int),
        0 <= k,
        0 <= cursor <= body.len(),
        k < outline.len() ==> cursor <= outline[k].offset,
        forall|m: int| 0 <= m < outline.len() ==> !(#[trigger] effective(ov, outline[m].id@)).hidden,
    ensures
        sections_from(body, outline, ov, k, cursor) == (
            with_breaks_at(body, break_points(outline, ov, k), cursor),
            Seq::<char>::empty(),
        ),
    decreases outline.len() - k,
{
    if k < outline.len() {
        let at = outline[k].offset as int;
        assert(!effective(ov, outline[k].id@).hidden);
        lemma_sections_without_hiding(body, outline, ov, k + 1, at);
        let rest = break_points(outline, ov, k + 1);
        if k + 1 < outline.len() {
            lemma_break_points_bound(outline, ov, k + 1, body.len() as int);
            assert(at <= outline[k + 1].offset);
        }
        if effective(ov, outline[k].id@).break_before {
            let b = break_points(outline, ov, k);
            assert(b[0] == at);
            assert(b.drop_first() =~= rest);
        } else {
            lemma_with_breaks_shift(body, rest, cursor, at);
        }
    }
}

/// With no section hidden, the assembled body is the body with a weak page
/// break inserted before the heading of each section that starts on a new
/// page, and nothing else changed.
pub proof fn forced_breaks_are_the_only_change(
    body: Seq<char>,
    outline: Seq<OutlineEntry>,
    ov: Map<Seq<char>, SectionOverride>,
)
    requires
        offsets_ok(outline, body.len() as int),
        !effective(ov, FRONT_MATTER_ID@).hidden,
        forall|m: int| 0 <= m < outline.len() ==> !(#[trigger] effective(ov, outline[m].id@)).hidden,
    ensures
        assembled(body, outline, ov) == with_breaks_at(body, break_points(outline, ov, 0), 0),
{
    lemma_sections_without_hiding(body, outline, ov, 0, 0);
    lemma_no_labels_in_nothing();
    if untouched(outline, ov) {
        assert(break_points(outline, ov, 0) =~= Seq::<int>::empty()) by {
            lemma_no_breaks_when_plain(outline, ov, 0);
        }
        assert(body.subrange(0, body.len() as int) =~= body);
    }
}

proof fn lemma_no_breaks_when_plain(
    outline: Seq<OutlineEntry>,
    ov: Map<Seq<char>, SectionOverride>,
    k: int,
)
    requires
        0 <= k,
        forall|i: int| 0 <= i < outline.len() ==> effective(ov, #[trigger] outline[i].id@) == SectionOverride::plain(),
    ensures
        break_points(outline, ov, k).len() == 0,
    decreases outline.len() - k,
{
    if k < outline.len() {
        assert(effective(ov, outline[k].id@) == SectionOverride::plain());
        lemma_no_breaks_when_plain(outline, ov, k + 1);
    }
}

/// Hiding one section (and touching nothing else) drops exactly its extent,
/// from its heading to the next heading of the same or a shallower level,
/// subsections included; links to labels defined in the dropped text become
/// plain text.
pub proof fn hiding_drops_exactly_the_subtree(
    body: Seq<char>,
    outline: Seq<OutlineEntry>,
    ov: Map<Seq<char>, SectionOverride>,
    k: int,
)
    requires
        offsets_ok(outline, body.len() as int),
        0 <= k < outline.len(),
        !effective(ov, FRONT_MATTER_ID@).hidden,
        effective(ov, outline[k].id@).hidden,
        plain_from(outline, ov, 0, k),
        plain_from(outline, ov, k + 1, outline.len() as int),
    ensures
        ({
            let at = outline[k].offset as int;
            let end = section_end_of(outline, k, body.len() as int);
            &&& at <= end <= body.len()
            &&& assembled(body, outline, ov) == unwrap_labels(
                body.subrange(0, at) + body.subrange(end, body.len() as int),
                labels_from(body.subrange(at, end), 0, seq![]),
            )
        }),
{
    let at = outline[k].offset as int;
    let end = section_end_of(outline, k, body.len() as int);
    lemma_section_end_bounds(outline, k, k + 1, body.len() as int);
    assert(!untouched(outline, ov)) by {
        assert(effective(ov, outline[k].id@) != SectionOverride::plain());
    }
    lemma_plain_tail(body, outline, ov, k + 1, end);
    lemma_plain_prefix(body, outline, ov, 0, k, 0);
    let rest = sections_from(body, outline, ov, k + 1, end);
    assert(sections_from(body, outline, ov, k, at).0 =~= rest.0) by {
        assert(body.subrange(at, at) + rest.0 =~= rest.0);
    }
    assert(sections_from(body, outline, ov, k, at).1 =~= body.subrange(at, end));
}

/// Hiding only the front matter drops the text before the first heading;
/// links to labels defined there become plain text.
pub proof fn hiding_front_matter_drops_the_preamble(
    body: Seq<char>,
    outline: Seq<OutlineEntry>,
    ov: Map<Seq<char>, SectionOverride>,
)
    requires
        offsets_ok(outline, body.len() as int),
        effective(ov, FRONT_MATTER_ID@).hidden,
        plain_from(outline, ov, 0, outline.len() as int),
    ensures
        ({
            let start = front_end(outline, body.len() as int);
            assembled(body, outline, ov) == unwrap_labels(
                body.subrange(start, body.len() as int),
                labels_from(body.subrange(0, start), 0, seq![]),
            )
        }),
{
    let start = front_end(outline, body.len() as int);
    lemma_plain_tail(body, outline, ov, 0, start);
    assert(body.subrange(0, start) + Seq::<char>::empty() =~= body.subrange(0, start));
}

pub proof fn lemma_find_char_from(t: Seq<char>, c: char, p: int)
    requires
        0 <= p,
    ensures
        find_char_from(t, c, p) matches Some(i) ==> p <= i < t.len() && t[i] == c,
        find_char_from(t, c, p) is None ==> forall|i: int| p <= i < t.len() ==> t[i] != c,
    decreases t.len() - p,
{
    if p < t.len() && t[p] != c {
        lemma_find_char_from(t, c, p + 1);
    }
}

pub proof fn lemma_find_from(s: Seq<char>, pat: Seq<char>, p: int)
    requires
        0 <= p,
    ensures
        find_from(s, pat, p) matches Some(i) ==> p <= i && crate::text::occurs_at(s, i, pat),
    decreases s.len() + 1 - p,
{
    if p <= s.len() && !crate::text::occurs_at(s, p, pat) {
        lemma_find_from(s, pat, p + 1);
    }
}

pub proof fn lemma_bracket_close(s: Seq<char>, i: int, depth: nat)
    requires
        0 <= i,
    ensures
        bracket_close(s, i, depth) matches Some(c) ==> i <= c < s.len() && s[c] == ']',
    decreases s.len() - i,
{
    if 0 <= i < s.len() {
        if s[i] == '[' {
            lemma_bracket_close(s, i + 1, depth + 1);
        } else if s[i] == ']' {
            if depth > 1 {
                lemma_bracket_close(s, i + 1, (depth - 1) as nat);
            }
        } else {
            lemma_bracket_close(s, i + 1, depth);
        }
    }
}

} // verus!

verus! {

// =============================================================================
// Implementation
// =============================================================================

/// The views of a list of character vectors.
pub open spec fn views(v: Seq<Vec<char>>) -> Seq<Seq<char>> {
    v.map_values(|x: Vec<char>| x@)
}

pub proof fn lemma_section_end(outline: Seq<OutlineEntry>, i: int, j: int, body_len: int)
    requires
        offsets_ok(outline, body_len),
        0 <= i < outline.len(),
        i < j,
    ensures
        outline[i].offset <= section_end_from(outline, i, j, body_len) <= body_len,
    decreases outline.len() - j,
{
    if j < outline.len() && outline[j].level > outline[i].level {
        lemma_section_end(outline, i, j + 1, body_len);
    }
}

/// Where section `i` ends: at the next heading of equal or shallower level, or
/// the end of the body.
fn section_end(outline: &[OutlineEntry], i: usize, body_len: usize) -> (r: usize)
    requires
        i < outline@.len(),
    ensures
        r == section_end_of(outline@, i as int, body_len as int),
{
    let level = outline[i].level;
    let mut j = i + 1;
    while j < outline.len()
        invariant
            i < j <= outline@.len(),
            level == outline@[i as int].level,
            section_end_of(outline@, i as int, body_len as int) == section_end_from(
                outline@,
                i as int,
                j as int,
                body_len as int,
            ),
        decreases outline@.len() - j,
    {
        if outline[j].level <= level {
            return outline[j].offset;
        }
        j = j + 1;
    }
    body_len
}

/// The first index at or after `p` holding `c`.
fn find_char(t: &[char], c: char, p: usize) -> (r: Option<usize>)
    ensures
        match find_char_from(t@, c, p as int) {
            Some(i) => r == Some(i as usize),
            None => r is None,
        },
{
    let mut i = p;
    while i < t.len()
        invariant
            p <= i,
            find_char_from(t@, c, p as int) == find_char_from(t@, c, i as int),
        decreases t@.len() - i,
    {
        if t[i] == c {
            return Some(i);
        }
        i = i + 1;
    }
    None
}

/// Whether every character of `t[lo..hi]` may appear in a label.
fn all_label_chars(t: &[char], lo: usize, hi: usize) -> (r: bool)
    requires
        lo <= hi <= t@.len(),
    ensures
        r == label_chars(t@.subrange(lo as int, hi as int)),
{
    let mut i = lo;
    while i < hi
        invariant
            lo <= i <= hi <= t@.len(),
            forall|k: int| lo <= k < i ==> is_alnum(#[trigger] t@[k]) || t@[k] == '-',
        decreases hi - i,
    {
        let c = t[i];
        if !(is_ascii_alphanumeric(c) || c == '-') {
            proof {
                assert(t@.subrange(lo as int, hi as int)[i - lo] == c);
            }
            return false;
        }
        i = i + 1;
    }
    proof {
        let sub = t@.subrange(lo as int, hi as int);
        assert forall|k: int| 0 <= k < sub.len() implies is_alnum(#[trigger] sub[k]) || sub[k]
            == '-' by {
            assert(sub[k] == t@[lo + k]);
        }
    }
    true
}

/// Adds `l` to `acc` unless an equal label is already there.
fn push_label(acc: &mut Vec<Vec<char>>, l: Vec<char>)
    ensures
        views(final(acc)@) == add_label(views(old(acc)@), l@),
{
    let mut i: usize = 0;
    while i < acc.len()
        invariant
            i <= acc@.len(),
            acc@ == old(acc)@,
            forall|k: int| 0 <= k < i ==> acc@[k]@ != l@,
        decreases acc@.len() - i,
    {
        if eq_chars(&acc[i], &l) {
            proof {
                assert(views(acc@)[i as int] == l@);
            }
            return;
        }
        i = i + 1;
    }
    proof {
        assert(!views(acc@).contains(l@)) by {
            if views(acc@).contains(l@) {
                let k = choose|k: int| 0 <= k < views(acc@).len() && views(acc@)[k] == l@;
                assert(acc@[k]@ == l@);
            }
        }
    }
    let ghost before = acc@;
    acc.push(l);
    proof {
        assert(views(acc@) =~= views(before).push(l@));
    }
}

/// Typst label definitions (`<name>`) occurring in `text`, each once, in order
/// of first occurrence.
fn labels_in(text: &[char]) -> (r: Vec<Vec<char>>)
    ensures
        views(r@) == labels_from(text@, 0, seq![]),
{
    let mut labels: Vec<Vec<char>> = Vec::new();
    let mut p: usize = 0;
    proof {
        assert(views(labels@) =~= Seq::<Seq<char>>::empty());
    }
    while p < text.len()
        invariant
            p <= text@.len(),
            labels_from(text@, 0, seq![]) == labels_from(text@, p as int, views(labels@)),
        decreases text@.len() - p,
    {
        match find_char(text, '<', p) {
            None => {
                return labels;
            },
            Some(st) => {
                proof {
                    lemma_find_char_from(text@, '<', p as int);
                }
                let q = st + 1;
                match find_char(text, '>', q) {
                    Some(en) => {
                        proof {
                            lemma_find_char_from(text@, '>', q as int);
                        }
                        if en > q && all_label_chars(text, q, en) {
                            push_label(&mut labels, slice_chars(text, q, en));
                            p = en + 1;
                        } else {
                            p = q;
                        }
                    },
                    None => {
                        p = q;
                    },
                }
            },
        }
    }
    labels
}

/// Length of the content before the `]` matching an already-consumed `[`.
fn matched_bracket_len(s: &[char]) -> (r: Option<usize>)
    ensures
        match bracket_close(s@, 0, 1) {
            Some(i) => r == Some(i as usize),
            None => r is None,
        },
{
    let mut depth: u128 = 1;
    let mut i: usize = 0;
    while i < s.len()
        invariant
            i <= s@.len(),
            1 <= depth <= i + 1,
            bracket_close(s@, 0, 1) == bracket_close(s@, i as int, depth as nat),
        decreases s@.len() - i,
    {
        let c = s[i];
        if c == '[' {
            depth = depth + 1;
        } else if c == ']' {
            if depth <= 1 {
                return Some(i);
            }
            depth = depth - 1;
        }
        i = i + 1;
    }
    None
}

/// The first occurrence of `pat` in `s`.
fn find_seq(s: &[char], pat: &[char]) -> (r: Option<usize>)
    ensures
        match find_from(s@, pat@, 0) {
            Some(i) => r == Some(i as usize),
            None => r is None,
        },
{
    let mut p: usize = 0;
    while p <= s.len()
        invariant
            find_from(s@, pat@, 0) == find_from(s@, pat@, p as int),
        decreases s@.len() + 1 - p,
    {
        if crate::text::matches_at(s, p, pat) {
            return Some(p);
        }
        if p == s.len() {
            proof {
                assert(find_from(s@, pat@, p + 1) is None);
            }
            return None;
        }
        p = p + 1;
    }
    None
}

/// Replace every `#link(<label>)[content]` whose label is in `labels` with its
/// plain `content`. Bracket nesting inside the content is respected.
fn unwrap_links_to(out: &mut Vec<char>, labels: &[Vec<char>])
    ensures
        final(out)@ == unwrap_labels(old(out)@, views(labels@)),
{
    let mut li: usize = 0;
    proof {
        assert(views(labels@).skip(0) =~= views(labels@));
    }
    while li < labels.len()
        invariant
            li <= labels@.len(),
            unwrap_labels(old(out)@, views(labels@)) == unwrap_labels(
                out@,
                views(labels@).skip(li as int),
            ),
        decreases labels@.len() - li,
    {
        let mut needle: Vec<char> = Vec::new();
        push_str(&mut needle, "#link(<");
        push_all(&mut needle, &labels[li]);
        push_str(&mut needle, ">)[");
        proof {
            assert(needle@ =~= link_needle(labels@[li as int]@));
            reveal_strlit("#link(<");
            assert(needle@.len() > 0);
        }
        let ghost start_out = out@;
        loop
            invariant
                needle@.len() > 0,
                unwrap_label(start_out, needle@) == unwrap_label(out@, needle@),
            ensures
                unwrap_label(start_out, needle@) == out@,
            decreases out@.len(),
        {
            let out_len = out.len();
            match find_seq(out, &needle) {
                None => {
                    break;
                },
                Some(start) => {
                    proof {
                        lemma_find_from(out@, needle@, 0);
                        assert(start + needle@.len() <= out@.len());
                    }
                    let cs = start + needle.len();
                    let rest = slice_chars(out, cs, out.len());
                    match matched_bracket_len(&rest) {
                        None => {
                            proof {
                                lemma_bracket_shift(out@, cs as int, 1);
                            }
                            break;
                        },
                        Some(len) => {
                            proof {
                                lemma_bracket_shift(out@, cs as int, 1);
                                lemma_bracket_close(rest@, 0, 1);
                            }
                            let close = cs + len;
                            let mut next: Vec<char> = slice_chars(out, 0, start);
                            push_all(&mut next, &slice_chars(out, cs, close));
                            push_all(&mut next, &slice_chars(out, close + 1, out.len()));
                            *out = next;
                        },
                    }
                },
            }
        }
        proof {
            assert(views(labels@).skip(li as int).drop_first() =~= views(labels@).skip(li + 1));
        }
        li = li + 1;
    }
}

/// Scanning a suffix for the matching bracket finds the same bracket, shifted.
pub proof fn lemma_bracket_shift(s: Seq<char>, cs: int, depth: nat)
    requires
        0 <= cs <= s.len(),
    ensures
        match bracket_close(s.subrange(cs, s.len() as int), 0, depth) {
            Some(i) => bracket_close(s, cs, depth) == Some(cs + i),
            None => bracket_close(s, cs, depth) is None,
        },
    decreases s.len() - cs,
{
    let t = s.subrange(cs, s.len() as int);
    lemma_bracket_suffix(s, cs, 0, depth);
}

proof fn lemma_bracket_suffix(s: Seq<char>, cs: int, i: int, depth: nat)
    requires
        0 <= cs <= s.len(),
        0 <= i <= s.len() - cs,
    ensures
        match bracket_close(s.subrange(cs, s.len() as int), i, depth) {
            Some(k) => bracket_close(s, cs + i, depth) == Some(cs + k),
            None => bracket_close(s, cs + i, depth) is None,
        },
    decreases s.len() - cs - i,
{
    let t = s.subrange(cs, s.len() as int);
    if i < t.len() {
        assert(t[i] == s[cs + i]);
        if t[i] == '[' {
            lemma_bracket_suffix(s, cs, i + 1, depth + 1);
        } else if t[i] == ']' {
            if depth > 1 {
                lemma_bracket_suffix(s, cs, i + 1, (depth - 1) as nat);
            }
        } else {
            lemma_bracket_suffix(s, cs, i + 1, depth);
        }
    }
}

} // verus!

verus! {

/// Whether byte offset `b` of `s` falls between two characters.
pub open spec fn on_boundary(s: Seq<char>, b: int) -> bool {
    exists|k: int| 0 <= k <= s.len() && #[trigger] byte_offset(s, k) == b
}

/// The character position of byte offset `b` of `s`.
pub open spec fn char_at_byte(s: Seq<char>, b: int) -> int {
    choose|k: int| 0 <= k <= s.len() && #[trigger] byte_offset(s, k) == b
}

/// An outline entry with its byte offset in `s` turned into a character
/// position.
pub open spec fn entry_in_chars(e: OutlineEntry, s: Seq<char>) -> OutlineEntry {
    OutlineEntry { offset: char_at_byte(s, e.offset as int) as usize, ..e }
}

/// An outline with its byte offsets in `s` turned into character positions.
pub open spec fn outline_in_chars(outline: Seq<OutlineEntry>, s: Seq<char>) -> Seq<OutlineEntry> {
    outline.map_values(|e: OutlineEntry| entry_in_chars(e, s))
}

/// Byte offsets in document order, each on a character boundary of the body:
/// what the importer produces, and what slicing the body by them needs.
pub open spec fn byte_offsets_ok(outline: Seq<OutlineEntry>, body: Seq<char>) -> bool {
    &&& forall|i: int, j: int| 0 <= i <= j < outline.len() ==> outline[i].offset <= outline[j].offset
    &&& forall|i: int| 0 <= i < outline.len() ==> on_boundary(body, #[trigger] outline[i].offset as int)
}

/// A character position is the only one at its byte offset.
proof fn lemma_char_at_byte(s: Seq<char>, k: int)
    requires
        0 <= k <= s.len(),
    ensures
        char_at_byte(s, byte_offset(s, k)) == k,
{
    let b = byte_offset(s, k);
    assert(on_boundary(s, b));
    let c = char_at_byte(s, b);
    if c < k {
        lemma_byte_offset_grows(s, c, k);
    } else if c > k {
        lemma_byte_offset_grows(s, k, c);
    }
}

/// Byte offsets on character boundaries name character positions: each
/// entry moves to the position whose preceding characters take up exactly
/// its byte offset, keeps its id and level, and the positions keep the
/// document order, so the assembly of [`assemble_body`] cuts the body where
/// slicing it at the byte offsets would.
pub proof fn byte_offsets_name_character_positions(outline: Seq<OutlineEntry>, body: Seq<char>)
    requires
        byte_offsets_ok(outline, body),
        body.len() <= usize::MAX,
    ensures
        offsets_ok(outline_in_chars(outline, body), body.len() as int),
        outline_in_chars(outline, body).len() == outline.len(),
        forall|i: int|
            0 <= i < outline.len() ==> {
                let e = #[trigger] outline_in_chars(outline, body)[i];
                &&& byte_offset(body, e.offset as int) == outline[i].offset
                &&& e.id == outline[i].id
                &&& e.level == outline[i].level
            },
{
    let c = outline_in_chars(outline, body);
    assert forall|i: int| 0 <= i < outline.len() implies {
        let k = char_at_byte(body, outline[i].offset as int);
        0 <= k <= body.len() && byte_offset(body, k) == outline[i].offset && #[trigger] c[i].offset == k
    } by {
        assert(on_boundary(body, outline[i].offset as int));
    }
    assert forall|i: int, j: int| 0 <= i <= j < c.len() implies c[i].offset <= c[j].offset by {
        let ki = char_at_byte(body, outline[i].offset as int);
        let kj = char_at_byte(body, outline[j].offset as int);
        if kj < ki {
            lemma_byte_offset_grows(body, kj, ki);
        }
    }
}

/// The outline with its byte offsets in `body` turned into character
/// positions.
fn char_outline(body: &[char], outline: &[OutlineEntry]) -> (r: Vec<OutlineEntry>)
    requires
        byte_offsets_ok(outline@, body@),
    ensures
        r@ == outline_in_chars(outline@, body@),
        offsets_ok(r@, body@.len() as int),
{
    let mut r: Vec<OutlineEntry> = Vec::new();
    let mut k: usize = 0;
    let mut b: usize = 0;
    let mut i: usize = 0;
    while i < outline.len()
        invariant
            i <= outline@.len(),
            k <= body@.len(),
            b == byte_offset(body@, k as int),
            byte_offsets_ok(outline@, body@),
            i < outline@.len() ==> b <= outline@[i as int].offset,
            r@.len() == i,
            forall|j: int| 0 <= j < i ==> #[trigger] r@[j] == entry_in_chars(outline@[j], body@),
            forall|j: int| 0 <= j < i ==> r@[j].offset <= k,
            forall|j1: int, j2: int| 0 <= j1 <= j2 < i ==> r@[j1].offset <= r@[j2].offset,
        decreases outline@.len() - i,
    {
        let target = outline[i].offset;
        let ghost kt = char_at_byte(body@, target as int);
        proof {
            assert(on_boundary(body@, target as int));
            assert(0 <= kt <= body@.len() && byte_offset(body@, kt) == target);
            if kt < k {
                lemma_byte_offset_grows(body@, kt, k as int);
            }
        }
        while b < target
            invariant
                k <= kt,
                kt <= body@.len(),
                byte_offset(body@, kt) == target,
                b == byte_offset(body@, k as int),
                b <= target,
            decreases kt - k,
        {
            proof {
                if k == kt {
                    assert(false);
                }
                lemma_byte_offset_step(body@, k as int);
                lemma_byte_offset_grows(body@, k + 1, kt);
            }
            b = b + char_width(body[k]);
            k = k + 1;
        }
        proof {
            if k < kt {
                lemma_byte_offset_grows(body@, k as int, kt);
            }
            assert(k == kt);
            lemma_char_at_byte(body@, k as int);
        }
        let e = OutlineEntry {
            id: outline[i].id.clone(),
            level: outline[i].level,
            title: outline[i].title.clone(),
            offset: k,
        };
        r.push(e);
        i = i + 1;
    }
    proof {
        assert(r@ =~= outline_in_chars(outline@, body@));
    }
    r
}

/// Apply `overrides` to a converted `body`: drop hidden sections (each with its
/// subtree) and prepend a weak page break to forced ones. Citations that link to
/// labels defined inside hidden sections (e.g. bibliography entries) are
/// unwrapped to their plain text, since a `#link` to a missing label is a Typst
/// compile error. Returns the body itself when no override has any effect. The
/// outline's offsets are byte offsets into `body`, on character boundaries.
pub fn assemble_body<'a>(
    body: &'a str,
    outline: &[OutlineEntry],
    overrides: &SectionOverrides,
) -> (r: Cow<'a, str>)
    requires
        byte_offsets_ok(outline@, body@),
    ensures
        r@ == assembled(body@, outline_in_chars(outline@, body@), overrides@),
        (r is Borrowed) == untouched(outline@, overrides@),
        r matches Cow::Borrowed(b) ==> b == body,
{
    let chars = chars_of(body);
    let in_chars = char_outline(&chars, outline);
    proof {
        assert(untouched(in_chars@, overrides@) == untouched(outline@, overrides@)) by {
            assert forall|i: int| 0 <= i < outline@.len() implies #[trigger] in_chars@[i].id@ == outline@[i].id@ by {
                assert(in_chars@[i] == entry_in_chars(outline@[i], body@));
            }
            if untouched(outline@, overrides@) {
                assert forall|i: int| 0 <= i < in_chars@.len() implies effective(overrides@, #[trigger] in_chars@[i].id@) == SectionOverride::plain() by {
                    assert(in_chars@[i].id@ == outline@[i].id@);
                }
            }
            if untouched(in_chars@, overrides@) {
                assert forall|i: int| 0 <= i < outline@.len() implies effective(overrides@, #[trigger] outline@[i].id@) == SectionOverride::plain() by {
                    assert(in_chars@[i].id@ == outline@[i].id@);
                }
            }
        }
    }
    assemble_chars(body, &in_chars, overrides)
}

/// The assembly over an outline whose offsets are character positions.
fn assemble_chars<'a>(
    body: &'a str,
    outline: &[OutlineEntry],
    overrides: &SectionOverrides,
) -> (r: Cow<'a, str>)
    requires
        offsets_ok(outline@, body@.len() as int),
    ensures
        r@ == assembled(body@, outline@, overrides@),
        (r is Borrowed) == untouched(outline@, overrides@),
        r matches Cow::Borrowed(b) ==> b == body,
{
    let front = chars_of(FRONT_MATTER_ID);
    let front_hidden = overrides.get(&front).hidden;
    let mut all_default = true;
    let mut i: usize = 0;
    while i < outline.len()
        invariant
            i <= outline@.len(),
            all_default == forall|k: int|
                0 <= k < i ==> effective(overrides@, #[trigger] outline@[k].id@)
                    == SectionOverride::plain(),
        decreases outline@.len() - i,
    {
        let id = chars_of(outline[i].id.as_str());
        if !overrides.get(&id).is_default() {
            all_default = false;
        }
        i = i + 1;
    }
    if !front_hidden && all_default {
        return Cow::Borrowed(body);
    }
    let b = chars_of(body);
    let ghost s = b@;
    let ghost ov = overrides@;
    let mut out: Vec<char> = Vec::new();
    let mut hidden: Vec<char> = Vec::new();
    let mut cursor: usize = 0;
    if front_hidden {
        let end = if outline.len() == 0 {
            b.len()
        } else {
            outline[0].offset
        };
        hidden = slice_chars(&b, 0, end);
        cursor = end;
    }
    proof {
        assert(out@ + sections_from(s, outline@, ov, 0, cursor as int).0 =~= sections_from(
            s,
            outline@,
            ov,
            0,
            cursor as int,
        ).0);
        if !front_hidden {
            assert(hidden@ + sections_from(s, outline@, ov, 0, 0).1 =~= sections_from(
                s,
                outline@,
                ov,
                0,
                0,
            ).1);
        }
    }
    let mut k: usize = 0;
    while k < outline.len()
        invariant
            s == b@,
            s.len() == body@.len(),
            ov == overrides@,
            offsets_ok(outline@, s.len() as int),
            k <= outline@.len(),
            cursor <= s.len(),
            split_sections(s, outline@, ov) == (
                out@ + sections_from(s, outline@, ov, k as int, cursor as int).0,
                hidden@ + sections_from(s, outline@, ov, k as int, cursor as int).1,
            ),
        decreases outline@.len() - k,
    {
        let ghost o0 = out@;
        let ghost h0 = hidden@;
        let at = outline[k].offset;
        if at < cursor {
            k = k + 1;
        } else {
            push_all(&mut out, &slice_chars(&b, cursor, at));
            let id = chars_of(outline[k].id.as_str());
            let ov_k = overrides.get(&id);
            if ov_k.hidden {
                let end = section_end(outline, k, b.len());
                proof {
                    lemma_section_end(outline@, k as int, k + 1, s.len() as int);
                }
                push_all(&mut hidden, &slice_chars(&b, at, end));
                proof {
                    let rest = sections_from(s, outline@, ov, k + 1, end as int);
                    assert(out@ + rest.0 =~= o0 + (s.subrange(cursor as int, at as int) + rest.0));
                    assert(hidden@ + rest.1 =~= h0 + (s.subrange(at as int, end as int) + rest.1));
                }
                cursor = end;
            } else if ov_k.break_before {
                push_str(&mut out, "#pagebreak(weak: true)\n");
                proof {
                    let rest = sections_from(s, outline@, ov, k + 1, at as int);
                    assert(out@ + rest.0 =~= o0 + (s.subrange(cursor as int, at as int)
                        + weak_break() + rest.0));
                }
                cursor = at;
            } else {
                proof {
                    let rest = sections_from(s, outline@, ov, k + 1, at as int);
                    assert(out@ + rest.0 =~= o0 + (s.subrange(cursor as int, at as int) + rest.0));
                }
                cursor = at;
            }
            k = k + 1;
        }
    }
    push_all(&mut out, &slice_chars(&b, cursor, b.len()));
    proof {
        assert(hidden@ + Seq::<char>::empty() =~= hidden@);
    }
    let dropped = labels_in(&hidden);
    if dropped.len() > 0 {
        unwrap_links_to(&mut out, &dropped);
    } else {
        proof {
            assert(views(dropped@).len() == 0);
        }
    }
    Cow::Owned(string_of(&out))
}

} // verus!

verus! {

/// The pass of [`strip_markers`] from position `p` of `raw`, with `clean`
/// produced so far and the offsets recorded so far: the final clean text and
/// the final offsets.
pub open spec fn strip_from(raw: Seq<char>, p: int, clean: Seq<char>, offs: Seq<usize>) -> (
    Seq<char>,
    Seq<usize>,
)
    decreases raw.len() - p,
{
    if p < 0 || p > raw.len() {
        (clean, offs)
    } else {
        match find_char_from(raw, SECTION_MARK, p) {
            None => (clean + raw.subrange(p, raw.len() as int), offs),
            Some(st) => {
                proof {
                    lemma_find_char_from(raw, SECTION_MARK, p);
                }
                let clean2 = clean + raw.subrange(p, st);
                let q = st + 1;
                match find_char_from(raw, SECTION_MARK, q) {
                    Some(en) => {
                        proof {
                            lemma_find_char_from(raw, SECTION_MARK, q);
                        }
                        match crate::text::parsed_usize(raw.subrange(q, en)) {
                            Some(idx) => if idx < offs.len() {
                                strip_from(raw, en + 1, clean2, offs.update(idx as int, utf8_len(clean2) as usize))
                            } else {
                                strip_from(raw, q, clean2, offs)
                            },
                            None => strip_from(raw, q, clean2, offs),
                        }
                    },
                    None => strip_from(raw, q, clean2, offs),
                }
            },
        }
    }
}

/// The offsets of an outline.
pub open spec fn offsets_of(outline: Seq<OutlineEntry>) -> Seq<usize> {
    outline.map_values(|e: OutlineEntry| e.offset)
}

/// Remove the importer's section markers (`SECTION_MARK` + entry index +
/// `SECTION_MARK`) from `raw`, recording each marker's position in the cleaned
/// text, in bytes, as the matching entry's offset. A malformed marker (no
/// closing mark, not a number, or an index past the outline) loses only its
/// opening mark. (`raw`'s length in bytes fits a `usize`, as any `str`'s does.)
pub fn strip_markers(raw: &str, outline: &mut Vec<OutlineEntry>) -> (r: String)
    requires
        utf8_len(raw@) <= usize::MAX,
    ensures
        r@ == strip_from(raw@, 0, seq![], offsets_of(old(outline)@)).0,
        offsets_of(final(outline)@) == strip_from(raw@, 0, seq![], offsets_of(old(outline)@)).1,
        final(outline)@.len() == old(outline)@.len(),
        forall|i: int|
            0 <= i < old(outline)@.len() ==> (#[trigger] final(outline)@[i]).id == old(outline)@[i].id
                && final(outline)@[i].level == old(outline)@[i].level && final(outline)@[i].title
                == old(outline)@[i].title,
{
    let v = chars_of(raw);
    let mut clean: Vec<char> = Vec::new();
    let mut p: usize = 0;
    while p < v.len()
        invariant
            v@ == raw@,
            p <= v@.len(),
            outline@.len() == old(outline)@.len(),
            forall|i: int|
                0 <= i < old(outline)@.len() ==> (#[trigger] outline@[i]).id == old(outline)@[i].id
                    && outline@[i].level == old(outline)@[i].level && outline@[i].title
                    == old(outline)@[i].title,
            clean@.len() <= p,
            utf8_len(clean@) <= byte_offset(raw@, p as int),
            utf8_len(raw@) <= usize::MAX,
            strip_from(raw@, 0, seq![], offsets_of(old(outline)@)) == strip_from(
                raw@,
                p as int,
                clean@,
                offsets_of(outline@),
            ),
        ensures
            p <= v@.len(),
            strip_from(raw@, 0, seq![], offsets_of(old(outline)@)) == (
                clean@ + raw@.subrange(p as int, raw@.len() as int),
                offsets_of(outline@),
            ),
        decreases v@.len() - p,
    {
        match find_char(&v, SECTION_MARK, p) {
            None => {
                break;
            },
            Some(st) => {
                proof {
                    lemma_find_char_from(v@, SECTION_MARK, p as int);
                }
                let ghost clean0 = clean@;
                push_all(&mut clean, &slice_chars(&v, p, st));
                proof {
                    let piece = raw@.subrange(p as int, st as int);
                    assert(clean@ =~= clean0 + piece);
                    lemma_utf8_concat(clean0, piece);
                    lemma_utf8_concat(raw@.take(p as int), piece);
                    assert(raw@.take(p as int) + piece =~= raw@.take(st as int));
                    lemma_byte_offset_grows(raw@, st as int, st + 1);
                    lemma_byte_offset_bound(raw@, st as int);
                }
                let q = st + 1;
                let mut next = q;
                if let Some(en) = find_char(&v, SECTION_MARK, q) {
                    proof {
                        lemma_find_char_from(v@, SECTION_MARK, q as int);
                    }
                    if let Some(idx) = crate::text::parse_usize(&slice_chars(&v, q, en)) {
                        if idx < outline.len() {
                            let ghost before = outline@;
                            let at = utf8_byte_len(&clean);
                            outline[idx].offset = at;
                            proof {
                                assert(offsets_of(outline@) =~= offsets_of(before).update(
                                    idx as int,
                                    utf8_len(clean@) as usize,
                                ));
                                lemma_byte_offset_grows(raw@, st + 1, en + 1);
                            }
                            next = en + 1;
                        }
                    }
                }
                p = next;
            },
        }
    }
    push_all(&mut clean, &slice_chars(&v, p, v.len()));
    string_of(&clean)
}

} // verus!
