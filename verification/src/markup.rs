//! Convert source input (Plaintext / Markdown / HTML) into Typst body markup,
//! applying user page-break rules first.

use vstd::prelude::*;

use pulldown_cmark::{CodeBlockKind, Event, HeadingLevel as CmarkLevel, Tag, TagEnd};

use crate::config::{BreakPosition, InputFormat, PageBreakRule, TypesetInput};
use crate::text::{
    chars_of, eq_str, is_whitespace, is_alnum, is_ascii_alphanumeric, is_digit, lower_all,
    lowercase, push_all, push_str, replace_all, replace_str, slice_chars, string_of, trim,
    trim_chars, eq_chars, matches_at, occurs_at, is_ws, skip_ws, back_ws,
};

verus! {

// =============================================================================
// Lines
// =============================================================================

/// A line as `str::lines` yields it when a `\n` followed it: a trailing `\r`
/// is dropped.
pub open spec fn strip_cr(l: Seq<char>) -> Seq<char> {
    if l.len() > 0 && l.last() == '\r' {
        l.drop_last()
    } else {
        l
    }
}

/// The first `\n` in `s`.
pub open spec fn newline_at(s: Seq<char>, i: int) -> Option<int>
    decreases s.len() - i,
{
    if i < 0 || i >= s.len() {
        None
    } else if s[i] == '\n' {
        Some(i)
    } else {
        newline_at(s, i + 1)
    }
}

/// `str::lines`: the lines of `s`, split at `\n` (a `\r` before it is
/// dropped); a final line ending does not start an empty line.
pub open spec fn lines_of(s: Seq<char>) -> Seq<Seq<char>>
    decreases s.len(),
{
    if s.len() == 0 {
        seq![]
    } else {
        match newline_at(s, 0) {
            None => seq![s],
            Some(i) => {
                proof {
                    lemma_newline_at(s, 0);
                }
                seq![strip_cr(s.subrange(0, i))] + lines_of(s.subrange(i + 1, s.len() as int))
            },
        }
    }
}

pub proof fn lemma_newline_at(s: Seq<char>, i: int)
    requires
        0 <= i,
    ensures
        newline_at(s, i) matches Some(k) ==> i <= k < s.len() && s[k] == '\n',
        newline_at(s, i) is None ==> forall|k: int| i <= k < s.len() ==> s[k] != '\n',
    decreases s.len() - i,
{
    if i < s.len() && s[i] != '\n' {
        lemma_newline_at(s, i + 1);
    }
}

/// The views of a list of character vectors.
pub open spec fn char_views(v: Seq<Vec<char>>) -> Seq<Seq<char>> {
    v.map_values(|x: Vec<char>| x@)
}

/// The lines of `v`, as `str::lines` yields them.
fn lines(v: &[char]) -> (r: Vec<Vec<char>>)
    ensures
        char_views(r@) == lines_of(v@),
{
    let mut out: Vec<Vec<char>> = Vec::new();
    let mut p: usize = 0;
    proof {
        assert(v@.subrange(0, v@.len() as int) =~= v@);
        assert(char_views(out@) + lines_of(v@.subrange(0, v@.len() as int)) =~= lines_of(v@));
    }
    while p < v.len()
        invariant
            p <= v@.len(),
            lines_of(v@) == char_views(out@) + lines_of(v@.subrange(p as int, v@.len() as int)),
        decreases v@.len() - p,
    {
        let ghost rest = v@.subrange(p as int, v@.len() as int);
        let mut i = p;
        while i < v.len() && v[i] != '\n'
            invariant
                p <= i <= v@.len(),
                forall|k: int| p <= k < i ==> v@[k] != '\n',
            decreases v@.len() - i,
        {
            i = i + 1;
        }
        proof {
            lemma_newline_found(rest, i - p, v@, p as int);
        }
        if i == v.len() {
            let ghost before = out@;
            out.push(slice_chars(v, p, i));
            proof {
                assert(char_views(out@) =~= char_views(before) + seq![rest]);
                assert(v@.subrange(i as int, v@.len() as int) =~= Seq::<char>::empty());
            }
            p = i;
        } else {
            let mut end = i;
            if end > p && v[end - 1] == '\r' {
                end = end - 1;
            }
            let ghost before = out@;
            out.push(slice_chars(v, p, end));
            proof {
                assert(rest.subrange(0, i - p) =~= v@.subrange(p as int, i as int));
                assert(v@.subrange(p as int, end as int) =~= strip_cr(rest.subrange(0, i - p)));
                assert(rest.subrange(i - p + 1, rest.len() as int) =~= v@.subrange(
                    i + 1,
                    v@.len() as int,
                ));
                assert(char_views(out@) =~= char_views(before) + seq![strip_cr(rest.subrange(0, i - p))]);
            }
            p = i + 1;
        }
    }
    proof {
        assert(v@.subrange(p as int, v@.len() as int) =~= Seq::<char>::empty());
        assert(char_views(out@) + Seq::<Seq<char>>::empty() =~= char_views(out@));
    }
    out
}

proof fn lemma_newline_found(rest: Seq<char>, k: int, v: Seq<char>, p: int)
    requires
        0 <= p <= v.len(),
        rest == v.subrange(p, v.len() as int),
        0 <= k <= rest.len(),
        forall|j: int| p <= j < p + k ==> v[j] != '\n',
        k < rest.len() ==> rest[k] == '\n',
    ensures
        k == rest.len() ==> newline_at(rest, 0) is None,
        k < rest.len() ==> newline_at(rest, 0) == Some(k),
{
    lemma_newline_prefix(rest, 0, k);
}

proof fn lemma_newline_prefix(s: Seq<char>, i: int, k: int)
    requires
        0 <= i <= k <= s.len(),
        forall|j: int| i <= j < k ==> s[j] != '\n',
        k < s.len() ==> s[k] == '\n',
    ensures
        k == s.len() ==> newline_at(s, i) is None,
        k < s.len() ==> newline_at(s, i) == Some(k),
    decreases k - i,
{
    if i < k {
        lemma_newline_prefix(s, i + 1, k);
    }
}

// =============================================================================
// Page-break splitting
// =============================================================================

/// A line matches a rule's pattern when the trimmed pattern is non-empty and
/// equals the trimmed line.
pub open spec fn line_matches_spec(line: Seq<char>, pattern: Seq<char>) -> bool {
    trim(pattern).len() > 0 && trim(line) == trim(pattern)
}

/// The first rule (from `k`) whose pattern the line matches.
pub open spec fn first_rule(line: Seq<char>, rules: Seq<PageBreakRule>, k: int) -> Option<int>
    decreases rules.len() - k,
{
    if k < 0 || k >= rules.len() {
        None
    } else if line_matches_spec(line, rules[k].pattern@) {
        Some(k)
    } else {
        first_rule(line, rules, k + 1)
    }
}

/// Appends `line` and a newline to the last page.
pub open spec fn with_line(pages: Seq<Seq<char>>, line: Seq<char>) -> Seq<Seq<char>> {
    if pages.len() == 0 {
        pages
    } else {
        pages.update(pages.len() - 1, pages.last() + line + seq!['\n'])
    }
}

/// The pages after placing one line.
pub open spec fn place_line(
    pages: Seq<Seq<char>>,
    line: Seq<char>,
    rules: Seq<PageBreakRule>,
) -> Seq<Seq<char>> {
    match first_rule(line, rules, 0) {
        Some(k) => match rules[k].position {
            BreakPosition::Replace => pages.push(seq![]),
            BreakPosition::Before => with_line(pages.push(seq![]), line),
            BreakPosition::After => with_line(pages, line).push(seq![]),
        },
        None => with_line(pages, line),
    }
}

/// The pages after placing all of `lines`, starting from one empty page.
pub open spec fn split_pages(lines: Seq<Seq<char>>, rules: Seq<PageBreakRule>) -> Seq<Seq<char>>
    decreases lines.len(),
{
    if lines.len() == 0 {
        seq![seq![]]
    } else {
        place_line(split_pages(lines.drop_last(), rules), lines.last(), rules)
    }
}

/// The pages that hold more than whitespace.
pub open spec fn non_blank(pages: Seq<Seq<char>>) -> Seq<Seq<char>>
    decreases pages.len(),
{
    if pages.len() == 0 {
        seq![]
    } else if trim(pages.last()).len() == 0 {
        non_blank(pages.drop_last())
    } else {
        non_blank(pages.drop_last()).push(pages.last())
    }
}

/// The page chunks of `text`: split at lines matching a rule, blank pages
/// dropped, and at least one (possibly empty) page.
pub open spec fn paginated(text: Seq<char>, rules: Seq<PageBreakRule>) -> Seq<Seq<char>> {
    let p = non_blank(split_pages(lines_of(text), rules));
    if p.len() == 0 {
        seq![seq![]]
    } else {
        p
    }
}

/// Whether `line` matches a rule's `pattern`.
fn line_matches(line: &[char], pattern: &[char]) -> (r: bool)
    ensures
        r == line_matches_spec(line@, pattern@),
{
    let p = trim_chars(pattern);
    p.len() > 0 && eq_chars(&trim_chars(line), &p)
}

/// Appends `line` and a newline to the last page.
fn push_line(pages: &mut Vec<Vec<char>>, line: &[char])
    ensures
        char_views(final(pages)@) == with_line(char_views(old(pages)@), line@),
{
    let n = pages.len();
    if n > 0 {
        let ghost before = pages@;
        let mut last = pages.pop().unwrap();
        proof {
            assert(last == before.last());
            assert(pages@ == before.drop_last());
        }
        push_all(&mut last, line);
        last.push('\n');
        let ghost lastv = last@;
        pages.push(last);
        proof {
            assert(lastv =~= before.last()@ + line@ + seq!['\n']);
            let w = with_line(char_views(before), line@);
            assert(char_views(pages@).len() == w.len());
            assert forall|k: int| 0 <= k < w.len() implies #[trigger] char_views(pages@)[k] == w[k] by {
                if k < w.len() - 1 {
                    assert(pages@[k] == before[k]);
                }
            }
            assert(char_views(pages@) =~= w);
        }
    }
}

/// Split source text into page chunks at lines matching a rule.
fn paginate(text: &[char], rules: &[PageBreakRule]) -> (r: Vec<Vec<char>>)
    ensures
        char_views(r@) == paginated(text@, rules@),
{
    let ls = lines(text);
    let mut pages: Vec<Vec<char>> = Vec::new();
    pages.push(Vec::new());
    let ghost lv = char_views(ls@);
    proof {
        assert(lv.take(0) =~= Seq::<Seq<char>>::empty());
        assert(char_views(pages@) =~= seq![Seq::<char>::empty()]);
    }
    let mut i: usize = 0;
    while i < ls.len()
        invariant
            i <= ls@.len(),
            lv == char_views(ls@),
            lv == lines_of(text@),
            char_views(pages@) == split_pages(lv.take(i as int), rules@),
        decreases ls@.len() - i,
    {
        let line = &ls[i];
        let mut found: Option<usize> = None;
        let mut k: usize = 0;
        while k < rules.len()
            invariant_except_break
                found is None,
            invariant
                k <= rules@.len(),
                first_rule(line@, rules@, 0) == first_rule(line@, rules@, k as int),
            ensures
                found matches Some(f) ==> first_rule(line@, rules@, 0) == Some(f as int) && f < rules@.len(),
                found is None ==> first_rule(line@, rules@, 0) is None,
            decreases rules@.len() - k,
        {
            let pat = chars_of(rules[k].pattern.as_str());
            if line_matches(line, &pat) {
                found = Some(k);
                break;
            }
            k = k + 1;
        }
        proof {
            assert(lv.take(i + 1).drop_last() =~= lv.take(i as int));
            assert(lv.take(i + 1).last() == line@);
        }
        match found {
            Some(k) => {
                proof {
                    assert(first_rule(line@, rules@, 0) == Some(k as int));
                }
                match rules[k].position {
                    BreakPosition::Replace => {
                        pages.push(Vec::new());
                        proof {
                            assert(char_views(pages@) =~= split_pages(lv.take(i as int), rules@).push(seq![]));
                        }
                    },
                    BreakPosition::Before => {
                        pages.push(Vec::new());
                        proof {
                            assert(char_views(pages@) =~= split_pages(lv.take(i as int), rules@).push(seq![]));
                        }
                        push_line(&mut pages, line);
                    },
                    BreakPosition::After => {
                        push_line(&mut pages, line);
                        let ghost mid = pages@;
                        pages.push(Vec::new());
                        proof {
                            assert(char_views(pages@) =~= char_views(mid).push(seq![]));
                        }
                    },
                }
            },
            None => {
                push_line(&mut pages, line);
            },
        }
        i = i + 1;
    }
    proof {
        assert(lv.take(ls@.len() as int) =~= lv);
    }
    let ghost all = char_views(pages@);
    let mut out: Vec<Vec<char>> = Vec::new();
    let mut j: usize = 0;
    proof {
        assert(all.take(0) =~= Seq::<Seq<char>>::empty());
        assert(char_views(out@) =~= non_blank(all.take(0)));
    }
    while j < pages.len()
        invariant
            j <= pages@.len(),
            all == char_views(pages@),
            char_views(out@) == non_blank(all.take(j as int)),
        decreases pages@.len() - j,
    {
        proof {
            assert(all.take(j + 1).drop_last() =~= all.take(j as int));
            assert(all.take(j + 1).last() == pages@[j as int]@);
        }
        let t = trim_chars(&pages[j]);
        if t.len() > 0 {
            let ghost before = out@;
            out.push(slice_chars(&pages[j], 0, pages[j].len()));
            proof {
                assert(pages@[j as int]@.subrange(0, pages@[j as int]@.len() as int) =~= pages@[j as int]@);
                assert(char_views(out@) =~= char_views(before).push(pages@[j as int]@));
            }
        }
        j = j + 1;
    }
    proof {
        assert(all.take(pages@.len() as int) =~= all);
    }
    if out.len() == 0 {
        let mut one: Vec<Vec<char>> = Vec::new();
        one.push(Vec::new());
        proof {
            assert(char_views(one@) =~= seq![Seq::<char>::empty()]);
        }
        one
    } else {
        out
    }
}

} // verus!

verus! {

// =============================================================================
// Plaintext to Typst
// =============================================================================

/// Characters that carry markup meaning in Typst and are backslash-escaped in
/// literal text.
pub open spec fn is_special(c: char) -> bool {
    c == '\\' || c == '`' || c == '*' || c == '_' || c == '#' || c == '$' || c == '<' || c == '>'
        || c == '@' || c == '~' || c == '=' || c == '-' || c == '+'
}

fn special(c: char) -> (r: bool)
    ensures
        r == is_special(c),
{
    c == '\\' || c == '`' || c == '*' || c == '_' || c == '#' || c == '$' || c == '<' || c == '>'
        || c == '@' || c == '~' || c == '=' || c == '-' || c == '+'
}

/// The first `n` characters of `s`, with specials (and the character at `sep`,
/// if any) preceded by a backslash.
pub open spec fn escaped_prefix(s: Seq<char>, n: int, sep: Option<int>) -> Seq<char>
    decreases n,
{
    if n <= 0 {
        seq![]
    } else {
        escaped_prefix(s, n - 1, sep) + (if is_special(s[n - 1]) || sep == Some(n - 1) {
            seq!['\\', s[n - 1]]
        } else {
            seq![s[n - 1]]
        })
    }
}

/// Literal text with every Typst special escaped.
pub open spec fn escaped_inline(s: Seq<char>) -> Seq<char> {
    escaped_prefix(s, s.len() as int, None)
}

/// End of the run of ASCII digits starting at `j`.
pub open spec fn digits_end(s: Seq<char>, j: int) -> int
    decreases s.len() - j,
{
    if 0 <= j < s.len() && is_digit(s[j]) {
        digits_end(s, j + 1)
    } else {
        j
    }
}

/// The position of a leading enumerator separator (`1.` / `2)` after optional
/// indentation, followed by a space or the end of the line), if any.
pub open spec fn enum_separator(s: Seq<char>) -> Option<int> {
    let lead = crate::text::skip_ws(s, 0);
    let d = digits_end(s, lead);
    if d > lead && d < s.len() && (s[d] == '.' || s[d] == ')') && (d + 1 == s.len() || s[d + 1]
        == ' ') {
        Some(d)
    } else {
        None
    }
}

/// One plaintext line escaped: specials everywhere, plus a leading numbered
/// enumerator separator so it is not read as a Typst list.
pub open spec fn escaped_plain_line(s: Seq<char>) -> Seq<char> {
    escaped_prefix(s, s.len() as int, enum_separator(s))
}

/// Appends the escape of `v` (with `sep` escaped too).
fn push_escaped(out: &mut Vec<char>, v: &[char], sep: Option<usize>)
    ensures
        final(out)@ == old(out)@ + escaped_prefix(
            v@,
            v@.len() as int,
            match sep {
                Some(k) => Some(k as int),
                None => None,
            },
        ),
{
    let ghost gsep: Option<int> = match sep {
        Some(k) => Some(k as int),
        None => None,
    };
    let mut i: usize = 0;
    proof {
        assert(old(out)@ + escaped_prefix(v@, 0, gsep) =~= old(out)@);
    }
    while i < v.len()
        invariant
            i <= v@.len(),
            gsep == match sep {
                Some(k) => Some(k as int),
                None => None::<int>,
            },
            out@ == old(out)@ + escaped_prefix(v@, i as int, gsep),
        decreases v@.len() - i,
    {
        let ghost before = out@;
        let c = v[i];
        let at_sep = match sep {
            Some(k) => k == i,
            None => false,
        };
        if special(c) || at_sep {
            out.push('\\');
        }
        out.push(c);
        proof {
            assert(out@ =~= before + (if is_special(v@[i as int]) || gsep == Some(i as int) {
                seq!['\\', v@[i as int]]
            } else {
                seq![v@[i as int]]
            }));
        }
        i = i + 1;
    }
}

/// Escape literal text for Typst markup.
pub fn escape_inline(s: &str) -> (r: String)
    ensures
        r@ == escaped_inline(s@),
{
    let v = chars_of(s);
    let mut out: Vec<char> = Vec::new();
    push_escaped(&mut out, &v, None);
    string_of(&out)
}

/// Escape one plaintext line: inline specials everywhere, plus a leading numbered
/// enumerator separator (`1.` / `2)`) so it isn't read as a Typst list.
fn escape_plaintext_line(line: &[char]) -> (r: Vec<char>)
    ensures
        r@ == escaped_plain_line(line@),
{
    let mut lead: usize = 0;
    while lead < line.len() && is_whitespace(line[lead])
        invariant
            lead <= line@.len(),
            crate::text::skip_ws(line@, 0) == crate::text::skip_ws(line@, lead as int),
        decreases line@.len() - lead,
    {
        lead = lead + 1;
    }
    let mut d = lead;
    while d < line.len() && '0' <= line[d] && line[d] <= '9'
        invariant
            lead <= d <= line@.len(),
            digits_end(line@, lead as int) == digits_end(line@, d as int),
        decreases line@.len() - d,
    {
        d = d + 1;
    }
    let mut sep: Option<usize> = None;
    if d > lead && d < line.len() && (line[d] == '.' || line[d] == ')') && (d + 1 == line.len()
        || line[d + 1] == ' ') {
        sep = Some(d);
    }
    let mut out: Vec<char> = Vec::new();
    push_escaped(&mut out, line, sep);
    proof {
        assert(out@ =~= escaped_plain_line(line@));
    }
    out
}

/// The Typst body for plain text: each line escaped and newline-terminated, so
/// blank lines survive as paragraph breaks.
pub open spec fn plain_lines(ls: Seq<Seq<char>>) -> Seq<char>
    decreases ls.len(),
{
    if ls.len() == 0 {
        seq![]
    } else {
        plain_lines(ls.drop_last()) + escaped_plain_line(ls.last()) + seq!['\n']
    }
}

/// Plain text as Typst markup.
pub open spec fn plaintext_markup(text: Seq<char>) -> Seq<char> {
    plain_lines(lines_of(text))
}

/// Plain text as Typst markup.
fn plaintext_to_typst(text: &[char]) -> (r: Vec<char>)
    ensures
        r@ == plaintext_markup(text@),
{
    let ls = lines(text);
    let ghost lv = char_views(ls@);
    let mut out: Vec<char> = Vec::new();
    let mut i: usize = 0;
    proof {
        assert(lv.take(0) =~= Seq::<Seq<char>>::empty());
    }
    while i < ls.len()
        invariant
            i <= ls@.len(),
            lv == char_views(ls@),
            out@ == plain_lines(lv.take(i as int)),
        decreases ls@.len() - i,
    {
        let e = escape_plaintext_line(&ls[i]);
        push_all(&mut out, &e);
        out.push('\n');
        proof {
            assert(lv.take(i + 1).drop_last() =~= lv.take(i as int));
            assert(lv.take(i + 1).last() == ls@[i as int]@);
        }
        i = i + 1;
    }
    proof {
        assert(lv.take(ls@.len() as int) =~= lv);
    }
    out
}

// =============================================================================
// HTML to text (basic)
// =============================================================================

/// The block-level tag names that become paragraph breaks.
pub open spec fn is_block_tag(name: Seq<char>) -> bool {
    name == "p"@ || name == "div"@ || name == "br"@ || name == "h1"@ || name == "h2"@ || name
        == "h3"@ || name == "h4"@ || name == "h5"@ || name == "h6"@ || name == "li"@ || name
        == "ul"@ || name == "ol"@ || name == "blockquote"@ || name == "section"@ || name
        == "article"@ || name == "header"@ || name == "footer"@ || name == "pre"@ || name
        == "table"@ || name == "tr"@
}

fn block_tag(name: &[char]) -> (r: bool)
    ensures
        r == is_block_tag(name@),
{
    eq_str(name, "p") || eq_str(name, "div") || eq_str(name, "br") || eq_str(name, "h1")
        || eq_str(name, "h2") || eq_str(name, "h3") || eq_str(name, "h4") || eq_str(name, "h5")
        || eq_str(name, "h6") || eq_str(name, "li") || eq_str(name, "ul") || eq_str(name, "ol")
        || eq_str(name, "blockquote") || eq_str(name, "section") || eq_str(name, "article")
        || eq_str(name, "header") || eq_str(name, "footer") || eq_str(name, "pre") || eq_str(
        name,
        "table",
    ) || eq_str(name, "tr")
}

/// Index of the first character at or after `i` that is not `/`.
pub open spec fn skip_slashes(s: Seq<char>, i: int) -> int
    decreases s.len() - i,
{
    if 0 <= i < s.len() && s[i] == '/' {
        skip_slashes(s, i + 1)
    } else {
        i
    }
}

/// End of the run of ASCII letters and digits starting at `j`.
pub open spec fn alnum_end(s: Seq<char>, j: int) -> int
    decreases s.len() - j,
{
    if 0 <= j < s.len() && is_alnum(s[j]) {
        alnum_end(s, j + 1)
    } else {
        j
    }
}

/// The lowercase name of a tag from its inner text (`/p class=x` gives `p`).
pub open spec fn tag_name(tag: Seq<char>) -> Seq<char> {
    let a = skip_slashes(tag, 0);
    lower_all(tag.subrange(a, alnum_end(tag, a)))
}

/// The first `>` at or after `i`.
pub open spec fn gt_at(s: Seq<char>, i: int) -> Option<int>
    decreases s.len() - i,
{
    if i < 0 || i >= s.len() {
        None
    } else if s[i] == '>' {
        Some(i)
    } else {
        gt_at(s, i + 1)
    }
}

/// The text of `s` from `i`: tags are removed, and block-level tags become a
/// blank line. An unterminated tag runs to the end.
pub open spec fn stripped_from(s: Seq<char>, i: int) -> Seq<char>
    decreases s.len() - i,
{
    if i < 0 || i >= s.len() {
        seq![]
    } else if s[i] == '<' {
        let (end, next) = match gt_at(s, i + 1) {
            Some(e) => (e, e + 1),
            None => (s.len() as int, s.len() as int),
        };
        proof {
            lemma_gt_at(s, i + 1);
        }
        (if is_block_tag(tag_name(s.subrange(i + 1, end))) {
            "\n\n"@
        } else {
            seq![]
        }) + stripped_from(s, next)
    } else {
        seq![s[i]] + stripped_from(s, i + 1)
    }
}

pub proof fn lemma_gt_at(s: Seq<char>, i: int)
    requires
        0 <= i,
    ensures
        gt_at(s, i) matches Some(k) ==> i <= k < s.len() && s[k] == '>',
    decreases s.len() - i,
{
    if i < s.len() && s[i] != '>' {
        lemma_gt_at(s, i + 1);
    }
}

/// The common HTML entity that starts at `i`, if any: its text and what it
/// stands for.
pub open spec fn entity_at(s: Seq<char>, i: int) -> Option<(Seq<char>, Seq<char>)> {
    if occurs_at(s, i, "&amp;"@) {
        Some(("&amp;"@, "&"@))
    } else if occurs_at(s, i, "&lt;"@) {
        Some(("&lt;"@, "<"@))
    } else if occurs_at(s, i, "&gt;"@) {
        Some(("&gt;"@, ">"@))
    } else if occurs_at(s, i, "&quot;"@) {
        Some(("&quot;"@, "\""@))
    } else if occurs_at(s, i, "&#39;"@) {
        Some(("&#39;"@, "'"@))
    } else if occurs_at(s, i, "&apos;"@) {
        Some(("&apos;"@, "'"@))
    } else if occurs_at(s, i, "&nbsp;"@) {
        Some(("&nbsp;"@, " "@))
    } else {
        None
    }
}

/// `s` from `i` on with the common HTML entities decoded in one pass, left
/// to right: each entity of the input is decoded once, and what a decoding
/// produces is not read again.
pub open spec fn decoded_from(s: Seq<char>, i: int) -> Seq<char>
    decreases s.len() - i,
{
    if i < 0 || i >= s.len() {
        seq![]
    } else {
        match entity_at(s, i) {
            Some((pat, rep)) => if pat.len() > 0 {
                rep + decoded_from(s, i + pat.len())
            } else {
                seq![]
            },
            None => seq![s[i]] + decoded_from(s, i + 1),
        }
    }
}

/// The common HTML entities of `s` decoded.
pub open spec fn entities_decoded(s: Seq<char>) -> Seq<char> {
    decoded_from(s, 0)
}

/// Readable text of simple HTML.
pub open spec fn html_text(html: Seq<char>) -> Seq<char> {
    entities_decoded(stripped_from(html, 0))
}

/// The entity at `i` of `s`, as its length and replacement.
fn entity_here(s: &[char], i: usize) -> (r: Option<(usize, &'static str)>)
    ensures
        match entity_at(s@, i as int) {
            Some((pat, rep)) => r matches Some((n, x)) && n == pat.len() && x@ == rep && n > 0,
            None => r is None,
        },
{
    proof {
        reveal_strlit("&amp;");
        reveal_strlit("&lt;");
        reveal_strlit("&gt;");
        reveal_strlit("&quot;");
        reveal_strlit("&#39;");
        reveal_strlit("&apos;");
        reveal_strlit("&nbsp;");
    }
    let amp = chars_of("&amp;");
    if matches_at(s, i, &amp) {
        return Some((amp.len(), "&"));
    }
    let lt = chars_of("&lt;");
    if matches_at(s, i, &lt) {
        return Some((lt.len(), "<"));
    }
    let gt = chars_of("&gt;");
    if matches_at(s, i, &gt) {
        return Some((gt.len(), ">"));
    }
    let quot = chars_of("&quot;");
    if matches_at(s, i, &quot) {
        return Some((quot.len(), "\""));
    }
    let num = chars_of("&#39;");
    if matches_at(s, i, &num) {
        return Some((num.len(), "'"));
    }
    let apos = chars_of("&apos;");
    if matches_at(s, i, &apos) {
        return Some((apos.len(), "'"));
    }
    let nbsp = chars_of("&nbsp;");
    if matches_at(s, i, &nbsp) {
        return Some((nbsp.len(), " "));
    }
    None
}

/// Decode the common HTML entities, each once, left to right.
fn decode_entities(s: &[char]) -> (r: Vec<char>)
    ensures
        r@ == entities_decoded(s@),
{
    let mut out: Vec<char> = Vec::new();
    let mut i: usize = 0;
    while i < s.len()
        invariant
            i <= s@.len(),
            decoded_from(s@, 0) == out@ + decoded_from(s@, i as int),
        decreases s@.len() - i,
    {
        let ghost before = out@;
        match entity_here(s, i) {
            Some((n, rep)) => {
                push_str(&mut out, rep);
                proof {
                    assert(decoded_from(s@, i as int) == rep@ + decoded_from(s@, i + n));
                    assert(before + (rep@ + decoded_from(s@, i + n)) =~= out@ + decoded_from(
                        s@,
                        i + n,
                    ));
                }
                i = i + n;
            },
            None => {
                out.push(s[i]);
                proof {
                    assert(before + (seq![s@[i as int]] + decoded_from(s@, i + 1)) =~= out@
                        + decoded_from(s@, i + 1));
                }
                i = i + 1;
            },
        }
    }
    proof {
        assert(decoded_from(s@, i as int) =~= seq![]);
        assert(out@ + seq![] =~= out@);
    }
    out
}

/// The lowercase tag name of the tag text `v`.
fn tag_name_of(v: &[char]) -> (r: Vec<char>)
    ensures
        r@ == tag_name(v@),
{
    let mut a: usize = 0;
    while a < v.len() && v[a] == '/'
        invariant
            a <= v@.len(),
            skip_slashes(v@, 0) == skip_slashes(v@, a as int),
        decreases v@.len() - a,
    {
        a = a + 1;
    }
    let mut e = a;
    while e < v.len() && is_ascii_alphanumeric(v[e])
        invariant
            a <= e <= v@.len(),
            alnum_end(v@, a as int) == alnum_end(v@, e as int),
        decreases v@.len() - e,
    {
        e = e + 1;
    }
    lowercase(&slice_chars(v, a, e))
}

/// Strip HTML tags to readable text, turning block-level tags into blank lines
/// and decoding common entities.
fn html_to_text(html: &[char]) -> (r: Vec<char>)
    ensures
        r@ == html_text(html@),
{
    let mut out: Vec<char> = Vec::new();
    let mut i: usize = 0;
    while i < html.len()
        invariant
            i <= html@.len(),
            stripped_from(html@, 0) == out@ + stripped_from(html@, i as int),
        decreases html@.len() - i,
    {
        let ghost before = out@;
        if html[i] == '<' {
            let mut e = i + 1;
            while e < html.len() && html[e] != '>'
                invariant
                    i < e <= html@.len(),
                    gt_at(html@, i + 1) == gt_at(html@, e as int),
                decreases html@.len() - e,
            {
                e = e + 1;
            }
            let name = tag_name_of(&slice_chars(html, i + 1, e));
            if block_tag(&name) {
                push_str(&mut out, "\n\n");
            }
            let next = if e < html.len() {
                e + 1
            } else {
                e
            };
            proof {
                assert(out@ + stripped_from(html@, next as int) =~= before + ((if is_block_tag(
                    tag_name(html@.subrange(i + 1, e as int)),
                ) {
                    "\n\n"@
                } else {
                    seq![]
                }) + stripped_from(html@, next as int)));
            }
            i = next;
        } else {
            out.push(html[i]);
            proof {
                assert(out@ + stripped_from(html@, i + 1) =~= before + (seq![html@[i as int]]
                    + stripped_from(html@, i + 1)));
            }
            i = i + 1;
        }
    }
    proof {
        assert(out@ + stripped_from(html@, i as int) =~= out@);
    }
    decode_entities(&out)
}

/// A URL escaped for a Typst string literal: backslashes, then quotes.
pub open spec fn escaped_url(url: Seq<char>) -> Seq<char> {
    replace_all(replace_all(url, "\\"@, "\\\\"@), "\""@, "\\\""@)
}

/// Escape a link destination for a Typst string literal.
fn escape_url(url: &[char]) -> (r: Vec<char>)
    ensures
        r@ == escaped_url(url@),
{
    proof {
        reveal_strlit("\\");
        reveal_strlit("\"");
    }
    let a = replace_str(url, "\\", "\\\\");
    replace_str(&a, "\"", "\\\"")
}

} // verus!

verus! {

// =============================================================================
// Markdown to Typst
// =============================================================================

/// A Markdown heading level (`#` to `######`).
#[derive(Debug, Clone, Copy, PartialEq, Eq, Structural)]
pub enum MdHeading {
    H1,
    H2,
    H3,
    H4,
    H5,
    H6,
}

/// The number of a heading level.
pub open spec fn level_num(level: MdHeading) -> nat {
    match level {
        MdHeading::H1 => 1,
        MdHeading::H2 => 2,
        MdHeading::H3 => 3,
        MdHeading::H4 => 4,
        MdHeading::H5 => 5,
        MdHeading::H6 => 6,
    }
}

/// The number of a heading level.
pub fn heading_level_num(level: MdHeading) -> (n: usize)
    ensures
        n == level_num(level),
{
    match level {
        MdHeading::H1 => 1,
        MdHeading::H2 => 2,
        MdHeading::H3 => 3,
        MdHeading::H4 => 4,
        MdHeading::H5 => 5,
        MdHeading::H6 => 6,
    }
}

/// One parser event of a Markdown document, holding what the converter reads.
#[derive(Debug)]
pub enum MdEvent {
    StartHeading(MdHeading),
    StartEmphasis,
    StartStrong,
    StartStrikethrough,
    StartBlockQuote,
    /// A code block with its fence language (empty when indented).
    StartCodeBlock(String),
    /// A list with its first number (`None` for a bullet list).
    StartList(Option<u64>),
    StartItem,
    /// A link with its destination.
    StartLink(String),
    EndHeading,
    EndParagraph,
    EndEmphasis,
    EndStrong,
    EndStrikethrough,
    EndBlockQuote,
    EndCodeBlock,
    EndList,
    EndLink,
    Text(String),
    Code(String),
    SoftBreak,
    HardBreak,
    Rule,
    /// Anything the converter ignores (images fall back to their alt text).
    Other,
}

/// The value of a Markdown event.
pub enum MdEventView {
    StartHeading(MdHeading),
    StartEmphasis,
    StartStrong,
    StartStrikethrough,
    StartBlockQuote,
    StartCodeBlock(Seq<char>),
    StartList(Option<u64>),
    StartItem,
    StartLink(Seq<char>),
    EndHeading,
    EndParagraph,
    EndEmphasis,
    EndStrong,
    EndStrikethrough,
    EndBlockQuote,
    EndCodeBlock,
    EndList,
    EndLink,
    Text(Seq<char>),
    Code(Seq<char>),
    SoftBreak,
    HardBreak,
    Rule,
    Other,
}

impl View for MdEvent {
    type V = MdEventView;

    open spec fn view(&self) -> MdEventView {
        match self {
            MdEvent::StartHeading(l) => MdEventView::StartHeading(*l),
            MdEvent::StartEmphasis => MdEventView::StartEmphasis,
            MdEvent::StartStrong => MdEventView::StartStrong,
            MdEvent::StartStrikethrough => MdEventView::StartStrikethrough,
            MdEvent::StartBlockQuote => MdEventView::StartBlockQuote,
            MdEvent::StartCodeBlock(l) => MdEventView::StartCodeBlock(l@),
            MdEvent::StartList(s) => MdEventView::StartList(*s),
            MdEvent::StartItem => MdEventView::StartItem,
            MdEvent::StartLink(u) => MdEventView::StartLink(u@),
            MdEvent::EndHeading => MdEventView::EndHeading,
            MdEvent::EndParagraph => MdEventView::EndParagraph,
            MdEvent::EndEmphasis => MdEventView::EndEmphasis,
            MdEvent::EndStrong => MdEventView::EndStrong,
            MdEvent::EndStrikethrough => MdEventView::EndStrikethrough,
            MdEvent::EndBlockQuote => MdEventView::EndBlockQuote,
            MdEvent::EndCodeBlock => MdEventView::EndCodeBlock,
            MdEvent::EndList => MdEventView::EndList,
            MdEvent::EndLink => MdEventView::EndLink,
            MdEvent::Text(t) => MdEventView::Text(t@),
            MdEvent::Code(t) => MdEventView::Code(t@),
            MdEvent::SoftBreak => MdEventView::SoftBreak,
            MdEvent::HardBreak => MdEventView::HardBreak,
            MdEvent::Rule => MdEventView::Rule,
            MdEvent::Other => MdEventView::Other,
        }
    }
}

/// The views of a list of events.
pub open spec fn event_views(v: Seq<MdEvent>) -> Seq<MdEventView> {
    v.map_values(|e: MdEvent| e@)
}

/// The `pulldown_cmark` event type, carried opaquely into the converters below.
#[verifier::external_type_specification]
#[verifier::external_body]
pub struct ExEvent<'a>(pulldown_cmark::Event<'a>);

/// The `pulldown_cmark` opening-tag type.
#[verifier::external_type_specification]
#[verifier::external_body]
pub struct ExTag<'a>(pulldown_cmark::Tag<'a>);

/// The `pulldown_cmark` closing-tag type.
#[verifier::external_type_specification]
#[verifier::external_body]
pub struct ExTagEnd(pulldown_cmark::TagEnd);

/// The `pulldown_cmark` heading-level type.
#[verifier::external_type_specification]
#[verifier::external_body]
pub struct ExHeadingLevel(pulldown_cmark::HeadingLevel);

/// The events `pulldown-cmark` yields for a Markdown source with the
/// strikethrough and table extensions enabled.
pub uninterp spec fn markdown_events_of(md: Seq<char>) -> Seq<MdEventView>;

/// Parses `md` with `pulldown_cmark::Parser` (strikethrough and tables
/// enabled) and converts each event. The parser is the crate's; the contract
/// names the event list as a function of the source alone.
#[verifier::external_body]
fn markdown_events(md: &str) -> (r: Vec<MdEvent>)
    ensures
        event_views(r@) == markdown_events_of(md@),
{
    let mut opts = pulldown_cmark::Options::empty();
    opts.insert(pulldown_cmark::Options::ENABLE_STRIKETHROUGH);
    opts.insert(pulldown_cmark::Options::ENABLE_TABLES);
    pulldown_cmark::Parser::new_ext(md, opts).map(md_event).collect()
}

/// Converts one `pulldown_cmark::Event`, variant for variant.
#[verifier::external_body]
fn md_event(e: Event) -> MdEvent {
    match e {
        Event::Start(t) => md_start(t),
        Event::End(t) => md_end(t),
        Event::Text(t) => MdEvent::Text(t.to_string()),
        Event::Code(t) => MdEvent::Code(t.to_string()),
        Event::SoftBreak => MdEvent::SoftBreak,
        Event::HardBreak => MdEvent::HardBreak,
        Event::Rule => MdEvent::Rule,
        _ => MdEvent::Other,
    }
}

/// Converts one `pulldown_cmark::Tag` opening, variant for variant.
#[verifier::external_body]
fn md_start(t: Tag) -> MdEvent {
    match t {
        Tag::Heading { level, .. } => MdEvent::StartHeading(md_level(level)),
        Tag::Emphasis => MdEvent::StartEmphasis,
        Tag::Strong => MdEvent::StartStrong,
        Tag::Strikethrough => MdEvent::StartStrikethrough,
        Tag::BlockQuote(_) => MdEvent::StartBlockQuote,
        Tag::CodeBlock(CodeBlockKind::Fenced(l)) => MdEvent::StartCodeBlock(l.to_string()),
        Tag::CodeBlock(CodeBlockKind::Indented) => MdEvent::StartCodeBlock(String::new()),
        Tag::List(start) => MdEvent::StartList(start),
        Tag::Item => MdEvent::StartItem,
        Tag::Link { dest_url, .. } => MdEvent::StartLink(dest_url.to_string()),
        _ => MdEvent::Other,
    }
}

/// Converts one `pulldown_cmark::TagEnd`, variant for variant.
#[verifier::external_body]
fn md_end(t: TagEnd) -> MdEvent {
    match t {
        TagEnd::Heading(_) => MdEvent::EndHeading,
        TagEnd::Paragraph => MdEvent::EndParagraph,
        TagEnd::Emphasis => MdEvent::EndEmphasis,
        TagEnd::Strong => MdEvent::EndStrong,
        TagEnd::Strikethrough => MdEvent::EndStrikethrough,
        TagEnd::BlockQuote(_) => MdEvent::EndBlockQuote,
        TagEnd::CodeBlock => MdEvent::EndCodeBlock,
        TagEnd::List(_) => MdEvent::EndList,
        TagEnd::Link => MdEvent::EndLink,
        _ => MdEvent::Other,
    }
}

/// Converts a `pulldown_cmark::HeadingLevel`, variant for variant.
#[verifier::external_body]
fn md_level(l: CmarkLevel) -> MdHeading {
    match l {
        CmarkLevel::H1 => MdHeading::H1,
        CmarkLevel::H2 => MdHeading::H2,
        CmarkLevel::H3 => MdHeading::H3,
        CmarkLevel::H4 => MdHeading::H4,
        CmarkLevel::H5 => MdHeading::H5,
        CmarkLevel::H6 => MdHeading::H6,
    }
}

/// The converter's state: output so far, the open lists (running number, or
/// `None` for bullets), and whether a code block is open.
pub struct MdState {
    pub out: Seq<char>,
    pub lists: Seq<Option<u64>>,
    pub in_code: bool,
}

/// `n` copies of `s`.
pub open spec fn repeat(s: Seq<char>, n: nat) -> Seq<char>
    decreases n,
{
    if n == 0 {
        seq![]
    } else {
        repeat(s, (n - 1) as nat) + s
    }
}

/// The state after one event.
pub open spec fn md_step(st: MdState, e: MdEventView) -> MdState {
    match e {
        MdEventView::StartHeading(l) => MdState {
            out: st.out + seq!['\n'] + repeat(seq!['='], level_num(l)) + seq![' '],
            ..st
        },
        MdEventView::EndHeading | MdEventView::EndParagraph => MdState {
            out: st.out + "\n\n"@,
            ..st
        },
        MdEventView::StartEmphasis | MdEventView::EndEmphasis => MdState {
            out: st.out + seq!['_'],
            ..st
        },
        MdEventView::StartStrong | MdEventView::EndStrong => MdState {
            out: st.out + seq!['*'],
            ..st
        },
        MdEventView::StartStrikethrough => MdState { out: st.out + "#strike["@, ..st },
        MdEventView::StartBlockQuote => MdState { out: st.out + "#quote(block: true)[\n"@, ..st },
        MdEventView::EndBlockQuote => MdState { out: st.out + "]\n\n"@, ..st },
        MdEventView::StartCodeBlock(lang) => MdState {
            out: st.out + "```"@ + lang + seq!['\n'],
            in_code: true,
            ..st
        },
        MdEventView::EndCodeBlock => MdState { out: st.out + "```\n\n"@, in_code: false, ..st },
        MdEventView::StartList(start) => MdState { lists: st.lists.push(start), ..st },
        MdEventView::EndList => {
            let lists = if st.lists.len() > 0 {
                st.lists.drop_last()
            } else {
                st.lists
            };
            MdState {
                out: if lists.len() == 0 {
                    st.out + seq!['\n']
                } else {
                    st.out
                },
                lists,
                ..st
            }
        },
        MdEventView::StartItem => {
            let depth: nat = if st.lists.len() > 0 {
                (st.lists.len() - 1) as nat
            } else {
                0
            };
            let indent = st.out + seq!['\n'] + repeat("  "@, depth);
            if st.lists.len() > 0 && st.lists.last() is Some {
                let n = st.lists.last()->0;
                MdState {
                    out: indent + crate::text::decimal(n as nat) + ". "@,
                    lists: st.lists.update(
                        st.lists.len() - 1,
                        Some(((n as nat + 1) % 0x1_0000_0000_0000_0000) as u64),
                    ),
                    ..st
                }
            } else {
                MdState { out: indent + "- "@, ..st }
            }
        },
        MdEventView::StartLink(url) => MdState {
            out: st.out + "#link(\""@ + escaped_url(url) + "\")["@,
            ..st
        },
        MdEventView::EndStrikethrough | MdEventView::EndLink => MdState {
            out: st.out + seq![']'],
            ..st
        },
        MdEventView::Text(t) => MdState {
            out: st.out + (if st.in_code {
                t
            } else {
                escaped_inline(t)
            }),
            ..st
        },
        MdEventView::Code(t) => MdState { out: st.out + seq!['`'] + t + seq!['`'], ..st },
        MdEventView::SoftBreak => MdState { out: st.out + seq![' '], ..st },
        MdEventView::HardBreak => MdState { out: st.out + " \\\n"@, ..st },
        MdEventView::Rule => MdState { out: st.out + "\n#line(length: 100%)\n\n"@, ..st },
        MdEventView::Other => st,
    }
}

/// The state after a run of events from the initial state.
pub open spec fn md_run(events: Seq<MdEventView>) -> MdState
    decreases events.len(),
{
    if events.len() == 0 {
        MdState { out: seq![], lists: seq![], in_code: false }
    } else {
        md_step(md_run(events.drop_last()), events.last())
    }
}

/// An item of a bullet list (one started without a number, or an item
/// outside any list) is marked `- ` after a newline and two spaces per
/// enclosing list, and leaves the open lists as they are; an item of a
/// numbered list is marked with its running number and `. `. So a list opened
/// without a number gives dashes, never numbers.
pub proof fn list_items_take_their_list_marker(events: Seq<MdEventView>)
    ensures
        ({
            let st = md_run(events);
            let after = md_run(events.push(MdEventView::StartItem));
            let depth: nat = if st.lists.len() > 0 {
                (st.lists.len() - 1) as nat
            } else {
                0
            };
            let indent = st.out + "\n"@ + repeat("  "@, depth);
            &&& (st.lists.len() == 0 || st.lists.last() is None) ==> after.out == indent + "- "@
                && after.lists == st.lists
            &&& (st.lists.len() > 0 && st.lists.last() is Some) ==> after.out == indent
                + crate::text::decimal(st.lists.last()->0 as nat) + ". "@
        }),
        md_run(events.push(MdEventView::StartList(None)).push(MdEventView::StartItem)).out
            == md_run(events).out + "\n"@ + repeat("  "@, md_run(events).lists.len()) + "- "@,
{
    reveal_strlit("\n");
    assert(events.push(MdEventView::StartItem).drop_last() =~= events);
    assert(md_run(events.push(MdEventView::StartItem)) == md_step(md_run(events), MdEventView::StartItem));
    let e2 = events.push(MdEventView::StartList(None));
    assert(e2.drop_last() =~= events);
    assert(e2.push(MdEventView::StartItem).drop_last() =~= e2);
    let st2 = md_run(e2);
    assert(st2.lists == md_run(events).lists.push(None));
    assert(st2.out == md_run(events).out);
    assert(md_run(e2.push(MdEventView::StartItem)) == md_step(st2, MdEventView::StartItem));
    assert((st2.lists.len() - 1) as nat == md_run(events).lists.len());
}

/// A Markdown heading of level `N` opens a Typst heading of `N` equals
/// signs on a new line; emphasis is marked with `_` and strong emphasis with
/// `*`, at both ends.
pub proof fn headings_and_emphasis_keep_their_markers(events: Seq<MdEventView>)
    ensures
        md_run(events.push(MdEventView::StartHeading(MdHeading::H1))).out == md_run(events).out + "\n= "@,
        md_run(events.push(MdEventView::StartHeading(MdHeading::H2))).out == md_run(events).out + "\n== "@,
        md_run(events.push(MdEventView::StartHeading(MdHeading::H3))).out == md_run(events).out + "\n=== "@,
        md_run(events.push(MdEventView::StartHeading(MdHeading::H4))).out == md_run(events).out + "\n==== "@,
        md_run(events.push(MdEventView::StartHeading(MdHeading::H5))).out == md_run(events).out + "\n===== "@,
        md_run(events.push(MdEventView::StartHeading(MdHeading::H6))).out == md_run(events).out + "\n====== "@,
        md_run(events.push(MdEventView::StartEmphasis)).out == md_run(events).out + "_"@,
        md_run(events.push(MdEventView::EndEmphasis)).out == md_run(events).out + "_"@,
        md_run(events.push(MdEventView::StartStrong)).out == md_run(events).out + "*"@,
        md_run(events.push(MdEventView::EndStrong)).out == md_run(events).out + "*"@,
{
    reveal_strlit("_");
    reveal_strlit("*");
    assert(repeat(seq!['='], 0) =~= Seq::<char>::empty());
    assert(repeat(seq!['='], 1) =~= seq!['=']);
    assert(repeat(seq!['='], 2) =~= seq!['=', '=']);
    assert(repeat(seq!['='], 3) =~= seq!['=', '=', '=']);
    assert(repeat(seq!['='], 4) =~= seq!['=', '=', '=', '=']);
    assert(repeat(seq!['='], 5) =~= seq!['=', '=', '=', '=', '=']);
    assert(repeat(seq!['='], 6) =~= seq!['=', '=', '=', '=', '=', '=']);
    reveal_strlit("\n= ");
    assert(events.push(MdEventView::StartHeading(MdHeading::H1)).drop_last() =~= events);
    reveal_strlit("\n== ");
    assert(events.push(MdEventView::StartHeading(MdHeading::H2)).drop_last() =~= events);
    reveal_strlit("\n=== ");
    assert(events.push(MdEventView::StartHeading(MdHeading::H3)).drop_last() =~= events);
    reveal_strlit("\n==== ");
    assert(events.push(MdEventView::StartHeading(MdHeading::H4)).drop_last() =~= events);
    reveal_strlit("\n===== ");
    assert(events.push(MdEventView::StartHeading(MdHeading::H5)).drop_last() =~= events);
    reveal_strlit("\n====== ");
    assert(events.push(MdEventView::StartHeading(MdHeading::H6)).drop_last() =~= events);
    assert(events.push(MdEventView::StartEmphasis).drop_last() =~= events);
    assert(events.push(MdEventView::EndEmphasis).drop_last() =~= events);
    assert(events.push(MdEventView::StartStrong).drop_last() =~= events);
    assert(events.push(MdEventView::EndStrong).drop_last() =~= events);
    let o = md_run(events).out;
    assert(o + seq!['\n'] + repeat(seq!['='], 1) + seq![' '] =~= o + "\n= "@);
    assert(o + seq!['\n'] + repeat(seq!['='], 2) + seq![' '] =~= o + "\n== "@);
    assert(o + seq!['\n'] + repeat(seq!['='], 3) + seq![' '] =~= o + "\n=== "@);
    assert(o + seq!['\n'] + repeat(seq!['='], 4) + seq![' '] =~= o + "\n==== "@);
    assert(o + seq!['\n'] + repeat(seq!['='], 5) + seq![' '] =~= o + "\n===== "@);
    assert(o + seq!['\n'] + repeat(seq!['='], 6) + seq![' '] =~= o + "\n====== "@);
    assert(o + seq!['_'] =~= o + "_"@);
    assert(o + seq!['*'] =~= o + "*"@);
}

/// The Typst markup for a Markdown source.
pub open spec fn markdown_markup(md: Seq<char>) -> Seq<char> {
    md_run(markdown_events_of(md)).out
}

/// Appends `n` copies of `s`.
fn push_repeat(out: &mut Vec<char>, s: &str, n: usize)
    ensures
        final(out)@ == old(out)@ + repeat(s@, n as nat),
{
    let mut i: usize = 0;
    proof {
        assert(old(out)@ + repeat(s@, 0) =~= old(out)@);
    }
    while i < n
        invariant
            i <= n,
            out@ == old(out)@ + repeat(s@, i as nat),
        decreases n - i,
    {
        push_str(out, s);
        proof {
            assert(out@ =~= old(out)@ + repeat(s@, (i + 1) as nat));
        }
        i = i + 1;
    }
}

/// Typst markup for a list of Markdown events.
pub fn markdown_events_to_typst(events: &[MdEvent]) -> (r: Vec<char>)
    ensures
        r@ == md_run(event_views(events@)).out,
{
    let ghost ev = event_views(events@);
    let mut out: Vec<char> = Vec::new();
    let mut lists: Vec<Option<u64>> = Vec::new();
    let mut in_code = false;
    let mut i: usize = 0;
    proof {
        assert(ev.take(0) =~= Seq::<MdEventView>::empty());
    }
    while i < events.len()
        invariant
            i <= events@.len(),
            ev == event_views(events@),
            md_run(ev.take(i as int)) == (MdState { out: out@, lists: lists@, in_code }),
        decreases events@.len() - i,
    {
        proof {
            assert(ev.take(i + 1).drop_last() =~= ev.take(i as int));
            assert(ev.take(i + 1).last() == events@[i as int]@);
        }
        let ghost st = MdState { out: out@, lists: lists@, in_code };
        let ghost before = out@;
        match &events[i] {
            MdEvent::StartHeading(level) => {
                out.push('\n');
                push_repeat(&mut out, "=", heading_level_num(*level));
                out.push(' ');
                proof {
                    reveal_strlit("=");
                    assert("="@ =~= seq!['=']);
                    assert(out@ =~= before + seq!['\n'] + repeat(seq!['='], level_num(*level))
                        + seq![' ']);
                }
            },
            MdEvent::EndHeading | MdEvent::EndParagraph => {
                push_str(&mut out, "\n\n");
            },
            MdEvent::StartEmphasis | MdEvent::EndEmphasis => {
                out.push('_');
            },
            MdEvent::StartStrong | MdEvent::EndStrong => {
                out.push('*');
            },
            MdEvent::StartStrikethrough => {
                push_str(&mut out, "#strike[");
            },
            MdEvent::StartBlockQuote => {
                push_str(&mut out, "#quote(block: true)[\n");
            },
            MdEvent::EndBlockQuote => {
                push_str(&mut out, "]\n\n");
            },
            MdEvent::StartCodeBlock(lang) => {
                in_code = true;
                push_str(&mut out, "```");
                push_str(&mut out, lang.as_str());
                out.push('\n');
            },
            MdEvent::EndCodeBlock => {
                in_code = false;
                push_str(&mut out, "```\n\n");
            },
            MdEvent::StartList(start) => {
                lists.push(*start);
            },
            MdEvent::EndList => {
                if lists.len() > 0 {
                    lists.pop();
                }
                if lists.len() == 0 {
                    out.push('\n');
                }
            },
            MdEvent::StartItem => {
                let depth = if lists.len() > 0 {
                    lists.len() - 1
                } else {
                    0
                };
                out.push('\n');
                push_repeat(&mut out, "  ", depth);
                let n = lists.len();
                if n > 0 && lists[n - 1].is_some() {
                    let k = lists[n - 1].unwrap();
                    crate::text::push_decimal(&mut out, k);
                    push_str(&mut out, ". ");
                    lists.set(n - 1, Some(k.wrapping_add(1)));
                } else {
                    push_str(&mut out, "- ");
                }
            },
            MdEvent::StartLink(url) => {
                push_str(&mut out, "#link(\"");
                let u = escape_url(&chars_of(url.as_str()));
                push_all(&mut out, &u);
                push_str(&mut out, "\")[");
            },
            MdEvent::EndStrikethrough | MdEvent::EndLink => {
                out.push(']');
            },
            MdEvent::Text(t) => {
                if in_code {
                    push_str(&mut out, t.as_str());
                } else {
                    let e = escape_inline(t.as_str());
                    push_str(&mut out, e.as_str());
                }
            },
            MdEvent::Code(t) => {
                out.push('`');
                push_str(&mut out, t.as_str());
                out.push('`');
            },
            MdEvent::SoftBreak => {
                out.push(' ');
            },
            MdEvent::HardBreak => {
                push_str(&mut out, " \\\n");
            },
            MdEvent::Rule => {
                push_str(&mut out, "\n#line(length: 100%)\n\n");
            },
            MdEvent::Other => {},
        }
        proof {
            let nx = md_step(st, events@[i as int]@);
            assert(out@ =~= nx.out);
            assert(lists@ =~= nx.lists);
        }
        i = i + 1;
    }
    proof {
        assert(ev.take(events@.len() as int) =~= ev);
    }
    out
}

/// Convert Markdown to a Typst body.
fn markdown_to_typst(md: &[char]) -> (r: Vec<char>)
    ensures
        r@ == markdown_markup(md@),
{
    let s = string_of(md);
    let events = markdown_events(s.as_str());
    markdown_events_to_typst(&events)
}

// =============================================================================
// Whole documents
// =============================================================================

/// One page chunk converted according to the input format.
pub open spec fn converted(text: Seq<char>, format: InputFormat) -> Seq<char> {
    match format {
        InputFormat::Markdown => markdown_markup(text),
        InputFormat::Plaintext => plaintext_markup(text),
        InputFormat::Html => plaintext_markup(html_text(text)),
    }
}

/// Convert one chunk of source text.
fn convert(text: &[char], format: InputFormat) -> (r: Vec<char>)
    ensures
        r@ == converted(text@, format),
{
    match format {
        InputFormat::Markdown => markdown_to_typst(text),
        InputFormat::Plaintext => plaintext_to_typst(text),
        InputFormat::Html => plaintext_to_typst(&html_to_text(text)),
    }
}

proof fn lemma_unmatched_rules_split_alike(lines: Seq<Seq<char>>, rules: Seq<PageBreakRule>)
    requires
        forall|i: int| 0 <= i < lines.len() ==> first_rule(#[trigger] lines[i], rules, 0) is None,
    ensures
        split_pages(lines, rules) == split_pages(lines, seq![]),
    decreases lines.len(),
{
    if lines.len() > 0 {
        let d = lines.drop_last();
        assert forall|i: int| 0 <= i < d.len() implies first_rule(#[trigger] d[i], rules, 0) is None by {
            assert(d[i] == lines[i]);
        }
        lemma_unmatched_rules_split_alike(d, rules);
        assert(lines.last() == lines[lines.len() - 1]);
    }
}

/// Page-break rules that match no line of the text change nothing: the body
/// is the one without rules.
pub proof fn unmatched_rules_change_nothing(
    text: Seq<char>,
    format: InputFormat,
    rules: Seq<PageBreakRule>,
)
    requires
        forall|i: int|
            0 <= i < lines_of(text).len() ==> first_rule(#[trigger] lines_of(text)[i], rules, 0)
                is None,
    ensures
        body_markup(text, format, rules) == body_markup(text, format, seq![]),
{
    lemma_unmatched_rules_split_alike(lines_of(text), rules);
}

/// The lines, each followed by a newline: the one page that splitting
/// without rules makes of them.
pub open spec fn lines_text(ls: Seq<Seq<char>>) -> Seq<char>
    decreases ls.len(),
{
    if ls.len() == 0 {
        seq![]
    } else {
        lines_text(ls.drop_last()) + ls.last() + seq!['\n']
    }
}

/// A line holds no line break character.
pub open spec fn clean_line(l: Seq<char>) -> bool {
    forall|j: int| 0 <= j < l.len() ==> l[j] != '\n' && l[j] != '\r'
}

proof fn lemma_split_without_rules(ls: Seq<Seq<char>>)
    ensures
        split_pages(ls, seq![]) == seq![lines_text(ls)],
    decreases ls.len(),
{
    if ls.len() > 0 {
        lemma_split_without_rules(ls.drop_last());
        let prev = lines_text(ls.drop_last());
        assert(seq![prev].update(0, prev + ls.last() + seq!['\n']) =~= seq![lines_text(ls)]);
    }
}

proof fn lemma_lines_text_front(ls: Seq<Seq<char>>)
    requires
        ls.len() > 0,
    ensures
        lines_text(ls) == ls[0] + seq!['\n'] + lines_text(ls.drop_first()),
    decreases ls.len(),
{
    if ls.len() == 1 {
        assert(ls.drop_last() =~= Seq::<Seq<char>>::empty());
        assert(ls.drop_first() =~= Seq::<Seq<char>>::empty());
        assert(lines_text(ls.drop_last()) == Seq::<char>::empty());
        assert(lines_text(ls.drop_first()) == Seq::<char>::empty());
        assert(ls.last() == ls[0]);
        assert(lines_text(ls) =~= ls[0] + seq!['\n']);
    } else {
        let d = ls.drop_last();
        lemma_lines_text_front(d);
        assert(d.drop_first() =~= ls.drop_first().drop_last());
        assert(ls.drop_first().last() == ls.last());
        assert(lines_text(ls) =~= ls[0] + seq!['\n'] + lines_text(ls.drop_first()));
    }
}

proof fn lemma_lines_of_lines_text(ls: Seq<Seq<char>>)
    requires
        forall|i: int| 0 <= i < ls.len() ==> clean_line(#[trigger] ls[i]),
    ensures
        lines_of(lines_text(ls)) == ls,
    decreases ls.len(),
{
    if ls.len() > 0 {
        let a = ls[0];
        let rest = ls.drop_first();
        assert forall|i: int| 0 <= i < rest.len() implies clean_line(#[trigger] rest[i]) by {
            assert(rest[i] == ls[i + 1]);
        }
        lemma_lines_of_lines_text(rest);
        lemma_lines_text_front(ls);
        let t = lines_text(ls);
        assert(clean_line(ls[0]));
        lemma_newline_prefix(t, 0, a.len() as int);
        assert(t.subrange(0, a.len() as int) =~= a);
        assert(t.subrange((a.len() + 1) as int, t.len() as int) =~= lines_text(rest));
        assert(strip_cr(a) == a);
        assert(lines_of(t) =~= seq![a] + rest);
    }
}

proof fn lemma_newline_none(s: Seq<char>, i: int)
    requires
        0 <= i,
        newline_at(s, i) is None,
    ensures
        forall|j: int| i <= j < s.len() ==> s[j] != '\n',
    decreases s.len() - i,
{
    if i < s.len() {
        lemma_newline_none(s, i + 1);
    }
}

proof fn lemma_newline_first(s: Seq<char>, i: int, k: int)
    requires
        0 <= i,
        newline_at(s, i) == Some(k),
    ensures
        forall|j: int| i <= j < k ==> s[j] != '\n',
    decreases s.len() - i,
{
    if i < s.len() && s[i] != '\n' {
        lemma_newline_first(s, i + 1, k);
    }
}

proof fn lemma_lines_clean(text: Seq<char>)
    requires
        forall|j: int| 0 <= j < text.len() ==> text[j] != '\r',
    ensures
        forall|i: int| 0 <= i < lines_of(text).len() ==> clean_line(#[trigger] lines_of(text)[i]),
    decreases text.len(),
{
    if text.len() > 0 {
        match newline_at(text, 0) {
            None => {
                lemma_newline_none(text, 0);
                assert(lines_of(text) == seq![text]);
            },
            Some(k) => {
                lemma_newline_at(text, 0);
                lemma_newline_first(text, 0, k);
                let first = text.subrange(0, k);
                let rest = text.subrange(k + 1, text.len() as int);
                assert forall|j: int| 0 <= j < rest.len() implies rest[j] != '\r' by {
                    assert(rest[j] == text[j + k + 1]);
                }
                lemma_lines_clean(rest);
                assert(clean_line(first));
                assert(strip_cr(first) == first);
                let ls = lines_of(text);
                assert(ls == seq![first] + lines_of(rest));
                assert forall|i: int| 0 <= i < ls.len() implies clean_line(#[trigger] ls[i]) by {
                    if i > 0 {
                        assert(ls[i] == lines_of(rest)[i - 1]);
                    }
                }
            },
        }
    }
}

proof fn lemma_skip_ws_all(s: Seq<char>, i: int)
    requires
        0 <= i,
    ensures
        i <= skip_ws(s, i),
        forall|j: int| i <= j < skip_ws(s, i) ==> is_ws(s[j]),
    decreases s.len() - i,
{
    if 0 <= i < s.len() && is_ws(s[i]) {
        lemma_skip_ws_all(s, i + 1);
    }
}

proof fn lemma_back_ws_all(s: Seq<char>, lo: int, j: int)
    ensures
        lo <= j ==> lo <= back_ws(s, lo, j) <= j,
        forall|m: int| back_ws(s, lo, j) <= m < j ==> is_ws(s[m]),
    decreases j - lo,
{
    if lo < j && is_ws(s[j - 1]) {
        lemma_back_ws_all(s, lo, j - 1);
    }
}

proof fn lemma_trim_keeps(s: Seq<char>, k: int)
    requires
        0 <= k < s.len(),
        !is_ws(s[k]),
    ensures
        trim(s).len() > 0,
{
    lemma_skip_ws_all(s, 0);
    let lo = skip_ws(s, 0);
    assert(lo <= k);
    lemma_back_ws_all(s, lo, s.len() as int);
    assert(back_ws(s, lo, s.len() as int) > k);
}

proof fn lemma_text_holds_lines(ls: Seq<Seq<char>>, i: int, j: int)
    requires
        0 <= i < ls.len(),
        0 <= j < ls[i].len(),
    ensures
        exists|k: int| 0 <= k < lines_text(ls).len() && lines_text(ls)[k] == ls[i][j],
    decreases ls.len(),
{
    let d = ls.drop_last();
    let p = lines_text(d);
    if i == ls.len() - 1 {
        assert(lines_text(ls)[p.len() + j] == ls[i][j]);
    } else {
        assert(d[i] == ls[i]);
        lemma_text_holds_lines(d, i, j);
        let k = choose|k: int| 0 <= k < p.len() && p[k] == d[i][j];
        assert(lines_text(ls)[k] == p[k]);
    }
}

/// Plain text, without break rules, makes one page: every line escaped and
/// followed by a newline, as [`plaintext_markup`] says, and no page break
/// (given no carriage return and some character that is not whitespace).
pub proof fn plain_text_without_rules_is_one_page(text: Seq<char>)
    requires
        forall|j: int| 0 <= j < text.len() ==> text[j] != '\r',
        exists|i: int, j: int|
            0 <= i < lines_of(text).len() && 0 <= j < lines_of(text)[i].len() && !is_ws(
                #[trigger] lines_of(text)[i][j],
            ),
    ensures
        body_markup(text, InputFormat::Plaintext, seq![]) == plain_lines(lines_of(text)),
{
    let ls = lines_of(text);
    let (i, j) = choose|i: int, j: int|
        0 <= i < ls.len() && 0 <= j < ls[i].len() && !is_ws(#[trigger] ls[i][j]);
    lemma_split_without_rules(ls);
    let page = lines_text(ls);
    lemma_text_holds_lines(ls, i, j);
    let k = choose|k: int| 0 <= k < page.len() && page[k] == ls[i][j];
    lemma_trim_keeps(page, k);
    assert(non_blank(seq![page]) =~= seq![page]) by {
        assert(seq![page].drop_last() =~= Seq::<Seq<char>>::empty());
        assert(seq![page].last() == page);
        assert(non_blank(Seq::<Seq<char>>::empty()) == Seq::<Seq<char>>::empty());
        assert(Seq::<Seq<char>>::empty().push(page) =~= seq![page]);
    }
    lemma_lines_clean(text);
    lemma_lines_of_lines_text(ls);
    let pages = paginated(text, seq![]);
    assert(pages == seq![page]);
    let chunks = pages.map_values(|p: Seq<char>| converted(p, InputFormat::Plaintext));
    assert(chunks =~= seq![plain_lines(ls)]);
}

/// The pages written one after another.
pub open spec fn pages_text(pages: Seq<Seq<char>>) -> Seq<char>
    decreases pages.len(),
{
    if pages.len() == 0 {
        seq![]
    } else {
        pages_text(pages.drop_last()) + pages.last()
    }
}

/// The lines that a `Replace` rule does not take out, in order.
pub open spec fn kept_lines(lines: Seq<Seq<char>>, rules: Seq<PageBreakRule>) -> Seq<Seq<char>>
    decreases lines.len(),
{
    if lines.len() == 0 {
        seq![]
    } else {
        let rest = kept_lines(lines.drop_last(), rules);
        match first_rule(lines.last(), rules, 0) {
            Some(k) => if rules[k].position is Replace {
                rest
            } else {
                rest.push(lines.last())
            },
            None => rest.push(lines.last()),
        }
    }
}

proof fn lemma_pages_text_with_line(pages: Seq<Seq<char>>, line: Seq<char>)
    requires
        pages.len() > 0,
    ensures
        pages_text(with_line(pages, line)) == pages_text(pages) + line + seq!['\n'],
{
    let w = with_line(pages, line);
    assert(w.drop_last() =~= pages.drop_last());
}

proof fn lemma_pages_text_push(pages: Seq<Seq<char>>, p: Seq<char>)
    ensures
        pages_text(pages.push(p)) == pages_text(pages) + p,
{
    assert(pages.push(p).drop_last() =~= pages);
}

proof fn lemma_split_keeps_lines(lines: Seq<Seq<char>>, rules: Seq<PageBreakRule>)
    ensures
        split_pages(lines, rules).len() > 0,
        pages_text(split_pages(lines, rules)) == lines_text(kept_lines(lines, rules)),
    decreases lines.len(),
{
    if lines.len() == 0 {
        let one = split_pages(lines, rules);
        assert(one =~= seq![Seq::<char>::empty()]);
        assert(one.drop_last() =~= Seq::<Seq<char>>::empty());
        assert(pages_text(one.drop_last()) == Seq::<char>::empty());
        assert(one.last() == Seq::<char>::empty());
        assert(pages_text(one) =~= Seq::<char>::empty());
    } else {
        let d = lines.drop_last();
        let l = lines.last();
        lemma_split_keeps_lines(d, rules);
        let prev = split_pages(d, rules);
        let kept = kept_lines(d, rules);
        assert(kept_lines(lines, rules).len() == 0 ==> lines_text(kept_lines(lines, rules)) == Seq::<
            char,
        >::empty());
        match first_rule(l, rules, 0) {
            Some(k) => {
                match rules[k].position {
                    BreakPosition::Replace => {
                        lemma_pages_text_push(prev, seq![]);
                        assert(pages_text(prev) + seq![] =~= pages_text(prev));
                    },
                    BreakPosition::Before => {
                        lemma_pages_text_push(prev, seq![]);
                        assert(pages_text(prev) + seq![] =~= pages_text(prev));
                        lemma_pages_text_with_line(prev.push(seq![]), l);
                        assert(kept.push(l).drop_last() =~= kept);
                    },
                    BreakPosition::After => {
                        lemma_pages_text_with_line(prev, l);
                        lemma_pages_text_push(with_line(prev, l), seq![]);
                        assert(pages_text(with_line(prev, l)) + seq![] =~= pages_text(
                            with_line(prev, l),
                        ));
                        assert(kept.push(l).drop_last() =~= kept);
                    },
                }
            },
            None => {
                lemma_pages_text_with_line(prev, l);
                assert(kept.push(l).drop_last() =~= kept);
            },
        }
    }
}

proof fn lemma_non_blank_pages(pages: Seq<Seq<char>>)
    ensures
        forall|i: int| 0 <= i < non_blank(pages).len() ==> trim(#[trigger] non_blank(pages)[i]).len() > 0,
    decreases pages.len(),
{
    if pages.len() > 0 {
        let d = pages.drop_last();
        lemma_non_blank_pages(d);
        let nb = non_blank(pages);
        if trim(pages.last()).len() > 0 {
            assert forall|i: int| 0 <= i < nb.len() implies trim(#[trigger] nb[i]).len() > 0 by {
                if i < nb.len() - 1 {
                    assert(nb[i] == non_blank(d)[i]);
                } else {
                    assert(nb[i] == pages.last());
                }
            }
        }
    }
}

/// Splitting into pages keeps every line that no `Replace` rule takes out,
/// in order and each followed by a newline; the pages handed on are the
/// split pages that hold more than whitespace, or else one empty page.
pub proof fn pages_keep_every_line_a_replace_rule_spares(text: Seq<char>, rules: Seq<PageBreakRule>)
    ensures
        pages_text(split_pages(lines_of(text), rules)) == lines_text(kept_lines(lines_of(text), rules)),
        paginated(text, rules) == seq![Seq::<char>::empty()] || forall|i: int|
            0 <= i < paginated(text, rules).len() ==> trim(#[trigger] paginated(text, rules)[i]).len()
                > 0,
{
    lemma_split_keeps_lines(lines_of(text), rules);
    lemma_non_blank_pages(split_pages(lines_of(text), rules));
}

/// The separator placed between pages.
pub open spec fn page_separator() -> Seq<char> {
    "\n\n#pagebreak()\n\n"@
}

/// The chunks joined with the page separator.
pub open spec fn joined_pages(chunks: Seq<Seq<char>>) -> Seq<char>
    decreases chunks.len(),
{
    if chunks.len() == 0 {
        seq![]
    } else if chunks.len() == 1 {
        chunks[0]
    } else {
        joined_pages(chunks.drop_last()) + page_separator() + chunks.last()
    }
}

/// The Typst body of a document: its pages converted and joined with page
/// breaks.
pub open spec fn body_markup(text: Seq<char>, format: InputFormat, rules: Seq<PageBreakRule>) -> Seq<
    char,
> {
    let pages = paginated(text, rules);
    joined_pages(pages.map_values(|p: Seq<char>| converted(p, format)))
}

/// Convert an input document to a Typst body, inserting `#pagebreak()` at the
/// boundaries produced by `rules`.
pub fn to_typst_body(input: &TypesetInput, rules: &[PageBreakRule]) -> (r: String)
    ensures
        r@ == body_markup(input.text@, input.format, rules@),
{
    let text = chars_of(input.text.as_str());
    let pages = paginate(&text, rules);
    let ghost pv = char_views(pages@);
    let ghost chunks = pv.map_values(|p: Seq<char>| converted(p, input.format));
    let mut out: Vec<char> = Vec::new();
    let mut i: usize = 0;
    proof {
        assert(chunks.take(0) =~= Seq::<Seq<char>>::empty());
    }
    while i < pages.len()
        invariant
            i <= pages@.len(),
            pv == char_views(pages@),
            chunks == pv.map_values(|p: Seq<char>| converted(p, input.format)),
            out@ == joined_pages(chunks.take(i as int)),
        decreases pages@.len() - i,
    {
        let c = convert(&pages[i], input.format);
        let ghost before = out@;
        if i > 0 {
            push_str(&mut out, "\n\n#pagebreak()\n\n");
        }
        push_all(&mut out, &c);
        proof {
            assert(chunks.take(i + 1).drop_last() =~= chunks.take(i as int));
            assert(chunks.take(i + 1).last() == c@);
            if i == 0 {
                assert(chunks.take(1)[0] == c@);
                assert(out@ =~= c@);
            }
        }
        i = i + 1;
    }
    proof {
        assert(chunks.take(pages@.len() as int) =~= chunks);
    }
    string_of(&out)
}

} // verus!
