//! The parts of the document template that carry no measurements: document
//! metadata, the front matter, color rules and the table fill function.

use vstd::prelude::*;

use crate::config::{rgb_literal, Color};
use crate::text::{chars_of, decimal, push_all, push_decimal, push_str, string_of, trim, trim_chars};

verus! {

// =============================================================================
// Quoting
// =============================================================================

/// The escape of one character in a quoted string: `"` and `\` get a
/// backslash.
pub open spec fn quote_char(c: char) -> Seq<char> {
    if c == '"' || c == '\\' {
        seq!['\\', c]
    } else {
        seq![c]
    }
}

/// The escaped body of a quoted string.
pub open spec fn quote_body(s: Seq<char>) -> Seq<char>
    decreases s.len(),
{
    if s.len() == 0 {
        seq![]
    } else {
        quote_body(s.drop_last()) + quote_char(s.last())
    }
}

/// `s` as a `Typst` string literal.
pub open spec fn str_literal(s: Seq<char>) -> Seq<char> {
    seq!['"'] + quote_body(s) + seq!['"']
}

/// Appends the escaped body of `s`.
fn push_quoted_body(out: &mut Vec<char>, s: &[char])
    ensures
        final(out)@ == old(out)@ + quote_body(s@),
{
    let mut i: usize = 0;
    proof {
        assert(old(out)@ + quote_body(s@.take(0)) =~= old(out)@);
    }
    while i < s.len()
        invariant
            i <= s@.len(),
            out@ == old(out)@ + quote_body(s@.take(i as int)),
        decreases s@.len() - i,
    {
        let ghost before = out@;
        let c = s[i];
        if c == '"' || c == '\\' {
            out.push('\\');
        }
        out.push(c);
        proof {
            assert(s@.take(i + 1).drop_last() =~= s@.take(i as int));
            assert(out@ =~= before + quote_char(c));
        }
        i = i + 1;
    }
    proof {
        assert(s@.take(s@.len() as int) =~= s@);
    }
}

/// Quote a string as a `Typst` string literal.
pub fn typst_str(s: &str) -> (r: String)
    ensures
        r@ == str_literal(s@),
{
    let v = chars_of(s);
    let mut out: Vec<char> = Vec::new();
    out.push('"');
    push_quoted_body(&mut out, &v);
    out.push('"');
    proof {
        assert(out@ =~= str_literal(s@));
    }
    string_of(&out)
}

/// `s` without its leading and trailing `"` characters.
pub open spec fn unquoted(s: Seq<char>) -> Seq<char> {
    let lo = quotes_end(s, 0);
    s.subrange(lo, quotes_start(s, lo, s.len() as int))
}

/// The index of the first character at or after `i` that is not `"`.
pub open spec fn quotes_end(s: Seq<char>, i: int) -> int
    decreases s.len() - i,
{
    if 0 <= i < s.len() && s[i] == '"' {
        quotes_end(s, i + 1)
    } else {
        i
    }
}

/// The end of `s[lo..j]` once trailing `"` characters are dropped.
pub open spec fn quotes_start(s: Seq<char>, lo: int, j: int) -> int
    decreases j - lo,
{
    if lo < j && s[j - 1] == '"' {
        quotes_start(s, lo, j - 1)
    } else {
        j
    }
}

/// `str::trim_matches('"')`.
fn trim_quotes(v: &[char]) -> (r: Vec<char>)
    ensures
        r@ == unquoted(v@),
{
    let mut lo: usize = 0;
    while lo < v.len() && v[lo] == '"'
        invariant
            lo <= v@.len(),
            quotes_end(v@, 0) == quotes_end(v@, lo as int),
        decreases v@.len() - lo,
    {
        lo = lo + 1;
    }
    let mut hi: usize = v.len();
    while hi > lo && v[hi - 1] == '"'
        invariant
            lo <= hi <= v@.len(),
            quotes_start(v@, lo as int, v@.len() as int) == quotes_start(v@, lo as int, hi as int),
        decreases hi - lo,
    {
        hi = hi - 1;
    }
    crate::text::slice_chars(v, lo, hi)
}

// =============================================================================
// Front matter
// =============================================================================

/// The title page (when a title is set) and the table of contents (when
/// asked for, at a depth clamped to 1..6), each followed by a page break.
pub open spec fn front_matter_markup(
    title: Seq<char>,
    author: Seq<char>,
    generate_toc: bool,
    toc_depth: u8,
) -> Seq<char> {
    let t = trim(title);
    let a = trim(author);
    let depth: nat = if toc_depth < 1 {
        1
    } else if toc_depth > 6 {
        6
    } else {
        toc_depth as nat
    };
    (if t.len() > 0 {
        "#align(center + horizon)[\n"@ + "  #text(size: 2.2em, weight: \"bold\")["@ + unquoted(
            str_literal(t),
        ) + "]\n"@ + (if a.len() > 0 {
            "  #v(1.2em)\n"@ + "  #text(size: 1.2em)["@ + unquoted(str_literal(a)) + "]\n"@
        } else {
            seq![]
        }) + "]\n#pagebreak()\n\n"@
    } else {
        seq![]
    }) + (if generate_toc {
        "#outline(title: [Contents], depth: "@ + decimal(depth) + ")\n"@ + "#pagebreak()\n\n"@
    } else {
        seq![]
    })
}

/// Title page (when a document title is set) and table of contents (when
/// enabled), each followed by a page break.
pub fn front_matter(title: &str, author: &str, generate_toc: bool, toc_depth: u8) -> (r: String)
    ensures
        r@ == front_matter_markup(title@, author@, generate_toc, toc_depth),
{
    let t = trim_chars(&chars_of(title));
    let a = trim_chars(&chars_of(author));
    let mut s: Vec<char> = Vec::new();
    if t.len() > 0 {
        push_str(&mut s, "#align(center + horizon)[\n");
        push_str(&mut s, "  #text(size: 2.2em, weight: \"bold\")[");
        let q = typst_str(string_of(&t).as_str());
        let inner = trim_quotes(&chars_of(q.as_str()));
        push_all(&mut s, &inner);
        push_str(&mut s, "]\n");
        if a.len() > 0 {
            push_str(&mut s, "  #v(1.2em)\n");
            push_str(&mut s, "  #text(size: 1.2em)[");
            let qa = typst_str(string_of(&a).as_str());
            let inner_a = trim_quotes(&chars_of(qa.as_str()));
            push_all(&mut s, &inner_a);
            push_str(&mut s, "]\n");
        }
        push_str(&mut s, "]\n#pagebreak()\n\n");
    }
    let ghost mid = s@;
    if generate_toc {
        let depth: u8 = if toc_depth < 1 {
            1
        } else if toc_depth > 6 {
            6
        } else {
            toc_depth
        };
        push_str(&mut s, "#outline(title: [Contents], depth: ");
        push_decimal(&mut s, depth as u64);
        push_str(&mut s, ")\n");
        push_str(&mut s, "#pagebreak()\n\n");
    }
    proof {
        assert(s@ =~= front_matter_markup(title@, author@, generate_toc, toc_depth));
    }
    string_of(&s)
}

// =============================================================================
// Document metadata
// =============================================================================

/// `s` split at every `,` (`str::split(',')`): at least one piece.
pub open spec fn comma_pieces(s: Seq<char>) -> Seq<Seq<char>>
    decreases s.len(),
{
    if s.len() == 0 {
        seq![seq![]]
    } else {
        let p = comma_pieces(s.drop_last());
        if s.last() == ',' {
            p.push(seq![])
        } else {
            p.update(p.len() - 1, p.last().push(s.last()))
        }
    }
}

proof fn lemma_comma_pieces_len(s: Seq<char>)
    ensures
        comma_pieces(s).len() >= 1,
    decreases s.len(),
{
    if s.len() > 0 {
        lemma_comma_pieces_len(s.drop_last());
    }
}

/// The trimmed, non-empty pieces of a list, in order.
pub open spec fn kept_keywords(pieces: Seq<Seq<char>>) -> Seq<Seq<char>>
    decreases pieces.len(),
{
    if pieces.len() == 0 {
        seq![]
    } else {
        let k = kept_keywords(pieces.drop_last());
        let t = trim(pieces.last());
        if t.len() > 0 {
            k.push(t)
        } else {
            k
        }
    }
}

/// The keywords of a comma-separated list: trimmed, empty ones dropped.
pub open spec fn keywords_of(s: Seq<char>) -> Seq<Seq<char>> {
    kept_keywords(comma_pieces(s))
}

/// Items joined with `sep`.
pub open spec fn join_with(items: Seq<Seq<char>>, sep: Seq<char>) -> Seq<char>
    decreases items.len(),
{
    if items.len() == 0 {
        seq![]
    } else if items.len() == 1 {
        items[0]
    } else {
        join_with(items.drop_last(), sep) + sep + items.last()
    }
}

/// The keyword list `("a", "b",)`.
pub open spec fn keyword_list(kws: Seq<Seq<char>>) -> Seq<char> {
    "("@ + join_with(kws.map_values(|k: Seq<char>| str_literal(k)), ", "@) + ",)"@
}

/// The `#set document(...)` line for a title, an author and a comma-separated
/// keyword list; nothing when all three are empty.
pub open spec fn metadata_markup(title: Seq<char>, author: Seq<char>, keywords: Seq<char>) -> Seq<
    char,
> {
    let t = trim(title);
    let a = trim(author);
    let k = keywords_of(keywords);
    if t.len() == 0 && a.len() == 0 && k.len() == 0 {
        seq![]
    } else {
        let parts = (if t.len() > 0 {
            seq!["title: "@ + str_literal(t)]
        } else {
            seq![]
        }) + (if a.len() > 0 {
            seq!["author: "@ + str_literal(a)]
        } else {
            seq![]
        }) + (if k.len() > 0 {
            seq!["keywords: "@ + keyword_list(k)]
        } else {
            seq![]
        });
        "#set document("@ + join_with(parts, ", "@) + ")\n"@
    }
}

/// Splits at commas, trims, and drops empty pieces.
fn keywords(s: &[char]) -> (r: Vec<Vec<char>>)
    ensures
        r@.map_values(|k: Vec<char>| k@) == keywords_of(s@),
{
    let mut out: Vec<Vec<char>> = Vec::new();
    let mut piece: Vec<char> = Vec::new();
    let mut i: usize = 0;
    proof {
        assert(s@.take(0) =~= Seq::<char>::empty());
        assert(comma_pieces(s@.take(0)).drop_last() =~= Seq::<Seq<char>>::empty());
    }
    while i < s.len()
        invariant
            i <= s@.len(),
            comma_pieces(s@.take(i as int)).len() >= 1,
            piece@ == comma_pieces(s@.take(i as int)).last(),
            out@.map_values(|k: Vec<char>| k@) == kept_keywords(
                comma_pieces(s@.take(i as int)).drop_last(),
            ),
        decreases s@.len() - i,
    {
        let ghost p = comma_pieces(s@.take(i as int));
        proof {
            assert(s@.take(i + 1).drop_last() =~= s@.take(i as int));
            assert(s@.take(i + 1).last() == s@[i as int]);
        }
        if s[i] == ',' {
            let t = trim_chars(&piece);
            let ghost before = out@.map_values(|k: Vec<char>| k@);
            if t.len() > 0 {
                out.push(t);
                proof {
                    assert(out@.map_values(|k: Vec<char>| k@) =~= before.push(trim(p.last())));
                }
            }
            piece = Vec::new();
            proof {
                assert(comma_pieces(s@.take(i + 1)) == p.push(seq![]));
                assert(p.push(seq![]).drop_last() =~= p);
                assert(p.drop_last().push(p.last()) =~= p);
                assert(piece@ =~= Seq::<char>::empty());
            }
        } else {
            piece.push(s[i]);
            proof {
                let q = p.update(p.len() - 1, p.last().push(s@[i as int]));
                assert(comma_pieces(s@.take(i + 1)) == q);
                assert(q.drop_last() =~= p.drop_last());
            }
        }
        i = i + 1;
    }
    let ghost p = comma_pieces(s@);
    proof {
        assert(s@.take(s@.len() as int) =~= s@);
        assert(p.drop_last().push(p.last()) =~= p);
    }
    let t = trim_chars(&piece);
    if t.len() > 0 {
        let ghost before = out@.map_values(|k: Vec<char>| k@);
        out.push(t);
        proof {
            assert(out@.map_values(|k: Vec<char>| k@) =~= before.push(trim(p.last())));
        }
    }
    out
}

/// Appends `items` joined with `", "`, each quoted when `quote`.
fn push_joined(out: &mut Vec<char>, items: &Vec<Vec<char>>, quote: bool)
    ensures
        final(out)@ == old(out)@ + join_with(
            if quote {
                items@.map_values(|k: Vec<char>| str_literal(k@))
            } else {
                items@.map_values(|k: Vec<char>| k@)
            },
            ", "@,
        ),
{
    let ghost v = if quote {
        items@.map_values(|k: Vec<char>| str_literal(k@))
    } else {
        items@.map_values(|k: Vec<char>| k@)
    };
    let mut i: usize = 0;
    proof {
        assert(old(out)@ + join_with(v.take(0), ", "@) =~= old(out)@);
    }
    while i < items.len()
        invariant
            i <= items@.len(),
            v.len() == items@.len(),
            v == if quote {
                items@.map_values(|k: Vec<char>| str_literal(k@))
            } else {
                items@.map_values(|k: Vec<char>| k@)
            },
            out@ == old(out)@ + join_with(v.take(i as int), ", "@),
        decreases items@.len() - i,
    {
        let ghost before = out@;
        proof {
            assert(v.take(i + 1).drop_last() =~= v.take(i as int));
        }
        if i > 0 {
            push_str(out, ", ");
        }
        if quote {
            out.push('"');
            push_quoted_body(out, &items[i]);
            out.push('"');
        } else {
            push_all(out, &items[i]);
        }
        proof {
            assert(v[i as int] == if quote {
                str_literal(items@[i as int]@)
            } else {
                items@[i as int]@
            });
            if i == 0 {
                assert(out@ =~= old(out)@ + join_with(v.take(1), ", "@));
            } else {
                assert(out@ =~= old(out)@ + join_with(v.take(i + 1), ", "@));
            }
        }
        i = i + 1;
    }
    proof {
        assert(v.take(items@.len() as int) =~= v);
    }
}

/// `#set document(...)` so the exported PDF carries title, author and
/// keywords.
pub fn document_metadata(title: &str, author: &str, keywords_text: &str) -> (r: String)
    ensures
        r@ == metadata_markup(title@, author@, keywords_text@),
{
    let t = trim_chars(&chars_of(title));
    let a = trim_chars(&chars_of(author));
    let k = keywords(&chars_of(keywords_text));
    if t.len() == 0 && a.len() == 0 && k.len() == 0 {
        let empty = String::new();
        proof {
            assert(empty@ =~= seq![]);
        }
        return empty;
    }
    let ghost kv = k@.map_values(|x: Vec<char>| x@);
    let mut parts: Vec<Vec<char>> = Vec::new();
    let ghost mut pv: Seq<Seq<char>> = seq![];
    if t.len() > 0 {
        let mut p: Vec<char> = Vec::new();
        push_str(&mut p, "title: ");
        let q = typst_str(string_of(&t).as_str());
        push_str(&mut p, q.as_str());
        parts.push(p);
        proof {
            pv = pv.push("title: "@ + str_literal(t@));
        }
    }
    proof {
        assert(parts@.map_values(|x: Vec<char>| x@) =~= pv);
    }
    if a.len() > 0 {
        let mut p: Vec<char> = Vec::new();
        push_str(&mut p, "author: ");
        let q = typst_str(string_of(&a).as_str());
        push_str(&mut p, q.as_str());
        let ghost before = parts@.map_values(|x: Vec<char>| x@);
        parts.push(p);
        proof {
            assert(parts@.map_values(|x: Vec<char>| x@) =~= before.push(p@));
            pv = pv.push("author: "@ + str_literal(a@));
        }
    }
    proof {
        assert(parts@.map_values(|x: Vec<char>| x@) =~= pv);
    }
    if k.len() > 0 {
        let mut p: Vec<char> = Vec::new();
        push_str(&mut p, "keywords: ");
        push_str(&mut p, "(");
        push_joined(&mut p, &k, true);
        push_str(&mut p, ",)");
        let ghost before = parts@.map_values(|x: Vec<char>| x@);
        parts.push(p);
        proof {
            assert(k@.map_values(|x: Vec<char>| str_literal(x@)) =~= kv.map_values(
                |x: Seq<char>| str_literal(x),
            ));
            assert(p@ =~= "keywords: "@ + keyword_list(kv));
            assert(parts@.map_values(|x: Vec<char>| x@) =~= before.push(p@));
            pv = pv.push("keywords: "@ + keyword_list(kv));
        }
    }
    let mut s: Vec<char> = Vec::new();
    push_str(&mut s, "#set document(");
    push_joined(&mut s, &parts, false);
    push_str(&mut s, ")\n");
    proof {
        let spec_parts = (if t@.len() > 0 {
            seq!["title: "@ + str_literal(t@)]
        } else {
            seq![]
        }) + (if a@.len() > 0 {
            seq!["author: "@ + str_literal(a@)]
        } else {
            seq![]
        }) + (if kv.len() > 0 {
            seq!["keywords: "@ + keyword_list(kv)]
        } else {
            seq![]
        });
        assert(parts@.map_values(|x: Vec<char>| x@) =~= spec_parts);
        assert(s@ =~= metadata_markup(title@, author@, keywords_text@));
    }
    string_of(&s)
}

// =============================================================================
// Color rules
// =============================================================================

/// Color rules for links and code (inline and block), plus an optional code
/// block background; black colors need no rule.
pub open spec fn color_rules_markup(link: Color, code: Color, code_background: Option<Color>) -> Seq<
    char,
> {
    (if !(link.r == 0 && link.g == 0 && link.b == 0) {
        "#show link: set text(fill: "@ + rgb_literal(link) + ")\n"@
    } else {
        seq![]
    }) + (if !(code.r == 0 && code.g == 0 && code.b == 0) {
        "#show raw: set text(fill: "@ + rgb_literal(code) + ")\n"@
    } else {
        seq![]
    }) + (match code_background {
        Some(bg) => "#show raw.where(block: true): it => block(fill: "@ + rgb_literal(bg)
            + ", inset: 6pt, radius: 3pt, width: 100%, it)\n"@,
        None => seq![],
    })
}

/// The color rules target what they color: a link color that is not black
/// gives exactly one rule, on `link` and carrying that color; a code color
/// that is not black gives exactly one rule, on `raw` and carrying that
/// color; black colors give no rule; a code background gives one rule on
/// code blocks; and the rules for links, code and code background are
/// independent of each other and come in that order.
pub proof fn color_rules_target_what_they_color(link: Color, code: Color, bg: Option<Color>)
    ensures
        ({
            let black = Color { r: 0, g: 0, b: 0 };
            &&& color_rules_markup(link, code, bg) == color_rules_markup(link, black, None)
                + color_rules_markup(black, code, None) + color_rules_markup(black, black, bg)
            &&& color_rules_markup(black, black, None) == Seq::<char>::empty()
            &&& !(link.r == 0 && link.g == 0 && link.b == 0) ==> color_rules_markup(link, black, None)
                == "#show link: set text(fill: "@ + rgb_literal(link) + ")\n"@
            &&& !(code.r == 0 && code.g == 0 && code.b == 0) ==> color_rules_markup(black, code, None)
                == "#show raw: set text(fill: "@ + rgb_literal(code) + ")\n"@
            &&& bg matches Some(c) ==> color_rules_markup(black, black, bg)
                == "#show raw.where(block: true): it => block(fill: "@ + rgb_literal(c)
                + ", inset: 6pt, radius: 3pt, width: 100%, it)\n"@
        }),
{
    let black = Color { r: 0, g: 0, b: 0 };
    let l = color_rules_markup(link, black, None);
    let k = color_rules_markup(black, code, None);
    let b = color_rules_markup(black, black, bg);
    assert(color_rules_markup(link, code, bg) =~= l + k + b);
    assert(color_rules_markup(black, black, None) =~= Seq::<char>::empty());
    assert(!(link.r == 0 && link.g == 0 && link.b == 0) ==> l =~= "#show link: set text(fill: "@
        + rgb_literal(link) + ")\n"@);
    assert(!(code.r == 0 && code.g == 0 && code.b == 0) ==> k =~= "#show raw: set text(fill: "@
        + rgb_literal(code) + ")\n"@);
}

/// Color rules for links and code (inline and block, plus an optional code
/// block background).
pub fn inline_color_rules(link: Color, code: Color, code_background: Option<Color>) -> (r: String)
    ensures
        r@ == color_rules_markup(link, code, code_background),
{
    let mut s: Vec<char> = Vec::new();
    if !link.is_black() {
        push_str(&mut s, "#show link: set text(fill: ");
        let c = link.to_typst();
        push_str(&mut s, c.as_str());
        push_str(&mut s, ")\n");
    }
    if !code.is_black() {
        push_str(&mut s, "#show raw: set text(fill: ");
        let c = code.to_typst();
        push_str(&mut s, c.as_str());
        push_str(&mut s, ")\n");
    }
    match code_background {
        Some(bg) => {
            push_str(&mut s, "#show raw.where(block: true): it => block(fill: ");
            let c = bg.to_typst();
            push_str(&mut s, c.as_str());
            push_str(&mut s, ", inset: 6pt, radius: 3pt, width: 100%, it)\n");
        },
        None => {},
    }
    proof {
        assert(s@ =~= color_rules_markup(link, code, code_background));
    }
    string_of(&s)
}

/// The `(_, y) => ...` fill function for a header-row fill (row 0) and zebra
/// striping of odd body rows; `None` when neither is set.
pub open spec fn fill_fn_markup(header: Option<Color>, zebra: Option<Color>) -> Option<Seq<char>> {
    let h = match header {
        Some(c) => seq!["if y == 0 { "@ + rgb_literal(c) + " }"@],
        None => seq![],
    };
    let z = match zebra {
        Some(c) => seq!["if y > 0 and calc.odd(y) { "@ + rgb_literal(c) + " }"@],
        None => seq![],
    };
    let clauses = h + z;
    if clauses.len() == 0 {
        None
    } else {
        Some("(_, y) => { "@ + join_with(clauses, " else "@) + " else { none } }"@)
    }
}

/// Build a `Typst` fill function combining a header row fill and zebra
/// striping of odd body rows.
pub fn table_fill_fn(header: Option<Color>, zebra: Option<Color>) -> (r: Option<String>)
    ensures
        match fill_fn_markup(header, zebra) {
            Some(m) => r matches Some(s) && s@ == m,
            None => r is None,
        },
{
    if header.is_none() && zebra.is_none() {
        return None;
    }
    let mut s: Vec<char> = Vec::new();
    push_str(&mut s, "(_, y) => { ");
    match header {
        Some(h) => {
            push_str(&mut s, "if y == 0 { ");
            let c = h.to_typst();
            push_str(&mut s, c.as_str());
            push_str(&mut s, " }");
        },
        None => {},
    }
    match zebra {
        Some(z) => {
            if header.is_some() {
                push_str(&mut s, " else ");
            }
            push_str(&mut s, "if y > 0 and calc.odd(y) { ");
            let c = z.to_typst();
            push_str(&mut s, c.as_str());
            push_str(&mut s, " }");
        },
        None => {},
    }
    push_str(&mut s, " else { none } }");
    proof {
        reveal_with_fuel(join_with, 2);
        let m = fill_fn_markup(header, zebra)->Some_0;
        let h = match header {
            Some(c) => seq!["if y == 0 { "@ + rgb_literal(c) + " }"@],
            None => seq![],
        };
        let z = match zebra {
            Some(c) => seq!["if y > 0 and calc.odd(y) { "@ + rgb_literal(c) + " }"@],
            None => seq![],
        };
        if header is Some && zebra is Some {
            assert(h + z =~= seq![h[0], z[0]]);
            assert(seq![h[0], z[0]].drop_last() =~= seq![h[0]]);
        } else if header is Some {
            assert(h + z =~= h);
        } else {
            assert(h + z =~= z);
        }
        assert(s@ =~= m);
    }
    Some(string_of(&s))
}

} // verus!
