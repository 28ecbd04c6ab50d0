//! `TeX`-source fixups for `LaTeXML`-produced math annotations.
//!
//! This module is the only home for heuristic rewriting: legacy plain-`TeX`
//! primitives, package-specific macros, and `LaTeXML` cruft. Everything here is
//! a pure text transform applied to the `TeX` before it reaches a converter, so
//! the native path and the image fallback see the same normalized input.
//!
//! The rewriting is specified by the spec functions [`rewritten`] (one group's
//! content) and [`rewritten_from`] (the scan of a group from a position), and
//! [`normalized`] for the whole pipeline.

use vstd::prelude::*;

use crate::text::{
    chars_of, eq_str, is_alphabetic, occurs_at, push_all, push_str, replace_all, replace_str, slice_chars,
    string_of, trim, trim_chars, alphabetic, ascii_letter,
};

verus! {

// =============================================================================
// Specification
// =============================================================================

/// Legacy font-switch primitives mapped to modern `\math..{..}` commands.
pub open spec fn font_switch_of(name: Seq<char>) -> Option<Seq<char>> {
    if name == "rm"@ {
        Some("mathrm"@)
    } else if name == "sf"@ {
        Some("mathsf"@)
    } else if name == "bf"@ {
        Some("mathbf"@)
    } else if name == "it"@ || name == "sl"@ {
        Some("mathit"@)
    } else if name == "tt"@ {
        Some("mathtt"@)
    } else if name == "cal"@ {
        Some("mathcal"@)
    } else {
        None
    }
}

/// Package macros `\cmd{arg}` rewritten to standard `TeX`: the text before and
/// after the argument slot. `\bm`/`\boldsymbol` map to `\boldsymbol` (not
/// `\mathbf`) so the result reads as bold italic.
pub open spec fn macro_template_of(name: Seq<char>) -> Option<(Seq<char>, Seq<char>)> {
    if name == "bm"@ || name == "boldsymbol"@ || name == "pmb"@ {
        Some(("\\boldsymbol{"@, "}"@))
    } else if name == "ket"@ {
        Some(("\\left|"@, "\\right\\rangle"@))
    } else if name == "bra"@ {
        Some(("\\left\\langle "@, "\\right|"@))
    } else if name == "braket"@ {
        Some(("\\left\\langle "@, "\\right\\rangle"@))
    } else if name == "absolutevalue"@ || name == "abs"@ {
        Some(("\\left|"@, "\\right|"@))
    } else if name == "norm"@ {
        Some(("\\left\\|"@, "\\right\\|"@))
    } else {
        None
    }
}

/// End of the run of alphabetic characters starting at `j`.
pub open spec fn letters_end(s: Seq<char>, j: int) -> int
    decreases s.len() - j,
{
    if 0 <= j < s.len() && alphabetic(s[j]) {
        letters_end(s, j + 1)
    } else {
        j
    }
}

/// End of the control sequence whose backslash is at `i`: a control word is a
/// run of letters, a control symbol a single non-letter, and a backslash at the
/// very end has an empty name. The name is `s[i + 1 .. cmd_end(s, i)]`.
pub open spec fn cmd_end(s: Seq<char>, i: int) -> int {
    let j = i + 1;
    if j < s.len() && alphabetic(s[j]) {
        letters_end(s, j)
    } else if j < s.len() {
        j + 1
    } else {
        j
    }
}

/// Index of the `}` closing a group whose scan is at `j` with `depth` groups
/// open, if it exists.
pub open spec fn match_close(s: Seq<char>, j: int, depth: nat) -> Option<int>
    decreases s.len() - j,
{
    if j < 0 || j >= s.len() {
        None
    } else if s[j] == '{' {
        match_close(s, j + 1, depth + 1)
    } else if s[j] == '}' {
        if depth <= 1 {
            Some(j)
        } else {
            match_close(s, j + 1, (depth - 1) as nat)
        }
    } else {
        match_close(s, j + 1, depth)
    }
}

/// For `s[i] == '{'`, the index of its matching `}`; the group's content is
/// `s[i + 1 .. close]`.
pub open spec fn group_close(s: Seq<char>, i: int) -> Option<int> {
    if 0 <= i < s.len() && s[i] == '{' {
        match_close(s, i + 1, 1)
    } else {
        None
    }
}

/// First index at or after `k` that is not a space.
pub open spec fn skip_spaces(s: Seq<char>, k: int) -> int
    decreases s.len() - k,
{
    if 0 <= k < s.len() && s[k] == ' ' {
        skip_spaces(s, k + 1)
    } else {
        k
    }
}

/// The first `\over` at brace depth 0 (scanning from `i` at `depth`): its
/// backslash position and the end of the command.
pub open spec fn over_at(s: Seq<char>, i: int, depth: int) -> Option<(int, int)>
    decreases s.len() - i,
{
    if i < 0 || i >= s.len() {
        None
    } else if s[i] == '{' {
        over_at(s, i + 1, depth + 1)
    } else if s[i] == '}' {
        over_at(s, i + 1, depth - 1)
    } else if s[i] == '\\' {
        let e = cmd_end(s, i);
        proof {
            lemma_cmd_end(s, i);
        }
        if depth == 0 && s.subrange(i + 1, e) == "over"@ {
            Some((i, e))
        } else {
            over_at(s, e, depth)
        }
    } else {
        over_at(s, i + 1, depth)
    }
}

/// `\frac{num}{den}`.
pub open spec fn frac(num: Seq<char>, den: Seq<char>) -> Seq<char> {
    "\\frac{"@ + num + "}{"@ + den + "}"@
}

/// The rewrite of one group's content (or the whole input): a top-level
/// `\over` turns the content into a `\frac`; otherwise the content is scanned
/// by [`rewritten_from`].
pub open spec fn rewritten(s: Seq<char>) -> Seq<char>
    decreases s.len(), s.len() + 1,
{
    match over_at(s, 0, 0) {
        Some((i, e)) => {
            proof {
                lemma_over_at(s, 0, 0);
            }
            frac(
                trim(rewritten(s.subrange(0, i))),
                trim(rewritten(s.subrange(e, s.len() as int))),
            )
        },
        None => rewritten_from(s, 0),
    }
}

/// The rewrite of `s` from position `i` to the end:
/// - a `{...}` group is rewritten recursively (an unmatched `{` stays);
/// - a font switch `\rm` applies to the rest of the content, which becomes its
///   argument `\mathrm{...}`;
/// - a known package macro takes the following group (after spaces) as its
///   argument, or an empty argument when none follows;
/// - any other command and any other character is copied.
pub open spec fn rewritten_from(s: Seq<char>, i: int) -> Seq<char>
    decreases s.len(), s.len() - i,
{
    if i < 0 || i >= s.len() {
        seq![]
    } else if s[i] == '{' {
        match group_close(s, i) {
            Some(c) => {
                proof {
                    lemma_match_close(s, i + 1, 1);
                }
                "{"@ + rewritten(s.subrange(i + 1, c)) + "}"@ + rewritten_from(s, c + 1)
            },
            None => "{"@ + rewritten_from(s, i + 1),
        }
    } else if s[i] == '\\' {
        let e = cmd_end(s, i);
        proof {
            lemma_cmd_end(s, i);
        }
        let name = s.subrange(i + 1, e);
        match font_switch_of(name) {
            Some(m) => "\\"@ + m + "{"@ + trim(rewritten(s.subrange(e, s.len() as int))) + "}"@,
            None => match macro_template_of(name) {
                Some((pre, post)) => {
                    let k = skip_spaces(s, e);
                    proof {
                        lemma_skip_spaces(s, e);
                    }
                    match group_close(s, k) {
                        Some(c) => {
                            proof {
                                lemma_match_close(s, k + 1, 1);
                            }
                            pre + rewritten(s.subrange(k + 1, c)) + post + rewritten_from(s, c + 1)
                        },
                        None => pre + post + rewritten_from(s, e),
                    }
                },
                None => s.subrange(i, e) + rewritten_from(s, e),
            },
        }
    } else {
        seq![s[i]] + rewritten_from(s, i + 1)
    }
}

/// The input after the meaningless `LaTeXML` tokens are blanked: each cruft
/// token in turn, then the empty-group tie `~{}`, is replaced by a space.
pub open spec fn without_cruft(s: Seq<char>) -> Seq<char> {
    let s1 = replace_all(s, "\\displaystyle"@, " "@);
    let s2 = replace_all(s1, "\\textstyle"@, " "@);
    let s3 = replace_all(s2, "\\scriptstyle"@, " "@);
    let s4 = replace_all(s3, "\\scriptscriptstyle"@, " "@);
    let s5 = replace_all(s4, "\\leavevmode"@, " "@);
    let s6 = replace_all(s5, "\\nobreak"@, " "@);
    let s7 = replace_all(s6, "\\@add@centering"@, " "@);
    let s8 = replace_all(s7, "\\centering"@, " "@);
    replace_all(s8, "~{}"@, " "@)
}

/// The full normalization of a math annotation.
pub open spec fn normalized(tex: Seq<char>) -> Seq<char> {
    rewritten(without_cruft(tex))
}

// =============================================================================
// Lemmas
// =============================================================================

pub proof fn lemma_letters_end(s: Seq<char>, j: int)
    requires
        0 <= j <= s.len(),
    ensures
        j <= letters_end(s, j) <= s.len(),
    decreases s.len() - j,
{
    if j < s.len() && alphabetic(s[j]) {
        lemma_letters_end(s, j + 1);
    }
}

pub proof fn lemma_cmd_end(s: Seq<char>, i: int)
    requires
        0 <= i < s.len(),
    ensures
        i < cmd_end(s, i) <= s.len(),
{
    if i + 1 < s.len() && alphabetic(s[i + 1]) {
        lemma_letters_end(s, i + 1);
    }
}

pub proof fn lemma_match_close(s: Seq<char>, j: int, depth: nat)
    requires
        0 <= j,
    ensures
        match_close(s, j, depth) matches Some(c) ==> j <= c < s.len() && s[c] == '}',
    decreases s.len() - j,
{
    if 0 <= j < s.len() {
        if s[j] == '{' {
            lemma_match_close(s, j + 1, depth + 1);
        } else if s[j] == '}' {
            if depth > 1 {
                lemma_match_close(s, j + 1, (depth - 1) as nat);
            }
        } else {
            lemma_match_close(s, j + 1, depth);
        }
    }
}

pub proof fn lemma_skip_spaces(s: Seq<char>, k: int)
    requires
        0 <= k,
    ensures
        k <= skip_spaces(s, k),
    decreases s.len() - k,
{
    if 0 <= k < s.len() && s[k] == ' ' {
        lemma_skip_spaces(s, k + 1);
    }
}

pub proof fn lemma_over_at(s: Seq<char>, i: int, depth: int)
    requires
        0 <= i,
    ensures
        over_at(s, i, depth) matches Some((a, e)) ==> i <= a < e <= s.len() && s[a] == '\\'
            && e == cmd_end(s, a),
    decreases s.len() - i,
{
    if 0 <= i < s.len() {
        if s[i] == '{' {
            lemma_over_at(s, i + 1, depth + 1);
        } else if s[i] == '}' {
            lemma_over_at(s, i + 1, depth - 1);
        } else if s[i] == '\\' {
            lemma_cmd_end(s, i);
            lemma_over_at(s, cmd_end(s, i), depth);
        } else {
            lemma_over_at(s, i + 1, depth);
        }
    }
}

/// `s` holds no backslash.
pub open spec fn no_backslash(s: Seq<char>) -> bool {
    forall|i: int| 0 <= i < s.len() ==> s[i] != '\\'
}

proof fn lemma_replace_absent(s: Seq<char>, pat: Seq<char>, rep: Seq<char>)
    requires
        forall|i: int| !#[trigger] occurs_at(s, i, pat),
    ensures
        replace_all(s, pat, rep) == s,
    decreases s.len(),
{
    if s.len() > 0 {
        let t = s.skip(1);
        assert forall|i: int| !#[trigger] occurs_at(t, i, pat) by {
            if occurs_at(t, i, pat) {
                assert(s.subrange(i + 1, i + 1 + pat.len()) =~= t.subrange(i, i + pat.len()));
                assert(occurs_at(s, i + 1, pat));
            }
        }
        lemma_replace_absent(t, pat, rep);
        assert(seq![s[0]] + t =~= s);
    }
}

proof fn lemma_command_absent(s: Seq<char>, pat: Seq<char>)
    requires
        no_backslash(s),
        pat.len() > 0,
        pat[0] == '\\',
    ensures
        forall|i: int| !#[trigger] occurs_at(s, i, pat),
{
    assert forall|i: int| !#[trigger] occurs_at(s, i, pat) by {
        if occurs_at(s, i, pat) {
            assert(s.subrange(i, i + pat.len())[0] == s[i]);
        }
    }
}

proof fn lemma_plain_rewritten(s: Seq<char>)
    requires
        no_backslash(s),
    ensures
        rewritten(s) == s,
    decreases s.len(), s.len() + 1,
{
    lemma_over_at(s, 0, 0);
    lemma_plain_from(s, 0);
    assert(s.subrange(0, s.len() as int) =~= s);
}

proof fn lemma_plain_from(s: Seq<char>, i: int)
    requires
        no_backslash(s),
        0 <= i <= s.len(),
    ensures
        rewritten_from(s, i) == s.subrange(i, s.len() as int),
    decreases s.len(), s.len() - i,
{
    reveal_strlit("{");
    reveal_strlit("}");
    if i == s.len() {
        assert(s.subrange(i, s.len() as int) =~= Seq::<char>::empty());
    } else if s[i] == '{' {
        lemma_match_close(s, i + 1, 1);
        match group_close(s, i) {
            Some(c) => {
                let inner = s.subrange(i + 1, c);
                lemma_plain_rewritten(inner);
                lemma_plain_from(s, c + 1);
                assert("{"@ + inner + "}"@ + s.subrange(c + 1, s.len() as int) =~= s.subrange(
                    i,
                    s.len() as int,
                ));
            },
            None => {
                lemma_plain_from(s, i + 1);
                assert("{"@ + s.subrange(i + 1, s.len() as int) =~= s.subrange(i, s.len() as int));
            },
        }
    } else {
        lemma_plain_from(s, i + 1);
        assert(seq![s[i]] + s.subrange(i + 1, s.len() as int) =~= s.subrange(i, s.len() as int));
    }
}

/// Text with no command (no backslash) and no `~{}` tie passes through
/// normalization unchanged: braces, balanced or not, and every other
/// character stay as they are.
pub proof fn text_without_commands_is_left_as_is(tex: Seq<char>)
    requires
        no_backslash(tex),
        forall|i: int| !#[trigger] occurs_at(tex, i, "~{}"@),
    ensures
        normalized(tex) == tex,
{
    reveal_strlit("\\displaystyle");
    reveal_strlit("\\textstyle");
    reveal_strlit("\\scriptstyle");
    reveal_strlit("\\scriptscriptstyle");
    reveal_strlit("\\leavevmode");
    reveal_strlit("\\nobreak");
    reveal_strlit("\\@add@centering");
    reveal_strlit("\\centering");
    lemma_command_absent(tex, "\\displaystyle"@);
    lemma_replace_absent(tex, "\\displaystyle"@, " "@);
    lemma_command_absent(tex, "\\textstyle"@);
    lemma_replace_absent(tex, "\\textstyle"@, " "@);
    lemma_command_absent(tex, "\\scriptstyle"@);
    lemma_replace_absent(tex, "\\scriptstyle"@, " "@);
    lemma_command_absent(tex, "\\scriptscriptstyle"@);
    lemma_replace_absent(tex, "\\scriptscriptstyle"@, " "@);
    lemma_command_absent(tex, "\\leavevmode"@);
    lemma_replace_absent(tex, "\\leavevmode"@, " "@);
    lemma_command_absent(tex, "\\nobreak"@);
    lemma_replace_absent(tex, "\\nobreak"@, " "@);
    lemma_command_absent(tex, "\\@add@centering"@);
    lemma_replace_absent(tex, "\\@add@centering"@, " "@);
    lemma_command_absent(tex, "\\centering"@);
    lemma_replace_absent(tex, "\\centering"@, " "@);
    lemma_replace_absent(tex, "~{}"@, " "@);
    assert(without_cruft(tex) == tex);
    lemma_plain_rewritten(tex);
}


/// Opening braces less closing ones among the first `n` characters of `a`.
pub open spec fn brace_level(a: Seq<char>, n: int) -> int
    decreases n,
{
    if n <= 0 || n > a.len() {
        0
    } else {
        brace_level(a, n - 1) + (if a[n - 1] == '{' {
            1int
        } else if a[n - 1] == '}' {
            -1int
        } else {
            0int
        })
    }
}

/// A macro argument that is a well-formed group body: its braces nest
/// (no prefix closes more than it opened, and all that open close), and no
/// backslash escapes a brace or ends it.
pub open spec fn plain_argument(a: Seq<char>) -> bool {
    &&& forall|n: int| 0 <= n <= a.len() ==> brace_level(a, n) >= 0
    &&& brace_level(a, a.len() as int) == 0
    &&& forall|i: int|
        0 <= i < a.len() && #[trigger] a[i] == '\\' ==> i + 1 < a.len() && a[i + 1] != '{' && a[i
            + 1] != '}'
}

/// `\name{a}`.
pub open spec fn macro_call(name: Seq<char>, a: Seq<char>) -> Seq<char> {
    seq!['\\'] + name + seq!['{'] + a + seq!['}']
}

proof fn lemma_letters_run(s: Seq<char>, j: int, bound: int)
    requires
        0 <= j <= bound < s.len(),
        !alphabetic(s[bound]),
    ensures
        j <= letters_end(s, j) <= bound,
        forall|m: int| j <= m < letters_end(s, j) ==> alphabetic(#[trigger] s[m]),
    decreases bound - j,
{
    if j < bound && alphabetic(s[j]) {
        lemma_letters_run(s, j + 1, bound);
    }
}

proof fn lemma_letters_all(s: Seq<char>, j: int, end: int)
    requires
        0 <= j <= end < s.len(),
        forall|m: int| j <= m < end ==> alphabetic(#[trigger] s[m]),
        !alphabetic(s[end]),
    ensures
        letters_end(s, j) == end,
    decreases end - j,
{
    if j < end {
        lemma_letters_all(s, j + 1, end);
    }
}

/// The argument's group closes at the closing brace after it.
proof fn lemma_arg_close(s: Seq<char>, a: Seq<char>, p: int, k: int)
    requires
        plain_argument(a),
        0 <= p,
        p + a.len() < s.len(),
        s.subrange(p, p + a.len()) == a,
        s[p + a.len()] == '}',
        0 <= k <= a.len(),
    ensures
        match_close(s, p + k, (1 + brace_level(a, k)) as nat) == Some(p + a.len()),
    decreases a.len() - k,
{
    if k < a.len() {
        assert(s[p + k] == a[k]) by {
            assert(s.subrange(p, p + a.len())[k] == s[p + k]);
        }
        assert(brace_level(a, k + 1) >= 0);
        lemma_arg_close(s, a, p, k + 1);
    }
}

/// No top-level `\over` inside the argument's group.
proof fn lemma_arg_no_over(s: Seq<char>, a: Seq<char>, p: int, k: int)
    requires
        plain_argument(a),
        0 <= p,
        p + a.len() + 1 == s.len(),
        s.subrange(p, p + a.len()) == a,
        s[p + a.len()] == '}',
        0 <= k <= a.len(),
    ensures
        over_at(s, p + k, 1 + brace_level(a, k)) is None,
    decreases a.len() - k,
{
    let close = p + a.len();
    if k == a.len() {
        assert(over_at(s, close + 1, brace_level(a, k)) is None);
    } else {
        assert forall|m: int| 0 <= m < a.len() implies s[p + m] == a[m] by {
            assert(s.subrange(p, p + a.len())[m] == s[p + m]);
        }
        let d = 1 + brace_level(a, k);
        assert(brace_level(a, k) >= 0);
        if a[k] == '\\' {
            assert(k + 1 < a.len());
            let e = cmd_end(s, p + k);
            if alphabetic(s[p + k + 1]) {
                lemma_letters_run(s, p + k + 1, close);
                let le = letters_end(s, p + k + 1);
                lemma_letters_run(s, p + k + 2, close);
                assert(le == letters_end(s, p + k + 2));
                assert(le > p + k + 1);
                lemma_level_flat(a, k, le - p, p, s, le);
                assert(e == le);
                lemma_arg_no_over(s, a, p, le - p);
                assert(over_at(s, p + k, d) == over_at(s, e, d));
            } else {
                assert(brace_level(a, k + 1) == brace_level(a, k));
                assert(brace_level(a, k + 2) == brace_level(a, k + 1));
                assert(e == p + k + 2);
                lemma_arg_no_over(s, a, p, k + 2);
                assert(over_at(s, p + k, d) == over_at(s, e, d));
            }
        } else {
            assert(brace_level(a, k + 1) >= 0);
            lemma_arg_no_over(s, a, p, k + 1);
        }
    }
}

/// Across a run of letters (after a backslash) the brace level stays.
proof fn lemma_level_flat(a: Seq<char>, k: int, m: int, p: int, s: Seq<char>, le: int)
    requires
        0 <= k < a.len(),
        a[k] == '\\',
        k < m <= le - p,
        le - p <= a.len(),
        forall|x: int| 0 <= x < a.len() ==> s[p + x] == a[x],
        forall|x: int| p + k + 1 <= x < le ==> alphabetic(#[trigger] s[x]),
    ensures
        brace_level(a, m) == brace_level(a, k),
    decreases m - k,
{
    if m - 1 > k {
        lemma_level_flat(a, k, m - 1, p, s, le);
        assert(alphabetic(s[p + (m - 1)]));
        assert(a[m - 1] != '{' && a[m - 1] != '}');
    }
}

proof fn lemma_macro_call(name: Seq<char>, a: Seq<char>)
    requires
        name.len() > 0,
        forall|i: int| 0 <= i < name.len() ==> ascii_letter(#[trigger] name[i]),
        font_switch_of(name) is None,
        macro_template_of(name) is Some,
        name != "over"@,
        plain_argument(a),
    ensures
        match macro_template_of(name) {
            Some((pre, post)) => rewritten(macro_call(name, a)) == pre + rewritten(a) + post,
            None => false,
        },
{
    let s = macro_call(name, a);
    let n = name.len() as int;
    let p = n + 2;
    let close = p + a.len();
    assert(s.len() == close + 1);
    assert(s[0] == '\\');
    assert(s[n + 1] == '{');
    assert(s[close] == '}');
    assert forall|m: int| 1 <= m < n + 1 implies alphabetic(#[trigger] s[m]) by {
        assert(s[m] == name[m - 1]);
        assert(ascii_letter(name[m - 1]));
    }
    assert(!alphabetic(s[n + 1]));
    lemma_letters_all(s, 1, n + 1);
    assert(cmd_end(s, 0) == n + 1);
    assert(s.subrange(1, n + 1) =~= name);
    assert(s.subrange(p, close) =~= a);
    lemma_arg_no_over(s, a, p, 0);
    assert(over_at(s, n + 1, 0) == over_at(s, p, 1));
    assert(over_at(s, 0, 0) is None);
    assert(skip_spaces(s, n + 1) == n + 1);
    lemma_arg_close(s, a, p, 0);
    assert(group_close(s, n + 1) == Some(close));
    assert(rewritten_from(s, close + 1) == Seq::<char>::empty());
    let (pre, post) = match macro_template_of(name) {
        Some(t) => t,
        None => (seq![], seq![]),
    };
    assert(rewritten(s) == rewritten_from(s, 0));
    assert(rewritten_from(s, 0) == pre + rewritten(a) + post + rewritten_from(s, close + 1));
    assert(pre + rewritten(a) + post + Seq::<char>::empty() =~= pre + rewritten(a) + post);
}

/// `\name` followed by `rest`, where `rest` holds no `\over` and does not
/// continue the command name.
proof fn lemma_no_over_anywhere(s: Seq<char>, i: int, depth: int)
    requires
        0 <= i,
        forall|k: int| i <= k ==> !#[trigger] occurs_at(s, k, "\\over"@),
    ensures
        over_at(s, i, depth) is None,
    decreases s.len() - i,
{
    reveal_strlit("\\over");
    reveal_strlit("over");
    if 0 <= i < s.len() {
        if s[i] == '{' {
            lemma_no_over_anywhere(s, i + 1, depth + 1);
        } else if s[i] == '}' {
            lemma_no_over_anywhere(s, i + 1, depth - 1);
        } else if s[i] == '\\' {
            let e = cmd_end(s, i);
            lemma_cmd_end(s, i);
            if s.subrange(i + 1, e) == "over"@ {
                assert("over"@.len() == 4);
                assert(s.subrange(i + 1, e).len() == e - (i + 1));
                assert(e == i + 5);
                assert forall|m: int| 0 <= m < 5 implies s.subrange(i, i + 5)[m] == "\\over"@[m] by {
                    if m > 0 {
                        assert(s.subrange(i + 1, e)[m - 1] == s[i + m]);
                    }
                }
                assert(s.subrange(i, i + 5) =~= "\\over"@);
                assert(occurs_at(s, i, "\\over"@));
            }
            lemma_no_over_anywhere(s, e, depth);
        } else {
            lemma_no_over_anywhere(s, i + 1, depth);
        }
    }
}

proof fn lemma_font_switch_call(name: Seq<char>, rest: Seq<char>)
    requires
        name.len() > 0,
        forall|i: int| 0 <= i < name.len() ==> ascii_letter(#[trigger] name[i]),
        font_switch_of(name) is Some,
        rest.len() == 0 || !alphabetic(rest[0]),
        forall|i: int| !#[trigger] occurs_at(rest, i, "\\over"@),
        !occurs_at(seq!['\\'] + name, 0, "\\over"@),
    ensures
        rewritten(seq!['\\'] + name + rest) == "\\"@ + font_switch_of(name)->0 + "{"@ + trim(
            rewritten(rest),
        ) + "}"@,
{
    let s = seq!['\\'] + name + rest;
    let n = name.len() as int;
    reveal_strlit("\\over");
    assert forall|k: int| 0 <= k implies !#[trigger] occurs_at(s, k, "\\over"@) by {
        if occurs_at(s, k, "\\over"@) {
            if k == 0 {
                assert(s.subrange(0, 5)[0] == '\\');
                assert(occurs_at(seq!['\\'] + name, 0, "\\over"@)) by {
                    assert(n + 1 >= 5 || s.subrange(0, 5)[n + 1] == rest[0]);
                    if n + 1 < 5 {
                        assert(s.subrange(0, 5)[n + 1] == "\\over"@[n + 1]);
                        assert(alphabetic("\\over"@[n + 1]));
                    }
                    assert((seq!['\\'] + name).subrange(0, 5) =~= s.subrange(0, 5));
                }
            } else if k <= n {
                assert(s.subrange(k, k + 5)[0] == s[k]);
                assert(s[k] == name[k - 1]);
            } else {
                assert(rest.subrange(k - n - 1, k - n - 1 + 5) =~= s.subrange(k, k + 5));
                assert(occurs_at(rest, k - n - 1, "\\over"@));
            }
        }
    }
    lemma_no_over_anywhere(s, 0, 0);
    assert forall|m: int| 1 <= m < n + 1 implies alphabetic(#[trigger] s[m]) by {
        assert(s[m] == name[m - 1]);
    }
    if rest.len() == 0 {
        lemma_letters_end(s, 1);
        assert(letters_end(s, 1) == n + 1) by {
            lemma_letters_to_end(s, 1);
        }
    } else {
        assert(s[n + 1] == rest[0]);
        lemma_letters_all(s, 1, n + 1);
    }
    assert(cmd_end(s, 0) == n + 1);
    assert(s.subrange(1, n + 1) =~= name);
    assert(s.subrange(n + 1, s.len() as int) =~= rest);
    assert(s[0] == '\\');
    assert(rewritten(s) == rewritten_from(s, 0));
}

proof fn lemma_letters_to_end(s: Seq<char>, j: int)
    requires
        1 <= j <= s.len(),
        forall|m: int| j <= m < s.len() ==> alphabetic(#[trigger] s[m]),
    ensures
        letters_end(s, j) == s.len(),
    decreases s.len() - j,
{
    if j < s.len() {
        lemma_letters_to_end(s, j + 1);
    }
}

/// A legacy font switch applies to everything after it in its group, which
/// becomes the argument of the matching modern command: `\rm` gives
/// `\mathrm{..}`, `\sf` `\mathsf`, `\bf` `\mathbf`, `\it` and `\sl`
/// `\mathit`, `\tt` `\mathtt` and `\cal` `\mathcal`, around the rest
/// rewritten and trimmed (for a rest with no `\over` that does not continue
/// the command's name).
pub proof fn font_switches_take_the_rest_of_the_group(rest: Seq<char>)
    requires
        rest.len() == 0 || !alphabetic(rest[0]),
        forall|i: int| !#[trigger] occurs_at(rest, i, "\\over"@),
    ensures
        rewritten("\\rm"@ + rest) == "\\mathrm{"@ + trim(rewritten(rest)) + "}"@,
        rewritten("\\sf"@ + rest) == "\\mathsf{"@ + trim(rewritten(rest)) + "}"@,
        rewritten("\\bf"@ + rest) == "\\mathbf{"@ + trim(rewritten(rest)) + "}"@,
        rewritten("\\it"@ + rest) == "\\mathit{"@ + trim(rewritten(rest)) + "}"@,
        rewritten("\\sl"@ + rest) == "\\mathit{"@ + trim(rewritten(rest)) + "}"@,
        rewritten("\\tt"@ + rest) == "\\mathtt{"@ + trim(rewritten(rest)) + "}"@,
        rewritten("\\cal"@ + rest) == "\\mathcal{"@ + trim(rewritten(rest)) + "}"@,
{
    reveal_strlit("rm");
    reveal_strlit("sf");
    reveal_strlit("bf");
    reveal_strlit("it");
    reveal_strlit("sl");
    reveal_strlit("tt");
    reveal_strlit("cal");
    reveal_strlit("over");
    reveal_strlit("mathrm");
    reveal_strlit("mathsf");
    reveal_strlit("mathbf");
    reveal_strlit("mathit");
    reveal_strlit("mathtt");
    reveal_strlit("mathcal");
    reveal_strlit("\\");
    reveal_strlit("{");
    reveal_strlit("}");
    assert("rm"@[0] == 'r' && "rm"@[1] == 'm');
    assert("sf"@[0] == 's' && "sf"@[1] == 'f');
    assert("bf"@[0] == 'b' && "bf"@[1] == 'f');
    assert("it"@[0] == 'i' && "it"@[1] == 't');
    assert("sl"@[0] == 's' && "sl"@[1] == 'l');
    assert("tt"@[0] == 't' && "tt"@[1] == 't');
    assert("cal"@[0] == 'c' && "cal"@[1] == 'a');
    assert("over"@[0] == 'o' && "over"@[1] == 'v');
    reveal_strlit("\\over");
    assert forall|nm: Seq<char>| 0 < nm.len() <= 3 implies !occurs_at(seq!['\\'] + nm, 0, "\\over"@) by {
    }
    reveal_strlit("\\rm");
    reveal_strlit("\\mathrm{");
    assert("\\rm"@ + rest =~= seq!['\\'] + "rm"@ + rest);
    lemma_font_switch_call("rm"@, rest);
    assert("\\"@ + "mathrm"@ + "{"@ =~= "\\mathrm{"@);
    reveal_strlit("\\sf");
    reveal_strlit("\\mathsf{");
    assert("\\sf"@ + rest =~= seq!['\\'] + "sf"@ + rest);
    lemma_font_switch_call("sf"@, rest);
    assert("\\"@ + "mathsf"@ + "{"@ =~= "\\mathsf{"@);
    reveal_strlit("\\bf");
    reveal_strlit("\\mathbf{");
    assert("\\bf"@ + rest =~= seq!['\\'] + "bf"@ + rest);
    lemma_font_switch_call("bf"@, rest);
    assert("\\"@ + "mathbf"@ + "{"@ =~= "\\mathbf{"@);
    reveal_strlit("\\it");
    reveal_strlit("\\mathit{");
    assert("\\it"@ + rest =~= seq!['\\'] + "it"@ + rest);
    lemma_font_switch_call("it"@, rest);
    assert("\\"@ + "mathit"@ + "{"@ =~= "\\mathit{"@);
    reveal_strlit("\\sl");
    reveal_strlit("\\mathit{");
    assert("\\sl"@ + rest =~= seq!['\\'] + "sl"@ + rest);
    lemma_font_switch_call("sl"@, rest);
    assert("\\"@ + "mathit"@ + "{"@ =~= "\\mathit{"@);
    reveal_strlit("\\tt");
    reveal_strlit("\\mathtt{");
    assert("\\tt"@ + rest =~= seq!['\\'] + "tt"@ + rest);
    lemma_font_switch_call("tt"@, rest);
    assert("\\"@ + "mathtt"@ + "{"@ =~= "\\mathtt{"@);
    reveal_strlit("\\cal");
    reveal_strlit("\\mathcal{");
    assert("\\cal"@ + rest =~= seq!['\\'] + "cal"@ + rest);
    lemma_font_switch_call("cal"@, rest);
    assert("\\"@ + "mathcal"@ + "{"@ =~= "\\mathcal{"@);
}

/// `s` holds none of the tokens that normalization blanks out.
pub open spec fn cruft_free(s: Seq<char>) -> bool {
    &&& forall|i: int| !#[trigger] occurs_at(s, i, "\\displaystyle"@)
    &&& forall|i: int| !#[trigger] occurs_at(s, i, "\\textstyle"@)
    &&& forall|i: int| !#[trigger] occurs_at(s, i, "\\scriptstyle"@)
    &&& forall|i: int| !#[trigger] occurs_at(s, i, "\\scriptscriptstyle"@)
    &&& forall|i: int| !#[trigger] occurs_at(s, i, "\\leavevmode"@)
    &&& forall|i: int| !#[trigger] occurs_at(s, i, "\\nobreak"@)
    &&& forall|i: int| !#[trigger] occurs_at(s, i, "\\@add@centering"@)
    &&& forall|i: int| !#[trigger] occurs_at(s, i, "\\centering"@)
    &&& forall|i: int| !#[trigger] occurs_at(s, i, "~{}"@)
}

proof fn lemma_cruft_free_kept(s: Seq<char>)
    requires
        cruft_free(s),
    ensures
        without_cruft(s) == s,
{
    lemma_replace_absent(s, "\\displaystyle"@, " "@);
    lemma_replace_absent(s, "\\textstyle"@, " "@);
    lemma_replace_absent(s, "\\scriptstyle"@, " "@);
    lemma_replace_absent(s, "\\scriptscriptstyle"@, " "@);
    lemma_replace_absent(s, "\\leavevmode"@, " "@);
    lemma_replace_absent(s, "\\nobreak"@, " "@);
    lemma_replace_absent(s, "\\@add@centering"@, " "@);
    lemma_replace_absent(s, "\\centering"@, " "@);
    lemma_replace_absent(s, "~{}"@, " "@);
}

proof fn lemma_occurs_shift(a: Seq<char>, s: Seq<char>, p: int, i: int, pat: Seq<char>)
    requires
        0 <= p,
        p + a.len() <= s.len(),
        s.subrange(p, p + a.len()) == a,
        occurs_at(a, i, pat),
    ensures
        occurs_at(s, p + i, pat),
{
    assert(s.subrange(p + i, p + i + pat.len()) =~= a.subrange(i, i + pat.len()));
}

/// A formula without cruft has its argument without cruft.
proof fn lemma_cruft_free_arg(name: Seq<char>, a: Seq<char>)
    requires
        cruft_free(macro_call(name, a)),
    ensures
        cruft_free(a),
        normalized(a) == rewritten(a),
        normalized(macro_call(name, a)) == rewritten(macro_call(name, a)),
{
    let s = macro_call(name, a);
    let p: int = name.len() as int + 2;
    assert(s.subrange(p, p + a.len()) =~= a);
    assert forall|i: int| !#[trigger] occurs_at(a, i, "\\displaystyle"@) by {
        if occurs_at(a, i, "\\displaystyle"@) {
            lemma_occurs_shift(a, s, p, i, "\\displaystyle"@);
        }
    }
    assert forall|i: int| !#[trigger] occurs_at(a, i, "\\textstyle"@) by {
        if occurs_at(a, i, "\\textstyle"@) {
            lemma_occurs_shift(a, s, p, i, "\\textstyle"@);
        }
    }
    assert forall|i: int| !#[trigger] occurs_at(a, i, "\\scriptstyle"@) by {
        if occurs_at(a, i, "\\scriptstyle"@) {
            lemma_occurs_shift(a, s, p, i, "\\scriptstyle"@);
        }
    }
    assert forall|i: int| !#[trigger] occurs_at(a, i, "\\scriptscriptstyle"@) by {
        if occurs_at(a, i, "\\scriptscriptstyle"@) {
            lemma_occurs_shift(a, s, p, i, "\\scriptscriptstyle"@);
        }
    }
    assert forall|i: int| !#[trigger] occurs_at(a, i, "\\leavevmode"@) by {
        if occurs_at(a, i, "\\leavevmode"@) {
            lemma_occurs_shift(a, s, p, i, "\\leavevmode"@);
        }
    }
    assert forall|i: int| !#[trigger] occurs_at(a, i, "\\nobreak"@) by {
        if occurs_at(a, i, "\\nobreak"@) {
            lemma_occurs_shift(a, s, p, i, "\\nobreak"@);
        }
    }
    assert forall|i: int| !#[trigger] occurs_at(a, i, "\\@add@centering"@) by {
        if occurs_at(a, i, "\\@add@centering"@) {
            lemma_occurs_shift(a, s, p, i, "\\@add@centering"@);
        }
    }
    assert forall|i: int| !#[trigger] occurs_at(a, i, "\\centering"@) by {
        if occurs_at(a, i, "\\centering"@) {
            lemma_occurs_shift(a, s, p, i, "\\centering"@);
        }
    }
    assert forall|i: int| !#[trigger] occurs_at(a, i, "~{}"@) by {
        if occurs_at(a, i, "~{}"@) {
            lemma_occurs_shift(a, s, p, i, "~{}"@);
        }
    }
    lemma_cruft_free_kept(a);
    lemma_cruft_free_kept(s);
}

/// Each package macro puts fixed markup around its rewritten argument, for
/// every argument that is a well-formed group body: `\bra{a}` gives a left
/// angle bracket, `a` and a bar; `\ket{a}` a bar, `a` and a right angle
/// bracket; `\braket{a}` both angle brackets; `\abs{a}` and
/// `\absolutevalue{a}` bars; `\norm{a}` double bars; and `\bm{a}`,
/// `\boldsymbol{a}` and `\pmb{a}` bold symbols. When the formula holds no
/// cruft token, the same holds of the whole normalization: the fixed markup
/// around the normalized argument.
pub proof fn package_macros_wrap_their_argument(a: Seq<char>)
    requires
        plain_argument(a),
    ensures
        rewritten("\\bra{"@ + a + "}"@) == "\\left\\langle "@ + rewritten(a) + "\\right|"@,
        rewritten("\\ket{"@ + a + "}"@) == "\\left|"@ + rewritten(a) + "\\right\\rangle"@,
        rewritten("\\braket{"@ + a + "}"@) == "\\left\\langle "@ + rewritten(a) + "\\right\\rangle"@,
        rewritten("\\abs{"@ + a + "}"@) == "\\left|"@ + rewritten(a) + "\\right|"@,
        rewritten("\\absolutevalue{"@ + a + "}"@) == "\\left|"@ + rewritten(a) + "\\right|"@,
        rewritten("\\norm{"@ + a + "}"@) == "\\left\\|"@ + rewritten(a) + "\\right\\|"@,
        rewritten("\\bm{"@ + a + "}"@) == "\\boldsymbol{"@ + rewritten(a) + "}"@,
        rewritten("\\boldsymbol{"@ + a + "}"@) == "\\boldsymbol{"@ + rewritten(a) + "}"@,
        rewritten("\\pmb{"@ + a + "}"@) == "\\boldsymbol{"@ + rewritten(a) + "}"@,
        cruft_free("\\bra{"@ + a + "}"@) ==> normalized("\\bra{"@ + a + "}"@) == "\\left\\langle "@ + normalized(a) + "\\right|"@,
        cruft_free("\\ket{"@ + a + "}"@) ==> normalized("\\ket{"@ + a + "}"@) == "\\left|"@ + normalized(a) + "\\right\\rangle"@,
        cruft_free("\\braket{"@ + a + "}"@) ==> normalized("\\braket{"@ + a + "}"@) == "\\left\\langle "@ + normalized(a) + "\\right\\rangle"@,
        cruft_free("\\abs{"@ + a + "}"@) ==> normalized("\\abs{"@ + a + "}"@) == "\\left|"@ + normalized(a) + "\\right|"@,
        cruft_free("\\absolutevalue{"@ + a + "}"@) ==> normalized("\\absolutevalue{"@ + a + "}"@) == "\\left|"@ + normalized(a) + "\\right|"@,
        cruft_free("\\norm{"@ + a + "}"@) ==> normalized("\\norm{"@ + a + "}"@) == "\\left\\|"@ + normalized(a) + "\\right\\|"@,
        cruft_free("\\bm{"@ + a + "}"@) ==> normalized("\\bm{"@ + a + "}"@) == "\\boldsymbol{"@ + normalized(a) + "}"@,
        cruft_free("\\boldsymbol{"@ + a + "}"@) ==> normalized("\\boldsymbol{"@ + a + "}"@) == "\\boldsymbol{"@ + normalized(a) + "}"@,
        cruft_free("\\pmb{"@ + a + "}"@) ==> normalized("\\pmb{"@ + a + "}"@) == "\\boldsymbol{"@ + normalized(a) + "}"@,
{
    reveal_strlit("rm");
    reveal_strlit("sf");
    reveal_strlit("bf");
    reveal_strlit("it");
    reveal_strlit("sl");
    reveal_strlit("tt");
    reveal_strlit("cal");
    reveal_strlit("over");
    reveal_strlit("bm");
    reveal_strlit("boldsymbol");
    reveal_strlit("pmb");
    reveal_strlit("ket");
    reveal_strlit("bra");
    reveal_strlit("braket");
    reveal_strlit("absolutevalue");
    reveal_strlit("abs");
    reveal_strlit("norm");
    reveal_strlit("}");
    assert("rm"@[0] == 'r' && "rm"@[1] == 'm');
    assert("sf"@[0] == 's' && "sf"@[1] == 'f');
    assert("bf"@[0] == 'b' && "bf"@[1] == 'f');
    assert("it"@[0] == 'i' && "it"@[1] == 't');
    assert("sl"@[0] == 's' && "sl"@[1] == 'l');
    assert("tt"@[0] == 't' && "tt"@[1] == 't');
    assert("cal"@[0] == 'c' && "cal"@[1] == 'a');
    assert("over"@[0] == 'o' && "over"@[1] == 'v');
    assert("bm"@[0] == 'b' && "bm"@[1] == 'm');
    assert("boldsymbol"@[0] == 'b' && "boldsymbol"@[1] == 'o');
    assert("pmb"@[0] == 'p' && "pmb"@[1] == 'm');
    assert("ket"@[0] == 'k' && "ket"@[1] == 'e');
    assert("bra"@[0] == 'b' && "bra"@[1] == 'r');
    assert("braket"@[0] == 'b' && "braket"@[1] == 'r');
    assert("absolutevalue"@[0] == 'a' && "absolutevalue"@[1] == 'b');
    assert("abs"@[0] == 'a' && "abs"@[1] == 'b');
    assert("norm"@[0] == 'n' && "norm"@[1] == 'o');
    reveal_strlit("\\bra{");
    assert("\\bra{"@ + a + "}"@ =~= macro_call("bra"@, a));
    lemma_macro_call("bra"@, a);
    if cruft_free(macro_call("bra"@, a)) {
        lemma_cruft_free_arg("bra"@, a);
    }
    reveal_strlit("\\ket{");
    assert("\\ket{"@ + a + "}"@ =~= macro_call("ket"@, a));
    lemma_macro_call("ket"@, a);
    if cruft_free(macro_call("ket"@, a)) {
        lemma_cruft_free_arg("ket"@, a);
    }
    reveal_strlit("\\braket{");
    assert("\\braket{"@ + a + "}"@ =~= macro_call("braket"@, a));
    lemma_macro_call("braket"@, a);
    if cruft_free(macro_call("braket"@, a)) {
        lemma_cruft_free_arg("braket"@, a);
    }
    reveal_strlit("\\abs{");
    assert("\\abs{"@ + a + "}"@ =~= macro_call("abs"@, a));
    lemma_macro_call("abs"@, a);
    if cruft_free(macro_call("abs"@, a)) {
        lemma_cruft_free_arg("abs"@, a);
    }
    reveal_strlit("\\absolutevalue{");
    assert("\\absolutevalue{"@ + a + "}"@ =~= macro_call("absolutevalue"@, a));
    lemma_macro_call("absolutevalue"@, a);
    if cruft_free(macro_call("absolutevalue"@, a)) {
        lemma_cruft_free_arg("absolutevalue"@, a);
    }
    reveal_strlit("\\norm{");
    assert("\\norm{"@ + a + "}"@ =~= macro_call("norm"@, a));
    lemma_macro_call("norm"@, a);
    if cruft_free(macro_call("norm"@, a)) {
        lemma_cruft_free_arg("norm"@, a);
    }
    reveal_strlit("\\bm{");
    assert("\\bm{"@ + a + "}"@ =~= macro_call("bm"@, a));
    lemma_macro_call("bm"@, a);
    if cruft_free(macro_call("bm"@, a)) {
        lemma_cruft_free_arg("bm"@, a);
    }
    reveal_strlit("\\boldsymbol{");
    assert("\\boldsymbol{"@ + a + "}"@ =~= macro_call("boldsymbol"@, a));
    lemma_macro_call("boldsymbol"@, a);
    if cruft_free(macro_call("boldsymbol"@, a)) {
        lemma_cruft_free_arg("boldsymbol"@, a);
    }
    reveal_strlit("\\pmb{");
    assert("\\pmb{"@ + a + "}"@ =~= macro_call("pmb"@, a));
    lemma_macro_call("pmb"@, a);
    if cruft_free(macro_call("pmb"@, a)) {
        lemma_cruft_free_arg("pmb"@, a);
    }
}

} // verus!

verus! {

// =============================================================================
// Implementation
// =============================================================================

/// Legacy font-switch primitives (declaration form: they affect the rest of the
/// enclosing group), mapped to modern `\math..{..}` commands.
fn font_switch(name: &[char]) -> (r: Option<&'static str>)
    ensures
        match font_switch_of(name@) {
            Some(m) => r matches Some(x) && x@ == m,
            None => r is None,
        },
{
    if eq_str(name, "rm") {
        Some("mathrm")
    } else if eq_str(name, "sf") {
        Some("mathsf")
    } else if eq_str(name, "bf") {
        Some("mathbf")
    } else if eq_str(name, "it") || eq_str(name, "sl") {
        Some("mathit")
    } else if eq_str(name, "tt") {
        Some("mathtt")
    } else if eq_str(name, "cal") {
        Some("mathcal")
    } else {
        None
    }
}

/// Package macros `\cmd{arg}` rewritten to standard `TeX`: the text before and
/// after the argument slot.
fn macro_template(name: &[char]) -> (r: Option<(&'static str, &'static str)>)
    ensures
        match macro_template_of(name@) {
            Some((pre, post)) => r matches Some((a, b)) && a@ == pre && b@ == post,
            None => r is None,
        },
{
    if eq_str(name, "bm") || eq_str(name, "boldsymbol") || eq_str(name, "pmb") {
        Some(("\\boldsymbol{", "}"))
    } else if eq_str(name, "ket") {
        Some(("\\left|", "\\right\\rangle"))
    } else if eq_str(name, "bra") {
        Some(("\\left\\langle ", "\\right|"))
    } else if eq_str(name, "braket") {
        Some(("\\left\\langle ", "\\right\\rangle"))
    } else if eq_str(name, "absolutevalue") || eq_str(name, "abs") {
        Some(("\\left|", "\\right|"))
    } else if eq_str(name, "norm") {
        Some(("\\left\\|", "\\right\\|"))
    } else {
        None
    }
}

/// Read the control sequence whose backslash is at `chars[i]`: its name
/// (without the backslash) and the index just past it.
fn read_cmd(chars: &[char], i: usize) -> (r: (Vec<char>, usize))
    requires
        i < chars.len(),
    ensures
        r.1 == cmd_end(chars@, i as int),
        r.0@ == chars@.subrange(i + 1, r.1 as int),
{
    let j = i + 1;
    if j < chars.len() && is_alphabetic(chars[j]) {
        let mut k = j;
        while k < chars.len() && is_alphabetic(chars[k])
            invariant
                j <= k <= chars@.len(),
                letters_end(chars@, j as int) == letters_end(chars@, k as int),
            decreases chars@.len() - k,
        {
            k = k + 1;
        }
        (slice_chars(chars, j, k), k)
    } else if j < chars.len() {
        (slice_chars(chars, j, j + 1), j + 1)
    } else {
        (Vec::new(), j)
    }
}

/// Given `chars[i] == '{'`, the group's inner characters and the index just
/// past the matching `}`.
fn take_group(chars: &[char], i: usize) -> (r: Option<(Vec<char>, usize)>)
    ensures
        match group_close(chars@, i as int) {
            Some(c) => r matches Some((inner, next)) && inner@ == chars@.subrange(i + 1, c)
                && next == c + 1,
            None => r is None,
        },
{
    if i >= chars.len() || chars[i] != '{' {
        return None;
    }
    let mut depth: usize = 1;
    let mut j = i + 1;
    while j < chars.len()
        invariant
            i < j <= chars@.len(),
            depth >= 1,
            depth <= j - i,
            group_close(chars@, i as int) == match_close(chars@, j as int, depth as nat),
        decreases chars@.len() - j,
    {
        if chars[j] == '{' {
            depth = depth + 1;
        } else if chars[j] == '}' {
            if depth <= 1 {
                return Some((slice_chars(chars, i + 1, j), j + 1));
            }
            depth = depth - 1;
        }
        j = j + 1;
    }
    None
}

/// `\frac{num}{den}` from the two trimmed halves.
fn frac_of(num: &[char], den: &[char]) -> (r: Vec<char>)
    ensures
        r@ == frac(trim(num@), trim(den@)),
{
    let mut out: Vec<char> = Vec::new();
    push_str(&mut out, "\\frac{");
    push_all(&mut out, &trim_chars(num));
    push_str(&mut out, "}{");
    push_all(&mut out, &trim_chars(den));
    push_str(&mut out, "}");
    out
}

/// Rewrite a top-level `\over` in this group's content to `\frac{..}{..}`.
fn split_over(chars: &[char]) -> (r: Option<Vec<char>>)
    ensures
        match over_at(chars@, 0, 0) {
            Some((i, e)) => r matches Some(v) && v@ == frac(
                trim(rewritten(chars@.subrange(0, i))),
                trim(rewritten(chars@.subrange(e, chars@.len() as int))),
            ),
            None => r is None,
        },
    decreases chars@.len(), 0nat,
{
    let mut depth: i128 = 0;
    let mut i: usize = 0;
    while i < chars.len()
        invariant
            i <= chars@.len(),
            -(i as int) <= depth <= i as int,
            over_at(chars@, 0, 0) == over_at(chars@, i as int, depth as int),
        decreases chars@.len() - i,
    {
        let c = chars[i];
        if c == '{' {
            depth = depth + 1;
            i = i + 1;
        } else if c == '}' {
            depth = depth - 1;
            i = i + 1;
        } else if c == '\\' {
            let (name, next) = read_cmd(chars, i);
            proof {
                lemma_cmd_end(chars@, i as int);
            }
            if depth == 0 && eq_str(&name, "over") {
                let num = transform(&slice_chars(chars, 0, i));
                let den = transform(&slice_chars(chars, next, chars.len()));
                return Some(frac_of(&num, &den));
            }
            i = next;
        } else {
            i = i + 1;
        }
    }
    None
}

/// Recursively rewrite the content of one group (or the whole input).
fn transform(chars: &[char]) -> (r: Vec<char>)
    ensures
        r@ == rewritten(chars@),
    decreases chars@.len(), 1nat,
{
    if let Some(fr) = split_over(chars) {
        return fr;
    }
    let ghost s = chars@;
    let mut out: Vec<char> = Vec::new();
    let mut i: usize = 0;
    while i < chars.len()
        invariant
            s == chars@,
            i <= s.len(),
            over_at(s, 0, 0) is None,
            rewritten(s) == out@ + rewritten_from(s, i as int),
        decreases s.len() - i,
    {
        let ghost before = out@;
        let c = chars[i];
        if c == '{' {
            if let Some((inner, next)) = take_group(chars, i) {
                proof {
                    lemma_match_close(s, i + 1, 1);
                }
                let sub = transform(&inner);
                out.push('{');
                push_all(&mut out, &sub);
                out.push('}');
                proof {
                    assert(out@ =~= before + "{"@ + sub@ + "}"@) by {
                        reveal_strlit("{");
                        reveal_strlit("}");
                    }
                    assert(out@ + rewritten_from(s, next as int) =~= before + ("{"@ + rewritten(
                        s.subrange(i + 1, next - 1),
                    ) + "}"@ + rewritten_from(s, next as int)));
                }
                i = next;
            } else {
                out.push('{');
                proof {
                    assert(out@ =~= before + "{"@) by {
                        reveal_strlit("{");
                    }
                    assert(out@ + rewritten_from(s, i + 1) =~= before + ("{"@ + rewritten_from(
                        s,
                        i + 1,
                    )));
                }
                i = i + 1;
            }
        } else if c == '\\' {
            let (name, next) = read_cmd(chars, i);
            proof {
                lemma_cmd_end(s, i as int);
            }
            if let Some(modern) = font_switch(&name) {
                // A font switch applies to the rest of the current group.
                let rest = transform(&slice_chars(chars, next, chars.len()));
                push_str(&mut out, "\\");
                push_str(&mut out, modern);
                push_str(&mut out, "{");
                push_all(&mut out, &trim_chars(&rest));
                push_str(&mut out, "}");
                proof {
                    assert(out@ =~= before + ("\\"@ + modern@ + "{"@ + trim(rest@) + "}"@));
                    assert(rewritten_from(s, i as int) == "\\"@ + modern@ + "{"@ + trim(
                        rewritten(s.subrange(next as int, s.len() as int)),
                    ) + "}"@);
                    assert(out@ + rewritten_from(s, s.len() as int) =~= out@);
                }
                return out;
            } else if let Some((pre, post)) = macro_template(&name) {
                let mut k = next;
                while k < chars.len() && chars[k] == ' '
                    invariant
                        next <= k <= s.len(),
                        s == chars@,
                        skip_spaces(s, next as int) == skip_spaces(s, k as int),
                    decreases s.len() - k,
                {
                    k = k + 1;
                }
                if let Some((arg, after)) = take_group(chars, k) {
                    proof {
                        lemma_match_close(s, k + 1, 1);
                    }
                    let sub = transform(&arg);
                    push_str(&mut out, pre);
                    push_all(&mut out, &sub);
                    push_str(&mut out, post);
                    proof {
                        assert(out@ + rewritten_from(s, after as int) =~= before + (pre@ + sub@
                            + post@ + rewritten_from(s, after as int)));
                    }
                    i = after;
                } else {
                    push_str(&mut out, pre);
                    push_str(&mut out, post);
                    proof {
                        assert(out@ + rewritten_from(s, next as int) =~= before + (pre@ + post@
                            + rewritten_from(s, next as int)));
                    }
                    i = next;
                }
            } else {
                push_all(&mut out, &slice_chars(chars, i, next));
                proof {
                    assert(out@ + rewritten_from(s, next as int) =~= before + (s.subrange(
                        i as int,
                        next as int,
                    ) + rewritten_from(s, next as int)));
                }
                i = next;
            }
        } else {
            out.push(c);
            proof {
                assert(out@ + rewritten_from(s, i + 1) =~= before + (seq![s[i as int]]
                    + rewritten_from(s, i + 1)));
            }
            i = i + 1;
        }
    }
    proof {
        assert(out@ + rewritten_from(s, i as int) =~= out@);
    }
    out
}

/// Normalize a `LaTeXML` math annotation into `TeX` a converter can handle:
/// strip cruft, rewrite legacy primitives, and expand known package macros.
pub fn normalize(tex: &str) -> (r: String)
    ensures
        r@ == normalized(tex@),
{
    proof {
        reveal_strlit("\\displaystyle");
        reveal_strlit("\\textstyle");
        reveal_strlit("\\scriptstyle");
        reveal_strlit("\\scriptscriptstyle");
        reveal_strlit("\\leavevmode");
        reveal_strlit("\\nobreak");
        reveal_strlit("\\@add@centering");
        reveal_strlit("\\centering");
        reveal_strlit("~{}");
    }
    let s = chars_of(tex);
    let s = replace_str(&s, "\\displaystyle", " ");
    let s = replace_str(&s, "\\textstyle", " ");
    let s = replace_str(&s, "\\scriptstyle", " ");
    let s = replace_str(&s, "\\scriptscriptstyle", " ");
    let s = replace_str(&s, "\\leavevmode", " ");
    let s = replace_str(&s, "\\nobreak", " ");
    let s = replace_str(&s, "\\@add@centering", " ");
    let s = replace_str(&s, "\\centering", " ");
    let s = replace_str(&s, "~{}", " ");
    let out = transform(&s);
    string_of(&out)
}

} // verus!
