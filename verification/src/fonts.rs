//! Font family names: the sorted list offered by the font pickers, and the
//! serif used when a document names no body font.
use vstd::prelude::*;

use crate::text::{chars_of, eq_chars, lower_all, lowercase, string_of, string_views};

verus! {

/// Lexicographic order of character sequences, code point by code point.
/// This is the order of `String`'s `Ord`, which compares UTF-8 bytes: UTF-8
/// keeps the order of code points.
pub open spec fn precedes(a: Seq<char>, b: Seq<char>) -> bool
    decreases a.len(),
{
    if a.len() == 0 {
        b.len() > 0
    } else if b.len() == 0 {
        false
    } else if a[0] != b[0] {
        a[0] < b[0]
    } else {
        precedes(a.drop_first(), b.drop_first())
    }
}

proof fn lemma_precedes_irreflexive(a: Seq<char>)
    ensures
        !precedes(a, a),
    decreases a.len(),
{
    if a.len() > 0 {
        lemma_precedes_irreflexive(a.drop_first());
    }
}

proof fn lemma_precedes_asymmetric(a: Seq<char>, b: Seq<char>)
    ensures
        !(precedes(a, b) && precedes(b, a)),
    decreases a.len(),
{
    if a.len() > 0 && b.len() > 0 && a[0] == b[0] {
        lemma_precedes_asymmetric(a.drop_first(), b.drop_first());
    }
}

proof fn lemma_precedes_total(a: Seq<char>, b: Seq<char>)
    ensures
        a == b || precedes(a, b) || precedes(b, a),
    decreases a.len(),
{
    if a.len() > 0 && b.len() > 0 && a[0] == b[0] {
        lemma_precedes_total(a.drop_first(), b.drop_first());
        if a.drop_first() == b.drop_first() {
            assert(a =~= seq![a[0]] + a.drop_first());
            assert(b =~= seq![b[0]] + b.drop_first());
        }
    } else if a.len() == 0 && b.len() == 0 {
        assert(a =~= b);
    }
}

proof fn lemma_precedes_transitive(a: Seq<char>, b: Seq<char>, c: Seq<char>)
    requires
        precedes(a, b),
        precedes(b, c),
    ensures
        precedes(a, c),
    decreases a.len(),
{
    if a.len() > 0 && b.len() > 0 && c.len() > 0 && a[0] == b[0] && b[0] == c[0] {
        lemma_precedes_transitive(a.drop_first(), b.drop_first(), c.drop_first());
    }
}

proof fn lemma_precedes_skip(a: Seq<char>, b: Seq<char>, i: int)
    requires
        0 <= i <= a.len(),
        i <= b.len(),
        forall|j: int| 0 <= j < i ==> a[j] == b[j],
    ensures
        precedes(a, b) == precedes(a.skip(i), b.skip(i)),
    decreases i,
{
    if i > 0 {
        assert(a[0] == b[0]);
        assert forall|j: int| 0 <= j < i - 1 implies a.drop_first()[j] == b.drop_first()[j] by {
            assert(a[j + 1] == b[j + 1]);
        }
        lemma_precedes_skip(a.drop_first(), b.drop_first(), i - 1);
        assert(a.drop_first().skip(i - 1) =~= a.skip(i));
        assert(b.drop_first().skip(i - 1) =~= b.skip(i));
    } else {
        assert(a.skip(0) =~= a);
        assert(b.skip(0) =~= b);
    }
}

/// Whether `a` comes before `b`.
fn chars_precede(a: &[char], b: &[char]) -> (r: bool)
    ensures
        r == precedes(a@, b@),
{
    let mut i: usize = 0;
    while i < a.len() && i < b.len() && a[i] == b[i]
        invariant
            i <= a@.len(),
            i <= b@.len(),
            forall|j: int| 0 <= j < i ==> a@[j] == b@[j],
        decreases a@.len() - i,
    {
        i = i + 1;
    }
    proof {
        lemma_precedes_skip(a@, b@, i as int);
    }
    if i == a.len() {
        i < b.len()
    } else if i == b.len() {
        false
    } else {
        a[i] < b[i]
    }
}

/// Each name comes strictly before the next: sorted, without repeats.
pub open spec fn strictly_sorted(s: Seq<Seq<char>>) -> bool {
    forall|i: int, j: int| 0 <= i < j < s.len() ==> precedes(#[trigger] s[i], #[trigger] s[j])
}

/// Inserts `k` at `p` into the strictly sorted `s`, where everything before
/// `p` precedes `k` and what stands at `p`, if anything, follows it.
proof fn lemma_insert_sorted(s: Seq<Seq<char>>, p: int, k: Seq<char>)
    requires
        strictly_sorted(s),
        0 <= p <= s.len(),
        forall|j: int| 0 <= j < p ==> precedes(#[trigger] s[j], k),
        p < s.len() ==> precedes(k, s[p]),
    ensures
        strictly_sorted(s.insert(p, k)),
{
    let t = s.insert(p, k);
    assert forall|i: int, j: int| 0 <= i < j < t.len() implies precedes(#[trigger] t[i], #[trigger] t[j]) by {
        if j < p {
            assert(t[i] == s[i] && t[j] == s[j]);
        } else if j == p {
            assert(t[i] == s[i]);
        } else if i < p {
            assert(t[i] == s[i] && t[j] == s[j - 1]);
            if j - 1 == p {
                lemma_precedes_transitive(s[i], k, s[p]);
            } else {
                lemma_precedes_transitive(s[i], k, s[p]);
                lemma_precedes_transitive(s[i], s[p], s[j - 1]);
            }
        } else if i == p {
            assert(t[j] == s[j - 1]);
            if j - 1 > p {
                lemma_precedes_transitive(k, s[p], s[j - 1]);
            }
        } else {
            assert(t[i] == s[i - 1] && t[j] == s[j - 1]);
        }
    }
}

proof fn lemma_contains_insert(s: Seq<Seq<char>>, p: int, k: Seq<char>, x: Seq<char>)
    requires
        0 <= p <= s.len(),
    ensures
        s.insert(p, k).contains(x) <==> (s.contains(x) || x == k),
{
    let t = s.insert(p, k);
    if t.contains(x) {
        let j = choose|j: int| 0 <= j < t.len() && t[j] == x;
        if j < p {
            assert(s[j] == x);
        } else if j > p {
            assert(s[j - 1] == x);
        }
    }
    if s.contains(x) {
        let j = choose|j: int| 0 <= j < s.len() && s[j] == x;
        if j < p {
            assert(t[j] == x);
        } else {
            assert(t[j + 1] == x);
        }
    }
    if x == k {
        assert(t[p] == x);
    }
}

/// The family names offered by the font pickers: `names` sorted, each one
/// once.
pub fn sorted_families(names: Vec<String>) -> (r: Vec<String>)
    ensures
        strictly_sorted(string_views(r@)),
        forall|x: Seq<char>| string_views(r@).contains(x) <==> string_views(names@).contains(x),
{
    let mut out: Vec<String> = Vec::new();
    let mut i: usize = 0;
    while i < names.len()
        invariant
            i <= names@.len(),
            strictly_sorted(string_views(out@)),
            forall|x: Seq<char>|
                string_views(out@).contains(x) <==> string_views(names@.take(i as int)).contains(x),
        decreases names@.len() - i,
    {
        let k = chars_of(names[i].as_str());
        let ghost before = string_views(out@);
        let mut p: usize = 0;
        let mut found = false;
        let mut stop = false;
        while p < out.len() && !stop
            invariant
                p <= out@.len(),
                before == string_views(out@),
                forall|j: int| 0 <= j < p ==> precedes(#[trigger] before[j], k@),
                stop ==> p < before.len() && !precedes(before[p as int], k@),
                stop ==> (found == (before[p as int] == k@)),
                !stop ==> !found,
            decreases out@.len() - p + (if stop { 0int } else { 1int }),
        {
            let here = chars_of(out[p].as_str());
            if chars_precede(&here, &k) {
                p = p + 1;
            } else {
                found = eq_chars(&here, &k);
                stop = true;
            }
        }
        let ghost seen = string_views(names@.take(i as int));
        proof {
            assert(string_views(names@.take(i + 1)) =~= seen.insert(seen.len() as int, k@));
            assert forall|x: Seq<char>| string_views(names@.take(i + 1)).contains(x) <==> (
            seen.contains(x) || x == k@) by {
                lemma_contains_insert(seen, seen.len() as int, k@, x);
            }
        }
        if found {
            proof {
                assert(before[p as int] == k@);
                assert(before.contains(k@));
            }
        } else {
            proof {
                if p < before.len() {
                    lemma_precedes_total(before[p as int], k@);
                }
                lemma_insert_sorted(before, p as int, k@);
            }
            out.insert(p, names[i].clone());
            proof {
                assert(string_views(out@) =~= before.insert(p as int, k@));
                assert forall|x: Seq<char>| string_views(out@).contains(x) <==> (before.contains(x)
                    || x == k@) by {
                    lemma_contains_insert(before, p as int, k@, x);
                }
            }
        }
        proof {
            assert forall|x: Seq<char>| string_views(out@).contains(x) <==> string_views(
                names@.take(i + 1),
            ).contains(x) by {
                assert(before.contains(x) <==> seen.contains(x));
                assert(string_views(names@.take(i + 1)).contains(x) <==> (seen.contains(x) || x
                    == k@));
            }
        }
        i = i + 1;
    }
    proof {
        assert(names@.take(names@.len() as int) =~= names@);
    }
    out
}

/// The serif families tried, in order, when a document names no body font.
pub open spec fn serif_preferences() -> Seq<Seq<char>> {
    seq![
        "Libertinus Serif"@,
        "EB Garamond"@,
        "Georgia"@,
        "Times New Roman"@,
        "Liberation Serif"@,
        "Source Serif 4"@,
        "Noto Serif"@,
        "DejaVu Serif"@,
    ]
}

/// Whether two names are equal once ASCII letters are lowercased (what
/// `str::eq_ignore_ascii_case` tests: on UTF-8, comparing bytes so lowercased
/// is comparing characters so lowercased).
pub open spec fn same_family(a: Seq<char>, b: Seq<char>) -> bool {
    lower_all(a) == lower_all(b)
}

/// Whether one of `families` is `name`, ignoring ASCII case.
pub open spec fn installed(families: Seq<String>, name: Seq<char>) -> bool {
    exists|i: int| 0 <= i < families.len() && same_family(#[trigger] families[i]@, name)
}

/// Whether one of the lowercased names `lowered` is `name` lowercased.
fn listed(lowered: &Vec<Vec<char>>, name: &[char]) -> (r: bool)
    ensures
        r == exists|i: int| 0 <= i < lowered@.len() && #[trigger] lowered@[i]@ == lower_all(name@),
{
    let key = lowercase(name);
    let mut i: usize = 0;
    while i < lowered.len()
        invariant
            i <= lowered@.len(),
            key@ == lower_all(name@),
            forall|j: int| 0 <= j < i ==> #[trigger] lowered@[j]@ != key@,
        decreases lowered@.len() - i,
    {
        if eq_chars(&lowered[i], &key) {
            return true;
        }
        i = i + 1;
    }
    false
}

/// The body font used when none is chosen: the first of the preferred serifs
/// that is installed (ignoring ASCII case), if any; `families` are the names
/// of the installed families.
pub fn default_serif(families: &Vec<String>) -> (r: Option<String>)
    ensures
        match r {
            Some(f) => exists|k: int|
                0 <= k < serif_preferences().len() && f@ == serif_preferences()[k] && installed(
                    families@,
                    serif_preferences()[k],
                ) && forall|j: int|
                    0 <= j < k ==> !installed(families@, #[trigger] serif_preferences()[j]),
            None => forall|k: int|
                0 <= k < serif_preferences().len() ==> !installed(
                    families@,
                    #[trigger] serif_preferences()[k],
                ),
        },
{
    let mut lowered: Vec<Vec<char>> = Vec::new();
    let mut i: usize = 0;
    while i < families.len()
        invariant
            i <= families@.len(),
            lowered@.len() == i,
            forall|j: int| 0 <= j < i ==> #[trigger] lowered@[j]@ == lower_all(families@[j]@),
        decreases families@.len() - i,
    {
        lowered.push(lowercase(&chars_of(families[i].as_str())));
        i = i + 1;
    }
    let prefs: Vec<&str> = vec![
        "Libertinus Serif",
        "EB Garamond",
        "Georgia",
        "Times New Roman",
        "Liberation Serif",
        "Source Serif 4",
        "Noto Serif",
        "DejaVu Serif",
    ];
    assert(prefs@.len() == serif_preferences().len());
    assert(forall|k: int| 0 <= k < prefs@.len() ==> #[trigger] prefs@[k]@ == serif_preferences()[k]);
    let mut k: usize = 0;
    while k < prefs.len()
        invariant
            k <= prefs@.len(),
            prefs@.len() == serif_preferences().len(),
            forall|k2: int| 0 <= k2 < prefs@.len() ==> #[trigger] prefs@[k2]@ == serif_preferences()[k2],
            lowered@.len() == families@.len(),
            forall|j: int| 0 <= j < families@.len() ==> #[trigger] lowered@[j]@ == lower_all(families@[j]@),
            forall|j: int| 0 <= j < k ==> !installed(families@, #[trigger] serif_preferences()[j]),
        decreases prefs@.len() - k,
    {
        let name = chars_of(prefs[k]);
        let hit = listed(&lowered, &name);
        proof {
            if hit {
                let i = choose|i: int| 0 <= i < lowered@.len() && #[trigger] lowered@[i]@ == lower_all(name@);
                assert(same_family(families@[i]@, serif_preferences()[k as int]));
            } else {
                assert forall|i: int| 0 <= i < families@.len() implies !same_family(
                    #[trigger] families@[i]@,
                    serif_preferences()[k as int],
                ) by {
                    assert(lowered@[i]@ == lower_all(families@[i]@));
                }
            }
        }
        if hit {
            return Some(string_of(&name));
        }
        k = k + 1;
    }
    None
}

} // verus!
