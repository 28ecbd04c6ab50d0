//! Short texts shown in the interface: capped titles and signature summaries.

use vstd::prelude::*;

use crate::text::{chars_of, decimal, push_decimal, push_str, string_of};

verus! {

/// The longest title shown in the outline rail, in characters.
pub const TITLE_CAP: usize = 34;

/// A title capped for the outline rail: kept when it fits, else its first
/// characters followed by an ellipsis, `TITLE_CAP` characters in all.
pub open spec fn capped(s: Seq<char>) -> Seq<char> {
    if s.len() <= TITLE_CAP {
        s
    } else {
        s.take(TITLE_CAP - 1).push('\u{2026}')
    }
}

/// Cap a title for the rail; the full text is in the hover.
pub fn truncated(s: &str) -> (r: String)
    ensures
        r@ == capped(s@),
        r@.len() <= TITLE_CAP,
{
    let v = chars_of(s);
    if v.len() <= TITLE_CAP {
        return string_of(&v);
    }
    let mut out = crate::text::slice_chars(&v, 0, TITLE_CAP - 1);
    out.push('\u{2026}');
    proof {
        assert(out@ =~= capped(s@));
    }
    string_of(&out)
}

/// The numbers of a list, `[a, b, c]`.
pub open spec fn bracketed(v: Seq<usize>) -> Seq<char> {
    "["@ + numbers(v) + "]"@
}

/// The numbers of a list separated by `", "`.
pub open spec fn numbers(v: Seq<usize>) -> Seq<char>
    decreases v.len(),
{
    if v.len() == 0 {
        seq![]
    } else if v.len() == 1 {
        decimal(v[0] as nat)
    } else {
        numbers(v.drop_last()) + ", "@ + decimal(v.last() as nat)
    }
}

/// The pages per signature: `"n pages each"` when all signatures have the same
/// count, else the list of counts.
pub open spec fn signature_summary(v: Seq<usize>) -> Seq<char> {
    if forall|i: int| 0 <= i < v.len() ==> #[trigger] v[i] == v[0] {
        decimal(v[0] as nat) + " pages each"@
    } else {
        bracketed(v)
    }
}

/// Describe the pages per signature of an imposition.
pub fn format_pages_per_signature(pages_per_sig: &[usize]) -> (r: String)
    requires
        pages_per_sig@.len() > 0,
    ensures
        r@ == signature_summary(pages_per_sig@),
{
    let first = pages_per_sig[0];
    let mut same = true;
    let mut i: usize = 0;
    while i < pages_per_sig.len()
        invariant
            i <= pages_per_sig@.len(),
            first == pages_per_sig@[0],
            same == forall|k: int| 0 <= k < i ==> #[trigger] pages_per_sig@[k] == first,
        decreases pages_per_sig@.len() - i,
    {
        if pages_per_sig[i] != first {
            same = false;
        }
        i = i + 1;
    }
    let mut out: Vec<char> = Vec::new();
    if same {
        push_decimal(&mut out, first as u64);
        push_str(&mut out, " pages each");
        proof {
            assert(out@ =~= signature_summary(pages_per_sig@));
        }
        return string_of(&out);
    }
    push_str(&mut out, "[");
    let ghost start = out@;
    let mut j: usize = 0;
    while j < pages_per_sig.len()
        invariant
            j <= pages_per_sig@.len(),
            out@ == start + numbers(pages_per_sig@.take(j as int)),
        decreases pages_per_sig@.len() - j,
    {
        let ghost before = out@;
        proof {
            assert(pages_per_sig@.take(j + 1).drop_last() =~= pages_per_sig@.take(j as int));
        }
        if j > 0 {
            push_str(&mut out, ", ");
        }
        push_decimal(&mut out, pages_per_sig[j] as u64);
        proof {
            if j == 0 {
                assert(out@ =~= start + numbers(pages_per_sig@.take(1)));
            } else {
                assert(out@ =~= start + numbers(pages_per_sig@.take(j + 1)));
            }
        }
        j = j + 1;
    }
    push_str(&mut out, "]");
    proof {
        assert(pages_per_sig@.take(pages_per_sig@.len() as int) =~= pages_per_sig@);
        assert(out@ =~= signature_summary(pages_per_sig@));
    }
    string_of(&out)
}

} // verus!
