//! Case-insensitive matching of a typed needle against cell values, as the
//! value list of a column filter narrows its entries.

use vstd::prelude::*;
use vstd::utf8::{encode_utf8, is_ascii_chars};

use crate::external::{lowercase_text, to_lowercase};
use crate::text::{chars_of, contains_text, text_contains};
use crate::unique::UniqueValue;

verus! {

/// The byte with ASCII upper-case letters turned to lower case.
pub open spec fn ascii_lower(b: u8) -> u8 {
    if 65 <= b <= 90 {
        (b + 32) as u8
    } else {
        b
    }
}

/// `a` and `b` are equal but for the case of ASCII letters.
pub open spec fn eq_ignore_ascii_case(a: Seq<u8>, b: Seq<u8>) -> bool {
    a.len() == b.len() && forall|i: int| 0 <= i < a.len() ==> ascii_lower(#[trigger] a[i]) == ascii_lower(b[i])
}

/// Some run of `value` is `needle` but for the case of ASCII letters (an
/// empty needle is found everywhere).
pub open spec fn contains_ignore_ascii_case(value: Seq<u8>, needle: Seq<u8>) -> bool {
    needle.len() == 0 || exists|i: int|
        0 <= i <= value.len() - needle.len() && eq_ignore_ascii_case(
            #[trigger] value.subrange(i, i + needle.len()),
            needle,
        )
}

/// Whether the filter text matches a value: for ASCII text, a run of the
/// value equal to the needle but for letter case; otherwise the lower-cased
/// value contains the lower-cased needle.
pub open spec fn filter_value_matches(value: Seq<char>, needle: Seq<char>, needle_lowercase: Seq<char>) -> bool {
    if is_ascii_chars(value) && is_ascii_chars(needle) {
        contains_ignore_ascii_case(encode_utf8(value), encode_utf8(needle))
    } else {
        text_contains(lowercase_text(value), needle_lowercase)
    }
}

fn to_ascii_lower(b: u8) -> (l: u8)
    ensures
        l == ascii_lower(b),
{
    if 65 <= b && b <= 90 {
        b + 32
    } else {
        b
    }
}

/// `value[at..]` starts with `needle` but for the case of ASCII letters.
fn matches_ignore_case_at(value: &[u8], needle: &[u8], at: usize) -> (b: bool)
    requires
        at + needle@.len() <= value@.len(),
    ensures
        b == eq_ignore_ascii_case(value@.subrange(at as int, at + needle@.len()), needle@),
{
    let ghost w = value@.subrange(at as int, at + needle@.len());
    let vlen = value.len();
    let mut k: usize = 0;
    while k < needle.len()
        invariant
            at + needle@.len() <= value@.len(),
            vlen == value@.len(),
            w == value@.subrange(at as int, at + needle@.len()),
            0 <= k <= needle@.len(),
            forall|i: int| 0 <= i < k ==> ascii_lower(#[trigger] w[i]) == ascii_lower(needle@[i]),
        decreases needle@.len() - k,
    {
        if to_ascii_lower(value[at + k]) != to_ascii_lower(needle[k]) {
            assert(w[k as int] == value@[at + k]);
            return false;
        }
        k = k + 1;
    }
    true
}

/// Some run of `value` equals `needle` but for the case of ASCII letters.
pub fn contains_ascii_case_insensitive(value: &[u8], needle: &[u8]) -> (b: bool)
    ensures
        b == contains_ignore_ascii_case(value@, needle@),
{
    if needle.len() == 0 {
        return true;
    }
    if needle.len() > value.len() {
        return false;
    }
    let vlen = value.len();
    let last = vlen - needle.len();
    let mut at: usize = 0;
    while at <= last
        invariant
            needle@.len() > 0,
            vlen == value@.len(),
            last == value@.len() - needle@.len(),
            0 <= at <= last + 1,
            forall|i: int|
                0 <= i < at ==> !eq_ignore_ascii_case(#[trigger] value@.subrange(i, i + needle@.len()), needle@),
        decreases last + 1 - at,
    {
        if matches_ignore_case_at(value, needle, at) {
            return true;
        }
        at = at + 1;
    }
    false
}

/// Whether the filter text `needle` (given also lower-cased) matches `value`.
pub fn contains_filter_value(value: &str, needle: &str, needle_lowercase: &str) -> (b: bool)
    ensures
        b == filter_value_matches(value@, needle@, needle_lowercase@),
{
    if value.is_ascii() && needle.is_ascii() {
        return contains_ascii_case_insensitive(value.as_bytes(), needle.as_bytes());
    }
    let lowered = to_lowercase(value);
    let hay = chars_of(lowered.as_str());
    let wanted = chars_of(needle_lowercase);
    contains_text(hay.as_slice(), wanted.as_slice())
}

/// Matching ASCII text ignores letter case: needles that differ only in the
/// case of ASCII letters match the same values.
pub proof fn lemma_ascii_match_ignores_case(value: Seq<u8>, n1: Seq<u8>, n2: Seq<u8>)
    requires
        eq_ignore_ascii_case(n1, n2),
    ensures
        contains_ignore_ascii_case(value, n1) == contains_ignore_ascii_case(value, n2),
{
    if n1.len() > 0 && contains_ignore_ascii_case(value, n1) {
        let i = choose|i: int|
            0 <= i <= value.len() - n1.len() && eq_ignore_ascii_case(#[trigger] value.subrange(i, i + n1.len()), n1);
        let w = value.subrange(i, i + n2.len());
        assert forall|k: int| 0 <= k < w.len() implies ascii_lower(#[trigger] w[k]) == ascii_lower(n2[k]) by {
            assert(ascii_lower(w[k]) == ascii_lower(n1[k]));
        }
        assert(eq_ignore_ascii_case(w, n2));
    }
    if n2.len() > 0 && contains_ignore_ascii_case(value, n2) {
        let i = choose|i: int|
            0 <= i <= value.len() - n2.len() && eq_ignore_ascii_case(#[trigger] value.subrange(i, i + n2.len()), n2);
        let w = value.subrange(i, i + n1.len());
        assert forall|k: int| 0 <= k < w.len() implies ascii_lower(#[trigger] w[k]) == ascii_lower(n1[k]) by {
            assert(ascii_lower(w[k]) == ascii_lower(n2[k]));
        }
        assert(eq_ignore_ascii_case(w, n1));
    }
}


/// A value always stays listed when the typed text is the value itself:
/// `value` matches the needle `value` given with its lower-cased form, for
/// ASCII and other text alike.
pub proof fn lemma_value_matches_itself(value: Seq<char>)
    ensures
        filter_value_matches(value, value, lowercase_text(value)),
{
    if is_ascii_chars(value) {
        let e = encode_utf8(value);
        if e.len() > 0 {
            assert(e.subrange(0, e.len() as int) =~= e);
            assert(eq_ignore_ascii_case(e.subrange(0, 0 + e.len() as int), e));
        }
    } else {
        let l = lowercase_text(value);
        assert(l.subrange(0, 0 + l.len() as int) =~= l);
    }
}

/// Outside all-ASCII text the needle counts only through its lower-cased
/// form: two needles given with the same lower-cased form match the same
/// values.
pub proof fn lemma_match_uses_lowercased_needle(value: Seq<char>, n1: Seq<char>, n2: Seq<char>, lowered: Seq<char>)
    requires
        !is_ascii_chars(value) || (!is_ascii_chars(n1) && !is_ascii_chars(n2)),
    ensures
        filter_value_matches(value, n1, lowered) == filter_value_matches(value, n2, lowered),
{
}

/// A lower-cased value contains the lower-cased needle exactly when some
/// run of it is that needle; in particular a value whose lower-cased text
/// is the lower-cased needle, or holds it, is matched (outside ASCII).
pub proof fn lemma_lowercase_run_matches(value: Seq<char>, needle: Seq<char>, lowered: Seq<char>, at: int)
    requires
        !is_ascii_chars(value) || !is_ascii_chars(needle),
        0 <= at <= lowercase_text(value).len() - lowered.len(),
        lowercase_text(value).subrange(at, at + lowered.len()) == lowered,
    ensures
        filter_value_matches(value, needle, lowered),
{
}

/// Positions, in increasing order, of the values that the filter text
/// `needle` (given also lower-cased) matches.
pub fn matching_value_indices(values: &Vec<UniqueValue>, needle: &str, needle_lowercase: &str) -> (idxs: Vec<usize>)
    ensures
        crate::rows::sorted_strict(idxs@),
        forall|i: usize| #[trigger] idxs@.contains(i) <==> (i < values@.len() && filter_value_matches(
            values@[i as int].value@,
            needle@,
            needle_lowercase@,
        )),
{
    let mut idxs: Vec<usize> = Vec::new();
    let mut i: usize = 0;
    while i < values.len()
        invariant
            0 <= i <= values@.len(),
            crate::rows::sorted_strict(idxs@),
            forall|k: int| 0 <= k < idxs@.len() ==> #[trigger] idxs@[k] < i,
            forall|j: usize| #[trigger] idxs@.contains(j) <==> (j < i && filter_value_matches(
                values@[j as int].value@,
                needle@,
                needle_lowercase@,
            )),
        decreases values@.len() - i,
    {
        let ghost before = idxs@;
        if contains_filter_value(values[i].value.as_str(), needle, needle_lowercase) {
            idxs.push(i);
        }
        proof {
            assert forall|j: usize| #[trigger] idxs@.contains(j) <==> (j < i + 1 && filter_value_matches(
                values@[j as int].value@,
                needle@,
                needle_lowercase@,
            )) by {
                crate::rows::lemma_push_contains(before, i, j);
                if before.contains(j) {
                    let k = choose|k: int| 0 <= k < before.len() && before[k] == j;
                }
            }
        }
        i = i + 1;
    }
    idxs
}

} // verus!
