//! Text helpers over characters: conversion, substring search, ordering.

use vstd::prelude::*;
use vstd::std_specs::iter::IteratorSpec;

verus! {

broadcast use vstd::string::group_string_axioms;

/// The characters of `s`, in order.
pub fn chars_of(s: &str) -> (r: Vec<char>)
    ensures
        r@ == s@,
{
    let mut it = s.chars();
    let mut r: Vec<char> = Vec::new();
    loop
        invariant
            it.obeys_prophetic_iter_laws(),
            r@ + it.remaining() == s@,
            it.decrease() is Some,
        decreases it.decrease()->0,
    {
        match it.next() {
            Some(c) => {
                r.push(c);
            },
            None => {
                assert(r@ =~= s@);
                return r;
            },
        }
    }
}

/// `a` comes before `b` in the order of code points, character by
/// character (a proper prefix comes first).
pub open spec fn text_lt(a: Seq<char>, b: Seq<char>) -> bool
    decreases a.len(),
{
    if a.len() == 0 {
        b.len() > 0
    } else if b.len() == 0 {
        false
    } else if a[0] != b[0] {
        (a[0] as u32) < (b[0] as u32)
    } else {
        text_lt(a.drop_first(), b.drop_first())
    }
}

/// The texts of `s` are in strictly increasing order.
pub open spec fn texts_sorted(s: Seq<Seq<char>>) -> bool {
    forall|i: int, j: int| 0 <= i < j < s.len() ==> text_lt(#[trigger] s[i], #[trigger] s[j])
}

pub proof fn lemma_text_lt_irreflexive(a: Seq<char>)
    ensures
        !text_lt(a, a),
    decreases a.len(),
{
    if a.len() > 0 {
        lemma_text_lt_irreflexive(a.drop_first());
    }
}

pub proof fn lemma_text_lt_asymmetric(a: Seq<char>, b: Seq<char>)
    ensures
        text_lt(a, b) ==> !text_lt(b, a),
    decreases a.len(),
{
    if a.len() > 0 && b.len() > 0 && a[0] == b[0] {
        lemma_text_lt_asymmetric(a.drop_first(), b.drop_first());
    }
}

pub proof fn lemma_text_lt_total(a: Seq<char>, b: Seq<char>)
    ensures
        a != b ==> text_lt(a, b) || text_lt(b, a),
    decreases a.len(),
{
    if a.len() > 0 && b.len() > 0 {
        if a[0] == b[0] {
            lemma_text_lt_total(a.drop_first(), b.drop_first());
            if a.drop_first() == b.drop_first() {
                assert(a =~= seq![a[0]] + a.drop_first());
                assert(b =~= seq![b[0]] + b.drop_first());
            }
        } else {
            if (a[0] as u32) == (b[0] as u32) {
                vstd::utf8::char_u32_cast(a[0], a[0] as u32);
                vstd::utf8::char_u32_cast(b[0], b[0] as u32);
            }
        }
    } else if a.len() == 0 && b.len() == 0 {
        assert(a =~= b);
    }
}

pub proof fn lemma_text_lt_transitive(a: Seq<char>, b: Seq<char>, c: Seq<char>)
    requires
        text_lt(a, b),
        text_lt(b, c),
    ensures
        text_lt(a, c),
    decreases a.len(),
{
    if a.len() > 0 && b.len() > 0 && c.len() > 0 && a[0] == b[0] && b[0] == c[0] {
        lemma_text_lt_transitive(a.drop_first(), b.drop_first(), c.drop_first());
    }
}

proof fn lemma_text_lt_skip(a: Seq<char>, b: Seq<char>, i: int)
    requires
        0 <= i <= a.len(),
        i <= b.len(),
        a.take(i) == b.take(i),
    ensures
        text_lt(a, b) == text_lt(a.skip(i), b.skip(i)),
    decreases i,
{
    if i > 0 {
        assert(a.take(i)[0] == a[0]);
        assert(b.take(i)[0] == b[0]);
        assert(a.drop_first().take(i - 1) =~= a.take(i).drop_first());
        assert(b.drop_first().take(i - 1) =~= b.take(i).drop_first());
        lemma_text_lt_skip(a.drop_first(), b.drop_first(), i - 1);
        assert(a.drop_first().skip(i - 1) =~= a.skip(i));
        assert(b.drop_first().skip(i - 1) =~= b.skip(i));
    } else {
        assert(a.skip(0) =~= a);
        assert(b.skip(0) =~= b);
    }
}

/// The outcome of comparing two texts.
#[derive(Clone, Copy, Debug, PartialEq, Eq, Structural)]
pub enum TextOrder {
    Less,
    Equal,
    Greater,
}

/// Compares two texts by code points, character by character.
pub fn compare_text(a: &[char], b: &[char]) -> (o: TextOrder)
    ensures
        o == TextOrder::Less <==> text_lt(a@, b@),
        o == TextOrder::Equal <==> a@ == b@,
        o == TextOrder::Greater <==> text_lt(b@, a@),
{
    let mut i: usize = 0;
    while i < a.len() && i < b.len() && a[i] == b[i]
        invariant
            0 <= i <= a@.len(),
            i <= b@.len(),
            a@.take(i as int) == b@.take(i as int),
        decreases a@.len() - i,
    {
        i = i + 1;
        assert(a@.take(i as int) =~= a@.take(i - 1).push(a@[i - 1]));
        assert(b@.take(i as int) =~= b@.take(i - 1).push(b@[i - 1]));
    }
    proof {
        lemma_text_lt_skip(a@, b@, i as int);
        lemma_text_lt_skip(b@, a@, i as int);
        lemma_text_lt_irreflexive(a@);
        lemma_text_lt_asymmetric(a@, b@);
        lemma_text_lt_total(a@, b@);
        let sa = a@.skip(i as int);
        let sb = b@.skip(i as int);
        if i < a@.len() && i < b@.len() {
            assert(sa[0] == a@[i as int]);
            assert(sb[0] == b@[i as int]);
        }
    }
    if i == a.len() && i == b.len() {
        assert(a@ =~= a@.take(i as int));
        assert(b@ =~= b@.take(i as int));
        TextOrder::Equal
    } else if i == a.len() {
        TextOrder::Less
    } else if i == b.len() {
        TextOrder::Greater
    } else if (a[i] as u32) < (b[i] as u32) {
        TextOrder::Less
    } else {
        TextOrder::Greater
    }
}

/// Looks `key` up in the sorted texts `keys`: `Ok` with its position when it
/// is there, else `Err` with the position where it would be inserted.
pub fn find_text(keys: &Vec<Vec<char>>, key: &[char]) -> (res: Result<usize, usize>)
    requires
        texts_sorted(keys@.map_values(|k: Vec<char>| k@)),
    ensures
        res matches Ok(i) ==> i < keys@.len() && keys@[i as int]@ == key@,
        res matches Err(p) ==> {
            &&& p <= keys@.len()
            &&& forall|i: int| 0 <= i < p ==> text_lt(#[trigger] keys@[i]@, key@)
            &&& forall|i: int| p <= i < keys@.len() ==> text_lt(key@, #[trigger] keys@[i]@)
        },
{
    let ghost ks = keys@.map_values(|k: Vec<char>| k@);
    let mut lo: usize = 0;
    let mut hi: usize = keys.len();
    while lo < hi
        invariant
            ks == keys@.map_values(|k: Vec<char>| k@),
            texts_sorted(ks),
            0 <= lo <= hi <= keys@.len(),
            forall|i: int| 0 <= i < lo ==> text_lt(#[trigger] keys@[i]@, key@),
            forall|i: int| hi <= i < keys@.len() ==> text_lt(key@, #[trigger] keys@[i]@),
        decreases hi - lo,
    {
        let mid = lo + (hi - lo) / 2;
        match compare_text(keys[mid].as_slice(), key) {
            TextOrder::Equal => {
                return Ok(mid);
            },
            TextOrder::Less => {
                assert forall|i: int| 0 <= i < mid + 1 implies text_lt(#[trigger] keys@[i]@, key@) by {
                    if i < mid {
                        assert(ks[i] == keys@[i]@ && ks[mid as int] == keys@[mid as int]@);
                        lemma_text_lt_transitive(keys@[i]@, keys@[mid as int]@, key@);
                    }
                }
                lo = mid + 1;
            },
            TextOrder::Greater => {
                assert forall|i: int| mid <= i < keys@.len() implies text_lt(key@, #[trigger] keys@[i]@) by {
                    if i > mid {
                        assert(ks[i] == keys@[i]@ && ks[mid as int] == keys@[mid as int]@);
                        lemma_text_lt_transitive(key@, keys@[mid as int]@, keys@[i]@);
                    }
                }
                hi = mid;
            },
        }
    }
    Err(lo)
}

/// The texts held by `keys`.
pub open spec fn key_texts(keys: Seq<Vec<char>>) -> Seq<Seq<char>> {
    keys.map_values(|k: Vec<char>| k@)
}

/// Adds `key` to the sorted texts `keys` unless it is there already;
/// reports whether it was added.
pub fn insert_text(keys: &mut Vec<Vec<char>>, key: Vec<char>) -> (added: bool)
    requires
        texts_sorted(key_texts(old(keys)@)),
    ensures
        texts_sorted(key_texts(final(keys)@)),
        added == !key_texts(old(keys)@).contains(key@),
        forall|t: Seq<char>| key_texts(final(keys)@).contains(t) <==> (key_texts(old(keys)@).contains(t) || t == key@),
        added ==> key_texts(final(keys)@).len() == key_texts(old(keys)@).len() + 1,
        !added ==> final(keys)@ == old(keys)@,
{
    let ghost old_ks = key_texts(keys@);
    match find_text(keys, key.as_slice()) {
        Ok(i) => {
            assert(old_ks[i as int] == key@);
            false
        },
        Err(p) => {
            let ghost kv = key@;
            assert(!old_ks.contains(kv)) by {
                if old_ks.contains(kv) {
                    let j = choose|j: int| 0 <= j < old_ks.len() && old_ks[j] == kv;
                    lemma_text_lt_irreflexive(kv);
                    if j < p {
                        assert(text_lt(keys@[j]@, kv));
                    } else {
                        assert(text_lt(kv, keys@[j]@));
                    }
                }
            }
            keys.insert(p, key);
            let ghost new_ks = key_texts(keys@);
            assert(new_ks =~= old_ks.insert(p as int, kv));
            assert forall|i: int, j: int| 0 <= i < j < new_ks.len() implies text_lt(
                #[trigger] new_ks[i],
                #[trigger] new_ks[j],
            ) by {
                if j < p {
                    assert(text_lt(old_ks[i], old_ks[j]));
                } else if i > p {
                    assert(text_lt(old_ks[i - 1], old_ks[j - 1]));
                } else if i == p {
                    assert(text_lt(kv, old_ks[j - 1]));
                } else if j == p {
                    assert(text_lt(old_ks[i], kv));
                } else {
                    lemma_text_lt_transitive(old_ks[i], kv, old_ks[j - 1]);
                }
            }
            assert forall|t: Seq<char>| new_ks.contains(t) <==> (old_ks.contains(t) || t == kv) by {
                if new_ks.contains(t) {
                    let j = choose|j: int| 0 <= j < new_ks.len() && new_ks[j] == t;
                    if j < p {
                        assert(old_ks[j] == t);
                    } else if j > p {
                        assert(old_ks[j - 1] == t);
                    }
                }
                if old_ks.contains(t) {
                    let j = choose|j: int| 0 <= j < old_ks.len() && old_ks[j] == t;
                    if j < p {
                        assert(new_ks[j] == t);
                    } else {
                        assert(new_ks[j + 1] == t);
                    }
                }
                if t == kv {
                    assert(new_ks[p as int] == t);
                }
            }
            true
        },
    }
}

/// `hay` contains `needle` as a contiguous part.
pub open spec fn text_contains(hay: Seq<char>, needle: Seq<char>) -> bool {
    exists|i: int| 0 <= i <= hay.len() - needle.len() && #[trigger] hay.subrange(i, i + needle.len()) == needle
}

/// `hay[at..]` begins with `needle`.
fn matches_at(hay: &[char], needle: &[char], at: usize) -> (b: bool)
    requires
        at + needle@.len() <= hay@.len(),
    ensures
        b == (hay@.subrange(at as int, at + needle@.len()) == needle@),
{
    let n = hay.len();
    let mut k: usize = 0;
    while k < needle.len()
        invariant
            n == hay@.len(),
            at + needle@.len() <= hay@.len(),
            0 <= k <= needle@.len(),
            forall|m: int| 0 <= m < k ==> hay@[at + m] == needle@[m],
        decreases needle@.len() - k,
    {
        if hay[at + k] != needle[k] {
            assert(hay@.subrange(at as int, at + needle@.len())[k as int] != needle@[k as int]);
            return false;
        }
        k = k + 1;
    }
    assert(hay@.subrange(at as int, at + needle@.len()) =~= needle@);
    true
}

/// Whether `hay` contains `needle`.
pub fn contains_text(hay: &[char], needle: &[char]) -> (b: bool)
    ensures
        b == text_contains(hay@, needle@),
{
    if needle.len() > hay.len() {
        return false;
    }
    let last = hay.len() - needle.len();
    let mut at: usize = 0;
    while at <= last
        invariant
            last == hay@.len() - needle@.len(),
            at <= last + 1,
            forall|i: int| 0 <= i < at ==> #[trigger] hay@.subrange(i, i + needle@.len()) != needle@,
        decreases last + 1 - at,
    {
        if matches_at(hay, needle, at) {
            return true;
        }
        if at == last {
            return false;
        }
        at = at + 1;
    }
    false
}

} // verus!
