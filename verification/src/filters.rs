//! Include/exclude filters on indexed column values, combined into the set
//! of rows shown.

use std::collections::HashMap;
use std::sync::Arc;

use vstd::prelude::*;
use vstd::std_specs::hash::spec_hash_map_iter;
use vstd::std_specs::iter::IteratorSpec;

use crate::external::string_from_chars;
use crate::index::{column_label, push_decimal};
use crate::rows::{lemma_push_contains, sorted_strict, union_sorted_rows};
use crate::selection::{sat_sub, FilterRows, RowSelection};
use crate::text::{
    chars_of, find_text, insert_text, key_texts, lemma_text_lt_asymmetric, lemma_text_lt_irreflexive, text_lt, texts_sorted,
};
use crate::unique::{lemma_rows_with, rows_with, value_texts, values_describe, UniqueColumnIndex, UniqueValue};

verus! {

/// A filter on one column: keep the rows whose value is among the listed
/// ones, or drop them.
#[derive(Clone, Debug)]
pub enum UniqueFilter {
    Include(Vec<String>),
    Exclude(Vec<String>),
}

impl UniqueFilter {
    /// The listed values.
    pub open spec fn listed(&self) -> Seq<Seq<char>> {
        match self {
            UniqueFilter::Include(v) => v@.map_values(|s: String| s@),
            UniqueFilter::Exclude(v) => v@.map_values(|s: String| s@),
        }
    }

    /// The filter lists no value (and so filters nothing).
    pub open spec fn is_empty(&self) -> bool {
        self.listed().len() == 0
    }
}

/// The rows of `col` (in increasing order) whose text is one of `s`.
pub open spec fn matching_rows(col: Seq<Seq<char>>, s: Seq<Seq<char>>) -> Seq<usize>
    decreases col.len(),
{
    if col.len() == 0 {
        Seq::empty()
    } else {
        let rest = matching_rows(col.drop_last(), s);
        if s.contains(col.last()) {
            rest.push((col.len() - 1) as usize)
        } else {
            rest
        }
    }
}

/// The rows of `col` that `matching_rows` lists are exactly those whose
/// text is one of `s`, in increasing order.
pub proof fn lemma_matching_rows(col: Seq<Seq<char>>, s: Seq<Seq<char>>)
    requires
        col.len() <= usize::MAX,
    ensures
        sorted_strict(matching_rows(col, s)),
        forall|r: usize| matching_rows(col, s).contains(r) <==> (r < col.len() && s.contains(col[r as int])),
        forall|i: int| 0 <= i < matching_rows(col, s).len() ==> #[trigger] matching_rows(col, s)[i] < col.len(),
        matching_rows(col, s).len() <= col.len(),
    decreases col.len(),
{
    if col.len() > 0 {
        let d = col.drop_last();
        lemma_matching_rows(d, s);
        let rest = matching_rows(d, s);
        let n = (col.len() - 1) as usize;
        assert forall|r: usize| matching_rows(col, s).contains(r) <==> (r < col.len() && s.contains(col[r as int])) by {
            if s.contains(col.last()) {
                lemma_push_contains(rest, n, r);
            }
            if r < n {
                assert(d[r as int] == col[r as int]);
            }
            if rest.contains(r) {
                let i = choose|i: int| 0 <= i < rest.len() && rest[i] == r;
                assert(rest[i] < d.len());
            }
        }
    }
}

/// Sum, over the texts `ks`, of the number of rows of `col` holding each.
pub open spec fn sum_counts(col: Seq<Seq<char>>, ks: Seq<Seq<char>>) -> int
    decreases ks.len(),
{
    if ks.len() == 0 {
        0
    } else {
        sum_counts(col, ks.drop_last()) + rows_with(col, ks.last()).len()
    }
}

proof fn lemma_sorted_distinct(ks: Seq<Seq<char>>, i: int, j: int)
    requires
        texts_sorted(ks),
        0 <= i < ks.len(),
        0 <= j < ks.len(),
        i != j,
    ensures
        ks[i] != ks[j],
{
    if i < j {
        assert(text_lt(ks[i], ks[j]));
        lemma_text_lt_irreflexive(ks[i]);
    } else {
        assert(text_lt(ks[j], ks[i]));
        lemma_text_lt_irreflexive(ks[j]);
    }
}

proof fn lemma_sum_counts_push(col: Seq<Seq<char>>, c: Seq<char>, ks: Seq<Seq<char>>)
    requires
        texts_sorted(ks),
    ensures
        sum_counts(col.push(c), ks) == sum_counts(col, ks) + if ks.contains(c) { 1int } else { 0int },
    decreases ks.len(),
{
    if ks.len() > 0 {
        let d = ks.drop_last();
        assert(texts_sorted(d)) by {
            assert forall|i: int, j: int| 0 <= i < j < d.len() implies text_lt(#[trigger] d[i], #[trigger] d[j]) by {
                assert(d[i] == ks[i] && d[j] == ks[j]);
            }
        }
        lemma_sum_counts_push(col, c, d);
        assert(col.push(c).drop_last() =~= col);
        lemma_push_contains(d, ks.last(), c);
        assert(ks =~= d.push(ks.last()));
        if d.contains(c) && c == ks.last() {
            let i = choose|i: int| 0 <= i < d.len() && d[i] == c;
            lemma_sorted_distinct(ks, i, ks.len() - 1);
        }
    }
}

proof fn lemma_sum_counts_matching(col: Seq<Seq<char>>, ks: Seq<Seq<char>>)
    requires
        texts_sorted(ks),
    ensures
        sum_counts(col, ks) == matching_rows(col, ks).len(),
    decreases col.len(),
{
    if col.len() == 0 {
        lemma_sum_counts_empty(col, ks);
    } else {
        let d = col.drop_last();
        lemma_sum_counts_matching(d, ks);
        assert(d.push(col.last()) =~= col);
        lemma_sum_counts_push(d, col.last(), ks);
    }
}

proof fn lemma_sum_counts_empty(col: Seq<Seq<char>>, ks: Seq<Seq<char>>)
    requires
        col.len() == 0,
    ensures
        sum_counts(col, ks) == 0,
    decreases ks.len(),
{
    if ks.len() > 0 {
        lemma_sum_counts_empty(col, ks.drop_last());
    }
}

proof fn lemma_sum_counts_prefix(col: Seq<Seq<char>>, ks: Seq<Seq<char>>, j: int)
    requires
        0 <= j <= ks.len(),
    ensures
        sum_counts(col, ks.take(j)) <= sum_counts(col, ks),
        0 <= sum_counts(col, ks.take(j)),
    decreases ks.len(),
{
    if j == ks.len() {
        assert(ks.take(j) =~= ks);
        lemma_sum_counts_nonneg(col, ks);
    } else {
        assert(ks.drop_last().take(j) =~= ks.take(j));
        lemma_sum_counts_prefix(col, ks.drop_last(), j);
    }
}

proof fn lemma_sum_counts_nonneg(col: Seq<Seq<char>>, ks: Seq<Seq<char>>)
    ensures
        0 <= sum_counts(col, ks),
    decreases ks.len(),
{
    if ks.len() > 0 {
        lemma_sum_counts_nonneg(col, ks.drop_last());
    }
}

/// The distinct texts of `values`, in increasing order.
pub fn text_set(values: &Vec<String>) -> (keys: Vec<Vec<char>>)
    ensures
        texts_sorted(key_texts(keys@)),
        forall|t: Seq<char>| key_texts(keys@).contains(t) <==> values@.map_values(|s: String| s@).contains(t),
{
    let mut keys: Vec<Vec<char>> = Vec::new();
    let mut i: usize = 0;
    proof {
        assert(key_texts(keys@) =~= Seq::<Seq<char>>::empty());
    }
    while i < values.len()
        invariant
            0 <= i <= values@.len(),
            texts_sorted(key_texts(keys@)),
            forall|t: Seq<char>| key_texts(keys@).contains(t) <==> values@.take(i as int).map_values(|s: String| s@).contains(t),
        decreases values@.len() - i,
    {
        let c = chars_of(values[i].as_str());
        let ghost prev = values@.take(i as int).map_values(|s: String| s@);
        insert_text(&mut keys, c);
        i = i + 1;
        proof {
            assert(values@.take(i as int).map_values(|s: String| s@) =~= prev.push(values@[i - 1]@));
            assert forall|t: Seq<char>| key_texts(keys@).contains(t) <==> values@.take(i as int).map_values(|s: String| s@).contains(t) by {
                lemma_push_contains(prev, values@[i - 1]@, t);
            }
        }
    }
    assert(values@.take(i as int) =~= values@);
    keys
}

/// Number of rows whose value is one of the sorted distinct texts `keys`.
pub fn count_rows_for_selected_values(index: &UniqueColumnIndex, keys: &Vec<Vec<char>>) -> (n: usize)
    requires
        index.wf(),
        texts_sorted(key_texts(keys@)),
    ensures
        n == matching_rows(index.column(), key_texts(keys@)).len(),
{
    let ghost col = index.column();
    let ghost ks = key_texts(keys@);
    proof {
        index.lemma_wf_values();
        lemma_sum_counts_matching(col, ks);
        lemma_matching_rows(col, ks);
        assert(ks.take(0) =~= Seq::<Seq<char>>::empty());
    }
    let mut total: usize = 0;
    let mut j: usize = 0;
    while j < keys.len()
        invariant
            index.wf(),
            col == index.column(),
            ks == key_texts(keys@),
            values_describe(index.value_list(), col),
            col.len() <= u32::MAX,
            sum_counts(col, ks) == matching_rows(col, ks).len(),
            matching_rows(col, ks).len() <= col.len(),
            0 <= j <= keys@.len(),
            total == sum_counts(col, ks.take(j as int)),
        decreases keys@.len() - j,
    {
        proof {
            assert(ks.take(j + 1).drop_last() =~= ks.take(j as int));
            assert(ks.take(j + 1).last() == keys@[j as int]@);
            lemma_sum_counts_prefix(col, ks, j + 1);
        }
        match index.find_value(keys[j].as_slice()) {
            Ok(i) => {
                proof {
                    index.lemma_wf_keys();
                }
                total = total + index.value_count(i);
            },
            Err(_) => {
                proof {
                    assert(!col.contains(keys@[j as int]@));
                    crate::unique::lemma_rows_with_absent(col, keys@[j as int]@);
                }
            },
        }
        j = j + 1;
    }
    assert(ks.take(j as int) =~= ks);
    total
}


/// `key` is one of the sorted texts `keys`.
fn keys_contain(keys: &Vec<Vec<char>>, key: &[char]) -> (b: bool)
    requires
        texts_sorted(key_texts(keys@)),
    ensures
        b == key_texts(keys@).contains(key@),
{
    match find_text(keys, key) {
        Ok(i) => {
            proof {
                assert(key_texts(keys@)[i as int] == key@);
            }
            true
        },
        Err(p) => {
            proof {
                if key_texts(keys@).contains(key@) {
                    let j = choose|j: int| 0 <= j < keys@.len() && key_texts(keys@)[j] == key@;
                    assert(keys@[j]@ == key@);
                    lemma_text_lt_irreflexive(key@);
                }
            }
            false
        },
    }
}

/// Positions of the values whose text is one of the sorted texts `keys`.
fn selected_value_indices(index: &UniqueColumnIndex, keys: &Vec<Vec<char>>) -> (out: Vec<usize>)
    requires
        index.wf(),
        texts_sorted(key_texts(keys@)),
    ensures
        forall|k: int| 0 <= k < out@.len() ==> #[trigger] out@[k] < index.value_list().len(),
        forall|i: usize|
            i < index.value_list().len() ==> (#[trigger] out@.contains(i) <==> key_texts(keys@).contains(
                index.value_list()[i as int].value@,
            )),
{
    let ghost vl = index.value_list();
    let ghost ks = key_texts(keys@);
    let mut out: Vec<usize> = Vec::new();
    let mut j: usize = 0;
    proof {
        index.lemma_wf_values();
        assert(ks.take(0) =~= Seq::<Seq<char>>::empty());
    }
    while j < keys.len()
        invariant
            index.wf(),
            vl == index.value_list(),
            ks == key_texts(keys@),
            texts_sorted(value_texts(vl)),
            0 <= j <= keys@.len(),
            forall|k: int| 0 <= k < out@.len() ==> #[trigger] out@[k] < vl.len(),
            forall|i: usize| i < vl.len() ==> (#[trigger] out@.contains(i) <==> ks.take(j as int).contains(vl[i as int].value@)),
        decreases keys@.len() - j,
    {
        let ghost prev = out@;
        let ghost key = keys@[j as int]@;
        let r = index.find_value(keys[j].as_slice());
        proof {
            assert(ks.take(j + 1) =~= ks.take(j as int).push(key));
        }
        match r {
            Ok(i) => {
                out.push(i);
                proof {
                    assert forall|i2: usize| i2 < vl.len() implies (#[trigger] out@.contains(i2) <==> ks.take(j + 1).contains(
                        vl[i2 as int].value@,
                    )) by {
                        lemma_push_contains(prev, i, i2);
                        lemma_push_contains(ks.take(j as int), key, vl[i2 as int].value@);
                        if vl[i2 as int].value@ == key && i2 != i {
                            lemma_sorted_distinct(value_texts(vl), i2 as int, i as int);
                        }
                    }
                }
            },
            Err(_) => {
                proof {
                    assert forall|i2: usize| i2 < vl.len() implies (#[trigger] out@.contains(i2) <==> ks.take(j + 1).contains(
                        vl[i2 as int].value@,
                    )) by {
                        lemma_push_contains(ks.take(j as int), key, vl[i2 as int].value@);
                        assert(value_texts(vl)[i2 as int] == vl[i2 as int].value@);
                    }
                }
            },
        }
        j = j + 1;
    }
    assert(ks.take(j as int) =~= ks);
    out
}

/// Positions of the values whose text is not one of the sorted texts `keys`.
fn inverse_value_indices(index: &UniqueColumnIndex, keys: &Vec<Vec<char>>) -> (out: Vec<usize>)
    requires
        index.wf(),
        texts_sorted(key_texts(keys@)),
    ensures
        forall|k: int| 0 <= k < out@.len() ==> #[trigger] out@[k] < index.value_list().len(),
        forall|i: usize|
            i < index.value_list().len() ==> (#[trigger] out@.contains(i) <==> !key_texts(keys@).contains(
                index.value_list()[i as int].value@,
            )),
{
    let ghost vl = index.value_list();
    let ghost ks = key_texts(keys@);
    let n = index.value_len();
    let mut out: Vec<usize> = Vec::new();
    let mut i: usize = 0;
    while i < n
        invariant
            index.wf(),
            vl == index.value_list(),
            ks == key_texts(keys@),
            texts_sorted(ks),
            n == vl.len(),
            0 <= i <= n,
            forall|k: int| 0 <= k < out@.len() ==> #[trigger] out@[k] < i,
            forall|i2: usize| i2 < vl.len() ==> (#[trigger] out@.contains(i2) <==> (i2 < i && !ks.contains(vl[i2 as int].value@))),
        decreases n - i,
    {
        let ghost prev = out@;
        let text = index.value_chars(i);
        if !keys_contain(keys, text) {
            out.push(i);
        }
        proof {
            assert forall|i2: usize| i2 < vl.len() implies (#[trigger] out@.contains(i2) <==> (i2 < i + 1 && !ks.contains(
                vl[i2 as int].value@,
            ))) by {
                lemma_push_contains(prev, i, i2);
                if prev.contains(i2) {
                    let k = choose|k: int| 0 <= k < prev.len() && prev[k] == i2;
                }
            }
        }
        i = i + 1;
    }
    out
}

/// The value positions `idxs` stand for the values whose text is (when
/// `want`) or is not (otherwise) among `ks`; then a row holds one of those
/// values exactly when its text is (or is not) among `ks`.
proof fn lemma_value_rows(
    col: Seq<Seq<char>>,
    vl: Seq<UniqueValue>,
    idxs: Seq<usize>,
    ks: Seq<Seq<char>>,
    want: bool,
    r: usize,
)
    requires
        values_describe(vl, col),
        vl.len() <= usize::MAX,
        r < col.len(),
        forall|k: int| 0 <= k < idxs.len() ==> #[trigger] idxs[k] < vl.len(),
        forall|i: usize| i < vl.len() ==> (#[trigger] idxs.contains(i) <==> ks.contains(vl[i as int].value@) == want),
    ensures
        (exists|k: int| 0 <= k < idxs.len() && col[r as int] == vl[#[trigger] idxs[k] as int].value@) <==> (ks.contains(
            col[r as int],
        ) == want),
{
    if exists|k: int| 0 <= k < idxs.len() && col[r as int] == vl[#[trigger] idxs[k] as int].value@ {
        let k = choose|k: int| 0 <= k < idxs.len() && col[r as int] == vl[#[trigger] idxs[k] as int].value@;
        assert(idxs.contains(idxs[k]));
    }
    if ks.contains(col[r as int]) == want {
        assert(col.contains(col[r as int]));
        let i = choose|i: int| 0 <= i < vl.len() && value_texts(vl)[i] == col[r as int];
        assert(vl[i].value@ == col[r as int]);
        assert(idxs.contains(i as usize));
        let k = choose|k: int| 0 <= k < idxs.len() && idxs[k] == i as usize;
        assert(col[r as int] == vl[idxs[k] as int].value@);
    }
}

/// The rows holding one of the values `idxs[lo..hi]`, in increasing order.
fn rows_for_value_range(index: &UniqueColumnIndex, idxs: &Vec<usize>, lo: usize, hi: usize) -> (rows: Vec<usize>)
    requires
        index.wf(),
        lo <= hi <= idxs@.len(),
        forall|k: int| 0 <= k < idxs@.len() ==> #[trigger] idxs@[k] < index.value_list().len(),
    ensures
        sorted_strict(rows@),
        forall|r: usize|
            #[trigger] rows@.contains(r) <==> (r < index.column().len() && exists|k: int|
                lo <= k < hi && index.column()[r as int] == index.value_list()[#[trigger] idxs@[k] as int].value@),
    decreases hi - lo,
{
    let ghost col = index.column();
    let ghost vl = index.value_list();
    proof {
        index.lemma_wf_values();
    }
    if hi == lo {
        return Vec::new();
    }
    if hi - lo == 1 {
        let rows = index.rows_for_value_index(idxs[lo]);
        proof {
            let v = vl[idxs@[lo as int] as int].value@;
            lemma_rows_with(col, v);
            assert forall|r: usize|
                #[trigger] rows@.contains(r) <==> (r < col.len() && exists|k: int|
                    lo <= k < hi && col[r as int] == vl[#[trigger] idxs@[k] as int].value@) by {
                if r < col.len() && exists|k: int| lo <= k < hi && col[r as int] == vl[#[trigger] idxs@[k] as int].value@ {
                    let k = choose|k: int| lo <= k < hi && col[r as int] == vl[#[trigger] idxs@[k] as int].value@;
                    assert(k == lo);
                }
                if rows@.contains(r) {
                    assert(col[r as int] == vl[idxs@[lo as int] as int].value@);
                }
            }
        }
        return rows;
    }
    let mid = lo + (hi - lo) / 2;
    let left = rows_for_value_range(index, idxs, lo, mid);
    let right = rows_for_value_range(index, idxs, mid, hi);
    let rows = union_sorted_rows(left.as_slice(), right.as_slice());
    proof {
        assert forall|r: usize|
            #[trigger] rows@.contains(r) <==> (r < col.len() && exists|k: int|
                lo <= k < hi && col[r as int] == vl[#[trigger] idxs@[k] as int].value@) by {
            if r < col.len() && exists|k: int| lo <= k < hi && col[r as int] == vl[#[trigger] idxs@[k] as int].value@ {
                let k = choose|k: int| lo <= k < hi && col[r as int] == vl[#[trigger] idxs@[k] as int].value@;
                if k < mid {
                    assert(left@.contains(r));
                } else {
                    assert(right@.contains(r));
                }
            }
        }
    }
    rows
}

/// The rows holding one of the values `idxs`, in increasing order.
fn rows_for_value_indices(index: &UniqueColumnIndex, idxs: &Vec<usize>) -> (rows: Vec<usize>)
    requires
        index.wf(),
        forall|k: int| 0 <= k < idxs@.len() ==> #[trigger] idxs@[k] < index.value_list().len(),
    ensures
        sorted_strict(rows@),
        forall|r: usize|
            #[trigger] rows@.contains(r) <==> (r < index.column().len() && exists|k: int|
                0 <= k < idxs@.len() && index.column()[r as int] == index.value_list()[#[trigger] idxs@[k] as int].value@),
{
    rows_for_value_range(index, idxs, 0, idxs.len())
}


/// Row `r` of `col` is kept by `filter`: its text is listed, for `Include`,
/// or is not, for `Exclude`.
pub open spec fn passes(filter: UniqueFilter, col: Seq<Seq<char>>, r: usize) -> bool {
    match filter {
        UniqueFilter::Include(_) => filter.listed().contains(col[r as int]),
        UniqueFilter::Exclude(_) => !filter.listed().contains(col[r as int]),
    }
}

/// Number of rows of `col` whose text `filter` lists.
pub open spec fn listed_rows(filter: UniqueFilter, col: Seq<Seq<char>>) -> int {
    matching_rows(col, filter.listed()).len() as int
}

/// The rows of the indexed column that `filter` keeps. Of the rows kept and
/// the rows left out, the list built is of the side with fewer rows (the
/// kept rows on a tie).
pub fn rows_for_filter(index: &UniqueColumnIndex, filter: &UniqueFilter) -> (out: RowSelection)
    requires
        index.wf(),
    ensures
        out.wf(),
        out.rows_below_total(),
        out.total() == index.column().len(),
        !(out is All),
        forall|r: usize| #[trigger] out.contains_row(r) <==> (r < index.column().len() && passes(*filter, index.column(), r)),
        (*filter is Include) ==> (out is AllExcept <==> sat_sub(
            out.total(),
            listed_rows(*filter, index.column()),
        ) < listed_rows(*filter, index.column())),
        (*filter is Exclude) ==> (out is Rows <==> sat_sub(
            out.total(),
            listed_rows(*filter, index.column()),
        ) < listed_rows(*filter, index.column())),
{
    let ghost col = index.column();
    let ghost vl = index.value_list();
    let ghost listed = filter.listed();
    proof {
        index.lemma_wf_values();
    }
    let (values, keeps_listed) = match filter {
        UniqueFilter::Include(v) => (v, true),
        UniqueFilter::Exclude(v) => (v, false),
    };
    let keys = text_set(values);
    let ghost ks = key_texts(keys@);
    let listed_count = count_rows_for_selected_values(index, &keys);
    let total = index.total_rows();
    proof {
        assert(values@.map_values(|s: String| s@) == listed);
        assert(ks =~~= ks);
        lemma_matching_rows(col, ks);
        lemma_matching_same(col, ks, listed);
    }
    let rest = if listed_count <= total { total - listed_count } else { 0 };
    // The list built is of the rows whose text is listed unless those are
    // the more numerous side.
    let list_listed = rest >= listed_count;
    let idxs = if list_listed {
        selected_value_indices(index, &keys)
    } else {
        inverse_value_indices(index, &keys)
    };
    let rows = rows_for_value_indices(index, &idxs);
    proof {
        assert forall|r: usize| #[trigger] rows@.contains(r) <==> (r < col.len() && ks.contains(col[r as int]) == list_listed) by {
            if r < col.len() {
                lemma_value_rows(col, vl, idxs@, ks, list_listed, r);
            }
        }
        assert forall|r: usize| rows@.contains(r) implies r < total by {}
        assert forall|i: int| 0 <= i < rows@.len() implies #[trigger] rows@[i] < total by {
            assert(rows@.contains(rows@[i]));
        }
    }
    if list_listed == keeps_listed {
        RowSelection::Rows { total, rows }
    } else {
        RowSelection::AllExcept { total, excluded: rows }
    }
}

/// Texts listed in `a` are those listed in `b`: the rows holding one are
/// the same.
proof fn lemma_matching_same(col: Seq<Seq<char>>, a: Seq<Seq<char>>, b: Seq<Seq<char>>)
    requires
        forall|t: Seq<char>| a.contains(t) <==> b.contains(t),
    ensures
        matching_rows(col, a) == matching_rows(col, b),
    decreases col.len(),
{
    if col.len() > 0 {
        lemma_matching_same(col.drop_last(), a, b);
    }
}

/// How many rows `filter` keeps, by the index.
pub fn estimated_rows_for_filter(index: &UniqueColumnIndex, filter: &UniqueFilter) -> (n: usize)
    requires
        index.wf(),
    ensures
        *filter is Include ==> n == listed_rows(*filter, index.column()),
        *filter is Exclude ==> n == index.column().len() - listed_rows(*filter, index.column()),
{
    let ghost col = index.column();
    let ghost listed = filter.listed();
    proof {
        index.lemma_wf_values();
    }
    let (values, keeps_listed) = match filter {
        UniqueFilter::Include(v) => (v, true),
        UniqueFilter::Exclude(v) => (v, false),
    };
    let keys = text_set(values);
    let listed_count = count_rows_for_selected_values(index, &keys);
    proof {
        assert(values@.map_values(|s: String| s@) == listed);
        lemma_matching_rows(col, key_texts(keys@));
        lemma_matching_same(col, key_texts(keys@), listed);
    }
    if keeps_listed {
        listed_count
    } else {
        let total = index.total_rows();
        total - listed_count
    }
}


/// `filter` holds a filter on column `c` that lists at least one value.
pub open spec fn active(filters: Map<usize, UniqueFilter>, c: usize) -> bool {
    filters.contains_key(c) && !filters[c].is_empty()
}

/// The rows of `col` that `filter` keeps are listed by `rows_for_filter`
/// (rather than the rows it leaves out).
pub open spec fn lists_kept(filter: UniqueFilter, col: Seq<Seq<char>>) -> bool {
    let listed = listed_rows(filter, col);
    let fewer = sat_sub(col.len() as usize, listed) < listed;
    match filter {
        UniqueFilter::Include(_) => !fewer,
        UniqueFilter::Exclude(_) => fewer,
    }
}

/// Row `r` passes every active filter of `filters` on the columns of
/// `indexes`.
pub open spec fn passes_all(filters: Map<usize, UniqueFilter>, indexes: Map<usize, Arc<UniqueColumnIndex>>, r: usize) -> bool {
    forall|c: usize| active(filters, c) ==> #[trigger] passes(filters[c], indexes[c].column(), r)
}

/// Some active filter lists the rows it keeps.
pub open spec fn some_list_kept(filters: Map<usize, UniqueFilter>, indexes: Map<usize, Arc<UniqueColumnIndex>>) -> bool {
    exists|c: usize| active(filters, c) && #[trigger] lists_kept(filters[c], indexes[c].column())
}

/// How many rows below `n` satisfy `p`.
pub open spec fn count_passing(n: nat, p: spec_fn(usize) -> bool) -> nat
    decreases n,
{
    if n == 0 {
        0
    } else {
        count_passing((n - 1) as nat, p) + (if p((n - 1) as usize) { 1nat } else { 0nat })
    }
}

/// The form in which the rows passing the filters come back, out of `n`
/// rows of which `k` pass: a list of the passing rows or of the others, the
/// shorter one, or all rows; `listed_kept` says whether the combination was
/// built from a list of kept rows.
pub open spec fn filter_form(fr: FilterRows, n: usize, k: nat, listed_kept: bool) -> bool {
    &&& fr matches FilterRows::All(t) ==> t == n
    &&& fr matches FilterRows::AllExcept { total, excluded } ==> total == n && forall|i: int|
        0 <= i < excluded@.len() ==> #[trigger] excluded@[i] < n
    &&& if listed_kept {
        if k == 0 || n - k >= k {
            fr is Rows
        } else {
            fr is AllExcept
        }
    } else {
        if k == n {
            fr is All
        } else if n - k <= k {
            fr is AllExcept
        } else {
            fr is Rows
        }
    }
}

/// A strictly increasing list of rows below `n` that holds exactly the rows
/// satisfying `p` has one entry per such row.
proof fn lemma_sorted_len_count(s: Seq<usize>, n: nat, p: spec_fn(usize) -> bool)
    requires
        n <= usize::MAX,
        sorted_strict(s),
        forall|i: int| 0 <= i < s.len() ==> #[trigger] s[i] < n,
        forall|r: usize| r < n ==> (s.contains(r) <==> p(r)),
    ensures
        s.len() == count_passing(n, p),
    decreases n,
{
    if n == 0 {
        if s.len() > 0 {
            assert(s[0] < 0);
        }
    } else {
        let m = (n - 1) as usize;
        if p(m) {
            assert(s.contains(m));
            let j = choose|j: int| 0 <= j < s.len() && s[j] == m;
            if j < s.len() - 1 {
                assert(s[j] < s[s.len() - 1]);
                assert(s[s.len() - 1] < n);
            }
            let d = s.drop_last();
            assert forall|i: int| 0 <= i < d.len() implies #[trigger] d[i] < m by {
                assert(s[i] < s[j]);
            }
            assert forall|r: usize| r < m implies (d.contains(r) <==> p(r)) by {
                if s.contains(r) {
                    let q = choose|q: int| 0 <= q < s.len() && s[q] == r;
                    assert(q != j);
                    assert(d[q] == r);
                }
                if d.contains(r) {
                    let q = choose|q: int| 0 <= q < d.len() && d[q] == r;
                    assert(s[q] == r);
                }
            }
            lemma_sorted_len_count(d, m as nat, p);
        } else {
            assert forall|i: int| 0 <= i < s.len() implies #[trigger] s[i] < m by {
                assert(s.contains(s[i]));
                assert(s[i] != m);
            }
            lemma_sorted_len_count(s, m as nat, p);
        }
    }
}

/// Below `n`, the rows that satisfy `p` and those that satisfy `q`, its
/// negation, make up all `n` rows.
proof fn lemma_count_split(n: nat, p: spec_fn(usize) -> bool, q: spec_fn(usize) -> bool)
    requires
        forall|r: usize| #[trigger] q(r) == !p(r),
    ensures
        count_passing(n, p) + count_passing(n, q) == n,
    decreases n,
{
    if n > 0 {
        lemma_count_split((n - 1) as nat, p, q);
        assert(q((n - 1) as usize) == !p((n - 1) as usize));
    }
}

/// When every row satisfies `p`, all `n` rows below `n` do.
proof fn lemma_count_all(n: nat, p: spec_fn(usize) -> bool)
    requires
        forall|r: usize| #[trigger] p(r),
    ensures
        count_passing(n, p) == n,
    decreases n,
{
    if n > 0 {
        lemma_count_all((n - 1) as nat, p);
        assert(p((n - 1) as usize));
    }
}

/// At most `n` of the rows below `n` satisfy `p`.
proof fn lemma_count_at_most(n: nat, p: spec_fn(usize) -> bool)
    ensures
        count_passing(n, p) <= n,
    decreases n,
{
    if n > 0 {
        lemma_count_at_most((n - 1) as nat, p);
    }
}

/// The columns with an active filter.
pub open spec fn active_columns(filters: Map<usize, UniqueFilter>) -> Set<usize> {
    filters.dom().filter(|c: usize| active(filters, c))
}

/// No two entries of `order` are on the same column.
pub open spec fn columns_distinct(order: Seq<(usize, &UniqueFilter, usize)>) -> bool {
    forall|i: int, j: int| 0 <= i < order.len() && 0 <= j < order.len() && i != j ==> order[i].0 != order[j].0
}

proof fn lemma_insert_distinct(order: Seq<(usize, &UniqueFilter, usize)>, j: int, item: (usize, &UniqueFilter, usize))
    requires
        columns_distinct(order),
        0 <= j <= order.len(),
        forall|k: int| 0 <= k < order.len() ==> order[k].0 != item.0,
    ensures
        columns_distinct(order.insert(j, item)),
{
    let o = order.insert(j, item);
    assert forall|a: int, b: int| 0 <= a < o.len() && 0 <= b < o.len() && a != b implies o[a].0 != o[b].0 by {
        let ia = if a < j { a } else { a - 1 };
        let ib = if b < j { b } else { b - 1 };
        if a != j && b != j {
            assert(o[a] == order[ia] && o[b] == order[ib]);
        } else if a == j {
            assert(o[b] == order[ib]);
        } else {
            assert(o[a] == order[ia]);
        }
    }
}

/// The message given when a filtered column has no unique-value index.
pub open spec fn not_indexed_message(col: usize) -> Seq<char> {
    column_label(col as nat) + seq![
        ' ', 'u', 'n', 'i', 'q', 'u', 'e', ' ', 'v', 'a', 'l', 'u', 'e', 's', ' ', 'a', 'r', 'e', ' ',
        'n', 'o', 't', ' ', 'i', 'n', 'd', 'e', 'x', 'e', 'd',
    ]
}

fn not_indexed_error(col: usize) -> (msg: String)
    ensures
        msg@ == not_indexed_message(col),
{
    let mut chars: Vec<char> = vec!['C', 'o', 'l', 'u', 'm', 'n', ' '];
    push_decimal(&mut chars, col);
    let mut tail: Vec<char> = vec![
        ' ', 'u', 'n', 'i', 'q', 'u', 'e', ' ', 'v', 'a', 'l', 'u', 'e', 's', ' ', 'a', 'r', 'e', ' ',
        'n', 'o', 't', ' ', 'i', 'n', 'd', 'e', 'x', 'e', 'd',
    ];
    chars.append(&mut tail);
    string_from_chars(chars.as_slice())
}

/// The estimates (third components) never decrease along `order`.
pub open spec fn estimates_sorted(order: Seq<(usize, &UniqueFilter, usize)>) -> bool {
    forall|i: int, j: int| 0 <= i < j < order.len() ==> order[i].2 <= order[j].2
}

/// Inserts `item` into `order`, after every item whose estimate is not larger.
fn insert_by_estimate<'a>(order: &mut Vec<(usize, &'a UniqueFilter, usize)>, item: (usize, &'a UniqueFilter, usize))
    requires
        estimates_sorted(old(order)@),
    ensures
        estimates_sorted(final(order)@),
        final(order)@.len() == old(order)@.len() + 1,
        forall|e: (usize, &UniqueFilter, usize)| #[trigger] final(order)@.contains(e) <==> (old(order)@.contains(e) || e == item),
        exists|j: int| 0 <= j <= old(order)@.len() && final(order)@ == old(order)@.insert(j, item),
{
    let ghost before = order@;
    let mut j: usize = order.len();
    while j > 0 && order[j - 1].2 > item.2
        invariant
            order@ == before,
            0 <= j <= before.len(),
            forall|k: int| j <= k < before.len() ==> before[k].2 > item.2,
        decreases j,
    {
        j = j - 1;
    }
    order.insert(j, item);
    proof {
        let after = order@;
        assert(after =~= before.insert(j as int, item));
        assert forall|e: (usize, &UniqueFilter, usize)| #[trigger] after.contains(e) <==> (before.contains(e) || e == item) by {
            if after.contains(e) {
                let k = choose|k: int| 0 <= k < after.len() && after[k] == e;
                if k < j {
                    assert(before[k] == e);
                } else if k > j {
                    assert(before[k - 1] == e);
                }
            }
            if before.contains(e) {
                let k = choose|k: int| 0 <= k < before.len() && before[k] == e;
                if k < j {
                    assert(after[k] == e);
                } else {
                    assert(after[k + 1] == e);
                }
            }
            if e == item {
                assert(after[j as int] == e);
            }
        }
    }
}


/// The active filters, each with its column and the rows it is estimated
/// to keep, fewest first.
fn filters_by_estimate<'a>(
    filters: &'a HashMap<usize, UniqueFilter>,
    unique_indexes: &HashMap<usize, Arc<UniqueColumnIndex>>,
) -> (order: Vec<(usize, &'a UniqueFilter, usize)>)
    requires
        forall|c: usize| #[trigger] unique_indexes@.contains_key(c) ==> unique_indexes@[c].wf(),
    ensures
        estimates_sorted(order@),
        columns_distinct(order@),
        forall|j: int| 0 <= j < order@.len() ==> active(filters@, #[trigger] order@[j].0) && *order@[j].1 == filters@[order@[j].0],
        forall|c: usize| active(filters@, c) ==> exists|j: int| 0 <= j < order@.len() && order@[j].0 == c,
        order@.len() == active_columns(filters@).len(),
{
    broadcast use vstd::std_specs::hash::group_hash_axioms;

    let ghost fm = filters@;
    let ghost im = unique_indexes@;
    let ghost s = spec_hash_map_iter(filters).remaining();
    let mut order: Vec<(usize, &UniqueFilter, usize)> = Vec::new();
    let ghost mut seen: int = 0;
    let entries = filters.iter();
    proof {
        assert(s.no_duplicates());
    }
    for (col, filter) in it: entries
        invariant
            it.seq() == s,
            s == spec_hash_map_iter(filters).remaining(),
            s.no_duplicates(),
            seen == it.index(),
            columns_distinct(order@),
            forall|j: int| 0 <= j < order@.len() ==> exists|q: int| 0 <= q < seen && #[trigger] order@[j].0 == *s[q].0,
            fm == filters@,
            im == unique_indexes@,
            forall|c: usize| #[trigger] im.contains_key(c) ==> im[c].wf(),
            estimates_sorted(order@),
            forall|j: int| 0 <= j < order@.len() ==> active(fm, #[trigger] order@[j].0) && *order@[j].1 == fm[order@[j].0],
            forall|k: int|
                0 <= k < seen && active(fm, *#[trigger] s[k].0) ==> exists|j: int| 0 <= j < order@.len() && order@[j].0 == *s[k].0,
    {
        proof {
            assert(fm.contains_key(*s[seen].0) && fm[*s[seen].0] == *s[seen].1);
        }
        if !lists_nothing(filter) {
            let estimate = match unique_indexes.get(col) {
                Some(index) => estimated_rows_for_filter(index, filter),
                None => usize::MAX,
            };
            let ghost before = order@;
            let item = (*col, filter, estimate);
            proof {
                assert forall|k: int| 0 <= k < before.len() implies before[k].0 != item.0 by {
                    let q = choose|q: int| 0 <= q < seen && #[trigger] before[k].0 == *s[q].0;
                    assert(fm[*s[q].0] == *s[q].1);
                    if before[k].0 == item.0 {
                        assert(s[q] == s[seen]);
                    }
                }
            }
            insert_by_estimate(&mut order, item);
            proof {
                let jj = choose|jj: int| 0 <= jj <= before.len() && order@ == before.insert(jj, item);
                lemma_insert_distinct(before, jj, item);
                assert forall|j: int| 0 <= j < order@.len() implies exists|q: int| 0 <= q < seen + 1 && #[trigger] order@[j].0
                    == *s[q].0 by {
                    if j < jj {
                        assert(order@[j] == before[j]);
                        let q = choose|q: int| 0 <= q < seen && #[trigger] before[j].0 == *s[q].0;
                    } else if j > jj {
                        assert(order@[j] == before[j - 1]);
                        let q = choose|q: int| 0 <= q < seen && #[trigger] before[j - 1].0 == *s[q].0;
                    } else {
                        assert(order@[j].0 == *s[seen].0);
                    }
                }
            }
            proof {
                assert(order@.contains(item));
                assert forall|j: int| 0 <= j < order@.len() implies active(fm, #[trigger] order@[j].0) && *order@[j].1 == fm[order@[j].0] by {
                    assert(order@.contains(order@[j]));
                    if before.contains(order@[j]) {
                        let q = choose|q: int| 0 <= q < before.len() && before[q] == order@[j];
                    }
                }
                assert forall|k: int|
                    0 <= k < seen + 1 && active(fm, *#[trigger] s[k].0) implies exists|j: int| 0 <= j < order@.len() && order@[j].0 == *s[k].0 by {
                    if k < seen {
                        let j = choose|j: int| 0 <= j < before.len() && before[j].0 == *s[k].0;
                        assert(order@.contains(before[j]));
                        let j2 = choose|j2: int| 0 <= j2 < order@.len() && order@[j2] == before[j];
                    } else {
                        let j2 = choose|j2: int| 0 <= j2 < order@.len() && order@[j2] == item;
                    }
                }
            }
        }
        proof {
            seen = seen + 1;
        }
    }
    proof {
        assert forall|c: usize| active(fm, c) implies exists|j: int| 0 <= j < order@.len() && order@[j].0 == c by {
            assert(s.contains((&c, &fm[c])));
            let k = choose|k: int| 0 <= k < s.len() && s[k] == (&c, &fm[c]);
            assert(active(fm, *s[k].0));
        }
        if order@.len() > 0 {
            assert(active(fm, order@[0].0));
        }
    }
    proof {
        let cs = order@.map_values(|e: (usize, &UniqueFilter, usize)| e.0);
        assert(cs.no_duplicates()) by {
            assert forall|i: int, j: int| 0 <= i < cs.len() && 0 <= j < cs.len() && i != j implies cs[i] != cs[j] by {
                assert(cs[i] == order@[i].0 && cs[j] == order@[j].0);
            }
        }
        assert(cs.to_set() =~= active_columns(fm)) by {
            assert forall|c: usize| cs.to_set().contains(c) <==> active_columns(fm).contains(c) by {
                if cs.to_set().contains(c) {
                    let j = choose|j: int| 0 <= j < cs.len() && cs[j] == c;
                    assert(order@[j].0 == c);
                }
                if active_columns(fm).contains(c) {
                    let j = choose|j: int| 0 <= j < order@.len() && order@[j].0 == c;
                    assert(cs[j] == c);
                }
            }
        }
        cs.unique_seq_to_set();
    }
    order
}

/// The filter lists no value.
fn lists_nothing(filter: &UniqueFilter) -> (b: bool)
    ensures
        b == filter.is_empty(),
{
    match filter {
        UniqueFilter::Include(v) => v.len() == 0,
        UniqueFilter::Exclude(v) => v.len() == 0,
    }
}

/// Combines the filters on indexed columns into the rows that pass them
/// all (below `total_rows`), in the most compact form.
///
/// Filters that list no value are left out; with none left, every row
/// passes. The others are applied in order of the rows they keep, fewest
/// first, and a filter on a column without an index ends the work with an
/// error. After each filter `on_progress(filters applied, filters)` is
/// called; when it returns true the work stops with no rows.
pub fn filter_from_unique_indexes<F>(
    total_rows: usize,
    unique_indexes: &HashMap<usize, Arc<UniqueColumnIndex>>,
    filters: &HashMap<usize, UniqueFilter>,
    on_progress: F,
) -> (res: Result<FilterRows, String>) where F: Fn(usize, usize) -> bool
    requires
        forall|c: usize| #[trigger] unique_indexes@.contains_key(c) ==> unique_indexes@[c].wf(),
        (exists|c: usize| active(filters@, c)) ==> forall|done: usize, total: usize|
            total == active_columns(filters@).len() && 1 <= done <= total ==> #[trigger] on_progress.requires((done, total)),
    ensures
        res matches Ok(fr) ==> fr.wf(),
        ({
            &&& exists|c: usize| active(filters@, c)
            &&& forall|c: usize| active(filters@, c) ==> unique_indexes@.contains_key(c)
            &&& forall|t: usize, stop: bool| on_progress.ensures((1usize, t), stop) ==> stop
        }) ==> (res matches Ok(FilterRows::Rows(v)) && v@.len() == 0),
        (forall|c: usize|
            active(filters@, c) ==> unique_indexes@.contains_key(c) && unique_indexes@[c].column().len() == total_rows)
            ==> (res matches Ok(fr) && {
            ||| filter_form(
                fr,
                total_rows,
                count_passing(total_rows as nat, |r: usize| passes_all(filters@, unique_indexes@, r)),
                some_list_kept(filters@, unique_indexes@),
            ) && forall|r: usize| #[trigger] fr.contains_row(r) <==> (r < total_rows && passes_all(filters@, unique_indexes@, r))
            ||| fr matches FilterRows::Rows(v) && v@.len() == 0 && exists|i: usize|
                1 <= i <= active_columns(filters@).len() && #[trigger] on_progress.ensures(
                    (i, active_columns(filters@).len() as usize),
                    true,
                )
        }),
        (forall|c: usize| !active(filters@, c)) ==> (res matches Ok(fr) && fr == FilterRows::All(total_rows)),
        res matches Err(msg) ==> exists|c: usize|
            active(filters@, c) && !unique_indexes@.contains_key(c) && msg@ == not_indexed_message(c),
        (forall|done: usize, total: usize, stop: bool| on_progress.ensures((done, total), stop) ==> !stop) ==> {
            &&& res is Err <==> exists|c: usize| active(filters@, c) && !unique_indexes@.contains_key(c)
            &&& (forall|c: usize|
                active(filters@, c) ==> unique_indexes@.contains_key(c) && unique_indexes@[c].column().len()
                    == total_rows) ==> (res matches Ok(fr) && forall|r: usize|
                #[trigger] fr.contains_row(r) <==> (r < total_rows && forall|c: usize|
                    active(filters@, c) ==> passes(filters@[c], unique_indexes@[c].column(), r)))
        },
{
    broadcast use vstd::std_specs::hash::group_hash_axioms;

    let ghost fm = filters@;
    let ghost im = unique_indexes@;
    let order = filters_by_estimate(filters, unique_indexes);
    let ghost matched = forall|c: usize| active(fm, c) && im.contains_key(c) ==> im[c].column().len() == total_rows;
    proof {
        if order@.len() > 0 {
            assert(active(fm, order@[0].0));
        }
    }
    if order.len() == 0 {
        proof {
            assert forall|c: usize| !active(fm, c) by {
                if active(fm, c) {
                    let j = choose|j: int| 0 <= j < order@.len() && order@[j].0 == c;
                }
            }
            let p = |r: usize| passes_all(fm, im, r);
            assert forall|r: usize| #[trigger] p(r) by {}
            lemma_count_all(total_rows as nat, p);
        }
        return Ok(FilterRows::All(total_rows));
    }
    let ghost first_stops = (forall|c: usize| active(fm, c) ==> im.contains_key(c)) && (forall|t: usize, stop: bool|
        on_progress.ensures((1usize, t), stop) ==> stop);
    let total = order.len();
    let mut selection = RowSelection::All(total_rows);
    let mut k: usize = 0;
    while k < total
        invariant
            total == order@.len(),
            0 <= k <= total,
            fm == filters@,
            im == unique_indexes@,
            forall|c: usize| #[trigger] im.contains_key(c) ==> im[c].wf(),
            forall|done: usize, t: usize| t == total && 1 <= done <= t ==> #[trigger] on_progress.requires((done, t)),
            total == active_columns(fm).len(),
            forall|j: int| 0 <= j < order@.len() ==> active(fm, #[trigger] order@[j].0) && *order@[j].1 == fm[order@[j].0],
            first_stops == ((forall|c: usize| active(fm, c) ==> im.contains_key(c)) && (forall|t: usize, stop: bool|
                on_progress.ensures((1usize, t), stop) ==> stop)),
            first_stops ==> k == 0,
            k == 0 ==> selection == RowSelection::All(total_rows),
            k > 0 ==> !(selection is All),
            selection is Rows <==> exists|j: int| 0 <= j < k && #[trigger] lists_kept(*order@[j].1, im[order@[j].0].column()),
            forall|j: int| 0 <= j < k ==> im.contains_key(#[trigger] order@[j].0),
            matched == (forall|c: usize| active(fm, c) && im.contains_key(c) ==> im[c].column().len() == total_rows),
            selection.wf(),
            matched ==> selection.total() == total_rows,
            matched ==> selection.rows_below_total(),
            matched ==> forall|r: usize|
                #[trigger] selection.contains_row(r) <==> (r < total_rows && forall|j: int|
                    0 <= j < k ==> passes(*order@[j].1, im[order@[j].0].column(), r)),
        decreases total - k,
    {
        let (col, filter, _) = order[k];
        proof {
            assert(active(fm, order@[k as int].0));
        }
        let index = match unique_indexes.get(&col) {
            Some(index) => index,
            None => {
                return Err(not_indexed_error(col));
            },
        };
        let ghost prev = selection;
        let rows = rows_for_filter(index, filter);
        selection = selection.intersect(rows);
        proof {
            index.lemma_wf_values();
            assert(rows is Rows <==> lists_kept(*filter, index.column()));
            assert(*filter == *order@[k as int].1 && col == order@[k as int].0);
            if selection is Rows {
                if !(prev is Rows) {
                    assert(lists_kept(*order@[k as int].1, im[order@[k as int].0].column()));
                } else {
                    let j = choose|j: int| 0 <= j < k && #[trigger] lists_kept(*order@[j].1, im[order@[j].0].column());
                    assert(0 <= j < k + 1 && lists_kept(*order@[j].1, im[order@[j].0].column()));
                }
            } else {
                assert forall|j: int| 0 <= j < k + 1 implies !#[trigger] lists_kept(*order@[j].1, im[order@[j].0].column()) by {
                    if j == k {
                    } else {
                        assert(!(prev is Rows));
                    }
                }
            }
        }
        proof {
            if matched {
                assert forall|r: usize|
                    #[trigger] selection.contains_row(r) <==> (r < total_rows && forall|j: int|
                        0 <= j < k + 1 ==> passes(*order@[j].1, im[order@[j].0].column(), r)) by {
                    assert(prev.contains_row(r) <==> (r < total_rows && forall|j: int|
                        0 <= j < k ==> passes(*order@[j].1, im[order@[j].0].column(), r)));
                    assert(rows.contains_row(r) <==> (r < total_rows && passes(*order@[k as int].1, im[order@[k as int].0].column(), r)));
                }
            }
        }
        k = k + 1;
        if on_progress(k, total) {
            proof {
                assert(1 <= k <= active_columns(fm).len() && on_progress.ensures((k, active_columns(fm).len() as usize), true));
            }
            return Ok(FilterRows::Rows(Vec::new()));
        }
    }
    let ghost sel = selection;
    let out = selection.into_filter_rows();
    proof {
        let p = |r: usize| passes_all(fm, im, r);
        let q = |r: usize| !passes_all(fm, im, r);
        let kc = count_passing(total_rows as nat, p);
        if matched && (forall|c: usize| active(fm, c) ==> im.contains_key(c)) {
            assert forall|r: usize| #[trigger] sel.contains_row(r) <==> (r < total_rows && p(r)) by {
                if r < total_rows && passes_all(fm, im, r) {
                    assert forall|j: int| 0 <= j < k implies passes(*order@[j].1, im[order@[j].0].column(), r) by {
                        assert(active(fm, order@[j].0));
                    }
                }
                if sel.contains_row(r) {
                    assert forall|c: usize| active(fm, c) implies #[trigger] passes(fm[c], im[c].column(), r) by {
                        let j = choose|j: int| 0 <= j < order@.len() && order@[j].0 == c;
                    }
                }
            }
            lemma_count_at_most(total_rows as nat, p);
            lemma_count_split(total_rows as nat, p, q);
            match sel {
                RowSelection::Rows { total, rows } => {
                    assert forall|r: usize| r < total_rows implies (rows@.contains(r) <==> p(r)) by {
                        assert(sel.contains_row(r) == rows@.contains(r));
                    }
                    lemma_sorted_len_count(rows@, total_rows as nat, p);
                },
                RowSelection::AllExcept { total, excluded } => {
                    assert forall|r: usize| r < total_rows implies (excluded@.contains(r) <==> q(r)) by {
                        assert(sel.contains_row(r) == (r < total && !excluded@.contains(r)));
                    }
                    lemma_sorted_len_count(excluded@, total_rows as nat, q);
                },
                RowSelection::All(_) => {},
            }
            assert(some_list_kept(fm, im) <==> sel is Rows) by {
                if some_list_kept(fm, im) {
                    let c = choose|c: usize| active(fm, c) && #[trigger] lists_kept(fm[c], im[c].column());
                    let j = choose|j: int| 0 <= j < order@.len() && order@[j].0 == c;
                    assert(lists_kept(*order@[j].1, im[order@[j].0].column()));
                }
                if sel is Rows {
                    let j = choose|j: int| 0 <= j < k && #[trigger] lists_kept(*order@[j].1, im[order@[j].0].column());
                    assert(active(fm, order@[j].0));
                    assert(lists_kept(fm[order@[j].0], im[order@[j].0].column()));
                }
            }
        }
    }
    proof {
        if matched {
            assert forall|r: usize| #[trigger] out.contains_row(r) <==> (r < total_rows && forall|c: usize|
                active(fm, c) ==> passes(fm[c], im[c].column(), r)) by {
                if r < total_rows && forall|c: usize| active(fm, c) ==> passes(fm[c], im[c].column(), r) {
                    assert forall|j: int| 0 <= j < k implies passes(*order@[j].1, im[order@[j].0].column(), r) by {
                        assert(active(fm, order@[j].0));
                    }
                }
                if out.contains_row(r) {
                    assert forall|c: usize| active(fm, c) implies passes(fm[c], im[c].column(), r) by {
                        let j = choose|j: int| 0 <= j < order@.len() && order@[j].0 == c;
                    }
                }
            }
        }
    }
    Ok(out)
}


/// Keeping the rows whose value is listed and leaving out the rows whose
/// value is listed split the rows: every row is kept by exactly one of the
/// two filters on the same values.
pub proof fn lemma_keep_and_leave_out_split(values: Vec<String>, col: Seq<Seq<char>>, r: usize)
    ensures
        passes(UniqueFilter::Include(values), col, r) != passes(UniqueFilter::Exclude(values), col, r),
{
}


/// Sum of the row counts of `vs`.
pub open spec fn counts_total(vs: Seq<UniqueValue>) -> int
    decreases vs.len(),
{
    if vs.len() == 0 {
        0
    } else {
        counts_total(vs.drop_last()) + vs.last().count
    }
}

proof fn lemma_counts_total_sum(vs: Seq<UniqueValue>, col: Seq<Seq<char>>)
    requires
        forall|i: int| 0 <= i < vs.len() ==> #[trigger] vs[i].count == rows_with(col, vs[i].value@).len(),
    ensures
        counts_total(vs) == sum_counts(col, value_texts(vs)),
    decreases vs.len(),
{
    if vs.len() > 0 {
        let d = vs.drop_last();
        assert forall|i: int| 0 <= i < d.len() implies #[trigger] d[i].count == rows_with(col, d[i].value@).len() by {
            assert(d[i] == vs[i]);
        }
        lemma_counts_total_sum(d, col);
        assert(value_texts(vs).drop_last() =~= value_texts(d));
        assert(value_texts(vs).last() == vs.last().value@);
    }
}

/// Row `r` is in the row list of one of the values of `index`.
pub open spec fn row_listed(index: &UniqueColumnIndex, r: usize) -> bool {
    exists|i: int| 0 <= i < index.value_list().len() && #[trigger] rows_with(index.column(), index.value_list()[i].value@).contains(r)
}

/// The value lists of an index split its rows: the counts add up to the
/// number of rows, and every row holds exactly one listed value.
pub proof fn lemma_values_partition_rows(index: &UniqueColumnIndex)
    requires
        index.wf(),
    ensures
        counts_total(index.value_list()) == index.column().len(),
        forall|r: usize| r < index.column().len() ==> #[trigger] row_listed(index, r),
        forall|r: usize, i: int, j: int|
            0 <= i < index.value_list().len() && 0 <= j < index.value_list().len() && #[trigger] rows_with(
                index.column(),
                index.value_list()[i].value@,
            ).contains(r) && #[trigger] rows_with(index.column(), index.value_list()[j].value@).contains(r) ==> i == j,
{
    index.lemma_wf_values();
    let col = index.column();
    let vl = index.value_list();
    let ks = value_texts(vl);
    lemma_counts_total_sum(vl, col);
    lemma_sum_counts_matching(col, ks);
    lemma_matching_rows(col, ks);
    let m = matching_rows(col, ks);
    let all = |r: usize| true;
    assert forall|r: usize| r < col.len() implies (m.contains(r) <==> all(r)) by {
        assert(col.contains(col[r as int]));
    }
    lemma_sorted_len_count(m, col.len(), all);
    lemma_count_all(col.len(), all);
    assert forall|r: usize| r < col.len() implies #[trigger] row_listed(index, r) by {
        assert(col.contains(col[r as int]));
        assert(ks.contains(col[r as int]));
        let i = choose|i: int| 0 <= i < ks.len() && ks[i] == col[r as int];
        lemma_rows_with(col, vl[i].value@);
    }
    assert forall|r: usize, i: int, j: int|
        0 <= i < vl.len() && 0 <= j < vl.len() && #[trigger] rows_with(col, vl[i].value@).contains(r) && #[trigger] rows_with(
            col,
            vl[j].value@,
        ).contains(r) implies i == j by {
        lemma_rows_with(col, vl[i].value@);
        lemma_rows_with(col, vl[j].value@);
        assert(col[r as int] == vl[i].value@ && col[r as int] == vl[j].value@);
        assert(ks[i] == vl[i].value@ && ks[j] == vl[j].value@);
        if i != j {
            lemma_sorted_distinct(ks, i, j);
        }
    }
}

/// Two strictly increasing lists of texts that hold the same texts are the
/// same list.
proof fn lemma_sorted_texts_unique(a: Seq<Seq<char>>, b: Seq<Seq<char>>)
    requires
        texts_sorted(a),
        texts_sorted(b),
        forall|t: Seq<char>| a.contains(t) <==> b.contains(t),
    ensures
        a == b,
    decreases a.len(),
{
    if a.len() == 0 {
        if b.len() > 0 {
            assert(b.contains(b[0]));
        }
        assert(a =~= b);
    } else if b.len() == 0 {
        assert(a.contains(a[0]));
    } else {
        assert(a.contains(a[0]));
        assert(b.contains(b[0]));
        let k = choose|k: int| 0 <= k < b.len() && b[k] == a[0];
        let m = choose|m: int| 0 <= m < a.len() && a[m] == b[0];
        if k > 0 {
            assert(text_lt(b[0], b[k]));
            if m > 0 {
                assert(text_lt(a[0], a[m]));
                lemma_text_lt_asymmetric(a[0], b[0]);
            } else {
                lemma_text_lt_irreflexive(b[0]);
            }
        }
        assert(a[0] == b[0]);
        let ta = a.drop_first();
        let tb = b.drop_first();
        assert forall|t: Seq<char>| ta.contains(t) <==> tb.contains(t) by {
            if ta.contains(t) {
                let i = choose|i: int| 0 <= i < ta.len() && ta[i] == t;
                assert(a[i + 1] == t);
                assert(text_lt(a[0], a[i + 1]));
                lemma_text_lt_irreflexive(t);
                assert(b.contains(t));
                let j = choose|j: int| 0 <= j < b.len() && b[j] == t;
                assert(j != 0);
                assert(tb[j - 1] == t);
            }
            if tb.contains(t) {
                let i = choose|i: int| 0 <= i < tb.len() && tb[i] == t;
                assert(b[i + 1] == t);
                assert(text_lt(b[0], b[i + 1]));
                lemma_text_lt_irreflexive(t);
                assert(a.contains(t));
                let j = choose|j: int| 0 <= j < a.len() && a[j] == t;
                assert(j != 0);
                assert(ta[j - 1] == t);
            }
        }
        assert forall|i: int, j: int| 0 <= i < j < ta.len() implies text_lt(#[trigger] ta[i], #[trigger] ta[j]) by {
            assert(ta[i] == a[i + 1] && ta[j] == a[j + 1]);
        }
        assert forall|i: int, j: int| 0 <= i < j < tb.len() implies text_lt(#[trigger] tb[i], #[trigger] tb[j]) by {
            assert(tb[i] == b[i + 1] && tb[j] == b[j + 1]);
        }
        lemma_sorted_texts_unique(ta, tb);
        assert(a =~= seq![a[0]] + ta);
        assert(b =~= seq![b[0]] + tb);
    }
}

/// An index is fixed by its column: two indexes of the same column list the
/// same texts, in the same order, with the same counts. (So the two ways of
/// building one, `index_unique_values_with_progress` and
/// `index_unique_values_for_file`, agree whenever their columns do.)
pub proof fn lemma_index_fixed_by_column(a: &UniqueColumnIndex, b: &UniqueColumnIndex)
    requires
        a.wf(),
        b.wf(),
        a.column() == b.column(),
    ensures
        value_texts(a.value_list()) == value_texts(b.value_list()),
        a.value_list().len() == b.value_list().len(),
        forall|i: int| 0 <= i < a.value_list().len() ==> #[trigger] a.value_list()[i].count == b.value_list()[i].count,
{
    a.lemma_wf_values();
    b.lemma_wf_values();
    let va = a.value_list();
    let vb = b.value_list();
    assert forall|t: Seq<char>| value_texts(va).contains(t) <==> value_texts(vb).contains(t) by {
        assert(value_texts(va).contains(t) <==> a.column().contains(t));
        assert(value_texts(vb).contains(t) <==> b.column().contains(t));
    }
    lemma_sorted_texts_unique(value_texts(va), value_texts(vb));
    assert forall|i: int| 0 <= i < va.len() implies #[trigger] va[i].count == vb[i].count by {
        assert(value_texts(va)[i] == va[i].value@);
        assert(value_texts(vb)[i] == vb[i].value@);
    }
}

} // verus!
