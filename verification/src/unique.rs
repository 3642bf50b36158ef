//! Per-column index of distinct cell values: each value with the rows that
//! hold it.

use vstd::prelude::*;

use crate::config::CsvConfig;
use crate::index::CsvIndex;
use crate::query::{cell_text, column_cells};
use crate::rows::{lemma_push_contains, sorted_strict};
use crate::scan::{
    cursor_at, data_start, first_len_of, lemma_scan_len, lengths_agree, pass_fails, preamble_len,
    read_next, records, skip_to_data, stopped_at, went_on_through, whole_pass_fails, CsvError,
};
use crate::text::{
    chars_of, find_text, key_texts, lemma_text_lt_irreflexive, lemma_text_lt_transitive, text_lt,
    texts_sorted,
};

verus! {

/// The rows of `col` (in increasing order) whose text is `v`.
pub open spec fn rows_with(col: Seq<Seq<char>>, v: Seq<char>) -> Seq<usize>
    decreases col.len(),
{
    if col.len() == 0 {
        Seq::empty()
    } else {
        let rest = rows_with(col.drop_last(), v);
        if col.last() == v {
            rest.push((col.len() - 1) as usize)
        } else {
            rest
        }
    }
}

/// The rows that hold a value, listed in `rows_with`, are exactly the rows
/// whose text is that value, in increasing order.
pub proof fn lemma_rows_with(col: Seq<Seq<char>>, v: Seq<char>)
    requires
        col.len() <= usize::MAX,
    ensures
        sorted_strict(rows_with(col, v)),
        forall|r: usize| rows_with(col, v).contains(r) <==> (r < col.len() && col[r as int] == v),
        forall|i: int| 0 <= i < rows_with(col, v).len() ==> #[trigger] rows_with(col, v)[i] < col.len(),
    decreases col.len(),
{
    if col.len() > 0 {
        let d = col.drop_last();
        lemma_rows_with(d, v);
        let rest = rows_with(d, v);
        let n = (col.len() - 1) as usize;
        assert forall|r: usize| rows_with(col, v).contains(r) <==> (r < col.len() && col[r as int] == v) by {
            if col.last() == v {
                lemma_push_contains(rest, n, r);
            }
            if r < n {
                assert(d[r as int] == col[r as int]);
            }
            if rest.contains(r) {
                let i = choose|i: int| 0 <= i < rest.len() && rest[i] == r;
                assert(rest[i] < d.len());
            }
        }
    }
}

pub proof fn lemma_rows_with_absent(col: Seq<Seq<char>>, v: Seq<char>)
    requires
        !col.contains(v),
    ensures
        rows_with(col, v) == Seq::<usize>::empty(),
    decreases col.len(),
{
    if col.len() > 0 {
        assert(!col.drop_last().contains(v)) by {
            if col.drop_last().contains(v) {
                let i = choose|i: int| 0 <= i < col.drop_last().len() && col.drop_last()[i] == v;
                assert(col[i] == v);
            }
        }
        lemma_rows_with_absent(col.drop_last(), v);
        assert(col[col.len() - 1] != v);
    }
}

proof fn lemma_rows_with_push(col: Seq<Seq<char>>, c: Seq<char>, v: Seq<char>)
    ensures
        rows_with(col.push(c), v) == (if c == v { rows_with(col, v).push(col.len() as usize) } else { rows_with(col, v) }),
{
    assert(col.push(c).drop_last() =~= col);
}

/// One distinct value of a column and how many rows hold it.
#[derive(Clone, Debug, PartialEq, Eq)]
pub struct UniqueValue {
    pub value: String,
    pub count: usize,
}

/// Where the rows of one value lie in the index's row list.
#[derive(Clone, Copy, Debug)]
struct UniqueRowGroup {
    start: u32,
    len: u32,
}

/// The texts of a list of unique values.
pub open spec fn value_texts(vs: Seq<UniqueValue>) -> Seq<Seq<char>> {
    vs.map_values(|u: UniqueValue| u.value@)
}

/// `vs` lists the distinct texts of `col` in increasing order, each with
/// the number of rows that hold it.
pub open spec fn values_describe(vs: Seq<UniqueValue>, col: Seq<Seq<char>>) -> bool {
    &&& texts_sorted(value_texts(vs))
    &&& forall|t: Seq<char>| value_texts(vs).contains(t) <==> col.contains(t)
    &&& forall|i: int| 0 <= i < vs.len() ==> #[trigger] vs[i].count == rows_with(col, vs[i].value@).len()
}

/// The distinct values of one column, each with the rows that hold it.
#[derive(Clone)]
pub struct UniqueColumnIndex {
    pub values: Vec<UniqueValue>,
    row_groups: Vec<UniqueRowGroup>,
    rows: Vec<u32>,
    keys: Vec<Vec<char>>,
    column: Ghost<Seq<Seq<char>>>,
}

/// Row numbers stored as `u32`, as `usize`.
pub open spec fn widen(s: Seq<u32>) -> Seq<usize> {
    s.map_values(|r: u32| r as usize)
}

/// Sum of the lengths of the row lists `gs`.
spec fn total_len(gs: Seq<Vec<u32>>) -> int
    decreases gs.len(),
{
    if gs.len() == 0 {
        0
    } else {
        total_len(gs.drop_last()) + gs.last()@.len()
    }
}

proof fn lemma_total_len_insert(gs: Seq<Vec<u32>>, p: int, x: Vec<u32>)
    requires
        0 <= p <= gs.len(),
    ensures
        total_len(gs.insert(p, x)) == total_len(gs) + x@.len(),
    decreases gs.len(),
{
    if p == gs.len() {
        assert(gs.insert(p, x).drop_last() =~= gs);
    } else {
        assert(gs.insert(p, x).drop_last() =~= gs.drop_last().insert(p, x));
        lemma_total_len_insert(gs.drop_last(), p, x);
    }
}

proof fn lemma_total_len_update(gs: Seq<Vec<u32>>, i: int, x: Vec<u32>)
    requires
        0 <= i < gs.len(),
    ensures
        total_len(gs.update(i, x)) == total_len(gs) - gs[i]@.len() + x@.len(),
    decreases gs.len(),
{
    if i == gs.len() - 1 {
        assert(gs.update(i, x).drop_last() =~= gs.drop_last());
    } else {
        assert(gs.update(i, x).drop_last() =~= gs.drop_last().update(i, x));
        lemma_total_len_update(gs.drop_last(), i, x);
    }
}

/// The grouping built while scanning `col`: sorted distinct texts `keys`,
/// their strings `vals`, and the rows of each in `groups`.
spec fn grouping_ok(keys: Seq<Vec<char>>, vals: Seq<String>, groups: Seq<Vec<u32>>, col: Seq<Seq<char>>) -> bool {
    &&& keys.len() == vals.len() == groups.len()
    &&& texts_sorted(key_texts(keys))
    &&& forall|i: int| 0 <= i < keys.len() ==> #[trigger] vals[i]@ == keys[i]@
    &&& forall|t: Seq<char>| key_texts(keys).contains(t) <==> col.contains(t)
    &&& forall|i: int| 0 <= i < keys.len() ==> #[trigger] widen(groups[i]@) == rows_with(
        col,
        keys[i]@,
    )
    &&& total_len(groups) == col.len()
}

/// Files the row `k` with text `c` (held as `chars` and `text`) into the
/// grouping of the rows before it.
fn add_to_grouping(
    keys: &mut Vec<Vec<char>>,
    vals: &mut Vec<String>,
    groups: &mut Vec<Vec<u32>>,
    chars: Vec<char>,
    text: String,
    k: u32,
    Ghost(col): Ghost<Seq<Seq<char>>>,
)
    requires
        grouping_ok(old(keys)@, old(vals)@, old(groups)@, col),
        col.len() == k,
        chars@ == text@,
    ensures
        grouping_ok(final(keys)@, final(vals)@, final(groups)@, col.push(chars@)),
{
    let ghost c = chars@;
    let ghost ncol = col.push(c);
    let ghost old_keys = keys@;
    let ghost old_groups = groups@;
    proof {
        assert forall|v: Seq<char>| #[trigger] rows_with(ncol, v) == (if c == v {
            rows_with(col, v).push(k as usize)
        } else {
            rows_with(col, v)
        }) by {
            lemma_rows_with_push(col, c, v);
        }
        assert forall|t: Seq<char>| ncol.contains(t) <==> (col.contains(t) || t == c) by {
            lemma_push_contains(col, c, t);
        }
    }
    match find_text(keys, chars.as_slice()) {
        Ok(i) => {
            let mut g = groups[i].clone();
            g.push(k);
            let ghost g_old = groups@[i as int];
            groups.set(i, g);
            proof {
                lemma_total_len_update(old_groups, i as int, g);
                assert forall|j: int| 0 <= j < keys@.len() implies #[trigger] widen(groups@[j]@) == rows_with(ncol, keys@[j]@) by {
                    if j == i {
                        assert(widen(groups@[j]@) =~= widen(g_old@).push(k as usize));
                    } else {
                        assert(keys@[j]@ != c) by {
                            lemma_text_lt_irreflexive(c);
                            if j < i {
                                assert(text_lt(key_texts(old_keys)[j], key_texts(old_keys)[i as int]));
                            } else {
                                assert(text_lt(key_texts(old_keys)[i as int], key_texts(old_keys)[j]));
                            }
                        }
                    }
                }
                assert forall|t: Seq<char>| key_texts(keys@).contains(t) <==> ncol.contains(t) by {
                    if t == c {
                        assert(key_texts(keys@)[i as int] == t);
                    }
                }
            }
        },
        Err(p) => {
            proof {
                assert(!key_texts(old_keys).contains(c)) by {
                    if key_texts(old_keys).contains(c) {
                        let j = choose|j: int| 0 <= j < old_keys.len() && key_texts(old_keys)[j] == c;
                        lemma_text_lt_irreflexive(c);
                        if j < p {
                            assert(text_lt(old_keys[j]@, c));
                        } else {
                            assert(text_lt(c, old_keys[j]@));
                        }
                    }
                }
                assert(!col.contains(c));
                lemma_rows_with_absent(col, c);
            }
            let ghost old_ks = key_texts(old_keys);
            let ghost old_vals = vals@;
            keys.insert(p, chars);
            vals.insert(p, text);
            let mut g: Vec<u32> = Vec::new();
            g.push(k);
            groups.insert(p, g);
            proof {
                lemma_total_len_insert(old_groups, p as int, g);
                let new_ks = key_texts(keys@);
                assert(new_ks =~= old_ks.insert(p as int, c));
                assert forall|i: int, j: int| 0 <= i < j < new_ks.len() implies text_lt(
                    #[trigger] new_ks[i],
                    #[trigger] new_ks[j],
                ) by {
                    if j < p {
                        assert(text_lt(old_ks[i], old_ks[j]));
                    } else if i > p {
                        assert(text_lt(old_ks[i - 1], old_ks[j - 1]));
                    } else if i == p {
                        assert(text_lt(c, old_keys[j - 1]@));
                    } else if j == p {
                        assert(text_lt(old_keys[i]@, c));
                    } else {
                        assert(text_lt(old_keys[i]@, c));
                        assert(text_lt(c, old_keys[j - 1]@));
                        lemma_text_lt_transitive(old_ks[i], c, old_ks[j - 1]);
                    }
                }
                assert forall|j: int| 0 <= j < keys@.len() implies #[trigger] vals@[j]@ == keys@[j]@ by {
                    if j < p {
                        assert(vals@[j] == old_vals[j]);
                    } else if j > p {
                        assert(vals@[j] == old_vals[j - 1]);
                    }
                }
                assert forall|j: int| 0 <= j < keys@.len() implies #[trigger] widen(groups@[j]@) == rows_with(ncol, keys@[j]@) by {
                    if j == p {
                        assert(widen(g@) =~= Seq::<usize>::empty().push(k as usize));
                    } else {
                        let oj = if j < p { j } else { j - 1 };
                        assert(keys@[j] == old_keys[oj]);
                        assert(groups@[j] == old_groups[oj]);
                        assert(key_texts(old_keys)[oj] == old_keys[oj]@);
                        assert(old_keys[oj]@ != c);
                    }
                }
                assert forall|t: Seq<char>| new_ks.contains(t) <==> ncol.contains(t) by {
                    if new_ks.contains(t) {
                        let j = choose|j: int| 0 <= j < new_ks.len() && new_ks[j] == t;
                        if j < p {
                            assert(old_ks[j] == t);
                        } else if j > p {
                            assert(old_ks[j - 1] == t);
                        }
                    }
                    if old_ks.contains(t) {
                        let j = choose|j: int| 0 <= j < old_ks.len() && old_ks[j] == t;
                        if j < p {
                            assert(new_ks[j] == t);
                        } else {
                            assert(new_ks[j + 1] == t);
                        }
                    }
                    if t == c {
                        assert(new_ks[p as int] == t);
                    }
                }
            }
        },
    }
}

impl UniqueColumnIndex {
    /// The text of every row the index was built from.
    pub closed spec fn column(&self) -> Seq<Seq<char>> {
        self.column@
    }

    /// The distinct values, in order.
    pub closed spec fn value_list(&self) -> Seq<UniqueValue> {
        self.values@
    }

    /// The distinct values, in order, with their counts.
    pub fn values(&self) -> (v: &Vec<UniqueValue>)
        ensures
            v@ == self.value_list(),
    {
        &self.values
    }

    /// The index is consistent with `column`: `values` lists its distinct
    /// texts in increasing order with their counts, and the rows of each
    /// value are kept in increasing order.
    pub closed spec fn wf(&self) -> bool {
        let col = self.column@;
        let vs = self.values@;
        let gs = self.row_groups@;
        &&& col.len() <= u32::MAX
        &&& values_describe(vs, col)
        &&& key_texts(self.keys@) == value_texts(vs)
        &&& gs.len() == vs.len()
        &&& self.rows@.len() == col.len()
        &&& forall|i: int|
            0 <= i < gs.len() ==> {
                &&& #[trigger] gs[i].start + gs[i].len <= self.rows@.len()
                &&& gs[i].len == vs[i].count
                &&& widen(self.rows@.subrange(gs[i].start as int, gs[i].start + gs[i].len)) == rows_with(
                    col,
                    vs[i].value@,
                )
            }
    }

    /// What a consistent index states of its values.
    pub proof fn lemma_wf_values(&self)
        requires
            self.wf(),
        ensures
            values_describe(self.value_list(), self.column()),
            self.column().len() <= u32::MAX,
            self.value_list().len() <= usize::MAX,
    {
        assert(self.values@.len() == self.values.len());
    }

    /// The texts of the values, for looking values up.
    pub closed spec fn key_list(&self) -> Seq<Vec<char>> {
        self.keys@
    }

    /// What a consistent index states of its lookup keys.
    pub proof fn lemma_wf_keys(&self)
        requires
            self.wf(),
        ensures
            key_texts(self.key_list()) == value_texts(self.value_list()),
            texts_sorted(key_texts(self.key_list())),
            forall|i: int| 0 <= i < self.value_list().len() ==> #[trigger] self.value_list()[i].count == rows_with(
                self.column(),
                self.value_list()[i].value@,
            ).len(),
    {
    }

    /// Looks a text up among the values: `Ok` with its position, or `Err`.
    pub fn find_value(&self, text: &[char]) -> (res: Result<usize, usize>)
        requires
            self.wf(),
        ensures
            res matches Ok(i) ==> i < self.value_list().len() && self.value_list()[i as int].value@ == text@,
            res is Err ==> !value_texts(self.value_list()).contains(text@),
    {
        let r = find_text(&self.keys, text);
        proof {
            assert(key_texts(self.keys@) == value_texts(self.values@));
            if let Ok(i) = r {
                assert(key_texts(self.keys@)[i as int] == self.keys@[i as int]@);
                assert(value_texts(self.values@)[i as int] == self.values@[i as int].value@);
            }
            if let Err(p) = r {
                if value_texts(self.values@).contains(text@) {
                    let j = choose|j: int| 0 <= j < self.values@.len() && value_texts(self.values@)[j] == text@;
                    assert(key_texts(self.keys@)[j] == self.keys@[j]@);
                    crate::text::lemma_text_lt_irreflexive(text@);
                }
            }
        }
        r
    }

    /// How many rows hold value number `i`.
    pub fn value_count(&self, i: usize) -> (c: usize)
        requires
            self.wf(),
            i < self.value_list().len(),
        ensures
            c == self.value_list()[i as int].count,
            c == rows_with(self.column(), self.value_list()[i as int].value@).len(),
    {
        self.values[i].count
    }

    /// Number of distinct values.
    pub fn value_len(&self) -> (n: usize)
        requires
            self.wf(),
        ensures
            n == self.value_list().len(),
    {
        self.values.len()
    }

    /// The text of value number `i`, as characters.
    pub fn value_chars(&self, i: usize) -> (k: &[char])
        requires
            self.wf(),
            i < self.value_list().len(),
        ensures
            k@ == self.value_list()[i as int].value@,
    {
        proof {
            assert(key_texts(self.keys@).len() == value_texts(self.values@).len());
            assert(key_texts(self.keys@)[i as int] == self.keys@[i as int]@);
            assert(value_texts(self.values@)[i as int] == self.values@[i as int].value@);
        }
        self.keys[i].as_slice()
    }

    /// Number of rows the index was built from.
    pub fn total_rows(&self) -> (n: usize)
        requires
            self.wf(),
        ensures
            n == self.column().len(),
    {
        self.rows.len()
    }

    /// The rows that hold value number `value_idx`, in increasing order
    /// (none when there is no such value).
    pub fn rows_for_value_index(&self, value_idx: usize) -> (rows: Vec<usize>)
        requires
            self.wf(),
        ensures
            value_idx < self.value_list().len() ==> rows@ == rows_with(
                self.column(),
                self.value_list()[value_idx as int].value@,
            ),
            value_idx >= self.value_list().len() ==> rows@.len() == 0,
    {
        let mut out: Vec<usize> = Vec::new();
        if value_idx >= self.row_groups.len() {
            return out;
        }
        let g = self.row_groups[value_idx];
        let start = g.start as usize;
        let end = start + g.len as usize;
        let ghost part = self.rows@.subrange(start as int, end as int);
        let mut i = start;
        while i < end
            invariant
                start <= i <= end <= self.rows@.len(),
                part == self.rows@.subrange(start as int, end as int),
                out@ == widen(part.take(i - start)),
            decreases end - i,
        {
            out.push(self.rows[i] as usize);
            i = i + 1;
            assert(part.take(i - start) =~= part.take(i - start - 1).push(self.rows@[i - 1]));
            assert(out@ =~= widen(part.take(i - start)));
        }
        assert(part.take(end - start) =~= part);
        out
    }
}

/// Lays the grouping out as an index: values in order, rows grouped by value.
fn build_unique_index(keys: Vec<Vec<char>>, vals: &Vec<String>, groups: &Vec<Vec<u32>>, Ghost(col): Ghost<
    Seq<Seq<char>>,
>) -> (idx: UniqueColumnIndex)
    requires
        grouping_ok(keys@, vals@, groups@, col),
        col.len() <= u32::MAX,
    ensures
        idx.wf(),
        idx.column() == col,
{
    let mut values: Vec<UniqueValue> = Vec::new();
    let mut row_groups: Vec<UniqueRowGroup> = Vec::new();
    let mut rows: Vec<u32> = Vec::new();
    let mut i: usize = 0;
    proof {
        assert forall|j: int| 0 <= j < groups@.len() implies #[trigger] groups@[j]@.len() == rows_with(col, keys@[j]@).len() by {
            assert(widen(groups@[j]@).len() == groups@[j]@.len());
        }
    }
    while i < groups.len()
        invariant
            grouping_ok(keys@, vals@, groups@, col),
            col.len() <= u32::MAX,
            forall|j: int| 0 <= j < groups@.len() ==> #[trigger] groups@[j]@.len() == rows_with(col, keys@[j]@).len(),
            i <= groups@.len(),
            values@.len() == i,
            row_groups@.len() == i,
            rows@.len() == total_len(groups@.take(i as int)),
            forall|j: int| 0 <= j < i ==> (#[trigger] values@[j]).value@ == keys@[j]@,
            forall|j: int| 0 <= j < i ==> (#[trigger] values@[j]).count == groups@[j]@.len(),
            forall|j: int|
                0 <= j < i ==> {
                    &&& #[trigger] row_groups@[j].start + row_groups@[j].len <= rows@.len()
                    &&& row_groups@[j].len == values@[j].count
                    &&& rows@.subrange(row_groups@[j].start as int, row_groups@[j].start + row_groups@[j].len)
                        == groups@[j]@
                },
        decreases groups@.len() - i,
    {
        let ghost prefix = groups@.take(i as int);
        proof {
            assert(groups@.take(i + 1).drop_last() =~= prefix);
            lemma_total_len_prefix(groups@, i + 1);
        }
        let g = &groups[i];
        let start = rows.len();
        assert(start + g@.len() <= col.len());
        let ghost old_rows = rows@;
        let mut j: usize = 0;
        while j < g.len()
            invariant
                j <= g@.len(),
                rows@.len() == old_rows.len() + j,
                rows@.subrange(0, old_rows.len() as int) == old_rows,
                rows@.subrange(old_rows.len() as int, rows@.len() as int) == g@.take(j as int),
            decreases g@.len() - j,
        {
            rows.push(g[j]);
            j = j + 1;
            assert(rows@.subrange(0, old_rows.len() as int) =~= old_rows);
            assert(rows@.subrange(old_rows.len() as int, rows@.len() as int) =~= g@.take(j as int));
        }
        assert(g@.take(g@.len() as int) =~= g@);
        let len = g.len();
        values.push(UniqueValue { value: vals[i].clone(), count: len });
        row_groups.push(UniqueRowGroup { start: start as u32, len: len as u32 });
        proof {
            assert forall|k: int| 0 <= k < i implies rows@.subrange(
                row_groups@[k].start as int,
                row_groups@[k].start + row_groups@[k].len,
            ) == groups@[k]@ by {
                assert(rows@.subrange(row_groups@[k].start as int, row_groups@[k].start + row_groups@[k].len)
                    =~= old_rows.subrange(row_groups@[k].start as int, row_groups@[k].start + row_groups@[k].len));
            }
        }
        i = i + 1;
    }
    assert(groups@.take(i as int) =~= groups@);
    proof {
        assert(value_texts(values@) =~= key_texts(keys@));
    }
    let idx = UniqueColumnIndex { values, row_groups, rows, keys, column: Ghost(col) };
    proof {
        assert forall|t: Seq<char>| value_texts(idx.values@).contains(t) <==> col.contains(t) by {
            assert(value_texts(idx.values@) =~= key_texts(idx.keys@));
        }
    }
    idx
}

proof fn lemma_total_len_prefix(gs: Seq<Vec<u32>>, k: int)
    requires
        0 < k <= gs.len(),
    ensures
        total_len(gs.take(k)) == total_len(gs.take(k - 1)) + gs[k - 1]@.len(),
        total_len(gs.take(k)) <= total_len(gs),
    decreases gs.len(),
{
    assert(gs.take(k).drop_last() =~= gs.take(k - 1));
    if k < gs.len() {
        assert(gs.drop_last().take(k) =~= gs.take(k));
        assert(gs.drop_last().take(k - 1) =~= gs.take(k - 1));
        lemma_total_len_prefix(gs.drop_last(), k);
    } else {
        assert(gs.take(k) =~= gs);
    }
}

impl CsvIndex {
    /// Builds the unique-value index of column `col` of this file.
    pub fn index_unique_values_with_progress<F>(&self, data: &[u8], col: usize, on_progress: F) -> (res: Result<
        UniqueColumnIndex,
        CsvError,
    >) where F: Fn(usize, usize) -> bool
        requires
            forall|done: usize, total: usize|
                total == self.row_offsets@.len() && done <= column_cells(data@, self.config, col).len() ==> #[trigger] on_progress.requires(
                    (done, total),
                ),
        ensures
            res matches Ok(idx) ==> idx.wf() && {
                let cells = column_cells(data@, self.config, col);
                ||| idx.column() == cells && went_on_through(on_progress, cells.len() as int, self.row_offsets.len())
                ||| exists|k: usize|
                    k <= cells.len() && #[trigger] stopped_at(on_progress, k, self.row_offsets.len()) && idx.column() == cells.take(
                        k as int,
                    )
            },
            res is Err ==> whole_pass_fails(data@, self.config) || column_cells(data@, self.config, col).len() > u32::MAX,
            (forall|done: usize, total: usize, stop: bool| on_progress.ensures((done, total), stop) ==> !stop) ==> {
                &&& res is Err <==> (whole_pass_fails(data@, self.config) || column_cells(data@, self.config, col).len()
                    > u32::MAX)
                &&& res matches Ok(idx) ==> idx.column() == column_cells(data@, self.config, col)
            },
    {
        Self::index_unique_values_for_file(data, &self.config, self.row_offsets.len(), col, on_progress)
    }

    /// Builds the unique-value index of column `col` of the data read with
    /// `config`. `on_progress(rows scanned, total_rows)` is called every
    /// 10,000 rows and once at the end; when a call during the scan returns
    /// true, the scan stops and the index covers the rows scanned so far.
    pub fn index_unique_values_for_file<F>(
        data: &[u8],
        config: &CsvConfig,
        total_rows: usize,
        col: usize,
        on_progress: F,
    ) -> (res: Result<UniqueColumnIndex, CsvError>) where F: Fn(usize, usize) -> bool
        requires
            forall|done: usize, total: usize|
                total == total_rows && done <= column_cells(data@, *config, col).len() ==> #[trigger] on_progress.requires(
                    (done, total),
                ),
        ensures
            res matches Ok(idx) ==> idx.wf() && {
                let cells = column_cells(data@, *config, col);
                ||| idx.column() == cells && went_on_through(on_progress, cells.len() as int, total_rows)
                ||| exists|k: usize|
                    k <= cells.len() && #[trigger] stopped_at(on_progress, k, total_rows) && idx.column() == cells.take(
                        k as int,
                    )
            },
            res is Err ==> whole_pass_fails(data@, *config) || column_cells(data@, *config, col).len() > u32::MAX,
            (forall|done: usize, total: usize, stop: bool| on_progress.ensures((done, total), stop) ==> !stop) ==> {
                &&& res is Err <==> (whole_pass_fails(data@, *config) || column_cells(data@, *config, col).len()
                    > u32::MAX)
                &&& res matches Ok(idx) ==> idx.column() == column_cells(data@, *config, col)
            },
    {
        let ghost cfg = *config;
        let ghost rs = records(data@, cfg);
        let ghost cells = column_cells(data@, cfg, col);
        let ghost ds = data_start(data@, cfg);
        let (mut pos, mut first_len) = skip_to_data(data, config)?;
        let ghost mut read: int = ds;
        let mut keys: Vec<Vec<char>> = Vec::new();
        let mut vals: Vec<String> = Vec::new();
        let mut groups: Vec<Vec<u32>> = Vec::new();
        let mut row_idx: usize = 0;
        let n = data.len();
        proof {
            lemma_scan_len(data@, 0, false, cfg.delimiter, cfg.quote);
            assert(cells.take(0) =~= Seq::<Seq<char>>::empty());
            assert(key_texts(keys@) =~= Seq::<Seq<char>>::empty());
            reveal_with_fuel(total_len, 1);
        }
        loop
            invariant
                forall|done: usize, total: usize|
                    total == total_rows && done <= column_cells(data@, *config, col).len() ==> #[trigger] on_progress.requires(
                        (done, total),
                    ),
                went_on_through(on_progress, row_idx as int, total_rows),
                cfg == *config,
                rs == records(data@, cfg),
                ds == data_start(data@, cfg),
                cells == column_cells(data@, cfg, col),
                cursor_at(data@, cfg, pos as int, read),
                first_len_of(data@, cfg, read, first_len),
                lengths_agree(rs, read, cfg.flexible),
                !pass_fails(data@, cfg, preamble_len(cfg)),
                ds <= read <= rs.len(),
                row_idx == read - ds,
                cells.len() == rs.len() - ds,
                rs.len() <= data@.len(),
                n == data@.len(),
                row_idx <= u32::MAX,
                grouping_ok(keys@, vals@, groups@, cells.take(row_idx as int)),
            decreases rs.len() - read,
        {
            match read_next(data, config, pos, first_len, Ghost(0), Ghost(read)) {
                Err(e) => {
                    return Err(e);
                },
                Ok(None) => {
                    proof {
                        assert(cells.take(row_idx as int) =~= cells);
                    }
                    let _ = on_progress(row_idx, total_rows);
                    return Ok(build_unique_index(keys, &vals, &groups, Ghost(cells.take(row_idx as int))));
                },
                Ok(Some((fields, end))) => {
                    if row_idx >= 4294967295usize {
                        return Err(CsvError::TooManyRows);
                    }
                    if first_len.is_none() {
                        first_len = Some(fields.len());
                    }
                    let value = cell_text(config, &fields, col);
                    let value_chars = chars_of(value.as_str());
                    proof {
                        assert(crate::scan::data_records(data@, cfg)[row_idx as int] == rs[read]);
                        assert(cells[row_idx as int] == value_chars@);
                        assert(cells.take(row_idx + 1) =~= cells.take(row_idx as int).push(value_chars@));
                    }
                    add_to_grouping(
                        &mut keys,
                        &mut vals,
                        &mut groups,
                        value_chars,
                        value,
                        row_idx as u32,
                        Ghost(cells.take(row_idx as int)),
                    );
                    row_idx = row_idx + 1;
                    pos = end;
                    proof {
                        read = read + 1;
                    }
                    if row_idx % 10_000 == 0 && on_progress(row_idx, total_rows) {
                        proof {
                            assert(stopped_at(on_progress, row_idx, total_rows));
                        }
                        let _ = on_progress(row_idx, total_rows);
                        return Ok(build_unique_index(keys, &vals, &groups, Ghost(cells.take(row_idx as int))));
                    }
                },
            }
        }
    }

    /// The distinct values of column `col` with their counts.
    pub fn unique_values_with_progress<F>(&self, data: &[u8], col: usize, on_progress: F) -> (res: Result<
        Vec<UniqueValue>,
        CsvError,
    >) where F: Fn(usize, usize) -> bool
        requires
            forall|done: usize, total: usize|
                total == self.row_offsets@.len() && done <= column_cells(data@, self.config, col).len() ==> #[trigger] on_progress.requires(
                    (done, total),
                ),
        ensures
            res matches Ok(vs) ==> {
                let cells = column_cells(data@, self.config, col);
                let total = self.row_offsets.len();
                ||| values_describe(vs@, cells) && went_on_through(on_progress, cells.len() as int, total)
                ||| exists|k: usize|
                    k <= cells.len() && #[trigger] stopped_at(on_progress, k, total) && values_describe(
                        vs@,
                        cells.take(k as int),
                    )
            },
            res is Err ==> whole_pass_fails(data@, self.config) || column_cells(data@, self.config, col).len() > u32::MAX,
            (forall|done: usize, total: usize, stop: bool| on_progress.ensures((done, total), stop) ==> !stop) ==> {
                &&& res is Err <==> (whole_pass_fails(data@, self.config) || column_cells(data@, self.config, col).len()
                    > u32::MAX)
                &&& res matches Ok(vs) ==> values_describe(vs@, column_cells(data@, self.config, col))
            },
    {
        let idx = self.index_unique_values_with_progress(data, col, on_progress)?;
        proof {
            idx.lemma_wf_values();
        }
        let values = idx.values;
        assert(values@ == idx.value_list());
        Ok(values)
    }
}

} // verus!
