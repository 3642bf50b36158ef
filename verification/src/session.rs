//! The viewer's state of an open file, and how each report of the worker
//! changes it: row counts while the file is previewed and then indexed in
//! the background, the page shown, filtering, the per-column value lists and
//! the row cells read.

use std::collections::HashMap;

use vstd::prelude::*;
use vstd::std_specs::iter::IteratorSpec;

use crate::logical::LogicalRows;
use crate::message::Event;
use crate::selection::FilterRows;
use crate::unique::UniqueValue;
use crate::viewer::VisibleRows;

verus! {

broadcast use vstd::std_specs::hash::group_hash_axioms;

/// One column's distinct values as the viewer lists them, and the values
/// chosen among them.
#[derive(Clone, Debug)]
pub struct UniqueColumnState {
    /// The distinct values with their row counts, once indexed.
    pub values: Vec<UniqueValue>,
    /// The values kept, when not all are selected.
    pub selected: Vec<String>,
    /// The values left out, when all are selected.
    pub excluded: Vec<String>,
    /// All values are selected but the `excluded` ones.
    pub all_selected: bool,
    /// The values are being indexed.
    pub indexing: bool,
    /// Rows indexed so far, and the total, while indexing.
    pub progress: Option<(usize, usize)>,
    /// Why the last indexing failed.
    pub error: Option<String>,
    /// The text typed to narrow the listed values.
    pub value_filter: String,
    /// The narrowing text the cached list below was made for.
    pub cached_value_filter: String,
    /// The value count the cached list was made for.
    pub cached_filter_value_count: usize,
    /// Positions of the values that match the narrowing text.
    pub cached_filtered_indices: Vec<usize>,
}

impl UniqueColumnState {
    /// The state of a column that nothing has been done with.
    pub open spec fn is_blank(&self) -> bool {
        &&& self.values@.len() == 0
        &&& self.selected@.len() == 0
        &&& self.excluded@.len() == 0
        &&& !self.all_selected
        &&& !self.indexing
        &&& self.progress is None
        &&& self.error is None
        &&& self.value_filter@.len() == 0
        &&& self.cached_value_filter@.len() == 0
        &&& self.cached_filter_value_count == 0
        &&& self.cached_filtered_indices@.len() == 0
    }

    /// A column that nothing has been done with.
    pub fn new() -> (s: Self)
        ensures
            s.is_blank(),
    {
        UniqueColumnState {
            values: Vec::new(),
            selected: Vec::new(),
            excluded: Vec::new(),
            all_selected: false,
            indexing: false,
            progress: None,
            error: None,
            value_filter: String::new(),
            cached_value_filter: String::new(),
            cached_filter_value_count: 0,
            cached_filtered_indices: Vec::new(),
        }
    }
}

/// The text `t` is the value of one of `values`.
pub open spec fn is_known(values: Seq<UniqueValue>, t: String) -> bool {
    exists|i: int| 0 <= i < values.len() && #[trigger] values[i].value@ == t@
}

/// The entries of `chosen` that are values of `values`, in order.
pub open spec fn keep_known(chosen: Seq<String>, values: Seq<UniqueValue>) -> Seq<String>
    decreases chosen.len(),
{
    if chosen.len() == 0 {
        Seq::empty()
    } else {
        let kept = keep_known(chosen.drop_last(), values);
        if is_known(values, chosen.last()) {
            kept.push(chosen.last())
        } else {
            kept
        }
    }
}

/// Keeps the entries of `chosen` that are values of `values`.
fn retain_known(chosen: &Vec<String>, values: &Vec<UniqueValue>) -> (out: Vec<String>)
    ensures
        out@ == keep_known(chosen@, values@),
{
    let mut out: Vec<String> = Vec::new();
    let mut i: usize = 0;
    while i < chosen.len()
        invariant
            0 <= i <= chosen@.len(),
            out@ == keep_known(chosen@.take(i as int), values@),
        decreases chosen@.len() - i,
    {
        let mut known = false;
        let mut j: usize = 0;
        while j < values.len()
            invariant
                0 <= i < chosen@.len(),
                0 <= j <= values@.len(),
                known <==> exists|q: int| 0 <= q < j && #[trigger] values@[q].value@ == chosen@[i as int]@,
            decreases values@.len() - j,
        {
            if values[j].value == chosen[i] {
                known = true;
            }
            j = j + 1;
        }
        proof {
            let t = chosen@.take(i + 1);
            assert(t.drop_last() =~= chosen@.take(i as int));
            assert(t.last() == chosen@[i as int]);
        }
        if known {
            out.push(chosen[i].clone());
        }
        i = i + 1;
    }
    proof {
        assert(chosen@.take(i as int) =~= chosen@);
    }
    out
}

/// The entries of `list` whose text is not `t`, in order.
pub open spec fn without_text(list: Seq<String>, t: Seq<char>) -> Seq<String>
    decreases list.len(),
{
    if list.len() == 0 {
        Seq::empty()
    } else {
        let kept = without_text(list.drop_last(), t);
        if list.last()@ == t {
            kept
        } else {
            kept.push(list.last())
        }
    }
}

/// `list` without the entries whose text is that of `value`, then `value`
/// itself when `listed`.
fn relist(list: &Vec<String>, value: &String, listed: bool) -> (out: Vec<String>)
    ensures
        out@ == without_text(list@, value@) + (if listed { seq![*value] } else { Seq::empty() }),
{
    let mut out: Vec<String> = Vec::new();
    let mut i: usize = 0;
    while i < list.len()
        invariant
            0 <= i <= list@.len(),
            out@ == without_text(list@.take(i as int), value@),
        decreases list@.len() - i,
    {
        proof {
            let t = list@.take(i + 1);
            assert(t.drop_last() =~= list@.take(i as int));
            assert(t.last() == list@[i as int]);
        }
        if list[i] != *value {
            out.push(list[i].clone());
        }
        i = i + 1;
    }
    proof {
        assert(list@.take(i as int) =~= list@);
    }
    if listed {
        out.push(value.clone());
    }
    assert(out@ =~= without_text(list@, value@) + (if listed { seq![*value] } else { Seq::empty() }));
    out
}

/// Some entry of `list` has the text `t`.
pub open spec fn holds_text(list: Seq<String>, t: Seq<char>) -> bool {
    exists|i: int| 0 <= i < list.len() && #[trigger] list[i]@ == t
}

/// Taking a text out of a list keeps every other text: `t` is in the list
/// left exactly when it was in `list`, unless it is the text taken out,
/// which is gone.
pub proof fn lemma_without_text_keeps_others(list: Seq<String>, v: Seq<char>, t: Seq<char>)
    ensures
        t != v ==> (holds_text(without_text(list, v), t) <==> holds_text(list, t)),
        !holds_text(without_text(list, v), v),
    decreases list.len(),
{
    if list.len() > 0 {
        let d = list.drop_last();
        lemma_without_text_keeps_others(d, v, t);
        let w = without_text(d, v);
        if holds_text(list, t) && t != v {
            let i = choose|i: int| 0 <= i < list.len() && #[trigger] list[i]@ == t;
            if i < d.len() {
                assert(d[i]@ == t);
                let k = choose|k: int| 0 <= k < w.len() && #[trigger] w[k]@ == t;
                if list.last()@ != v {
                    assert(w.push(list.last())[k]@ == t);
                }
            } else {
                assert(list.last()@ == t);
                assert(w.push(list.last())[w.len() as int]@ == t);
            }
        }
        if holds_text(without_text(list, v), t) {
            let out = without_text(list, v);
            let k = choose|k: int| 0 <= k < out.len() && #[trigger] out[k]@ == t;
            if k < w.len() {
                assert(out[k] == w[k]);
                if t != v {
                    let i = choose|i: int| 0 <= i < d.len() && #[trigger] d[i]@ == t;
                    assert(list[i]@ == t);
                }
            } else {
                assert(out[k] == list.last());
                assert(list[list.len() - 1]@ == t);
            }
        }
    }
}

/// Adding `value` after taking its text out: the list then holds `value`'s
/// text exactly when `listed`, and every other text as before.
pub proof fn lemma_relisted(list: Seq<String>, value: String, listed: bool, t: Seq<char>)
    ensures
        holds_text(without_text(list, value@) + (if listed { seq![value] } else { Seq::empty() }), value@) == listed,
        t != value@ ==> (holds_text(without_text(list, value@) + (if listed { seq![value] } else { Seq::empty() }), t)
            <==> holds_text(list, t)),
{
    let w = without_text(list, value@);
    let out = w + (if listed { seq![value] } else { Seq::empty() });
    lemma_without_text_keeps_others(list, value@, t);
    lemma_without_text_keeps_others(list, value@, value@);
    if listed {
        assert(out[w.len() as int] == value);
    }
    if holds_text(out, value@) {
        let k = choose|k: int| 0 <= k < out.len() && #[trigger] out[k]@ == value@;
        if k < w.len() {
            assert(out[k] == w[k]);
        }
    }
    if holds_text(out, t) && t != value@ {
        let k = choose|k: int| 0 <= k < out.len() && #[trigger] out[k]@ == t;
        assert(k < w.len());
        assert(out[k] == w[k]);
    }
    if holds_text(w, t) {
        let k = choose|k: int| 0 <= k < w.len() && #[trigger] w[k]@ == t;
        assert(out[k] == w[k]);
    }
}

impl UniqueColumnState {
    /// Checks or unchecks `value` in the value list: with all values
    /// selected the unchecked ones are listed in `excluded`, otherwise the
    /// checked ones in `selected`.
    pub fn set_checked(&mut self, value: &String, checked: bool)
        ensures
            final(self).all_selected == old(self).all_selected,
            final(self).values == old(self).values,
            old(self).all_selected ==> final(self).selected == old(self).selected && final(self).excluded@ == without_text(
                old(self).excluded@,
                value@,
            ) + (if checked { Seq::empty() } else { seq![*value] }),
            !old(self).all_selected ==> final(self).excluded == old(self).excluded && final(self).selected@ == without_text(
                old(self).selected@,
                value@,
            ) + (if checked { seq![*value] } else { Seq::empty() }),
            old(self).all_selected ==> holds_text(final(self).excluded@, value@) == !checked,
            !old(self).all_selected ==> holds_text(final(self).selected@, value@) == checked,
            forall|t: Seq<char>|
                t != value@ ==> (#[trigger] holds_text(final(self).selected@, t) <==> holds_text(old(self).selected@, t)),
            forall|t: Seq<char>|
                t != value@ ==> (#[trigger] holds_text(final(self).excluded@, t) <==> holds_text(old(self).excluded@, t)),
    {
        proof {
            lemma_relisted(self.excluded@, *value, !checked, value@);
            lemma_relisted(self.selected@, *value, checked, value@);
            assert forall|t: Seq<char>| t != value@ implies (holds_text(without_text(self.excluded@, value@) + (if !checked {
                seq![*value]
            } else {
                Seq::empty()
            }), t) <==> holds_text(self.excluded@, t)) by {
                lemma_relisted(self.excluded@, *value, !checked, t);
            }
            assert forall|t: Seq<char>| t != value@ implies (holds_text(without_text(self.selected@, value@) + (if checked {
                seq![*value]
            } else {
                Seq::empty()
            }), t) <==> holds_text(self.selected@, t)) by {
                lemma_relisted(self.selected@, *value, checked, t);
            }
        }
        if self.all_selected {
            self.excluded = relist(&self.excluded, value, !checked);
        } else {
            self.selected = relist(&self.selected, value, checked);
        }
    }
}

/// What changed in words for the status line; the text is written from it
/// by the program.
pub enum StatusChange {
    /// The first rows of a file are shown while it is indexed.
    PreviewReady { rows: usize },
    PreviewFailed(String),
    /// Indexing began; this many rows are shown.
    IndexStarted { rows: usize },
    IndexStartFailed(String),
    IndexProgress { rows: usize, bytes: u64, total_bytes: u64 },
    Opened { rows: usize, columns: usize },
    OpenFailed(String),
    /// A filter was applied; this many rows are shown.
    FilterDone { shown: usize },
    FilterFailed(String),
    FilterProgress { done: usize, total: usize },
    FilterCancelled,
    UniqueProgress { col: usize, done: usize, total: usize },
    UniqueReady { col: usize, values: usize },
    UniqueFailed { col: usize, error: String },
    Exported(String),
    ExportFailed(String),
    /// The status line stays as it is.
    Unchanged,
}

/// What the viewer keeps of an open file besides its reading settings and
/// the drawing of the table.
pub struct ViewState {
    /// The column names.
    pub headers: Vec<String>,
    /// Which columns are shown.
    pub visible_columns: Vec<bool>,
    /// The column layout must be computed again.
    pub column_layout_dirty: bool,
    /// The rows of the file known so far.
    pub total_rows: usize,
    /// The rows shown and their cached cells.
    pub rows: VisibleRows,
    /// The first shown position of the page.
    pub page_start: usize,
    /// The position typed into the jump box.
    pub jump_to: usize,
    /// A shown position the table is to scroll to.
    pub scroll_to_row: Option<usize>,
    /// A filter is being applied.
    pub filtering: bool,
    /// Filters applied so far, and how many there are.
    pub filter_progress: Option<(usize, usize)>,
    /// The value lists of the columns indexed for filtering.
    pub unique_columns: HashMap<usize, UniqueColumnState>,
    /// The column whose value list is open.
    pub active_filter_column: Option<usize>,
    /// The file is being indexed.
    pub indexing: bool,
    /// Rows indexed, bytes read and the file's size, while indexing.
    pub index_progress: Option<(usize, u64, u64)>,
}

/// The shown rows, their cache and the pending request of `a` and `b` are
/// the same.
pub open spec fn rows_alike(a: VisibleRows, b: VisibleRows) -> bool {
    &&& a.logical_rows == b.logical_rows
    &&& a.row_cache@ == b.row_cache@
    &&& a.row_cache_order@ == b.row_cache_order@
    &&& a.row_cache_access == b.row_cache_access
    &&& a.row_cache_columns == b.row_cache_columns
    &&& a.row_request_id == b.row_request_id
    &&& a.row_request_floor == b.row_request_floor
    &&& a.requested_range == b.requested_range
}

/// `a` was cleared from `b`: nothing cached or asked for, and replies to
/// requests made before are stale.
pub open spec fn rows_cleared(a: VisibleRows, b: VisibleRows) -> bool {
    &&& a.row_cache@.len() == 0
    &&& a.row_cache_order@.len() == 0
    &&& a.row_cache_access == 0
    &&& a.row_cache_columns@.len() == 0
    &&& a.requested_range is None
    &&& a.row_request_id == (if b.row_request_id == u64::MAX { 0 } else { (b.row_request_id + 1) as u64 })
    &&& a.row_request_floor == a.row_request_id
}

/// The page start kept within `len` shown rows: no further than the last.
pub open spec fn clamp_page(page: usize, len: nat) -> usize {
    if len == 0 {
        0
    } else if page < len - 1 {
        page
    } else {
        (len - 1) as usize
    }
}

impl ViewState {
    /// The shown rows and their cache are well formed.
    pub open spec fn wf(&self) -> bool {
        self.rows.wf()
    }

    /// Nothing opened.
    pub fn new() -> (s: Self)
        ensures
            s.wf(),
            s.headers@.len() == 0,
            s.visible_columns@.len() == 0,
            s.column_layout_dirty,
            s.total_rows == 0,
            s.rows.logical_rows == LogicalRows::All(0),
            s.rows.row_cache@.len() == 0,
            s.page_start == 0,
            s.jump_to == 0,
            s.scroll_to_row is None,
            !s.filtering,
            s.filter_progress is None,
            s.unique_columns@.len() == 0,
            s.active_filter_column is None,
            !s.indexing,
            s.index_progress is None,
    {
        ViewState {
            headers: Vec::new(),
            visible_columns: Vec::new(),
            column_layout_dirty: true,
            total_rows: 0,
            rows: VisibleRows::new(),
            page_start: 0,
            jump_to: 0,
            scroll_to_row: None,
            filtering: false,
            filter_progress: None,
            unique_columns: HashMap::new(),
            active_filter_column: None,
            indexing: false,
            index_progress: None,
        }
    }

    /// `self` has the column names `headers`, and its shown columns are
    /// reset to all shown when their number changes.
    pub open spec fn headers_from(&self, old: ViewState, headers: Seq<String>) -> bool {
        &&& self.headers@ == headers
        &&& old.visible_columns@.len() != headers.len() ==> self.visible_columns@ == Seq::new(headers.len(), |i: int| true)
            && self.column_layout_dirty
        &&& old.visible_columns@.len() == headers.len() ==> self.visible_columns == old.visible_columns
            && self.column_layout_dirty == old.column_layout_dirty
    }

    /// Column names, shown columns and layout are those of `old`.
    pub open spec fn same_columns(&self, old: ViewState) -> bool {
        self.headers == old.headers && self.visible_columns == old.visible_columns && self.column_layout_dirty
            == old.column_layout_dirty
    }

    /// Row count, shown rows, page and scroll target are those of `old`.
    pub open spec fn same_shown(&self, old: ViewState) -> bool {
        self.total_rows == old.total_rows && self.rows == old.rows && self.page_start == old.page_start
            && self.jump_to == old.jump_to && self.scroll_to_row == old.scroll_to_row
    }

    /// The filtering state is that of `old`.
    pub open spec fn same_filtering(&self, old: ViewState) -> bool {
        self.filtering == old.filtering && self.filter_progress == old.filter_progress
    }

    /// The value lists and the open one are those of `old`.
    pub open spec fn same_uniques(&self, old: ViewState) -> bool {
        self.unique_columns@ == old.unique_columns@ && self.active_filter_column == old.active_filter_column
    }

    /// The indexing state is that of `old`.
    pub open spec fn same_indexing(&self, old: ViewState) -> bool {
        self.indexing == old.indexing && self.index_progress == old.index_progress
    }

    /// Takes the column names of a file.
    fn apply_headers(&mut self, headers: Vec<String>)
        ensures
            final(self).headers_from(*old(self), headers@),
            final(self).same_shown(*old(self)),
            final(self).same_filtering(*old(self)),
            final(self).same_uniques(*old(self)),
            final(self).same_indexing(*old(self)),
    {
        if self.visible_columns.len() != headers.len() {
            self.visible_columns = vec![true; headers.len()];
            self.column_layout_dirty = true;
            assert(self.visible_columns@ =~= Seq::new(headers@.len(), |i: int| true));
        }
        self.headers = headers;
    }

    /// Keeps the page start within the shown rows and puts the jump box on it.
    fn clamp_page_to_rows(&mut self)
        requires
            old(self).wf(),
        ensures
            final(self).page_start == clamp_page(old(self).page_start, old(self).rows.logical_rows.shown().len()),
            final(self).jump_to == final(self).page_start,
            final(self).rows == old(self).rows,
            final(self).total_rows == old(self).total_rows,
            final(self).scroll_to_row == old(self).scroll_to_row,
            final(self).same_columns(*old(self)),
            final(self).same_filtering(*old(self)),
            final(self).same_uniques(*old(self)),
            final(self).same_indexing(*old(self)),
    {
        let len = self.rows.logical_rows.len();
        let last = if len > 0 { len - 1 } else { 0 };
        if self.page_start > last {
            self.page_start = last;
        }
        self.jump_to = self.page_start;
    }

    /// Drops every choice of values, shows all rows again from the top and
    /// clears the cached rows.
    pub fn clear_filters(&mut self)
        requires
            old(self).wf(),
        ensures
            final(self).wf(),
            final(self).unique_columns@.dom() == old(self).unique_columns@.dom(),
            forall|c: usize| #[trigger] final(self).unique_columns@.contains_key(c) ==> {
                let st = final(self).unique_columns@[c];
                let was = old(self).unique_columns@[c];
                &&& st.selected@.len() == 0 && st.excluded@.len() == 0 && !st.all_selected
                &&& st.values == was.values && st.indexing == was.indexing && st.progress == was.progress
                &&& st.error == was.error && st.value_filter == was.value_filter
                &&& st.cached_value_filter == was.cached_value_filter
                &&& st.cached_filter_value_count == was.cached_filter_value_count
                &&& st.cached_filtered_indices == was.cached_filtered_indices
            },
            final(self).rows.logical_rows == LogicalRows::All(old(self).total_rows),
            rows_cleared(final(self).rows, old(self).rows),
            final(self).page_start == 0 && final(self).jump_to == 0,
            final(self).scroll_to_row == Some(0usize),
            final(self).total_rows == old(self).total_rows,
            final(self).active_filter_column == old(self).active_filter_column,
            final(self).same_columns(*old(self)),
            final(self).same_filtering(*old(self)),
            final(self).same_indexing(*old(self)),
    {
        let ghost m = self.unique_columns@;
        let ghost seq = vstd::std_specs::hash::spec_hash_map_iter(&self.unique_columns).remaining();
        let mut cols: Vec<usize> = Vec::new();
        for (col, _state) in it: self.unique_columns.iter()
            invariant
                it.seq() == seq,
                m == self.unique_columns@,
                self.rows == old(self).rows,
                self.rows.wf(),
                self.total_rows == old(self).total_rows,
                self.same_columns(*old(self)),
                self.same_filtering(*old(self)),
                self.same_indexing(*old(self)),
                self.active_filter_column == old(self).active_filter_column,
                cols@.len() == it.index(),
                forall|j: int| 0 <= j < cols@.len() ==> #[trigger] cols@[j] == *seq[j].0,
        {
            cols.push(*col);
        }
        let ghost all = cols@;
        proof {
            assert(cols@.len() == seq.len());
        }
        let mut i: usize = 0;
        while i < cols.len()
            invariant
                all == cols@,
                0 <= i <= cols@.len(),
                self.rows == old(self).rows,
                self.rows.wf(),
                self.total_rows == old(self).total_rows,
                self.same_columns(*old(self)),
                self.same_filtering(*old(self)),
                self.same_indexing(*old(self)),
                self.active_filter_column == old(self).active_filter_column,
                self.unique_columns@.dom() == m.dom(),
                forall|c: usize| #[trigger] self.unique_columns@.contains_key(c) ==> {
                    let st = self.unique_columns@[c];
                    let was = m[c];
                    &&& st.values == was.values && st.indexing == was.indexing && st.progress == was.progress
                    &&& st.error == was.error && st.value_filter == was.value_filter
                    &&& st.cached_value_filter == was.cached_value_filter
                    &&& st.cached_filter_value_count == was.cached_filter_value_count
                    &&& st.cached_filtered_indices == was.cached_filtered_indices
                    &&& (exists|q: int| 0 <= q < i && all[q] == c) ==> st.selected@.len() == 0 && st.excluded@.len() == 0
                        && !st.all_selected
                    &&& !(exists|q: int| 0 <= q < i && all[q] == c) ==> st == was
                },
            decreases cols@.len() - i,
        {
            let c = cols[i];
            let ghost before = self.unique_columns@;
            match self.unique_columns.remove(&c) {
                Some(st) => {
                    let mut st = st;
                    st.selected = Vec::new();
                    st.excluded = Vec::new();
                    st.all_selected = false;
                    self.unique_columns.insert(c, st);
                    proof {
                        assert(self.unique_columns@.dom() =~= before.dom());
                    }
                },
                None => {},
            }
            proof {
                assert forall|x: usize| #[trigger] self.unique_columns@.contains_key(x) implies ((exists|q: int|
                    0 <= q < i + 1 && all[q] == x) ==> self.unique_columns@[x].selected@.len() == 0) by {
                    if x != c && exists|q: int| 0 <= q < i + 1 && all[q] == x {
                        let q = choose|q: int| 0 <= q < i + 1 && all[q] == x;
                        assert(q < i);
                    }
                }
            }
            i = i + 1;
        }
        proof {
            assert forall|c: usize| #[trigger] m.contains_key(c) implies exists|q: int| 0 <= q < all.len() && all[q] == c by {
                assert(seq.contains((&c, &m[c])));
                let k = choose|k: int| 0 <= k < seq.len() && seq[k] == (&c, &m[c]);
                assert(all[k] == c);
            }
        }
        self.rows.set_all_rows(self.total_rows);
        self.page_start = 0;
        self.jump_to = 0;
        self.scroll_to_row = Some(0);
        self.rows.clear_rows();
    }

    /// Applies one report of the worker and says how the status line changes.
    #[verifier::rlimit(50)]
    pub fn apply_view_event(&mut self, evt: Event) -> (change: StatusChange)
        requires
            old(self).wf(),
        ensures
            final(self).wf(),
            match evt {
                Event::Previewed(Ok(snap)) => {
                    &&& change == StatusChange::PreviewReady { rows: snap.row_count }
                    &&& final(self).headers_from(*old(self), snap.headers@)
                    &&& final(self).total_rows == snap.row_count
                    &&& final(self).rows.logical_rows == LogicalRows::All(snap.row_count)
                    &&& rows_cleared(final(self).rows, old(self).rows)
                    &&& final(self).page_start == clamp_page(old(self).page_start, snap.row_count as nat)
                    &&& final(self).jump_to == final(self).page_start
                    &&& final(self).scroll_to_row == old(self).scroll_to_row
                    &&& final(self).same_filtering(*old(self))
                    &&& final(self).same_uniques(*old(self))
                    &&& final(self).same_indexing(*old(self))
                },
                Event::Previewed(Err(e)) => change == StatusChange::PreviewFailed(e) && final(self).same_columns(*old(self))
                    && final(self).same_shown(*old(self)) && final(self).same_filtering(*old(self)) && final(self).same_uniques(
                    *old(self),
                ) && final(self).same_indexing(*old(self)),
                Event::IndexStarted(Ok((snap, total_bytes))) => {
                    let shown = if old(self).total_rows >= snap.row_count { old(self).total_rows } else { snap.row_count };
                    &&& change == StatusChange::IndexStarted { rows: shown }
                    &&& final(self).headers_from(*old(self), snap.headers@)
                    &&& final(self).total_rows == shown
                    &&& final(self).rows.logical_rows == (if old(self).rows.logical_rows is All {
                        LogicalRows::All(shown)
                    } else {
                        old(self).rows.logical_rows
                    })
                    &&& final(self).rows.row_cache@ == old(self).rows.row_cache@
                    &&& final(self).page_start == clamp_page(old(self).page_start, final(self).rows.logical_rows.shown().len())
                    &&& final(self).jump_to == final(self).page_start
                    &&& final(self).scroll_to_row == old(self).scroll_to_row
                    &&& final(self).indexing
                    &&& final(self).index_progress == Some((0usize, 0u64, total_bytes))
                    &&& final(self).same_filtering(*old(self))
                    &&& final(self).same_uniques(*old(self))
                },
                Event::IndexStarted(Err(e)) => {
                    &&& change == StatusChange::IndexStartFailed(e)
                    &&& !final(self).indexing && final(self).index_progress is None
                    &&& final(self).same_columns(*old(self)) && final(self).same_shown(*old(self))
                    &&& final(self).same_filtering(*old(self)) && final(self).same_uniques(*old(self))
                },
                Event::IndexProgress { indexed_rows, bytes, total_bytes } => {
                    &&& change == StatusChange::IndexProgress { rows: indexed_rows, bytes, total_bytes }
                    &&& final(self).total_rows == indexed_rows
                    &&& final(self).indexing
                    &&& final(self).index_progress == Some((indexed_rows, bytes, total_bytes))
                    &&& final(self).rows.logical_rows == (if old(self).rows.logical_rows is All {
                        LogicalRows::All(indexed_rows)
                    } else {
                        old(self).rows.logical_rows
                    })
                    &&& final(self).rows.row_cache@ == old(self).rows.row_cache@
                    &&& final(self).page_start == old(self).page_start && final(self).jump_to == old(self).jump_to
                    &&& final(self).scroll_to_row == old(self).scroll_to_row
                    &&& final(self).same_columns(*old(self)) && final(self).same_filtering(*old(self))
                    &&& final(self).same_uniques(*old(self))
                },
                Event::Opened(Ok(snap)) => {
                    &&& change == StatusChange::Opened { rows: snap.row_count, columns: snap.headers@.len() as usize }
                    &&& final(self).headers_from(*old(self), snap.headers@)
                    &&& final(self).total_rows == snap.row_count
                    &&& final(self).rows.logical_rows == LogicalRows::All(snap.row_count)
                    &&& final(self).rows.row_cache@ == old(self).rows.row_cache@
                    &&& final(self).page_start == 0 && final(self).jump_to == 0
                    &&& final(self).scroll_to_row == old(self).scroll_to_row
                    &&& !final(self).indexing && final(self).index_progress is None
                    &&& final(self).same_filtering(*old(self)) && final(self).same_uniques(*old(self))
                },
                Event::Opened(Err(e)) => {
                    &&& change == StatusChange::OpenFailed(e)
                    &&& !final(self).indexing && final(self).index_progress is None
                    &&& final(self).same_columns(*old(self)) && final(self).same_shown(*old(self))
                    &&& final(self).same_filtering(*old(self)) && final(self).same_uniques(*old(self))
                },
                Event::Filtered(Ok(fr)) => {
                    &&& match fr {
                        FilterRows::All(n) => final(self).rows.logical_rows == LogicalRows::All(n),
                        FilterRows::AllExcept { total, excluded } => final(self).rows.logical_rows matches LogicalRows::AllExcept {
                            total: t,
                            excluded: e,
                        } && t == total && forall|x: usize| e@.contains(x) <==> excluded@.contains(x),
                        FilterRows::Rows(r) => final(self).rows.logical_rows matches LogicalRows::Filtered(s) && s@ == r@,
                    }
                    &&& change == StatusChange::FilterDone {
                        shown: match fr {
                            FilterRows::Rows(r) => r@.len() as usize,
                            _ => final(self).rows.logical_rows.shown().len() as usize,
                        },
                    }
                    &&& rows_cleared(final(self).rows, old(self).rows)
                    &&& final(self).page_start == 0 && final(self).jump_to == 0
                    &&& final(self).scroll_to_row == Some(0usize)
                    &&& !final(self).filtering && final(self).filter_progress is None
                    &&& final(self).total_rows == old(self).total_rows
                    &&& final(self).same_columns(*old(self)) && final(self).same_uniques(*old(self))
                    &&& final(self).same_indexing(*old(self))
                },
                Event::Filtered(Err(e)) => {
                    &&& change == StatusChange::FilterFailed(e)
                    &&& !final(self).filtering && final(self).filter_progress is None
                    &&& final(self).same_columns(*old(self)) && final(self).same_shown(*old(self))
                    &&& final(self).same_uniques(*old(self)) && final(self).same_indexing(*old(self))
                },
                Event::FilterProgress { done, total } => {
                    &&& change == StatusChange::FilterProgress { done, total }
                    &&& final(self).filtering && final(self).filter_progress == Some((done, total))
                    &&& final(self).same_columns(*old(self)) && final(self).same_shown(*old(self))
                    &&& final(self).same_uniques(*old(self)) && final(self).same_indexing(*old(self))
                },
                Event::FilterCancelled => {
                    &&& change == StatusChange::FilterCancelled
                    &&& !final(self).filtering && final(self).filter_progress is None
                    &&& final(self).same_columns(*old(self)) && final(self).same_shown(*old(self))
                    &&& final(self).same_uniques(*old(self)) && final(self).same_indexing(*old(self))
                },
                Event::UniqueIndexProgress { col, done, total } => {
                    let st = final(self).unique_columns@[col];
                    &&& change == StatusChange::UniqueProgress { col, done, total }
                    &&& final(self).unique_columns@ == old(self).unique_columns@.insert(col, st)
                    &&& st.indexing && st.progress == Some((done, total)) && st.error is None
                    &&& old(self).unique_columns@.contains_key(col) ==> {
                        let was = old(self).unique_columns@[col];
                        &&& st.values == was.values && st.selected == was.selected && st.excluded == was.excluded
                        &&& st.all_selected == was.all_selected && st.value_filter == was.value_filter
                        &&& st.cached_value_filter == was.cached_value_filter
                        &&& st.cached_filter_value_count == was.cached_filter_value_count
                        &&& st.cached_filtered_indices == was.cached_filtered_indices
                    }
                    &&& !old(self).unique_columns@.contains_key(col) ==> st.values@.len() == 0 && st.selected@.len() == 0
                        && st.excluded@.len() == 0 && !st.all_selected && st.value_filter@.len() == 0
                        && st.cached_value_filter@.len() == 0 && st.cached_filter_value_count == 0
                        && st.cached_filtered_indices@.len() == 0
                    &&& final(self).active_filter_column == old(self).active_filter_column
                    &&& final(self).same_columns(*old(self)) && final(self).same_shown(*old(self))
                    &&& final(self).same_filtering(*old(self)) && final(self).same_indexing(*old(self))
                },
                Event::UniqueIndexed { col, result } => {
                    let st = final(self).unique_columns@[col];
                    let had = old(self).unique_columns@.contains_key(col);
                    let was = old(self).unique_columns@[col];
                    &&& final(self).unique_columns@ == old(self).unique_columns@.insert(col, st)
                    &&& !st.indexing && st.progress is None
                    &&& st.value_filter@ == (if had { was.value_filter@ } else { Seq::empty() })
                    &&& match result {
                        Ok(values) => {
                            &&& change == StatusChange::UniqueReady { col, values: values@.len() as usize }
                            &&& st.values@ == values@
                            &&& st.selected@ == keep_known(if had { was.selected@ } else { Seq::empty() }, values@)
                            &&& st.excluded@ == keep_known(if had { was.excluded@ } else { Seq::empty() }, values@)
                            &&& st.all_selected == (values@.len() > 0 && had && was.all_selected)
                            &&& st.error is None
                            &&& st.cached_value_filter@.len() == 0 && st.cached_filter_value_count == 0
                            &&& st.cached_filtered_indices@.len() == 0
                            &&& final(self).active_filter_column == Some(col)
                        },
                        Err(e) => {
                            &&& change == StatusChange::UniqueFailed { col, error: e }
                            &&& st.error == Some(e)
                            &&& had ==> st.values == was.values && st.selected == was.selected && st.excluded == was.excluded
                                && st.all_selected == was.all_selected
                            &&& !had ==> st.values@.len() == 0 && st.selected@.len() == 0 && st.excluded@.len() == 0
                                && !st.all_selected
                            &&& final(self).active_filter_column == old(self).active_filter_column
                        },
                    }
                    &&& final(self).same_columns(*old(self)) && final(self).same_shown(*old(self))
                    &&& final(self).same_filtering(*old(self)) && final(self).same_indexing(*old(self))
                },
                Event::RowsRead { request_id, rows } => {
                    &&& change == StatusChange::Unchanged
                    &&& final(self).rows.took_rows_read(old(self).rows, request_id, rows@)
                    &&& final(self).total_rows == old(self).total_rows && final(self).page_start == old(self).page_start
                    &&& final(self).jump_to == old(self).jump_to && final(self).scroll_to_row == old(self).scroll_to_row
                    &&& final(self).same_columns(*old(self)) && final(self).same_filtering(*old(self))
                    &&& final(self).same_uniques(*old(self)) && final(self).same_indexing(*old(self))
                },
                Event::RowsReadDone { request_id } => {
                    &&& change == StatusChange::Unchanged
                    &&& request_id == old(self).rows.row_request_id ==> final(self).rows.requested_range is None
                        && final(self).rows.row_request_id == old(self).rows.row_request_id
                        && final(self).rows.row_request_floor == old(self).rows.row_request_floor
                    &&& request_id != old(self).rows.row_request_id ==> rows_alike(final(self).rows, old(self).rows)
                    &&& final(self).rows.row_cache@ == old(self).rows.row_cache@
                    &&& final(self).rows.logical_rows == old(self).rows.logical_rows
                    &&& final(self).total_rows == old(self).total_rows && final(self).page_start == old(self).page_start
                    &&& final(self).jump_to == old(self).jump_to && final(self).scroll_to_row == old(self).scroll_to_row
                    &&& final(self).same_columns(*old(self)) && final(self).same_filtering(*old(self))
                    &&& final(self).same_uniques(*old(self)) && final(self).same_indexing(*old(self))
                },
                Event::Exported(r) => {
                    &&& change == (match r {
                        Ok(path) => StatusChange::Exported(path),
                        Err(e) => StatusChange::ExportFailed(e),
                    })
                    &&& final(self).same_columns(*old(self)) && final(self).same_shown(*old(self))
                    &&& final(self).same_filtering(*old(self)) && final(self).same_uniques(*old(self))
                    &&& final(self).same_indexing(*old(self))
                },
            },
    {
        match evt {
            Event::Previewed(Ok(snap)) => {
                let rows = snap.row_count;
                self.apply_headers(snap.headers);
                self.total_rows = rows;
                self.rows.set_all_rows(rows);
                self.clamp_page_to_rows();
                self.rows.clear_rows();
                StatusChange::PreviewReady { rows }
            },
            Event::Previewed(Err(e)) => StatusChange::PreviewFailed(e),
            Event::IndexStarted(Ok((snap, total_bytes))) => {
                let shown = if self.total_rows >= snap.row_count { self.total_rows } else { snap.row_count };
                self.apply_headers(snap.headers);
                self.total_rows = shown;
                if self.rows.logical_rows.is_all() {
                    self.rows.set_all_rows(shown);
                }
                self.clamp_page_to_rows();
                self.indexing = true;
                self.index_progress = Some((0, 0, total_bytes));
                StatusChange::IndexStarted { rows: shown }
            },
            Event::IndexStarted(Err(e)) => {
                self.indexing = false;
                self.index_progress = None;
                StatusChange::IndexStartFailed(e)
            },
            Event::IndexProgress { indexed_rows, bytes, total_bytes } => {
                self.total_rows = indexed_rows;
                if self.rows.logical_rows.is_all() {
                    self.rows.set_all_rows(indexed_rows);
                }
                self.indexing = true;
                self.index_progress = Some((indexed_rows, bytes, total_bytes));
                StatusChange::IndexProgress { rows: indexed_rows, bytes, total_bytes }
            },
            Event::Opened(Ok(snap)) => {
                let rows = snap.row_count;
                let columns = snap.headers.len();
                self.apply_headers(snap.headers);
                self.total_rows = rows;
                self.rows.set_all_rows(rows);
                self.page_start = 0;
                self.jump_to = 0;
                self.indexing = false;
                self.index_progress = None;
                StatusChange::Opened { rows, columns }
            },
            Event::Opened(Err(e)) => {
                self.indexing = false;
                self.index_progress = None;
                StatusChange::OpenFailed(e)
            },
            Event::Filtered(Ok(fr)) => {
                let explicit = match fr {
                    FilterRows::All(len) => {
                        self.rows.set_all_rows(len);
                        None
                    },
                    FilterRows::AllExcept { total, excluded } => {
                        self.rows.set_all_except_rows(total, excluded);
                        None
                    },
                    FilterRows::Rows(rows) => {
                        let count = rows.len();
                        self.rows.set_filtered_rows(rows);
                        Some(count)
                    },
                };
                self.page_start = 0;
                self.jump_to = 0;
                self.scroll_to_row = Some(0);
                self.rows.clear_rows();
                let shown = match explicit {
                    Some(n) => n,
                    None => self.rows.logical_rows.len(),
                };
                self.filtering = false;
                self.filter_progress = None;
                StatusChange::FilterDone { shown }
            },
            Event::Filtered(Err(e)) => {
                self.filtering = false;
                self.filter_progress = None;
                StatusChange::FilterFailed(e)
            },
            Event::FilterProgress { done, total } => {
                self.filter_progress = Some((done, total));
                self.filtering = true;
                StatusChange::FilterProgress { done, total }
            },
            Event::FilterCancelled => {
                self.filtering = false;
                self.filter_progress = None;
                StatusChange::FilterCancelled
            },
            Event::UniqueIndexProgress { col, done, total } => {
                let mut state = match self.unique_columns.remove(&col) {
                    Some(s) => s,
                    None => UniqueColumnState::new(),
                };
                state.indexing = true;
                state.progress = Some((done, total));
                state.error = None;
                self.unique_columns.insert(col, state);
                proof {
                    assert(self.unique_columns@ =~= old(self).unique_columns@.insert(col, self.unique_columns@[col]));
                }
                StatusChange::UniqueProgress { col, done, total }
            },
            Event::UniqueIndexed { col, result } => {
                let mut state = match self.unique_columns.remove(&col) {
                    Some(s) => s,
                    None => UniqueColumnState::new(),
                };
                state.indexing = false;
                state.progress = None;
                let change = match result {
                    Ok(values) => {
                        state.selected = retain_known(&state.selected, &values);
                        state.excluded = retain_known(&state.excluded, &values);
                        if values.len() == 0 {
                            state.all_selected = false;
                        }
                        let count = values.len();
                        state.values = values;
                        state.cached_value_filter = String::new();
                        state.cached_filter_value_count = 0;
                        state.cached_filtered_indices = Vec::new();
                        state.error = None;
                        self.active_filter_column = Some(col);
                        StatusChange::UniqueReady { col, values: count }
                    },
                    Err(e) => {
                        state.error = Some(e.clone());
                        StatusChange::UniqueFailed { col, error: e }
                    },
                };
                self.unique_columns.insert(col, state);
                proof {
                    assert(self.unique_columns@ =~= old(self).unique_columns@.insert(col, self.unique_columns@[col]));
                }
                change
            },
            Event::RowsRead { request_id, rows } => {
                self.rows.apply_rows_read(request_id, rows);
                StatusChange::Unchanged
            },
            Event::RowsReadDone { request_id } => {
                self.rows.apply_rows_read_done(request_id);
                StatusChange::Unchanged
            },
            Event::Exported(r) => match r {
                Ok(path) => StatusChange::Exported(path),
                Err(e) => StatusChange::ExportFailed(e),
            },
        }
    }
}

} // verus!
