//! The viewer's side of row loading: the cells it holds for shown rows,
//! which rows it asks the worker for, and which cached rows it lets go.

use std::collections::{HashMap, VecDeque};

use vstd::prelude::*;
use vstd::std_specs::hash::spec_hash_map_iter;
use vstd::std_specs::iter::IteratorSpec;

use crate::external::{dedup_sorted, sort_by_stamp, sort_numbers};
use crate::logical::LogicalRows;
use crate::message::Job;
use crate::rows::sorted_strict;

verus! {

/// The columns of `cells` strictly increase.
pub open spec fn columns_increasing(cells: Seq<(usize, String)>) -> bool {
    forall|i: int, j: int| 0 <= i < j < cells.len() ==> cells[i].0 < cells[j].0
}

/// The text of each column held in `cells`.
pub open spec fn column_texts(cells: Seq<(usize, String)>) -> Map<usize, Seq<char>>
    decreases cells.len(),
{
    if cells.len() == 0 {
        Map::empty()
    } else {
        column_texts(cells.drop_last()).insert(cells.last().0, cells.last().1@)
    }
}

/// In a list with increasing columns, a column has a text exactly when the
/// list holds it, and the text is the one listed.
pub proof fn lemma_column_texts(cells: Seq<(usize, String)>)
    requires
        columns_increasing(cells),
    ensures
        forall|c: usize| #[trigger] column_texts(cells).contains_key(c) <==> exists|i: int| 0 <= i < cells.len() && cells[i].0 == c,
        forall|i: int| 0 <= i < cells.len() ==> #[trigger] column_texts(cells)[cells[i].0] == cells[i].1@,
    decreases cells.len(),
{
    if cells.len() > 0 {
        let d = cells.drop_last();
        lemma_column_texts(d);
        let n = cells.len() - 1;
        assert forall|c: usize| #[trigger] column_texts(cells).contains_key(c) <==> exists|i: int| 0 <= i < cells.len() && cells[i].0 == c by {
            if exists|i: int| 0 <= i < cells.len() && cells[i].0 == c {
                let i = choose|i: int| 0 <= i < cells.len() && cells[i].0 == c;
                if i < n {
                    assert(d[i].0 == c);
                }
            }
            if column_texts(d).contains_key(c) {
                let i = choose|i: int| 0 <= i < d.len() && d[i].0 == c;
                assert(cells[i].0 == c);
            }
        }
        assert forall|i: int| 0 <= i < cells.len() implies #[trigger] column_texts(cells)[cells[i].0] == cells[i].1@ by {
            if i < n {
                assert(d[i] == cells[i]);
                assert(cells[i].0 < cells[n].0);
                assert(column_texts(d)[d[i].0] == d[i].1@);
            }
        }
    }
}

proof fn lemma_column_texts_push(cells: Seq<(usize, String)>, cell: (usize, String))
    ensures
        column_texts(cells.push(cell)) == column_texts(cells).insert(cell.0, cell.1@),
{
    assert(cells.push(cell).drop_last() =~= cells);
}

/// Position of column `col` in `cells`, if it is there.
fn find_column(cells: &Vec<(usize, String)>, col: usize) -> (res: Option<usize>)
    requires
        columns_increasing(cells@),
    ensures
        res matches Some(i) ==> i < cells@.len() && cells@[i as int].0 == col,
        res is None ==> forall|i: int| 0 <= i < cells@.len() ==> cells@[i].0 != col,
{
    let mut lo: usize = 0;
    let mut hi: usize = cells.len();
    while lo < hi
        invariant
            columns_increasing(cells@),
            0 <= lo <= hi <= cells@.len(),
            forall|i: int| 0 <= i < lo ==> cells@[i].0 < col,
            forall|i: int| hi <= i < cells@.len() ==> cells@[i].0 > col,
        decreases hi - lo,
    {
        let mid = lo + (hi - lo) / 2;
        let c = cells[mid].0;
        if c == col {
            return Some(mid);
        } else if c < col {
            lo = mid + 1;
        } else {
            hi = mid;
        }
    }
    None
}

/// `x` is in the strictly increasing `s`.
fn sorted_contains(s: &[usize], x: usize) -> (b: bool)
    requires
        sorted_strict(s@),
    ensures
        b == s@.contains(x),
{
    let mut lo: usize = 0;
    let mut hi: usize = s.len();
    while lo < hi
        invariant
            sorted_strict(s@),
            0 <= lo <= hi <= s@.len(),
            forall|i: int| 0 <= i < lo ==> s@[i] < x,
            forall|i: int| hi <= i < s@.len() ==> s@[i] > x,
        decreases hi - lo,
    {
        let mid = lo + (hi - lo) / 2;
        if s[mid] == x {
            return true;
        } else if s[mid] < x {
            lo = mid + 1;
        } else {
            hi = mid;
        }
    }
    proof {
        if s@.contains(x) {
            let i = choose|i: int| 0 <= i < s@.len() && s@[i] == x;
        }
    }
    false
}

/// The cells the viewer holds for one shown row, by column, and when the row
/// was last used.
#[derive(Clone, Debug)]
pub struct CachedRow {
    pub cells: Vec<(usize, String)>,
    pub access_id: u64,
}

impl CachedRow {
    /// A row with no cells.
    pub fn empty() -> (row: CachedRow)
        ensures
            row.cells@.len() == 0,
            row.access_id == 0,
    {
        CachedRow { cells: Vec::new(), access_id: 0 }
    }

    /// The cells are listed by strictly increasing column.
    pub open spec fn wf(&self) -> bool {
        columns_increasing(self.cells@)
    }

    /// The text held for each column.
    pub open spec fn texts(&self) -> Map<usize, Seq<char>> {
        column_texts(self.cells@)
    }

    /// The row holds every one of `columns`.
    pub fn has_columns(&self, columns: &[usize]) -> (b: bool)
        requires
            self.wf(),
        ensures
            b == forall|k: int| 0 <= k < columns@.len() ==> self.texts().contains_key(#[trigger] columns@[k]),
    {
        proof {
            lemma_column_texts(self.cells@);
        }
        let mut k: usize = 0;
        while k < columns.len()
            invariant
                self.wf(),
                0 <= k <= columns@.len(),
                forall|j: int| 0 <= j < k ==> self.texts().contains_key(#[trigger] columns@[j]),
            decreases columns@.len() - k,
        {
            proof {
                lemma_column_texts(self.cells@);
            }
            if find_column(&self.cells, columns[k]).is_none() {
                proof {
                    assert(!self.texts().contains_key(columns@[k as int]));
                }
                return false;
            }
            k = k + 1;
        }
        true
    }

    /// The text held for column `col`, if the row holds it.
    pub fn get(&self, col: usize) -> (res: Option<&str>)
        requires
            self.wf(),
        ensures
            match res {
                Some(s) => self.texts().contains_key(col) && s@ == self.texts()[col],
                None => !self.texts().contains_key(col),
            },
    {
        proof {
            lemma_column_texts(self.cells@);
        }
        match find_column(&self.cells, col) {
            Some(i) => Some(self.cells[i].1.as_str()),
            None => None,
        }
    }

    /// Keeps only the cells of `columns`.
    pub fn retain_columns(&mut self, columns: &[usize])
        requires
            old(self).wf(),
            sorted_strict(columns@),
        ensures
            final(self).wf(),
            final(self).access_id == old(self).access_id,
            final(self).texts() == old(self).texts().restrict(columns@.to_set()),
    {
        let ghost before = self.cells@;
        proof {
            lemma_column_texts(before);
        }
        let mut kept: Vec<(usize, String)> = Vec::new();
        let mut i: usize = 0;
        while i < self.cells.len()
            invariant
                self.cells@ == before,
                columns_increasing(before),
                sorted_strict(columns@),
                0 <= i <= before.len(),
                columns_increasing(kept@),
                forall|k: int| 0 <= k < kept@.len() ==> exists|m: int| 0 <= m < i && before[m] == #[trigger] kept@[k],
                forall|k: int| 0 <= k < kept@.len() ==> columns@.contains(#[trigger] kept@[k].0),
                forall|m: int| 0 <= m < i && columns@.contains(before[m].0) ==> exists|k: int| 0 <= k < kept@.len() && #[trigger] kept@[k] == before[m],
            decreases before.len() - i,
        {
            let col = self.cells[i].0;
            if sorted_contains(columns, col) {
                let text = self.cells[i].1.clone();
                let ghost prev = kept@;
                kept.push((col, text));
                proof {
                    assert(kept@[prev.len() as int] == before[i as int]);
                    assert forall|a: int, b: int| 0 <= a < b < kept@.len() implies kept@[a].0 < kept@[b].0 by {
                        if b == prev.len() {
                            let m = choose|m: int| 0 <= m < i && before[m] == prev[a];
                        }
                    }
                    assert forall|k: int| 0 <= k < kept@.len() implies exists|m: int| 0 <= m < i + 1 && before[m] == #[trigger] kept@[k] by {
                        if k < prev.len() {
                            let m = choose|m: int| 0 <= m < i && before[m] == prev[k];
                        }
                    }
                    assert forall|m: int| 0 <= m < i + 1 && columns@.contains(before[m].0) implies exists|k: int| 0 <= k < kept@.len() && #[trigger] kept@[k] == before[m] by {
                        if m < i {
                            let k = choose|k: int| 0 <= k < prev.len() && prev[k] == before[m];
                            assert(kept@[k] == before[m]);
                        }
                    }
                }
            }
            i = i + 1;
        }
        proof {
            lemma_column_texts(kept@);
            let want = column_texts(before).restrict(columns@.to_set());
            assert forall|c: usize| #[trigger] column_texts(kept@).contains_key(c) <==> want.contains_key(c) by {
                if column_texts(kept@).contains_key(c) {
                    let k = choose|k: int| 0 <= k < kept@.len() && kept@[k].0 == c;
                    let m = choose|m: int| 0 <= m < i && before[m] == kept@[k];
                    assert(columns@.to_set().contains(c));
                }
                if want.contains_key(c) {
                    let m = choose|m: int| 0 <= m < before.len() && before[m].0 == c;
                    assert(columns@.contains(c));
                    let k = choose|k: int| 0 <= k < kept@.len() && #[trigger] kept@[k] == before[m];
                }
            }
            assert forall|c: usize| #[trigger] column_texts(kept@).contains_key(c) implies column_texts(kept@)[c] == want[c] by {
                let k = choose|k: int| 0 <= k < kept@.len() && kept@[k].0 == c;
                let m = choose|m: int| 0 <= m < i && before[m] == kept@[k];
            }
            assert(column_texts(kept@) =~= want);
        }
        self.cells = kept;
    }

    /// Adds the cells `incoming` (by increasing column); a column already held
    /// takes the new text.
    pub fn insert_cells(&mut self, incoming: Vec<(usize, String)>)
        requires
            old(self).wf(),
            columns_increasing(incoming@),
        ensures
            final(self).wf(),
            final(self).access_id == old(self).access_id,
            final(self).texts() == old(self).texts().union_prefer_right(column_texts(incoming@)),
    {
        let ghost before = self.cells@;
        proof {
            lemma_column_texts(before);
            lemma_column_texts(incoming@);
        }
        let mut out: Vec<(usize, String)> = Vec::new();
        let mut i: usize = 0;
        let mut j: usize = 0;
        proof {
            assert(before.take(0) =~= Seq::<(usize, String)>::empty());
            assert(incoming@.take(0) =~= Seq::<(usize, String)>::empty());
            assert(column_texts(out@) =~= column_texts(before.take(0)).union_prefer_right(column_texts(incoming@.take(0))));
        }
        while i < self.cells.len() || j < incoming.len()
            invariant
                self.cells@ == before,
                columns_increasing(before),
                columns_increasing(incoming@),
                0 <= i <= before.len(),
                0 <= j <= incoming@.len(),
                columns_increasing(out@),
                forall|k: int| 0 <= k < out@.len() ==> (i < before.len() ==> #[trigger] out@[k].0 < before[i as int].0),
                forall|k: int| 0 <= k < out@.len() ==> (j < incoming@.len() ==> #[trigger] out@[k].0 < incoming@[j as int].0),
                forall|c: usize| #[trigger] column_texts(out@).contains_key(c) ==> exists|k: int| 0 <= k < out@.len() && out@[k].0 == c,
                column_texts(out@) == column_texts(before.take(i as int)).union_prefer_right(column_texts(incoming@.take(j as int))),
            decreases before.len() - i + incoming@.len() - j,
        {
            let ghost prev = out@;
            let ghost oi = i as int;
            let ghost oj = j as int;
            let take_old = j >= incoming.len() || (i < self.cells.len() && self.cells[i].0 < incoming[j].0);
            let take_new = i >= self.cells.len() || (j < incoming.len() && incoming[j].0 < self.cells[i].0);
            let cell = if take_old {
                let c = (self.cells[i].0, self.cells[i].1.clone());
                i = i + 1;
                c
            } else if take_new {
                let c = (incoming[j].0, incoming[j].1.clone());
                j = j + 1;
                c
            } else {
                let c = (incoming[j].0, incoming[j].1.clone());
                i = i + 1;
                j = j + 1;
                c
            };
            out.push(cell);
            proof {
                lemma_column_texts_push(prev, cell);
                lemma_column_texts(prev);
                assert forall|a: int, b: int| 0 <= a < b < out@.len() implies out@[a].0 < out@[b].0 by {
                    if b == prev.len() {
                        assert(prev[a].0 < cell.0);
                    }
                }
                assert forall|c: usize| #[trigger] column_texts(out@).contains_key(c) implies exists|k: int| 0 <= k < out@.len() && out@[k].0 == c by {
                    if c != cell.0 {
                        let k = choose|k: int| 0 <= k < prev.len() && prev[k].0 == c;
                        assert(out@[k].0 == c);
                    } else {
                        assert(out@[prev.len() as int].0 == c);
                    }
                }
                let mo = column_texts(before.take(oi));
                let mn = column_texts(incoming@.take(oj));
                if take_old {
                    assert(before.take(i as int) =~= before.take(oi).push(before[oi]));
                    lemma_column_texts_push(before.take(oi), before[oi]);
                    assert(!mn.contains_key(cell.0)) by {
                        if mn.contains_key(cell.0) {
                            assert(column_texts(prev).contains_key(cell.0));
                            let k = choose|k: int| 0 <= k < prev.len() && prev[k].0 == cell.0;
                            assert(prev[k].0 < before[oi].0);
                        }
                    }
                    assert(column_texts(out@) =~= mo.insert(cell.0, cell.1@).union_prefer_right(mn));
                } else if take_new {
                    assert(incoming@.take(j as int) =~= incoming@.take(oj).push(incoming@[oj]));
                    lemma_column_texts_push(incoming@.take(oj), incoming@[oj]);
                    assert(column_texts(out@) =~= mo.union_prefer_right(mn.insert(cell.0, cell.1@)));
                } else {
                    assert(before.take(i as int) =~= before.take(oi).push(before[oi]));
                    lemma_column_texts_push(before.take(oi), before[oi]);
                    assert(incoming@.take(j as int) =~= incoming@.take(oj).push(incoming@[oj]));
                    lemma_column_texts_push(incoming@.take(oj), incoming@[oj]);
                    assert(before[oi].0 == cell.0);
                    assert(column_texts(out@) =~= mo.insert(cell.0, before[oi].1@).union_prefer_right(
                        mn.insert(cell.0, cell.1@),
                    ));
                }
            }
        }
        proof {
            assert(before.take(i as int) =~= before);
            assert(incoming@.take(j as int) =~= incoming@);
        }
        self.cells = out;
    }
}


broadcast use vstd::std_specs::hash::group_hash_axioms;

/// Shown positions before the one asked for that a row request covers.
pub const ROW_CACHE_BEFORE: usize = 64;

/// Shown positions after the one asked for that a row request covers.
pub const ROW_CACHE_AFTER: usize = 192;

/// Most rows the viewer keeps cells for.
pub const ROW_CACHE_LIMIT: usize = 4_000;

/// How many times the row limit the use record may grow before it is
/// rebuilt from the cached rows.
pub const ROW_CACHE_ORDER_COMPACT_FACTOR: usize = 4;

/// A cached row counts as used again only when at least this many uses of
/// other rows came since its last one.
pub const ROW_CACHE_TOUCH_STRIDE: u64 = 256;

/// The access stamp after `a`: one more, skipping zero when it wraps.
pub open spec fn next_stamp(a: u64) -> u64 {
    if a == u64::MAX { 1 } else { (a + 1) as u64 }
}

/// The access stamp of each cached row.
pub open spec fn stamps_of(cache: Map<usize, CachedRow>) -> Map<usize, u64> {
    Map::new(|r: usize| cache.contains_key(r), |r: usize| cache[r].access_id)
}

/// The rows of `stamps` whose latest use is not among the first `p` entries
/// of the use record `order`.
pub open spec fn kept_after(stamps: Map<usize, u64>, order: Seq<(usize, u64)>, p: int) -> Set<usize> {
    Set::new(|r: usize| stamps.contains_key(r) && !order.take(p).contains((r, stamps[r])))
}

/// A row of a reply whose cells get cached: it has some, by increasing column.
pub open spec fn loads_cells(cells: Seq<(usize, String)>) -> bool {
    cells.len() > 0 && columns_increasing(cells)
}

/// How many rows of a reply get cached.
pub open spec fn loaded_rows_count(rows: Seq<(usize, Vec<(usize, String)>)>) -> nat
    decreases rows.len(),
{
    if rows.len() == 0 {
        0
    } else {
        loaded_rows_count(rows.drop_last()) + (if loads_cells(rows.last().1@) { 1nat } else { 0nat })
    }
}

/// The access stamp reached from `a` after `n` more are given.
pub open spec fn stamp_after(a: u64, n: nat) -> u64
    decreases n,
{
    if n == 0 {
        a
    } else {
        next_stamp(stamp_after(a, (n - 1) as nat))
    }
}

/// The cells of the last row of a reply at shown position `p` that get
/// cached, if any does.
pub open spec fn last_loaded_cells(rows: Seq<(usize, Vec<(usize, String)>)>, p: usize) -> Option<Seq<(usize, String)>>
    decreases rows.len(),
{
    if rows.len() == 0 {
        None
    } else if rows.last().0 == p && loads_cells(rows.last().1@) {
        Some(rows.last().1@)
    } else {
        last_loaded_cells(rows.drop_last(), p)
    }
}

/// A reply's first `j` rows get no more rows cached than the whole reply.
proof fn lemma_loaded_rows_count_take(rows: Seq<(usize, Vec<(usize, String)>)>, j: int)
    requires
        0 <= j <= rows.len(),
    ensures
        loaded_rows_count(rows.take(j)) <= loaded_rows_count(rows),
    decreases rows.len(),
{
    if j == rows.len() {
        assert(rows.take(j) =~= rows);
    } else {
        let d = rows.drop_last();
        assert(rows.take(j) =~= d.take(j));
        lemma_loaded_rows_count_take(d, j);
    }
}

/// The use record of `v` is what is left of `order` after its first `p`
/// entries, unless that remainder is longer than its bound, when the record
/// is rebuilt from the cached rows.
pub open spec fn order_left(v: VisibleRows, order: Seq<(usize, u64)>, p: int) -> bool {
    &&& order.len() - p <= ROW_CACHE_LIMIT * ROW_CACHE_ORDER_COMPACT_FACTOR ==> v.row_cache_order@ == order.skip(p)
    &&& order.len() - p > ROW_CACHE_LIMIT * ROW_CACHE_ORDER_COMPACT_FACTOR ==> v.order_rebuilt()
}

/// The viewer's shown rows, the cells it holds for them, and its pending
/// request for more.
pub struct VisibleRows {
    /// The source rows shown, by position.
    pub logical_rows: LogicalRows,
    /// Cells held, by shown position.
    pub row_cache: HashMap<usize, CachedRow>,
    /// Uses of cached rows, oldest first, each with the stamp it was given.
    pub row_cache_order: VecDeque<(usize, u64)>,
    /// The last stamp given.
    pub row_cache_access: u64,
    /// The columns the cached cells are kept for.
    pub row_cache_columns: Vec<usize>,
    /// The number of the latest row request.
    pub row_request_id: u64,
    /// Replies to requests numbered below this are stale.
    pub row_request_floor: u64,
    /// The positions and columns of the pending row request.
    pub requested_range: Option<(usize, usize, Vec<usize>)>,
}

impl VisibleRows {
    /// The shown rows are well formed, every cached row lists its cells by
    /// increasing column and has its latest use in the use record, and the
    /// pending request names its columns in increasing order.
    pub open spec fn wf(&self) -> bool {
        &&& self.logical_rows.wf()
        &&& forall|r: usize| #[trigger] self.row_cache@.contains_key(r) ==> {
            &&& self.row_cache@[r].wf()
            &&& self.row_cache_order@.contains((r, self.row_cache@[r].access_id))
        }
        &&& self.requested_range matches Some(req) ==> sorted_strict(req.2@)
    }

    /// No rows shown and nothing cached or asked for.
    pub fn new() -> (v: Self)
        ensures
            v.wf(),
            v.logical_rows == LogicalRows::All(0),
            v.row_cache@ == Map::<usize, CachedRow>::empty(),
            v.row_cache_order@ == Seq::<(usize, u64)>::empty(),
            v.row_cache_access == 0,
            v.row_cache_columns@ == Seq::<usize>::empty(),
            v.row_request_id == 0,
            v.row_request_floor == 0,
            v.requested_range is None,
    {
        VisibleRows {
            logical_rows: LogicalRows::All(0),
            row_cache: HashMap::new(),
            row_cache_order: VecDeque::new(),
            row_cache_access: 0,
            row_cache_columns: Vec::new(),
            row_request_id: 0,
            row_request_floor: 0,
            requested_range: None,
        }
    }

    /// Shows every row below `len`.
    pub fn set_all_rows(&mut self, len: usize)
        requires
            old(self).wf(),
        ensures
            final(self).wf(),
            final(self).logical_rows == LogicalRows::All(len),
            final(self).row_cache@ == old(self).row_cache@,
            final(self).row_cache_order@ == old(self).row_cache_order@,
            final(self).requested_range == old(self).requested_range,
            final(self).row_cache_access == old(self).row_cache_access,
            final(self).row_cache_columns == old(self).row_cache_columns,
            final(self).row_request_id == old(self).row_request_id,
            final(self).row_request_floor == old(self).row_request_floor,
    {
        self.logical_rows = LogicalRows::All(len);
    }

    /// Shows exactly `rows`, in that order.
    pub fn set_filtered_rows(&mut self, rows: Vec<usize>)
        requires
            old(self).wf(),
        ensures
            final(self).wf(),
            final(self).logical_rows matches LogicalRows::Filtered(r) && r@ == rows@,
            final(self).row_cache@ == old(self).row_cache@,
            final(self).row_cache_order@ == old(self).row_cache_order@,
            final(self).requested_range == old(self).requested_range,
            final(self).row_cache_access == old(self).row_cache_access,
            final(self).row_cache_columns == old(self).row_cache_columns,
            final(self).row_request_id == old(self).row_request_id,
            final(self).row_request_floor == old(self).row_request_floor,
    {
        self.logical_rows = LogicalRows::Filtered(rows);
    }

    /// Shows every row below `total` but `excluded` (given in any order,
    /// possibly repeated).
    pub fn set_all_except_rows(&mut self, total: usize, excluded: Vec<usize>)
        requires
            old(self).wf(),
        ensures
            final(self).wf(),
            final(self).logical_rows matches LogicalRows::AllExcept { total: t, excluded: e } && t == total
                && sorted_strict(e@) && forall|x: usize| e@.contains(x) <==> excluded@.contains(x),
            final(self).row_cache@ == old(self).row_cache@,
            final(self).row_cache_order@ == old(self).row_cache_order@,
            final(self).requested_range == old(self).requested_range,
            final(self).row_cache_access == old(self).row_cache_access,
            final(self).row_cache_columns == old(self).row_cache_columns,
            final(self).row_request_id == old(self).row_request_id,
            final(self).row_request_floor == old(self).row_request_floor,
    {
        let mut excluded = excluded;
        let ghost given = excluded@;
        sort_numbers(&mut excluded);
        let ghost sorted = excluded@;
        dedup_sorted(&mut excluded);
        proof {
            assert forall|x: usize| sorted.contains(x) <==> given.contains(x) by {
                broadcast use vstd::seq_lib::group_to_multiset_ensures;
                assert(sorted.to_multiset().count(x) == given.to_multiset().count(x));
            }
        }
        self.logical_rows = LogicalRows::AllExcept { total, excluded };
    }

    /// Forgets every cached row and the pending request, and makes replies
    /// to earlier requests stale.
    pub fn clear_rows(&mut self)
        requires
            old(self).wf(),
        ensures
            final(self).wf(),
            final(self).logical_rows == old(self).logical_rows,
            final(self).row_cache@ == Map::<usize, CachedRow>::empty(),
            final(self).row_cache_order@ == Seq::<(usize, u64)>::empty(),
            final(self).row_cache_access == 0,
            final(self).row_cache_columns@ == Seq::<usize>::empty(),
            final(self).row_request_id == (if old(self).row_request_id == u64::MAX { 0 } else { old(self).row_request_id + 1 }),
            final(self).row_request_floor == final(self).row_request_id,
            final(self).requested_range is None,
    {
        self.row_cache.clear();
        self.row_cache_order.clear();
        self.row_cache_access = 0;
        self.row_cache_columns.clear();
        self.row_request_id = self.row_request_id.wrapping_add(1);
        self.row_request_floor = self.row_request_id;
        self.requested_range = None;
    }

    /// The cached row at shown position `logical_idx` holds all of `columns`.
    pub fn row_has_columns(&self, logical_idx: usize, columns: &[usize]) -> (b: bool)
        requires
            self.wf(),
        ensures
            b == (self.row_cache@.contains_key(logical_idx) && forall|k: int|
                0 <= k < columns@.len() ==> self.row_cache@[logical_idx].texts().contains_key(#[trigger] columns@[k])),
    {
        match self.row_cache.get(&logical_idx) {
            Some(row) => row.has_columns(columns),
            None => false,
        }
    }

    /// Gives the next access stamp.
    fn next_row_cache_access(&mut self) -> (a: u64)
        ensures
            a == next_stamp(old(self).row_cache_access),
            final(self).row_cache_access == a,
            final(self).logical_rows == old(self).logical_rows,
            final(self).row_cache == old(self).row_cache,
            final(self).row_cache_order == old(self).row_cache_order,
            final(self).row_cache_columns == old(self).row_cache_columns,
            final(self).row_request_id == old(self).row_request_id,
            final(self).row_request_floor == old(self).row_request_floor,
            final(self).requested_range == old(self).requested_range,
    {
        let a = if self.row_cache_access == u64::MAX { 1 } else { self.row_cache_access + 1 };
        self.row_cache_access = a;
        a
    }

    /// The use record lists each cached row once, with its latest stamp, in
    /// order of stamp.
    pub open spec fn order_rebuilt(&self) -> bool {
        &&& forall|e: (usize, u64)| #[trigger] self.row_cache_order@.contains(e) <==> (self.row_cache@.contains_key(e.0)
            && self.row_cache@[e.0].access_id == e.1)
        &&& forall|i: int, j: int| 0 <= i <= j < self.row_cache_order@.len() ==> self.row_cache_order@[i].1 <= self.row_cache_order@[j].1
        &&& self.row_cache_order@.len() == self.row_cache@.dom().len()
    }

    /// Rebuilds the use record from the cached rows once it has grown past
    /// its bound.
    pub fn compact_row_cache_order_if_needed(&mut self)
        requires
            old(self).wf(),
        ensures
            final(self).wf(),
            final(self).logical_rows == old(self).logical_rows,
            final(self).row_cache == old(self).row_cache,
            final(self).row_cache_access == old(self).row_cache_access,
            final(self).row_cache_columns == old(self).row_cache_columns,
            final(self).row_request_id == old(self).row_request_id,
            final(self).row_request_floor == old(self).row_request_floor,
            final(self).requested_range == old(self).requested_range,
            old(self).row_cache_order@.len() <= ROW_CACHE_LIMIT * ROW_CACHE_ORDER_COMPACT_FACTOR
                ==> final(self).row_cache_order@ == old(self).row_cache_order@,
            old(self).row_cache_order@.len() > ROW_CACHE_LIMIT * ROW_CACHE_ORDER_COMPACT_FACTOR
                ==> final(self).order_rebuilt(),
    {
        let max_order_len = ROW_CACHE_LIMIT * ROW_CACHE_ORDER_COMPACT_FACTOR;
        if self.row_cache_order.len() <= max_order_len {
            return;
        }
        let ghost m = self.row_cache@;
        let ghost s = spec_hash_map_iter(&self.row_cache).remaining();
        let mut entries: Vec<(usize, u64)> = Vec::new();
        for (idx, row) in it: self.row_cache.iter()
            invariant
                it.seq() == s,
                m == self.row_cache@,
                entries@.len() == it.index(),
                forall|j: int| 0 <= j < entries@.len() ==> #[trigger] entries@[j] == (*s[j].0, s[j].1.access_id),
        {
            entries.push((*idx, row.access_id));
        }
        proof {
            assert(entries@.len() == s.len());
        }
        let ghost collected = entries@;
        sort_by_stamp(&mut entries);
        proof {
            assert forall|e: (usize, u64)| entries@.contains(e) <==> collected.contains(e) by {
                broadcast use vstd::seq_lib::group_to_multiset_ensures;
                assert(entries@.to_multiset().count(e) == collected.to_multiset().count(e));
            }
            assert forall|e: (usize, u64)| #[trigger] collected.contains(e) <==> (m.contains_key(e.0) && m[e.0].access_id == e.1) by {
                if collected.contains(e) {
                    let j = choose|j: int| 0 <= j < collected.len() && collected[j] == e;
                    assert(m.contains_key(*s[j].0));
                }
                if m.contains_key(e.0) && m[e.0].access_id == e.1 {
                    let k = e.0;
                    assert(s.contains((&k, &m[k])));
                    let j = choose|j: int| 0 <= j < s.len() && s[j] == (&k, &m[k]);
                    assert(collected[j] == e);
                }
            }
            broadcast use vstd::seq_lib::group_to_multiset_ensures;
            assert(entries@.len() == collected.len()) by {
                assert(entries@.to_multiset().len() == collected.to_multiset().len());
            }
        }
        let mut order: VecDeque<(usize, u64)> = VecDeque::new();
        let mut i: usize = 0;
        while i < entries.len()
            invariant
                0 <= i <= entries@.len(),
                order@ == entries@.take(i as int),
            decreases entries@.len() - i,
        {
            order.push_back(entries[i]);
            i = i + 1;
            assert(order@ =~= entries@.take(i as int));
        }
        proof {
            assert(entries@.take(i as int) =~= entries@);
            assert(s.len() == m.dom().len());
        }
        self.row_cache_order = order;
        proof {
            assert(self.row_cache@ == m);
            assert forall|e: (usize, u64)| #[trigger] self.row_cache_order@.contains(e) <==> (self.row_cache@.contains_key(e.0)
                && self.row_cache@[e.0].access_id == e.1) by {
                assert(entries@.contains(e) <==> collected.contains(e));
            }
            assert forall|r: usize| #[trigger] self.row_cache@.contains_key(r) implies self.row_cache_order@.contains((r, self.row_cache@[r].access_id)) by {
                let e = (r, self.row_cache@[r].access_id);
                assert(entries@.contains(e) <==> collected.contains(e));
            }
        }
    }

    /// Lets cached rows go, oldest use first, until no more than the limit
    /// are kept; a use whose row has been used again since is skipped. Then
    /// rebuilds the use record if it has grown past its bound.
    pub fn evict_old_cached_rows(&mut self)
        requires
            old(self).wf(),
        ensures
            final(self).wf(),
            final(self).logical_rows == old(self).logical_rows,
            final(self).row_cache_access == old(self).row_cache_access,
            final(self).row_cache_columns == old(self).row_cache_columns,
            final(self).row_request_id == old(self).row_request_id,
            final(self).row_request_floor == old(self).row_request_floor,
            final(self).requested_range == old(self).requested_range,
            final(self).row_cache@.dom().len() <= ROW_CACHE_LIMIT,
            old(self).row_cache@.dom().len() <= ROW_CACHE_LIMIT ==> final(self).row_cache@ == old(self).row_cache@
                && order_left(*final(self), old(self).row_cache_order@, 0),
            forall|r: usize| #[trigger] final(self).row_cache@.contains_key(r) ==> old(self).row_cache@.contains_key(r)
                && final(self).row_cache@[r] == old(self).row_cache@[r],
            exists|p: int|
                0 <= p <= old(self).row_cache_order@.len() && final(self).row_cache@.dom() == #[trigger] kept_after(
                    stamps_of(old(self).row_cache@),
                    old(self).row_cache_order@,
                    p,
                ) && (p > 0 ==> kept_after(stamps_of(old(self).row_cache@), old(self).row_cache_order@, p - 1).len()
                    > ROW_CACHE_LIMIT) && order_left(*final(self), old(self).row_cache_order@, p),
            ({
                let o = old(self).row_cache_order@;
                let c = old(self).row_cache@;
                (o.len() > 0 && c.contains_key(o.last().0) && c[o.last().0].access_id == o.last().1
                    && !o.drop_last().contains(o.last())) ==> final(self).row_cache@.contains_key(o.last().0)
            }),
    {
        let ghost o = self.row_cache_order@;
        let ghost c = self.row_cache@;
        let ghost fresh_last = o.len() > 0 && c.contains_key(o.last().0) && c[o.last().0].access_id == o.last().1
            && !o.drop_last().contains(o.last());
        let ghost mut p: int = 0;
        proof {
            assert(o.skip(0) =~= o);
            assert(o.take(0) =~= Seq::<(usize, u64)>::empty());
        }
        loop
            invariant
                o == old(self).row_cache_order@,
                c == old(self).row_cache@,
                fresh_last == (o.len() > 0 && c.contains_key(o.last().0) && c[o.last().0].access_id == o.last().1
                    && !o.drop_last().contains(o.last())),
                old(self).wf(),
                self.logical_rows == old(self).logical_rows,
                self.row_cache_access == old(self).row_cache_access,
                self.row_cache_columns == old(self).row_cache_columns,
                self.row_request_id == old(self).row_request_id,
                self.row_request_floor == old(self).row_request_floor,
                self.requested_range == old(self).requested_range,
                0 <= p <= o.len(),
                self.row_cache_order@ == o.skip(p),
                forall|r: usize| #[trigger] self.row_cache@.contains_key(r) ==> c.contains_key(r) && self.row_cache@[r] == c[r],
                forall|r: usize| #[trigger] c.contains_key(r) ==> (self.row_cache@.contains_key(r) <==> !o.take(p).contains((r, c[r].access_id))),
                fresh_last ==> p < o.len() && self.row_cache@.contains_key(o.last().0),
                p > 0 ==> kept_after(stamps_of(c), o, p - 1).len() > ROW_CACHE_LIMIT,
                c.dom().len() <= ROW_CACHE_LIMIT ==> p == 0,
            ensures
                o == old(self).row_cache_order@,
                c == old(self).row_cache@,
                0 <= p <= o.len(),
                self.row_cache_order@ == o.skip(p),
                self.logical_rows == old(self).logical_rows,
                self.row_cache_access == old(self).row_cache_access,
                self.row_cache_columns == old(self).row_cache_columns,
                self.row_request_id == old(self).row_request_id,
                self.row_request_floor == old(self).row_request_floor,
                self.requested_range == old(self).requested_range,
                self.row_cache@.dom().len() <= ROW_CACHE_LIMIT,
                forall|r: usize| #[trigger] self.row_cache@.contains_key(r) ==> c.contains_key(r) && self.row_cache@[r] == c[r],
                forall|r: usize| #[trigger] c.contains_key(r) ==> (self.row_cache@.contains_key(r) <==> !o.take(p).contains((r, c[r].access_id))),
                fresh_last ==> self.row_cache@.contains_key(o.last().0),
                p > 0 ==> kept_after(stamps_of(c), o, p - 1).len() > ROW_CACHE_LIMIT,
                c.dom().len() <= ROW_CACHE_LIMIT ==> p == 0,
            decreases o.len() - p,
        {
            if self.row_cache.len() <= ROW_CACHE_LIMIT {
                break;
            }
            let ghost before = self.row_cache@;
            proof {
                if p == 0 {
                    assert(o.take(0) =~= Seq::<(usize, u64)>::empty());
                    assert(self.row_cache@.dom() =~= c.dom());
                }
            }
            match self.row_cache_order.pop_front() {
                None => {
                    proof {
                        assert(p == o.len());
                        assert(o.take(p) =~= o);
                        assert forall|r: usize| !self.row_cache@.contains_key(r) by {
                            if self.row_cache@.contains_key(r) {
                                assert(c.contains_key(r));
                                assert(o.contains((r, c[r].access_id)));
                            }
                        }
                        assert(self.row_cache@.dom() =~= Set::<usize>::empty());
                    }
                    break;
                },
                Some(entry) => {
                    let (old_idx, old_access) = entry;
                    proof {
                        assert(before.dom() =~= kept_after(stamps_of(c), o, p));
                        assert(entry == o[p]);
                        if fresh_last && p == o.len() - 1 {
                            let k = o.last().0;
                            assert forall|r: usize| self.row_cache@.contains_key(r) implies r == k by {
                                assert(c.contains_key(r));
                                assert(!o.take(p).contains((r, c[r].access_id)));
                                assert(o.contains((r, c[r].access_id)));
                                let q = choose|q: int| 0 <= q < o.len() && o[q] == (r, c[r].access_id);
                                if q < p {
                                    assert(o.take(p)[q] == o[q]);
                                }
                            }
                            assert(self.row_cache@.dom().subset_of(set![k]));
                            vstd::set_lib::lemma_len_subset(self.row_cache@.dom(), set![k]);
                            assert(false);
                        }
                    }
                    let current = match self.row_cache.get(&old_idx) {
                        Some(row) => row.access_id == old_access,
                        None => false,
                    };
                    if current {
                        self.row_cache.remove(&old_idx);
                    }
                    proof {
                        assert(o.take(p + 1) =~= o.take(p).push(entry));
                        assert(o.skip(p + 1) =~= o.skip(p).subrange(1, o.skip(p).len() as int));
                        assert forall|r: usize| #[trigger] c.contains_key(r) implies (self.row_cache@.contains_key(r) <==> !o.take(p + 1).contains(
                            (r, c[r].access_id),
                        )) by {
                            crate::rows::lemma_push_contains(o.take(p), entry, (r, c[r].access_id));
                        }
                        if fresh_last {
                            let k = o.last().0;
                            if entry == o.last() {
                                assert(o.drop_last()[p] == entry);
                            }
                        }
                        p = p + 1;
                    }
                },
            }
        }
        proof {
            if p == 0 {
                assert(o.take(0) =~= Seq::<(usize, u64)>::empty());
                assert(self.row_cache@ =~= c);
            }
            assert(self.row_cache@.dom() =~= kept_after(stamps_of(c), o, p));
            assert forall|r: usize| #[trigger] self.row_cache@.contains_key(r) implies self.row_cache@[r].wf()
                && self.row_cache_order@.contains((r, self.row_cache@[r].access_id)) by {
                assert(c.contains_key(r));
                assert(o.contains((r, c[r].access_id)));
                let q = choose|q: int| 0 <= q < o.len() && o[q] == (r, c[r].access_id);
                if q < p {
                    assert(o.take(p)[q] == o[q]);
                }
                assert(self.row_cache_order@[q - p] == o[q]);
            }
        }
        self.compact_row_cache_order_if_needed();
        proof {
            assert(order_left(*self, o, p));
        }
    }

    /// The row at `logical_idx` is cached and enough uses of other rows came
    /// since its last one for it to count as used again.
    pub open spec fn touch_due(&self, logical_idx: usize) -> bool {
        self.row_cache@.contains_key(logical_idx) && (if self.row_cache_access >= self.row_cache@[logical_idx].access_id {
            self.row_cache_access - self.row_cache@[logical_idx].access_id
        } else {
            0
        }) >= ROW_CACHE_TOUCH_STRIDE
    }

    /// Marks the cached row at `logical_idx` as used again, with a new
    /// stamp, when enough other uses came since its last one.
    pub fn touch_cached_row(&mut self, logical_idx: usize)
        requires
            old(self).wf(),
        ensures
            final(self).wf(),
            final(self).logical_rows == old(self).logical_rows,
            final(self).row_cache_columns == old(self).row_cache_columns,
            final(self).row_request_id == old(self).row_request_id,
            final(self).row_request_floor == old(self).row_request_floor,
            final(self).requested_range == old(self).requested_range,
            final(self).row_cache@.dom() == old(self).row_cache@.dom(),
            forall|r: usize| #[trigger] final(self).row_cache@.contains_key(r) ==> final(self).row_cache@[r].cells
                == old(self).row_cache@[r].cells,
            ({
                let due = old(self).touch_due(logical_idx);
                &&& due ==> final(self).row_cache_access == next_stamp(old(self).row_cache_access)
                    && final(self).row_cache@[logical_idx].access_id == final(self).row_cache_access
                    && order_left(*final(self), old(self).row_cache_order@.push((logical_idx, final(self).row_cache_access)), 0)
                    && forall|r: usize| #[trigger] final(self).row_cache@.contains_key(r) && r != logical_idx
                        ==> final(self).row_cache@[r] == old(self).row_cache@[r]
                &&& !due ==> final(self).row_cache_access == old(self).row_cache_access && final(self).row_cache@
                    == old(self).row_cache@ && final(self).row_cache_order@ == old(self).row_cache_order@
            }),
    {
        let should_touch = match self.row_cache.get(&logical_idx) {
            Some(row) => {
                let since = if self.row_cache_access >= row.access_id { self.row_cache_access - row.access_id } else { 0 };
                since >= ROW_CACHE_TOUCH_STRIDE
            },
            None => false,
        };
        if should_touch {
            let access_id = self.next_row_cache_access();
            let ghost m = self.row_cache@;
            let ghost ord = self.row_cache_order@;
            match self.row_cache.remove(&logical_idx) {
                Some(row) => {
                    let mut row = row;
                    row.access_id = access_id;
                    self.row_cache.insert(logical_idx, row);
                    self.row_cache_order.push_back((logical_idx, access_id));
                    proof {
                        assert(self.row_cache@ == m.insert(logical_idx, row));
                        assert forall|r: usize| #[trigger] self.row_cache@.contains_key(r) implies self.row_cache@[r].wf()
                            && self.row_cache_order@.contains((r, self.row_cache@[r].access_id)) by {
                            crate::rows::lemma_push_contains(ord, (logical_idx, access_id), (r, self.row_cache@[r].access_id));
                        }
                        assert(self.row_cache@.dom() =~= m.dom());
                        assert(self.row_cache_order@ == ord.push((logical_idx, access_id)));
                        assert(ord.push((logical_idx, access_id)).skip(0) =~= ord.push((logical_idx, access_id)));
                    }
                    self.compact_row_cache_order_if_needed();
                },
                None => {},
            }
        }
    }

    /// Adds `cells` (by increasing column) to the cached row at
    /// `logical_idx`, stamps it as just used, and lets the oldest rows go if
    /// more than the limit are cached. Nothing happens when `cells` is empty.
    pub fn insert_loaded_cells(&mut self, logical_idx: usize, cells: Vec<(usize, String)>)
        requires
            old(self).wf(),
            columns_increasing(cells@),
        ensures
            final(self).wf(),
            final(self).logical_rows == old(self).logical_rows,
            final(self).row_cache_columns == old(self).row_cache_columns,
            final(self).row_request_id == old(self).row_request_id,
            final(self).row_request_floor == old(self).row_request_floor,
            final(self).requested_range == old(self).requested_range,
            cells@.len() == 0 ==> final(self).row_cache@ == old(self).row_cache@ && final(self).row_cache_order@
                == old(self).row_cache_order@ && final(self).row_cache_access == old(self).row_cache_access,
            cells@.len() > 0 ==> {
                &&& final(self).row_cache_access == next_stamp(old(self).row_cache_access)
                &&& final(self).row_cache@.dom().len() <= ROW_CACHE_LIMIT
                &&& forall|r: usize| #[trigger] final(self).row_cache@.contains_key(r) && r != logical_idx
                    ==> old(self).row_cache@.contains_key(r) && final(self).row_cache@[r] == old(self).row_cache@[r]
                &&& final(self).row_cache@.contains_key(logical_idx) ==> {
                    &&& final(self).row_cache@[logical_idx].access_id == final(self).row_cache_access
                    &&& final(self).row_cache@[logical_idx].texts() == (if old(self).row_cache@.contains_key(logical_idx) {
                        old(self).row_cache@[logical_idx].texts()
                    } else {
                        Map::<usize, Seq<char>>::empty()
                    }).union_prefer_right(column_texts(cells@))
                }
                &&& !old(self).row_cache_order@.contains((logical_idx, next_stamp(old(self).row_cache_access)))
                    ==> final(self).row_cache@.contains_key(logical_idx)
                &&& old(self).row_cache@.dom().insert(logical_idx).len() <= ROW_CACHE_LIMIT
                    ==> final(self).row_cache@.dom() == old(self).row_cache@.dom().insert(logical_idx) && order_left(
                    *final(self),
                    old(self).row_cache_order@.push((logical_idx, final(self).row_cache_access)),
                    0,
                )
                &&& exists|p: int|
                    0 <= p <= old(self).row_cache_order@.len() + 1 && final(self).row_cache@.dom() == #[trigger] kept_after(
                        stamps_of(old(self).row_cache@).insert(logical_idx, final(self).row_cache_access),
                        old(self).row_cache_order@.push((logical_idx, final(self).row_cache_access)),
                        p,
                    ) && (p > 0 ==> kept_after(
                        stamps_of(old(self).row_cache@).insert(logical_idx, final(self).row_cache_access),
                        old(self).row_cache_order@.push((logical_idx, final(self).row_cache_access)),
                        p - 1,
                    ).len() > ROW_CACHE_LIMIT) && order_left(
                        *final(self),
                        old(self).row_cache_order@.push((logical_idx, final(self).row_cache_access)),
                        p,
                    )
            },
    {
        if cells.len() == 0 {
            return;
        }
        let access_id = self.next_row_cache_access();
        let ghost m = self.row_cache@;
        let ghost ord = self.row_cache_order@;
        let mut row = match self.row_cache.remove(&logical_idx) {
            Some(row) => row,
            None => CachedRow::empty(),
        };
        proof {
            if !m.contains_key(logical_idx) {
                assert(column_texts(row.cells@) =~= Map::<usize, Seq<char>>::empty());
            }
        }
        row.access_id = access_id;
        row.insert_cells(cells);
        self.row_cache.insert(logical_idx, row);
        self.row_cache_order.push_back((logical_idx, access_id));
        proof {
            let e = (logical_idx, access_id);
            assert(self.row_cache_order@ == ord.push(e));
            assert forall|r: usize| #[trigger] self.row_cache@.contains_key(r) implies self.row_cache@[r].wf()
                && self.row_cache_order@.contains((r, self.row_cache@[r].access_id)) by {
                crate::rows::lemma_push_contains(ord, e, (r, self.row_cache@[r].access_id));
            }
            assert(self.row_cache_order@.drop_last() =~= ord);
            assert(stamps_of(self.row_cache@) =~= stamps_of(m).insert(logical_idx, access_id));
            assert(self.row_cache@.dom() =~= m.dom().insert(logical_idx));
        }
        let ghost mid = self.row_cache@;
        let ghost mid_order = self.row_cache_order@;
        self.evict_old_cached_rows();
        proof {
            let p = choose|p: int|
                0 <= p <= mid_order.len() && self.row_cache@.dom() == #[trigger] kept_after(stamps_of(mid), mid_order, p)
                    && (p > 0 ==> kept_after(stamps_of(mid), mid_order, p - 1).len() > ROW_CACHE_LIMIT) && order_left(
                    *self,
                    mid_order,
                    p,
                );
            assert(self.row_cache@.dom() == kept_after(stamps_of(mid), mid_order, p));
        }
    }

    /// What taking a reply to row request `request_id` with `rows` does:
    /// `self` is the result of taking it in `old`.
    pub open spec fn took_rows_read(&self, old: VisibleRows, request_id: u64, rows: Seq<(usize, Vec<(usize, String)>)>) -> bool {
        &&& (self.wf())
        &&& (self.logical_rows == old.logical_rows)
        &&& (self.row_cache_columns == old.row_cache_columns)
        &&& (self.row_request_id == old.row_request_id)
        &&& (self.row_request_floor == old.row_request_floor)
        &&& (self.requested_range == old.requested_range)
        &&& (!(request_id == old.row_request_id && request_id >= old.row_request_floor) ==> {
                &&& self.row_cache@ == old.row_cache@
                &&& self.row_cache_order@ == old.row_cache_order@
                &&& self.row_cache_access == old.row_cache_access
            }
        )
        &&& (request_id == old.row_request_id && request_id >= old.row_request_floor ==> {
                let loaded = loaded_rows_count(rows);
                &&& self.row_cache_access == stamp_after(old.row_cache_access, loaded)
                &&& loaded == 0 ==> self.row_cache@ == old.row_cache@ && self.row_cache_order@
                    == old.row_cache_order@
                &&& loaded > 0 ==> self.row_cache@.dom().len() <= ROW_CACHE_LIMIT
                &&& forall|r: usize| #[trigger] self.row_cache@.contains_key(r) ==> match last_loaded_cells(rows, r) {
                    Some(cells) => forall|c: usize| #[trigger] column_texts(cells).contains_key(c)
                        ==> self.row_cache@[r].texts().contains_key(c) && self.row_cache@[r].texts()[c]
                        == column_texts(cells)[c],
                    None => old.row_cache@.contains_key(r) && self.row_cache@[r] == old.row_cache@[r],
                }
                &&& old.row_cache@.dom().len() + loaded <= ROW_CACHE_LIMIT ==> forall|p: usize|
                    #[trigger] last_loaded_cells(rows, p) is Some ==> self.row_cache@.contains_key(p)
            }
        )
        &&& (forall|r: usize| #[trigger] self.row_cache@.contains_key(r) ==> old.row_cache@.contains_key(r)
                || exists|k: int| 0 <= k < rows.len() && rows[k].0 == r
        )
    }

    /// Takes a reply to row request `request_id`: when it answers the
    /// latest request, and is not older than the floor, its cells are
    /// cached (a row whose cells are not by increasing column is left out),
    /// row after row, each taking the next access stamp and letting the
    /// oldest rows go past the limit; otherwise nothing changes.
    pub fn apply_rows_read(&mut self, request_id: u64, rows: Vec<(usize, Vec<(usize, String)>)>)
        requires
            old(self).wf(),
        ensures
            final(self).took_rows_read(*old(self), request_id, rows@),
    {
        if !(request_id == self.row_request_id && request_id >= self.row_request_floor) {
            return;
        }
        let mut rows = rows;
        let ghost given = rows@;
        let n = rows.len();
        let mut k: usize = 0;
        while k < n
            invariant
                self.wf(),
                self.logical_rows == old(self).logical_rows,
                self.row_cache_columns == old(self).row_cache_columns,
                self.row_request_id == old(self).row_request_id,
                self.row_request_floor == old(self).row_request_floor,
                self.requested_range == old(self).requested_range,
                0 <= k <= n,
                n == given.len(),
                rows@ == given.skip(k as int),
                forall|r: usize| #[trigger] self.row_cache@.contains_key(r) ==> old(self).row_cache@.contains_key(r)
                    || exists|q: int| 0 <= q < k && given[q].0 == r,
                self.row_cache_access == stamp_after(old(self).row_cache_access, loaded_rows_count(given.take(k as int))),
                loaded_rows_count(given.take(k as int)) == 0 ==> self.row_cache@ == old(self).row_cache@
                    && self.row_cache_order@ == old(self).row_cache_order@,
                loaded_rows_count(given.take(k as int)) > 0 ==> self.row_cache@.dom().len() <= ROW_CACHE_LIMIT,
                self.row_cache@.dom().len() <= old(self).row_cache@.dom().len() + loaded_rows_count(given.take(k as int)),
                old(self).row_cache@.dom().len() + loaded_rows_count(given) <= ROW_CACHE_LIMIT ==> forall|p: usize|
                    #[trigger] last_loaded_cells(given.take(k as int), p) is Some ==> self.row_cache@.contains_key(p),
                forall|r: usize| #[trigger] self.row_cache@.contains_key(r) ==> match last_loaded_cells(given.take(k as int), r) {
                    Some(cs) => forall|c: usize| #[trigger] column_texts(cs).contains_key(c)
                        ==> self.row_cache@[r].texts().contains_key(c) && self.row_cache@[r].texts()[c] == column_texts(cs)[c],
                    None => old(self).row_cache@.contains_key(r) && self.row_cache@[r] == old(self).row_cache@[r],
                },
            decreases n - k,
        {
            let ghost before = self.row_cache@;
            let ghost before_order = self.row_cache_order@;
            let ghost before_access = self.row_cache_access;
            let (logical_idx, cells) = rows.remove(0);
            let ghost loaded_here = loads_cells(cells@);
            proof {
                assert(given[k as int] == (logical_idx, cells));
                assert(rows@ =~= given.skip(k + 1));
                let t = given.take(k + 1);
                assert(t.drop_last() =~= given.take(k as int));
                assert(t.last() == (logical_idx, cells));
            }
            if cells_increasing(&cells) {
                self.insert_loaded_cells(logical_idx, cells);
            }
            proof {
                let t = given.take(k + 1);
                let tk = given.take(k as int);
                if !loaded_here {
                    assert(self.row_cache@ == before);
                    assert(self.row_cache_order@ == before_order);
                    assert(self.row_cache_access == before_access);
                    assert(loaded_rows_count(t) == loaded_rows_count(tk));
                    assert forall|p: usize| #[trigger] last_loaded_cells(t, p) is Some implies last_loaded_cells(tk, p) is Some by {
                        assert(last_loaded_cells(t, p) == last_loaded_cells(tk, p));
                    }
                    assert forall|r: usize| #[trigger] self.row_cache@.contains_key(r) implies match last_loaded_cells(t, r) {
                        Some(cs) => forall|c: usize| #[trigger] column_texts(cs).contains_key(c)
                        ==> self.row_cache@[r].texts().contains_key(c) && self.row_cache@[r].texts()[c] == column_texts(cs)[c],
                        None => old(self).row_cache@.contains_key(r) && self.row_cache@[r] == old(self).row_cache@[r],
                    } by {
                        assert(last_loaded_cells(t, r) == last_loaded_cells(tk, r));
                    }
                } else {
                    assert(loaded_rows_count(t) == loaded_rows_count(tk) + 1);
                    vstd::std_specs::hash::axiom_hashmap_view_finite_dom(self.row_cache);
                    assert(before.dom().insert(logical_idx).finite());
                    assert(self.row_cache@.dom().subset_of(before.dom().insert(logical_idx)));
                    vstd::set_lib::lemma_len_subset(self.row_cache@.dom(), before.dom().insert(logical_idx));
                    if old(self).row_cache@.dom().len() + loaded_rows_count(given) <= ROW_CACHE_LIMIT {
                        lemma_loaded_rows_count_take(given, k + 1);
                        assert(self.row_cache@.dom() == before.dom().insert(logical_idx));
                        assert forall|p: usize| #[trigger] last_loaded_cells(t, p) is Some implies self.row_cache@.contains_key(p) by {
                            if p != logical_idx {
                                assert(last_loaded_cells(t, p) == last_loaded_cells(tk, p));
                                assert(before.contains_key(p));
                            }
                        }
                    }
                    assert(self.row_cache_access == stamp_after(old(self).row_cache_access, loaded_rows_count(t)));
                    assert forall|r: usize| #[trigger] self.row_cache@.contains_key(r) implies match last_loaded_cells(t, r) {
                        Some(cs) => forall|c: usize| #[trigger] column_texts(cs).contains_key(c)
                        ==> self.row_cache@[r].texts().contains_key(c) && self.row_cache@[r].texts()[c] == column_texts(cs)[c],
                        None => old(self).row_cache@.contains_key(r) && self.row_cache@[r] == old(self).row_cache@[r],
                    } by {
                        if r != logical_idx {
                            assert(last_loaded_cells(t, r) == last_loaded_cells(tk, r));
                            assert(before.contains_key(r));
                        } else {
                            assert(last_loaded_cells(t, r) == Some(given[k as int].1@));
                        }
                    }
                }
            }
            proof {
                assert forall|r: usize| #[trigger] self.row_cache@.contains_key(r) implies old(self).row_cache@.contains_key(r)
                    || exists|q: int| 0 <= q < k + 1 && given[q].0 == r by {
                    if r != logical_idx {
                        assert(before.contains_key(r));
                    } else {
                        assert(given[k as int].0 == r);
                    }
                }
            }
            k = k + 1;
        }
        proof {
            assert(given.take(n as int) =~= given);
        }
    }

    /// Takes the end of the replies to row request `request_id`: when it is
    /// the latest request, nothing is pending any more.
    pub fn apply_rows_read_done(&mut self, request_id: u64)
        requires
            old(self).wf(),
        ensures
            final(self).wf(),
            final(self).logical_rows == old(self).logical_rows,
            final(self).row_cache@ == old(self).row_cache@,
            final(self).row_cache_order@ == old(self).row_cache_order@,
            final(self).row_cache_access == old(self).row_cache_access,
            final(self).row_request_id == old(self).row_request_id,
            final(self).row_request_floor == old(self).row_request_floor,
            final(self).row_cache_columns == old(self).row_cache_columns,
            request_id == old(self).row_request_id ==> final(self).requested_range is None,
            request_id != old(self).row_request_id ==> final(self).requested_range == old(self).requested_range,
    {
        if request_id == self.row_request_id {
            self.requested_range = None;
        }
    }
}

/// The cells are listed by strictly increasing column.
fn cells_increasing(cells: &Vec<(usize, String)>) -> (b: bool)
    ensures
        b == columns_increasing(cells@),
{
    let n = cells.len();
    if n == 0 {
        return true;
    }
    let mut i: usize = 1;
    while i < n
        invariant
            n == cells@.len(),
            1 <= i <= n,
            forall|a: int, b: int| 0 <= a < b < i ==> cells@[a].0 < cells@[b].0,
        decreases n - i,
    {
        if cells[i - 1].0 >= cells[i].0 {
            return false;
        }
        proof {
            assert forall|a: int, b: int| 0 <= a < b < i + 1 implies cells@[a].0 < cells@[b].0 by {
                if b == i && a < i - 1 {
                    assert(cells@[a].0 < cells@[i - 1].0);
                }
            }
        }
        i = i + 1;
    }
    true
}


/// The shown positions a request around `idx` covers: from `start`, but not
/// below zero, to `end`, but not past the last shown row.
pub open spec fn window_for(idx: usize, shown_len: nat) -> (int, int) {
    let start = if idx >= ROW_CACHE_BEFORE { idx - ROW_CACHE_BEFORE } else { 0 };
    let reach = idx + ROW_CACHE_AFTER + 1;
    (start, if reach < shown_len { reach } else { shown_len as int })
}

/// The order in which a request asks for positions: from `idx` up to
/// `end`, then from just below `idx` down to `start`.
pub open spec fn window_positions(idx: int, start: int, end: int) -> Seq<int> {
    Seq::new(if idx < end { (end - idx) as nat } else { 0 }, |i: int| idx + i) + Seq::new(
        if start < idx { (idx - start) as nat } else { 0 },
        |i: int| idx - 1 - i,
    )
}

/// Each of `ps` that is a shown position, with the source row shown there.
pub open spec fn shown_pairs(shown: Seq<usize>, ps: Seq<int>) -> Seq<(usize, usize)>
    decreases ps.len(),
{
    if ps.len() == 0 {
        Seq::empty()
    } else {
        let rest = shown_pairs(shown, ps.drop_last());
        let p = ps.last();
        if 0 <= p < shown.len() {
            rest.push((p as usize, shown[p]))
        } else {
            rest
        }
    }
}

/// The row `r` is cached with every one of `columns`.
pub open spec fn cached_with(cache: Map<usize, CachedRow>, r: usize, columns: Seq<usize>) -> bool {
    cache.contains_key(r) && forall|k: int| 0 <= k < columns.len() ==> cache[r].texts().contains_key(#[trigger] columns[k])
}

/// The pairs of `pairs` whose position is not cached with all of `columns`.
pub open spec fn missing_pairs(pairs: Seq<(usize, usize)>, cache: Map<usize, CachedRow>, columns: Seq<usize>) -> Seq<
    (usize, usize),
>
    decreases pairs.len(),
{
    if pairs.len() == 0 {
        Seq::empty()
    } else {
        let rest = missing_pairs(pairs.drop_last(), cache, columns);
        if cached_with(cache, pairs.last().0, columns) {
            rest
        } else {
            rest.push(pairs.last())
        }
    }
}

/// The pending request covers position `idx` and every one of `columns`.
pub open spec fn request_covers(req: Option<(usize, usize, Vec<usize>)>, idx: usize, columns: Seq<usize>) -> bool {
    req matches Some(r) && r.0 <= idx < r.1 && forall|k: int| 0 <= k < columns.len() ==> r.2@.contains(#[trigger] columns[k])
}

/// `a` and `b` hold the same numbers in the same order.
fn same_numbers(a: &Vec<usize>, b: &[usize]) -> (eq: bool)
    ensures
        eq == (a@ == b@),
{
    if a.len() != b.len() {
        return false;
    }
    let mut i: usize = 0;
    while i < a.len()
        invariant
            a@.len() == b@.len(),
            0 <= i <= a@.len(),
            forall|k: int| 0 <= k < i ==> a@[k] == b@[k],
        decreases a@.len() - i,
    {
        if a[i] != b[i] {
            return false;
        }
        i = i + 1;
    }
    assert(a@ =~= b@);
    true
}

impl VisibleRows {
    /// Keeps only the cells of `columns` in every cached row, unless the
    /// cells are already kept for exactly those columns.
    pub fn retain_cached_columns_if_changed(&mut self, columns: &[usize])
        requires
            old(self).wf(),
            sorted_strict(columns@),
        ensures
            final(self).wf(),
            final(self).logical_rows == old(self).logical_rows,
            final(self).row_cache_order@ == old(self).row_cache_order@,
            final(self).row_cache_access == old(self).row_cache_access,
            final(self).row_request_id == old(self).row_request_id,
            final(self).row_request_floor == old(self).row_request_floor,
            final(self).requested_range == old(self).requested_range,
            old(self).row_cache_columns@ == columns@ ==> final(self).row_cache@ == old(self).row_cache@
                && final(self).row_cache_columns@ == old(self).row_cache_columns@,
            old(self).row_cache_columns@ != columns@ ==> {
                &&& final(self).row_cache_columns@ == columns@
                &&& final(self).row_cache@.dom() == old(self).row_cache@.dom()
                &&& forall|r: usize| #[trigger] final(self).row_cache@.contains_key(r) ==> {
                    &&& final(self).row_cache@[r].access_id == old(self).row_cache@[r].access_id
                    &&& final(self).row_cache@[r].texts() == old(self).row_cache@[r].texts().restrict(columns@.to_set())
                }
            },
    {
        if same_numbers(&self.row_cache_columns, columns) {
            return;
        }
        let ghost m = self.row_cache@;
        let ghost s = spec_hash_map_iter(&self.row_cache).remaining();
        let mut keys: Vec<usize> = Vec::new();
        for (idx, row) in it: self.row_cache.iter()
            invariant
                it.seq() == s,
                m == self.row_cache@,
                keys@.len() == it.index(),
                forall|j: int| 0 <= j < keys@.len() ==> #[trigger] keys@[j] == *s[j].0,
        {
            keys.push(*idx);
        }
        proof {
            assert(keys@.len() == s.len());
            assert(s.no_duplicates()) by {
                assert forall|a: int, b: int| 0 <= a < b < s.len() implies s[a] != s[b] by {
                    assert(spec_hash_map_iter(&self.row_cache).remaining().no_duplicates());
                }
            }
            assert forall|r: usize| m.contains_key(r) implies keys@.contains(r) by {
                assert(s.contains((&r, &m[r])));
                let j = choose|j: int| 0 <= j < s.len() && s[j] == (&r, &m[r]);
                assert(keys@[j] == r);
            }
            assert forall|a: int, b: int| 0 <= a < b < keys@.len() implies keys@[a] != keys@[b] by {
                if keys@[a] == keys@[b] {
                    assert(m.contains_key(*s[a].0) && m[*s[a].0] == *s[a].1);
                    assert(m.contains_key(*s[b].0) && m[*s[b].0] == *s[b].1);
                    assert(s[a] == s[b]);
                }
            }
        }
        let mut k: usize = 0;
        while k < keys.len()
            invariant
                self.wf(),
                self.logical_rows == old(self).logical_rows,
                self.row_cache_order@ == old(self).row_cache_order@,
                self.row_cache_access == old(self).row_cache_access,
                self.row_request_id == old(self).row_request_id,
                self.row_request_floor == old(self).row_request_floor,
                self.requested_range == old(self).requested_range,
                self.row_cache_columns == old(self).row_cache_columns,
                m == old(self).row_cache@,
                sorted_strict(columns@),
                keys@.len() == s.len(),
                forall|j: int| 0 <= j < keys@.len() ==> #[trigger] keys@[j] == *s[j].0,
                forall|j: int| 0 <= j < s.len() ==> m.contains_key(*#[trigger] s[j].0),
                forall|r: usize| m.contains_key(r) ==> keys@.contains(r),
                keys@.no_duplicates(),
                0 <= k <= keys@.len(),
                self.row_cache@.dom() == m.dom(),
                forall|r: usize| #[trigger] self.row_cache@.contains_key(r) ==> self.row_cache@[r].access_id == m[r].access_id,
                forall|r: usize| #[trigger] self.row_cache@.contains_key(r) ==> (keys@.take(k as int).contains(r) ==> self.row_cache@[r].texts()
                    == m[r].texts().restrict(columns@.to_set())) && (!keys@.take(k as int).contains(r) ==> self.row_cache@[r] == m[r]),
            decreases keys@.len() - k,
        {
            let key = keys[k];
            let ghost before = self.row_cache@;
            proof {
                assert(m.contains_key(key));
                assert(keys@.take(k + 1) =~= keys@.take(k as int).push(key));
                assert(!keys@.take(k as int).contains(key)) by {
                    if keys@.take(k as int).contains(key) {
                        let q = choose|q: int| 0 <= q < k && keys@.take(k as int)[q] == key;
                        assert(keys@[q] == keys@[k as int]);
                    }
                }
            }
            match self.row_cache.remove(&key) {
                Some(row) => {
                    let mut row = row;
                    row.retain_columns(columns);
                    self.row_cache.insert(key, row);
                    proof {
                        assert forall|r: usize| #[trigger] self.row_cache@.contains_key(r) implies (keys@.take(k + 1).contains(r)
                            ==> self.row_cache@[r].texts() == m[r].texts().restrict(columns@.to_set())) && (!keys@.take(
                            k + 1,
                        ).contains(r) ==> self.row_cache@[r] == m[r]) by {
                            crate::rows::lemma_push_contains(keys@.take(k as int), key, r);
                        }
                        assert(self.row_cache@.dom() =~= m.dom());
                    }
                },
                None => {},
            }
            k = k + 1;
        }
        proof {
            assert(keys@.take(k as int) =~= keys@);
        }
        self.row_cache_columns = slice_to_vec(columns);
    }
}

/// A copy of `s`.
fn slice_to_vec(s: &[usize]) -> (v: Vec<usize>)
    ensures
        v@ == s@,
{
    let mut v: Vec<usize> = Vec::new();
    let mut i: usize = 0;
    while i < s.len()
        invariant
            0 <= i <= s@.len(),
            v@ == s@.take(i as int),
        decreases s@.len() - i,
    {
        v.push(s[i]);
        i = i + 1;
        assert(v@ =~= s@.take(i as int));
    }
    assert(s@.take(i as int) =~= s@);
    v
}


proof fn lemma_shown_pairs_push(shown: Seq<usize>, ps: Seq<int>, p: int)
    ensures
        shown_pairs(shown, ps.push(p)) == (if 0 <= p < shown.len() {
            shown_pairs(shown, ps).push((p as usize, shown[p]))
        } else {
            shown_pairs(shown, ps)
        }),
{
    assert(ps.push(p).drop_last() =~= ps);
}

proof fn lemma_missing_pairs_push(pairs: Seq<(usize, usize)>, e: (usize, usize), cache: Map<usize, CachedRow>, columns: Seq<usize>)
    ensures
        missing_pairs(pairs.push(e), cache, columns) == (if cached_with(cache, e.0, columns) {
            missing_pairs(pairs, cache, columns)
        } else {
            missing_pairs(pairs, cache, columns).push(e)
        }),
{
    assert(pairs.push(e).drop_last() =~= pairs);
}

proof fn lemma_shown_pairs_has(shown: Seq<usize>, ps: Seq<int>, q: int)
    requires
        0 <= q < ps.len(),
        0 <= ps[q] < shown.len(),
    ensures
        shown_pairs(shown, ps).contains((ps[q] as usize, shown[ps[q]])),
    decreases ps.len(),
{
    let d = ps.drop_last();
    assert(ps =~= d.push(ps.last()));
    lemma_shown_pairs_push(shown, d, ps.last());
    let out = shown_pairs(shown, ps);
    if q == ps.len() - 1 {
        assert(out.last() == (ps[q] as usize, shown[ps[q]]));
        assert(out[out.len() - 1] == (ps[q] as usize, shown[ps[q]]));
    } else {
        assert(d[q] == ps[q]);
        lemma_shown_pairs_has(shown, d, q);
        let rest = shown_pairs(shown, d);
        let i = choose|i: int| 0 <= i < rest.len() && rest[i] == (ps[q] as usize, shown[ps[q]]);
        assert(out[i] == rest[i]);
    }
}

proof fn lemma_missing_pairs_has(pairs: Seq<(usize, usize)>, cache: Map<usize, CachedRow>, columns: Seq<usize>, e: (usize, usize))
    requires
        pairs.contains(e),
        !cached_with(cache, e.0, columns),
    ensures
        missing_pairs(pairs, cache, columns).contains(e),
    decreases pairs.len(),
{
    let d = pairs.drop_last();
    assert(pairs =~= d.push(pairs.last()));
    lemma_missing_pairs_push(d, pairs.last(), cache, columns);
    let out = missing_pairs(pairs, cache, columns);
    if pairs.last() == e {
        assert(out[out.len() - 1] == e);
    } else {
        let i = choose|i: int| 0 <= i < pairs.len() && pairs[i] == e;
        assert(i < d.len());
        assert(d[i] == e);
        lemma_missing_pairs_has(d, cache, columns, e);
        let rest = missing_pairs(d, cache, columns);
        let k = choose|k: int| 0 <= k < rest.len() && rest[k] == e;
        assert(out[k] == rest[k]);
    }
}

/// The cached cells of row `r` lack column number `k` of `columns` (or `r`
/// is not cached).
pub open spec fn lacks_column(cache: Map<usize, CachedRow>, r: usize, columns: Seq<usize>, k: int) -> bool {
    0 <= k < columns.len() && !(cache.contains_key(r) && cache[r].texts().contains_key(columns[k]))
}

/// A shown row whose cached cells lack one of the requested columns (or
/// that is not cached at all) does not count as loaded, and a request
/// around it asks for it.
pub proof fn lemma_row_lacking_column_is_asked_for(
    cache: Map<usize, CachedRow>,
    shown: Seq<usize>,
    idx: usize,
    columns: Seq<usize>,
    k: int,
)
    requires
        idx < shown.len(),
        lacks_column(cache, idx, columns, k),
    ensures
        !cached_with(cache, idx, columns),
        missing_pairs(
            shown_pairs(shown, window_positions(idx as int, window_for(idx, shown.len()).0, window_for(idx, shown.len()).1)),
            cache,
            columns,
        ).contains((idx, shown[idx as int])),
{
    let w = window_for(idx, shown.len());
    let ps = window_positions(idx as int, w.0, w.1);
    assert(idx < w.1);
    assert(ps[0] == idx as int);
    lemma_shown_pairs_has(shown, ps, 0);
    lemma_missing_pairs_has(shown_pairs(shown, ps), cache, columns, (idx, shown[idx as int]));
}

impl VisibleRows {
    /// The shown positions a request around `logical_idx` covers (see
    /// `window_for`).
    pub fn cache_window_for(&self, logical_idx: usize) -> (w: (usize, usize))
        requires
            self.wf(),
        ensures
            (w.0 as int, w.1 as int) == window_for(logical_idx, self.logical_rows.shown().len()),
    {
        let start = if logical_idx >= ROW_CACHE_BEFORE { logical_idx - ROW_CACHE_BEFORE } else { 0 };
        let len = self.logical_rows.len();
        let end = if logical_idx < len && len - logical_idx > ROW_CACHE_AFTER + 1 {
            logical_idx + ROW_CACHE_AFTER + 1
        } else {
            len
        };
        (start, end)
    }

    /// The shown positions from `logical_idx` up to `end`, then from just
    /// below `logical_idx` down to `start`, each with its source row.
    pub fn cache_window_rows(&self, logical_idx: usize, start: usize, end: usize) -> (rows: Vec<(usize, usize)>)
        requires
            self.wf(),
        ensures
            rows@ == shown_pairs(self.logical_rows.shown(), window_positions(logical_idx as int, start as int, end as int)),
    {
        let ghost shown = self.logical_rows.shown();
        let ghost ps = window_positions(logical_idx as int, start as int, end as int);
        let ghost up = if logical_idx < end { (end - logical_idx) as int } else { 0 };
        let mut rows: Vec<(usize, usize)> = Vec::new();
        let mut idx = logical_idx;
        proof {
            assert(ps.take(0) =~= Seq::<int>::empty());
        }
        while idx < end
            invariant
                self.wf(),
                shown == self.logical_rows.shown(),
                ps == window_positions(logical_idx as int, start as int, end as int),
                up == (if logical_idx < end { (end - logical_idx) as int } else { 0 }),
                logical_idx <= idx,
                idx <= end || idx == logical_idx,
                rows@ == shown_pairs(shown, ps.take(idx - logical_idx)),
            decreases end - idx,
        {
            let ghost k = idx - logical_idx;
            proof {
                assert(ps[k] == idx as int);
                assert(ps.take(k + 1) =~= ps.take(k).push(idx as int));
                lemma_shown_pairs_push(shown, ps.take(k), idx as int);
            }
            if let Some(real_row) = self.logical_rows.get(idx) {
                rows.push((idx, real_row));
            }
            idx = idx + 1;
        }
        let mut back = logical_idx;
        proof {
            assert(ps.take(up) == ps.take(idx - logical_idx));
        }
        while back > start
            invariant
                self.wf(),
                shown == self.logical_rows.shown(),
                ps == window_positions(logical_idx as int, start as int, end as int),
                up == (if logical_idx < end { (end - logical_idx) as int } else { 0 }),
                back <= logical_idx,
                back >= start || back == logical_idx,
                rows@ == shown_pairs(shown, ps.take(up + logical_idx - back)),
            decreases back,
        {
            let ghost k = up + logical_idx - back;
            proof {
                assert(ps[k] == back - 1);
                assert(ps.take(k + 1) =~= ps.take(k).push(back - 1));
                lemma_shown_pairs_push(shown, ps.take(k), back - 1);
            }
            back = back - 1;
            if let Some(real_row) = self.logical_rows.get(back) {
                rows.push((back, real_row));
            }
        }
        proof {
            assert(ps.take(up + logical_idx - back) =~= ps);
        }
        rows
    }

    /// The window rows (see `cache_window_rows`) not yet cached with all of
    /// `columns`.
    pub fn cache_window_rows_with_missing_columns(&self, logical_idx: usize, start: usize, end: usize, columns: &[usize]) -> (rows: Vec<(usize, usize)>)
        requires
            self.wf(),
        ensures
            rows@ == missing_pairs(
                shown_pairs(self.logical_rows.shown(), window_positions(logical_idx as int, start as int, end as int)),
                self.row_cache@,
                columns@,
            ),
    {
        let all = self.cache_window_rows(logical_idx, start, end);
        let mut rows: Vec<(usize, usize)> = Vec::new();
        let mut i: usize = 0;
        proof {
            assert(all@.take(0) =~= Seq::<(usize, usize)>::empty());
        }
        while i < all.len()
            invariant
                self.wf(),
                0 <= i <= all@.len(),
                rows@ == missing_pairs(all@.take(i as int), self.row_cache@, columns@),
            decreases all@.len() - i,
        {
            let e = all[i];
            proof {
                assert(all@.take(i + 1) =~= all@.take(i as int).push(e));
                lemma_missing_pairs_push(all@.take(i as int), e, self.row_cache@, columns@);
            }
            if !self.row_has_columns(e.0, columns) {
                rows.push(e);
            }
            i = i + 1;
        }
        proof {
            assert(all@.take(i as int) =~= all@);
        }
        rows
    }
}


/// Every one of `columns` is in the strictly increasing `cols`.
fn all_listed(cols: &Vec<usize>, columns: &[usize]) -> (b: bool)
    requires
        sorted_strict(cols@),
    ensures
        b == forall|k: int| 0 <= k < columns@.len() ==> cols@.contains(#[trigger] columns@[k]),
{
    let mut k: usize = 0;
    while k < columns.len()
        invariant
            sorted_strict(cols@),
            0 <= k <= columns@.len(),
            forall|j: int| 0 <= j < k ==> cols@.contains(#[trigger] columns@[j]),
        decreases columns@.len() - k,
    {
        if !sorted_contains(cols.as_slice(), columns[k]) {
            return false;
        }
        k = k + 1;
    }
    true
}

impl VisibleRows {
    /// Asks for the cells of `columns` at shown position `logical_idx`.
    ///
    /// Nothing is asked when no column is named or the position is not
    /// shown. A row already cached with those columns is marked as used. A
    /// pending request that covers the position and the columns is waited
    /// for. Otherwise the rows around the position that are not cached with
    /// those columns are asked for, in the window's order, under a new
    /// request number, with the columns sorted and without repeats; the
    /// cached cells are then kept for those columns only. The request to
    /// send is returned.
    pub fn request_cached_row(&mut self, logical_idx: usize, columns: &[usize]) -> (job: Option<Job>)
        requires
            old(self).wf(),
        ensures
            final(self).wf(),
            final(self).logical_rows == old(self).logical_rows,
            ({
                let shown = old(self).logical_rows.shown();
                let idle = columns@.len() == 0 || logical_idx >= shown.len();
                let cached = cached_with(old(self).row_cache@, logical_idx, columns@);
                let covered = request_covers(old(self).requested_range, logical_idx, columns@);
                let w = window_for(logical_idx, shown.len());
                let wanted = missing_pairs(
                    shown_pairs(shown, window_positions(logical_idx as int, w.0, w.1)),
                    old(self).row_cache@,
                    columns@,
                );
                let quiet = idle || (!cached && covered) || (!idle && !cached && !covered && wanted.len() == 0);
                &&& job is Some <==> (!idle && !cached && !covered && wanted.len() > 0)
                &&& quiet ==> {
                    &&& final(self).row_cache@ == old(self).row_cache@
                    &&& final(self).row_cache_order@ == old(self).row_cache_order@
                    &&& final(self).row_cache_access == old(self).row_cache_access
                    &&& final(self).row_cache_columns@ == old(self).row_cache_columns@
                    &&& final(self).row_request_id == old(self).row_request_id
                    &&& final(self).requested_range == old(self).requested_range
                }
                &&& (!idle && cached) ==> {
                    &&& final(self).row_cache@.dom() == old(self).row_cache@.dom()
                    &&& forall|r: usize| #[trigger] final(self).row_cache@.contains_key(r) ==> final(self).row_cache@[r].cells
                        == old(self).row_cache@[r].cells
                    &&& final(self).row_cache_columns@ == old(self).row_cache_columns@
                    &&& final(self).row_request_id == old(self).row_request_id
                    &&& final(self).requested_range == old(self).requested_range
                    &&& old(self).touch_due(logical_idx) ==> final(self).row_cache_access == next_stamp(
                        old(self).row_cache_access,
                    ) && final(self).row_cache@[logical_idx].access_id == final(self).row_cache_access && order_left(
                        *final(self),
                        old(self).row_cache_order@.push((logical_idx, final(self).row_cache_access)),
                        0,
                    )
                    &&& !old(self).touch_due(logical_idx) ==> final(self).row_cache@ == old(self).row_cache@
                        && final(self).row_cache_order@ == old(self).row_cache_order@ && final(self).row_cache_access
                        == old(self).row_cache_access
                }
                &&& job matches Some(Job::ReadRows { request_id, rows, columns: cols }) ==> {
                    &&& request_id == (if old(self).row_request_id == u64::MAX { 0 } else { old(self).row_request_id + 1 })
                    &&& final(self).row_request_id == request_id
                    &&& rows@ == wanted
                    &&& sorted_strict(cols@)
                    &&& forall|c: usize| cols@.contains(c) <==> columns@.contains(c)
                    &&& final(self).requested_range matches Some(r) && r.0 == w.0 && r.1 == w.1 && r.2@ == cols@
                    &&& final(self).row_cache_columns@ == cols@
                }
                &&& job matches Some(j) ==> j is ReadRows
                &&& (!idle && !covered && exists|k: int| #[trigger] lacks_column(old(self).row_cache@, logical_idx, columns@, k))
                    ==> (job matches Some(Job::ReadRows { rows, .. }) && rows@.contains((logical_idx, shown[logical_idx as int])))
            }),
    {
        proof {
            let shown = self.logical_rows.shown();
            if columns@.len() > 0 && logical_idx < shown.len() && exists|k: int| #[trigger] lacks_column(self.row_cache@, logical_idx, columns@, k) {
                let k = choose|k: int| #[trigger] lacks_column(self.row_cache@, logical_idx, columns@, k);
                lemma_row_lacking_column_is_asked_for(self.row_cache@, shown, logical_idx, columns@, k);
            }
        }
        if columns.len() == 0 || self.logical_rows.get(logical_idx).is_none() {
            return None;
        }
        if self.row_has_columns(logical_idx, columns) {
            self.touch_cached_row(logical_idx);
            return None;
        }
        let covered = match &self.requested_range {
            Some(req) => req.0 <= logical_idx && logical_idx < req.1 && all_listed(&req.2, columns),
            None => false,
        };
        if covered {
            return None;
        }
        let (start, end) = self.cache_window_for(logical_idx);
        let rows = self.cache_window_rows_with_missing_columns(logical_idx, start, end, columns);
        if rows.len() == 0 {
            return None;
        }
        let mut requested = slice_to_vec(columns);
        let ghost given = requested@;
        sort_numbers(&mut requested);
        let ghost sorted = requested@;
        dedup_sorted(&mut requested);
        proof {
            assert forall|x: usize| sorted.contains(x) <==> given.contains(x) by {
                broadcast use vstd::seq_lib::group_to_multiset_ensures;
                assert(sorted.to_multiset().count(x) == given.to_multiset().count(x));
            }
        }
        self.retain_cached_columns_if_changed(requested.as_slice());
        self.row_request_id = self.row_request_id.wrapping_add(1);
        let kept = slice_to_vec(requested.as_slice());
        self.requested_range = Some((start, end, kept));
        Some(Job::ReadRows { request_id: self.row_request_id, rows, columns: requested })
    }
}


/// The numbers of the columns marked visible, in increasing order.
pub fn visible_column_indices(visible: &[bool]) -> (cols: Vec<usize>)
    ensures
        sorted_strict(cols@),
        forall|c: usize| cols@.contains(c) <==> (c < visible@.len() && visible@[c as int]),
{
    let mut cols: Vec<usize> = Vec::new();
    let mut i: usize = 0;
    while i < visible.len()
        invariant
            0 <= i <= visible@.len(),
            sorted_strict(cols@),
            forall|k: int| 0 <= k < cols@.len() ==> #[trigger] cols@[k] < i,
            forall|c: usize| cols@.contains(c) <==> (c < i && visible@[c as int]),
        decreases visible@.len() - i,
    {
        let ghost before = cols@;
        if visible[i] {
            cols.push(i);
        }
        proof {
            assert forall|c: usize| cols@.contains(c) <==> (c < i + 1 && visible@[c as int]) by {
                crate::rows::lemma_push_contains(before, i, c);
                if before.contains(c) {
                    let k = choose|k: int| 0 <= k < before.len() && before[k] == c;
                }
            }
        }
        i = i + 1;
    }
    cols
}

} // verus!
