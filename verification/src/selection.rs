//! Row selections produced by column filters, and how they combine.

use vstd::prelude::*;

use crate::rows::{
    complement_from_selected_rows, complement_sorted_rows, intersect_sorted_rows, sorted_strict,
    subtract_sorted_rows, union_sorted_rows,
};

verus! {

/// The rows that pass the filters, in the most compact of three forms.
#[derive(Debug)]
pub enum FilterRows {
    /// All rows below the count.
    All(usize),
    /// All rows below `total` except the listed ones.
    AllExcept { total: usize, excluded: Vec<usize> },
    /// Exactly the listed rows.
    Rows(Vec<usize>),
}

impl FilterRows {
    /// Row `r` is among the rows that pass.
    pub open spec fn contains_row(&self, r: usize) -> bool {
        match self {
            FilterRows::All(n) => r < *n,
            FilterRows::AllExcept { total, excluded } => r < *total && !excluded@.contains(r),
            FilterRows::Rows(rows) => rows@.contains(r),
        }
    }

    /// The listed rows are strictly increasing.
    pub open spec fn wf(&self) -> bool {
        match self {
            FilterRows::All(_) => true,
            FilterRows::AllExcept { total, excluded } => sorted_strict(excluded@),
            FilterRows::Rows(rows) => sorted_strict(rows@),
        }
    }
}

/// A selection of rows while filters are being combined.
pub enum RowSelection {
    /// All rows below the count.
    All(usize),
    /// All rows below `total` except the listed ones.
    AllExcept { total: usize, excluded: Vec<usize> },
    /// The listed rows (of a file with `total` rows).
    Rows { total: usize, rows: Vec<usize> },
}

impl RowSelection {
    /// Row `r` is selected.
    pub open spec fn contains_row(&self, r: usize) -> bool {
        match self {
            RowSelection::All(n) => r < *n,
            RowSelection::AllExcept { total, excluded } => r < *total && !excluded@.contains(r),
            RowSelection::Rows { total, rows } => rows@.contains(r),
        }
    }

    /// A list of rows, kept or left out, holds only rows below the total.
    pub open spec fn rows_below_total(&self) -> bool {
        match self {
            RowSelection::Rows { total, rows } => forall|i: int| 0 <= i < rows@.len() ==> #[trigger] rows@[i] < *total,
            RowSelection::AllExcept { total, excluded } => forall|i: int| 0 <= i < excluded@.len() ==> #[trigger] excluded@[i]
                < *total,
            _ => true,
        }
    }

    /// The row count of the file the selection is about.
    pub open spec fn total(&self) -> usize {
        match self {
            RowSelection::All(n) => *n,
            RowSelection::AllExcept { total, excluded } => *total,
            RowSelection::Rows { total, rows } => *total,
        }
    }

    /// The listed rows are strictly increasing.
    pub open spec fn wf(&self) -> bool {
        match self {
            RowSelection::All(_) => true,
            RowSelection::AllExcept { total, excluded } => sorted_strict(excluded@),
            RowSelection::Rows { total, rows } => sorted_strict(rows@),
        }
    }

    /// The rows selected by both `self` and `other`. The result keeps the
    /// total of `self` unless `self` selects everything; a list of rows
    /// stays a list of rows, and two exclusion lists merge.
    pub fn intersect(self, other: RowSelection) -> (out: RowSelection)
        requires
            self.wf(),
            other.wf(),
        ensures
            out.wf(),
            out is All <==> (self is All && other is All),
            out is Rows <==> (self is Rows || other is Rows),
            out.total() == if self is All { other.total() } else { self.total() },
            self is All ==> out == other,
            !(self is All) && other is All ==> out == self,
            self is Rows && other is Rows ==> forall|r: usize| out.contains_row(r) <==> (self.contains_row(r) && other.contains_row(r)),
            self is Rows && other is AllExcept ==> forall|r: usize| out.contains_row(r) <==> (self.contains_row(r) && !(other->excluded)@.contains(r)),
            self is AllExcept && other is Rows ==> forall|r: usize| out.contains_row(r) <==> (other.contains_row(r) && !(self->excluded)@.contains(r)),
            self is AllExcept && other is AllExcept ==> forall|r: usize| out.contains_row(r) <==> (r < self.total() && self.contains_row(r) && !(other->excluded)@.contains(r)),
            self.total() == other.total() && self.rows_below_total() && other.rows_below_total() ==> forall|r: usize|
                out.contains_row(r) <==> (self.contains_row(r) && other.contains_row(r)),
            self.total() == other.total() && self.rows_below_total() && other.rows_below_total() ==> out.rows_below_total(),
    {
        match (self, other) {
            (RowSelection::All(_), right) => right,
            (left, RowSelection::All(n)) => left,
            (RowSelection::Rows { total, rows: left }, RowSelection::Rows { total: t2, rows: right }) => {
                let rows = intersect_sorted_rows(left.as_slice(), right.as_slice());
                proof {
                    assert forall|i: int| 0 <= i < rows@.len() && (forall|k: int| 0 <= k < left@.len() ==> #[trigger] left@[k] < total) implies #[trigger] rows@[i] < total by {
                        assert(rows@.contains(rows@[i]));
                        let k = choose|k: int| 0 <= k < left@.len() && left@[k] == rows@[i];
                    }
                }
                RowSelection::Rows { total, rows }
            },
            (RowSelection::Rows { total, rows }, RowSelection::AllExcept { total: t2, excluded }) => {
                let out = subtract_sorted_rows(rows.as_slice(), excluded.as_slice());
                proof {
                    assert forall|i: int| 0 <= i < out@.len() && (forall|k: int| 0 <= k < rows@.len() ==> #[trigger] rows@[k] < total) implies #[trigger] out@[i] < total by {
                        assert(out@.contains(out@[i]));
                        let k = choose|k: int| 0 <= k < rows@.len() && rows@[k] == out@[i];
                    }
                }
                RowSelection::Rows { total, rows: out }
            },
            (RowSelection::AllExcept { total, excluded }, RowSelection::Rows { total: t2, rows }) => {
                let out = subtract_sorted_rows(rows.as_slice(), excluded.as_slice());
                proof {
                    assert forall|i: int| 0 <= i < out@.len() && (forall|k: int| 0 <= k < rows@.len() ==> #[trigger] rows@[k] < t2) implies #[trigger] out@[i] < t2 by {
                        assert(out@.contains(out@[i]));
                        let k = choose|k: int| 0 <= k < rows@.len() && rows@[k] == out@[i];
                    }
                }
                RowSelection::Rows { total, rows: out }
            },
            (RowSelection::AllExcept { total, excluded: left }, RowSelection::AllExcept { total: t2, excluded: right }) => {
                let excluded = union_sorted_rows(left.as_slice(), right.as_slice());
                proof {
                    if total == t2 && (forall|i: int| 0 <= i < left@.len() ==> #[trigger] left@[i] < total) && (forall|i: int|
                        0 <= i < right@.len() ==> #[trigger] right@[i] < t2) {
                        assert forall|i: int| 0 <= i < excluded@.len() implies #[trigger] excluded@[i] < total by {
                            assert(excluded@.contains(excluded@[i]));
                            if left@.contains(excluded@[i]) {
                                let k = choose|k: int| 0 <= k < left@.len() && left@[k] == excluded@[i];
                            } else {
                                let k = choose|k: int| 0 <= k < right@.len() && right@[k] == excluded@[i];
                            }
                        }
                    }
                }
                RowSelection::AllExcept { total, excluded }
            },
        }
    }
}

/// `total - n`, or zero when `n` exceeds `total`.
pub open spec fn sat_sub(total: usize, n: int) -> int {
    if n <= total { total - n } else { 0 }
}

/// The listed rows, as the shorter of the two lists: when fewer rows are
/// left out than listed, the rows left out (below `total`) are listed instead.
pub fn compact_rows(total: usize, rows: Vec<usize>) -> (out: FilterRows)
    requires
        sorted_strict(rows@),
    ensures
        out.wf(),
        rows@.len() == 0 ==> (out matches FilterRows::Rows(r) && r@ == rows@),
        rows@.len() > 0 && sat_sub(total, rows@.len() as int) < rows@.len() ==> (out matches FilterRows::AllExcept {
            total: t,
            excluded,
        } && t == total && forall|x: usize| excluded@.contains(x) <==> (x < total && !rows@.contains(x))),
        rows@.len() > 0 && sat_sub(total, rows@.len() as int) >= rows@.len() ==> (out matches FilterRows::Rows(r) && r@
            == rows@),
        (forall|i: int| 0 <= i < rows@.len() ==> #[trigger] rows@[i] < total) ==> forall|r: usize|
            out.contains_row(r) <==> rows@.contains(r),
{
    if rows.len() == 0 {
        return FilterRows::Rows(rows);
    }
    let excluded_len = if rows.len() <= total { total - rows.len() } else { 0 };
    if excluded_len < rows.len() {
        let excluded = complement_from_selected_rows(total, rows.as_slice());
        proof {
            if forall|i: int| 0 <= i < rows@.len() ==> #[trigger] rows@[i] < total {
                assert forall|r: usize| rows@.contains(r) implies r < total by {
                    let i = choose|i: int| 0 <= i < rows@.len() && rows@[i] == r;
                }
            }
        }
        FilterRows::AllExcept { total, excluded }
    } else {
        FilterRows::Rows(rows)
    }
}

/// All rows below `total` except `excluded`, as the most compact form:
/// everything when nothing is excluded, the exclusions while they are no
/// more than the rows kept, else the kept rows.
pub fn compact_exclusion(total: usize, excluded: Vec<usize>) -> (out: FilterRows)
    requires
        sorted_strict(excluded@),
    ensures
        out.wf(),
        excluded@.len() == 0 ==> out == FilterRows::All(total),
        excluded@.len() > 0 && excluded@.len() <= sat_sub(total, excluded@.len() as int) ==> (out matches FilterRows::AllExcept {
            total: t,
            excluded: e,
        } && t == total && e@ == excluded@),
        excluded@.len() > 0 && excluded@.len() > sat_sub(total, excluded@.len() as int) ==> (out matches FilterRows::Rows(r)
            && forall|x: usize| r@.contains(x) <==> (x < total && !excluded@.contains(x))),
        forall|r: usize| out.contains_row(r) <==> (r < total && !excluded@.contains(r)),
{
    if excluded.len() == 0 {
        assert forall|r: usize| r < total implies !excluded@.contains(r) by {}
        return FilterRows::All(total);
    }
    let kept = if excluded.len() <= total { total - excluded.len() } else { 0 };
    if excluded.len() <= kept {
        return FilterRows::AllExcept { total, excluded };
    }
    FilterRows::Rows(complement_sorted_rows(total, excluded.as_slice()))
}

impl RowSelection {
    /// The selection as filter rows, in the most compact form.
    pub fn into_filter_rows(self) -> (out: FilterRows)
        requires
            self.wf(),
        ensures
            out.wf(),
            self.rows_below_total() ==> forall|r: usize| out.contains_row(r) <==> self.contains_row(r),
            self is All ==> out == FilterRows::All(self.total()),
            out matches FilterRows::All(t) ==> t == self.total(),
            out matches FilterRows::AllExcept { total: t, excluded: e } ==> t == self.total() && (self.rows_below_total()
                ==> forall|i: int| 0 <= i < e@.len() ==> #[trigger] e@[i] < t),
            self matches RowSelection::AllExcept { total, excluded } ==> (excluded@.len() == 0 ==> out
                == FilterRows::All(total)) && (excluded@.len() > 0 && excluded@.len() <= sat_sub(
                total,
                excluded@.len() as int,
            ) ==> out is AllExcept) && (excluded@.len() > 0 && excluded@.len() > sat_sub(
                total,
                excluded@.len() as int,
            ) ==> out is Rows),
            self matches RowSelection::Rows { total, rows } ==> (rows@.len() == 0 ==> out is Rows) && (rows@.len()
                > 0 && sat_sub(total, rows@.len() as int) < rows@.len() ==> out is AllExcept) && (rows@.len() > 0
                && sat_sub(total, rows@.len() as int) >= rows@.len() ==> out is Rows),
    {
        match self {
            RowSelection::All(total) => FilterRows::All(total),
            RowSelection::AllExcept { total, excluded } => compact_exclusion(total, excluded),
            RowSelection::Rows { total, rows } => {
                let out = compact_rows(total, rows);
                proof {
                    if out is AllExcept {
                        let e = out->excluded;
                        assert forall|i: int| 0 <= i < e@.len() implies #[trigger] e@[i] < total by {
                            assert(e@.contains(e@[i]));
                        }
                    }
                }
                out
            },
        }
    }
}

} // verus!
