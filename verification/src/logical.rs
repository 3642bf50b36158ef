//! The rows a view shows, in order: every row, every row but some, or an
//! explicit list; and the source row behind each shown position.

use vstd::prelude::*;

use crate::rows::sorted_strict;
use crate::selection::sat_sub;

verus! {

/// The rows below `total` that are not in `excluded`, in increasing order.
pub open spec fn visible_rows(total: nat, excluded: Seq<usize>) -> Seq<usize>
    decreases total,
{
    if total == 0 {
        Seq::empty()
    } else {
        let prev = visible_rows((total - 1) as nat, excluded);
        if excluded.contains((total - 1) as usize) {
            prev
        } else {
            prev.push((total - 1) as usize)
        }
    }
}

/// Number of entries of `s` below `x`.
pub open spec fn count_below(s: Seq<usize>, x: int) -> int
    decreases s.len(),
{
    if s.len() == 0 {
        0
    } else {
        count_below(s.drop_last(), x) + if s.last() < x { 1int } else { 0int }
    }
}

/// The shown rows, as a list of source rows.
#[derive(Clone, Debug)]
pub enum LogicalRows {
    /// Rows `0..n`.
    All(usize),
    /// Rows below `total` except the listed ones.
    AllExcept { total: usize, excluded: Vec<usize> },
    /// Exactly the listed rows, in the listed order.
    Filtered(Vec<usize>),
}

impl Default for LogicalRows {
    fn default() -> (rows: Self)
        ensures
            rows == LogicalRows::All(0),
    {
        LogicalRows::All(0)
    }
}

proof fn lemma_count_below_bounds(s: Seq<usize>, x: int)
    ensures
        0 <= count_below(s, x) <= s.len(),
    decreases s.len(),
{
    if s.len() > 0 {
        lemma_count_below_bounds(s.drop_last(), x);
    }
}

/// In a strictly increasing list, the entries below `x` are those before
/// the first one that is not.
proof fn lemma_count_below_split(s: Seq<usize>, x: int, p: int)
    requires
        sorted_strict(s),
        0 <= p <= s.len(),
        forall|i: int| 0 <= i < p ==> s[i] < x,
        forall|i: int| p <= i < s.len() ==> s[i] >= x,
    ensures
        count_below(s, x) == p,
    decreases s.len(),
{
    if s.len() > 0 {
        let d = s.drop_last();
        if p == s.len() {
            lemma_count_below_split(d, x, p - 1);
        } else {
            lemma_count_below_split(d, x, p);
        }
    }
}

/// One more row counted: the count below `x + 1` grows by one exactly when
/// `x` is listed (a strictly increasing list holds it at most once).
proof fn lemma_count_below_step(s: Seq<usize>, x: usize)
    requires
        sorted_strict(s),
    ensures
        count_below(s, x + 1) == count_below(s, x as int) + if s.contains(x) { 1int } else { 0int },
    decreases s.len(),
{
    if s.len() > 0 {
        let d = s.drop_last();
        lemma_count_below_step(d, x);
        if s.contains(x) && s.last() != x {
            let i = choose|i: int| 0 <= i < s.len() && s[i] == x;
            assert(d[i] == x);
        }
        if d.contains(x) {
            let i = choose|i: int| 0 <= i < d.len() && d[i] == x;
            assert(s[i] == x);
            assert(s[i] < s[s.len() - 1]);
        }
    }
}

/// How many rows below `m` are shown, and that those are the first rows of
/// any longer range.
proof fn lemma_visible_rows(m: nat, excluded: Seq<usize>)
    requires
        sorted_strict(excluded),
        m <= usize::MAX + 1,
    ensures
        visible_rows(m, excluded).len() == m - count_below(excluded, m as int),
        forall|i: int| 0 <= i < visible_rows(m, excluded).len() ==> #[trigger] visible_rows(m, excluded)[i] < m,
        forall|i: int, j: int| 0 <= i < j < visible_rows(m, excluded).len() ==> visible_rows(m, excluded)[i] < visible_rows(m, excluded)[j],
    decreases m,
{
    if m == 0 {
        lemma_count_below_split(excluded, 0, 0);
    } else {
        let p = (m - 1) as nat;
        lemma_visible_rows(p, excluded);
        let x = p as usize;
        assert(x == p);
        lemma_count_below_step(excluded, x);
        assert(visible_rows(m, excluded) == if excluded.contains(x) {
            visible_rows(p, excluded)
        } else {
            visible_rows(p, excluded).push(x)
        });
    }
}

/// Shown rows below `a` are the first shown rows below any `b >= a`.
proof fn lemma_visible_prefix(a: nat, b: nat, excluded: Seq<usize>)
    requires
        a <= b,
    ensures
        visible_rows(a, excluded).len() <= visible_rows(b, excluded).len(),
        forall|i: int| 0 <= i < visible_rows(a, excluded).len() ==> #[trigger] visible_rows(b, excluded)[i] == visible_rows(a, excluded)[i],
    decreases b - a,
{
    if a < b {
        lemma_visible_prefix(a, (b - 1) as nat, excluded);
    }
}

/// Number of entries of the strictly increasing `excluded` that are at
/// most `x`.
fn count_at_most(excluded: &[usize], x: usize) -> (p: usize)
    requires
        sorted_strict(excluded@),
    ensures
        p <= excluded@.len(),
        forall|i: int| 0 <= i < p ==> excluded@[i] <= x,
        forall|i: int| p <= i < excluded@.len() ==> excluded@[i] > x,
{
    let mut lo: usize = 0;
    let mut hi: usize = excluded.len();
    while lo < hi
        invariant
            sorted_strict(excluded@),
            0 <= lo <= hi <= excluded@.len(),
            forall|i: int| 0 <= i < lo ==> excluded@[i] <= x,
            forall|i: int| hi <= i < excluded@.len() ==> excluded@[i] > x,
        decreases hi - lo,
    {
        let mid = lo + (hi - lo) / 2;
        if excluded[mid] <= x {
            lo = mid + 1;
        } else {
            hi = mid;
        }
    }
    lo
}

proof fn lemma_sorted_at_least_index(s: Seq<usize>, i: int)
    requires
        sorted_strict(s),
        0 <= i < s.len(),
    ensures
        s[i] >= i,
    decreases i,
{
    if i > 0 {
        lemma_sorted_at_least_index(s, i - 1);
    }
}

/// The source row shown at position `logical_idx` when every row below
/// `total` but the strictly increasing `excluded` is shown: `None` when the
/// position is not below `total - excluded.len()`.
pub fn kth_row_not_in_excluded(total: usize, excluded: &[usize], logical_idx: usize) -> (res: Option<usize>)
    requires
        sorted_strict(excluded@),
    ensures
        res == if logical_idx < sat_sub(total, excluded@.len() as int) {
            Some(visible_rows(total as nat, excluded@)[logical_idx as int])
        } else {
            None::<usize>
        },
{
    let ghost ex = excluded@;
    let kept = if excluded.len() <= total { total - excluded.len() } else { 0 };
    if logical_idx >= kept {
        return None;
    }
    proof {
        lemma_visible_rows(total as nat, ex);
        lemma_count_below_bounds(ex, total as int);
    }
    let mut lo: usize = 0;
    let mut hi: usize = total;
    while lo < hi
        invariant
            sorted_strict(ex),
            ex == excluded@,
            0 <= lo <= hi <= total,
            logical_idx < visible_rows(total as nat, ex).len(),
            visible_rows(lo as nat, ex).len() <= logical_idx,
            hi < total ==> visible_rows((hi + 1) as nat, ex).len() > logical_idx,
        decreases hi - lo,
    {
        let mid = lo + (hi - lo) / 2;
        let through_mid = count_at_most(excluded, mid);
        proof {
            lemma_count_below_split(ex, mid + 1, through_mid as int);
            if through_mid > 0 {
                lemma_sorted_at_least_index(ex, through_mid - 1);
            }
            lemma_visible_rows((mid + 1) as nat, ex);
        }
        let visible_through_mid = mid + 1 - through_mid;
        if visible_through_mid > logical_idx {
            hi = mid;
        } else {
            lo = mid + 1;
        }
    }
    proof {
        if lo == total {
            assert(visible_rows(lo as nat, ex).len() <= logical_idx);
        }
        let a = visible_rows(lo as nat, ex);
        let b = visible_rows((lo + 1) as nat, ex);
        assert(b.len() > logical_idx);
        assert(!ex.contains(lo));
        assert(b == a.push(lo));
        assert(a.len() == logical_idx);
        lemma_visible_prefix((lo + 1) as nat, total as nat, ex);
        assert(visible_rows(total as nat, ex)[logical_idx as int] == b[logical_idx as int]);
    }
    Some(lo)
}

impl LogicalRows {
    /// The listed rows are strictly increasing (so each row appears once and
    /// positions can be found by counting).
    pub open spec fn wf(&self) -> bool {
        match self {
            LogicalRows::AllExcept { total, excluded } => sorted_strict(excluded@),
            _ => true,
        }
    }

    /// The source row behind each shown position.
    pub open spec fn shown(&self) -> Seq<usize> {
        match self {
            LogicalRows::All(n) => Seq::new(*n as nat, |i: int| i as usize),
            LogicalRows::AllExcept { total, excluded } => visible_rows(*total as nat, excluded@).take(
                sat_sub(*total, excluded@.len() as int),
            ),
            LogicalRows::Filtered(rows) => rows@,
        }
    }

    /// The shown rows of a well-formed value: every listed row but the
    /// excluded ones, strictly increasing, unless given as an explicit list.
    pub proof fn lemma_shown(&self)
        requires
            self.wf(),
        ensures
            self is AllExcept ==> forall|i: int| 0 <= i < self.shown().len() ==> {
                &&& #[trigger] self.shown()[i] < self->total
                &&& !(self->excluded)@.contains(self.shown()[i])
            },
            !(self is Filtered) ==> forall|i: int, j: int| 0 <= i < j < self.shown().len() ==> self.shown()[i] < self.shown()[j],
    {
        if let LogicalRows::AllExcept { total, excluded } = self {
            lemma_visible_rows(*total as nat, excluded@);
            lemma_count_below_bounds(excluded@, *total as int);
            assert forall|i: int| 0 <= i < self.shown().len() implies !excluded@.contains(#[trigger] self.shown()[i]) by {
                lemma_visible_not_excluded(*total as nat, excluded@, i);
            }
        }
    }

    /// Number of shown rows.
    pub fn len(&self) -> (n: usize)
        requires
            self.wf(),
        ensures
            n == self.shown().len(),
    {
        match self {
            LogicalRows::All(len) => *len,
            LogicalRows::AllExcept { total, excluded } => {
                proof {
                    lemma_visible_rows(*total as nat, excluded@);
                    lemma_count_below_bounds(excluded@, *total as int);
                }
                if excluded.len() <= *total {
                    *total - excluded.len()
                } else {
                    0
                }
            },
            LogicalRows::Filtered(rows) => rows.len(),
        }
    }

    /// The source row shown at `logical_idx`, if there is one.
    pub fn get(&self, logical_idx: usize) -> (res: Option<usize>)
        requires
            self.wf(),
        ensures
            res == if logical_idx < self.shown().len() {
                Some(self.shown()[logical_idx as int])
            } else {
                None::<usize>
            },
    {
        match self {
            LogicalRows::All(len) => {
                if logical_idx < *len {
                    Some(logical_idx)
                } else {
                    None
                }
            },
            LogicalRows::AllExcept { total, excluded } => {
                proof {
                    lemma_visible_rows(*total as nat, excluded@);
                    lemma_count_below_bounds(excluded@, *total as int);
                }
                kth_row_not_in_excluded(*total, excluded.as_slice(), logical_idx)
            },
            LogicalRows::Filtered(rows) => {
                if logical_idx < rows.len() {
                    Some(rows[logical_idx])
                } else {
                    None
                }
            },
        }
    }

    /// Every row is shown.
    pub fn is_all(&self) -> (b: bool)
        ensures
            b == (self is All),
    {
        match self {
            LogicalRows::All(_) => true,
            _ => false,
        }
    }

    /// The source rows shown at positions `start..end`; positions past the
    /// last shown row are left out (an explicit list must hold the range).
    pub fn slice_to_vec(&self, start: usize, end: usize) -> (out: Vec<usize>)
        requires
            self.wf(),
            self is Filtered ==> start <= end <= self.shown().len(),
        ensures
            self is Filtered ==> out@ == self.shown().subrange(start as int, end as int),
            self is All ==> out@ == Seq::new(if start < end { (end - start) as nat } else { 0 }, |i: int| (start + i) as usize),
            self is AllExcept ==> out@ == (if start < end && start < self.shown().len() {
                self.shown().subrange(start as int, if end < self.shown().len() { end as int } else { self.shown().len() as int })
            } else {
                Seq::<usize>::empty()
            }),
    {
        match self {
            LogicalRows::All(_) => {
                let mut out: Vec<usize> = Vec::new();
                let mut idx = start;
                while idx < end
                    invariant
                        start <= idx <= end || (start >= end && idx == start),
                        out@ == Seq::new((idx - start) as nat, |i: int| (start + i) as usize),
                    decreases end - idx,
                {
                    out.push(idx);
                    idx = idx + 1;
                    assert(out@ =~= Seq::new((idx - start) as nat, |i: int| (start + i) as usize));
                }
                assert(out@ =~= Seq::new(if start < end { (end - start) as nat } else { 0 }, |i: int| (start + i) as usize));
                out
            },
            LogicalRows::AllExcept { .. } => {
                let ghost shown = self.shown();
                let mut out: Vec<usize> = Vec::new();
                let mut idx = start;
                while idx < end
                    invariant
                        self.wf(),
                        shown == self.shown(),
                        start <= idx <= end || (start >= end && idx == start),
                        out@ == (if start < idx && start < shown.len() {
                            shown.subrange(start as int, if idx < shown.len() { idx as int } else { shown.len() as int })
                        } else {
                            Seq::<usize>::empty()
                        }),
                    decreases end - idx,
                {
                    let ghost prev = out@;
                    if let Some(row) = self.get(idx) {
                        out.push(row);
                    }
                    idx = idx + 1;
                    proof {
                        if start < idx && start < shown.len() {
                            let hi = if idx < shown.len() { idx as int } else { shown.len() as int };
                            if idx - 1 < shown.len() {
                                assert(out@ =~= shown.subrange(start as int, hi));
                            } else {
                                assert(out@ =~= shown.subrange(start as int, hi));
                            }
                        }
                    }
                }
                out
            },
            LogicalRows::Filtered(rows) => {
                let mut out: Vec<usize> = Vec::new();
                let mut idx = start;
                while idx < end
                    invariant
                        start <= idx <= end <= rows@.len(),
                        out@ == rows@.subrange(start as int, idx as int),
                    decreases end - idx,
                {
                    out.push(rows[idx]);
                    idx = idx + 1;
                    assert(out@ =~= rows@.subrange(start as int, idx as int));
                }
                out
            },
        }
    }
}

/// Shown rows are never excluded ones.
proof fn lemma_visible_not_excluded(m: nat, excluded: Seq<usize>, i: int)
    requires
        0 <= i < visible_rows(m, excluded).len(),
    ensures
        !excluded.contains(visible_rows(m, excluded)[i]),
    decreases m,
{
    if m > 0 {
        let p = (m - 1) as nat;
        if i < visible_rows(p, excluded).len() {
            lemma_visible_not_excluded(p, excluded, i);
        }
    }
}

} // verus!
