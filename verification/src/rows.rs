//! Sets of row numbers kept as strictly increasing lists, and the algebra
//! that the column filters use on them.

use vstd::prelude::*;

verus! {

/// `s` is strictly increasing (so it holds no row twice).
pub open spec fn sorted_strict(s: Seq<usize>) -> bool {
    forall|i: int, j: int| 0 <= i < j < s.len() ==> s[i] < s[j]
}

proof fn lemma_sorted_not_contains_below(s: Seq<usize>, j: int, x: usize)
    requires
        sorted_strict(s),
        0 <= j <= s.len(),
        j < s.len() ==> x < s[j],
        forall|k: int| 0 <= k < j ==> s[k] != x,
    ensures
        !s.contains(x),
{
    if s.contains(x) {
        let k = choose|k: int| 0 <= k < s.len() && s[k] == x;
        if k >= j {
            assert(s[j] <= s[k]);
        }
    }
}

pub proof fn lemma_push_contains<A>(s: Seq<A>, a: A, x: A)
    ensures
        s.push(a).contains(x) <==> (s.contains(x) || x == a),
{
    if s.push(a).contains(x) {
        let k = choose|k: int| 0 <= k < s.push(a).len() && s.push(a)[k] == x;
        if k < s.len() {
            assert(s[k] == x);
        }
    }
    if s.contains(x) {
        let k = choose|k: int| 0 <= k < s.len() && s[k] == x;
        assert(s.push(a)[k] == x);
    }
    if x == a {
        assert(s.push(a)[s.len() as int] == x);
    }
}

/// The rows present in both `left` and `right`, in increasing order.
pub fn intersect_sorted_rows(left: &[usize], right: &[usize]) -> (out: Vec<usize>)
    requires
        sorted_strict(left@),
        sorted_strict(right@),
    ensures
        sorted_strict(out@),
        forall|x: usize| out@.contains(x) <==> (left@.contains(x) && right@.contains(x)),
{
    let mut out: Vec<usize> = Vec::new();
    let mut i: usize = 0;
    let mut j: usize = 0;
    while i < left.len() && j < right.len()
        invariant
            sorted_strict(left@),
            sorted_strict(right@),
            0 <= i <= left@.len(),
            0 <= j <= right@.len(),
            sorted_strict(out@),
            i < left@.len() ==> forall|k: int| 0 <= k < j ==> right@[k] < left@[i as int],
            j < right@.len() ==> forall|k: int| 0 <= k < i ==> left@[k] < right@[j as int],
            forall|k: int| 0 <= k < out@.len() ==> (i < left@.len() ==> out@[k] < left@[i as int]),
            forall|x: usize|
                out@.contains(x) <==> (left@.take(i as int).contains(x) && right@.take(j as int).contains(x)),
        decreases left@.len() - i + right@.len() - j,
    {
        let a = left[i];
        let b = right[j];
        let ghost oi = i as int;
        let ghost oj = j as int;
        if a < b {
            i = i + 1;
            assert forall|x: usize|
                out@.contains(x) <==> (left@.take(i as int).contains(x) && right@.take(j as int).contains(x)) by {
                assert(left@.take(i as int) =~= left@.take(oi).push(a));
                lemma_push_contains(left@.take(oi), a, x);
                if x == a {
                    lemma_sorted_not_contains_below(right@.take(j as int), j as int, x);
                }
            }
        } else if b < a {
            j = j + 1;
            assert forall|x: usize|
                out@.contains(x) <==> (left@.take(i as int).contains(x) && right@.take(j as int).contains(x)) by {
                assert(right@.take(j as int) =~= right@.take(oj).push(b));
                lemma_push_contains(right@.take(oj), b, x);
                if x == b {
                    lemma_sorted_not_contains_below(left@.take(i as int), i as int, x);
                }
            }
        } else {
            let ghost old_out = out@;
            out.push(a);
            i = i + 1;
            j = j + 1;
            assert forall|x: usize|
                out@.contains(x) <==> (left@.take(i as int).contains(x) && right@.take(j as int).contains(x)) by {
                assert(left@.take(i as int) =~= left@.take(oi).push(a));
                assert(right@.take(j as int) =~= right@.take(oj).push(b));
                assert(out@ =~= old_out.push(a));
                lemma_push_contains(old_out, a, x);
                lemma_push_contains(left@.take(oi), a, x);
                lemma_push_contains(right@.take(oj), b, x);
                if x == a {
                    lemma_sorted_not_contains_below(left@.take(oi), oi, x);
                    lemma_sorted_not_contains_below(right@.take(oj), oj, x);
                }
            }
        }
    }
    assert forall|x: usize| out@.contains(x) <==> (left@.contains(x) && right@.contains(x)) by {
        if left@.contains(x) && right@.contains(x) {
            let p = choose|p: int| 0 <= p < left@.len() && left@[p] == x;
            let q = choose|q: int| 0 <= q < right@.len() && right@[q] == x;
            if p >= i {
                assert(right@[q] < left@[i as int]);
                assert(left@[i as int] <= left@[p]);
            } else if q >= j {
                assert(left@[p] < right@[j as int]);
                assert(right@[j as int] <= right@[q]);
            } else {
                assert(left@.take(i as int)[p] == x);
                assert(right@.take(j as int)[q] == x);
            }
        }
        if out@.contains(x) {
            assert(left@.take(i as int).contains(x));
            assert(right@.take(j as int).contains(x));
            let p = choose|p: int| 0 <= p < i && left@.take(i as int)[p] == x;
            let q = choose|q: int| 0 <= q < j && right@.take(j as int)[q] == x;
            assert(left@[p] == x);
            assert(right@[q] == x);
        }
    }
    out
}

/// `s` never decreases (a row may repeat).
pub open spec fn sorted_le(s: Seq<usize>) -> bool {
    forall|i: int, j: int| 0 <= i <= j < s.len() ==> s[i] <= s[j]
}

/// The entries of `rows` that `excluded` does not hold, in their order.
pub open spec fn rows_without(rows: Seq<usize>, excluded: Seq<usize>) -> Seq<usize>
    decreases rows.len(),
{
    if rows.len() == 0 {
        Seq::empty()
    } else {
        let kept = rows_without(rows.drop_last(), excluded);
        if excluded.contains(rows.last()) {
            kept
        } else {
            kept.push(rows.last())
        }
    }
}

proof fn lemma_sorted_le_not_contains(s: Seq<usize>, j: int, x: usize)
    requires
        sorted_le(s),
        0 <= j <= s.len(),
        j < s.len() ==> x < s[j],
        forall|k: int| 0 <= k < j ==> s[k] < x,
    ensures
        !s.contains(x),
{
    if s.contains(x) {
        let k = choose|k: int| 0 <= k < s.len() && s[k] == x;
        if k >= j {
            assert(s[j] <= s[k]);
        }
    }
}

/// The entries of `rows` that are not in `excluded`, in the order of
/// `rows`. Both lists never decrease; rows may repeat in either.
pub fn subtract_sorted_rows(rows: &[usize], excluded: &[usize]) -> (out: Vec<usize>)
    requires
        sorted_le(rows@),
        sorted_le(excluded@),
    ensures
        out@ == rows_without(rows@, excluded@),
        forall|x: usize| out@.contains(x) <==> (rows@.contains(x) && !excluded@.contains(x)),
        sorted_strict(rows@) ==> sorted_strict(out@),
{
    let mut out: Vec<usize> = Vec::new();
    let mut i: usize = 0;
    let mut j: usize = 0;
    proof {
        assert(rows@.take(0) =~= Seq::<usize>::empty());
    }
    while i < rows.len()
        invariant
            sorted_le(rows@),
            sorted_le(excluded@),
            0 <= i <= rows@.len(),
            0 <= j <= excluded@.len(),
            out@ == rows_without(rows@.take(i as int), excluded@),
            sorted_strict(rows@) ==> sorted_strict(out@),
            i < rows@.len() ==> forall|k: int| 0 <= k < j ==> excluded@[k] < rows@[i as int],
            sorted_strict(rows@) ==> forall|k: int| 0 <= k < out@.len() ==> (i < rows@.len() ==> out@[k] < rows@[i as int]),
            forall|x: usize| out@.contains(x) <==> (rows@.take(i as int).contains(x) && !excluded@.contains(x)),
        decreases rows@.len() - i,
    {
        let row = rows[i];
        while j < excluded.len() && excluded[j] < row
            invariant
                sorted_le(excluded@),
                0 <= j <= excluded@.len(),
                forall|k: int| 0 <= k < j ==> excluded@[k] < row,
            decreases excluded@.len() - j,
        {
            j = j + 1;
        }
        let ghost oi = i as int;
        let ghost old_out = out@;
        let hit = j < excluded.len() && excluded[j] == row;
        proof {
            if !hit {
                lemma_sorted_le_not_contains(excluded@, j as int, row);
            } else {
                assert(excluded@[j as int] == row);
            }
            assert(rows@.take(oi + 1).drop_last() =~= rows@.take(oi));
            assert(rows@.take(oi + 1).last() == row);
        }
        if !hit {
            out.push(row);
        }
        i = i + 1;
        proof {
            assert forall|x: usize| out@.contains(x) <==> (rows@.take(i as int).contains(x) && !excluded@.contains(x)) by {
                assert(rows@.take(i as int) =~= rows@.take(oi).push(row));
                lemma_push_contains(rows@.take(oi), row, x);
                if !hit {
                    assert(out@ =~= old_out.push(row));
                    lemma_push_contains(old_out, row, x);
                }
            }
            if i < rows@.len() {
                assert(rows@[oi] <= rows@[i as int]);
            }
            if sorted_strict(rows@) && i < rows@.len() {
                assert(rows@[oi] < rows@[i as int]);
            }
        }
    }
    assert(rows@.take(i as int) =~= rows@);
    out
}

/// The rows in `left` or in `right`, in increasing order.
pub fn union_sorted_rows(left: &[usize], right: &[usize]) -> (out: Vec<usize>)
    requires
        sorted_strict(left@),
        sorted_strict(right@),
    ensures
        sorted_strict(out@),
        forall|x: usize| out@.contains(x) <==> (left@.contains(x) || right@.contains(x)),
{
    let mut out: Vec<usize> = Vec::new();
    let mut i: usize = 0;
    let mut j: usize = 0;
    while i < left.len() || j < right.len()
        invariant
            sorted_strict(left@),
            sorted_strict(right@),
            0 <= i <= left@.len(),
            0 <= j <= right@.len(),
            sorted_strict(out@),
            forall|k: int| 0 <= k < out@.len() ==> (i < left@.len() ==> out@[k] < left@[i as int]),
            forall|k: int| 0 <= k < out@.len() ==> (j < right@.len() ==> out@[k] < right@[j as int]),
            forall|x: usize|
                out@.contains(x) <==> (left@.take(i as int).contains(x) || right@.take(j as int).contains(x)),
        decreases left@.len() - i + right@.len() - j,
    {
        let ghost oi = i as int;
        let ghost oj = j as int;
        let ghost old_out = out@;
        if j >= right.len() || (i < left.len() && left[i] < right[j]) {
            let a = left[i];
            out.push(a);
            i = i + 1;
            assert forall|x: usize|
                out@.contains(x) <==> (left@.take(i as int).contains(x) || right@.take(j as int).contains(x)) by {
                assert(left@.take(i as int) =~= left@.take(oi).push(a));
                lemma_push_contains(left@.take(oi), a, x);
                lemma_push_contains(old_out, a, x);
            }
        } else if i >= left.len() || right[j] < left[i] {
            let b = right[j];
            out.push(b);
            j = j + 1;
            assert forall|x: usize|
                out@.contains(x) <==> (left@.take(i as int).contains(x) || right@.take(j as int).contains(x)) by {
                assert(right@.take(j as int) =~= right@.take(oj).push(b));
                lemma_push_contains(right@.take(oj), b, x);
                lemma_push_contains(old_out, b, x);
            }
        } else {
            let a = left[i];
            out.push(a);
            i = i + 1;
            j = j + 1;
            assert forall|x: usize|
                out@.contains(x) <==> (left@.take(i as int).contains(x) || right@.take(j as int).contains(x)) by {
                assert(left@.take(i as int) =~= left@.take(oi).push(a));
                assert(right@.take(j as int) =~= right@.take(oj).push(a));
                lemma_push_contains(left@.take(oi), a, x);
                lemma_push_contains(right@.take(oj), a, x);
                lemma_push_contains(old_out, a, x);
            }
        }
    }
    assert(left@.take(i as int) =~= left@);
    assert(right@.take(j as int) =~= right@);
    out
}

/// The rows below `total` that are not in `excluded`, in increasing order.
pub fn complement_sorted_rows(total: usize, excluded: &[usize]) -> (out: Vec<usize>)
    requires
        sorted_strict(excluded@),
    ensures
        sorted_strict(out@),
        forall|x: usize| out@.contains(x) <==> (x < total && !excluded@.contains(x)),
{
    let mut out: Vec<usize> = Vec::new();
    let mut idx: usize = 0;
    let mut row: usize = 0;
    while row < total
        invariant
            sorted_strict(excluded@),
            0 <= idx <= excluded@.len(),
            row <= total,
            forall|k: int| 0 <= k < idx ==> excluded@[k] < row,
            idx < excluded@.len() ==> excluded@[idx as int] >= row,
            sorted_strict(out@),
            forall|k: int| 0 <= k < out@.len() ==> out@[k] < row,
            forall|x: usize| out@.contains(x) <==> (x < row && !excluded@.contains(x)),
        decreases total - row,
    {
        let ghost old_out = out@;
        if idx < excluded.len() && excluded[idx] == row {
            idx = idx + 1;
            assert(excluded@.contains(row));
        } else {
            proof {
                lemma_sorted_not_contains_below(excluded@, idx as int, row);
            }
            out.push(row);
        }
        row = row + 1;
        assert forall|x: usize| out@.contains(x) <==> (x < row && !excluded@.contains(x)) by {
            if out@.len() > old_out.len() {
                assert(out@ =~= old_out.push((row - 1) as usize));
                lemma_push_contains(old_out, (row - 1) as usize, x);
            }
        }
    }
    out
}

/// The rows below `total` that are not in `selected`, in increasing order.
pub fn complement_from_selected_rows(total: usize, selected: &[usize]) -> (out: Vec<usize>)
    requires
        sorted_strict(selected@),
    ensures
        sorted_strict(out@),
        forall|x: usize| out@.contains(x) <==> (x < total && !selected@.contains(x)),
{
    let mut out: Vec<usize> = Vec::new();
    let mut selected_idx: usize = 0;
    let mut row: usize = 0;
    while row < total
        invariant
            sorted_strict(selected@),
            0 <= selected_idx <= selected@.len(),
            row <= total,
            forall|k: int| 0 <= k < selected_idx ==> selected@[k] < row,
            selected_idx < selected@.len() ==> selected@[selected_idx as int] >= row,
            sorted_strict(out@),
            forall|k: int| 0 <= k < out@.len() ==> out@[k] < row,
            forall|x: usize| out@.contains(x) <==> (x < row && !selected@.contains(x)),
        decreases total - row,
    {
        let ghost old_out = out@;
        if selected_idx < selected.len() && selected[selected_idx] == row {
            selected_idx = selected_idx + 1;
            assert(selected@.contains(row));
        } else {
            proof {
                lemma_sorted_not_contains_below(selected@, selected_idx as int, row);
            }
            out.push(row);
        }
        row = row + 1;
        assert forall|x: usize| out@.contains(x) <==> (x < row && !selected@.contains(x)) by {
            if out@.len() > old_out.len() {
                assert(out@ =~= old_out.push((row - 1) as usize));
                lemma_push_contains(old_out, (row - 1) as usize, x);
            }
        }
    }
    out
}

} // verus!
