//! How the worker handles a queue of jobs when row reads pile up: only the
//! latest row-read request is worth serving, and other jobs keep their order.

use std::collections::VecDeque;

use vstd::prelude::*;

use crate::external::{sort_by_position, sort_by_source_row};
use crate::message::Job;

verus! {

/// The fields of a row-read request: its number, the `(shown position,
/// source row)` pairs and the columns.
pub type ReadRequest = (u64, Vec<(usize, usize)>, Vec<usize>);

/// Number of row-read requests at the front of `q`.
pub open spec fn leading_reads(q: Seq<Job>) -> nat
    decreases q.len(),
{
    if q.len() > 0 && q[0] is ReadRows {
        1 + leading_reads(q.drop_first())
    } else {
        0
    }
}

/// The fields of `job`, when it is a row-read request.
pub open spec fn read_fields(job: Job) -> Option<(u64, Seq<(usize, usize)>, Seq<usize>)> {
    match job {
        Job::ReadRows { request_id, rows, columns } => Some((request_id, rows@, columns@)),
        _ => None,
    }
}

/// The fields of a request, as values.
pub open spec fn request_view(r: ReadRequest) -> (u64, Seq<(usize, usize)>, Seq<usize>) {
    (r.0, r.1@, r.2@)
}

proof fn lemma_leading_reads_bound(q: Seq<Job>)
    ensures
        leading_reads(q) <= q.len(),
        forall|i: int| 0 <= i < leading_reads(q) ==> #[trigger] q[i] is ReadRows,
        leading_reads(q) < q.len() ==> !(q[leading_reads(q) as int] is ReadRows),
    decreases q.len(),
{
    if q.len() > 0 && q[0] is ReadRows {
        lemma_leading_reads_bound(q.drop_first());
        assert forall|i: int| 0 <= i < leading_reads(q) implies #[trigger] q[i] is ReadRows by {
            if i > 0 {
                assert(q[i] == q.drop_first()[i - 1]);
            }
        }
    }
}

fn is_read(job: &Job) -> (b: bool)
    ensures
        b == (*job is ReadRows),
{
    match job {
        Job::ReadRows { .. } => true,
        _ => false,
    }
}

/// Takes the row-read requests off the front of `pending` and gives the
/// last of them (the latest), if there was one.
pub fn take_leading_reads(pending: &mut VecDeque<Job>) -> (latest: Option<ReadRequest>)
    ensures
        final(pending)@ == old(pending)@.skip(leading_reads(old(pending)@) as int),
        leading_reads(old(pending)@) == 0 ==> latest is None,
        leading_reads(old(pending)@) > 0 ==> (latest matches Some(r) && Some(request_view(r)) == read_fields(
            old(pending)@[leading_reads(old(pending)@) - 1],
        )),
{
    let ghost q = pending@;
    proof {
        lemma_leading_reads_bound(q);
        assert(q.skip(0) =~= q);
    }
    let mut latest: Option<ReadRequest> = None;
    let ghost mut k: int = 0;
    while pending.len() > 0 && is_read(&pending[0])
        invariant
            q == old(pending)@,
            leading_reads(q) <= q.len(),
            forall|i: int| 0 <= i < leading_reads(q) ==> #[trigger] q[i] is ReadRows,
            leading_reads(q) < q.len() ==> !(q[leading_reads(q) as int] is ReadRows),
            0 <= k <= leading_reads(q),
            pending@ == q.skip(k),
            k == 0 ==> latest is None,
            k > 0 ==> (latest matches Some(r) && Some(request_view(r)) == read_fields(q[k - 1])),
        decreases pending@.len(),
    {
        let ghost before = pending@;
        let job = pending.pop_front();
        proof {
            assert(before[0] == q[k]);
            assert(pending@ =~= q.skip(k + 1));
            if k >= leading_reads(q) {
                assert(k == leading_reads(q));
            }
        }
        if let Some(Job::ReadRows { request_id, rows, columns }) = job {
            latest = Some((request_id, rows, columns));
        }
        proof {
            k = k + 1;
        }
    }
    proof {
        if k < leading_reads(q) {
            assert(pending@[0] == q[k]);
        }
    }
    latest
}

/// Takes one job that arrived while row reads were pending: a row-read
/// request becomes the latest one (the answer is true); any other job joins
/// the end of `pending` (the answer is false).
pub fn absorb_job(latest: &mut Option<ReadRequest>, pending: &mut VecDeque<Job>, job: Job) -> (was_read: bool)
    ensures
        was_read == (job is ReadRows),
        was_read ==> (*final(latest) matches Some(r) && Some(request_view(r)) == read_fields(job)),
        was_read ==> final(pending)@ == old(pending)@,
        !was_read ==> *final(latest) == *old(latest) && final(pending)@ == old(pending)@.push(job),
{
    match job {
        Job::ReadRows { request_id, rows, columns } => {
            *latest = Some((request_id, rows, columns));
            true
        },
        other => {
            pending.push_back(other);
            false
        },
    }
}

/// The request to serve as a job, if there is one.
pub fn request_job(latest: Option<ReadRequest>) -> (job: Option<Job>)
    ensures
        latest is None ==> job is None,
        latest matches Some(r) ==> (job matches Some(j) && read_fields(j) == Some(request_view(r))),
{
    match latest {
        Some((request_id, rows, columns)) => Some(Job::ReadRows { request_id, rows, columns }),
        None => None,
    }
}


/// Rows a worker reads, and replies, in one go.
pub const ROW_READ_CHUNK_SIZE: usize = 32;

/// The order in which asked-for rows are read: the first chunk as asked
/// (those are the rows wanted first), the rest by source row, so that the
/// file is read forwards.
pub fn read_order(rows: Vec<(usize, usize)>) -> (out: Vec<(usize, usize)>)
    ensures
        rows@.len() <= ROW_READ_CHUNK_SIZE ==> out@ == rows@,
        rows@.len() > ROW_READ_CHUNK_SIZE ==> {
            &&& out@.len() == rows@.len()
            &&& out@.take(ROW_READ_CHUNK_SIZE as int) == rows@.take(ROW_READ_CHUNK_SIZE as int)
            &&& out@.skip(ROW_READ_CHUNK_SIZE as int).to_multiset() == rows@.skip(ROW_READ_CHUNK_SIZE as int).to_multiset()
            &&& forall|i: int, j: int| ROW_READ_CHUNK_SIZE <= i <= j < out@.len() ==> out@[i].1 <= out@[j].1
        },
{
    let mut rows = rows;
    if rows.len() <= ROW_READ_CHUNK_SIZE {
        return rows;
    }
    let ghost given = rows@;
    let mut rest = rows.split_off(ROW_READ_CHUNK_SIZE);
    let ghost tail = rest@;
    sort_by_source_row(&mut rest);
    let ghost sorted = rest@;
    rows.append(&mut rest);
    proof {
        broadcast use vstd::seq_lib::group_to_multiset_ensures;
        assert(rows@ == given.take(ROW_READ_CHUNK_SIZE as int) + sorted);
        assert(rows@.take(ROW_READ_CHUNK_SIZE as int) =~= given.take(ROW_READ_CHUNK_SIZE as int));
        assert(rows@.skip(ROW_READ_CHUNK_SIZE as int) =~= sorted);
        assert(tail =~= given.skip(ROW_READ_CHUNK_SIZE as int));
        assert(sorted.len() == tail.len()) by {
            assert(sorted.to_multiset().len() == tail.to_multiset().len());
        }
        assert forall|i: int, j: int| ROW_READ_CHUNK_SIZE <= i <= j < rows@.len() implies rows@[i].1 <= rows@[j].1 by {
            assert(rows@[i] == sorted[i - ROW_READ_CHUNK_SIZE]);
            assert(rows@[j] == sorted[j - ROW_READ_CHUNK_SIZE]);
        }
    }
    rows
}

/// Pairs the cells read for a chunk with the shown positions they were
/// asked for (as far as both go), ordered by shown position.
pub fn pair_loaded(chunk: &[(usize, usize)], cells: Vec<Vec<(usize, String)>>) -> (loaded: Vec<(usize, Vec<(usize, String)>)>)
    ensures
        ({
            let n = if chunk@.len() < cells@.len() { chunk@.len() } else { cells@.len() };
            let paired = Seq::new(n, |i: int| (chunk@[i].0, cells@[i]));
            &&& loaded@.to_multiset() == paired.to_multiset()
            &&& forall|i: int, j: int| 0 <= i <= j < loaded@.len() ==> loaded@[i].0 <= loaded@[j].0
        }),
{
    let ghost n = if chunk@.len() < cells@.len() { chunk@.len() } else { cells@.len() };
    let ghost paired = Seq::new(n as nat, |i: int| (chunk@[i].0, cells@[i]));
    let mut loaded: Vec<(usize, Vec<(usize, String)>)> = Vec::new();
    let mut cells = cells;
    let ghost all = cells@;
    let mut i: usize = 0;
    while i < chunk.len() && cells.len() > 0
        invariant
            n == (if chunk@.len() < all.len() { chunk@.len() } else { all.len() }),
            paired == Seq::new(n as nat, |k: int| (chunk@[k].0, all[k])),
            0 <= i <= chunk@.len(),
            i <= all.len(),
            cells@ == all.skip(i as int),
            loaded@ == paired.take(i as int),
        decreases chunk@.len() - i,
    {
        let c = cells.remove(0);
        proof {
            assert(c == all[i as int]);
            assert(cells@ =~= all.skip(i + 1));
        }
        loaded.push((chunk[i].0, c));
        i = i + 1;
        proof {
            assert(loaded@ =~= paired.take(i as int));
        }
    }
    proof {
        assert(i == n);
        assert(paired.take(i as int) =~= paired);
    }
    sort_by_position(&mut loaded);
    loaded
}

} // verus!
