//! A bounded cache of decoded rows, keyed by source row number: rows leave
//! in the order they first came once the bound is passed.

use std::collections::{HashMap, VecDeque};

use vstd::prelude::*;

verus! {

broadcast use vstd::std_specs::hash::group_hash_axioms;

/// Most rows the cache keeps.
pub const WORKER_ROW_CACHE_LIMIT: usize = 8_000;

/// Decoded rows by source row number, with the order they came in.
pub struct RowCache {
    rows: HashMap<usize, Vec<String>>,
    order: VecDeque<usize>,
}

impl View for RowCache {
    type V = Map<usize, Vec<String>>;

    /// The cached rows.
    closed spec fn view(&self) -> Map<usize, Vec<String>> {
        self.rows@
    }
}

impl RowCache {
    /// The cached row numbers, oldest first.
    pub closed spec fn arrival(&self) -> Seq<usize> {
        self.order@
    }

    /// Each cached row appears once in the arrival order, and no more than
    /// the limit are kept.
    pub closed spec fn wf(&self) -> bool {
        &&& self.order@.no_duplicates()
        &&& forall|r: usize| #[trigger] self.rows@.contains_key(r) <==> self.order@.contains(r)
        &&& self.order@.len() <= WORKER_ROW_CACHE_LIMIT
    }

    /// What a well-formed cache states: the arrival order lists exactly the
    /// cached rows, each once, and there are no more than the limit.
    pub proof fn lemma_wf(&self)
        requires
            self.wf(),
        ensures
            self.arrival().no_duplicates(),
            forall|r: usize| #[trigger] self@.contains_key(r) <==> self.arrival().contains(r),
            self.arrival().len() <= WORKER_ROW_CACHE_LIMIT,
            self@.dom().len() == self.arrival().len(),
    {
        let s = self.order@;
        assert(self.rows@.dom() =~= s.to_set());
        s.unique_seq_to_set();
    }

    /// An empty cache.
    pub fn new() -> (c: Self)
        ensures
            c.wf(),
            c@ == Map::<usize, Vec<String>>::empty(),
            c.arrival() == Seq::<usize>::empty(),
    {
        RowCache { rows: HashMap::new(), order: VecDeque::new() }
    }

    /// Forgets every row.
    pub fn clear(&mut self)
        ensures
            final(self).wf(),
            final(self)@ == Map::<usize, Vec<String>>::empty(),
            final(self).arrival() == Seq::<usize>::empty(),
    {
        self.rows.clear();
        self.order.clear();
    }

    /// The cached row `real_row`, if there is one.
    pub fn get(&self, real_row: usize) -> (res: Option<&Vec<String>>)
        ensures
            match res {
                Some(v) => self@.contains_key(real_row) && *v == self@[real_row],
                None => !self@.contains_key(real_row),
            },
    {
        self.rows.get(&real_row)
    }

    /// Caches `row` as `real_row`. A new row goes last in the arrival order
    /// and, when the cache is full, the oldest row leaves; a row already
    /// cached is replaced in place.
    pub fn insert(&mut self, real_row: usize, row: Vec<String>)
        requires
            old(self).wf(),
        ensures
            final(self).wf(),
            final(self)@.contains_key(real_row),
            final(self)@[real_row] == row,
            old(self).arrival().contains(real_row) ==> final(self).arrival() == old(self).arrival() && final(self)@ == old(
                self,
            )@.insert(real_row, row),
            !old(self).arrival().contains(real_row) && old(self).arrival().len() < WORKER_ROW_CACHE_LIMIT
                ==> final(self).arrival() == old(self).arrival().push(real_row) && final(self)@ == old(self)@.insert(
                real_row,
                row,
            ),
            !old(self).arrival().contains(real_row) && old(self).arrival().len() == WORKER_ROW_CACHE_LIMIT
                ==> final(self).arrival() == old(self).arrival().drop_first().push(real_row) && final(self)@ == old(
                self,
            )@.insert(real_row, row).remove(old(self).arrival()[0]),
    {
        let ghost o = self.order@;
        let ghost m = self.rows@;
        let ghost r0 = row;
        if !self.rows.contains_key(&real_row) {
            self.order.push_back(real_row);
        }
        self.rows.insert(real_row, row);
        proof {
            if !o.contains(real_row) {
                assert(self.order@ == o.push(real_row));
                assert(self.order@.no_duplicates()) by {
                    assert forall|i: int, j: int| 0 <= i < j < self.order@.len() implies self.order@[i] != self.order@[j] by {
                        if j == o.len() {
                            assert(o.contains(o[i]));
                        }
                    }
                }
            }
            assert forall|r: usize| #[trigger] self.rows@.contains_key(r) <==> self.order@.contains(r) by {
                if r != real_row {
                    if o.contains(r) && !m.contains_key(real_row) {
                        let k = choose|k: int| 0 <= k < o.len() && o[k] == r;
                        assert(self.order@[k] == r);
                    }
                    if self.order@.contains(r) && !m.contains_key(real_row) {
                        let k = choose|k: int| 0 <= k < self.order@.len() && self.order@[k] == r;
                        assert(o[k] == r);
                    }
                } else if !m.contains_key(real_row) {
                    assert(self.order@[o.len() as int] == r);
                }
            }
        }
        if self.order.len() > WORKER_ROW_CACHE_LIMIT {
            let ghost before = self.order@;
            let ghost rows_before = self.rows@;
            if let Some(old) = self.order.pop_front() {
                self.rows.remove(&old);
                proof {
                    assert(old == before[0]);
                    assert(self.order@ =~= before.drop_first());
                    assert(old != real_row) by {
                        assert(before[before.len() - 1] == real_row);
                    }
                    assert forall|i: int, j: int| 0 <= i < j < self.order@.len() implies self.order@[i] != self.order@[j] by {
                        assert(self.order@[i] == before[i + 1]);
                        assert(self.order@[j] == before[j + 1]);
                    }
                    assert forall|r: usize| #[trigger] self.rows@.contains_key(r) <==> self.order@.contains(r) by {
                        if r != old {
                            if before.contains(r) {
                                let k = choose|k: int| 0 <= k < before.len() && before[k] == r;
                                assert(k != 0);
                                assert(self.order@[k - 1] == r);
                            }
                            if self.order@.contains(r) {
                                let k = choose|k: int| 0 <= k < self.order@.len() && self.order@[k] == r;
                                assert(before[k + 1] == r);
                            }
                        } else {
                            if self.order@.contains(r) {
                                let k = choose|k: int| 0 <= k < self.order@.len() && self.order@[k] == r;
                                assert(before[k + 1] == r);
                                assert(before[0] == r);
                            }
                        }
                    }
                    assert(before =~= o.push(real_row));
                    assert(o.push(real_row).drop_first() =~= o.drop_first().push(real_row));
                }
            }
        }
    }
}

} // verus!
