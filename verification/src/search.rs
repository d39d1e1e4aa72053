use vstd::prelude::*;
use vstd::pervasive::VecAdditionalExecFns;
use crate::errors::SearchError;

verus! {

/// The transient search status of one cell within one run.  A cell moves
/// `Unvisited` to `Open` to `Closed` and never back.
#[derive(Clone, Copy, Debug, PartialEq, Eq, Structural)]
pub enum Status {
    Unvisited,
    Open,
    Closed,
}

/// The per-cell record of one search run.  `g` is the cost of the best path
/// from the start found so far and `f` is `g` plus the heuristic estimate to
/// the end, both in tenths of an axis step; both are meaningful only once
/// the cell has been discovered (`status` not `Unvisited`).  `pred` is the
/// cell this one was best reached from, and `on_path` is set during path
/// reconstruction after the end is reached.
#[derive(Clone, Copy, Debug)]
pub struct SearchRecord {
    pub status: Status,
    pub g: u64,
    pub f: u64,
    pub pred: Option<usize>,
    pub on_path: bool,
}

/// The record every cell starts a run with.
pub open spec fn unvisited_record() -> SearchRecord {
    SearchRecord { status: Status::Unvisited, g: 0, f: 0, pred: None, on_path: false }
}

/// Number of records in `s` whose status is not `Unvisited`.
pub open spec fn count_finite(s: Seq<SearchRecord>) -> nat
    decreases s.len(),
{
    if s.len() == 0 {
        0
    } else {
        count_finite(s.drop_last()) + (if s.last().status is Unvisited {
            0nat
        } else {
            1nat
        })
    }
}

/// Number of records in `s` whose status is `Closed`.
pub open spec fn count_closed(s: Seq<SearchRecord>) -> nat
    decreases s.len(),
{
    if s.len() == 0 {
        0
    } else {
        count_closed(s.drop_last()) + (if s.last().status is Closed {
            1nat
        } else {
            0nat
        })
    }
}

/// No more records are discovered than there are records.
pub proof fn lemma_count_finite_le_len(s: Seq<SearchRecord>)
    ensures
        count_finite(s) <= s.len(),
    decreases s.len(),
{
    if s.len() > 0 {
        lemma_count_finite_le_len(s.drop_last());
    }
}

/// No more records are closed than there are records.
pub proof fn lemma_count_closed_le_len(s: Seq<SearchRecord>)
    ensures
        count_closed(s) <= s.len(),
    decreases s.len(),
{
    if s.len() > 0 {
        lemma_count_closed_le_len(s.drop_last());
    }
}

/// How replacing one record moves the discovered-record count.
pub proof fn lemma_count_finite_update(s: Seq<SearchRecord>, i: int, r: SearchRecord)
    requires
        0 <= i < s.len(),
    ensures
        count_finite(s.update(i, r)) == count_finite(s) + (if r.status is Unvisited {
            0int
        } else {
            1int
        }) - (if s[i].status is Unvisited {
            0int
        } else {
            1int
        }),
    decreases s.len(),
{
    let t = s.update(i, r);
    if i == s.len() - 1 {
        assert(t.drop_last() =~= s.drop_last());
    } else {
        assert(t.drop_last() =~= s.drop_last().update(i, r));
        lemma_count_finite_update(s.drop_last(), i, r);
    }
}

/// How replacing one record moves the closed-record count.
pub proof fn lemma_count_closed_update(s: Seq<SearchRecord>, i: int, r: SearchRecord)
    requires
        0 <= i < s.len(),
    ensures
        count_closed(s.update(i, r)) == count_closed(s) + (if r.status is Closed {
            1int
        } else {
            0int
        }) - (if s[i].status is Closed {
            1int
        } else {
            0int
        }),
    decreases s.len(),
{
    let t = s.update(i, r);
    if i == s.len() - 1 {
        assert(t.drop_last() =~= s.drop_last());
    } else {
        assert(t.drop_last() =~= s.drop_last().update(i, r));
        lemma_count_closed_update(s.drop_last(), i, r);
    }
}

/// A sequence of undiscovered records counts zero in both counters.
pub proof fn lemma_count_all_unvisited(s: Seq<SearchRecord>)
    requires
        forall|i: int| 0 <= i < s.len() ==> (#[trigger] s[i]).status is Unvisited,
    ensures
        count_finite(s) == 0,
        count_closed(s) == 0,
    decreases s.len(),
{
    if s.len() > 0 {
        assert(forall|i: int|
            0 <= i < s.drop_last().len() ==> (#[trigger] s.drop_last()[i]).status is Unvisited);
        lemma_count_all_unvisited(s.drop_last());
    }
}

/// Both counters read statuses only: sequences that agree on every status
/// count the same.
pub proof fn lemma_count_same_status(s1: Seq<SearchRecord>, s2: Seq<SearchRecord>)
    requires
        s1.len() == s2.len(),
        forall|i: int| 0 <= i < s1.len() ==> (#[trigger] s1[i]).status == (#[trigger] s2[i]).status,
    ensures
        count_finite(s1) == count_finite(s2),
        count_closed(s1) == count_closed(s2),
    decreases s1.len(),
{
    if s1.len() > 0 {
        assert(forall|i: int|
            0 <= i < s1.drop_last().len() ==> (#[trigger] s1.drop_last()[i]).status == (
            #[trigger] s2.drop_last()[i]).status);
        lemma_count_same_status(s1.drop_last(), s2.drop_last());
    }
}

/// The search records of one run, laid over the grid cell for cell.
pub struct SearchState {
    pub records: Vec<SearchRecord>,
}

impl SearchState {
    pub open spec fn recs(&self) -> Seq<SearchRecord> {
        self.records@
    }

    /// Starts a run: every cell undiscovered except the start cell, which is
    /// open at cost zero with estimate `h0`.
    pub fn init(n: usize, start: usize, h0: u64) -> (s: SearchState)
        requires
            start < n,
        ensures
            s.recs().len() == n,
            forall|i: int|
                0 <= i < n ==> #[trigger] s.recs()[i] == (if i == start {
                    SearchRecord {
                        status: Status::Open,
                        g: 0,
                        f: h0,
                        pred: None,
                        on_path: false,
                    }
                } else {
                    unvisited_record()
                }),
            count_finite(s.recs()) == 1,
            count_closed(s.recs()) == 0,
    {
        let blank = SearchRecord { status: Status::Unvisited, g: 0, f: 0, pred: None, on_path: false };
        let mut records = vec![blank; n];
        proof {
            assert(forall|i: int|
                0 <= i < records@.len() ==> (#[trigger] records@[i]).status is Unvisited);
            lemma_count_all_unvisited(records@);
            lemma_count_finite_update(
                records@,
                start as int,
                SearchRecord { status: Status::Open, g: 0, f: h0, pred: None, on_path: false },
            );
            lemma_count_closed_update(
                records@,
                start as int,
                SearchRecord { status: Status::Open, g: 0, f: h0, pred: None, on_path: false },
            );
        }
        records.set(
            start,
            SearchRecord { status: Status::Open, g: 0, f: h0, pred: None, on_path: false },
        );
        SearchState { records }
    }

    /// Offers cell `to` the path through `from` at cost `g(from) + w`.  The
    /// offer is taken exactly when it strictly beats what `to` has: then
    /// `to` becomes open with the new cost, estimate `g + h_to` and
    /// predecessor `from`.  An offer that would improve a *closed* cell is
    /// the defensive `HeuristicInconsistency` report: it is never applied.
    pub fn relax(&mut self, from: usize, to: usize, w: u64, h_to: u64) -> (res: Result<
        bool,
        SearchError,
    >)
        requires
            from < old(self).recs().len(),
            to < old(self).recs().len(),
            from != to,
            old(self).recs()[from as int].status is Closed,
            old(self).recs()[from as int].g + w + h_to <= 0xffff_ffff_ffff_ffff,
        ensures
            ({
                let cand = old(self).recs()[from as int].g + w;
                let prev = old(self).recs()[to as int];
                match res {
                    Ok(improved) => {
                        &&& improved == (prev.status is Unvisited || (prev.status is Open && cand
                            < prev.g))
                        &&& !(prev.status is Closed && cand < prev.g)
                        &&& if improved {
                            final(self).recs() == old(self).recs().update(
                                to as int,
                                SearchRecord {
                                    status: Status::Open,
                                    g: cand as u64,
                                    f: (cand + h_to) as u64,
                                    pred: Some(from),
                                    on_path: false,
                                },
                            )
                        } else {
                            *final(self) == *old(self)
                        }
                    },
                    Err(e) => {
                        &&& e == SearchError::HeuristicInconsistency
                        &&& prev.status is Closed && cand < prev.g
                        &&& *final(self) == *old(self)
                    },
                }
            }),
    {
        let cand = self.records[from].g + w;
        let prev = self.records[to];
        match prev.status {
            Status::Closed => {
                if cand < prev.g {
                    Err(SearchError::HeuristicInconsistency)
                } else {
                    Ok(false)
                }
            },
            Status::Open => {
                if cand < prev.g {
                    self.records.set(
                        to,
                        SearchRecord {
                            status: Status::Open,
                            g: cand,
                            f: cand + h_to,
                            pred: Some(from),
                            on_path: false,
                        },
                    );
                    Ok(true)
                } else {
                    Ok(false)
                }
            },
            Status::Unvisited => {
                self.records.set(
                    to,
                    SearchRecord {
                        status: Status::Open,
                        g: cand,
                        f: cand + h_to,
                        pred: Some(from),
                        on_path: false,
                    },
                );
                Ok(true)
            },
        }
    }
}

} // verus!
