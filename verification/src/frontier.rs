use vstd::prelude::*;
use vstd::pervasive::VecAdditionalExecFns;
use crate::errors::SearchError;

verus! {

/// One live frontier entry: an open cell, its current estimated total cost
/// `f`, and the ticket it drew when it was first opened.  Ties on `f` are
/// broken by the smaller ticket, so the cell opened earlier wins.
#[derive(Clone, Copy, Debug)]
pub struct Entry {
    pub cell: usize,
    pub f: u64,
    pub ticket: u64,
}

/// `a` does not come after `b` in expansion order.
pub open spec fn lex_le(a: Entry, b: Entry) -> bool {
    a.f < b.f || (a.f == b.f && a.ticket <= b.ticket)
}

/// `a` comes strictly before `b` in expansion order.
pub open spec fn lex_lt(a: Entry, b: Entry) -> bool {
    a.f < b.f || (a.f == b.f && a.ticket < b.ticket)
}

/// Index of the entry to pop next: the earliest entry that is no worse than
/// every other.
pub open spec fn min_idx(s: Seq<Entry>) -> int
    decreases s.len(),
{
    if s.len() <= 1 {
        0
    } else {
        let m = min_idx(s.drop_last());
        if lex_le(s[m], s.last()) {
            m
        } else {
            s.len() - 1
        }
    }
}

/// `min_idx` lands in range and is no worse than every entry.
pub proof fn lemma_min_idx(s: Seq<Entry>)
    requires
        s.len() > 0,
    ensures
        0 <= min_idx(s) < s.len(),
        forall|i: int| 0 <= i < s.len() ==> lex_le(s[min_idx(s)], #[trigger] s[i]),
    decreases s.len(),
{
    if s.len() > 1 {
        lemma_min_idx(s.drop_last());
        let t = s.drop_last();
        let m = min_idx(t);
        assert forall|i: int| 0 <= i < s.len() implies lex_le(s[min_idx(s)], #[trigger] s[i]) by {
            if i < s.len() - 1 {
                assert(t[i] == s[i]);
                assert(lex_le(t[m], t[i]));
                assert(t[m] == s[m]);
            }
        }
    }
}

/// Whether some entry of `s` is for cell `c`.
pub open spec fn has_cell(s: Seq<Entry>, c: usize) -> bool {
    exists|i: int| 0 <= i < s.len() && (#[trigger] s[i]).cell == c
}

/// No two entries of `s` are for the same cell.
pub open spec fn cells_distinct(s: Seq<Entry>) -> bool {
    forall|i: int, j: int|
        0 <= i < j < s.len() ==> (#[trigger] s[i]).cell != (#[trigger] s[j]).cell
}

/// The index of the entry for cell `c`.
pub open spec fn index_of_cell(s: Seq<Entry>, c: usize) -> int {
    choose|i: int| 0 <= i < s.len() && (#[trigger] s[i]).cell == c
}

/// The priority structure over the open cells: a cell is in it at most
/// once, and `pop_min` yields the entry with the smallest `f`, ties going
/// to the smallest ticket.
pub struct Frontier {
    pub items: Vec<Entry>,
}

impl Frontier {
    pub open spec fn view_seq(&self) -> Seq<Entry> {
        self.items@
    }

    pub fn new() -> (fr: Frontier)
        ensures
            fr.view_seq().len() == 0,
    {
        Frontier { items: Vec::new() }
    }

    pub fn len(&self) -> (n: usize)
        ensures
            n == self.view_seq().len(),
    {
        self.items.len()
    }

    /// Appends a fresh entry for a cell not yet in the frontier: a cell is
    /// never held twice.  The caller also keeps tickets increasing.
    pub fn push(&mut self, e: Entry)
        requires
            !has_cell(old(self).view_seq(), e.cell),
        ensures
            final(self).view_seq() == old(self).view_seq().push(e),
    {
        self.items.push(e);
    }

    /// Whether cell `c` is currently open in the frontier.
    pub fn contains(&self, c: usize) -> (b: bool)
        ensures
            b == has_cell(self.view_seq(), c),
    {
        let mut k: usize = 0;
        while k < self.items.len()
            invariant
                k <= self.items@.len(),
                forall|i: int| 0 <= i < k ==> (#[trigger] self.items@[i]).cell != c,
            decreases self.items@.len() - k,
        {
            if self.items[k].cell == c {
                return true;
            }
            k += 1;
        }
        false
    }

    /// The index of the entry to pop next.
    fn find_min(&self) -> (k: usize)
        requires
            self.view_seq().len() > 0,
        ensures
            k as int == min_idx(self.view_seq()),
    {
        let mut best: usize = 0;
        let mut i: usize = 1;
        while i < self.items.len()
            invariant
                1 <= i <= self.items@.len(),
                self.items@.len() > 0,
                best < i,
                best as int == min_idx(self.items@.take(i as int)),
            decreases self.items@.len() - i,
        {
            proof {
                assert(self.items@.take(i as int + 1).drop_last() =~= self.items@.take(i as int));
                assert(self.items@.take(i as int + 1).last() == self.items@[i as int]);
            }
            let ei = self.items[i];
            let eb = self.items[best];
            if ei.f < eb.f || (ei.f == eb.f && ei.ticket < eb.ticket) {
                best = i;
            }
            i += 1;
        }
        proof {
            assert(self.items@.take(self.items@.len() as int) =~= self.items@);
        }
        best
    }

    /// A copy of the entry that `pop_min` would remove.
    pub fn peek_min(&self) -> (res: Result<Entry, SearchError>)
        ensures
            match res {
                Ok(e) => self.view_seq().len() > 0 && e == self.view_seq()[min_idx(
                    self.view_seq(),
                )],
                Err(err) => err == SearchError::Empty && self.view_seq().len() == 0,
            },
    {
        if self.items.len() == 0 {
            return Err(SearchError::Empty);
        }
        let k = self.find_min();
        proof {
            lemma_min_idx(self.items@);
        }
        Ok(self.items[k])
    }

    /// Removes and returns the entry with the smallest `f`, ties broken by
    /// the smaller ticket; `Empty` when nothing remains.
    pub fn pop_min(&mut self) -> (res: Result<Entry, SearchError>)
        ensures
            match res {
                Ok(e) => {
                    &&& old(self).view_seq().len() > 0
                    &&& e == old(self).view_seq()[min_idx(old(self).view_seq())]
                    &&& final(self).view_seq() == old(self).view_seq().remove(
                        min_idx(old(self).view_seq()),
                    )
                },
                Err(err) => {
                    &&& err == SearchError::Empty
                    &&& old(self).view_seq().len() == 0
                    &&& *final(self) == *old(self)
                },
            },
    {
        if self.items.len() == 0 {
            return Err(SearchError::Empty);
        }
        let k = self.find_min();
        proof {
            lemma_min_idx(self.items@);
        }
        let e = self.items.remove(k);
        Ok(e)
    }

    /// Re-prioritizes the one entry for cell `c` to the better estimate
    /// `new_f`, in place: its ticket and its position are kept.
    pub fn decrease_key(&mut self, c: usize, new_f: u64) -> (res: Result<(), SearchError>)
        requires
            cells_distinct(old(self).view_seq()),
        ensures
            match res {
                Ok(()) => {
                    &&& has_cell(old(self).view_seq(), c)
                    &&& ({
                        let k = index_of_cell(old(self).view_seq(), c);
                        final(self).view_seq() == old(self).view_seq().update(
                            k,
                            Entry { cell: c, f: new_f, ticket: old(self).view_seq()[k].ticket },
                        )
                    })
                },
                Err(err) => {
                    &&& err == SearchError::Empty
                    &&& !has_cell(old(self).view_seq(), c)
                    &&& *final(self) == *old(self)
                },
            },
    {
        let mut k: usize = 0;
        while k < self.items.len()
            invariant
                k <= self.items@.len(),
                forall|i: int| 0 <= i < k ==> (#[trigger] self.items@[i]).cell != c,
                cells_distinct(self.items@),
                *self == *old(self),
            decreases self.items@.len() - k,
        {
            let e = self.items[k];
            if e.cell == c {
                proof {
                    let kk = index_of_cell(self.items@, c);
                    assert(0 <= kk < self.items@.len() && self.items@[kk].cell == c);
                    assert(kk == k as int);
                }
                self.items.set(k, Entry { cell: c, f: new_f, ticket: e.ticket });
                return Ok(());
            }
            k += 1;
        }
        Err(SearchError::Empty)
    }
}

} // verus!
