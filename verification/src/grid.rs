use vstd::prelude::*;
use vstd::pervasive::VecAdditionalExecFns;
use crate::errors::SearchError;
use crate::geom::{cell_count, cell_index, col_of, in_grid, row_of, MAX_DIM};

verus! {

broadcast use crate::geom::group_geom;

/// The lasting role of a cell, set while the grid is edited.  The transient
/// search statuses (open, closed, on the path) live in the search records,
/// never here.
#[derive(Clone, Copy, Debug, PartialEq, Eq, Structural)]
pub enum CellKind {
    Blank,
    Start,
    End,
    Obstacle,
}

/// The grid: its dimensions, the kind of every cell in row-major order, and
/// the cached positions of the start and end cells.
pub struct GridModel {
    pub rows: usize,
    pub cols: usize,
    pub kinds: Vec<CellKind>,
    pub start_cell: Option<usize>,
    pub end_cell: Option<usize>,
}

impl GridModel {
    pub open spec fn spec_rows(&self) -> int {
        self.rows as int
    }

    pub open spec fn spec_cols(&self) -> int {
        self.cols as int
    }

    pub open spec fn kinds_seq(&self) -> Seq<CellKind> {
        self.kinds@
    }

    pub open spec fn spec_start(&self) -> Option<usize> {
        self.start_cell
    }

    pub open spec fn spec_end(&self) -> Option<usize> {
        self.end_cell
    }

    /// Dimensions are in range, the kind vector covers the whole grid, and
    /// `start_cell` / `end_cell` point at exactly the cells whose kind is
    /// `Start` / `End` — so each role is held by at most one cell, and never
    /// by the same cell as the other role.
    pub open spec fn wf(&self) -> bool {
        &&& 1 <= self.rows <= MAX_DIM
        &&& 1 <= self.cols <= MAX_DIM
        &&& self.kinds@.len() == cell_count(self.rows as int, self.cols as int)
        &&& self.kinds@.len() <= 4294836225
        &&& (match self.start_cell {
            Some(i) => i < self.kinds@.len() && self.kinds@[i as int] == CellKind::Start,
            None => true,
        })
        &&& (match self.end_cell {
            Some(i) => i < self.kinds@.len() && self.kinds@[i as int] == CellKind::End,
            None => true,
        })
        &&& forall|i: int|
            0 <= i < self.kinds@.len() && (#[trigger] self.kinds@[i]) == CellKind::Start
                ==> self.start_cell == Some(i as usize)
        &&& forall|i: int|
            0 <= i < self.kinds@.len() && (#[trigger] self.kinds@[i]) == CellKind::End
                ==> self.end_cell == Some(i as usize)
    }

    /// Builds an all-blank grid, rejecting empty or oversized dimensions.
    pub fn new(rows: usize, cols: usize) -> (res: Result<GridModel, SearchError>)
        ensures
            match res {
                Ok(g) => {
                    &&& g.wf()
                    &&& 1 <= rows <= MAX_DIM && 1 <= cols <= MAX_DIM
                    &&& g.spec_rows() == rows && g.spec_cols() == cols
                    &&& forall|i: int|
                        0 <= i < g.kinds_seq().len() ==> g.kinds_seq()[i] == CellKind::Blank
                    &&& g.spec_start() is None && g.spec_end() is None
                },
                Err(e) => e == SearchError::InvalidDimensions && (rows == 0 || cols == 0 || rows
                    > MAX_DIM || cols > MAX_DIM),
            },
    {
        if rows == 0 || cols == 0 || rows > MAX_DIM || cols > MAX_DIM {
            return Err(SearchError::InvalidDimensions);
        }
        assert(rows * cols <= 65535 * 65535) by (nonlinear_arith)
            requires
                rows <= 65535,
                cols <= 65535,
        ;
        let n = rows * cols;
        let kinds = vec![CellKind::Blank; n];
        Ok(GridModel { rows, cols, kinds, start_cell: None, end_cell: None })
    }

    /// Replaces the grid with an all-blank one of the given dimensions;
    /// rejects empty or oversized dimensions, leaving the grid untouched.
    pub fn resize(&mut self, rows: usize, cols: usize) -> (res: Result<(), SearchError>)
        ensures
            match res {
                Ok(()) => {
                    &&& final(self).wf()
                    &&& 1 <= rows <= MAX_DIM && 1 <= cols <= MAX_DIM
                    &&& final(self).spec_rows() == rows && final(self).spec_cols() == cols
                    &&& forall|i: int|
                        0 <= i < final(self).kinds_seq().len() ==> final(self).kinds_seq()[i]
                            == CellKind::Blank
                    &&& final(self).spec_start() is None && final(self).spec_end() is None
                },
                Err(e) => {
                    &&& e == SearchError::InvalidDimensions
                    &&& (rows == 0 || cols == 0 || rows > MAX_DIM || cols > MAX_DIM)
                    &&& *final(self) == *old(self)
                },
            },
    {
        match GridModel::new(rows, cols) {
            Ok(g) => {
                *self = g;
                Ok(())
            },
            Err(e) => Err(e),
        }
    }

    /// The kind of the cell at `(r, c)`, total on in-bounds cells.
    pub fn kind_of(&self, r: usize, c: usize) -> (res: Result<CellKind, SearchError>)
        requires
            self.wf(),
        ensures
            match res {
                Ok(k) => in_grid(self.spec_rows(), self.spec_cols(), r as int, c as int) && k
                    == self.kinds_seq()[cell_index(self.spec_cols(), r as int, c as int)],
                Err(e) => e == SearchError::OutOfBounds && !in_grid(
                    self.spec_rows(),
                    self.spec_cols(),
                    r as int,
                    c as int,
                ),
            },
    {
        if r >= self.rows || c >= self.cols {
            return Err(SearchError::OutOfBounds);
        }
        proof {
            crate::geom::lemma_cell_index_bounds(
                self.spec_rows(),
                self.spec_cols(),
                r as int,
                c as int,
            );
        }
        let ghost w = self.spec_cols();
        assert((r as int * w + c as int) < 4294967295) by (nonlinear_arith)
            requires
                0 <= r as int <= 65535,
                0 <= c as int <= 65535,
                0 <= w <= 65535,
        ;
        let i = r * self.cols + c;
        Ok(self.kinds[i])
    }

    /// The start coordinate, or `NotConfigured` while no start is placed.
    pub fn start(&self) -> (res: Result<(usize, usize), SearchError>)
        requires
            self.wf(),
        ensures
            match self.spec_start() {
                Some(i) => res matches Ok(p) && p.0 == row_of(self.spec_cols(), i as int) && p.1
                    == col_of(self.spec_cols(), i as int) && in_grid(
                    self.spec_rows(),
                    self.spec_cols(),
                    p.0 as int,
                    p.1 as int,
                ),
                None => res == Err::<(usize, usize), SearchError>(SearchError::NotConfigured),
            },
    {
        match self.start_cell {
            Some(i) => {
                let rr = i / self.cols;
                let cc = i % self.cols;
                Ok((rr, cc))
            },
            None => Err(SearchError::NotConfigured),
        }
    }

    /// The end coordinate, or `NotConfigured` while no end is placed.
    pub fn end(&self) -> (res: Result<(usize, usize), SearchError>)
        requires
            self.wf(),
        ensures
            match self.spec_end() {
                Some(i) => res matches Ok(p) && p.0 == row_of(self.spec_cols(), i as int) && p.1
                    == col_of(self.spec_cols(), i as int) && in_grid(
                    self.spec_rows(),
                    self.spec_cols(),
                    p.0 as int,
                    p.1 as int,
                ),
                None => res == Err::<(usize, usize), SearchError>(SearchError::NotConfigured),
            },
    {
        match self.end_cell {
            Some(i) => {
                let rr = i / self.cols;
                let cc = i % self.cols;
                Ok((rr, cc))
            },
            None => Err(SearchError::NotConfigured),
        }
    }

    /// Whether setting `(r, c)` to `kind` is a role conflict: an obstacle on
    /// the current start or end, or one role on top of the other.
    pub open spec fn set_conflicts(&self, i: int, kind: CellKind) -> bool {
        let cur = self.kinds@[i];
        ||| kind == CellKind::Obstacle && (cur == CellKind::Start || cur == CellKind::End)
        ||| kind == CellKind::Start && cur == CellKind::End
        ||| kind == CellKind::End && cur == CellKind::Start
    }

    /// What `set_kind` does, shared by the grid itself and the engine's
    /// gated editing calls: `prev` and `cur` are the grid before and after.
    pub open spec fn set_kind_post(
        prev: GridModel,
        cur: GridModel,
        r: int,
        c: int,
        kind: CellKind,
        res: Result<(), SearchError>,
    ) -> bool {
        let rows = prev.spec_rows();
        let cols = prev.spec_cols();
        let i = cell_index(cols, r, c);
        &&& cur.spec_rows() == prev.spec_rows()
        &&& cur.spec_cols() == prev.spec_cols()
        &&& match res {
            Ok(()) => {
                &&& in_grid(rows, cols, r, c)
                &&& !prev.set_conflicts(i, kind)
                &&& cur.kinds_seq().len() == prev.kinds_seq().len()
                &&& match kind {
                    CellKind::Start => {
                        &&& forall|j: int|
                            0 <= j < prev.kinds_seq().len() ==> cur.kinds_seq()[j] == (if j == i {
                                CellKind::Start
                            } else if prev.spec_start() == Some(j as usize) {
                                CellKind::Blank
                            } else {
                                prev.kinds_seq()[j]
                            })
                        &&& cur.spec_start() == Some(i as usize)
                        &&& cur.spec_end() == prev.spec_end()
                    },
                    CellKind::End => {
                        &&& forall|j: int|
                            0 <= j < prev.kinds_seq().len() ==> cur.kinds_seq()[j] == (if j == i {
                                CellKind::End
                            } else if prev.spec_end() == Some(j as usize) {
                                CellKind::Blank
                            } else {
                                prev.kinds_seq()[j]
                            })
                        &&& cur.spec_end() == Some(i as usize)
                        &&& cur.spec_start() == prev.spec_start()
                    },
                    CellKind::Blank => {
                        &&& cur.kinds_seq() == prev.kinds_seq().update(i, CellKind::Blank)
                        &&& cur.spec_start() == (if prev.spec_start() == Some(i as usize) {
                            Option::<usize>::None
                        } else {
                            prev.spec_start()
                        })
                        &&& cur.spec_end() == (if prev.spec_end() == Some(i as usize) {
                            Option::<usize>::None
                        } else {
                            prev.spec_end()
                        })
                    },
                    CellKind::Obstacle => {
                        &&& cur.kinds_seq() == prev.kinds_seq().update(i, CellKind::Obstacle)
                        &&& cur.spec_start() == prev.spec_start()
                        &&& cur.spec_end() == prev.spec_end()
                    },
                }
            },
            Err(e) => {
                &&& cur == prev
                &&& if !in_grid(rows, cols, r, c) {
                    e == SearchError::OutOfBounds
                } else {
                    e == SearchError::IllegalStateChange && prev.set_conflicts(i, kind)
                }
            },
        }
    }

    /// Sets the kind of `(r, c)`.  Placing `Start` or `End` demotes the
    /// previous holder of that role to `Blank`; an obstacle may not be put
    /// on a role cell, nor a role on the cell holding the other role.
    pub fn set_kind(&mut self, r: usize, c: usize, kind: CellKind) -> (res: Result<
        (),
        SearchError,
    >)
        requires
            old(self).wf(),
        ensures
            final(self).wf(),
            GridModel::set_kind_post(*old(self), *final(self), r as int, c as int, kind, res),
    {
        if r >= self.rows || c >= self.cols {
            return Err(SearchError::OutOfBounds);
        }
        proof {
            crate::geom::lemma_cell_index_bounds(
                self.spec_rows(),
                self.spec_cols(),
                r as int,
                c as int,
            );
        }
        let ghost w = self.spec_cols();
        assert((r as int * w + c as int) < 4294967295) by (nonlinear_arith)
            requires
                0 <= r as int <= 65535,
                0 <= c as int <= 65535,
                0 <= w <= 65535,
        ;
        let i = r * self.cols + c;
        let cur = self.kinds[i];
        match kind {
            CellKind::Obstacle => {
                if cur == CellKind::Start || cur == CellKind::End {
                    return Err(SearchError::IllegalStateChange);
                }
                self.kinds.set(i, CellKind::Obstacle);
                proof {
                    assert forall|j: int|
                        0 <= j < self.kinds@.len() && (#[trigger] self.kinds@[j])
                            == CellKind::Start implies self.start_cell == Some(j as usize) by {
                        assert(self.kinds@[j] == old(self).kinds@[j]);
                    }
                    assert forall|j: int|
                        0 <= j < self.kinds@.len() && (#[trigger] self.kinds@[j]) == CellKind::End
                            implies self.end_cell == Some(j as usize) by {
                        assert(self.kinds@[j] == old(self).kinds@[j]);
                    }
                }
                Ok(())
            },
            CellKind::Start => {
                if cur == CellKind::End {
                    return Err(SearchError::IllegalStateChange);
                }
                match self.start_cell {
                    Some(s) => {
                        if s != i {
                            self.kinds.set(s, CellKind::Blank);
                        }
                    },
                    None => {},
                }
                self.kinds.set(i, CellKind::Start);
                self.start_cell = Some(i);
                proof {
                    let ii = i as int;
                    assert forall|j: int|
                        0 <= j < self.kinds@.len() && (#[trigger] self.kinds@[j])
                            == CellKind::Start implies self.start_cell == Some(j as usize) by {
                        if j != ii {
                            assert(self.kinds@[j] == old(self).kinds@[j] || self.kinds@[j]
                                == CellKind::Blank);
                            assert(old(self).kinds@[j] == CellKind::Start ==> old(
                                self,
                            ).start_cell == Some(j as usize));
                            assert(old(self).start_cell == Some(j as usize) ==> self.kinds@[j]
                                == CellKind::Blank);
                        }
                    }
                    assert forall|j: int|
                        0 <= j < self.kinds@.len() && (#[trigger] self.kinds@[j]) == CellKind::End
                            implies self.end_cell == Some(j as usize) by {
                        assert(j != ii);
                        assert(self.kinds@[j] == old(self).kinds@[j] || self.kinds@[j]
                            == CellKind::Blank);
                    }
                }
                Ok(())
            },
            CellKind::End => {
                if cur == CellKind::Start {
                    return Err(SearchError::IllegalStateChange);
                }
                match self.end_cell {
                    Some(s) => {
                        if s != i {
                            self.kinds.set(s, CellKind::Blank);
                        }
                    },
                    None => {},
                }
                self.kinds.set(i, CellKind::End);
                self.end_cell = Some(i);
                proof {
                    let ii = i as int;
                    assert forall|j: int|
                        0 <= j < self.kinds@.len() && (#[trigger] self.kinds@[j]) == CellKind::End
                            implies self.end_cell == Some(j as usize) by {
                        if j != ii {
                            assert(self.kinds@[j] == old(self).kinds@[j] || self.kinds@[j]
                                == CellKind::Blank);
                            assert(old(self).kinds@[j] == CellKind::End ==> old(self).end_cell
                                == Some(j as usize));
                            assert(old(self).end_cell == Some(j as usize) ==> self.kinds@[j]
                                == CellKind::Blank);
                        }
                    }
                    assert forall|j: int|
                        0 <= j < self.kinds@.len() && (#[trigger] self.kinds@[j])
                            == CellKind::Start implies self.start_cell == Some(j as usize) by {
                        assert(j != ii);
                        assert(self.kinds@[j] == old(self).kinds@[j] || self.kinds@[j]
                            == CellKind::Blank);
                    }
                }
                Ok(())
            },
            CellKind::Blank => {
                self.kinds.set(i, CellKind::Blank);
                match self.start_cell {
                    Some(s) => {
                        if s == i {
                            self.start_cell = None;
                        }
                    },
                    None => {},
                }
                match self.end_cell {
                    Some(s) => {
                        if s == i {
                            self.end_cell = None;
                        }
                    },
                    None => {},
                }
                proof {
                    let ii = i as int;
                    assert forall|j: int|
                        0 <= j < self.kinds@.len() && (#[trigger] self.kinds@[j])
                            == CellKind::Start implies self.start_cell == Some(j as usize) by {
                        assert(j != ii);
                        assert(self.kinds@[j] == old(self).kinds@[j]);
                    }
                    assert forall|j: int|
                        0 <= j < self.kinds@.len() && (#[trigger] self.kinds@[j]) == CellKind::End
                            implies self.end_cell == Some(j as usize) by {
                        assert(j != ii);
                        assert(self.kinds@[j] == old(self).kinds@[j]);
                    }
                }
                Ok(())
            },
        }
    }
}

/// The single in-bounds step toward `(r, c)`, as a sequence: the pair itself
/// when it lies on the grid, else nothing.
pub open spec fn dir_step(rows: int, cols: int, r: int, c: int) -> Seq<(usize, usize)> {
    if in_grid(rows, cols, r, c) {
        seq![(r as usize, c as usize)]
    } else {
        Seq::empty()
    }
}

/// The in-bounds neighbours of `(r, c)` in the fixed expansion order
/// N, E, S, W and then, with diagonals enabled, NE, SE, SW, NW.  The order
/// is part of the contract: it is what makes repeated runs expand cells
/// identically.
pub open spec fn neighbor_pairs(rows: int, cols: int, r: int, c: int, diag: bool) -> Seq<
    (usize, usize),
> {
    dir_step(rows, cols, r - 1, c) + dir_step(rows, cols, r, c + 1) + dir_step(rows, cols, r + 1, c)
        + dir_step(rows, cols, r, c - 1) + (if diag {
        dir_step(rows, cols, r - 1, c + 1) + dir_step(rows, cols, r + 1, c + 1) + dir_step(
            rows,
            cols,
            r + 1,
            c - 1,
        ) + dir_step(rows, cols, r - 1, c - 1)
    } else {
        Seq::empty()
    })
}

impl GridModel {
    /// The adjacent in-bounds cells of `(r, c)`, four or eight of them at
    /// most, in the fixed deterministic order N, E, S, W, NE, SE, SW, NW.
    pub fn neighbors(&self, r: usize, c: usize, diag: bool) -> (res: Result<
        Vec<(usize, usize)>,
        SearchError,
    >)
        requires
            self.wf(),
        ensures
            match res {
                Ok(v) => in_grid(self.spec_rows(), self.spec_cols(), r as int, c as int) && v@
                    == neighbor_pairs(
                    self.spec_rows(),
                    self.spec_cols(),
                    r as int,
                    c as int,
                    diag,
                ),
                Err(e) => e == SearchError::OutOfBounds && !in_grid(
                    self.spec_rows(),
                    self.spec_cols(),
                    r as int,
                    c as int,
                ),
            },
    {
        if r >= self.rows || c >= self.cols {
            return Err(SearchError::OutOfBounds);
        }
        let mut v: Vec<(usize, usize)> = Vec::new();
        let ghost rows = self.spec_rows();
        let ghost cols = self.spec_cols();
        if r >= 1 {
            v.push((r - 1, c));
        }
        if c + 1 < self.cols {
            v.push((r, c + 1));
        }
        if r + 1 < self.rows {
            v.push((r + 1, c));
        }
        if c >= 1 {
            v.push((r, c - 1));
        }
        assert(v@ =~= dir_step(rows, cols, r as int - 1, c as int) + dir_step(
            rows,
            cols,
            r as int,
            c as int + 1,
        ) + dir_step(rows, cols, r as int + 1, c as int) + dir_step(
            rows,
            cols,
            r as int,
            c as int - 1,
        ));
        if diag {
            if r >= 1 && c + 1 < self.cols {
                v.push((r - 1, c + 1));
            }
            if r + 1 < self.rows && c + 1 < self.cols {
                v.push((r + 1, c + 1));
            }
            if r + 1 < self.rows && c >= 1 {
                v.push((r + 1, c - 1));
            }
            if r >= 1 && c >= 1 {
                v.push((r - 1, c - 1));
            }
        }
        assert(v@ =~= neighbor_pairs(rows, cols, r as int, c as int, diag));
        Ok(v)
    }
}

} // verus!
