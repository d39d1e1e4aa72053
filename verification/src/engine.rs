use vstd::prelude::*;
use vstd::pervasive::VecAdditionalExecFns;
use crate::errors::SearchError;
use crate::cost::{edge_cost_spec, h_spec, heuristic_cost, Heuristic};
use crate::frontier::{has_cell, lemma_min_idx, min_idx, Entry, Frontier};
use crate::geom::{cell_count, cell_index, col_of, in_grid, is_adjacent, row_of};
use crate::grid::{CellKind, GridModel};
use crate::grid_set::{display_spec, display_tag, Node};
use crate::search::{
    count_closed, count_finite, lemma_count_closed_le_len, lemma_count_closed_update,
    lemma_count_finite_le_len, lemma_count_finite_update, unvisited_record, SearchRecord,
    SearchState, Status,
};

verus! {

broadcast use crate::geom::group_geom;

/// The engine's run state machine: `Idle` until a run is started, then
/// `Initialized`, `Stepping` while expansions go on, and finally
/// `Succeeded` (path found) or `Failed` (frontier emptied; a normal
/// outcome, not an error).
#[derive(Clone, Copy, Debug, PartialEq, Eq, Structural)]
pub enum EngineState {
    Idle,
    Initialized,
    Stepping,
    Succeeded,
    Failed,
}

/// One search attempt: the per-cell records, the frontier of open cells,
/// the next tie-break ticket, the cells closed so far in expansion order,
/// and, after success, the reconstructed path from start to end.
pub struct Run {
    pub search: SearchState,
    pub frontier: Frontier,
    pub next_ticket: u64,
    pub closed_order: Vec<usize>,
    pub path: Vec<usize>,
}

/// The per-record invariant of a run.  A discovered cell is never an
/// obstacle, its `f` is `g` plus the heuristic to the end, and its cost is
/// witnessed by its predecessor: a closed adjacent cell through which it
/// costs exactly `g` to get here — except the start, which has no
/// predecessor and cost zero.
pub open spec fn rec_wf(
    recs: Seq<SearchRecord>,
    grid: GridModel,
    diag: bool,
    heur: Heuristic,
    c: int,
) -> bool {
    let cols = grid.spec_cols();
    let r = recs[c];
    let s = grid.spec_start().unwrap() as int;
    let e = grid.spec_end().unwrap() as int;
    !(r.status is Unvisited) ==> {
        &&& grid.kinds_seq()[c] != CellKind::Obstacle
        &&& r.g <= 14 * count_finite(recs)
        &&& r.f == r.g + h_spec(heur, row_of(cols, c), col_of(cols, c), row_of(cols, e), col_of(cols, e))
        &&& match r.pred {
            None => c == s && r.g == 0,
            Some(p) => {
                &&& 0 <= p < recs.len()
                &&& recs[p as int].status is Closed
                &&& is_adjacent(
                    row_of(cols, p as int),
                    col_of(cols, p as int),
                    row_of(cols, c),
                    col_of(cols, c),
                    diag,
                )
                &&& r.g == recs[p as int].g + edge_cost_spec(
                    row_of(cols, p as int),
                    col_of(cols, p as int),
                    row_of(cols, c),
                    col_of(cols, c),
                )
                &&& c != s
            },
        }
    }
}

/// The live-search invariant over records, frontier and ticket counter:
/// the records cover the grid; the frontier holds each open cell exactly
/// once, with its current `f`, tickets strictly increasing along it and all
/// below `next_ticket`; every open cell is in the frontier; every record is
/// well formed; and the start is discovered at cost zero.
#[verifier::opaque]
pub open spec fn core_wf(
    recs: Seq<SearchRecord>,
    fr: Seq<Entry>,
    next_ticket: u64,
    grid: GridModel,
    diag: bool,
    heur: Heuristic,
) -> bool {
    let n = recs.len() as int;
    &&& grid.wf()
    &&& grid.spec_start() is Some
    &&& grid.spec_end() is Some
    &&& recs.len() == grid.kinds_seq().len()
    &&& forall|i: int| 0 <= i < fr.len() ==> ((#[trigger] fr[i]).cell as int) < n
    &&& forall|i: int, j: int|
        0 <= i < j < fr.len() ==> (#[trigger] fr[i]).cell != (#[trigger] fr[j]).cell && fr[i].ticket
            < fr[j].ticket
    &&& forall|i: int| 0 <= i < fr.len() ==> (#[trigger] fr[i]).ticket < next_ticket
    &&& next_ticket <= count_finite(recs)
    &&& forall|i: int|
        0 <= i < fr.len() ==> recs[(#[trigger] fr[i]).cell as int].status is Open && fr[i].f
            == recs[fr[i].cell as int].f
    &&& forall|c: int|
        0 <= c < n && (#[trigger] recs[c]).status is Open ==> has_cell(fr, c as usize)
    &&& forall|c: int| 0 <= c < n ==> #[trigger] rec_wf(recs, grid, diag, heur, c)
    &&& ({
        let s = grid.spec_start().unwrap() as int;
        &&& 0 <= s < n
        &&& !(recs[s].status is Unvisited)
        &&& recs[s].g == 0
        &&& recs[s].pred is None
    })
}

/// The whole-run invariant: the live-search invariant, plus `closed_order`
/// listing exactly as many cells as are closed, each of them closed.
pub open spec fn run_wf(run: Run, grid: GridModel, diag: bool, heur: Heuristic) -> bool {
    let recs = run.search.records@;
    let n = recs.len() as int;
    &&& core_wf(recs, run.frontier.items@, run.next_ticket, grid, diag, heur)
    &&& run.closed_order@.len() == count_closed(recs)
    &&& forall|k: int|
        0 <= k < run.closed_order@.len() ==> ((#[trigger] run.closed_order@[k]) as int) < n
            && recs[run.closed_order@[k] as int].status is Closed
}

/// Whether the offer of cost `cand` takes at a cell with record `rec` and
/// kind `kind`: never at an obstacle or a closed cell, always at an
/// undiscovered cell, and at an open cell only when strictly better.
pub open spec fn relax_applies(rec: SearchRecord, kind: CellKind, cand: int) -> bool {
    &&& kind != CellKind::Obstacle
    &&& !(rec.status is Closed)
    &&& (rec.status is Unvisited || cand < rec.g)
}

/// Whether expanding a cell with cost `g_cur` would have to re-open the
/// closed neighbour at `(rr, cc)` — the sign of an inconsistent heuristic.
pub open spec fn reopen_pair(
    recs: Seq<SearchRecord>,
    cols: int,
    cur_r: int,
    cur_c: int,
    g_cur: int,
    rr: int,
    cc: int,
) -> bool {
    let i = cell_index(cols, rr, cc);
    recs[i].status is Closed && g_cur + edge_cost_spec(cur_r, cur_c, rr, cc) < recs[i].g
}

/// Whether any adjacent in-bounds cell would have to be re-opened.
pub open spec fn reopen_exists(
    recs: Seq<SearchRecord>,
    rows: int,
    cols: int,
    cur_r: int,
    cur_c: int,
    g_cur: int,
    diag: bool,
) -> bool {
    exists|rr: int, cc: int|
        in_grid(rows, cols, rr, cc) && #[trigger] is_adjacent(cur_r, cur_c, rr, cc, diag)
            && reopen_pair(recs, cols, cur_r, cur_c, g_cur, rr, cc)
}

/// The record the cell at `(rr, cc)` holds after one expansion of `cur`:
/// closed if it is the expanded cell itself, re-costed and opened if it is
/// an adjacent cell whose offer takes, untouched otherwise.
pub open spec fn expanded_rec(
    recs: Seq<SearchRecord>,
    kinds: Seq<CellKind>,
    cols: int,
    heur: Heuristic,
    diag: bool,
    cur: int,
    g_cur: int,
    e_idx: int,
    rr: int,
    cc: int,
) -> SearchRecord {
    let i = cell_index(cols, rr, cc);
    let rec = recs[i];
    let cand = g_cur + edge_cost_spec(row_of(cols, cur), col_of(cols, cur), rr, cc);
    if i == cur {
        SearchRecord { status: Status::Closed, ..rec }
    } else if is_adjacent(row_of(cols, cur), col_of(cols, cur), rr, cc, diag) && relax_applies(
        rec,
        kinds[i],
        cand,
    ) {
        SearchRecord {
            status: Status::Open,
            g: cand as u64,
            f: (cand + h_spec(heur, rr, cc, row_of(cols, e_idx), col_of(cols, e_idx))) as u64,
            pred: Some(cur as usize),
            on_path: false,
        }
    } else {
        rec
    }
}

/// How one `step` moves a run forward: an empty frontier fails the run;
/// otherwise the unique best entry is popped and closed, appended to the
/// expansion order, and either the end is reached — records otherwise
/// untouched, the path marks described by `path_marks_ok` — or every
/// in-bounds cell ends holding exactly its `expanded_rec` record (so every
/// improving adjacent offer is taken, nothing else moves), with the newly
/// opened cells appended to the frontier in the fixed N, E, S, W, NE, SE,
/// SW, NW order, carrying consecutive fresh tickets.
pub open spec fn step_post(
    run0: Run,
    run1: Run,
    grid: GridModel,
    diag: bool,
    heur: Heuristic,
    st: EngineState,
) -> bool {
    let fr0 = run0.frontier.items@;
    let fr1 = run1.frontier.items@;
    let recs0 = run0.search.records@;
    let recs1 = run1.search.records@;
    let cols = grid.spec_cols();
    let rows = grid.spec_rows();
    let e_idx = grid.spec_end().unwrap() as int;
    if fr0.len() == 0 {
        st is Failed && run1 == run0
    } else {
        let m = min_idx(fr0);
        let cur = fr0[m].cell as int;
        let cur_r = row_of(cols, cur);
        let cur_c = col_of(cols, cur);
        let g_cur = recs0[cur].g as int;
        &&& run1.closed_order@ == run0.closed_order@.push(fr0[m].cell)
        &&& recs1.len() == recs0.len()
        &&& if cur == e_idx {
            &&& st is Succeeded
            &&& fr1 == fr0.remove(m)
            &&& run1.next_ticket == run0.next_ticket
            &&& forall|i: int|
                0 <= i < recs1.len() ==> {
                    let r1 = #[trigger] recs1[i];
                    let r0 = recs0[i];
                    r1.status == (if i == cur {
                        Status::Closed
                    } else {
                        r0.status
                    }) && r1.g == r0.g && r1.f == r0.f && r1.pred == r0.pred
                }
        } else {
            &&& st is Stepping
            &&& run1.path@.len() == 0
            &&& !reopen_exists(recs0, rows, cols, cur_r, cur_c, g_cur, diag)
            &&& forall|rr: int, cc: int|
                in_grid(rows, cols, rr, cc) ==> #[trigger] recs1[cell_index(cols, rr, cc)]
                    == expanded_rec(
                    recs0.update(cur, SearchRecord { status: Status::Closed, ..recs0[cur] }),
                    grid.kinds_seq(),
                    cols,
                    heur,
                    diag,
                    cur,
                    g_cur,
                    e_idx,
                    rr,
                    cc,
                )
            &&& expansion_frontier_post(
                fr0.remove(m),
                fr1,
                recs0.update(cur, SearchRecord { status: Status::Closed, ..recs0[cur] }),
                run0.next_ticket,
                run1.next_ticket,
                grid,
                diag,
                cur,
            )
        }
    }
}

/// The run `run1` is what `run0` becomes after exactly `n` steps, each
/// one a `step_post` transition.
pub open spec fn steps_to(
    run0: Run,
    run1: Run,
    grid: GridModel,
    diag: bool,
    heur: Heuristic,
    n: nat,
) -> bool
    decreases n,
{
    if n == 0 {
        run1 == run0
    } else {
        exists|mid: Run, st: EngineState|
            steps_to(run0, mid, grid, diag, heur, (n - 1) as nat) && #[trigger] step_post(
                mid,
                run1,
                grid,
                diag,
                heur,
                st,
            )
    }
}

/// One more `step_post` transition extends a step chain by one.
pub proof fn lemma_steps_to_extend(
    run0: Run,
    run1: Run,
    run2: Run,
    grid: GridModel,
    diag: bool,
    heur: Heuristic,
    n: nat,
    st: EngineState,
)
    requires
        steps_to(run0, run1, grid, diag, heur, n),
        step_post(run1, run2, grid, diag, heur, st),
    ensures
        steps_to(run0, run2, grid, diag, heur, n + 1),
{
    assert(steps_to(run0, run1, grid, diag, heur, n) && step_post(
        run1,
        run2,
        grid,
        diag,
        heur,
        st,
    ));
}

/// What a freshly started run looks like — a pure function of the grid and
/// the heuristic: every cell undiscovered but the start, which is open at
/// cost zero, and a frontier of exactly the start entry with ticket zero.
pub open spec fn start_run_post(run: Run, grid: GridModel, heur: Heuristic) -> bool {
    let cols = grid.spec_cols();
    let s = grid.spec_start().unwrap();
    let e = grid.spec_end().unwrap();
    let h0 = h_spec(
        heur,
        row_of(cols, s as int),
        col_of(cols, s as int),
        row_of(cols, e as int),
        col_of(cols, e as int),
    );
    &&& run.search.records@.len() == grid.kinds_seq().len()
    &&& forall|i: int|
        0 <= i < run.search.records@.len() ==> {
            let rec = #[trigger] run.search.records@[i];
            if i == s as int {
                rec.status is Open && rec.g == 0 && rec.f == h0 && rec.pred is None && !rec.on_path
            } else {
                rec == unvisited_record()
            }
        }
    &&& run.frontier.items@.len() == 1
    &&& run.frontier.items@[0].cell == s
    &&& run.frontier.items@[0].f == h0
    &&& run.frontier.items@[0].ticket == 0
    &&& run.next_ticket == 1
    &&& run.closed_order@.len() == 0
    &&& run.path@.len() == 0
}

/// Row-major index of the in-bounds pair `(rr, cc)`.
fn idx_of(rr: usize, cc: usize, rows: usize, cols: usize) -> (i: usize)
    requires
        in_grid(rows as int, cols as int, rr as int, cc as int),
        rows <= 65535,
        cols <= 65535,
    ensures
        i as int == cell_index(cols as int, rr as int, cc as int),
        (i as int) < cell_count(rows as int, cols as int),
{
    proof {
        crate::geom::lemma_cell_index_bounds(rows as int, cols as int, rr as int, cc as int);
    }
    let ghost w = cols as int;
    assert((rr as int * w + cc as int) < 4294967295) by (nonlinear_arith)
        requires
            0 <= rr as int <= 65535,
            0 <= cc as int <= 65535,
            0 <= w <= 65535,
    ;
    rr * cols + cc
}

/// Whether expanding at cost `g_cur` would have to re-open the closed cell
/// at `(rr, cc)`, reached over an edge of cost `w`.
fn reopen_one(
    search: &SearchState,
    rows: usize,
    cols: usize,
    cur_r: usize,
    cur_c: usize,
    rr: usize,
    cc: usize,
    g_cur: u64,
    w: u64,
) -> (b: bool)
    requires
        search.records@.len() == cell_count(rows as int, cols as int),
        in_grid(rows as int, cols as int, rr as int, cc as int),
        rows <= 65535,
        cols <= 65535,
        w as int == edge_cost_spec(cur_r as int, cur_c as int, rr as int, cc as int),
        g_cur + w <= 0xffff_ffff_ffff_ffff,
    ensures
        b == reopen_pair(
            search.records@,
            cols as int,
            cur_r as int,
            cur_c as int,
            g_cur as int,
            rr as int,
            cc as int,
        ),
{
    let i = idx_of(rr, cc, rows, cols);
    let rec = search.records[i];
    rec.status == Status::Closed && g_cur + w < rec.g
}

/// Whether any adjacent in-bounds cell would have to be re-opened; checks
/// the neighbours in the fixed expansion order.
fn scan_reopen(
    search: &SearchState,
    rows: usize,
    cols: usize,
    cur_r: usize,
    cur_c: usize,
    g_cur: u64,
    diag: bool,
) -> (b: bool)
    requires
        search.records@.len() == cell_count(rows as int, cols as int),
        in_grid(rows as int, cols as int, cur_r as int, cur_c as int),
        rows <= 65535,
        cols <= 65535,
        g_cur + 14 <= 0xffff_ffff_ffff_ffff,
    ensures
        b == reopen_exists(
            search.records@,
            rows as int,
            cols as int,
            cur_r as int,
            cur_c as int,
            g_cur as int,
            diag,
        ),
{
    if cur_r >= 1 {
        if reopen_one(search, rows, cols, cur_r, cur_c, cur_r - 1, cur_c, g_cur, 10) {
            proof {
                assert(is_adjacent(cur_r as int, cur_c as int, cur_r as int - 1, cur_c as int, diag));
            }
            return true;
        }
    }
    if cur_c + 1 < cols {
        if reopen_one(search, rows, cols, cur_r, cur_c, cur_r, cur_c + 1, g_cur, 10) {
            proof {
                assert(is_adjacent(cur_r as int, cur_c as int, cur_r as int, cur_c as int + 1, diag));
            }
            return true;
        }
    }
    if cur_r + 1 < rows {
        if reopen_one(search, rows, cols, cur_r, cur_c, cur_r + 1, cur_c, g_cur, 10) {
            proof {
                assert(is_adjacent(cur_r as int, cur_c as int, cur_r as int + 1, cur_c as int, diag));
            }
            return true;
        }
    }
    if cur_c >= 1 {
        if reopen_one(search, rows, cols, cur_r, cur_c, cur_r, cur_c - 1, g_cur, 10) {
            proof {
                assert(is_adjacent(cur_r as int, cur_c as int, cur_r as int, cur_c as int - 1, diag));
            }
            return true;
        }
    }
    if diag {
        if cur_r >= 1 && cur_c + 1 < cols {
            if reopen_one(search, rows, cols, cur_r, cur_c, cur_r - 1, cur_c + 1, g_cur, 14) {
                proof {
                    assert(is_adjacent(cur_r as int, cur_c as int, cur_r as int - 1, cur_c as int + 1, diag));
                }
                return true;
            }
        }
        if cur_r + 1 < rows && cur_c + 1 < cols {
            if reopen_one(search, rows, cols, cur_r, cur_c, cur_r + 1, cur_c + 1, g_cur, 14) {
                proof {
                    assert(is_adjacent(cur_r as int, cur_c as int, cur_r as int + 1, cur_c as int + 1, diag));
                }
                return true;
            }
        }
        if cur_r + 1 < rows && cur_c >= 1 {
            if reopen_one(search, rows, cols, cur_r, cur_c, cur_r + 1, cur_c - 1, g_cur, 14) {
                proof {
                    assert(is_adjacent(cur_r as int, cur_c as int, cur_r as int + 1, cur_c as int - 1, diag));
                }
                return true;
            }
        }
        if cur_r >= 1 && cur_c >= 1 {
            if reopen_one(search, rows, cols, cur_r, cur_c, cur_r - 1, cur_c - 1, g_cur, 14) {
                proof {
                    assert(is_adjacent(cur_r as int, cur_c as int, cur_r as int - 1, cur_c as int - 1, diag));
                }
                return true;
            }
        }
    }
    proof {
        assert forall|rr: int, cc: int|
            in_grid(rows as int, cols as int, rr, cc) && #[trigger] is_adjacent(
                cur_r as int,
                cur_c as int,
                rr,
                cc,
                diag,
            ) implies !reopen_pair(
            search.records@,
            cols as int,
            cur_r as int,
            cur_c as int,
            g_cur as int,
            rr,
            cc,
        ) by {
            assert(rr - cur_r as int == -1 || rr - cur_r as int == 0 || rr - cur_r as int == 1);
            assert(cc - cur_c as int == -1 || cc - cur_c as int == 0 || cc - cur_c as int == 1);
        }
    }
    false
}

/// Offers one adjacent cell the path through the just-closed cell `cur`:
/// relaxes its record and pushes it into, or re-prioritizes it inside, the
/// frontier, preserving the live-search invariant.
#[verifier::rlimit(100)]
fn expand_dir(
    search: &mut SearchState,
    frontier: &mut Frontier,
    next_ticket: &mut u64,
    grid: &GridModel,
    heur: Heuristic,
    diag: bool,
    cur: usize,
    g_cur: u64,
    rr: usize,
    cc: usize,
    w: u64,
) -> (opened: bool)
    requires
        core_wf(
            old(search).records@,
            old(frontier).items@,
            *old(next_ticket),
            *grid,
            diag,
            heur,
        ),
        in_grid(grid.spec_rows(), grid.spec_cols(), rr as int, cc as int),
        (cur as int) < old(search).records@.len(),
        old(search).records@[cur as int].status is Closed,
        old(search).records@[cur as int].g == g_cur,
        is_adjacent(
            row_of(grid.spec_cols(), cur as int),
            col_of(grid.spec_cols(), cur as int),
            rr as int,
            cc as int,
            diag,
        ),
        w as int == edge_cost_spec(
            row_of(grid.spec_cols(), cur as int),
            col_of(grid.spec_cols(), cur as int),
            rr as int,
            cc as int,
        ),
        !reopen_pair(
            old(search).records@,
            grid.spec_cols(),
            row_of(grid.spec_cols(), cur as int),
            col_of(grid.spec_cols(), cur as int),
            g_cur as int,
            rr as int,
            cc as int,
        ),
    ensures
        core_wf(
            final(search).records@,
            final(frontier).items@,
            *final(next_ticket),
            *grid,
            diag,
            heur,
        ),
        count_closed(final(search).records@) == count_closed(old(search).records@),
        final(search).records@.len() == old(search).records@.len(),
        final(search).records@[cur as int] == old(search).records@[cur as int],
        dir_delta(
            old(search).records@,
            final(search).records@,
            old(frontier).items@,
            final(frontier).items@,
            *old(next_ticket),
            *final(next_ticket),
            *grid,
            heur,
            cur as int,
            g_cur as int,
            rr as int,
            cc as int,
        ),
{
    proof {
        reveal(core_wf);
        reveal(dir_delta);
    }
    let rows = grid.rows;
    let cols = grid.cols;
    let i = idx_of(rr, cc, rows, cols);
    let kind = grid.kinds[i];
    if kind == CellKind::Obstacle {
        return false;
    }
    let prev = search.records[i];
    if prev.status == Status::Closed {
        return false;
    }
    let e_idx = match grid.end_cell {
        Some(v) => v,
        None => {
            proof {
                assert(false);
            }
            0
        },
    };
    proof {
        crate::geom::lemma_cell_of_index(grid.spec_rows(), cols as int, e_idx as int);
        crate::cost::lemma_h_bound(
            heur,
            rr as int,
            cc as int,
            row_of(cols as int, e_idx as int),
            col_of(cols as int, e_idx as int),
        );
        lemma_count_finite_le_len(search.records@);
    }
    let er = e_idx / cols;
    let ec = e_idx % cols;
    let h = heuristic_cost(heur, rr, cc, er, ec);
    proof {
        assert(rec_wf(search.records@, *grid, diag, heur, cur as int));
        assert(search.records@[cur as int].g <= 14 * count_finite(search.records@));
        assert(search.records@.len() <= 4294836225);
        assert(cur as int != i as int);
        if relax_applies(search.records@[i as int], grid.kinds_seq()[i as int], (g_cur + w) as int) {
            lemma_count_finite_update(
                search.records@,
                i as int,
                SearchRecord {
                    status: Status::Open,
                    g: (g_cur + w) as u64,
                    f: ((g_cur + w) + h) as u64,
                    pred: Some(cur),
                    on_path: false,
                },
            );
            lemma_count_closed_update(
                search.records@,
                i as int,
                SearchRecord {
                    status: Status::Open,
                    g: (g_cur + w) as u64,
                    f: ((g_cur + w) + h) as u64,
                    pred: Some(cur),
                    on_path: false,
                },
            );
        }
    }
    let improved = match search.relax(cur, i, w, h) {
        Ok(b) => b,
        Err(_) => {
            proof {
                assert(false);
            }
            false
        },
    };
    if !improved {
        return false;
    }
    let f_new = search.records[i].f;
    let ghost recs0 = old(search).records@;
    let ghost fr0 = frontier.items@;
    if prev.status == Status::Unvisited {
        proof {
            if has_cell(frontier.items@, i) {
                let k = choose|k: int|
                    0 <= k < frontier.items@.len() && frontier.items@[k].cell == i;
                assert(recs0[i as int].status is Open);
                assert(false);
            }
        }
        frontier.push(Entry { cell: i, f: f_new, ticket: *next_ticket });
        proof {
            assert forall|c: int|
                0 <= c < search.records@.len() && (#[trigger] search.records@[c]).status
                    is Open implies has_cell(frontier.items@, c as usize) by {
                if c == i as int {
                    assert(frontier.items@.last().cell == i);
                } else {
                    assert(recs0[c].status is Open);
                    assert(has_cell(fr0, c as usize));
                    let k = choose|k: int| 0 <= k < fr0.len() && fr0[k].cell == c as usize;
                    assert(frontier.items@[k].cell == c as usize);
                }
            }
            assert forall|c: int|
                0 <= c < search.records@.len() implies #[trigger] rec_wf(
                search.records@,
                *grid,
                diag,
                heur,
                c,
            ) by {
                lemma_expand_rec_wf(recs0, search.records@, *grid, diag, heur, c, cur as int, i as int, g_cur as int, w as int);
            }
        }
        *next_ticket = *next_ticket + 1;
        true
    } else {
        let res = frontier.decrease_key(i, f_new);
        proof {
            match res {
                Ok(()) => {},
                Err(_) => {
                    assert(has_cell(fr0, i));
                    assert(false);
                },
            }
            let k = crate::frontier::index_of_cell(fr0, i);
            assert forall|c: int|
                0 <= c < search.records@.len() && (#[trigger] search.records@[c]).status
                    is Open implies has_cell(frontier.items@, c as usize) by {
                assert(recs0[c].status is Open || c == i as int);
                assert(has_cell(fr0, c as usize));
                let kk = choose|kk: int| 0 <= kk < fr0.len() && fr0[kk].cell == c as usize;
                assert(frontier.items@[kk].cell == c as usize);
            }
            assert forall|c: int|
                0 <= c < search.records@.len() implies #[trigger] rec_wf(
                search.records@,
                *grid,
                diag,
                heur,
                c,
            ) by {
                lemma_expand_rec_wf(recs0, search.records@, *grid, diag, heur, c, cur as int, i as int, g_cur as int, w as int);
            }
        }
        false
    }
}

/// Relaxing one adjacent cell from a closed `cur` keeps every record well
/// formed.
proof fn lemma_expand_rec_wf(
    recs0: Seq<SearchRecord>,
    recs1: Seq<SearchRecord>,
    grid: GridModel,
    diag: bool,
    heur: Heuristic,
    c: int,
    cur: int,
    i: int,
    g_cur: int,
    w: int,
)
    requires
        grid.wf(),
        grid.spec_start() is Some,
        grid.spec_end() is Some,
        recs0.len() == grid.kinds_seq().len(),
        forall|k: int| 0 <= k < recs0.len() ==> #[trigger] rec_wf(recs0, grid, diag, heur, k),
        0 <= c < recs0.len(),
        0 <= cur < recs0.len(),
        0 <= i < recs0.len(),
        i != cur,
        recs0[cur].status is Closed,
        recs0[cur].g == g_cur,
        !(recs0[i].status is Closed),
        (grid.spec_start().unwrap() as int) < recs0.len(),
        recs0[grid.spec_start().unwrap() as int].g == 0,
        !(recs0[grid.spec_start().unwrap() as int].status is Unvisited),
        w == edge_cost_spec(
            row_of(grid.spec_cols(), cur),
            col_of(grid.spec_cols(), cur),
            row_of(grid.spec_cols(), i),
            col_of(grid.spec_cols(), i),
        ),
        10 <= w <= 14,
        is_adjacent(
            row_of(grid.spec_cols(), cur),
            col_of(grid.spec_cols(), cur),
            row_of(grid.spec_cols(), i),
            col_of(grid.spec_cols(), i),
            diag,
        ),
        grid.kinds_seq()[i] != CellKind::Obstacle,
        recs1 == recs0.update(
            i,
            SearchRecord {
                status: Status::Open,
                g: (g_cur + w) as u64,
                f: ((g_cur + w) + h_spec(
                    heur,
                    row_of(grid.spec_cols(), i),
                    col_of(grid.spec_cols(), i),
                    row_of(grid.spec_cols(), grid.spec_end().unwrap() as int),
                    col_of(grid.spec_cols(), grid.spec_end().unwrap() as int),
                )) as u64,
                pred: Some(cur as usize),
                on_path: false,
            },
        ),
        recs0[i].status is Unvisited || g_cur + w < recs0[i].g,
        g_cur + w + h_spec(
            heur,
            row_of(grid.spec_cols(), i),
            col_of(grid.spec_cols(), i),
            row_of(grid.spec_cols(), grid.spec_end().unwrap() as int),
            col_of(grid.spec_cols(), grid.spec_end().unwrap() as int),
        ) <= 0xffff_ffff_ffff_ffff,
        0 <= h_spec(
            heur,
            row_of(grid.spec_cols(), i),
            col_of(grid.spec_cols(), i),
            row_of(grid.spec_cols(), grid.spec_end().unwrap() as int),
            col_of(grid.spec_cols(), grid.spec_end().unwrap() as int),
        ),
    ensures
        rec_wf(recs1, grid, diag, heur, c),
{
    lemma_count_finite_update(recs0, i, recs1[i]);
    assert(rec_wf(recs0, grid, diag, heur, c));
    assert(rec_wf(recs0, grid, diag, heur, i));
    assert(rec_wf(recs0, grid, diag, heur, cur));
    if recs0[i].status is Unvisited {
        assert(count_finite(recs1) == count_finite(recs0) + 1);
    } else {
        assert(count_finite(recs1) == count_finite(recs0));
        assert(recs0[i].g <= 14 * count_finite(recs0));
    }
    assert(recs0[cur].g <= 14 * count_finite(recs0));
    if c != i {
        if !(recs1[c].status is Unvisited) {
            match recs1[c].pred {
                None => {},
                Some(p) => {
                    assert(recs0[p as int].status is Closed);
                    assert(p as int != i);
                },
            }
        }
    } else {
        let s = grid.spec_start().unwrap() as int;
        if i == s {
            assert(g_cur + w > 0);
            assert(recs0[s].g == 0);
            assert(!(recs0[s].status is Unvisited));
            assert(false);
        }
    }
}

/// A record stays well formed when only on-path marks change, anywhere in
/// the sequence.
proof fn lemma_rec_wf_on_path_only(
    recs_a: Seq<SearchRecord>,
    recs_b: Seq<SearchRecord>,
    grid: GridModel,
    diag: bool,
    heur: Heuristic,
    c: int,
)
    requires
        recs_a.len() == recs_b.len(),
        forall|i: int|
            0 <= i < recs_a.len() ==> {
                let ra = #[trigger] recs_a[i];
                let rb = #[trigger] recs_b[i];
                ra.status == rb.status && ra.g == rb.g && ra.f == rb.f && ra.pred == rb.pred
            },
        0 <= c < recs_a.len(),
        rec_wf(recs_a, grid, diag, heur, c),
    ensures
        rec_wf(recs_b, grid, diag, heur, c),
{
    crate::search::lemma_count_same_status(recs_a, recs_b);
}

/// Closing the popped minimum keeps the live-search invariant: the popped
/// cell leaves the frontier and its record turns `Closed`, all else as it
/// was.
proof fn lemma_close_popped(
    recs0: Seq<SearchRecord>,
    recs1: Seq<SearchRecord>,
    fr0: Seq<Entry>,
    fr1: Seq<Entry>,
    next_ticket: u64,
    grid: GridModel,
    diag: bool,
    heur: Heuristic,
)
    requires
        core_wf(recs0, fr0, next_ticket, grid, diag, heur),
        fr0.len() > 0,
        recs1 == recs0.update(
            fr0[min_idx(fr0)].cell as int,
            SearchRecord { status: Status::Closed, ..recs0[fr0[min_idx(fr0)].cell as int] },
        ),
        fr1 == fr0.remove(min_idx(fr0)),
    ensures
        core_wf(recs1, fr1, next_ticket, grid, diag, heur),
        count_closed(recs1) == count_closed(recs0) + 1,
        count_finite(recs1) == count_finite(recs0),
{
    reveal(core_wf);
    let m = min_idx(fr0);
    lemma_min_idx(fr0);
    let cur = fr0[m].cell as int;
    lemma_count_finite_update(recs0, cur, recs1[cur]);
    lemma_count_closed_update(recs0, cur, recs1[cur]);
    assert forall|c: int|
        0 <= c < recs1.len() && (#[trigger] recs1[c]).status is Open implies has_cell(
        fr1,
        c as usize,
    ) by {
        assert(recs0[c].status is Open);
        assert(has_cell(fr0, c as usize));
        let k = choose|k: int| 0 <= k < fr0.len() && fr0[k].cell == c as usize;
        assert(c != cur);
        assert(k != m);
        if k < m {
            assert(fr1[k].cell == c as usize);
        } else {
            assert(fr1[k - 1].cell == c as usize);
        }
    }
    assert forall|c: int| 0 <= c < recs1.len() implies #[trigger] rec_wf(
        recs1,
        grid,
        diag,
        heur,
        c,
    ) by {
        assert(rec_wf(recs0, grid, diag, heur, c));
        if !(recs1[c].status is Unvisited) {
            match recs1[c].pred {
                None => {},
                Some(p) => {
                    assert(rec_wf(recs0, grid, diag, heur, c));
                    assert(recs0[p as int].status is Closed);
                    assert(p as int != cur);
                },
            }
        }
    }
}

/// Walks the predecessor chain back from the end, marks each cell on the
/// path, and stores the path start-first.  Terminates because the cost
/// strictly falls along predecessor links.
#[verifier::rlimit(40)]
fn reconstruct(
    search: &mut SearchState,
    path: &mut Vec<usize>,
    grid: &GridModel,
    diag: bool,
    heur: Heuristic,
    e_idx: usize,
)
    requires
        grid.wf(),
        grid.spec_start() is Some,
        grid.spec_end() is Some,
        old(search).records@.len() == grid.kinds_seq().len(),
        forall|c: int|
            0 <= c < old(search).records@.len() ==> #[trigger] rec_wf(
                old(search).records@,
                *grid,
                diag,
                heur,
                c,
            ),
        (e_idx as int) < old(search).records@.len(),
        e_idx == grid.spec_end().unwrap(),
        old(search).records@[e_idx as int].status is Closed,
        (grid.spec_start().unwrap() as int) < old(search).records@.len(),
        old(search).records@[grid.spec_start().unwrap() as int].g == 0,
        !(old(search).records@[grid.spec_start().unwrap() as int].status is Unvisited),
        old(path)@.len() == 0,
        forall|c: int|
            0 <= c < old(search).records@.len() ==> !(#[trigger] old(search).records@[c]).on_path,
    ensures
        final(search).records@.len() == old(search).records@.len(),
        forall|i: int|
            0 <= i < old(search).records@.len() ==> {
                let r1 = #[trigger] final(search).records@[i];
                let r0 = old(search).records@[i];
                r1.status == r0.status && r1.g == r0.g && r1.f == r0.f && r1.pred == r0.pred
            },
        forall|i: int|
            0 <= i < old(search).records@.len() ==> ((#[trigger] final(search).records@[i]).on_path <==> final(path)@.contains(i as usize)),
        final(path)@.len() >= 1,
        final(path)@[0] == grid.spec_start().unwrap(),
        final(path)@.last() == e_idx,
        forall|k: int|
            0 <= k < final(path)@.len() ==> ((#[trigger] final(path)@[k]) as int) < old(search).records@.len() && final(search).records@[final(path)@[k] as int].status is Closed
                && final(search).records@[final(path)@[k] as int].on_path,
        forall|k: int|
            0 <= k < final(path)@.len() - 1 ==> final(search).records@[#[trigger] final(path)@[k + 1] as int].pred == Some(final(path)@[k]),
{
    let ghost recs0 = old(search).records@;
    let ghost n = old(search).records@.len() as int;
    let mut rev: Vec<usize> = Vec::new();
    let mut cur: usize = e_idx;
    loop
        invariant_except_break
            !search.records@[cur as int].on_path,
            rev@.len() > 0 ==> recs0[rev@.last() as int].pred == Some(cur),
            forall|k: int|
                0 <= k < rev@.len() ==> recs0[(#[trigger] rev@[k]) as int].g > recs0[cur as int].g,
        invariant
            grid.wf(),
            grid.spec_start() is Some,
            grid.spec_end() is Some,
            search.records@.len() == n,
            recs0.len() == n,
            n == grid.kinds_seq().len(),
            (cur as int) < n,
            recs0[cur as int].status is Closed,
            forall|i: int|
                0 <= i < n ==> {
                    let r1 = #[trigger] search.records@[i];
                    let r0 = recs0[i];
                    r1.status == r0.status && r1.g == r0.g && r1.f == r0.f && r1.pred == r0.pred
                },
            forall|c: int| 0 <= c < n ==> #[trigger] rec_wf(recs0, *grid, diag, heur, c),
            (grid.spec_start().unwrap() as int) < n,
            recs0[grid.spec_start().unwrap() as int].g == 0,
            !(recs0[grid.spec_start().unwrap() as int].status is Unvisited),
            rev@.len() == 0 ==> cur == e_idx,
            rev@.len() > 0 ==> rev@[0] == e_idx,
            forall|k: int|
                0 <= k < rev@.len() ==> ((#[trigger] rev@[k]) as int) < n && recs0[rev@[k] as int].status
                    is Closed && search.records@[rev@[k] as int].on_path,
            forall|k: int|
                0 <= k < rev@.len() - 1 ==> recs0[#[trigger] rev@[k] as int].pred == Some(
                    rev@[k + 1],
                ),
            forall|i: int|
                0 <= i < n ==> ((#[trigger] search.records@[i]).on_path <==> rev@.contains(
                    i as usize,
                )),
            path@.len() == 0,
        ensures
            rev@.len() >= 1,
            rev@.last() == cur,
            recs0[cur as int].pred is None,
            (cur as int) < n,
            recs0[cur as int].status is Closed,
            search.records@.len() == n,
            path@.len() == 0,
            rev@[0] == e_idx,
            forall|i: int|
                0 <= i < n ==> {
                    let r1 = #[trigger] search.records@[i];
                    let r0 = recs0[i];
                    r1.status == r0.status && r1.g == r0.g && r1.f == r0.f && r1.pred == r0.pred
                },
            forall|k: int|
                0 <= k < rev@.len() ==> ((#[trigger] rev@[k]) as int) < n && recs0[rev@[k] as int].status
                    is Closed && search.records@[rev@[k] as int].on_path,
            forall|k: int|
                0 <= k < rev@.len() - 1 ==> recs0[#[trigger] rev@[k] as int].pred == Some(
                    rev@[k + 1],
                ),
            forall|i: int|
                0 <= i < n ==> ((#[trigger] search.records@[i]).on_path <==> rev@.contains(
                    i as usize,
                )),
        decreases search.records@[cur as int].g,
    {
        let ghost rev0 = rev@;
        let mut nr = search.records[cur];
        nr.on_path = true;
        search.records.set(cur, nr);
        rev.push(cur);
        proof {
            assert forall|i: int|
                0 <= i < n implies ((#[trigger] search.records@[i]).on_path <==> rev@.contains(
                i as usize,
            )) by {
                if rev@.contains(i as usize) {
                    let k = choose|k: int| 0 <= k < rev@.len() && rev@[k] == i as usize;
                    if k < rev@.len() - 1 {
                        assert(rev0[k] == i as usize);
                        assert(rev0.contains(i as usize));
                    }
                }
                if search.records@[i].on_path && i != cur as int {
                    assert(rev0.contains(i as usize));
                    let k = choose|k: int| 0 <= k < rev0.len() && rev0[k] == i as usize;
                    assert(rev@[k] == i as usize);
                    assert(rev@.contains(i as usize));
                }
                if i == cur as int {
                    assert(rev@[rev@.len() - 1] == cur);
                    assert(rev@.contains(cur));
                }
            }
        }
        let prd = search.records[cur].pred;
        match prd {
            Some(p) => {
                proof {
                    assert(rec_wf(recs0, *grid, diag, heur, cur as int));
                    assert(recs0[p as int].status is Closed);
                    assert(recs0[cur as int].g == recs0[p as int].g + edge_cost_spec(
                        row_of(grid.spec_cols(), p as int),
                        col_of(grid.spec_cols(), p as int),
                        row_of(grid.spec_cols(), cur as int),
                        col_of(grid.spec_cols(), cur as int),
                    ));
                    assert(recs0[p as int].g < recs0[cur as int].g);
                }
                cur = p;
            },
            None => {
                break;
            },
        }
    }
    proof {
        assert(rec_wf(recs0, *grid, diag, heur, cur as int));
        assert(cur == grid.spec_start().unwrap());
        assert(rev@.len() >= 1);
        assert(rev@.last() == cur);
    }
    let m = rev.len();
    let mut j: usize = 0;
    while j < m
        invariant
            m == rev@.len(),
            j <= m,
            path@.len() == j,
            forall|k: int| 0 <= k < j ==> (#[trigger] path@[k]) == rev@[m - 1 - k],
        decreases m - j,
    {
        path.push(rev[m - 1 - j]);
        j += 1;
    }
    proof {
        assert(path@[0] == rev@[m as int - 1]);
        assert(path@.last() == rev@[0]);
        assert forall|x: usize| path@.contains(x) <==> rev@.contains(x) by {
            if path@.contains(x) {
                let k = choose|k: int| 0 <= k < path@.len() && path@[k] == x;
                assert(rev@[m as int - 1 - k] == x);
            }
            if rev@.contains(x) {
                let k = choose|k: int| 0 <= k < rev@.len() && rev@[k] == x;
                assert(path@[m as int - 1 - k] == x);
            }
        }
        assert forall|k: int|
            0 <= k < path@.len() - 1 implies search.records@[#[trigger] path@[k + 1] as int].pred
            == Some(path@[k]) by {
            let kk = m as int - 1 - (k + 1);
            assert(path@[k + 1] == rev@[kk]);
            assert(path@[k] == rev@[kk + 1]);
            assert(recs0[rev@[kk] as int].pred == Some(rev@[kk + 1]));
        }
    }
}


/// Where the offset `(dr, dc)` stands in the fixed expansion order
/// N, E, S, W, NE, SE, SW, NW; 8 for any other offset.
pub open spec fn dir_rank(dr: int, dc: int) -> int {
    if dr == -1 && dc == 0 {
        0
    } else if dr == 0 && dc == 1 {
        1
    } else if dr == 1 && dc == 0 {
        2
    } else if dr == 0 && dc == -1 {
        3
    } else if dr == -1 && dc == 1 {
        4
    } else if dr == 1 && dc == 1 {
        5
    } else if dr == 1 && dc == -1 {
        6
    } else if dr == -1 && dc == -1 {
        7
    } else {
        8
    }
}

/// Exactly what one offer to the cell at `(rr, cc)` does: if it takes, the
/// record is re-costed and the frontier gains a fresh entry (undiscovered
/// cell) or re-prioritizes the existing one in place (open cell); if not,
/// nothing moves.
#[verifier::opaque]
pub open spec fn dir_delta(
    recs0: Seq<SearchRecord>,
    recs1: Seq<SearchRecord>,
    fr0: Seq<Entry>,
    fr1: Seq<Entry>,
    t0: u64,
    t1: u64,
    grid: GridModel,
    heur: Heuristic,
    cur: int,
    g_cur: int,
    rr: int,
    cc: int,
) -> bool {
    let cols = grid.spec_cols();
    let i = cell_index(cols, rr, cc);
    let cand = g_cur + edge_cost_spec(row_of(cols, cur), col_of(cols, cur), rr, cc);
    let e_idx = grid.spec_end().unwrap() as int;
    let applies = relax_applies(recs0[i], grid.kinds_seq()[i], cand);
    let newrec = SearchRecord {
        status: Status::Open,
        g: cand as u64,
        f: (cand + h_spec(heur, rr, cc, row_of(cols, e_idx), col_of(cols, e_idx))) as u64,
        pred: Some(cur as usize),
        on_path: false,
    };
    &&& recs1 == (if applies {
        recs0.update(i, newrec)
    } else {
        recs0
    })
    &&& if applies && recs0[i].status is Unvisited {
        fr1 == fr0.push(Entry { cell: i as usize, f: newrec.f, ticket: t0 }) && t1 == t0 + 1
    } else if applies {
        &&& crate::frontier::has_cell(fr0, i as usize)
        &&& 0 <= crate::frontier::index_of_cell(fr0, i as usize) < fr0.len()
        &&& fr1 == fr0.update(
            crate::frontier::index_of_cell(fr0, i as usize),
            Entry {
                cell: i as usize,
                f: newrec.f,
                ticket: fr0[crate::frontier::index_of_cell(fr0, i as usize)].ticket,
            },
        )
        &&& t1 == t0
    } else {
        fr1 == fr0 && t1 == t0
    }
}

/// After the offers of the first `m` directions: a cell whose offset from
/// the expanded cell ranks below `m` holds exactly its expanded record;
/// every other cell is untouched.
#[verifier::opaque]
pub open spec fn processed(
    recs_base: Seq<SearchRecord>,
    recs1: Seq<SearchRecord>,
    grid: GridModel,
    heur: Heuristic,
    diag: bool,
    cur: int,
    g_cur: int,
    e_idx: int,
    cur_r: int,
    cur_c: int,
    m: int,
) -> bool {
    let rows = grid.spec_rows();
    let cols = grid.spec_cols();
    &&& recs1.len() == recs_base.len()
    &&& forall|rr: int, cc: int|
        in_grid(rows, cols, rr, cc) ==> #[trigger] recs1[cell_index(cols, rr, cc)] == (if dir_rank(
            rr - cur_r,
            cc - cur_c,
        ) < m {
            expanded_rec(recs_base, grid.kinds_seq(), cols, heur, diag, cur, g_cur, e_idx, rr, cc)
        } else {
            recs_base[cell_index(cols, rr, cc)]
        })
}

/// After the offers of the first `m` directions: the frontier entries that
/// were already there keep place, cell and ticket, and the newly opened
/// cells sit behind them in direction order, with consecutive tickets,
/// each an adjacent cell undiscovered before the expansion.
#[verifier::opaque]
pub open spec fn tail_state(
    fr_base: Seq<Entry>,
    fr1: Seq<Entry>,
    recs_base: Seq<SearchRecord>,
    t_base: u64,
    t1: u64,
    grid: GridModel,
    diag: bool,
    cur_r: int,
    cur_c: int,
    m: int,
) -> bool {
    let cols = grid.spec_cols();
    &&& fr1.len() >= fr_base.len()
    &&& forall|k: int|
        0 <= k < fr_base.len() ==> (#[trigger] fr1[k]).cell == fr_base[k].cell && fr1[k].ticket
            == fr_base[k].ticket
    &&& forall|k: int|
        fr_base.len() <= k < fr1.len() ==> {
            let cl = (#[trigger] fr1[k]).cell as int;
            &&& 0 <= cl < recs_base.len()
            &&& fr1[k].ticket == t_base + k - fr_base.len()
            &&& recs_base[cl].status is Unvisited
            &&& is_adjacent(cur_r, cur_c, row_of(cols, cl), col_of(cols, cl), diag)
            &&& dir_rank(row_of(cols, cl) - cur_r, col_of(cols, cl) - cur_c) < m
        }
    &&& forall|k1: int, k2: int|
        fr_base.len() <= k1 < k2 < fr1.len() ==> dir_rank(
            row_of(cols, (#[trigger] fr1[k1]).cell as int) - cur_r,
            col_of(cols, fr1[k1].cell as int) - cur_c,
        ) < dir_rank(
            row_of(cols, (#[trigger] fr1[k2]).cell as int) - cur_r,
            col_of(cols, fr1[k2].cell as int) - cur_c,
        )
    &&& t1 == t_base + fr1.len() - fr_base.len()
}

/// How one expansion moves the frontier, in full: surviving entries keep
/// place, cell and ticket; the newly opened cells are appended behind them
/// in the fixed direction order with consecutive tickets drawn from
/// `next_ticket`; each appended cell was undiscovered and is adjacent.
/// (Each entry's `f` always equals its record's `f`, by the run invariant.)
pub open spec fn expansion_frontier_post(
    fr0: Seq<Entry>,
    fr1: Seq<Entry>,
    recs0: Seq<SearchRecord>,
    t0: u64,
    t1: u64,
    grid: GridModel,
    diag: bool,
    cur: int,
) -> bool {
    let cols = grid.spec_cols();
    &&& fr1.len() >= fr0.len()
    &&& forall|k: int|
        0 <= k < fr0.len() ==> (#[trigger] fr1[k]).cell == fr0[k].cell && fr1[k].ticket
            == fr0[k].ticket
    &&& forall|k: int|
        fr0.len() <= k < fr1.len() ==> {
            let cl = (#[trigger] fr1[k]).cell as int;
            &&& 0 <= cl < recs0.len()
            &&& fr1[k].ticket == t0 + k - fr0.len()
            &&& recs0[cl].status is Unvisited
            &&& is_adjacent(
                row_of(cols, cur),
                col_of(cols, cur),
                row_of(cols, cl),
                col_of(cols, cl),
                diag,
            )
        }
    &&& forall|k1: int, k2: int|
        fr0.len() <= k1 < k2 < fr1.len() ==> dir_rank(
            row_of(cols, (#[trigger] fr1[k1]).cell as int) - row_of(cols, cur),
            col_of(cols, fr1[k1].cell as int) - col_of(cols, cur),
        ) < dir_rank(
            row_of(cols, (#[trigger] fr1[k2]).cell as int) - row_of(cols, cur),
            col_of(cols, fr1[k2].cell as int) - col_of(cols, cur),
        )
    &&& t1 == t0 + fr1.len() - fr0.len()
}

/// Before any direction is offered, nothing has moved.
proof fn lemma_expand_zero(
    recs: Seq<SearchRecord>,
    fr: Seq<Entry>,
    t: u64,
    grid: GridModel,
    heur: Heuristic,
    diag: bool,
    cur: int,
    g_cur: int,
    e_idx: int,
    cur_r: int,
    cur_c: int,
)
    ensures
        processed(recs, recs, grid, heur, diag, cur, g_cur, e_idx, cur_r, cur_c, 0),
        tail_state(fr, fr, recs, t, t, grid, diag, cur_r, cur_c, 0),
{
    reveal(processed);
    reveal(tail_state);
}

/// A cell whose direction has not been offered yet still holds its
/// pre-expansion record, so the pre-scanned no-reopen fact carries over.
proof fn lemma_still_no_reopen(
    recs_base: Seq<SearchRecord>,
    recs_prev: Seq<SearchRecord>,
    grid: GridModel,
    heur: Heuristic,
    diag: bool,
    cur: int,
    g_cur: int,
    e_idx: int,
    cur_r: int,
    cur_c: int,
    m: int,
    rr: int,
    cc: int,
)
    requires
        processed(recs_base, recs_prev, grid, heur, diag, cur, g_cur, e_idx, cur_r, cur_c, m),
        dir_rank(rr - cur_r, cc - cur_c) == m,
        0 <= m < 8,
        in_grid(grid.spec_rows(), grid.spec_cols(), rr, cc),
        is_adjacent(cur_r, cur_c, rr, cc, diag),
        !reopen_exists(
            recs_base,
            grid.spec_rows(),
            grid.spec_cols(),
            cur_r,
            cur_c,
            g_cur,
            diag,
        ),
    ensures
        !reopen_pair(recs_prev, grid.spec_cols(), cur_r, cur_c, g_cur, rr, cc),
        recs_prev[cell_index(grid.spec_cols(), rr, cc)] == recs_base[cell_index(
            grid.spec_cols(),
            rr,
            cc,
        )],
{
    reveal(processed);
}

/// Processing one more direction extends the partial-expansion state by
/// one rank, whether the offset is in bounds (one exact offer) or not
/// (nothing at all).
proof fn lemma_expand_step(
    recs_base: Seq<SearchRecord>,
    recs_prev: Seq<SearchRecord>,
    recs_next: Seq<SearchRecord>,
    fr_base: Seq<Entry>,
    fr_prev: Seq<Entry>,
    fr_next: Seq<Entry>,
    t_base: u64,
    t_prev: u64,
    t_next: u64,
    grid: GridModel,
    heur: Heuristic,
    diag: bool,
    cur: int,
    g_cur: int,
    e_idx: int,
    cur_r: int,
    cur_c: int,
    m: int,
    rr: int,
    cc: int,
    inb: bool,
)
    requires
        grid.wf(),
        recs_base.len() == grid.kinds_seq().len(),
        0 <= cur < recs_base.len(),
        recs_base[cur].status is Closed,
        in_grid(grid.spec_rows(), grid.spec_cols(), cur_r, cur_c),
        cur == cell_index(grid.spec_cols(), cur_r, cur_c),
        e_idx == grid.spec_end().unwrap() as int,
        0 <= m < 8,
        dir_rank(rr - cur_r, cc - cur_c) == m,
        processed(recs_base, recs_prev, grid, heur, diag, cur, g_cur, e_idx, cur_r, cur_c, m),
        tail_state(fr_base, fr_prev, recs_base, t_base, t_prev, grid, diag, cur_r, cur_c, m),
        inb ==> in_grid(grid.spec_rows(), grid.spec_cols(), rr, cc) && is_adjacent(
            cur_r,
            cur_c,
            rr,
            cc,
            diag,
        ) && dir_delta(
            recs_prev,
            recs_next,
            fr_prev,
            fr_next,
            t_prev,
            t_next,
            grid,
            heur,
            cur,
            g_cur,
            rr,
            cc,
        ),
        !inb ==> !in_grid(grid.spec_rows(), grid.spec_cols(), rr, cc) && recs_next == recs_prev
            && fr_next == fr_prev && t_next == t_prev,
    ensures
        processed(recs_base, recs_next, grid, heur, diag, cur, g_cur, e_idx, cur_r, cur_c, m + 1),
        tail_state(fr_base, fr_next, recs_base, t_base, t_next, grid, diag, cur_r, cur_c, m + 1),
{
    reveal(processed);
    reveal(tail_state);
    reveal(dir_delta);
    let rows = grid.spec_rows();
    let cols = grid.spec_cols();
    if !inb {
        assert forall|r2: int, c2: int| in_grid(rows, cols, r2, c2) implies #[trigger] recs_next[cell_index(
            cols,
            r2,
            c2,
        )] == (if dir_rank(r2 - cur_r, c2 - cur_c) < m + 1 {
            expanded_rec(recs_base, grid.kinds_seq(), cols, heur, diag, cur, g_cur, e_idx, r2, c2)
        } else {
            recs_base[cell_index(cols, r2, c2)]
        }) by {
            if dir_rank(r2 - cur_r, c2 - cur_c) == m {
                assert(r2 == rr && c2 == cc);
                assert(false);
            }
        }
    } else {
        let i = cell_index(cols, rr, cc);
        crate::geom::lemma_cell_index_bounds(rows, cols, rr, cc);
        assert(recs_prev[i] == recs_base[i]);
        assert(i != cur);
        let cand = g_cur + edge_cost_spec(cur_r, cur_c, rr, cc);
        let applies = relax_applies(recs_base[i], grid.kinds_seq()[i], cand);
        assert forall|r2: int, c2: int| in_grid(rows, cols, r2, c2) implies #[trigger] recs_next[cell_index(
            cols,
            r2,
            c2,
        )] == (if dir_rank(r2 - cur_r, c2 - cur_c) < m + 1 {
            expanded_rec(recs_base, grid.kinds_seq(), cols, heur, diag, cur, g_cur, e_idx, r2, c2)
        } else {
            recs_base[cell_index(cols, r2, c2)]
        }) by {
            let j = cell_index(cols, r2, c2);
            if r2 == rr && c2 == cc {
                assert(recs_next[j] == expanded_rec(
                    recs_base,
                    grid.kinds_seq(),
                    cols,
                    heur,
                    diag,
                    cur,
                    g_cur,
                    e_idx,
                    rr,
                    cc,
                ));
            } else {
                assert(j != i);
                assert(recs_next[j] == recs_prev[j]);
                if dir_rank(r2 - cur_r, c2 - cur_c) == m {
                    assert(r2 == rr && c2 == cc);
                }
            }
        }
        // frontier side
        if applies && recs_base[i].status is Unvisited {
            assert(fr_next.len() == fr_prev.len() + 1);
            assert(fr_next.last().cell == i as usize);
            assert(row_of(cols, i) == rr && col_of(cols, i) == cc);
            assert forall|k1: int, k2: int|
                fr_base.len() <= k1 < k2 < fr_next.len() implies dir_rank(
                row_of(cols, (#[trigger] fr_next[k1]).cell as int) - cur_r,
                col_of(cols, fr_next[k1].cell as int) - cur_c,
            ) < dir_rank(
                row_of(cols, (#[trigger] fr_next[k2]).cell as int) - cur_r,
                col_of(cols, fr_next[k2].cell as int) - cur_c,
            ) by {
                if k2 == fr_next.len() - 1 {
                    assert(fr_next[k1] == fr_prev[k1]);
                    assert(dir_rank(
                        row_of(cols, fr_prev[k1].cell as int) - cur_r,
                        col_of(cols, fr_prev[k1].cell as int) - cur_c,
                    ) < m);
                } else {
                    assert(fr_next[k1] == fr_prev[k1]);
                    assert(fr_next[k2] == fr_prev[k2]);
                }
            }
        } else if applies {
            let k0 = crate::frontier::index_of_cell(fr_prev, i as usize);
            assert(fr_prev[k0].cell == i as usize);
            if k0 >= fr_base.len() {
                assert(dir_rank(
                    row_of(cols, fr_prev[k0].cell as int) - cur_r,
                    col_of(cols, fr_prev[k0].cell as int) - cur_c,
                ) < m);
                assert(row_of(cols, i) == rr && col_of(cols, i) == cc);
                assert(false);
            }
            assert forall|k: int| fr_base.len() <= k < fr_next.len() implies fr_next[k]
                == fr_prev[k] by {}
        }
    }
}

/// Once every direction has been offered, the partial-expansion state is
/// the full expansion: every in-bounds cell holds exactly its expanded
/// record, and the frontier grew exactly by the newly opened cells in
/// direction order.
proof fn lemma_expand_finish(
    recs_base: Seq<SearchRecord>,
    recs1: Seq<SearchRecord>,
    fr_base: Seq<Entry>,
    fr1: Seq<Entry>,
    t_base: u64,
    t1: u64,
    grid: GridModel,
    heur: Heuristic,
    diag: bool,
    cur: int,
    g_cur: int,
    e_idx: int,
    cur_r: int,
    cur_c: int,
    m: int,
)
    requires
        grid.wf(),
        recs_base.len() == grid.kinds_seq().len(),
        0 <= cur < recs_base.len(),
        recs_base[cur].status is Closed,
        in_grid(grid.spec_rows(), grid.spec_cols(), cur_r, cur_c),
        cur == cell_index(grid.spec_cols(), cur_r, cur_c),
        processed(recs_base, recs1, grid, heur, diag, cur, g_cur, e_idx, cur_r, cur_c, m),
        tail_state(fr_base, fr1, recs_base, t_base, t1, grid, diag, cur_r, cur_c, m),
        m == 8 || (m == 4 && !diag),
    ensures
        recs1.len() == recs_base.len(),
        forall|rr: int, cc: int|
            in_grid(grid.spec_rows(), grid.spec_cols(), rr, cc)
                ==> #[trigger] recs1[cell_index(grid.spec_cols(), rr, cc)] == expanded_rec(
                recs_base,
                grid.kinds_seq(),
                grid.spec_cols(),
                heur,
                diag,
                cur,
                g_cur,
                e_idx,
                rr,
                cc,
            ),
        expansion_frontier_post(fr_base, fr1, recs_base, t_base, t1, grid, diag, cur),
    decreases m,
{
    reveal(processed);
    reveal(tail_state);
    let rows = grid.spec_rows();
    let cols = grid.spec_cols();
    assert forall|rr: int, cc: int| in_grid(rows, cols, rr, cc) implies #[trigger] recs1[cell_index(
        cols,
        rr,
        cc,
    )] == expanded_rec(
        recs_base,
        grid.kinds_seq(),
        cols,
        heur,
        diag,
        cur,
        g_cur,
        e_idx,
        rr,
        cc,
    ) by {
        crate::geom::lemma_cell_index_bounds(rows, cols, rr, cc);
        if dir_rank(rr - cur_r, cc - cur_c) >= m {
            assert(!is_adjacent(cur_r, cur_c, rr, cc, diag) || (rr == cur_r && cc == cur_c));
            if rr == cur_r && cc == cur_c {
                assert(cell_index(cols, rr, cc) == cur);
                assert(expanded_rec(
                    recs_base,
                    grid.kinds_seq(),
                    cols,
                    heur,
                    diag,
                    cur,
                    g_cur,
                    e_idx,
                    rr,
                    cc,
                ) == recs_base[cur]);
            }
        }
    }
    assert(row_of(cols, cur) == cur_r && col_of(cols, cur) == cur_c);
}

/// Offers the path through the just-closed `cur` to every adjacent
/// in-bounds cell, in the fixed order N, E, S, W, NE, SE, SW, NW: every
/// in-bounds cell ends holding exactly its expanded record, and the newly
/// opened cells join the frontier in that same order with consecutive
/// fresh tickets.
#[verifier::rlimit(100)]
fn expand_all(
    run: &mut Run,
    grid: &GridModel,
    heur: Heuristic,
    diag: bool,
    cur: usize,
    g_cur: u64,
    cur_r: usize,
    cur_c: usize,
    e_idx: usize,
    rows: usize,
    cols: usize,
)
    requires
        core_wf(
            old(run).search.records@,
            old(run).frontier.items@,
            old(run).next_ticket,
            *grid,
            diag,
            heur,
        ),
        rows as int == grid.spec_rows(),
        cols as int == grid.spec_cols(),
        in_grid(rows as int, cols as int, cur_r as int, cur_c as int),
        cur as int == cell_index(cols as int, cur_r as int, cur_c as int),
        (cur as int) < old(run).search.records@.len(),
        old(run).search.records@[cur as int].status is Closed,
        old(run).search.records@[cur as int].g == g_cur,
        e_idx == grid.spec_end().unwrap(),
        grid.wf(),
        old(run).search.records@.len() == cell_count(rows as int, cols as int),
        old(run).search.records@.len() == grid.kinds_seq().len(),
        !reopen_exists(
            old(run).search.records@,
            rows as int,
            cols as int,
            cur_r as int,
            cur_c as int,
            g_cur as int,
            diag,
        ),
    ensures
        core_wf(
            final(run).search.records@,
            final(run).frontier.items@,
            final(run).next_ticket,
            *grid,
            diag,
            heur,
        ),
        final(run).closed_order == old(run).closed_order,
        final(run).path == old(run).path,
        count_closed(final(run).search.records@) == count_closed(old(run).search.records@),
        final(run).search.records@.len() == old(run).search.records@.len(),
        forall|rr: int, cc: int|
            in_grid(rows as int, cols as int, rr, cc) ==> #[trigger] final(run).search.records@[cell_index(
                cols as int,
                rr,
                cc,
            )] == expanded_rec(
                old(run).search.records@,
                grid.kinds_seq(),
                cols as int,
                heur,
                diag,
                cur as int,
                g_cur as int,
                e_idx as int,
                rr,
                cc,
            ),
        expansion_frontier_post(
            old(run).frontier.items@,
            final(run).frontier.items@,
            old(run).search.records@,
            old(run).next_ticket,
            final(run).next_ticket,
            *grid,
            diag,
            cur as int,
        ),
{
    let ghost recs0 = old(run).search.records@;
    let ghost fr0 = old(run).frontier.items@;
    let ghost t0 = old(run).next_ticket;
    proof {
        lemma_expand_zero(
            recs0,
            fr0,
            t0,
            *grid,
            heur,
            diag,
            cur as int,
            g_cur as int,
            e_idx as int,
            cur_r as int,
            cur_c as int,
        );
    }
        let ghost rp = run.search.records@;
        let ghost fp = run.frontier.items@;
        let ghost tp = run.next_ticket;
        if cur_r >= 1 {
            proof {
                assert(is_adjacent(cur_r as int, cur_c as int, cur_r as int - 1, cur_c as int, diag));
                lemma_still_no_reopen(recs0, rp, *grid, heur, diag, cur as int, g_cur as int, e_idx as int, cur_r as int, cur_c as int, 0, cur_r as int - 1, cur_c as int);
            }
            expand_dir(&mut run.search, &mut run.frontier, &mut run.next_ticket, grid, heur, diag, cur, g_cur, cur_r - 1, cur_c, 10);
            proof {
                lemma_expand_step(recs0, rp, run.search.records@, fr0, fp, run.frontier.items@, t0, tp, run.next_ticket, *grid, heur, diag, cur as int, g_cur as int, e_idx as int, cur_r as int, cur_c as int, 0, cur_r as int - 1, cur_c as int, true);
            }
        } else {
            proof {
                lemma_expand_step(recs0, rp, run.search.records@, fr0, fp, run.frontier.items@, t0, tp, run.next_ticket, *grid, heur, diag, cur as int, g_cur as int, e_idx as int, cur_r as int, cur_c as int, 0, cur_r as int - 1, cur_c as int, false);
            }
        }
        let ghost rp = run.search.records@;
        let ghost fp = run.frontier.items@;
        let ghost tp = run.next_ticket;
        if cur_c + 1 < cols {
            proof {
                assert(is_adjacent(cur_r as int, cur_c as int, cur_r as int, cur_c as int + 1, diag));
                lemma_still_no_reopen(recs0, rp, *grid, heur, diag, cur as int, g_cur as int, e_idx as int, cur_r as int, cur_c as int, 1, cur_r as int, cur_c as int + 1);
            }
            expand_dir(&mut run.search, &mut run.frontier, &mut run.next_ticket, grid, heur, diag, cur, g_cur, cur_r, cur_c + 1, 10);
            proof {
                lemma_expand_step(recs0, rp, run.search.records@, fr0, fp, run.frontier.items@, t0, tp, run.next_ticket, *grid, heur, diag, cur as int, g_cur as int, e_idx as int, cur_r as int, cur_c as int, 1, cur_r as int, cur_c as int + 1, true);
            }
        } else {
            proof {
                lemma_expand_step(recs0, rp, run.search.records@, fr0, fp, run.frontier.items@, t0, tp, run.next_ticket, *grid, heur, diag, cur as int, g_cur as int, e_idx as int, cur_r as int, cur_c as int, 1, cur_r as int, cur_c as int + 1, false);
            }
        }
        let ghost rp = run.search.records@;
        let ghost fp = run.frontier.items@;
        let ghost tp = run.next_ticket;
        if cur_r + 1 < rows {
            proof {
                assert(is_adjacent(cur_r as int, cur_c as int, cur_r as int + 1, cur_c as int, diag));
                lemma_still_no_reopen(recs0, rp, *grid, heur, diag, cur as int, g_cur as int, e_idx as int, cur_r as int, cur_c as int, 2, cur_r as int + 1, cur_c as int);
            }
            expand_dir(&mut run.search, &mut run.frontier, &mut run.next_ticket, grid, heur, diag, cur, g_cur, cur_r + 1, cur_c, 10);
            proof {
                lemma_expand_step(recs0, rp, run.search.records@, fr0, fp, run.frontier.items@, t0, tp, run.next_ticket, *grid, heur, diag, cur as int, g_cur as int, e_idx as int, cur_r as int, cur_c as int, 2, cur_r as int + 1, cur_c as int, true);
            }
        } else {
            proof {
                lemma_expand_step(recs0, rp, run.search.records@, fr0, fp, run.frontier.items@, t0, tp, run.next_ticket, *grid, heur, diag, cur as int, g_cur as int, e_idx as int, cur_r as int, cur_c as int, 2, cur_r as int + 1, cur_c as int, false);
            }
        }
        let ghost rp = run.search.records@;
        let ghost fp = run.frontier.items@;
        let ghost tp = run.next_ticket;
        if cur_c >= 1 {
            proof {
                assert(is_adjacent(cur_r as int, cur_c as int, cur_r as int, cur_c as int - 1, diag));
                lemma_still_no_reopen(recs0, rp, *grid, heur, diag, cur as int, g_cur as int, e_idx as int, cur_r as int, cur_c as int, 3, cur_r as int, cur_c as int - 1);
            }
            expand_dir(&mut run.search, &mut run.frontier, &mut run.next_ticket, grid, heur, diag, cur, g_cur, cur_r, cur_c - 1, 10);
            proof {
                lemma_expand_step(recs0, rp, run.search.records@, fr0, fp, run.frontier.items@, t0, tp, run.next_ticket, *grid, heur, diag, cur as int, g_cur as int, e_idx as int, cur_r as int, cur_c as int, 3, cur_r as int, cur_c as int - 1, true);
            }
        } else {
            proof {
                lemma_expand_step(recs0, rp, run.search.records@, fr0, fp, run.frontier.items@, t0, tp, run.next_ticket, *grid, heur, diag, cur as int, g_cur as int, e_idx as int, cur_r as int, cur_c as int, 3, cur_r as int, cur_c as int - 1, false);
            }
        }
    if diag {
            let ghost rp = run.search.records@;
            let ghost fp = run.frontier.items@;
            let ghost tp = run.next_ticket;
            if cur_r >= 1 && cur_c + 1 < cols {
                proof {
                    assert(is_adjacent(cur_r as int, cur_c as int, cur_r as int - 1, cur_c as int + 1, diag));
                    lemma_still_no_reopen(recs0, rp, *grid, heur, diag, cur as int, g_cur as int, e_idx as int, cur_r as int, cur_c as int, 4, cur_r as int - 1, cur_c as int + 1);
                }
                expand_dir(&mut run.search, &mut run.frontier, &mut run.next_ticket, grid, heur, diag, cur, g_cur, cur_r - 1, cur_c + 1, 14);
                proof {
                    lemma_expand_step(recs0, rp, run.search.records@, fr0, fp, run.frontier.items@, t0, tp, run.next_ticket, *grid, heur, diag, cur as int, g_cur as int, e_idx as int, cur_r as int, cur_c as int, 4, cur_r as int - 1, cur_c as int + 1, true);
                }
            } else {
                proof {
                    lemma_expand_step(recs0, rp, run.search.records@, fr0, fp, run.frontier.items@, t0, tp, run.next_ticket, *grid, heur, diag, cur as int, g_cur as int, e_idx as int, cur_r as int, cur_c as int, 4, cur_r as int - 1, cur_c as int + 1, false);
                }
            }
            let ghost rp = run.search.records@;
            let ghost fp = run.frontier.items@;
            let ghost tp = run.next_ticket;
            if cur_r + 1 < rows && cur_c + 1 < cols {
                proof {
                    assert(is_adjacent(cur_r as int, cur_c as int, cur_r as int + 1, cur_c as int + 1, diag));
                    lemma_still_no_reopen(recs0, rp, *grid, heur, diag, cur as int, g_cur as int, e_idx as int, cur_r as int, cur_c as int, 5, cur_r as int + 1, cur_c as int + 1);
                }
                expand_dir(&mut run.search, &mut run.frontier, &mut run.next_ticket, grid, heur, diag, cur, g_cur, cur_r + 1, cur_c + 1, 14);
                proof {
                    lemma_expand_step(recs0, rp, run.search.records@, fr0, fp, run.frontier.items@, t0, tp, run.next_ticket, *grid, heur, diag, cur as int, g_cur as int, e_idx as int, cur_r as int, cur_c as int, 5, cur_r as int + 1, cur_c as int + 1, true);
                }
            } else {
                proof {
                    lemma_expand_step(recs0, rp, run.search.records@, fr0, fp, run.frontier.items@, t0, tp, run.next_ticket, *grid, heur, diag, cur as int, g_cur as int, e_idx as int, cur_r as int, cur_c as int, 5, cur_r as int + 1, cur_c as int + 1, false);
                }
            }
            let ghost rp = run.search.records@;
            let ghost fp = run.frontier.items@;
            let ghost tp = run.next_ticket;
            if cur_r + 1 < rows && cur_c >= 1 {
                proof {
                    assert(is_adjacent(cur_r as int, cur_c as int, cur_r as int + 1, cur_c as int - 1, diag));
                    lemma_still_no_reopen(recs0, rp, *grid, heur, diag, cur as int, g_cur as int, e_idx as int, cur_r as int, cur_c as int, 6, cur_r as int + 1, cur_c as int - 1);
                }
                expand_dir(&mut run.search, &mut run.frontier, &mut run.next_ticket, grid, heur, diag, cur, g_cur, cur_r + 1, cur_c - 1, 14);
                proof {
                    lemma_expand_step(recs0, rp, run.search.records@, fr0, fp, run.frontier.items@, t0, tp, run.next_ticket, *grid, heur, diag, cur as int, g_cur as int, e_idx as int, cur_r as int, cur_c as int, 6, cur_r as int + 1, cur_c as int - 1, true);
                }
            } else {
                proof {
                    lemma_expand_step(recs0, rp, run.search.records@, fr0, fp, run.frontier.items@, t0, tp, run.next_ticket, *grid, heur, diag, cur as int, g_cur as int, e_idx as int, cur_r as int, cur_c as int, 6, cur_r as int + 1, cur_c as int - 1, false);
                }
            }
            let ghost rp = run.search.records@;
            let ghost fp = run.frontier.items@;
            let ghost tp = run.next_ticket;
            if cur_r >= 1 && cur_c >= 1 {
                proof {
                    assert(is_adjacent(cur_r as int, cur_c as int, cur_r as int - 1, cur_c as int - 1, diag));
                    lemma_still_no_reopen(recs0, rp, *grid, heur, diag, cur as int, g_cur as int, e_idx as int, cur_r as int, cur_c as int, 7, cur_r as int - 1, cur_c as int - 1);
                }
                expand_dir(&mut run.search, &mut run.frontier, &mut run.next_ticket, grid, heur, diag, cur, g_cur, cur_r - 1, cur_c - 1, 14);
                proof {
                    lemma_expand_step(recs0, rp, run.search.records@, fr0, fp, run.frontier.items@, t0, tp, run.next_ticket, *grid, heur, diag, cur as int, g_cur as int, e_idx as int, cur_r as int, cur_c as int, 7, cur_r as int - 1, cur_c as int - 1, true);
                }
            } else {
                proof {
                    lemma_expand_step(recs0, rp, run.search.records@, fr0, fp, run.frontier.items@, t0, tp, run.next_ticket, *grid, heur, diag, cur as int, g_cur as int, e_idx as int, cur_r as int, cur_c as int, 7, cur_r as int - 1, cur_c as int - 1, false);
                }
            }
    }
    proof {
        lemma_expand_finish(
            recs0,
            run.search.records@,
            fr0,
            run.frontier.items@,
            t0,
            run.next_ticket,
            *grid,
            heur,
            diag,
            cur as int,
            g_cur as int,
            e_idx as int,
            cur_r as int,
            cur_c as int,
            if diag { 8 } else { 4 },
        );
    }
}



/// No cell is marked on-path and no path is stored: holds until a run
/// succeeds.
pub open spec fn no_path_marks(run: Run) -> bool {
    &&& run.path@.len() == 0
    &&& forall|c: int|
        0 <= c < run.search.records@.len() ==> !(#[trigger] run.search.records@[c]).on_path
}

/// After success: the stored path leads from the start to the end along
/// predecessor links, every cell on it is closed, and the on-path marks
/// cover exactly the stored path.
pub open spec fn path_marks_ok(run: Run, grid: GridModel) -> bool {
    let recs = run.search.records@;
    let p = run.path@;
    let n = recs.len() as int;
    &&& p.len() >= 1
    &&& p[0] == grid.spec_start().unwrap()
    &&& p.last() == grid.spec_end().unwrap()
    &&& forall|k: int|
        0 <= k < p.len() ==> ((#[trigger] p[k]) as int) < n && recs[p[k] as int].on_path
            && recs[p[k] as int].status is Closed
    &&& forall|k: int|
        0 <= k < p.len() - 1 ==> recs[#[trigger] p[k + 1] as int].pred == Some(p[k])
    &&& forall|c: int| 0 <= c < n ==> ((#[trigger] recs[c]).on_path <==> p.contains(c as usize))
}

/// The grid-based shortest-path engine: a grid, the configuration chosen
/// at construction, and at most one active run.
pub struct Astar {
    pub grid: GridModel,
    pub allow_diagonal: bool,
    pub heuristic: Heuristic,
    pub state: EngineState,
    pub run: Option<Run>,
    pub cancel_requested: bool,
}

impl Astar {
    /// The engine invariant: the grid is well formed; a run exists exactly
    /// outside `Idle` and is then well formed; path marks exist only in
    /// `Succeeded`; and a `Failed` run has an empty frontier.
    pub open spec fn wf(&self) -> bool {
        &&& self.grid.wf()
        &&& (self.state is Idle <==> self.run is None)
        &&& (self.run matches Some(r) ==> run_wf(r, self.grid, self.allow_diagonal, self.heuristic))
        &&& ((self.state is Initialized || self.state is Stepping) ==> (self.run matches Some(r)
            ==> no_path_marks(r)))
        &&& (self.state is Failed ==> (self.run matches Some(r) ==> no_path_marks(r)
            && r.frontier.items@.len() == 0))
        &&& (self.state is Succeeded ==> (self.run matches Some(r) ==> path_marks_ok(r, self.grid)))
    }

    /// Builds an idle engine over an all-blank grid with the given
    /// configuration; rejects empty or oversized dimensions.
    pub fn new(rows: usize, cols: usize, allow_diagonal: bool, heuristic: Heuristic) -> (res:
        Result<Astar, SearchError>)
        ensures
            match res {
                Ok(a) => {
                    &&& a.wf()
                    &&& a.state is Idle
                    &&& a.run is None
                    &&& !a.cancel_requested
                    &&& a.allow_diagonal == allow_diagonal
                    &&& a.heuristic == heuristic
                    &&& a.grid.spec_rows() == rows && a.grid.spec_cols() == cols
                    &&& forall|i: int|
                        0 <= i < a.grid.kinds_seq().len() ==> a.grid.kinds_seq()[i]
                            == CellKind::Blank
                    &&& a.grid.spec_start() is None && a.grid.spec_end() is None
                },
                Err(e) => e == SearchError::InvalidDimensions && (rows == 0 || cols == 0 || rows
                    > crate::geom::MAX_DIM || cols > crate::geom::MAX_DIM),
            },
    {
        match GridModel::new(rows, cols) {
            Ok(grid) => Ok(
                Astar {
                    grid,
                    allow_diagonal,
                    heuristic,
                    state: EngineState::Idle,
                    run: None,
                    cancel_requested: false,
                },
            ),
            Err(e) => Err(e),
        }
    }

    /// Discards any run and returns to `Idle`; the grid itself is kept.
    pub fn reset(&mut self)
        requires
            old(self).wf(),
        ensures
            final(self).wf(),
            final(self).state is Idle,
            final(self).run is None,
            !final(self).cancel_requested,
            final(self).grid == old(self).grid,
            final(self).allow_diagonal == old(self).allow_diagonal,
            final(self).heuristic == old(self).heuristic,
    {
        self.run = None;
        self.state = EngineState::Idle;
        self.cancel_requested = false;
    }

    /// Asks a `run_to_completion` in progress to stop before its next step
    /// and return to `Idle`.
    pub fn request_cancel(&mut self)
        requires
            old(self).wf(),
        ensures
            final(self).wf(),
            *final(self) == (Astar { cancel_requested: true, ..*old(self) }),
    {
        self.cancel_requested = true;
    }

    /// The engine's current state.
    pub fn state(&self) -> (st: EngineState)
        ensures
            st == self.state,
    {
        self.state
    }

    /// Edits one cell, allowed only while no run exists; the run must be
    /// discarded with `reset` first.
    pub fn set_kind(&mut self, r: usize, c: usize, kind: CellKind) -> (res: Result<
        (),
        SearchError,
    >)
        requires
            old(self).wf(),
        ensures
            final(self).wf(),
            final(self).state == old(self).state,
            final(self).run == old(self).run,
            final(self).allow_diagonal == old(self).allow_diagonal,
            final(self).heuristic == old(self).heuristic,
            final(self).cancel_requested == old(self).cancel_requested,
            if !(old(self).state is Idle) {
                res == Err::<(), SearchError>(SearchError::RunInProgress) && final(self).grid
                    == old(self).grid
            } else {
                GridModel::set_kind_post(
                    old(self).grid,
                    final(self).grid,
                    r as int,
                    c as int,
                    kind,
                    res,
                )
            },
    {
        match self.state {
            EngineState::Idle => self.grid.set_kind(r, c, kind),
            _ => Err(SearchError::RunInProgress),
        }
    }

    /// Places the start cell (the previous start, if any, becomes blank).
    pub fn place_start(&mut self, r: usize, c: usize) -> (res: Result<(), SearchError>)
        requires
            old(self).wf(),
        ensures
            final(self).wf(),
            final(self).state == old(self).state,
            final(self).run == old(self).run,
            final(self).allow_diagonal == old(self).allow_diagonal,
            final(self).heuristic == old(self).heuristic,
            final(self).cancel_requested == old(self).cancel_requested,
            if !(old(self).state is Idle) {
                res == Err::<(), SearchError>(SearchError::RunInProgress) && final(self).grid
                    == old(self).grid
            } else {
                GridModel::set_kind_post(
                    old(self).grid,
                    final(self).grid,
                    r as int,
                    c as int,
                    CellKind::Start,
                    res,
                )
            },
    {
        self.set_kind(r, c, CellKind::Start)
    }

    /// Places the end cell (the previous end, if any, becomes blank).
    pub fn place_end(&mut self, r: usize, c: usize) -> (res: Result<(), SearchError>)
        requires
            old(self).wf(),
        ensures
            final(self).wf(),
            final(self).state == old(self).state,
            final(self).run == old(self).run,
            final(self).allow_diagonal == old(self).allow_diagonal,
            final(self).heuristic == old(self).heuristic,
            final(self).cancel_requested == old(self).cancel_requested,
            if !(old(self).state is Idle) {
                res == Err::<(), SearchError>(SearchError::RunInProgress) && final(self).grid
                    == old(self).grid
            } else {
                GridModel::set_kind_post(
                    old(self).grid,
                    final(self).grid,
                    r as int,
                    c as int,
                    CellKind::End,
                    res,
                )
            },
    {
        self.set_kind(r, c, CellKind::End)
    }

    /// Flips `(r, c)` between blank and obstacle.  Fails with
    /// `IllegalStateChange` on the current start or end cell, with
    /// `OutOfBounds` off the grid, and with `RunInProgress` while a run
    /// exists.
    pub fn toggle_obstacle(&mut self, r: usize, c: usize) -> (res: Result<(), SearchError>)
        requires
            old(self).wf(),
        ensures
            final(self).wf(),
            final(self).state == old(self).state,
            final(self).run == old(self).run,
            final(self).allow_diagonal == old(self).allow_diagonal,
            final(self).heuristic == old(self).heuristic,
            final(self).cancel_requested == old(self).cancel_requested,
            if !(old(self).state is Idle) {
                res == Err::<(), SearchError>(SearchError::RunInProgress) && final(self).grid
                    == old(self).grid
            } else if !in_grid(old(self).grid.spec_rows(), old(self).grid.spec_cols(), r as int, c as int) {
                res == Err::<(), SearchError>(SearchError::OutOfBounds) && final(self).grid
                    == old(self).grid
            } else {
                ({
                    let i = cell_index(old(self).grid.spec_cols(), r as int, c as int);
                    let was = old(self).grid.kinds_seq()[i];
                    GridModel::set_kind_post(
                        old(self).grid,
                        final(self).grid,
                        r as int,
                        c as int,
                        if was == CellKind::Obstacle {
                            CellKind::Blank
                        } else {
                            CellKind::Obstacle
                        },
                        res,
                    )
                })
            },
    {
        match self.state {
            EngineState::Idle => {},
            _ => {
                return Err(SearchError::RunInProgress);
            },
        }
        let was = match self.grid.kind_of(r, c) {
            Ok(k) => k,
            Err(e) => {
                return Err(e);
            },
        };
        if was == CellKind::Obstacle {
            self.grid.set_kind(r, c, CellKind::Blank)
        } else {
            self.grid.set_kind(r, c, CellKind::Obstacle)
        }
    }

    /// Begins a run.  Demands both endpoints and the `Idle` state; the new
    /// run is a pure function of the grid and the configuration, which is
    /// what makes a reset-and-restart reproduce the first run exactly.
    pub fn start(&mut self) -> (res: Result<(), SearchError>)
        requires
            old(self).wf(),
        ensures
            final(self).wf(),
            final(self).grid == old(self).grid,
            final(self).allow_diagonal == old(self).allow_diagonal,
            final(self).heuristic == old(self).heuristic,
            match res {
                Ok(()) => {
                    &&& old(self).state is Idle
                    &&& old(self).grid.spec_start() is Some
                    &&& old(self).grid.spec_end() is Some
                    &&& final(self).state is Initialized
                    &&& !final(self).cancel_requested
                    &&& final(self).run matches Some(r) && start_run_post(
                        r,
                        old(self).grid,
                        old(self).heuristic,
                    )
                },
                Err(e) => {
                    &&& *final(self) == *old(self)
                    &&& if !(old(self).state is Idle) {
                        e == SearchError::RunInProgress
                    } else {
                        e == SearchError::MissingEndpoints && (old(self).grid.spec_start() is None
                            || old(self).grid.spec_end() is None)
                    }
                },
            },
    {
        match self.state {
            EngineState::Idle => {},
            _ => {
                return Err(SearchError::RunInProgress);
            },
        }
        let s_idx = match self.grid.start_cell {
            Some(i) => i,
            None => {
                return Err(SearchError::MissingEndpoints);
            },
        };
        let e_idx = match self.grid.end_cell {
            Some(i) => i,
            None => {
                return Err(SearchError::MissingEndpoints);
            },
        };
        let cols = self.grid.cols;
        let n = self.grid.kinds.len();
        proof {
            crate::geom::lemma_cell_of_index(self.grid.spec_rows(), cols as int, s_idx as int);
            crate::geom::lemma_cell_of_index(self.grid.spec_rows(), cols as int, e_idx as int);
        }
        let sr = s_idx / cols;
        let sc = s_idx % cols;
        let er = e_idx / cols;
        let ec = e_idx % cols;
        let h0 = heuristic_cost(self.heuristic, sr, sc, er, ec);
        let search = SearchState::init(n, s_idx, h0);
        let mut frontier = Frontier::new();
        frontier.push(Entry { cell: s_idx, f: h0, ticket: 0 });
        let run = Run {
            search,
            frontier,
            next_ticket: 1,
            closed_order: Vec::new(),
            path: Vec::new(),
        };
        proof {
            assert(run.frontier.items@ =~= seq![Entry { cell: s_idx, f: h0, ticket: 0 }]);
        }
        self.run = Some(run);
        self.state = EngineState::Initialized;
        self.cancel_requested = false;
        proof {
            reveal(core_wf);
            let r = self.run.unwrap();
            let fr = r.frontier.items@;
            assert(fr[0].cell == s_idx);
            assert(has_cell(fr, s_idx));
            assert forall|c: int|
                0 <= c < r.search.records@.len() && (#[trigger] r.search.records@[c]).status
                    is Open implies has_cell(fr, c as usize) by {
                assert(c == s_idx as int);
            }
        }
        Ok(())
    }

    /// One expansion: pops the best open cell, closes it, and either
    /// reconstructs the path (end reached), fails the run (frontier empty),
    /// or offers the path through it to each adjacent cell, in the fixed
    /// order N, E, S, W, NE, SE, SW, NW.  Bounded work per call, so a
    /// render loop can redraw between calls.  In `Succeeded` or `Failed`
    /// the call is a no-op; in `Idle` it is an error.
    #[verifier::rlimit(100)]
    pub fn step(&mut self) -> (res: Result<EngineState, SearchError>)
        requires
            old(self).wf(),
        ensures
            final(self).wf(),
            final(self).grid == old(self).grid,
            final(self).allow_diagonal == old(self).allow_diagonal,
            final(self).heuristic == old(self).heuristic,
            final(self).cancel_requested == old(self).cancel_requested,
            final(self).state is Idle <==> old(self).state is Idle,
            match old(self).state {
                EngineState::Idle => res == Err::<EngineState, SearchError>(
                    SearchError::IllegalStateChange,
                ) && *final(self) == *old(self),
                EngineState::Succeeded | EngineState::Failed => res == Ok::<
                    EngineState,
                    SearchError,
                >(old(self).state) && *final(self) == *old(self),
                _ => match res {
                    Ok(st) => {
                        &&& st == final(self).state
                        &&& (st is Stepping || st is Succeeded || st is Failed)
                        &&& old(self).run matches Some(r0) && final(self).run matches Some(r1)
                            && step_post(
                            r0,
                            r1,
                            old(self).grid,
                            old(self).allow_diagonal,
                            old(self).heuristic,
                            st,
                        )
                    },
                    Err(e) => {
                        &&& e == SearchError::HeuristicInconsistency
                        &&& *final(self) == *old(self)
                        &&& (old(self).run matches Some(r0) ==> ({
                            let fr0 = r0.frontier.items@;
                            let recs0 = r0.search.records@;
                            let cols = old(self).grid.spec_cols();
                            let cur = fr0[min_idx(fr0)].cell as int;
                            &&& fr0.len() > 0
                            &&& cur != old(self).grid.spec_end().unwrap() as int
                            &&& reopen_exists(
                                recs0,
                                old(self).grid.spec_rows(),
                                cols,
                                row_of(cols, cur),
                                col_of(cols, cur),
                                recs0[cur].g as int,
                                old(self).allow_diagonal,
                            )
                        }))
                    },
                },
            },
    {
        proof {
            reveal(core_wf);
        }
        match self.state {
            EngineState::Idle => {
                return Err(SearchError::IllegalStateChange);
            },
            EngineState::Succeeded | EngineState::Failed => {
                return Ok(self.state);
            },
            _ => {},
        }
        let rows = self.grid.rows;
        let cols = self.grid.cols;
        let diag = self.allow_diagonal;
        let heur = self.heuristic;
        let e_idx = match self.grid.end_cell {
            Some(v) => v,
            None => {
                proof {
                    assert(false);
                }
                0
            },
        };
        let taken = self.run.take();
        let mut run = match taken {
            Some(r) => r,
            None => {
                proof {
                    assert(false);
                }
                return Err(SearchError::IllegalStateChange);
            },
        };
        let ghost run0 = run;
        if run.frontier.len() == 0 {
            self.run = Some(run);
            self.state = EngineState::Failed;
            proof {
                assert(self.run.unwrap() == run0);
            }
            return Ok(EngineState::Failed);
        }
        let e = match run.frontier.peek_min() {
            Ok(e) => e,
            Err(_) => {
                proof {
                    assert(false);
                }
                return Err(SearchError::Empty);
            },
        };
        let cur = e.cell;
        proof {
            lemma_min_idx(run.frontier.items@);
            crate::geom::lemma_cell_of_index(rows as int, cols as int, cur as int);
        }
        let cur_r = cur / cols;
        let cur_c = cur % cols;
        let g_cur = run.search.records[cur].g;
        proof {
            assert(rec_wf(run.search.records@, self.grid, diag, heur, cur as int));
            assert(run.search.records@[cur as int].g <= 14 * count_finite(run.search.records@));
            lemma_count_finite_le_len(run.search.records@);
        }
        if cur != e_idx {
            if scan_reopen(&run.search, rows, cols, cur_r, cur_c, g_cur, diag) {
                self.run = Some(run);
                proof {
                    assert(self.run.unwrap() == run0);
                    assert(*self == *old(self));
                }
                return Err(SearchError::HeuristicInconsistency);
            }
        }
        let _popped = match run.frontier.pop_min() {
            Ok(x) => x,
            Err(_) => {
                proof {
                    assert(false);
                }
                return Err(SearchError::Empty);
            },
        };
        let mut nrec = run.search.records[cur];
        nrec.status = Status::Closed;
        proof {
            lemma_count_finite_update(run.search.records@, cur as int, nrec);
            lemma_count_closed_update(run.search.records@, cur as int, nrec);
        }
        run.search.records.set(cur, nrec);
        run.closed_order.push(cur);
        proof {
            lemma_close_popped(
                run0.search.records@,
                run.search.records@,
                run0.frontier.items@,
                run.frontier.items@,
                run.next_ticket,
                self.grid,
                diag,
                heur,
            );
            lemma_count_closed_le_len(run.search.records@);
        }
        if cur == e_idx {
            let ghost recs_mid = run.search.records@;
            reconstruct(&mut run.search, &mut run.path, &self.grid, diag, heur, e_idx);
            self.run = Some(run);
            self.state = EngineState::Succeeded;
            proof {
                let r1 = self.run.unwrap();
                let recs1 = r1.search.records@;
                crate::search::lemma_count_same_status(recs1, recs_mid);
                assert forall|c: int| 0 <= c < recs1.len() implies #[trigger] rec_wf(
                    recs1,
                    self.grid,
                    diag,
                    heur,
                    c,
                ) by {
                    lemma_rec_wf_on_path_only(
                        run0.search.records@.update(
                            cur as int,
                            SearchRecord {
                                status: Status::Closed,
                                ..run0.search.records@[cur as int]
                            },
                        ),
                        recs1,
                        self.grid,
                        diag,
                        heur,
                        c,
                    );
                }
            }
            return Ok(EngineState::Succeeded);
        }
        proof {
            if reopen_exists(
                run.search.records@,
                rows as int,
                cols as int,
                cur_r as int,
                cur_c as int,
                g_cur as int,
                diag,
            ) {
                let (rr, cc) = choose|rr: int, cc: int|
                    in_grid(rows as int, cols as int, rr, cc) && #[trigger] is_adjacent(
                        cur_r as int,
                        cur_c as int,
                        rr,
                        cc,
                        diag,
                    ) && reopen_pair(
                        run.search.records@,
                        cols as int,
                        cur_r as int,
                        cur_c as int,
                        g_cur as int,
                        rr,
                        cc,
                    );
                assert(cell_index(cols as int, rr, cc) != cur as int);
                assert(reopen_pair(
                    run0.search.records@,
                    cols as int,
                    cur_r as int,
                    cur_c as int,
                    g_cur as int,
                    rr,
                    cc,
                ));
                assert(false);
            }
        }
        let ghost recs_b = run.search.records@;
        expand_all(&mut run, &self.grid, heur, diag, cur, g_cur, cur_r, cur_c, e_idx, rows, cols);
        self.run = Some(run);
        self.state = EngineState::Stepping;
        proof {
            let r1 = self.run.unwrap();
            let recs1 = r1.search.records@;
            let colsI = cols as int;
            let rowsI = rows as int;
            assert forall|c: int| 0 <= c < recs1.len() implies !(#[trigger] recs1[c]).on_path && (
            recs_b[c].status is Closed ==> recs1[c] == recs_b[c]) by {
                crate::geom::lemma_cell_of_index(rowsI, colsI, c);
                let rrr = row_of(colsI, c);
                let ccc = col_of(colsI, c);
                assert(recs1[cell_index(colsI, rrr, ccc)] == expanded_rec(
                    recs_b,
                    self.grid.kinds_seq(),
                    colsI,
                    heur,
                    diag,
                    cur as int,
                    g_cur as int,
                    e_idx as int,
                    rrr,
                    ccc,
                ));
                assert(!recs_b[c].on_path);
            }
        }
        Ok(EngineState::Stepping)
    }

    /// Steps until the run ends: `Succeeded`, `Failed`, or — when a
    /// cancellation was requested — cleanly back to `Idle` with the run
    /// discarded.  A convenience composition of `step`, with no semantics
    /// of its own: the run it leaves behind is reachable from the run it
    /// found by a chain of `step_post` transitions.
    #[verifier::loop_isolation(false)]
    pub fn run_to_completion(&mut self) -> (res: Result<EngineState, SearchError>)
        requires
            old(self).wf(),
        ensures
            final(self).wf(),
            final(self).grid == old(self).grid,
            final(self).allow_diagonal == old(self).allow_diagonal,
            final(self).heuristic == old(self).heuristic,
            match old(self).state {
                EngineState::Idle => res == Err::<EngineState, SearchError>(
                    SearchError::IllegalStateChange,
                ) && *final(self) == *old(self),
                EngineState::Succeeded | EngineState::Failed => res == Ok::<
                    EngineState,
                    SearchError,
                >(old(self).state) && *final(self) == *old(self),
                _ => match res {
                    Ok(st) => {
                        &&& st == final(self).state
                        &&& if old(self).cancel_requested {
                            st is Idle && final(self).run is None && !final(self).cancel_requested
                        } else {
                            &&& (st is Succeeded || st is Failed)
                            &&& old(self).run matches Some(r0) && final(self).run matches Some(r1)
                                && (exists|k: nat|
                                #[trigger] steps_to(
                                    r0,
                                    r1,
                                    old(self).grid,
                                    old(self).allow_diagonal,
                                    old(self).heuristic,
                                    k,
                                ))
                        }
                    },
                    Err(e) => {
                        &&& e == SearchError::HeuristicInconsistency
                        &&& (final(self).state is Initialized || final(self).state is Stepping)
                        &&& old(self).run matches Some(r0) && final(self).run matches Some(r1) && (
                        exists|k: nat|
                            #[trigger] steps_to(
                                r0,
                                r1,
                                old(self).grid,
                                old(self).allow_diagonal,
                                old(self).heuristic,
                                k,
                            ))
                    },
                },
            },
    {
        match self.state {
            EngineState::Idle => {
                return Err(SearchError::IllegalStateChange);
            },
            EngineState::Succeeded | EngineState::Failed => {
                return Ok(self.state);
            },
            _ => {},
        }
        let ghost g0 = self.grid;
        let ghost ad0 = self.allow_diagonal;
        let ghost h0 = self.heuristic;
        let ghost cr0 = self.cancel_requested;
        let ghost r0 = self.run.unwrap();
        let ghost mut k: nat = 0;
        let n = self.grid.kinds.len();
        while self.state == EngineState::Initialized || self.state == EngineState::Stepping
            invariant
                self.wf(),
                self.grid == g0,
                n == self.grid.kinds_seq().len(),
                self.allow_diagonal == ad0,
                self.heuristic == h0,
                self.cancel_requested == cr0,
                self.state is Initialized || self.state is Stepping || self.state is Succeeded
                    || self.state is Failed,
                (self.state is Succeeded || self.state is Failed) ==> !cr0,
                self.run matches Some(r) && steps_to(r0, r, g0, ad0, h0, k),
            decreases (if self.state is Initialized || self.state is Stepping {
                ({
                    let r = self.run.unwrap();
                    n + 1 - r.closed_order@.len()
                })
            } else {
                0int
            }),
        {
            if self.cancel_requested {
                self.run = None;
                self.state = EngineState::Idle;
                self.cancel_requested = false;
                return Ok(EngineState::Idle);
            }
            let ghost before = self.run.unwrap().closed_order@.len() as int;
            proof {
                reveal(core_wf);
                lemma_count_closed_le_len(self.run.unwrap().search.records@);
            }
            let ghost prev = self.run.unwrap();
            let st_now = match self.step() {
                Ok(s) => s,
                Err(e) => {
                    return Err(e);
                },
            };
            proof {
                lemma_steps_to_extend(r0, prev, self.run.unwrap(), g0, ad0, h0, k, st_now);
                k = k + 1;
            }
            proof {
                if self.state is Initialized || self.state is Stepping {
                    reveal(core_wf);
                    lemma_count_closed_le_len(self.run.unwrap().search.records@);
                    assert(self.run.unwrap().closed_order@.len() == before + 1);
                }
            }
        }
        Ok(self.state)
    }

    /// The display snapshot: one tag per cell, row-major, combining the
    /// cell's kind with its current search record by the fixed display
    /// priority.
    pub fn snapshot(&self) -> (v: Vec<Node>)
        requires
            self.wf(),
        ensures
            v@.len() == self.grid.kinds_seq().len(),
            forall|i: int|
                0 <= i < v@.len() ==> (#[trigger] v@[i]).state == display_spec(
                    self.grid.kinds_seq()[i],
                    match self.run {
                        Some(r) => r.search.records@[i],
                        None => unvisited_record(),
                    },
                ),
    {
        proof {
            reveal(core_wf);
        }
        let n = self.grid.kinds.len();
        let mut v: Vec<Node> = Vec::new();
        let mut i: usize = 0;
        while i < n
            invariant
                i <= n,
                self.wf(),
                n == self.grid.kinds_seq().len(),
                v@.len() == i,
                forall|k: int|
                    0 <= k < i ==> (#[trigger] v@[k]).state == display_spec(
                        self.grid.kinds_seq()[k],
                        match self.run {
                            Some(r) => r.search.records@[k],
                            None => unvisited_record(),
                        },
                    ),
            decreases n - i,
        {
            proof {
                reveal(core_wf);
            }
            let kind = self.grid.kinds[i];
            let rec = match &self.run {
                Some(r) => r.search.records[i],
                None => SearchRecord {
                    status: Status::Unvisited,
                    g: 0,
                    f: 0,
                    pred: None,
                    on_path: false,
                },
            };
            let tag = display_tag(kind, rec);
            v.push(Node { state: tag });
            i += 1;
        }
        v
    }

    /// The reconstructed path, start to end, as cell indices; empty unless
    /// the run has succeeded.
    pub fn path(&self) -> (v: Vec<usize>)
        requires
            self.wf(),
        ensures
            v@ == match self.run {
                Some(r) => r.path@,
                None => Seq::<usize>::empty(),
            },
    {
        match &self.run {
            Some(r) => {
                let mut v: Vec<usize> = Vec::new();
                let mut i: usize = 0;
                while i < r.path.len()
                    invariant
                        i <= r.path@.len(),
                        v@ == r.path@.take(i as int),
                    decreases r.path@.len() - i,
                {
                    v.push(r.path[i]);
                    proof {
                        assert(v@ =~= r.path@.take(i as int + 1));
                    }
                    i += 1;
                }
                proof {
                    assert(r.path@.take(r.path@.len() as int) =~= r.path@);
                }
                v
            },
            None => Vec::new(),
        }
    }

    /// The cells closed so far, in expansion order.
    pub fn closed_order(&self) -> (v: Vec<usize>)
        requires
            self.wf(),
        ensures
            v@ == match self.run {
                Some(r) => r.closed_order@,
                None => Seq::<usize>::empty(),
            },
    {
        match &self.run {
            Some(r) => {
                let mut v: Vec<usize> = Vec::new();
                let mut i: usize = 0;
                while i < r.closed_order.len()
                    invariant
                        i <= r.closed_order@.len(),
                        v@ == r.closed_order@.take(i as int),
                    decreases r.closed_order@.len() - i,
                {
                    v.push(r.closed_order[i]);
                    proof {
                        assert(v@ =~= r.closed_order@.take(i as int + 1));
                    }
                    i += 1;
                }
                proof {
                    assert(r.closed_order@.take(r.closed_order@.len() as int) =~= r.closed_order@);
                }
                v
            },
            None => Vec::new(),
        }
    }
}


/// The monotonicity law: no step ever touches a closed cell's record — its
/// status, cost, estimate and predecessor all stay exactly as they were,
/// so the cost recorded when a cell closed is the cost it keeps.
pub proof fn lemma_step_keeps_closed_records(
    run0: Run,
    run1: Run,
    grid: GridModel,
    diag: bool,
    heur: Heuristic,
    st: EngineState,
)
    requires
        run_wf(run0, grid, diag, heur),
        step_post(run0, run1, grid, diag, heur, st),
    ensures
        forall|c: int|
            0 <= c < run0.search.records@.len() && (#[trigger] run0.search.records@[c]).status
                is Closed ==> {
                let r1 = run1.search.records@[c];
                let r0 = run0.search.records@[c];
                r1.status is Closed && r1.g == r0.g && r1.f == r0.f && r1.pred == r0.pred
            },
{
    reveal(core_wf);
    let recs0 = run0.search.records@;
    let recs1 = run1.search.records@;
    let fr0 = run0.frontier.items@;
    let cols = grid.spec_cols();
    let rows = grid.spec_rows();
    if fr0.len() > 0 {
        lemma_min_idx(fr0);
        let m = min_idx(fr0);
        let cur = fr0[m].cell as int;
        assert(recs0[cur].status is Open);
        let base = recs0.update(cur, SearchRecord { status: Status::Closed, ..recs0[cur] });
        assert forall|c: int|
            0 <= c < recs0.len() && (#[trigger] recs0[c]).status is Closed implies {
            let r1 = recs1[c];
            let r0 = recs0[c];
            r1.status is Closed && r1.g == r0.g && r1.f == r0.f && r1.pred == r0.pred
        } by {
            assert(c != cur);
            if cur != grid.spec_end().unwrap() as int {
                crate::geom::lemma_cell_of_index(rows, cols, c);
                let rr = row_of(cols, c);
                let cc = col_of(cols, c);
                assert(recs1[cell_index(cols, rr, cc)] == expanded_rec(
                    base,
                    grid.kinds_seq(),
                    cols,
                    heur,
                    diag,
                    cur,
                    recs0[cur].g as int,
                    grid.spec_end().unwrap() as int,
                    rr,
                    cc,
                ));
                assert(base[c] == recs0[c]);
            }
        }
    }
}
/// Expansion is deterministic: two runs that both satisfy `step_post` as
/// expanding successors of the same run hold identical records and closed
/// the same cell, so replayed steps close the same cells in the same
/// order.
pub proof fn lemma_step_expansion_deterministic(
    run0: Run,
    run1a: Run,
    run1b: Run,
    grid: GridModel,
    diag: bool,
    heur: Heuristic,
)
    requires
        grid.wf(),
        run0.search.records@.len() == grid.kinds_seq().len(),
        run0.frontier.items@.len() > 0,
        step_post(run0, run1a, grid, diag, heur, EngineState::Stepping),
        step_post(run0, run1b, grid, diag, heur, EngineState::Stepping),
    ensures
        run1a.search.records@ == run1b.search.records@,
        run1a.closed_order@ == run1b.closed_order@,
{
    let rows = grid.spec_rows();
    let cols = grid.spec_cols();
    let ra = run1a.search.records@;
    let rb = run1b.search.records@;
    assert forall|c: int| 0 <= c < ra.len() implies ra[c] == rb[c] by {
        crate::geom::lemma_cell_of_index(rows, cols, c);
        let rr = row_of(cols, c);
        let cc = col_of(cols, c);
        assert(ra[cell_index(cols, rr, cc)] == rb[cell_index(cols, rr, cc)]);
    }
    assert(ra =~= rb);
}

/// The determinism law: a freshly started run is a function of the grid
/// and the heuristic alone.  Since `reset` keeps the grid, `reset` then
/// `start` on an unchanged grid rebuilds the very same run — records,
/// frontier entry and tickets included — and so replays the same
/// expansions in the same order.
pub proof fn lemma_started_runs_agree(
    r1: Run,
    r2: Run,
    g1: GridModel,
    g2: GridModel,
    heur: Heuristic,
)
    requires
        g1 == g2,
        start_run_post(r1, g1, heur),
        start_run_post(r2, g2, heur),
    ensures
        r1.search.records@ == r2.search.records@,
        r1.frontier.items@ == r2.frontier.items@,
        r1.next_ticket == r2.next_ticket,
        r1.closed_order@ == r2.closed_order@,
        r1.path@ == r2.path@,
{
    assert(r1.search.records@ =~= r2.search.records@);
    assert(r1.frontier.items@ =~= r2.frontier.items@);
    assert(r1.closed_order@ =~= r2.closed_order@);
    assert(r1.path@ =~= r2.path@);
}

} // verus!
