use astar::cost::{heuristic_cost, isqrt, Heuristic};
use astar::engine::{Astar, EngineState};
use astar::errors::SearchError;
use astar::grid::{CellKind, GridModel};
use astar::grid_set::NodeState;
use astar::frontier::{Entry, Frontier};
use astar::search::{SearchRecord, SearchState, Status};

fn engine(rows: usize, cols: usize, diag: bool, h: Heuristic) -> Astar {
    Astar::new(rows, cols, diag, h).unwrap()
}

#[test]
fn open_grid_straight_path() {
    // 5x5, no obstacles, start (0,0), end (4,4), no diagonals, Manhattan:
    // the path has 8 edges, visiting 9 cells including both endpoints.
    let mut a = engine(5, 5, false, Heuristic::Manhattan);
    a.place_start(0, 0).unwrap();
    a.place_end(4, 4).unwrap();
    a.start().unwrap();
    let st = a.run_to_completion().unwrap();
    assert_eq!(st, EngineState::Succeeded);
    let path = a.path();
    assert_eq!(path.len(), 9);
    assert_eq!(path[0], 0);
    assert_eq!(path[path.len() - 1], 24);
}

#[test]
fn open_grid_diagonal_path() {
    // With diagonals and the octile heuristic the corner-to-corner path of
    // a 4x4 grid takes 3 diagonal moves: 4 cells.
    let mut a = engine(4, 4, true, Heuristic::Octile);
    a.place_start(0, 0).unwrap();
    a.place_end(3, 3).unwrap();
    a.start().unwrap();
    assert_eq!(a.run_to_completion().unwrap(), EngineState::Succeeded);
    assert_eq!(a.path().len(), 4);
}

#[test]
fn blocked_column_fails() {
    // 3x3, start (0,0), end (2,2), the whole middle column blocked: no
    // path exists, and exactly the component of the start is closed.
    let mut a = engine(3, 3, false, Heuristic::Manhattan);
    a.place_start(0, 0).unwrap();
    a.place_end(2, 2).unwrap();
    a.toggle_obstacle(0, 1).unwrap();
    a.toggle_obstacle(1, 1).unwrap();
    a.toggle_obstacle(2, 1).unwrap();
    a.start().unwrap();
    let st = a.run_to_completion().unwrap();
    assert_eq!(st, EngineState::Failed);
    assert_eq!(a.path().len(), 0);
    let mut closed = a.closed_order();
    closed.sort();
    // the reachable component of (0,0) is the left column: cells 0, 3, 6
    assert_eq!(closed, vec![0, 3, 6]);
}

#[test]
fn toggle_obstacle_on_start_is_rejected() {
    let mut a = engine(4, 4, false, Heuristic::Manhattan);
    a.place_start(1, 1).unwrap();
    assert_eq!(a.toggle_obstacle(1, 1), Err(SearchError::IllegalStateChange));
    // after the start moves elsewhere, the same cell can become an obstacle
    a.place_start(2, 2).unwrap();
    assert_eq!(a.toggle_obstacle(1, 1), Ok(()));
    assert_eq!(a.grid.kind_of(1, 1), Ok(CellKind::Obstacle));
}

#[test]
fn replay_is_deterministic() {
    // reset() then start() on the unchanged grid expands the same cells in
    // the same order.
    let mut a = engine(6, 6, true, Heuristic::Octile);
    a.place_start(0, 0).unwrap();
    a.place_end(5, 3).unwrap();
    a.toggle_obstacle(2, 2).unwrap();
    a.toggle_obstacle(3, 2).unwrap();
    a.start().unwrap();
    assert_eq!(a.run_to_completion().unwrap(), EngineState::Succeeded);
    let first = a.closed_order();
    let first_path = a.path();
    a.reset();
    a.start().unwrap();
    assert_eq!(a.run_to_completion().unwrap(), EngineState::Succeeded);
    assert_eq!(a.closed_order(), first);
    assert_eq!(a.path(), first_path);
}

#[test]
fn stepwise_matches_run_to_completion() {
    let mut a = engine(4, 4, false, Heuristic::Manhattan);
    a.place_start(0, 0).unwrap();
    a.place_end(3, 0).unwrap();
    a.start().unwrap();
    let mut steps = 0;
    loop {
        let st = a.step().unwrap();
        steps += 1;
        assert!(steps < 100);
        if st == EngineState::Succeeded || st == EngineState::Failed {
            break;
        }
    }
    assert_eq!(a.state(), EngineState::Succeeded);
    assert_eq!(a.path().len(), 4);
    // further steps are no-ops
    assert_eq!(a.step(), Ok(EngineState::Succeeded));
}

#[test]
fn configuration_errors() {
    assert!(matches!(Astar::new(0, 5, false, Heuristic::Manhattan), Err(SearchError::InvalidDimensions)));
    assert!(matches!(Astar::new(5, 0, false, Heuristic::Manhattan), Err(SearchError::InvalidDimensions)));

    let mut a = engine(3, 3, false, Heuristic::Manhattan);
    // no endpoints yet
    assert_eq!(a.start(), Err(SearchError::MissingEndpoints));
    a.place_start(0, 0).unwrap();
    assert_eq!(a.start(), Err(SearchError::MissingEndpoints));
    // out of bounds edits
    assert_eq!(a.place_end(3, 0), Err(SearchError::OutOfBounds));
    assert_eq!(a.toggle_obstacle(0, 7), Err(SearchError::OutOfBounds));
    // one role may not land on the other
    a.place_end(2, 2).unwrap();
    assert_eq!(a.place_start(2, 2), Err(SearchError::IllegalStateChange));
    // stepping without a run
    assert_eq!(a.step(), Err(SearchError::IllegalStateChange));
    // edits are rejected while a run exists
    a.start().unwrap();
    assert_eq!(a.toggle_obstacle(1, 1), Err(SearchError::RunInProgress));
    assert_eq!(a.place_start(1, 1), Err(SearchError::RunInProgress));
    assert_eq!(a.start(), Err(SearchError::RunInProgress));
    a.reset();
    assert_eq!(a.toggle_obstacle(1, 1), Ok(()));
}

#[test]
fn cancellation_returns_to_idle() {
    let mut a = engine(8, 8, false, Heuristic::Manhattan);
    a.place_start(0, 0).unwrap();
    a.place_end(7, 7).unwrap();
    a.start().unwrap();
    a.request_cancel();
    assert_eq!(a.run_to_completion(), Ok(EngineState::Idle));
    assert_eq!(a.state(), EngineState::Idle);
    // the grid survives; a new run can be started at once
    a.start().unwrap();
    assert_eq!(a.run_to_completion(), Ok(EngineState::Succeeded));
}

#[test]
fn moving_a_role_demotes_the_old_holder() {
    let mut a = engine(4, 4, false, Heuristic::Manhattan);
    a.place_start(0, 0).unwrap();
    a.place_start(1, 1).unwrap();
    assert_eq!(a.grid.kind_of(0, 0), Ok(CellKind::Blank));
    assert_eq!(a.grid.kind_of(1, 1), Ok(CellKind::Start));
    a.place_end(2, 2).unwrap();
    a.place_end(3, 3).unwrap();
    assert_eq!(a.grid.kind_of(2, 2), Ok(CellKind::Blank));
    assert_eq!(a.grid.kind_of(3, 3), Ok(CellKind::End));
    assert_eq!(a.grid.start(), Ok((1, 1)));
    assert_eq!(a.grid.end(), Ok((3, 3)));
}

#[test]
fn grid_model_basics() {
    let g = GridModel::new(3, 4).unwrap();
    assert_eq!(g.kind_of(2, 3), Ok(CellKind::Blank));
    assert_eq!(g.kind_of(3, 0), Err(SearchError::OutOfBounds));
    assert_eq!(g.start(), Err(SearchError::NotConfigured));
    assert_eq!(g.end(), Err(SearchError::NotConfigured));
    assert!(matches!(GridModel::new(0, 4), Err(SearchError::InvalidDimensions)));

    let mut g = g;
    g.set_kind(1, 1, CellKind::Start).unwrap();
    g.set_kind(1, 2, CellKind::End).unwrap();
    assert_eq!(g.set_kind(1, 1, CellKind::Obstacle), Err(SearchError::IllegalStateChange));
    g.resize(2, 2).unwrap();
    assert_eq!(g.start(), Err(SearchError::NotConfigured));
    assert_eq!(g.kind_of(1, 1), Ok(CellKind::Blank));
}

#[test]
fn neighbors_come_in_fixed_order() {
    let g = GridModel::new(3, 3).unwrap();
    // interior cell, axis moves only: N, E, S, W
    assert_eq!(g.neighbors(1, 1, false).unwrap(), vec![(0, 1), (1, 2), (2, 1), (1, 0)]);
    // with diagonals: N, E, S, W, NE, SE, SW, NW
    assert_eq!(
        g.neighbors(1, 1, true).unwrap(),
        vec![(0, 1), (1, 2), (2, 1), (1, 0), (0, 2), (2, 2), (2, 0), (0, 0)]
    );
    // corner cell keeps only the in-bounds ones, same order
    assert_eq!(g.neighbors(0, 0, true).unwrap(), vec![(0, 1), (1, 0), (1, 1)]);
    assert_eq!(g.neighbors(5, 5, false), Err(SearchError::OutOfBounds));
}

#[test]
fn heuristic_values() {
    // costs are in tenths of an axis step
    assert_eq!(heuristic_cost(Heuristic::Manhattan, 0, 0, 4, 4), 80);
    assert_eq!(heuristic_cost(Heuristic::Octile, 0, 0, 3, 3), 42);
    assert_eq!(heuristic_cost(Heuristic::Octile, 0, 0, 1, 3), 34);
    // a 3-4-5 triangle is exact for the Euclidean estimate
    assert_eq!(heuristic_cost(Heuristic::Euclidean, 0, 0, 3, 4), 50);
    assert_eq!(isqrt(0), 0);
    assert_eq!(isqrt(99), 9);
    assert_eq!(isqrt(100), 10);
}

#[test]
fn snapshot_shows_roles_search_state_and_path() {
    let mut a = engine(3, 3, false, Heuristic::Manhattan);
    a.place_start(0, 0).unwrap();
    a.place_end(2, 2).unwrap();
    a.toggle_obstacle(0, 1).unwrap();
    let snap = a.snapshot();
    assert_eq!(snap[0].state, NodeState::Start);
    assert_eq!(snap[1].state, NodeState::Obstacle);
    assert_eq!(snap[8].state, NodeState::End);
    assert_eq!(snap[4].state, NodeState::Blank);

    a.start().unwrap();
    assert_eq!(a.run_to_completion().unwrap(), EngineState::Succeeded);
    let snap = a.snapshot();
    // roles stay visible; interior path cells show as Path
    assert_eq!(snap[0].state, NodeState::Start);
    assert_eq!(snap[8].state, NodeState::End);
    let path = a.path();
    for &c in path.iter() {
        if c != 0 && c != 8 {
            assert_eq!(snap[c].state, NodeState::Path);
        }
    }
}

#[test]
fn closed_costs_match_the_true_distance() {
    // On an obstacle-free row, each closed cell records exactly ten times
    // its distance from the start, and never changes afterwards.
    let mut a = engine(1, 6, false, Heuristic::Manhattan);
    a.place_start(0, 0).unwrap();
    a.place_end(0, 5).unwrap();
    a.start().unwrap();
    let mut costs: Vec<Vec<(usize, u64)>> = Vec::new();
    loop {
        let st = a.step().unwrap();
        let run = a.run.as_ref().unwrap();
        let mut now: Vec<(usize, u64)> = Vec::new();
        for (i, r) in run.search.records.iter().enumerate() {
            if r.status == astar::search::Status::Closed {
                now.push((i, r.g));
            }
        }
        costs.push(now);
        if st == EngineState::Succeeded || st == EngineState::Failed {
            break;
        }
    }
    // every snapshot agrees with the final costs on the cells it had closed
    let last = costs.last().unwrap().clone();
    for snap in &costs {
        for pair in snap {
            assert!(last.contains(pair));
        }
    }
    for (i, g) in last {
        assert_eq!(g, 10 * (i as u64));
    }
}

#[test]
fn frontier_orders_by_cost_then_ticket() {
    let mut fr = Frontier::new();
    assert!(matches!(fr.pop_min(), Err(SearchError::Empty)));
    assert!(matches!(fr.peek_min(), Err(SearchError::Empty)));
    fr.push(Entry { cell: 4, f: 30, ticket: 0 });
    fr.push(Entry { cell: 7, f: 20, ticket: 1 });
    fr.push(Entry { cell: 9, f: 20, ticket: 2 });
    assert!(fr.contains(7));
    assert!(!fr.contains(5));
    // smallest f wins; on a tie the earlier ticket wins
    assert_eq!(fr.pop_min().unwrap().cell, 7);
    // re-prioritizing moves a cell ahead
    fr.decrease_key(4, 10).unwrap();
    assert_eq!(fr.pop_min().unwrap().cell, 4);
    assert_eq!(fr.pop_min().unwrap().cell, 9);
    assert!(matches!(fr.pop_min(), Err(SearchError::Empty)));
}

#[test]
fn improving_a_closed_cell_is_reported() {
    // A closed cell that a fresh offer would still improve is the
    // defensive heuristic-inconsistency report, never applied silently.
    let from = SearchRecord { status: Status::Closed, g: 0, f: 0, pred: None, on_path: false };
    let to = SearchRecord { status: Status::Closed, g: 100, f: 120, pred: None, on_path: false };
    let mut s = SearchState { records: vec![from, to] };
    assert_eq!(s.relax(0, 1, 10, 5), Err(SearchError::HeuristicInconsistency));
    // the closed record is left untouched
    assert_eq!(s.records[1].g, 100);
    assert!(matches!(s.records[1].status, Status::Closed));
    // a non-improving offer to a closed cell is a quiet no-op
    assert_eq!(s.relax(0, 1, 200, 5), Ok(false));
}
