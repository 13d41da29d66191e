use gridpath::app::{Adjacency, App};
use gridpath::grid::{Block, Grid, PathError};
use gridpath::point::Point;
use gridpath::search::MouseButton;

fn w(n: usize) -> Block {
    Block::Weighted { weight: n, on_path: false }
}

fn b() -> Block {
    Block::Blocked
}

fn p(x: usize, y: usize) -> Point {
    Point { x, y }
}

fn grid_of(rows: Vec<Vec<Block>>) -> Grid {
    Grid::from_rows(rows).expect("square grid")
}

fn open_3x3() -> Grid {
    grid_of(vec![vec![w(1), w(1), w(1)], vec![w(1), w(1), w(1)], vec![w(1), w(1), w(1)]])
}

fn flagged_cells(app: &App) -> Vec<Point> {
    let mut out = Vec::new();
    for x in 0..app.grid.side {
        for y in 0..app.grid.side {
            if let Ok(Block::Weighted { on_path: true, .. }) = app.grid.cell_at(p(x, y)) {
                out.push(p(x, y));
            }
        }
    }
    out
}

#[test]
fn dijkstra_open_grid_cost_four() {
    // 3x3 grid, all weights 1, no blocked cells: the minimum cost from
    // (0,0) to (2,2) is 4, over a path of 5 points including both ends.
    let mut app = App::new(open_3x3(), Adjacency::FourDirectional);
    app.start = Some(p(0, 0));
    app.end = Some(p(2, 2));
    assert_eq!(app.calc_dijkstras_path(), Ok(()));
    assert_eq!(app.path.len(), 5);
    assert_eq!(app.path[0], p(2, 2));
    assert_eq!(app.path[4], p(0, 0));
    let mut cost = 0;
    for i in 0..app.path.len() - 1 {
        let q = app.path[i];
        match app.grid.cell_at(q) {
            Ok(Block::Weighted { weight, .. }) => cost += weight,
            other => panic!("unexpected cell {:?}", other),
        }
    }
    assert_eq!(cost, 4);
    assert_eq!(app.path, vec![p(2, 2), p(1, 2), p(0, 2), p(0, 1), p(0, 0)]);
}

#[test]
fn bfs_routes_around_blocked_center() {
    // 3x3 grid with (1,1) blocked, eight-directional BFS: the path from
    // (0,0) to (2,2) routes around the center in 3 edges.
    let rows = vec![vec![w(1), w(1), w(1)], vec![w(1), b(), w(1)], vec![w(1), w(1), w(1)]];
    let mut app = App::new(grid_of(rows), Adjacency::EightDirectional);
    app.start = Some(p(0, 0));
    app.end = Some(p(2, 2));
    assert_eq!(app.calc_breadth_first_path(), Ok(()));
    assert_eq!(app.path.len(), 4, "3 edges means 4 points");
    assert_eq!(app.path[0], p(2, 2));
    assert_eq!(app.path[3], p(0, 0));
    for q in &app.path {
        assert_ne!(app.grid.cell_at(*q), Ok(Block::Blocked));
    }
}

#[test]
fn identical_start_and_end_give_single_point_path() {
    let mut app = App::new(open_3x3(), Adjacency::FourDirectional);
    app.start = Some(p(1, 1));
    app.end = Some(p(1, 1));
    assert_eq!(app.calc_dijkstras_path(), Ok(()));
    assert_eq!(app.path, vec![p(1, 1)]);
    let mut bfs_app = App::new(open_3x3(), Adjacency::EightDirectional);
    bfs_app.start = Some(p(1, 1));
    bfs_app.end = Some(p(1, 1));
    assert_eq!(bfs_app.calc_breadth_first_path(), Ok(()));
    assert_eq!(bfs_app.path, vec![p(1, 1)]);
}

#[test]
fn enclosed_end_is_unreachable_and_leaves_overlay_empty() {
    // (2,2) is fully enclosed: every neighbor, diagonals included, is blocked.
    let rows = vec![vec![w(1), w(1), w(1)], vec![w(1), b(), b()], vec![w(1), b(), w(1)]];
    let mut app = App::new(grid_of(rows.clone()), Adjacency::EightDirectional);
    app.start = Some(p(0, 0));
    app.end = Some(p(2, 2));
    assert_eq!(app.calc_breadth_first_path(), Err(PathError::Unreachable));
    assert!(app.path.is_empty());
    assert!(flagged_cells(&app).is_empty());
    let mut dij = App::new(grid_of(rows), Adjacency::FourDirectional);
    dij.start = Some(p(0, 0));
    dij.end = Some(p(2, 2));
    assert_eq!(dij.calc_dijkstras_path(), Err(PathError::Unreachable));
    assert!(dij.path.is_empty());
    assert!(flagged_cells(&dij).is_empty());
}

#[test]
fn redesignating_start_clears_old_overlay_even_on_failure() {
    // A successful search leaves an overlay; re-designating the start onto a
    // blocked cell fails the new search, and the old overlay is fully gone.
    let rows = vec![vec![w(1), w(1), w(1)], vec![w(1), b(), w(1)], vec![w(1), w(1), w(1)]];
    let mut app = App::new(grid_of(rows), Adjacency::FourDirectional);
    app.start = Some(p(0, 0));
    app.end = Some(p(2, 2));
    assert_eq!(app.calc_dijkstras_path(), Ok(()));
    assert!(!flagged_cells(&app).is_empty());
    assert_eq!(app.click(MouseButton::Left, p(1, 1)), Err(PathError::Unreachable));
    assert_eq!(app.start, Some(p(1, 1)));
    assert!(app.path.is_empty());
    assert!(flagged_cells(&app).is_empty());
}

#[test]
fn search_is_idempotent_for_unchanged_inputs() {
    let rows = vec![vec![w(1), w(3), w(1)], vec![w(2), b(), w(1)], vec![w(1), w(5), w(1)]];
    let mut app = App::new(grid_of(rows.clone()), Adjacency::FourDirectional);
    app.start = Some(p(0, 0));
    app.end = Some(p(2, 2));
    assert_eq!(app.calc_dijkstras_path(), Ok(()));
    let first = app.path.clone();
    assert_eq!(app.calc_dijkstras_path(), Ok(()));
    assert_eq!(app.path, first);
    let mut bfs_app = App::new(grid_of(rows), Adjacency::EightDirectional);
    bfs_app.start = Some(p(0, 0));
    bfs_app.end = Some(p(2, 2));
    assert_eq!(bfs_app.calc_breadth_first_path(), Ok(()));
    let bfs_first = bfs_app.path.clone();
    assert_eq!(bfs_app.calc_breadth_first_path(), Ok(()));
    assert_eq!(bfs_app.path, bfs_first);
}

#[test]
fn blocked_cells_never_on_path() {
    let rows = vec![
        vec![w(1), b(), w(1), w(1)],
        vec![w(1), b(), w(1), w(1)],
        vec![w(1), w(1), w(9), b()],
        vec![b(), w(1), w(1), w(1)],
    ];
    let mut app = App::new(grid_of(rows), Adjacency::FourDirectional);
    app.start = Some(p(0, 0));
    app.end = Some(p(3, 3));
    assert_eq!(app.calc_dijkstras_path(), Ok(()));
    for q in &app.path {
        assert_ne!(app.grid.cell_at(*q), Ok(Block::Blocked));
    }
}

#[test]
fn overlay_is_exactly_the_recorded_path() {
    let mut app = App::new(open_3x3(), Adjacency::FourDirectional);
    app.start = Some(p(0, 0));
    app.end = Some(p(2, 2));
    assert_eq!(app.calc_dijkstras_path(), Ok(()));
    let mut flagged = flagged_cells(&app);
    let mut on_path = app.path.clone();
    flagged.sort_by_key(|q| (q.x, q.y));
    on_path.sort_by_key(|q| (q.x, q.y));
    assert_eq!(flagged, on_path);
}

#[test]
fn unset_endpoint_is_unreachable() {
    let mut app = App::new(open_3x3(), Adjacency::FourDirectional);
    app.start = Some(p(0, 0));
    assert_eq!(app.calc_dijkstras_path(), Err(PathError::Unreachable));
    assert!(app.path.is_empty());
    app.start = None;
    app.end = Some(p(2, 2));
    assert_eq!(app.calc_breadth_first_path(), Err(PathError::Unreachable));
}

#[test]
fn out_of_bounds_endpoint_fails_fast() {
    let mut app = App::new(open_3x3(), Adjacency::FourDirectional);
    app.start = Some(p(5, 0));
    app.end = Some(p(2, 2));
    assert_eq!(app.calc_dijkstras_path(), Err(PathError::OutOfBounds));
    assert!(app.path.is_empty());
    app.start = Some(p(0, 0));
    app.end = Some(p(0, 3));
    assert_eq!(app.calc_breadth_first_path(), Err(PathError::OutOfBounds));
}

#[test]
fn left_click_on_end_cell_is_refused() {
    let mut app = App::new(open_3x3(), Adjacency::FourDirectional);
    app.end = Some(p(2, 2));
    assert_eq!(app.click(MouseButton::Left, p(2, 2)), Ok(()));
    assert_eq!(app.start, None);
    assert!(app.path.is_empty());
}

#[test]
fn right_click_designates_end_and_searches() {
    let mut app = App::new(open_3x3(), Adjacency::FourDirectional);
    assert_eq!(app.click(MouseButton::Left, p(0, 0)), Err(PathError::Unreachable));
    assert_eq!(app.click(MouseButton::Right, p(2, 2)), Ok(()));
    assert_eq!(app.end, Some(p(2, 2)));
    assert_eq!(app.path.len(), 5);
    assert_eq!(app.click(MouseButton::Right, p(0, 0)), Ok(()));
    assert_eq!(app.end, Some(p(2, 2)), "right click on the start cell is refused");
    assert_eq!(app.click(MouseButton::Other, p(1, 1)), Ok(()));
    assert_eq!(app.start, Some(p(0, 0)));
}

#[test]
fn dijkstra_takes_the_cheap_detour() {
    // The two-edge route to (0,2) passes a cell of weight 100; the
    // four-edge detour through the second row costs 4 and must win.
    let rows = vec![vec![w(1), w(100), w(1)], vec![w(1), w(1), w(1)], vec![w(1), w(1), w(1)]];
    let mut app = App::new(grid_of(rows), Adjacency::FourDirectional);
    app.start = Some(p(0, 0));
    app.end = Some(p(0, 2));
    assert_eq!(app.calc_dijkstras_path(), Ok(()));
    assert_eq!(app.path, vec![p(0, 2), p(1, 2), p(1, 1), p(1, 0), p(0, 0)]);
    let mut cost = 0;
    for i in 0..app.path.len() - 1 {
        match app.grid.cell_at(app.path[i]) {
            Ok(Block::Weighted { weight, .. }) => cost += weight,
            other => panic!("unexpected cell {:?}", other),
        }
    }
    assert_eq!(cost, 4);
}
