use gridpath::app::{Adjacency, App};
use gridpath::grid::{Block, Grid, PathError};
use gridpath::parse::chop_line;
use gridpath::point::Point;

fn weighted(n: usize) -> Block {
    Block::Weighted { weight: n, on_path: false }
}

fn chop(s: &str) -> Vec<Block> {
    chop_line(&s.as_bytes().to_vec())
}

fn pt(x: usize, y: usize) -> Point {
    Point { x, y }
}

#[test]
fn chop_line_reads_weights_and_blocks() {
    assert_eq!(chop("1 2 -1"), vec![weighted(1), weighted(2), Block::Blocked]);
    assert_eq!(chop("0 10 999"), vec![weighted(0), weighted(10), weighted(999)]);
}

#[test]
fn chop_line_skips_malformed_tokens() {
    assert_eq!(chop("abc 5"), vec![weighted(5)]);
    assert_eq!(chop("12a"), Vec::<Block>::new());
    assert_eq!(chop(""), Vec::<Block>::new());
    assert_eq!(chop("   "), Vec::<Block>::new());
    assert_eq!(chop("1  2"), vec![weighted(1), weighted(2)]);
    assert_eq!(chop("-"), Vec::<Block>::new());
    assert_eq!(chop("+"), Vec::<Block>::new());
}

#[test]
fn chop_line_respects_signed_64_bit_range() {
    assert_eq!(chop("+7"), vec![weighted(7)]);
    assert_eq!(chop("9223372036854775807"), vec![weighted(9223372036854775807)]);
    assert_eq!(chop("9223372036854775808"), Vec::<Block>::new());
    assert_eq!(chop("-9223372036854775808"), vec![Block::Blocked]);
    assert_eq!(chop("-9223372036854775809"), Vec::<Block>::new());
    assert_eq!(chop("-0"), vec![weighted(0)]);
}

#[test]
fn from_rows_refuses_non_square_input() {
    assert!(Grid::from_rows(vec![vec![weighted(1)], vec![weighted(1), weighted(2)]]).is_none());
    assert!(Grid::from_rows(vec![vec![weighted(1), weighted(2)]]).is_none());
}

#[test]
fn from_rows_lays_cells_out_by_row_and_column() {
    let g = Grid::from_rows(vec![
        vec![weighted(1), Block::Blocked],
        vec![weighted(3), weighted(4)],
    ])
    .unwrap();
    assert_eq!(g.side, 2);
    assert_eq!(g.cell_at(pt(0, 0)), Ok(weighted(1)));
    assert_eq!(g.cell_at(pt(0, 1)), Ok(Block::Blocked));
    assert_eq!(g.cell_at(pt(1, 0)), Ok(weighted(3)));
    assert_eq!(g.cell_at(pt(1, 1)), Ok(weighted(4)));
    assert_eq!(g.cell_at(pt(2, 0)), Err(PathError::OutOfBounds));
    assert_eq!(g.cell_at(pt(0, 2)), Err(PathError::OutOfBounds));
}

#[test]
fn grid_queries_report_blockedness_and_weight() {
    let g = Grid::from_rows(vec![
        vec![weighted(7), Block::Blocked],
        vec![weighted(0), weighted(2)],
    ])
    .unwrap();
    assert!(!g.is_blocked(pt(0, 0)));
    assert!(g.is_blocked(pt(0, 1)));
    assert_eq!(g.get_weight(pt(0, 0)), 7);
    assert_eq!(g.get_weight(pt(0, 1)), 0, "a blocked cell reports weight 0");
    assert_eq!(g.get_weight(pt(1, 1)), 2);
}

#[test]
fn set_on_path_flags_only_weighted_cells() {
    let mut g = Grid::from_rows(vec![
        vec![weighted(7), Block::Blocked],
        vec![weighted(0), weighted(2)],
    ])
    .unwrap();
    g.set_on_path(pt(0, 0), true);
    assert_eq!(g.cell_at(pt(0, 0)), Ok(Block::Weighted { weight: 7, on_path: true }));
    g.set_on_path(pt(0, 1), true);
    assert_eq!(g.cell_at(pt(0, 1)), Ok(Block::Blocked), "blocked cells take no flag");
    g.set_on_path(pt(9, 9), true);
    g.set_on_path(pt(0, 0), false);
    assert_eq!(g.cell_at(pt(0, 0)), Ok(weighted(7)));
}

#[test]
fn new_app_clears_stale_flags() {
    let g = Grid::from_rows(vec![
        vec![Block::Weighted { weight: 1, on_path: true }, weighted(2)],
        vec![weighted(3), Block::Weighted { weight: 4, on_path: true }],
    ])
    .unwrap();
    let app = App::new(g, Adjacency::FourDirectional);
    assert_eq!(app.grid.cell_at(pt(0, 0)), Ok(weighted(1)));
    assert_eq!(app.grid.cell_at(pt(1, 1)), Ok(weighted(4)));
    assert!(app.path.is_empty());
    assert_eq!(app.start, None);
    assert_eq!(app.end, None);
}

#[test]
fn four_directional_neighbors_keep_their_order() {
    let rows = vec![
        vec![weighted(1), weighted(1), weighted(1)],
        vec![weighted(1), weighted(1), weighted(1)],
        vec![weighted(1), weighted(1), weighted(1)],
    ];
    let app = App::new(Grid::from_rows(rows).unwrap(), Adjacency::FourDirectional);
    assert_eq!(app.get_neighbors(pt(1, 1)), vec![pt(1, 2), pt(2, 1), pt(0, 1), pt(1, 0)]);
    // The asymmetric rule: at the top-left corner only down and right remain.
    assert_eq!(app.get_neighbors(pt(0, 0)), vec![pt(0, 1), pt(1, 0)]);
    // At the far corner the in-bounds candidates are up and left.
    assert_eq!(app.get_neighbors(pt(2, 2)), vec![pt(1, 2), pt(2, 1)]);
}

#[test]
fn eight_directional_neighbors_exclude_blocked_and_out_of_bounds() {
    let rows = vec![
        vec![weighted(1), weighted(1), weighted(1)],
        vec![weighted(1), weighted(1), Block::Blocked],
        vec![weighted(1), weighted(1), weighted(1)],
    ];
    let app = App::new(Grid::from_rows(rows).unwrap(), Adjacency::EightDirectional);
    assert_eq!(
        app.get_diagonal_neighbors(pt(1, 1)),
        vec![pt(0, 0), pt(0, 1), pt(0, 2), pt(1, 0), pt(2, 0), pt(2, 1), pt(2, 2)]
    );
    assert_eq!(app.get_diagonal_neighbors(pt(0, 0)), vec![pt(0, 1), pt(1, 0), pt(1, 1)]);
}

#[test]
fn is_pathable_point_checks_bounds_and_blockedness() {
    let rows = vec![vec![weighted(1), Block::Blocked], vec![weighted(1), weighted(1)]];
    let app = App::new(Grid::from_rows(rows).unwrap(), Adjacency::FourDirectional);
    assert!(app.is_pathable_point(pt(0, 0)));
    assert!(!app.is_pathable_point(pt(0, 1)));
    assert!(!app.is_pathable_point(pt(2, 0)));
    assert!(!app.is_pathable_point(pt(0, 2)));
}

#[test]
fn points_convert_from_pairs() {
    let q = Point::from((3, 4));
    assert_eq!(q, pt(3, 4));
    let wq = gridpath::point::WeightedPoint::from((q, 9));
    assert_eq!(wq.point, q);
    assert_eq!(wq.weight, 9);
}

#[test]
fn clear_and_enter_path_move_the_overlay() {
    let rows = vec![vec![weighted(1), weighted(1)], vec![weighted(1), weighted(1)]];
    let mut app = App::new(Grid::from_rows(rows).unwrap(), Adjacency::FourDirectional);
    app.start = Some(pt(0, 0));
    app.end = Some(pt(1, 1));
    assert_eq!(app.calc_dijkstras_path(), Ok(()));
    assert!(matches!(app.grid.cell_at(pt(1, 1)), Ok(Block::Weighted { on_path: true, .. })));
    app.clear_path();
    assert!(app.path.is_empty());
    for x in 0..2 {
        for y in 0..2 {
            assert!(matches!(
                app.grid.cell_at(pt(x, y)),
                Ok(Block::Weighted { on_path: false, .. })
            ));
        }
    }
}

#[test]
fn map_text_feeds_a_search_end_to_end() {
    let lines = ["1 1 1 1", "1 -1 -1 9", "1 -1 1 1", "1 1 1 x 1"];
    let mut rows = Vec::new();
    for line in lines.iter() {
        rows.push(chop_line(&line.as_bytes().to_vec()));
    }
    let grid = Grid::from_rows(rows).expect("the malformed token is skipped, rows stay square");
    let mut app = App::new(grid, Adjacency::FourDirectional);
    app.start = Some(pt(0, 0));
    app.end = Some(pt(2, 3));
    assert_eq!(app.calc_dijkstras_path(), Ok(()));
    assert_eq!(app.path.first(), Some(&pt(2, 3)));
    assert_eq!(app.path.last(), Some(&pt(0, 0)));
    for q in &app.path {
        assert_ne!(app.grid.cell_at(*q), Ok(Block::Blocked));
    }
}
