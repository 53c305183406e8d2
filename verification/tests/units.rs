use std::cmp::Ordering;

use corridor_maze::cheats::{find_radius_cheats, find_wall_cheats, get_if_cheat, manhattan_dist, Cheat};
use corridor_maze::grid::{Cell, Coord, GridModel, MazeError};
use corridor_maze::order::{argsort, coord_argsort, coord_cmp};
use corridor_maze::path::trace;

fn build_grid(lines: Vec<&str>) -> Result<GridModel, MazeError> {
    let mut cells: Vec<Vec<Cell>> = Vec::new();
    for line in lines {
        let mut row: Vec<Cell> = Vec::new();
        for ch in line.chars() {
            row.push(Cell::from_char(ch));
        }
        cells.push(row);
    }
    GridModel::new(cells)
}

#[test]
fn cell_classification() {
    assert_eq!(Cell::from_char('S'), Cell::Start);
    assert_eq!(Cell::from_char('E'), Cell::End);
    assert_eq!(Cell::from_char('.'), Cell::Open);
    assert_eq!(Cell::from_char('#'), Cell::Wall);
    assert_eq!(Cell::from_char('x'), Cell::Wall);
    assert_eq!(Cell::from_char(' '), Cell::Wall);
}

#[test]
fn cell_symbols_round_trip() {
    for c in [Cell::Start, Cell::End, Cell::Open, Cell::Wall] {
        assert_eq!(Cell::from_char(c.symbol()), c);
    }
}

#[test]
fn grid_rejects_ragged_rows() {
    let r = build_grid(vec!["#####", "#S.E#", "####"]);
    assert!(matches!(r, Err(MazeError::MalformedGrid)));
}

#[test]
fn grid_rejects_missing_marker() {
    let r = build_grid(vec!["#####", "#S..#", "#####"]);
    assert!(matches!(r, Err(MazeError::MalformedGrid)));
}

#[test]
fn grid_rejects_duplicate_start() {
    let r = build_grid(vec!["#####", "#SSE#", "#####"]);
    assert!(matches!(r, Err(MazeError::MalformedGrid)));
}

#[test]
fn grid_rejects_empty() {
    let r = build_grid(vec![]);
    assert!(matches!(r, Err(MazeError::MalformedGrid)));
}

#[test]
fn grid_accepts_minimal_corridor() {
    let g = build_grid(vec!["####", "#SE#", "####"]).unwrap();
    assert_eq!(g.rows(), 3);
    assert_eq!(g.cols(), 4);
    assert_eq!(g.cell(1, 1), Cell::Start);
    assert_eq!(g.cell(1, 2), Cell::End);
    assert_eq!(g.cell(0, 0), Cell::Wall);
}

#[test]
fn grid_finds_first_occurrence_row_major() {
    let g = build_grid(vec!["#####", "#.S.#", "#.E.#", "#####"]).unwrap();
    assert_eq!(g.find_cell(Cell::Open), Some(Coord { row: 1, col: 1 }));
    assert_eq!(g.find_cell(Cell::Start), Some(Coord { row: 1, col: 2 }));
    assert_eq!(g.find_cell(Cell::End), Some(Coord { row: 2, col: 2 }));
    assert_eq!(g.start(), Coord { row: 1, col: 2 });
}

#[test]
fn trace_reports_no_path_when_walled_in() {
    let g = build_grid(vec!["#####", "#S#E#", "#####"]).unwrap();
    assert_eq!(trace(&g, g.start()), Err(MazeError::NoPath));
}

#[test]
fn trace_two_cell_corridor() {
    let g = build_grid(vec!["####", "#SE#", "####"]).unwrap();
    let path = trace(&g, g.start()).unwrap();
    assert_eq!(
        path,
        vec![Coord { row: 1, col: 1 }, Coord { row: 1, col: 2 }]
    );
}

#[test]
fn adjacent_pair_yields_no_cheats() {
    let g = build_grid(vec!["####", "#SE#", "####"]).unwrap();
    let path = trace(&g, g.start()).unwrap();
    assert_eq!(path.len(), 2);
    for radius in 1..6usize {
        assert_eq!(find_radius_cheats(&path, radius, 1).len(), 0);
    }
    for threshold in 0..4usize {
        assert_eq!(find_wall_cheats(&path, threshold), 0);
    }
}

#[test]
fn manhattan_distance_cases() {
    let a = Coord { row: 0, col: 0 };
    let b = Coord { row: 3, col: 4 };
    assert_eq!(manhattan_dist(&a, &b), 7);
    assert_eq!(manhattan_dist(&b, &a), 7);
    assert_eq!(manhattan_dist(&a, &a), 0);
    let c = Coord { row: 9, col: 2 };
    let d = Coord { row: 4, col: 6 };
    assert_eq!(manhattan_dist(&c, &d), 9);
}

fn straight_path(len: usize) -> Vec<Coord> {
    let mut path: Vec<Coord> = Vec::new();
    for k in 0..len {
        path.push(Coord { row: 1, col: 1 + k });
    }
    path
}

#[test]
fn radius_boundary_is_strict() {
    // On a straight corridor every pair at times (i, j) sits at Manhattan
    // distance j - i, so each pair saves exactly zero steps.
    let path = straight_path(11);
    // All 55 pairs lie within radius 10; dropping the radius to 9 excludes
    // exactly the one pair at distance 10.
    assert_eq!(find_radius_cheats(&path, 10, 0).len(), 55);
    assert_eq!(find_radius_cheats(&path, 9, 0).len(), 54);
    assert_eq!(find_radius_cheats(&path, 10, 1).len(), 0);
}

#[test]
fn wall_cheat_needs_off_path_middle_cell() {
    // Three collinear path cells: the middle cell is on the path, so the
    // outer pair is no wall crossing.
    let path = straight_path(3);
    assert_eq!(find_wall_cheats(&path, 0), 0);
}

#[test]
fn wall_cheat_across_u_turn() {
    let path = vec![
        Coord { row: 1, col: 1 },
        Coord { row: 2, col: 1 },
        Coord { row: 2, col: 2 },
        Coord { row: 2, col: 3 },
        Coord { row: 1, col: 3 },
    ];
    // Only the pair (0, 4) crosses a cell off the path; it saves 2 steps.
    assert_eq!(find_wall_cheats(&path, 0), 1);
    assert_eq!(find_wall_cheats(&path, 2), 1);
    assert_eq!(find_wall_cheats(&path, 3), 0);
}

#[test]
fn wall_pair_decision() {
    let a = Coord { row: 4, col: 2 };
    let b = Coord { row: 4, col: 4 };
    assert_eq!(
        get_if_cheat(&a, 3, &b, 9, 0),
        Some(Cheat { from: 3, to: 9 })
    );
    // Times in reverse order still come out ordered.
    assert_eq!(
        get_if_cheat(&a, 9, &b, 3, 0),
        Some(Cheat { from: 3, to: 9 })
    );
    // Saving is the time gap less the two crossing steps.
    assert_eq!(get_if_cheat(&a, 3, &b, 9, 4), Some(Cheat { from: 3, to: 9 }));
    assert_eq!(get_if_cheat(&a, 3, &b, 9, 5), None);
    // Not axis-aligned two apart.
    let c = Coord { row: 5, col: 3 };
    assert_eq!(get_if_cheat(&a, 3, &c, 9, 0), None);
    let d = Coord { row: 4, col: 5 };
    assert_eq!(get_if_cheat(&a, 3, &d, 9, 0), None);
}

#[test]
fn coord_comparison_by_axis() {
    let a = Coord { row: 1, col: 5 };
    let b = Coord { row: 2, col: 3 };
    assert_eq!(coord_cmp(&a, &b, None), Ordering::Less);
    assert_eq!(coord_cmp(&a, &b, Some(0)), Ordering::Less);
    assert_eq!(coord_cmp(&a, &b, Some(1)), Ordering::Greater);
    assert_eq!(coord_cmp(&b, &a, Some(0)), Ordering::Greater);
    assert_eq!(coord_cmp(&a, &a, Some(1)), Ordering::Equal);
    let c = Coord { row: 1, col: 7 };
    assert_eq!(coord_cmp(&a, &c, Some(0)), Ordering::Less);
    assert_eq!(coord_cmp(&c, &a, Some(0)), Ordering::Greater);
}

#[test]
fn coord_argsort_by_each_axis() {
    let v = vec![
        Coord { row: 2, col: 1 },
        Coord { row: 1, col: 5 },
        Coord { row: 1, col: 2 },
        Coord { row: 2, col: 1 },
    ];
    assert_eq!(coord_argsort(&v, &0), vec![2, 1, 0, 3]);
    assert_eq!(coord_argsort(&v, &1), vec![0, 3, 2, 1]);
}

#[test]
fn argsort_orders_indices() {
    let data = [30u32, 10, 20];
    assert_eq!(argsort(&data), vec![1, 2, 0]);
    let dup = [2u8, 1, 1];
    assert_eq!(argsort(&dup), vec![1, 2, 0]);
    let empty: [u8; 0] = [];
    assert_eq!(argsort(&empty), Vec::<usize>::new());
}
