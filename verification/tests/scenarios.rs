use corridor_maze::cheats::{find_radius_cheats, find_wall_cheats, manhattan_dist, Cheat};
use corridor_maze::grid::{Cell, Coord, GridModel};
use corridor_maze::path::trace;

fn sample_grid() -> GridModel {
    let lines = vec![
        "###############",
        "#...#...#.....#",
        "#.#.#.#.#.###.#",
        "#S#...#.#.#...#",
        "#######.#.#.###",
        "#######.#.#...#",
        "#######.#.###.#",
        "###..E#...#...#",
        "###.#######.###",
        "#...###...#...#",
        "#.#####.#.###.#",
        "#.#...#.#.#...#",
        "#.#.#.#.#.#.###",
        "#...#...#...###",
        "###############",
    ];
    let mut cells: Vec<Vec<Cell>> = Vec::new();
    for line in lines {
        let mut row: Vec<Cell> = Vec::new();
        for ch in line.chars() {
            row.push(Cell::from_char(ch));
        }
        cells.push(row);
    }
    match GridModel::new(cells) {
        Ok(g) => g,
        Err(_) => panic!("the sample grid is well-formed"),
    }
}

fn sample_path() -> Vec<Coord> {
    let g = sample_grid();
    let start = g.start();
    trace(&g, start).unwrap()
}

#[test]
fn sample_path_is_valid() {
    let g = sample_grid();
    let start = g.start();
    assert_eq!(start, Coord { row: 3, col: 1 });
    let path = trace(&g, start).unwrap();
    assert_eq!(path.len(), 85);
    assert_eq!(path[0], Coord { row: 3, col: 1 });
    assert_eq!(path[path.len() - 1], Coord { row: 7, col: 5 });
    for w in path.windows(2) {
        assert_eq!(manhattan_dist(&w[0], &w[1]), 1);
    }
    for i in 0..path.len() {
        for j in (i + 1)..path.len() {
            assert_ne!(path[i], path[j]);
        }
    }
}

#[test]
fn sample_wall_cheats_all() {
    let path = sample_path();
    assert_eq!(find_wall_cheats(&path, 0), 44);
}

#[test]
fn sample_wall_cheats_thresholds() {
    let path = sample_path();
    assert_eq!(find_wall_cheats(&path, 20), 5);
    assert_eq!(find_wall_cheats(&path, 64), 1);
    assert_eq!(find_wall_cheats(&path, 65), 0);
}

#[test]
fn sample_radius_cheats_count() {
    let path = sample_path();
    assert_eq!(find_radius_cheats(&path, 20, 50).len(), 285);
}

#[test]
fn sample_radius_cheats_savings_buckets() {
    let path = sample_path();
    let cheats = find_radius_cheats(&path, 20, 50);
    let expected = vec![
        (50usize, 32usize),
        (52, 31),
        (54, 29),
        (56, 39),
        (58, 25),
        (60, 23),
        (62, 20),
        (64, 19),
        (66, 12),
        (68, 14),
        (70, 12),
        (72, 22),
        (74, 4),
        (76, 3),
    ];
    for (saving, want) in expected {
        let got = cheats
            .iter()
            .filter(|c| {
                let d = manhattan_dist(&path[c.from], &path[c.to]);
                c.to - c.from - d == saving
            })
            .count();
        assert_eq!(got, want, "bucket for saving {}", saving);
    }
}

#[test]
fn sample_saving_threshold_is_monotonic() {
    let path = sample_path();
    let lower = find_radius_cheats(&path, 20, 50).len();
    let higher = find_radius_cheats(&path, 20, 60).len();
    assert_eq!(higher, 129);
    assert!(higher <= lower);
}

#[test]
fn sample_radius_is_monotonic() {
    let path = sample_path();
    let narrow = find_radius_cheats(&path, 10, 50).len();
    let wide = find_radius_cheats(&path, 20, 50).len();
    assert_eq!(narrow, 182);
    assert!(narrow <= wide);
}

#[test]
fn sample_finders_are_deterministic() {
    let path = sample_path();
    assert_eq!(
        find_radius_cheats(&path, 20, 50),
        find_radius_cheats(&path, 20, 50)
    );
    assert_eq!(find_wall_cheats(&path, 0), find_wall_cheats(&path, 0));
    let g = sample_grid();
    assert_eq!(trace(&g, g.start()).unwrap(), trace(&g, g.start()).unwrap());
}

#[test]
fn sample_radius_cheats_are_ordered() {
    let path = sample_path();
    let cheats = find_radius_cheats(&path, 20, 50);
    assert_eq!(cheats[0], Cheat { from: 0, to: 65 });
    for w in cheats.windows(2) {
        assert!(
            w[0].from < w[1].from || (w[0].from == w[1].from && w[0].to < w[1].to),
            "cheats are listed by from ascending, then to ascending"
        );
    }
    for c in cheats.iter() {
        assert!(c.from < c.to);
    }
}
