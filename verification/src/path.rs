//! Tracing the corridor of a maze.
//!
//! The maze is assumed to be a single non-branching corridor, so a greedy
//! walk suffices: from the current cell, take the first unvisited open or
//! end neighbour in the fixed priority order east, west, north, south.
//! Should more than one neighbour be viable after all, the first one in
//! that order is taken, deterministically, rather than reporting an error.
//! A step budget of `rows * cols` guards against malformed input; when it
//! runs out, or the walk gets stuck, the result is [`MazeError::NoPath`].
//!
//! Each index into the traced path is also a time: the number of steps
//! needed to reach that position from the start.

use vstd::prelude::*;

use crate::grid::{grid_wf, lemma_wf_dims, manhattan, Cell, Coord, GridModel, MazeError};

verus! {

/// The common row length of a grid, or 0 for a grid without rows.
pub open spec fn grid_cols(g: Seq<Seq<Cell>>) -> nat {
    if g.len() == 0 {
        0
    } else {
        g[0].len()
    }
}

/// The step budget of the walk: one step per grid cell.
pub open spec fn step_budget(g: Seq<Seq<Cell>>) -> nat {
    g.len() * grid_cols(g)
}

/// Whether a position lies strictly inside the grid border. The border of a
/// well-formed maze consists of walls, so the walk never needs to leave the
/// interior, and all four neighbours of an interior position are in bounds.
pub open spec fn interior(g: Seq<Seq<Cell>>, p: Coord) -> bool {
    &&& 1 <= p.row
    &&& p.row + 1 < g.len()
    &&& 1 <= p.col
    &&& p.col + 1 < grid_cols(g)
}

/// Whether the walk may move to `p`: not yet visited, and open or the end.
pub open spec fn candidate(g: Seq<Seq<Cell>>, path: Seq<Coord>, p: Coord) -> bool {
    &&& !path.contains(p)
    &&& (g[p.row as int][p.col as int] == Cell::Open || g[p.row as int][p.col as int] == Cell::End)
}

/// The position the walk moves to next: the first viable neighbour of the
/// last path position, in the order east, west, north, south; `None` when
/// the walk is stuck (including when it stands on the border).
pub open spec fn next_step(g: Seq<Seq<Cell>>, path: Seq<Coord>) -> Option<Coord> {
    if path.len() == 0 {
        None
    } else {
        let pos = path.last();
        if !interior(g, pos) {
            None
        } else {
            let east = Coord { row: pos.row, col: (pos.col + 1) as usize };
            let west = Coord { row: pos.row, col: (pos.col - 1) as usize };
            let north = Coord { row: (pos.row - 1) as usize, col: pos.col };
            let south = Coord { row: (pos.row + 1) as usize, col: pos.col };
            if candidate(g, path, east) {
                Some(east)
            } else if candidate(g, path, west) {
                Some(west)
            } else if candidate(g, path, north) {
                Some(north)
            } else if candidate(g, path, south) {
                Some(south)
            } else {
                None
            }
        }
    }
}

/// The whole greedy walk, as a function of the grid, the path walked so
/// far, and the remaining step budget. [`trace`] returns exactly this.
pub open spec fn walk(g: Seq<Seq<Cell>>, path: Seq<Coord>, fuel: nat) -> Result<
    Seq<Coord>,
    MazeError,
>
    decreases fuel,
{
    match next_step(g, path) {
        None => Err(MazeError::NoPath),
        Some(p) => {
            if g[p.row as int][p.col as int] == Cell::End {
                Ok(path.push(p))
            } else if fuel == 0 {
                Err(MazeError::NoPath)
            } else {
                walk(g, path.push(p), (fuel - 1) as nat)
            }
        },
    }
}

/// What a successfully traced path looks like: it starts at `start`, ends
/// on the end cell, moves by exactly one grid step at a time, and never
/// visits a position twice.
pub open spec fn path_ok(g: Seq<Seq<Cell>>, start: Coord, p: Seq<Coord>) -> bool {
    &&& p.len() >= 2
    &&& p[0] == start
    &&& g[p.last().row as int][p.last().col as int] == Cell::End
    &&& forall|i: int| 0 <= i < p.len() - 1 ==> manhattan(#[trigger] p[i], p[i + 1]) == 1
    &&& forall|i: int, j: int| 0 <= i < j < p.len() ==> p[i] != p[j]
}

/// Whether `p` occurs in `path`.
pub fn contains_coord(path: &Vec<Coord>, p: Coord) -> (r: bool)
    ensures
        r == path@.contains(p),
{
    let mut i: usize = 0;
    while i < path.len()
        invariant
            0 <= i <= path@.len(),
            forall|k: int| 0 <= k < i ==> path@[k] != p,
        decreases path@.len() - i,
    {
        if path[i] == p {
            assert(path@[i as int] == p);
            return true;
        }
        i = i + 1;
    }
    false
}

/// Whether the walk may move from the current path to `p`.
fn candidate_exec(grid: &GridModel, path: &Vec<Coord>, p: Coord) -> (r: bool)
    requires
        p.row < grid@.len(),
        p.col < grid@[p.row as int].len(),
    ensures
        r == candidate(grid@, path@, p),
{
    if contains_coord(path, p) {
        return false;
    }
    let c = grid.cell(p.row, p.col);
    c == Cell::Open || c == Cell::End
}

/// One step of the greedy walk.
fn next_step_exec(grid: &GridModel, path: &Vec<Coord>) -> (r: Option<Coord>)
    requires
        grid_wf(grid@),
        path@.len() >= 1,
    ensures
        r == next_step(grid@, path@),
{
    proof {
        lemma_wf_dims(grid@);
    }
    let pos = path[path.len() - 1];
    let rows = grid.rows();
    let cols = grid.cols();
    if !(1 <= pos.row && pos.row < rows - 1 && 1 <= pos.col && pos.col < cols - 1) {
        return None;
    }
    let east = Coord { row: pos.row, col: pos.col + 1 };
    if candidate_exec(grid, path, east) {
        return Some(east);
    }
    let west = Coord { row: pos.row, col: pos.col - 1 };
    if candidate_exec(grid, path, west) {
        return Some(west);
    }
    let north = Coord { row: pos.row - 1, col: pos.col };
    if candidate_exec(grid, path, north) {
        return Some(north);
    }
    let south = Coord { row: pos.row + 1, col: pos.col };
    if candidate_exec(grid, path, south) {
        return Some(south);
    }
    None
}

/// Trace the corridor of `grid` from `start` to the end cell.
///
/// The result is exactly what the greedy walk [`walk`] yields on the same
/// input, so repeated invocations return the same path; and a returned path
/// satisfies [`path_ok`]: it begins at `start`, ends on the end cell, moves
/// one grid step at a time, and repeats no position.
pub fn trace(grid: &GridModel, start: Coord) -> (r: Result<Vec<Coord>, MazeError>)
    requires
        grid_wf(grid@),
        step_budget(grid@) <= usize::MAX,
    ensures
        ({
            let w = walk(grid@, seq![start], step_budget(grid@));
            match r {
                Ok(p) => w == Ok::<Seq<Coord>, MazeError>(p@),
                Err(e) => w == Err::<Seq<Coord>, MazeError>(e),
            }
        }),
        r matches Ok(p) ==> path_ok(grid@, start, p@),
{
    proof {
        lemma_wf_dims(grid@);
    }
    let rows = grid.rows();
    let cols = grid.cols();
    let mut budget: usize = rows * cols;
    let ghost fuel0: nat = step_budget(grid@);
    let mut path: Vec<Coord> = Vec::new();
    path.push(start);
    loop
        invariant
            grid_wf(grid@),
            step_budget(grid@) == fuel0,
            grid@.len() <= usize::MAX,
            grid_cols(grid@) <= usize::MAX,
            path@.len() >= 1,
            path@[0] == start,
            forall|i: int|
                0 <= i < path@.len() - 1 ==> manhattan(#[trigger] path@[i], path@[i + 1]) == 1,
            forall|i: int, j: int| 0 <= i < j < path@.len() ==> path@[i] != path@[j],
            walk(grid@, path@, budget as nat) == walk(grid@, seq![start], fuel0),
        decreases budget,
    {
        let next = next_step_exec(grid, &path);
        match next {
            None => {
                return Err(MazeError::NoPath);
            },
            Some(p) => {
                proof {
                    lemma_wf_dims(grid@);
                    assert(interior(grid@, path@.last()));
                    assert(grid@[p.row as int].len() == grid@[0].len());
                }
                let c = grid.cell(p.row, p.col);
                if c == Cell::End {
                    proof {
                        assert(manhattan(path@.last(), p) == 1);
                        assert(!path@.contains(p));
                    }
                    path.push(p);
                    return Ok(path);
                } else if budget == 0 {
                    return Err(MazeError::NoPath);
                } else {
                    proof {
                        assert(manhattan(path@.last(), p) == 1);
                        assert(!path@.contains(p));
                        assert(walk(grid@, path@, budget as nat) == walk(
                            grid@,
                            path@.push(p),
                            (budget - 1) as nat,
                        ));
                    }
                    path.push(p);
                    budget = budget - 1;
                }
            },
        }
    }
}

} // verus!
