//! The immutable grid a maze lives on.
//!
//! A grid is a rectangle of [`Cell`]s with exactly one [`Cell::Start`] and
//! exactly one [`Cell::End`]; every other traversable cell is [`Cell::Open`].
//! [`GridModel::new`] checks those conditions once and the grid is never
//! mutated afterwards.

use vstd::prelude::*;

verus! {

/// One cell of a maze grid.
#[derive(Clone, Copy, PartialEq, Eq, Structural, Debug)]
pub enum Cell {
    /// An impassable cell; the border of a well-formed maze consists of walls.
    Wall,
    /// A traversable corridor cell.
    Open,
    /// The unique cell the path begins at.
    Start,
    /// The unique cell the path ends at.
    End,
}

/// A grid position, as a (row, column) pair of non-negative integers.
#[derive(Clone, Copy, PartialEq, Eq, Structural, Debug)]
pub struct Coord {
    pub row: usize,
    pub col: usize,
}

/// The Manhattan distance between two positions: the number of axis-aligned
/// unit steps needed to move from one to the other.
pub open spec fn manhattan(a: Coord, b: Coord) -> int {
    (if a.row >= b.row {
        a.row - b.row
    } else {
        b.row - a.row
    }) + (if a.col >= b.col {
        a.col - b.col
    } else {
        b.col - a.col
    })
}

/// Why a maze could not be built or solved.
#[derive(Clone, Copy, PartialEq, Eq, Structural, Debug)]
pub enum MazeError {
    /// The rows do not all have the same length, or the grid does not hold
    /// exactly one start and exactly one end marker.
    MalformedGrid,
    /// The walk from the start exhausted its step budget, or got stuck,
    /// without reaching the end.
    NoPath,
}

/// The cell a drawing character stands for: `S` is start, `E` is end,
/// `.` is open, and anything else (in particular `#`) is a wall.
pub open spec fn cell_of_char(c: char) -> Cell {
    if c == 'S' {
        Cell::Start
    } else if c == 'E' {
        Cell::End
    } else if c == '.' {
        Cell::Open
    } else {
        Cell::Wall
    }
}

/// The drawing character of a cell; inverse of [`cell_of_char`] on
/// recognized characters.
pub open spec fn char_of_cell(c: Cell) -> char {
    match c {
        Cell::Start => 'S',
        Cell::End => 'E',
        Cell::Open => '.',
        Cell::Wall => '#',
    }
}

impl Cell {
    /// Classify one character of a grid drawing; an unrecognized character
    /// counts as a wall rather than being rejected.
    pub fn from_char(c: char) -> (r: Cell)
        ensures
            r == cell_of_char(c),
    {
        match c {
            'S' => Cell::Start,
            'E' => Cell::End,
            '.' => Cell::Open,
            _ => Cell::Wall,
        }
    }

    /// The drawing character of this cell.
    pub fn symbol(&self) -> (r: char)
        ensures
            r == char_of_cell(*self),
    {
        match self {
            Cell::Start => 'S',
            Cell::End => 'E',
            Cell::Open => '.',
            Cell::Wall => '#',
        }
    }
}

/// How often `target` occurs in one row.
pub open spec fn count_in_row(row: Seq<Cell>, target: Cell) -> nat
    decreases row.len(),
{
    if row.len() == 0 {
        0
    } else {
        count_in_row(row.drop_last(), target) + if row.last() == target {
            1nat
        } else {
            0nat
        }
    }
}

/// How often `target` occurs in a whole grid.
pub open spec fn count_in_grid(g: Seq<Seq<Cell>>, target: Cell) -> nat
    decreases g.len(),
{
    if g.len() == 0 {
        0
    } else {
        count_in_grid(g.drop_last(), target) + count_in_row(g.last(), target)
    }
}

/// Every row has the same length as the first one.
pub open spec fn rectangular(g: Seq<Seq<Cell>>) -> bool {
    forall|i: int| 0 <= i < g.len() ==> (#[trigger] g[i].len()) == g[0].len()
}

/// A well-formed maze grid: rectangular, with exactly one start and exactly
/// one end cell.
pub open spec fn grid_wf(g: Seq<Seq<Cell>>) -> bool {
    &&& rectangular(g)
    &&& count_in_grid(g, Cell::Start) == 1
    &&& count_in_grid(g, Cell::End) == 1
}

/// The rows of a vector of rows, as a sequence of sequences.
pub open spec fn grid_view(cells: Seq<Vec<Cell>>) -> Seq<Seq<Cell>> {
    cells.map_values(|row: Vec<Cell>| row@)
}

/// `n` capped at 2: all the grid checks need to know about a count is
/// whether it is zero, one, or more than one.
spec fn capped(n: nat) -> nat {
    if n >= 2 {
        2
    } else {
        n
    }
}

/// A row count grows by the cell at `j` when the prefix is extended by one.
proof fn lemma_count_in_row_step(row: Seq<Cell>, target: Cell, j: int)
    requires
        0 <= j < row.len(),
    ensures
        count_in_row(row.take(j + 1), target) == count_in_row(row.take(j), target) + if row[j]
            == target {
            1nat
        } else {
            0nat
        },
{
    assert(row.take(j + 1).drop_last() =~= row.take(j));
    assert(row.take(j + 1).last() == row[j]);
}

/// A grid count grows by the count of row `i` when the prefix is extended.
proof fn lemma_count_in_grid_step(g: Seq<Seq<Cell>>, target: Cell, i: int)
    requires
        0 <= i < g.len(),
    ensures
        count_in_grid(g.take(i + 1), target) == count_in_grid(g.take(i), target) + count_in_row(
            g[i],
            target,
        ),
{
    assert(g.take(i + 1).drop_last() =~= g.take(i));
    assert(g.take(i + 1).last() == g[i]);
}

/// A row's count is positive exactly when the row holds the target somewhere.
pub proof fn lemma_count_in_row_pos(row: Seq<Cell>, target: Cell)
    ensures
        count_in_row(row, target) > 0 <==> exists|j: int| 0 <= j < row.len() && row[j] == target,
    decreases row.len(),
{
    if row.len() > 0 {
        lemma_count_in_row_pos(row.drop_last(), target);
        if count_in_row(row, target) > 0 {
            if row.last() == target {
                assert(row[row.len() - 1] == target);
            } else {
                let j = choose|j: int|
                    0 <= j < row.drop_last().len() && row.drop_last()[j] == target;
                assert(row[j] == target);
            }
        }
        if exists|j: int| 0 <= j < row.len() && row[j] == target {
            let j = choose|j: int| 0 <= j < row.len() && row[j] == target;
            if j < row.len() - 1 {
                assert(row.drop_last()[j] == target);
            }
        }
    }
}

/// A grid's count is positive exactly when some cell holds the target.
pub proof fn lemma_count_in_grid_pos(g: Seq<Seq<Cell>>, target: Cell)
    ensures
        count_in_grid(g, target) > 0 <==> exists|i: int, j: int|
            0 <= i < g.len() && 0 <= j < g[i].len() && g[i][j] == target,
    decreases g.len(),
{
    if g.len() > 0 {
        lemma_count_in_grid_pos(g.drop_last(), target);
        lemma_count_in_row_pos(g.last(), target);
        if count_in_grid(g, target) > 0 {
            if count_in_row(g.last(), target) > 0 {
                let j = choose|j: int| 0 <= j < g.last().len() && g.last()[j] == target;
                assert(g[g.len() - 1][j] == target);
            } else {
                let (i, j): (int, int) = choose|i: int, j: int|
                    0 <= i < g.drop_last().len() && 0 <= j < g.drop_last()[i].len()
                        && g.drop_last()[i][j] == target;
                assert(g[i][j] == target);
            }
        }
        if exists|i: int, j: int| 0 <= i < g.len() && 0 <= j < g[i].len() && g[i][j] == target {
            let (i, j): (int, int) = choose|i: int, j: int|
                0 <= i < g.len() && 0 <= j < g[i].len() && g[i][j] == target;
            if i < g.len() - 1 {
                assert(g.drop_last()[i][j] == target);
            } else {
                assert(g.last()[j] == target);
            }
        }
    }
}

/// A well-formed grid has at least one row, and (being rectangular) all its
/// rows share one positive length.
pub proof fn lemma_wf_dims(g: Seq<Seq<Cell>>)
    requires
        grid_wf(g),
    ensures
        g.len() > 0,
        g[0].len() > 0,
{
    lemma_count_in_grid_pos(g, Cell::Start);
    let (i, j): (int, int) = choose|i: int, j: int|
        0 <= i < g.len() && 0 <= j < g[i].len() && g[i][j] == Cell::Start;
    assert(g[i].len() == g[0].len());
}

/// An immutable maze grid, constructed once and never changed.
///
/// Its mathematical view is the sequence of its rows; every value of this
/// type that [`GridModel::new`] hands out satisfies [`grid_wf`].
pub struct GridModel {
    cells: Vec<Vec<Cell>>,
}

impl View for GridModel {
    type V = Seq<Seq<Cell>>;

    closed spec fn view(&self) -> Seq<Seq<Cell>> {
        grid_view(self.cells@)
    }
}

/// How often `target` occurs in one row, counted no further than 2.
fn count_in_row_capped(row: &Vec<Cell>, target: Cell) -> (c: usize)
    ensures
        c == capped(count_in_row(row@, target)),
{
    let mut c: usize = 0;
    let mut j: usize = 0;
    while j < row.len()
        invariant
            0 <= j <= row@.len(),
            c == capped(count_in_row(row@.take(j as int), target)),
        decreases row@.len() - j,
    {
        proof {
            lemma_count_in_row_step(row@, target, j as int);
        }
        if row[j] == target && c < 2 {
            c = c + 1;
        }
        j = j + 1;
    }
    proof {
        assert(row@.take(row@.len() as int) =~= row@);
    }
    c
}

impl GridModel {
    /// Build a grid from its rows, rejecting one that is not rectangular or
    /// does not hold exactly one start and one end cell.
    pub fn new(cells: Vec<Vec<Cell>>) -> (r: Result<GridModel, MazeError>)
        ensures
            grid_wf(grid_view(cells@)) ==> (r matches Ok(g) && g@ == grid_view(cells@)),
            !grid_wf(grid_view(cells@)) ==> r == Err::<GridModel, MazeError>(
                MazeError::MalformedGrid,
            ),
    {
        let ghost gv = grid_view(cells@);
        let n = cells.len();
        if n == 0 {
            return Err(MazeError::MalformedGrid);
        }
        let width = cells[0].len();

        let mut i: usize = 1;
        while i < n
            invariant
                1 <= i <= n,
                n == cells@.len(),
                gv == grid_view(cells@),
                width == gv[0].len(),
                forall|k: int| 0 <= k < i ==> (#[trigger] gv[k].len()) == gv[0].len(),
            decreases n - i,
        {
            if cells[i].len() != width {
                assert(gv[i as int].len() == cells@[i as int]@.len());
                assert(!rectangular(gv));
                return Err(MazeError::MalformedGrid);
            }
            i = i + 1;
        }
        assert(rectangular(gv));

        let mut starts: usize = 0;
        let mut ends: usize = 0;
        let mut k: usize = 0;
        while k < n
            invariant
                0 <= k <= n,
                n == cells@.len(),
                gv == grid_view(cells@),
                starts == capped(count_in_grid(gv.take(k as int), Cell::Start)),
                ends == capped(count_in_grid(gv.take(k as int), Cell::End)),
            decreases n - k,
        {
            let rs = count_in_row_capped(&cells[k], Cell::Start);
            let re = count_in_row_capped(&cells[k], Cell::End);
            proof {
                lemma_count_in_grid_step(gv, Cell::Start, k as int);
                lemma_count_in_grid_step(gv, Cell::End, k as int);
                assert(gv[k as int] == cells@[k as int]@);
            }
            starts = if starts + rs >= 2 {
                2
            } else {
                starts + rs
            };
            ends = if ends + re >= 2 {
                2
            } else {
                ends + re
            };
            k = k + 1;
        }
        proof {
            assert(gv.take(gv.len() as int) =~= gv);
        }

        if starts == 1 && ends == 1 {
            Ok(GridModel { cells })
        } else {
            Err(MazeError::MalformedGrid)
        }
    }

    /// The number of rows.
    pub fn rows(&self) -> (r: usize)
        ensures
            r == self@.len(),
    {
        self.cells.len()
    }

    /// The common length of the rows.
    pub fn cols(&self) -> (r: usize)
        requires
            self@.len() > 0,
        ensures
            r == self@[0].len(),
    {
        self.cells[0].len()
    }

    /// The cell at a position known to be in bounds.
    pub fn cell(&self, row: usize, col: usize) -> (r: Cell)
        requires
            row < self@.len(),
            col < self@[row as int].len(),
        ensures
            r == self@[row as int][col as int],
    {
        self.cells[row][col]
    }

    /// The first position, in row-major order, whose cell equals `target`,
    /// or `None` when no cell does.
    pub fn find_cell(&self, target: Cell) -> (r: Option<Coord>)
        ensures
            match r {
                Some(c) => {
                    &&& c.row < self@.len()
                    &&& c.col < self@[c.row as int].len()
                    &&& self@[c.row as int][c.col as int] == target
                    &&& forall|i: int, j: int|
                        0 <= i < c.row && 0 <= j < self@[i].len() ==> self@[i][j] != target
                    &&& forall|j: int| 0 <= j < c.col ==> self@[c.row as int][j] != target
                },
                None => forall|i: int, j: int|
                    0 <= i < self@.len() && 0 <= j < self@[i].len() ==> self@[i][j] != target,
            },
    {
        let mut i: usize = 0;
        while i < self.cells.len()
            invariant
                0 <= i <= self@.len(),
                self@.len() == self.cells@.len(),
                forall|a: int, b: int|
                    0 <= a < i && 0 <= b < self@[a].len() ==> self@[a][b] != target,
            decreases self@.len() - i,
        {
            let row_len = self.cells[i].len();
            let mut j: usize = 0;
            while j < row_len
                invariant
                    0 <= j <= row_len,
                    i < self@.len(),
                    self@.len() == self.cells@.len(),
                    row_len == self@[i as int].len(),
                    forall|a: int, b: int|
                        0 <= a < i && 0 <= b < self@[a].len() ==> self@[a][b] != target,
                    forall|b: int| 0 <= b < j ==> self@[i as int][b] != target,
                decreases row_len - j,
            {
                if self.cells[i][j] == target {
                    return Some(Coord { row: i, col: j });
                }
                j = j + 1;
            }
            i = i + 1;
        }
        None
    }

    /// The position of the unique start cell of a well-formed grid.
    pub fn start(&self) -> (c: Coord)
        requires
            grid_wf(self@),
        ensures
            c.row < self@.len(),
            c.col < self@[c.row as int].len(),
            self@[c.row as int][c.col as int] == Cell::Start,
    {
        match self.find_cell(Cell::Start) {
            Some(c) => c,
            None => {
                proof {
                    lemma_count_in_grid_pos(self@, Cell::Start);
                }
                vstd::pervasive::unreached()
            },
        }
    }
}

} // verus!
