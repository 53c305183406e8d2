//! Counting shortcuts ("cheats") over a traced path.
//!
//! A cheat is an ordered pair of path times `(from, to)` with `from < to`:
//! leave the path at `path[from]`, cross the grid directly, and rejoin it
//! at `path[to]`. Its saving is `(to - from) - d`, where `d` is the
//! Manhattan distance between the two positions: the path steps avoided,
//! net of the steps spent on the crossing.
//!
//! Two finders are provided. [`find_wall_cheats`] counts the fixed-length
//! cheats that cross exactly one wall cell, axis-aligned at distance 2.
//! [`find_radius_cheats`] generalizes to any pair within a Manhattan-radius
//! budget. Both enumerate pairs in time order (`from` ascending, then `to`
//! ascending), and both return exactly the value of a spec-level function
//! of their inputs, so repeated invocations agree.

use vstd::prelude::*;

use crate::grid::{manhattan, Coord};
use crate::path::contains_coord;

verus! {

/// A shortcut between two path times, `from < to`.
#[derive(Clone, Copy, PartialEq, Eq, Structural, Debug)]
pub struct Cheat {
    pub from: usize,
    pub to: usize,
}

/// The Manhattan distance between two positions.
pub fn manhattan_dist(a: &Coord, b: &Coord) -> (d: usize)
    requires
        manhattan(*a, *b) <= usize::MAX,
    ensures
        d == manhattan(*a, *b),
{
    let dr = if a.row >= b.row {
        a.row - b.row
    } else {
        b.row - a.row
    };
    let dc = if a.col >= b.col {
        a.col - b.col
    } else {
        b.col - a.col
    };
    dr + dc
}

// ---------------------------------------------------------------------
// The bounded-radius variant.
// ---------------------------------------------------------------------

/// Whether the pair of path times `(f, t)` is a valid bounded-radius cheat:
/// in range and in time order, within the radius, and saving enough.
pub open spec fn radius_cheat_ok(
    path: Seq<Coord>,
    radius: int,
    min_saving: int,
    f: int,
    t: int,
) -> bool {
    &&& 0 <= f < t < path.len()
    &&& manhattan(path[f], path[t]) <= radius
    &&& t - f - manhattan(path[f], path[t]) >= min_saving
}

/// The cheats leaving from time `f`, arriving at times `t0`, `t0 + 1`, ...,
/// in ascending order of arrival time.
pub open spec fn radius_cheats_row(
    path: Seq<Coord>,
    radius: int,
    min_saving: int,
    f: int,
    t0: int,
) -> Seq<Cheat>
    decreases path.len() - t0,
{
    if !(0 <= t0 < path.len()) {
        Seq::empty()
    } else {
        let rest = radius_cheats_row(path, radius, min_saving, f, t0 + 1);
        if radius_cheat_ok(path, radius, min_saving, f, t0) {
            seq![Cheat { from: f as usize, to: t0 as usize }] + rest
        } else {
            rest
        }
    }
}

/// The cheats leaving from times `f0`, `f0 + 1`, ..., in ascending order of
/// departure time, then of arrival time.
pub open spec fn radius_cheats_from(
    path: Seq<Coord>,
    radius: int,
    min_saving: int,
    f0: int,
) -> Seq<Cheat>
    decreases path.len() - f0,
{
    if !(0 <= f0 < path.len()) {
        Seq::empty()
    } else {
        radius_cheats_row(path, radius, min_saving, f0, f0 + 1) + radius_cheats_from(
            path,
            radius,
            min_saving,
            f0 + 1,
        )
    }
}

/// All bounded-radius cheats of a path, ordered by `from` ascending, then
/// `to` ascending.
pub open spec fn radius_cheats(path: Seq<Coord>, radius: int, min_saving: int) -> Seq<Cheat> {
    radius_cheats_from(path, radius, min_saving, 0)
}

/// Enumerate every cheat whose endpoints are at most `radius` apart in
/// Manhattan distance and whose saving is at least `minimum_saving`.
///
/// The result is exactly [`radius_cheats`] on the same input: each pair of
/// times `(f, t)` with `f < t` appears once if and only if it satisfies
/// [`radius_cheat_ok`], in ascending order of `from`, then of `to`.
pub fn find_radius_cheats(path: &Vec<Coord>, radius: usize, minimum_saving: usize) -> (cheats: Vec<
    Cheat,
>)
    ensures
        cheats@ == radius_cheats(path@, radius as int, minimum_saving as int),
{
    let ghost all = radius_cheats(path@, radius as int, minimum_saving as int);
    let n = path.len();
    let mut cheats: Vec<Cheat> = Vec::new();
    let mut f: usize = 0;
    while f < n
        invariant
            n == path@.len(),
            f <= n,
            cheats@ + radius_cheats_from(
                path@,
                radius as int,
                minimum_saving as int,
                f as int,
            ) == all,
        decreases n - f,
    {
        let mut t: usize = f + 1;
        while t < n
            invariant
                n == path@.len(),
                f < n,
                f + 1 <= t <= n,
                cheats@ + radius_cheats_row(
                    path@,
                    radius as int,
                    minimum_saving as int,
                    f as int,
                    t as int,
                ) + radius_cheats_from(
                    path@,
                    radius as int,
                    minimum_saving as int,
                    f as int + 1,
                ) == all,
            decreases n - t,
        {
            let ghost row = radius_cheats_row(
                path@,
                radius as int,
                minimum_saving as int,
                f as int,
                t as int,
            );
            let ghost row_rest = radius_cheats_row(
                path@,
                radius as int,
                minimum_saving as int,
                f as int,
                t as int + 1,
            );
            let ghost rest = radius_cheats_from(
                path@,
                radius as int,
                minimum_saving as int,
                f as int + 1,
            );
            let a = path[f];
            let b = path[t];
            let dr = if a.row >= b.row {
                a.row - b.row
            } else {
                b.row - a.row
            };
            let dc = if a.col >= b.col {
                a.col - b.col
            } else {
                b.col - a.col
            };
            let dt = t - f;
            let hit = dr <= radius && dc <= radius - dr && dt >= dr && dt - dr >= dc && dt - dr
                - dc >= minimum_saving;
            proof {
                assert(hit == radius_cheat_ok(
                    path@,
                    radius as int,
                    minimum_saving as int,
                    f as int,
                    t as int,
                ));
            }
            if hit {
                let c = Cheat { from: f, to: t };
                proof {
                    assert(row == seq![c] + row_rest);
                    assert(cheats@.push(c) =~= cheats@ + seq![c]);
                    assert(cheats@.push(c) + row_rest =~= cheats@ + row);
                }
                cheats.push(c);
            }
            t = t + 1;
        }
        proof {
            assert(radius_cheats_row(
                path@,
                radius as int,
                minimum_saving as int,
                f as int,
                n as int,
            ) =~= Seq::<Cheat>::empty());
            assert(cheats@ + Seq::<Cheat>::empty() =~= cheats@);
        }
        f = f + 1;
    }
    proof {
        assert(radius_cheats_from(path@, radius as int, minimum_saving as int, n as int)
            =~= Seq::<Cheat>::empty());
        assert(cheats@ + Seq::<Cheat>::empty() =~= cheats@);
    }
    cheats
}

// ---------------------------------------------------------------------
// The fixed-length, wall-crossing variant.
// ---------------------------------------------------------------------

/// Whether two positions lie on one axis line exactly two steps apart, so
/// that exactly one cell separates them.
pub open spec fn aligned_two_apart(a: Coord, b: Coord) -> bool {
    ||| a.row == b.row && (a.col - b.col == 2 || b.col - a.col == 2)
    ||| a.col == b.col && (a.row - b.row == 2 || b.row - a.row == 2)
}

/// The cell in the middle of two axis-aligned positions two steps apart.
pub open spec fn wall_midpoint(a: Coord, b: Coord) -> Coord {
    Coord { row: ((a.row + b.row) / 2) as usize, col: ((a.col + b.col) / 2) as usize }
}

/// Whether the positions `a` (at path time `ta`) and `b` (at time `tb`)
/// would form a wall-crossing cheat, geometry and saving only: aligned two
/// steps apart, and saving at least `threshold` steps, where the saving is
/// the time gap less the two steps spent crossing.
pub open spec fn wall_pair_ok(a: Coord, ta: int, b: Coord, tb: int, threshold: int) -> bool {
    &&& aligned_two_apart(a, b)
    &&& (if ta >= tb {
        ta - tb
    } else {
        tb - ta
    }) - 2 >= threshold
}

/// Whether the pair of path times `(f, t)` is a valid wall-crossing cheat:
/// in range and in time order, aligned two steps apart, separated by a cell
/// that is not on the path (in a single-corridor maze, a wall), and saving
/// at least `threshold`.
pub open spec fn wall_cheat_ok(path: Seq<Coord>, threshold: int, f: int, t: int) -> bool {
    &&& 0 <= f < t < path.len()
    &&& wall_pair_ok(path[f], f, path[t], t, threshold)
    &&& !path.contains(wall_midpoint(path[f], path[t]))
}

/// The wall-crossing cheats leaving from time `f`, arriving at times `t0`,
/// `t0 + 1`, ..., in ascending order of arrival time.
pub open spec fn wall_cheats_row(path: Seq<Coord>, threshold: int, f: int, t0: int) -> Seq<Cheat>
    decreases path.len() - t0,
{
    if !(0 <= t0 < path.len()) {
        Seq::empty()
    } else {
        let rest = wall_cheats_row(path, threshold, f, t0 + 1);
        if wall_cheat_ok(path, threshold, f, t0) {
            seq![Cheat { from: f as usize, to: t0 as usize }] + rest
        } else {
            rest
        }
    }
}

/// The wall-crossing cheats leaving from times `f0`, `f0 + 1`, ...
pub open spec fn wall_cheats_from(path: Seq<Coord>, threshold: int, f0: int) -> Seq<Cheat>
    decreases path.len() - f0,
{
    if !(0 <= f0 < path.len()) {
        Seq::empty()
    } else {
        wall_cheats_row(path, threshold, f0, f0 + 1) + wall_cheats_from(path, threshold, f0 + 1)
    }
}

/// All wall-crossing cheats of a path, ordered by `from` ascending, then
/// `to` ascending.
pub open spec fn wall_cheats(path: Seq<Coord>, threshold: int) -> Seq<Cheat> {
    wall_cheats_from(path, threshold, 0)
}

/// Decide whether the positions `a` (at path time `ta`) and `b` (at time
/// `tb`) pass the geometric and saving checks of a wall-crossing cheat,
/// and if so return the pair as a cheat in time order.
pub fn get_if_cheat(a: &Coord, ta: usize, b: &Coord, tb: usize, threshold: usize) -> (r: Option<
    Cheat,
>)
    ensures
        r == (if wall_pair_ok(*a, ta as int, *b, tb as int, threshold as int) {
            Some(
                Cheat {
                    from: if ta <= tb {
                        ta
                    } else {
                        tb
                    },
                    to: if ta <= tb {
                        tb
                    } else {
                        ta
                    },
                },
            )
        } else {
            None::<Cheat>
        }),
{
    let aligned = (a.row == b.row && (a.col >= 2 && a.col - 2 == b.col || b.col >= 2 && b.col - 2
        == a.col)) || (a.col == b.col && (a.row >= 2 && a.row - 2 == b.row || b.row >= 2 && b.row
        - 2 == a.row));
    let dt = if ta >= tb {
        ta - tb
    } else {
        tb - ta
    };
    if aligned && dt >= 2 && dt - 2 >= threshold {
        Some(
            Cheat {
                from: if ta <= tb {
                    ta
                } else {
                    tb
                },
                to: if ta <= tb {
                    tb
                } else {
                    ta
                },
            },
        )
    } else {
        None
    }
}

/// The cell between two aligned positions two steps apart.
fn wall_midpoint_exec(a: &Coord, b: &Coord) -> (m: Coord)
    requires
        aligned_two_apart(*a, *b),
    ensures
        m == wall_midpoint(*a, *b),
{
    if a.row == b.row {
        let lo = if a.col <= b.col {
            a.col
        } else {
            b.col
        };
        Coord { row: a.row, col: lo + 1 }
    } else {
        let lo = if a.row <= b.row {
            a.row
        } else {
            b.row
        };
        Coord { row: lo + 1, col: a.col }
    }
}

/// Count the cheats that cross exactly one wall cell: pairs of path times
/// whose positions are axis-aligned two steps apart, whose middle cell is
/// not on the path, and whose saving is at least `threshold`.
///
/// The count is exactly the length of [`wall_cheats`] on the same input:
/// each pair of times `(f, t)` with `f < t` is counted once if and only if
/// it satisfies [`wall_cheat_ok`].
pub fn find_wall_cheats(path: &Vec<Coord>, threshold: usize) -> (count: usize)
    ensures
        count == wall_cheats(path@, threshold as int).len(),
{
    let ghost all = wall_cheats(path@, threshold as int);
    let n = path.len();
    let mut cheats: Vec<Cheat> = Vec::new();
    let mut f: usize = 0;
    while f < n
        invariant
            n == path@.len(),
            f <= n,
            cheats@ + wall_cheats_from(path@, threshold as int, f as int) == all,
        decreases n - f,
    {
        let mut t: usize = f + 1;
        while t < n
            invariant
                n == path@.len(),
                f < n,
                f + 1 <= t <= n,
                cheats@ + wall_cheats_row(path@, threshold as int, f as int, t as int)
                    + wall_cheats_from(path@, threshold as int, f as int + 1) == all,
            decreases n - t,
        {
            let ghost row = wall_cheats_row(path@, threshold as int, f as int, t as int);
            let ghost row_rest = wall_cheats_row(path@, threshold as int, f as int, t as int + 1);
            let a = path[f];
            let b = path[t];
            match get_if_cheat(&a, f, &b, t, threshold) {
                Some(c) => {
                    let mid = wall_midpoint_exec(&a, &b);
                    if !contains_coord(path, mid) {
                        proof {
                            assert(wall_cheat_ok(path@, threshold as int, f as int, t as int));
                            assert(c == Cheat { from: f, to: t });
                            assert(row == seq![c] + row_rest);
                            assert(cheats@.push(c) =~= cheats@ + seq![c]);
                            assert(cheats@.push(c) + row_rest =~= cheats@ + row);
                        }
                        cheats.push(c);
                    } else {
                        proof {
                            assert(!wall_cheat_ok(path@, threshold as int, f as int, t as int));
                        }
                    }
                },
                None => {
                    proof {
                        assert(!wall_cheat_ok(path@, threshold as int, f as int, t as int));
                    }
                },
            }
            t = t + 1;
        }
        proof {
            assert(wall_cheats_row(path@, threshold as int, f as int, n as int)
                =~= Seq::<Cheat>::empty());
            assert(cheats@ + Seq::<Cheat>::empty() =~= cheats@);
        }
        f = f + 1;
    }
    proof {
        assert(wall_cheats_from(path@, threshold as int, n as int) =~= Seq::<Cheat>::empty());
        assert(cheats@ + Seq::<Cheat>::empty() =~= cheats@);
    }
    cheats.len()
}

// ---------------------------------------------------------------------
// Laws of the two finders.
// ---------------------------------------------------------------------

proof fn lemma_radius_row_saving_mono(
    path: Seq<Coord>,
    radius: int,
    m1: int,
    m2: int,
    f: int,
    t0: int,
)
    requires
        m1 <= m2,
    ensures
        radius_cheats_row(path, radius, m2, f, t0).len() <= radius_cheats_row(
            path,
            radius,
            m1,
            f,
            t0,
        ).len(),
    decreases path.len() - t0,
{
    if 0 <= t0 < path.len() {
        lemma_radius_row_saving_mono(path, radius, m1, m2, f, t0 + 1);
    }
}

proof fn lemma_radius_from_saving_mono(
    path: Seq<Coord>,
    radius: int,
    m1: int,
    m2: int,
    f0: int,
)
    requires
        m1 <= m2,
    ensures
        radius_cheats_from(path, radius, m2, f0).len() <= radius_cheats_from(
            path,
            radius,
            m1,
            f0,
        ).len(),
    decreases path.len() - f0,
{
    if 0 <= f0 < path.len() {
        lemma_radius_row_saving_mono(path, radius, m1, m2, f0, f0 + 1);
        lemma_radius_from_saving_mono(path, radius, m1, m2, f0 + 1);
    }
}

/// Raising the minimum saving never increases the number of bounded-radius
/// cheats: for one path and radius, the threshold is a monotonic filter.
pub proof fn lemma_saving_monotonic(path: Seq<Coord>, radius: int, m1: int, m2: int)
    requires
        m1 <= m2,
    ensures
        radius_cheats(path, radius, m2).len() <= radius_cheats(path, radius, m1).len(),
{
    lemma_radius_from_saving_mono(path, radius, m1, m2, 0);
}

proof fn lemma_radius_row_radius_mono(
    path: Seq<Coord>,
    r1: int,
    r2: int,
    min_saving: int,
    f: int,
    t0: int,
)
    requires
        r1 <= r2,
    ensures
        radius_cheats_row(path, r1, min_saving, f, t0).len() <= radius_cheats_row(
            path,
            r2,
            min_saving,
            f,
            t0,
        ).len(),
    decreases path.len() - t0,
{
    if 0 <= t0 < path.len() {
        lemma_radius_row_radius_mono(path, r1, r2, min_saving, f, t0 + 1);
    }
}

proof fn lemma_radius_from_radius_mono(
    path: Seq<Coord>,
    r1: int,
    r2: int,
    min_saving: int,
    f0: int,
)
    requires
        r1 <= r2,
    ensures
        radius_cheats_from(path, r1, min_saving, f0).len() <= radius_cheats_from(
            path,
            r2,
            min_saving,
            f0,
        ).len(),
    decreases path.len() - f0,
{
    if 0 <= f0 < path.len() {
        lemma_radius_row_radius_mono(path, r1, r2, min_saving, f0, f0 + 1);
        lemma_radius_from_radius_mono(path, r1, r2, min_saving, f0 + 1);
    }
}

/// Raising the radius never decreases the number of bounded-radius cheats:
/// for one path and minimum saving, a wider budget admits every cheat the
/// narrower one did.
pub proof fn lemma_radius_monotonic(path: Seq<Coord>, r1: int, r2: int, min_saving: int)
    requires
        r1 <= r2,
    ensures
        radius_cheats(path, r1, min_saving).len() <= radius_cheats(path, r2, min_saving).len(),
{
    lemma_radius_from_radius_mono(path, r1, r2, min_saving, 0);
}

proof fn lemma_wall_row_threshold_mono(path: Seq<Coord>, t1: int, t2: int, f: int, t0: int)
    requires
        t1 <= t2,
    ensures
        wall_cheats_row(path, t2, f, t0).len() <= wall_cheats_row(path, t1, f, t0).len(),
    decreases path.len() - t0,
{
    if 0 <= t0 < path.len() {
        lemma_wall_row_threshold_mono(path, t1, t2, f, t0 + 1);
    }
}

proof fn lemma_wall_from_threshold_mono(path: Seq<Coord>, t1: int, t2: int, f0: int)
    requires
        t1 <= t2,
    ensures
        wall_cheats_from(path, t2, f0).len() <= wall_cheats_from(path, t1, f0).len(),
    decreases path.len() - f0,
{
    if 0 <= f0 < path.len() {
        lemma_wall_row_threshold_mono(path, t1, t2, f0, f0 + 1);
        lemma_wall_from_threshold_mono(path, t1, t2, f0 + 1);
    }
}

/// Raising the saving threshold never increases the number of wall-crossing
/// cheats either.
pub proof fn lemma_wall_threshold_monotonic(path: Seq<Coord>, t1: int, t2: int)
    requires
        t1 <= t2,
    ensures
        wall_cheats(path, t2).len() <= wall_cheats(path, t1).len(),
{
    lemma_wall_from_threshold_mono(path, t1, t2, 0);
}

/// The lexicographic order on cheats: by departure time, then arrival time.
pub open spec fn cheat_lex_less(c1: Cheat, c2: Cheat) -> bool {
    c1.from < c2.from || (c1.from == c2.from && c1.to < c2.to)
}

proof fn lemma_radius_row_sorted(path: Seq<Coord>, radius: int, min_saving: int, f: int, t0: int)
    requires
        t0 >= 0,
        path.len() <= usize::MAX,
    ensures
        forall|i: int|
            0 <= i < radius_cheats_row(path, radius, min_saving, f, t0).len() ==> (
            #[trigger] radius_cheats_row(path, radius, min_saving, f, t0)[i]).from == f && t0 <= radius_cheats_row(
                path,
                radius,
                min_saving,
                f,
                t0,
            )[i].to,
        forall|i: int, j: int|
            0 <= i < j < radius_cheats_row(path, radius, min_saving, f, t0).len()
                ==> (#[trigger] radius_cheats_row(path, radius, min_saving, f, t0)[i]).to < (
            #[trigger] radius_cheats_row(path, radius, min_saving, f, t0)[j]).to,
    decreases path.len() - t0,
{
    if t0 < path.len() {
        lemma_radius_row_sorted(path, radius, min_saving, f, t0 + 1);
        let row = radius_cheats_row(path, radius, min_saving, f, t0);
        let rest = radius_cheats_row(path, radius, min_saving, f, t0 + 1);
        if radius_cheat_ok(path, radius, min_saving, f, t0) {
            let head = Cheat { from: f as usize, to: t0 as usize };
            assert(row == seq![head] + rest);
            assert(row[0] == head);
            assert(forall|i: int| 1 <= i < row.len() ==> row[i] == rest[i - 1]);
        }
    }
}

proof fn lemma_radius_from_sorted(path: Seq<Coord>, radius: int, min_saving: int, f0: int)
    requires
        f0 >= 0,
        path.len() <= usize::MAX,
    ensures
        forall|i: int|
            0 <= i < radius_cheats_from(path, radius, min_saving, f0).len() ==> f0 <= (
            #[trigger] radius_cheats_from(path, radius, min_saving, f0)[i]).from,
        forall|i: int, j: int|
            0 <= i < j < radius_cheats_from(path, radius, min_saving, f0).len() ==> cheat_lex_less(
                #[trigger] radius_cheats_from(path, radius, min_saving, f0)[i],
                #[trigger] radius_cheats_from(path, radius, min_saving, f0)[j],
            ),
    decreases path.len() - f0,
{
    if f0 < path.len() {
        lemma_radius_from_sorted(path, radius, min_saving, f0 + 1);
        lemma_radius_row_sorted(path, radius, min_saving, f0, f0 + 1);
        let whole = radius_cheats_from(path, radius, min_saving, f0);
        let row = radius_cheats_row(path, radius, min_saving, f0, f0 + 1);
        let rest = radius_cheats_from(path, radius, min_saving, f0 + 1);
        assert(whole == row + rest);
        assert(forall|i: int| 0 <= i < row.len() ==> whole[i] == row[i]);
        assert(forall|i: int|
            row.len() <= i < whole.len() ==> whole[i] == rest[i - row.len()]);
    }
}

/// The bounded-radius enumeration is strictly ordered by `from` ascending,
/// then `to` ascending; in particular no pair of times appears twice, so
/// no cheat is double-counted.
pub proof fn lemma_radius_cheats_ordered(path: Seq<Coord>, radius: int, min_saving: int)
    requires
        path.len() <= usize::MAX,
    ensures
        forall|i: int, j: int|
            0 <= i < j < radius_cheats(path, radius, min_saving).len() ==> cheat_lex_less(
                #[trigger] radius_cheats(path, radius, min_saving)[i],
                #[trigger] radius_cheats(path, radius, min_saving)[j],
            ),
        forall|i: int, j: int|
            0 <= i < j < radius_cheats(path, radius, min_saving).len()
                ==> (#[trigger] radius_cheats(path, radius, min_saving)[i]) != (
            #[trigger] radius_cheats(path, radius, min_saving)[j]),
{
    lemma_radius_from_sorted(path, radius, min_saving, 0);
}

proof fn lemma_wall_row_sorted(path: Seq<Coord>, threshold: int, f: int, t0: int)
    requires
        t0 >= 0,
        path.len() <= usize::MAX,
    ensures
        forall|i: int|
            0 <= i < wall_cheats_row(path, threshold, f, t0).len() ==> (
            #[trigger] wall_cheats_row(path, threshold, f, t0)[i]).from == f && t0
                <= wall_cheats_row(path, threshold, f, t0)[i].to,
        forall|i: int, j: int|
            0 <= i < j < wall_cheats_row(path, threshold, f, t0).len()
                ==> (#[trigger] wall_cheats_row(path, threshold, f, t0)[i]).to < (
            #[trigger] wall_cheats_row(path, threshold, f, t0)[j]).to,
    decreases path.len() - t0,
{
    if t0 < path.len() {
        lemma_wall_row_sorted(path, threshold, f, t0 + 1);
        let row = wall_cheats_row(path, threshold, f, t0);
        let rest = wall_cheats_row(path, threshold, f, t0 + 1);
        if wall_cheat_ok(path, threshold, f, t0) {
            let head = Cheat { from: f as usize, to: t0 as usize };
            assert(row == seq![head] + rest);
            assert(row[0] == head);
            assert(forall|i: int| 1 <= i < row.len() ==> row[i] == rest[i - 1]);
        }
    }
}

proof fn lemma_wall_from_sorted(path: Seq<Coord>, threshold: int, f0: int)
    requires
        f0 >= 0,
        path.len() <= usize::MAX,
    ensures
        forall|i: int|
            0 <= i < wall_cheats_from(path, threshold, f0).len() ==> f0 <= (
            #[trigger] wall_cheats_from(path, threshold, f0)[i]).from,
        forall|i: int, j: int|
            0 <= i < j < wall_cheats_from(path, threshold, f0).len() ==> cheat_lex_less(
                #[trigger] wall_cheats_from(path, threshold, f0)[i],
                #[trigger] wall_cheats_from(path, threshold, f0)[j],
            ),
    decreases path.len() - f0,
{
    if f0 < path.len() {
        lemma_wall_from_sorted(path, threshold, f0 + 1);
        lemma_wall_row_sorted(path, threshold, f0, f0 + 1);
        let whole = wall_cheats_from(path, threshold, f0);
        let row = wall_cheats_row(path, threshold, f0, f0 + 1);
        let rest = wall_cheats_from(path, threshold, f0 + 1);
        assert(whole == row + rest);
        assert(forall|i: int| 0 <= i < row.len() ==> whole[i] == row[i]);
        assert(forall|i: int|
            row.len() <= i < whole.len() ==> whole[i] == rest[i - row.len()]);
    }
}

/// The wall-crossing enumeration is strictly ordered by `from` ascending,
/// then `to` ascending; in particular each qualifying pair contributes
/// exactly one to the count.
pub proof fn lemma_wall_cheats_ordered(path: Seq<Coord>, threshold: int)
    requires
        path.len() <= usize::MAX,
    ensures
        forall|i: int, j: int|
            0 <= i < j < wall_cheats(path, threshold).len() ==> cheat_lex_less(
                #[trigger] wall_cheats(path, threshold)[i],
                #[trigger] wall_cheats(path, threshold)[j],
            ),
        forall|i: int, j: int|
            0 <= i < j < wall_cheats(path, threshold).len()
                ==> (#[trigger] wall_cheats(path, threshold)[i]) != (#[trigger] wall_cheats(
                path,
                threshold,
            )[j]),
{
    lemma_wall_from_sorted(path, threshold, 0);
}

proof fn lemma_radius_row_contains(
    path: Seq<Coord>,
    radius: int,
    min_saving: int,
    f: int,
    t0: int,
    c: Cheat,
)
    requires
        t0 >= 0,
        path.len() <= usize::MAX,
    ensures
        radius_cheats_row(path, radius, min_saving, f, t0).contains(c) <==> (c.from == f && t0
            <= c.to && radius_cheat_ok(path, radius, min_saving, f, c.to as int)),
    decreases path.len() - t0,
{
    let row = radius_cheats_row(path, radius, min_saving, f, t0);
    if t0 < path.len() {
        lemma_radius_row_contains(path, radius, min_saving, f, t0 + 1, c);
        let rest = radius_cheats_row(path, radius, min_saving, f, t0 + 1);
        if radius_cheat_ok(path, radius, min_saving, f, t0) {
            let head = Cheat { from: f as usize, to: t0 as usize };
            assert(row == seq![head] + rest);
            assert(row[0] == head);
            if row.contains(c) {
                let i = choose|i: int| 0 <= i < row.len() && row[i] == c;
                if i > 0 {
                    assert(rest[i - 1] == c);
                    assert(rest.contains(c));
                }
            }
            if c == head || rest.contains(c) {
                if c == head {
                    assert(row.contains(c));
                } else {
                    let i = choose|i: int| 0 <= i < rest.len() && rest[i] == c;
                    assert(row[i + 1] == c);
                    assert(row.contains(c));
                }
            }
        } else {
            assert(row == rest);
        }
    } else {
        assert(row.len() == 0);
        if row.contains(c) {
            let i = choose|i: int| 0 <= i < row.len() && row[i] == c;
        }
    }
}

proof fn lemma_radius_from_contains(
    path: Seq<Coord>,
    radius: int,
    min_saving: int,
    f0: int,
    c: Cheat,
)
    requires
        f0 >= 0,
        path.len() <= usize::MAX,
    ensures
        radius_cheats_from(path, radius, min_saving, f0).contains(c) <==> (f0 <= c.from
            && radius_cheat_ok(path, radius, min_saving, c.from as int, c.to as int)),
    decreases path.len() - f0,
{
    let whole = radius_cheats_from(path, radius, min_saving, f0);
    if f0 < path.len() {
        lemma_radius_from_contains(path, radius, min_saving, f0 + 1, c);
        lemma_radius_row_contains(path, radius, min_saving, f0, f0 + 1, c);
        let row = radius_cheats_row(path, radius, min_saving, f0, f0 + 1);
        let rest = radius_cheats_from(path, radius, min_saving, f0 + 1);
        assert(whole == row + rest);
        if whole.contains(c) {
            let i = choose|i: int| 0 <= i < whole.len() && whole[i] == c;
            if i < row.len() {
                assert(row[i] == c);
                assert(row.contains(c));
            } else {
                assert(rest[i - row.len()] == c);
                assert(rest.contains(c));
            }
        }
        if row.contains(c) {
            let i = choose|i: int| 0 <= i < row.len() && row[i] == c;
            assert(whole[i] == c);
            assert(whole.contains(c));
        }
        if rest.contains(c) {
            let i = choose|i: int| 0 <= i < rest.len() && rest[i] == c;
            assert(whole[row.len() + i] == c);
            assert(whole.contains(c));
        }
    } else {
        assert(whole.len() == 0);
        if whole.contains(c) {
            let i = choose|i: int| 0 <= i < whole.len() && whole[i] == c;
        }
    }
}

/// A pair of times is enumerated by [`radius_cheats`] exactly when it
/// satisfies [`radius_cheat_ok`]: nothing is missed, nothing is invented,
/// and no pair is counted twice (each cheat keeps its own time pair).
pub proof fn lemma_radius_cheat_counted(
    path: Seq<Coord>,
    radius: int,
    min_saving: int,
    f: usize,
    t: usize,
)
    requires
        path.len() <= usize::MAX,
    ensures
        radius_cheats(path, radius, min_saving).contains(Cheat { from: f, to: t })
            <==> radius_cheat_ok(path, radius, min_saving, f as int, t as int),
{
    lemma_radius_from_contains(path, radius, min_saving, 0, Cheat { from: f, to: t });
}

proof fn lemma_wall_row_contains(path: Seq<Coord>, threshold: int, f: int, t0: int, c: Cheat)
    requires
        t0 >= 0,
        path.len() <= usize::MAX,
    ensures
        wall_cheats_row(path, threshold, f, t0).contains(c) <==> (c.from == f && t0 <= c.to
            && wall_cheat_ok(path, threshold, f, c.to as int)),
    decreases path.len() - t0,
{
    let row = wall_cheats_row(path, threshold, f, t0);
    if t0 < path.len() {
        lemma_wall_row_contains(path, threshold, f, t0 + 1, c);
        let rest = wall_cheats_row(path, threshold, f, t0 + 1);
        if wall_cheat_ok(path, threshold, f, t0) {
            let head = Cheat { from: f as usize, to: t0 as usize };
            assert(row == seq![head] + rest);
            assert(row[0] == head);
            if row.contains(c) {
                let i = choose|i: int| 0 <= i < row.len() && row[i] == c;
                if i > 0 {
                    assert(rest[i - 1] == c);
                    assert(rest.contains(c));
                }
            }
            if c == head || rest.contains(c) {
                if c == head {
                    assert(row.contains(c));
                } else {
                    let i = choose|i: int| 0 <= i < rest.len() && rest[i] == c;
                    assert(row[i + 1] == c);
                    assert(row.contains(c));
                }
            }
        } else {
            assert(row == rest);
        }
    } else {
        assert(row.len() == 0);
        if row.contains(c) {
            let i = choose|i: int| 0 <= i < row.len() && row[i] == c;
        }
    }
}

proof fn lemma_wall_from_contains(path: Seq<Coord>, threshold: int, f0: int, c: Cheat)
    requires
        f0 >= 0,
        path.len() <= usize::MAX,
    ensures
        wall_cheats_from(path, threshold, f0).contains(c) <==> (f0 <= c.from && wall_cheat_ok(
            path,
            threshold,
            c.from as int,
            c.to as int,
        )),
    decreases path.len() - f0,
{
    let whole = wall_cheats_from(path, threshold, f0);
    if f0 < path.len() {
        lemma_wall_from_contains(path, threshold, f0 + 1, c);
        lemma_wall_row_contains(path, threshold, f0, f0 + 1, c);
        let row = wall_cheats_row(path, threshold, f0, f0 + 1);
        let rest = wall_cheats_from(path, threshold, f0 + 1);
        assert(whole == row + rest);
        if whole.contains(c) {
            let i = choose|i: int| 0 <= i < whole.len() && whole[i] == c;
            if i < row.len() {
                assert(row[i] == c);
                assert(row.contains(c));
            } else {
                assert(rest[i - row.len()] == c);
                assert(rest.contains(c));
            }
        }
        if row.contains(c) {
            let i = choose|i: int| 0 <= i < row.len() && row[i] == c;
            assert(whole[i] == c);
            assert(whole.contains(c));
        }
        if rest.contains(c) {
            let i = choose|i: int| 0 <= i < rest.len() && rest[i] == c;
            assert(whole[row.len() + i] == c);
            assert(whole.contains(c));
        }
    } else {
        assert(whole.len() == 0);
        if whole.contains(c) {
            let i = choose|i: int| 0 <= i < whole.len() && whole[i] == c;
        }
    }
}

/// A pair of times is enumerated by [`wall_cheats`] exactly when it
/// satisfies [`wall_cheat_ok`]: every counted wall crossing is aligned two
/// steps apart across an off-path cell and saves enough, and every such
/// pair is counted.
pub proof fn lemma_wall_cheat_counted(path: Seq<Coord>, threshold: int, f: usize, t: usize)
    requires
        path.len() <= usize::MAX,
    ensures
        wall_cheats(path, threshold).contains(Cheat { from: f, to: t }) <==> wall_cheat_ok(
            path,
            threshold,
            f as int,
            t as int,
        ),
{
    lemma_wall_from_contains(path, threshold, 0, Cheat { from: f, to: t });
}

/// The strict boundary of the distance budget: a pair of path positions at
/// Manhattan distance exactly `radius` is counted (when it saves enough),
/// while one just beyond the radius never is.
pub proof fn lemma_distance_boundary(
    path: Seq<Coord>,
    radius: int,
    min_saving: int,
    f: usize,
    t: usize,
)
    requires
        f < t < path.len(),
        path.len() <= usize::MAX,
    ensures
        (manhattan(path[f as int], path[t as int]) == radius && t - f - radius >= min_saving)
            ==> radius_cheats(path, radius, min_saving).contains(Cheat { from: f, to: t }),
        manhattan(path[f as int], path[t as int]) > radius ==> !radius_cheats(
            path,
            radius,
            min_saving,
        ).contains(Cheat { from: f, to: t }),
{
    lemma_radius_cheat_counted(path, radius, min_saving, f, t);
}

/// A two-position path, start adjacent to end, admits no cheat at all: the
/// bounded-radius count is zero for any positive minimum saving, and the
/// wall-crossing count is zero for every threshold, since adjacent
/// positions are not two steps apart.
pub proof fn lemma_adjacent_pair_no_cheats(
    path: Seq<Coord>,
    radius: int,
    min_saving: int,
    threshold: int,
)
    requires
        path.len() == 2,
        manhattan(path[0], path[1]) == 1,
        min_saving >= 1,
    ensures
        radius_cheats(path, radius, min_saving).len() == 0,
        wall_cheats(path, threshold).len() == 0,
{
    assert(!radius_cheat_ok(path, radius, min_saving, 0, 1));
    assert(radius_cheats_row(path, radius, min_saving, 0, 2) =~= Seq::<Cheat>::empty());
    assert(radius_cheats_row(path, radius, min_saving, 0, 1) =~= Seq::<Cheat>::empty());
    assert(radius_cheats_row(path, radius, min_saving, 1, 2) =~= Seq::<Cheat>::empty());
    assert(radius_cheats_from(path, radius, min_saving, 2) =~= Seq::<Cheat>::empty());
    assert(radius_cheats_from(path, radius, min_saving, 1) =~= Seq::<Cheat>::empty());
    assert(radius_cheats_from(path, radius, min_saving, 0) =~= Seq::<Cheat>::empty());
    assert(!aligned_two_apart(path[0], path[1]));
    assert(!wall_cheat_ok(path, threshold, 0, 1));
    assert(wall_cheats_row(path, threshold, 0, 2) =~= Seq::<Cheat>::empty());
    assert(wall_cheats_row(path, threshold, 0, 1) =~= Seq::<Cheat>::empty());
    assert(wall_cheats_row(path, threshold, 1, 2) =~= Seq::<Cheat>::empty());
    assert(wall_cheats_from(path, threshold, 2) =~= Seq::<Cheat>::empty());
    assert(wall_cheats_from(path, threshold, 1) =~= Seq::<Cheat>::empty());
    assert(wall_cheats_from(path, threshold, 0) =~= Seq::<Cheat>::empty());
}

} // verus!
