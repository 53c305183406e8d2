//! Ordering helpers for coordinates and index sorts.
//!
//! Coordinates are ordered lexicographically, either by (row, column) or by
//! (column, row), depending on the traversal axis requested. The argsorts
//! return the indices of a sequence arranged by the order of its elements,
//! leaving the sequence itself untouched.

use core::cmp::Ordering;
use vstd::prelude::*;

use crate::grid::Coord;

verus! {

/// The axis a comparison runs along: 0 for (row, column), anything else
/// for (column, row); an absent axis means 0.
pub open spec fn norm_axis(axis: Option<usize>) -> int {
    match axis {
        Some(v) => if v == 0 {
            0
        } else {
            1
        },
        None => 0,
    }
}

/// The major key of a coordinate along an axis.
pub open spec fn axis_primary(c: Coord, ax: int) -> int {
    if ax == 0 {
        c.row as int
    } else {
        c.col as int
    }
}

/// The minor key of a coordinate along an axis.
pub open spec fn axis_secondary(c: Coord, ax: int) -> int {
    if ax == 0 {
        c.col as int
    } else {
        c.row as int
    }
}

/// The lexicographic order of two coordinates along an axis.
pub open spec fn coord_order(a: Coord, b: Coord, ax: int) -> Ordering {
    if axis_primary(a, ax) < axis_primary(b, ax) || (axis_primary(a, ax) == axis_primary(b, ax)
        && axis_secondary(a, ax) < axis_secondary(b, ax)) {
        Ordering::Less
    } else if axis_primary(a, ax) == axis_primary(b, ax) && axis_secondary(a, ax)
        == axis_secondary(b, ax) {
        Ordering::Equal
    } else {
        Ordering::Greater
    }
}

/// Compare two coordinates lexicographically: by (row, column) when `axis`
/// is absent or 0, by (column, row) otherwise.
pub fn coord_cmp(a: &Coord, b: &Coord, axis: Option<usize>) -> (r: Ordering)
    ensures
        r == coord_order(*a, *b, norm_axis(axis)),
{
    let dir: usize = match axis {
        Some(v) => v,
        None => 0,
    };
    let (a1, a2, b1, b2): (usize, usize, usize, usize) = if dir == 0 {
        (a.row, a.col, b.row, b.col)
    } else {
        (a.col, a.row, b.col, b.row)
    };
    if a1 < b1 || (a1 == b1 && a2 < b2) {
        Ordering::Less
    } else if a1 == b1 && a2 == b2 {
        Ordering::Equal
    } else {
        Ordering::Greater
    }
}

/// The strict total order the coordinate argsort arranges indices in:
/// by axis key lexicographically, equal keys kept in index order, so the
/// result is the one stable arrangement.
pub open spec fn idx_before(v: Seq<Coord>, ax: int, x: usize, y: usize) -> bool {
    ||| axis_primary(v[x as int], ax) < axis_primary(v[y as int], ax)
    ||| (axis_primary(v[x as int], ax) == axis_primary(v[y as int], ax) && axis_secondary(
        v[x as int],
        ax,
    ) < axis_secondary(v[y as int], ax))
    ||| (axis_primary(v[x as int], ax) == axis_primary(v[y as int], ax) && axis_secondary(
        v[x as int],
        ax,
    ) == axis_secondary(v[y as int], ax) && x < y)
}

/// Whether index `x` must come before index `y` in the sorted order.
fn idx_less(v: &Vec<Coord>, axis: usize, x: usize, y: usize) -> (r: bool)
    requires
        x < v@.len(),
        y < v@.len(),
    ensures
        r == idx_before(v@, norm_axis(Some(axis)), x, y),
{
    let a = v[x];
    let b = v[y];
    let (a1, a2, b1, b2): (usize, usize, usize, usize) = if axis == 0 {
        (a.row, a.col, b.row, b.col)
    } else {
        (a.col, a.row, b.col, b.row)
    };
    a1 < b1 || (a1 == b1 && a2 < b2) || (a1 == b1 && a2 == b2 && x < y)
}

/// The indices of `v` arranged by the lexicographic coordinate order along
/// `axis`: the result lists each index of `v` exactly once, in the strict
/// order [`idx_before`], so equal coordinates keep their original order.
pub fn coord_argsort(v: &Vec<Coord>, axis: &usize) -> (r: Vec<usize>)
    ensures
        r@.len() == v@.len(),
        forall|i: int| 0 <= i < r@.len() ==> (#[trigger] r@[i]) < v@.len(),
        forall|i: int, j: int|
            0 <= i < j < r@.len() ==> idx_before(v@, norm_axis(Some(*axis)), r@[i], r@[j]),
        forall|k: int| 0 <= k < v@.len() ==> #[trigger] r@.contains(k as usize),
{
    let ghost ax = norm_axis(Some(*axis));
    let n = v.len();
    let mut r: Vec<usize> = Vec::new();
    let mut m: usize = 0;
    while m < n
        invariant
            n == v@.len(),
            m <= n,
            r@.len() == m,
            ax == norm_axis(Some(*axis)),
            forall|i: int| 0 <= i < m ==> (#[trigger] r@[i]) < m,
            forall|i: int, j: int| 0 <= i < j < m ==> idx_before(v@, ax, r@[i], r@[j]),
            forall|k: int| 0 <= k < m ==> #[trigger] r@.contains(k as usize),
        decreases n - m,
    {
        let mut pos: usize = 0;
        loop
            invariant_except_break
                pos <= m,
                m < n,
                n == v@.len(),
                r@.len() == m,
                ax == norm_axis(Some(*axis)),
                forall|i: int| 0 <= i < m ==> (#[trigger] r@[i]) < m,
                forall|i: int| 0 <= i < pos ==> idx_before(v@, ax, #[trigger] r@[i], m),
            ensures
                pos <= m,
                m < n,
                n == v@.len(),
                r@.len() == m,
                forall|i: int| 0 <= i < pos ==> idx_before(v@, ax, #[trigger] r@[i], m),
                pos < m ==> idx_before(v@, ax, m, r@[pos as int]),
            decreases m - pos,
        {
            if pos >= m {
                break ;
            }
            if idx_less(v, *axis, m, r[pos]) {
                break ;
            }
            proof {
                assert(r@[pos as int] < m);
                assert(idx_before(v@, ax, r@[pos as int], m));
            }
            pos = pos + 1;
        }
        let ghost old_r = r@;
        r.insert(pos, m);
        proof {
            let nr = r@;
            assert(nr == old_r.insert(pos as int, m));
            assert forall|i: int, j: int| 0 <= i < j < nr.len() implies idx_before(
                v@,
                ax,
                nr[i],
                nr[j],
            ) by {
                if j < pos {
                    assert(nr[i] == old_r[i] && nr[j] == old_r[j]);
                } else if i > pos {
                    assert(nr[i] == old_r[i - 1] && nr[j] == old_r[j - 1]);
                } else if i == pos {
                    assert(nr[i] == m && nr[j] == old_r[j - 1]);
                    assert(idx_before(v@, ax, m, old_r[pos as int]));
                    if j - 1 > pos {
                        assert(idx_before(v@, ax, old_r[pos as int], old_r[j - 1]));
                    }
                } else if j == pos {
                    assert(nr[i] == old_r[i] && nr[j] == m);
                } else {
                    // i < pos < j
                    assert(nr[i] == old_r[i] && nr[j] == old_r[j - 1]);
                    assert(idx_before(v@, ax, old_r[i], m));
                    if j - 1 > pos {
                        assert(idx_before(v@, ax, m, old_r[pos as int]));
                        assert(idx_before(v@, ax, old_r[pos as int], old_r[j - 1]));
                    } else if j - 1 == pos {
                        assert(idx_before(v@, ax, m, old_r[j - 1]));
                    }
                }
            }
            assert forall|k: int| 0 <= k < m + 1 implies #[trigger] nr.contains(k as usize) by {
                if k == m {
                    assert(nr[pos as int] == m);
                } else {
                    assert(old_r.contains(k as usize));
                    let i = choose|i: int| 0 <= i < old_r.len() && old_r[i] == k as usize;
                    if i < pos {
                        assert(nr[i] == k as usize);
                    } else {
                        assert(nr[i + 1] == k as usize);
                    }
                }
            }
        }
        m = m + 1;
    }
    r
}

/// The indices of `data` arranged by its elements' own order: the result
/// lists each index of `data` exactly once. Nothing is assumed about how
/// the element type's comparison behaves, so nothing more is promised
/// about the arrangement.
pub fn argsort<T: Ord>(data: &[T]) -> (r: Vec<usize>)
    ensures
        r@.len() == data@.len(),
        forall|i: int| 0 <= i < r@.len() ==> (#[trigger] r@[i]) < data@.len(),
        forall|i: int, j: int| 0 <= i < j < r@.len() ==> r@[i] != r@[j],
        forall|k: int| 0 <= k < data@.len() ==> #[trigger] r@.contains(k as usize),
{
    let n = data.len();
    let mut r: Vec<usize> = Vec::new();
    let mut m: usize = 0;
    while m < n
        invariant
            n == data@.len(),
            m <= n,
            r@.len() == m,
            forall|i: int| 0 <= i < m ==> (#[trigger] r@[i]) < m,
            forall|i: int, j: int| 0 <= i < j < m ==> r@[i] != r@[j],
            forall|k: int| 0 <= k < m ==> #[trigger] r@.contains(k as usize),
        decreases n - m,
    {
        let mut pos: usize = 0;
        loop
            invariant_except_break
                pos <= m,
                m < n,
                n == data@.len(),
                r@.len() == m,
                forall|i: int| 0 <= i < m ==> (#[trigger] r@[i]) < m,
            ensures
                pos <= m,
                m < n,
                n == data@.len(),
                r@.len() == m,
            decreases m - pos,
        {
            if pos >= m {
                break ;
            }
            if data[m].lt(&data[r[pos]]) {
                break ;
            }
            pos = pos + 1;
        }
        let ghost old_r = r@;
        r.insert(pos, m);
        proof {
            let nr = r@;
            assert(nr == old_r.insert(pos as int, m));
            assert forall|i: int, j: int| 0 <= i < j < nr.len() implies nr[i] != nr[j] by {
                if j < pos {
                    assert(nr[i] == old_r[i] && nr[j] == old_r[j]);
                } else if i > pos {
                    assert(nr[i] == old_r[i - 1] && nr[j] == old_r[j - 1]);
                } else if i == pos {
                    assert(nr[i] == m && nr[j] == old_r[j - 1] && old_r[j - 1] < m);
                } else if j == pos {
                    assert(nr[i] == old_r[i] && old_r[i] < m && nr[j] == m);
                } else {
                    assert(nr[i] == old_r[i] && nr[j] == old_r[j - 1]);
                }
            }
            assert forall|k: int| 0 <= k < m + 1 implies #[trigger] nr.contains(k as usize) by {
                if k == m {
                    assert(nr[pos as int] == m);
                } else {
                    assert(old_r.contains(k as usize));
                    let i = choose|i: int| 0 <= i < old_r.len() && old_r[i] == k as usize;
                    if i < pos {
                        assert(nr[i] == k as usize);
                    } else {
                        assert(nr[i + 1] == k as usize);
                    }
                }
            }
        }
        m = m + 1;
    }
    r
}

} // verus!
