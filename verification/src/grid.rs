//! Grid indexing: conversion between `(x, y)` coordinates and flat storage
//! indices, and enumeration of the Moore neighbourhood of a cell.
//!
//! Everything here is a pure function of the board dimensions.

use vstd::prelude::*;

verus! {

/// A zero-based grid coordinate: `x` is the column, `y` the row.
#[derive(Clone, Copy, Debug, PartialEq, Eq, Structural)]
pub struct Position {
    pub x: i32,
    pub y: i32,
}

/// The index that stands for "no such tile".
pub const INVALID_BOARD_INDEX: usize = usize::MAX;

/// `(x, y)` lies on a `width` by `height` grid.
pub open spec fn in_bounds(width: int, height: int, x: int, y: int) -> bool {
    0 <= x < width && 0 <= y < height
}

/// Flat storage index of the coordinate `(x, y)` on a grid `width` columns wide.
pub open spec fn to_index(width: int, x: int, y: int) -> int {
    y * width + x
}

/// Coordinate `(x, y)` of the flat storage index `index`: the inverse of [`to_index`].
pub open spec fn to_coordinate(width: int, index: int) -> (int, int) {
    (index % width, index / width)
}

/// The coordinate stored at `index`, as a [`Position`].
pub open spec fn position_of(width: int, index: int) -> Position {
    let c = to_coordinate(width, index);
    Position { x: c.0 as i32, y: c.1 as i32 }
}

/// Two coordinates are distinct and differ by at most one in each direction.
pub open spec fn adjacent(x1: int, y1: int, x2: int, y2: int) -> bool {
    &&& -1 <= x2 - x1 <= 1
    &&& -1 <= y2 - y1 <= 1
    &&& !(x1 == x2 && y1 == y2)
}

/// The eight neighbour offsets in the order in which neighbours are listed:
/// top, top-right, right, bottom-right, bottom, bottom-left, left, top-left.
pub open spec fn offset(k: int) -> (int, int) {
    if k == 0 {
        (0, 1)
    } else if k == 1 {
        (1, 1)
    } else if k == 2 {
        (1, 0)
    } else if k == 3 {
        (1, -1)
    } else if k == 4 {
        (0, -1)
    } else if k == 5 {
        (-1, -1)
    } else if k == 6 {
        (-1, 0)
    } else {
        (-1, 1)
    }
}

/// The in-bounds neighbours of `(x, y)` among the first `k` offsets, in offset order.
pub open spec fn neighbors_prefix(width: int, height: int, x: int, y: int, k: nat) -> Seq<Position>
    decreases k,
{
    if k == 0 {
        Seq::empty()
    } else {
        let rest = neighbors_prefix(width, height, x, y, (k - 1) as nat);
        let d = offset(k - 1);
        if in_bounds(width, height, x + d.0, y + d.1) {
            rest.push(Position { x: (x + d.0) as i32, y: (y + d.1) as i32 })
        } else {
            rest
        }
    }
}

/// The in-bounds neighbours of `(x, y)`: up to eight coordinates, in offset order.
pub open spec fn neighbors(width: int, height: int, x: int, y: int) -> Seq<Position> {
    neighbors_prefix(width, height, x, y, 8)
}

/// An in-bounds coordinate maps to an index below `width * height`, and
/// converting that index back gives the coordinate again.
pub proof fn lemma_index_of_coordinate(width: int, height: int, x: int, y: int)
    requires
        in_bounds(width, height, x, y),
    ensures
        0 <= to_index(width, x, y) < width * height,
        to_coordinate(width, to_index(width, x, y)) == (x, y),
{
    assert(0 <= y * width && y * width + width <= height * width) by (nonlinear_arith)
        requires
            0 <= y < height,
            0 < width,
    ;
    assert(height * width == width * height) by (nonlinear_arith);
    vstd::arithmetic::div_mod::lemma_fundamental_div_mod_converse(y * width + x, width, y, x);
}

/// An index below `width * height` maps to an in-bounds coordinate, and
/// converting that coordinate back gives the index again.
pub proof fn lemma_coordinate_of_index(width: int, height: int, index: int)
    requires
        0 < width,
        0 <= index < width * height,
    ensures
        in_bounds(width, height, to_coordinate(width, index).0, to_coordinate(width, index).1),
        to_index(width, to_coordinate(width, index).0, to_coordinate(width, index).1) == index,
{
    vstd::arithmetic::div_mod::lemma_fundamental_div_mod(index, width);
    vstd::arithmetic::div_mod::lemma_mod_bound(index, width);
    let q = index / width;
    let r = index % width;
    assert(width * q == q * width) by (nonlinear_arith);
    assert(0 <= q < height) by (nonlinear_arith)
        requires
            0 < width,
            0 <= r < width,
            0 <= q * width + r < width * height,
    ;
}

/// Two in-bounds coordinates with the same index are the same coordinate.
pub proof fn lemma_index_injective(width: int, height: int, x1: int, y1: int, x2: int, y2: int)
    requires
        in_bounds(width, height, x1, y1),
        in_bounds(width, height, x2, y2),
        to_index(width, x1, y1) == to_index(width, x2, y2),
    ensures
        x1 == x2,
        y1 == y2,
{
    lemma_index_of_coordinate(width, height, x1, y1);
    lemma_index_of_coordinate(width, height, x2, y2);
}

/// The neighbour list holds exactly the in-bounds coordinates adjacent to
/// `(x, y)`, each of them once, so never more than eight.
pub proof fn lemma_neighbors_are_adjacent_cells(width: int, height: int, x: int, y: int)
    requires
        width <= i32::MAX,
        height <= i32::MAX,
    ensures
        neighbors(width, height, x, y).len() <= 8,
        neighbors(width, height, x, y).no_duplicates(),
        forall|p: Position|
            neighbors(width, height, x, y).contains(p) <==> (in_bounds(
                width,
                height,
                p.x as int,
                p.y as int,
            ) && adjacent(x, y, p.x as int, p.y as int)),
{
    lemma_neighbors_prefix(width, height, x, y, 8);
    let s = neighbors(width, height, x, y);
    assert forall|p: Position|
        (in_bounds(width, height, p.x as int, p.y as int) && adjacent(
            x,
            y,
            p.x as int,
            p.y as int,
        )) implies s.contains(p) by {
        let d = (p.x - x, p.y - y);
        assert(offset(0) == d || offset(1) == d || offset(2) == d || offset(3) == d || offset(4)
            == d || offset(5) == d || offset(6) == d || offset(7) == d);
    }
}

/// What [`lemma_neighbors_are_adjacent_cells`] states, for each prefix of the offsets.
proof fn lemma_neighbors_prefix(width: int, height: int, x: int, y: int, k: nat)
    requires
        width <= i32::MAX,
        height <= i32::MAX,
        k <= 8,
    ensures
        neighbors_prefix(width, height, x, y, k).len() <= k,
        neighbors_prefix(width, height, x, y, k).no_duplicates(),
        forall|p: Position|
            neighbors_prefix(width, height, x, y, k).contains(p) <==> (in_bounds(
                width,
                height,
                p.x as int,
                p.y as int,
            ) && exists|j: int| 0 <= j < k && #[trigger] offset(j) == (p.x - x, p.y - y)),
    decreases k,
{
    let s = neighbors_prefix(width, height, x, y, k);
    if k > 0 {
        let rest = neighbors_prefix(width, height, x, y, (k - 1) as nat);
        lemma_neighbors_prefix(width, height, x, y, (k - 1) as nat);
        let d = offset(k - 1);
        if in_bounds(width, height, x + d.0, y + d.1) {
            let q = Position { x: (x + d.0) as i32, y: (y + d.1) as i32 };
            assert(s == rest.push(q));
            assert(offset(k - 1) == (q.x - x, q.y - y));
            assert forall|p: Position| s.contains(p) implies (in_bounds(
                width,
                height,
                p.x as int,
                p.y as int,
            ) && exists|j: int| 0 <= j < k && #[trigger] offset(j) == (p.x - x, p.y - y)) by {
                let i = choose|i: int| 0 <= i < s.len() && s[i] == p;
                if i < rest.len() {
                    assert(rest.contains(p));
                    let j = choose|j: int|
                        0 <= j < k - 1 && #[trigger] offset(j) == (p.x - x, p.y - y);
                    assert(offset(j) == (p.x - x, p.y - y));
                }
            }
            assert forall|p: Position|
                (in_bounds(width, height, p.x as int, p.y as int) && exists|j: int|
                    0 <= j < k && #[trigger] offset(j) == (p.x - x, p.y - y)) implies s.contains(
                p,
            ) by {
                let j = choose|j: int| 0 <= j < k && #[trigger] offset(j) == (p.x - x, p.y - y);
                if j == k - 1 {
                    assert(p == q);
                    assert(s[rest.len() as int] == q);
                } else {
                    assert(offset(j) == (p.x - x, p.y - y));
                    assert(rest.contains(p));
                    let i = choose|i: int| 0 <= i < rest.len() && rest[i] == p;
                    assert(s[i] == p);
                }
            }
            assert(!rest.contains(q)) by {
                if rest.contains(q) {
                    let j = choose|j: int|
                        0 <= j < k - 1 && #[trigger] offset(j) == (q.x - x, q.y - y);
                    assert(offset(j) == offset(k - 1));
                }
            }
            assert(s.no_duplicates()) by {
                assert forall|i: int, j: int|
                    0 <= i < s.len() && 0 <= j < s.len() && i != j implies s[i] != s[j] by {
                    if i < rest.len() && j < rest.len() {
                    } else if i < rest.len() {
                        assert(rest.contains(s[i]));
                    } else {
                        assert(rest.contains(s[j]));
                    }
                }
            }
        } else {
            assert(s == rest);
            assert forall|p: Position|
                (in_bounds(width, height, p.x as int, p.y as int) && exists|j: int|
                    0 <= j < k && #[trigger] offset(j) == (p.x - x, p.y - y)) implies s.contains(
                p,
            ) by {
                let j = choose|j: int| 0 <= j < k && #[trigger] offset(j) == (p.x - x, p.y - y);
                assert(j != k - 1);
                assert(offset(j) == (p.x - x, p.y - y));
            }
        }
    }
}

/// On a grid at least two tiles wide and high, a corner tile has three
/// neighbours, any other tile on an edge five, and a tile inside eight.
pub proof fn lemma_neighbor_totals(width: int, height: int, x: int, y: int)
    requires
        2 <= width,
        2 <= height,
        in_bounds(width, height, x, y),
    ensures
        neighbors(width, height, x, y).len() == if (x == 0 || x == width - 1) && (y == 0 || y
            == height - 1) {
            3int
        } else if x == 0 || x == width - 1 || y == 0 || y == height - 1 {
            5int
        } else {
            8int
        },
{
    reveal_with_fuel(neighbors_prefix, 9);
}

} // verus!
