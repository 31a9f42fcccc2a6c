//! Grid coordinates and 4-connected neighbour enumeration.

use vstd::prelude::*;

verus! {

/// A cell position: column `x`, row `y`.
#[derive(Clone, Copy, Debug, PartialEq, Eq, Structural)]
pub struct Coord {
    pub x: usize,
    pub y: usize,
}

/// Neighbour directions, in enumeration order.
pub const NORTH: usize = 0;
pub const SOUTH: usize = 1;
pub const EAST: usize = 2;
pub const WEST: usize = 3;

/// Number of neighbour directions.
pub const DIRECTIONS: usize = 4;

pub open spec fn in_bounds(width: nat, height: nat, c: Coord) -> bool {
    c.x < width && c.y < height
}

/// The neighbour of `c` in direction `d` (north, south, east, west), if it lies
/// on a `width` by `height` grid. There is no wraparound.
pub open spec fn neighbor_of(width: nat, height: nat, c: Coord, d: int) -> Option<Coord> {
    if d == 0 {
        if c.y > 0 { Some(Coord { x: c.x, y: (c.y - 1) as usize }) } else { None }
    } else if d == 1 {
        if c.y + 1 < height { Some(Coord { x: c.x, y: (c.y + 1) as usize }) } else { None }
    } else if d == 2 {
        if c.x + 1 < width { Some(Coord { x: (c.x + 1) as usize, y: c.y }) } else { None }
    } else if d == 3 {
        if c.x > 0 { Some(Coord { x: (c.x - 1) as usize, y: c.y }) } else { None }
    } else {
        None
    }
}

/// `a` and `b` are 4-connected neighbours.
pub open spec fn adjacent(width: nat, height: nat, a: Coord, b: Coord) -> bool {
    exists|d: int| 0 <= d < 4 && #[trigger] neighbor_of(width, height, a, d) == Some(b)
}

pub open spec fn abs_diff(a: int, b: int) -> nat {
    if a < b { (b - a) as nat } else { (a - b) as nat }
}

/// Length of a shortest 4-connected path between `a` and `b` on an open grid.
pub open spec fn manhattan(a: Coord, b: Coord) -> nat {
    abs_diff(a.x as int, b.x as int) + abs_diff(a.y as int, b.y as int)
}

/// Every neighbour lies on the grid.
pub proof fn lemma_neighbor_in_bounds(width: nat, height: nat, c: Coord, d: int)
    requires
        in_bounds(width, height, c),
    ensures
        neighbor_of(width, height, c, d) is Some ==> in_bounds(
            width,
            height,
            neighbor_of(width, height, c, d)->0,
        ),
{
}

/// The bounds test: the coordinate `(x, y)` when it lies on the grid.
pub fn coord_in(width: usize, height: usize, x: i64, y: i64) -> (r: Option<Coord>)
    ensures
        r is Some <==> (0 <= x < width && 0 <= y < height),
        r is Some ==> r->0.x == x && r->0.y == y,
{
    if 0 <= x && 0 <= y && (x as u64) < (width as u64) && (y as u64) < (height as u64) {
        Some(Coord { x: x as usize, y: y as usize })
    } else {
        None
    }
}

/// The neighbour of `c` in direction `d`, skipping positions off the grid.
pub fn neighbor(width: usize, height: usize, c: Coord, d: usize) -> (r: Option<Coord>)
    requires
        in_bounds(width as nat, height as nat, c),
    ensures
        r == neighbor_of(width as nat, height as nat, c, d as int),
{
    if d == NORTH {
        if c.y > 0 { Some(Coord { x: c.x, y: c.y - 1 }) } else { None }
    } else if d == SOUTH {
        if c.y + 1 < height { Some(Coord { x: c.x, y: c.y + 1 }) } else { None }
    } else if d == EAST {
        if c.x + 1 < width { Some(Coord { x: c.x + 1, y: c.y }) } else { None }
    } else if d == WEST {
        if c.x > 0 { Some(Coord { x: c.x - 1, y: c.y }) } else { None }
    } else {
        None
    }
}

} // verus!

verus! {

/// One more step of 4-connected distance: `c` is within `j + 1` of `s` exactly
/// when it is `s`, is already within `j`, or has a neighbour within `j`.
pub proof fn lemma_manhattan_step(width: nat, height: nat, c: Coord, s: Coord, j: int)
    requires
        in_bounds(width, height, c),
        in_bounds(width, height, s),
        width <= usize::MAX,
        height <= usize::MAX,
        j >= -1,
    ensures
        (c == s || manhattan(c, s) <= j || exists|d: int|
            0 <= d < 4 && #[trigger] neighbor_of(width, height, c, d) is Some && manhattan(
                neighbor_of(width, height, c, d)->0,
                s,
            ) <= j) <==> manhattan(c, s) <= j + 1,
{
    if exists|d: int|
        0 <= d < 4 && #[trigger] neighbor_of(width, height, c, d) is Some && manhattan(
            neighbor_of(width, height, c, d)->0,
            s,
        ) <= j {
        let d = choose|d: int|
            0 <= d < 4 && #[trigger] neighbor_of(width, height, c, d) is Some && manhattan(
                neighbor_of(width, height, c, d)->0,
                s,
            ) <= j;
        let n = neighbor_of(width, height, c, d)->0;
        if d == 0 {
            assert(n.x == c.x && n.y == c.y - 1);
        } else if d == 1 {
            assert(n.x == c.x && n.y == c.y + 1);
        } else if d == 2 {
            assert(n.x == c.x + 1 && n.y == c.y);
        } else {
            assert(n.x == c.x - 1 && n.y == c.y);
        }
        assert(manhattan(c, s) <= j + 1);
    }
    if manhattan(c, s) == j + 1 && c != s {
        let d: int = if c.y > s.y {
            0
        } else if c.y < s.y {
            1
        } else if c.x < s.x {
            2
        } else {
            3
        };
        assert(neighbor_of(width, height, c, d) is Some);
        assert(manhattan(neighbor_of(width, height, c, d)->0, s) <= j);
    }
}

} // verus!
