use vstd::prelude::*;
use crate::grid::Coord;

verus! {

/// The four unit directions, in the fixed tie-break order in which every
/// neighbor scan consults them: down `(0,1)`, right `(1,0)`, left `(-1,0)`,
/// up `(0,-1)`. This order makes path selection deterministic.
#[derive(Clone, Copy, PartialEq, Eq, Structural, Debug)]
pub enum Dir {
    Down,
    Right,
    Left,
    Up,
}

/// The fixed scan order of the four directions.
pub open spec fn dir_order() -> Seq<Dir> {
    seq![Dir::Down, Dir::Right, Dir::Left, Dir::Up]
}

/// The opposite of a direction.
pub open spec fn rev_dir(d: Dir) -> Dir {
    match d {
        Dir::Down => Dir::Up,
        Dir::Right => Dir::Left,
        Dir::Left => Dir::Right,
        Dir::Up => Dir::Down,
    }
}

/// Where a unit move from `c` lands, or `None` when the move would leave the
/// `width * height` grid (underflow below zero, or reaching the far edge).
pub open spec fn step(c: Coord, d: Dir, width: usize, height: usize) -> Option<Coord> {
    match d {
        Dir::Down => if c.y + 1 < height {
            Some(Coord { x: c.x, y: (c.y + 1) as usize })
        } else {
            None
        },
        Dir::Right => if c.x + 1 < width {
            Some(Coord { x: (c.x + 1) as usize, y: c.y })
        } else {
            None
        },
        Dir::Left => if c.x >= 1 {
            Some(Coord { x: (c.x - 1) as usize, y: c.y })
        } else {
            None
        },
        Dir::Up => if c.y >= 1 {
            Some(Coord { x: c.x, y: (c.y - 1) as usize })
        } else {
            None
        },
    }
}

/// Two cells are 4-adjacent when they differ by exactly one unit in exactly
/// one axis.
pub open spec fn adjacent(a: Coord, b: Coord) -> bool {
    ||| (a.x == b.x && a.y + 1 == b.y)
    ||| (a.x == b.x && b.y + 1 == a.y)
    ||| (a.y == b.y && a.x + 1 == b.x)
    ||| (a.y == b.y && b.x + 1 == a.x)
}

/// A successful step from an in-bounds cell lands in bounds, lands on a
/// 4-adjacent cell, and is undone by the opposite direction.
pub proof fn lemma_step_props(c: Coord, d: Dir, width: usize, height: usize)
    requires
        c.x < width,
        c.y < height,
    ensures
        match step(c, d, width, height) {
            Some(n) => {
                &&& n.x < width
                &&& n.y < height
                &&& adjacent(c, n)
                &&& adjacent(n, c)
                &&& step(n, rev_dir(d), width, height) == Some(c)
            },
            None => true,
        },
{
}

/// Any 4-adjacent pair of in-bounds cells is connected by one of the four
/// directions.
pub proof fn lemma_adjacent_step(a: Coord, b: Coord, width: usize, height: usize)
    requires
        adjacent(a, b),
        a.x < width,
        a.y < height,
        b.x < width,
        b.y < height,
    ensures
        exists|d: Dir| #[trigger] step(a, d, width, height) == Some(b),
{
    if a.x == b.x && a.y + 1 == b.y {
        assert(step(a, Dir::Down, width, height) == Some(b));
    } else if a.x == b.x && b.y + 1 == a.y {
        assert(step(a, Dir::Up, width, height) == Some(b));
    } else if a.y == b.y && a.x + 1 == b.x {
        assert(step(a, Dir::Right, width, height) == Some(b));
    } else {
        assert(step(a, Dir::Left, width, height) == Some(b));
    }
}

/// Bounds-checked application of a unit direction to a coordinate: the one
/// place where neighbor arithmetic happens.
pub fn move_point(c: Coord, d: Dir, width: usize, height: usize) -> (r: Option<Coord>)
    requires
        c.x < width,
        c.y < height,
    ensures
        r == step(c, d, width, height),
{
    match d {
        Dir::Down => if c.y + 1 < height {
            Some(Coord { x: c.x, y: c.y + 1 })
        } else {
            None
        },
        Dir::Right => if c.x + 1 < width {
            Some(Coord { x: c.x + 1, y: c.y })
        } else {
            None
        },
        Dir::Left => if c.x >= 1 {
            Some(Coord { x: c.x - 1, y: c.y })
        } else {
            None
        },
        Dir::Up => if c.y >= 1 {
            Some(Coord { x: c.x, y: c.y - 1 })
        } else {
            None
        },
    }
}

/// The direction at position `j` of the fixed scan order.
pub fn nth_dir(j: usize) -> (d: Dir)
    requires
        j < 4,
    ensures
        d == dir_order()[j as int],
{
    if j == 0 {
        Dir::Down
    } else if j == 1 {
        Dir::Right
    } else if j == 2 {
        Dir::Left
    } else {
        Dir::Up
    }
}

} // verus!
