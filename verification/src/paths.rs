use vstd::prelude::*;
use crate::grid::{Cell, Coord, Grid};
use crate::moves::adjacent;

verus! {

/// Whether a coordinate lies inside a `w * h` grid.
pub open spec fn coord_in(w: int, h: int, c: Coord) -> bool {
    c.x < w && c.y < h
}

/// The cell at a coordinate of a flat, row-major cell sequence.
pub open spec fn cell_at(cells: Seq<Cell>, w: int, c: Coord) -> Cell {
    cells[c.y * w + c.x]
}

/// A walkable route: a non-empty coordinate sequence from `a` to `b` whose
/// cells all lie in bounds and off walls, with each consecutive pair
/// 4-adjacent.
pub open spec fn open_path(cells: Seq<Cell>, w: int, h: int, p: Seq<Coord>, a: Coord, b: Coord) -> bool {
    &&& p.len() >= 1
    &&& p[0] == a
    &&& p[p.len() - 1] == b
    &&& forall|j: int| 0 <= j < p.len() ==> coord_in(w, h, #[trigger] p[j]) && cell_at(cells, w, p[j]) != Cell::Wall
    &&& forall|j: int| 0 <= j < p.len() - 1 ==> adjacent(#[trigger] p[j], p[j + 1])
}

/// `open_path`, phrased over a grid value.
pub open spec fn is_open_path(g: Grid, p: Seq<Coord>, a: Coord, b: Coord) -> bool {
    open_path(g@, g.width as int, g.height as int, p, a, b)
}

/// Whether some walkable route joins `a` to `b`.
pub open spec fn reachable(g: Grid, a: Coord, b: Coord) -> bool {
    exists|p: Seq<Coord>| is_open_path(g, p, a, b)
}

/// Two cell sequences with the same walls in the same places.
pub open spec fn same_walls(c1: Seq<Cell>, c2: Seq<Cell>) -> bool {
    &&& c1.len() == c2.len()
    &&& forall|i: int| 0 <= i < c1.len() ==> ((c1[i] == Cell::Wall) <==> (#[trigger] c2[i]) == Cell::Wall)
}

/// A route is walkable in any grid with the same wall pattern.
pub proof fn lemma_path_same_walls(c1: Seq<Cell>, c2: Seq<Cell>, w: int, h: int, p: Seq<Coord>, a: Coord, b: Coord)
    requires
        same_walls(c1, c2),
        c1.len() == w * h,
        open_path(c1, w, h, p, a, b),
    ensures
        open_path(c2, w, h, p, a, b),
{
    assert forall|j: int| 0 <= j < p.len() implies coord_in(w, h, #[trigger] p[j]) && cell_at(c2, w, p[j])
        != Cell::Wall by {
        assert(coord_in(w, h, p[j]) && cell_at(c1, w, p[j]) != Cell::Wall);
        crate::grid::lemma_index_bound(p[j].x as int, p[j].y as int, w, h);
    }
}

/// Reversing a walkable route from `a` to `b` yields one from `b` to `a`.
pub proof fn lemma_path_reverse(cells: Seq<Cell>, w: int, h: int, p: Seq<Coord>, a: Coord, b: Coord)
    requires
        open_path(cells, w, h, p, a, b),
    ensures
        open_path(cells, w, h, p.reverse(), b, a),
{
    let q = p.reverse();
    assert(q.len() == p.len());
    assert forall|j: int| 0 <= j < q.len() implies coord_in(w, h, #[trigger] q[j]) && cell_at(cells, w, q[j])
        != Cell::Wall by {
        assert(q[j] == p[p.len() - 1 - j]);
    }
    assert forall|j: int| 0 <= j < q.len() - 1 implies adjacent(#[trigger] q[j], q[j + 1]) by {
        assert(q[j] == p[p.len() - 1 - j]);
        assert(q[j + 1] == p[p.len() - 2 - j]);
        assert(adjacent(p[p.len() - 2 - j], p[p.len() - 1 - j]));
    }
    assert(q[0] == p[p.len() - 1]);
    assert(q[q.len() - 1] == p[0]);
}

} // verus!
