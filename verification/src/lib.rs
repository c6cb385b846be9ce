use vstd::prelude::*;

pub mod grid;
pub mod moves;
pub mod paths;
pub mod flood;
pub mod trace;

use crate::grid::{build_grid, built_cells, BuildConfig, Cell, Coord, Pixel, SolveError};
use crate::flood::flood_distance;
use crate::paths::{cell_at, coord_in, is_open_path, lemma_path_reverse, lemma_path_same_walls, open_path, same_walls};
use crate::trace::trace_path;

verus! {

/// The whole pipeline over one query: classify the pixel buffer into a grid,
/// settle a shortest-distance field from `start` until `end` is reached, and
/// walk the field backward. On success the result is the route from `end` to
/// `start`: a walkable sequence of 4-adjacent open cells whose length is
/// exactly one more than the shortest walkable route between the endpoints,
/// and the scan order of the flood and of the tracer make it a function of
/// the input alone. Each failure is reported exactly when its condition
/// holds: a mis-sized buffer, an endpoint out of bounds or on a wall, or a
/// disconnected end cell.
pub fn solve_maze(
    pixels: &Vec<Pixel>,
    width: usize,
    height: usize,
    cfg: BuildConfig,
    start: Coord,
    end: Coord,
) -> (r: Result<Vec<Coord>, SolveError>)
    ensures
        ({
            let cells = built_cells(pixels@, cfg);
            let w = width as int;
            let h = height as int;
            let bad_buffer = width == 0 || height == 0 || pixels@.len() != w * h;
            let bad_endpoint = !coord_in(w, h, start) || !coord_in(w, h, end) || cell_at(cells, w, start)
                == Cell::Wall || cell_at(cells, w, end) == Cell::Wall;
            match r {
                Ok(path) => {
                    &&& !bad_buffer
                    &&& !bad_endpoint
                    &&& path@.len() >= 1
                    &&& path@[0] == end
                    &&& path@[path@.len() - 1] == start
                    &&& open_path(cells, w, h, path@, end, start)
                    &&& open_path(cells, w, h, path@.reverse(), start, end)
                    &&& (forall|q: Seq<Coord>| open_path(cells, w, h, q, start, end) ==> q.len() >= path@.len())
                    &&& (start == end ==> path@ == seq![start])
                },
                Err(e) => {
                    &&& ((e == SolveError::BuildError) <==> bad_buffer)
                    &&& ((e == SolveError::InvalidEndpoint) <==> (!bad_buffer && bad_endpoint))
                    &&& ((e == SolveError::NoPathFound) <==> (!bad_buffer && !bad_endpoint && !(
                    exists|q: Seq<Coord>| open_path(cells, w, h, q, start, end))))
                },
            }
        }),
{
    let mut g = match build_grid(pixels, width, height, cfg) {
        Ok(g) => g,
        Err(e) => {
            return Err(e);
        },
    };
    let ghost gb = g;
    let ghost cells = built_cells(pixels@, cfg);
    let dd = match flood_distance(&mut g, start, end) {
        Ok(dd) => dd,
        Err(e) => {
            proof {
                assert forall|i: int|
                    0 <= i < gb@.len() implies ((gb@[i] == Cell::Wall) <==> ((#[trigger] g@[i])
                    == Cell::Wall)) by {}
                assert(same_walls(gb@, g@));
                if e == SolveError::NoPathFound {
                    assert forall|q: Seq<Coord>| !open_path(cells, width as int, height as int, q, start, end) by {
                        if open_path(cells, width as int, height as int, q, start, end) {
                            lemma_path_same_walls(gb@, g@, width as int, height as int, q, start, end);
                            assert(is_open_path(g, q, start, end));
                        }
                    }
                }
            }
            return Err(e);
        },
    };
    let path = trace_path(&g, start, end);
    proof {
        assert forall|i: int|
            0 <= i < gb@.len() implies ((gb@[i] == Cell::Wall) <==> ((#[trigger] g@[i]) == Cell::Wall)) by {}
        assert(same_walls(gb@, g@));
        assert(same_walls(g@, gb@));
        lemma_path_same_walls(g@, gb@, width as int, height as int, path@, end, start);
        lemma_path_reverse(cells, width as int, height as int, path@, end, start);
        assert forall|q: Seq<Coord>|
            open_path(cells, width as int, height as int, q, start, end) implies q.len() >= path@.len() by {
            lemma_path_same_walls(gb@, g@, width as int, height as int, q, start, end);
            assert(is_open_path(g, q, start, end));
        }
        if start == end {
            assert(path@.len() == 1);
            assert(path@ =~= seq![start]);
        }
    }
    Ok(path)
}

} // verus!
