use vstd::prelude::*;
use crate::grid::{dist, visited, Cell, Coord, Grid};
use crate::moves::{adjacent, lemma_step_props, move_point, step, Dir};
use crate::flood::{complete_upto, lemma_backtrack_path, min_field, pred_at, settled, step_gives};
use crate::paths::{is_open_path, lemma_path_same_walls, same_walls};

verus! {

/// The neighbor the tracer selects around `c` when it looks for a cell
/// settled at distance `k`: the first direction of the fixed scan order
/// whose neighbor is settled exactly at `k`. The scan order is the
/// deterministic tie-break among equally short routes.
pub open spec fn pick_target(g: Grid, c: Coord, k: usize) -> Option<Coord> {
    if step_gives(g, c, Dir::Down, Cell::Visited(k)) {
        step(c, Dir::Down, g.width, g.height)
    } else if step_gives(g, c, Dir::Right, Cell::Visited(k)) {
        step(c, Dir::Right, g.width, g.height)
    } else if step_gives(g, c, Dir::Left, Cell::Visited(k)) {
        step(c, Dir::Left, g.width, g.height)
    } else if step_gives(g, c, Dir::Up, Cell::Visited(k)) {
        step(c, Dir::Up, g.width, g.height)
    } else {
        None
    }
}

/// The route the tracer produces from a cell settled at distance `k`: the
/// cell itself, then the route from the picked neighbor. The settled grid
/// and the fixed scan order determine it completely.
pub open spec fn trace_from(g: Grid, c: Coord, k: nat) -> Seq<Coord>
    decreases k,
{
    if k == 0 {
        seq![c]
    } else {
        match pick_target(g, c, (k - 1) as usize) {
            Some(n) => seq![c] + trace_from(g, n, (k - 1) as nat),
            None => seq![c],
        }
    }
}

proof fn lemma_trace_from_first(g: Grid, c: Coord, k: nat)
    ensures
        trace_from(g, c, k).len() >= 1,
        trace_from(g, c, k)[0] == c,
{
}

/// Scans the four directions in the fixed order and returns the first
/// neighbor of `c` settled exactly at distance `k`.
fn next_step(grid: &Grid, c: Coord, k: usize) -> (r: Option<Coord>)
    requires
        grid.wf(),
        grid.in_bounds(c),
        pred_at(*grid, c, k),
    ensures
        match r {
            Some(n) => {
                &&& Some(n) == pick_target(*grid, c, k)
                &&& grid.in_bounds(n)
                &&& grid.at(n) == Cell::Visited(k)
                &&& adjacent(c, n)
            },
            None => false,
        },
{
    let w = grid.width;
    let h = grid.height;
    proof {
        lemma_step_props(c, Dir::Down, w, h);
        lemma_step_props(c, Dir::Right, w, h);
        lemma_step_props(c, Dir::Left, w, h);
        lemma_step_props(c, Dir::Up, w, h);
    }
    if let Some(n) = move_point(c, Dir::Down, w, h) {
        if grid.get(n) == Cell::Visited(k) {
            return Some(n);
        }
    }
    if let Some(n) = move_point(c, Dir::Right, w, h) {
        if grid.get(n) == Cell::Visited(k) {
            return Some(n);
        }
    }
    if let Some(n) = move_point(c, Dir::Left, w, h) {
        if grid.get(n) == Cell::Visited(k) {
            return Some(n);
        }
    }
    if let Some(n) = move_point(c, Dir::Up, w, h) {
        if grid.get(n) == Cell::Visited(k) {
            return Some(n);
        }
    }
    proof {
        let d = choose|d: Dir| #[trigger] step_gives(*grid, c, d, Cell::Visited(k));
        match d {
            Dir::Down => {
                assert(false);
            },
            Dir::Right => {
                assert(false);
            },
            Dir::Left => {
                assert(false);
            },
            Dir::Up => {
                assert(false);
            },
        }
    }
    None
}

/// Two settled fields over the same maze that are both minimal and complete
/// below `dd`: everything the flood filler's contract promises of its output
/// when the end cell settles at distance `dd`.
pub open spec fn agreeing_fields(g1: Grid, g2: Grid, start: Coord, dd: int) -> bool {
    &&& settled(g1, start)
    &&& settled(g2, start)
    &&& g1.width == g2.width
    &&& g1.height == g2.height
    &&& same_walls(g1@, g2@)
    &&& min_field(g1, start)
    &&& min_field(g2, start)
    &&& complete_upto(g1, start, dd)
    &&& complete_upto(g2, start, dd)
}

proof fn lemma_agreeing_sym(g1: Grid, g2: Grid, start: Coord, dd: int)
    requires
        agreeing_fields(g1, g2, start, dd),
    ensures
        agreeing_fields(g2, g1, start, dd),
{
    assert forall|i: int|
        0 <= i < g2@.len() implies ((g2@[i] == Cell::Wall) <==> ((#[trigger] g1@[i]) == Cell::Wall)) by {}
}

/// Below the settled end distance, agreeing fields settle exactly the same
/// cells at exactly the same distances.
proof fn lemma_same_level(g1: Grid, g2: Grid, start: Coord, m: Coord, v: usize, dd: int)
    requires
        agreeing_fields(g1, g2, start, dd),
        g1.in_bounds(m),
        g1.at(m) == Cell::Visited(v),
        v < dd,
    ensures
        g2.at(m) == Cell::Visited(v),
{
    lemma_backtrack_path(g1, start, m);
    let p = choose|p: Seq<Coord>|
        #[trigger] is_open_path(g1, p, start, m) && p.len() == dist(g1.at(m)) + 1;
    lemma_path_same_walls(g1@, g2@, g1.width as int, g1.height as int, p, start, m);
    assert(is_open_path(g2, p, start, m));
    assert(visited(g2.at(m)) && dist(g2.at(m)) < p.len());
    let j = dist(g2.at(m));
    if j < v {
        lemma_agreeing_sym(g1, g2, start, dd);
        lemma_backtrack_path(g2, start, m);
        let q = choose|q: Seq<Coord>|
            #[trigger] is_open_path(g2, q, start, m) && q.len() == dist(g2.at(m)) + 1;
        lemma_path_same_walls(g2@, g1@, g1.width as int, g1.height as int, q, start, m);
        assert(is_open_path(g1, q, start, m));
        assert(false);
    }
}

/// One scan direction agrees between two agreeing fields.
proof fn lemma_level_equiv(g1: Grid, g2: Grid, start: Coord, c: Coord, d: Dir, kk: usize, dd: int)
    requires
        agreeing_fields(g1, g2, start, dd),
        g1.in_bounds(c),
        kk < dd,
    ensures
        step_gives(g1, c, d, Cell::Visited(kk)) <==> step_gives(g2, c, d, Cell::Visited(kk)),
{
    lemma_step_props(c, d, g1.width, g1.height);
    match step(c, d, g1.width, g1.height) {
        Some(m) => {
            if g1.at(m) == Cell::Visited(kk) {
                lemma_same_level(g1, g2, start, m, kk, dd);
            }
            if g2.at(m) == Cell::Visited(kk) {
                lemma_agreeing_sym(g1, g2, start, dd);
                lemma_same_level(g2, g1, start, m, kk, dd);
            }
        },
        None => {},
    }
}

/// Determinism of the traced route: any two settled fields that the flood
/// filler's contract admits for the same maze, the same source, and the same
/// settled end distance trace to exactly the same route. Within one field
/// the route is already a function of the field (`trace_from`); this law
/// closes the remaining gap, so re-running the pipeline on identical input
/// yields an identical route.
pub proof fn lemma_trace_deterministic(g1: Grid, g2: Grid, start: Coord, c: Coord, k: usize, dd: int)
    requires
        agreeing_fields(g1, g2, start, dd),
        g1.in_bounds(c),
        g1.at(c) == Cell::Visited(k),
        g2.at(c) == Cell::Visited(k),
        k <= dd,
    ensures
        trace_from(g1, c, k as nat) == trace_from(g2, c, k as nat),
    decreases k,
{
    if k > 0 {
        let kk = (k - 1) as usize;
        lemma_step_props(c, Dir::Down, g1.width, g1.height);
        lemma_step_props(c, Dir::Right, g1.width, g1.height);
        lemma_step_props(c, Dir::Left, g1.width, g1.height);
        lemma_step_props(c, Dir::Up, g1.width, g1.height);
        lemma_level_equiv(g1, g2, start, c, Dir::Down, kk, dd);
        lemma_level_equiv(g1, g2, start, c, Dir::Right, kk, dd);
        lemma_level_equiv(g1, g2, start, c, Dir::Left, kk, dd);
        lemma_level_equiv(g1, g2, start, c, Dir::Up, kk, dd);
        assert(pick_target(g1, c, kk) == pick_target(g2, c, kk));
        match pick_target(g1, c, kk) {
            Some(n) => {
                assert(g1.in_bounds(n) && g1.at(n) == Cell::Visited(kk));
                assert(g2.at(n) == Cell::Visited(kk));
                lemma_trace_deterministic(g1, g2, start, n, kk, dd);
            },
            None => {},
        }
    }
}

/// Walks the settled distance field backward from `end` to the source,
/// producing the route as an ordered coordinate sequence. The result has
/// exactly `D + 1` entries, where `D` is the settled distance of `end`:
/// it starts at `end`, ends at the source, moves between 4-adjacent cells,
/// and its recorded distances decrease by exactly one at each step. The
/// settled grid determines the result completely.
pub fn trace_path(grid: &Grid, start: Coord, end: Coord) -> (path: Vec<Coord>)
    requires
        settled(*grid, start),
        grid.in_bounds(end),
        visited(grid.at(end)),
    ensures
        ({
            let dd = dist(grid.at(end)) as int;
            &&& path@.len() == dd + 1
            &&& path@[0] == end
            &&& path@[dd] == start
            &&& (forall|j: int|
                0 <= j <= dd ==> grid.in_bounds(#[trigger] path@[j]) && grid.at(path@[j])
                    == Cell::Visited((dd - j) as usize))
            &&& (forall|j: int| 0 <= j < dd ==> adjacent(#[trigger] path@[j], path@[j + 1]))
            &&& path@ == trace_from(*grid, end, dist(grid.at(end)) as nat)
            &&& is_open_path(*grid, path@, end, start)
        }),
{
    let d0: usize = match grid.get(end) {
        Cell::Visited(k) => k,
        _ => 0,
    };
    let mut path: Vec<Coord> = Vec::new();
    path.push(end);
    let mut cur = end;
    let mut d: usize = d0;
    proof {
        lemma_trace_from_first(*grid, end, d0 as nat);
        assert(seq![end] + trace_from(*grid, end, d0 as nat).skip(1) =~= trace_from(
            *grid,
            end,
            d0 as nat,
        ));
        assert(path@ =~= seq![end]);
    }
    while d > 0
        invariant
            settled(*grid, start),
            grid.in_bounds(end),
            grid.at(end) == Cell::Visited(d0),
            grid.in_bounds(cur),
            grid.at(cur) == Cell::Visited(d),
            d <= d0,
            path@.len() == d0 - d + 1,
            path@[0] == end,
            path@[path@.len() - 1] == cur,
            forall|jj: int|
                0 <= jj < path@.len() ==> grid.in_bounds(#[trigger] path@[jj]) && grid.at(path@[jj])
                    == Cell::Visited((d0 - jj) as usize),
            forall|jj: int| 0 <= jj < path@.len() - 1 ==> adjacent(#[trigger] path@[jj], path@[jj + 1]),
            trace_from(*grid, end, d0 as nat) == path@ + trace_from(*grid, cur, d as nat).skip(1),
        decreases d,
    {
        proof {
            assert(visited(grid.at(cur)) && dist(grid.at(cur)) == d);
            assert(pred_at(*grid, cur, (d - 1) as usize));
        }
        let found = next_step(grid, cur, d - 1);
        let n = match found {
            Some(x) => x,
            None => cur,
        };
        let ghost path1 = path@;
        path.push(n);
        proof {
            let rest = trace_from(*grid, n, (d - 1) as nat);
            assert(trace_from(*grid, cur, d as nat) == seq![cur] + rest);
            lemma_trace_from_first(*grid, n, (d - 1) as nat);
            assert((seq![cur] + rest).skip(1) =~= rest);
            assert(rest =~= seq![n] + rest.skip(1));
            assert(path1 + (seq![n] + rest.skip(1)) =~= path@ + rest.skip(1));
            assert(trace_from(*grid, end, d0 as nat) == path1 + trace_from(*grid, cur, d as nat).skip(1));
            assert(path1 + trace_from(*grid, cur, d as nat).skip(1) =~= path1 + rest);
            assert(path1 + rest =~= path1 + (seq![n] + rest.skip(1)));
            assert(trace_from(*grid, end, d0 as nat) == path@ + rest.skip(1));
        }
        cur = n;
        d = d - 1;
    }
    proof {
        assert(grid.at(cur) == Cell::Visited(0usize));
        assert(cur == start);
        assert(trace_from(*grid, cur, 0 as nat) =~= seq![cur]);
        assert(seq![cur].skip(1) =~= Seq::<Coord>::empty());
        assert(path@ + trace_from(*grid, cur, 0 as nat).skip(1) =~= path@);
        assert(path@ == trace_from(*grid, end, d0 as nat));
        assert(is_open_path(*grid, path@, end, start));
    }
    path
}

} // verus!
