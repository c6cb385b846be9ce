use vstd::prelude::*;
use vstd::set_lib::{lemma_int_range, lemma_len_subset, set_int_range};
use crate::grid::{dist, lemma_index_bound, lemma_index_injective, unflooded, visited, Cell, Coord, Grid, SolveError};
use crate::moves::{adjacent, dir_order, lemma_adjacent_step, lemma_step_props, move_point, nth_dir, rev_dir, step, Dir};
use crate::paths::{is_open_path, reachable};

verus! {

/// How a grid may change while distances settle: walls never change, open
/// cells keep their value, and the only new thing a cell can become is a
/// settled distance written over an unvisited cell. Once a cell carries a
/// finite distance, no later operation changes it.
pub open spec fn evolves(a: Grid, b: Grid) -> bool {
    &&& b.width == a.width
    &&& b.height == a.height
    &&& b@.len() == a@.len()
    &&& forall|i: int|
        0 <= i < a@.len() ==> ((#[trigger] b@[i]) == a@[i] || (a@[i] == Cell::Unvisited && visited(b@[i])))
}

/// Monotonic settlement: under `evolves`, a cell that already carries a
/// finite distance keeps exactly that value. Every grid transformation of
/// this library satisfies `evolves`, so a settled distance is permanent.
pub proof fn lemma_settled_is_permanent(a: Grid, b: Grid, i: int)
    requires
        evolves(a, b),
        0 <= i < a@.len(),
        visited(a@[i]),
    ensures
        b@[i] == a@[i],
{
}

/// `evolves` composes across successive grid states.
pub proof fn lemma_evolves_trans(a: Grid, b: Grid, c: Grid)
    requires
        evolves(a, b),
        evolves(b, c),
    ensures
        evolves(a, c),
{
}

/// Stepping from `c` in direction `d` lands on a cell holding `cell`.
pub open spec fn step_gives(g: Grid, c: Coord, d: Dir, cell: Cell) -> bool {
    match step(c, d, g.width, g.height) {
        Some(n) => g.at(n) == cell,
        None => false,
    }
}

/// Some neighbor of `c` is settled at distance `k`.
pub open spec fn pred_at(g: Grid, c: Coord, k: usize) -> bool {
    exists|d: Dir| #[trigger] step_gives(g, c, d, Cell::Visited(k))
}

/// Every cell settled at a positive distance has a neighbor settled exactly
/// one step closer to the source.
pub open spec fn backtrackable(g: Grid) -> bool {
    forall|c: Coord|
        g.in_bounds(c) && visited(#[trigger] g.at(c)) && dist(g.at(c)) > 0 ==> pred_at(
            g,
            c,
            (dist(g.at(c)) - 1) as usize,
        )
}

/// Distance zero marks the source cell and nothing else.
pub open spec fn zero_only_start(g: Grid, start: Coord) -> bool {
    forall|c: Coord| g.in_bounds(c) && (#[trigger] g.at(c)) == Cell::Visited(0usize) ==> c == start
}

/// Every settled distance lies below `bound`.
pub open spec fn dist_bounded(g: Grid, bound: int) -> bool {
    forall|c: Coord| g.in_bounds(c) && visited(#[trigger] g.at(c)) ==> dist(g.at(c)) < bound
}

/// What the flood filler guarantees of its output grid: the source is
/// settled at zero, uniquely so, and every settled cell can be walked back
/// toward the source one distance unit at a time.
pub open spec fn settled(g: Grid, start: Coord) -> bool {
    &&& g.wf()
    &&& g.in_bounds(start)
    &&& g.at(start) == Cell::Visited(0usize)
    &&& zero_only_start(g, start)
    &&& backtrackable(g)
}

/// All four neighbors of `c` have been examined: each is a wall or already
/// settled at most one step farther than `c`.
pub open spec fn expanded(g: Grid, c: Coord) -> bool {
    forall|d: Dir|
        match #[trigger] step(c, d, g.width, g.height) {
            Some(n) => g.at(n) == Cell::Wall || (visited(g.at(n)) && dist(g.at(n)) <= dist(g.at(c)) + 1),
            None => true,
        }
}

/// Every cell settled strictly below `bound` has been fully expanded.
pub open spec fn closure_below(g: Grid, bound: int) -> bool {
    forall|c: Coord| g.in_bounds(c) && visited(#[trigger] g.at(c)) && dist(g.at(c)) < bound ==> expanded(g, c)
}

/// The row-major indices of the settled cells.
spec fn visited_index_set(g: Grid) -> Set<int> {
    Set::new(|i: int| 0 <= i < g@.len() && visited(g@[i]))
}

proof fn lemma_visited_set_bound(g: Grid)
    ensures
        visited_index_set(g).finite(),
        visited_index_set(g).len() <= g@.len(),
{
    lemma_int_range(0, g@.len() as int);
    assert(visited_index_set(g).subset_of(set_int_range(0, g@.len() as int)));
    lemma_len_subset(visited_index_set(g), set_int_range(0, g@.len() as int));
}

/// Settling one unvisited cell grows the settled-index set by exactly one.
proof fn lemma_settle_one(g1: Grid, g2: Grid, i: int, dd: usize)
    requires
        0 <= i < g1@.len(),
        g1@[i] == Cell::Unvisited,
        g2@ == g1@.update(i, Cell::Visited(dd)),
    ensures
        visited_index_set(g2) =~= visited_index_set(g1).insert(i),
        visited_index_set(g2).len() == visited_index_set(g1).len() + 1,
        visited_index_set(g2).finite(),
{
    lemma_visited_set_bound(g1);
    assert(visited_index_set(g2) =~= visited_index_set(g1).insert(i));
    assert(!visited_index_set(g1).contains(i));
}

/// Every frontier element is settled exactly at distance `dd`.
spec fn frontier_at(g: Grid, f: Seq<Coord>, dd: usize) -> bool {
    forall|k: int| 0 <= k < f.len() ==> g.in_bounds(#[trigger] f[k]) && g.at(f[k]) == Cell::Visited(dd)
}

/// The frontier holds every cell settled at distance `dd`.
spec fn holds_all_at(g: Grid, f: Seq<Coord>, dd: usize) -> bool {
    forall|c: Coord| g.in_bounds(c) && (#[trigger] g.at(c)) == Cell::Visited(dd) ==> f.contains(c)
}

/// The neighbor of `c` in direction `d` has been examined: it is off-grid, a
/// wall, or settled at a distance of at most `cap`.
spec fn dir_done(g: Grid, c: Coord, d: Dir, cap: usize) -> bool {
    match step(c, d, g.width, g.height) {
        Some(m) => g.at(m) == Cell::Wall || (visited(g.at(m)) && dist(g.at(m)) <= cap),
        None => true,
    }
}

/// The first `upto` directions of the scan order have been examined from `c`.
spec fn dirs_done(g: Grid, c: Coord, upto: int, cap: usize) -> bool {
    forall|jj: int| 0 <= jj < upto ==> #[trigger] dir_done(g, c, dir_order()[jj], cap)
}

/// The first `upto` frontier elements have been fully expanded.
spec fn all_expanded_upto(g: Grid, f: Seq<Coord>, upto: int) -> bool {
    forall|k: int| 0 <= k < upto ==> expanded(g, #[trigger] f[k])
}

proof fn lemma_contains_push(s: Seq<Coord>, v: Coord, c: Coord)
    requires
        s.contains(c),
    ensures
        s.push(v).contains(c),
{
    let k = choose|k: int| 0 <= k < s.len() && s[k] == c;
    assert(s.push(v)[k] == c);
}

/// Examining all four scan directions from `c` is exactly a full expansion.
proof fn lemma_dirs_done_expanded(g: Grid, c: Coord, cap: usize)
    requires
        dirs_done(g, c, 4, cap),
        cap == dist(g.at(c)) + 1,
    ensures
        expanded(g, c),
{
    assert forall|d: Dir|
        match #[trigger] step(c, d, g.width, g.height) {
            Some(n) => g.at(n) == Cell::Wall || (visited(g.at(n)) && dist(g.at(n)) <= dist(g.at(c)) + 1),
            None => true,
        } by {
        assert(dir_order()[0] == Dir::Down);
        assert(dir_order()[1] == Dir::Right);
        assert(dir_order()[2] == Dir::Left);
        assert(dir_order()[3] == Dir::Up);
        match d {
            Dir::Down => {
                assert(dir_done(g, c, dir_order()[0], cap));
            },
            Dir::Right => {
                assert(dir_done(g, c, dir_order()[1], cap));
            },
            Dir::Left => {
                assert(dir_done(g, c, dir_order()[2], cap));
            },
            Dir::Up => {
                assert(dir_done(g, c, dir_order()[3], cap));
            },
        }
    }
}

/// An examined direction stays examined while further cells settle.
proof fn lemma_dir_done_stable(g1: Grid, g2: Grid, n: Coord, dd: usize, c: Coord, d: Dir, cap: usize)
    requires
        g1.wf(),
        g1.in_bounds(n),
        g1.at(n) == Cell::Unvisited,
        g2.width == g1.width,
        g2.height == g1.height,
        g2@ == g1@.update(n.y * g1.width + n.x, Cell::Visited(dd)),
        g1.in_bounds(c),
        g2.at(c) == g1.at(c),
        dir_done(g1, c, d, cap),
    ensures
        dir_done(g2, c, d, cap),
{
    lemma_step_props(c, d, g1.width, g1.height);
    lemma_index_bound(n.x as int, n.y as int, g1.width as int, g1.height as int);
    match step(c, d, g1.width, g1.height) {
        Some(m) => {
            lemma_index_bound(m.x as int, m.y as int, g1.width as int, g1.height as int);
            if m.y * g1.width + m.x == n.y * g1.width + n.x {
                assert(g1.at(m) == Cell::Unvisited);
                assert(false);
            }
            assert(g2.at(m) == g1.at(m));
        },
        None => {},
    }
}

/// A fully expanded cell stays fully expanded while further cells settle.
proof fn lemma_expanded_stable(g1: Grid, g2: Grid, n: Coord, dd: usize, c: Coord)
    requires
        g1.wf(),
        g1.in_bounds(n),
        g1.at(n) == Cell::Unvisited,
        g2.width == g1.width,
        g2.height == g1.height,
        g2@ == g1@.update(n.y * g1.width + n.x, Cell::Visited(dd)),
        g1.in_bounds(c),
        visited(g1.at(c)),
        expanded(g1, c),
    ensures
        expanded(g2, c),
{
    lemma_index_bound(n.x as int, n.y as int, g1.width as int, g1.height as int);
    lemma_index_bound(c.x as int, c.y as int, g1.width as int, g1.height as int);
    if c.y * g1.width + c.x == n.y * g1.width + n.x {
        assert(false);
    }
    assert(g2.at(c) == g1.at(c));
    assert forall|d: Dir|
        match #[trigger] step(c, d, g2.width, g2.height) {
            Some(m) => g2.at(m) == Cell::Wall || (visited(g2.at(m)) && dist(g2.at(m)) <= dist(g2.at(c)) + 1),
            None => true,
        } by {
        lemma_step_props(c, d, g1.width, g1.height);
        match step(c, d, g1.width, g1.height) {
            Some(m) => {
                lemma_index_bound(m.x as int, m.y as int, g1.width as int, g1.height as int);
                assert(g1.at(m) == Cell::Wall || (visited(g1.at(m)) && dist(g1.at(m)) <= dist(g1.at(c)) + 1));
                if m.y * g1.width + m.x == n.y * g1.width + n.x {
                    assert(g1.at(m) == Cell::Unvisited);
                    assert(false);
                }
                assert(g2.at(m) == g1.at(m));
            },
            None => {},
        }
    }
}

/// Settling one unvisited cell at a positive distance preserves every
/// structural invariant of the wave expansion.
proof fn lemma_settle_invariants(g1: Grid, g2: Grid, n: Coord, dd: usize, start: Coord, b: int)
    requires
        g1.wf(),
        g1.in_bounds(n),
        g1.in_bounds(start),
        g1.at(n) == Cell::Unvisited,
        g2.width == g1.width,
        g2.height == g1.height,
        g2@ == g1@.update(n.y * g1.width + n.x, Cell::Visited(dd)),
        dd >= 1,
        g1.at(start) == Cell::Visited(0usize),
        zero_only_start(g1, start),
        backtrackable(g1),
        dist_bounded(g1, dd + 1),
        closure_below(g1, b),
        b <= dd,
        pred_at(g2, n, (dd - 1) as usize),
    ensures
        g2.wf(),
        evolves(g1, g2),
        g2.at(start) == Cell::Visited(0usize),
        g2.at(n) == Cell::Visited(dd),
        zero_only_start(g2, start),
        backtrackable(g2),
        dist_bounded(g2, dd + 1),
        closure_below(g2, b),
        forall|c: Coord| g1.in_bounds(c) && c != n ==> (#[trigger] g2.at(c)) == g1.at(c),
        visited_index_set(g2).len() == visited_index_set(g1).len() + 1,
        visited_index_set(g2).finite(),
{
    let ni = n.y * g1.width + n.x;
    lemma_index_bound(n.x as int, n.y as int, g1.width as int, g1.height as int);
    assert forall|c: Coord| g1.in_bounds(c) && c != n implies (#[trigger] g2.at(c)) == g1.at(c) by {
        lemma_index_bound(c.x as int, c.y as int, g1.width as int, g1.height as int);
        if c.y * g1.width + c.x == ni {
            lemma_index_injective(c.x as int, c.y as int, n.x as int, n.y as int, g1.width as int);
            assert(false);
        }
    }
    assert(g2.at(n) == Cell::Visited(dd));
    assert(g2.at(start) == g1.at(start));
    assert forall|i: int| 0 <= i < g1@.len() implies ((#[trigger] g2@[i]) == g1@[i] || (g1@[i]
        == Cell::Unvisited && visited(g2@[i]))) by {
        if i != ni {
            assert(g2@[i] == g1@[i]);
        }
    }
    assert(evolves(g1, g2));
    assert forall|c: Coord| g2.in_bounds(c) && (#[trigger] g2.at(c)) == Cell::Visited(0usize) implies c
        == start by {
        if c == n {
            assert(g2.at(c) == Cell::Visited(dd));
        } else {
            assert(g2.at(c) == g1.at(c));
        }
    }
    assert forall|c: Coord|
        g2.in_bounds(c) && visited(#[trigger] g2.at(c)) && dist(g2.at(c)) > 0 implies pred_at(
        g2,
        c,
        (dist(g2.at(c)) - 1) as usize,
    ) by {
        if c == n {
            assert(dist(g2.at(c)) == dd);
        } else {
            assert(g2.at(c) == g1.at(c));
            let k = (dist(g1.at(c)) - 1) as usize;
            assert(pred_at(g1, c, k));
            let d = choose|d: Dir| #[trigger] step_gives(g1, c, d, Cell::Visited(k));
            lemma_step_props(c, d, g1.width, g1.height);
            match step(c, d, g1.width, g1.height) {
                Some(m) => {
                    lemma_index_bound(m.x as int, m.y as int, g1.width as int, g1.height as int);
                    if m == n {
                        assert(false);
                    }
                    assert(g2.at(m) == g1.at(m));
                    assert(step_gives(g2, c, d, Cell::Visited(k)));
                },
                None => {
                    assert(false);
                },
            }
        }
    }
    assert forall|c: Coord| g2.in_bounds(c) && visited(#[trigger] g2.at(c)) implies dist(g2.at(c)) < dd
        + 1 by {
        if c != n {
            assert(g2.at(c) == g1.at(c));
        }
    }
    assert forall|c: Coord|
        g2.in_bounds(c) && visited(#[trigger] g2.at(c)) && dist(g2.at(c)) < b implies expanded(g2, c) by {
        if c == n {
            assert(dist(g2.at(c)) == dd);
            assert(false);
        } else {
            assert(g2.at(c) == g1.at(c));
            assert(expanded(g1, c));
            lemma_expanded_stable(g1, g2, n, dd, c);
        }
    }
    lemma_settle_one(g1, g2, ni, dd);
}

/// Walking a route whose head is settled at distance at most `k`, while every
/// cell settled below `bound` is expanded, settles every later cell too, each
/// at most one unit farther than the one before it.
pub proof fn lemma_path_dist_bound(g: Grid, p: Seq<Coord>, a: Coord, b: Coord, k: int, bound: int)
    requires
        g.wf(),
        closure_below(g, bound),
        is_open_path(g, p, a, b),
        visited(g.at(a)),
        dist(g.at(a)) <= k,
        k + p.len() - 1 <= bound,
    ensures
        visited(g.at(b)),
        dist(g.at(b)) <= k + p.len() - 1,
    decreases p.len(),
{
    if p.len() == 1 {
        assert(b == a);
    } else {
        let second = p[1];
        assert(adjacent(p[0], p[1]));
        lemma_adjacent_step(a, second, g.width, g.height);
        let d = choose|d: Dir| #[trigger] step(a, d, g.width, g.height) == Some(second);
        assert(dist(g.at(a)) < bound);
        assert(expanded(g, a));
        assert(match step(a, d, g.width, g.height) {
            Some(n) => g.at(n) == Cell::Wall || (visited(g.at(n)) && dist(g.at(n)) <= dist(g.at(a)) + 1),
            None => true,
        });
        lemma_index_bound(second.x as int, second.y as int, g.width as int, g.height as int);
        assert(g.at(second) != Cell::Wall);
        assert(visited(g.at(second)) && dist(g.at(second)) <= k + 1);
        let q = p.subrange(1, p.len() as int);
        assert(q[0] == second);
        assert(q[q.len() - 1] == b);
        assert forall|j: int| 0 <= j < q.len() - 1 implies adjacent(#[trigger] q[j], q[j + 1]) by {
            assert(adjacent(p[j + 1], p[j + 2]));
        }
        assert(is_open_path(g, q, second, b));
        lemma_path_dist_bound(g, q, second, b, k + 1, bound);
    }
}

/// When every settled cell has been expanded and the source is settled, every
/// cell joined to the source by a walkable route is settled. Contrapositive:
/// an unsettled end cell is disconnected from the source.
pub proof fn lemma_path_all_visited(g: Grid, p: Seq<Coord>, a: Coord, b: Coord, bound: int)
    requires
        g.wf(),
        closure_below(g, bound),
        dist_bounded(g, bound),
        is_open_path(g, p, a, b),
        visited(g.at(a)),
    ensures
        visited(g.at(b)),
    decreases p.len(),
{
    if p.len() == 1 {
        assert(b == a);
    } else {
        let second = p[1];
        assert(adjacent(p[0], p[1]));
        lemma_adjacent_step(a, second, g.width, g.height);
        let d = choose|d: Dir| #[trigger] step(a, d, g.width, g.height) == Some(second);
        assert(dist(g.at(a)) < bound);
        assert(expanded(g, a));
        assert(match step(a, d, g.width, g.height) {
            Some(n) => g.at(n) == Cell::Wall || (visited(g.at(n)) && dist(g.at(n)) <= dist(g.at(a)) + 1),
            None => true,
        });
        lemma_index_bound(second.x as int, second.y as int, g.width as int, g.height as int);
        assert(g.at(second) != Cell::Wall);
        assert(visited(g.at(second)));
        let q = p.subrange(1, p.len() as int);
        assert(q[0] == second);
        assert(q[q.len() - 1] == b);
        assert forall|j: int| 0 <= j < q.len() - 1 implies adjacent(#[trigger] q[j], q[j + 1]) by {
            assert(adjacent(p[j + 1], p[j + 2]));
        }
        assert(is_open_path(g, q, second, b));
        lemma_path_all_visited(g, q, second, b, bound);
    }
}

/// From any settled cell, following predecessors yields a walkable route from
/// the source whose length is the settled distance plus one. This is the
/// lower half of shortest-distance correctness: the settled distance is
/// achieved by an actual route.
pub proof fn lemma_backtrack_path(g: Grid, start: Coord, c: Coord)
    requires
        settled(g, start),
        g.in_bounds(c),
        visited(g.at(c)),
    ensures
        exists|p: Seq<Coord>|
            #[trigger] is_open_path(g, p, start, c) && p.len() == dist(g.at(c)) + 1,
    decreases dist(g.at(c)),
{
    if dist(g.at(c)) == 0 {
        assert(g.at(c) == Cell::Visited(0usize));
        assert(c == start);
        let p = seq![c];
        assert(is_open_path(g, p, start, c));
    } else {
        let k = (dist(g.at(c)) - 1) as usize;
        assert(pred_at(g, c, k));
        let d = choose|d: Dir| #[trigger] step_gives(g, c, d, Cell::Visited(k));
        lemma_step_props(c, d, g.width, g.height);
        let n = step(c, d, g.width, g.height)->Some_0;
        assert(g.at(n) == Cell::Visited(k));
        lemma_backtrack_path(g, start, n);
        let q = choose|q: Seq<Coord>|
            #[trigger] is_open_path(g, q, start, n) && q.len() == dist(g.at(n)) + 1;
        let p = q.push(c);
        assert forall|j: int| 0 <= j < p.len() implies crate::paths::coord_in(
            g.width as int,
            g.height as int,
            #[trigger] p[j],
        ) && crate::paths::cell_at(g@, g.width as int, p[j]) != Cell::Wall by {
            if j < q.len() {
                assert(p[j] == q[j]);
            } else {
                assert(p[j] == c);
            }
        }
        assert forall|j: int| 0 <= j < p.len() - 1 implies adjacent(#[trigger] p[j], p[j + 1]) by {
            if j < q.len() - 1 {
                assert(p[j] == q[j] && p[j + 1] == q[j + 1]);
            } else {
                assert(p[j] == q[q.len() - 1] && p[j + 1] == c);
                assert(adjacent(n, c));
            }
        }
        assert(p[0] == q[0]);
        assert(is_open_path(g, p, start, c));
        assert(p.len() == dist(g.at(c)) + 1);
    }
}

/// Settles one newly discovered cell: writes the current round's distance
/// over it, appends it to the next frontier, and preserves every invariant
/// of the wave expansion.
#[verifier::rlimit(80)]
fn settle_cell(
    grid: &mut Grid,
    next: &mut Vec<Coord>,
    p: Coord,
    dir: Dir,
    np: Coord,
    distance: usize,
    start: Coord,
    end: Coord,
    Ghost(current): Ghost<Seq<Coord>>,
    Ghost(i): Ghost<int>,
    Ghost(j): Ghost<int>,
)
    requires
        old(grid).wf(),
        old(grid).in_bounds(p),
        old(grid).in_bounds(start),
        old(grid).in_bounds(end),
        old(grid).at(p) == Cell::Visited((distance - 1) as usize),
        step(p, dir, old(grid).width, old(grid).height) == Some(np),
        old(grid).at(np) == Cell::Unvisited,
        1 <= distance,
        start != end,
        old(grid).at(start) == Cell::Visited(0usize),
        zero_only_start(*old(grid), start),
        backtrackable(*old(grid)),
        !visited(old(grid).at(end)),
        closure_below(*old(grid), distance as int - 1),
        dist_bounded(*old(grid), distance as int + 1),
        frontier_at(*old(grid), current, (distance - 1) as usize),
        holds_all_at(*old(grid), current, (distance - 1) as usize),
        frontier_at(*old(grid), old(next)@, distance),
        holds_all_at(*old(grid), old(next)@, distance),
        distance as int + old(next)@.len() <= visited_index_set(*old(grid)).len(),
        all_expanded_upto(*old(grid), current, i),
        0 <= i < current.len(),
        current[i] == p,
        0 <= j < 4,
        dir_order()[j] == dir,
        dirs_done(*old(grid), p, j, distance),
    ensures
        final(grid).wf(),
        final(grid).width == old(grid).width,
        final(grid).height == old(grid).height,
        evolves(*old(grid), *final(grid)),
        final(grid).at(np) == Cell::Visited(distance),
        final(grid).at(start) == Cell::Visited(0usize),
        zero_only_start(*final(grid), start),
        backtrackable(*final(grid)),
        np != end ==> !visited(final(grid).at(end)),
        closure_below(*final(grid), distance as int - 1),
        dist_bounded(*final(grid), distance as int + 1),
        frontier_at(*final(grid), current, (distance - 1) as usize),
        holds_all_at(*final(grid), current, (distance - 1) as usize),
        final(next)@ == old(next)@.push(np),
        frontier_at(*final(grid), final(next)@, distance),
        holds_all_at(*final(grid), final(next)@, distance),
        distance as int + final(next)@.len() <= visited_index_set(*final(grid)).len(),
        all_expanded_upto(*final(grid), current, i),
        dirs_done(*final(grid), p, j + 1, distance),
{
    let ghost g1 = *grid;
    let ghost next1 = next@;
    let w = grid.width;
    let h = grid.height;
    proof {
        lemma_step_props(p, dir, w, h);
    }
    grid.set(np, Cell::Visited(distance));
    next.push(np);
    proof {
        lemma_index_bound(np.x as int, np.y as int, w as int, h as int);
        lemma_index_bound(p.x as int, p.y as int, w as int, h as int);
        if p.y * w + p.x == np.y * w + np.x {
            assert(false);
        }
        assert(grid.at(p) == g1.at(p));
        assert(step(np, rev_dir(dir), w, h) == Some(p));
        assert(step_gives(*grid, np, rev_dir(dir), Cell::Visited((distance - 1) as usize)));
        assert(pred_at(*grid, np, (distance - 1) as usize));
        lemma_settle_invariants(g1, *grid, np, distance, start, distance as int - 1);
        if np != end {
            assert(grid.at(end) == g1.at(end));
        }
        assert forall|k: int|
            0 <= k < current.len() implies grid.in_bounds(#[trigger] current[k]) && grid.at(current[k])
            == Cell::Visited((distance - 1) as usize) by {
            assert(g1.at(current[k]) == Cell::Visited((distance - 1) as usize));
            assert(visited(g1.at(current[k])));
        }
        assert forall|c: Coord|
            grid.in_bounds(c) && (#[trigger] grid.at(c)) == Cell::Visited((distance - 1) as usize)
            implies current.contains(c) by {
            if c != np {
                assert(grid.at(c) == g1.at(c));
            } else {
                assert(grid.at(c) == Cell::Visited(distance));
            }
        }
        assert forall|k: int|
            0 <= k < next@.len() implies grid.in_bounds(#[trigger] next@[k]) && grid.at(next@[k])
            == Cell::Visited(distance) by {
            if k < next1.len() {
                assert(next@[k] == next1[k]);
                assert(visited(g1.at(next1[k])));
            } else {
                assert(next@[k] == np);
            }
        }
        assert forall|c: Coord|
            grid.in_bounds(c) && (#[trigger] grid.at(c)) == Cell::Visited(distance) implies next@.contains(
            c,
        ) by {
            if c == np {
                assert(next@[next@.len() - 1] == np);
            } else {
                assert(grid.at(c) == g1.at(c));
                assert(next1.contains(c));
                lemma_contains_push(next1, np, c);
            }
        }
        assert forall|k: int| 0 <= k < i implies expanded(*grid, #[trigger] current[k]) by {
            assert(expanded(g1, current[k]));
            assert(visited(g1.at(current[k])));
            lemma_expanded_stable(g1, *grid, np, distance, current[k]);
        }
        assert forall|jj: int|
            0 <= jj < j + 1 implies #[trigger] dir_done(*grid, p, dir_order()[jj], distance) by {
            if jj < j {
                assert(dir_done(g1, p, dir_order()[jj], distance));
                lemma_dir_done_stable(g1, *grid, np, distance, p, dir_order()[jj], distance);
            } else {
                assert(dir_order()[jj] == dir);
                assert(grid.at(np) == Cell::Visited(distance));
                assert(dir_done(*grid, p, dir, distance));
            }
        }
    }
}

/// Every settled distance is minimal: no walkable route from the source to
/// a settled cell is shorter than the distance the cell carries.
pub open spec fn min_field(g: Grid, start: Coord) -> bool {
    forall|c: Coord, p: Seq<Coord>|
        g.in_bounds(c) && visited(#[trigger] g.at(c)) && #[trigger] is_open_path(g, p, start, c)
            ==> p.len() >= dist(g.at(c)) + 1
}

/// Every cell that a walkable route of at most `dd` cells reaches from the
/// source is settled, at a distance below that route's cell count.
pub open spec fn complete_upto(g: Grid, start: Coord, dd: int) -> bool {
    forall|c: Coord, p: Seq<Coord>|
        g.in_bounds(c) && #[trigger] is_open_path(g, p, start, c) && p.len() <= dd ==> visited(
            #[trigger] g.at(c),
        ) && dist(g.at(c)) < p.len()
}

/// Once the end cell settles at `distance`, that distance is both achieved
/// by a walkable route and minimal among all walkable routes; moreover the
/// whole field settled so far is minimal and complete below `distance`.
proof fn lemma_finish_ok(g: Grid, start: Coord, end: Coord, distance: usize)
    requires
        settled(g, start),
        g.in_bounds(end),
        g.at(end) == Cell::Visited(distance),
        1 <= distance,
        closure_below(g, distance as int - 1),
        dist_bounded(g, distance as int + 1),
    ensures
        exists|p: Seq<Coord>| #[trigger] is_open_path(g, p, start, end) && p.len() == distance + 1,
        forall|p: Seq<Coord>| is_open_path(g, p, start, end) ==> p.len() >= distance + 1,
        min_field(g, start),
        complete_upto(g, start, distance as int),
{
    lemma_backtrack_path(g, start, end);
    assert forall|q: Seq<Coord>| is_open_path(g, q, start, end) implies q.len() >= distance + 1 by {
        if q.len() < distance + 1 {
            lemma_path_dist_bound(g, q, start, end, 0, distance as int - 1);
        }
    }
    assert forall|c: Coord, p: Seq<Coord>|
        g.in_bounds(c) && visited(#[trigger] g.at(c)) && #[trigger] is_open_path(g, p, start, c)
        implies p.len() >= dist(g.at(c)) + 1 by {
        if p.len() < dist(g.at(c)) + 1 {
            lemma_path_dist_bound(g, p, start, c, 0, distance as int - 1);
        }
    }
    assert forall|c: Coord, p: Seq<Coord>|
        g.in_bounds(c) && #[trigger] is_open_path(g, p, start, c) && p.len() <= distance as int
        implies visited(#[trigger] g.at(c)) && dist(g.at(c)) < p.len() by {
        lemma_path_dist_bound(g, p, start, c, 0, distance as int - 1);
    }
}

/// Multi-frontier breadth-first wave expansion. Settles a shortest-path
/// distance field from `start` into the grid, round by round, consulting the
/// four directions in the fixed scan order, and stops as soon as `end`
/// settles. On success it returns the settled distance of `end`, which is
/// exactly the length of a shortest walkable route from `start` to `end`;
/// cells the expansion never needed stay unvisited.
#[verifier::rlimit(100)]
pub fn flood_distance(grid: &mut Grid, start: Coord, end: Coord) -> (r: Result<usize, SolveError>)
    requires
        old(grid).wf(),
        unflooded(*old(grid)),
    ensures
        final(grid).wf(),
        final(grid).width == old(grid).width,
        final(grid).height == old(grid).height,
        evolves(*old(grid), *final(grid)),
        match r {
            Ok(dd) => {
                &&& old(grid).in_bounds(start) && old(grid).in_bounds(end)
                &&& old(grid).at(start) != Cell::Wall && old(grid).at(end) != Cell::Wall
                &&& settled(*final(grid), start)
                &&& final(grid).at(end) == Cell::Visited(dd)
                &&& forall|c: Coord|
                    final(grid).in_bounds(c) && visited(#[trigger] final(grid).at(c)) ==> dist(
                        final(grid).at(c),
                    ) <= dd
                &&& (dd == 0 <==> start == end)
                &&& exists|p: Seq<Coord>|
                    #[trigger] is_open_path(*final(grid), p, start, end) && p.len() == dd + 1
                &&& forall|p: Seq<Coord>| is_open_path(*final(grid), p, start, end) ==> p.len() >= dd + 1
                &&& min_field(*final(grid), start)
                &&& complete_upto(*final(grid), start, dd as int)
            },
            Err(e) => {
                &&& (e == SolveError::InvalidEndpoint || e == SolveError::NoPathFound)
                &&& ((e == SolveError::InvalidEndpoint) <==> (!old(grid).in_bounds(start) || !old(
                    grid,
                ).in_bounds(end) || old(grid).at(start) == Cell::Wall || old(grid).at(end) == Cell::Wall))
                &&& (e == SolveError::InvalidEndpoint ==> *final(grid) == *old(grid))
                &&& (e == SolveError::NoPathFound ==> {
                    &&& start != end
                    &&& !visited(final(grid).at(end))
                    &&& !reachable(*final(grid), start, end)
                })
            },
        },
{
    let w = grid.width;
    let h = grid.height;
    if !(start.x < w && start.y < h && end.x < w && end.y < h) {
        return Err(SolveError::InvalidEndpoint);
    }
    proof {
        lemma_index_bound(start.x as int, start.y as int, w as int, h as int);
        lemma_index_bound(end.x as int, end.y as int, w as int, h as int);
    }
    if grid.get(start) == Cell::Wall || grid.get(end) == Cell::Wall {
        return Err(SolveError::InvalidEndpoint);
    }
    let ghost g0 = *grid;
    grid.set(start, Cell::Visited(0));
    proof {
        assert(!visited(g0@[start.y * g0.width + start.x]));
        assert(g0.at(start) == Cell::Unvisited);
        assert forall|i: int|
            0 <= i < g0@.len() implies ((#[trigger] grid@[i]) == g0@[i] || (g0@[i] == Cell::Unvisited
            && visited(grid@[i]))) by {}
        assert(evolves(g0, *grid));
        assert forall|c: Coord|
            grid.in_bounds(c) && (#[trigger] grid.at(c)) == Cell::Visited(0usize) implies c == start by {
            lemma_index_bound(c.x as int, c.y as int, w as int, h as int);
            if c.y * g0.width + c.x == start.y * g0.width + start.x {
                lemma_index_injective(c.x as int, c.y as int, start.x as int, start.y as int, w as int);
            } else {
                assert(grid.at(c) == g0.at(c));
                assert(!visited(g0@[c.y * g0.width + c.x]));
            }
        }
        assert forall|c: Coord|
            grid.in_bounds(c) && visited(#[trigger] grid.at(c)) implies grid.at(c) == Cell::Visited(
            0usize,
        ) by {
            lemma_index_bound(c.x as int, c.y as int, w as int, h as int);
            if c.y * g0.width + c.x != start.y * g0.width + start.x {
                assert(grid.at(c) == g0.at(c));
                assert(!visited(g0@[c.y * g0.width + c.x]));
            }
        }
        lemma_settle_one(g0, *grid, start.y * g0.width + start.x, 0);
        lemma_visited_set_bound(*grid);
    }
    if start == end {
        proof {
            let p = seq![start];
            assert(p[0] == start && p[p.len() - 1] == end);
            assert(is_open_path(*grid, p, start, end));
        }
        return Ok(0);
    }
    let mut current: Vec<Coord> = Vec::new();
    current.push(start);
    let mut next: Vec<Coord> = Vec::new();
    let mut distance: usize = 1;
    proof {
        assert(current@[0] == start);
        assert(grid@.len() == w * h);
    }
    loop
        invariant
            grid.wf(),
            grid.width == w,
            grid.height == h,
            w == old(grid).width,
            h == old(grid).height,
            unflooded(*old(grid)),
            evolves(*old(grid), *grid),
            start.x < w && start.y < h && end.x < w && end.y < h,
            old(grid).at(start) != Cell::Wall,
            old(grid).at(end) != Cell::Wall,
            start != end,
            grid.at(start) == Cell::Visited(0usize),
            zero_only_start(*grid, start),
            backtrackable(*grid),
            !visited(grid.at(end)),
            1 <= distance,
            distance <= grid@.len(),
            closure_below(*grid, distance as int - 1),
            dist_bounded(*grid, distance as int),
            frontier_at(*grid, current@, (distance - 1) as usize),
            holds_all_at(*grid, current@, (distance - 1) as usize),
            1 <= current@.len(),
            next@.len() == 0,
            distance as int <= visited_index_set(*grid).len(),
        decreases grid@.len() - distance,
    {
        let mut i: usize = 0;
        while i < current.len()
            invariant
                grid.wf(),
                grid.width == w,
                grid.height == h,
                w == old(grid).width,
                h == old(grid).height,
                unflooded(*old(grid)),
                evolves(*old(grid), *grid),
                start.x < w && start.y < h && end.x < w && end.y < h,
                old(grid).at(start) != Cell::Wall,
                old(grid).at(end) != Cell::Wall,
                start != end,
                grid.at(start) == Cell::Visited(0usize),
                zero_only_start(*grid, start),
                backtrackable(*grid),
                !visited(grid.at(end)),
                1 <= distance,
                distance <= grid@.len(),
                closure_below(*grid, distance as int - 1),
                i <= current@.len(),
                dist_bounded(*grid, distance as int + 1),
                frontier_at(*grid, current@, (distance - 1) as usize),
                holds_all_at(*grid, current@, (distance - 1) as usize),
                frontier_at(*grid, next@, distance),
                holds_all_at(*grid, next@, distance),
                distance as int + next@.len() <= visited_index_set(*grid).len(),
                all_expanded_upto(*grid, current@, i as int),
            decreases current@.len() - i,
        {
            let p = current[i];
            let mut j: usize = 0;
            while j < 4
                invariant
                    grid.wf(),
                    grid.width == w,
                    grid.height == h,
                    w == old(grid).width,
                    h == old(grid).height,
                    unflooded(*old(grid)),
                    evolves(*old(grid), *grid),
                    start.x < w && start.y < h && end.x < w && end.y < h,
                    old(grid).at(start) != Cell::Wall,
                    old(grid).at(end) != Cell::Wall,
                    start != end,
                    grid.at(start) == Cell::Visited(0usize),
                    zero_only_start(*grid, start),
                    backtrackable(*grid),
                    !visited(grid.at(end)),
                    1 <= distance,
                    distance <= grid@.len(),
                    closure_below(*grid, distance as int - 1),
                    i < current@.len(),
                    p == current@[i as int],
                    grid.in_bounds(p),
                    grid.at(p) == Cell::Visited((distance - 1) as usize),
                    j <= 4,
                    dist_bounded(*grid, distance as int + 1),
                    frontier_at(*grid, current@, (distance - 1) as usize),
                    holds_all_at(*grid, current@, (distance - 1) as usize),
                    frontier_at(*grid, next@, distance),
                    holds_all_at(*grid, next@, distance),
                    distance as int + next@.len() <= visited_index_set(*grid).len(),
                    all_expanded_upto(*grid, current@, i as int),
                    dirs_done(*grid, p, j as int, distance),
                decreases 4 - j,
            {
                let dir = nth_dir(j);
                match move_point(p, dir, w, h) {
                    None => {
                        proof {
                            assert(dir_done(*grid, p, dir, distance));
                            assert forall|jj: int|
                                0 <= jj < j + 1 implies #[trigger] dir_done(
                                *grid,
                                p,
                                dir_order()[jj],
                                distance,
                            ) by {}
                        }
                    },
                    Some(np) => {
                        proof {
                            lemma_step_props(p, dir, w, h);
                        }
                        let cell = grid.get(np);
                        match cell {
                            Cell::Unvisited => {
                                let ghost g1 = *grid;
                                settle_cell(
                                    grid,
                                    &mut next,
                                    p,
                                    dir,
                                    np,
                                    distance,
                                    start,
                                    end,
                                    Ghost(current@),
                                    Ghost(i as int),
                                    Ghost(j as int),
                                );
                                proof {
                                    lemma_evolves_trans(*old(grid), g1, *grid);
                                }
                                if np == end {
                                    proof {
                                        lemma_finish_ok(*grid, start, end, distance);
                                    }
                                    return Ok(distance);
                                }
                            },
                            _ => {
                                proof {
                                    assert(grid.at(np) == cell);
                                    if visited(cell) {
                                        assert(dist(grid.at(np)) <= distance);
                                    }
                                    assert(dir_done(*grid, p, dir, distance));
                                    assert forall|jj: int|
                                        0 <= jj < j + 1 implies #[trigger] dir_done(
                                        *grid,
                                        p,
                                        dir_order()[jj],
                                        distance,
                                    ) by {}
                                }
                            },
                        }
                    },
                }
                j += 1;
            }
            proof {
                lemma_dirs_done_expanded(*grid, p, distance);
                assert forall|k: int| 0 <= k < i + 1 implies expanded(*grid, #[trigger] current@[k]) by {}
            }
            i += 1;
        }
        proof {
            assert forall|c: Coord|
                grid.in_bounds(c) && visited(#[trigger] grid.at(c)) && dist(grid.at(c)) < distance as int
                + 1 - 1 implies expanded(*grid, c) by {
                if dist(grid.at(c)) < distance as int - 1 {
                    assert(expanded(*grid, c));
                } else {
                    assert(grid.at(c) == Cell::Visited((distance - 1) as usize));
                    assert(current@.contains(c));
                    let k = choose|k: int| 0 <= k < current@.len() && current@[k] == c;
                    assert(expanded(*grid, current@[k]));
                }
            }
            assert(closure_below(*grid, distance as int));
        }
        if next.len() == 0 {
            proof {
                assert forall|c: Coord|
                    grid.in_bounds(c) && visited(#[trigger] grid.at(c)) implies dist(grid.at(c))
                    < distance as int by {
                    if dist(grid.at(c)) == distance as int {
                        assert(grid.at(c) == Cell::Visited(distance));
                        assert(next@.contains(c));
                    }
                }
                assert(dist_bounded(*grid, distance as int));
                if reachable(*grid, start, end) {
                    let q = choose|q: Seq<Coord>| is_open_path(*grid, q, start, end);
                    lemma_path_all_visited(*grid, q, start, end, distance as int);
                }
            }
            return Err(SolveError::NoPathFound);
        }
        proof {
            lemma_visited_set_bound(*grid);
            assert(distance as int + 1 <= grid@.len());
        }
        current = next;
        next = Vec::new();
        distance = distance + 1;
    }
}

} // verus!
