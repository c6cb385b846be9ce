use maze_solver::flood::flood_distance;
use maze_solver::grid::{BuildConfig, Cell, Coord, Pixel, SolveError};
use maze_solver::grid::build_grid;
use maze_solver::moves::{move_point, Dir};
use maze_solver::solve_maze;
use maze_solver::trace::trace_path;

fn open_pixel() -> Pixel {
    Pixel { channel: 255, alpha: 255 }
}

fn wall_pixel() -> Pixel {
    Pixel { channel: 0, alpha: 255 }
}

fn cfg() -> BuildConfig {
    BuildConfig { channel_threshold: 240, alpha_threshold: 240 }
}

fn c(x: usize, y: usize) -> Coord {
    Coord { x, y }
}

/// A `3 x 3` buffer, open everywhere except the listed wall cells.
fn pixels_3x3(walls: &[(usize, usize)]) -> Vec<Pixel> {
    let mut v = vec![open_pixel(); 9];
    for &(x, y) in walls {
        v[y * 3 + x] = wall_pixel();
    }
    v
}

#[test]
fn builder_classifies_thresholds() {
    // Channel exactly at the threshold with full alpha: a wall.
    // Channel just above the threshold: open floor.
    // Dark but fully transparent (alpha below the cutoff): open floor.
    let pixels = vec![
        Pixel { channel: 240, alpha: 255 },
        Pixel { channel: 241, alpha: 255 },
        Pixel { channel: 0, alpha: 0 },
        Pixel { channel: 0, alpha: 15 },
    ];
    let g = build_grid(&pixels, 4, 1, cfg()).unwrap();
    assert_eq!(g.get(c(0, 0)), Cell::Wall);
    assert_eq!(g.get(c(1, 0)), Cell::Unvisited);
    assert_eq!(g.get(c(2, 0)), Cell::Unvisited);
    assert_eq!(g.get(c(3, 0)), Cell::Wall);
}

#[test]
fn builder_rejects_bad_sizes() {
    let pixels = pixels_3x3(&[]);
    assert_eq!(build_grid(&pixels, 0, 3, cfg()).err(), Some(SolveError::BuildError));
    assert_eq!(build_grid(&pixels, 3, 0, cfg()).err(), Some(SolveError::BuildError));
    assert_eq!(build_grid(&pixels, 4, 2, cfg()).err(), Some(SolveError::BuildError));
}

#[test]
fn move_point_checks_bounds() {
    assert_eq!(move_point(c(0, 0), Dir::Left, 3, 3), None);
    assert_eq!(move_point(c(0, 0), Dir::Up, 3, 3), None);
    assert_eq!(move_point(c(0, 0), Dir::Down, 3, 3), Some(c(0, 1)));
    assert_eq!(move_point(c(0, 0), Dir::Right, 3, 3), Some(c(1, 0)));
    assert_eq!(move_point(c(2, 2), Dir::Down, 3, 3), None);
    assert_eq!(move_point(c(2, 2), Dir::Right, 3, 3), None);
    assert_eq!(move_point(c(2, 2), Dir::Left, 3, 3), Some(c(1, 2)));
    assert_eq!(move_point(c(2, 2), Dir::Up, 3, 3), Some(c(2, 1)));
}

#[test]
fn open_grid_distance_field_and_path() {
    // Open 3x3 grid, corner to corner: the end settles at distance 4 and the
    // fixed scan order pins the exact route.
    let pixels = pixels_3x3(&[]);
    let mut g = build_grid(&pixels, 3, 3, cfg()).unwrap();
    let d = flood_distance(&mut g, c(0, 0), c(2, 2)).unwrap();
    assert_eq!(d, 4);
    assert_eq!(g.get(c(0, 0)), Cell::Visited(0));
    assert_eq!(g.get(c(0, 1)), Cell::Visited(1));
    assert_eq!(g.get(c(1, 0)), Cell::Visited(1));
    assert_eq!(g.get(c(0, 2)), Cell::Visited(2));
    assert_eq!(g.get(c(1, 1)), Cell::Visited(2));
    assert_eq!(g.get(c(2, 0)), Cell::Visited(2));
    assert_eq!(g.get(c(1, 2)), Cell::Visited(3));
    assert_eq!(g.get(c(2, 1)), Cell::Visited(3));
    assert_eq!(g.get(c(2, 2)), Cell::Visited(4));
    let path = trace_path(&g, c(0, 0), c(2, 2));
    assert_eq!(path, vec![c(2, 2), c(1, 2), c(0, 2), c(0, 1), c(0, 0)]);
}

#[test]
fn solve_pipeline_matches_manual_stages() {
    let pixels = pixels_3x3(&[]);
    let path = solve_maze(&pixels, 3, 3, cfg(), c(0, 0), c(2, 2)).unwrap();
    assert_eq!(path, vec![c(2, 2), c(1, 2), c(0, 2), c(0, 1), c(0, 0)]);
}

#[test]
fn start_equals_end_gives_single_cell_path() {
    let pixels = pixels_3x3(&[]);
    let mut g = build_grid(&pixels, 3, 3, cfg()).unwrap();
    let d = flood_distance(&mut g, c(1, 1), c(1, 1)).unwrap();
    assert_eq!(d, 0);
    assert_eq!(g.get(c(1, 1)), Cell::Visited(0));
    let path = solve_maze(&pixels, 3, 3, cfg(), c(1, 1), c(1, 1)).unwrap();
    assert_eq!(path, vec![c(1, 1)]);
}

#[test]
fn wall_endpoints_are_rejected() {
    // A wall on either endpoint of an otherwise open grid is an error,
    // never a crash.
    let on_start = pixels_3x3(&[(0, 0)]);
    assert_eq!(
        solve_maze(&on_start, 3, 3, cfg(), c(0, 0), c(2, 2)).err(),
        Some(SolveError::InvalidEndpoint)
    );
    let on_end = pixels_3x3(&[(2, 2)]);
    assert_eq!(
        solve_maze(&on_end, 3, 3, cfg(), c(0, 0), c(2, 2)).err(),
        Some(SolveError::InvalidEndpoint)
    );
}

#[test]
fn out_of_bounds_endpoints_are_rejected() {
    let pixels = pixels_3x3(&[]);
    assert_eq!(
        solve_maze(&pixels, 3, 3, cfg(), c(3, 0), c(2, 2)).err(),
        Some(SolveError::InvalidEndpoint)
    );
    assert_eq!(
        solve_maze(&pixels, 3, 3, cfg(), c(0, 0), c(0, 3)).err(),
        Some(SolveError::InvalidEndpoint)
    );
}

#[test]
fn solid_wall_disconnects_regions() {
    // A full wall column splits the grid; the end is unreachable.
    let pixels = pixels_3x3(&[(1, 0), (1, 1), (1, 2)]);
    assert_eq!(
        solve_maze(&pixels, 3, 3, cfg(), c(0, 0), c(2, 0)).err(),
        Some(SolveError::NoPathFound)
    );
}

#[test]
fn chokepoint_forces_the_route() {
    // The wall row leaves a single gap; every route must pass through it.
    let pixels = pixels_3x3(&[(0, 1), (1, 1)]);
    let path = solve_maze(&pixels, 3, 3, cfg(), c(0, 0), c(0, 2)).unwrap();
    assert!(path.contains(&c(2, 1)));
    assert_eq!(
        path,
        vec![c(0, 2), c(1, 2), c(2, 2), c(2, 1), c(2, 0), c(1, 0), c(0, 0)]
    );
}

#[test]
fn early_exit_leaves_far_cells_unvisited() {
    // The end is adjacent to the start in the first scan direction, so the
    // expansion stops before it ever examines the rest of the grid.
    let pixels = pixels_3x3(&[]);
    let mut g = build_grid(&pixels, 3, 3, cfg()).unwrap();
    let d = flood_distance(&mut g, c(0, 0), c(0, 1)).unwrap();
    assert_eq!(d, 1);
    assert_eq!(g.get(c(0, 0)), Cell::Visited(0));
    assert_eq!(g.get(c(0, 1)), Cell::Visited(1));
    assert_eq!(g.get(c(1, 0)), Cell::Unvisited);
    assert_eq!(g.get(c(2, 2)), Cell::Unvisited);
    assert_eq!(g.get(c(1, 1)), Cell::Unvisited);
}

#[test]
fn identical_input_yields_identical_path() {
    let pixels = pixels_3x3(&[(1, 1)]);
    let first = solve_maze(&pixels, 3, 3, cfg(), c(0, 0), c(2, 2)).unwrap();
    let second = solve_maze(&pixels, 3, 3, cfg(), c(0, 0), c(2, 2)).unwrap();
    assert_eq!(first, second);
}

#[test]
fn corridor_walks_straight() {
    // A 5x1 corridor: one round per cell, distance equals the cell count
    // minus one.
    let pixels = vec![open_pixel(); 5];
    let mut g = build_grid(&pixels, 5, 1, cfg()).unwrap();
    let d = flood_distance(&mut g, c(0, 0), c(4, 0)).unwrap();
    assert_eq!(d, 4);
    let path = trace_path(&g, c(0, 0), c(4, 0));
    assert_eq!(path, vec![c(4, 0), c(3, 0), c(2, 0), c(1, 0), c(0, 0)]);
}

#[test]
fn settled_cells_keep_their_distance() {
    // Flooding all the way to the far corner settles every open cell; each
    // holds the true shortest distance and the source stays at zero.
    let pixels = pixels_3x3(&[(1, 1)]);
    let mut g = build_grid(&pixels, 3, 3, cfg()).unwrap();
    let d = flood_distance(&mut g, c(0, 0), c(2, 2)).unwrap();
    assert_eq!(d, 4);
    assert_eq!(g.get(c(0, 0)), Cell::Visited(0));
    assert_eq!(g.get(c(1, 1)), Cell::Wall);
    assert_eq!(g.get(c(2, 2)), Cell::Visited(4));
}
