use vstd::prelude::*;
use vstd::pervasive::VecAdditionalExecFns;

verus! {

/// A grid coordinate: `x` counts columns from the left, `y` counts rows from
/// the top. Coordinates are unsigned; all neighbor arithmetic is checked
/// against the grid bounds before it is applied.
#[derive(Clone, Copy, PartialEq, Eq, Structural, Debug)]
pub struct Coord {
    pub x: usize,
    pub y: usize,
}

/// One cell of the occupancy/distance grid. A cell is a wall, or it is open
/// and either not yet assigned a distance or settled at a shortest distance
/// (in unit steps) from the flood source.
#[derive(Clone, Copy, PartialEq, Eq, Structural, Debug)]
pub enum Cell {
    Wall,
    Unvisited,
    Visited(usize),
}

/// The recoverable failures of the pipeline.
#[derive(Clone, Copy, PartialEq, Eq, Structural, Debug)]
pub enum SolveError {
    /// The input buffer is empty or its length does not match the stated
    /// width and height.
    BuildError,
    /// The start or end coordinate is out of bounds or lands on a wall.
    InvalidEndpoint,
    /// The end cell is not connected to the start cell.
    NoPathFound,
}

/// One input pixel, reduced to the two values the classifier reads: a
/// brightness-bearing channel and an opacity channel.
#[derive(Clone, Copy, PartialEq, Eq, Structural, Debug)]
pub struct Pixel {
    pub channel: u8,
    pub alpha: u8,
}

/// The configurable cutoffs of the classifier: a pixel is a wall when its
/// channel is at most `channel_threshold` and its alpha is at least
/// `255 - alpha_threshold`.
#[derive(Clone, Copy, PartialEq, Eq, Structural, Debug)]
pub struct BuildConfig {
    pub channel_threshold: u8,
    pub alpha_threshold: u8,
}

/// Whether a cell carries a settled distance.
pub open spec fn visited(cell: Cell) -> bool {
    match cell {
        Cell::Visited(_) => true,
        _ => false,
    }
}

/// The settled distance of a cell (0 for cells that carry none).
pub open spec fn dist(cell: Cell) -> usize {
    match cell {
        Cell::Visited(d) => d,
        _ => 0,
    }
}

/// Row-major index bounds: an in-bounds coordinate maps into the flat grid.
pub proof fn lemma_index_bound(x: int, y: int, w: int, h: int)
    by (nonlinear_arith)
    requires
        0 <= x < w,
        0 <= y < h,
    ensures
        0 <= y * w + x < w * h,
{
}

/// Row-major indexing is injective on in-bounds coordinates.
pub proof fn lemma_index_injective(x1: int, y1: int, x2: int, y2: int, w: int)
    by (nonlinear_arith)
    requires
        0 <= x1 < w,
        0 <= x2 < w,
        0 <= y1,
        0 <= y2,
        y1 * w + x1 == y2 * w + x2,
    ensures
        x1 == x2,
        y1 == y2,
{
}

/// The flat, row-major occupancy/distance grid.
pub struct Grid {
    pub width: usize,
    pub height: usize,
    pub cells: Vec<Cell>,
}

impl View for Grid {
    type V = Seq<Cell>;

    closed spec fn view(&self) -> Seq<Cell> {
        self.cells@
    }
}

impl Grid {
    pub open spec fn wf(self) -> bool {
        &&& self@.len() == self.width * self.height
        &&& self.width * self.height <= usize::MAX
    }

    pub open spec fn in_bounds(self, c: Coord) -> bool {
        c.x < self.width && c.y < self.height
    }

    pub open spec fn at(self, c: Coord) -> Cell {
        self@[c.y * self.width + c.x]
    }

    pub fn get(&self, c: Coord) -> (r: Cell)
        requires
            self.wf(),
            self.in_bounds(c),
        ensures
            r == self.at(c),
    {
        proof {
            lemma_index_bound(c.x as int, c.y as int, self.width as int, self.height as int);
        }
        self.cells[c.y * self.width + c.x]
    }

    pub fn set(&mut self, c: Coord, v: Cell)
        requires
            old(self).wf(),
            old(self).in_bounds(c),
        ensures
            final(self).wf(),
            final(self).width == old(self).width,
            final(self).height == old(self).height,
            final(self)@ == old(self)@.update(c.y * old(self).width + c.x, v),
    {
        proof {
            lemma_index_bound(c.x as int, c.y as int, self.width as int, self.height as int);
        }
        let i: usize = c.y * self.width + c.x;
        self.cells.set(i, v);
    }
}

/// A grid in which no cell carries a distance yet: only walls and open,
/// unvisited floor, as the builder produces it.
pub open spec fn unflooded(g: Grid) -> bool {
    forall|i: int| 0 <= i < g@.len() ==> !visited(#[trigger] g@[i])
}

/// How one pixel is classified, given the configured cutoffs.
pub open spec fn classify(p: Pixel, cfg: BuildConfig) -> Cell {
    if p.channel <= cfg.channel_threshold && p.alpha >= 255 - cfg.alpha_threshold {
        Cell::Wall
    } else {
        Cell::Unvisited
    }
}

/// The whole grid contents that the builder produces from a pixel buffer.
pub open spec fn built_cells(pixels: Seq<Pixel>, cfg: BuildConfig) -> Seq<Cell> {
    pixels.map_values(|p: Pixel| classify(p, cfg))
}

fn classify_pixel(p: Pixel, cfg: BuildConfig) -> (c: Cell)
    ensures
        c == classify(p, cfg),
{
    if p.channel <= cfg.channel_threshold && p.alpha >= 255 - cfg.alpha_threshold {
        Cell::Wall
    } else {
        Cell::Unvisited
    }
}

/// Classifies each pixel of a `width * height` buffer as wall or open floor.
/// Total over well-shaped buffers; rejects empty or mis-sized buffers.
pub fn build_grid(pixels: &Vec<Pixel>, width: usize, height: usize, cfg: BuildConfig) -> (r: Result<
    Grid,
    SolveError,
>)
    ensures
        match r {
            Ok(g) => {
                &&& g.wf()
                &&& g.width == width
                &&& g.height == height
                &&& width > 0
                &&& height > 0
                &&& pixels@.len() == width * height
                &&& g@ == built_cells(pixels@, cfg)
                &&& unflooded(g)
            },
            Err(e) => {
                &&& e == SolveError::BuildError
                &&& (width == 0 || height == 0 || pixels@.len() != width * height)
            },
        },
{
    if width == 0 || height == 0 {
        return Err(SolveError::BuildError);
    }
    let n = pixels.len();
    let total: usize = match width.checked_mul(height) {
        Some(t) => t,
        None => {
            return Err(SolveError::BuildError);
        },
    };
    if n != total {
        return Err(SolveError::BuildError);
    }
    let mut cells: Vec<Cell> = Vec::new();
    let mut i: usize = 0;
    while i < total
        invariant
            total == width * height,
            pixels@.len() == total,
            i <= total,
            cells@.len() == i,
            forall|k: int| 0 <= k < i ==> cells@[k] == classify(pixels@[k], cfg),
        decreases total - i,
    {
        let c = classify_pixel(pixels[i], cfg);
        cells.push(c);
        i += 1;
    }
    proof {
        assert(cells@ =~= built_cells(pixels@, cfg));
    }
    Ok(Grid { width, height, cells })
}

} // verus!
