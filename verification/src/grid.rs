//! The maze's cell grid: per-cell passage flags, the four cardinal
//! directions, and the rectangular grid of cells that the builder fills and
//! the renderer reads.

use vstd::prelude::*;

verus! {

/// One maze cell: a visited flag for the builder's walk and four independent
/// passage flags (true = passage open toward that neighbor).
#[derive(Debug, Clone, Copy, PartialEq, Eq, Structural)]
pub struct Cell {
    pub visited: bool,
    pub north: bool,
    pub east: bool,
    pub south: bool,
    pub west: bool,
}

impl Cell {
    /// The state of a freshly allocated cell: unvisited, all walls closed.
    pub open spec fn initial() -> Cell {
        Cell { visited: false, north: false, east: false, south: false, west: false }
    }
}

impl Default for Cell {
    fn default() -> (c: Cell)
        ensures
            c == Cell::initial(),
    {
        Cell { visited: false, north: false, east: false, south: false, west: false }
    }
}

/// One of the four cardinal directions.
#[derive(Debug, Clone, Copy, PartialEq, Eq, Structural)]
pub enum Direction {
    North,
    East,
    South,
    West,
}

/// Whether `c`'s passage toward direction `d` is open.
pub open spec fn cell_open(c: Cell, d: Direction) -> bool {
    match d {
        Direction::North => c.north,
        Direction::East => c.east,
        Direction::South => c.south,
        Direction::West => c.west,
    }
}

/// `c` with the passage toward `d` opened; every other field unchanged.
pub open spec fn open_toward(c: Cell, d: Direction) -> Cell {
    match d {
        Direction::North => Cell { north: true, ..c },
        Direction::East => Cell { east: true, ..c },
        Direction::South => Cell { south: true, ..c },
        Direction::West => Cell { west: true, ..c },
    }
}

/// `c` with the visited flag set; every passage flag unchanged.
pub open spec fn mark_visited(c: Cell) -> Cell {
    Cell { visited: true, ..c }
}

impl Direction {
    /// The x offset of one step in this direction.
    pub open spec fn dx(self) -> int {
        match self {
            Direction::East => 1,
            Direction::West => -1,
            _ => 0,
        }
    }

    /// The y offset of one step in this direction (north decreases y).
    pub open spec fn dy(self) -> int {
        match self {
            Direction::North => -1,
            Direction::South => 1,
            _ => 0,
        }
    }

    /// The opposite direction.
    pub open spec fn spec_reverse(self) -> Direction {
        match self {
            Direction::North => Direction::South,
            Direction::East => Direction::West,
            Direction::South => Direction::North,
            Direction::West => Direction::East,
        }
    }

    pub fn reverse(self) -> (r: Direction)
        ensures
            r == self.spec_reverse(),
    {
        match self {
            Direction::North => Direction::South,
            Direction::East => Direction::West,
            Direction::South => Direction::North,
            Direction::West => Direction::East,
        }
    }

    /// The neighboring coordinate one step in this direction, or `None` when
    /// the step would leave the `[0, width) x [0, height)` grid.
    pub fn vector(self, x: usize, y: usize, width: usize, height: usize) -> (r: Option<
        DirectionVector,
    >)
        requires
            x < width,
            y < height,
        ensures
            match r {
                Some(v) => {
                    &&& v.direction == self
                    &&& v.x == x + self.dx()
                    &&& v.y == y + self.dy()
                    &&& 0 <= x + self.dx() < width
                    &&& 0 <= y + self.dy() < height
                },
                None => !(0 <= x + self.dx() < width && 0 <= y + self.dy() < height),
            },
    {
        match self {
            Direction::North => if y > 0 {
                Some(DirectionVector { direction: self, x, y: y - 1 })
            } else {
                None
            },
            Direction::East => if x + 1 < width {
                Some(DirectionVector { direction: self, x: x + 1, y })
            } else {
                None
            },
            Direction::South => if y + 1 < height {
                Some(DirectionVector { direction: self, x, y: y + 1 })
            } else {
                None
            },
            Direction::West => if x > 0 {
                Some(DirectionVector { direction: self, x: x - 1, y })
            } else {
                None
            },
        }
    }

    /// Opens the passage on `cell`'s side toward this direction. No other
    /// field is touched.
    pub fn mark(self, cell: &mut Cell)
        ensures
            *final(cell) == open_toward(*old(cell), self),
    {
        match self {
            Direction::North => cell.north = true,
            Direction::East => cell.east = true,
            Direction::South => cell.south = true,
            Direction::West => cell.west = true,
        }
    }

    /// Every direction, once.
    pub fn all() -> (v: Vec<Direction>)
        ensures
            v@ == seq![Direction::North, Direction::East, Direction::South, Direction::West],
    {
        let mut v: Vec<Direction> = Vec::new();
        v.push(Direction::North);
        v.push(Direction::East);
        v.push(Direction::South);
        v.push(Direction::West);
        proof {
            assert(v@ =~= seq![
                Direction::North,
                Direction::East,
                Direction::South,
                Direction::West,
            ]);
        }
        v
    }
}

/// A direction together with the coordinate it leads to.
#[derive(Debug, Clone, Copy, PartialEq, Eq, Structural)]
pub struct DirectionVector {
    pub direction: Direction,
    pub x: usize,
    pub y: usize,
}

impl DirectionVector {
    #[verifier::allow_in_spec]
    pub fn direction(self) -> (d: Direction)
        returns
            self.direction,
    {
        self.direction
    }

    #[verifier::allow_in_spec]
    pub fn x(self) -> (r: usize)
        returns
            self.x,
    {
        self.x
    }

    #[verifier::allow_in_spec]
    pub fn y(self) -> (r: usize)
        returns
            self.y,
    {
        self.y
    }
}

/// A `height` rows by `width` columns grid of cells, row-major.
///
/// The flat cell vector always holds exactly `width * height` entries
/// ([`Grid::wf`]); cells are addressed by `(x, y)` with `x` the column.
#[derive(Debug)]
pub struct Grid {
    width: usize,
    height: usize,
    cells: Vec<Cell>,
}

impl Grid {
    pub closed spec fn spec_width(self) -> int {
        self.width as int
    }

    pub closed spec fn spec_height(self) -> int {
        self.height as int
    }

    pub closed spec fn cells_view(self) -> Seq<Cell> {
        self.cells@
    }

    /// The cell vector holds one cell per grid position.
    pub open spec fn wf(self) -> bool {
        self.cells_view().len() == self.spec_width() * self.spec_height()
    }

    pub open spec fn in_bounds(self, x: int, y: int) -> bool {
        0 <= x < self.spec_width() && 0 <= y < self.spec_height()
    }

    /// Row-major index of `(x, y)`.
    pub open spec fn idx(self, x: int, y: int) -> int {
        y * self.spec_width() + x
    }

    pub open spec fn cell_at(self, x: int, y: int) -> Cell {
        self.cells_view()[self.idx(x, y)]
    }

    /// A grid of the given dimensions with every cell in its initial state.
    pub fn new(width: usize, height: usize) -> (g: Grid)
        requires
            1 <= width,
            1 <= height,
            width * height <= usize::MAX,
        ensures
            g.wf(),
            g.spec_width() == width,
            g.spec_height() == height,
            forall|i: int| 0 <= i < g.cells_view().len() ==> g.cells_view()[i] == Cell::initial(),
    {
        let total = width * height;
        let mut cells: Vec<Cell> = Vec::new();
        while cells.len() < total
            invariant
                cells@.len() <= total,
                forall|i: int| 0 <= i < cells@.len() ==> cells@[i] == Cell::initial(),
            decreases total - cells@.len(),
        {
            cells.push(Cell::default());
        }
        Grid { width, height, cells }
    }

    pub fn width(&self) -> (w: usize)
        ensures
            w == self.spec_width(),
    {
        self.width
    }

    pub fn height(&self) -> (h: usize)
        ensures
            h == self.spec_height(),
    {
        self.height
    }

    /// The cell at column `x`, row `y`.
    pub fn cell(&self, x: usize, y: usize) -> (c: Cell)
        requires
            self.wf(),
            self.in_bounds(x as int, y as int),
        ensures
            c == self.cell_at(x as int, y as int),
    {
        let _vec_len = self.cells.len();
        proof {
            lemma_idx_in_range(self.spec_width(), self.spec_height(), x as int, y as int);
        }
        self.cells[y * self.width + x]
    }

    /// Replaces the cell at `(x, y)`; every other cell is unchanged.
    fn put_cell(&mut self, x: usize, y: usize, c: Cell)
        requires
            old(self).wf(),
            old(self).in_bounds(x as int, y as int),
        ensures
            final(self).wf(),
            final(self).spec_width() == old(self).spec_width(),
            final(self).spec_height() == old(self).spec_height(),
            final(self).cells_view() == old(self).cells_view().update(
                old(self).idx(x as int, y as int),
                c,
            ),
    {
        let _vec_len = self.cells.len();
        proof {
            lemma_idx_in_range(self.spec_width(), self.spec_height(), x as int, y as int);
        }
        let i = y * self.width + x;
        self.cells.set(i, c);
    }

    /// Sets the visited flag of the cell at `(x, y)`.
    pub(crate) fn set_visited(&mut self, x: usize, y: usize)
        requires
            old(self).wf(),
            old(self).in_bounds(x as int, y as int),
        ensures
            final(self).wf(),
            final(self).spec_width() == old(self).spec_width(),
            final(self).spec_height() == old(self).spec_height(),
            final(self).cells_view() == old(self).cells_view().update(
                old(self).idx(x as int, y as int),
                mark_visited(old(self).cell_at(x as int, y as int)),
            ),
    {
        let mut c = self.cell(x, y);
        c.visited = true;
        self.put_cell(x, y, c);
    }

    /// Opens the passage of the cell at `(x, y)` toward `d`.
    pub(crate) fn open_passage(&mut self, x: usize, y: usize, d: Direction)
        requires
            old(self).wf(),
            old(self).in_bounds(x as int, y as int),
        ensures
            final(self).wf(),
            final(self).spec_width() == old(self).spec_width(),
            final(self).spec_height() == old(self).spec_height(),
            final(self).cells_view() == old(self).cells_view().update(
                old(self).idx(x as int, y as int),
                open_toward(old(self).cell_at(x as int, y as int), d),
            ),
    {
        let mut c = self.cell(x, y);
        d.mark(&mut c);
        self.put_cell(x, y, c);
    }
}

impl Grid {
    /// Adjacent cells agree about the passage between them: a cell's side
    /// toward direction `d` is open exactly when its neighbor's side toward
    /// the reverse direction is.
    pub open spec fn edge_symmetric(self) -> bool {
        forall|x: int, y: int, d: Direction|
            self.in_bounds(x, y) && self.in_bounds(x + d.dx(), y + d.dy())
                ==> #[trigger] cell_open(self.cell_at(x, y), d) == cell_open(
                self.cell_at(x + d.dx(), y + d.dy()),
                d.spec_reverse(),
            )
    }

    /// No passage opens toward the outside of the grid.
    pub open spec fn no_outward(self) -> bool {
        forall|x: int, y: int, d: Direction|
            self.in_bounds(x, y) && !self.in_bounds(x + d.dx(), y + d.dy()) ==> !(
            #[trigger] cell_open(self.cell_at(x, y), d))
    }

    /// The only passages that open toward the outside of the grid are the
    /// entrance (north side of `(0, 0)`) and the exit (south side of the
    /// bottom-right cell).
    pub open spec fn boundary_sealed(self) -> bool {
        forall|x: int, y: int, d: Direction|
            self.in_bounds(x, y) && !self.in_bounds(x + d.dx(), y + d.dy())
                && #[trigger] cell_open(self.cell_at(x, y), d) ==> (x == 0 && y == 0
                && d == Direction::North) || (x == self.spec_width() - 1 && y == self.spec_height()
                - 1 && d == Direction::South)
    }

    /// Internal passages contributed by the cell at flat index `i`: its east
    /// passage when a cell stands to its east, and its south passage
    /// likewise. Counting only east and south sides counts every internal
    /// passage exactly once.
    pub open spec fn passage_contrib(self, i: int) -> int {
        let x = i % self.spec_width();
        let y = i / self.spec_width();
        (if cell_open(self.cells_view()[i], Direction::East) && x + 1 < self.spec_width() {
            1int
        } else {
            0int
        }) + (if cell_open(self.cells_view()[i], Direction::South) && y + 1
            < self.spec_height() {
            1int
        } else {
            0int
        })
    }

    /// Internal passages among the cells at flat indices below `n`.
    pub open spec fn passages_up_to(self, n: int) -> int
        decreases n,
    {
        if n <= 0 {
            0
        } else {
            self.passages_up_to(n - 1) + self.passage_contrib(n - 1)
        }
    }

    /// The number of open internal passages of the whole grid, each passage
    /// counted once.
    pub open spec fn passage_count(self) -> int {
        self.passages_up_to(self.spec_width() * self.spec_height())
    }

    /// `(x, y)` has an in-bounds neighbor against direction `d` whose side
    /// toward `d` is open: one open step leads from that neighbor into
    /// `(x, y)`.
    pub open spec fn step_from(self, x: int, y: int, d: Direction) -> bool {
        self.in_bounds(x - d.dx(), y - d.dy()) && cell_open(
            self.cell_at(x - d.dx(), y - d.dy()),
            d,
        )
    }

    /// `(x, y)` can be reached from `(0, 0)` through open passages in at
    /// most `n` steps.
    pub open spec fn reach_n(self, x: int, y: int, n: nat) -> bool
        decreases n,
    {
        if x == 0 && y == 0 {
            true
        } else if n == 0 {
            false
        } else {
            exists|d: Direction|
                #[trigger] self.step_from(x, y, d) && self.reach_n(
                    x - d.dx(),
                    y - d.dy(),
                    (n - 1) as nat,
                )
        }
    }

    /// `(x, y)` can be reached from `(0, 0)` through open passages.
    pub open spec fn reachable(self, x: int, y: int) -> bool {
        exists|n: nat| self.reach_n(x, y, n)
    }
}

/// `g2` has the same dimensions as `g1` and every open passage side of `g1`.
pub open spec fn opens_le(g1: Grid, g2: Grid) -> bool {
    &&& g1.spec_width() == g2.spec_width()
    &&& g1.spec_height() == g2.spec_height()
    &&& forall|x: int, y: int, d: Direction|
        g1.in_bounds(x, y) && #[trigger] cell_open(g1.cell_at(x, y), d) ==> #[trigger] cell_open(
            g2.cell_at(x, y),
            d,
        )
}

/// Row-major indices stay inside the cell vector.
pub proof fn lemma_idx_in_range(w: int, h: int, x: int, y: int)
    by (nonlinear_arith)
    requires
        0 <= x < w,
        0 <= y < h,
    ensures
        0 <= y * w + x < w * h,
{
}

/// Distinct in-bounds coordinates have distinct row-major indices.
pub proof fn lemma_idx_injective(w: int, h: int, x1: int, y1: int, x2: int, y2: int)
    by (nonlinear_arith)
    requires
        0 <= x1 < w,
        0 <= y1 < h,
        0 <= x2 < w,
        0 <= y2 < h,
        y1 * w + x1 == y2 * w + x2,
    ensures
        x1 == x2 && y1 == y2,
{
}

/// The box-drawing character that pictures a cell's open sides: one arm
/// per open passage, `@` for a fully closed cell.
pub open spec fn spec_glyph(c: Cell) -> char {
    match (c.north, c.east, c.south, c.west) {
        (false, false, false, false) => '@',
        (false, false, false, true) => '\u{2561}',
        (false, false, true, false) => '\u{2565}',
        (false, false, true, true) => '\u{2557}',
        (false, true, false, false) => '\u{255e}',
        (false, true, false, true) => '\u{2550}',
        (false, true, true, false) => '\u{2554}',
        (false, true, true, true) => '\u{2566}',
        (true, false, false, false) => '\u{2568}',
        (true, false, false, true) => '\u{255d}',
        (true, false, true, false) => '\u{2551}',
        (true, false, true, true) => '\u{2563}',
        (true, true, false, false) => '\u{255a}',
        (true, true, false, true) => '\u{2569}',
        (true, true, true, false) => '\u{2560}',
        (true, true, true, true) => '\u{256c}',
    }
}

/// The drawing character for one cell, for a textual picture of the grid.
pub fn cell_glyph(c: Cell) -> (ch: char)
    ensures
        ch == spec_glyph(c),
{
    match (c.north, c.east, c.south, c.west) {
        (false, false, false, false) => '@',
        (false, false, false, true) => '\u{2561}',
        (false, false, true, false) => '\u{2565}',
        (false, false, true, true) => '\u{2557}',
        (false, true, false, false) => '\u{255e}',
        (false, true, false, true) => '\u{2550}',
        (false, true, true, false) => '\u{2554}',
        (false, true, true, true) => '\u{2566}',
        (true, false, false, false) => '\u{2568}',
        (true, false, false, true) => '\u{255d}',
        (true, false, true, false) => '\u{2551}',
        (true, false, true, true) => '\u{2563}',
        (true, true, false, false) => '\u{255a}',
        (true, true, false, true) => '\u{2569}',
        (true, true, true, false) => '\u{2560}',
        (true, true, true, true) => '\u{256c}',
    }
}

} // verus!
