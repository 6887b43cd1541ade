//! Randomized maze construction: iterative backtracking over the cell grid,
//! opening passages chosen by weighted random sampling, until the open
//! passages form a spanning tree of the grid.

use rand::distributions::Distribution;
use vstd::arithmetic::div_mod::lemma_fundamental_div_mod_converse;
use vstd::prelude::*;

use crate::grid::{
    cell_open, lemma_idx_in_range, lemma_idx_injective, mark_visited, open_toward, opens_le, Cell,
    Direction, DirectionVector, Grid,
};

verus! {

/// The configuration errors that maze generation reports. Generation either
/// fully succeeds or fails with one of these before any buffer is produced.
#[derive(Debug, Clone, Copy, PartialEq, Eq, Structural)]
pub enum ConfigError {
    /// A zero grid dimension, or a block size with a zero component, was
    /// requested.
    DegenerateDimensions,
    /// Weighted sampling met a candidate set whose weights are all zero.
    AllWeightsZero,
    /// Padding and wall size leave no room for the maze inside the image.
    InvalidRegion,
    /// The grid handed to the renderer does not match the block count that
    /// the geometry derives.
    GridMismatch,
}

/// A mapping from directions to positive selection weights, with a default
/// weight for any direction left unmapped. Read-only during generation.
#[derive(Debug, Clone, Copy, PartialEq, Eq, Structural)]
pub struct WeightConfig {
    pub north: Option<u32>,
    pub east: Option<u32>,
    pub south: Option<u32>,
    pub west: Option<u32>,
    pub default_weight: u32,
}

impl WeightConfig {
    /// The weight looked up for `d`: the mapped value, or the default when
    /// the direction is unmapped.
    pub open spec fn spec_weight(self, d: Direction) -> u32 {
        let mapped = match d {
            Direction::North => self.north,
            Direction::East => self.east,
            Direction::South => self.south,
            Direction::West => self.west,
        };
        match mapped {
            Some(w) => w,
            None => self.default_weight,
        }
    }

    /// A configuration that maps no direction: every lookup falls back to
    /// `default_weight`.
    pub fn uniform(default_weight: u32) -> (c: WeightConfig)
        ensures
            forall|d: Direction| c.spec_weight(d) == default_weight,
    {
        WeightConfig { north: None, east: None, south: None, west: None, default_weight }
    }

    pub fn weight(&self, d: Direction) -> (w: u32)
        ensures
            w == self.spec_weight(d),
    {
        let mapped = match d {
            Direction::North => self.north,
            Direction::East => self.east,
            Direction::South => self.south,
            Direction::West => self.west,
        };
        match mapped {
            Some(w) => w,
            None => self.default_weight,
        }
    }
}

/// The sum of a sequence of weights.
spec fn sum_weights(s: Seq<u64>) -> int
    decreases s.len(),
{
    if s.len() == 0 {
        0
    } else {
        sum_weights(s.drop_last()) + s.last()
    }
}

proof fn lemma_sum_weights_bound(s: Seq<u64>, b: int)
    requires
        0 <= b,
        forall|i: int| 0 <= i < s.len() ==> s[i] <= b,
    ensures
        0 <= sum_weights(s) <= s.len() * b,
    decreases s.len(),
{
    if s.len() > 0 {
        lemma_sum_weights_bound(s.drop_last(), b);
        assert((s.len() - 1) * b + b == s.len() * b) by (nonlinear_arith);
    }
}

/// Picks an index of `weights` at random, each index with probability
/// proportional to its weight, using the process-local generator.
///
/// Relies on rand's `WeightedIndex`: `WeightedIndex::new` fails exactly when
/// the weights are empty or sum to zero (no weight can be negative here),
/// and `sample` returns the index of an entry with positive weight. The
/// requirement on the sum rules out overflow of rand's running total.
#[verifier::external_body]
fn pick_weighted(weights: &Vec<u64>) -> (r: Option<usize>)
    requires
        sum_weights(weights@) <= u64::MAX,
    ensures
        match r {
            Some(i) => i < weights@.len() && weights@[i as int] > 0,
            None => forall|j: int| 0 <= j < weights@.len() ==> weights@[j] == 0,
        },
{
    let dist = match rand::distributions::WeightedIndex::new(weights) {
        Ok(d) => d,
        Err(_) => return None,
    };
    Some(dist.sample(&mut rand::thread_rng()))
}

/// Unvisited cells among the first `n` entries of `s`.
spec fn unvisited_up_to(s: Seq<Cell>, n: int) -> int
    decreases n,
{
    if n <= 0 {
        0
    } else {
        unvisited_up_to(s, n - 1) + (if s[n - 1].visited {
            0int
        } else {
            1int
        })
    }
}

/// Unvisited cells in the whole grid.
spec fn num_unvisited(g: Grid) -> int {
    unvisited_up_to(g.cells_view(), g.cells_view().len() as int)
}

proof fn lemma_unvisited_bounds(s: Seq<Cell>, n: int)
    requires
        n <= s.len(),
    ensures
        0 <= unvisited_up_to(s, n) <= if n >= 0 {
            n
        } else {
            0
        },
    decreases n,
{
    if n > 0 {
        lemma_unvisited_bounds(s, n - 1);
    }
}

/// Changing the entry at index `i0` shifts the unvisited count by the
/// difference of that entry's contribution, and only that.
proof fn lemma_unvisited_update(s1: Seq<Cell>, s2: Seq<Cell>, i0: int, n: int)
    requires
        s2.len() == s1.len(),
        0 <= i0 < s1.len(),
        forall|j: int| 0 <= j < s1.len() && j != i0 ==> s2[j] == s1[j],
        n <= s1.len(),
    ensures
        unvisited_up_to(s2, n) == unvisited_up_to(s1, n) + if i0 < n {
            (if s2[i0].visited {
                0int
            } else {
                1int
            }) - (if s1[i0].visited {
                0int
            } else {
                1int
            })
        } else {
            0int
        },
    decreases n,
{
    if n > 0 {
        lemma_unvisited_update(s1, s2, i0, n - 1);
    }
}

/// The same, for the internal passage count.
proof fn lemma_passages_update(g1: Grid, g2: Grid, i0: int, n: int)
    requires
        g1.wf(),
        g2.wf(),
        g2.spec_width() == g1.spec_width(),
        g2.spec_height() == g1.spec_height(),
        0 <= i0 < g1.cells_view().len(),
        forall|j: int|
            0 <= j < g1.cells_view().len() && j != i0 ==> g2.cells_view()[j]
                == g1.cells_view()[j],
        n <= g1.cells_view().len(),
    ensures
        g2.passages_up_to(n) == g1.passages_up_to(n) + if i0 < n {
            g2.passage_contrib(i0) - g1.passage_contrib(i0)
        } else {
            0int
        },
    decreases n,
{
    if n > 0 {
        lemma_passages_update(g1, g2, i0, n - 1);
    }
}

/// In a grid of all-initial cells nothing is open and nothing is visited.
proof fn lemma_counts_initial(g: Grid, n: int)
    requires
        g.wf(),
        forall|i: int| 0 <= i < g.cells_view().len() ==> g.cells_view()[i] == Cell::initial(),
        n <= g.cells_view().len(),
    ensures
        g.passages_up_to(n) == 0,
        unvisited_up_to(g.cells_view(), n) == if n >= 0 {
            n
        } else {
            0
        },
    decreases n,
{
    if n > 0 {
        lemma_counts_initial(g, n - 1);
    }
}

/// Once every cell is visited, no prefix holds an unvisited cell.
proof fn lemma_all_visited_count(s: Seq<Cell>, n: int)
    requires
        n <= s.len(),
        forall|i: int| 0 <= i < s.len() ==> s[i].visited,
    ensures
        unvisited_up_to(s, n) == 0,
    decreases n,
{
    if n > 0 {
        lemma_all_visited_count(s, n - 1);
    }
}

/// The flat index of an in-bounds coordinate decomposes back into it.
proof fn lemma_idx_div_mod(w: int, h: int, x: int, y: int)
    requires
        0 <= x < w,
        0 <= y < h,
    ensures
        (y * w + x) / w == y,
        (y * w + x) % w == x,
{
    lemma_fundamental_div_mod_converse(y * w + x, w, y, x);
}

/// Replacing the cell at `(x0, y0)` leaves every other cell unchanged.
proof fn lemma_put_frame(g1: Grid, g2: Grid, x0: int, y0: int, c: Cell)
    requires
        g1.wf(),
        g1.in_bounds(x0, y0),
        g2.spec_width() == g1.spec_width(),
        g2.spec_height() == g1.spec_height(),
        g2.cells_view() == g1.cells_view().update(g1.idx(x0, y0), c),
    ensures
        g2.wf(),
        g2.cell_at(x0, y0) == c,
        forall|x: int, y: int|
            g2.in_bounds(x, y) && !(x == x0 && y == y0) ==> #[trigger] g2.cell_at(x, y)
                == g1.cell_at(x, y),
{
    lemma_idx_in_range(g1.spec_width(), g1.spec_height(), x0, y0);
    assert forall|x: int, y: int|
        g2.in_bounds(x, y) && !(x == x0 && y == y0) implies #[trigger] g2.cell_at(x, y)
        == g1.cell_at(x, y) by {
        lemma_idx_in_range(g1.spec_width(), g1.spec_height(), x, y);
        if g1.idx(x, y) == g1.idx(x0, y0) {
            lemma_idx_injective(g1.spec_width(), g1.spec_height(), x, y, x0, y0);
        }
    }
}

/// Opening more passages never severs a path from the origin.
proof fn lemma_reach_mono(g1: Grid, g2: Grid, x: int, y: int, n: nat)
    requires
        opens_le(g1, g2),
        g1.reach_n(x, y, n),
    ensures
        g2.reach_n(x, y, n),
    decreases n,
{
    if !(x == 0 && y == 0) {
        let d = choose|d: Direction|
            #[trigger] g1.step_from(x, y, d) && g1.reach_n(x - d.dx(), y - d.dy(), (n - 1) as nat);
        lemma_reach_mono(g1, g2, x - d.dx(), y - d.dy(), (n - 1) as nat);
        assert(g2.step_from(x, y, d));
    }
}

/// Every coordinate reachable before a passage is opened stays reachable.
proof fn lemma_reachable_mono(g1: Grid, g2: Grid)
    requires
        opens_le(g1, g2),
    ensures
        forall|x: int, y: int| g1.reachable(x, y) ==> g2.reachable(x, y),
{
    assert forall|x: int, y: int| g1.reachable(x, y) implies g2.reachable(x, y) by {
        let n = choose|n: nat| g1.reach_n(x, y, n);
        lemma_reach_mono(g1, g2, x, y, n);
    }
}

/// `(x, y)` occurs somewhere in the backtracking stack.
spec fn in_stack(st: Seq<(usize, usize)>, x: int, y: int) -> bool {
    exists|i: int| 0 <= i < st.len() && (#[trigger] st[i]).0 == x && st[i].1 == y
}

/// The neighbor of `(x, y)` one step toward `d` is visited, if it exists.
spec fn neighbor_visited(g: Grid, x: int, y: int, d: Direction) -> bool {
    g.in_bounds(x + d.dx(), y + d.dy()) ==> g.cell_at(x + d.dx(), y + d.dy()).visited
}

/// Every visited cell that has left the stack has all its in-bounds
/// neighbors visited: the walk only backtracks out of a cell once nothing
/// around it is left to visit.
spec fn visited_closed(g: Grid, st: Seq<(usize, usize)>) -> bool {
    forall|x: int, y: int, d: Direction|
        g.in_bounds(x, y) && g.cell_at(x, y).visited && !in_stack(st, x, y)
            ==> #[trigger] neighbor_visited(g, x, y, d)
}

/// The step from `(x, y)` toward `d` stays in bounds and lands on an
/// unvisited cell: the candidate test of the walk.
spec fn unvisited_toward(g: Grid, x: int, y: int, d: Direction) -> bool {
    g.in_bounds(x + d.dx(), y + d.dy()) && !g.cell_at(x + d.dx(), y + d.dy()).visited
}

/// `v` records a valid candidate step out of `(x, y)`.
spec fn is_candidate(g: Grid, x: int, y: int, v: DirectionVector) -> bool {
    &&& v.x as int == x + v.direction.dx()
    &&& v.y as int == y + v.direction.dy()
    &&& g.in_bounds(v.x as int, v.y as int)
    &&& !g.cell_at(v.x as int, v.y as int).visited
}

/// 1 when the stack has a top that is not yet visited, else 0.
spec fn top_unvisited(g: Grid, st: Seq<(usize, usize)>) -> int {
    if st.len() > 0 && !g.cell_at(st.last().0 as int, st.last().1 as int).visited {
        1
    } else {
        0
    }
}

/// In a grid whose visited set contains the origin and is closed under
/// adjacency, every cell is visited. Walks to `(x, y)` east then south.
proof fn lemma_visited_cell(g: Grid, x: int, y: int)
    requires
        g.wf(),
        g.spec_width() >= 1,
        g.spec_height() >= 1,
        g.cell_at(0, 0).visited,
        forall|xx: int, yy: int, dd: Direction|
            g.in_bounds(xx, yy) && g.cell_at(xx, yy).visited ==> #[trigger] neighbor_visited(
                g,
                xx,
                yy,
                dd,
            ),
        g.in_bounds(x, y),
    ensures
        g.cell_at(x, y).visited,
    decreases x + y,
{
    if x > 0 {
        lemma_visited_cell(g, x - 1, y);
        assert(neighbor_visited(g, x - 1, y, Direction::East));
    } else if y > 0 {
        lemma_visited_cell(g, x, y - 1);
        assert(neighbor_visited(g, x, y - 1, Direction::South));
    }
}

/// Marking a cell visited changes no passage flag, no dimension, and shifts
/// the unvisited count by at most one.
proof fn lemma_visit_step(g0: Grid, g1: Grid, x: int, y: int)
    requires
        g0.wf(),
        g0.in_bounds(x, y),
        g1.spec_width() == g0.spec_width(),
        g1.spec_height() == g0.spec_height(),
        g1.cells_view() == g0.cells_view().update(
            g0.idx(x, y),
            mark_visited(g0.cell_at(x, y)),
        ),
    ensures
        g1.wf(),
        g1.cell_at(x, y) == mark_visited(g0.cell_at(x, y)),
        g1.cell_at(x, y).visited,
        forall|xx: int, yy: int|
            g1.in_bounds(xx, yy) && !(xx == x && yy == y) ==> #[trigger] g1.cell_at(xx, yy)
                == g0.cell_at(xx, yy),
        forall|xx: int, yy: int, dd: Direction|
            g1.in_bounds(xx, yy) ==> #[trigger] cell_open(g1.cell_at(xx, yy), dd) == cell_open(
                g0.cell_at(xx, yy),
                dd,
            ),
        opens_le(g0, g1),
        opens_le(g1, g0),
        g0.no_outward() ==> g1.no_outward(),
        g0.edge_symmetric() ==> g1.edge_symmetric(),
        g1.passage_count() == g0.passage_count(),
        num_unvisited(g1) == num_unvisited(g0) - (if g0.cell_at(x, y).visited {
            0int
        } else {
            1int
        }),
{
    lemma_put_frame(g0, g1, x, y, mark_visited(g0.cell_at(x, y)));
    assert forall|xx: int, yy: int, dd: Direction| g1.in_bounds(xx, yy) implies #[trigger] cell_open(
        g1.cell_at(xx, yy),
        dd,
    ) == cell_open(g0.cell_at(xx, yy), dd) by {
        if xx == x && yy == y {
            assert(g1.cell_at(xx, yy) == mark_visited(g0.cell_at(xx, yy)));
        }
    }
    if g0.no_outward() {
        assert forall|xx: int, yy: int, dd: Direction|
            g1.in_bounds(xx, yy) && !g1.in_bounds(xx + dd.dx(), yy + dd.dy()) implies !(
        #[trigger] cell_open(g1.cell_at(xx, yy), dd)) by {
            assert(!cell_open(g0.cell_at(xx, yy), dd));
        }
    }
    if g0.edge_symmetric() {
        assert forall|xx: int, yy: int, dd: Direction|
            g1.in_bounds(xx, yy) && g1.in_bounds(xx + dd.dx(), yy + dd.dy()) implies #[trigger] cell_open(
            g1.cell_at(xx, yy),
            dd,
        ) == cell_open(g1.cell_at(xx + dd.dx(), yy + dd.dy()), dd.spec_reverse()) by {
            assert(cell_open(g0.cell_at(xx, yy), dd) == cell_open(
                g0.cell_at(xx + dd.dx(), yy + dd.dy()),
                dd.spec_reverse(),
            ));
        }
    }
    let i0 = g0.idx(x, y);
    lemma_idx_in_range(g0.spec_width(), g0.spec_height(), x, y);
    lemma_passages_update(g0, g1, i0, g0.cells_view().len() as int);
    lemma_idx_div_mod(g0.spec_width(), g0.spec_height(), x, y);
    assert(g1.passage_contrib(i0) == g0.passage_contrib(i0));
    lemma_unvisited_update(g0.cells_view(), g1.cells_view(), i0, g0.cells_view().len() as int);
}

/// What opening one passage side adds to the internal passage count: one
/// when a previously closed east or south side gains an in-bounds neighbor
/// passage, else nothing.
spec fn open_delta(g: Grid, x: int, y: int, d: Direction) -> int {
    if cell_open(g.cell_at(x, y), d) {
        0
    } else if (d == Direction::East && x + 1 < g.spec_width()) || (d == Direction::South && y + 1
        < g.spec_height()) {
        1
    } else {
        0
    }
}

/// Opening the side of `(x, y)` toward `d` changes exactly that flag, no
/// visited flag, and raises the passage count by `open_delta`.
proof fn lemma_open_step(g0: Grid, g1: Grid, x: int, y: int, d: Direction)
    requires
        g0.wf(),
        g0.in_bounds(x, y),
        g1.spec_width() == g0.spec_width(),
        g1.spec_height() == g0.spec_height(),
        g1.cells_view() == g0.cells_view().update(
            g0.idx(x, y),
            open_toward(g0.cell_at(x, y), d),
        ),
    ensures
        g1.wf(),
        g1.cell_at(x, y) == open_toward(g0.cell_at(x, y), d),
        cell_open(g1.cell_at(x, y), d),
        forall|xx: int, yy: int|
            g1.in_bounds(xx, yy) && !(xx == x && yy == y) ==> #[trigger] g1.cell_at(xx, yy)
                == g0.cell_at(xx, yy),
        forall|xx: int, yy: int|
            g1.in_bounds(xx, yy) ==> (#[trigger] g1.cell_at(xx, yy)).visited == g0.cell_at(
                xx,
                yy,
            ).visited,
        forall|xx: int, yy: int, dd: Direction|
            g1.in_bounds(xx, yy) && !(xx == x && yy == y && dd == d) ==> #[trigger] cell_open(
                g1.cell_at(xx, yy),
                dd,
            ) == cell_open(g0.cell_at(xx, yy), dd),
        opens_le(g0, g1),
        num_unvisited(g1) == num_unvisited(g0),
        g1.passage_count() == g0.passage_count() + open_delta(g0, x, y, d),
{
    lemma_put_frame(g0, g1, x, y, open_toward(g0.cell_at(x, y), d));
    assert forall|xx: int, yy: int| g1.in_bounds(xx, yy) implies (#[trigger] g1.cell_at(
        xx,
        yy,
    )).visited == g0.cell_at(xx, yy).visited by {
        if xx == x && yy == y {
            assert(g1.cell_at(xx, yy) == open_toward(g0.cell_at(xx, yy), d));
        }
    }
    assert forall|xx: int, yy: int, dd: Direction|
        g1.in_bounds(xx, yy) && !(xx == x && yy == y && dd == d) implies #[trigger] cell_open(
        g1.cell_at(xx, yy),
        dd,
    ) == cell_open(g0.cell_at(xx, yy), dd) by {
        if xx == x && yy == y {
            assert(g1.cell_at(xx, yy) == open_toward(g0.cell_at(xx, yy), d));
        }
    }
    let i0 = g0.idx(x, y);
    lemma_idx_in_range(g0.spec_width(), g0.spec_height(), x, y);
    lemma_passages_update(g0, g1, i0, g0.cells_view().len() as int);
    lemma_idx_div_mod(g0.spec_width(), g0.spec_height(), x, y);
    assert(g1.passage_contrib(i0) - g0.passage_contrib(i0) == open_delta(g0, x, y, d));
    lemma_unvisited_update(g0.cells_view(), g1.cells_view(), i0, g0.cells_view().len() as int);
}

/// One open step out of a reachable coordinate reaches its neighbor.
proof fn lemma_reach_step(g: Grid, x: int, y: int, d: Direction)
    requires
        g.reachable(x, y),
        g.in_bounds(x, y),
        g.in_bounds(x + d.dx(), y + d.dy()),
        cell_open(g.cell_at(x, y), d),
    ensures
        g.reachable(x + d.dx(), y + d.dy()),
{
    let n = choose|n: nat| g.reach_n(x, y, n);
    let nx = x + d.dx();
    let ny = y + d.dy();
    assert(g.step_from(nx, ny, d));
    assert(g.reach_n(nx, ny, n + 1));
}

proof fn lemma_mul_le(a: int, b: int, c: int)
    by (nonlinear_arith)
    requires
        a <= b,
        0 <= c,
    ensures
        a * c <= b * c,
{
}

/// A grid that differed from an edge-symmetric one only in the two sides of
/// one internal passage, both now open, is edge-symmetric again.
proof fn lemma_symmetry_open_pair(g1: Grid, g3: Grid, x: int, y: int, d: Direction)
    requires
        g1.wf(),
        g3.wf(),
        g3.spec_width() == g1.spec_width(),
        g3.spec_height() == g1.spec_height(),
        g1.edge_symmetric(),
        g1.in_bounds(x, y),
        g1.in_bounds(x + d.dx(), y + d.dy()),
        cell_open(g3.cell_at(x, y), d),
        cell_open(g3.cell_at(x + d.dx(), y + d.dy()), d.spec_reverse()),
        forall|xx: int, yy: int, dd: Direction|
            g1.in_bounds(xx, yy) && !(xx == x && yy == y && dd == d) && !(xx == x + d.dx() && yy
                == y + d.dy() && dd == d.spec_reverse()) ==> #[trigger] cell_open(
                g3.cell_at(xx, yy),
                dd,
            ) == cell_open(g1.cell_at(xx, yy), dd),
    ensures
        g3.edge_symmetric(),
{
    let nx = x + d.dx();
    let ny = y + d.dy();
    assert forall|xx: int, yy: int, dd: Direction|
        g3.in_bounds(xx, yy) && g3.in_bounds(xx + dd.dx(), yy + dd.dy()) implies #[trigger] cell_open(
        g3.cell_at(xx, yy),
        dd,
    ) == cell_open(g3.cell_at(xx + dd.dx(), yy + dd.dy()), dd.spec_reverse()) by {
        let mx = xx + dd.dx();
        let my = yy + dd.dy();
        if xx == x && yy == y && dd == d {
        } else if xx == nx && yy == ny && dd == d.spec_reverse() {
        } else {
            assert(!(mx == x && my == y && dd.spec_reverse() == d));
            assert(!(mx == nx && my == ny && dd.spec_reverse() == d.spec_reverse()));
            assert(cell_open(g3.cell_at(xx, yy), dd) == cell_open(g1.cell_at(xx, yy), dd));
            assert(cell_open(g3.cell_at(mx, my), dd.spec_reverse()) == cell_open(
                g1.cell_at(mx, my),
                dd.spec_reverse(),
            ));
            assert(cell_open(g1.cell_at(xx, yy), dd) == cell_open(
                g1.cell_at(mx, my),
                dd.spec_reverse(),
            ));
        }
    }
}

/// Appends the candidate step out of `(x, y)` toward `d` to `v`, when that
/// step stays in bounds and lands on an unvisited cell.
fn push_candidate(g: &Grid, x: usize, y: usize, d: Direction, v: &mut Vec<DirectionVector>)
    requires
        g.wf(),
        g.in_bounds(x as int, y as int),
    ensures
        !unvisited_toward(*g, x as int, y as int, d) ==> final(v)@ == old(v)@,
        unvisited_toward(*g, x as int, y as int, d) ==> {
            &&& final(v)@.len() == old(v)@.len() + 1
            &&& forall|i: int| 0 <= i < old(v)@.len() ==> final(v)@[i] == old(v)@[i]
            &&& is_candidate(*g, x as int, y as int, final(v)@[old(v)@.len() as int])
            &&& final(v)@[old(v)@.len() as int].direction == d
        },
{
    match d.vector(x, y, g.width(), g.height()) {
        Some(dv) => {
            if !g.cell(dv.x(), dv.y()).visited {
                v.push(dv);
            }
        },
        None => {},
    }
}

/// All candidate steps out of `(x, y)`: in-bounds neighbors not yet visited,
/// at most one per direction.
fn candidates(g: &Grid, x: usize, y: usize) -> (v: Vec<DirectionVector>)
    requires
        g.wf(),
        g.in_bounds(x as int, y as int),
    ensures
        v@.len() <= 4,
        forall|i: int|
            0 <= i < v@.len() ==> is_candidate(*g, x as int, y as int, #[trigger] v@[i]),
        forall|d: Direction|
            #[trigger] unvisited_toward(*g, x as int, y as int, d) ==> exists|i: int|
                0 <= i < v@.len() && (#[trigger] v@[i]).direction == d,
{
    let mut v: Vec<DirectionVector> = Vec::new();
    push_candidate(g, x, y, Direction::North, &mut v);
    let ghost v1 = v@;
    push_candidate(g, x, y, Direction::East, &mut v);
    let ghost v2 = v@;
    push_candidate(g, x, y, Direction::South, &mut v);
    let ghost v3 = v@;
    push_candidate(g, x, y, Direction::West, &mut v);
    proof {
        assert forall|d: Direction| #[trigger] unvisited_toward(
            *g,
            x as int,
            y as int,
            d,
        ) implies exists|i: int| 0 <= i < v@.len() && (#[trigger] v@[i]).direction == d by {
            match d {
                Direction::North => {
                    assert(v1[0].direction == d && 0 <= 0 < v@.len() && v@[0] == v1[0]);
                },
                Direction::East => {
                    let i = v1.len() as int;
                    assert(v2[i].direction == d && 0 <= i < v@.len() && v@[i] == v2[i]);
                },
                Direction::South => {
                    let i = v2.len() as int;
                    assert(v3[i].direction == d && 0 <= i < v@.len() && v@[i] == v3[i]);
                },
                Direction::West => {
                    let i = v3.len() as int;
                    assert(v@[i].direction == d && 0 <= i < v@.len());
                },
            }
        }
    }
    v
}

/// The selection weight of each candidate, looked up by its direction.
fn candidate_weights(weights: &WeightConfig, cands: &Vec<DirectionVector>) -> (w: Vec<u64>)
    ensures
        w@.len() == cands@.len(),
        forall|i: int|
            0 <= i < w@.len() ==> #[trigger] w@[i] == weights.spec_weight(
                cands@[i].direction,
            ) as u64,
{
    let mut w: Vec<u64> = Vec::new();
    let mut k: usize = 0;
    while k < cands.len()
        invariant
            k <= cands@.len(),
            w@.len() == k,
            forall|i: int|
                0 <= i < k ==> #[trigger] w@[i] == weights.spec_weight(
                    cands@[i].direction,
                ) as u64,
        decreases cands@.len() - k,
    {
        w.push(weights.weight(cands[k].direction()) as u64);
        k = k + 1;
    }
    w
}/// What a successful generation hands back: a well-formed grid of the
/// requested dimensions whose open passages form a spanning tree — adjacent
/// cells agree about the passage between them, no passage opens toward the
/// outside but the forced entrance and exit, exactly `width * height - 1`
/// internal passages stand open, and every cell is reachable from `(0, 0)`
/// through open passages.
pub open spec fn finished_maze(g: Grid, width: int, height: int) -> bool {
    &&& g.wf()
    &&& g.spec_width() == width
    &&& g.spec_height() == height
    &&& 1 <= width && 1 <= height
    &&& cell_open(g.cell_at(0, 0), Direction::North)
    &&& cell_open(g.cell_at(width - 1, height - 1), Direction::South)
    &&& g.edge_symmetric()
    &&& g.boundary_sealed()
    &&& g.passage_count() == width * height - 1
    &&& forall|x: int, y: int| g.in_bounds(x, y) ==> #[trigger] g.reachable(x, y)
}

/// Everything the backtracking walk maintains between iterations: the grid
/// is well-formed and symmetric with no outward opening, stack entries are
/// distinct in-bounds coordinates growing from `(0, 0)` with only the top
/// possibly unvisited, unvisited cells away from the top have all sides
/// closed, cells that left the stack have no unvisited neighbor, every
/// visited or stacked coordinate is reachable from the origin, and the open
/// passages number exactly the cells reached so far minus one.
#[verifier::opaque]
spec fn walk_inv(g: Grid, st: Seq<(usize, usize)>, width: int, height: int) -> bool {
    &&& g.wf()
    &&& g.spec_width() == width
    &&& g.spec_height() == height
    &&& 1 <= width && 1 <= height
    &&& forall|i: int|
        0 <= i < st.len() ==> g.in_bounds((#[trigger] st[i]).0 as int, st[i].1 as int)
    &&& forall|i: int|
        0 <= i < st.len() - 1 ==> g.cell_at((#[trigger] st[i]).0 as int, st[i].1 as int).visited
    &&& st.len() > 0 ==> st[0] == (0usize, 0usize)
    &&& st.len() == 0 ==> g.cell_at(0, 0).visited
    &&& forall|i: int, j: int| 0 <= i < j < st.len() ==> #[trigger] st[i] != #[trigger] st[j]
    &&& g.no_outward()
    &&& g.edge_symmetric()
    &&& forall|x: int, y: int, d: Direction|
        g.in_bounds(x, y) && !g.cell_at(x, y).visited && !(st.len() > 0 && st.last().0 == x
            && st.last().1 == y) ==> !(#[trigger] cell_open(g.cell_at(x, y), d))
    &&& g.passage_count() + num_unvisited(g) + 1 == g.cells_view().len() + top_unvisited(g, st)
    &&& 0 <= num_unvisited(g) <= g.cells_view().len()
    &&& visited_closed(g, st)
    &&& forall|x: int, y: int|
        g.in_bounds(x, y) && ((#[trigger] g.cell_at(x, y)).visited || in_stack(st, x, y))
            ==> g.reachable(x, y)
}

/// A fresh all-initial grid with `(0, 0)` on the stack satisfies the walk's
/// invariant.
proof fn lemma_walk_init(g: Grid, st: Seq<(usize, usize)>, w: int, h: int)
    requires
        g.wf(),
        g.spec_width() == w,
        g.spec_height() == h,
        1 <= w,
        1 <= h,
        forall|i: int| 0 <= i < g.cells_view().len() ==> g.cells_view()[i] == Cell::initial(),
        st == seq![(0usize, 0usize)],
    ensures
        walk_inv(g, st, w, h),
{
    reveal(walk_inv);
    assert forall|x: int, y: int| g.in_bounds(x, y) implies #[trigger] g.cell_at(x, y)
        == Cell::initial() by {
        lemma_idx_in_range(w, h, x, y);
    }
    lemma_counts_initial(g, g.cells_view().len() as int);
    assert(g.reach_n(0, 0, 0));
    assert forall|x: int, y: int|
        g.in_bounds(x, y) && ((#[trigger] g.cell_at(x, y)).visited || in_stack(
            st,
            x,
            y,
        )) implies g.reachable(x, y) by {
        if in_stack(st, x, y) {
            let i = choose|i: int|
                0 <= i < st.len() && (#[trigger] st[i]).0 == x && st[i].1 == y;
            assert(st[i] == (0usize, 0usize));
            assert(g.reach_n(0, 0, 0));
        }
    }
    assert(st.last() == (0usize, 0usize));
    assert(top_unvisited(g, st) == 1);
}

/// Marking the stack's top visited preserves the walk's invariant and
/// settles the top into the visited set.
proof fn lemma_walk_visit(g0: Grid, g1: Grid, st: Seq<(usize, usize)>, w: int, h: int)
    requires
        walk_inv(g0, st, w, h),
        st.len() > 0,
        g1.spec_width() == w,
        g1.spec_height() == h,
        g1.cells_view() == g0.cells_view().update(
            g0.idx(st.last().0 as int, st.last().1 as int),
            mark_visited(g0.cell_at(st.last().0 as int, st.last().1 as int)),
        ),
    ensures
        walk_inv(g1, st, w, h),
        g1.wf(),
        g1.spec_width() == w,
        g1.spec_height() == h,
        1 <= w && 1 <= h,
        g1.in_bounds(st.last().0 as int, st.last().1 as int),
        g1.cell_at(st.last().0 as int, st.last().1 as int).visited,
        top_unvisited(g1, st) == 0,
        0 <= top_unvisited(g0, st) <= 1,
        num_unvisited(g1) == num_unvisited(g0) - top_unvisited(g0, st),
        0 <= num_unvisited(g1),
{
    reveal(walk_inv);
    let x = st.last().0 as int;
    let y = st.last().1 as int;
    assert(st.last() == st[st.len() - 1]);
    assert(g0.in_bounds(x, y));
    lemma_visit_step(g0, g1, x, y);
    lemma_unvisited_bounds(g1.cells_view(), g1.cells_view().len() as int);
    // non-top stack entries stay visited
    assert forall|i: int| 0 <= i < st.len() - 1 implies g1.cell_at(
        (#[trigger] st[i]).0 as int,
        st[i].1 as int,
    ).visited by {
        if !(st[i].0 as int == x && st[i].1 as int == y) {
            assert(g1.cell_at(st[i].0 as int, st[i].1 as int) == g0.cell_at(
                st[i].0 as int,
                st[i].1 as int,
            ));
        }
    }
    // unvisited cells away from the top keep closed sides
    assert forall|xx: int, yy: int, dd: Direction|
        g1.in_bounds(xx, yy) && !g1.cell_at(xx, yy).visited && !(st.len() > 0 && st.last().0 == xx
            && st.last().1 == yy) implies !(#[trigger] cell_open(g1.cell_at(xx, yy), dd)) by {
        assert(!(xx == x && yy == y));
        assert(g1.cell_at(xx, yy) == g0.cell_at(xx, yy));
        assert(!cell_open(g0.cell_at(xx, yy), dd));
    }
    // the walk's closure survives marking the top visited
    assert forall|xx: int, yy: int, dd: Direction|
        g1.in_bounds(xx, yy) && g1.cell_at(xx, yy).visited && !in_stack(
            st,
            xx,
            yy,
        ) implies #[trigger] neighbor_visited(g1, xx, yy, dd) by {
        if xx == x && yy == y {
            assert((#[trigger] st[st.len() - 1]).0 == xx && st[st.len() - 1].1 == yy);
            assert(in_stack(st, xx, yy));
        } else {
            assert(g1.cell_at(xx, yy) == g0.cell_at(xx, yy));
            assert(neighbor_visited(g0, xx, yy, dd));
            if g0.in_bounds(xx + dd.dx(), yy + dd.dy()) {
                if !(xx + dd.dx() == x && yy + dd.dy() == y) {
                    assert(g1.cell_at(xx + dd.dx(), yy + dd.dy()) == g0.cell_at(
                        xx + dd.dx(),
                        yy + dd.dy(),
                    ));
                }
            }
        }
    }
    // reachability carries over unchanged passages
    lemma_reachable_mono(g0, g1);
    assert forall|xx: int, yy: int|
        g1.in_bounds(xx, yy) && ((#[trigger] g1.cell_at(xx, yy)).visited || in_stack(
            st,
            xx,
            yy,
        )) implies g1.reachable(xx, yy) by {
        if xx == x && yy == y {
            assert((#[trigger] st[st.len() - 1]).0 == xx && st[st.len() - 1].1 == yy);
            assert(in_stack(st, xx, yy));
            assert(g0.reachable(xx, yy));
        } else {
            assert(g1.cell_at(xx, yy) == g0.cell_at(xx, yy));
            assert(g0.reachable(xx, yy));
        }
    }
    assert(top_unvisited(g1, st) == 0);
}

/// Unvisited cells keep their closed sides when the visited top leaves the
/// stack: none of them is that top.
#[verifier::rlimit(50)]
proof fn lemma_pop_noflags(g: Grid, st: Seq<(usize, usize)>, st1: Seq<(usize, usize)>)
    requires
        st.len() > 0,
        st1 == st.drop_last(),
        g.cell_at(st.last().0 as int, st.last().1 as int).visited,
        forall|x: int, y: int, d: Direction|
            g.in_bounds(x, y) && !g.cell_at(x, y).visited && !(st.len() > 0 && st.last().0 == x
                && st.last().1 == y) ==> !(#[trigger] cell_open(g.cell_at(x, y), d)),
    ensures
        forall|x: int, y: int, d: Direction|
            g.in_bounds(x, y) && !g.cell_at(x, y).visited && !(st1.len() > 0 && st1.last().0 == x
                && st1.last().1 == y) ==> !(#[trigger] cell_open(g.cell_at(x, y), d)),
{
    assert forall|x: int, y: int, d: Direction|
        g.in_bounds(x, y) && !g.cell_at(x, y).visited && !(st1.len() > 0 && st1.last().0 == x
            && st1.last().1 == y) implies !(#[trigger] cell_open(g.cell_at(x, y), d)) by {
        assert(!(st.last().0 == x && st.last().1 == y));
    }
}

/// The walk's closure survives the pop: the departed top has no unvisited
/// neighbor, and every other departed cell was closed already.
#[verifier::rlimit(50)]
proof fn lemma_pop_closure(g: Grid, st: Seq<(usize, usize)>, st1: Seq<(usize, usize)>)
    requires
        st.len() > 0,
        st1 == st.drop_last(),
        forall|i: int, j: int| 0 <= i < j < st.len() ==> #[trigger] st[i] != #[trigger] st[j],
        visited_closed(g, st),
        forall|dd: Direction| #[trigger] neighbor_visited(
            g,
            st.last().0 as int,
            st.last().1 as int,
            dd,
        ),
    ensures
        visited_closed(g, st1),
{
    let x = st.last().0 as int;
    let y = st.last().1 as int;
    assert forall|xx: int, yy: int, dd: Direction|
        g.in_bounds(xx, yy) && g.cell_at(xx, yy).visited && !in_stack(
            st1,
            xx,
            yy,
        ) implies #[trigger] neighbor_visited(g, xx, yy, dd) by {
        if xx == x && yy == y {
        } else {
            if in_stack(st, xx, yy) {
                let i = choose|i: int|
                    0 <= i < st.len() && (#[trigger] st[i]).0 == xx && st[i].1 == yy;
                assert(st[i] != st[st.len() - 1]);
                assert(i < st.len() - 1);
                assert((#[trigger] st1[i]).0 == xx && st1[i].1 == yy);
                assert(false);
            }
            assert(neighbor_visited(g, xx, yy, dd));
        }
    }
}

/// One coordinate of the reached set is reachable.
proof fn lemma_reached_point(g: Grid, st: Seq<(usize, usize)>, x: int, y: int)
    requires
        forall|x: int, y: int|
            g.in_bounds(x, y) && ((#[trigger] g.cell_at(x, y)).visited || in_stack(st, x, y))
                ==> g.reachable(x, y),
        g.in_bounds(x, y),
        g.cell_at(x, y).visited || in_stack(st, x, y),
    ensures
        g.reachable(x, y),
{
}

/// The reached set only shrinks when an entry is popped.
#[verifier::rlimit(50)]
proof fn lemma_pop_reach(g: Grid, st: Seq<(usize, usize)>, st1: Seq<(usize, usize)>)
    requires
        st.len() > 0,
        st1 == st.drop_last(),
        forall|x: int, y: int|
            g.in_bounds(x, y) && ((#[trigger] g.cell_at(x, y)).visited || in_stack(st, x, y))
                ==> g.reachable(x, y),
    ensures
        forall|x: int, y: int|
            g.in_bounds(x, y) && ((#[trigger] g.cell_at(x, y)).visited || in_stack(st1, x, y))
                ==> g.reachable(x, y),
{
    assert forall|xx: int, yy: int|
        g.in_bounds(xx, yy) && ((#[trigger] g.cell_at(xx, yy)).visited || in_stack(
            st1,
            xx,
            yy,
        )) implies g.reachable(xx, yy) by {
        if in_stack(st1, xx, yy) {
            let i = choose|i: int|
                0 <= i < st1.len() && (#[trigger] st1[i]).0 == xx && st1[i].1 == yy;
            assert((#[trigger] st[i]).0 == xx && st[i].1 == yy);
            assert(in_stack(st, xx, yy));
        }
        lemma_reached_point(g, st, xx, yy);
    }
}

/// The walk invariant, clause by clause.
proof fn lemma_walk_parts(g: Grid, st: Seq<(usize, usize)>, w: int, h: int)
    requires
        walk_inv(g, st, w, h),
    ensures
        g.wf(),
        g.spec_width() == w,
        g.spec_height() == h,
        1 <= w && 1 <= h,
        forall|i: int|
            0 <= i < st.len() ==> g.in_bounds((#[trigger] st[i]).0 as int, st[i].1 as int),
        forall|i: int|
            0 <= i < st.len() - 1 ==> g.cell_at(
                (#[trigger] st[i]).0 as int,
                st[i].1 as int,
            ).visited,
        st.len() > 0 ==> st[0] == (0usize, 0usize),
        st.len() == 0 ==> g.cell_at(0, 0).visited,
        forall|i: int, j: int| 0 <= i < j < st.len() ==> #[trigger] st[i] != #[trigger] st[j],
        g.no_outward(),
        g.edge_symmetric(),
        forall|x: int, y: int, d: Direction|
            g.in_bounds(x, y) && !g.cell_at(x, y).visited && !(st.len() > 0 && st.last().0 == x
                && st.last().1 == y) ==> !(#[trigger] cell_open(g.cell_at(x, y), d)),
        g.passage_count() + num_unvisited(g) + 1 == g.cells_view().len() + top_unvisited(g, st),
        0 <= num_unvisited(g) <= g.cells_view().len(),
        visited_closed(g, st),
        forall|x: int, y: int|
            g.in_bounds(x, y) && ((#[trigger] g.cell_at(x, y)).visited || in_stack(st, x, y))
                ==> g.reachable(x, y),
{
    reveal(walk_inv);
}

/// The walk invariant, assembled from its clauses.
proof fn lemma_walk_assemble(g: Grid, st: Seq<(usize, usize)>, w: int, h: int)
    requires
        g.wf(),
        g.spec_width() == w,
        g.spec_height() == h,
        1 <= w && 1 <= h,
        forall|i: int|
            0 <= i < st.len() ==> g.in_bounds((#[trigger] st[i]).0 as int, st[i].1 as int),
        forall|i: int|
            0 <= i < st.len() - 1 ==> g.cell_at(
                (#[trigger] st[i]).0 as int,
                st[i].1 as int,
            ).visited,
        st.len() > 0 ==> st[0] == (0usize, 0usize),
        st.len() == 0 ==> g.cell_at(0, 0).visited,
        forall|i: int, j: int| 0 <= i < j < st.len() ==> #[trigger] st[i] != #[trigger] st[j],
        g.no_outward(),
        g.edge_symmetric(),
        forall|x: int, y: int, d: Direction|
            g.in_bounds(x, y) && !g.cell_at(x, y).visited && !(st.len() > 0 && st.last().0 == x
                && st.last().1 == y) ==> !(#[trigger] cell_open(g.cell_at(x, y), d)),
        g.passage_count() + num_unvisited(g) + 1 == g.cells_view().len() + top_unvisited(g, st),
        0 <= num_unvisited(g) <= g.cells_view().len(),
        visited_closed(g, st),
        forall|x: int, y: int|
            g.in_bounds(x, y) && ((#[trigger] g.cell_at(x, y)).visited || in_stack(st, x, y))
                ==> g.reachable(x, y),
    ensures
        walk_inv(g, st, w, h),
{
    reveal(walk_inv);
}

/// Backtracking: once the visited top has no unvisited neighbor left, it
/// may leave the stack and the walk's invariant carries to the rest.
#[verifier::rlimit(100)]
proof fn lemma_walk_pop(g: Grid, st: Seq<(usize, usize)>, w: int, h: int)
    requires
        walk_inv(g, st, w, h),
        st.len() > 0,
        g.cell_at(st.last().0 as int, st.last().1 as int).visited,
        forall|dd: Direction| #[trigger] neighbor_visited(
            g,
            st.last().0 as int,
            st.last().1 as int,
            dd,
        ),
    ensures
        walk_inv(g, st.drop_last(), w, h),
        top_unvisited(g, st.drop_last()) == 0,
{
    lemma_walk_parts(g, st, w, h);
    let st1 = st.drop_last();
    assert(st.last() == st[st.len() - 1]);
    if st1.len() > 0 {
        assert(st1[0] == st[0]);
        assert(st1.last() == st[st.len() - 2]);
        assert(g.cell_at(
            (#[trigger] st[st.len() - 2]).0 as int,
            st[st.len() - 2].1 as int,
        ).visited);
        assert(top_unvisited(g, st1) == 0);
    } else {
        assert(st[0] == st[st.len() - 1]);
        assert(g.cell_at(0, 0).visited);
    }
    assert(top_unvisited(g, st) == 0);
    assert forall|i: int| 0 <= i < st1.len() implies g.in_bounds(
        (#[trigger] st1[i]).0 as int,
        st1[i].1 as int,
    ) by {
        assert(st1[i] == st[i]);
        assert(g.in_bounds((#[trigger] st[i]).0 as int, st[i].1 as int));
    }
    assert forall|i: int| 0 <= i < st1.len() - 1 implies g.cell_at(
        (#[trigger] st1[i]).0 as int,
        st1[i].1 as int,
    ).visited by {
        assert(st1[i] == st[i]);
        assert(g.cell_at((#[trigger] st[i]).0 as int, st[i].1 as int).visited);
    }
    assert forall|i: int, j: int| 0 <= i < j < st1.len() implies #[trigger] st1[i]
        != #[trigger] st1[j] by {
        assert(st1[i] == st[i] && st1[j] == st[j]);
        assert(st[i] != st[j]);
    }
    lemma_pop_noflags(g, st, st1);
    lemma_pop_closure(g, st, st1);
    lemma_pop_reach(g, st, st1);
    lemma_walk_assemble(g, st1, w, h);
}

/// Unvisited cells away from the fresh top keep closed sides after the
/// paired opening: the two changed sides belong to visited or top cells.
#[verifier::rlimit(50)]
proof fn lemma_push_noflags(
    g1: Grid,
    g3: Grid,
    st: Seq<(usize, usize)>,
    st1: Seq<(usize, usize)>,
    x: int,
    y: int,
    nxu: usize,
    nyu: usize,
    d: Direction,
)
    requires
        st.len() > 0,
        st1 == st.push((nxu, nyu)),
        st.last().0 == x && st.last().1 == y,
        forall|xx: int, yy: int|
            g3.in_bounds(xx, yy) ==> (#[trigger] g3.cell_at(xx, yy)).visited == g1.cell_at(
                xx,
                yy,
            ).visited,
        forall|xx: int, yy: int, dd: Direction|
            g1.in_bounds(xx, yy) && !(xx == x && yy == y && dd == d) && !(xx == nxu && yy == nyu
                && dd == d.spec_reverse()) ==> #[trigger] cell_open(g3.cell_at(xx, yy), dd)
                == cell_open(g1.cell_at(xx, yy), dd),
        g3.spec_width() == g1.spec_width(),
        g3.spec_height() == g1.spec_height(),
        g1.cell_at(x, y).visited,
        forall|xx: int, yy: int, dd: Direction|
            g1.in_bounds(xx, yy) && !g1.cell_at(xx, yy).visited && !(st.len() > 0 && st.last().0
                == xx && st.last().1 == yy) ==> !(#[trigger] cell_open(g1.cell_at(xx, yy), dd)),
    ensures
        forall|xx: int, yy: int, dd: Direction|
            g3.in_bounds(xx, yy) && !g3.cell_at(xx, yy).visited && !(st1.len() > 0 && st1.last().0
                == xx && st1.last().1 == yy) ==> !(#[trigger] cell_open(g3.cell_at(xx, yy), dd)),
{
    let nx = nxu as int;
    let ny = nyu as int;
    assert forall|xx: int, yy: int, dd: Direction|
        g3.in_bounds(xx, yy) && !g3.cell_at(xx, yy).visited && !(st1.len() > 0 && st1.last().0
            == xx && st1.last().1 == yy) implies !(#[trigger] cell_open(
        g3.cell_at(xx, yy),
        dd,
    )) by {
        assert(st1.last() == (nxu, nyu));
        assert(!(xx == nx && yy == ny));
        assert(g3.cell_at(xx, yy).visited == g1.cell_at(xx, yy).visited);
        assert(!(xx == x && yy == y));
        assert(cell_open(g3.cell_at(xx, yy), dd) == cell_open(g1.cell_at(xx, yy), dd));
        assert(!cell_open(g1.cell_at(xx, yy), dd));
    }
}

/// The walk's closure survives the push: the stack only grew and the
/// visited set stands.
#[verifier::rlimit(50)]
proof fn lemma_push_closure(
    g1: Grid,
    g3: Grid,
    st: Seq<(usize, usize)>,
    st1: Seq<(usize, usize)>,
)
    requires
        st1 == st.push(st1.last()),
        visited_closed(g1, st),
        forall|xx: int, yy: int|
            g3.in_bounds(xx, yy) ==> (#[trigger] g3.cell_at(xx, yy)).visited == g1.cell_at(
                xx,
                yy,
            ).visited,
        g3.spec_width() == g1.spec_width(),
        g3.spec_height() == g1.spec_height(),
    ensures
        visited_closed(g3, st1),
{
    assert forall|xx: int, yy: int, dd: Direction|
        g3.in_bounds(xx, yy) && g3.cell_at(xx, yy).visited && !in_stack(
            st1,
            xx,
            yy,
        ) implies #[trigger] neighbor_visited(g3, xx, yy, dd) by {
        if in_stack(st, xx, yy) {
            let i = choose|i: int|
                0 <= i < st.len() && (#[trigger] st[i]).0 == xx && st[i].1 == yy;
            assert((#[trigger] st1[i]).0 == xx && st1[i].1 == yy);
            assert(false);
        }
        assert(g3.cell_at(xx, yy).visited == g1.cell_at(xx, yy).visited);
        assert(neighbor_visited(g1, xx, yy, dd));
        if g1.in_bounds(xx + dd.dx(), yy + dd.dy()) {
            assert(g3.cell_at(xx + dd.dx(), yy + dd.dy()).visited == g1.cell_at(
                xx + dd.dx(),
                yy + dd.dy(),
            ).visited);
        }
    }
}

/// Every visited or stacked coordinate stays reachable through the push.
#[verifier::rlimit(50)]
proof fn lemma_push_reach(
    g1: Grid,
    g3: Grid,
    st: Seq<(usize, usize)>,
    st1: Seq<(usize, usize)>,
    nxu: usize,
    nyu: usize,
)
    requires
        st1 == st.push((nxu, nyu)),
        opens_le(g1, g3),
        forall|x: int, y: int|
            g1.in_bounds(x, y) && ((#[trigger] g1.cell_at(x, y)).visited || in_stack(st, x, y))
                ==> g1.reachable(x, y),
        forall|xx: int, yy: int|
            g3.in_bounds(xx, yy) ==> (#[trigger] g3.cell_at(xx, yy)).visited == g1.cell_at(
                xx,
                yy,
            ).visited,
        g3.reachable(nxu as int, nyu as int),
    ensures
        forall|x: int, y: int|
            g3.in_bounds(x, y) && ((#[trigger] g3.cell_at(x, y)).visited || in_stack(st1, x, y))
                ==> g3.reachable(x, y),
{
    let nx = nxu as int;
    let ny = nyu as int;
    lemma_reachable_mono(g1, g3);
    assert forall|xx: int, yy: int|
        g3.in_bounds(xx, yy) && ((#[trigger] g3.cell_at(xx, yy)).visited || in_stack(
            st1,
            xx,
            yy,
        )) implies g3.reachable(xx, yy) by {
        if xx == nx && yy == ny {
        } else if in_stack(st1, xx, yy) {
            let i = choose|i: int|
                0 <= i < st1.len() && (#[trigger] st1[i]).0 == xx && st1[i].1 == yy;
            assert(st1[st.len() as int] == (nxu, nyu));
            assert(i < st.len());
            assert((#[trigger] st[i]).0 == xx && st[i].1 == yy);
            assert(in_stack(st, xx, yy));
            lemma_reached_point(g1, st, xx, yy);
        } else {
            assert(g3.cell_at(xx, yy).visited == g1.cell_at(xx, yy).visited);
            lemma_reached_point(g1, st, xx, yy);
        }
    }
}

/// Advancing the walk: opening both sides of the passage to an unvisited
/// neighbor and pushing that neighbor preserves the walk's invariant.
#[verifier::rlimit(100)]
proof fn lemma_walk_push(
    g1: Grid,
    g2: Grid,
    g3: Grid,
    st: Seq<(usize, usize)>,
    w: int,
    h: int,
    d: Direction,
    nxu: usize,
    nyu: usize,
)
    requires
        walk_inv(g1, st, w, h),
        st.len() > 0,
        g1.cell_at(st.last().0 as int, st.last().1 as int).visited,
        nxu as int == st.last().0 + d.dx(),
        nyu as int == st.last().1 + d.dy(),
        g1.in_bounds(nxu as int, nyu as int),
        !g1.cell_at(nxu as int, nyu as int).visited,
        g2.spec_width() == w,
        g2.spec_height() == h,
        g2.cells_view() == g1.cells_view().update(
            g1.idx(st.last().0 as int, st.last().1 as int),
            open_toward(g1.cell_at(st.last().0 as int, st.last().1 as int), d),
        ),
        g3.spec_width() == w,
        g3.spec_height() == h,
        g3.cells_view() == g2.cells_view().update(
            g2.idx(nxu as int, nyu as int),
            open_toward(g2.cell_at(nxu as int, nyu as int), d.spec_reverse()),
        ),
    ensures
        walk_inv(g3, st.push((nxu, nyu)), w, h),
        top_unvisited(g3, st.push((nxu, nyu))) == 1,
        num_unvisited(g3) == num_unvisited(g1),
{
    reveal(walk_inv);
    let x = st.last().0 as int;
    let y = st.last().1 as int;
    let nx = nxu as int;
    let ny = nyu as int;
    let rev = d.spec_reverse();
    let st1 = st.push((nxu, nyu));
    assert(st.last() == st[st.len() - 1]);
    assert(g1.in_bounds(x, y));
    assert(!(nx == x && ny == y));
    // neither side of the chosen passage is open yet
    assert(!cell_open(g1.cell_at(nx, ny), rev));
    if cell_open(g1.cell_at(x, y), d) {
        assert(cell_open(g1.cell_at(nx, ny), rev));
    }
    lemma_open_step(g1, g2, x, y, d);
    lemma_open_step(g2, g3, nx, ny, rev);
    // flags of g3 equal g1 except the two sides just opened
    assert forall|xx: int, yy: int, dd: Direction|
        g1.in_bounds(xx, yy) && !(xx == x && yy == y && dd == d) && !(xx == nx && yy == ny && dd
            == rev) implies #[trigger] cell_open(g3.cell_at(xx, yy), dd) == cell_open(
        g1.cell_at(xx, yy),
        dd,
    ) by {
        assert(cell_open(g2.cell_at(xx, yy), dd) == cell_open(g1.cell_at(xx, yy), dd));
    }
    assert forall|xx: int, yy: int| g3.in_bounds(xx, yy) implies (#[trigger] g3.cell_at(
        xx,
        yy,
    )).visited == g1.cell_at(xx, yy).visited by {
        assert(g3.cell_at(xx, yy).visited == g2.cell_at(xx, yy).visited);
        assert(g2.cell_at(xx, yy).visited == g1.cell_at(xx, yy).visited);
    }
    assert(cell_open(g3.cell_at(x, y), d));
    // exactly one of the two openings is an internal east or south side
    assert(open_delta(g1, x, y, d) + open_delta(g2, nx, ny, rev) == 1);
    assert(g3.passage_count() == g1.passage_count() + 1);
    lemma_symmetry_open_pair(g1, g3, x, y, d);
    // no new side faces outward
    assert forall|xx: int, yy: int, dd: Direction|
        g3.in_bounds(xx, yy) && !g3.in_bounds(xx + dd.dx(), yy + dd.dy()) implies !(
    #[trigger] cell_open(g3.cell_at(xx, yy), dd)) by {
        if xx == x && yy == y && dd == d {
            assert(g3.in_bounds(xx + dd.dx(), yy + dd.dy()));
        } else if xx == nx && yy == ny && dd == rev {
            assert(g3.in_bounds(xx + dd.dx(), yy + dd.dy()));
        } else {
            assert(cell_open(g3.cell_at(xx, yy), dd) == cell_open(g1.cell_at(xx, yy), dd));
            assert(!cell_open(g1.cell_at(xx, yy), dd));
        }
    }
    // stack entries: every old entry is visited, so distinct from the top
    assert forall|i: int| 0 <= i < st.len() implies g3.in_bounds(
        (#[trigger] st1[i]).0 as int,
        st1[i].1 as int,
    ) && st1[i] != (nxu, nyu) && g3.cell_at(st1[i].0 as int, st1[i].1 as int).visited by {
        assert(st1[i] == st[i]);
        assert(g1.in_bounds((#[trigger] st[i]).0 as int, st[i].1 as int));
        if i < st.len() - 1 {
            assert(g1.cell_at(st[i].0 as int, st[i].1 as int).visited);
        } else {
            assert(st[i] == st[st.len() - 1]);
        }
        assert(g3.cell_at(st1[i].0 as int, st1[i].1 as int).visited == g1.cell_at(
            st1[i].0 as int,
            st1[i].1 as int,
        ).visited);
        assert(!g3.cell_at(nx, ny).visited);
    }
    assert forall|i: int, j: int| 0 <= i < j < st1.len() implies #[trigger] st1[i]
        != #[trigger] st1[j] by {
        if j < st.len() {
            assert(st1[i] == st[i] && st1[j] == st[j]);
            assert(st[i] != st[j]);
        } else {
            assert(st1[j] == (nxu, nyu));
            assert(st1[i] != (nxu, nyu));
        }
    }
    assert(st1.last() == (nxu, nyu));
    assert(st1[0] == st[0]);
    assert(!g3.cell_at(nx, ny).visited);
    assert(top_unvisited(g3, st1) == 1);
    lemma_push_noflags(g1, g3, st, st1, x, y, nxu, nyu, d);
    lemma_push_closure(g1, g3, st, st1);
    // the fresh top joins the reachable set via the fresh passage
    lemma_reachable_mono(g1, g3);
    assert(in_stack(st, x, y));
    assert(g1.cell_at(x, y).visited || in_stack(st, x, y));
    assert(g1.reachable(x, y));
    assert(g3.reachable(x, y));
    lemma_reach_step(g3, x, y, d);
    assert(g3.reachable(nx, ny));
    lemma_push_reach(g1, g3, st, st1, nxu, nyu);
}

/// When the stack runs empty the walk has visited every cell: the open
/// passages count one less than the cells and reach everything.
proof fn lemma_walk_finish(g: Grid, st: Seq<(usize, usize)>, w: int, h: int)
    requires
        walk_inv(g, st, w, h),
        st.len() == 0,
    ensures
        g.wf(),
        g.spec_width() == w,
        g.spec_height() == h,
        1 <= w && 1 <= h,
        g.no_outward(),
        g.edge_symmetric(),
        g.passage_count() == w * h - 1,
        forall|x: int, y: int| g.in_bounds(x, y) ==> #[trigger] g.reachable(x, y),
{
    reveal(walk_inv);
    assert forall|xx: int, yy: int, dd: Direction|
        g.in_bounds(xx, yy) && g.cell_at(xx, yy).visited implies #[trigger] neighbor_visited(
        g,
        xx,
        yy,
        dd,
    ) by {
        assert(!in_stack(st, xx, yy));
    }
    assert forall|xx: int, yy: int| g.in_bounds(xx, yy) implies #[trigger] g.cell_at(
        xx,
        yy,
    ).visited by {
        lemma_visited_cell(g, xx, yy);
    }
    assert forall|i: int| 0 <= i < g.cells_view().len() implies (
    #[trigger] g.cells_view()[i]).visited by {
        let xx = i % w;
        let yy = i / w;
        vstd::arithmetic::div_mod::lemma_fundamental_div_mod(i, w);
        lemma_div_mod_in_bounds(w, h, i);
        assert(g.cell_at(xx, yy).visited);
        assert(g.idx(xx, yy) == i);
    }
    lemma_all_visited_count(g.cells_view(), g.cells_view().len() as int);
    assert(top_unvisited(g, st) == 0);
    assert forall|xx: int, yy: int| g.in_bounds(xx, yy) implies #[trigger] g.reachable(
        xx,
        yy,
    ) by {
        assert(g.cell_at(xx, yy).visited);
    }
}

/// Forcing the entrance and exit open turns a finished walk into the maze
/// the builder promises: both openings face outward, so the internal
/// passage count and reachability stand, and only those two sides breach
/// the boundary.
proof fn lemma_walk_seal(gf: Grid, ga: Grid, gb: Grid, w: int, h: int)
    requires
        gf.wf(),
        gf.spec_width() == w,
        gf.spec_height() == h,
        1 <= w && 1 <= h,
        gf.no_outward(),
        gf.edge_symmetric(),
        gf.passage_count() == w * h - 1,
        forall|x: int, y: int| gf.in_bounds(x, y) ==> #[trigger] gf.reachable(x, y),
        ga.spec_width() == w,
        ga.spec_height() == h,
        ga.cells_view() == gf.cells_view().update(
            gf.idx(0, 0),
            open_toward(gf.cell_at(0, 0), Direction::North),
        ),
        gb.spec_width() == w,
        gb.spec_height() == h,
        gb.cells_view() == ga.cells_view().update(
            ga.idx(w - 1, h - 1),
            open_toward(ga.cell_at(w - 1, h - 1), Direction::South),
        ),
    ensures
        finished_maze(gb, w, h),
{
    lemma_open_step(gf, ga, 0, 0, Direction::North);
    lemma_open_step(ga, gb, w - 1, h - 1, Direction::South);
    assert(open_delta(gf, 0, 0, Direction::North) == 0);
    assert(open_delta(ga, w - 1, h - 1, Direction::South) == 0);
    // flags of the final grid equal gf except the two outward sides
    assert forall|xx: int, yy: int, dd: Direction|
        gf.in_bounds(xx, yy) && !(xx == 0 && yy == 0 && dd == Direction::North) && !(xx == w - 1
            && yy == h - 1 && dd == Direction::South) implies #[trigger] cell_open(
        gb.cell_at(xx, yy),
        dd,
    ) == cell_open(gf.cell_at(xx, yy), dd) by {
        assert(cell_open(ga.cell_at(xx, yy), dd) == cell_open(gf.cell_at(xx, yy), dd));
    }
    assert(cell_open(gb.cell_at(0, 0), Direction::North));
    // only the entrance and the exit face outward
    assert forall|xx: int, yy: int, dd: Direction|
        gb.in_bounds(xx, yy) && !gb.in_bounds(xx + dd.dx(), yy + dd.dy()) && #[trigger] cell_open(
            gb.cell_at(xx, yy),
            dd,
        ) implies (xx == 0 && yy == 0 && dd == Direction::North) || (xx == w - 1 && yy == h - 1
        && dd == Direction::South) by {
        if !(xx == 0 && yy == 0 && dd == Direction::North) && !(xx == w - 1 && yy == h - 1 && dd
            == Direction::South) {
            assert(cell_open(gf.cell_at(xx, yy), dd));
        }
    }
    // symmetry: the two new sides take part in no internal pair
    assert forall|xx: int, yy: int, dd: Direction|
        gb.in_bounds(xx, yy) && gb.in_bounds(xx + dd.dx(), yy + dd.dy()) implies #[trigger] cell_open(
        gb.cell_at(xx, yy),
        dd,
    ) == cell_open(gb.cell_at(xx + dd.dx(), yy + dd.dy()), dd.spec_reverse()) by {
        let mx = xx + dd.dx();
        let my = yy + dd.dy();
        assert(cell_open(gb.cell_at(xx, yy), dd) == cell_open(gf.cell_at(xx, yy), dd));
        assert(cell_open(gb.cell_at(mx, my), dd.spec_reverse()) == cell_open(
            gf.cell_at(mx, my),
            dd.spec_reverse(),
        ));
        assert(cell_open(gf.cell_at(xx, yy), dd) == cell_open(
            gf.cell_at(mx, my),
            dd.spec_reverse(),
        ));
    }
    // opening more passages keeps every cell reachable
    assert(opens_le(gf, gb));
    lemma_reachable_mono(gf, gb);
    assert forall|xx: int, yy: int| gb.in_bounds(xx, yy) implies #[trigger] gb.reachable(
        xx,
        yy,
    ) by {
        assert(gf.reachable(xx, yy));
    }
}

/// Builds a perfect maze over a `width x height` cell grid by randomized
/// iterative backtracking: repeatedly peek the top of an explicit stack,
/// mark it visited, pick one unvisited in-bounds neighbor by weighted random
/// sampling and open the passage to it bidirectionally, or backtrack when no
/// candidate is left. Afterwards the entrance (north of `(0, 0)`) and the
/// exit (south of the bottom-right cell) are forced open.
///
/// Fails on zero dimensions, and when a non-empty candidate set carries only
/// zero weights; with every direction weighted positively it always
/// succeeds.
pub fn generate_maze(weights: &WeightConfig, width: usize, height: usize) -> (r: Result<
    Grid,
    ConfigError,
>)
    requires
        width * height <= usize::MAX,
    ensures
        (width == 0 || height == 0) <==> r == Err::<Grid, ConfigError>(
            ConfigError::DegenerateDimensions,
        ),
        r == Err::<Grid, ConfigError>(ConfigError::AllWeightsZero) ==> exists|d: Direction|
            weights.spec_weight(d) == 0,
        r is Err ==> r == Err::<Grid, ConfigError>(ConfigError::DegenerateDimensions) || r
            == Err::<Grid, ConfigError>(ConfigError::AllWeightsZero),
        (width >= 1 && height >= 1 && (forall|d: Direction| weights.spec_weight(d) > 0)) ==> r
            is Ok,
        r matches Ok(g) ==> finished_maze(g, width as int, height as int),
{
    if width == 0 || height == 0 {
        return Err(ConfigError::DegenerateDimensions);
    }
    let mut grid = Grid::new(width, height);
    let mut stack: Vec<(usize, usize)> = Vec::new();
    stack.push((0usize, 0usize));
    proof {
        assert(stack@ == seq![(0usize, 0usize)]);
        lemma_walk_init(grid, stack@, width as int, height as int);
        lemma_unvisited_bounds(grid.cells_view(), grid.cells_view().len() as int);
    }
    while stack.len() != 0
        invariant
            walk_inv(grid, stack@, width as int, height as int),
            grid.wf(),
            grid.spec_width() == width as int,
            grid.spec_height() == height as int,
            1 <= width && 1 <= height,
            0 <= num_unvisited(grid),
        decreases num_unvisited(grid), 1 - top_unvisited(grid, stack@), stack@.len(),
    {
        let ghost g0 = grid;
        let ghost st0 = stack@;
        let top = stack[stack.len() - 1];
        let x = top.0;
        let y = top.1;
        proof {
            assert(st0.last() == top);
            assert(grid.in_bounds(x as int, y as int)) by {
                reveal(walk_inv);
                assert(st0[st0.len() - 1] == top);
            }
        }
        grid.set_visited(x, y);
        let ghost g1 = grid;
        proof {
            lemma_walk_visit(g0, g1, st0, width as int, height as int);
        }
        let cands = candidates(&grid, x, y);
        if cands.len() == 0 {
            let _ = stack.pop();
            proof {
                assert(stack@ == st0.drop_last());
                assert forall|dd: Direction| #[trigger] neighbor_visited(
                    g1,
                    x as int,
                    y as int,
                    dd,
                ) by {
                    if g1.in_bounds(x + dd.dx(), y + dd.dy()) && !g1.cell_at(
                        x + dd.dx(),
                        y + dd.dy(),
                    ).visited {
                        assert(unvisited_toward(g1, x as int, y as int, dd));
                        assert(false);
                    }
                }
                lemma_walk_pop(g1, st0, width as int, height as int);
            }
        } else {
            let wvec = candidate_weights(weights, &cands);
            proof {
                assert forall|i: int| 0 <= i < wvec@.len() implies wvec@[i]
                    <= u32::MAX as u64 by {
                    assert(wvec@[i] == weights.spec_weight(cands@[i].direction) as u64);
                }
                lemma_sum_weights_bound(wvec@, u32::MAX as int);
                lemma_mul_le(wvec@.len() as int, 4, u32::MAX as int);
            }
            match pick_weighted(&wvec) {
                None => {
                    proof {
                        assert(is_candidate(g1, x as int, y as int, cands@[0]));
                        assert(wvec@[0] == 0);
                        assert(weights.spec_weight(cands@[0].direction) == 0);
                    }
                    return Err(ConfigError::AllWeightsZero);
                },
                Some(ci) => {
                    let cand = cands[ci];
                    let d = cand.direction();
                    let nx = cand.x();
                    let ny = cand.y();
                    proof {
                        assert(is_candidate(g1, x as int, y as int, cands@[ci as int]));
                    }
                    grid.open_passage(x, y, d);
                    let rev = d.reverse();
                    let ghost g2 = grid;
                    grid.open_passage(nx, ny, rev);
                    let ghost g3 = grid;
                    stack.push((nx, ny));
                    proof {
                        assert(stack@ == st0.push((nx, ny)));
                        lemma_walk_push(
                            g1,
                            g2,
                            g3,
                            st0,
                            width as int,
                            height as int,
                            d,
                            nx,
                            ny,
                        );
                    }
                },
            }
        }
    }
    proof {
        lemma_walk_finish(grid, stack@, width as int, height as int);
    }
    let ghost gf = grid;
    grid.open_passage(0, 0, Direction::North);
    let ghost ga = grid;
    grid.open_passage(width - 1, height - 1, Direction::South);
    proof {
        lemma_walk_seal(gf, ga, grid, width as int, height as int);
    }
    Ok(grid)
}

/// A flat index below `width * height` decomposes into in-bounds
/// coordinates.
proof fn lemma_div_mod_in_bounds(w: int, h: int, i: int)
    by (nonlinear_arith)
    requires
        1 <= w,
        1 <= h,
        0 <= i < w * h,
    ensures
        0 <= i % w < w,
        0 <= i / w < h,
{
}

} // verus!
