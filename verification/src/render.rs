//! The grid-to-pixel renderer: maps the finished cell grid and the geometric
//! parameters (cell size, wall thickness, image size, padding) onto a full
//! RGB raster. Every output pixel is a pure function of the coordinate, the
//! grid and the geometry, in the fixed priority order of the wall rules.

use vstd::arithmetic::div_mod::{lemma_div_is_ordered, lemma_fundamental_div_mod_converse};
use vstd::prelude::*;

use crate::builder::ConfigError;
use crate::grid::Grid;
use crate::position::Position;
use crate::raster::{Image, Rgb};

verus! {

/// The pixel width of one block: a cell plus its trailing wall.
pub open spec fn sp_block_x(cell_size: Position, wall_size: Position) -> int {
    cell_size.x + wall_size.x
}

/// The pixel height of one block.
pub open spec fn sp_block_y(cell_size: Position, wall_size: Position) -> int {
    cell_size.y + wall_size.y
}

/// The leftover horizontal pixels after whole blocks and the final wall are
/// laid out; half of it recenters the maze.
pub open spec fn sp_adj_x(
    cell_size: Position,
    wall_size: Position,
    image_size: Position,
    padding: Position,
) -> int {
    (image_size.x - 2 * padding.x - wall_size.x) % sp_block_x(cell_size, wall_size)
}

/// The leftover vertical pixels.
pub open spec fn sp_adj_y(
    cell_size: Position,
    wall_size: Position,
    image_size: Position,
    padding: Position,
) -> int {
    (image_size.y - 2 * padding.y - wall_size.y) % sp_block_y(cell_size, wall_size)
}

/// The left edge of the centered inner region.
pub open spec fn sp_origin_x(
    cell_size: Position,
    wall_size: Position,
    image_size: Position,
    padding: Position,
) -> int {
    padding.x + sp_adj_x(cell_size, wall_size, image_size, padding) / 2
}

/// The top edge of the centered inner region.
pub open spec fn sp_origin_y(
    cell_size: Position,
    wall_size: Position,
    image_size: Position,
    padding: Position,
) -> int {
    padding.y + sp_adj_y(cell_size, wall_size, image_size, padding) / 2
}

/// One past the right edge of the inner region.
pub open spec fn sp_end_x(
    cell_size: Position,
    wall_size: Position,
    image_size: Position,
    padding: Position,
) -> int {
    image_size.x - padding.x - sp_adj_x(cell_size, wall_size, image_size, padding) / 2
}

/// One past the bottom edge of the inner region.
pub open spec fn sp_end_y(
    cell_size: Position,
    wall_size: Position,
    image_size: Position,
    padding: Position,
) -> int {
    image_size.y - padding.y - sp_adj_y(cell_size, wall_size, image_size, padding) / 2
}

/// How many whole blocks fit across the inner region.
pub open spec fn sp_blocks_x(
    cell_size: Position,
    wall_size: Position,
    image_size: Position,
    padding: Position,
) -> int {
    (sp_end_x(cell_size, wall_size, image_size, padding) - sp_origin_x(
        cell_size,
        wall_size,
        image_size,
        padding,
    )) / sp_block_x(cell_size, wall_size)
}

/// How many whole blocks fit down the inner region.
pub open spec fn sp_blocks_y(
    cell_size: Position,
    wall_size: Position,
    image_size: Position,
    padding: Position,
) -> int {
    (sp_end_y(cell_size, wall_size, image_size, padding) - sp_origin_y(
        cell_size,
        wall_size,
        image_size,
        padding,
    )) / sp_block_y(cell_size, wall_size)
}

/// The block size has a zero component: block coordinates would divide by
/// zero.
pub open spec fn degenerate_block(cell_size: Position, wall_size: Position) -> bool {
    sp_block_x(cell_size, wall_size) == 0 || sp_block_y(cell_size, wall_size) == 0
}

/// Padding and the final wall leave no room inside the image: the inner
/// region's corners would invert.
pub open spec fn region_invalid(
    wall_size: Position,
    image_size: Position,
    padding: Position,
) -> bool {
    image_size.x < 2 * padding.x + wall_size.x || image_size.y < 2 * padding.y + wall_size.y
}

/// The block count the geometry derives does not agree with the grid.
pub open spec fn geometry_mismatch(
    g: Grid,
    cell_size: Position,
    wall_size: Position,
    image_size: Position,
    padding: Position,
) -> bool {
    sp_blocks_x(cell_size, wall_size, image_size, padding) != g.spec_width() || sp_blocks_y(
        cell_size,
        wall_size,
        image_size,
        padding,
    ) != g.spec_height()
}

/// The shared corner pixel of four adjoining tiles shows a wall when the
/// diagonal neighbors' flags call for one: the cell one row up lacking a
/// west opening, or the cell one column left lacking a north opening. On
/// the top row or leftmost column, where those neighbors do not exist, the
/// corner counts as walled.
pub open spec fn corner_blocked(g: Grid, cx: int, cy: int) -> bool {
    cy == 0 || cx == 0 || !g.cell_at(cx, cy - 1).west || !g.cell_at(cx - 1, cy).north
}

/// The color of one output pixel: background outside the inner region;
/// inside it, the wall rules in priority order — a closed north side paints
/// the tile's top strip, a closed west side its left strip, the shared
/// corner falls to the diagonal neighbors, anything else is open passage.
/// One tile past the last row or column shows the adjacent cell's south or
/// east wall; past both, the literal corner, wall color.
pub open spec fn spec_maze_pixel(
    g: Grid,
    cell_size: Position,
    wall_size: Position,
    image_size: Position,
    padding: Position,
    background_color: Rgb,
    block_color: Rgb,
    px: int,
    py: int,
) -> Rgb {
    let bx = sp_block_x(cell_size, wall_size);
    let by = sp_block_y(cell_size, wall_size);
    let ox = sp_origin_x(cell_size, wall_size, image_size, padding);
    let oy = sp_origin_y(cell_size, wall_size, image_size, padding);
    let ex = sp_end_x(cell_size, wall_size, image_size, padding);
    let ey = sp_end_y(cell_size, wall_size, image_size, padding);
    if !(ox <= px < ex && oy <= py < ey) {
        background_color
    } else {
        let cx = (px - ox) / bx;
        let cy = (py - oy) / by;
        let ix = (px - ox) % bx;
        let iy = (py - oy) % by;
        if cy < g.spec_height() {
            if cx < g.spec_width() {
                let c = g.cell_at(cx, cy);
                if !c.north && iy < wall_size.y {
                    block_color
                } else if !c.west && ix < wall_size.x {
                    block_color
                } else if ix < wall_size.x && iy < wall_size.y && corner_blocked(g, cx, cy) {
                    block_color
                } else {
                    background_color
                }
            } else if cx == g.spec_width() {
                if !g.cell_at(cx - 1, cy).east {
                    block_color
                } else {
                    background_color
                }
            } else {
                block_color
            }
        } else if cy == g.spec_height() && cx < g.spec_width() {
            if !g.cell_at(cx, cy - 1).south {
                block_color
            } else {
                background_color
            }
        } else {
            block_color
        }
    }
}

/// Exec mirror of [`corner_blocked`].
fn corner_blocked_at(g: &Grid, cx: usize, cy: usize) -> (r: bool)
    requires
        g.wf(),
        g.in_bounds(cx as int, cy as int),
    ensures
        r == corner_blocked(*g, cx as int, cy as int),
{
    if cy == 0 || cx == 0 {
        true
    } else {
        !g.cell(cx, cy - 1).west || !g.cell(cx - 1, cy).north
    }
}

/// Classifies one output pixel from the precomputed geometry. The derived
/// arguments must equal the geometry of the configuration, with the grid
/// matching the derived block count.
fn maze_pixel(
    g: &Grid,
    cell_size: Position,
    wall_size: Position,
    image_size: Position,
    padding: Position,
    background_color: Rgb,
    block_color: Rgb,
    bx: u32,
    by: u32,
    ox: u32,
    oy: u32,
    ex: u32,
    ey: u32,
    px: u32,
    py: u32,
) -> (c: Rgb)
    requires
        g.wf(),
        g.spec_width() >= 1,
        g.spec_height() >= 1,
        bx == sp_block_x(cell_size, wall_size),
        by == sp_block_y(cell_size, wall_size),
        bx >= 1,
        by >= 1,
        ox == sp_origin_x(cell_size, wall_size, image_size, padding),
        oy == sp_origin_y(cell_size, wall_size, image_size, padding),
        ex == sp_end_x(cell_size, wall_size, image_size, padding),
        ey == sp_end_y(cell_size, wall_size, image_size, padding),
        ox <= ex,
        oy <= ey,
        (ex - ox) as int / bx as int == g.spec_width(),
        (ey - oy) as int / by as int == g.spec_height(),
    ensures
        c == spec_maze_pixel(
            *g,
            cell_size,
            wall_size,
            image_size,
            padding,
            background_color,
            block_color,
            px as int,
            py as int,
        ),
{
    if !(px >= ox && px < ex && py >= oy && py < ey) {
        return background_color;
    }
    let cx = (px - ox) / bx;
    let cy = (py - oy) / by;
    let ix = (px - ox) % bx;
    let iy = (py - oy) % by;
    let w = g.width();
    let h = g.height();
    proof {
        lemma_div_is_ordered((px - ox) as int, (ex - ox - 1) as int, bx as int);
        lemma_div_is_ordered((ex - ox - 1) as int, (ex - ox) as int, bx as int);
        lemma_div_is_ordered((py - oy) as int, (ey - oy - 1) as int, by as int);
        lemma_div_is_ordered((ey - oy - 1) as int, (ey - oy) as int, by as int);
        assert(cx <= g.spec_width());
        assert(cy <= g.spec_height());
    }
    if (cy as usize) < h {
        if (cx as usize) < w {
            let c = g.cell(cx as usize, cy as usize);
            if !c.north && iy < wall_size.y() {
                block_color
            } else if !c.west && ix < wall_size.x() {
                block_color
            } else if ix < wall_size.x() && iy < wall_size.y() && corner_blocked_at(
                g,
                cx as usize,
                cy as usize,
            ) {
                block_color
            } else {
                background_color
            }
        } else {
            let left = g.cell(w - 1, cy as usize);
            if !left.east {
                block_color
            } else {
                background_color
            }
        }
    } else if (cx as usize) < w {
        let above = g.cell(cx as usize, h - 1);
        if !above.south {
            block_color
        } else {
            background_color
        }
    } else {
        block_color
    }
}

/// Renders the finished grid into a full `image_size` raster: every pixel
/// is classified by [`spec_maze_pixel`]. Fails, producing no buffer, on a
/// block size with a zero component, on padding that inverts the inner
/// region, and on a grid that disagrees with the derived block count.
#[verifier::loop_isolation(false)]
pub fn render_maze(
    grid: &Grid,
    cell_size: Position,
    wall_size: Position,
    image_size: Position,
    padding: Position,
    background_color: Rgb,
    block_color: Rgb,
) -> (r: Result<Image, ConfigError>)
    requires
        grid.wf(),
        grid.spec_width() >= 1,
        grid.spec_height() >= 1,
        cell_size.x + wall_size.x <= u32::MAX,
        cell_size.y + wall_size.y <= u32::MAX,
        2 * padding.x + wall_size.x <= u32::MAX,
        2 * padding.y + wall_size.y <= u32::MAX,
    ensures
        (r == Err::<Image, ConfigError>(ConfigError::DegenerateDimensions)) <==> degenerate_block(
            cell_size,
            wall_size,
        ),
        (r == Err::<Image, ConfigError>(ConfigError::InvalidRegion)) <==> (!degenerate_block(
            cell_size,
            wall_size,
        ) && region_invalid(wall_size, image_size, padding)),
        (r == Err::<Image, ConfigError>(ConfigError::GridMismatch)) <==> (!degenerate_block(
            cell_size,
            wall_size,
        ) && !region_invalid(wall_size, image_size, padding) && geometry_mismatch(
            *grid,
            cell_size,
            wall_size,
            image_size,
            padding,
        )),
        r is Ok <==> (!degenerate_block(cell_size, wall_size) && !region_invalid(
            wall_size,
            image_size,
            padding,
        ) && !geometry_mismatch(*grid, cell_size, wall_size, image_size, padding)),
        r matches Ok(img) ==> {
            &&& img.wf()
            &&& img.spec_width() == image_size.x
            &&& img.spec_height() == image_size.y
            &&& forall|x: int, y: int|
                0 <= x < image_size.x && 0 <= y < image_size.y ==> img.pixel_at(x, y)
                    == spec_maze_pixel(
                    *grid,
                    cell_size,
                    wall_size,
                    image_size,
                    padding,
                    background_color,
                    block_color,
                    x,
                    y,
                )
        },
{
    let bx = cell_size.x() + wall_size.x();
    let by = cell_size.y() + wall_size.y();
    if bx == 0 || by == 0 {
        return Err(ConfigError::DegenerateDimensions);
    }
    if image_size.x() < 2 * padding.x() + wall_size.x() || image_size.y() < 2 * padding.y()
        + wall_size.y() {
        return Err(ConfigError::InvalidRegion);
    }
    let availx = image_size.x() - 2 * padding.x() - wall_size.x();
    let availy = image_size.y() - 2 * padding.y() - wall_size.y();
    let adjx = availx % bx;
    let adjy = availy % by;
    proof {
        vstd::arithmetic::div_mod::lemma_mod_decreases(availx as nat, bx as nat);
        vstd::arithmetic::div_mod::lemma_mod_decreases(availy as nat, by as nat);
    }
    let ox = padding.x() + adjx / 2;
    let oy = padding.y() + adjy / 2;
    let ex = image_size.x() - padding.x() - adjx / 2;
    let ey = image_size.y() - padding.y() - adjy / 2;
    let bcx = (ex - ox) / bx;
    let bcy = (ey - oy) / by;
    if (bcx as usize) != grid.width() || (bcy as usize) != grid.height() {
        return Err(ConfigError::GridMismatch);
    }
    let wimg = image_size.x();
    let himg = image_size.y();
    let mut pixels: Vec<Rgb> = Vec::new();
    let mut py: u32 = 0;
    while py < himg
        invariant
            py <= himg,
            pixels@.len() == py * wimg,
            forall|j: int|
                0 <= j < pixels@.len() ==> #[trigger] pixels@[j] == spec_maze_pixel(
                    *grid,
                    cell_size,
                    wall_size,
                    image_size,
                    padding,
                    background_color,
                    block_color,
                    j % (wimg as int),
                    j / (wimg as int),
                ),
        decreases himg - py,
    {
        let mut px: u32 = 0;
        while px < wimg
            invariant
                px <= wimg,
                py < himg,
                pixels@.len() == py * wimg + px,
                forall|j: int|
                    0 <= j < pixels@.len() ==> #[trigger] pixels@[j] == spec_maze_pixel(
                        *grid,
                        cell_size,
                        wall_size,
                        image_size,
                        padding,
                        background_color,
                        block_color,
                        j % (wimg as int),
                        j / (wimg as int),
                    ),
            decreases wimg - px,
        {
            let c = maze_pixel(
                grid,
                cell_size,
                wall_size,
                image_size,
                padding,
                background_color,
                block_color,
                bx,
                by,
                ox,
                oy,
                ex,
                ey,
                px,
                py,
            );
            pixels.push(c);
            proof {
                lemma_fundamental_div_mod_converse(
                    py * wimg + px,
                    wimg as int,
                    py as int,
                    px as int,
                );
            }
            px = px + 1;
        }
        proof {
            assert((py + 1) * wimg == py * wimg + wimg) by (nonlinear_arith);
        }
        py = py + 1;
    }
    proof {
        assert(pixels@.len() == wimg * himg) by (nonlinear_arith)
            requires
                pixels@.len() == himg * wimg,
        ;
    }
    let img = Image::from_pixels(wimg, himg, pixels);
    proof {
        assert forall|x: int, y: int| 0 <= x < image_size.x && 0 <= y < image_size.y implies
            #[trigger] img.pixel_at(x, y) == spec_maze_pixel(
            *grid,
            cell_size,
            wall_size,
            image_size,
            padding,
            background_color,
            block_color,
            x,
            y,
        ) by {
            crate::grid::lemma_idx_in_range(wimg as int, himg as int, x, y);
            lemma_fundamental_div_mod_converse(y * (wimg as int) + x, wimg as int, y, x);
        }
    }
    Ok(img)
}

/// Rendering is deterministic: two rasters of the same finished grid with
/// the same geometry agree pixel for pixel — the renderer draws nothing
/// from chance.
pub proof fn lemma_render_deterministic(
    g: Grid,
    cell_size: Position,
    wall_size: Position,
    image_size: Position,
    padding: Position,
    background_color: Rgb,
    block_color: Rgb,
    a: Image,
    b: Image,
)
    requires
        a.wf(),
        b.wf(),
        a.spec_width() == image_size.x,
        a.spec_height() == image_size.y,
        b.spec_width() == image_size.x,
        b.spec_height() == image_size.y,
        forall|x: int, y: int|
            0 <= x < image_size.x && 0 <= y < image_size.y ==> #[trigger] a.pixel_at(x, y)
                == spec_maze_pixel(
                g,
                cell_size,
                wall_size,
                image_size,
                padding,
                background_color,
                block_color,
                x,
                y,
            ),
        forall|x: int, y: int|
            0 <= x < image_size.x && 0 <= y < image_size.y ==> #[trigger] b.pixel_at(x, y)
                == spec_maze_pixel(
                g,
                cell_size,
                wall_size,
                image_size,
                padding,
                background_color,
                block_color,
                x,
                y,
            ),
    ensures
        forall|x: int, y: int|
            0 <= x < image_size.x && 0 <= y < image_size.y ==> #[trigger] a.pixel_at(x, y)
                == b.pixel_at(x, y),
{
}

} // verus!
