//! Image generators: the maze generator facade that wires configuration to
//! the graph builder and the renderer, and the file-backed source's
//! configuration.

use vstd::prelude::*;

use crate::builder::{finished_maze, generate_maze, ConfigError, WeightConfig};
use crate::grid::{Direction, Grid};
use crate::position::Position;
use crate::raster::{Image, Rgb};
use crate::render::{
    degenerate_block, geometry_mismatch, region_invalid, render_maze, sp_blocks_x, sp_blocks_y,
    spec_maze_pixel,
};

verus! {

/// Configuration of a generator that loads its raster from a file. The
/// loading itself is I/O and happens outside the library.
pub struct FileGenerator {
    pub path: String,
}

impl FileGenerator {
    pub fn new(path: String) -> (g: FileGenerator)
        ensures
            g.path@ == path@,
    {
        FileGenerator { path }
    }
}

/// The maze image generator: grid geometry, colors and direction weights.
/// `generate` runs the builder and then the renderer; any configuration
/// error from either stage surfaces directly, with no fallback image.
pub struct MazeGenerator {
    /// The pixel footprint of one cell, colored in the background color
    /// where passages are open.
    pub cell_size: Position,
    /// The pixel thickness of the wall strip beside each cell.
    pub wall_size: Position,
    /// The size of the produced image, in pixels.
    pub image_size: Position,
    /// The padding on all sides of the image: `x` for left and right, `y`
    /// for top and bottom.
    pub padding: Position,
    pub background_color: Rgb,
    pub block_color: Rgb,
    /// Per-direction selection weights for the random walk.
    pub direction_weights: WeightConfig,
}

impl MazeGenerator {
    /// Builds a fresh random maze for the derived block count and renders
    /// it into a full `image_size` raster.
    ///
    /// The result is a faithful rendering of some finished maze: the image
    /// exists only together with a grid that satisfies [`finished_maze`],
    /// and every pixel equals [`spec_maze_pixel`] of that grid.
    pub fn generate(&self) -> (r: Result<Image, ConfigError>)
        requires
            self.cell_size.x + self.wall_size.x <= u32::MAX,
            self.cell_size.y + self.wall_size.y <= u32::MAX,
            2 * self.padding.x + self.wall_size.x <= u32::MAX,
            2 * self.padding.y + self.wall_size.y <= u32::MAX,
            self.image_size.x * self.image_size.y <= usize::MAX,
        ensures
            (r == Err::<Image, ConfigError>(ConfigError::DegenerateDimensions)) <==> (
            degenerate_block(self.cell_size, self.wall_size) || (!region_invalid(
                self.wall_size,
                self.image_size,
                self.padding,
            ) && (sp_blocks_x(self.cell_size, self.wall_size, self.image_size, self.padding) == 0
                || sp_blocks_y(self.cell_size, self.wall_size, self.image_size, self.padding)
                == 0))),
            (r == Err::<Image, ConfigError>(ConfigError::InvalidRegion)) <==> (!degenerate_block(
                self.cell_size,
                self.wall_size,
            ) && region_invalid(self.wall_size, self.image_size, self.padding)),
            r == Err::<Image, ConfigError>(ConfigError::AllWeightsZero) ==> exists|d: Direction|
                self.direction_weights.spec_weight(d) == 0,
            r != Err::<Image, ConfigError>(ConfigError::GridMismatch),
            (!degenerate_block(self.cell_size, self.wall_size) && !region_invalid(
                self.wall_size,
                self.image_size,
                self.padding,
            ) && sp_blocks_x(self.cell_size, self.wall_size, self.image_size, self.padding) >= 1
                && sp_blocks_y(self.cell_size, self.wall_size, self.image_size, self.padding) >= 1
                && (forall|d: Direction| self.direction_weights.spec_weight(d) > 0)) ==> r is Ok,
            r matches Ok(img) ==> {
                &&& img.wf()
                &&& img.spec_width() == self.image_size.x
                &&& img.spec_height() == self.image_size.y
                &&& exists|g: Grid|
                    #[trigger] finished_maze(
                        g,
                        sp_blocks_x(self.cell_size, self.wall_size, self.image_size, self.padding),
                        sp_blocks_y(self.cell_size, self.wall_size, self.image_size, self.padding),
                    ) && (forall|x: int, y: int|
                        0 <= x < self.image_size.x && 0 <= y < self.image_size.y
                            ==> img.pixel_at(x, y) == spec_maze_pixel(
                            g,
                            self.cell_size,
                            self.wall_size,
                            self.image_size,
                            self.padding,
                            self.background_color,
                            self.block_color,
                            x,
                            y,
                        ))
            },
    {
        let bx = self.cell_size.x() + self.wall_size.x();
        let by = self.cell_size.y() + self.wall_size.y();
        if bx == 0 || by == 0 {
            return Err(ConfigError::DegenerateDimensions);
        }
        if self.image_size.x() < 2 * self.padding.x() + self.wall_size.x() || self.image_size.y()
            < 2 * self.padding.y() + self.wall_size.y() {
            return Err(ConfigError::InvalidRegion);
        }
        let availx = self.image_size.x() - 2 * self.padding.x() - self.wall_size.x();
        let availy = self.image_size.y() - 2 * self.padding.y() - self.wall_size.y();
        let adjx = availx % bx;
        let adjy = availy % by;
        proof {
            vstd::arithmetic::div_mod::lemma_mod_decreases(availx as nat, bx as nat);
            vstd::arithmetic::div_mod::lemma_mod_decreases(availy as nat, by as nat);
        }
        let ox = self.padding.x() + adjx / 2;
        let oy = self.padding.y() + adjy / 2;
        let ex = self.image_size.x() - self.padding.x() - adjx / 2;
        let ey = self.image_size.y() - self.padding.y() - adjy / 2;
        let bcx = (ex - ox) / bx;
        let bcy = (ey - oy) / by;
        proof {
            assert(bcx as int == sp_blocks_x(
                self.cell_size,
                self.wall_size,
                self.image_size,
                self.padding,
            ));
            assert(bcy as int == sp_blocks_y(
                self.cell_size,
                self.wall_size,
                self.image_size,
                self.padding,
            ));
        }
        let gw = bcx as usize;
        let gh = bcy as usize;
        proof {
            assert(gw as int <= (ex - ox) as int) by (nonlinear_arith)
                requires
                    gw == (ex - ox) as int / bx as int,
                    bx >= 1,
                    ex >= ox,
            ;
            assert(gh as int <= (ey - oy) as int) by (nonlinear_arith)
                requires
                    gh == (ey - oy) as int / by as int,
                    by >= 1,
                    ey >= oy,
            ;
            assert(gw * gh <= self.image_size.x * self.image_size.y) by (nonlinear_arith)
                requires
                    0 <= gw <= self.image_size.x,
                    0 <= gh <= self.image_size.y,
            ;
        }
        let grid = match generate_maze(&self.direction_weights, gw, gh) {
            Ok(g) => g,
            Err(e) => {
                return Err(e);
            },
        };
        match render_maze(
            &grid,
            self.cell_size,
            self.wall_size,
            self.image_size,
            self.padding,
            self.background_color,
            self.block_color,
        ) {
            Ok(img) => {
                proof {
                    assert(finished_maze(
                        grid,
                        sp_blocks_x(self.cell_size, self.wall_size, self.image_size, self.padding),
                        sp_blocks_y(self.cell_size, self.wall_size, self.image_size, self.padding),
                    ));
                }
                Ok(img)
            },
            Err(_) => {
                proof {
                    assert(!geometry_mismatch(
                        grid,
                        self.cell_size,
                        self.wall_size,
                        self.image_size,
                        self.padding,
                    ));
                    assert(false);
                }
                Err(ConfigError::GridMismatch)
            },
        }
    }
}

} // verus!
