//! The renderer and the maze generator facade: determinism, geometry
//! errors, and pixel-exact wall placement on a one-cell maze.

use glitch_maze::builder::{generate_maze, ConfigError, WeightConfig};
use glitch_maze::generator::{FileGenerator, MazeGenerator};
use glitch_maze::position::Position;
use glitch_maze::raster::{Image, Rgb};
use glitch_maze::render::render_maze;

const BG: Rgb = Rgb { r: 0x33, g: 0x33, b: 0x33 };
const WALL: Rgb = Rgb { r: 0xc0, g: 0xc0, b: 0xc0 };

fn p(x: u32, y: u32) -> Position {
    Position::new(x, y)
}

fn pixels_of(img: &Image) -> Vec<Rgb> {
    let mut out = Vec::new();
    for y in 0..img.height() {
        for x in 0..img.width() {
            out.push(img.pixel(x, y));
        }
    }
    out
}

#[test]
fn test_render_deterministic() {
    let g = generate_maze(&WeightConfig::uniform(4), 4, 3).unwrap();
    let a = render_maze(&g, p(10, 10), p(2, 2), p(50, 38), p(0, 0), BG, WALL).unwrap();
    let b = render_maze(&g, p(10, 10), p(2, 2), p(50, 38), p(0, 0), BG, WALL).unwrap();
    assert_eq!(a.width(), 50);
    assert_eq!(a.height(), 38);
    assert_eq!(pixels_of(&a), pixels_of(&b));
}

#[test]
fn test_single_cell_scenario() {
    // One cell of 10x10 pixels with 2-pixel walls: the block is 12 wide,
    // and a 14x14 image fits it together with the trailing wall.
    let g = generate_maze(&WeightConfig::uniform(1), 1, 1).unwrap();
    let img = render_maze(&g, p(10, 10), p(2, 2), p(14, 14), p(0, 0), BG, WALL).unwrap();
    // The west wall is closed, so the top-left corner shows wall color even
    // though the forced entrance opens the north side.
    assert_eq!(img.pixel(0, 0), WALL);
    // Above the cell interior the forced-open north side shows background.
    assert_eq!(img.pixel(5, 0), BG);
    // The cell interior is open.
    assert_eq!(img.pixel(6, 6), BG);
    // The east wall is closed.
    assert_eq!(img.pixel(13, 5), WALL);
    // The forced-open south exit shows background under the cell.
    assert_eq!(img.pixel(5, 13), BG);
    // The literal image corner past the grid shows wall color.
    assert_eq!(img.pixel(13, 13), WALL);
}

#[test]
fn test_render_rejects_degenerate_block() {
    let g = generate_maze(&WeightConfig::uniform(1), 2, 2).unwrap();
    assert_eq!(
        render_maze(&g, p(0, 0), p(0, 0), p(20, 20), p(0, 0), BG, WALL).unwrap_err(),
        ConfigError::DegenerateDimensions
    );
}

#[test]
fn test_render_rejects_inverted_region() {
    let g = generate_maze(&WeightConfig::uniform(1), 2, 2).unwrap();
    assert_eq!(
        render_maze(&g, p(10, 10), p(2, 2), p(10, 10), p(6, 6), BG, WALL).unwrap_err(),
        ConfigError::InvalidRegion
    );
}

#[test]
fn test_render_rejects_mismatched_grid() {
    // Geometry for three blocks per axis, but a 2x2 grid.
    let g = generate_maze(&WeightConfig::uniform(1), 2, 2).unwrap();
    assert_eq!(
        render_maze(&g, p(10, 10), p(2, 2), p(38, 38), p(0, 0), BG, WALL).unwrap_err(),
        ConfigError::GridMismatch
    );
}

fn maze_config(image_size: Position, padding: Position) -> MazeGenerator {
    MazeGenerator {
        cell_size: p(10, 10),
        wall_size: p(2, 2),
        image_size,
        padding,
        background_color: BG,
        block_color: WALL,
        direction_weights: WeightConfig::uniform(10),
    }
}

#[test]
fn test_generate_produces_full_image() {
    let gen = maze_config(p(50, 38), p(0, 0));
    let img = gen.generate().unwrap();
    assert_eq!(img.width(), 50);
    assert_eq!(img.height(), 38);
    // The border row above the entrance column is background only there.
    let mut wall_pixels = 0;
    for x in 0..img.width() {
        if img.pixel(x, 0) == WALL {
            wall_pixels += 1;
        }
    }
    assert!(wall_pixels > 0);
}

#[test]
fn test_generate_rejects_zero_blocks() {
    // A 12x12 image cannot hold one 12-pixel block plus its trailing wall.
    let gen = maze_config(p(12, 12), p(0, 0));
    assert_eq!(gen.generate().unwrap_err(), ConfigError::DegenerateDimensions);
}

#[test]
fn test_generate_rejects_oversized_padding() {
    let gen = maze_config(p(40, 40), p(30, 30));
    assert_eq!(gen.generate().unwrap_err(), ConfigError::InvalidRegion);
}

#[test]
fn test_file_generator_holds_path() {
    let g = FileGenerator::new(String::from("v.png"));
    assert_eq!(g.path, "v.png");
}
