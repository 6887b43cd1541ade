//! The maze builder: spanning-tree structure, passage symmetry, forced
//! entrance and exit, directional bias, and configuration errors.

use glitch_maze::builder::{generate_maze, ConfigError, WeightConfig};
use glitch_maze::grid::{cell_glyph, Cell, Direction, Grid};

fn uniform(w: u32) -> WeightConfig {
    WeightConfig::uniform(w)
}

fn count_passages(g: &Grid) -> usize {
    let w = g.width();
    let h = g.height();
    let mut count = 0;
    for y in 0..h {
        for x in 0..w {
            let c = g.cell(x, y);
            if c.east && x + 1 < w {
                count += 1;
            }
            if c.south && y + 1 < h {
                count += 1;
            }
        }
    }
    count
}

fn flood_fill_count(g: &Grid) -> usize {
    let w = g.width();
    let h = g.height();
    let mut seen = vec![false; w * h];
    let mut stack = vec![(0usize, 0usize)];
    seen[0] = true;
    let mut reached = 0;
    while let Some((x, y)) = stack.pop() {
        reached += 1;
        let c = g.cell(x, y);
        let mut neighbors: Vec<(usize, usize)> = Vec::new();
        if c.north && y > 0 {
            neighbors.push((x, y - 1));
        }
        if c.south && y + 1 < h {
            neighbors.push((x, y + 1));
        }
        if c.east && x + 1 < w {
            neighbors.push((x + 1, y));
        }
        if c.west && x > 0 {
            neighbors.push((x - 1, y));
        }
        for (nx, ny) in neighbors {
            if !seen[ny * w + nx] {
                seen[ny * w + nx] = true;
                stack.push((nx, ny));
            }
        }
    }
    reached
}

#[test]
fn test_spanning_tree_passage_count() {
    for (w, h) in [(1, 1), (1, 6), (6, 1), (7, 5), (12, 9)] {
        let g = generate_maze(&uniform(3), w, h).unwrap();
        assert_eq!(count_passages(&g), w * h - 1);
    }
}

#[test]
fn test_every_cell_reachable() {
    for (w, h) in [(1, 1), (2, 2), (8, 6), (5, 11)] {
        let g = generate_maze(&uniform(1), w, h).unwrap();
        assert_eq!(flood_fill_count(&g), w * h);
    }
}

#[test]
fn test_passage_symmetry() {
    let g = generate_maze(&uniform(5), 9, 7).unwrap();
    let w = g.width();
    let h = g.height();
    for y in 0..h {
        for x in 0..w {
            let c = g.cell(x, y);
            if x + 1 < w {
                assert_eq!(c.east, g.cell(x + 1, y).west);
            }
            if y + 1 < h {
                assert_eq!(c.south, g.cell(x, y + 1).north);
            }
        }
    }
}

#[test]
fn test_forced_entrance_and_exit() {
    for (w, h) in [(1, 1), (4, 4), (10, 3)] {
        let g = generate_maze(&uniform(2), w, h).unwrap();
        assert!(g.cell(0, 0).north);
        assert!(g.cell(w - 1, h - 1).south);
    }
}

#[test]
fn test_boundary_stays_sealed() {
    let g = generate_maze(&uniform(1), 6, 4).unwrap();
    let w = g.width();
    let h = g.height();
    for x in 0..w {
        if x != 0 {
            assert!(!g.cell(x, 0).north);
        }
        if x != w - 1 {
            assert!(!g.cell(x, h - 1).south);
        }
    }
    for y in 0..h {
        assert!(!g.cell(0, y).west);
        assert!(!g.cell(w - 1, y).east);
    }
}

#[test]
fn test_degenerate_dimensions_rejected() {
    assert_eq!(
        generate_maze(&uniform(1), 0, 5).unwrap_err(),
        ConfigError::DegenerateDimensions
    );
    assert_eq!(
        generate_maze(&uniform(1), 5, 0).unwrap_err(),
        ConfigError::DegenerateDimensions
    );
    assert_eq!(
        generate_maze(&uniform(1), 0, 0).unwrap_err(),
        ConfigError::DegenerateDimensions
    );
}

#[test]
fn test_all_zero_weights_rejected() {
    let zero = WeightConfig {
        north: Some(0),
        east: Some(0),
        south: Some(0),
        west: Some(0),
        default_weight: 0,
    };
    assert_eq!(
        generate_maze(&zero, 2, 1).unwrap_err(),
        ConfigError::AllWeightsZero
    );
}

#[test]
fn test_weighted_selection_bias() {
    // With east and west weighted a million times the default, sideways
    // passages must dominate vertical ones across many generations.
    let skewed = WeightConfig {
        north: None,
        east: Some(1_000_000),
        south: None,
        west: Some(1_000_000),
        default_weight: 1,
    };
    let mut horizontal = 0usize;
    let mut vertical = 0usize;
    for _ in 0..30 {
        let g = generate_maze(&skewed, 10, 10).unwrap();
        for y in 0..10 {
            for x in 0..10 {
                let c = g.cell(x, y);
                if c.east && x + 1 < 10 {
                    horizontal += 1;
                }
                if c.south && y + 1 < 10 {
                    vertical += 1;
                }
            }
        }
    }
    assert!(horizontal > vertical);
}

#[test]
fn test_weight_lookup_falls_back_to_default() {
    let cfg = WeightConfig {
        north: Some(30),
        east: None,
        south: Some(7),
        west: None,
        default_weight: 10,
    };
    assert_eq!(cfg.weight(Direction::North), 30);
    assert_eq!(cfg.weight(Direction::East), 10);
    assert_eq!(cfg.weight(Direction::South), 7);
    assert_eq!(cfg.weight(Direction::West), 10);
}

#[test]
fn test_direction_reverse_involution() {
    let all = Direction::all();
    assert_eq!(
        all,
        vec![
            Direction::North,
            Direction::East,
            Direction::South,
            Direction::West
        ]
    );
    for d in all {
        assert_eq!(d.reverse().reverse(), d);
    }
    assert_eq!(Direction::North.reverse(), Direction::South);
    assert_eq!(Direction::East.reverse(), Direction::West);
}

#[test]
fn test_direction_mark_sets_one_flag() {
    let mut c = Cell::default();
    assert!(!c.north && !c.east && !c.south && !c.west && !c.visited);
    Direction::East.mark(&mut c);
    assert!(c.east);
    assert!(!c.north && !c.south && !c.west && !c.visited);
}

#[test]
fn test_cell_glyphs() {
    let mut closed = Cell::default();
    assert_eq!(cell_glyph(closed), '@');
    Direction::North.mark(&mut closed);
    Direction::South.mark(&mut closed);
    assert_eq!(cell_glyph(closed), '\u{2551}');
    let mut all = Cell::default();
    Direction::North.mark(&mut all);
    Direction::East.mark(&mut all);
    Direction::South.mark(&mut all);
    Direction::West.mark(&mut all);
    assert_eq!(cell_glyph(all), '\u{256c}');
}
