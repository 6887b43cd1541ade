//! Positions and regions: half-open containment and component arithmetic.

use glitch_maze::position::{Position, Region};

fn p(x: u32, y: u32) -> Position {
    Position::new(x, y)
}

fn r(a: Position, b: Position) -> Option<Region> {
    Region::new(a, b)
}

#[test]
fn test_region_bounding() {
    let region = r(p(5, 5), p(15, 15)).unwrap();

    assert!(region.contains(p(5, 5)));
    assert!(region.contains(p(5, 6)));
    assert!(region.contains(p(6, 5)));
    assert!(region.contains(p(6, 6)));
    assert!(region.contains(p(14, 14)));
    assert!(!region.contains(p(15, 14)));
    assert!(!region.contains(p(14, 15)));
    assert!(!region.contains(p(15, 15)));
    assert!(!region.contains(p(5, 15)));
    assert!(!region.contains(p(15, 5)));
    assert!(!region.contains(p(0, 0)));
    assert!(!region.contains(p(4, 4)));
    assert!(!region.contains(p(4, 5)));
    assert!(!region.contains(p(5, 4)));
    assert!(!region.contains(p(4, 15)));
    assert!(!region.contains(p(15, 4)));
    assert!(!region.contains(p(16, 16)));
    assert!(!region.contains(p(16, 5)));
    assert!(!region.contains(p(5, 16)));
}

#[test]
fn test_region_rejects_inverted_corners() {
    assert!(r(p(10, 0), p(5, 20)).is_none());
    assert!(r(p(0, 10), p(20, 5)).is_none());
    assert!(r(p(3, 3), p(3, 3)).is_some());
}

#[test]
fn test_region_dimensions() {
    let region = r(p(5, 7), p(15, 20)).unwrap();
    let d = region.dimensions();
    assert_eq!(d.x(), 10);
    assert_eq!(d.y(), 13);
    assert_eq!(region.top_left().x(), 5);
    assert_eq!(region.top_left().y(), 7);
    assert_eq!(region.bottom_right().x(), 15);
    assert_eq!(region.bottom_right().y(), 20);
}

#[test]
fn test_position_componentwise_arithmetic() {
    let a = p(14, 20);
    let b = p(6, 5);
    let sum = a.add(b);
    assert_eq!((sum.x(), sum.y()), (20, 25));
    let diff = a.sub(b);
    assert_eq!((diff.x(), diff.y()), (8, 15));
    let quot = a.div(b);
    assert_eq!((quot.x(), quot.y()), (2, 4));
    let rem = a.rem(b);
    assert_eq!((rem.x(), rem.y()), (2, 0));
    let scaled = b.mul_scalar(3);
    assert_eq!((scaled.x(), scaled.y()), (18, 15));
    let halved = a.div_scalar(2);
    assert_eq!((halved.x(), halved.y()), (7, 10));
}
