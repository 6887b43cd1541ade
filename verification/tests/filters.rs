//! Filter configuration values.

use glitch_maze::filter::{AbberateFilter, ColorSpace, CropFilter, ScanFilter};

#[test]
fn test_abberate_filter_new() {
    let f = AbberateFilter::new(0, 4, -4);
    assert_eq!(f.channel_shifts, [0, 4, -4]);
    assert_eq!(f.color_space, ColorSpace::Yiq);
}

#[test]
fn test_crop_filter_new() {
    let f = CropFilter::new(1, 2, 3, 4);
    assert_eq!(f.top, 1);
    assert_eq!(f.right, 2);
    assert_eq!(f.bottom, 3);
    assert_eq!(f.left, 4);
}

#[test]
fn test_scan_filter_new() {
    let f = ScanFilter::new(480, 8);
    assert_eq!(f.lines, 480);
    assert_eq!(f.vary, 8);
}
