//! Configuration of the stylistic filters whose per-pixel arithmetic runs
//! outside the library: the values they are built from, with exact
//! constructor contracts.

use vstd::prelude::*;

verus! {

/// The color model a channel filter works in.
#[derive(Debug, Clone, Copy, PartialEq, Eq, Structural)]
pub enum ColorSpace {
    Rgb,
    Yiq,
}

/// Per-channel horizontal shifts for the chromatic-aberration filter.
pub struct AbberateFilter {
    pub channel_shifts: [i32; 3],
    pub color_space: ColorSpace,
}

impl AbberateFilter {
    /// One signed shift per channel; the filter works on YIQ channels.
    pub fn new(r: i32, g: i32, b: i32) -> (f: AbberateFilter)
        ensures
            f.channel_shifts@ == seq![r, g, b],
            f.color_space == ColorSpace::Yiq,
    {
        let f = AbberateFilter { channel_shifts: [r, g, b], color_space: ColorSpace::Yiq };
        proof {
            assert(f.channel_shifts@ =~= seq![r, g, b]);
        }
        f
    }
}

/// How many pixels to cut from each edge of the image.
pub struct CropFilter {
    pub top: u32,
    pub right: u32,
    pub bottom: u32,
    pub left: u32,
}

impl CropFilter {
    pub fn new(top: u32, right: u32, bottom: u32, left: u32) -> (f: CropFilter)
        ensures
            f.top == top,
            f.right == right,
            f.bottom == bottom,
            f.left == left,
    {
        CropFilter { top, right, bottom, left }
    }
}

/// The scan-line brightness modulation: how many lines cross the image and
/// how far the brightness swings.
pub struct ScanFilter {
    pub lines: u32,
    pub vary: i16,
}

impl ScanFilter {
    pub fn new(lines: u32, vary: i16) -> (f: ScanFilter)
        ensures
            f.lines == lines,
            f.vary == vary,
    {
        ScanFilter { lines, vary }
    }
}

} // verus!
