//! The geometry of a video barcode: one column per sampled frame.
use vstd::prelude::*;

verus! {

/// A width and a height in pixels.
#[derive(Clone, Copy, Debug, PartialEq, Eq, Structural)]
pub struct Dimensions {
    pub width: u32,
    pub height: u32,
}

impl Dimensions {
    pub fn new(width: u32, height: u32) -> (r: Dimensions)
        ensures
            r.width == width,
            r.height == height,
    {
        Dimensions { width, height }
    }
}

/// The barcode of a video: as high as the video, three times as wide as high;
/// none where that width does not fit.
pub fn barcode_dimensions(video: Dimensions) -> (r: Option<Dimensions>)
    ensures
        video.height as int * 3 <= u32::MAX ==> r == Some(
            Dimensions { width: (video.height * 3) as u32, height: video.height },
        ),
        video.height as int * 3 > u32::MAX ==> r is None,
{
    match video.height.checked_mul(3) {
        Some(width) => Some(Dimensions { width, height: video.height }),
        None => None,
    }
}

/// What to read and where to write the barcode, and whether columns are plain
/// averages or blended.
pub struct FrameRipper {
    pub input_path: String,
    pub output_path: String,
    pub is_simple: bool,
}

impl FrameRipper {
    pub fn new(input_path: String, output_path: String, is_simple: bool) -> (r: FrameRipper)
        ensures
            r.input_path == input_path,
            r.output_path == output_path,
            r.is_simple == is_simple,
    {
        FrameRipper { input_path, output_path, is_simple }
    }
}

} // verus!
