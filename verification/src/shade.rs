//! From an escape time to a gray level.

use vstd::prelude::*;

verus! {

/// The iteration limit with which every pixel is evaluated.
pub const ITERATION_LIMIT: u32 = 255;

/// The gray level of a pixel: `255 - min(time, 255)`, where a point that
/// never escaped counts as time 255 and is therefore black.
pub open spec fn shade_of(time: Option<u32>) -> u8 {
    match time {
        Some(t) => if t >= 255 { 0u8 } else { (255 - t) as u8 },
        None => 0u8,
    }
}

/// Computes the gray level of a pixel from its escape time.
pub fn shade(time: Option<u32>) -> (level: u8)
    ensures
        level == shade_of(time),
{
    match time {
        Some(t) => if t >= 255 { 0 } else { 255 - (t as u8) },
        None => 0,
    }
}

} // verus!
