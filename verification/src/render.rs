//! Rendering one rectangle of pixels.
//!
//! A rectangle of `bounds.0` columns and `bounds.1` rows is stored row by
//! row, row 0 first, in a buffer of exactly `bounds.0 * bounds.1` bytes. It
//! shows the part of the plane between the points `upper_left` and
//! `lower_right`; what point a pixel stands for is decided by the map that
//! the caller supplies.

use vstd::prelude::*;
use vstd::arithmetic::div_mod::{lemma_fundamental_div_mod, lemma_mod_pos_bound};
use crate::escape::{escape_time, is_escape_time, lemma_escape_time_deterministic, step_is_function};
use crate::shade::{shade, shade_of, ITERATION_LIMIT};

verus! {

/// The place of pixel `(col, row)` in a row-major buffer of the given width.
pub open spec fn pixel_index(width: int, col: int, row: int) -> int {
    row * width + col
}

/// `level` is a gray level that the pixel may get: the shade of an escape
/// time, at the fixed iteration limit, of a point that the map gives for it.
pub open spec fn is_pixel_level<P, M, S>(
    map: &M,
    step: &S,
    bounds: (usize, usize),
    pixel: (usize, usize),
    upper_left: P,
    lower_right: P,
    level: u8,
) -> bool where M: Fn((usize, usize), (usize, usize), P, P) -> P, S: Fn(P, P) -> Option<P> {
    exists|point: P, time: Option<u32>|
        #![trigger map.ensures((bounds, pixel, upper_left, lower_right), point), shade_of(time)]
        map.ensures((bounds, pixel, upper_left, lower_right), point) && is_escape_time(
            step,
            point,
            ITERATION_LIMIT,
            time,
        ) && level == shade_of(time)
}

/// `image` is a rendering of the rectangle: it has one byte for each pixel,
/// and each byte is a level that its pixel may get.
pub open spec fn is_rendering<P, M, S>(
    image: Seq<u8>,
    bounds: (usize, usize),
    upper_left: P,
    lower_right: P,
    map: &M,
    step: &S,
) -> bool where M: Fn((usize, usize), (usize, usize), P, P) -> P, S: Fn(P, P) -> Option<P> {
    &&& image.len() == bounds.0 * bounds.1
    &&& forall|col: int, row: int|
        0 <= col < bounds.0 && 0 <= row < bounds.1 ==> is_pixel_level(
            map,
            step,
            bounds,
            (col as usize, row as usize),
            upper_left,
            lower_right,
            image[#[trigger] pixel_index(bounds.0 as int, col, row)],
        )
}

/// The map may be asked for every pixel of the rectangle.
pub open spec fn map_accepts_pixels<P, M>(
    map: &M,
    bounds: (usize, usize),
    upper_left: P,
    lower_right: P,
) -> bool where M: Fn((usize, usize), (usize, usize), P, P) -> P {
    forall|col: usize, row: usize|
        col < bounds.0 && row < bounds.1 ==> #[trigger] map.requires(
            (bounds, (col, row), upper_left, lower_right),
        )
}

/// The step may be asked about every pair of points.
pub open spec fn step_accepts_all<P, S: Fn(P, P) -> Option<P>>(step: &S) -> bool {
    forall|c: P, z: P| #[trigger] step.requires((c, z))
}

/// Every pixel of a rectangle has its place inside the buffer.
pub proof fn lemma_pixel_index_in_bounds(width: int, height: int, col: int, row: int)
    requires
        0 <= col < width,
        0 <= row < height,
    ensures
        0 <= row * width,
        0 <= pixel_index(width, col, row) < width * height,
{
    assert(0 <= row * width && (row + 1) * width <= height * width && (row + 1) * width == row
        * width + width && height * width == width * height) by (nonlinear_arith)
        requires
            0 <= row < height,
            0 < width,
    ;
}

/// Pixels lie in the buffer in reading order: an earlier row, or an earlier
/// column of the same row, has the smaller index.
pub proof fn lemma_pixel_index_order(width: int, col: int, row: int, later_col: int, later_row: int)
    requires
        0 <= col < width,
        0 <= later_col < width,
        0 <= row,
        row < later_row || (row == later_row && col < later_col),
    ensures
        pixel_index(width, col, row) < pixel_index(width, later_col, later_row),
{
    if row < later_row {
        assert((row + 1) * width <= later_row * width && (row + 1) * width == row * width + width)
            by (nonlinear_arith)
            requires
                0 <= row < later_row,
                0 < width,
        ;
    }
}

/// Renders the rectangle into `pixels`.
///
/// Every byte of the buffer is overwritten: the byte of pixel `(col, row)`
/// becomes the shade of the escape time, within the fixed iteration limit,
/// of the point that the map gives for that pixel.
pub fn render<P: Copy, M, S>(
    pixels: &mut [u8],
    bounds: (usize, usize),
    upper_left: P,
    lower_right: P,
    map: &M,
    step: &S,
) where M: Fn((usize, usize), (usize, usize), P, P) -> P, S: Fn(P, P) -> Option<P>
    requires
        old(pixels)@.len() == bounds.0 * bounds.1,
        map_accepts_pixels(map, bounds, upper_left, lower_right),
        step_accepts_all(step),
    ensures
        is_rendering(final(pixels)@, bounds, upper_left, lower_right, map, step),
{
    let (width, height) = bounds;
    let total: usize = pixels.len();
    let mut row: usize = 0;
    while row < height
        invariant
            bounds == (width, height),
            pixels@.len() == width * height == total,
            row <= height,
            map_accepts_pixels(map, bounds, upper_left, lower_right),
            step_accepts_all(step),
            forall|c: int, r: int|
                0 <= c < width && 0 <= r < row ==> is_pixel_level(
                    map,
                    step,
                    bounds,
                    (c as usize, r as usize),
                    upper_left,
                    lower_right,
                    pixels@[#[trigger] pixel_index(width as int, c, r)],
                ),
        decreases height - row,
    {
        let mut col: usize = 0;
        while col < width
            invariant
                bounds == (width, height),
                pixels@.len() == width * height == total,
                row < height,
                col <= width,
                map_accepts_pixels(map, bounds, upper_left, lower_right),
                step_accepts_all(step),
                forall|c: int, r: int|
                    0 <= c < width && 0 <= r <= row && (r < row || c < col) ==> is_pixel_level(
                        map,
                        step,
                        bounds,
                        (c as usize, r as usize),
                        upper_left,
                        lower_right,
                        pixels@[#[trigger] pixel_index(width as int, c, r)],
                    ),
            decreases width - col,
        {
            proof {
                lemma_pixel_index_in_bounds(width as int, height as int, col as int, row as int);
            }
            let point = map(bounds, (col, row), upper_left, lower_right);
            let time = escape_time(point, ITERATION_LIMIT, step);
            let ghost before = pixels@;
            let at: usize = row * width + col;
            pixels[at] = shade(time);
            proof {
                assert forall|c: int, r: int|
                    0 <= c < width && 0 <= r <= row && (r < row || c < col + 1) implies is_pixel_level(
                    map,
                    step,
                    bounds,
                    (c as usize, r as usize),
                    upper_left,
                    lower_right,
                    pixels@[#[trigger] pixel_index(width as int, c, r)],
                ) by {
                    if r == row && c == col {
                        assert(map.ensures((bounds, (col, row), upper_left, lower_right), point));
                    } else {
                        lemma_pixel_index_in_bounds(width as int, height as int, c, r);
                        lemma_pixel_index_order(width as int, c, r, col as int, row as int);
                        assert(pixels@[pixel_index(width as int, c, r)] == before[pixel_index(
                            width as int,
                            c,
                            r,
                        )]);
                    }
                }
            }
            col += 1;
        }
        row += 1;
    }
}

/// The map gives at most one point for each pixel of each rectangle.
pub open spec fn map_is_function<P, M>(map: &M) -> bool where
    M: Fn((usize, usize), (usize, usize), P, P) -> P,
{
    forall|bounds: (usize, usize), pixel: (usize, usize), upper_left: P, lower_right: P, a: P, b: P|
        #![trigger
            map.ensures((bounds, pixel, upper_left, lower_right), a),
            map.ensures((bounds, pixel, upper_left, lower_right), b)
        ]
        map.ensures((bounds, pixel, upper_left, lower_right), a) && map.ensures(
            (bounds, pixel, upper_left, lower_right),
            b,
        ) ==> a == b
}

/// A pixel has one level only, when the map and the step are functions.
pub proof fn lemma_pixel_level_unique<P, M, S>(
    map: &M,
    step: &S,
    bounds: (usize, usize),
    pixel: (usize, usize),
    upper_left: P,
    lower_right: P,
    first: u8,
    second: u8,
) where M: Fn((usize, usize), (usize, usize), P, P) -> P, S: Fn(P, P) -> Option<P>
    requires
        map_is_function(map),
        step_is_function(step),
        is_pixel_level(map, step, bounds, pixel, upper_left, lower_right, first),
        is_pixel_level(map, step, bounds, pixel, upper_left, lower_right, second),
    ensures
        first == second,
{
    let (p, t) = choose|point: P, time: Option<u32>|
        #![trigger map.ensures((bounds, pixel, upper_left, lower_right), point), shade_of(time)]
        map.ensures((bounds, pixel, upper_left, lower_right), point) && is_escape_time(
            step,
            point,
            ITERATION_LIMIT,
            time,
        ) && first == shade_of(time);
    let (q, u) = choose|point: P, time: Option<u32>|
        #![trigger map.ensures((bounds, pixel, upper_left, lower_right), point), shade_of(time)]
        map.ensures((bounds, pixel, upper_left, lower_right), point) && is_escape_time(
            step,
            point,
            ITERATION_LIMIT,
            time,
        ) && second == shade_of(time);
    assert(p == q);
    lemma_escape_time_deterministic(step, p, ITERATION_LIMIT, t, u);
}

/// Rendering is deterministic: when the map and the step are functions, two
/// renderings of the same rectangle are the same bytes.
pub proof fn lemma_rendering_unique<P, M, S>(
    first: Seq<u8>,
    second: Seq<u8>,
    bounds: (usize, usize),
    upper_left: P,
    lower_right: P,
    map: &M,
    step: &S,
) where M: Fn((usize, usize), (usize, usize), P, P) -> P, S: Fn(P, P) -> Option<P>
    requires
        map_is_function(map),
        step_is_function(step),
        is_rendering(first, bounds, upper_left, lower_right, map, step),
        is_rendering(second, bounds, upper_left, lower_right, map, step),
    ensures
        first == second,
{
    let width = bounds.0 as int;
    let height = bounds.1 as int;
    assert forall|i: int| 0 <= i < first.len() implies first[i] == second[i] by {
        if width == 0 {
            assert(width * height == 0) by (nonlinear_arith)
                requires
                    width == 0,
            ;
        }
        let col = i % width;
        let row = i / width;
        lemma_fundamental_div_mod(i, width);
        lemma_mod_pos_bound(i, width);
        assert(width * row == row * width) by (nonlinear_arith);
        assert(0 <= row < height) by (nonlinear_arith)
            requires
                0 <= i < width * height,
                i == row * width + col,
                0 <= col < width,
        ;
        assert(pixel_index(width, col, row) == i);
        lemma_pixel_level_unique(
            map,
            step,
            bounds,
            (col as usize, row as usize),
            upper_left,
            lower_right,
            first[i],
            second[i],
        );
    }
    assert(first =~= second);
}

} // verus!
