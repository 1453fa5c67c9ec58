//! Bands: the partition of an image into runs of whole rows.
//!
//! An image of `height` rows is shared out among `workers` as bands of
//! `height / workers + 1` rows each, in order from row 0; the last band
//! takes what is left and may be shorter. The bands are disjoint and cover
//! every row, so each one owns a contiguous part of a row-major buffer and
//! can be rendered without regard to the others.

use vstd::prelude::*;
use vstd::arithmetic::div_mod::lemma_fundamental_div_mod;
use crate::escape::{is_escape_time, step_is_function};
use crate::render::{
    is_pixel_level, is_rendering, lemma_rendering_unique, map_is_function, pixel_index, render,
    step_accepts_all,
};
use crate::shade::{shade_of, ITERATION_LIMIT};

verus! {

/// A run of whole rows of an image: `height` rows, the first of which is row
/// `top` of the image.
#[derive(Clone, Copy, Debug, PartialEq, Eq, Structural)]
pub struct Band {
    pub top: usize,
    pub height: usize,
}

/// The number of rows in every band but the last.
pub open spec fn rows_per_band(height: int, workers: int) -> int {
    height / workers + 1
}

/// The number of bands: the least count of full bands that reaches past the
/// last row.
pub open spec fn band_count(height: int, workers: int) -> int {
    if height <= 0 {
        0
    } else {
        (height - 1) / rows_per_band(height, workers) + 1
    }
}

/// Band number `k`, counted from zero.
pub open spec fn band_at(height: int, workers: int, k: int) -> Band {
    let rows = rows_per_band(height, workers);
    let top = k * rows;
    Band {
        top: top as usize,
        height: (if rows <= height - top {
            rows
        } else {
            height - top
        }) as usize,
    }
}

/// All bands of an image, in order.
pub open spec fn band_plan(height: usize, workers: usize) -> Seq<Band> {
    Seq::new(
        band_count(height as int, workers as int) as nat,
        |k: int| band_at(height as int, workers as int, k),
    )
}

/// Band `k` exists exactly when `k` full bands do not yet reach the last row.
pub proof fn lemma_band_exists(height: int, workers: int, k: int)
    requires
        0 <= height,
        1 <= workers,
        0 <= k,
    ensures
        1 <= rows_per_band(height, workers),
        k < band_count(height, workers) <==> k * rows_per_band(height, workers) < height,
{
    let rows = rows_per_band(height, workers);
    assert(height / workers >= 0) by (nonlinear_arith)
        requires
            0 <= height,
            1 <= workers,
    ;
    if height > 0 {
        let q = (height - 1) / rows;
        let r = (height - 1) % rows;
        lemma_fundamental_div_mod(height - 1, rows);
        assert(0 <= r < rows) by (nonlinear_arith)
            requires
                r == (height - 1) % rows,
                rows >= 1,
        ;
        if k <= q {
            assert(k * rows <= q * rows) by (nonlinear_arith)
                requires
                    k <= q,
                    rows >= 1,
            ;
            assert(rows * q == q * rows) by (nonlinear_arith);
        } else {
            assert(k * rows >= q * rows + rows) by (nonlinear_arith)
                requires
                    k >= q + 1,
                    rows >= 1,
            ;
            assert(rows * q == q * rows) by (nonlinear_arith);
        }
    } else {
        assert(k * rows >= 0) by (nonlinear_arith)
            requires
                k >= 0,
                rows >= 1,
        ;
    }
}

/// The bands tile the image. There are at most `workers` of them, and at
/// least one when the image has a row. Each has at least one row and at most
/// `rows_per_band`; the first starts at row 0, each other one starts where
/// the one before it ends, and the last ends with the last row.
pub proof fn lemma_bands_tile(height: usize, workers: usize, k: int)
    requires
        1 <= workers,
        0 <= k < band_count(height as int, workers as int),
    ensures
        band_count(height as int, workers as int) <= workers,
        band_plan(height, workers).len() == band_count(height as int, workers as int),
        band_plan(height, workers)[k] == band_at(height as int, workers as int, k),
        band_at(height as int, workers as int, k).top == k * rows_per_band(
            height as int,
            workers as int,
        ),
        1 <= band_at(height as int, workers as int, k).height <= rows_per_band(
            height as int,
            workers as int,
        ),
        band_at(height as int, workers as int, 0).top == 0,
        k + 1 < band_count(height as int, workers as int) ==> band_at(
            height as int,
            workers as int,
            k + 1,
        ).top == band_at(height as int, workers as int, k).top + band_at(
            height as int,
            workers as int,
            k,
        ).height,
        k + 1 == band_count(height as int, workers as int) ==> band_at(
            height as int,
            workers as int,
            k,
        ).top + band_at(height as int, workers as int, k).height == height,
{
    let h = height as int;
    let w = workers as int;
    let rows = rows_per_band(h, w);
    lemma_band_exists(h, w, k);
    lemma_band_exists(h, w, k + 1);
    lemma_band_exists(h, w, w);
    // `workers` full bands reach past the last row.
    lemma_fundamental_div_mod(h, w);
    assert(0 <= h % w < w) by (nonlinear_arith)
        requires
            w >= 1,
    ;
    assert(w * rows == w * (h / w) + w) by (nonlinear_arith)
        requires
            rows == h / w + 1,
    ;
    assert(w * rows > h);
    assert((k + 1) * rows == k * rows + rows) by (nonlinear_arith);
    assert(0 * rows == 0);
    assert(k * rows >= 0) by (nonlinear_arith)
        requires
            k >= 0,
            rows >= 1,
    ;
}

/// Computes the bands of an image of `height` rows for `workers` workers.
pub fn plan_bands(height: usize, workers: usize) -> (plan: Vec<Band>)
    requires
        workers >= 1,
    ensures
        plan@ == band_plan(height, workers),
{
    let full: usize = height / workers;
    let mut plan: Vec<Band> = Vec::new();
    let mut top: usize = 0;
    let ghost rows = rows_per_band(height as int, workers as int);
    proof {
        lemma_band_exists(height as int, workers as int, 0);
    }
    while top < height
        invariant
            1 <= workers,
            full == height / workers,
            rows == full + 1,
            top <= height,
            top == height || top == plan@.len() * rows,
            plan@.len() * rows >= top,
            plan@.len() <= band_count(height as int, workers as int),
            forall|j: int|
                0 <= j < plan@.len() ==> plan@[j] == band_at(height as int, workers as int, j),
        decreases height - top,
    {
        let ghost k = plan@.len() as int;
        let left: usize = height - top;
        let rows_here: usize = if full < left {
            full + 1
        } else {
            left
        };
        proof {
            lemma_band_exists(height as int, workers as int, k);
            lemma_band_exists(height as int, workers as int, k + 1);
            assert((k + 1) * rows == k * rows + rows) by (nonlinear_arith);
        }
        plan.push(Band { top, height: rows_here });
        top = top + rows_here;
    }
    proof {
        lemma_band_exists(height as int, workers as int, plan@.len() as int);
        assert(plan@ =~= band_plan(height, workers));
    }
    plan
}

/// The map may be asked about every pixel of every rectangle.
pub open spec fn map_accepts_all<P, M>(map: &M) -> bool where
    M: Fn((usize, usize), (usize, usize), P, P) -> P,
{
    forall|bounds: (usize, usize), pixel: (usize, usize), upper_left: P, lower_right: P| #[trigger]
        map.requires((bounds, pixel, upper_left, lower_right))
}

/// `corners` are points that the map gives for the corners of the band: for
/// the pixel at the left end of its first row, and for the pixel just past
/// the right end of the row below its last.
pub open spec fn are_band_corners<P, M>(
    map: &M,
    bounds: (usize, usize),
    band: Band,
    upper_left: P,
    lower_right: P,
    corners: (P, P),
) -> bool where M: Fn((usize, usize), (usize, usize), P, P) -> P {
    &&& map.ensures((bounds, (0usize, band.top), upper_left, lower_right), corners.0)
    &&& map.ensures(
        (bounds, (bounds.0, (band.top + band.height) as usize), upper_left, lower_right),
        corners.1,
    )
}

/// The part of the plane that a band shows, found by mapping the band's
/// corner pixels within the whole image.
pub fn band_corners<P: Copy, M>(
    bounds: (usize, usize),
    band: Band,
    upper_left: P,
    lower_right: P,
    map: &M,
) -> (corners: (P, P)) where M: Fn((usize, usize), (usize, usize), P, P) -> P
    requires
        band.top + band.height <= bounds.1,
        map.requires((bounds, (0usize, band.top), upper_left, lower_right)),
        map.requires(
            (bounds, (bounds.0, (band.top + band.height) as usize), upper_left, lower_right),
        ),
    ensures
        are_band_corners(map, bounds, band, upper_left, lower_right, corners),
{
    let band_upper_left = map(bounds, (0, band.top), upper_left, lower_right);
    let band_lower_right = map(bounds, (bounds.0, band.top + band.height), upper_left, lower_right);
    (band_upper_left, band_lower_right)
}

/// The rows of `band` within `image` are a rendering of the band, as a
/// rectangle of its own, between corners that the map gives for it.
pub open spec fn is_band_rendered<P, M, S>(
    image: Seq<u8>,
    bounds: (usize, usize),
    upper_left: P,
    lower_right: P,
    band: Band,
    map: &M,
    step: &S,
) -> bool where M: Fn((usize, usize), (usize, usize), P, P) -> P, S: Fn(P, P) -> Option<P> {
    exists|corners: (P, P)|
        #![trigger are_band_corners(map, bounds, band, upper_left, lower_right, corners)]
        are_band_corners(map, bounds, band, upper_left, lower_right, corners) && is_rendering(
            image.subrange(bounds.0 * band.top, bounds.0 * (band.top + band.height)),
            (bounds.0, band.height),
            corners.0,
            corners.1,
            map,
            step,
        )
}

/// `image` is a rendering of the whole image made band by band for the given
/// number of workers.
pub open spec fn is_banded_rendering<P, M, S>(
    image: Seq<u8>,
    bounds: (usize, usize),
    upper_left: P,
    lower_right: P,
    workers: usize,
    map: &M,
    step: &S,
) -> bool where M: Fn((usize, usize), (usize, usize), P, P) -> P, S: Fn(P, P) -> Option<P> {
    &&& image.len() == bounds.0 * bounds.1
    &&& forall|k: int|
        0 <= k < band_count(bounds.1 as int, workers as int) ==> is_band_rendered(
            image,
            bounds,
            upper_left,
            lower_right,
            #[trigger] band_at(bounds.1 as int, workers as int, k),
            map,
            step,
        )
}

/// Renders the whole image band by band, one band after the other.
///
/// The buffer is cut into the bands that `plan_bands` gives for `workers`.
/// Each band is rendered as a rectangle of its own, from its own part of the
/// buffer and between its own corners, and nothing outside that part of the
/// buffer is read or written for it. Where the map respects bands, the
/// result is a rendering of the image as a whole.
pub fn render_banded<P: Copy, M, S>(
    pixels: &mut [u8],
    bounds: (usize, usize),
    upper_left: P,
    lower_right: P,
    workers: usize,
    map: &M,
    step: &S,
) where M: Fn((usize, usize), (usize, usize), P, P) -> P, S: Fn(P, P) -> Option<P>
    requires
        old(pixels)@.len() == bounds.0 * bounds.1,
        bounds.0 >= 1,
        workers >= 1,
        map_accepts_all(map),
        step_accepts_all(step),
    ensures
        is_banded_rendering(final(pixels)@, bounds, upper_left, lower_right, workers, map, step),
        map_respects_bands(map, bounds, upper_left, lower_right) ==> is_rendering(
            final(pixels)@,
            bounds,
            upper_left,
            lower_right,
            map,
            step,
        ),
{
    let (width, height) = bounds;
    let total: usize = pixels.len();
    let plan = plan_bands(height, workers);
    let ghost count = band_count(height as int, workers as int);
    let ghost mut done: Seq<u8> = Seq::empty();
    let mut rest = pixels;
    let mut k: usize = 0;
    let mut top: usize = 0;
    while k < plan.len()
        invariant
            bounds == (width, height),
            width >= 1,
            workers >= 1,
            total == width * height,
            map_accepts_all(map),
            step_accepts_all(step),
            plan@ == band_plan(height, workers),
            plan@.len() == count == band_count(height as int, workers as int),
            k <= count,
            top <= height,
            k < count ==> top == band_at(height as int, workers as int, k as int).top,
            k == count ==> top == height,
            done.len() == width * top,
            done.len() + rest@.len() == total,
            final(old(pixels))@ == done + final(rest)@,
            forall|j: int|
                0 <= j < k ==> is_band_rendered(
                    done,
                    bounds,
                    upper_left,
                    lower_right,
                    #[trigger] band_at(height as int, workers as int, j),
                    map,
                    step,
                ),
        decreases count - k,
    {
        let band = plan[k];
        proof {
            lemma_bands_tile(height, workers, k as int);
            assert(band == band_at(height as int, workers as int, k as int));
            assert(width * (top + band.height) == width * top + width * band.height && width * (top
                + band.height) <= width * height && 0 <= width * band.height) by (nonlinear_arith)
                requires
                    top + band.height <= height,
                    width >= 1,
            ;
        }
        let (chunk, tail) = rest.split_at_mut(width * band.height);
        let corners = band_corners(bounds, band, upper_left, lower_right, map);
        render(chunk, (width, band.height), corners.0, corners.1, map, step);
        proof {
            let longer = done + chunk@;
            assert(longer.subrange(width * band.top, width * (band.top + band.height)) =~= chunk@);
            assert forall|j: int| 0 <= j < k + 1 implies is_band_rendered(
                longer,
                bounds,
                upper_left,
                lower_right,
                #[trigger] band_at(height as int, workers as int, j),
                map,
                step,
            ) by {
                let other = band_at(height as int, workers as int, j);
                if j < k {
                    lemma_band_within(height, workers, j, k as int);
                    assert(0 <= width * other.top <= width * (other.top + other.height) <= width
                        * top) by (nonlinear_arith)
                        requires
                            other.top + other.height <= top,
                            width >= 1,
                    ;
                    assert(longer.subrange(width * other.top, width * (other.top + other.height))
                        =~= done.subrange(width * other.top, width * (other.top + other.height)));
                    assert(is_band_rendered(done, bounds, upper_left, lower_right, other, map, step));
                } else {
                    assert(are_band_corners(map, bounds, band, upper_left, lower_right, corners));
                }
            }
            assert(done + (chunk@ + final(tail)@) =~= longer + final(tail)@);
            done = longer;
        }
        rest = tail;
        top = top + band.height;
        k += 1;
    }
    proof {
        assert(done + rest@ =~= done);
        if map_respects_bands(map, bounds, upper_left, lower_right) {
            lemma_banded_rendering_is_rendering(
                done,
                bounds,
                upper_left,
                lower_right,
                workers,
                map,
                step,
            );
        }
    }
}

/// An earlier band ends at or before the row at which a later one starts.
pub proof fn lemma_band_within(height: usize, workers: usize, j: int, k: int)
    requires
        1 <= workers,
        0 <= j < k < band_count(height as int, workers as int),
    ensures
        band_at(height as int, workers as int, j).top + band_at(
            height as int,
            workers as int,
            j,
        ).height <= band_at(height as int, workers as int, k).top,
{
    let rows = rows_per_band(height as int, workers as int);
    lemma_bands_tile(height, workers, j);
    lemma_bands_tile(height, workers, k);
    assert((j + 1) * rows <= k * rows && (j + 1) * rows == j * rows + rows) by (nonlinear_arith)
        requires
            j + 1 <= k,
            rows >= 1,
    ;
}

/// Mapping a pixel within a band, between the band's own corners, gives the
/// point that mapping the same pixel within the whole image gives. This
/// holds of a map that is affine in exact arithmetic; a map that rounds may
/// fail it.
pub open spec fn map_respects_bands<P, M>(
    map: &M,
    bounds: (usize, usize),
    upper_left: P,
    lower_right: P,
) -> bool where M: Fn((usize, usize), (usize, usize), P, P) -> P {
    forall|band: Band, col: usize, row: usize, corners: (P, P), point: P|
        #![trigger
            are_band_corners(map, bounds, band, upper_left, lower_right, corners),
            map.ensures(((bounds.0, band.height), (col, row), corners.0, corners.1), point)
        ]
        band.top + band.height <= bounds.1 && col < bounds.0 && row < band.height
            && are_band_corners(map, bounds, band, upper_left, lower_right, corners) && map.ensures(
            ((bounds.0, band.height), (col, row), corners.0, corners.1),
            point,
        ) ==> map.ensures(
            (bounds, (col, (band.top + row) as usize), upper_left, lower_right),
            point,
        )
}

/// Rendering band by band gives a rendering of the whole image, whatever
/// the number of workers, provided that the map respects bands.
pub proof fn lemma_banded_rendering_is_rendering<P, M, S>(
    image: Seq<u8>,
    bounds: (usize, usize),
    upper_left: P,
    lower_right: P,
    workers: usize,
    map: &M,
    step: &S,
) where M: Fn((usize, usize), (usize, usize), P, P) -> P, S: Fn(P, P) -> Option<P>
    requires
        workers >= 1,
        map_respects_bands(map, bounds, upper_left, lower_right),
        is_banded_rendering(image, bounds, upper_left, lower_right, workers, map, step),
    ensures
        is_rendering(image, bounds, upper_left, lower_right, map, step),
{
    let width = bounds.0 as int;
    let height = bounds.1 as int;
    let rows = rows_per_band(height, workers as int);
    assert forall|col: int, row: int| 0 <= col < width && 0 <= row < height implies is_pixel_level(
        map,
        step,
        bounds,
        (col as usize, row as usize),
        upper_left,
        lower_right,
        image[#[trigger] pixel_index(width, col, row)],
    ) by {
        lemma_band_exists(height, workers as int, 0);
        let k = row / rows;
        lemma_fundamental_div_mod(row, rows);
        assert(0 <= row % rows < rows) by (nonlinear_arith)
            requires
                rows >= 1,
        ;
        assert(0 <= k && k * rows == rows * k) by (nonlinear_arith)
            requires
                row >= 0,
                rows >= 1,
                k == row / rows,
        ;
        lemma_band_exists(height, workers as int, k);
        lemma_bands_tile(bounds.1, workers, k);
        let band = band_at(height, workers as int, k);
        let local = row - band.top;
        assert(0 <= local < band.height);
        let corners = choose|corners: (P, P)|
            #![trigger are_band_corners(map, bounds, band, upper_left, lower_right, corners)]
            are_band_corners(map, bounds, band, upper_left, lower_right, corners) && is_rendering(
                image.subrange(bounds.0 * band.top, bounds.0 * (band.top + band.height)),
                (bounds.0, band.height),
                corners.0,
                corners.1,
                map,
                step,
            );
        let part = image.subrange(bounds.0 * band.top, bounds.0 * (band.top + band.height));
        let level = part[pixel_index(width, col, local)];
        assert(is_pixel_level(
            map,
            step,
            (bounds.0, band.height),
            (col as usize, local as usize),
            corners.0,
            corners.1,
            level,
        ));
        assert(0 <= width * band.top && width * (band.top + band.height) <= width * height
            && width * band.top + pixel_index(width, col, local) == pixel_index(width, col, row)
            && pixel_index(width, col, local) < width * (band.top + band.height) - width
            * band.top && 0 <= pixel_index(width, col, local)) by (nonlinear_arith)
            requires
                0 <= col < width,
                0 <= local < band.height,
                local == row - band.top,
                band.top + band.height <= height,
                pixel_index(width, col, local) == local * width + col,
                pixel_index(width, col, row) == row * width + col,
        ;
        assert(level == image[pixel_index(width, col, row)]);
        let (point, time) = choose|point: P, time: Option<u32>|
            #![trigger
                map.ensures(
                    ((bounds.0, band.height), (col as usize, local as usize), corners.0, corners.1),
                    point,
                ),
                shade_of(time)
            ]
            map.ensures(
                ((bounds.0, band.height), (col as usize, local as usize), corners.0, corners.1),
                point,
            ) && is_escape_time(step, point, ITERATION_LIMIT, time) && level == shade_of(time);
        assert(map.ensures(
            (bounds, (col as usize, (band.top + local as usize) as usize), upper_left, lower_right),
            point,
        ));
        assert(map.ensures((bounds, (col as usize, row as usize), upper_left, lower_right), point)
            && shade_of(time) == level);
    }
}

/// Splitting the work does not change the picture. When the map and the step
/// are functions and the map respects bands, an image rendered band by band
/// for any number of workers is, byte for byte, the image rendered in one
/// piece; hence any two numbers of workers give the same bytes.
pub proof fn lemma_banded_equals_whole<P, M, S>(
    whole: Seq<u8>,
    banded: Seq<u8>,
    bounds: (usize, usize),
    upper_left: P,
    lower_right: P,
    workers: usize,
    map: &M,
    step: &S,
) where M: Fn((usize, usize), (usize, usize), P, P) -> P, S: Fn(P, P) -> Option<P>
    requires
        workers >= 1,
        map_is_function(map),
        step_is_function(step),
        map_respects_bands(map, bounds, upper_left, lower_right),
        is_rendering(whole, bounds, upper_left, lower_right, map, step),
        is_banded_rendering(banded, bounds, upper_left, lower_right, workers, map, step),
    ensures
        banded == whole,
{
    lemma_banded_rendering_is_rendering(
        banded,
        bounds,
        upper_left,
        lower_right,
        workers,
        map,
        step,
    );
    lemma_rendering_unique(banded, whole, bounds, upper_left, lower_right, map, step);
}

} // verus!
