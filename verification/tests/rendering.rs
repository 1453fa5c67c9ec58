use mandelbrot::{escape_time, render, render_banded, shade, ITERATION_LIMIT};
use num::Complex;

// The plane in double precision.

fn pixel_to_point(
    bounds: (usize, usize),
    pixel: (usize, usize),
    upper_left: Complex<f64>,
    lower_right: Complex<f64>,
) -> Complex<f64> {
    let (width, height) = (lower_right.re - upper_left.re, upper_left.im - lower_right.im);
    Complex {
        re: upper_left.re + pixel.0 as f64 * width / bounds.0 as f64,
        im: upper_left.im - pixel.1 as f64 * height / bounds.1 as f64,
    }
}

fn orbit_step(c: Complex<f64>, z: Complex<f64>) -> Option<Complex<f64>> {
    let re_sq = z.re * z.re;
    let im_sq = z.im * z.im;
    if re_sq + im_sq > 4.0 {
        None
    } else {
        Some(Complex { re: re_sq - im_sq + c.re, im: 2.0 * z.re * z.im + c.im })
    }
}

fn point(re: f64, im: f64) -> Complex<f64> {
    Complex { re, im }
}

fn whole(bounds: (usize, usize), ul: Complex<f64>, lr: Complex<f64>) -> Vec<u8> {
    let mut pixels = vec![7u8; bounds.0 * bounds.1];
    render(&mut pixels, bounds, ul, lr, &pixel_to_point, &orbit_step);
    pixels
}

fn banded(bounds: (usize, usize), ul: Complex<f64>, lr: Complex<f64>, workers: usize) -> Vec<u8> {
    let mut pixels = vec![7u8; bounds.0 * bounds.1];
    render_banded(&mut pixels, bounds, ul, lr, workers, &pixel_to_point, &orbit_step);
    pixels
}

// A plane of whole numbers, on which the map is exact. A point is its two
// coordinates in units of 1/64.

fn grid_point(
    _bounds: (usize, usize),
    pixel: (usize, usize),
    upper_left: (i64, i64),
    _lower_right: (i64, i64),
) -> (i64, i64) {
    (upper_left.0 + 4 * pixel.0 as i64, upper_left.1 - 4 * pixel.1 as i64)
}

fn grid_step(c: (i64, i64), z: (i64, i64)) -> Option<(i64, i64)> {
    let re_sq = z.0 * z.0;
    let im_sq = z.1 * z.1;
    if re_sq + im_sq > 4 * 64 * 64 {
        None
    } else {
        Some(((re_sq - im_sq) / 64 + c.0, 2 * z.0 * z.1 / 64 + c.1))
    }
}

// A step that counts down: the orbit of `(n, _)` escapes at step `n + 1`.

fn countdown(_c: (usize, usize), z: (usize, usize)) -> Option<(usize, usize)> {
    if z.0 == 0 {
        None
    } else {
        Some((z.0 - 1, z.1))
    }
}

fn reading_order(
    bounds: (usize, usize),
    pixel: (usize, usize),
    _upper_left: (usize, usize),
    _lower_right: (usize, usize),
) -> (usize, usize) {
    (pixel.1 * bounds.0 + pixel.0, 0)
}

#[test]
fn shade_is_255_minus_time() {
    assert_eq!(shade(Some(1)), 254);
    assert_eq!(shade(Some(2)), 253);
    assert_eq!(shade(Some(100)), 155);
    assert_eq!(shade(Some(254)), 1);
}

#[test]
fn shade_of_no_escape_is_black() {
    assert_eq!(shade(None), 0);
}

#[test]
fn shade_saturates_at_the_limit() {
    assert_eq!(shade(Some(0)), 255);
    assert_eq!(shade(Some(255)), 0);
    assert_eq!(shade(Some(256)), 0);
    assert_eq!(shade(Some(u32::MAX)), 0);
}

#[test]
fn iteration_limit_is_255() {
    assert_eq!(ITERATION_LIMIT, 255);
}

#[test]
fn map_reaches_both_corners() {
    let (ul, lr) = (point(-1.0, 1.0), point(1.0, -1.0));
    assert_eq!(pixel_to_point((100, 100), (0, 0), ul, lr), ul);
    assert_eq!(pixel_to_point((100, 100), (100, 100), ul, lr), lr);
    let (ul, lr) = (point(-2.0, 1.0), point(1.0, -1.0));
    assert_eq!(pixel_to_point((64, 48), (0, 0), ul, lr), ul);
    assert_eq!(pixel_to_point((64, 48), (64, 48), ul, lr), lr);
}

#[test]
fn map_is_linear_in_between() {
    let (ul, lr) = (point(-1.0, 1.0), point(1.0, -1.0));
    assert_eq!(pixel_to_point((100, 200), (25, 175), ul, lr), point(-0.5, -0.75));
}

#[test]
fn origin_never_escapes() {
    assert_eq!(escape_time(point(0.0, 0.0), 255, &orbit_step), None);
    assert_eq!(shade(escape_time(point(0.0, 0.0), 255, &orbit_step)), 0);
}

#[test]
fn origin_pixel_is_black() {
    let bounds = (100, 100);
    let (ul, lr) = (point(-1.0, 1.0), point(1.0, -1.0));
    assert_eq!(pixel_to_point(bounds, (50, 50), ul, lr), point(0.0, 0.0));
    let image = whole(bounds, ul, lr);
    assert_eq!(image.len(), 10000);
    assert_eq!(image[50 * 100 + 50], 0);
}

#[test]
fn far_point_escapes_at_once() {
    assert_eq!(escape_time(point(2.0, 2.0), 255, &orbit_step), Some(1));
    assert_eq!(shade(escape_time(point(2.0, 2.0), 255, &orbit_step)), 254);
}

#[test]
fn far_pixel_is_nearly_white() {
    let image = whole((2, 2), point(2.0, 2.0), point(4.0, 0.0));
    assert_eq!(image[0], 254);
}

#[test]
fn threshold_itself_is_not_an_escape() {
    // |c|^2 is exactly 4: the first step stays, and the second point, 6, leaves.
    assert_eq!(escape_time(point(2.0, 0.0), 255, &orbit_step), Some(2));
    assert_eq!(escape_time(point(0.0, 2.0), 255, &orbit_step), Some(2));
    // -2 maps to 2 and 2 maps to itself; both lie on the threshold for ever.
    assert_eq!(escape_time(point(-2.0, 0.0), 255, &orbit_step), None);
    assert_eq!(escape_time(point(-2.0, 0.0), 100_000, &orbit_step), None);
}

#[test]
fn just_past_the_threshold_escapes() {
    assert_eq!(escape_time(point(2.000001, 0.0), 255, &orbit_step), Some(1));
    assert_eq!(escape_time(point(-2.000001, 0.0), 255, &orbit_step), Some(1));
}

#[test]
fn known_escape_times() {
    // 1 -> 2 -> 5: the third point is the first beyond the threshold.
    assert_eq!(escape_time(point(1.0, 0.0), 255, &orbit_step), Some(3));
    // 0.5 -> 0.75 -> 1.0625 -> 1.62890625 -> 3.1533... : the fifth point leaves.
    assert_eq!(escape_time(point(0.5, 0.0), 255, &orbit_step), Some(5));
    assert_eq!(escape_time(point(-1.0, 0.0), 255, &orbit_step), None);
}

#[test]
fn escape_time_is_below_the_limit() {
    assert_eq!(escape_time((6usize, 0usize), 255, &countdown), Some(7));
    assert_eq!(escape_time((6usize, 0usize), 8, &countdown), Some(7));
    assert_eq!(escape_time((6usize, 0usize), 7, &countdown), None);
    assert_eq!(escape_time((253usize, 0usize), 255, &countdown), Some(254));
    assert_eq!(escape_time((254usize, 0usize), 255, &countdown), None);
}

#[test]
fn small_limits_take_no_step() {
    assert_eq!(escape_time((0usize, 0usize), 0, &countdown), None);
    assert_eq!(escape_time((0usize, 0usize), 1, &countdown), None);
    assert_eq!(escape_time((0usize, 0usize), 2, &countdown), Some(1));
    assert_eq!(escape_time(point(2.0, 2.0), 1, &orbit_step), None);
}

#[test]
fn raising_the_limit_keeps_an_escape() {
    for k in 0..200 {
        let c = point(-2.0 + k as f64 * 0.0173, 1.0 - k as f64 * 0.0091);
        let under_255 = escape_time(c, 255, &orbit_step);
        for limit in [0u32, 1, 2, 3, 5, 17, 100, 254, 255] {
            let expected = match under_255 {
                Some(i) if i < limit => Some(i),
                _ => None,
            };
            assert_eq!(escape_time(c, limit, &orbit_step), expected);
        }
        if under_255.is_some() {
            assert_eq!(escape_time(c, 10_000, &orbit_step), under_255);
        }
    }
    assert_eq!(escape_time((6usize, 0usize), 1000, &countdown), Some(7));
}

#[test]
fn escape_time_repeats() {
    for k in 0..200 {
        let c = point(-2.0 + k as f64 * 0.0173, 1.0 - k as f64 * 0.0091);
        let first = escape_time(c, 255, &orbit_step);
        let second = escape_time(c, 255, &orbit_step);
        assert_eq!(first, second);
        if let Some(i) = first {
            assert!(1 <= i && i < 255);
        }
    }
}

#[test]
fn render_writes_rows_in_order() {
    let mut pixels = vec![9u8; 12];
    render(&mut pixels, (4, 3), (0, 0), (0, 0), &reading_order, &countdown);
    assert_eq!(pixels, vec![254, 253, 252, 251, 250, 249, 248, 247, 246, 245, 244, 243]);
}

#[test]
fn render_overwrites_every_byte() {
    let mut pixels = vec![9u8; 300];
    render(&mut pixels, (100, 3), (0, 0), (0, 0), &reading_order, &countdown);
    for (i, level) in pixels.iter().enumerate() {
        let expected = if i + 1 < 255 { 255 - (i as u32 + 1) } else { 0 };
        assert_eq!(*level as u32, expected);
    }
    assert_eq!(pixels[253], 1);
    assert_eq!(pixels[254], 0);
    assert_eq!(pixels[299], 0);
}

#[test]
fn render_of_an_empty_rectangle() {
    let mut none: Vec<u8> = Vec::new();
    render(&mut none, (0, 5), (0, 0), (0, 0), &reading_order, &countdown);
    render(&mut none, (5, 0), (0, 0), (0, 0), &reading_order, &countdown);
    render(&mut none, (0, 0), (0, 0), (0, 0), &reading_order, &countdown);
    assert!(none.is_empty());
}

#[test]
fn render_repeats() {
    let (ul, lr) = (point(-1.20, 0.35), point(-1.0, 0.20));
    assert_eq!(whole((40, 30), ul, lr), whole((40, 30), ul, lr));
}

#[test]
fn render_shows_the_set() {
    let image = whole((5, 5), point(-2.0, 2.0), point(3.0, -3.0));
    // Columns stand for re = -2, -1, 0, 1, 2 and rows for im = 2, 1, 0, -1, -2.
    assert_eq!(
        image,
        vec![
            254, 254, 253, 254, 254, //
            254, 252, 0, 253, 254, //
            0, 0, 0, 252, 253, //
            254, 252, 0, 253, 254, //
            254, 254, 253, 254, 254,
        ]
    );
}

#[test]
fn four_bands_equal_one() {
    let bounds = (25, 20);
    let (ul, lr) = (point(-1.0, 1.0), point(1.0, -1.0));
    let one = whole(bounds, ul, lr);
    assert_eq!(banded(bounds, ul, lr, 4), one);
    assert_eq!(banded(bounds, ul, lr, 1), one);
}

#[test]
fn one_worker_equals_eight() {
    let bounds = (64, 48);
    let (ul, lr) = (point(-2.0, 1.0), point(2.0, -2.0));
    assert_eq!(banded(bounds, ul, lr, 1), banded(bounds, ul, lr, 8));
    assert_eq!(banded(bounds, ul, lr, 8), whole(bounds, ul, lr));
    let (ul, lr) = (point(-1.20, 0.35), point(-1.0, 0.20));
    assert_eq!(banded(bounds, ul, lr, 1), banded(bounds, ul, lr, 8));
    assert_eq!(banded(bounds, ul, lr, 8), whole(bounds, ul, lr));
}

#[test]
fn rounding_in_the_map_can_show_between_bands() {
    // Row 24 of this image is the real axis. Mapped within the whole image
    // its imaginary part is exactly zero; mapped within the third of four
    // bands it is off by a rounding error, and the orbit of -2 then leaves.
    let bounds = (64, 48);
    let (ul, lr) = (point(-2.0, 1.0), point(1.0, -1.0));
    assert_eq!(pixel_to_point(bounds, (0, 24), ul, lr), point(-2.0, 0.0));
    let band_ul = pixel_to_point(bounds, (0, 13), ul, lr);
    let band_lr = pixel_to_point(bounds, (64, 26), ul, lr);
    let in_band = pixel_to_point((64, 13), (0, 11), band_ul, band_lr);
    assert_eq!(in_band.re, -2.0);
    assert!(in_band.im != 0.0 && in_band.im.abs() < 1e-15);
    assert_eq!(whole(bounds, ul, lr)[24 * 64], 0);
    assert_eq!(banded(bounds, ul, lr, 4)[24 * 64], 239);
    assert_eq!(banded(bounds, ul, lr, 1), whole(bounds, ul, lr));
}

#[test]
fn any_number_of_bands_equals_one_on_an_exact_plane() {
    let bounds = (31, 28);
    let (ul, lr) = ((-160i64, 64i64), (0i64, 0i64));
    let mut one = vec![3u8; 31 * 28];
    render(&mut one, bounds, ul, lr, &grid_point, &grid_step);
    assert!(one.iter().any(|level| *level == 0));
    assert!(one.iter().any(|level| *level == 254));
    for workers in 1..=40 {
        let mut split = vec![5u8; 31 * 28];
        render_banded(&mut split, bounds, ul, lr, workers, &grid_point, &grid_step);
        assert_eq!(split, one);
    }
}

#[test]
fn any_number_of_bands_equals_one_in_reading_order() {
    for height in 0..12usize {
        let mut one = vec![3u8; 7 * height];
        render(&mut one, (7, height), (0, 0), (0, 0), &offset_order, &countdown);
        for workers in 1..=13 {
            let mut split = vec![5u8; 7 * height];
            render_banded(&mut split, (7, height), (0, 0), (0, 0), workers, &offset_order, &countdown);
            assert_eq!(split, one);
        }
    }
}

// Like `reading_order`, but counted from the upper left point, so that a
// band between its own corners numbers its pixels as the whole image does.
fn offset_order(
    _bounds: (usize, usize),
    pixel: (usize, usize),
    upper_left: (usize, usize),
    _lower_right: (usize, usize),
) -> (usize, usize) {
    (upper_left.0 + 2 * pixel.1 + pixel.0, 0)
}

#[test]
fn banded_render_of_an_image_without_rows() {
    let mut none: Vec<u8> = Vec::new();
    render_banded(&mut none, (5, 0), (0, 0), (0, 0), 3, &offset_order, &countdown);
    assert!(none.is_empty());
}
