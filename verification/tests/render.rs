use mandelbrot::{escape_time, intensity, render, Point};
use num::Complex;

struct Corner {
    upper_left: Complex<f64>,
    lower_right: Complex<f64>,
}

fn pixel_to_point(bounds: &Point, corner: &Corner, pixel: Point) -> Complex<f64> {
    let width = corner.lower_right.re - corner.upper_left.re;
    let height = corner.upper_left.im - corner.lower_right.im;
    Complex {
        re: corner.upper_left.re + (pixel.0 as f64 * width / bounds.0 as f64),
        im: corner.upper_left.im - (pixel.1 as f64 * height / bounds.1 as f64),
    }
}

fn orbit_of(c: Complex<f64>) -> impl FnMut(u32) -> bool {
    let mut z = Complex { re: 0.0, im: 0.0 };
    move |_| {
        z = z * z + c;
        z.norm_sqr() < 4.0
    }
}

fn picture(bounds: Point, corner: &Corner) -> Vec<u8> {
    let mut pixels = vec![0; bounds.0 * bounds.1];
    render(&mut pixels, bounds, |pixel| {
        orbit_of(pixel_to_point(&bounds, corner, pixel))
    });
    pixels
}

fn sample_corner() -> Corner {
    Corner {
        upper_left: Complex { re: -1.20, im: 0.35 },
        lower_right: Complex { re: -1.0, im: 0.20 },
    }
}

#[test]
fn render_writes_rows_one_after_another() {
    let bounds: Point = (3, 2);
    let mut pixels = vec![0; 6];
    render(&mut pixels, bounds, |pixel: Point| {
        let steps = (pixel.0 + 3 * pixel.1) as u32;
        move |k| k < steps
    });
    assert_eq!(pixels, vec![255, 254, 253, 252, 251, 250]);
}

#[test]
fn render_asks_for_each_pixel_once_in_row_major_order() {
    let bounds: Point = (4, 3);
    let asked = std::cell::RefCell::new(Vec::new());
    let mut pixels = vec![0; 12];
    render(&mut pixels, bounds, |pixel: Point| {
        asked.borrow_mut().push(pixel);
        |_| true
    });
    let mut expected = Vec::new();
    for row in 0..3 {
        for column in 0..4 {
            expected.push((column, row));
        }
    }
    assert_eq!(asked.into_inner(), expected);
}

#[test]
fn render_paints_bounded_orbits_black() {
    let mut pixels = vec![77; 20];
    render(&mut pixels, (5, 4), |_| |_| true);
    assert_eq!(pixels, vec![0; 20]);
}

#[test]
fn render_paints_immediate_escapes_white() {
    let mut pixels = vec![0; 20];
    render(&mut pixels, (4, 5), |_| |_| false);
    assert_eq!(pixels, vec![255; 20]);
}

#[test]
fn render_searches_with_limit_255() {
    let mut pixels = vec![9; 3];
    render(&mut pixels, (3, 1), |pixel: Point| {
        let steps = 253 + pixel.0 as u32;
        move |k| k < steps
    });
    assert_eq!(pixels, vec![2, 1, 0]);
}

#[test]
fn render_keeps_the_length() {
    for &bounds in &[(1, 1), (1, 9), (9, 1), (16, 12)] {
        let pixels = picture(bounds, &sample_corner());
        assert_eq!(pixels.len(), bounds.0 * bounds.1);
    }
}

#[test]
fn render_of_an_empty_image_touches_nothing() {
    let mut pixels: Vec<u8> = Vec::new();
    let mut asked = 0;
    let count = std::cell::Cell::new(0);
    render(&mut pixels, (0, 7), |_| {
        count.set(count.get() + 1);
        |_| true
    });
    asked += count.get();
    render(&mut pixels, (7, 0), |_| {
        count.set(count.get() + 1);
        |_| true
    });
    asked += count.get();
    assert_eq!(asked, 0);
    assert!(pixels.is_empty());
}

#[test]
fn render_small_picture() {
    let corner = Corner {
        upper_left: Complex { re: -2.0, im: 1.0 },
        lower_right: Complex { re: 1.0, im: -1.0 },
    };
    assert_eq!(
        picture((4, 3), &corner),
        vec![255, 253, 252, 252, 255, 238, 0, 0, 255, 238, 0, 0]
    );
}

#[test]
fn render_twice_gives_the_same_bytes() {
    let first = picture((100, 100), &sample_corner());
    let second = picture((100, 100), &sample_corner());
    assert_eq!(first, second);
}

#[test]
fn render_upper_left_pixel_follows_its_escape_time() {
    let bounds: Point = (100, 100);
    let corner = sample_corner();
    let pixels = picture(bounds, &corner);
    let escape = escape_time(orbit_of(Complex { re: -1.20, im: 0.35 }), 255);
    let expected = match escape {
        Some(count) => (255 - count) as u8,
        None => 0,
    };
    assert_eq!(pixels[0], expected);
    assert_eq!(pixels[0], intensity(escape));
    assert_eq!(pixels[0], 247);
}

#[test]
fn render_known_pixels_of_the_sample_region() {
    let pixels = picture((100, 100), &sample_corner());
    assert_eq!(pixels[99 * 100 + 99], 0);
    assert_eq!(pixels[50 * 100 + 50], 240);
    assert_eq!(pixels[90 * 100 + 10], 234);
    assert_eq!(pixels[99], 246);
    assert_eq!(pixels[99 * 100], 238);
}

#[test]
fn render_every_pixel_is_the_intensity_of_its_escape_time() {
    let bounds: Point = (16, 12);
    let corner = sample_corner();
    let pixels = picture(bounds, &corner);
    for row in 0..12 {
        for column in 0..16 {
            let c = pixel_to_point(&bounds, &corner, (column, row));
            let escape = escape_time(orbit_of(c), 255);
            assert_eq!(pixels[row * 16 + column], intensity(escape));
        }
    }
}
