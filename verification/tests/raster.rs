use mandelbrot::{intensity, pixel_index, Point, LIMIT};

#[test]
fn limit_is_255() {
    assert_eq!(LIMIT, 255);
}

#[test]
fn intensity_of_immediate_escape_is_brightest() {
    assert_eq!(intensity(Some(0)), 255);
}

#[test]
fn intensity_of_last_counted_escape_is_one() {
    assert_eq!(intensity(Some(254)), 1);
}

#[test]
fn intensity_of_bounded_orbit_is_black() {
    assert_eq!(intensity(None), 0);
}

#[test]
fn intensity_falls_by_one_per_iteration() {
    for count in 0..=255u32 {
        assert_eq!(u32::from(intensity(Some(count))), 255 - count);
    }
}

#[test]
fn pixel_index_is_row_major() {
    let bounds: Point = (3, 2);
    assert_eq!(pixel_index(bounds, (0, 0)), 0);
    assert_eq!(pixel_index(bounds, (1, 0)), 1);
    assert_eq!(pixel_index(bounds, (2, 0)), 2);
    assert_eq!(pixel_index(bounds, (0, 1)), 3);
    assert_eq!(pixel_index(bounds, (1, 1)), 4);
    assert_eq!(pixel_index(bounds, (2, 1)), 5);
}

#[test]
fn pixel_index_visits_every_slot_once() {
    let bounds: Point = (7, 5);
    let mut seen = vec![false; 35];
    for row in 0..5 {
        for column in 0..7 {
            let index = pixel_index(bounds, (column, row));
            assert!(index < 35);
            assert!(!seen[index]);
            seen[index] = true;
        }
    }
    assert!(seen.iter().all(|&hit| hit));
}

#[test]
fn pixel_index_of_last_pixel() {
    assert_eq!(pixel_index((100, 100), (99, 99)), 9999);
    assert_eq!(pixel_index((1000, 750), (999, 749)), 749_999);
}
