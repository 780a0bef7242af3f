//! The loop that fills the pixel buffer.
//!
//! The renderer walks the image row by row. For each pixel it asks `orbit` for
//! the closure that drives the pixel's orbit, searches that orbit for its
//! escape time with the limit `LIMIT`, and stores the intensity of the outcome
//! in the pixel's slot.

use crate::escape::{
    answers, escape_time, escapes_at, first_escape, lemma_escape_follows_model,
    lemma_first_escape_unique,
};
use crate::raster::{
    in_bounds, index_of, intensity, intensity_of, lemma_index_in_range, lemma_index_injective,
    lemma_index_of_pixel_at, pixel_at, pixel_count, pixel_index, Point, LIMIT,
};
use vstd::prelude::*;

verus! {

/// `orbit` may be asked for every pixel of the image, and each orbit that it
/// hands out may be driven for `LIMIT` steps.
pub open spec fn drivable<O, P>(bounds: Point, orbit: O) -> bool
    where
        O: Fn(Point) -> P,
        P: FnMut(u32) -> bool,
{
    &&& forall|pixel: Point|
        in_bounds(bounds, pixel) ==> #[trigger] call_requires(orbit, (pixel,))
    &&& forall|pixel: Point, in_range: P, k: u32|
        in_bounds(bounds, pixel) && #[trigger] call_ensures(orbit, (pixel,), in_range)
            && k < LIMIT ==> #[trigger] call_requires(in_range, (k,))
}

/// `shade` is a byte that rendering `pixel` may produce: the intensity of an
/// escape-time outcome of an orbit that `orbit` hands out for the pixel.
pub open spec fn shaded<O, P>(orbit: O, pixel: Point, shade: u8) -> bool
    where
        O: Fn(Point) -> P,
        P: FnMut(u32) -> bool,
{
    exists|in_range: P, outcome: Option<u32>|
        {
            &&& #[trigger] call_ensures(orbit, (pixel,), in_range)
            &&& #[trigger] escapes_at(in_range, LIMIT, outcome)
            &&& shade == intensity_of(outcome)
        }
}

/// `pixels` is a finished picture: one byte per pixel, in row-major order,
/// each of them the shade of its pixel.
pub open spec fn rendered<O, P>(bounds: Point, orbit: O, pixels: Seq<u8>) -> bool
    where
        O: Fn(Point) -> P,
        P: FnMut(u32) -> bool,
{
    &&& pixels.len() == pixel_count(bounds)
    &&& forall|pixel: Point| #[trigger]
        in_bounds(bounds, pixel) ==> shaded(orbit, pixel, pixels[index_of(bounds, pixel)])
}

/// The orbit of one pixel under `model`, which tells for a pixel and a step
/// whether the pixel's orbit is within the radius after that step.
pub open spec fn orbit_at(
    model: spec_fn(Point, u32) -> bool,
    pixel: Point,
) -> spec_fn(u32) -> bool {
    |k: u32| model(pixel, k)
}

/// The orbits that `orbit` hands out for a pixel answer as `model` does.
pub open spec fn orbit_answers<O, P>(orbit: O, model: spec_fn(Point, u32) -> bool) -> bool
    where
        O: Fn(Point) -> P,
        P: FnMut(u32) -> bool,
{
    forall|pixel: Point, in_range: P| #[trigger]
        call_ensures(orbit, (pixel,), in_range) ==> answers(in_range, orbit_at(model, pixel))
}

/// Fills `pixels` with the picture of `orbit` over an image of size `bounds`:
/// the byte of each pixel becomes the intensity of the escape time of the
/// pixel's orbit, searched with the limit `LIMIT`.
pub fn render<O, P>(pixels: &mut [u8], bounds: Point, orbit: O)
    where
        O: Fn(Point) -> P,
        P: FnMut(u32) -> bool,
    requires
        old(pixels).len() == pixel_count(bounds),
        drivable(bounds, orbit),
    ensures
        final(pixels).len() == old(pixels).len(),
        rendered(bounds, orbit, final(pixels)@),
{
    let (width, height) = bounds;
    let mut row: usize = 0;
    while row < height
        invariant
            bounds == (width, height),
            row <= height,
            pixels.len() == pixel_count(bounds),
            drivable(bounds, orbit),
            forall|pixel: Point| #[trigger]
                in_bounds(bounds, pixel) && pixel.1 < row ==> shaded(
                    orbit,
                    pixel,
                    pixels@[index_of(bounds, pixel)],
                ),
        decreases height - row,
    {
        let mut column: usize = 0;
        while column < width
            invariant
                bounds == (width, height),
                row < height,
                column <= width,
                pixels.len() == pixel_count(bounds),
                drivable(bounds, orbit),
                forall|pixel: Point| #[trigger]
                    in_bounds(bounds, pixel) && (pixel.1 < row || (pixel.1 == row && pixel.0
                        < column)) ==> shaded(orbit, pixel, pixels@[index_of(bounds, pixel)]),
            decreases width - column,
        {
            let here: Point = (column, row);
            proof {
                lemma_index_in_range(bounds, here);
            }
            let index = pixel_index(bounds, here);
            let in_range = orbit(here);
            let outcome = escape_time(in_range, LIMIT);
            let shade = intensity(outcome);
            let ghost before = pixels@;
            pixels[index] = shade;
            proof {
                assert(pixels@ == before.update(index as int, shade));
                assert forall|pixel: Point| #[trigger]
                    in_bounds(bounds, pixel) && (pixel.1 < row || (pixel.1 == row && pixel.0
                        < column + 1)) implies shaded(
                    orbit,
                    pixel,
                    pixels@[index_of(bounds, pixel)],
                ) by {
                    lemma_index_in_range(bounds, pixel);
                    if pixel == here {
                        assert(call_ensures(orbit, (here,), in_range));
                        assert(escapes_at(in_range, LIMIT, outcome));
                    } else {
                        if index_of(bounds, pixel) == index_of(bounds, here) {
                            lemma_index_injective(bounds, pixel, here);
                        }
                        assert(pixels@[index_of(bounds, pixel)] == before[index_of(
                            bounds,
                            pixel,
                        )]);
                    }
                }
            }
            column = column + 1;
        }
        row = row + 1;
    }
}

/// In a finished picture of an orbit that answers as `model` does, the byte of
/// a pixel is the intensity of the pixel's escape time under `model`.
pub proof fn lemma_rendered_pixel<O, P>(
    bounds: Point,
    orbit: O,
    model: spec_fn(Point, u32) -> bool,
    pixels: Seq<u8>,
    pixel: Point,
    outcome: Option<u32>,
)
    where
        O: Fn(Point) -> P,
        P: FnMut(u32) -> bool,
    requires
        rendered(bounds, orbit, pixels),
        orbit_answers(orbit, model),
        in_bounds(bounds, pixel),
        first_escape(orbit_at(model, pixel), LIMIT, outcome),
    ensures
        pixels[index_of(bounds, pixel)] == intensity_of(outcome),
{
    let shade = pixels[index_of(bounds, pixel)];
    assert(shaded(orbit, pixel, shade));
    let (in_range, found) = choose|in_range: P, found: Option<u32>|
        {
            &&& #[trigger] call_ensures(orbit, (pixel,), in_range)
            &&& #[trigger] escapes_at(in_range, LIMIT, found)
            &&& shade == intensity_of(found)
        };
    let trace = orbit_at(model, pixel);
    lemma_escape_follows_model(in_range, trace, LIMIT, found);
    lemma_first_escape_unique(trace, LIMIT, found, outcome);
}

/// Rendering is a function of the bounds and the orbit: two finished pictures
/// of the same orbit over the same bounds are equal byte for byte.
pub proof fn lemma_render_deterministic<O, P>(
    bounds: Point,
    orbit: O,
    model: spec_fn(Point, u32) -> bool,
    first: Seq<u8>,
    second: Seq<u8>,
)
    where
        O: Fn(Point) -> P,
        P: FnMut(u32) -> bool,
    requires
        rendered(bounds, orbit, first),
        rendered(bounds, orbit, second),
        orbit_answers(orbit, model),
    ensures
        first == second,
{
    assert forall|index: int| 0 <= index < first.len() implies first[index] == second[index] by {
        lemma_index_of_pixel_at(bounds, index);
        let pixel = pixel_at(bounds, index);
        assert(shaded(orbit, pixel, first[index]));
        let (in_range, found) = choose|in_range: P, found: Option<u32>|
            {
                &&& #[trigger] call_ensures(orbit, (pixel,), in_range)
                &&& #[trigger] escapes_at(in_range, LIMIT, found)
                &&& first[index] == intensity_of(found)
            };
        lemma_escape_follows_model(in_range, orbit_at(model, pixel), LIMIT, found);
        lemma_rendered_pixel(bounds, orbit, model, second, pixel, found);
    }
    assert(first =~= second);
}

} // verus!
