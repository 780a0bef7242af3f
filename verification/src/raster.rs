//! Geometry of the pixel buffer and the grayscale ramp.

use vstd::prelude::*;

verus! {

/// A pair of pixel counts `(width, height)` or a pixel position `(column, row)`.
pub type Point = (usize, usize);

/// The number of iterations after which an orbit counts as bounded.
pub const LIMIT: u32 = 255;

/// How many bytes a buffer for an image of these bounds holds.
pub open spec fn pixel_count(bounds: Point) -> int {
    bounds.0 * bounds.1
}

/// The pixel lies inside the image.
pub open spec fn in_bounds(bounds: Point, pixel: Point) -> bool {
    pixel.0 < bounds.0 && pixel.1 < bounds.1
}

/// Row-major position of a pixel in the buffer.
pub open spec fn index_of(bounds: Point, pixel: Point) -> int {
    pixel.1 * bounds.0 + pixel.0
}

/// The pixel that a buffer position stands for.
pub open spec fn pixel_at(bounds: Point, index: int) -> Point {
    ((index % (bounds.0 as int)) as usize, (index / (bounds.0 as int)) as usize)
}

/// The byte written for an escape-time outcome: `LIMIT - count` for an orbit
/// that escaped at iteration `count`, black for one that never did.
pub open spec fn intensity_of(outcome: Option<u32>) -> u8
    recommends
        outcome matches Some(count) ==> count <= LIMIT,
{
    match outcome {
        Some(count) => (LIMIT - count) as u8,
        None => 0,
    }
}

/// Every pixel of the image has a slot in a buffer of `pixel_count` bytes.
pub proof fn lemma_index_in_range(bounds: Point, pixel: Point)
    requires
        in_bounds(bounds, pixel),
    ensures
        0 <= index_of(bounds, pixel) < pixel_count(bounds),
{
    let width = bounds.0 as int;
    let row = pixel.1 as int;
    assert((row + 1) * width <= bounds.1 * width) by (nonlinear_arith)
        requires
            row + 1 <= bounds.1,
            0 <= width,
    ;
    assert((row + 1) * width == row * width + width) by (nonlinear_arith);
    assert(0 <= row * width) by (nonlinear_arith)
        requires
            0 <= row,
            0 <= width,
    ;
    assert(bounds.1 * width == bounds.0 * bounds.1) by (nonlinear_arith)
        requires
            width == bounds.0,
    ;
}

/// A pixel is found again from its slot.
pub proof fn lemma_pixel_at_index(bounds: Point, pixel: Point)
    requires
        in_bounds(bounds, pixel),
    ensures
        pixel_at(bounds, index_of(bounds, pixel)) == pixel,
{
    let width = bounds.0 as int;
    vstd::arithmetic::div_mod::lemma_fundamental_div_mod_converse(
        index_of(bounds, pixel),
        width,
        pixel.1 as int,
        pixel.0 as int,
    );
}

/// Every slot of the buffer belongs to exactly one pixel of the image.
pub proof fn lemma_index_of_pixel_at(bounds: Point, index: int)
    requires
        0 <= index < pixel_count(bounds),
    ensures
        in_bounds(bounds, pixel_at(bounds, index)),
        index_of(bounds, pixel_at(bounds, index)) == index,
{
    let width = bounds.0 as int;
    let height = bounds.1 as int;
    assert(width > 0) by (nonlinear_arith)
        requires
            0 <= index < width * height,
            0 <= width,
    ;
    vstd::arithmetic::div_mod::lemma_fundamental_div_mod(index, width);
    vstd::arithmetic::div_mod::lemma_mod_bound(index, width);
    vstd::arithmetic::div_mod::lemma_div_pos_is_pos(index, width);
    let row = index / width;
    let column = index % width;
    assert(row < height) by (nonlinear_arith)
        requires
            index == width * row + column,
            0 <= column,
            index < width * height,
            0 < width,
    ;
    assert(width * row == row * width) by (nonlinear_arith);
}

/// Two pixels of the image never share a slot.
pub proof fn lemma_index_injective(bounds: Point, first: Point, second: Point)
    requires
        in_bounds(bounds, first),
        in_bounds(bounds, second),
        index_of(bounds, first) == index_of(bounds, second),
    ensures
        first == second,
{
    lemma_pixel_at_index(bounds, first);
    lemma_pixel_at_index(bounds, second);
}

/// Row-major position of `pixel` in a buffer for an image of size `bounds`.
pub fn pixel_index(bounds: Point, pixel: Point) -> (index: usize)
    requires
        in_bounds(bounds, pixel),
        index_of(bounds, pixel) <= usize::MAX,
    ensures
        index == index_of(bounds, pixel),
        index < pixel_count(bounds),
{
    proof {
        lemma_index_in_range(bounds, pixel);
        assert(0 <= pixel.1 * bounds.0) by (nonlinear_arith)
            requires
                0 <= pixel.1,
                0 <= bounds.0,
        ;
    }
    pixel.1 * bounds.0 + pixel.0
}

/// The grayscale byte for an escape-time outcome.
pub fn intensity(outcome: Option<u32>) -> (shade: u8)
    requires
        outcome matches Some(count) ==> count <= LIMIT,
    ensures
        shade == intensity_of(outcome),
        outcome is None ==> shade == 0,
        outcome matches Some(count) ==> shade == LIMIT - count,
{
    match outcome {
        Some(count) => (LIMIT - count) as u8,
        None => 0,
    }
}

} // verus!
