//! RGBA images as rows of four-byte pixels.

use vstd::prelude::*;

use crate::model::Color;

verus! {

/// The four bytes at pixel number `p` are `c`.
pub open spec fn pixel_is(bytes: Seq<u8>, p: int, c: Color) -> bool {
    bytes[4 * p] == c.red && bytes[4 * p + 1] == c.green && bytes[4 * p + 2] == c.blue && bytes[4 * p
        + 3] == c.alpha
}

/// `bytes` are the first `rows` whole rows and `cols` pixels of the next one of
/// an image of `width` columns that shows `paint`.
pub open spec fn has_pixels(
    bytes: Seq<u8>,
    width: int,
    rows: int,
    cols: int,
    paint: spec_fn(int, int) -> Color,
) -> bool {
    &&& bytes.len() == 4 * (rows * width + cols)
    &&& forall|x: int, y: int|
        #![trigger paint(x, y)]
        0 <= x < width && 0 <= y && (y < rows || (y == rows && x < cols)) ==> pixel_is(
            bytes,
            y * width + x,
            paint(x, y),
        )
}

/// `bytes` are an image of `width` by `height` pixels that shows `paint`.
pub open spec fn is_image(
    bytes: Seq<u8>,
    width: int,
    height: int,
    paint: spec_fn(int, int) -> Color,
) -> bool {
    has_pixels(bytes, width, height, 0, paint)
}

/// No bytes are no rows.
pub proof fn lemma_no_rows(width: int, paint: spec_fn(int, int) -> Color)
    ensures
        has_pixels(Seq::empty(), width, 0, 0, paint),
{
    assert(0 * width == 0) by (nonlinear_arith);
}

/// A row whose last pixel is there is a whole row.
pub proof fn lemma_row_done(bytes: Seq<u8>, width: int, y: int, paint: spec_fn(int, int) -> Color)
    requires
        0 <= y,
        0 <= width,
        has_pixels(bytes, width, y, width, paint),
    ensures
        has_pixels(bytes, width, y + 1, 0, paint),
{
    assert((y + 1) * width == y * width + width) by (nonlinear_arith);
}

/// Append one pixel.
pub(crate) fn push_pixel(
    bytes: &mut Vec<u8>,
    color: Color,
    Ghost(width): Ghost<int>,
    Ghost(y): Ghost<int>,
    Ghost(x): Ghost<int>,
    Ghost(paint): Ghost<spec_fn(int, int) -> Color>,
)
    requires
        0 <= y,
        0 <= x < width,
        color == paint(x, y),
        has_pixels(old(bytes)@, width, y, x, paint),
    ensures
        has_pixels(final(bytes)@, width, y, x + 1, paint),
{
    let ghost before = bytes@;
    bytes.push(color.red);
    bytes.push(color.green);
    bytes.push(color.blue);
    bytes.push(color.alpha);
    proof {
        let now = bytes@;
        assert forall|a: int, b: int|
            #![trigger paint(a, b)]
            0 <= a < width && 0 <= b && (b < y || (b == y && a < x + 1)) implies pixel_is(
            now,
            b * width + a,
            paint(a, b),
        ) by {
            if b < y || a < x {
                assert(pixel_is(before, b * width + a, paint(a, b)));
                assert(0 <= b * width + a < y * width + x) by (nonlinear_arith)
                    requires
                        0 <= a < width,
                        0 <= b,
                        b < y || (b == y && a < x),
                        0 <= x,
                ;
            }
        }
    }
}

} // verus!
