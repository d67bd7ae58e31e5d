//! From an order and an image size to the path that is drawn.

use crate::arith::{larger, lemma_product_bound};
use crate::hilbert_curve::{curve_path, side, HilbertCurve, MAX_ORDER};
use crate::line_utils::{crop_to_scale, FrameError, MAX_COORDINATE};
use crate::path::{lemma_bounding_box_within, GridPath, Path};
use vstd::arithmetic::power2::{lemma2_to64, lemma_pow2_strictly_increases};
use vstd::prelude::*;

verus! {

/// The largest width and height of a frame that [`fitted_curve`] takes.
pub const MAX_SIDE: usize = 0xffff_ffff;

/// The largest width and height of a frame in which the fitted curve can
/// still be cut into pieces: a curve of any order, fitted to such a frame,
/// has coordinates of at most [`MAX_COORDINATE`].
pub const MAX_FRAME: usize = 0xffff;

/// The Hilbert curve of the given order, fitted to the square whose side is
/// the larger of `width` and `height` and cropped to
/// `[0, width] x [0, height]`.
///
/// Fails when the curve has no segment, which is so for order 0 and no
/// other, or when its bounding box has no width or no height. In a frame of
/// at most [`MAX_FRAME`] by [`MAX_FRAME`] the path can be cut with
/// [`crate::line_utils::partition_path`].
pub fn fitted_curve(order: usize, width: usize, height: usize) -> (outcome: Result<
    Path,
    FrameError,
>)
    requires
        order <= MAX_ORDER,
        width <= MAX_SIDE,
        height <= MAX_SIDE,
    ensures
        match outcome {
            Ok(path) => curve_path(order).cropped_to(width as int, height as int) == Ok::<
                GridPath,
                FrameError,
            >(path@),
            Err(e) => curve_path(order).cropped_to(width as int, height as int) == Err::<
                GridPath,
                FrameError,
            >(e),
        },
        outcome == Err::<Path, FrameError>(FrameError::EmptyPath) <==> order == 0,
        width <= MAX_FRAME && height <= MAX_FRAME ==> (outcome matches Ok(path)
            ==> path@.fits_partition()),
{
    let mut path = HilbertCurve::new(order).path();
    let ghost raw = path@;
    let ghost square = larger(width as int, height as int);
    let ghost top: int = 0x7fff;
    proof {
        // The curve stays on a lattice of at most 2^15 cells per side, and
        // from order 1 on it has more than one cell.
        lemma2_to64();
        if order < 15 {
            lemma_pow2_strictly_increases(order as nat, 15);
        }
        if order >= 1 {
            lemma_pow2_strictly_increases(0, order as nat);
            lemma_product_bound(2, 2, side(order) as int, side(order) as int);
        }
        assert(raw.coordinates_within(0, top));
        if raw.segments.len() > 0 {
            lemma_bounding_box_within(raw, 0, top);
            lemma_product_bound(raw.span_x(), square, top, MAX_SIDE as int);
            lemma_product_bound(raw.span_y(), square, top, MAX_SIDE as int);
        }
    }
    match crop_to_scale(&mut path, width, height) {
        Err(e) => Err(e),
        Ok(()) => {
            proof {
                if width <= MAX_FRAME && height <= MAX_FRAME {
                    // What the crop keeps lies in the frame, whose far sides
                    // are `width` and `height` times the spans of the curve.
                    let scaled = raw.rescaled(square, square);
                    let keep = scaled.in_frame(width as int, height as int);
                    assert(path@ == scaled.cropped(width as int, height as int));
                    lemma_product_bound(width as int, scaled.x_scale, MAX_FRAME as int, top);
                    lemma_product_bound(height as int, scaled.y_scale, MAX_FRAME as int, top);
                    assert forall|i: int| 0 <= i < path@.segments.len() implies {
                        let s = #[trigger] path@.segments[i];
                        &&& 0 <= s.start.x <= MAX_COORDINATE
                        &&& 0 <= s.start.y <= MAX_COORDINATE
                        &&& 0 <= s.stop.x <= MAX_COORDINATE
                        &&& 0 <= s.stop.y <= MAX_COORDINATE
                    } by {
                        scaled.segments.lemma_filter_pred(keep, i);
                    }
                }
            }
            Ok(path)
        },
    }
}

} // verus!
