//! What holds of fitting and cropping: when a second crop changes nothing.

use crate::arith::{
    larger, lemma_filter_full_length, lemma_filter_keeps_all, lemma_max_unique, lemma_min_unique,
};
use crate::line_utils::FrameError;
use crate::path::{lemma_bounding_box_contains, same_position, xs, ys, GridPath};
use vstd::prelude::*;

verus! {

impl GridPath {
    /// Whether the bounding box of this path is the whole square
    /// `[0, side] x [0, side]`, with `side` positive.
    pub open spec fn fills_square(self, side: int) -> bool {
        &&& side > 0
        &&& self.has_grid()
        &&& self.segments.len() > 0
        &&& self.min_x() == 0
        &&& self.min_y() == 0
        &&& self.max_x() == side * self.x_scale
        &&& self.max_y() == side * self.y_scale
    }
}

/// The image of a coordinate inside the bounding box lies between zero and
/// the image of the far side.
proof fn lemma_mapped_in_range(value: int, min: int, span: int, target: int)
    by (nonlinear_arith)
    requires
        min <= value <= min + span,
        target >= 0,
    ensures
        0 <= (value - min) * target <= target * span,
{
}

/// A coordinate of a path that fills the square keeps its position when the
/// path is fitted to the square again, and stays within the same limit.
proof fn lemma_same_after_identity(value: int, side: int, scale: int, limit: int)
    by (nonlinear_arith)
    requires
        side > 0,
        scale > 0,
        0 <= value <= limit * scale,
    ensures
        ((value - 0) * side) * scale == value * (side * scale),
        0 <= (value - 0) * side <= limit * (side * scale),
{
}

/// If the affine map that sends `[min, max]` onto `[0, side]` leaves both
/// `min` and `max` where they are, then `[min, max]` is `[0, side]`, here
/// counted in steps of `1 / scale`.
proof fn lemma_fixed_ends(min: int, max: int, side: int, scale: int)
    by (nonlinear_arith)
    requires
        min < max,
        side >= 0,
        scale > 0,
        ((min - min) * side) * scale == min * (max - min),
        ((max - min) * side) * scale == max * (max - min),
    ensures
        min == 0,
        max == side * scale,
        side > 0,
{
}

/// Fitting stretches the bounding box exactly onto the frame: the fitted
/// path lies in `[0, width] x [0, height]`, and its extremes are 0 and the
/// far sides `width` and `height`.
pub proof fn lemma_rescaled_spans_frame(path: GridPath, width: int, height: int)
    requires
        width >= 0,
        height >= 0,
        path.frame_error() is None,
    ensures
        path.rescaled(width, height).has_grid(),
        path.rescaled(width, height).min_x() == 0,
        path.rescaled(width, height).min_y() == 0,
        path.rescaled(width, height).max_x() == width * path.rescaled(width, height).x_scale,
        path.rescaled(width, height).max_y() == height * path.rescaled(width, height).y_scale,
        forall|i: int|
            0 <= i < path.segments.len() ==> path.rescaled(width, height).in_frame(width, height)(
                #[trigger] path.rescaled(width, height).segments[i],
            ),
{
    let scaled = path.rescaled(width, height);
    let min_x = path.min_x();
    let min_y = path.min_y();
    let span_x = path.span_x();
    let span_y = path.span_y();
    assert(span_x >= 0 && span_y >= 0) by {
        lemma_bounding_box_contains(path, 0);
    }
    assert forall|i: int| 0 <= i < path.segments.len() implies scaled.in_frame(width, height)(
        #[trigger] scaled.segments[i],
    ) by {
        lemma_bounding_box_contains(path, i);
        let s = path.segments[i];
        lemma_mapped_in_range(s.start.x, min_x, span_x, width);
        lemma_mapped_in_range(s.stop.x, min_x, span_x, width);
        lemma_mapped_in_range(s.start.y, min_y, span_y, height);
        lemma_mapped_in_range(s.stop.y, min_y, span_y, height);
    }
    // The ends that were the extremes of the path are the extremes of its
    // image: they go to 0 and to the far sides of the frame.
    let old_x = xs(path.segments);
    let old_y = ys(path.segments);
    let new_x = xs(scaled.segments);
    let new_y = ys(scaled.segments);
    old_x.min_ensures();
    old_x.max_ensures();
    old_y.min_ensures();
    old_y.max_ensures();
    let at_min_x = choose|k: int| 0 <= k < old_x.len() && old_x[k] == old_x.min();
    let at_max_x = choose|k: int| 0 <= k < old_x.len() && old_x[k] == old_x.max();
    let at_min_y = choose|k: int| 0 <= k < old_y.len() && old_y[k] == old_y.min();
    let at_max_y = choose|k: int| 0 <= k < old_y.len() && old_y[k] == old_y.max();
    assert forall|k: int| 0 <= k < new_x.len() implies 0 <= #[trigger] new_x[k] && new_x[k]
        <= width * span_x && new_x[k] == (old_x[k] - min_x) * width by {
        lemma_bounding_box_contains(path, k / 2);
        lemma_mapped_in_range(old_x[k], min_x, span_x, width);
    }
    assert forall|k: int| 0 <= k < new_y.len() implies 0 <= #[trigger] new_y[k] && new_y[k]
        <= height * span_y && new_y[k] == (old_y[k] - min_y) * height by {
        lemma_bounding_box_contains(path, k / 2);
        lemma_mapped_in_range(old_y[k], min_y, span_y, height);
    }
    assert(new_x[at_max_x] == width * span_x && new_y[at_max_y] == height * span_y)
        by (nonlinear_arith)
        requires
            new_x[at_max_x] == (old_x[at_max_x] - min_x) * width,
            new_y[at_max_y] == (old_y[at_max_y] - min_y) * height,
            old_x[at_max_x] - min_x == span_x,
            old_y[at_max_y] - min_y == span_y,
    ;
    lemma_min_unique(new_x, 0, at_min_x);
    lemma_min_unique(new_y, 0, at_min_y);
    lemma_max_unique(new_x, width * span_x, at_max_x);
    lemma_max_unique(new_y, height * span_y, at_max_y);
}

/// Fitting a path to a square and cropping to that same square drops
/// nothing, and the result fills the square.
pub proof fn lemma_square_crop_keeps_all(path: GridPath, side: int)
    requires
        side >= 1,
        path.frame_error() is None,
    ensures
        path.cropped_to(side, side) == Ok::<GridPath, FrameError>(path.rescaled(side, side)),
        path.rescaled(side, side).fills_square(side),
{
    let scaled = path.rescaled(side, side);
    lemma_rescaled_spans_frame(path, side, side);
    lemma_filter_keeps_all(scaled.segments, scaled.in_frame(side, side));
    assert(scaled.cropped(side, side) == scaled);
}

/// Cropping is idempotent where the first crop leaves the square full:
/// if `once` is the outcome of cropping a path to `width` by `height`, and
/// its bounding box is still the square that the path was fitted to, then
/// cropping `once` to the same frame succeeds and gives the same points.
pub proof fn lemma_crop_to_scale_idempotent(path: GridPath, width: int, height: int)
    requires
        0 <= width,
        0 <= height,
        path.cropped_to(width, height) matches Ok(once) && once.fills_square(
            larger(width, height),
        ),
    ensures
        path.cropped_to(width, height) matches Ok(once) && once.cropped_to(
            width,
            height,
        ) matches Ok(twice) && twice.same_points(once),
{
    let side = larger(width, height);
    let scaled = path.rescaled(side, side);
    let once = scaled.cropped(width, height);
    let keep = scaled.in_frame(width, height);
    assert(path.cropped_to(width, height) == Ok::<GridPath, FrameError>(once));
    let x_scale = once.x_scale;
    let y_scale = once.y_scale;
    assert(once.span_x() == side * x_scale && once.span_y() == side * y_scale);
    assert(side * x_scale > 0 && side * y_scale > 0) by (nonlinear_arith)
        requires
            side > 0,
            x_scale > 0,
            y_scale > 0,
    ;
    assert(once.frame_error() is None);
    let again = once.rescaled(side, side);
    let keep_again = again.in_frame(width, height);
    assert forall|i: int| 0 <= i < again.segments.len() implies keep_again(
        #[trigger] again.segments[i],
    ) by {
        let s = once.segments[i];
        scaled.segments.lemma_filter_pred(keep, i);
        lemma_same_after_identity(s.start.x, side, x_scale, width);
        lemma_same_after_identity(s.stop.x, side, x_scale, width);
        lemma_same_after_identity(s.start.y, side, y_scale, height);
        lemma_same_after_identity(s.stop.y, side, y_scale, height);
    }
    lemma_filter_keeps_all(again.segments, keep_again);
    let twice = again.cropped(width, height);
    assert(twice == again);
    assert(once.cropped_to(width, height) == Ok::<GridPath, FrameError>(twice));
    assert forall|i: int| 0 <= i < twice.segments.len() implies {
        &&& same_position(
            (#[trigger] twice.segments[i]).start,
            twice.x_scale,
            twice.y_scale,
            once.segments[i].start,
            once.x_scale,
            once.y_scale,
        )
        &&& same_position(
            twice.segments[i].stop,
            twice.x_scale,
            twice.y_scale,
            once.segments[i].stop,
            once.x_scale,
            once.y_scale,
        )
    } by {
        let s = once.segments[i];
        scaled.segments.lemma_filter_pred(keep, i);
        lemma_same_after_identity(s.start.x, side, x_scale, width);
        lemma_same_after_identity(s.stop.x, side, x_scale, width);
        lemma_same_after_identity(s.start.y, side, y_scale, height);
        lemma_same_after_identity(s.stop.y, side, y_scale, height);
    }
}

/// The converse of [`lemma_crop_to_scale_idempotent`]: only a path that
/// fills the square is left as it is by a second crop. Where cropping the
/// outcome `once` again succeeds and gives the same points, the bounding box
/// of `once` is the whole square.
pub proof fn lemma_crop_fixed_point_fills_square(path: GridPath, width: int, height: int)
    requires
        0 <= width,
        0 <= height,
        path.cropped_to(width, height) matches Ok(once) && once.cropped_to(
            width,
            height,
        ) matches Ok(twice) && twice.same_points(once),
    ensures
        path.cropped_to(width, height) matches Ok(once) && once.fills_square(
            larger(width, height),
        ),
{
    let side = larger(width, height);
    let once = path.rescaled(side, side).cropped(width, height);
    assert(path.cropped_to(width, height) == Ok::<GridPath, FrameError>(once));
    assert(once.frame_error() is None);
    let again = once.rescaled(side, side);
    let twice = again.cropped(width, height);
    assert(once.cropped_to(width, height) == Ok::<GridPath, FrameError>(twice));
    lemma_filter_full_length(again.segments, again.in_frame(width, height));
    assert(twice.segments == again.segments);

    // The ends at the extremes of `once` hold their positions, which pins
    // the extremes to 0 and to the far side of the square.
    let all_x = xs(once.segments);
    let all_y = ys(once.segments);
    all_x.min_ensures();
    all_x.max_ensures();
    all_y.min_ensures();
    all_y.max_ensures();
    let at_min_x = choose|k: int| 0 <= k < all_x.len() && all_x[k] == all_x.min();
    let at_max_x = choose|k: int| 0 <= k < all_x.len() && all_x[k] == all_x.max();
    let at_min_y = choose|k: int| 0 <= k < all_y.len() && all_y[k] == all_y.min();
    let at_max_y = choose|k: int| 0 <= k < all_y.len() && all_y[k] == all_y.max();
    assert(twice.segments[at_min_x / 2] == again.segments[at_min_x / 2]);
    assert(twice.segments[at_max_x / 2] == again.segments[at_max_x / 2]);
    assert(twice.segments[at_min_y / 2] == again.segments[at_min_y / 2]);
    assert(twice.segments[at_max_y / 2] == again.segments[at_max_y / 2]);
    lemma_fixed_ends(once.min_x(), once.max_x(), side, once.x_scale);
    lemma_fixed_ends(once.min_y(), once.max_y(), side, once.y_scale);
}

/// Cropping to a square frame is idempotent: whenever cropping a path to
/// `side` by `side` succeeds, cropping the outcome to the same frame
/// succeeds too and gives the same points.
pub proof fn lemma_crop_to_square_idempotent(path: GridPath, side: int)
    requires
        side >= 1,
        path.cropped_to(side, side) is Ok,
    ensures
        path.cropped_to(side, side) matches Ok(once) && once.cropped_to(side, side) matches Ok(
            twice,
        ) && twice.same_points(once),
{
    lemma_square_crop_keeps_all(path, side);
    lemma_crop_to_scale_idempotent(path, side, side);
}

} // verus!
