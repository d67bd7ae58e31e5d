//! What holds of cutting a segment into equal pieces: the pieces cover the
//! segment exactly, and their number is determined.

use crate::arith::lemma_square_order;
use crate::line_utils::{lemma_piece_length, partitioned, pieces_fit};
use crate::path::{same_position, GridPath, GridSegment};
use vstd::prelude::*;

verus! {

/// One step along the way adds the whole span, counted in fine steps.
proof fn lemma_step_along(from: int, to: int, count: int, i: int)
    by (nonlinear_arith)
    ensures
        ((count - (i + 1)) * from + (i + 1) * to) - ((count - i) * from + i * to) == to - from,
{
}

/// The way starts at `from` and ends at `to`.
proof fn lemma_ends_along(from: int, to: int, count: int, scale: int)
    by (nonlinear_arith)
    ensures
        ((count - 0) * from + 0 * to) * scale == from * (count * scale),
        ((count - ((count - 1) + 1)) * from + ((count - 1) + 1) * to) * scale == to * (count
            * scale),
{
}

/// Cutting a segment into equal pieces covers it exactly. The pieces run
/// from the start of the segment to its stop, each starts where the one
/// before stopped, and each spans as many fine steps as the segment spans
/// coarse ones. So every piece is one `count`-th of the segment, in length
/// and direction, and together the pieces are as long as the segment.
pub proof fn lemma_partition_covers_segment(
    s: GridSegment,
    x_scale: int,
    y_scale: int,
    count: int,
)
    requires
        count >= 1,
    ensures
        partitioned(s, x_scale, y_scale, count).segments.len() == count,
        partitioned(s, x_scale, y_scale, count).contiguous(),
        same_position(
            partitioned(s, x_scale, y_scale, count).segments[0].start,
            count * x_scale,
            count * y_scale,
            s.start,
            x_scale,
            y_scale,
        ),
        same_position(
            partitioned(s, x_scale, y_scale, count).segments[count - 1].stop,
            count * x_scale,
            count * y_scale,
            s.stop,
            x_scale,
            y_scale,
        ),
        forall|i: int|
            0 <= i < count ==> {
                let piece = #[trigger] partitioned(s, x_scale, y_scale, count).segments[i];
                piece.dx() == s.dx() && piece.dy() == s.dy()
            },
{
    let pieces = partitioned(s, x_scale, y_scale, count);
    assert forall|i: int| 0 <= i < count implies {
        let piece = #[trigger] pieces.segments[i];
        piece.dx() == s.dx() && piece.dy() == s.dy()
    } by {
        lemma_step_along(s.start.x, s.stop.x, count, i);
        lemma_step_along(s.start.y, s.stop.y, count, i);
    }
    lemma_ends_along(s.start.x, s.stop.x, count, x_scale);
    lemma_ends_along(s.start.y, s.stop.y, count, y_scale);
}

/// The number of pieces is determined: only one count is large enough for
/// the pieces to fit while one piece fewer would not be.
pub proof fn lemma_piece_count_unique(
    dx: int,
    dy: int,
    x_scale: int,
    y_scale: int,
    max_length: int,
    count: int,
    other: int,
)
    requires
        x_scale >= 1,
        y_scale >= 1,
        max_length >= 1,
        count >= 1,
        other >= 1,
        pieces_fit(dx, dy, x_scale, y_scale, max_length, count),
        count > 1 ==> !pieces_fit(dx, dy, x_scale, y_scale, max_length, count - 1),
        pieces_fit(dx, dy, x_scale, y_scale, max_length, other),
        other > 1 ==> !pieces_fit(dx, dy, x_scale, y_scale, max_length, other - 1),
    ensures
        count == other,
{
    let k = max_length * x_scale * y_scale;
    assert(k >= 1) by (nonlinear_arith)
        requires
            k == max_length * x_scale * y_scale,
            x_scale >= 1,
            y_scale >= 1,
            max_length >= 1,
    ;
    if count < other {
        lemma_fewer_pieces_fit(count, other - 1, k);
    }
    if other < count {
        lemma_fewer_pieces_fit(other, count - 1, k);
    }
}

/// A segment has one partition only: two paths that both cut `whole` into
/// the least number of equal pieces of at most `max_length` units are the
/// same path.
pub proof fn lemma_partition_unique(
    a: GridPath,
    b: GridPath,
    whole: GridSegment,
    x_scale: int,
    y_scale: int,
    max_length: int,
)
    requires
        x_scale >= 1,
        y_scale >= 1,
        max_length >= 1,
        a.is_partition_of(whole, x_scale, y_scale, max_length),
        b.is_partition_of(whole, x_scale, y_scale, max_length),
    ensures
        a == b,
{
    let count = a.segments.len() as int;
    let other = b.segments.len() as int;
    assert(pieces_fit(whole.dx(), whole.dy(), x_scale, y_scale, max_length, count)) by {
        lemma_piece_length(whole, x_scale, y_scale, max_length, count, 0);
        assert(a.no_longer_than(a.segments[0], max_length));
    }
    assert(pieces_fit(whole.dx(), whole.dy(), x_scale, y_scale, max_length, other)) by {
        lemma_piece_length(whole, x_scale, y_scale, max_length, other, 0);
        assert(b.no_longer_than(b.segments[0], max_length));
    }
    if count > 1 {
        lemma_piece_length(whole, x_scale, y_scale, max_length, count - 1, 0);
    }
    if other > 1 {
        lemma_piece_length(whole, x_scale, y_scale, max_length, other - 1, 0);
    }
    lemma_piece_count_unique(
        whole.dx(),
        whole.dy(),
        x_scale,
        y_scale,
        max_length,
        count,
        other,
    );
}

/// With more pieces the longest allowed piece only grows on the fine grid.
proof fn lemma_fewer_pieces_fit(fewer: int, more: int, k: int)
    requires
        1 <= fewer <= more,
        k >= 1,
    ensures
        (fewer * k) * (fewer * k) <= (more * k) * (more * k),
{
    assert(0 <= fewer * k <= more * k) by (nonlinear_arith)
        requires
            1 <= fewer <= more,
            k >= 1,
    ;
    lemma_square_order(fewer * k, more * k);
}

} // verus!
