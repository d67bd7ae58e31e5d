//! Operations on paths: fitting a path to a frame, cropping it, and cutting
//! segments into pieces of bounded length.

use crate::arith::{
    ceil_sqrt, larger, lemma_ceil_div, lemma_product_bound, lemma_scaled_squares,
    lemma_square_of_sum, lemma_square_order,
};
use crate::path::{
    bounding_box, lemma_bounding_box_contains, turns, BoundingBox, GridPath, GridPoint,
    GridSegment, Path, Point, Segment,
};
use vstd::prelude::*;

verus! {

/// Why a path cannot be mapped into a frame.
#[derive(Clone, Copy, Debug, PartialEq, Eq, Structural)]
pub enum FrameError {
    /// The path has no segment, so it has no bounding box.
    EmptyPath,
    /// All points share one horizontal position.
    ZeroWidth,
    /// All points share one vertical position, while the width is positive.
    ZeroHeight,
}

/// The largest coordinate and scale that [`partition_line`] takes.
pub const MAX_COORDINATE: u64 = 0x7fff_ffff;

impl GridPath {
    /// The reason, if any, why this path has no frame mapping.
    pub open spec fn frame_error(self) -> Option<FrameError> {
        if self.segments.len() == 0 {
            Some(FrameError::EmptyPath)
        } else if self.span_x() == 0 {
            Some(FrameError::ZeroWidth)
        } else if self.span_y() == 0 {
            Some(FrameError::ZeroHeight)
        } else {
            None
        }
    }

    /// Where the affine map that sends the bounding box onto
    /// `[0, width] x [0, height]` sends `p`, counted on the grid with
    /// `span_x` by `span_y` steps per unit.
    pub open spec fn map_point(self, p: GridPoint, width: int, height: int) -> GridPoint {
        GridPoint { x: (p.x - self.min_x()) * width, y: (p.y - self.min_y()) * height }
    }

    /// The function that maps both ends of a segment with
    /// [`Self::map_point`].
    pub open spec fn map_segment(self, width: int, height: int) -> spec_fn(
        GridSegment,
    ) -> GridSegment {
        |s: GridSegment|
            GridSegment {
                start: self.map_point(s.start, width, height),
                stop: self.map_point(s.stop, width, height),
            }
    }

    /// This path with its bounding box stretched onto
    /// `[0, width] x [0, height]`. The point `(x, y)` goes to
    /// `((x - min_x) * width / span_x, (y - min_y) * height / span_y)`;
    /// the divisions are carried by the new scales.
    pub open spec fn rescaled(self, width: int, height: int) -> GridPath {
        GridPath {
            segments: self.segments.map_values(self.map_segment(width, height)),
            x_scale: self.span_x(),
            y_scale: self.span_y(),
        }
    }

    /// The outcome of fitting the bounding box onto
    /// `[0, width] x [0, height]`.
    pub open spec fn scaled_to(self, width: int, height: int) -> Result<GridPath, FrameError> {
        match self.frame_error() {
            Some(e) => Err(e),
            None => Ok(self.rescaled(width, height)),
        }
    }

    /// This path without the segments that leave `[0, width] x [0, height]`.
    /// The others stay whole and in order.
    pub open spec fn cropped(self, width: int, height: int) -> GridPath {
        GridPath {
            segments: self.segments.filter(self.in_frame(width, height)),
            x_scale: self.x_scale,
            y_scale: self.y_scale,
        }
    }

    /// The outcome of fitting the bounding box onto the square whose side is
    /// the larger of `width` and `height`, and then cropping to
    /// `[0, width] x [0, height]`.
    pub open spec fn cropped_to(self, width: int, height: int) -> Result<GridPath, FrameError> {
        match self.scaled_to(larger(width, height), larger(width, height)) {
            Ok(scaled) => Ok(scaled.cropped(width, height)),
            Err(e) => Err(e),
        }
    }

    /// Whether [`partition_line`] takes the segments of this path: all
    /// coordinates and both scales are at most [`MAX_COORDINATE`], and the
    /// scales are positive.
    pub open spec fn fits_partition(self) -> bool {
        &&& 1 <= self.x_scale <= MAX_COORDINATE
        &&& 1 <= self.y_scale <= MAX_COORDINATE
        &&& self.coordinates_within(0, MAX_COORDINATE as int)
    }

    /// Whether this path is `whole`, a segment of a grid with the given
    /// scales, cut into the least number of equal pieces that are each at
    /// most `max_length` units long.
    pub open spec fn is_partition_of(
        self,
        whole: GridSegment,
        x_scale: int,
        y_scale: int,
        max_length: int,
    ) -> bool {
        let count = self.segments.len() as int;
        let fewer = partitioned(whole, x_scale, y_scale, count - 1);
        &&& count >= 1
        &&& self == partitioned(whole, x_scale, y_scale, count)
        &&& forall|i: int|
            0 <= i < count ==> self.no_longer_than(#[trigger] self.segments[i], max_length)
        &&& count > 1 ==> !fewer.no_longer_than(fewer.segments[0], max_length)
    }
}

/// The point `i` of `count` equal steps along the way from the start of `s`
/// to its stop, counted on the grid that is `count` times finer.
pub open spec fn point_along(s: GridSegment, count: int, i: int) -> GridPoint {
    GridPoint {
        x: (count - i) * s.start.x + i * s.stop.x,
        y: (count - i) * s.start.y + i * s.stop.y,
    }
}

/// The segment `s` of a grid with the given scales, cut into `count` equal
/// pieces from start to stop. The pieces are counted on the grid that is
/// `count` times finer, which holds all their ends.
pub open spec fn partitioned(s: GridSegment, x_scale: int, y_scale: int, count: int) -> GridPath {
    GridPath {
        segments: Seq::new(
            count as nat,
            |i: int|
                GridSegment { start: point_along(s, count, i), stop: point_along(s, count, i + 1) },
        ),
        x_scale: count * x_scale,
        y_scale: count * y_scale,
    }
}

/// Whether a segment that spans `dx` by `dy` steps, cut into `count` equal
/// pieces, has pieces of at most `max_length` units.
pub open spec fn pieces_fit(
    dx: int,
    dy: int,
    x_scale: int,
    y_scale: int,
    max_length: int,
    count: int,
) -> bool {
    let a = dx * y_scale;
    let b = dy * x_scale;
    let k = count * (max_length * x_scale * y_scale);
    a * a + b * b <= k * k
}

/// Each of the `count` pieces of a segment is short enough exactly when
/// [`pieces_fit`] says so.
pub proof fn lemma_piece_length(
    s: GridSegment,
    x_scale: int,
    y_scale: int,
    max_length: int,
    count: int,
    i: int,
)
    requires
        count >= 1,
        0 <= i < count,
    ensures
        partitioned(s, x_scale, y_scale, count).no_longer_than(
            partitioned(s, x_scale, y_scale, count).segments[i],
            max_length,
        ) <==> pieces_fit(s.dx(), s.dy(), x_scale, y_scale, max_length, count),
{
    let piece = partitioned(s, x_scale, y_scale, count).segments[i];
    let dx = s.dx();
    let dy = s.dy();
    assert(piece.dx() == dx && piece.dy() == dy) by (nonlinear_arith)
        requires
            piece.start == point_along(s, count, i),
            piece.stop == point_along(s, count, i + 1),
            dx == s.stop.x - s.start.x,
            dy == s.stop.y - s.start.y,
    ;
    let a = dx * y_scale;
    let b = dy * x_scale;
    let k = count * (max_length * x_scale * y_scale);
    let fine_a = dx * (count * y_scale);
    let fine_b = dy * (count * x_scale);
    let fine_k = max_length * (count * x_scale) * (count * y_scale);
    assert(fine_a == count * a && fine_b == count * b && fine_k == count * k) by (nonlinear_arith)
        requires
            a == dx * y_scale,
            b == dy * x_scale,
            k == count * (max_length * x_scale * y_scale),
            fine_a == dx * (count * y_scale),
            fine_b == dy * (count * x_scale),
            fine_k == max_length * (count * x_scale) * (count * y_scale),
    ;
    lemma_scaled_squares(a, b, k, count);
}

/// The image of one coordinate under the frame mapping, which fits a word
/// because the image of the whole span does.
fn map_coordinate(value: u64, min: u64, max: u64, target: u64) -> (mapped: u64)
    requires
        min <= value <= max,
        (max - min) * target <= u64::MAX,
    ensures
        mapped == (value - min) * target,
{
    proof {
        lemma_product_bound(value - min, target as int, max - min, target as int);
    }
    (value - min) * target
}

/// Stretches the bounding box of `lines` onto `[0, width] x [0, height]`.
///
/// Fails, and leaves the path as it was, when the path is empty or its
/// bounding box has no width or no height. The products of the spans with
/// the targets must fit 64 bits.
pub fn set_scale(lines: &mut Path, width: usize, height: usize) -> (outcome: Result<(), FrameError>)
    requires
        old(lines).segments.len() > 0 ==> {
            &&& old(lines)@.span_x() * width <= u64::MAX
            &&& old(lines)@.span_y() * height <= u64::MAX
        },
    ensures
        match outcome {
            Ok(()) => old(lines)@.scaled_to(width as int, height as int) == Ok::<
                GridPath,
                FrameError,
            >(final(lines)@),
            Err(e) => old(lines)@.scaled_to(width as int, height as int) == Err::<
                GridPath,
                FrameError,
            >(e) && *final(lines) == *old(lines),
        },
{
    let b: BoundingBox = match bounding_box(lines) {
        None => {
            return Err(FrameError::EmptyPath);
        },
        Some(b) => b,
    };
    if b.max_x == b.min_x {
        return Err(FrameError::ZeroWidth);
    }
    if b.max_y == b.min_y {
        return Err(FrameError::ZeroHeight);
    }
    let ghost before = lines@;
    let ghost target = before.rescaled(width as int, height as int);
    let n = lines.segments.len();
    let mut mapped: Vec<Segment> = Vec::new();
    let mut i: usize = 0;
    while i < n
        invariant
            n == lines.segments.len(),
            i <= n,
            before == lines@,
            target == before.rescaled(width as int, height as int),
            b.min_x == before.min_x(),
            b.max_x == before.max_x(),
            b.min_y == before.min_y(),
            b.max_y == before.max_y(),
            before.span_x() * width <= u64::MAX,
            before.span_y() * height <= u64::MAX,
            mapped.len() == i,
            forall|j: int| 0 <= j < i ==> (#[trigger] mapped[j])@ == target.segments[j],
        decreases n - i,
    {
        let s = lines.segments[i];
        proof {
            lemma_bounding_box_contains(before, i as int);
            assert(before.segments[i as int] == s@);
        }
        mapped.push(
            Segment {
                start: Point {
                    x: map_coordinate(s.start.x, b.min_x, b.max_x, width as u64),
                    y: map_coordinate(s.start.y, b.min_y, b.max_y, height as u64),
                },
                stop: Point {
                    x: map_coordinate(s.stop.x, b.min_x, b.max_x, width as u64),
                    y: map_coordinate(s.stop.y, b.min_y, b.max_y, height as u64),
                },
            },
        );
        i = i + 1;
    }
    lines.segments = mapped;
    lines.x_scale = b.max_x - b.min_x;
    lines.y_scale = b.max_y - b.min_y;
    proof {
        assert(lines@.segments =~= target.segments);
    }
    Ok(())
}

/// Whether a point lies in `[0, width] x [0, height]` on the grid with the
/// given scales.
fn point_fits(p: Point, x_scale: u64, y_scale: u64, width: usize, height: usize) -> (fits: bool)
    ensures
        fits == (p.x <= width * x_scale && p.y <= height * y_scale),
{
    proof {
        lemma_product_bound(width as int, x_scale as int, u64::MAX as int, u64::MAX as int);
        lemma_product_bound(height as int, y_scale as int, u64::MAX as int, u64::MAX as int);
        assert((u64::MAX as int) * (u64::MAX as int) <= u128::MAX) by (nonlinear_arith);
    }
    (p.x as u128) <= (width as u128) * (x_scale as u128) && (p.y as u128) <= (height as u128) * (
    y_scale as u128)
}

/// Fits `lines` to the square whose side is the larger of `width` and
/// `height`, then drops every segment with an end outside
/// `[0, width] x [0, height]`. What stays keeps its order and is not
/// clipped, so the result need not be contiguous.
///
/// Fails, and leaves the path as it was, exactly when [`set_scale`] does.
pub fn crop_to_scale(lines: &mut Path, width: usize, height: usize) -> (outcome: Result<
    (),
    FrameError,
>)
    requires
        old(lines).segments.len() > 0 ==> {
            &&& old(lines)@.span_x() * larger(width as int, height as int) <= u64::MAX
            &&& old(lines)@.span_y() * larger(width as int, height as int) <= u64::MAX
        },
    ensures
        match outcome {
            Ok(()) => old(lines)@.cropped_to(width as int, height as int) == Ok::<
                GridPath,
                FrameError,
            >(final(lines)@),
            Err(e) => old(lines)@.cropped_to(width as int, height as int) == Err::<
                GridPath,
                FrameError,
            >(e) && *final(lines) == *old(lines),
        },
{
    let side = if width >= height {
        width
    } else {
        height
    };
    match set_scale(lines, side, side) {
        Err(e) => {
            return Err(e);
        },
        Ok(()) => {},
    }
    let ghost scaled = lines@;
    let ghost keep = scaled.in_frame(width as int, height as int);
    let n = lines.segments.len();
    let mut kept: Vec<Segment> = Vec::new();
    let mut i: usize = 0;
    proof {
        reveal(Seq::filter);
        assert(scaled.segments.take(0) =~= Seq::<GridSegment>::empty());
    }
    while i < n
        invariant
            n == lines.segments.len(),
            i <= n,
            scaled == lines@,
            keep == scaled.in_frame(width as int, height as int),
            kept@.map_values(|s: Segment| s@) =~= scaled.segments.take(i as int).filter(keep),
        decreases n - i,
    {
        let s = lines.segments[i];
        let stays = point_fits(s.start, lines.x_scale, lines.y_scale, width, height) && point_fits(
            s.stop,
            lines.x_scale,
            lines.y_scale,
            width,
            height,
        );
        proof {
            reveal(Seq::filter);
            let upto = scaled.segments.take(i as int + 1);
            assert(upto.drop_last() =~= scaled.segments.take(i as int));
            assert(upto.last() == s@);
            assert(stays == keep(s@));
        }
        let ghost kept_before = kept@;
        if stays {
            kept.push(s);
            proof {
                assert(kept@.map_values(|s: Segment| s@) =~= kept_before.map_values(
                    |s: Segment| s@,
                ).push(s@));
            }
        }
        i = i + 1;
    }
    proof {
        assert(scaled.segments.take(n as int) =~= scaled.segments);
    }
    lines.segments = kept;
    Ok(())
}

/// The steps from one coordinate to another, negative when going back.
fn steps_between(from: u64, to: u64) -> (steps: i128)
    requires
        from <= MAX_COORDINATE,
        to <= MAX_COORDINATE,
    ensures
        steps == to - from,
{
    to as i128 - from as i128
}

/// Whether `b` starts where `a` stops and points another way, both having a
/// direction.
fn turns_between(a: &Segment, b: &Segment, x_scale: u64, y_scale: u64) -> (corner: bool)
    requires
        a.start.x <= MAX_COORDINATE,
        a.start.y <= MAX_COORDINATE,
        a.stop.x <= MAX_COORDINATE,
        a.stop.y <= MAX_COORDINATE,
        b.start.x <= MAX_COORDINATE,
        b.start.y <= MAX_COORDINATE,
        b.stop.x <= MAX_COORDINATE,
        b.stop.y <= MAX_COORDINATE,
        x_scale <= MAX_COORDINATE,
        y_scale <= MAX_COORDINATE,
    ensures
        corner == turns(a@, b@, x_scale as int, y_scale as int),
{
    if a.stop.x != b.start.x || a.stop.y != b.start.y {
        return false;
    }
    let adx = steps_between(a.start.x, a.stop.x);
    let ady = steps_between(a.start.y, a.stop.y);
    let bdx = steps_between(b.start.x, b.stop.x);
    let bdy = steps_between(b.start.y, b.stop.y);
    if (adx == 0 && ady == 0) || (bdx == 0 && bdy == 0) {
        return false;
    }
    let ghost limit: int = MAX_COORDINATE as int;
    proof {
        lemma_signed_product_bound(adx as int, bdy as int, limit);
        lemma_signed_product_bound(ady as int, bdx as int, limit);
        lemma_signed_product_bound(adx as int, bdx as int, limit);
        lemma_signed_product_bound(ady as int, bdy as int, limit);
        lemma_product_bound(x_scale as int, x_scale as int, limit, limit);
        lemma_product_bound(y_scale as int, y_scale as int, limit, limit);
        assert(limit * limit * (limit * limit) + limit * limit * (limit * limit) <= i128::MAX)
            by (nonlinear_arith)
            requires
                limit == 0x7fff_ffff,
        ;
    }
    let cross = adx * bdy - ady * bdx;
    let across: i128 = (y_scale as i128) * (y_scale as i128);
    let along: i128 = (x_scale as i128) * (x_scale as i128);
    proof {
        lemma_signed_product_bound(adx * bdx, across as int, limit * limit);
        lemma_signed_product_bound(ady * bdy, along as int, limit * limit);
    }
    let dot = adx * bdx * across + ady * bdy * along;
    !(cross == 0 && dot > 0)
}

/// A product of two factors between `-bound` and `bound` lies between
/// `-bound * bound` and `bound * bound`.
proof fn lemma_signed_product_bound(x: int, y: int, bound: int)
    by (nonlinear_arith)
    requires
        -bound <= x <= bound,
        -bound <= y <= bound,
    ensures
        -(bound * bound) <= x * y <= bound * bound,
{
}

/// Finds the corners of a path. Entry `i` of the result tells whether the
/// path has a corner between segment `i` and segment `i + 1`: whether the
/// two touch, both have a direction, and the directions differ. Segments
/// that do not touch, that go straight on or that have no length make no
/// corner.
pub fn corners(lines: &Path) -> (found: Vec<bool>)
    requires
        lines@.fits_partition(),
    ensures
        lines.segments.len() == 0 ==> found.len() == 0,
        lines.segments.len() > 0 ==> found.len() == lines.segments.len() - 1,
        forall|i: int| 0 <= i < found.len() ==> #[trigger] found[i] == lines@.turns_at(i),
{
    let n = lines.segments.len();
    let mut found: Vec<bool> = Vec::new();
    if n == 0 {
        return found;
    }
    let mut i: usize = 0;
    while i < n - 1
        invariant
            n == lines.segments.len(),
            n >= 1,
            i <= n - 1,
            lines@.fits_partition(),
            found.len() == i,
            forall|j: int| 0 <= j < i ==> #[trigger] found[j] == lines@.turns_at(j),
        decreases n - 1 - i,
    {
        let a = &lines.segments[i];
        let b = &lines.segments[i + 1];
        proof {
            assert(lines@.segments[i as int] == a@);
            assert(lines@.segments[i as int + 1] == b@);
        }
        found.push(turns_between(a, b, lines.x_scale, lines.y_scale));
        i = i + 1;
    }
    found
}

/// The span between two coordinates.
fn distance(from: u64, to: u64) -> (steps: u64)
    ensures
        steps == to - from || steps == from - to,
        steps >= 0,
        steps <= larger(from as int, to as int),
{
    if from <= to {
        to - from
    } else {
        from - to
    }
}

/// The least number of equal pieces, at least one, into which a segment
/// that spans `dx` by `dy` steps must be cut for each piece to measure at
/// most `max_length` units.
fn piece_count(dx: u64, dy: u64, x_scale: u64, y_scale: u64, max_length: u64) -> (count: u64)
    requires
        dx <= MAX_COORDINATE,
        dy <= MAX_COORDINATE,
        1 <= x_scale <= MAX_COORDINATE,
        1 <= y_scale <= MAX_COORDINATE,
        max_length >= 1,
    ensures
        1 <= count <= 2 * MAX_COORDINATE,
        pieces_fit(
            dx as int,
            dy as int,
            x_scale as int,
            y_scale as int,
            max_length as int,
            count as int,
        ),
        count > 1 ==> !pieces_fit(
            dx as int,
            dy as int,
            x_scale as int,
            y_scale as int,
            max_length as int,
            count - 1,
        ),
{
    let ghost limit: int = MAX_COORDINATE as int;
    proof {
        lemma_product_bound(dx as int, y_scale as int, limit, limit);
        lemma_product_bound(dy as int, x_scale as int, limit, limit);
        lemma_product_bound(x_scale as int, y_scale as int, limit, limit);
        assert(limit * limit <= u64::MAX) by (nonlinear_arith)
            requires
                limit == 0x7fff_ffff,
        ;
    }
    // The piece length is compared on the grid of `x_scale * y_scale` steps
    // per unit, where the segment spans `a` by `b` steps and the longest
    // allowed piece `k`.
    let a: u128 = (dx as u128) * (y_scale as u128);
    let b: u128 = (dy as u128) * (x_scale as u128);
    let area: u128 = (x_scale as u128) * (y_scale as u128);
    proof {
        lemma_product_bound(a as int, a as int, limit * limit, limit * limit);
        lemma_product_bound(b as int, b as int, limit * limit, limit * limit);
        lemma_product_bound(max_length as int, area as int, u64::MAX as int, u64::MAX as int);
        assert(limit * limit * (limit * limit) + limit * limit * (limit * limit) <= u128::MAX)
            by (nonlinear_arith)
            requires
                limit == 0x7fff_ffff,
        ;
        assert((u64::MAX as int) * (u64::MAX as int) <= u128::MAX) by (nonlinear_arith);
    }
    let square: u128 = a * a + b * b;
    let k: u128 = (max_length as u128) * area;
    assert(k == max_length * x_scale * y_scale && k >= 1 && max_length * x_scale >= 1 && max_length
        * y_scale >= 1 && k == (max_length * x_scale) * y_scale && k == (max_length * y_scale)
        * x_scale) by (nonlinear_arith)
        requires
            k == max_length * area,
            area == x_scale * y_scale,
            max_length >= 1,
            x_scale >= 1,
            y_scale >= 1,
    ;
    let root = ceil_sqrt(square);
    let quotient = (root + (k - 1)) / k;
    proof {
        lemma_ceil_div(root as int, k as int);
        lemma_square_order(root as int, quotient * k);
        if quotient > 1 {
            lemma_square_order((quotient - 1) * k, root - 1);
        }
        // The root is at most `a + b`, which is at most `(dx + dy) * k`, so
        // the quotient is at most `dx + dy`.
        lemma_square_of_sum(a as int, b as int);
        if root > a + b {
            lemma_square_order(a + b, root - 1);
        }
        lemma_span_bound(dx as int, y_scale as int, max_length * x_scale, k as int);
        lemma_span_bound(dy as int, x_scale as int, max_length * y_scale, k as int);
        assert((dx + dy) * k == dx * k + dy * k) by (nonlinear_arith);
        lemma_quotient_bound(quotient as int, k as int, root as int, dx + dy);
    }
    if quotient == 0 {
        proof {
            lemma_square_order(0, 1 * k);
        }
        1
    } else {
        quotient as u64
    }
}

/// A span times one scale is at most the span times `k`, where `k` is that
/// scale times a positive factor.
proof fn lemma_span_bound(span: int, scale: int, factor: int, k: int)
    by (nonlinear_arith)
    requires
        0 <= span,
        1 <= scale,
        1 <= factor,
        k == factor * scale,
    ensures
        span * scale <= span * k,
{
}

/// If `k` times one less than the quotient stays below a root that is at
/// most `spans * k`, the quotient is at most `spans`.
proof fn lemma_quotient_bound(quotient: int, k: int, root: int, spans: int)
    by (nonlinear_arith)
    requires
        k >= 1,
        0 <= spans,
        (quotient - 1) * k < root,
        root <= spans * k,
    ensures
        quotient <= spans,
{
}

/// Whether pieces fit does not depend on the direction of the segment.
proof fn lemma_same_squares(
    dx: int,
    dy: int,
    signed_dx: int,
    signed_dy: int,
    x_scale: int,
    y_scale: int,
    max_length: int,
    count: int,
)
    requires
        dx == signed_dx || dx == -signed_dx,
        dy == signed_dy || dy == -signed_dy,
    ensures
        pieces_fit(dx, dy, x_scale, y_scale, max_length, count) <==> pieces_fit(
            signed_dx,
            signed_dy,
            x_scale,
            y_scale,
            max_length,
            count,
        ),
{
    assert((dx * y_scale) * (dx * y_scale) == (signed_dx * y_scale) * (signed_dx * y_scale))
        by (nonlinear_arith)
        requires
            dx == signed_dx || dx == -signed_dx,
    ;
    assert((dy * x_scale) * (dy * x_scale) == (signed_dy * x_scale) * (signed_dy * x_scale))
        by (nonlinear_arith)
        requires
            dy == signed_dy || dy == -signed_dy,
    ;
}

/// A coordinate part of the way between two others, counted on the finer
/// grid.
fn coordinate_along(from: u64, to: u64, count: u64, i: u64) -> (at: u64)
    requires
        from <= MAX_COORDINATE,
        to <= MAX_COORDINATE,
        i <= count <= 2 * MAX_COORDINATE,
    ensures
        at == (count - i) * from + i * to,
{
    assert((count - i) * from + i * to <= count * MAX_COORDINATE && (count - i) * from <= count
        * MAX_COORDINATE && i * to <= count * MAX_COORDINATE && count * MAX_COORDINATE <= 2
        * MAX_COORDINATE * MAX_COORDINATE) by (nonlinear_arith)
        requires
            0 <= from <= MAX_COORDINATE,
            0 <= to <= MAX_COORDINATE,
            0 <= i <= count <= 2 * MAX_COORDINATE,
    ;
    (count - i) * from + i * to
}

/// Cuts the segment from `start` to `stop`, counted on a grid with the given
/// scales, into the least number of equal pieces that are each at most
/// `max_length` units long. A segment that is short enough comes back as it
/// is, as the only piece.
///
/// The pieces come on the grid that is finer by their number. They run in
/// order from `start` to `stop` without gap or overlap. Coordinates and
/// scales must be at most [`MAX_COORDINATE`], so that the finer grid fits
/// 64 bits.
pub fn partition_line(
    start: &Point,
    stop: &Point,
    x_scale: u64,
    y_scale: u64,
    max_length: u64,
) -> (pieces: Path)
    requires
        start.x <= MAX_COORDINATE,
        start.y <= MAX_COORDINATE,
        stop.x <= MAX_COORDINATE,
        stop.y <= MAX_COORDINATE,
        1 <= x_scale <= MAX_COORDINATE,
        1 <= y_scale <= MAX_COORDINATE,
        max_length >= 1,
    ensures
        pieces@.is_partition_of(
            GridSegment { start: start@, stop: stop@ },
            x_scale as int,
            y_scale as int,
            max_length as int,
        ),
{
    let dx = distance(start.x, stop.x);
    let dy = distance(start.y, stop.y);
    let count = piece_count(dx, dy, x_scale, y_scale, max_length);
    let ghost whole = GridSegment { start: start@, stop: stop@ };
    let ghost target = partitioned(whole, x_scale as int, y_scale as int, count as int);
    proof {
        lemma_same_squares(
            dx as int,
            dy as int,
            whole.dx(),
            whole.dy(),
            x_scale as int,
            y_scale as int,
            max_length as int,
            count as int,
        );
        if count > 1 {
            lemma_same_squares(
                dx as int,
                dy as int,
                whole.dx(),
                whole.dy(),
                x_scale as int,
                y_scale as int,
                max_length as int,
                count - 1,
            );
            lemma_piece_length(
                whole,
                x_scale as int,
                y_scale as int,
                max_length as int,
                count - 1,
                0,
            );
        }
        assert forall|i: int| 0 <= i < count implies target.no_longer_than(
            #[trigger] target.segments[i],
            max_length as int,
        ) by {
            lemma_piece_length(
                whole,
                x_scale as int,
                y_scale as int,
                max_length as int,
                count as int,
                i,
            );
        }
        lemma_product_bound(
            count as int,
            x_scale as int,
            2 * MAX_COORDINATE,
            MAX_COORDINATE as int,
        );
        lemma_product_bound(
            count as int,
            y_scale as int,
            2 * MAX_COORDINATE,
            MAX_COORDINATE as int,
        );
    }
    let mut segments: Vec<Segment> = Vec::new();
    let mut i: u64 = 0;
    while i < count
        invariant
            i <= count <= 2 * MAX_COORDINATE,
            start.x <= MAX_COORDINATE,
            start.y <= MAX_COORDINATE,
            stop.x <= MAX_COORDINATE,
            stop.y <= MAX_COORDINATE,
            whole == (GridSegment { start: start@, stop: stop@ }),
            segments.len() == i,
            forall|j: int|
                0 <= j < i ==> (#[trigger] segments[j])@ == (GridSegment {
                    start: point_along(whole, count as int, j),
                    stop: point_along(whole, count as int, j + 1),
                }),
        decreases count - i,
    {
        segments.push(
            Segment {
                start: Point {
                    x: coordinate_along(start.x, stop.x, count, i),
                    y: coordinate_along(start.y, stop.y, count, i),
                },
                stop: Point {
                    x: coordinate_along(start.x, stop.x, count, i + 1),
                    y: coordinate_along(start.y, stop.y, count, i + 1),
                },
            },
        );
        i = i + 1;
    }
    let pieces = Path { segments, x_scale: count * x_scale, y_scale: count * y_scale };
    proof {
        assert(pieces@.segments =~= target.segments);
    }
    pieces
}

/// Whether [`partition_path`] and [`corners`] take this path: whether its
/// coordinates and scales are at most [`MAX_COORDINATE`] and its scales are
/// positive.
pub fn can_partition(lines: &Path) -> (fits: bool)
    ensures
        fits == lines@.fits_partition(),
{
    if lines.x_scale < 1 || lines.x_scale > MAX_COORDINATE || lines.y_scale < 1 || lines.y_scale
        > MAX_COORDINATE {
        return false;
    }
    let n = lines.segments.len();
    let mut i: usize = 0;
    while i < n
        invariant
            n == lines.segments.len(),
            i <= n,
            forall|j: int|
                0 <= j < i ==> {
                    let s = #[trigger] lines@.segments[j];
                    &&& 0 <= s.start.x <= MAX_COORDINATE
                    &&& 0 <= s.start.y <= MAX_COORDINATE
                    &&& 0 <= s.stop.x <= MAX_COORDINATE
                    &&& 0 <= s.stop.y <= MAX_COORDINATE
                },
        decreases n - i,
    {
        let s = &lines.segments[i];
        proof {
            assert(lines@.segments[i as int] == s@);
        }
        if s.start.x > MAX_COORDINATE || s.start.y > MAX_COORDINATE || s.stop.x > MAX_COORDINATE
            || s.stop.y > MAX_COORDINATE {
            return false;
        }
        i = i + 1;
    }
    true
}

/// Cuts every segment of a path into pieces of at most `max_length` units,
/// each segment on its own as [`partition_line`] does. The result holds the
/// pieces of the first segment, then those of the second, and so on; the
/// pieces of each segment come on a grid of their own.
pub fn partition_path(lines: &Path, max_length: u64) -> (pieces: Vec<Path>)
    requires
        lines@.fits_partition(),
        max_length >= 1,
    ensures
        pieces.len() == lines.segments.len(),
        forall|i: int|
            0 <= i < pieces.len() ==> (#[trigger] pieces[i])@.is_partition_of(
                lines@.segments[i],
                lines@.x_scale,
                lines@.y_scale,
                max_length as int,
            ),
{
    let n = lines.segments.len();
    let mut pieces: Vec<Path> = Vec::new();
    let mut i: usize = 0;
    while i < n
        invariant
            n == lines.segments.len(),
            i <= n,
            lines@.fits_partition(),
            max_length >= 1,
            pieces.len() == i,
            forall|j: int|
                0 <= j < i ==> (#[trigger] pieces[j])@.is_partition_of(
                    lines@.segments[j],
                    lines@.x_scale,
                    lines@.y_scale,
                    max_length as int,
                ),
        decreases n - i,
    {
        let s = &lines.segments[i];
        proof {
            assert(lines@.segments[i as int] == s@);
        }
        pieces.push(partition_line(&s.start, &s.stop, lines.x_scale, lines.y_scale, max_length));
        i = i + 1;
    }
    pieces
}

} // verus!
