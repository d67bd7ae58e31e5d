//! Points, segments and paths on a rational grid.
//!
//! Every coordinate is a whole number of grid steps. A path carries the
//! number of steps that make up one unit along each axis, so the position a
//! pair of counts stands for is `(x / x_scale, y / y_scale)`. All arithmetic
//! on paths is done on the counts and stays exact.

use crate::arith::{lemma_max_unique, lemma_min_unique};
use vstd::prelude::*;

verus! {

/// A point in ghost code: unbounded grid counts.
pub struct GridPoint {
    pub x: int,
    pub y: int,
}

/// A directed span between two points in ghost code.
pub struct GridSegment {
    pub start: GridPoint,
    pub stop: GridPoint,
}

/// The mathematical model of a [`Path`].
pub struct GridPath {
    pub segments: Seq<GridSegment>,
    pub x_scale: int,
    pub y_scale: int,
}

/// A point, counted in grid steps from the origin.
#[derive(Clone, Copy, Debug, PartialEq, Eq, Structural)]
pub struct Point {
    pub x: u64,
    pub y: u64,
}

/// A directed straight span from `start` to `stop`.
#[derive(Clone, Copy, Debug, PartialEq, Eq, Structural)]
pub struct Segment {
    pub start: Point,
    pub stop: Point,
}

/// An ordered list of segments together with the grid they are counted on:
/// `x_scale` steps make one unit horizontally, `y_scale` steps one unit
/// vertically.
#[derive(Debug, PartialEq, Eq)]
pub struct Path {
    pub segments: Vec<Segment>,
    pub x_scale: u64,
    pub y_scale: u64,
}

/// The smallest axis-aligned box around all points of a path, in grid steps.
#[derive(Clone, Copy, Debug, PartialEq, Eq, Structural)]
pub struct BoundingBox {
    pub min_x: u64,
    pub max_x: u64,
    pub min_y: u64,
    pub max_y: u64,
}

impl View for Point {
    type V = GridPoint;

    open spec fn view(&self) -> GridPoint {
        GridPoint { x: self.x as int, y: self.y as int }
    }
}

impl View for Segment {
    type V = GridSegment;

    open spec fn view(&self) -> GridSegment {
        GridSegment { start: self.start@, stop: self.stop@ }
    }
}

impl View for Path {
    type V = GridPath;

    open spec fn view(&self) -> GridPath {
        GridPath {
            segments: self.segments@.map_values(|s: Segment| s@),
            x_scale: self.x_scale as int,
            y_scale: self.y_scale as int,
        }
    }
}

impl Clone for Path {
    /// A path with the same segments on the same grid.
    fn clone(&self) -> (copy: Path)
        ensures
            copy@ == self@,
            copy.segments@ == self.segments@,
    {
        let mut segments: Vec<Segment> = Vec::new();
        let mut i: usize = 0;
        while i < self.segments.len()
            invariant
                i <= self.segments.len(),
                segments@ == self.segments@.take(i as int),
            decreases self.segments.len() - i,
        {
            segments.push(self.segments[i]);
            assert(segments@ =~= self.segments@.take(i as int + 1));
            i = i + 1;
        }
        assert(self.segments@.take(i as int) =~= self.segments@);
        Path { segments, x_scale: self.x_scale, y_scale: self.y_scale }
    }
}

/// The horizontal counts of all endpoints: start and stop of the first
/// segment, then of the second, and so on.
pub open spec fn xs(segments: Seq<GridSegment>) -> Seq<int> {
    Seq::new(
        2 * segments.len(),
        |k: int| if k % 2 == 0 { segments[k / 2].start.x } else { segments[k / 2].stop.x },
    )
}

/// The vertical counts of all endpoints, in the order of [`xs`].
pub open spec fn ys(segments: Seq<GridSegment>) -> Seq<int> {
    Seq::new(
        2 * segments.len(),
        |k: int| if k % 2 == 0 { segments[k / 2].start.y } else { segments[k / 2].stop.y },
    )
}

/// Whether two points, each counted on its own grid, are the same position.
pub open spec fn same_position(
    p: GridPoint,
    p_x_scale: int,
    p_y_scale: int,
    q: GridPoint,
    q_x_scale: int,
    q_y_scale: int,
) -> bool {
    &&& p.x * q_x_scale == q.x * p_x_scale
    &&& p.y * q_y_scale == q.y * p_y_scale
}

/// Whether `b` points the way `a` does, on a grid with the given scales.
/// With `u` and `v` the spans of `a` and `b` in units, this is so when `u`
/// and `v` are parallel, their cross product being zero, and not opposed,
/// their dot product being positive; both products are cleared of fractions.
pub open spec fn same_direction(a: GridSegment, b: GridSegment, x_scale: int, y_scale: int) -> bool {
    &&& a.dx() * b.dy() - a.dy() * b.dx() == 0
    &&& a.dx() * b.dx() * (y_scale * y_scale) + a.dy() * b.dy() * (x_scale * x_scale) > 0
}

/// Whether there is a corner between `a` and `b`: `b` starts where `a`
/// stops, both have a direction, and the directions differ.
pub open spec fn turns(a: GridSegment, b: GridSegment, x_scale: int, y_scale: int) -> bool {
    &&& a.stop == b.start
    &&& a.has_length()
    &&& b.has_length()
    &&& !same_direction(a, b, x_scale, y_scale)
}

impl GridSegment {
    /// The horizontal steps from start to stop; negative when the segment
    /// runs to the left.
    pub open spec fn dx(self) -> int {
        self.stop.x - self.start.x
    }

    /// The vertical steps from start to stop.
    pub open spec fn dy(self) -> int {
        self.stop.y - self.start.y
    }

    /// Whether start and stop differ, so that the segment has a direction.
    pub open spec fn has_length(self) -> bool {
        self.dx() != 0 || self.dy() != 0
    }
}

impl GridPath {
    /// The smallest horizontal count of any endpoint.
    pub open spec fn min_x(self) -> int {
        xs(self.segments).min()
    }

    /// The largest horizontal count of any endpoint.
    pub open spec fn max_x(self) -> int {
        xs(self.segments).max()
    }

    /// The smallest vertical count of any endpoint.
    pub open spec fn min_y(self) -> int {
        ys(self.segments).min()
    }

    /// The largest vertical count of any endpoint.
    pub open spec fn max_y(self) -> int {
        ys(self.segments).max()
    }

    /// The width of the bounding box, in grid steps.
    pub open spec fn span_x(self) -> int {
        self.max_x() - self.min_x()
    }

    /// The height of the bounding box, in grid steps.
    pub open spec fn span_y(self) -> int {
        self.max_y() - self.min_y()
    }

    /// Whether both scales are positive, so that the counts stand for
    /// positions.
    pub open spec fn has_grid(self) -> bool {
        self.x_scale > 0 && self.y_scale > 0
    }

    /// Whether every coordinate lies between `low` and `high`.
    pub open spec fn coordinates_within(self, low: int, high: int) -> bool {
        forall|i: int|
            0 <= i < self.segments.len() ==> {
                let s = #[trigger] self.segments[i];
                &&& low <= s.start.x <= high
                &&& low <= s.start.y <= high
                &&& low <= s.stop.x <= high
                &&& low <= s.stop.y <= high
            }
    }

    /// Whether `self` and `other` are the same list of segments between the
    /// same positions, whatever grids they are counted on.
    pub open spec fn same_points(self, other: GridPath) -> bool {
        &&& self.has_grid()
        &&& other.has_grid()
        &&& self.segments.len() == other.segments.len()
        &&& forall|i: int|
            0 <= i < self.segments.len() ==> {
                &&& same_position(
                    (#[trigger] self.segments[i]).start,
                    self.x_scale,
                    self.y_scale,
                    other.segments[i].start,
                    other.x_scale,
                    other.y_scale,
                )
                &&& same_position(
                    self.segments[i].stop,
                    self.x_scale,
                    self.y_scale,
                    other.segments[i].stop,
                    other.x_scale,
                    other.y_scale,
                )
            }
    }

    /// Whether each segment starts where the one before it stopped.
    pub open spec fn contiguous(self) -> bool {
        forall|i: int|
            0 <= i < self.segments.len() - 1 ==> (#[trigger] self.segments[i]).stop
                == self.segments[i + 1].start
    }

    /// Whether a point lies in `[0, width] x [0, height]`.
    pub open spec fn point_in_frame(self, p: GridPoint, width: int, height: int) -> bool {
        &&& 0 <= p.x <= width * self.x_scale
        &&& 0 <= p.y <= height * self.y_scale
    }

    /// The test for a segment to lie in `[0, width] x [0, height]` with both
    /// of its ends.
    pub open spec fn in_frame(self, width: int, height: int) -> spec_fn(GridSegment) -> bool {
        |s: GridSegment|
            self.point_in_frame(s.start, width, height) && self.point_in_frame(
                s.stop,
                width,
                height,
            )
    }

    /// Whether every segment lies in the unit square `[0, 1] x [0, 1]`.
    pub open spec fn within_unit_square(self) -> bool {
        forall|i: int|
            0 <= i < self.segments.len() ==> self.in_frame(1, 1)(#[trigger] self.segments[i])
    }

    /// Whether the path has a corner between segment `i` and the next.
    pub open spec fn turns_at(self, i: int) -> bool {
        turns(self.segments[i], self.segments[i + 1], self.x_scale, self.y_scale)
    }

    /// Whether `s`, counted on the grid of this path, is at most
    /// `max_length` units long: with `dx` and `dy` the steps it spans,
    /// `(dx / x_scale)^2 + (dy / y_scale)^2 <= max_length^2`, cleared of
    /// fractions.
    pub open spec fn no_longer_than(self, s: GridSegment, max_length: int) -> bool {
        let a = s.dx() * self.y_scale;
        let b = s.dy() * self.x_scale;
        let k = max_length * self.x_scale * self.y_scale;
        a * a + b * b <= k * k
    }
}

/// Every endpoint of a path lies inside its bounding box.
pub proof fn lemma_bounding_box_contains(path: GridPath, i: int)
    requires
        0 <= i < path.segments.len(),
    ensures
        path.min_x() <= path.segments[i].start.x <= path.max_x(),
        path.min_x() <= path.segments[i].stop.x <= path.max_x(),
        path.min_y() <= path.segments[i].start.y <= path.max_y(),
        path.min_y() <= path.segments[i].stop.y <= path.max_y(),
{
    let all_x = xs(path.segments);
    let all_y = ys(path.segments);
    all_x.min_ensures();
    all_x.max_ensures();
    all_y.min_ensures();
    all_y.max_ensures();
    assert(all_x[2 * i] == path.segments[i].start.x);
    assert(all_x[2 * i + 1] == path.segments[i].stop.x);
    assert(all_y[2 * i] == path.segments[i].start.y);
    assert(all_y[2 * i + 1] == path.segments[i].stop.y);
}

/// The bounding box of a path is no larger than any range that holds all of
/// its coordinates.
pub proof fn lemma_bounding_box_within(path: GridPath, low: int, high: int)
    requires
        path.segments.len() > 0,
        path.coordinates_within(low, high),
    ensures
        low <= path.min_x() <= path.max_x() <= high,
        low <= path.min_y() <= path.max_y() <= high,
{
    let all_x = xs(path.segments);
    let all_y = ys(path.segments);
    all_x.min_ensures();
    all_x.max_ensures();
    all_y.min_ensures();
    all_y.max_ensures();
    assert forall|k: int| 0 <= k < all_x.len() implies low <= #[trigger] all_x[k] <= high by {
        assert(low <= path.segments[k / 2].start.x <= high);
    }
    assert forall|k: int| 0 <= k < all_y.len() implies low <= #[trigger] all_y[k] <= high by {
        assert(low <= path.segments[k / 2].start.y <= high);
    }
    lemma_bounding_box_contains(path, 0);
}

/// The bounding box of a path; `None` for a path without segments.
pub fn bounding_box(lines: &Path) -> (bounds: Option<BoundingBox>)
    ensures
        bounds is None <==> lines.segments.len() == 0,
        bounds matches Some(b) ==> {
            &&& b.min_x == lines@.min_x()
            &&& b.max_x == lines@.max_x()
            &&& b.min_y == lines@.min_y()
            &&& b.max_y == lines@.max_y()
        },
{
    let n = lines.segments.len();
    if n == 0 {
        return None;
    }
    let first = lines.segments[0];
    let mut b = BoundingBox {
        min_x: first.start.x,
        max_x: first.start.x,
        min_y: first.start.y,
        max_y: first.start.y,
    };
    let ghost all_x = xs(lines@.segments);
    let ghost all_y = ys(lines@.segments);
    // Where in `all_x` and `all_y` the current extremes were found.
    let ghost mut at_min_x: int = 0;
    let ghost mut at_max_x: int = 0;
    let ghost mut at_min_y: int = 0;
    let ghost mut at_max_y: int = 0;
    let mut i: usize = 0;
    while i < n
        invariant
            n == lines.segments.len(),
            i <= n,
            all_x == xs(lines@.segments),
            all_y == ys(lines@.segments),
            0 <= at_min_x < 2 * n && all_x[at_min_x] == b.min_x,
            0 <= at_max_x < 2 * n && all_x[at_max_x] == b.max_x,
            0 <= at_min_y < 2 * n && all_y[at_min_y] == b.min_y,
            0 <= at_max_y < 2 * n && all_y[at_max_y] == b.max_y,
            forall|k: int| 0 <= k < 2 * i ==> b.min_x <= #[trigger] all_x[k] && all_x[k] <= b.max_x,
            forall|k: int| 0 <= k < 2 * i ==> b.min_y <= #[trigger] all_y[k] && all_y[k] <= b.max_y,
        decreases n - i,
    {
        let s = lines.segments[i];
        assert(all_x[2 * i] == s.start.x && all_x[2 * i + 1] == s.stop.x);
        assert(all_y[2 * i] == s.start.y && all_y[2 * i + 1] == s.stop.y);
        if s.start.x < b.min_x {
            b.min_x = s.start.x;
            proof {
                at_min_x = 2 * i;
            }
        }
        if s.stop.x < b.min_x {
            b.min_x = s.stop.x;
            proof {
                at_min_x = 2 * i + 1;
            }
        }
        if s.start.x > b.max_x {
            b.max_x = s.start.x;
            proof {
                at_max_x = 2 * i;
            }
        }
        if s.stop.x > b.max_x {
            b.max_x = s.stop.x;
            proof {
                at_max_x = 2 * i + 1;
            }
        }
        if s.start.y < b.min_y {
            b.min_y = s.start.y;
            proof {
                at_min_y = 2 * i;
            }
        }
        if s.stop.y < b.min_y {
            b.min_y = s.stop.y;
            proof {
                at_min_y = 2 * i + 1;
            }
        }
        if s.start.y > b.max_y {
            b.max_y = s.start.y;
            proof {
                at_max_y = 2 * i;
            }
        }
        if s.stop.y > b.max_y {
            b.max_y = s.stop.y;
            proof {
                at_max_y = 2 * i + 1;
            }
        }
        i = i + 1;
    }
    proof {
        lemma_min_unique(all_x, b.min_x as int, at_min_x);
        lemma_max_unique(all_x, b.max_x as int, at_max_x);
        lemma_min_unique(all_y, b.min_y as int, at_min_y);
        lemma_max_unique(all_y, b.max_y as int, at_max_y);
    }
    Some(b)
}

} // verus!
