//! The Hilbert curve as a path on the lattice of its order.
//!
//! A curve of order `o` visits every cell of a lattice with `2^o` cells per
//! side exactly once. Which cell comes at which position is decided by the
//! `hilbert_index` crate; this module walks the positions, pairs each cell
//! with its successor and never asks for a position outside the lattice.

use crate::path::{GridPath, GridPoint, GridSegment, Path, Point, Segment};
use hilbert_index::FromHilbertIndex;
use vstd::arithmetic::power2::{lemma_pow2_adds, lemma_pow2_pos, pow2};
use vstd::bits::{lemma_usize_pow2_no_overflow, lemma_usize_shl_is_mul};
use vstd::prelude::*;

verus! {

/// The largest supported order: the cell count `4^15` still fits a 32-bit
/// word.
pub const MAX_ORDER: usize = 15;

/// The lattice cell `(x, y)` that the two-dimensional Hilbert curve of the
/// given order visits at position `index`, as the `hilbert_index` crate
/// computes it.
pub uninterp spec fn hilbert_cell(index: usize, order: usize) -> (usize, usize);

/// Cells along one side of the lattice of the given order.
pub open spec fn side(order: usize) -> nat {
    pow2(order as nat)
}

/// Cells in the whole lattice of the given order.
pub open spec fn cell_count(order: usize) -> nat {
    side(order) * side(order)
}

/// Steps from one cell to the next along the whole curve.
pub open spec fn segment_count(order: usize) -> nat {
    (cell_count(order) - 1) as nat
}

/// A lattice cell as a point of a path.
pub open spec fn cell_point(cell: (usize, usize)) -> GridPoint {
    GridPoint { x: cell.0 as int, y: cell.1 as int }
}

/// The step of the curve that leaves the cell at position `index`.
pub open spec fn curve_segment(order: usize, index: int) -> GridSegment {
    GridSegment {
        start: cell_point(hilbert_cell(index as usize, order)),
        stop: cell_point(hilbert_cell((index + 1) as usize, order)),
    }
}

/// The whole curve, scaled so that the lattice spans the unit square.
pub open spec fn curve_path(order: usize) -> GridPath {
    GridPath {
        segments: Seq::new(segment_count(order), |i: int| curve_segment(order, i)),
        x_scale: side(order) as int,
        y_scale: side(order) as int,
    }
}

/// The number of cells is a power of two: `4^order`.
pub proof fn lemma_cell_count_is_power(order: usize)
    ensures
        cell_count(order) == pow2(2 * (order as nat)),
        side(order) >= 1,
{
    lemma_pow2_adds(order as nat, order as nat);
    lemma_pow2_pos(order as nat);
}

/// Looks up one cell of the curve with
/// `hilbert_index::FromHilbertIndex::from_hilbert_index` in two dimensions.
///
/// Trusted: the result is the crate's answer for this position and order, and
/// both of its coordinates lie on the lattice, below `2^order`. The decoder
/// builds each coordinate from `order` single bits, one per level.
#[verifier::external_body]
fn decode(index: usize, order: usize) -> (cell: (usize, usize))
    requires
        order <= MAX_ORDER,
        index < cell_count(order),
    ensures
        cell == hilbert_cell(index, order),
        cell.0 < side(order),
        cell.1 < side(order),
{
    let cell: [usize; 2] = index.from_hilbert_index(order);
    (cell[0], cell[1])
}

/// The segment that joins two lattice cells.
pub fn segment_between(start: (usize, usize), stop: (usize, usize)) -> (segment: Segment)
    ensures
        segment@ == (GridSegment { start: cell_point(start), stop: cell_point(stop) }),
{
    Segment {
        start: Point { x: start.0 as u64, y: start.1 as u64 },
        stop: Point { x: stop.0 as u64, y: stop.1 as u64 },
    }
}

/// The number of cells in the lattice of the given order.
fn cells_in_lattice(order: usize) -> (count: usize)
    requires
        order <= MAX_ORDER,
    ensures
        count == cell_count(order),
        count >= 1,
{
    proof {
        lemma_cell_count_is_power(order);
        lemma_usize_pow2_no_overflow(2 * (order as nat));
        lemma_usize_shl_is_mul(1usize, (2 * order) as usize);
    }
    1usize << (2 * order)
}

/// The number of cells along one side of the lattice of the given order.
fn cells_per_side(order: usize) -> (count: usize)
    requires
        order <= MAX_ORDER,
    ensures
        count == side(order),
        count >= 1,
{
    proof {
        lemma_usize_pow2_no_overflow(order as nat);
        lemma_usize_shl_is_mul(1usize, order);
    }
    1usize << order
}

/// A Hilbert curve of a fixed order.
#[derive(Clone, Copy, Debug)]
pub struct HilbertCurve {
    order: usize,
}

/// A walk along a [`HilbertCurve`], one segment at a time.
pub struct HilbertCurveIterator {
    hilbert_curve: HilbertCurve,
    index: usize,
}

impl HilbertCurve {
    #[verifier::type_invariant]
    spec fn within_limit(self) -> bool {
        self.order <= MAX_ORDER
    }

    /// The order this curve was made with.
    pub closed spec fn spec_order(self) -> usize {
        self.order
    }

    /// A curve of the given order.
    pub fn new(order: usize) -> (curve: HilbertCurve)
        requires
            order <= MAX_ORDER,
        ensures
            curve.spec_order() == order,
    {
        HilbertCurve { order }
    }

    /// The order this curve was made with.
    #[verifier::when_used_as_spec(spec_order)]
    pub fn order(self) -> (order: usize)
        ensures
            order == self.spec_order(),
            order <= MAX_ORDER,
    {
        proof {
            use_type_invariant(self);
        }
        self.order
    }

    /// The whole curve as a path in the unit square: every step from one
    /// cell to the next, in the order of the curve, counted on the grid of
    /// `2^order` steps per unit.
    ///
    /// The path has `4^order - 1` segments. All its ends are cells of the
    /// lattice, so it stays inside the unit square, and it is contiguous.
    pub fn path(self) -> (path: Path)
        ensures
            path@ == curve_path(self.order()),
            path@.coordinates_within(0, side(self.order()) - 1),
            path@.within_unit_square(),
            path@.contiguous(),
    {
        let order = self.order();
        let per_side = cells_per_side(order);
        let mut segments: Vec<Segment> = Vec::new();
        let mut walk = self.into_iter();
        loop
            invariant
                walk.curve() == self,
                order == self.order(),
                per_side == side(order),
                walk.position() == segments.len(),
                segments.len() <= segment_count(order),
                forall|i: int|
                    0 <= i < segments.len() ==> {
                        &&& (#[trigger] segments[i])@ == curve_segment(order, i)
                        &&& segments[i].start.x < per_side
                        &&& segments[i].start.y < per_side
                        &&& segments[i].stop.x < per_side
                        &&& segments[i].stop.y < per_side
                    },
            ensures
                segments.len() == segment_count(order),
            decreases segment_count(order) - segments.len(),
        {
            match walk.next() {
                Some(segment) => {
                    segments.push(segment);
                },
                None => {
                    break;
                },
            }
        }
        let path = Path { segments, x_scale: per_side as u64, y_scale: per_side as u64 };
        proof {
            assert(path@.segments =~= curve_path(order).segments);
            assert forall|i: int| 0 <= i < path@.segments.len() implies {
                let s = #[trigger] path@.segments[i];
                &&& 0 <= s.start.x <= per_side - 1
                &&& 0 <= s.start.y <= per_side - 1
                &&& 0 <= s.stop.x <= per_side - 1
                &&& 0 <= s.stop.y <= per_side - 1
            } by {
                assert(path@.segments[i] == path.segments[i]@);
            }
        }
        path
    }

    /// A walk that starts at the first segment of the curve.
    pub fn into_iter(self) -> (walk: HilbertCurveIterator)
        ensures
            walk.curve() == self,
            walk.position() == 0,
    {
        proof {
            use_type_invariant(self);
            lemma_cell_count_is_power(self.order);
            lemma_pow2_pos(2 * (self.order as nat));
        }
        HilbertCurveIterator { hilbert_curve: self, index: 0 }
    }
}

impl HilbertCurveIterator {
    #[verifier::type_invariant]
    spec fn on_lattice(self) -> bool {
        self.hilbert_curve.order <= MAX_ORDER && self.index < cell_count(self.hilbert_curve.order)
    }

    /// The curve that is walked.
    pub closed spec fn curve(self) -> HilbertCurve {
        self.hilbert_curve
    }

    /// How many segments the walk has handed out.
    pub closed spec fn position(self) -> usize {
        self.index
    }

    /// Hands out the next segment, from the current cell to its successor,
    /// in lattice coordinates; `None` once the last cell has been reached.
    /// Only positions on the lattice are ever decoded.
    pub fn next(&mut self) -> (segment: Option<Segment>)
        ensures
            final(self).curve() == old(self).curve(),
            old(self).position() < segment_count(old(self).curve().order()) ==> {
                &&& segment matches Some(s)
                &&& s@ == curve_segment(old(self).curve().order(), old(self).position() as int)
                &&& s.start.x < side(old(self).curve().order())
                &&& s.start.y < side(old(self).curve().order())
                &&& s.stop.x < side(old(self).curve().order())
                &&& s.stop.y < side(old(self).curve().order())
                &&& final(self).position() == old(self).position() + 1
            },
            old(self).position() >= segment_count(old(self).curve().order()) ==> {
                &&& segment is None
                &&& final(self).position() == old(self).position()
            },
    {
        proof {
            use_type_invariant(&*self);
        }
        let order = self.hilbert_curve.order;
        let cells = cells_in_lattice(order);
        if self.index + 1 >= cells {
            return None;
        }
        let start = decode(self.index, order);
        let stop = decode(self.index + 1, order);
        self.index = self.index + 1;
        Some(segment_between(start, stop))
    }
}

} // verus!
