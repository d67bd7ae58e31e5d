use line_approximator::hilbert_curve::HilbertCurve;
use line_approximator::line_utils::corners;
use line_approximator::path::{Path, Point, Segment};

fn seg(x0: u64, y0: u64, x1: u64, y1: u64) -> Segment {
    Segment { start: Point { x: x0, y: y0 }, stop: Point { x: x1, y: y1 } }
}

fn path(segments: Vec<Segment>) -> Path {
    Path { segments, x_scale: 1, y_scale: 1 }
}

#[test]
fn no_corner_without_two_segments() {
    assert_eq!(corners(&path(vec![])), Vec::<bool>::new());
    assert_eq!(corners(&path(vec![seg(0, 0, 1, 1)])), Vec::<bool>::new());
}

#[test]
fn right_angle_is_a_corner() {
    assert_eq!(corners(&path(vec![seg(0, 0, 2, 0), seg(2, 0, 2, 2)])), vec![true]);
    assert_eq!(corners(&path(vec![seg(2, 2, 2, 0), seg(2, 0, 0, 0)])), vec![true]);
}

#[test]
fn straight_on_is_no_corner() {
    assert_eq!(corners(&path(vec![seg(0, 0, 1, 0), seg(1, 0, 3, 0)])), vec![false]);
    assert_eq!(corners(&path(vec![seg(0, 0, 1, 2), seg(1, 2, 3, 6)])), vec![false]);
    assert_eq!(corners(&path(vec![seg(9, 9, 6, 7), seg(6, 7, 3, 5)])), vec![false]);
}

#[test]
fn turning_back_is_a_corner() {
    assert_eq!(corners(&path(vec![seg(0, 0, 2, 0), seg(2, 0, 1, 0)])), vec![true]);
    assert_eq!(corners(&path(vec![seg(0, 0, 2, 2), seg(2, 2, 0, 0)])), vec![true]);
}

#[test]
fn slight_bend_is_a_corner() {
    assert_eq!(corners(&path(vec![seg(0, 0, 1000, 1000), seg(1000, 1000, 2000, 2001)])), vec![true]);
}

#[test]
fn gap_is_no_corner() {
    assert_eq!(corners(&path(vec![seg(0, 0, 1, 0), seg(2, 0, 2, 1)])), vec![false]);
    assert_eq!(corners(&path(vec![seg(0, 0, 1, 0), seg(1, 1, 2, 1)])), vec![false]);
}

#[test]
fn segment_without_length_makes_no_corner() {
    assert_eq!(corners(&path(vec![seg(0, 0, 0, 0), seg(0, 0, 1, 1)])), vec![false]);
    assert_eq!(corners(&path(vec![seg(0, 0, 1, 1), seg(1, 1, 1, 1)])), vec![false]);
    assert_eq!(
        corners(&path(vec![seg(0, 0, 1, 0), seg(1, 0, 1, 0), seg(1, 0, 1, 1)])),
        vec![false, false]
    );
}

#[test]
fn scales_do_not_bend_a_straight_line() {
    for (xs, ys) in [(1u64, 1u64), (3, 7), (1000, 1), (1, 1000)] {
        let lines = Path { segments: vec![seg(0, 0, 2, 3), seg(2, 3, 6, 9), seg(6, 9, 6, 10)], x_scale: xs, y_scale: ys };
        assert_eq!(corners(&lines), vec![false, true]);
    }
}

#[test]
fn corners_at_largest_coordinates() {
    let m = line_approximator::line_utils::MAX_COORDINATE;
    let lines = Path { segments: vec![seg(0, 0, m, m), seg(m, m, 0, 0), seg(0, 0, m, m - 1)], x_scale: m, y_scale: m };
    assert_eq!(corners(&lines), vec![true, true]);
    let lines = Path { segments: vec![seg(0, 0, m - 1, m), seg(m - 1, m, m, 0)], x_scale: m, y_scale: 1 };
    assert_eq!(corners(&lines), vec![true]);
}

#[test]
fn corners_of_the_curve_of_order_two() {
    let lines = HilbertCurve::new(2).path();
    let found = corners(&lines);
    assert_eq!(found.len(), 14);
    let expected: Vec<bool> = lines
        .segments
        .windows(2)
        .map(|w| {
            let a = (w[0].stop.x as i64 - w[0].start.x as i64, w[0].stop.y as i64 - w[0].start.y as i64);
            let b = (w[1].stop.x as i64 - w[1].start.x as i64, w[1].stop.y as i64 - w[1].start.y as i64);
            a != b
        })
        .collect();
    assert_eq!(found, expected);
    // right, up, left, up, up, right, down, right, ...
    assert_eq!(&found[..7], &[true, true, true, false, true, true, true]);
}
