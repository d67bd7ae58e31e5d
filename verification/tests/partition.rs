use line_approximator::hilbert_curve::HilbertCurve;
use line_approximator::line_utils::{can_partition, crop_to_scale, partition_line, MAX_COORDINATE};
use line_approximator::path::{Path, Point, Segment};

fn pt(x: u64, y: u64) -> Point {
    Point { x, y }
}

fn seg(x0: u64, y0: u64, x1: u64, y1: u64) -> Segment {
    Segment { start: pt(x0, y0), stop: pt(x1, y1) }
}

fn at(p: Point, lines: &Path) -> (f64, f64) {
    (p.x as f64 / lines.x_scale as f64, p.y as f64 / lines.y_scale as f64)
}

fn lengths(pieces: &Path) -> Vec<f64> {
    pieces
        .segments
        .iter()
        .map(|s| {
            let (x0, y0) = at(s.start, pieces);
            let (x1, y1) = at(s.stop, pieces);
            ((x0 - x1).powi(2) + (y0 - y1).powi(2)).sqrt()
        })
        .collect()
}

#[test]
fn short_segment_comes_back_unchanged() {
    let pieces = partition_line(&pt(2, 3), &pt(3, 3), 1, 1, 1);
    assert_eq!(pieces, Path { segments: vec![seg(2, 3, 3, 3)], x_scale: 1, y_scale: 1 });
    let pieces = partition_line(&pt(0, 0), &pt(3, 4), 7, 9, 5);
    assert_eq!(pieces, Path { segments: vec![seg(0, 0, 3, 4)], x_scale: 7, y_scale: 9 });
}

#[test]
fn point_segment_comes_back_unchanged() {
    let pieces = partition_line(&pt(5, 5), &pt(5, 5), 2, 2, 1);
    assert_eq!(pieces, Path { segments: vec![seg(5, 5, 5, 5)], x_scale: 2, y_scale: 2 });
}

#[test]
fn long_segment_is_cut_into_unit_pieces() {
    let pieces = partition_line(&pt(0, 0), &pt(3, 0), 1, 1, 1);
    assert_eq!(
        pieces,
        Path { segments: vec![seg(0, 0, 3, 0), seg(3, 0, 6, 0), seg(6, 0, 9, 0)], x_scale: 3, y_scale: 3 }
    );
    assert_eq!(at(pieces.segments[1].start, &pieces), (1.0, 0.0));
    assert_eq!(at(pieces.segments[2].stop, &pieces), (3.0, 0.0));
}

#[test]
fn piece_count_rounds_up() {
    // length 5, pieces of at most 2: three pieces of 5/3
    let pieces = partition_line(&pt(0, 0), &pt(3, 4), 1, 1, 2);
    assert_eq!(
        pieces,
        Path { segments: vec![seg(0, 0, 3, 4), seg(3, 4, 6, 8), seg(6, 8, 9, 12)], x_scale: 3, y_scale: 3 }
    );
}

#[test]
fn piece_count_is_exact_at_whole_multiples() {
    // length 4, pieces of at most 2: exactly two
    let pieces = partition_line(&pt(1, 1), &pt(1, 5), 1, 1, 2);
    assert_eq!(pieces, Path { segments: vec![seg(2, 2, 2, 6), seg(2, 6, 2, 10)], x_scale: 2, y_scale: 2 });
    // length 5, pieces of at most 5: one
    assert_eq!(partition_line(&pt(0, 0), &pt(3, 4), 1, 1, 5).segments.len(), 1);
    // length 5, pieces of at most 1: five
    assert_eq!(partition_line(&pt(0, 0), &pt(3, 4), 1, 1, 1).segments.len(), 5);
    // length 10, pieces of at most 3: four
    assert_eq!(partition_line(&pt(0, 0), &pt(6, 8), 1, 1, 3).segments.len(), 4);
}

#[test]
fn diagonal_of_unit_square_needs_two_pieces() {
    let pieces = partition_line(&pt(0, 0), &pt(1, 1), 1, 1, 1);
    assert_eq!(pieces, Path { segments: vec![seg(0, 0, 1, 1), seg(1, 1, 2, 2)], x_scale: 2, y_scale: 2 });
}

#[test]
fn scales_count_for_the_length() {
    // four steps of a half: length 2
    let pieces = partition_line(&pt(0, 0), &pt(4, 0), 2, 1, 1);
    assert_eq!(pieces, Path { segments: vec![seg(0, 0, 4, 0), seg(4, 0, 8, 0)], x_scale: 4, y_scale: 2 });
    // three steps of a third horizontally, four steps of a quarter vertically: length sqrt 2
    let pieces = partition_line(&pt(0, 0), &pt(3, 4), 3, 4, 1);
    assert_eq!(pieces.segments.len(), 2);
    assert_eq!(pieces.x_scale, 6);
    assert_eq!(pieces.y_scale, 8);
}

#[test]
fn pieces_run_from_start_to_stop() {
    let pieces = partition_line(&pt(9, 2), &pt(0, 8), 1, 1, 1);
    let n = pieces.segments.len() as u64;
    assert_eq!(n, 11);
    assert_eq!(pieces.segments[0].start, pt(9 * n, 2 * n));
    assert_eq!(pieces.segments[10].stop, pt(0, 8 * n));
    for pair in pieces.segments.windows(2) {
        assert_eq!(pair[0].stop, pair[1].start);
    }
    for s in &pieces.segments {
        assert_eq!(s.start.x - s.stop.x, 9);
        assert_eq!(s.stop.y - s.start.y, 6);
    }
}

#[test]
fn piece_lengths_add_up_and_stay_below_the_limit() {
    let cases = [
        (pt(0, 0), pt(7, 0), 1u64, 1u64, 1u64),
        (pt(0, 0), pt(3, 4), 1, 1, 2),
        (pt(10, 3), pt(1, 40), 3, 5, 2),
        (pt(5, 5), pt(5, 5), 1, 1, 1),
        (pt(0, 9), pt(100, 0), 7, 2, 3),
        (pt(1, 1), pt(2, 2), 1000, 1000, 1),
    ];
    for (start, stop, xs, ys, max) in cases {
        let whole = Path { segments: vec![Segment { start, stop }], x_scale: xs, y_scale: ys };
        let length = lengths(&whole)[0];
        let pieces = partition_line(&start, &stop, xs, ys, max);
        let each = lengths(&pieces);
        let sum: f64 = each.iter().sum();
        assert!((sum - length).abs() <= 1e-9 * length.max(1.0));
        for l in &each {
            assert!(*l <= max as f64 + 1e-12);
        }
        let n = each.len();
        if n > 1 {
            assert!(length / (n as f64 - 1.0) > max as f64);
        }
    }
}

#[test]
fn largest_coordinates_are_taken() {
    let pieces = partition_line(&pt(0, 0), &pt(MAX_COORDINATE, MAX_COORDINATE), MAX_COORDINATE, MAX_COORDINATE, 1);
    assert_eq!(pieces.segments.len(), 2);
    assert_eq!(pieces.x_scale, 2 * MAX_COORDINATE);
    assert_eq!(pieces.segments[1].stop, pt(2 * MAX_COORDINATE, 2 * MAX_COORDINATE));
}

#[test]
fn curve_in_frame_is_cut_to_pixel_steps() {
    let mut lines = HilbertCurve::new(2).path();
    assert_eq!(crop_to_scale(&mut lines, 9, 9), Ok(()));
    assert_eq!(lines.x_scale, 3);
    for s in &lines.segments {
        let pieces = partition_line(&s.start, &s.stop, lines.x_scale, lines.y_scale, 1);
        assert_eq!(pieces.segments.len(), 3);
        assert_eq!(at(pieces.segments[0].start, &pieces), at(s.start, &lines));
        assert_eq!(at(pieces.segments[2].stop, &pieces), at(s.stop, &lines));
        for l in lengths(&pieces) {
            assert_eq!(l, 1.0);
        }
    }
}

#[test]
fn scan_lines_are_cut_into_pixel_steps() {
    // Horizontal lines across an image of 64 by 48 pixels, one every 20 rows.
    let (width, height) = (64u64, 48u64);
    for y in (0..height).step_by(20) {
        let pieces = partition_line(&pt(0, y), &pt(width, y), 1, 1, 1);
        assert_eq!(pieces.segments.len() as u64, width);
        assert_eq!(pieces.x_scale, width);
        assert_eq!(pieces.y_scale, width);
        for (i, s) in pieces.segments.iter().enumerate() {
            assert_eq!(at(s.start, &pieces), (i as f64, y as f64));
            assert_eq!(at(s.stop, &pieces), (i as f64 + 1.0, y as f64));
        }
    }
}

#[test]
fn can_partition_checks_every_bound() {
    let m = MAX_COORDINATE;
    let fine = Path { segments: vec![seg(0, 0, m, m), seg(m, 0, 0, m)], x_scale: m, y_scale: 1 };
    assert!(can_partition(&fine));
    assert!(can_partition(&Path { segments: vec![], x_scale: 1, y_scale: 1 }));
    for (xs, ys) in [(0, 1), (1, 0), (m + 1, 1), (1, m + 1)] {
        assert!(!can_partition(&Path { segments: vec![], x_scale: xs, y_scale: ys }));
    }
    for far in [seg(m + 1, 0, 0, 0), seg(0, m + 1, 0, 0), seg(0, 0, m + 1, 0), seg(0, 0, 0, m + 1)] {
        let lines = Path { segments: vec![seg(1, 1, 2, 2), far], x_scale: 1, y_scale: 1 };
        assert!(!can_partition(&lines));
    }
}

#[test]
fn fitted_curves_can_be_partitioned() {
    for order in 1..6usize {
        let mut lines = HilbertCurve::new(order).path();
        assert_eq!(crop_to_scale(&mut lines, 300, 200), Ok(()));
        assert!(can_partition(&lines));
    }
}
