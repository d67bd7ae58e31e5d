use line_approximator::approximator::{fitted_curve, MAX_FRAME};
use line_approximator::hilbert_curve::HilbertCurve;
use line_approximator::image_utils::BrightnessGrid;
use line_approximator::line_utils::{crop_to_scale, partition_path, FrameError, MAX_COORDINATE};
use line_approximator::path::{Path, Point, Segment};

fn seg(x0: u64, y0: u64, x1: u64, y1: u64) -> Segment {
    Segment { start: Point { x: x0, y: y0 }, stop: Point { x: x1, y: y1 } }
}

fn lengths(lines: &Path) -> Vec<f64> {
    lines
        .segments
        .iter()
        .map(|s| {
            let dx = (s.stop.x as f64 - s.start.x as f64) / lines.x_scale as f64;
            let dy = (s.stop.y as f64 - s.start.y as f64) / lines.y_scale as f64;
            dx.hypot(dy)
        })
        .collect()
}

#[test]
fn fitted_curve_is_the_cropped_curve() {
    for order in 1..6usize {
        for (width, height) in [(4usize, 4usize), (7, 3), (1, 1), (10, 25), (640, 480)] {
            let mut expected = HilbertCurve::new(order).path();
            assert_eq!(crop_to_scale(&mut expected, width, height), Ok(()));
            assert_eq!(fitted_curve(order, width, height), Ok(expected));
        }
    }
}

#[test]
fn fitted_curve_of_order_one() {
    assert_eq!(
        fitted_curve(1, 4, 4),
        Ok(Path {
            segments: vec![seg(0, 0, 0, 4), seg(0, 4, 4, 4), seg(4, 4, 4, 0)],
            x_scale: 1,
            y_scale: 1,
        })
    );
}

#[test]
fn fitted_curve_needs_a_segment() {
    assert_eq!(fitted_curve(0, 4, 4), Err(FrameError::EmptyPath));
}

#[test]
fn fitted_curve_in_empty_frame_collapses() {
    let path = fitted_curve(1, 0, 0).unwrap();
    assert_eq!(path.segments.len(), 3);
    for s in &path.segments {
        assert_eq!(*s, seg(0, 0, 0, 0));
    }
}

#[test]
fn fitted_curve_can_always_be_cut() {
    let path = fitted_curve(7, MAX_FRAME, MAX_FRAME).unwrap();
    assert!(1 <= path.x_scale && path.x_scale <= MAX_COORDINATE);
    assert!(1 <= path.y_scale && path.y_scale <= MAX_COORDINATE);
    for s in &path.segments {
        for v in [s.start.x, s.start.y, s.stop.x, s.stop.y] {
            assert!(v <= MAX_COORDINATE);
        }
    }
    assert_eq!(path.x_scale, (1 << 7) - 1);
}

#[test]
fn partition_path_cuts_each_segment_on_its_own() {
    let lines = Path { segments: vec![seg(0, 0, 4, 0), seg(4, 0, 4, 1), seg(0, 0, 3, 4)], x_scale: 1, y_scale: 1 };
    let pieces = partition_path(&lines, 2);
    assert_eq!(pieces.len(), 3);
    assert_eq!(pieces[0], Path { segments: vec![seg(0, 0, 4, 0), seg(4, 0, 8, 0)], x_scale: 2, y_scale: 2 });
    assert_eq!(pieces[1], Path { segments: vec![seg(4, 0, 4, 1)], x_scale: 1, y_scale: 1 });
    assert_eq!(
        pieces[2],
        Path { segments: vec![seg(0, 0, 3, 4), seg(3, 4, 6, 8), seg(6, 8, 9, 12)], x_scale: 3, y_scale: 3 }
    );
}

#[test]
fn partition_path_of_nothing() {
    let lines = Path { segments: vec![], x_scale: 1, y_scale: 1 };
    assert!(partition_path(&lines, 1).is_empty());
}

#[test]
fn gray_image_under_order_one_curve() {
    // A 4 by 4 image of one gray value under the curve of order 1.
    let grid = BrightnessGrid::new(4, 4, vec![128; 16]).unwrap();
    let path = fitted_curve(1, grid.width(), grid.height()).unwrap();
    let total: f64 = lengths(&path).iter().sum();
    assert_eq!(total, 12.0);
    let max_thickness = (grid.width() * grid.height()) as f64 / total;
    assert_eq!(max_thickness, 16.0 / 12.0);

    // Every piece is one pixel long, and whatever is sampled around it is
    // the one gray value, so all pieces get the same thickness.
    let pieces = partition_path(&path, 1);
    assert_eq!(pieces.iter().map(|p| p.segments.len()).sum::<usize>(), 12);
    let mut thicknesses = Vec::new();
    for piece in &pieces {
        for (s, length) in piece.segments.iter().zip(lengths(piece)) {
            assert_eq!(length, 1.0);
            let x = (s.start.x / piece.x_scale) as i64;
            let y = (s.start.y / piece.y_scale) as i64;
            let mut sum = 0.0;
            for (dx, dy) in [(-1, -1), (0, 0), (1, 0), (0, 1)] {
                let around = grid.neighbours(x + dx, y + dy);
                for v in [around.top_left, around.top_right, around.bottom_left, around.bottom_right] {
                    assert_eq!(v, 128);
                    sum += v as f64;
                }
            }
            let mean = sum / 16.0;
            thicknesses.push((255.0 - mean) / 255.0 * max_thickness);
        }
    }
    assert_eq!(thicknesses.len(), 12);
    for t in &thicknesses {
        assert_eq!(*t, thicknesses[0]);
        assert_eq!(*t, 127.0 / 255.0 * (16.0 / 12.0));
    }
}

#[test]
fn white_and_black_images_give_the_extremes() {
    for (value, share) in [(255u8, 0.0), (0u8, 1.0)] {
        let grid = BrightnessGrid::new(3, 3, vec![value; 9]).unwrap();
        let around = grid.neighbours(1, 1);
        let mean = (around.top_left as f64 + around.top_right as f64 + around.bottom_left as f64
            + around.bottom_right as f64)
            / 4.0;
        assert_eq!((255.0 - mean) / 255.0, share);
    }
}
