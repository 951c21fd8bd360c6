use rust_render_101::circle::trace_circle;
use rust_render_101::line::trace_line;
use rust_render_101::mask::{circular_mask, square_mask};

fn connected(points: &[(i32, i32)]) -> bool {
    points.windows(2).all(|w| {
        let (dx, dy) = ((w[1].0 - w[0].0).abs(), (w[1].1 - w[0].1).abs());
        dx <= 1 && dy <= 1 && (dx, dy) != (0, 0)
    })
}

#[test]
fn line_runs_between_its_endpoints_in_order() {
    for &(x0, y0, x1, y1) in &[(0, 0, 5, 2), (5, 2, 0, 0), (3, -4, 3, 6), (3, 6, 3, -4), (-2, -2, 7, 7), (9, 1, 2, 8)] {
        let l = trace_line(x0, y0, x1, y1);
        assert_eq!(l[0], (x0, y0));
        assert_eq!(*l.last().unwrap(), (x1, y1));
        assert!(connected(&l));
    }
}

#[test]
fn flat_line_points() {
    assert_eq!(trace_line(0, 0, 4, 1), vec![(0, 0), (1, 0), (2, 0), (3, 1), (4, 1)]);
    assert_eq!(trace_line(4, 1, 0, 0), vec![(4, 1), (3, 1), (2, 0), (1, 0), (0, 0)]);
}

#[test]
fn steep_line_points() {
    assert_eq!(trace_line(0, 0, 1, 3), vec![(0, 0), (0, 1), (1, 2), (1, 3)]);
}

#[test]
fn zero_length_line_is_one_point() {
    assert_eq!(trace_line(7, -3, 7, -3), vec![(7, -3)]);
}

#[test]
fn circle_is_symmetric() {
    for r in 0..12 {
        let c = trace_circle(0, 0, r);
        for &(x, y) in &c {
            assert!(c.contains(&(-x, y)));
            assert!(c.contains(&(x, -y)));
            assert_eq!(x * x + y * y <= (r + 1) * (r + 1), true);
        }
    }
}

#[test]
fn circle_of_radius_zero_and_negative() {
    assert_eq!(trace_circle(3, 4, 0), vec![(3, 4); 8]);
    assert!(trace_circle(3, 4, -1).is_empty());
}

#[test]
fn circle_of_radius_two() {
    let c = trace_circle(0, 0, 2);
    assert_eq!(c.len(), 16);
    assert_eq!(&c[0..8], &[(0, 2), (2, 0), (0, 2), (-2, 0), (0, -2), (2, 0), (0, -2), (-2, 0)]);
    assert_eq!(&c[8..16], &[(1, 2), (2, 1), (-1, 2), (-2, 1), (1, -2), (2, -1), (-1, -2), (-2, -1)]);
}

#[test]
fn circular_mask_of_weight_one() {
    assert_eq!(circular_mask(1), vec![(-1, 0), (0, -1), (0, 0), (0, 1), (1, 0)]);
    assert_eq!(circular_mask(0), vec![(0, 0)]);
    assert!(circular_mask(-3).is_empty());
}

#[test]
fn square_mask_is_the_outline() {
    assert_eq!(square_mask(0), vec![(0, 0); 4]);
    let m = square_mask(1);
    assert_eq!(m.len(), 12);
    assert_eq!(&m[0..4], &[(-1, -1), (1, -1), (-1, -1), (-1, 1)]);
    assert!(!m.contains(&(0, 0)));
    assert!(square_mask(-1).is_empty());
}
