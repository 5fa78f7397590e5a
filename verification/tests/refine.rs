use chaikin::chaikin::chaikin;
use chaikin::point::Point;

fn pts(coords: &[(i32, i32)]) -> Vec<Point> {
    coords.iter().map(|&(x, y)| Point::new(x, y)).collect()
}

// Coordinates below are written in quarter units where a scenario needs
// halves and quarters: 40 stands for 10.0, 10 for 2.5, 30 for 7.5.

#[test]
fn open_corner_yields_four_points_in_edge_order() {
    let input = pts(&[(0, 0), (40, 0), (40, 40)]);
    let out = chaikin(&input, false);
    assert_eq!(out, pts(&[(10, 0), (30, 0), (40, 10), (40, 30)]));
}

#[test]
fn closed_pair_cuts_both_directions() {
    let input = pts(&[(0, 0), (40, 0)]);
    let out = chaikin(&input, true);
    assert_eq!(out, pts(&[(10, 0), (30, 0), (30, 0), (10, 0)]));
}

#[test]
fn open_pair_has_one_edge() {
    let input = pts(&[(0, 0), (40, 0)]);
    let out = chaikin(&input, false);
    assert_eq!(out, pts(&[(10, 0), (30, 0)]));
}

#[test]
fn closed_triangle_adds_wrap_edge_last() {
    let input = pts(&[(0, 0), (40, 0), (40, 40)]);
    let out = chaikin(&input, true);
    assert_eq!(out, pts(&[(10, 0), (30, 0), (40, 10), (40, 30), (30, 30), (10, 10)]));
}

#[test]
fn open_length_is_twice_the_edges() {
    for n in 2..40usize {
        let input: Vec<Point> = (0..n).map(|i| Point::new(i as i32 * 8, (i * i) as i32)).collect();
        assert_eq!(chaikin(&input, false).len(), 2 * (n - 1));
    }
}

#[test]
fn closed_length_is_twice_the_points() {
    for n in 2..40usize {
        let input: Vec<Point> = (0..n).map(|i| Point::new(i as i32 * 8, (i * i) as i32)).collect();
        assert_eq!(chaikin(&input, true).len(), 2 * n);
    }
}

#[test]
fn empty_input_is_returned_unchanged() {
    let input: Vec<Point> = Vec::new();
    assert_eq!(chaikin(&input, false), input);
    assert_eq!(chaikin(&input, true), input);
}

#[test]
fn single_point_is_returned_unchanged() {
    let input = pts(&[(17, -3)]);
    assert_eq!(chaikin(&input, false), input);
    assert_eq!(chaikin(&input, true), input);
}

#[test]
fn input_endpoints_are_not_kept() {
    let input = pts(&[(0, 0), (400, 0), (400, 400), (0, 400)]);
    let out = chaikin(&input, false);
    assert_ne!(out[0], input[0]);
    assert_ne!(out[out.len() - 1], input[input.len() - 1]);
    assert_eq!(out[0], Point::new(100, 0));
    assert_eq!(out[out.len() - 1], Point::new(100, 400));
}

#[test]
fn quarter_and_three_quarters_are_distinct_weights() {
    let a = Point::new(0, 80);
    let b = Point::new(40, 0);
    assert_eq!(a.quarter(b), Point::new(10, 60));
    assert_eq!(a.three_quarters(b), Point::new(30, 20));
    assert_eq!(b.quarter(a), Point::new(30, 20));
    assert_eq!(b.three_quarters(a), Point::new(10, 60));
}

#[test]
fn interpolation_rounds_down_also_below_zero() {
    let a = Point::new(-1, 1);
    let b = Point::new(0, 0);
    // -0.75 and 0.75 round to -1 and 0; -0.25 and 0.25 likewise.
    assert_eq!(a.quarter(b), Point::new(-1, 0));
    assert_eq!(a.three_quarters(b), Point::new(-1, 0));
    assert_eq!(Point::new(0, 0).quarter(Point::new(7, -7)), Point::new(1, -2));
    assert_eq!(Point::new(0, 0).three_quarters(Point::new(7, -7)), Point::new(5, -6));
}

#[test]
fn interpolation_spans_the_whole_coordinate_range() {
    let lo = Point::new(i32::MIN, i32::MIN);
    let hi = Point::new(i32::MAX, i32::MAX);
    assert_eq!(lo.quarter(hi), Point::new(-1073741825, -1073741825));
    assert_eq!(lo.three_quarters(hi), Point::new(1073741823, 1073741823));
    assert_eq!(hi.quarter(hi), hi);
    assert_eq!(lo.three_quarters(lo), lo);
}

#[test]
fn points_on_a_line_stay_on_it() {
    // The line x - 3y = 4, sampled at evenly spaced, aligned points.
    let input = pts(&[(4, 0), (16, 4), (28, 8), (40, 12)]);
    for closed in [false, true] {
        let out = chaikin(&input, closed);
        for p in &out {
            assert_eq!(p.x - 3 * p.y, 4);
        }
        let again = chaikin(&out, closed);
        assert_eq!(again.len(), 2 * if closed { out.len() } else { out.len() - 1 });
    }
}

#[test]
fn rounding_can_leave_an_unaligned_line() {
    // (0,0), (3,1) lie on x = 3y, but the three-quarter cut (2.25, 0.75)
    // rounds down to (2, 0).
    let out = chaikin(&pts(&[(0, 0), (3, 1)]), false);
    assert_eq!(out, pts(&[(0, 0), (2, 0)]));
}

fn longest_edge(points: &[Point]) -> f64 {
    let mut longest: f64 = 0.0;
    for w in points.windows(2) {
        let dx = (w[1].x - w[0].x) as f64;
        let dy = (w[1].y - w[0].y) as f64;
        let len = (dx * dx + dy * dy).sqrt();
        if len > longest {
            longest = len;
        }
    }
    longest
}

#[test]
fn longest_edge_shrinks_with_every_step() {
    let scale = 4096;
    let mut current = pts(&[(0, 0), (100 * scale, 0), (100 * scale, 100 * scale), (0, 60 * scale)]);
    let mut previous = longest_edge(&current);
    for _ in 0..6 {
        current = chaikin(&current, false);
        let now = longest_edge(&current);
        assert!(now < previous);
        assert!(now <= previous / 2.0 + 1.0);
        previous = now;
    }
}

#[test]
fn six_steps_from_whole_pixels_lose_nothing() {
    let scale = chaikin::point::UNITS_PER_PIXEL;
    assert_eq!(scale, 4096);
    let pixels: [(i32, i32); 4] = [(3, 7), (120, -5), (64, 200), (-9, 41)];
    for closed in [false, true] {
        let mut fixed: Vec<Point> = pixels.iter().map(|&(x, y)| Point::new(x * scale, y * scale)).collect();
        let mut exact: Vec<(f64, f64)> = pixels.iter().map(|&(x, y)| (x as f64, y as f64)).collect();
        for _ in 0..6 {
            fixed = chaikin(&fixed, closed);
            let n = exact.len();
            let edges = if closed { n } else { n - 1 };
            let mut next = Vec::new();
            for i in 0..edges {
                let (ax, ay) = exact[i];
                let (bx, by) = exact[(i + 1) % n];
                next.push((0.75 * ax + 0.25 * bx, 0.75 * ay + 0.25 * by));
                next.push((0.25 * ax + 0.75 * bx, 0.25 * ay + 0.75 * by));
            }
            exact = next;
            assert_eq!(fixed.len(), exact.len());
            for (p, &(x, y)) in fixed.iter().zip(exact.iter()) {
                assert_eq!(p.x as f64, x * scale as f64);
                assert_eq!(p.y as f64, y * scale as f64);
            }
        }
    }
}

#[test]
fn every_edge_spans_at_most_half_of_the_longest_before() {
    let mut current = pts(&[(0, 0), (4096, 0), (4096, 8192), (-4096, 4096)]);
    let mut bound = 8192;
    for _ in 0..5 {
        current = chaikin(&current, true);
        bound /= 2;
        let n = current.len();
        for i in 0..n {
            let a = current[i];
            let b = current[(i + 1) % n];
            assert!((b.x - a.x).abs() <= bound);
            assert!((b.y - a.y).abs() <= bound);
        }
    }
}
