use ffinterp::fixed::{COORD_LIMIT, SCALE};
use rayon::iter::{IntoParallelRefIterator, ParallelIterator};
use ffinterp::interpolation::one_d::Interpolant1D;
use ffinterp::interpolation::{ConstructionError, FreeVariables, Interpolant, Point};

fn fixed(v: f64) -> i64 {
    (v * SCALE as f64).round() as i64
}

fn as_value(v: i64) -> f64 {
    v as f64 / SCALE as f64
}

fn pt(x: f64, y: f64) -> Point {
    Point::new(fixed(x), fixed(y))
}

fn tent() -> Vec<Point> {
    vec![pt(0.0, 0.0), pt(0.5, 1.0), pt(1.0, 0.0)]
}

fn build(points: &[Point], fv: FreeVariables, iterations: usize) -> Interpolant1D {
    match Interpolant1D::new(points, fv, iterations) {
        Ok(ip) => ip,
        Err(e) => panic!("construction failed: {:?}", e),
    }
}

fn construction_error(points: &[Point], fv: FreeVariables) -> ConstructionError {
    match Interpolant1D::new(points, fv, 10) {
        Ok(_) => panic!("construction succeeded"),
        Err(e) => e,
    }
}

#[test]
fn interpolant1d_evaluate_works() {
    let n = 1000;
    let mut points = Vec::<Point>::with_capacity(n);
    for i in 0..n {
        let x = i as f64 / n as f64;
        points.push(pt(x, x.sin()));
    }

    let interpolant = build(&points, FreeVariables::Scalar(fixed(0.01)), 10);

    for point in points.iter() {
        let value = interpolant.evaluate(point.x);
        assert!((as_value(value) - as_value(point.y)).abs() <= 1e-6);
    }

    let test_points_n = n * 5;

    for i in 0..test_points_n {
        let x = i as f64 / n as f64;
        let _value = interpolant.evaluate(fixed(x));
    }
}

#[test]
fn zero_contraction_is_linear_interpolation() {
    let ip = build(&tent(), FreeVariables::Scalar(0), 1);
    assert_eq!(ip.evaluate(fixed(0.25)), fixed(0.5));
    assert_eq!(ip.evaluate(fixed(0.75)), fixed(0.5));
    assert_eq!(ip.evaluate(fixed(0.1)), fixed(0.2));
}

#[test]
fn half_contraction_on_tent() {
    let ip2 = build(&tent(), FreeVariables::Scalar(fixed(0.5)), 2);
    assert_eq!(ip2.evaluate(fixed(0.25)), fixed(1.0));
    let ip1 = build(&tent(), FreeVariables::Scalar(fixed(0.5)), 1);
    assert_eq!(ip1.evaluate(fixed(0.25)), fixed(0.5));
}

#[test]
fn map_coefficients_of_tent() {
    let ip = build(&tent(), FreeVariables::Scalar(fixed(0.5)), 1);
    let maps = ip.maps();
    assert_eq!(maps.len(), 2);
    assert_eq!(maps[0].a, 500_000_000);
    assert_eq!(maps[0].e, 0);
    assert_eq!(maps[0].c, 1_000_000_000_000_000_000);
    assert_eq!(maps[0].f, 0);
    assert_eq!(maps[0].d, 500_000_000);
    assert_eq!(maps[0].end_x, fixed(0.5));
    assert_eq!(maps[1].a, 500_000_000);
    assert_eq!(maps[1].e, 500_000_000_000_000_000);
    assert_eq!(maps[1].c, -1_000_000_000_000_000_000);
    assert_eq!(maps[1].f, 1_000_000_000_000_000_000_000_000_000);
    assert_eq!(maps[1].end_x, fixed(1.0));
    assert!(maps[0].end_x < maps[1].end_x);
}

#[test]
fn exact_at_samples() {
    let points = vec![pt(0.0, 0.0), pt(0.3, 0.7), pt(0.55, -0.2), pt(0.8, 0.4), pt(1.0, 1.5)];
    for d in [0.0, 0.3, -0.6, 0.9] {
        let ip = build(&points, FreeVariables::Scalar(fixed(d)), 7);
        for p in points.iter() {
            assert_eq!(ip.evaluate(p.x), p.y);
        }
    }
}

#[test]
fn exact_at_samples_with_zero_factors() {
    let points = vec![pt(0.0, 2.0), pt(0.25, 0.7), pt(0.5, -1.0), pt(1.0, 3.0)];
    let ip = build(&points, FreeVariables::Array(vec![0, 0, 0]), 3);
    for p in points.iter() {
        assert_eq!(ip.evaluate(p.x), p.y);
    }
}

#[test]
fn boundary_values_are_clamped() {
    let points = vec![pt(1.0, 3.0), pt(-1.0, 2.0), pt(0.0, -4.0)];
    let ip = build(&points, FreeVariables::Scalar(fixed(0.3)), 5);
    assert_eq!(ip.evaluate(fixed(-1.0)), fixed(2.0));
    assert_eq!(ip.evaluate(fixed(-7.5)), fixed(2.0));
    assert_eq!(ip.evaluate(i64::MIN), fixed(2.0));
    assert_eq!(ip.evaluate(fixed(1.0)), fixed(3.0));
    assert_eq!(ip.evaluate(fixed(12.0)), fixed(3.0));
    assert_eq!(ip.evaluate(i64::MAX), fixed(3.0));
}

#[test]
fn points_are_sorted_by_x() {
    let points = vec![pt(0.9, 1.0), pt(0.1, 2.0), pt(0.5, 3.0), pt(0.3, 4.0)];
    let ip = build(&points, FreeVariables::Scalar(0), 1);
    let xs: Vec<i64> = ip.points().iter().map(|p| p.x).collect();
    assert_eq!(xs, vec![fixed(0.1), fixed(0.3), fixed(0.5), fixed(0.9)]);
    assert_eq!(ip.points()[0].y, fixed(2.0));
    assert_eq!(ip.evaluate(fixed(0.3)), fixed(4.0));
}

#[test]
fn batch_matches_single_evaluations() {
    let points = vec![pt(0.0, 0.0), pt(0.2, 0.5), pt(0.6, -0.3), pt(1.0, 0.8)];
    let ip = build(&points, FreeVariables::Array(vec![fixed(0.4), fixed(-0.2), fixed(0.7)]), 20);
    let xs: Vec<i64> = (0..200).map(|i| fixed(i as f64 / 150.0 - 0.2)).collect();
    let many = ip.evaluate_many(&xs);
    assert_eq!(many.len(), xs.len());
    for (i, x) in xs.iter().enumerate() {
        assert_eq!(many[i], ip.evaluate(*x));
    }
    assert!(ip.evaluate_many(&[]).is_empty());
}

#[test]
fn more_iterations_converge() {
    let points = vec![pt(0.0, 0.0), pt(0.4, 1.0), pt(0.7, 0.2), pt(1.0, 0.5)];
    let at = |iterations: usize, x: f64| {
        build(&points, FreeVariables::Scalar(fixed(0.5)), iterations).evaluate(fixed(x))
    };
    for x in [0.13, 0.5, 0.91] {
        for k in 1..12 {
            let change = (at(k + 1, x) - at(k, x)).abs();
            assert!(change as f64 <= 4.0 * 0.5f64.powi(k as i32) * SCALE as f64);
        }
        assert_eq!(at(100, x), at(400, x));
    }
}

#[test]
fn divergent_contraction_is_reported() {
    let ip = build(&tent(), FreeVariables::Scalar(fixed(1.0)), 4);
    assert!(ip.has_divergent_contraction());
    let ip = build(&tent(), FreeVariables::Array(vec![fixed(0.5), fixed(-1.5)]), 4);
    assert!(ip.has_divergent_contraction());
    let ip = build(&tent(), FreeVariables::Scalar(fixed(0.99)), 4);
    assert!(!ip.has_divergent_contraction());
    assert_eq!(ip.iterations(), 4);
}

#[test]
fn too_few_points_are_rejected() {
    assert_eq!(construction_error(&[], FreeVariables::Scalar(0)), ConstructionError::InsufficientPoints);
    assert_eq!(
        construction_error(&[pt(0.0, 1.0)], FreeVariables::Scalar(0)),
        ConstructionError::InsufficientPoints
    );
}

#[test]
fn wrong_free_variable_count_is_rejected() {
    assert_eq!(
        construction_error(&tent(), FreeVariables::Array(vec![0])),
        ConstructionError::FreeVariableArityMismatch
    );
    assert_eq!(
        construction_error(&tent(), FreeVariables::Array(vec![0, 0, 0])),
        ConstructionError::FreeVariableArityMismatch
    );
}

#[test]
fn extreme_coordinates_are_accepted() {
    let points = vec![Point::new(i64::MIN, i64::MAX), Point::new(0, i64::MIN), Point::new(i64::MAX, 7)];
    let ip = build(&points, FreeVariables::Scalar(i64::MAX), 30);
    assert!(ip.has_divergent_contraction());
    assert_eq!(ip.evaluate(i64::MIN), i64::MAX);
    assert_eq!(ip.evaluate(i64::MAX), 7);
    let _ = ip.evaluate_many(&[-5, 0, 5, i64::MIN / 2, i64::MAX / 3]);
    let points = vec![pt(0.0, 0.0), Point::new(COORD_LIMIT + 1, 0)];
    assert!(Interpolant1D::new(&points, FreeVariables::Scalar(0), 3).is_ok());
}

#[test]
fn large_free_variable_is_accepted_and_reported() {
    let ip = build(&tent(), FreeVariables::Scalar(fixed(5.0)), 6);
    assert!(ip.has_divergent_contraction());
    assert_eq!(ip.evaluate(fixed(0.0)), 0);
    assert_eq!(ip.evaluate(fixed(1.0)), 0);
    let ip = build(&tent(), FreeVariables::Array(vec![i64::MIN, fixed(0.5)]), 6);
    assert!(ip.has_divergent_contraction());
    let _ = ip.evaluate(fixed(0.3));
}

#[test]
fn equal_x_points_are_ordered_by_y() {
    let points = vec![pt(0.5, 2.0), pt(1.0, 0.0), pt(0.5, -1.0), pt(0.0, 0.0)];
    let ip = build(&points, FreeVariables::Scalar(0), 1);
    let ys: Vec<i64> = ip.points().iter().map(|p| p.y).collect();
    assert_eq!(ys, vec![0, fixed(-1.0), fixed(2.0), 0]);
    let reordered = vec![pt(0.5, -1.0), pt(0.0, 0.0), pt(1.0, 0.0), pt(0.5, 2.0)];
    let other = build(&reordered, FreeVariables::Scalar(0), 1);
    assert_eq!(other.points(), ip.points());
}

#[test]
fn equal_x_coordinates_do_not_fail() {
    let points = vec![pt(0.5, 1.0), pt(0.5, 2.0)];
    let ip = build(&points, FreeVariables::Scalar(fixed(0.5)), 3);
    let v = ip.evaluate(fixed(0.5));
    assert!(v == fixed(1.0) || v == fixed(2.0));
    let points = vec![pt(0.0, 0.0), pt(0.5, 1.0), pt(0.5, 1.0), pt(1.0, 0.0)];
    let ip = build(&points, FreeVariables::Scalar(0), 2);
    assert_eq!(ip.evaluate(fixed(0.25)), fixed(0.5));
}

#[test]
fn large_contraction_saturates_without_failing() {
    let ip = build(&tent(), FreeVariables::Scalar(fixed(-4.0)), 10_000);
    assert!(ip.has_divergent_contraction());
    let _ = ip.evaluate(fixed(0.3));
    let _ = ip.evaluate_many(&[fixed(0.1), fixed(0.6)]);
}

#[test]
fn parallel_batch_matches_sequential() {
    let points: Vec<Point> = (0..50).map(|i| pt(i as f64 / 49.0, ((i * 7) % 11) as f64 / 10.0)).collect();
    let ip = build(&points, FreeVariables::Scalar(fixed(0.35)), 25);
    let xs: Vec<i64> = (0..3000).map(|i| fixed(i as f64 / 2500.0 - 0.1)).collect();
    let sequential = ip.evaluate_many(&xs);
    for threads in [1, 2, 4, 7] {
        let pool = rayon::ThreadPoolBuilder::new().num_threads(threads).build().unwrap();
        let parallel: Vec<i64> = pool.install(|| xs.par_iter().map(|&x| ip.evaluate(x)).collect());
        assert_eq!(parallel, sequential);
    }
}

#[test]
fn zero_factors_give_piecewise_linear_values() {
    let points = vec![pt(0.0, 1.0), pt(0.2, -0.5), pt(0.7, 2.5), pt(1.0, 0.0)];
    let ip = build(&points, FreeVariables::Scalar(0), 3);
    for (x, expected) in [(0.1, 0.25), (0.45, 1.0), (0.6, 1.9), (0.85, 1.25)] {
        let value = ip.evaluate(fixed(x));
        assert!((value - fixed(expected)).abs() <= 2, "{} {}", value, fixed(expected));
    }
}

#[test]
fn budget_beyond_cutoff_changes_nothing() {
    // 0.5^30 < 1e-9: from 30 rounds on the value is fixed.
    let points = vec![pt(0.0, 0.3), pt(0.35, 1.0), pt(0.6, -0.4), pt(1.0, 0.9)];
    let at = |iterations: usize, x: f64| {
        build(&points, FreeVariables::Array(vec![fixed(0.5), fixed(-0.5), fixed(0.25)]), iterations)
            .evaluate(fixed(x))
    };
    for x in [0.05, 0.42, 0.77] {
        assert_eq!(at(30, x), at(31, x));
        assert_eq!(at(30, x), at(1000, x));
    }
}
