//! Polygon construction, area and scaling.

use rustlike::geometry::Polygon;

// A 10-unit square in milli-units. The closed shoelace sum is 200_000_000,
// the centroid floor is (5, 5) units, so the stored loop is the input
// shifted by exactly that and closed.
#[test]
fn construct_square_recentres_exactly() {
    let p = Polygon::new(
        vec![0, 10_000, 10_000, 0],
        vec![0, 0, 10_000, 10_000],
    )
    .unwrap();
    assert_eq!(p.den, 1000);
    assert_eq!(p.pts.len(), 5);
    let got: Vec<(i64, i64)> = p.pts.iter().map(|v| (v.x, v.y)).collect();
    assert_eq!(
        got,
        vec![
            (-5000, -5000),
            (5000, -5000),
            (5000, 5000),
            (-5000, 5000),
            (-5000, -5000)
        ]
    );
}

// Area is preserved by recentring: the closed shoelace numerator of the
// output equals that of the closed input, exactly.
#[test]
fn construct_preserves_area_exactly() {
    let p = Polygon::new(
        vec![0, 10_000, 10_000, 0],
        vec![0, 0, 10_000, 10_000],
    )
    .unwrap();
    // |csum| = 2 * area; area = 100 square units = 1e8 square milli-units.
    assert_eq!(p.area2(), 200_000_000);
}

// The right triangle used by the collision scenarios: legs 4 and 3 units.
#[test]
fn construct_right_triangle() {
    let p = Polygon::new(vec![0, 4000, 0], vec![0, 0, 3000]).unwrap();
    let got: Vec<(i64, i64)> = p.pts.iter().map(|v| (v.x, v.y)).collect();
    assert_eq!(
        got,
        vec![(-1333, -1000), (2667, -1000), (-1333, 2000), (-1333, -1000)]
    );
    assert_eq!(p.area2(), 12_000_000);
}

// The recentred centroid is within one milli-unit of the origin for closed
// inputs: feed the recentred loop of a closed chain back into construction
// and the shift is zero.
#[test]
fn recentring_closed_input_is_idempotent() {
    // A closed input chain (first point repeated at the end).
    let p = Polygon::new(
        vec![-5000, 5000, 5000, -5000, -5000],
        vec![-5000, -5000, 5000, 5000, -5000],
    )
    .unwrap();
    let got: Vec<(i64, i64)> = p.pts.iter().take(4).map(|v| (v.x, v.y)).collect();
    assert_eq!(
        got,
        vec![(-5000, -5000), (5000, -5000), (5000, 5000), (-5000, 5000)]
    );
}

// The centroid sums run over the closed loop: for this triangle the closing
// edge carries a nonzero cross term, so an open-chain pseudo-centroid would
// recentre to the wrong point. The stored loop's own shoelace centroid
// (numerators over 3 * csum) lies within one milli-unit of the origin.
#[test]
fn construct_uses_closed_loop_centroid() {
    let p = Polygon::new(vec![10_000, 30_000, 10_000], vec![0, 0, 30_000]).unwrap();
    let got: Vec<(i64, i64)> = p.pts.iter().map(|v| (v.x, v.y)).collect();
    assert_eq!(
        got,
        vec![
            (-6666, -10_000),
            (13_334, -10_000),
            (-6666, 20_000),
            (-6666, -10_000)
        ]
    );
    assert_eq!(p.area2(), 600_000_000);
    // recompute the output loop's closed shoelace sums independently
    let mut t: i128 = 0;
    let mut sx: i128 = 0;
    let mut sy: i128 = 0;
    for k in 0..p.pts.len() - 1 {
        let (x0, y0) = (p.pts[k].x as i128, p.pts[k].y as i128);
        let (x1, y1) = (p.pts[k + 1].x as i128, p.pts[k + 1].y as i128);
        let c = x0 * y1 - x1 * y0;
        t += c;
        sx += c * (x0 + x1);
        sy += c * (y0 + y1);
    }
    // centroid = (sx, sy) / (3 t): within one milli-unit of the origin
    assert!(sx.abs() < 3 * t.abs());
    assert!(sy.abs() < 3 * t.abs());
}

// Degenerate (collinear) input is rejected: the shoelace sum is zero.
#[test]
fn construct_rejects_collinear_points() {
    assert!(Polygon::new(vec![0, 1000, 2000], vec![0, 1000, 2000]).is_none());
}

// Scaling by an integer factor multiplies the area by its square, exactly.
#[test]
fn scale_squares_the_area() {
    let mut p = Polygon::new(
        vec![0, 10_000, 10_000, 0],
        vec![0, 0, 10_000, 10_000],
    )
    .unwrap();
    let a0 = p.area2();
    assert!(p.scale(2, 1));
    assert_eq!(p.den, 1000);
    assert_eq!(p.area2(), 4 * a0);
}

// Scaling by a rational factor keeps the area exact at the representation
// level: numerators scale by q^2 while the denominator scales by r, so the
// area value scales by exactly (q/r)^2.
#[test]
fn scale_by_rational_factor_is_exact() {
    let mut p = Polygon::new(
        vec![0, 10_000, 10_000, 0],
        vec![0, 0, 10_000, 10_000],
    )
    .unwrap();
    assert!(p.scale(3, 2));
    assert_eq!(p.den, 2000);
    // numerators scaled by 3: value scaled by 3/2, area by 9/4.
    // area value in square units: csum / (2 den^2) = 9 * 2e8 / (2 * 4e6) = 225.
    assert_eq!(p.area2(), 9 * 200_000_000);
}

// scale_to_area lands at most the target and within the square-root bracket
// below it.
#[test]
fn scale_to_area_brackets_the_target() {
    let mut p = Polygon::new(vec![0, 2000, 2000, 0], vec![0, 0, 2000, 2000]).unwrap();
    assert_eq!(p.area2(), 8_000_000);
    // mass of the 2-unit square: 4 square units = 4_000_000 micro-units^2.
    let target: i64 = 47_500_000;
    assert!(p.scale_to_area(target));
    assert_eq!(p.den, 1_000_000);
    let achieved = (p.area2() * 500_000 / (p.den as i128 * p.den as i128)) as i64;
    assert!(achieved <= target);
    assert!(target - achieved < 100_000);
}

// A random polygon is well-formed: 3 to 11 vertices plus the closing
// duplicate, milli-unit denominator, positive area.
#[test]
fn random_polygon_is_well_formed() {
    for _ in 0..50 {
        let p = Polygon::random().expect("degenerate random polygon");
        assert!(p.pts.len() >= 4 && p.pts.len() <= 12);
        assert_eq!(p.den, 1000);
        assert_eq!(p.pts.first().unwrap(), p.pts.last().unwrap());
        assert!(p.area2() > 0);
        for v in &p.pts {
            assert!(v.x.abs() <= 2000 * p.den && v.y.abs() <= 2000 * p.den);
        }
    }
}
