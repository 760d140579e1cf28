//! Edge hit detection and the splitting arithmetic.

use rustlike::body::{euclidean, RigidBody};
use rustlike::collision::{seg_hits, split_children, SplitDraws};
use rustlike::geometry::{Polygon, V2};

// A bullet exactly on an edge midpoint hits; one outside the bounding
// radius misses. The asteroid is the known right triangle, posed at
// (50, 50) with some rotation; the edge endpoints are taken from the same
// world transform the detector uses.
#[test]
fn bullet_on_edge_midpoint_hits() {
    let p = Polygon::new(vec![0, 4000, 0], vec![0, 0, 3000]).unwrap();
    let body = RigidBody {
        x: V2 { x: 50_000, y: 50_000 },
        v: V2 { x: 0, y: 0 },
        phi: 700,
        omega: 0,
    };
    let w0 = euclidean(&p.pts[0], p.den, body.phi, &body.x);
    let w1 = euclidean(&p.pts[1], p.den, body.phi, &body.x);
    let mid = V2 {
        x: (w0.x + w1.x) / 2,
        y: (w0.y + w1.y) / 2,
    };
    assert!(seg_hits(&w0, &w1, &mid));

    let far = V2 { x: 90_000, y: 90_000 };
    assert!(!seg_hits(&w0, &w1, &far));
}

// Strictly interior projection only: a bullet half a unit beyond an endpoint
// projects outside (0, 1) and does not hit, even though it is within half a
// unit of the segment's carrier line's endpoint region.
#[test]
fn endpoint_projection_does_not_hit() {
    let a = V2 { x: 0, y: 0 };
    let b = V2 { x: 1000, y: 0 };
    // beyond b on the segment's line, 0.2 units away from b
    let beyond = V2 { x: 1200, y: 0 };
    assert!(!seg_hits(&a, &b, &beyond));
    // interior point, 0.3 units off the segment: a hit
    let near = V2 { x: 500, y: 300 };
    assert!(seg_hits(&a, &b, &near));
    // interior point, 0.5 units off exactly: not a hit (strict)
    let at_limit = V2 { x: 500, y: 500 };
    assert!(!seg_hits(&a, &b, &at_limit));
    // a zero-length edge never hits
    assert!(!seg_hits(&a, &a, &a));
}

// The split partitions the dissipated mass exactly and solves the second
// child's velocity and spin from conservation.
#[test]
fn split_conserves_mass_and_momentum() {
    let parent = RigidBody {
        x: V2 { x: 50_000, y: 50_000 },
        v: V2 { x: 2000, y: 1000 },
        phi: 0,
        omega: 400,
    };
    let bullet_v = V2 { x: 3000, y: 0 };
    let m: i64 = 100_000_000; // 100 square units, in micro-units^2
    let d = SplitDraws {
        frac: 500,
        dir_x: 500,
        dir_y: 500,
        spin: 500,
        phi1: 100,
        phi2: 200,
    };
    let (rb1, rb2, a1, a2) = split_children(&parent, &bullet_v, m, &d);

    // mass: a1 + a2 == 0.95 * m exactly
    assert_eq!(a1 + a2, 95_000_000);
    assert_eq!(a1, 47_500_000);
    assert_eq!(a2, 47_500_000);

    // first child takes the drawn direction (here zero) and spin
    assert_eq!((rb1.v.x, rb1.v.y), (0, 0));
    assert_eq!(rb1.omega, 0);
    assert_eq!((rb1.phi, rb2.phi), (100, 200));
    assert_eq!(rb1.x, parent.x);
    assert_eq!(rb2.x, parent.x);

    // second child's solved velocity: (m*v + 0.5*vb - v1*a1) / a2, truncated
    assert_eq!((rb2.v.x, rb2.v.y), (4242, 2105));
    // angular momentum: (m * omega - a1 * omega1) / a2 = 842 (truncated)
    assert_eq!(rb2.omega, 842);

    // momentum conservation within one quantum of a2, per axis
    let mx = (parent.v.x as i128) * (m as i128) + (bullet_v.x as i128) * 500_000;
    let my = (parent.v.y as i128) * (m as i128) + (bullet_v.y as i128) * 500_000;
    let px = (rb1.v.x as i128) * (a1 as i128) + (rb2.v.x as i128) * (a2 as i128);
    let py = (rb1.v.y as i128) * (a1 as i128) + (rb2.v.y as i128) * (a2 as i128);
    assert!((px - mx).abs() < a2 as i128);
    assert!((py - my).abs() < a2 as i128);

    // angular momentum (full parent mass) within one quantum of a2
    let lw = (m as i128) * (parent.omega as i128);
    let cw = (rb1.omega as i128) * (a1 as i128) + (rb2.omega as i128) * (a2 as i128);
    assert!((cw - lw).abs() < a2 as i128);
}

// An uneven draw still partitions the dissipated mass exactly.
#[test]
fn split_uneven_fraction_partitions_exactly() {
    let parent = RigidBody {
        x: V2 { x: 0, y: 0 },
        v: V2 { x: -1500, y: 2500 },
        phi: 0,
        omega: -300,
    };
    let bullet_v = V2 { x: 0, y: -4000 };
    let m: i64 = 20_000_000;
    let d = SplitDraws {
        frac: 137,
        dir_x: 900,
        dir_y: 100,
        spin: 250,
        phi1: 0,
        phi2: 999,
    };
    let (rb1, rb2, a1, a2) = split_children(&parent, &bullet_v, m, &d);
    assert_eq!(a1 + a2, 19_000_000);
    assert_eq!(a1, 19_000_000i64 * 137 / 1000);
    assert_eq!((rb1.v.x, rb1.v.y), (800, -800));
    assert_eq!(rb1.omega, -250);
    let my = (parent.v.y as i128) * (m as i128) + (bullet_v.y as i128) * 500_000;
    let py = (rb1.v.y as i128) * (a1 as i128) + (rb2.v.y as i128) * (a2 as i128);
    assert!((py - my).abs() < a2 as i128);
}
