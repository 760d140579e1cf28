//! Rigid-body integration: the toroidal wrap fixture and the speed clamp.

use rustlike::body::RigidBody;
use rustlike::geometry::V2;

// The wrap regression fixture: a body at (-1, 50) units with zero velocity.
// After one step: y = 50 stays, x < 0 adds the field side (x = 99) and
// re-mirrors y (y = 100 - 50 = 50); no flip was set. Result (99, 50).
#[test]
fn wrap_fixture_negative_x() {
    let mut b = RigidBody {
        x: V2 { x: -1000, y: 50_000 },
        v: V2 { x: 0, y: 0 },
        phi: 0,
        omega: 0,
    };
    b.step();
    assert_eq!((b.x.x, b.x.y), (99_000, 50_000));
}

// A body below the bottom edge: y wraps up and the flip flag then mirrors x.
#[test]
fn wrap_fixture_negative_y_flips_x() {
    let mut b = RigidBody {
        x: V2 { x: 30_000, y: -1000 },
        v: V2 { x: 0, y: 0 },
        phi: 0,
        omega: 0,
    };
    b.step();
    // y: -1 + 100 = 99; flip set; x: 100 - 30 = 70.
    assert_eq!((b.x.x, b.x.y), (70_000, 99_000));
}

// Position advances by velocity times dt = 0.06 exactly (truncated to
// milli-units), orientation by angular velocity times dt.
#[test]
fn step_integrates_velocity() {
    let mut b = RigidBody {
        x: V2 { x: 10_000, y: 20_000 },
        v: V2 { x: 5000, y: -2000 },
        phi: 1000,
        omega: 500,
    };
    b.step();
    // dx = 5000 * 60 / 1000 = 300; dy = -2000 * 60 / 1000 = -120.
    assert_eq!((b.x.x, b.x.y), (10_300, 19_880));
    // dphi = 500 * 60 / 1000 = 30.
    assert_eq!(b.phi, 1030);
    assert_eq!((b.v.x, b.v.y), (5000, -2000));
    assert_eq!(b.omega, 500);
}

// The clamp leaves slow velocities alone and rescales fast ones to at most
// 10 units of magnitude.
#[test]
fn clamp_speed_limits_magnitude() {
    let mut v = V2 { x: 3000, y: 4000 };
    rustlike::body::clamp_speed(&mut v);
    assert_eq!((v.x, v.y), (3000, 4000));

    let mut w = V2 { x: 30_000, y: 40_000 };
    rustlike::body::clamp_speed(&mut w);
    let s2 = (w.x as i128) * (w.x as i128) + (w.y as i128) * (w.y as i128);
    assert!(s2 <= 100_000_000);
    // the direction is kept: 3:4 ratio, both positive
    assert!(w.x > 0 && w.y > 0);
    assert!((w.y as i128) * 3 - (w.x as i128) * 4 <= 4 && (w.x as i128) * 4 - (w.y as i128) * 3 <= 4);
}

// The world transform at a zero angle is (close to) a pure translation.
#[test]
fn euclidean_translates_at_zero_angle() {
    let v = V2 { x: 2000, y: -1000 };
    let dv = V2 { x: 50_000, y: 50_000 };
    let w = rustlike::body::euclidean(&v, 1000, 0, &dv);
    assert!((w.x - 52_000).abs() <= 5);
    assert!((w.y - 49_000).abs() <= 5);
}
