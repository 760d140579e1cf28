//! The entity store, the tick systems and the deferred command discipline.

use rustlike::body::RigidBody;
use rustlike::geometry::{Polygon, V2};
use rustlike::world::{BulletAsteroidCollision, Command, Deferred, PhysicsUpdate, Role, Tint, World};

fn still_body(x: i64, y: i64) -> RigidBody {
    RigidBody {
        x: V2 { x, y },
        v: V2 { x: 0, y: 0 },
        phi: 0,
        omega: 0,
    }
}

fn push_raw(w: &mut World, body: RigidBody, role: Role, poly: Option<Polygon>) -> usize {
    let id = w.alive.len();
    w.alive.push(true);
    w.bodies.push(body);
    w.roles.push(role);
    w.polys.push(poly);
    w.rects.push(None);
    w.tints.push(Tint::White);
    id
}

#[test]
fn spawn_player_initial_state() {
    let mut w = World::new();
    w.spawn_player();
    assert_eq!(w.alive.len(), 1);
    assert!(w.alive[0]);
    assert!(matches!(w.roles[0], Role::Player { score: 0, health: 100 }));
    assert!(matches!(w.tints[0], Tint::Blue));
    let b = w.bodies[0];
    assert_eq!((b.x.x, b.x.y), (50_000, 50_000));
    assert_eq!((b.v.x, b.v.y), (0, 0));
    assert_eq!((b.phi, b.omega), (0, 0));
    let p = w.polys[0].as_ref().expect("player ship polygon");
    let got: Vec<(i64, i64)> = p.pts.iter().map(|v| (v.x, v.y)).collect();
    assert_eq!(
        got,
        vec![
            (-2083, 1500),
            (2917, 0),
            (-2083, -1500),
            (-833, 0),
            (-2083, 1500)
        ]
    );
}

#[test]
fn spawn_asteroid_ranges() {
    let mut w = World::new();
    for _ in 0..20 {
        w.spawn_asteroid();
    }
    assert!(w.alive.len() >= 1);
    for i in 0..w.alive.len() {
        assert!(matches!(w.roles[i], Role::Asteroid));
        let b = w.bodies[i];
        assert!(0 <= b.x.x && b.x.x < 100_000 && 0 <= b.x.y && b.x.y < 100_000);
        assert!(-5000 <= b.v.x && b.v.x < 5000 && -5000 <= b.v.y && b.v.y < 5000);
        assert!(0 <= b.phi && b.phi < 6283);
        assert!(-1000 <= b.omega && b.omega < 1000);
        assert!(w.polys[i].is_some());
    }
}

// Speed clamp: after any number of forward thrusts the player's speed
// magnitude never exceeds 10 units.
#[test]
fn thrust_sequence_never_exceeds_speed_limit() {
    let mut w = World::new();
    w.spawn_player();
    for k in 0..60 {
        w.move_player(Command::Fwd);
        if k % 7 == 0 {
            w.move_player(Command::RotRight);
        }
        let v = w.bodies[0].v;
        let s2 = (v.x as i128) * (v.x as i128) + (v.y as i128) * (v.y as i128);
        assert!(s2 <= 100_000_000);
    }
    // and thrust does accelerate from rest
    let v = w.bodies[0].v;
    assert!(v.x != 0 || v.y != 0);
}

#[test]
fn rotation_commands_turn_by_a_tenth() {
    let mut w = World::new();
    w.spawn_player();
    w.move_player(Command::RotRight);
    assert_eq!(w.bodies[0].phi, 100);
    w.move_player(Command::RotLeft);
    w.move_player(Command::RotLeft);
    assert_eq!(w.bodies[0].phi, -100);
}

#[test]
fn fire_bullet_spawns_from_player() {
    let mut w = World::new();
    w.spawn_player();
    w.spawn_bullet();
    assert_eq!(w.alive.len(), 2);
    assert!(matches!(w.roles[1], Role::Bullet));
    assert!(matches!(w.tints[1], Tint::Red));
    let b = w.bodies[1];
    // inherits the player's position and heading
    assert_eq!((b.x.x, b.x.y), (50_000, 50_000));
    assert_eq!(b.phi, 0);
    // the 15-unit boost along the zero heading, minus the recoil
    assert!(14_000 <= b.v.x && b.v.x <= 15_000);
    assert!(b.v.y.abs() <= 100);
    assert!(0 <= b.omega && b.omega < 6000);
    // the player took the recoil backwards
    assert!(w.bodies[0].v.x < 0);
    let r = w.rects[1].expect("bullet rectangle");
    assert_eq!((r.w, r.h), (1000, 500));
}

#[test]
fn fire_bullet_without_player_does_nothing() {
    let mut w = World::new();
    w.spawn_bullet();
    assert_eq!(w.alive.len(), 0);
}

// A small asteroid (area 4, at most the 10-square-unit threshold) is
// destroyed outright: no children are spawned on collision.
#[test]
fn small_asteroid_never_spawns_children() {
    let mut w = World::new();
    let poly = Polygon::new(vec![0, 2000, 2000, 0], vec![0, 0, 2000, 2000]).unwrap();
    assert_eq!(poly.area2(), 8_000_000); // area 4 square units
    let ai = push_raw(&mut w, still_body(50_000, 50_000), Role::Asteroid, Some(poly));
    let bi = push_raw(&mut w, still_body(50_000, 48_900), Role::Bullet, None);
    BulletAsteroidCollision::run(&mut w);
    w.commit();
    assert_eq!(w.alive.len(), 2); // zero new entities
    assert!(!w.alive[ai] && !w.alive[bi]);
}

// A large asteroid (area 100) splits into exactly two children, both tagged
// asteroids with polygons, both at the parent's position.
#[test]
fn large_asteroid_splits_into_two() {
    let mut w = World::new();
    let poly = Polygon::new(
        vec![0, 10_000, 10_000, 0],
        vec![0, 0, 10_000, 10_000],
    )
    .unwrap();
    assert_eq!(poly.area2(), 200_000_000); // area 100 square units
    let ai = push_raw(&mut w, still_body(50_000, 50_000), Role::Asteroid, Some(poly));
    let bi = push_raw(&mut w, still_body(50_000, 44_900), Role::Bullet, None);
    BulletAsteroidCollision::run(&mut w);
    w.commit();
    assert_eq!(w.alive.len(), 4);
    assert!(!w.alive[ai] && !w.alive[bi]);
    for k in 2..4 {
        assert!(w.alive[k]);
        assert!(matches!(w.roles[k], Role::Asteroid));
        let b = w.bodies[k];
        assert_eq!((b.x.x, b.x.y), (50_000, 50_000));
        let p = w.polys[k].as_ref().expect("child polygon");
        assert_eq!(p.den, 1_000_000);
    }
    // mass conservation within the 5% dissipation: the parent's mass is
    // 100_000_000 micro-units^2; children approach 95_000_000 from below.
    let mut total: i128 = 0;
    for k in 2..4 {
        let p = w.polys[k].as_ref().unwrap();
        total += p.area2() * 500_000 / (p.den as i128 * p.den as i128);
    }
    assert!(total <= 95_000_000);
    assert!(total > 94_000_000);
}

// A bullet far from every asteroid leaves the world untouched.
#[test]
fn no_hit_queues_nothing() {
    let mut w = World::new();
    let poly = Polygon::new(
        vec![0, 10_000, 10_000, 0],
        vec![0, 0, 10_000, 10_000],
    )
    .unwrap();
    push_raw(&mut w, still_body(20_000, 20_000), Role::Asteroid, Some(poly));
    push_raw(&mut w, still_body(80_000, 80_000), Role::Bullet, None);
    BulletAsteroidCollision::run(&mut w);
    assert_eq!(w.pending.len(), 0);
    w.commit();
    assert_eq!(w.alive.len(), 2);
    assert!(w.alive[0] && w.alive[1]);
}

// The commit point applies queued commands in order and empties the buffer.
#[test]
fn commit_applies_commands_in_order() {
    let mut w = World::new();
    let a = push_raw(&mut w, still_body(10_000, 10_000), Role::Asteroid, None);
    let poly = Polygon::new(vec![0, 2000, 2000, 0], vec![0, 0, 2000, 2000]).unwrap();
    w.pending.push(Deferred::Delete(a));
    w.pending
        .push(Deferred::SpawnAsteroid(still_body(5000, 5000), poly));
    w.commit();
    assert_eq!(w.pending.len(), 0);
    assert_eq!(w.alive.len(), 2);
    assert!(!w.alive[a]);
    assert!(w.alive[1]);
    assert!(matches!(w.roles[1], Role::Asteroid));
    assert!(matches!(w.tints[1], Tint::White));
}

// The integrator steps every live body and leaves dead slots alone.
#[test]
fn physics_update_steps_live_bodies() {
    let mut w = World::new();
    let a = push_raw(
        &mut w,
        RigidBody {
            x: V2 { x: 10_000, y: 10_000 },
            v: V2 { x: 1000, y: 0 },
            phi: 0,
            omega: 0,
        },
        Role::Asteroid,
        None,
    );
    let d = push_raw(&mut w, still_body(30_000, 30_000), Role::Bullet, None);
    w.alive[d] = false;
    let before_dead = w.bodies[d];
    PhysicsUpdate::run(&mut w);
    assert_eq!(w.bodies[a].x.x, 10_060); // 1000 * 0.06 = 60 milli
    assert_eq!(w.bodies[d], before_dead);
}

// One full tick runs integration, detection and the commit, leaving the
// queue empty.
#[test]
fn tick_commits_the_queue() {
    let mut w = World::new();
    w.spawn_player();
    w.spawn_asteroid();
    w.spawn_bullet();
    for _ in 0..10 {
        w.tick();
        assert_eq!(w.pending.len(), 0);
    }
}
